use uscope::bytes::ByteReader;
use uscope::checkpoint::{FieldOffsets, StorageState};
use uscope::types::{CheckpointBlock, FieldDef, FieldType, StorageDef, SF_SPARSE};
use uscope::wire::Wire;

fn make_test_storage() -> StorageDef {
    StorageDef {
        name: 0,
        storage_id: 0,
        num_slots: 4,
        num_fields: 2,
        flags: SF_SPARSE,
        scope_id: 0,
        num_properties: 0,
        reserved_v3: 0,
        fields: vec![
            FieldDef {
                name: 0,
                field_type: FieldType::U32.code(),
                enum_id: 0,
                role: 0,
                pair_id: 0,
                reserved: [0; 2],
            },
            FieldDef {
                name: 0,
                field_type: FieldType::U64.code(),
                enum_id: 0,
                role: 0,
                pair_id: 0,
                reserved: [0; 2],
            },
        ],
        properties: vec![],
    }
}

#[test]
fn storage_state_set_get() {
    let def = make_test_storage();
    let offsets = FieldOffsets::from_storage_def(&def);
    let mut state = StorageState::new(&def);

    assert!(!state.slot_valid(0));

    state.set_field_at(0, &offsets, 0, 42);
    assert!(state.slot_valid(0));
    assert_eq!(state.get_field_at(0, &offsets, 0), 42);

    state.set_field_at(0, &offsets, 1, 0xDEAD_BEEF_CAFE);
    assert_eq!(state.get_field_at(0, &offsets, 1), 0xDEAD_BEEF_CAFE);

    state.clear_slot(0);
    assert!(!state.slot_valid(0));
    assert_eq!(state.get_field_at(0, &offsets, 0), 0);
}

#[test]
fn storage_state_add() {
    let def = make_test_storage();
    let offsets = FieldOffsets::from_storage_def(&def);
    let mut state = StorageState::new(&def);

    state.set_field_at(1, &offsets, 1, 100);
    state.add_field_at(1, &offsets, 1, 50);
    assert_eq!(state.get_field_at(1, &offsets, 1), 150);
}

#[test]
fn checkpoint_roundtrip_sparse() {
    let def = make_test_storage();
    let offsets = FieldOffsets::from_storage_def(&def);
    let mut state = StorageState::new(&def);

    state.set_field_at(1, &offsets, 0, 42);
    state.set_field_at(1, &offsets, 1, 0x1234);
    state.set_field_at(3, &offsets, 0, 99);

    let ft: Vec<FieldType> = def
        .fields
        .iter()
        .map(|f| FieldType::from_u8(f.field_type).unwrap())
        .collect();

    let mut buf = Vec::new();
    state.write_checkpoint(&mut buf, &ft);

    // Read back
    let mut state2 = StorageState::new(&def);
    let mut cursor = ByteReader::new(&buf);
    let block = CheckpointBlock::read_from(&mut cursor).unwrap();
    assert_eq!(block.storage_id, 0);
    state2.read_checkpoint(&mut cursor, block.size).unwrap();

    assert!(!state2.slot_valid(0));
    assert!(state2.slot_valid(1));
    assert!(!state2.slot_valid(2));
    assert!(state2.slot_valid(3));
    assert_eq!(state2.get_field_at(1, &offsets, 0), 42);
    assert_eq!(state2.get_field_at(1, &offsets, 1), 0x1234);
    assert_eq!(state2.get_field_at(3, &offsets, 0), 99);
}

#[test]
fn checkpoint_roundtrip_with_properties() {
    let mut def = make_test_storage();
    def.num_properties = 2;
    def.properties = vec![
        FieldDef {
            name: 0,
            field_type: FieldType::U16.code(),
            enum_id: 0,
            role: 0,
            pair_id: 0,
            reserved: [0; 2],
        },
        FieldDef {
            name: 0,
            field_type: FieldType::U32.code(),
            enum_id: 0,
            role: 0,
            pair_id: 0,
            reserved: [0; 2],
        },
    ];
    let offsets = FieldOffsets::from_storage_def(&def);
    let mut state = StorageState::new(&def);

    // Set slot data
    state.set_field_at(1, &offsets, 0, 42);
    state.set_field_at(1, &offsets, 1, 0x1234);

    // Set property data
    state.set_property(&offsets, 0, 5); // u16 property
    state.set_property(&offsets, 1, 99); // u32 property

    assert_eq!(state.get_property(&offsets, 0), 5);
    assert_eq!(state.get_property(&offsets, 1), 99);

    let ft: Vec<FieldType> = def
        .fields
        .iter()
        .map(|f| FieldType::from_u8(f.field_type).unwrap())
        .collect();

    let mut buf = Vec::new();
    state.write_checkpoint(&mut buf, &ft);

    // Read back
    let mut state2 = StorageState::new(&def);
    let mut cursor = ByteReader::new(&buf);
    let block = CheckpointBlock::read_from(&mut cursor).unwrap();
    state2.read_checkpoint(&mut cursor, block.size).unwrap();

    // Verify slot data
    assert!(state2.slot_valid(1));
    assert_eq!(state2.get_field_at(1, &offsets, 0), 42);
    assert_eq!(state2.get_field_at(1, &offsets, 1), 0x1234);

    // Verify property data
    assert_eq!(state2.get_property(&offsets, 0), 5);
    assert_eq!(state2.get_property(&offsets, 1), 99);
}

#[test]
fn checkpoint_roundtrip_dense() {
    let mut def = make_test_storage();
    def.flags = 0; // dense
    let offsets = FieldOffsets::from_storage_def(&def);
    let mut state = StorageState::new(&def);

    state.set_field_at(0, &offsets, 0, 10);
    state.set_field_at(2, &offsets, 1, 20);

    let ft: Vec<FieldType> = def
        .fields
        .iter()
        .map(|f| FieldType::from_u8(f.field_type).unwrap())
        .collect();

    let mut buf = Vec::new();
    state.write_checkpoint(&mut buf, &ft);

    let mut state2 = StorageState::new(&def);
    state2.is_sparse = false;
    let mut cursor = ByteReader::new(&buf);
    let block = CheckpointBlock::read_from(&mut cursor).unwrap();
    state2.read_checkpoint(&mut cursor, block.size).unwrap();

    assert_eq!(state2.get_field_at(0, &offsets, 0), 10);
    assert_eq!(state2.get_field_at(2, &offsets, 1), 20);
}
