use uscope::checkpoint::{FieldOffsets, StorageState};
use uscope::leb128;
use uscope::state::{replay_deltas, replay_deltas_v2};
use uscope::types::{
    DeltaOp, FieldDef, FieldType, StorageDef, DA_PROP_SET, DA_SLOT_SET, SF_SPARSE, TAG_WIDE_OP,
};
use uscope::wire::Wire;

fn make_storage_def() -> StorageDef {
    StorageDef {
        name: 0,
        storage_id: 0,
        num_slots: 4,
        num_fields: 1,
        flags: SF_SPARSE,
        scope_id: 0,
        num_properties: 0,
        reserved_v3: 0,
        fields: vec![FieldDef {
            name: 0,
            field_type: FieldType::U32.code(),
            enum_id: 0,
            role: 0,
            pair_id: 0,
            reserved: [0; 2],
        }],
        properties: vec![],
    }
}

#[test]
fn replay_prop_set() {
    let mut def = make_storage_def();
    def.num_properties = 1;
    def.properties = vec![FieldDef {
        name: 0,
        field_type: FieldType::U16.code(),
        enum_id: 0,
        role: 0,
        pair_id: 0,
        reserved: [0; 2],
    }];
    let offsets = vec![FieldOffsets::from_storage_def(&def)];
    let mut storages = vec![StorageState::new(&def)];

    // Build a v0.2 interleaved delta with a DA_PROP_SET op
    let mut delta = Vec::new();
    // time_delta=0
    leb128::encode_u64_vec(0, &mut delta);
    // num_items=1
    delta.extend_from_slice(&1u16.to_le_bytes());
    // Wide op: DA_PROP_SET
    delta.push(TAG_WIDE_OP);
    delta.push(DA_PROP_SET); // action
    delta.extend_from_slice(&0u16.to_le_bytes()); // storage_id=0
    delta.extend_from_slice(&0u16.to_le_bytes()); // slot_index=0 (unused)
    delta.extend_from_slice(&0u16.to_le_bytes()); // field_index=0 (prop_index)
    delta.extend_from_slice(&42u64.to_le_bytes()); // value=42

    let (_final_time, items) =
        replay_deltas_v2(&delta, &mut storages, &offsets, 0, None).unwrap();

    assert_eq!(items.len(), 1);
    assert_eq!(storages[0].get_property(&offsets[0], 0), 42);
}

#[test]
fn replay_simple_deltas() {
    let def = make_storage_def();
    let offsets = vec![FieldOffsets::from_storage_def(&def)];
    let mut storages = vec![StorageState::new(&def)];

    // Build a delta blob manually
    let mut delta = Vec::new();
    // Frame 1: time_delta=0, one SET op
    leb128::encode_u64_vec(0, &mut delta);
    delta.push(0); // op_format = wide
    delta.push(0); // reserved
    delta.extend_from_slice(&1u16.to_le_bytes()); // num_ops=1
    delta.extend_from_slice(&0u16.to_le_bytes()); // num_events=0
    let op = DeltaOp {
        action: DA_SLOT_SET,
        reserved: 0,
        storage_id: 0,
        slot_index: 2,
        field_index: 0,
        value: 42,
    };
    op.write_to(&mut delta);

    let (final_time, events, ops) =
        replay_deltas(&delta, &mut storages, &offsets, 1000, None, false).unwrap();

    assert_eq!(final_time, 1000); // delta was 0
    assert!(events.is_empty());
    assert_eq!(ops.len(), 1);
    assert_eq!(ops[0].action, DA_SLOT_SET);
    assert_eq!(ops[0].slot, 2);
    assert_eq!(ops[0].value, 42);
    assert!(storages[0].slot_valid(2));
    assert_eq!(storages[0].get_field_at(2, &offsets[0], 0), 42);
}
