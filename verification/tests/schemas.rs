use uscope::bytes::ByteReader;
use uscope::schema::{DutDescBuilder, FieldSpec, Schema, SchemaBuilder};
use uscope::string_pool::{StringPoolBuilder, StringPoolReader};
use uscope::types::{DutDesc, PROP_ROLE_HEAD_PTR, PROP_ROLE_TAIL_PTR, SF_BUFFER, SF_SPARSE};
use uscope::wire::Wire;

#[test]
fn schema_roundtrip() {
    let mut builder = SchemaBuilder::new();
    builder.clock_domain("core_clk", 200);
    builder.scope("root", None, None, None);
    builder.scope("core0", Some(0), Some("cpu"), Some(0));
    let stage_enum = builder.enum_type(
        "pipeline_stage",
        &["fetch", "decode", "execute", "memory", "writeback"],
    );
    builder.storage(
        "entities",
        1,
        512,
        SF_SPARSE,
        &[
            ("entity_id", FieldSpec::U32),
            ("pc", FieldSpec::U64),
            ("inst_bits", FieldSpec::U32),
        ],
    );
    builder.event(
        "stage_transition",
        1,
        &[
            ("entity_id", FieldSpec::U32),
            ("stage", FieldSpec::Enum(stage_enum)),
        ],
    );

    let schema = builder.build();

    // Serialize
    let mut buf = Vec::new();
    schema.write_to(&mut buf);

    // Deserialize
    let decoded = Schema::read_from(&mut ByteReader::new(&buf), buf.len()).unwrap();

    assert_eq!(decoded.clock_domains.len(), 1);
    assert_eq!(decoded.clock_domains[0].period_ps, 200);
    assert_eq!(decoded.scopes.len(), 2);
    assert_eq!(decoded.enums.len(), 1);
    assert_eq!(decoded.enums[0].values.len(), 5);
    assert_eq!(decoded.storages.len(), 1);
    assert_eq!(decoded.storages[0].num_slots, 512);
    assert_eq!(decoded.storages[0].fields.len(), 3);
    assert_eq!(decoded.events.len(), 1);
    assert_eq!(decoded.events[0].fields.len(), 2);

    // Check strings round-trip
    assert_eq!(
        decoded.get_string(decoded.clock_domains[0].name),
        Some("core_clk")
    );
    assert_eq!(decoded.get_string(decoded.scopes[1].name), Some("core0"));
}

#[test]
fn schema_roundtrip_with_properties() {
    let mut builder = SchemaBuilder::new();
    builder.clock_domain("core_clk", 200);
    builder.scope("root", None, None, None);
    builder.scope("core0", Some(0), Some("cpu"), Some(0));
    builder.storage_with_properties(
        "rob",
        1,
        128,
        SF_BUFFER,
        &[("entity_id", FieldSpec::U32)],
        &[
            ("retire_ptr", FieldSpec::U16, PROP_ROLE_HEAD_PTR, 0),
            ("allocate_ptr", FieldSpec::U16, PROP_ROLE_TAIL_PTR, 0),
        ],
    );

    let schema = builder.build();

    // Serialize
    let mut buf = Vec::new();
    schema.write_to(&mut buf);

    // Deserialize
    let decoded = Schema::read_from(&mut ByteReader::new(&buf), buf.len()).unwrap();

    assert_eq!(decoded.storages.len(), 1);
    assert_eq!(decoded.storages[0].num_slots, 128);
    assert_eq!(decoded.storages[0].fields.len(), 1);
    assert_eq!(decoded.storages[0].num_properties, 2);
    assert_eq!(decoded.storages[0].properties.len(), 2);

    // Check property names round-trip
    assert_eq!(
        decoded.get_string(decoded.storages[0].properties[0].name),
        Some("retire_ptr")
    );
    assert_eq!(
        decoded.get_string(decoded.storages[0].properties[1].name),
        Some("allocate_ptr")
    );
}

#[test]
fn dut_desc_roundtrip() {
    let mut strings = StringPoolBuilder::new();
    let mut dut_builder = DutDescBuilder::new();
    dut_builder
        .property("dut_name", "boom_core_0")
        .property("cpu.isa", "RV64GC");
    let dut = dut_builder.build(&mut strings);

    let mut buf = Vec::new();
    dut.write_to(&mut buf);

    let decoded = DutDesc::read_from(&mut ByteReader::new(&buf)).unwrap();
    assert_eq!(decoded.properties.len(), 2);

    let reader = StringPoolReader::new(strings.data());
    assert_eq!(reader.get(decoded.properties[0].key), Some("dut_name"));
    assert_eq!(reader.get(decoded.properties[0].value), Some("boom_core_0"));
}
