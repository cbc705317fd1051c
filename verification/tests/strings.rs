use uscope::string_pool::{StringPoolBuilder, StringPoolReader};

#[test]
fn insert_and_read() {
    let mut builder = StringPoolBuilder::new();
    let off_hello = builder.insert("hello");
    let off_world = builder.insert("world");
    let off_hello2 = builder.insert("hello");

    assert_eq!(off_hello, 0);
    assert_eq!(off_world, 6); // "hello\0" = 6 bytes
    assert_eq!(off_hello2, off_hello); // dedup

    let reader = StringPoolReader::new(builder.data());
    assert_eq!(reader.get(off_hello), Some("hello"));
    assert_eq!(reader.get(off_world), Some("world"));
}

#[test]
fn empty_string() {
    let mut builder = StringPoolBuilder::new();
    let off = builder.insert("");
    assert_eq!(off, 0);

    let reader = StringPoolReader::new(builder.data());
    assert_eq!(reader.get(off), Some(""));
}

#[test]
fn out_of_bounds() {
    let builder = StringPoolBuilder::new();
    let reader = StringPoolReader::new(builder.data());
    assert_eq!(reader.get(0), None);
    assert_eq!(reader.get(100), None);
}
