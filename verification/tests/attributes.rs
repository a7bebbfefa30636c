use flatcitybuf::attribute::{
    attr_size, encode_attributes_with_schema, guess_type, AttrEntry, AttrKind, AttrValue,
    AttributeSchema, AttributeSchemaMethods, Attributes, ColumnType, JsonNumber, NumberValue,
};

fn text(json: &str) -> String {
    json.to_string()
}

fn null() -> AttrValue {
    AttrValue { kind: AttrKind::Null, json: text("null") }
}

fn boolean(b: bool) -> AttrValue {
    AttrValue { kind: AttrKind::Bool(b), json: b.to_string() }
}

fn pos_int(u: u64) -> AttrValue {
    let number = NumberValue {
        number: JsonNumber::PosInt(u),
        f64_bits: (u as f64).to_bits(),
        f32_bits: (u as f64 as f32).to_bits(),
    };
    AttrValue { kind: AttrKind::Number(number), json: u.to_string() }
}

fn neg_int(i: i64) -> AttrValue {
    let number = NumberValue {
        number: JsonNumber::NegInt(i),
        f64_bits: (i as f64).to_bits(),
        f32_bits: (i as f64 as f32).to_bits(),
    };
    AttrValue { kind: AttrKind::Number(number), json: i.to_string() }
}

fn float(f: f64, json: &str) -> AttrValue {
    let number = NumberValue {
        number: JsonNumber::Float(f.to_bits()),
        f64_bits: f.to_bits(),
        f32_bits: (f as f32).to_bits(),
    };
    AttrValue { kind: AttrKind::Number(number), json: text(json) }
}

fn string(s: &str) -> AttrValue {
    AttrValue { kind: AttrKind::String(s.to_string()), json: format!("\"{}\"", s) }
}

fn array(json: &str) -> AttrValue {
    AttrValue { kind: AttrKind::Array, json: text(json) }
}

fn object(json: &str) -> AttrValue {
    AttrValue { kind: AttrKind::Object, json: text(json) }
}

fn entry(key: &str, value: AttrValue) -> AttrEntry {
    AttrEntry { key: key.to_string(), value }
}

/// The attributes of the examples, members in the order a JSON object
/// map keeps them (by key).
fn sample_attributes(with_null: bool) -> Attributes {
    let mut entries = vec![
        entry("array", array("[1,2,3]")),
        entry("bool", boolean(true)),
        entry("float", float(1.0, "1.0")),
        entry("int", neg_int(-10)),
        entry("json", object("{\"hoge\":\"fuga\"}")),
    ];
    if with_null {
        entries.push(entry("null", null()));
    }
    entries.push(entry("string", string("hoge")));
    entries.push(entry("uint", pos_int(5)));
    Attributes::Object(entries)
}

fn key(name: &str) -> String {
    name.to_string()
}

#[test]
fn test_add_attributes() {
    let attributes = sample_attributes(true);

    let mut attr_schema: AttributeSchema = AttributeSchema::new();

    attr_schema.add_attributes(&attributes);

    assert_eq!(attr_schema.get(&key("int")).unwrap().1, ColumnType::Long);
    assert_eq!(attr_schema.get(&key("uint")).unwrap().1, ColumnType::ULong);
    assert_eq!(attr_schema.get(&key("bool")).unwrap().1, ColumnType::Bool);
    assert_eq!(attr_schema.get(&key("float")).unwrap().1, ColumnType::Double);
    assert_eq!(attr_schema.get(&key("string")).unwrap().1, ColumnType::String);
    assert_eq!(attr_schema.get(&key("array")).unwrap().1, ColumnType::Json);
    assert_eq!(attr_schema.get(&key("json")).unwrap().1, ColumnType::Json);
}

#[test]
fn add_attributes_numbers_columns_in_order_and_skips_null() {
    let mut schema = AttributeSchema::new();
    schema.add_attributes(&sample_attributes(true));
    assert_eq!(schema.len(), 7);
    assert!(!schema.contains_key(&key("null")));
    let names: Vec<(String, u16)> =
        schema.columns().iter().map(|c| (c.name.clone(), c.index)).collect();
    assert_eq!(
        names,
        vec![
            (key("array"), 0),
            (key("bool"), 1),
            (key("float"), 2),
            (key("int"), 3),
            (key("json"), 4),
            (key("string"), 5),
            (key("uint"), 6),
        ]
    );
    // Adding the same attributes again adds nothing.
    schema.add_attributes(&sample_attributes(true));
    assert_eq!(schema.len(), 7);
    // A known name keeps its column even for a value of another type.
    schema.add_attributes(&Attributes::Object(vec![entry("int", string("x")), entry("new", pos_int(1))]));
    assert_eq!(schema.get(&key("int")), Some((3, ColumnType::Long)));
    assert_eq!(schema.get(&key("new")), Some((7, ColumnType::ULong)));
}

#[test]
fn add_attributes_of_a_non_object_uses_one_json_column() {
    let mut schema = AttributeSchema::new();
    schema.add_attributes(&Attributes::NotObject);
    assert_eq!(schema.get(&key("json")), Some((0, ColumnType::Json)));
    schema.add_attributes(&Attributes::Object(vec![entry("a", boolean(false))]));
    assert_eq!(schema.get(&key("a")), Some((1, ColumnType::Bool)));
    // The json column is numbered anew by the column count.
    schema.add_attributes(&Attributes::NotObject);
    assert_eq!(schema.len(), 2);
    assert_eq!(schema.get(&key("json")), Some((2, ColumnType::Json)));
}

#[test]
fn guess_type_by_value() {
    assert_eq!(guess_type(&null()), None);
    assert_eq!(guess_type(&boolean(false)), Some(ColumnType::Bool));
    assert_eq!(guess_type(&pos_int(0)), Some(ColumnType::ULong));
    assert_eq!(guess_type(&neg_int(-1)), Some(ColumnType::Long));
    assert_eq!(guess_type(&float(0.5, "0.5")), Some(ColumnType::Double));
    assert_eq!(guess_type(&string("")), Some(ColumnType::String));
    assert_eq!(guess_type(&array("[]")), Some(ColumnType::Json));
    assert_eq!(guess_type(&object("{}")), Some(ColumnType::Json));
}

#[test]
fn attribute_sizes() {
    assert_eq!(attr_size(&ColumnType::Byte, &pos_int(1)), 1);
    assert_eq!(attr_size(&ColumnType::Short, &pos_int(1)), 2);
    assert_eq!(attr_size(&ColumnType::UInt, &pos_int(1)), 4);
    assert_eq!(attr_size(&ColumnType::Float, &pos_int(1)), 4);
    assert_eq!(attr_size(&ColumnType::Long, &pos_int(1)), 8);
    assert_eq!(attr_size(&ColumnType::Double, &pos_int(1)), 8);
    assert_eq!(attr_size(&ColumnType::String, &string("hoge")), 8);
    assert_eq!(attr_size(&ColumnType::Json, &object("{\"hoge\":\"fuga\"}")), 4 + 15);
}

fn sample_encoding() -> Vec<u8> {
    let mut out: Vec<u8> = Vec::new();
    out.extend_from_slice(&[0, 0]);
    out.extend_from_slice(&7u32.to_le_bytes());
    out.extend_from_slice(b"[1,2,3]");
    out.extend_from_slice(&[1, 0, 1]);
    out.extend_from_slice(&[2, 0]);
    out.extend_from_slice(&1.0f64.to_le_bytes());
    out.extend_from_slice(&[3, 0]);
    out.extend_from_slice(&(-10i64).to_le_bytes());
    out.extend_from_slice(&[4, 0]);
    out.extend_from_slice(&15u32.to_le_bytes());
    out.extend_from_slice(b"{\"hoge\":\"fuga\"}");
    out.extend_from_slice(&[5, 0]);
    out.extend_from_slice(&4u32.to_le_bytes());
    out.extend_from_slice(b"hoge");
    out.extend_from_slice(&[6, 0]);
    out.extend_from_slice(&5u64.to_le_bytes());
    out
}

#[test]
fn encode_attributes_in_column_order() {
    let mut schema = AttributeSchema::new();
    schema.add_attributes(&sample_attributes(true));
    let bytes = encode_attributes_with_schema(&sample_attributes(true), &schema);
    assert_eq!(bytes, sample_encoding());
    let bytes = encode_attributes_with_schema(&sample_attributes(false), &schema);
    assert_eq!(bytes, sample_encoding());
}

#[test]
fn encode_attributes_gives_nothing_for_missing_members() {
    let mut schema = AttributeSchema::new();
    schema.add_attributes(&sample_attributes(false));
    schema.add_attributes(&Attributes::Object(vec![entry("exception", pos_int(1000))]));
    // "exception" has a column but is not among the attributes.
    assert!(encode_attributes_with_schema(&sample_attributes(false), &schema).is_empty());
    assert!(encode_attributes_with_schema(&Attributes::Object(Vec::new()), &schema).is_empty());
    assert!(encode_attributes_with_schema(&Attributes::NotObject, &schema).is_empty());
}

#[test]
fn encode_attributes_skips_null_values() {
    let mut schema = AttributeSchema::new();
    schema.add_attributes(&Attributes::Object(vec![entry("a", pos_int(1)), entry("b", boolean(true))]));
    let attrs = Attributes::Object(vec![entry("a", null()), entry("b", boolean(true))]);
    assert_eq!(encode_attributes_with_schema(&attrs, &schema), vec![1u8, 0, 1]);
}

#[test]
fn encode_narrow_columns() {
    let mut schema = AttributeSchema::new();
    schema.insert(key("s"), 0, ColumnType::Short);
    schema.insert(key("f"), 1, ColumnType::Float);
    schema.insert(key("u"), 2, ColumnType::UByte);
    let attrs = Attributes::Object(vec![
        entry("f", float(1.5, "1.5")),
        entry("s", neg_int(-2)),
        entry("u", pos_int(300)),
    ]);
    let mut expected: Vec<u8> = vec![0, 0];
    expected.extend_from_slice(&(-2i16).to_le_bytes());
    expected.extend_from_slice(&[1, 0]);
    expected.extend_from_slice(&1.5f32.to_le_bytes());
    expected.extend_from_slice(&[2, 0, 44]);
    assert_eq!(encode_attributes_with_schema(&attrs, &schema), expected);
}

#[test]
fn encode_follows_column_indices_not_schema_order() {
    let mut schema = AttributeSchema::new();
    schema.insert(key("b"), 1, ColumnType::UByte);
    schema.insert(key("a"), 0, ColumnType::Bool);
    schema.insert(key("c"), 2, ColumnType::UInt);
    let attrs = Attributes::Object(vec![
        entry("a", boolean(true)),
        entry("b", pos_int(7)),
        entry("c", pos_int(0x01020304)),
    ]);
    assert_eq!(
        encode_attributes_with_schema(&attrs, &schema),
        vec![0u8, 0, 1, 1, 0, 7, 2, 0, 4, 3, 2, 1]
    );
}

#[test]
fn insert_replaces_a_column_of_the_same_name() {
    let mut schema = AttributeSchema::new();
    assert_eq!(schema.insert(key("a"), 0, ColumnType::Int), None);
    assert_eq!(schema.insert(key("b"), 1, ColumnType::Bool), None);
    assert_eq!(schema.insert(key("a"), 5, ColumnType::Json), Some((0, ColumnType::Int)));
    assert_eq!(schema.len(), 2);
    assert_eq!(schema.get(&key("a")), Some((5, ColumnType::Json)));
    assert_eq!(schema.columns()[0].name, key("a"));
}

/// The encoding of the sample attributes (without `null` members) when
/// their columns have the given indices, in the order array, bool, float,
/// int, json, string, uint.
fn sample_encoding_with(idx: [u16; 7]) -> Vec<u8> {
    let mut out: Vec<u8> = Vec::new();
    out.extend_from_slice(&idx[0].to_le_bytes());
    out.extend_from_slice(&7u32.to_le_bytes());
    out.extend_from_slice(b"[1,2,3]");
    out.extend_from_slice(&idx[1].to_le_bytes());
    out.push(1);
    out.extend_from_slice(&idx[2].to_le_bytes());
    out.extend_from_slice(&1.0f64.to_le_bytes());
    out.extend_from_slice(&idx[3].to_le_bytes());
    out.extend_from_slice(&(-10i64).to_le_bytes());
    out.extend_from_slice(&idx[4].to_le_bytes());
    out.extend_from_slice(&15u32.to_le_bytes());
    out.extend_from_slice(b"{\"hoge\":\"fuga\"}");
    out.extend_from_slice(&idx[5].to_le_bytes());
    out.extend_from_slice(&4u32.to_le_bytes());
    out.extend_from_slice(b"hoge");
    out.extend_from_slice(&idx[6].to_le_bytes());
    out.extend_from_slice(&5u64.to_le_bytes());
    out
}

/// The sample attributes with an `exception` member of the given value.
fn sample_with_exception(value: AttrValue) -> Attributes {
    let mut entries = vec![
        entry("array", array("[1,2,3]")),
        entry("bool", boolean(true)),
        entry("exception", value),
        entry("float", float(1.0, "1.0")),
        entry("int", neg_int(-10)),
        entry("json", object("{\"hoge\":\"fuga\"}")),
    ];
    entries.push(entry("string", string("hoge")));
    entries.push(entry("uint", pos_int(5)));
    Attributes::Object(entries)
}

#[test]
fn test_attribute_serialization() {
    // Same schema: the attributes are those the schema was made from.
    let mut common_schema = AttributeSchema::new();
    common_schema.add_attributes(&sample_attributes(false));
    let bytes = encode_attributes_with_schema(&sample_attributes(false), &common_schema);
    assert_eq!(bytes, sample_encoding_with([0, 1, 2, 3, 4, 5, 6]), "same schema");

    // JSON with null value: the schema has a column for "exception", the
    // attributes hold null there, which is left out.
    let mut common_schema = AttributeSchema::new();
    common_schema.add_attributes(&sample_with_exception(pos_int(1000)));
    assert_eq!(common_schema.get(&key("exception")), Some((2, ColumnType::ULong)));
    let bytes = encode_attributes_with_schema(&sample_with_exception(null()), &common_schema);
    assert_eq!(bytes, sample_encoding_with([0, 1, 3, 4, 5, 6, 7]), "JSON with null value");

    // JSON is empty: nothing is written.
    let bytes = encode_attributes_with_schema(&Attributes::Object(Vec::new()), &common_schema);
    assert!(bytes.is_empty(), "JSON is empty");
}
