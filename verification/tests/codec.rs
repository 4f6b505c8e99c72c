use isar_core::data_type::DataType;
use isar_core::error::IsarError;
use isar_core::object::IsarObject;
use isar_core::reader::NativeReader;
use isar_core::schema::{CollectionSchema, IndexSchema, PropertySchema};
use isar_core::writer::IsarWriter;

fn one_prop(dt: DataType) -> Vec<CollectionSchema> {
    let c = CollectionSchema::build(
        "c".to_string(),
        vec![PropertySchema::new("f".to_string(), dt, None)],
        false,
    )
    .unwrap();
    vec![c]
}

fn reader<'a>(buf: &'a Vec<u8>, cols: &'a Vec<CollectionSchema>) -> NativeReader<'a> {
    NativeReader::new(7, IsarObject::new(buf.as_slice()), 0, cols)
}

#[test]
fn int_round_trip() {
    let cols = one_prop(DataType::Int);
    for v in [0i32, 1, -1, 5, i32::MAX, i32::MIN + 1] {
        let mut w = IsarWriter::new(&cols, 0);
        w.write_int(0, v).unwrap();
        let buf = w.finish();
        assert_eq!(reader(&buf, &cols).read_int(0).unwrap(), v);
    }
}

#[test]
fn int_exact_encoding() {
    let cols = one_prop(DataType::Int);
    let mut w = IsarWriter::new(&cols, 0);
    w.write_int(0, 5).unwrap();
    assert_eq!(w.finish(), vec![5u8, 0, 0, 0]);
    let mut w = IsarWriter::new(&cols, 0);
    w.write_int(0, -1).unwrap();
    assert_eq!(w.finish(), vec![0xFFu8, 0xFF, 0xFF, 0xFF]);
}

#[test]
fn long_round_trip() {
    let cols = one_prop(DataType::Long);
    for v in [0i64, 42, -42, i64::MAX, i64::MIN + 1] {
        let mut w = IsarWriter::new(&cols, 0);
        w.write_long(0, v).unwrap();
        let buf = w.finish();
        assert_eq!(reader(&buf, &cols).read_long(0).unwrap(), v);
    }
    let mut w = IsarWriter::new(&cols, 0);
    w.write_long(0, 258).unwrap();
    assert_eq!(w.finish(), vec![2u8, 1, 0, 0, 0, 0, 0, 0]);
}

#[test]
fn bool_round_trip() {
    let cols = one_prop(DataType::Bool);
    let mut w = IsarWriter::new(&cols, 0);
    w.write_null(0).unwrap();
    let buf = w.finish();
    assert_eq!(buf, vec![0u8]);
    assert_eq!(reader(&buf, &cols).read_bool(0).unwrap(), None);

    let mut w = IsarWriter::new(&cols, 0);
    w.write_bool(0, false).unwrap();
    let buf = w.finish();
    assert_eq!(buf, vec![1u8]);
    assert_eq!(reader(&buf, &cols).read_bool(0).unwrap(), Some(false));

    let mut w = IsarWriter::new(&cols, 0);
    w.write_bool(0, true).unwrap();
    let buf = w.finish();
    assert_eq!(buf, vec![2u8]);
    assert_eq!(reader(&buf, &cols).read_bool(0).unwrap(), Some(true));
}

#[test]
fn byte_round_trip() {
    let cols = one_prop(DataType::Byte);
    for v in [0u8, 1, 200, 255] {
        let mut w = IsarWriter::new(&cols, 0);
        w.write_byte(0, v).unwrap();
        let buf = w.finish();
        assert_eq!(reader(&buf, &cols).read_byte(0).unwrap(), v);
    }
}

#[test]
fn float_double_bits_round_trip() {
    let cols = one_prop(DataType::Float);
    let bits = 1.5f32.to_bits();
    let mut w = IsarWriter::new(&cols, 0);
    w.write_float_bits(0, bits).unwrap();
    let buf = w.finish();
    assert_eq!(reader(&buf, &cols).read_float_bits(0).unwrap(), bits);
    assert_eq!(f32::from_bits(bits), 1.5f32);

    let cols = one_prop(DataType::Double);
    let dbits = (-2.25f64).to_bits();
    let mut w = IsarWriter::new(&cols, 0);
    w.write_double_bits(0, dbits).unwrap();
    let buf = w.finish();
    assert_eq!(reader(&buf, &cols).read_double_bits(0).unwrap(), dbits);
    assert_eq!(f64::from_bits(dbits), -2.25f64);
}

#[test]
fn string_round_trip() {
    let cols = one_prop(DataType::String);
    for v in ["", "a", "h\u{e9}llo \u{2713}", "a longer string with some length to it"] {
        let mut w = IsarWriter::new(&cols, 0);
        w.write_string(0, v).unwrap();
        let buf = w.finish();
        let r = reader(&buf, &cols);
        assert_eq!(r.read_string(0).unwrap(), Some(v));
    }
}

#[test]
fn string_exact_encoding() {
    let cols = one_prop(DataType::String);
    let mut w = IsarWriter::new(&cols, 0);
    w.write_string(0, "a").unwrap();
    assert_eq!(w.finish(), vec![8u8, 0, 0, 0, 1, 0, 0, 0, 97]);
}

#[test]
fn string_absent_differs_from_empty() {
    let cols = one_prop(DataType::String);
    let mut w = IsarWriter::new(&cols, 0);
    w.write_null(0).unwrap();
    let buf = w.finish();
    assert_eq!(reader(&buf, &cols).read_string(0).unwrap(), None);

    let mut w = IsarWriter::new(&cols, 0);
    w.write_string(0, "").unwrap();
    let buf = w.finish();
    assert_eq!(reader(&buf, &cols).read_string(0).unwrap(), Some(""));
}

#[test]
fn invalid_utf8_reads_as_absent() {
    let cols = one_prop(DataType::String);
    // A descriptor pointing at one byte that is not valid UTF-8.
    let buf: Vec<u8> = vec![8, 0, 0, 0, 1, 0, 0, 0, 0xFF];
    assert_eq!(reader(&buf, &cols).read_string(0).unwrap(), None);
}

#[test]
fn blob_round_trip() {
    let cols = one_prop(DataType::ByteList);
    for v in [vec![], vec![1u8, 2, 3], vec![0u8; 300]] {
        let mut w = IsarWriter::new(&cols, 0);
        w.write_blob(0, &v).unwrap();
        let buf = w.finish();
        let r = reader(&buf, &cols);
        assert_eq!(r.read_blob(0).unwrap(), Some(v.as_slice()));
    }
    let mut w = IsarWriter::new(&cols, 0);
    w.write_null(0).unwrap();
    let buf = w.finish();
    assert_eq!(reader(&buf, &cols).read_blob(0).unwrap(), None);
}

#[test]
fn json_round_trip() {
    let cols = one_prop(DataType::Json);
    let mut map = serde_json::Map::new();
    map.insert("k".to_string(), serde_json::Value::from(3));
    map.insert("s".to_string(), serde_json::Value::String("v".to_string()));
    let value = serde_json::Value::Object(map);
    let mut w = IsarWriter::new(&cols, 0);
    w.write_json(0, &value).unwrap();
    let buf = w.finish();
    let got = reader(&buf, &cols).read_json(0).unwrap();
    assert_eq!(got, Some(value));

    let mut w = IsarWriter::new(&cols, 0);
    w.write_null(0).unwrap();
    let buf = w.finish();
    assert_eq!(reader(&buf, &cols).read_json(0).unwrap(), None);
}

#[test]
fn int_list_round_trip() {
    let cols = one_prop(DataType::IntList);
    for v in [vec![], vec![1i32, -2, 3], vec![7i32; 500]] {
        let mut w = IsarWriter::new(&cols, 0);
        w.write_int_list(0, &v).unwrap();
        let buf = w.finish();
        let r = reader(&buf, &cols);
        let (lr, len) = r.read_list(0).unwrap().unwrap();
        assert_eq!(len, v.len());
        for (i, x) in v.iter().enumerate() {
            assert_eq!(lr.read_int(i).unwrap(), *x);
        }
    }
}

#[test]
fn long_list_round_trip() {
    let cols = one_prop(DataType::LongList);
    let v = vec![i64::MIN + 1, 0, 5, i64::MAX];
    let mut w = IsarWriter::new(&cols, 0);
    w.write_long_list(0, &v).unwrap();
    let buf = w.finish();
    let (lr, len) = reader(&buf, &cols).read_list(0).unwrap().unwrap();
    assert_eq!(len, 4);
    for (i, x) in v.iter().enumerate() {
        assert_eq!(lr.read_long(i).unwrap(), *x);
    }
}

#[test]
fn bool_list_round_trip() {
    let cols = one_prop(DataType::BoolList);
    let v = vec![Some(true), None, Some(false)];
    let mut w = IsarWriter::new(&cols, 0);
    w.write_bool_list(0, &v).unwrap();
    let buf = w.finish();
    let (lr, len) = reader(&buf, &cols).read_list(0).unwrap().unwrap();
    assert_eq!(len, 3);
    assert_eq!(lr.read_bool(0).unwrap(), Some(true));
    assert_eq!(lr.read_bool(1).unwrap(), None);
    assert_eq!(lr.read_bool(2).unwrap(), Some(false));
}

#[test]
fn float_double_list_round_trip() {
    let cols = one_prop(DataType::FloatList);
    let v = vec![1.5f32.to_bits(), 0f32.to_bits()];
    let mut w = IsarWriter::new(&cols, 0);
    w.write_float_bits_list(0, &v).unwrap();
    let buf = w.finish();
    let (lr, len) = reader(&buf, &cols).read_list(0).unwrap().unwrap();
    assert_eq!(len, 2);
    assert_eq!(lr.read_float_bits(0).unwrap(), 1.5f32.to_bits());

    let cols = one_prop(DataType::DoubleList);
    let v = vec![2.5f64.to_bits()];
    let mut w = IsarWriter::new(&cols, 0);
    w.write_double_bits_list(0, &v).unwrap();
    let buf = w.finish();
    let (lr, len) = reader(&buf, &cols).read_list(0).unwrap().unwrap();
    assert_eq!(len, 1);
    assert_eq!(lr.read_double_bits(0).unwrap(), 2.5f64.to_bits());
}

#[test]
fn string_list_round_trip() {
    let cols = one_prop(DataType::StringList);
    let v = vec![Some("x".to_string()), None, Some("".to_string()), Some("y\u{2713}".to_string())];
    let mut w = IsarWriter::new(&cols, 0);
    w.write_string_list(0, &v).unwrap();
    let buf = w.finish();
    let (lr, len) = reader(&buf, &cols).read_list(0).unwrap().unwrap();
    assert_eq!(len, 4);
    assert_eq!(lr.read_string(0).unwrap(), Some("x"));
    assert_eq!(lr.read_string(1).unwrap(), None);
    assert_eq!(lr.read_string(2).unwrap(), Some(""));
    assert_eq!(lr.read_string(3).unwrap(), Some("y\u{2713}"));
}

fn nested_schema() -> Vec<CollectionSchema> {
    let inner = CollectionSchema::build(
        "inner".to_string(),
        vec![PropertySchema::new("n".to_string(), DataType::Int, None)],
        true,
    )
    .unwrap();
    let outer = CollectionSchema::build(
        "outer".to_string(),
        vec![
            PropertySchema::new("obj".to_string(), DataType::Object, Some(1)),
            PropertySchema::new("objs".to_string(), DataType::ObjectList, Some(1)),
        ],
        false,
    )
    .unwrap();
    vec![outer, inner]
}

#[test]
fn embedded_object_round_trip() {
    let cols = nested_schema();
    let mut w = IsarWriter::new(&cols, 0);
    let mut inner = w.begin_object(0).unwrap();
    inner.write_int(0, 41).unwrap();
    let inner_bytes = inner.finish();
    w.write_object(0, &inner_bytes).unwrap();
    w.write_null(1).unwrap();
    let buf = w.finish();
    let r = reader(&buf, &cols);
    let nested = r.read_object(0).unwrap().unwrap();
    assert_eq!(nested.read_int(0).unwrap(), 41);
    // An embedded object carries no id of its own.
    assert_eq!(nested.read_id(), Err(IsarError::InvalidArgument));
}

#[test]
fn object_list_round_trip() {
    let cols = nested_schema();
    let mut w = IsarWriter::new(&cols, 0);
    w.write_null(0).unwrap();
    let mut elems: Vec<Option<Vec<u8>>> = Vec::new();
    for n in [10i32, 20] {
        let mut inner = w.begin_object(1).unwrap();
        inner.write_int(0, n).unwrap();
        elems.push(Some(inner.finish()));
    }
    elems.push(None);
    w.write_object_list(1, &elems).unwrap();
    let buf = w.finish();
    let r = reader(&buf, &cols);
    let (lr, len) = r.read_list(1).unwrap().unwrap();
    assert_eq!(len, 3);
    assert_eq!(lr.read_object(0).unwrap().unwrap().read_int(0).unwrap(), 10);
    assert_eq!(lr.read_object(1).unwrap().unwrap().read_int(0).unwrap(), 20);
    assert!(lr.read_object(2).unwrap().is_none());
    // A list element reader has no id, and a list never nests a list.
    assert_eq!(lr.read_id(), Err(IsarError::InvalidArgument));
    assert!(lr.read_list(0).is_err());
    assert!(lr.read_blob(0).is_err());
}

#[test]
fn truncated_buffers_fail_closed() {
    // Offset safety: reading any truncation of a valid buffer returns the
    // null sentinel or absent, and never panics.
    let cols = one_prop(DataType::String);
    let mut w = IsarWriter::new(&cols, 0);
    w.write_string(0, "hello").unwrap();
    let buf = w.finish();
    for cut in 0..buf.len() {
        let short: Vec<u8> = buf[..cut].to_vec();
        let r = NativeReader::new(1, IsarObject::new(short.as_slice()), 0, &cols);
        // Must not read out of bounds; a damaged field is absent.
        let _ = r.read_string(0).unwrap();
    }

    let cols = one_prop(DataType::IntList);
    let mut w = IsarWriter::new(&cols, 0);
    w.write_int_list(0, &vec![1, 2, 3]).unwrap();
    let buf = w.finish();
    for cut in 0..buf.len() {
        let short: Vec<u8> = buf[..cut].to_vec();
        let r = NativeReader::new(1, IsarObject::new(short.as_slice()), 0, &cols);
        assert!(r.read_list(0).unwrap().is_none());
    }
}

#[test]
fn wrong_accessor_is_rejected() {
    let cols = one_prop(DataType::Int);
    let mut w = IsarWriter::new(&cols, 0);
    w.write_int(0, 3).unwrap();
    let buf = w.finish();
    let r = reader(&buf, &cols);
    assert_eq!(r.read_long(0), Err(IsarError::InvalidArgument));
    assert_eq!(r.read_string(0), Err(IsarError::InvalidArgument));
    assert_eq!(r.read_int(1), Err(IsarError::InvalidArgument));
    // The writer checks kinds the same way.
    let mut w = IsarWriter::new(&cols, 0);
    assert_eq!(w.write_long(0, 3), Err(IsarError::InvalidArgument));
}

#[test]
fn out_of_order_write_is_rejected() {
    let cols = {
        let c = CollectionSchema::build(
            "c".to_string(),
            vec![
                PropertySchema::new("a".to_string(), DataType::Int, None),
                PropertySchema::new("b".to_string(), DataType::Int, None),
            ],
            false,
        )
        .unwrap();
        vec![c]
    };
    let mut w = IsarWriter::new(&cols, 0);
    assert_eq!(w.write_int(1, 5), Err(IsarError::InvalidArgument));
    w.write_int(0, 1).unwrap();
    w.write_int(1, 2).unwrap();
    let buf = w.finish();
    let r = reader(&buf, &cols);
    assert_eq!(r.read_int(0).unwrap(), 1);
    assert_eq!(r.read_int(1).unwrap(), 2);
}

#[test]
fn oversized_object_is_rejected() {
    let cols = one_prop(DataType::ByteList);
    let mut w = IsarWriter::new(&cols, 0);
    let big = vec![0u8; 0xFF_FFFF + 1];
    assert_eq!(w.write_blob(0, &big), Err(IsarError::EncodingError));
}

#[test]
fn largest_list_fits_exactly() {
    // The largest blob an object with one eight-byte descriptor slot can
    // hold: one byte more is rejected, this one round-trips.
    let cols = one_prop(DataType::ByteList);
    let max_len = 0xFF_FFFF - 8;
    let mut w = IsarWriter::new(&cols, 0);
    assert_eq!(w.write_blob(0, &vec![7u8; max_len + 1]), Err(IsarError::EncodingError));
    let mut w = IsarWriter::new(&cols, 0);
    let big = vec![7u8; max_len];
    w.write_blob(0, &big).unwrap();
    let buf = w.finish();
    assert_eq!(buf.len(), 0xFF_FFFF);
    let r = reader(&buf, &cols);
    assert_eq!(r.read_blob(0).unwrap(), Some(big.as_slice()));
}

#[test]
fn deeply_nested_json_is_rejected() {
    // The serializer has no depth limit but the parser does, so a document
    // this deep cannot round-trip; writing it is an encoding error, and
    // the writer is left unchanged and usable.
    let cols = one_prop(DataType::Json);
    let mut v = serde_json::Value::Null;
    for _ in 0..130 {
        v = serde_json::Value::Array(vec![v]);
    }
    let mut w = IsarWriter::new(&cols, 0);
    assert_eq!(w.write_json(0, &v), Err(IsarError::EncodingError));
    w.write_null(0).unwrap();
    let buf = w.finish();
    assert_eq!(reader(&buf, &cols).read_json(0).unwrap(), None);
}

#[test]
fn schema_build_rejects_bad_declarations() {
    // Duplicate property names.
    let r = CollectionSchema::build(
        "c".to_string(),
        vec![
            PropertySchema::new("x".to_string(), DataType::Int, None),
            PropertySchema::new("x".to_string(), DataType::Long, None),
        ],
        false,
    );
    assert_eq!(r.err(), Some(IsarError::SchemaError));
    // A scalar property must not carry an embedded reference.
    let r = CollectionSchema::build(
        "c".to_string(),
        vec![PropertySchema::new("x".to_string(), DataType::Int, Some(0))],
        false,
    );
    assert_eq!(r.err(), Some(IsarError::SchemaError));
    // An Object property must carry one.
    let r = CollectionSchema::build(
        "c".to_string(),
        vec![PropertySchema::new("x".to_string(), DataType::Object, None)],
        false,
    );
    assert_eq!(r.err(), Some(IsarError::SchemaError));
}

#[test]
fn index_declarations_are_checked() {
    let mut c = CollectionSchema::build(
        "c".to_string(),
        vec![
            PropertySchema::new("a".to_string(), DataType::Int, None),
            PropertySchema::new("b".to_string(), DataType::String, None),
        ],
        false,
    )
    .unwrap();
    c.add_index(IndexSchema { name: "ab".to_string(), properties: vec![0, 1], unique: false })
        .unwrap();
    let r = c.add_index(IndexSchema { name: "bad".to_string(), properties: vec![2], unique: true });
    assert_eq!(r.err(), Some(IsarError::SchemaError));
    assert_eq!(c.indexes.len(), 1);
}

#[test]
fn offsets_are_deterministic() {
    let build = || {
        CollectionSchema::build(
            "c".to_string(),
            vec![
                PropertySchema::new("b".to_string(), DataType::Bool, None),
                PropertySchema::new("i".to_string(), DataType::Int, None),
                PropertySchema::new("l".to_string(), DataType::Long, None),
                PropertySchema::new("s".to_string(), DataType::String, None),
            ],
            false,
        )
        .unwrap()
    };
    let a = build();
    let b = build();
    let offsets: Vec<u32> = a.properties.iter().map(|p| p.offset).collect();
    assert_eq!(offsets, vec![0, 1, 5, 13]);
    for (pa, pb) in a.properties.iter().zip(b.properties.iter()) {
        assert_eq!(pa.offset, pb.offset);
    }
}
