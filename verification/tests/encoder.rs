use tiny_json::de::{Deserializer, MapAccess, MapKey, SeqAccess, VariantAccess, Visit};
use tiny_json::ser::Serializer;

#[test]
fn test_to_string() {
    let mut ser = Serializer::new();
    ser.serialize_struct_variant("User2", 0, "Test", 3).unwrap();
    ser.serialize_field("fingerprint").unwrap();
    ser.serialize_str("jhah").unwrap();
    ser.serialize_field("location").unwrap();
    ser.serialize_str("Shenzhen").unwrap();
    ser.serialize_field("age").unwrap();
    ser.serialize_i64(28).unwrap();
    ser.end_struct_variant().unwrap();
    let s = ser.into_string();
    println!("string is {}", s);
    assert_eq!(
        s,
        "{\"Test\":{\"fingerprint\":\"jhah\",\"location\":\"Shenzhen\",\"age\":28}}"
    );
}

fn written(f: impl FnOnce(&mut Serializer)) -> String {
    let mut ser = Serializer::new();
    f(&mut ser);
    ser.into_string()
}

#[test]
fn primitives() {
    assert_eq!(written(|s| s.serialize_bool(true).unwrap()), "true");
    assert_eq!(written(|s| s.serialize_bool(false).unwrap()), "false");
    assert_eq!(written(|s| s.serialize_unit().unwrap()), "null");
    assert_eq!(written(|s| s.serialize_none().unwrap()), "null");
    assert_eq!(written(|s| s.serialize_unit_struct("U").unwrap()), "null");
    assert_eq!(written(|s| s.serialize_char('x').unwrap()), "\"x\"");
    assert_eq!(written(|s| s.serialize_str("héllo").unwrap()), "\"héllo\"");
    assert_eq!(written(|s| s.serialize_f64(&1.5f64.to_string()).unwrap()), "1.5");
}

#[test]
fn strings_are_not_escaped() {
    assert_eq!(written(|s| s.serialize_str("a\"b\\c\n").unwrap()), "\"a\"b\\c\n\"");
}

#[test]
fn integers_in_decimal() {
    assert_eq!(written(|s| s.serialize_i8(-128).unwrap()), "-128");
    assert_eq!(written(|s| s.serialize_i16(-1).unwrap()), "-1");
    assert_eq!(written(|s| s.serialize_i32(0).unwrap()), "0");
    assert_eq!(written(|s| s.serialize_i64(i64::MIN).unwrap()), "-9223372036854775808");
    assert_eq!(written(|s| s.serialize_i64(i64::MAX).unwrap()), "9223372036854775807");
    assert_eq!(written(|s| s.serialize_i64(1000).unwrap()), "1000");
    assert_eq!(written(|s| s.serialize_u8(255).unwrap()), "255");
    assert_eq!(written(|s| s.serialize_u16(10).unwrap()), "10");
    assert_eq!(written(|s| s.serialize_u32(4294967295).unwrap()), "4294967295");
    assert_eq!(written(|s| s.serialize_u64(u64::MAX).unwrap()), "18446744073709551615");
}

#[test]
fn bytes_are_a_sequence_of_numbers() {
    assert_eq!(written(|s| s.serialize_bytes(&[]).unwrap()), "[]");
    assert_eq!(written(|s| s.serialize_bytes(&[7]).unwrap()), "[7]");
    assert_eq!(written(|s| s.serialize_bytes(&[0, 91, 255]).unwrap()), "[0,91,255]");
}

#[test]
fn empty_sequence_and_map() {
    assert_eq!(
        written(|s| {
            s.serialize_seq(Some(0)).unwrap();
            s.end().unwrap();
        }),
        "[]"
    );
    assert_eq!(
        written(|s| {
            s.serialize_map(Some(0)).unwrap();
            s.end_map().unwrap();
        }),
        "{}"
    );
    assert_eq!(
        written(|s| {
            s.serialize_tuple(0).unwrap();
            s.end().unwrap();
        }),
        "[]"
    );
    assert_eq!(
        written(|s| {
            s.serialize_struct("S", 0).unwrap();
            s.end_map().unwrap();
        }),
        "{}"
    );
}

#[test]
fn elements_are_separated() {
    assert_eq!(
        written(|s| {
            s.serialize_seq(None).unwrap();
            s.serialize_element().unwrap();
            s.serialize_seq(None).unwrap();
            s.end().unwrap();
            s.serialize_element().unwrap();
            s.serialize_seq(None).unwrap();
            s.serialize_element().unwrap();
            s.serialize_i32(1).unwrap();
            s.serialize_element().unwrap();
            s.serialize_str("[").unwrap();
            s.end().unwrap();
            s.serialize_element().unwrap();
            s.serialize_unit().unwrap();
            s.end().unwrap();
        }),
        "[[],[1,\"[\"],null]"
    );
}

#[test]
fn separator_after_any_code_point_but_the_opener() {
    assert_eq!(
        written(|s| {
            s.serialize_seq(None).unwrap();
            s.serialize_element().unwrap();
            s.serialize_f64("\u{5b5b}").unwrap();
            s.serialize_element().unwrap();
            s.serialize_f64("é").unwrap();
            s.serialize_element().unwrap();
            s.serialize_f64("{").unwrap();
            s.serialize_element().unwrap();
            s.serialize_f64("[").unwrap();
            s.serialize_element().unwrap();
            s.end().unwrap();
        }),
        "[\u{5b5b},é,{,[]"
    );
    assert_eq!(
        written(|s| {
            s.serialize_element().unwrap();
            s.serialize_key().unwrap();
        }),
        ",,"
    );
}

#[test]
fn map_entries() {
    assert_eq!(
        written(|s| {
            s.serialize_map(None).unwrap();
            s.serialize_key().unwrap();
            s.serialize_str("a").unwrap();
            s.serialize_value().unwrap();
            s.serialize_i32(1).unwrap();
            s.serialize_key().unwrap();
            s.serialize_str("b").unwrap();
            s.serialize_value().unwrap();
            s.serialize_map(None).unwrap();
            s.end_map().unwrap();
            s.end_map().unwrap();
        }),
        "{\"a\":1,\"b\":{}}"
    );
}

#[test]
fn variants_are_maps_of_one_entry() {
    assert_eq!(written(|s| s.serialize_unit_variant("E", 0, "A").unwrap()), "{\"A\":null}");
    assert_eq!(
        written(|s| {
            s.serialize_newtype_variant("E", 1, "Test").unwrap();
            s.serialize_struct("Inner", 1).unwrap();
            s.serialize_field("age").unwrap();
            s.serialize_i32(1).unwrap();
            s.end_map().unwrap();
            s.end_newtype_variant().unwrap();
        }),
        "{\"Test\":{\"age\":1}}"
    );
    assert_eq!(
        written(|s| {
            s.serialize_tuple_variant("E", 2, "T", 2).unwrap();
            s.serialize_element().unwrap();
            s.serialize_i32(1).unwrap();
            s.serialize_element().unwrap();
            s.serialize_bool(true).unwrap();
            s.end_tuple_variant().unwrap();
        }),
        "{\"T\":[1,true]}"
    );
    assert_eq!(
        written(|s| {
            s.serialize_tuple_struct("P", 1).unwrap();
            s.serialize_element().unwrap();
            s.serialize_u8(9).unwrap();
            s.end().unwrap();
        }),
        "[9]"
    );
}

/// A value of the shapes that are written and read back.
#[derive(Debug, PartialEq, Clone)]
enum Value {
    Unit,
    Bool(bool),
    Int(i64),
    Str(String),
    List(Vec<Value>),
    Record(Vec<(String, Value)>),
    Variant(String, Box<Value>),
}

fn write(ser: &mut Serializer, v: &Value) {
    match v {
        Value::Unit => ser.serialize_unit().unwrap(),
        Value::Bool(b) => ser.serialize_bool(*b).unwrap(),
        Value::Int(n) => ser.serialize_i64(*n).unwrap(),
        Value::Str(s) => ser.serialize_str(s).unwrap(),
        Value::List(items) => {
            ser.serialize_seq(Some(items.len())).unwrap();
            for item in items {
                ser.serialize_element().unwrap();
                write(ser, item);
            }
            ser.end().unwrap();
        }
        Value::Record(fields) => {
            ser.serialize_struct("", fields.len()).unwrap();
            for (key, value) in fields {
                ser.serialize_field(key).unwrap();
                write(ser, value);
            }
            ser.end_map().unwrap();
        }
        Value::Variant(name, content) => {
            ser.serialize_newtype_variant("", 0, name).unwrap();
            write(ser, content);
            ser.end_newtype_variant().unwrap();
        }
    }
}

fn text(visit: Visit) -> String {
    match visit {
        Visit::BorrowedStr(s) => s.to_string(),
        Visit::String(s) => s,
        other => panic!("{:?}", other),
    }
}

fn read(de: &mut Deserializer, shape: &Value) -> Value {
    match shape {
        Value::Variant(_, content) => {
            de.deserialize_enum().unwrap();
            let name = text(de.deserialize_any().unwrap());
            VariantAccess::variant_seed(de).unwrap();
            let content = read(de, content);
            VariantAccess::end(de).unwrap();
            Value::Variant(name, Box::new(content))
        }
        Value::List(shapes) => {
            assert_eq!(de.deserialize_any(), Ok(Visit::SeqStart));
            let mut seq = SeqAccess::new();
            let mut items = Vec::new();
            while seq.next_element_seed(de).unwrap() {
                items.push(read(de, &shapes[items.len()]));
            }
            Value::List(items)
        }
        Value::Record(shapes) => {
            assert_eq!(de.deserialize_struct(), Ok(Visit::MapStart));
            let mut map = MapAccess::new();
            let mut fields = Vec::new();
            while map.next_key_seed(de).unwrap() {
                let key = MapKey::deserialize_any(de).unwrap().into_string();
                map.next_value_seed(de).unwrap();
                let value = read(de, &shapes[fields.len()].1);
                fields.push((key, value));
            }
            Value::Record(fields)
        }
        _ => match de.deserialize_any().unwrap() {
            Visit::Unit => Value::Unit,
            Visit::Bool(b) => Value::Bool(b),
            Visit::I64(n) => Value::Int(n),
            other => Value::Str(text(other)),
        },
    }
}

#[test]
fn written_values_are_read_back() {
    let values = vec![
        Value::Unit,
        Value::Bool(true),
        Value::Bool(false),
        Value::Int(0),
        Value::Int(-17),
        Value::Int(i64::MIN),
        Value::Int(i64::MAX),
        Value::Str(String::new()),
        Value::Str("héllo, [wörld] {}".to_string()),
        Value::List(vec![]),
        Value::List(vec![Value::Int(1), Value::List(vec![]), Value::Str("[".to_string())]),
        Value::Record(vec![]),
        Value::Record(vec![
            ("a".to_string(), Value::Int(1)),
            ("b".to_string(), Value::Record(vec![("c".to_string(), Value::Unit)])),
        ]),
        Value::Variant("A".to_string(), Box::new(Value::Unit)),
        Value::Variant(
            "Test".to_string(),
            Box::new(Value::Record(vec![("age".to_string(), Value::Int(1))])),
        ),
        Value::List(vec![
            Value::Variant("A".to_string(), Box::new(Value::List(vec![Value::Int(2)]))),
            Value::Variant("B".to_string(), Box::new(Value::Unit)),
        ]),
    ];
    for v in values {
        let mut ser = Serializer::new();
        write(&mut ser, &v);
        let s = ser.into_string();
        let mut de = Deserializer::new(&s);
        assert_eq!(read(&mut de, &v), v, "{}", s);
        assert_eq!(de.next(), Ok(tiny_json::token::Token::EOF));
    }
}

#[test]
fn enum_with_one_value_is_written_and_read() {
    let v = Value::Variant(
        "Test".to_string(),
        Box::new(Value::Record(vec![("age".to_string(), Value::Int(1))])),
    );
    let mut ser = Serializer::new();
    write(&mut ser, &v);
    let s = ser.into_string();
    assert_eq!(s, "{\"Test\":{\"age\":1}}");
    assert_eq!(read(&mut Deserializer::new(&s), &v), v);
}

#[test]
fn a_quote_in_a_string_is_not_read_back() {
    let v = Value::Str("a\"b".to_string());
    let mut ser = Serializer::new();
    write(&mut ser, &v);
    let s = ser.into_string();
    assert_eq!(Deserializer::new(&s).deserialize_any(), Ok(Visit::BorrowedStr("a")));
}
