use tiny_json::de::{Deserializer, IntegerKey, MapAccess, MapKey, SeqAccess, VariantAccess, Visit};
use tiny_json::error::Error;
use tiny_json::token::MaybeString;

fn key(de: &mut Deserializer) -> String {
    match MapKey::deserialize_any(de) {
        Ok(s) => s.into_string(),
        Err(e) => panic!("{:?}", e),
    }
}

#[test]
fn test() {
    let j = "
    {
            \"Test\": {
                 \"fingerprint\": \"0xF9BA143B95FF6D82\",
                 \"location\": \"Menlo Park, CA\",
                 \"age\": 280
             }
            }";
    let mut de = Deserializer::new(j);
    assert_eq!(de.deserialize_enum(), Ok(()));
    assert_eq!(de.deserialize_any(), Ok(Visit::BorrowedStr("Test")));
    assert_eq!(VariantAccess::variant_seed(&mut de), Ok(()));
    assert_eq!(de.deserialize_struct(), Ok(Visit::MapStart));
    let mut fields = MapAccess::new();

    assert_eq!(fields.next_key_seed(&mut de), Ok(true));
    assert_eq!(key(&mut de), "fingerprint");
    assert_eq!(fields.next_value_seed(&mut de), Ok(()));
    let fingerprint = match de.deserialize_any() {
        Ok(Visit::BorrowedStr(s)) => s,
        other => panic!("{:?}", other),
    };

    assert_eq!(fields.next_key_seed(&mut de), Ok(true));
    assert_eq!(key(&mut de), "location");
    assert_eq!(fields.next_value_seed(&mut de), Ok(()));
    let location = match de.deserialize_any() {
        Ok(Visit::BorrowedStr(s)) => s,
        other => panic!("{:?}", other),
    };

    assert_eq!(fields.next_key_seed(&mut de), Ok(true));
    assert_eq!(key(&mut de), "age");
    assert_eq!(fields.next_value_seed(&mut de), Ok(()));
    let age = match de.deserialize_any() {
        Ok(Visit::I64(n)) => n as i128,
        other => panic!("{:?}", other),
    };

    assert_eq!(fields.next_key_seed(&mut de), Ok(false));
    assert_eq!(VariantAccess::end(&mut de), Ok(()));
    println!("user is {}, {}, {}", fingerprint, location, age);
    assert_eq!(fingerprint, "0xF9BA143B95FF6D82");
    assert_eq!(location, "Menlo Park, CA");
    assert_eq!(age, 280);
}

#[test]
fn values_are_dispatched() {
    assert_eq!(Deserializer::new("true").deserialize_any(), Ok(Visit::Bool(true)));
    assert_eq!(Deserializer::new("false").deserialize_any(), Ok(Visit::Bool(false)));
    assert_eq!(Deserializer::new("null").deserialize_any(), Ok(Visit::Unit));
    assert_eq!(Deserializer::new("42").deserialize_any(), Ok(Visit::I64(42)));
    assert_eq!(Deserializer::new("-0").deserialize_any(), Ok(Visit::I64(0)));
    assert_eq!(Deserializer::new("42.0").deserialize_any(), Ok(Visit::F64("42.0")));
    assert_eq!(Deserializer::new("\"a\"").deserialize_any(), Ok(Visit::BorrowedStr("a")));
    assert_eq!(
        Deserializer::new("\"a\\nb\"").deserialize_any(),
        Ok(Visit::String("a\nb".to_string()))
    );
    assert_eq!(Deserializer::new("[").deserialize_any(), Ok(Visit::SeqStart));
    assert_eq!(Deserializer::new("{").deserialize_any(), Ok(Visit::MapStart));
}

#[test]
fn no_value_starts_with_a_closing_bracket() {
    for text in ["]", "}", ",", ":", ""] {
        assert_eq!(
            Deserializer::new(text).deserialize_any(),
            Err(Error::InvalidNumber("abc".to_string()))
        );
    }
}

#[test]
fn empty_sequence_has_no_elements() {
    let mut de = Deserializer::new("[]");
    assert_eq!(de.deserialize_any(), Ok(Visit::SeqStart));
    let mut seq = SeqAccess::new();
    assert_eq!(seq.next_element_seed(&mut de), Ok(false));
    assert_eq!(de.next(), Ok(tiny_json::token::Token::EOF));
}

#[test]
fn empty_map_has_no_entries() {
    let mut de = Deserializer::new("{}");
    assert_eq!(de.deserialize_any(), Ok(Visit::MapStart));
    let mut map = MapAccess::new();
    assert_eq!(map.next_key_seed(&mut de), Ok(false));
    assert_eq!(de.next(), Ok(tiny_json::token::Token::EOF));
}

#[test]
fn sequence_elements_are_separated_by_commas() {
    let mut de = Deserializer::new("[1, 2,3]");
    assert_eq!(de.deserialize_any(), Ok(Visit::SeqStart));
    let mut seq = SeqAccess::new();
    let mut found = Vec::new();
    loop {
        match seq.next_element_seed(&mut de) {
            Ok(true) => match de.deserialize_any() {
                Ok(Visit::I64(n)) => found.push(n),
                other => panic!("{:?}", other),
            },
            Ok(false) => break,
            Err(e) => panic!("{:?}", e),
        }
    }
    assert_eq!(found, vec![1, 2, 3]);
}

#[test]
fn missing_comma_is_refused() {
    let mut de = Deserializer::new("[1 2]");
    assert_eq!(de.deserialize_any(), Ok(Visit::SeqStart));
    let mut seq = SeqAccess::new();
    assert_eq!(seq.next_element_seed(&mut de), Ok(true));
    assert_eq!(de.deserialize_any(), Ok(Visit::I64(1)));
    assert_eq!(seq.next_element_seed(&mut de), Err(Error::OpNotExist(",".to_string())));
}

#[test]
fn trailing_comma_in_map_is_refused() {
    let mut de = Deserializer::new("{\"a\":1,}");
    assert_eq!(de.deserialize_any(), Ok(Visit::MapStart));
    let mut map = MapAccess::new();
    assert_eq!(map.next_key_seed(&mut de), Ok(true));
    assert_eq!(key(&mut de), "a");
    assert_eq!(map.next_value_seed(&mut de), Ok(()));
    assert_eq!(de.deserialize_any(), Ok(Visit::I64(1)));
    assert_eq!(map.next_key_seed(&mut de), Ok(true));
    assert_eq!(MapKey::deserialize_any(&mut de), Err(Error::JSONKeyMustBeString()));
}

#[test]
fn key_must_be_a_string() {
    let mut de = Deserializer::new("{1:2}");
    assert_eq!(de.deserialize_any(), Ok(Visit::MapStart));
    let mut map = MapAccess::new();
    assert_eq!(map.next_key_seed(&mut de), Ok(true));
    assert_eq!(MapKey::deserialize_any(&mut de), Err(Error::JSONKeyMustBeString()));
}

#[test]
fn missing_colon_is_refused() {
    let mut de = Deserializer::new("{\"a\" 1}");
    assert_eq!(de.deserialize_any(), Ok(Visit::MapStart));
    let mut map = MapAccess::new();
    assert_eq!(map.next_key_seed(&mut de), Ok(true));
    assert_eq!(key(&mut de), "a");
    assert_eq!(map.next_value_seed(&mut de), Err(Error::OpNotExist(":".to_string())));
}

#[test]
fn integer_key_is_read_from_the_string() {
    let mut de = Deserializer::new("{\"17\": 1, \"-3\": 2, \"300\": 3}");
    assert_eq!(de.deserialize_any(), Ok(Visit::MapStart));
    let mut map = MapAccess::new();
    assert_eq!(map.next_key_seed(&mut de), Ok(true));
    assert_eq!(MapKey::deserialize_u8(&mut de), Ok(IntegerKey::Integer(17)));
    assert_eq!(map.next_value_seed(&mut de), Ok(()));
    assert_eq!(de.deserialize_any(), Ok(Visit::I64(1)));
    assert_eq!(map.next_key_seed(&mut de), Ok(true));
    assert_eq!(MapKey::deserialize_i32(&mut de), Ok(IntegerKey::Integer(-3)));
    assert_eq!(map.next_value_seed(&mut de), Ok(()));
    assert_eq!(de.deserialize_any(), Ok(Visit::I64(2)));
    assert_eq!(map.next_key_seed(&mut de), Ok(true));
    assert_eq!(MapKey::deserialize_u8(&mut de), Ok(IntegerKey::Text("300".to_string())));
}

#[test]
fn integer_key_falls_back_to_the_string() {
    let mut de = Deserializer::new("{\"x\": 1}");
    assert_eq!(de.deserialize_any(), Ok(Visit::MapStart));
    let mut map = MapAccess::new();
    assert_eq!(map.next_key_seed(&mut de), Ok(true));
    assert_eq!(MapKey::deserialize_i64(&mut de), Ok(IntegerKey::Text("x".to_string())));
    assert_eq!(map.next_value_seed(&mut de), Ok(()));
    assert_eq!(de.deserialize_any(), Ok(Visit::I64(1)));
    assert_eq!(map.next_key_seed(&mut de), Ok(false));
}

#[test]
fn integer_keys_of_every_width() {
    fn at(text: &str) -> Deserializer<'_> {
        Deserializer::new(text)
    }
    assert_eq!(MapKey::deserialize_i8(&mut at("\"-128\"")), Ok(IntegerKey::Integer(-128)));
    assert_eq!(
        MapKey::deserialize_i8(&mut at("\"128\"")),
        Ok(IntegerKey::Text("128".to_string()))
    );
    assert_eq!(MapKey::deserialize_i16(&mut at("\"+7\"")), Ok(IntegerKey::Integer(7)));
    assert_eq!(
        MapKey::deserialize_i64(&mut at("\"-9223372036854775808\"")),
        Ok(IntegerKey::Integer(i64::MIN))
    );
    assert_eq!(
        MapKey::deserialize_i128(&mut at("\"-170141183460469231731687303715884105728\"")),
        Ok(IntegerKey::Integer(i128::MIN))
    );
    assert_eq!(
        MapKey::deserialize_i128(&mut at("\"170141183460469231731687303715884105728\"")),
        Ok(IntegerKey::Text("170141183460469231731687303715884105728".to_string()))
    );
    assert_eq!(MapKey::deserialize_u16(&mut at("\"65535\"")), Ok(IntegerKey::Integer(65535)));
    assert_eq!(
        MapKey::deserialize_u32(&mut at("\"-1\"")),
        Ok(IntegerKey::Text("-1".to_string()))
    );
    assert_eq!(
        MapKey::deserialize_u64(&mut at("\"18446744073709551615\"")),
        Ok(IntegerKey::Integer(u64::MAX))
    );
    assert_eq!(
        MapKey::deserialize_u128(&mut at("\"340282366920938463463374607431768211455\"")),
        Ok(IntegerKey::Integer(u128::MAX))
    );
    assert_eq!(
        MapKey::deserialize_u128(&mut at("\"340282366920938463463374607431768211456\"")),
        Ok(IntegerKey::Text("340282366920938463463374607431768211456".to_string()))
    );
    assert_eq!(MapKey::deserialize_u8(&mut at("\"\"")), Ok(IntegerKey::Text(String::new())));
    assert_eq!(MapKey::deserialize_u8(&mut at("7")), Err(Error::JSONKeyMustBeString()));
}

#[test]
fn struct_is_a_map_or_a_sequence() {
    assert_eq!(Deserializer::new(" {").deserialize_struct(), Ok(Visit::MapStart));
    assert_eq!(Deserializer::new(" [").deserialize_struct(), Ok(Visit::SeqStart));
    let mut de = Deserializer::new("7");
    assert_eq!(de.deserialize_struct(), Err(Error::InvalidStructString()));
    assert_eq!(de.deserialize_any(), Ok(Visit::I64(7)));
    assert_eq!(
        Deserializer::new("?").deserialize_struct(),
        Err(Error::NotSupportedChar('?', 0))
    );
}

#[test]
fn enum_is_a_map() {
    assert_eq!(Deserializer::new("\"A\"").deserialize_enum(), Err(Error::InvalidEnumString()));
    assert_eq!(Deserializer::new("[").deserialize_enum(), Err(Error::InvalidEnumString()));
    assert_eq!(Deserializer::new("{").deserialize_enum(), Ok(()));
}

#[test]
fn enum_with_one_value() {
    let mut de = Deserializer::new("{\"Test\":{\"age\":1}}");
    assert_eq!(de.deserialize_enum(), Ok(()));
    assert_eq!(de.deserialize_any(), Ok(Visit::BorrowedStr("Test")));
    assert_eq!(VariantAccess::variant_seed(&mut de), Ok(()));
    assert_eq!(de.deserialize_any(), Ok(Visit::MapStart));
    let mut map = MapAccess::new();
    assert_eq!(map.next_key_seed(&mut de), Ok(true));
    assert_eq!(MapKey::deserialize_any(&mut de), Ok(MaybeString::NotEscaped("age")));
    assert_eq!(map.next_value_seed(&mut de), Ok(()));
    assert_eq!(de.deserialize_any(), Ok(Visit::I64(1)));
    assert_eq!(map.next_key_seed(&mut de), Ok(false));
    assert_eq!(VariantAccess::end(&mut de), Ok(()));
    assert_eq!(de.next(), Ok(tiny_json::token::Token::EOF));
}

#[test]
fn enum_must_be_closed() {
    let mut de = Deserializer::new("{\"A\":null,");
    assert_eq!(de.deserialize_enum(), Ok(()));
    assert_eq!(de.deserialize_any(), Ok(Visit::BorrowedStr("A")));
    assert_eq!(VariantAccess::variant_seed(&mut de), Ok(()));
    assert_eq!(de.deserialize_any(), Ok(Visit::Unit));
    assert_eq!(VariantAccess::end(&mut de), Err(Error::OpNotExist("}".to_string())));
}

#[test]
fn expect_reads_one_token() {
    let mut de = Deserializer::new(" : ,");
    assert_eq!(de.expect(":".to_string()), Ok(()));
    assert_eq!(de.expect(":".to_string()), Err(Error::OpNotExist(":".to_string())));
    assert_eq!(de.expect(",".to_string()), Err(Error::OpNotExist(",".to_string())));
    assert_eq!(de.input(), " : ,");
}

#[test]
fn peek_does_not_move() {
    let de = Deserializer::new("[1]");
    assert_eq!(de.peek(), de.peek());
    let mut de = de;
    assert_eq!(de.peek().map(|t| t.is_left_bracket()), Ok(true));
    assert_eq!(de.next().map(|t| t.is_left_bracket()), Ok(true));
    assert_eq!(de.peek().map(|t| t.is_left_bracket()), Ok(false));
}

#[test]
fn whitespace_and_byte_order_mark_change_nothing() {
    let plain = "[true,{\"a\":null}]";
    let spaced = "\u{feff} \t\r\n[true,{\"a\":null}]";
    let mut a = Deserializer::new(plain);
    let mut b = Deserializer::new(spaced);
    loop {
        let x = a.deserialize_any();
        let y = b.deserialize_any();
        assert_eq!(x, y);
        if x.is_err() {
            break;
        }
    }
}

#[test]
fn byte_order_mark_behind_whitespace_is_no_token() {
    assert_eq!(
        Deserializer::new(" \u{feff}1").deserialize_any(),
        Err(Error::NotSupportedChar('\u{feff}', 1))
    );
}
