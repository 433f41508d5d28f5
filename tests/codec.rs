use thrift::codec::{decode_struct, decode_value, default_slots_of, encode_struct, find_field_index, DecodeError, Value};
use thrift::schema::{enum_lookup, EnumSchema, FieldSpec, FieldType, Registry, StructSchema, Variant};
use thrift::wire::{Token, WireType};

fn field(name: &str, tag: i16, ty: FieldType, optional: bool) -> FieldSpec {
    FieldSpec { name: name.to_string(), tag, ty, optional }
}

fn operation() -> EnumSchema {
    let names = ["Add", "Sub", "Mul", "Div"];
    let mut variants = Vec::new();
    for (i, n) in names.iter().enumerate() {
        variants.push(Variant { name: n.to_string(), value: i as i32 + 1 });
    }
    EnumSchema { name: "Operation".to_string(), variants, default: 0 }
}

// struct 0: Simple { key: string @16 }
// struct 1: Optional { this: optional i64 @2 }
// struct 2: Empty {}
// struct 3: Many { one: i32 @3, two: string @4, six: optional Simple @14, op: Operation @5 }
fn registry() -> Registry {
    Registry {
        structs: vec![
            StructSchema { name: "Simple".to_string(), fields: vec![field("key", 16, FieldType::Str, false)] },
            StructSchema { name: "Optional".to_string(), fields: vec![field("this", 2, FieldType::I64, true)] },
            StructSchema { name: "Empty".to_string(), fields: vec![] },
            StructSchema {
                name: "Many".to_string(),
                fields: vec![
                    field("one", 3, FieldType::I32, false),
                    field("two", 4, FieldType::Str, false),
                    field("six", 14, FieldType::Struct(0), true),
                    field("op", 5, FieldType::Enum(0), false),
                ],
            },
        ],
        enums: vec![operation()],
        lists: vec![FieldType::I32, FieldType::List(0), FieldType::List(1), FieldType::Struct(0), FieldType::Str],
        maps: vec![(FieldType::I32, FieldType::List(4))],
    }
}

fn str_of(v: &Option<Value>) -> String {
    match v {
        Some(Value::Str(s)) => s.clone(),
        _ => panic!("not a string slot"),
    }
}

#[test]
fn simple_round_trip() {
    let reg = registry();
    let fs = &reg.structs[0].fields;
    let slots = vec![Some(Value::Str("x".to_string()))];
    let mut out = Vec::new();
    encode_struct(&reg, fs, &slots, &mut out);
    assert_eq!(
        out,
        vec![
            Token::StructBegin,
            Token::FieldBegin(WireType::Str, 16),
            Token::Str("x".to_string()),
            Token::FieldEnd,
            Token::FieldStop,
            Token::StructEnd,
        ]
    );
    let (back, p) = decode_struct(&reg, fs, &out, 0).unwrap();
    assert_eq!(p, out.len());
    assert_eq!(back.len(), 1);
    assert_eq!(str_of(&back[0]), "x");
}

#[test]
fn simple_empty_key_writes_no_field() {
    let reg = registry();
    let fs = &reg.structs[0].fields;
    let slots = vec![Some(Value::Str(String::new()))];
    let mut out = Vec::new();
    encode_struct(&reg, fs, &slots, &mut out);
    assert_eq!(out, vec![Token::StructBegin, Token::FieldStop, Token::StructEnd]);
    let (back, _) = decode_struct(&reg, fs, &out, 0).unwrap();
    assert_eq!(str_of(&back[0]), "");
}

#[test]
fn empty_struct_keeps_markers() {
    let reg = registry();
    let fs = &reg.structs[2].fields;
    let mut out = Vec::new();
    encode_struct(&reg, fs, &Vec::new(), &mut out);
    assert_eq!(out, vec![Token::StructBegin, Token::FieldStop, Token::StructEnd]);
    let (back, p) = decode_struct(&reg, fs, &out, 0).unwrap();
    assert!(back.is_empty());
    assert_eq!(p, 3);
}

#[test]
fn enum_decode_declared_value() {
    let reg = registry();
    let ts = vec![Token::I32(2)];
    match decode_value(&reg, FieldType::Enum(0), &ts, 0) {
        Ok((Value::Enum(x), p)) => {
            assert_eq!(x, 2);
            assert_eq!(p, 1);
            let i = enum_lookup(&reg.enums[0], x).unwrap();
            assert_eq!(reg.enums[0].variants[i].name, "Sub");
        }
        _ => panic!("expected Sub"),
    }
}

#[test]
fn enum_decode_unknown_value() {
    let reg = registry();
    let ts = vec![Token::I32(99)];
    assert!(matches!(decode_value(&reg, FieldType::Enum(0), &ts, 0), Err(DecodeError::UnknownEnumValue)));
}

#[test]
fn optional_unset_is_narrower() {
    let reg = registry();
    let fs = &reg.structs[1].fields;
    let mut set = Vec::new();
    encode_struct(&reg, fs, &vec![Some(Value::I64(0))], &mut set);
    let mut unset = Vec::new();
    encode_struct(&reg, fs, &vec![None], &mut unset);
    assert_eq!(set.len(), 6);
    assert_eq!(unset.len(), 3);
    assert!(unset.len() < set.len());
    let (back, _) = decode_struct(&reg, fs, &unset, 0).unwrap();
    assert!(back[0].is_none());
    let (back, _) = decode_struct(&reg, fs, &set, 0).unwrap();
    assert!(matches!(back[0], Some(Value::I64(0))));
}

#[test]
fn nested_round_trip() {
    let reg = registry();
    let fs = &reg.structs[3].fields;
    let slots = vec![
        Some(Value::I32(7)),
        Some(Value::Str("two".to_string())),
        Some(Value::Struct(vec![Some(Value::Str("inner".to_string()))])),
        Some(Value::Enum(3)),
    ];
    let mut out = Vec::new();
    encode_struct(&reg, fs, &slots, &mut out);
    let (back, p) = decode_struct(&reg, fs, &out, 0).unwrap();
    assert_eq!(p, out.len());
    assert!(matches!(back[0], Some(Value::I32(7))));
    assert_eq!(str_of(&back[1]), "two");
    match &back[2] {
        Some(Value::Struct(inner)) => assert_eq!(str_of(&inner[0]), "inner"),
        _ => panic!("expected nested struct"),
    }
    assert!(matches!(back[3], Some(Value::Enum(3))));
}

#[test]
fn forward_compatible_decode_drops_unknown_tags() {
    let reg = registry();
    // Newer writer: Many with an extra i64 @20 and an extra struct @21.
    let mut newer = reg.structs[3].fields.clone();
    newer.push(field("extra", 20, FieldType::I64, false));
    newer.push(field("blob", 21, FieldType::Struct(0), true));
    let slots = vec![
        Some(Value::I32(1)),
        Some(Value::Str("kept".to_string())),
        None,
        Some(Value::Enum(2)),
        Some(Value::I64(42)),
        Some(Value::Struct(vec![Some(Value::Str("dropped".to_string()))])),
    ];
    let mut out = Vec::new();
    encode_struct(&reg, &newer, &slots, &mut out);
    let (back, p) = decode_struct(&reg, &reg.structs[3].fields, &out, 0).unwrap();
    assert_eq!(p, out.len());
    assert_eq!(back.len(), 4);
    assert!(matches!(back[0], Some(Value::I32(1))));
    assert_eq!(str_of(&back[1]), "kept");
    assert!(back[2].is_none());
    assert!(matches!(back[3], Some(Value::Enum(2))));
}

#[test]
fn wrong_wire_type_at_known_tag_is_skipped() {
    let reg = registry();
    let fs = &reg.structs[0].fields;
    let ts = vec![
        Token::StructBegin,
        Token::FieldBegin(WireType::I32, 16),
        Token::I32(5),
        Token::FieldEnd,
        Token::FieldStop,
        Token::StructEnd,
    ];
    let (back, _) = decode_struct(&reg, fs, &ts, 0).unwrap();
    assert_eq!(str_of(&back[0]), "");
}

#[test]
fn truncated_struct_is_protocol_violation() {
    let reg = registry();
    let fs = &reg.structs[0].fields;
    let ts = vec![Token::StructBegin, Token::FieldBegin(WireType::Str, 16), Token::Str("x".to_string())];
    assert!(matches!(decode_struct(&reg, fs, &ts, 0), Err(DecodeError::ProtocolViolation)));
    let ts = vec![Token::FieldStop];
    assert!(matches!(decode_struct(&reg, fs, &ts, 0), Err(DecodeError::ProtocolViolation)));
}

#[test]
fn defaults_and_lookup() {
    let reg = registry();
    let d = default_slots_of(&reg, &reg.structs[3].fields);
    assert!(matches!(d[0], Some(Value::I32(0))));
    assert_eq!(str_of(&d[1]), "");
    assert!(d[2].is_none());
    assert!(matches!(d[3], Some(Value::Enum(1))));
    assert_eq!(find_field_index(&reg.structs[3].fields, WireType::Str, 4), Some(1));
    assert_eq!(find_field_index(&reg.structs[3].fields, WireType::I32, 4), None);
}

#[test]
fn enum_encodes_as_bare_integer() {
    let reg = registry();
    let mut out = Vec::new();
    thrift::codec::encode_value(&reg, FieldType::Enum(0), &Value::Enum(2), &mut out);
    assert_eq!(out, vec![Token::I32(2)]);
    match decode_value(&reg, FieldType::Enum(0), &out, 0) {
        Ok((Value::Enum(x), 1)) => assert_eq!(x, 2),
        _ => panic!("expected Sub"),
    }
}

// struct 4: Nested { deep: list<list<list<i32>>> @6, simples: list<Simple> @9 }
fn with_lists() -> Registry {
    let mut reg = registry();
    reg.structs.push(StructSchema {
        name: "Nested".to_string(),
        fields: vec![field("deep", 6, FieldType::List(2), false), field("simples", 9, FieldType::List(3), false)],
    });
    reg
}

fn ints(xs: &[i32]) -> Value {
    Value::List(xs.iter().map(|x| Value::I32(*x)).collect())
}

#[test]
fn nested_lists_round_trip() {
    let reg = with_lists();
    let fs = &reg.structs[4].fields;
    let deep = Value::List(vec![Value::List(vec![ints(&[1, 2]), ints(&[])]), Value::List(vec![])]);
    let simples = Value::List(vec![Value::Struct(vec![Some(Value::Str("a".to_string()))])]);
    let mut out = Vec::new();
    encode_struct(&reg, fs, &vec![Some(deep), Some(simples)], &mut out);
    assert_eq!(out[1], Token::FieldBegin(WireType::List, 6));
    assert_eq!(out[2], Token::ListBegin(WireType::List, 2));
    let (back, p) = decode_struct(&reg, fs, &out, 0).unwrap();
    assert_eq!(p, out.len());
    match &back[0] {
        Some(Value::List(outer)) => {
            assert_eq!(outer.len(), 2);
            match &outer[0] {
                Value::List(mid) => match &mid[0] {
                    Value::List(inner) => {
                        assert!(matches!(inner[..], [Value::I32(1), Value::I32(2)]));
                    }
                    _ => panic!("expected innermost list"),
                },
                _ => panic!("expected middle list"),
            }
        }
        _ => panic!("expected outer list"),
    }
    match &back[1] {
        Some(Value::List(ss)) => match &ss[0] {
            Value::Struct(s) => assert_eq!(str_of(&s[0]), "a"),
            _ => panic!("expected Simple"),
        },
        _ => panic!("expected list of Simple"),
    }
}

#[test]
fn empty_list_is_zero_and_omitted() {
    let reg = with_lists();
    let fs = &reg.structs[4].fields;
    let mut out = Vec::new();
    encode_struct(&reg, fs, &vec![Some(Value::List(vec![])), Some(Value::List(vec![]))], &mut out);
    assert_eq!(out, vec![Token::StructBegin, Token::FieldStop, Token::StructEnd]);
    let (back, _) = decode_struct(&reg, fs, &out, 0).unwrap();
    assert!(matches!(&back[0], Some(Value::List(v)) if v.is_empty()));
}

#[test]
fn unknown_list_field_is_skipped() {
    let reg = with_lists();
    let ts = vec![
        Token::StructBegin,
        Token::FieldBegin(WireType::List, 30),
        Token::ListBegin(WireType::I32, 2),
        Token::I32(1),
        Token::I32(2),
        Token::ListEnd,
        Token::FieldEnd,
        Token::FieldBegin(WireType::Str, 16),
        Token::Str("kept".to_string()),
        Token::FieldEnd,
        Token::FieldStop,
        Token::StructEnd,
    ];
    let (back, _) = decode_struct(&reg, &reg.structs[0].fields, &ts, 0).unwrap();
    assert_eq!(str_of(&back[0]), "kept");
}

#[test]
fn list_length_mismatch_is_protocol_violation() {
    let reg = with_lists();
    let ts = vec![Token::ListBegin(WireType::I32, 2), Token::I32(1), Token::ListEnd];
    assert!(matches!(decode_value(&reg, FieldType::List(0), &ts, 0), Err(DecodeError::ProtocolViolation)));
    let ts = vec![Token::ListBegin(WireType::Str, 0), Token::ListEnd];
    assert!(matches!(decode_value(&reg, FieldType::List(0), &ts, 0), Err(DecodeError::ProtocolViolation)));
}

#[test]
fn set_field_uses_set_wire_type() {
    let mut reg = registry();
    reg.structs.push(StructSchema {
        name: "Ops".to_string(),
        fields: vec![field("five", 11, FieldType::SetOf(0), false)],
    });
    let fs = &reg.structs[4].fields;
    let mut out = Vec::new();
    encode_struct(&reg, fs, &vec![Some(Value::List(vec![Value::I32(3), Value::I32(1)]))], &mut out);
    assert_eq!(out[1], Token::FieldBegin(WireType::SetOf, 11));
    assert_eq!(out[2], Token::ListBegin(WireType::I32, 2));
    let (back, _) = decode_struct(&reg, fs, &out, 0).unwrap();
    assert!(matches!(&back[0], Some(Value::List(v)) if matches!(v[..], [Value::I32(3), Value::I32(1)])));
    // A reader that does not know the field skips the whole set.
    let (skipped, p) = decode_struct(&reg, &reg.structs[2].fields, &out, 0).unwrap();
    assert!(skipped.is_empty());
    assert_eq!(p, out.len());
}

#[test]
fn map_round_trip_and_skip() {
    let mut reg = registry();
    // ReferencesOther { map: map<i32, list<string>> @4 }
    reg.structs.push(StructSchema {
        name: "ReferencesOther".to_string(),
        fields: vec![field("map", 4, FieldType::MapOf(0), false)],
    });
    let fs = &reg.structs[4].fields;
    let strs = |xs: &[&str]| Value::List(xs.iter().map(|s| Value::Str(s.to_string())).collect());
    let m = Value::MapOf(vec![(Value::I32(1), strs(&["a", "b"])), (Value::I32(2), strs(&[]))]);
    let mut out = Vec::new();
    encode_struct(&reg, fs, &vec![Some(m)], &mut out);
    assert_eq!(out[1], Token::FieldBegin(WireType::MapOf, 4));
    assert_eq!(out[2], Token::MapBegin(WireType::I32, WireType::List, 2));
    let (back, p) = decode_struct(&reg, fs, &out, 0).unwrap();
    assert_eq!(p, out.len());
    match &back[0] {
        Some(Value::MapOf(ps)) => {
            assert_eq!(ps.len(), 2);
            assert!(matches!(ps[0].0, Value::I32(1)));
            assert!(matches!(&ps[0].1, Value::List(v) if v.len() == 2));
            assert!(matches!(&ps[1].1, Value::List(v) if v.is_empty()));
        }
        _ => panic!("expected a map"),
    }
    // A reader without the field skips the whole map.
    let (skipped, q) = decode_struct(&reg, &reg.structs[2].fields, &out, 0).unwrap();
    assert!(skipped.is_empty());
    assert_eq!(q, out.len());
    // An empty map is the zero value and is not written.
    let mut empty = Vec::new();
    encode_struct(&reg, fs, &vec![Some(Value::MapOf(vec![]))], &mut empty);
    assert_eq!(empty.len(), 3);
}

#[test]
fn byte_and_i16_round_trip() {
    let mut reg = registry();
    reg.structs.push(StructSchema {
        name: "Small".to_string(),
        fields: vec![field("b", 1, FieldType::Byte, false), field("h", 2, FieldType::I16, false)],
    });
    let fs = &reg.structs[4].fields;
    let mut out = Vec::new();
    encode_struct(&reg, fs, &vec![Some(Value::Byte(-3)), Some(Value::I16(300))], &mut out);
    assert_eq!(out[1], Token::FieldBegin(WireType::Byte, 1));
    assert_eq!(out[2], Token::Byte(-3));
    let (back, _) = decode_struct(&reg, fs, &out, 0).unwrap();
    assert!(matches!(back[0], Some(Value::Byte(-3))));
    assert!(matches!(back[1], Some(Value::I16(300))));
    let stored = thrift::store::value_from_stored(&reg, FieldType::Byte, Some(thrift::store::Stored::Int(300)));
    assert!(matches!(stored, Err(DecodeError::ProtocolViolation)));
}
