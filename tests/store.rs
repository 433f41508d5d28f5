use thrift::codec::{DecodeError, Value};
use thrift::schema::{check_registry, EnumSchema, FieldSpec, FieldType, Registry, StructSchema, Variant};
use thrift::store::{
    field_key, index_key, list_write, map_write, option_read, option_write, scalar_write, set_write, size_key,
    struct_from_fields, value_from_stored, value_write, values_from_elements, StoreCmd, Stored,
};

fn reg() -> Registry {
    Registry {
        structs: vec![StructSchema {
            name: "Pair".to_string(),
            fields: vec![
                FieldSpec { name: "key".to_string(), tag: 16, ty: FieldType::Str, optional: false },
                FieldSpec { name: "op".to_string(), tag: 2, ty: FieldType::Enum(0), optional: true },
            ],
        }],
        enums: vec![EnumSchema {
            name: "Operation".to_string(),
            variants: vec![
                Variant { name: "Add".to_string(), value: 1 },
                Variant { name: "Sub".to_string(), value: 2 },
            ],
            default: 0,
        }],
        lists: vec![],
        maps: vec![],
    }
}

#[test]
fn key_scheme_is_four_wide() {
    let k = "user".to_string();
    assert_eq!(field_key(&k, 16), "user:FIELD_0016");
    assert_eq!(field_key(&k, 12345), "user:FIELD_12345");
    assert_eq!(field_key(&k, -1), "user:FIELD_-001");
    assert_eq!(index_key(&k, 7), "user:INDEX_0007");
    assert_eq!(size_key(&k), "user:ARRAYSIZE");
}

#[test]
fn scalar_and_container_plans() {
    let k = "k".to_string();
    assert_eq!(
        scalar_write(&k, Stored::Int(5)),
        vec![StoreCmd::Del(k.clone()), StoreCmd::Put(k.clone(), Stored::Int(5))]
    );
    assert_eq!(list_write(&k, vec![]), vec![StoreCmd::Del(k.clone())]);
    assert_eq!(
        list_write(&k, vec![Stored::Int(1), Stored::Int(2)]),
        vec![StoreCmd::Del(k.clone()), StoreCmd::RPush(k.clone(), vec![Stored::Int(1), Stored::Int(2)])]
    );
    assert_eq!(
        set_write(&k, vec![Stored::Bool(true)]),
        vec![StoreCmd::Del(k.clone()), StoreCmd::SAdd(k.clone(), vec![Stored::Bool(true)])]
    );
    assert_eq!(
        map_write(&k, vec![(Stored::Int(1), Stored::Str("a".to_string()))]),
        vec![StoreCmd::Del(k.clone()), StoreCmd::HSet(k.clone(), vec![(Stored::Int(1), Stored::Str("a".to_string()))])]
    );
}

#[test]
fn option_none_only_deletes() {
    let k = "k".to_string();
    assert_eq!(option_write(&k, None), vec![StoreCmd::Del(k.clone())]);
    let inner = scalar_write(&k, Stored::Int(3));
    let mut expected = vec![StoreCmd::Del(k.clone())];
    expected.extend(inner.clone());
    assert_eq!(option_write(&k, Some(inner)), expected);
    assert_eq!(option_read(false, Some(3)), None);
    assert_eq!(option_read(true, Some(3)), Some(Some(3)));
    assert_eq!(option_read::<i32>(true, None), Some(None));
}

#[test]
fn struct_written_under_field_keys() {
    let r = reg();
    let v = Some(Value::Struct(vec![Some(Value::Str("x".to_string())), None]));
    let cmds = value_write(&r, FieldType::Struct(0), &v, &"p".to_string());
    assert_eq!(
        cmds,
        vec![
            StoreCmd::Del("p:FIELD_0016".to_string()),
            StoreCmd::Put("p:FIELD_0016".to_string(), Stored::Str("x".to_string())),
            StoreCmd::Del("p:FIELD_0002".to_string()),
        ]
    );
}

#[test]
fn unknown_stored_enum_is_error() {
    let r = reg();
    assert!(matches!(value_from_stored(&r, FieldType::Enum(0), Some(Stored::Int(2))), Ok(Some(Value::Enum(2)))));
    assert!(matches!(
        value_from_stored(&r, FieldType::Enum(0), Some(Stored::Int(99))),
        Err(DecodeError::UnknownEnumValue)
    ));
    assert!(matches!(value_from_stored(&r, FieldType::Enum(0), None), Ok(None)));
    assert!(matches!(
        value_from_stored(&r, FieldType::I32, Some(Stored::Str("x".to_string()))),
        Err(DecodeError::ProtocolViolation)
    ));
}

#[test]
fn absent_field_keeps_default() {
    let r = reg();
    let slots = struct_from_fields(&r, &r.structs[0].fields, vec![None, Some(Value::Enum(2))]);
    assert!(matches!(&slots[0], Some(Value::Str(s)) if s.is_empty()));
    assert!(matches!(slots[1], Some(Value::Enum(2))));
}

#[test]
fn missing_element_fails_the_read() {
    assert!(matches!(values_from_elements(vec![Some(Value::I32(1)), None]), Err(DecodeError::ProtocolViolation)));
    let ok = values_from_elements(vec![Some(Value::I32(1)), Some(Value::I32(2))]).unwrap();
    assert_eq!(ok.len(), 2);
}

#[test]
fn registry_check_finds_duplicates() {
    let mut r = reg();
    assert!(check_registry(&r));
    r.structs[0].fields[1].tag = 16;
    assert!(!check_registry(&r));
    let mut r = reg();
    r.enums[0].variants[1].value = 1;
    assert!(!check_registry(&r));
    let mut r = reg();
    r.structs[0].fields[0].ty = FieldType::Struct(4);
    assert!(!check_registry(&r));
}

#[test]
fn sequence_written_under_index_keys() {
    let mut r = reg();
    r.lists.push(FieldType::I32);
    let v = Some(Value::List(vec![Value::I32(7), Value::I32(8)]));
    let cmds = value_write(&r, FieldType::List(0), &v, &"s".to_string());
    assert_eq!(
        cmds,
        vec![
            StoreCmd::Del("s:ARRAYSIZE".to_string()),
            StoreCmd::Put("s:ARRAYSIZE".to_string(), Stored::Int(2)),
            StoreCmd::Del("s:INDEX_0000".to_string()),
            StoreCmd::Put("s:INDEX_0000".to_string(), Stored::Int(7)),
            StoreCmd::Del("s:INDEX_0001".to_string()),
            StoreCmd::Put("s:INDEX_0001".to_string(), Stored::Int(8)),
        ]
    );
    r.maps.push((FieldType::Str, FieldType::I32));
    let m = Some(Value::MapOf(vec![(Value::Str("a".to_string()), Value::I32(1))]));
    let cmds = value_write(&r, FieldType::MapOf(0), &m, &"m".to_string());
    assert_eq!(cmds[2], StoreCmd::Del("m:INDEX_0000:FIELD_0000".to_string()));
    assert_eq!(cmds[5], StoreCmd::Put("m:INDEX_0000:FIELD_0001".to_string(), Stored::Int(1)));
}
