use std::cell::RefCell;

use thrift::codec::{DecodeError, Value};
use thrift::envelope::{from_envelope, to_envelope, MethodSpec, Outcome};
use thrift::schema::{EnumSchema, FieldSpec, FieldType, Registry, StructSchema, Variant};
use thrift::service::{
    check_outcome, compose, find_method, read_call, read_reply, write_call, write_reply, CompositionError, Handler,
    Observer, Processor, Service,
};
use thrift::wire::{MessageKind, Token, WireType};

fn field(name: &str, tag: i16, ty: FieldType, optional: bool) -> FieldSpec {
    FieldSpec { name: name.to_string(), tag, ty, optional }
}

// struct 0: Exception { name: string @0, message: string @1 }
// struct 1: Deep { key: i32 @6 }
// enum 0: Operation { Add = 1, Sub = 2 } default Add
fn registry() -> Registry {
    Registry {
        structs: vec![
            StructSchema {
                name: "Exception".to_string(),
                fields: vec![field("name", 0, FieldType::Str, false), field("message", 1, FieldType::Str, false)],
            },
            StructSchema { name: "Deep".to_string(), fields: vec![field("key", 6, FieldType::I32, false)] },
        ],
        enums: vec![EnumSchema {
            name: "Operation".to_string(),
            variants: vec![
                Variant { name: "Add".to_string(), value: 1 },
                Variant { name: "Sub".to_string(), value: 2 },
            ],
            default: 0,
        }],
        lists: vec![],
        maps: vec![],
    }
}

fn get_struct() -> MethodSpec {
    MethodSpec {
        name: "get_struct".to_string(),
        args: vec![field("key", 1, FieldType::I32, true)],
        has_success: true,
        result: vec![field("success", 0, FieldType::Struct(1), true)],
    }
}

fn operation() -> MethodSpec {
    MethodSpec {
        name: "operation".to_string(),
        args: vec![field("one", 2, FieldType::Str, true), field("another", 3, FieldType::I32, true)],
        has_success: true,
        result: vec![field("success", 0, FieldType::Enum(0), true)],
    }
}

fn failing_operation() -> MethodSpec {
    MethodSpec {
        name: "operation".to_string(),
        args: vec![],
        has_success: true,
        result: vec![field("success", 0, FieldType::I32, true), field("bad", 1, FieldType::Struct(0), true)],
    }
}

fn exception(name: &str, message: &str) -> Value {
    Value::Struct(vec![Some(Value::Str(name.to_string())), Some(Value::Str(message.to_string()))])
}

fn combined() -> Service {
    let parent = Service { methods: vec![get_struct()] };
    compose(vec![operation()], vec![parent]).unwrap()
}

struct Both;

impl Handler for Both {
    fn handle(&self, method: usize, args: &Vec<Option<Value>>) -> Outcome {
        if method == 0 {
            // operation(one, another): Sub when another is even
            match args[1] {
                Some(Value::I32(x)) if x % 2 == 0 => Outcome::Success(Some(Value::Enum(2))),
                _ => Outcome::Success(Some(Value::Enum(1))),
            }
        } else {
            match args[0] {
                Some(Value::I32(k)) => Outcome::Success(Some(Value::Struct(vec![Some(Value::I32(k * 10))]))),
                _ => Outcome::Success(None),
            }
        }
    }
}

struct Recorder {
    seen: RefCell<Vec<String>>,
    label: &'static str,
}

impl Observer for Recorder {
    fn observe(&self, _kind: MessageKind, name: &String, seq: i32, _args: &Vec<Option<Value>>) {
        self.seen.borrow_mut().push(format!("{}:{}:{}", self.label, name, seq));
    }
}

#[test]
fn combined_service_answers_both_methods() {
    let reg = registry();
    let svc = combined();
    assert_eq!(find_method(&svc, &"operation".to_string()), Some(0));
    assert_eq!(find_method(&svc, &"get_struct".to_string()), Some(1));
    assert_eq!(find_method(&svc, &"Operation".to_string()), None);

    let mut p: Processor<Recorder> = Processor::new(reg, svc);
    p.add_observer(Recorder { seen: RefCell::new(Vec::new()), label: "a" });
    p.add_observer(Recorder { seen: RefCell::new(Vec::new()), label: "b" });

    // get_struct(4), inherited from the parent
    let mut call = Vec::new();
    write_call(&p.registry, &p.service.methods[1], vec![Value::I32(4)], &mut call);
    let mut reply = Vec::new();
    p.process(&Both, &call, &mut reply).unwrap();
    match read_reply(&p.registry, &p.service.methods[1], &reply) {
        Ok(Outcome::Success(Some(Value::Struct(s)))) => assert!(matches!(s[0], Some(Value::I32(40)))),
        _ => panic!("expected a Deep struct"),
    }

    // operation("x", 2), the child's own
    let mut call = Vec::new();
    write_call(&p.registry, &p.service.methods[0], vec![Value::Str("x".to_string()), Value::I32(2)], &mut call);
    assert_eq!(call[0], Token::MessageBegin("operation".to_string(), MessageKind::Call, 0));
    let mut reply = Vec::new();
    p.process(&Both, &call, &mut reply).unwrap();
    assert_eq!(reply[0], Token::MessageBegin("operation".to_string(), MessageKind::Reply, 0));
    assert!(matches!(
        read_reply(&p.registry, &p.service.methods[0], &reply),
        Ok(Outcome::Success(Some(Value::Enum(2))))
    ));

    assert_eq!(*p.observers[0].seen.borrow(), vec!["a:get_struct:0".to_string(), "a:operation:0".to_string()]);
    assert_eq!(*p.observers[1].seen.borrow(), vec!["b:get_struct:0".to_string(), "b:operation:0".to_string()]);
}

#[test]
fn duplicate_method_names_are_refused() {
    let parent = Service { methods: vec![get_struct()] };
    let r = compose(vec![get_struct()], vec![parent]);
    assert!(matches!(r, Err(CompositionError::DuplicateMethod)));
}

#[test]
fn unknown_method_is_protocol_violation() {
    let reg = registry();
    let svc = combined();
    let ts = vec![
        Token::MessageBegin("missing".to_string(), MessageKind::Call, 9),
        Token::StructBegin,
        Token::FieldStop,
        Token::StructEnd,
        Token::MessageEnd,
    ];
    assert!(matches!(read_call(&reg, &svc, &ts), Err(DecodeError::ProtocolViolation)));
    let p: Processor<Recorder> = Processor::new(reg, svc);
    let mut out = Vec::new();
    assert!(matches!(p.process(&Both, &ts, &mut out), Err(DecodeError::ProtocolViolation)));
    assert!(out.is_empty());
}

#[test]
fn missing_argument_is_protocol_violation() {
    let reg = registry();
    let svc = combined();
    let ts = vec![
        Token::MessageBegin("get_struct".to_string(), MessageKind::Call, 3),
        Token::StructBegin,
        Token::FieldStop,
        Token::StructEnd,
        Token::MessageEnd,
    ];
    assert!(matches!(read_call(&reg, &svc, &ts), Err(DecodeError::ProtocolViolation)));
}

#[test]
fn sequence_id_is_echoed() {
    let reg = registry();
    let svc = combined();
    let ts = vec![
        Token::MessageBegin("get_struct".to_string(), MessageKind::Call, 77),
        Token::StructBegin,
        Token::FieldBegin(WireType::I32, 1),
        Token::I32(1),
        Token::FieldEnd,
        Token::FieldStop,
        Token::StructEnd,
        Token::MessageEnd,
    ];
    let c = read_call(&reg, &svc, &ts).unwrap();
    assert_eq!(c.method, 1);
    assert_eq!(c.seq, 77);
    assert_eq!(c.kind, MessageKind::Call);
    let p: Processor<Recorder> = Processor::new(reg, svc);
    let mut out = Vec::new();
    p.process(&Both, &ts, &mut out).unwrap();
    assert_eq!(out[0], Token::MessageBegin("get_struct".to_string(), MessageKind::Reply, 77));
    assert_eq!(*out.last().unwrap(), Token::MessageEnd);
}

#[test]
fn envelope_sets_exactly_one_slot() {
    let reg = registry();
    let m = failing_operation();
    let ok = to_envelope(&reg, &m, Outcome::Success(Some(Value::I32(5))));
    assert!(matches!(ok[0], Some(Value::I32(5))));
    assert!(ok[1].is_none());
    assert!(matches!(from_envelope(&m, ok), Ok(Outcome::Success(Some(Value::I32(5))))));

    let bad = to_envelope(&reg, &m, Outcome::Failure(0, exception("Bad", "boom")));
    assert!(bad[0].is_none());
    assert!(bad[1].is_some());
    match from_envelope(&m, bad) {
        Ok(Outcome::Failure(0, Value::Struct(s))) => assert!(matches!(&s[1], Some(Value::Str(t)) if t == "boom")),
        _ => panic!("expected the Bad exception"),
    }
}

#[test]
fn empty_envelope_is_protocol_violation() {
    let m = failing_operation();
    assert!(matches!(from_envelope(&m, vec![None, None]), Err(DecodeError::ProtocolViolation)));
    let void = MethodSpec { name: "ping".to_string(), args: vec![], has_success: false, result: vec![] };
    assert!(matches!(from_envelope(&void, vec![]), Ok(Outcome::Success(None))));
}

#[test]
fn exception_reply_round_trip() {
    let reg = registry();
    let m = failing_operation();
    let mut out = Vec::new();
    write_reply(&reg, &m, 5, Outcome::Failure(0, exception("Bad", "boom")), &mut out);
    assert_eq!(out[0], Token::MessageBegin("operation".to_string(), MessageKind::Reply, 5));
    assert_eq!(out[2], Token::FieldBegin(WireType::Struct, 1));
    match read_reply(&reg, &m, &out) {
        Ok(Outcome::Failure(0, Value::Struct(s))) => assert!(matches!(&s[0], Some(Value::Str(t)) if t == "Bad")),
        _ => panic!("expected the Bad exception"),
    }
}

#[test]
fn ill_formed_outcome_is_rejected() {
    let reg = registry();
    let m = failing_operation();
    assert!(check_outcome(&reg, &m, &Outcome::Success(Some(Value::I32(1)))));
    assert!(!check_outcome(&reg, &m, &Outcome::Success(Some(Value::Bool(true)))));
    assert!(!check_outcome(&reg, &m, &Outcome::Failure(1, exception("a", "b"))));
    assert!(!check_outcome(&reg, &m, &Outcome::Success(None)));
}
