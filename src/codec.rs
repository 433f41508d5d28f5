//! Encode and decode of struct and enum values against a schema registry.
use vstd::prelude::*;
use crate::wire::{WireType, Token, TokenV, toks, push_token};
use crate::schema::{
    FieldType, FieldSpec, Registry, wire_of, wire_type_of, registry_wf, type_wf, fields_wf,
    enum_has, enum_lookup,
};

verus! {

/// A value of a field type. A struct holds one slot per field, in
/// declaration order; `None` is an unset slot.
#[derive(Debug)]
pub enum Value {
    Bool(bool),
    I32(i32),
    I64(i64),
    I16(i16),
    Byte(i8),
    Str(String),
    Enum(i32),
    Struct(Vec<Option<Value>>),
    List(Vec<Value>),
    MapOf(Vec<(Value, Value)>),
}

/// Mathematical model of a value.
pub enum ValueV {
    Bool(bool),
    I32(i32),
    I64(i64),
    I16(i16),
    Byte(i8),
    Str(Seq<char>),
    Enum(i32),
    Struct(Seq<Option<ValueV>>),
    List(Seq<ValueV>),
    MapOf(Seq<(ValueV, ValueV)>),
}

/// Why a decode failed.
#[derive(Clone, Copy, Debug, PartialEq, Eq, Structural)]
pub enum DecodeError {
    /// The tokens do not have the shape the schema asks for.
    ProtocolViolation,
    /// An enum integer that no variant declares.
    UnknownEnumValue,
}

pub open spec fn value_model(v: Value) -> ValueV
    decreases v,
{
    match v {
        Value::Bool(b) => ValueV::Bool(b),
        Value::I32(x) => ValueV::I32(x),
        Value::I64(x) => ValueV::I64(x),
        Value::I16(x) => ValueV::I16(x),
        Value::Byte(x) => ValueV::Byte(x),
        Value::Str(s) => ValueV::Str(s@),
        Value::Enum(x) => ValueV::Enum(x),
        Value::Struct(s) => ValueV::Struct(
            Seq::new(
                s@.len(),
                |i: int|
                    if 0 <= i < s@.len() {
                        match s@[i] {
                            Some(x) => Some(value_model(x)),
                            None => None,
                        }
                    } else {
                        None
                    },
            ),
        ),
        Value::List(vs) => ValueV::List(
            Seq::new(
                vs@.len(),
                |i: int|
                    if 0 <= i < vs@.len() {
                        value_model(vs@[i])
                    } else {
                        ValueV::Bool(false)
                    },
            ),
        ),
        Value::MapOf(ps) => ValueV::MapOf(
            Seq::new(
                ps@.len(),
                |i: int|
                    if 0 <= i < ps@.len() {
                        (value_model(ps@[i].0), value_model(ps@[i].1))
                    } else {
                        (ValueV::Bool(false), ValueV::Bool(false))
                    },
            ),
        ),
    }
}

/// The model of the entries of a map.
pub open spec fn pairs_model(s: Seq<(Value, Value)>) -> Seq<(ValueV, ValueV)> {
    Seq::new(
        s.len(),
        |i: int|
            if 0 <= i < s.len() {
                (value_model(s[i].0), value_model(s[i].1))
            } else {
                (ValueV::Bool(false), ValueV::Bool(false))
            },
    )
}

/// The key and value types of a map type.
pub open spec fn entry_of(reg: Registry, ty: FieldType) -> (FieldType, FieldType) {
    match ty {
        FieldType::MapOf(m) => reg.maps@[m as int],
        _ => (FieldType::Bool, FieldType::Bool),
    }
}

/// The model of a sequence of list elements.
pub open spec fn elems_model(s: Seq<Value>) -> Seq<ValueV> {
    Seq::new(s.len(), |i: int| if 0 <= i < s.len() { value_model(s[i]) } else { ValueV::Bool(false) })
}

/// The element type of a list type.
pub open spec fn elem_of(reg: Registry, ty: FieldType) -> FieldType {
    match ty {
        FieldType::List(l) => reg.lists@[l as int],
        FieldType::SetOf(l) => reg.lists@[l as int],
        _ => FieldType::Bool,
    }
}

impl View for Value {
    type V = ValueV;

    open spec fn view(&self) -> ValueV {
        value_model(*self)
    }
}

/// The model of a sequence of slots.
pub open spec fn slots_model(s: Seq<Option<Value>>) -> Seq<Option<ValueV>> {
    Seq::new(
        s.len(),
        |i: int|
            if 0 <= i < s.len() {
                match s[i] {
                    Some(x) => Some(value_model(x)),
                    None => None,
                }
            } else {
                None
            },
    )
}

/// The model of an optional value.
pub open spec fn opt_model(o: Option<Value>) -> Option<ValueV> {
    match o {
        Some(x) => Some(value_model(x)),
        None => None,
    }
}

/// The zero value of the types that have one.
pub open spec fn zero_of(reg: Registry, ty: FieldType) -> Option<ValueV> {
    match ty {
        FieldType::Bool => Some(ValueV::Bool(false)),
        FieldType::I32 => Some(ValueV::I32(0)),
        FieldType::I64 => Some(ValueV::I64(0)),
        FieldType::I16 => Some(ValueV::I16(0)),
        FieldType::Byte => Some(ValueV::Byte(0)),
        FieldType::Str => Some(ValueV::Str(Seq::empty())),
        FieldType::Enum(e) => Some(
            ValueV::Enum(reg.enums@[e as int].variants@[reg.enums@[e as int].default as int].value),
        ),
        FieldType::Struct(_) => None,
        FieldType::List(_) => Some(ValueV::List(Seq::empty())),
        FieldType::SetOf(_) => Some(ValueV::List(Seq::empty())),
        FieldType::MapOf(_) => Some(ValueV::MapOf(Seq::empty())),
    }
}

/// What a slot holds before any field is decoded into it: unset for an
/// optional field, else the zero value of its type, if it has one.
pub open spec fn default_slot(reg: Registry, f: FieldSpec) -> Option<ValueV> {
    if f.optional {
        None
    } else {
        zero_of(reg, f.ty)
    }
}

pub open spec fn default_slots(reg: Registry, fs: Seq<FieldSpec>) -> Seq<Option<ValueV>> {
    Seq::new(fs.len(), |i: int| default_slot(reg, fs[i]))
}

/// A field is written iff its slot is set and differs from the slot's default.
pub open spec fn should_encode(reg: Registry, f: FieldSpec, slot: Option<ValueV>) -> bool {
    slot is Some && slot != default_slot(reg, f)
}

/// A value that fits its type: enum integers are declared, struct slots
/// match the fields, and a required field with a zero value is set.
pub open spec fn value_wf(reg: Registry, ty: FieldType, v: ValueV) -> bool
    decreases v,
{
    match v {
        ValueV::Bool(_) => ty is Bool,
        ValueV::I32(_) => ty is I32,
        ValueV::I64(_) => ty is I64,
        ValueV::I16(_) => ty is I16,
        ValueV::Byte(_) => ty is Byte,
        ValueV::Str(_) => ty is Str,
        ValueV::Enum(x) => match ty {
            FieldType::Enum(e) => e < reg.enums@.len() && enum_has(reg.enums@[e as int], x),
            _ => false,
        },
        ValueV::Struct(slots) => match ty {
            FieldType::Struct(sid) => {
                &&& sid < reg.structs@.len()
                &&& slots.len() == reg.structs@[sid as int].fields@.len()
                &&& forall|i: int|
                    0 <= i < slots.len() ==> match #[trigger] slots[i] {
                        Some(x) => value_wf(reg, reg.structs@[sid as int].fields@[i].ty, x),
                        None => default_slot(reg, reg.structs@[sid as int].fields@[i]) is None,
                    }
            },
            _ => false,
        },
        ValueV::List(vs) => match ty {
            FieldType::List(l) => {
                &&& l < reg.lists@.len()
                &&& forall|i: int| 0 <= i < vs.len() ==> value_wf(reg, reg.lists@[l as int], #[trigger] vs[i])
            },
            FieldType::SetOf(l) => {
                &&& l < reg.lists@.len()
                &&& forall|i: int| 0 <= i < vs.len() ==> value_wf(reg, reg.lists@[l as int], #[trigger] vs[i])
            },
            _ => false,
        },
        ValueV::MapOf(ps) => match ty {
            FieldType::MapOf(m) => {
                &&& m < reg.maps@.len()
                &&& forall|i: int|
                    0 <= i < ps.len() ==> value_wf(reg, reg.maps@[m as int].0, (#[trigger] ps[i]).0) && value_wf(
                        reg,
                        reg.maps@[m as int].1,
                        ps[i].1,
                    )
            },
            _ => false,
        },
    }
}

/// Slots that fit a field list.
pub open spec fn struct_wf(reg: Registry, fs: Seq<FieldSpec>, slots: Seq<Option<ValueV>>) -> bool {
    &&& slots.len() == fs.len()
    &&& forall|i: int|
        0 <= i < slots.len() ==> match #[trigger] slots[i] {
            Some(x) => value_wf(reg, fs[i].ty, x),
            None => default_slot(reg, fs[i]) is None,
        }
}

/// The tokens written for a value of type `ty`.
pub open spec fn enc_value(reg: Registry, ty: FieldType, v: ValueV) -> Seq<TokenV>
    decreases v, 0int,
{
    match v {
        ValueV::Bool(b) => seq![TokenV::Bool(b)],
        ValueV::I32(x) => seq![TokenV::I32(x)],
        ValueV::I64(x) => seq![TokenV::I64(x)],
        ValueV::I16(x) => seq![TokenV::I16(x)],
        ValueV::Byte(x) => seq![TokenV::Byte(x)],
        ValueV::Str(s) => seq![TokenV::Str(s)],
        ValueV::Enum(x) => seq![TokenV::I32(x)],
        ValueV::Struct(slots) => {
            let fs = match ty {
                FieldType::Struct(sid) => reg.structs@[sid as int].fields@,
                _ => Seq::empty(),
            };
            seq![TokenV::StructBegin] + enc_fields(reg, fs, slots, 0) + seq![
                TokenV::FieldStop,
                TokenV::StructEnd,
            ]
        },
        ValueV::List(vs) => seq![TokenV::ListBegin(wire_of(elem_of(reg, ty)), vs.len())] + enc_elems(
            reg,
            elem_of(reg, ty),
            vs,
            0,
        ) + seq![TokenV::ListEnd],
        ValueV::MapOf(ps) => seq![
            TokenV::MapBegin(wire_of(entry_of(reg, ty).0), wire_of(entry_of(reg, ty).1), ps.len()),
        ] + enc_pairs(reg, entry_of(reg, ty).0, entry_of(reg, ty).1, ps, 0) + seq![TokenV::MapEnd],
    }
}

/// The tokens written for entries `i..` of a map: each key, then its value.
pub open spec fn enc_pairs(reg: Registry, kt: FieldType, vt: FieldType, ps: Seq<(ValueV, ValueV)>, i: int) -> Seq<TokenV>
    decreases ps, ps.len() - i,
{
    if i < 0 || i >= ps.len() {
        Seq::empty()
    } else {
        enc_value(reg, kt, ps[i].0) + enc_value(reg, vt, ps[i].1) + enc_pairs(reg, kt, vt, ps, i + 1)
    }
}

/// The tokens written for elements `i..` of a list.
pub open spec fn enc_elems(reg: Registry, ety: FieldType, vs: Seq<ValueV>, i: int) -> Seq<TokenV>
    decreases vs, vs.len() - i,
{
    if i < 0 || i >= vs.len() {
        Seq::empty()
    } else {
        enc_value(reg, ety, vs[i]) + enc_elems(reg, ety, vs, i + 1)
    }
}

/// The tokens written for fields `i..` of a struct.
pub open spec fn enc_fields(reg: Registry, fs: Seq<FieldSpec>, slots: Seq<Option<ValueV>>, i: int) -> Seq<TokenV>
    decreases slots, slots.len() - i,
{
    if i < 0 || i >= slots.len() || i >= fs.len() {
        Seq::empty()
    } else {
        enc_field(reg, fs[i], slots[i]) + enc_fields(reg, fs, slots, i + 1)
    }
}

/// The tokens written for one field: nothing, or its begin marker, value
/// and end marker.
pub open spec fn enc_field(reg: Registry, f: FieldSpec, slot: Option<ValueV>) -> Seq<TokenV>
    decreases slot, 0int,
{
    match slot {
        Some(x) => if should_encode(reg, f, slot) {
            seq![TokenV::FieldBegin(wire_of(f.ty), f.tag)] + enc_value(reg, f.ty, x) + seq![TokenV::FieldEnd]
        } else {
            Seq::empty()
        },
        None => Seq::empty(),
    }
}

/// The tokens written for a struct with fields `fs`.
pub open spec fn enc_struct(reg: Registry, fs: Seq<FieldSpec>, slots: Seq<Option<ValueV>>) -> Seq<TokenV> {
    seq![TokenV::StructBegin] + enc_fields(reg, fs, slots, 0) + seq![TokenV::FieldStop, TokenV::StructEnd]
}

/// The first field, from index `i` on, with wire type `wt` and tag `tag`.
pub open spec fn find_field(fs: Seq<FieldSpec>, wt: WireType, tag: i16, i: int) -> Option<int>
    decreases fs.len() - i,
{
    if i < 0 || i >= fs.len() {
        None
    } else if wire_of(fs[i].ty) == wt && fs[i].tag == tag {
        Some(i)
    } else {
        find_field(fs, wt, tag, i + 1)
    }
}

/// Consumes one value of wire type `wt` without interpreting it;
/// gives what follows it.
pub open spec fn skip_value(wt: WireType, ts: Seq<TokenV>) -> Option<Seq<TokenV>>
    decreases ts.len(), 1int,
{
    if ts.len() == 0 {
        None
    } else {
        match (wt, ts[0]) {
            (WireType::Bool, TokenV::Bool(_)) => Some(ts.skip(1)),
            (WireType::I32, TokenV::I32(_)) => Some(ts.skip(1)),
            (WireType::I64, TokenV::I64(_)) => Some(ts.skip(1)),
            (WireType::I16, TokenV::I16(_)) => Some(ts.skip(1)),
            (WireType::Byte, TokenV::Byte(_)) => Some(ts.skip(1)),
            (WireType::Str, TokenV::Str(_)) => Some(ts.skip(1)),
            (WireType::Struct, TokenV::StructBegin) => skip_fields(ts.skip(1)),
            (WireType::List, TokenV::ListBegin(wt2, n)) => skip_elems(wt2, n, ts.skip(1)),
            (WireType::SetOf, TokenV::ListBegin(wt2, n)) => skip_elems(wt2, n, ts.skip(1)),
            (WireType::MapOf, TokenV::MapBegin(kw, vw, n)) => skip_pairs(kw, vw, n, ts.skip(1)),
            _ => None,
        }
    }
}

/// Consumes the fields of a struct up to and including its end marker.
pub open spec fn skip_fields(ts: Seq<TokenV>) -> Option<Seq<TokenV>>
    decreases ts.len(), 0int,
{
    if ts.len() == 0 {
        None
    } else {
        match ts[0] {
            TokenV::FieldStop => if ts.len() >= 2 && ts[1] is StructEnd {
                Some(ts.skip(2))
            } else {
                None
            },
            TokenV::FieldBegin(wt, _) => match skip_value(wt, ts.skip(1)) {
                Some(rest) => if rest.len() > 0 && rest[0] is FieldEnd && rest.len() < ts.len() {
                    skip_fields(rest.skip(1))
                } else {
                    None
                },
                None => None,
            },
            _ => None,
        }
    }
}

/// Consumes `k` values of wire type `wt` and the list's end marker.
pub open spec fn skip_elems(wt: WireType, k: nat, ts: Seq<TokenV>) -> Option<Seq<TokenV>>
    decreases ts.len(), 2int,
{
    if k == 0 {
        if ts.len() > 0 && ts[0] is ListEnd {
            Some(ts.skip(1))
        } else {
            None
        }
    } else {
        match skip_value(wt, ts) {
            Some(rest) => if rest.len() < ts.len() {
                skip_elems(wt, (k - 1) as nat, rest)
            } else {
                None
            },
            None => None,
        }
    }
}

/// Consumes `k` entries, each a value of wire type `kw` and one of `vw`,
/// and the map's end marker.
pub open spec fn skip_pairs(kw: WireType, vw: WireType, k: nat, ts: Seq<TokenV>) -> Option<Seq<TokenV>>
    decreases ts.len(), 2int,
{
    if k == 0 {
        if ts.len() > 0 && ts[0] is MapEnd {
            Some(ts.skip(1))
        } else {
            None
        }
    } else {
        match skip_value(kw, ts) {
            Some(r1) => if r1.len() < ts.len() {
                match skip_value(vw, r1) {
                    Some(r2) => if r2.len() < r1.len() {
                        skip_pairs(kw, vw, (k - 1) as nat, r2)
                    } else {
                        None
                    },
                    None => None,
                }
            } else {
                None
            },
            None => None,
        }
    }
}

pub type DecodedValue = Result<(ValueV, Seq<TokenV>), DecodeError>;

pub type DecodedSlots = Result<(Seq<Option<ValueV>>, Seq<TokenV>), DecodeError>;

/// Decodes a value of type `ty` from the front of `ts`; gives the value
/// and what follows it.
pub open spec fn dec_value(reg: Registry, ty: FieldType, ts: Seq<TokenV>) -> DecodedValue
    decreases ts.len(), 1int,
{
    if ts.len() == 0 {
        Err(DecodeError::ProtocolViolation)
    } else {
        match (ty, ts[0]) {
            (FieldType::Bool, TokenV::Bool(b)) => Ok((ValueV::Bool(b), ts.skip(1))),
            (FieldType::I32, TokenV::I32(x)) => Ok((ValueV::I32(x), ts.skip(1))),
            (FieldType::I64, TokenV::I64(x)) => Ok((ValueV::I64(x), ts.skip(1))),
            (FieldType::I16, TokenV::I16(x)) => Ok((ValueV::I16(x), ts.skip(1))),
            (FieldType::Byte, TokenV::Byte(x)) => Ok((ValueV::Byte(x), ts.skip(1))),
            (FieldType::Str, TokenV::Str(s)) => Ok((ValueV::Str(s), ts.skip(1))),
            (FieldType::Enum(e), TokenV::I32(x)) => if e < reg.enums@.len() && enum_has(
                reg.enums@[e as int],
                x,
            ) {
                Ok((ValueV::Enum(x), ts.skip(1)))
            } else {
                Err(DecodeError::UnknownEnumValue)
            },
            (FieldType::Struct(sid), TokenV::StructBegin) => if sid < reg.structs@.len() {
                let fs = reg.structs@[sid as int].fields@;
                match dec_fields(reg, fs, default_slots(reg, fs), ts.skip(1)) {
                    Ok((slots, rest)) => Ok((ValueV::Struct(slots), rest)),
                    Err(e) => Err(e),
                }
            } else {
                Err(DecodeError::ProtocolViolation)
            },
            (FieldType::MapOf(m), TokenV::MapBegin(kw, vw, n)) => if m < reg.maps@.len() && kw == wire_of(
                reg.maps@[m as int].0,
            ) && vw == wire_of(reg.maps@[m as int].1) {
                match dec_pairs(reg, reg.maps@[m as int].0, reg.maps@[m as int].1, n, Seq::empty(), ts.skip(1)) {
                    Ok((ps, rest)) => Ok((ValueV::MapOf(ps), rest)),
                    Err(e) => Err(e),
                }
            } else {
                Err(DecodeError::ProtocolViolation)
            },
            (FieldType::SetOf(l), TokenV::ListBegin(wt, n)) => if l < reg.lists@.len() && wt == wire_of(
                reg.lists@[l as int],
            ) {
                match dec_elems(reg, reg.lists@[l as int], n, Seq::empty(), ts.skip(1)) {
                    Ok((vs, rest)) => Ok((ValueV::List(vs), rest)),
                    Err(e) => Err(e),
                }
            } else {
                Err(DecodeError::ProtocolViolation)
            },
            (FieldType::List(l), TokenV::ListBegin(wt, n)) => if l < reg.lists@.len() && wt == wire_of(
                reg.lists@[l as int],
            ) {
                match dec_elems(reg, reg.lists@[l as int], n, Seq::empty(), ts.skip(1)) {
                    Ok((vs, rest)) => Ok((ValueV::List(vs), rest)),
                    Err(e) => Err(e),
                }
            } else {
                Err(DecodeError::ProtocolViolation)
            },
            _ => Err(DecodeError::ProtocolViolation),
        }
    }
}

/// Decodes map entries after `acc` until there are `n`, then the map's
/// end marker.
pub open spec fn dec_pairs(
    reg: Registry,
    kt: FieldType,
    vt: FieldType,
    n: nat,
    acc: Seq<(ValueV, ValueV)>,
    ts: Seq<TokenV>,
) -> Result<(Seq<(ValueV, ValueV)>, Seq<TokenV>), DecodeError>
    decreases ts.len(), 3int,
{
    if acc.len() >= n {
        if ts.len() > 0 && ts[0] is MapEnd {
            Ok((acc, ts.skip(1)))
        } else {
            Err(DecodeError::ProtocolViolation)
        }
    } else {
        match dec_value(reg, kt, ts) {
            Ok((k, r1)) => if r1.len() < ts.len() {
                match dec_value(reg, vt, r1) {
                    Ok((v, r2)) => if r2.len() < r1.len() {
                        dec_pairs(reg, kt, vt, n, acc.push((k, v)), r2)
                    } else {
                        Err(DecodeError::ProtocolViolation)
                    },
                    Err(e) => Err(e),
                }
            } else {
                Err(DecodeError::ProtocolViolation)
            },
            Err(e) => Err(e),
        }
    }
}

/// Decodes list elements after `acc` until there are `n`, then the
/// list's end marker.
pub open spec fn dec_elems(reg: Registry, ety: FieldType, n: nat, acc: Seq<ValueV>, ts: Seq<TokenV>) -> Result<
    (Seq<ValueV>, Seq<TokenV>),
    DecodeError,
>
    decreases ts.len(), 3int,
{
    if acc.len() >= n {
        if ts.len() > 0 && ts[0] is ListEnd {
            Ok((acc, ts.skip(1)))
        } else {
            Err(DecodeError::ProtocolViolation)
        }
    } else {
        match dec_value(reg, ety, ts) {
            Ok((v, rest)) => if rest.len() < ts.len() {
                dec_elems(reg, ety, n, acc.push(v), rest)
            } else {
                Err(DecodeError::ProtocolViolation)
            },
            Err(e) => Err(e),
        }
    }
}

/// Decodes fields into `acc` up to and including the struct's end marker.
/// A field whose (wire type, tag) matches no field spec is skipped.
pub open spec fn dec_fields(reg: Registry, fs: Seq<FieldSpec>, acc: Seq<Option<ValueV>>, ts: Seq<TokenV>) -> DecodedSlots
    decreases ts.len(), 0int,
{
    if ts.len() == 0 {
        Err(DecodeError::ProtocolViolation)
    } else {
        match ts[0] {
            TokenV::FieldStop => if ts.len() >= 2 && ts[1] is StructEnd {
                Ok((acc, ts.skip(2)))
            } else {
                Err(DecodeError::ProtocolViolation)
            },
            TokenV::FieldBegin(wt, tag) => match dec_field_body(reg, fs, acc, wt, tag, ts.skip(1)) {
                Ok((acc2, rest)) => if rest.len() > 0 && rest[0] is FieldEnd && rest.len() < ts.len() {
                    dec_fields(reg, fs, acc2, rest.skip(1))
                } else {
                    Err(DecodeError::ProtocolViolation)
                },
                Err(e) => Err(e),
            },
            _ => Err(DecodeError::ProtocolViolation),
        }
    }
}

/// Decodes the value of one field into its slot, or skips it.
pub open spec fn dec_field_body(
    reg: Registry,
    fs: Seq<FieldSpec>,
    acc: Seq<Option<ValueV>>,
    wt: WireType,
    tag: i16,
    ts: Seq<TokenV>,
) -> DecodedSlots
    decreases ts.len(), 2int,
{
    match find_field(fs, wt, tag, 0) {
        Some(j) => match dec_value(reg, fs[j].ty, ts) {
            Ok((v, rest)) => Ok((acc.update(j, Some(v)), rest)),
            Err(e) => Err(e),
        },
        None => match skip_value(wt, ts) {
            Some(rest) => Ok((acc, rest)),
            None => Err(DecodeError::ProtocolViolation),
        },
    }
}

/// Decodes a struct with fields `fs` from the front of `ts`.
pub open spec fn dec_struct(reg: Registry, fs: Seq<FieldSpec>, ts: Seq<TokenV>) -> DecodedSlots {
    if ts.len() > 0 && ts[0] is StructBegin {
        dec_fields(reg, fs, default_slots(reg, fs), ts.skip(1))
    } else {
        Err(DecodeError::ProtocolViolation)
    }
}


/// How an executable decode result relates to the spec result on the
/// stream `ts`: the same value, and the position of what follows.
pub open spec fn value_rel(spec: DecodedValue, r: Result<(Value, usize), DecodeError>, ts: Seq<Token>) -> bool {
    match spec {
        Ok((v, rest)) => r matches Ok((x, p)) && x@ == v && p <= ts.len() && rest == toks(ts).skip(p as int),
        Err(e) => r == Err::<(Value, usize), DecodeError>(e),
    }
}

/// As `value_rel`, for decoded struct slots.
pub open spec fn slots_rel(
    spec: DecodedSlots,
    r: Result<(Vec<Option<Value>>, usize), DecodeError>,
    ts: Seq<Token>,
) -> bool {
    match spec {
        Ok((v, rest)) => r matches Ok((x, p)) && slots_model(x@) == v && p <= ts.len() && rest == toks(
            ts,
        ).skip(p as int),
        Err(e) => r == Err::<(Vec<Option<Value>>, usize), DecodeError>(e),
    }
}

/// As `value_rel`, for a skip.
pub open spec fn skip_rel(spec: Option<Seq<TokenV>>, r: Option<usize>, ts: Seq<Token>) -> bool {
    match spec {
        Some(rest) => r matches Some(p) && p <= ts.len() && rest == toks(ts).skip(p as int),
        None => r is None,
    }
}

proof fn lemma_toks_at(ts: Seq<Token>, p: int)
    requires
        0 <= p <= ts.len(),
    ensures
        toks(ts).skip(p).len() == ts.len() - p,
        p < ts.len() ==> toks(ts).skip(p)[0] == ts[p]@,
        p < ts.len() ==> toks(ts).skip(p).skip(1) == toks(ts).skip(p + 1),
        p + 1 < ts.len() ==> toks(ts).skip(p)[1] == ts[p + 1]@,
        p + 1 < ts.len() ==> toks(ts).skip(p).skip(2) == toks(ts).skip(p + 2),
{
    if p < ts.len() {
        assert(toks(ts).skip(p).skip(1) =~= toks(ts).skip(p + 1));
    }
    if p + 1 < ts.len() {
        assert(toks(ts).skip(p).skip(2) =~= toks(ts).skip(p + 2));
    }
}

pub proof fn lemma_list_model(s: Vec<Value>)
    ensures
        value_model(Value::List(s)) == ValueV::List(elems_model(s@)),
        elems_model(s@).len() == s@.len(),
        forall|i: int| 0 <= i < s@.len() ==> #[trigger] elems_model(s@)[i] == value_model(s@[i]),
{
    assert(value_model(Value::List(s))->List_0 =~= elems_model(s@));
}

pub proof fn lemma_map_model(s: Vec<(Value, Value)>)
    ensures
        value_model(Value::MapOf(s)) == ValueV::MapOf(pairs_model(s@)),
        pairs_model(s@).len() == s@.len(),
        forall|i: int|
            0 <= i < s@.len() ==> #[trigger] pairs_model(s@)[i] == (value_model(s@[i].0), value_model(s@[i].1)),
{
    assert(value_model(Value::MapOf(s))->MapOf_0 =~= pairs_model(s@));
}

pub proof fn lemma_struct_model(s: Vec<Option<Value>>)
    ensures
        value_model(Value::Struct(s)) == ValueV::Struct(slots_model(s@)),
        slots_model(s@).len() == s@.len(),
        forall|i: int| 0 <= i < s@.len() ==> #[trigger] slots_model(s@)[i] == opt_model(s@[i]),
{
    assert(value_model(Value::Struct(s))->Struct_0 =~= slots_model(s@));
    assert(slots_model(s@) =~= Seq::new(
        s@.len(),
        |i: int|
            if 0 <= i < s@.len() {
                match s@[i] {
                    Some(x) => Some(value_model(x)),
                    None => None,
                }
            } else {
                None
            },
    ));
}

/// The zero value of `ty`, where it has one.
fn zero_value(reg: &Registry, ty: FieldType) -> (r: Option<Value>)
    requires
        registry_wf(*reg),
        type_wf(*reg, ty),
    ensures
        opt_model(r) == zero_of(*reg, ty),
{
    match ty {
        FieldType::Bool => Some(Value::Bool(false)),
        FieldType::I32 => Some(Value::I32(0)),
        FieldType::I64 => Some(Value::I64(0)),
        FieldType::I16 => Some(Value::I16(0)),
        FieldType::Byte => Some(Value::Byte(0)),
        FieldType::Str => {
            let s = String::new();
            proof {
                assert(s@ =~= Seq::<char>::empty());
            }
            Some(Value::Str(s))
        },
        FieldType::Enum(e) => {
            let d = reg.enums[e].default;
            assert(crate::schema::enum_wf(reg.enums@[e as int]));
            Some(Value::Enum(reg.enums[e].variants[d].value))
        },
        FieldType::Struct(_) => None,
        FieldType::List(_) | FieldType::SetOf(_) => {
            let v: Vec<Value> = Vec::new();
            proof {
                lemma_list_model(v);
            }
            assert(elems_model(v@) =~= Seq::<ValueV>::empty());
            Some(Value::List(v))
        },
        FieldType::MapOf(_) => {
            let v: Vec<(Value, Value)> = Vec::new();
            proof {
                lemma_map_model(v);
            }
            assert(pairs_model(v@) =~= Seq::<(ValueV, ValueV)>::empty());
            Some(Value::MapOf(v))
        },
    }
}

/// The slots of a struct before any field is decoded.
pub fn default_slots_of(reg: &Registry, fs: &Vec<FieldSpec>) -> (r: Vec<Option<Value>>)
    requires
        registry_wf(*reg),
        fields_wf(*reg, fs@),
    ensures
        slots_model(r@) == default_slots(*reg, fs@),
        r@.len() == fs@.len(),
{
    let mut r: Vec<Option<Value>> = Vec::new();
    let mut i: usize = 0;
    while i < fs.len()
        invariant
            i <= fs@.len(),
            registry_wf(*reg),
            fields_wf(*reg, fs@),
            r@.len() == i,
            forall|k: int| 0 <= k < i ==> opt_model(#[trigger] r@[k]) == default_slot(*reg, fs@[k]),
        decreases fs@.len() - i,
    {
        let f = &fs[i];
        assert(type_wf(*reg, fs@[i as int].ty));
        if f.optional {
            r.push(None);
        } else {
            let z = zero_value(reg, f.ty);
            r.push(z);
        }
        i = i + 1;
    }
    assert(slots_model(r@) =~= default_slots(*reg, fs@));
    r
}

/// Whether the field in `slot` is written.
fn should_encode_slot(reg: &Registry, f: &FieldSpec, slot: &Option<Value>) -> (r: bool)
    requires
        registry_wf(*reg),
        type_wf(*reg, f.ty),
    ensures
        r == should_encode(*reg, *f, opt_model(*slot)),
{
    match slot {
        None => false,
        Some(v) => {
            if f.optional {
                true
            } else {
                match (f.ty, v) {
                    (FieldType::Bool, Value::Bool(b)) => *b,
                    (FieldType::I32, Value::I32(x)) => *x != 0,
                    (FieldType::I64, Value::I64(x)) => *x != 0,
                    (FieldType::I16, Value::I16(x)) => *x != 0,
                    (FieldType::Byte, Value::Byte(x)) => *x != 0,
                    (FieldType::List(_), Value::List(xs)) | (FieldType::SetOf(_), Value::List(xs)) => {
                        proof {
                            lemma_list_model(*xs);
                            if xs@.len() == 0 {
                                assert(elems_model(xs@) =~= Seq::<ValueV>::empty());
                            }
                        }
                        xs.len() != 0
                    },
                    (FieldType::MapOf(_), Value::MapOf(ps)) => {
                        proof {
                            lemma_map_model(*ps);
                            if ps@.len() == 0 {
                                assert(pairs_model(ps@) =~= Seq::<(ValueV, ValueV)>::empty());
                            }
                        }
                        ps.len() != 0
                    },
                    (FieldType::Str, Value::Str(x)) => {
                        let e = x.as_str().is_empty();
                        proof {
                            if e {
                                assert(x@ =~= Seq::<char>::empty());
                            }
                        }
                        !e
                    },
                    (FieldType::Enum(e), Value::Enum(x)) => {
                        let d = reg.enums[e].default;
                        assert(crate::schema::enum_wf(reg.enums@[e as int]));
                        *x != reg.enums[e].variants[d].value
                    },
                    _ => true,
                }
            }
        },
    }
}

/// Writes the tokens of `v`, a value of type `ty`. An enum is written as
/// its bare integer.
pub fn encode_value(reg: &Registry, ty: FieldType, v: &Value, out: &mut Vec<Token>)
    requires
        registry_wf(*reg),
        value_wf(*reg, ty, v@),
    ensures
        toks(final(out)@) == toks(old(out)@) + enc_value(*reg, ty, v@),
    decreases v,
{
    match v {
        Value::Bool(b) => push_token(out, Token::Bool(*b)),
        Value::I32(x) => push_token(out, Token::I32(*x)),
        Value::I64(x) => push_token(out, Token::I64(*x)),
        Value::I16(x) => push_token(out, Token::I16(*x)),
        Value::Byte(x) => push_token(out, Token::Byte(*x)),
        Value::Str(x) => push_token(out, Token::Str(x.clone())),
        Value::Enum(x) => push_token(out, Token::I32(*x)),
        Value::Struct(slots) => {
            proof {
                lemma_struct_model(*slots);
            }
            let sid = match ty {
                FieldType::Struct(sid) => sid,
                _ => 0,
            };
            assert(fields_wf(*reg, reg.structs@[sid as int].fields@));
            encode_fields(reg, &reg.structs[sid].fields, slots, out);
        },
        Value::List(vs) => {
            proof {
                lemma_list_model(*vs);
            }
            let l = match ty {
                FieldType::List(l) => l,
                FieldType::SetOf(l) => l,
                _ => 0,
            };
            let ety = reg.lists[l];
            assert(type_wf(*reg, ety));
            push_token(out, Token::ListBegin(wire_type_of(ety), vs.len()));
            encode_elems(reg, ety, vs, out);
            push_token(out, Token::ListEnd);
        },
        Value::MapOf(ps) => {
            proof {
                lemma_map_model(*ps);
            }
            let m = match ty {
                FieldType::MapOf(m) => m,
                _ => 0,
            };
            let (kt, vt) = reg.maps[m];
            assert(type_wf(*reg, kt) && type_wf(*reg, vt));
            push_token(out, Token::MapBegin(wire_type_of(kt), wire_type_of(vt), ps.len()));
            encode_pairs(reg, kt, vt, ps, out);
            push_token(out, Token::MapEnd);
        },
    }
    assert(toks(final(out)@) =~= toks(old(out)@) + enc_value(*reg, ty, v@));
}

/// Writes the entries of a map in order, each key before its value.
fn encode_pairs(reg: &Registry, kt: FieldType, vt: FieldType, ps: &Vec<(Value, Value)>, out: &mut Vec<Token>)
    requires
        registry_wf(*reg),
        type_wf(*reg, kt),
        type_wf(*reg, vt),
        forall|k: int|
            0 <= k < ps@.len() ==> value_wf(*reg, kt, (#[trigger] pairs_model(ps@)[k]).0) && value_wf(
                *reg,
                vt,
                pairs_model(ps@)[k].1,
            ),
    ensures
        toks(final(out)@) == toks(old(out)@) + enc_pairs(*reg, kt, vt, pairs_model(ps@), 0),
    decreases ps,
{
    let ghost m = pairs_model(ps@);
    proof {
        lemma_map_model(*ps);
    }
    let ghost base = toks(out@);
    let mut i: usize = 0;
    while i < ps.len()
        invariant
            i <= ps@.len(),
            registry_wf(*reg),
            type_wf(*reg, kt),
            type_wf(*reg, vt),
            m == pairs_model(ps@),
            m.len() == ps@.len(),
            forall|k: int| 0 <= k < ps@.len() ==> #[trigger] m[k] == (value_model(ps@[k].0), value_model(ps@[k].1)),
            forall|k: int| 0 <= k < m.len() ==> value_wf(*reg, kt, (#[trigger] m[k]).0) && value_wf(*reg, vt, m[k].1),
            toks(out@) + enc_pairs(*reg, kt, vt, m, i as int) == base + enc_pairs(*reg, kt, vt, m, 0),
        decreases ps@.len() - i,
    {
        let ghost before = toks(out@);
        assert(enc_pairs(*reg, kt, vt, m, i as int) == enc_value(*reg, kt, m[i as int].0) + enc_value(
            *reg,
            vt,
            m[i as int].1,
        ) + enc_pairs(*reg, kt, vt, m, i + 1));
        let p = &ps[i];
        assert(p.0@ == m[i as int].0);
        assert(p.1@ == m[i as int].1);
        encode_value(reg, kt, &p.0, out);
        encode_value(reg, vt, &p.1, out);
        assert(before + enc_pairs(*reg, kt, vt, m, i as int) =~= toks(out@) + enc_pairs(*reg, kt, vt, m, i + 1));
        i = i + 1;
    }
    assert(enc_pairs(*reg, kt, vt, m, ps@.len() as int) =~= Seq::<TokenV>::empty());
    assert(toks(final(out)@) =~= toks(old(out)@) + enc_pairs(*reg, kt, vt, m, 0));
}

/// Writes the elements of a list in order.
fn encode_elems(reg: &Registry, ety: FieldType, vs: &Vec<Value>, out: &mut Vec<Token>)
    requires
        registry_wf(*reg),
        type_wf(*reg, ety),
        forall|k: int| 0 <= k < vs@.len() ==> value_wf(*reg, ety, #[trigger] elems_model(vs@)[k]),
    ensures
        toks(final(out)@) == toks(old(out)@) + enc_elems(*reg, ety, elems_model(vs@), 0),
    decreases vs,
{
    let ghost m = elems_model(vs@);
    proof {
        lemma_list_model(*vs);
    }
    let ghost base = toks(out@);
    let mut i: usize = 0;
    while i < vs.len()
        invariant
            i <= vs@.len(),
            registry_wf(*reg),
            type_wf(*reg, ety),
            m == elems_model(vs@),
            m.len() == vs@.len(),
            forall|k: int| 0 <= k < vs@.len() ==> #[trigger] m[k] == value_model(vs@[k]),
            forall|k: int| 0 <= k < m.len() ==> value_wf(*reg, ety, #[trigger] m[k]),
            toks(out@) + enc_elems(*reg, ety, m, i as int) == base + enc_elems(*reg, ety, m, 0),
        decreases vs@.len() - i,
    {
        let ghost before = toks(out@);
        assert(enc_elems(*reg, ety, m, i as int) == enc_value(*reg, ety, m[i as int]) + enc_elems(*reg, ety, m, i + 1));
        assert(vs@[i as int]@ == m[i as int]);
        encode_value(reg, ety, &vs[i], out);
        assert(before + enc_elems(*reg, ety, m, i as int) =~= toks(out@) + enc_elems(*reg, ety, m, i + 1));
        i = i + 1;
    }
    assert(enc_elems(*reg, ety, m, vs@.len() as int) =~= Seq::<TokenV>::empty());
    assert(toks(final(out)@) =~= toks(old(out)@) + enc_elems(*reg, ety, m, 0));
}

/// Writes a struct: its begin marker, the fields that should be encoded,
/// the stop marker and the end marker.
fn encode_fields(reg: &Registry, fs: &Vec<FieldSpec>, slots: &Vec<Option<Value>>, out: &mut Vec<Token>)
    requires
        registry_wf(*reg),
        fields_wf(*reg, fs@),
        struct_wf(*reg, fs@, slots_model(slots@)),
    ensures
        toks(final(out)@) == toks(old(out)@) + enc_struct(*reg, fs@, slots_model(slots@)),
    decreases slots,
{
    let ghost m = slots_model(slots@);
    proof {
        lemma_struct_model(*slots);
    }
    push_token(out, Token::StructBegin);
    let ghost base = toks(out@);
    let mut i: usize = 0;
    while i < fs.len()
        invariant
            i <= fs@.len(),
            registry_wf(*reg),
            fields_wf(*reg, fs@),
            struct_wf(*reg, fs@, m),
            m == slots_model(slots@),
            m.len() == slots@.len(),
            forall|k: int| 0 <= k < slots@.len() ==> #[trigger] m[k] == opt_model(slots@[k]),
            toks(out@) + enc_fields(*reg, fs@, m, i as int) == base + enc_fields(*reg, fs@, m, 0),
        decreases fs@.len() - i,
    {
        let ghost before = toks(out@);
        assert(type_wf(*reg, fs@[i as int].ty));
        let f = &fs[i];
        let slot = &slots[i];
        assert(enc_fields(*reg, fs@, m, i as int) == enc_field(*reg, fs@[i as int], m[i as int])
            + enc_fields(*reg, fs@, m, i + 1));
        if should_encode_slot(reg, f, slot) {
            let w = wire_type_of(f.ty);
            push_token(out, Token::FieldBegin(w, f.tag));
            match slot {
                Some(v) => {
                    assert(m[i as int] == Some(v@));
                    assert(value_wf(*reg, fs@[i as int].ty, v@));
                    encode_value(reg, f.ty, v, out);
                },
                None => {},
            }
            push_token(out, Token::FieldEnd);
            assert(toks(out@) =~= before + enc_field(*reg, fs@[i as int], m[i as int]));
        } else {
            assert(enc_field(*reg, fs@[i as int], m[i as int]) =~= Seq::<TokenV>::empty());
            assert(toks(out@) =~= before + enc_field(*reg, fs@[i as int], m[i as int]));
        }
        assert(before + enc_fields(*reg, fs@, m, i as int) =~= toks(out@) + enc_fields(
            *reg,
            fs@,
            m,
            i + 1,
        ));
        i = i + 1;
    }
    push_token(out, Token::FieldStop);
    push_token(out, Token::StructEnd);
    assert(toks(final(out)@) =~= toks(old(out)@) + enc_struct(*reg, fs@, m));
}

/// Appends the encoding of a struct with fields `fs` to `out`.
pub fn encode_struct(reg: &Registry, fs: &Vec<FieldSpec>, slots: &Vec<Option<Value>>, out: &mut Vec<Token>)
    requires
        registry_wf(*reg),
        fields_wf(*reg, fs@),
        struct_wf(*reg, fs@, slots_model(slots@)),
    ensures
        toks(final(out)@) == toks(old(out)@) + enc_struct(*reg, fs@, slots_model(slots@)),
{
    encode_fields(reg, fs, slots, out);
}

/// The index of the first field with wire type `wt` and tag `tag`.
pub fn find_field_index(fs: &Vec<FieldSpec>, wt: WireType, tag: i16) -> (r: Option<usize>)
    ensures
        r matches Some(j) ==> find_field(fs@, wt, tag, 0) == Some(j as int) && j < fs@.len(),
        r is None ==> find_field(fs@, wt, tag, 0) is None,
{
    let mut i: usize = 0;
    while i < fs.len()
        invariant
            i <= fs@.len(),
            find_field(fs@, wt, tag, 0) == find_field(fs@, wt, tag, i as int),
        decreases fs@.len() - i,
    {
        if wire_type_of(fs[i].ty) == wt && fs[i].tag == tag {
            return Some(i);
        }
        i = i + 1;
    }
    None
}


/// Skips one value of wire type `wt` starting at `pos`; gives the
/// position after it.
fn skip_value_at(wt: WireType, ts: &Vec<Token>, pos: usize) -> (r: Option<usize>)
    requires
        pos <= ts@.len(),
    ensures
        skip_rel(skip_value(wt, toks(ts@).skip(pos as int)), r, ts@),
        r matches Some(p) ==> pos < p,
    decreases ts@.len() - pos, 1int,
{
    proof {
        lemma_toks_at(ts@, pos as int);
    }
    if pos >= ts.len() {
        return None;
    }
    match (wt, &ts[pos]) {
        (WireType::Bool, Token::Bool(_)) => Some(pos + 1),
        (WireType::I32, Token::I32(_)) => Some(pos + 1),
        (WireType::I64, Token::I64(_)) => Some(pos + 1),
        (WireType::I16, Token::I16(_)) => Some(pos + 1),
        (WireType::Byte, Token::Byte(_)) => Some(pos + 1),
        (WireType::Str, Token::Str(_)) => Some(pos + 1),
        (WireType::Struct, Token::StructBegin) => skip_fields_at(ts, pos + 1),
        (WireType::List, Token::ListBegin(w, n)) => skip_elems_at(*w, *n, ts, pos + 1),
        (WireType::SetOf, Token::ListBegin(w, n)) => skip_elems_at(*w, *n, ts, pos + 1),
        (WireType::MapOf, Token::MapBegin(kw, vw, n)) => skip_pairs_at(*kw, *vw, *n, ts, pos + 1),
        _ => None,
    }
}

/// Skips `n` map entries starting at `start`, then the map's end marker.
fn skip_pairs_at(kw: WireType, vw: WireType, n: usize, ts: &Vec<Token>, start: usize) -> (r: Option<usize>)
    requires
        start <= ts@.len(),
    ensures
        skip_rel(skip_pairs(kw, vw, n as nat, toks(ts@).skip(start as int)), r, ts@),
        r matches Some(p) ==> start < p,
    decreases ts@.len() - start, 2int,
{
    let mut p = start;
    let mut k = n;
    loop
        invariant
            start <= p <= ts@.len(),
            skip_pairs(kw, vw, k as nat, toks(ts@).skip(p as int)) == skip_pairs(
                kw,
                vw,
                n as nat,
                toks(ts@).skip(start as int),
            ),
        decreases ts@.len() - p,
    {
        proof {
            lemma_toks_at(ts@, p as int);
        }
        if k == 0 {
            if p < ts.len() {
                match &ts[p] {
                    Token::MapEnd => {
                        return Some(p + 1);
                    },
                    _ => {},
                }
            }
            return None;
        }
        match skip_value_at(kw, ts, p) {
            Some(q1) => {
                proof {
                    lemma_toks_at(ts@, q1 as int);
                }
                match skip_value_at(vw, ts, q1) {
                    Some(q2) => {
                        p = q2;
                        k = k - 1;
                    },
                    None => {
                        return None;
                    },
                }
            },
            None => {
                return None;
            },
        }
    }
}

/// Skips `n` values of wire type `wt` starting at `start`, then the
/// list's end marker.
fn skip_elems_at(wt: WireType, n: usize, ts: &Vec<Token>, start: usize) -> (r: Option<usize>)
    requires
        start <= ts@.len(),
    ensures
        skip_rel(skip_elems(wt, n as nat, toks(ts@).skip(start as int)), r, ts@),
        r matches Some(p) ==> start < p,
    decreases ts@.len() - start, 2int,
{
    let mut p = start;
    let mut k = n;
    loop
        invariant
            start <= p <= ts@.len(),
            skip_elems(wt, k as nat, toks(ts@).skip(p as int)) == skip_elems(wt, n as nat, toks(ts@).skip(start as int)),
        decreases ts@.len() - p,
    {
        proof {
            lemma_toks_at(ts@, p as int);
        }
        if k == 0 {
            if p < ts.len() {
                match &ts[p] {
                    Token::ListEnd => {
                        return Some(p + 1);
                    },
                    _ => {},
                }
            }
            return None;
        }
        match skip_value_at(wt, ts, p) {
            Some(q) => {
                p = q;
                k = k - 1;
            },
            None => {
                return None;
            },
        }
    }
}

/// Skips the fields of a struct starting at `start`, through its end marker.
fn skip_fields_at(ts: &Vec<Token>, start: usize) -> (r: Option<usize>)
    requires
        start <= ts@.len(),
    ensures
        skip_rel(skip_fields(toks(ts@).skip(start as int)), r, ts@),
        r matches Some(p) ==> start < p,
    decreases ts@.len() - start, 0int,
{
    let mut p = start;
    loop
        invariant
            start <= p <= ts@.len(),
            skip_fields(toks(ts@).skip(p as int)) == skip_fields(toks(ts@).skip(start as int)),
        decreases ts@.len() - p,
    {
        proof {
            lemma_toks_at(ts@, p as int);
        }
        if p >= ts.len() {
            return None;
        }
        match &ts[p] {
            Token::FieldStop => {
                if p + 1 < ts.len() {
                    match &ts[p + 1] {
                        Token::StructEnd => {
                            return Some(p + 2);
                        },
                        _ => {
                            return None;
                        },
                    }
                }
                return None;
            },
            Token::FieldBegin(wt, _) => {
                match skip_value_at(*wt, ts, p + 1) {
                    Some(q) => {
                        proof {
                            lemma_toks_at(ts@, q as int);
                        }
                        if q < ts.len() {
                            match &ts[q] {
                                Token::FieldEnd => {
                                    p = q + 1;
                                },
                                _ => {
                                    return None;
                                },
                            }
                        } else {
                            return None;
                        }
                    },
                    None => {
                        return None;
                    },
                }
            },
            _ => {
                return None;
            },
        }
    }
}

/// Decodes a value of type `ty` starting at `pos`; gives the value and
/// the position after it.
pub fn decode_value(reg: &Registry, ty: FieldType, ts: &Vec<Token>, pos: usize) -> (r: Result<
    (Value, usize),
    DecodeError,
>)
    requires
        registry_wf(*reg),
        type_wf(*reg, ty),
        pos <= ts@.len(),
    ensures
        value_rel(dec_value(*reg, ty, toks(ts@).skip(pos as int)), r, ts@),
        r matches Ok((_, p)) ==> pos < p,
    decreases ts@.len() - pos, 1int,
{
    proof {
        lemma_toks_at(ts@, pos as int);
    }
    if pos >= ts.len() {
        return Err(DecodeError::ProtocolViolation);
    }
    match (ty, &ts[pos]) {
        (FieldType::Bool, Token::Bool(b)) => Ok((Value::Bool(*b), pos + 1)),
        (FieldType::I32, Token::I32(x)) => Ok((Value::I32(*x), pos + 1)),
        (FieldType::I64, Token::I64(x)) => Ok((Value::I64(*x), pos + 1)),
        (FieldType::I16, Token::I16(x)) => Ok((Value::I16(*x), pos + 1)),
        (FieldType::Byte, Token::Byte(x)) => Ok((Value::Byte(*x), pos + 1)),
        (FieldType::Str, Token::Str(x)) => Ok((Value::Str(x.clone()), pos + 1)),
        (FieldType::Enum(e), Token::I32(x)) => {
            match enum_lookup(&reg.enums[e], *x) {
                Some(_) => Ok((Value::Enum(*x), pos + 1)),
                None => Err(DecodeError::UnknownEnumValue),
            }
        },
        (FieldType::Struct(sid), Token::StructBegin) => {
            assert(fields_wf(*reg, reg.structs@[sid as int].fields@));
            match decode_fields(reg, &reg.structs[sid].fields, ts, pos + 1) {
                Ok((slots, p)) => {
                    proof {
                        lemma_struct_model(slots);
                    }
                    Ok((Value::Struct(slots), p))
                },
                Err(e) => Err(e),
            }
        },
        (FieldType::List(l), Token::ListBegin(w, n)) | (FieldType::SetOf(l), Token::ListBegin(w, n)) => {
            let ety = reg.lists[l];
            assert(type_wf(*reg, ety));
            if *w != wire_type_of(ety) {
                return Err(DecodeError::ProtocolViolation);
            }
            match decode_elems(reg, ety, *n, ts, pos + 1) {
                Ok((vs, p)) => {
                    proof {
                        lemma_list_model(vs);
                    }
                    Ok((Value::List(vs), p))
                },
                Err(e) => Err(e),
            }
        },
        (FieldType::MapOf(m), Token::MapBegin(kw, vw, n)) => {
            let (kt, vt) = reg.maps[m];
            assert(type_wf(*reg, kt) && type_wf(*reg, vt));
            if *kw != wire_type_of(kt) || *vw != wire_type_of(vt) {
                return Err(DecodeError::ProtocolViolation);
            }
            match decode_pairs(reg, kt, vt, *n, ts, pos + 1) {
                Ok((ps, p)) => {
                    proof {
                        lemma_map_model(ps);
                    }
                    Ok((Value::MapOf(ps), p))
                },
                Err(e) => Err(e),
            }
        },
        _ => Err(DecodeError::ProtocolViolation),
    }
}

/// Decodes `n` map entries starting at `start`, then the map's end marker.
fn decode_pairs(reg: &Registry, kt: FieldType, vt: FieldType, n: usize, ts: &Vec<Token>, start: usize) -> (r: Result<
    (Vec<(Value, Value)>, usize),
    DecodeError,
>)
    requires
        registry_wf(*reg),
        type_wf(*reg, kt),
        type_wf(*reg, vt),
        start <= ts@.len(),
    ensures
        match dec_pairs(*reg, kt, vt, n as nat, Seq::empty(), toks(ts@).skip(start as int)) {
            Ok((ps, rest)) => r matches Ok((x, p)) && pairs_model(x@) == ps && p <= ts@.len() && rest == toks(
                ts@,
            ).skip(p as int),
            Err(e) => r == Err::<(Vec<(Value, Value)>, usize), DecodeError>(e),
        },
        r matches Ok((_, p)) ==> start < p,
    decreases ts@.len() - start, 2int,
{
    let mut acc: Vec<(Value, Value)> = Vec::new();
    let mut p = start;
    proof {
        assert(pairs_model(acc@) =~= Seq::<(ValueV, ValueV)>::empty());
    }
    loop
        invariant
            start <= p <= ts@.len(),
            registry_wf(*reg),
            type_wf(*reg, kt),
            type_wf(*reg, vt),
            dec_pairs(*reg, kt, vt, n as nat, pairs_model(acc@), toks(ts@).skip(p as int)) == dec_pairs(
                *reg,
                kt,
                vt,
                n as nat,
                Seq::empty(),
                toks(ts@).skip(start as int),
            ),
        decreases ts@.len() - p,
    {
        proof {
            lemma_toks_at(ts@, p as int);
        }
        if acc.len() >= n {
            if p < ts.len() {
                match &ts[p] {
                    Token::MapEnd => {
                        return Ok((acc, p + 1));
                    },
                    _ => {},
                }
            }
            return Err(DecodeError::ProtocolViolation);
        }
        match decode_value(reg, kt, ts, p) {
            Ok((k, q1)) => {
                proof {
                    lemma_toks_at(ts@, q1 as int);
                }
                match decode_value(reg, vt, ts, q1) {
                    Ok((v, q2)) => {
                        let ghost old_m = pairs_model(acc@);
                        let ghost e = (k@, v@);
                        acc.push((k, v));
                        assert(pairs_model(acc@) =~= old_m.push(e));
                        p = q2;
                    },
                    Err(e) => {
                        return Err(e);
                    },
                }
            },
            Err(e) => {
                return Err(e);
            },
        }
    }
}

/// Decodes `n` list elements of type `ety` starting at `start`, then the
/// list's end marker.
fn decode_elems(reg: &Registry, ety: FieldType, n: usize, ts: &Vec<Token>, start: usize) -> (r: Result<
    (Vec<Value>, usize),
    DecodeError,
>)
    requires
        registry_wf(*reg),
        type_wf(*reg, ety),
        start <= ts@.len(),
    ensures
        match dec_elems(*reg, ety, n as nat, Seq::empty(), toks(ts@).skip(start as int)) {
            Ok((vs, rest)) => r matches Ok((x, p)) && elems_model(x@) == vs && p <= ts@.len() && rest == toks(
                ts@,
            ).skip(p as int),
            Err(e) => r == Err::<(Vec<Value>, usize), DecodeError>(e),
        },
        r matches Ok((_, p)) ==> start < p,
    decreases ts@.len() - start, 2int,
{
    let mut acc: Vec<Value> = Vec::new();
    let mut p = start;
    proof {
        assert(elems_model(acc@) =~= Seq::<ValueV>::empty());
    }
    loop
        invariant
            start <= p <= ts@.len(),
            registry_wf(*reg),
            type_wf(*reg, ety),
            dec_elems(*reg, ety, n as nat, elems_model(acc@), toks(ts@).skip(p as int)) == dec_elems(
                *reg,
                ety,
                n as nat,
                Seq::empty(),
                toks(ts@).skip(start as int),
            ),
        decreases ts@.len() - p,
    {
        proof {
            lemma_toks_at(ts@, p as int);
        }
        if acc.len() >= n {
            if p < ts.len() {
                match &ts[p] {
                    Token::ListEnd => {
                        return Ok((acc, p + 1));
                    },
                    _ => {},
                }
            }
            return Err(DecodeError::ProtocolViolation);
        }
        match decode_value(reg, ety, ts, p) {
            Ok((v, q)) => {
                let ghost old_m = elems_model(acc@);
                let ghost vm = v@;
                acc.push(v);
                assert(elems_model(acc@) =~= old_m.push(vm));
                p = q;
            },
            Err(e) => {
                return Err(e);
            },
        }
    }
}

/// Decodes the fields of a struct starting at `start`, through its end
/// marker, into fresh default slots.
fn decode_fields(reg: &Registry, fs: &Vec<FieldSpec>, ts: &Vec<Token>, start: usize) -> (r: Result<
    (Vec<Option<Value>>, usize),
    DecodeError,
>)
    requires
        registry_wf(*reg),
        fields_wf(*reg, fs@),
        start <= ts@.len(),
    ensures
        slots_rel(dec_fields(*reg, fs@, default_slots(*reg, fs@), toks(ts@).skip(start as int)), r, ts@),
        r matches Ok((_, p)) ==> start < p,
    decreases ts@.len() - start, 0int,
{
    let mut acc = default_slots_of(reg, fs);
    let mut p = start;
    loop
        invariant
            start <= p <= ts@.len(),
            registry_wf(*reg),
            fields_wf(*reg, fs@),
            acc@.len() == fs@.len(),
            dec_fields(*reg, fs@, slots_model(acc@), toks(ts@).skip(p as int)) == dec_fields(
                *reg,
                fs@,
                default_slots(*reg, fs@),
                toks(ts@).skip(start as int),
            ),
        decreases ts@.len() - p,
    {
        proof {
            lemma_toks_at(ts@, p as int);
        }
        if p >= ts.len() {
            return Err(DecodeError::ProtocolViolation);
        }
        let q: usize;
        match &ts[p] {
            Token::FieldStop => {
                if p + 1 < ts.len() {
                    match &ts[p + 1] {
                        Token::StructEnd => {
                            return Ok((acc, p + 2));
                        },
                        _ => {
                            return Err(DecodeError::ProtocolViolation);
                        },
                    }
                }
                return Err(DecodeError::ProtocolViolation);
            },
            Token::FieldBegin(wt, tag) => {
                let ghost body = dec_field_body(*reg, fs@, slots_model(acc@), *wt, *tag, toks(ts@).skip(p + 1));
                match find_field_index(fs, *wt, *tag) {
                    Some(j) => {
                        assert(type_wf(*reg, fs@[j as int].ty));
                        match decode_value(reg, fs[j].ty, ts, p + 1) {
                            Ok((v, q1)) => {
                                let ghost old_acc = slots_model(acc@);
                                let ghost vm = v@;
                                acc[j] = Some(v);
                                assert(slots_model(acc@) =~= old_acc.update(j as int, Some(vm)));
                                q = q1;
                            },
                            Err(e) => {
                                let ghost dv = dec_value(*reg, fs@[j as int].ty, toks(ts@).skip(p + 1));
                                assert(dv is Err);
                                assert(dv == Err::<(ValueV, Seq<TokenV>), DecodeError>(e));
                                assert(find_field(fs@, *wt, *tag, 0) == Some(j as int));
                                assert(body == Err::<(Seq<Option<ValueV>>, Seq<TokenV>), DecodeError>(e));
                                return Err(e);
                            },
                        }
                    },
                    None => {
                        match skip_value_at(*wt, ts, p + 1) {
                            Some(q1) => {
                                q = q1;
                            },
                            None => {
                                assert(body is Err);
                                return Err(DecodeError::ProtocolViolation);
                            },
                        }
                    },
                }
            },
            _ => {
                return Err(DecodeError::ProtocolViolation);
            },
        }
        proof {
            lemma_toks_at(ts@, q as int);
        }
        if q < ts.len() {
            match &ts[q] {
                Token::FieldEnd => {
                    p = q + 1;
                },
                _ => {
                    return Err(DecodeError::ProtocolViolation);
                },
            }
        } else {
            return Err(DecodeError::ProtocolViolation);
        }
    }
}

/// Decodes a struct with fields `fs` starting at `pos`; gives its slots
/// and the position after it.
pub fn decode_struct(reg: &Registry, fs: &Vec<FieldSpec>, ts: &Vec<Token>, pos: usize) -> (r: Result<
    (Vec<Option<Value>>, usize),
    DecodeError,
>)
    requires
        registry_wf(*reg),
        fields_wf(*reg, fs@),
        pos <= ts@.len(),
    ensures
        slots_rel(dec_struct(*reg, fs@, toks(ts@).skip(pos as int)), r, ts@),
        r matches Ok((_, p)) ==> pos < p,
{
    proof {
        lemma_toks_at(ts@, pos as int);
    }
    if pos < ts.len() {
        match &ts[pos] {
            Token::StructBegin => {
                return decode_fields(reg, fs, ts, pos + 1);
            },
            _ => {},
        }
    }
    Err(DecodeError::ProtocolViolation)
}


/// Slots `0..i` taken from `slots`, the rest from `defaults`.
pub open spec fn mix(slots: Seq<Option<ValueV>>, defaults: Seq<Option<ValueV>>, i: int) -> Seq<Option<ValueV>> {
    Seq::new(slots.len(), |k: int| if k < i { slots[k] } else { defaults[k] })
}

proof fn lemma_find_unique(fs: Seq<FieldSpec>, i: int, k: int)
    requires
        crate::schema::tags_unique(fs),
        0 <= i <= k < fs.len(),
    ensures
        find_field(fs, wire_of(fs[k].ty), fs[k].tag, i) == Some(k),
    decreases k - i,
{
    if i < k {
        assert(fs[i].tag != fs[k].tag);
        lemma_find_unique(fs, i + 1, k);
    }
}

/// Decoding the encoding of a well-formed value gives the value back and
/// leaves what follows it untouched.
pub proof fn lemma_value_round_trip(reg: Registry, ty: FieldType, v: ValueV, rest: Seq<TokenV>)
    requires
        registry_wf(reg),
        type_wf(reg, ty),
        value_wf(reg, ty, v),
    ensures
        dec_value(reg, ty, enc_value(reg, ty, v) + rest) == Ok::<(ValueV, Seq<TokenV>), DecodeError>((v, rest)),
    decreases v, 0int,
{
    let ts = enc_value(reg, ty, v) + rest;
    match v {
        ValueV::Struct(slots) => {
            let sid = ty->Struct_0;
            let fs = reg.structs@[sid as int].fields@;
            assert(fields_wf(reg, fs));
            let body = enc_fields(reg, fs, slots, 0) + seq![TokenV::FieldStop, TokenV::StructEnd] + rest;
            assert(ts.skip(1) =~= body);
            assert(mix(slots, default_slots(reg, fs), 0) =~= default_slots(reg, fs));
            lemma_fields_round_trip(reg, fs, slots, 0, rest);
        },
        ValueV::List(vs) => {
            let ety = elem_of(reg, ty);
            assert(type_wf(reg, ety));
            assert(ts.skip(1) =~= enc_elems(reg, ety, vs, 0) + seq![TokenV::ListEnd] + rest);
            assert(vs.take(0) =~= Seq::<ValueV>::empty());
            lemma_elems_round_trip(reg, ety, vs, 0, rest);
        },
        ValueV::MapOf(ps) => {
            let (kt, vt) = entry_of(reg, ty);
            assert(type_wf(reg, kt) && type_wf(reg, vt));
            assert(ts.skip(1) =~= enc_pairs(reg, kt, vt, ps, 0) + seq![TokenV::MapEnd] + rest);
            assert(ps.take(0) =~= Seq::<(ValueV, ValueV)>::empty());
            lemma_pairs_round_trip(reg, kt, vt, ps, 0, rest);
        },
        _ => {
            assert(ts.skip(1) =~= rest);
        },
    }
}

proof fn lemma_enc_nonempty(reg: Registry, ty: FieldType, v: ValueV)
    ensures
        enc_value(reg, ty, v).len() > 0,
{
    match v {
        ValueV::Struct(slots) => {},
        ValueV::List(vs) => {},
        ValueV::MapOf(ps) => {},
        _ => {},
    }
}

proof fn lemma_pairs_round_trip(
    reg: Registry,
    kt: FieldType,
    vt: FieldType,
    ps: Seq<(ValueV, ValueV)>,
    i: int,
    rest: Seq<TokenV>,
)
    requires
        registry_wf(reg),
        type_wf(reg, kt),
        type_wf(reg, vt),
        forall|k: int| 0 <= k < ps.len() ==> value_wf(reg, kt, (#[trigger] ps[k]).0) && value_wf(reg, vt, ps[k].1),
        0 <= i <= ps.len(),
    ensures
        dec_pairs(reg, kt, vt, ps.len(), ps.take(i), enc_pairs(reg, kt, vt, ps, i) + seq![TokenV::MapEnd] + rest)
            == Ok::<(Seq<(ValueV, ValueV)>, Seq<TokenV>), DecodeError>((ps, rest)),
    decreases ps, ps.len() - i,
{
    let ts = enc_pairs(reg, kt, vt, ps, i) + seq![TokenV::MapEnd] + rest;
    if i == ps.len() {
        assert(enc_pairs(reg, kt, vt, ps, i) =~= Seq::<TokenV>::empty());
        assert(ps.take(i) =~= ps);
        assert(ts.skip(1) =~= rest);
    } else {
        let e = ps[i];
        let after = enc_pairs(reg, kt, vt, ps, i + 1) + seq![TokenV::MapEnd] + rest;
        let mid = enc_value(reg, vt, e.1) + after;
        assert(enc_pairs(reg, kt, vt, ps, i) == enc_value(reg, kt, e.0) + enc_value(reg, vt, e.1) + enc_pairs(
            reg,
            kt,
            vt,
            ps,
            i + 1,
        ));
        assert(ts =~= enc_value(reg, kt, e.0) + mid);
        lemma_value_round_trip(reg, kt, e.0, mid);
        lemma_value_round_trip(reg, vt, e.1, after);
        lemma_enc_nonempty(reg, kt, e.0);
        lemma_enc_nonempty(reg, vt, e.1);
        assert(ps.take(i).push((e.0, e.1)) =~= ps.take(i + 1));
        lemma_pairs_round_trip(reg, kt, vt, ps, i + 1, rest);
    }
}

proof fn lemma_elems_round_trip(reg: Registry, ety: FieldType, vs: Seq<ValueV>, i: int, rest: Seq<TokenV>)
    requires
        registry_wf(reg),
        type_wf(reg, ety),
        forall|k: int| 0 <= k < vs.len() ==> value_wf(reg, ety, #[trigger] vs[k]),
        0 <= i <= vs.len(),
    ensures
        dec_elems(reg, ety, vs.len(), vs.take(i), enc_elems(reg, ety, vs, i) + seq![TokenV::ListEnd] + rest)
            == Ok::<(Seq<ValueV>, Seq<TokenV>), DecodeError>((vs, rest)),
    decreases vs, vs.len() - i,
{
    let ts = enc_elems(reg, ety, vs, i) + seq![TokenV::ListEnd] + rest;
    if i == vs.len() {
        assert(enc_elems(reg, ety, vs, i) =~= Seq::<TokenV>::empty());
        assert(vs.take(i) =~= vs);
        assert(ts.skip(1) =~= rest);
    } else {
        let x = vs[i];
        let after = enc_elems(reg, ety, vs, i + 1) + seq![TokenV::ListEnd] + rest;
        assert(enc_elems(reg, ety, vs, i) == enc_value(reg, ety, x) + enc_elems(reg, ety, vs, i + 1));
        assert(ts =~= enc_value(reg, ety, x) + after);
        lemma_value_round_trip(reg, ety, x, after);
        lemma_enc_nonempty(reg, ety, x);
        assert(vs.take(i).push(x) =~= vs.take(i + 1));
        lemma_elems_round_trip(reg, ety, vs, i + 1, rest);
    }
}

/// Decoding the encoding of fields `i..` into slots that hold the first
/// `i` values and defaults after them gives all the slots back.
pub proof fn lemma_fields_round_trip(
    reg: Registry,
    fs: Seq<FieldSpec>,
    slots: Seq<Option<ValueV>>,
    i: int,
    rest: Seq<TokenV>,
)
    requires
        registry_wf(reg),
        fields_wf(reg, fs),
        struct_wf(reg, fs, slots),
        0 <= i <= fs.len(),
    ensures
        dec_fields(
            reg,
            fs,
            mix(slots, default_slots(reg, fs), i),
            enc_fields(reg, fs, slots, i) + seq![TokenV::FieldStop, TokenV::StructEnd] + rest,
        ) == Ok::<(Seq<Option<ValueV>>, Seq<TokenV>), DecodeError>((slots, rest)),
    decreases slots, slots.len() - i,
{
    let stop = seq![TokenV::FieldStop, TokenV::StructEnd];
    let acc = mix(slots, default_slots(reg, fs), i);
    let ts = enc_fields(reg, fs, slots, i) + stop + rest;
    if i == fs.len() {
        assert(enc_fields(reg, fs, slots, i) =~= Seq::<TokenV>::empty());
        assert(ts =~= stop + rest);
        assert(ts.skip(2) =~= rest);
        assert(acc =~= slots);
    } else {
        let f = fs[i];
        let next = mix(slots, default_slots(reg, fs), i + 1);
        let later = enc_fields(reg, fs, slots, i + 1) + stop + rest;
        assert(enc_fields(reg, fs, slots, i) == enc_field(reg, f, slots[i]) + enc_fields(reg, fs, slots, i + 1));
        assert(match slots[i] {
            Some(y) => value_wf(reg, fs[i].ty, y),
            None => default_slot(reg, fs[i]) is None,
        });
        if should_encode(reg, f, slots[i]) {
            let x = slots[i]->Some_0;
            assert(type_wf(reg, f.ty));
            let after = seq![TokenV::FieldEnd] + later;
            assert(ts =~= seq![TokenV::FieldBegin(wire_of(f.ty), f.tag)] + (enc_value(reg, f.ty, x) + after));
            assert(ts.skip(1) =~= enc_value(reg, f.ty, x) + after);
            lemma_find_unique(fs, 0, i);
            lemma_value_round_trip(reg, f.ty, x, after);
            assert(acc.update(i, Some(x)) =~= next);
            assert(after.skip(1) =~= later);
            assert(dec_field_body(reg, fs, acc, wire_of(f.ty), f.tag, ts.skip(1)) == Ok::<
                (Seq<Option<ValueV>>, Seq<TokenV>),
                DecodeError,
            >((next, after)));
            lemma_fields_round_trip(reg, fs, slots, i + 1, rest);
        } else {
            assert(enc_field(reg, f, slots[i]) =~= Seq::<TokenV>::empty());
            assert(ts =~= later);
            assert(acc =~= next);
            lemma_fields_round_trip(reg, fs, slots, i + 1, rest);
        }
    }
}

/// Round trip: decoding the encoding of a well-formed struct gives the
/// same slots, and the tokens after it are left for the next reader.
pub proof fn lemma_struct_round_trip(reg: Registry, fs: Seq<FieldSpec>, slots: Seq<Option<ValueV>>, rest: Seq<TokenV>)
    requires
        registry_wf(reg),
        fields_wf(reg, fs),
        struct_wf(reg, fs, slots),
    ensures
        dec_struct(reg, fs, enc_struct(reg, fs, slots) + rest) == Ok::<(Seq<Option<ValueV>>, Seq<TokenV>), DecodeError>((slots, rest)),
{
    let ts = enc_struct(reg, fs, slots) + rest;
    assert(ts.skip(1) =~= enc_fields(reg, fs, slots, 0) + seq![TokenV::FieldStop, TokenV::StructEnd] + rest);
    assert(mix(slots, default_slots(reg, fs), 0) =~= default_slots(reg, fs));
    lemma_fields_round_trip(reg, fs, slots, 0, rest);
}


/// Enum boundary: an integer that a variant declares decodes to that
/// variant; any other integer fails with `UnknownEnumValue`.
pub proof fn lemma_enum_boundary(reg: Registry, e: usize, x: i32, rest: Seq<TokenV>)
    requires
        e < reg.enums@.len(),
    ensures
        enum_has(reg.enums@[e as int], x) ==> dec_value(reg, FieldType::Enum(e), seq![TokenV::I32(x)] + rest)
            == Ok::<(ValueV, Seq<TokenV>), DecodeError>((ValueV::Enum(x), rest)),
        !enum_has(reg.enums@[e as int], x) ==> dec_value(reg, FieldType::Enum(e), seq![TokenV::I32(x)] + rest)
            == Err::<(ValueV, Seq<TokenV>), DecodeError>(DecodeError::UnknownEnumValue),
{
    let ts = seq![TokenV::I32(x)] + rest;
    assert(ts[0] == TokenV::I32(x));
    assert(ts.skip(1) =~= rest);
}

proof fn lemma_enc_agree(reg: Registry, fs: Seq<FieldSpec>, a: Seq<Option<ValueV>>, b: Seq<Option<ValueV>>, i: int)
    requires
        a.len() == b.len(),
        0 <= i,
        forall|k: int| i <= k < a.len() ==> a[k] == b[k],
    ensures
        enc_fields(reg, fs, a, i) == enc_fields(reg, fs, b, i),
    decreases a.len() - i,
{
    if i < a.len() {
        lemma_enc_agree(reg, fs, a, b, i + 1);
    }
}

proof fn lemma_enc_narrower(
    reg: Registry,
    fs: Seq<FieldSpec>,
    slots: Seq<Option<ValueV>>,
    j: int,
    x: ValueV,
    i: int,
)
    requires
        slots.len() == fs.len(),
        0 <= i <= j < fs.len(),
        fs[j].optional,
    ensures
        enc_fields(reg, fs, slots.update(j, None), i).len() < enc_fields(reg, fs, slots.update(j, Some(x)), i).len(),
    decreases j - i,
{
    let set = slots.update(j, Some(x));
    let unset = slots.update(j, None);
    assert(enc_fields(reg, fs, set, i) == enc_field(reg, fs[i], set[i]) + enc_fields(reg, fs, set, i + 1));
    assert(enc_fields(reg, fs, unset, i) == enc_field(reg, fs[i], unset[i]) + enc_fields(reg, fs, unset, i + 1));
    if i == j {
        lemma_enc_agree(reg, fs, set, unset, j + 1);
        assert(should_encode(reg, fs[j], set[j]));
        assert(enc_field(reg, fs[i], unset[i]) =~= Seq::<TokenV>::empty());
    } else {
        assert(set[i] == unset[i]);
        lemma_enc_narrower(reg, fs, slots, j, x, i + 1);
    }
}

/// Optional omission: leaving an optional field unset gives a strictly
/// shorter encoding than setting it, and decoding that encoding leaves the
/// field unset.
pub proof fn lemma_optional_omission(
    reg: Registry,
    fs: Seq<FieldSpec>,
    slots: Seq<Option<ValueV>>,
    j: int,
    x: ValueV,
)
    requires
        registry_wf(reg),
        fields_wf(reg, fs),
        slots.len() == fs.len(),
        struct_wf(reg, fs, slots.update(j, Some(x))),
        0 <= j < fs.len(),
        fs[j].optional,
    ensures
        enc_struct(reg, fs, slots.update(j, None)).len() < enc_struct(reg, fs, slots.update(j, Some(x))).len(),
        dec_struct(reg, fs, enc_struct(reg, fs, slots.update(j, None))) == Ok::<
            (Seq<Option<ValueV>>, Seq<TokenV>),
            DecodeError,
        >((slots.update(j, None), Seq::empty())),
        slots.update(j, None)[j] is None,
{
    let unset = slots.update(j, None);
    lemma_enc_narrower(reg, fs, slots, j, x, 0);
    assert forall|k: int| 0 <= k < unset.len() implies match #[trigger] unset[k] {
        Some(y) => value_wf(reg, fs[k].ty, y),
        None => default_slot(reg, fs[k]) is None,
    } by {
        if k != j {
            assert(unset[k] == slots.update(j, Some(x))[k]);
        }
    }
    lemma_struct_round_trip(reg, fs, unset, Seq::empty());
    assert(enc_struct(reg, fs, unset) + Seq::<TokenV>::empty() =~= enc_struct(reg, fs, unset));
}


/// Skipping the encoding of a well-formed value lands right after it.
pub proof fn lemma_skip_value(reg: Registry, ty: FieldType, v: ValueV, rest: Seq<TokenV>)
    requires
        registry_wf(reg),
        type_wf(reg, ty),
        value_wf(reg, ty, v),
    ensures
        skip_value(wire_of(ty), enc_value(reg, ty, v) + rest) == Some(rest),
    decreases v, 0int,
{
    let ts = enc_value(reg, ty, v) + rest;
    match v {
        ValueV::Struct(slots) => {
            let fs = reg.structs@[ty->Struct_0 as int].fields@;
            assert(fields_wf(reg, fs));
            assert(ts.skip(1) =~= enc_fields(reg, fs, slots, 0) + seq![TokenV::FieldStop, TokenV::StructEnd] + rest);
            lemma_skip_fields(reg, fs, slots, 0, rest);
        },
        ValueV::List(vs) => {
            let ety = elem_of(reg, ty);
            assert(type_wf(reg, ety));
            assert(ts.skip(1) =~= enc_elems(reg, ety, vs, 0) + seq![TokenV::ListEnd] + rest);
            lemma_skip_elems(reg, ety, vs, 0, rest);
        },
        ValueV::MapOf(ps) => {
            let (kt, vt) = entry_of(reg, ty);
            assert(type_wf(reg, kt) && type_wf(reg, vt));
            assert(ts.skip(1) =~= enc_pairs(reg, kt, vt, ps, 0) + seq![TokenV::MapEnd] + rest);
            lemma_skip_pairs(reg, kt, vt, ps, 0, rest);
        },
        _ => {
            assert(ts.skip(1) =~= rest);
        },
    }
}

proof fn lemma_skip_pairs(
    reg: Registry,
    kt: FieldType,
    vt: FieldType,
    ps: Seq<(ValueV, ValueV)>,
    i: int,
    rest: Seq<TokenV>,
)
    requires
        registry_wf(reg),
        type_wf(reg, kt),
        type_wf(reg, vt),
        forall|k: int| 0 <= k < ps.len() ==> value_wf(reg, kt, (#[trigger] ps[k]).0) && value_wf(reg, vt, ps[k].1),
        0 <= i <= ps.len(),
    ensures
        skip_pairs(wire_of(kt), wire_of(vt), (ps.len() - i) as nat, enc_pairs(reg, kt, vt, ps, i) + seq![TokenV::MapEnd]
            + rest) == Some(rest),
    decreases ps, ps.len() - i,
{
    let ts = enc_pairs(reg, kt, vt, ps, i) + seq![TokenV::MapEnd] + rest;
    if i == ps.len() {
        assert(enc_pairs(reg, kt, vt, ps, i) =~= Seq::<TokenV>::empty());
        assert(ts.skip(1) =~= rest);
    } else {
        let e = ps[i];
        let after = enc_pairs(reg, kt, vt, ps, i + 1) + seq![TokenV::MapEnd] + rest;
        let mid = enc_value(reg, vt, e.1) + after;
        assert(enc_pairs(reg, kt, vt, ps, i) == enc_value(reg, kt, e.0) + enc_value(reg, vt, e.1) + enc_pairs(
            reg,
            kt,
            vt,
            ps,
            i + 1,
        ));
        assert(ts =~= enc_value(reg, kt, e.0) + mid);
        lemma_skip_value(reg, kt, e.0, mid);
        lemma_skip_value(reg, vt, e.1, after);
        lemma_enc_nonempty(reg, kt, e.0);
        lemma_enc_nonempty(reg, vt, e.1);
        lemma_skip_pairs(reg, kt, vt, ps, i + 1, rest);
    }
}

proof fn lemma_skip_elems(reg: Registry, ety: FieldType, vs: Seq<ValueV>, i: int, rest: Seq<TokenV>)
    requires
        registry_wf(reg),
        type_wf(reg, ety),
        forall|k: int| 0 <= k < vs.len() ==> value_wf(reg, ety, #[trigger] vs[k]),
        0 <= i <= vs.len(),
    ensures
        skip_elems(wire_of(ety), (vs.len() - i) as nat, enc_elems(reg, ety, vs, i) + seq![TokenV::ListEnd] + rest)
            == Some(rest),
    decreases vs, vs.len() - i,
{
    let ts = enc_elems(reg, ety, vs, i) + seq![TokenV::ListEnd] + rest;
    if i == vs.len() {
        assert(enc_elems(reg, ety, vs, i) =~= Seq::<TokenV>::empty());
        assert(ts.skip(1) =~= rest);
    } else {
        let x = vs[i];
        let after = enc_elems(reg, ety, vs, i + 1) + seq![TokenV::ListEnd] + rest;
        assert(enc_elems(reg, ety, vs, i) == enc_value(reg, ety, x) + enc_elems(reg, ety, vs, i + 1));
        assert(ts =~= enc_value(reg, ety, x) + after);
        lemma_skip_value(reg, ety, x, after);
        lemma_enc_nonempty(reg, ety, x);
        lemma_skip_elems(reg, ety, vs, i + 1, rest);
    }
}

proof fn lemma_skip_fields(reg: Registry, fs: Seq<FieldSpec>, slots: Seq<Option<ValueV>>, i: int, rest: Seq<TokenV>)
    requires
        registry_wf(reg),
        fields_wf(reg, fs),
        struct_wf(reg, fs, slots),
        0 <= i <= fs.len(),
    ensures
        skip_fields(enc_fields(reg, fs, slots, i) + seq![TokenV::FieldStop, TokenV::StructEnd] + rest) == Some(rest),
    decreases slots, slots.len() - i,
{
    let stop = seq![TokenV::FieldStop, TokenV::StructEnd];
    let ts = enc_fields(reg, fs, slots, i) + stop + rest;
    if i == fs.len() {
        assert(enc_fields(reg, fs, slots, i) =~= Seq::<TokenV>::empty());
        assert(ts =~= stop + rest);
        assert(ts.skip(2) =~= rest);
    } else {
        let f = fs[i];
        let later = enc_fields(reg, fs, slots, i + 1) + stop + rest;
        assert(enc_fields(reg, fs, slots, i) == enc_field(reg, f, slots[i]) + enc_fields(reg, fs, slots, i + 1));
        assert(match slots[i] {
            Some(y) => value_wf(reg, fs[i].ty, y),
            None => default_slot(reg, fs[i]) is None,
        });
        if should_encode(reg, f, slots[i]) {
            let x = slots[i]->Some_0;
            assert(type_wf(reg, f.ty));
            let after = seq![TokenV::FieldEnd] + later;
            assert(ts =~= seq![TokenV::FieldBegin(wire_of(f.ty), f.tag)] + (enc_value(reg, f.ty, x) + after));
            assert(ts.skip(1) =~= enc_value(reg, f.ty, x) + after);
            lemma_skip_value(reg, f.ty, x, after);
            assert(after.skip(1) =~= later);
            lemma_skip_fields(reg, fs, slots, i + 1, rest);
        } else {
            assert(enc_field(reg, f, slots[i]) =~= Seq::<TokenV>::empty());
            assert(ts =~= later);
            lemma_skip_fields(reg, fs, slots, i + 1, rest);
        }
    }
}

/// The first field, from index `i` on, with tag `tag`.
pub open spec fn tag_index(fs: Seq<FieldSpec>, tag: i16, i: int) -> Option<int>
    decreases fs.len() - i,
{
    if i < 0 || i >= fs.len() {
        None
    } else if fs[i].tag == tag {
        Some(i)
    } else {
        tag_index(fs, tag, i + 1)
    }
}

proof fn lemma_tag_index(fs: Seq<FieldSpec>, tag: i16, i: int)
    requires
        0 <= i,
    ensures
        tag_index(fs, tag, i) matches Some(x) ==> i <= x < fs.len() && fs[x].tag == tag,
        tag_index(fs, tag, i) is None ==> forall|x: int| i <= x < fs.len() ==> fs[x].tag != tag,
    decreases fs.len() - i,
{
    if i < fs.len() {
        lemma_tag_index(fs, tag, i + 1);
    }
}

proof fn lemma_tag_index_unique(fs: Seq<FieldSpec>, i: int, k: int)
    requires
        crate::schema::tags_unique(fs),
        0 <= i <= k < fs.len(),
    ensures
        tag_index(fs, fs[k].tag, i) == Some(k),
    decreases k - i,
{
    if i < k {
        assert(fs[i].tag != fs[k].tag);
        lemma_tag_index_unique(fs, i + 1, k);
    }
}

proof fn lemma_find_field_found(fs: Seq<FieldSpec>, wt: WireType, tag: i16, i: int)
    requires
        0 <= i,
    ensures
        find_field(fs, wt, tag, i) matches Some(x) ==> 0 <= x < fs.len() && fs[x].tag == tag && wire_of(fs[x].ty) == wt,
    decreases fs.len() - i,
{
    if i < fs.len() {
        lemma_find_field_found(fs, wt, tag, i + 1);
    }
}

/// A field that two versions of a struct share keeps its type and
/// optionality.
pub open spec fn compatible(a: Seq<FieldSpec>, b: Seq<FieldSpec>) -> bool {
    forall|i: int, k: int|
        0 <= i < a.len() && 0 <= k < b.len() && #[trigger] a[i].tag == #[trigger] b[k].tag ==> a[i].ty == b[k].ty
            && a[i].optional == b[k].optional
}

/// What a reader with fields `b` keeps of slots written with fields `a`:
/// the writer's slot for each shared tag, its own default for the others.
pub open spec fn project(reg: Registry, a: Seq<FieldSpec>, slots: Seq<Option<ValueV>>, b: Seq<FieldSpec>) -> Seq<Option<ValueV>> {
    Seq::new(
        b.len(),
        |k: int|
            match tag_index(a, b[k].tag, 0) {
                Some(x) => slots[x],
                None => default_slot(reg, b[k]),
            },
    )
}

/// The reader's slots after the writer's fields `0..i` were read.
pub open spec fn partial(reg: Registry, a: Seq<FieldSpec>, slots: Seq<Option<ValueV>>, b: Seq<FieldSpec>, i: int) -> Seq<Option<ValueV>> {
    Seq::new(
        b.len(),
        |k: int|
            match tag_index(a, b[k].tag, 0) {
                Some(x) => if x < i {
                    slots[x]
                } else {
                    default_slot(reg, b[k])
                },
                None => default_slot(reg, b[k]),
            },
    )
}

proof fn lemma_compat_fields(
    reg: Registry,
    a: Seq<FieldSpec>,
    slots: Seq<Option<ValueV>>,
    b: Seq<FieldSpec>,
    i: int,
    rest: Seq<TokenV>,
)
    requires
        registry_wf(reg),
        fields_wf(reg, a),
        fields_wf(reg, b),
        struct_wf(reg, a, slots),
        compatible(a, b),
        0 <= i <= a.len(),
    ensures
        dec_fields(
            reg,
            b,
            partial(reg, a, slots, b, i),
            enc_fields(reg, a, slots, i) + seq![TokenV::FieldStop, TokenV::StructEnd] + rest,
        ) == Ok::<(Seq<Option<ValueV>>, Seq<TokenV>), DecodeError>((project(reg, a, slots, b), rest)),
    decreases a.len() - i,
{
    let stop = seq![TokenV::FieldStop, TokenV::StructEnd];
    let acc = partial(reg, a, slots, b, i);
    let ts = enc_fields(reg, a, slots, i) + stop + rest;
    assert forall|k: int| 0 <= k < b.len() implies #[trigger] tag_index(a, b[k].tag, 0) == tag_index(a, b[k].tag, 0) by {}
    if i == a.len() {
        assert(enc_fields(reg, a, slots, i) =~= Seq::<TokenV>::empty());
        assert(ts =~= stop + rest);
        assert(ts.skip(2) =~= rest);
        assert forall|k: int| 0 <= k < b.len() implies acc[k] == project(reg, a, slots, b)[k] by {
            lemma_tag_index(a, b[k].tag, 0);
        }
        assert(acc =~= project(reg, a, slots, b));
    } else {
        let f = a[i];
        let next = partial(reg, a, slots, b, i + 1);
        let later = enc_fields(reg, a, slots, i + 1) + stop + rest;
        assert(enc_fields(reg, a, slots, i) == enc_field(reg, f, slots[i]) + enc_fields(reg, a, slots, i + 1));
        assert(match slots[i] {
            Some(y) => value_wf(reg, a[i].ty, y),
            None => default_slot(reg, a[i]) is None,
        });
        lemma_tag_index_unique(a, 0, i);
        if should_encode(reg, f, slots[i]) {
            let x = slots[i]->Some_0;
            assert(type_wf(reg, f.ty));
            let after = seq![TokenV::FieldEnd] + later;
            assert(ts =~= seq![TokenV::FieldBegin(wire_of(f.ty), f.tag)] + (enc_value(reg, f.ty, x) + after));
            assert(ts.skip(1) =~= enc_value(reg, f.ty, x) + after);
            assert(after.skip(1) =~= later);
            lemma_find_field_found(b, wire_of(f.ty), f.tag, 0);
            match find_field(b, wire_of(f.ty), f.tag, 0) {
                Some(k) => {
                    assert(a[i].tag == b[k].tag);
                    lemma_value_round_trip(reg, f.ty, x, after);
                    assert forall|j: int| 0 <= j < b.len() implies #[trigger] acc.update(k, Some(x))[j] == next[j] by {
                        lemma_tag_index(a, b[j].tag, 0);
                        if j != k {
                            assert(b[j].tag != b[k].tag);
                        }
                    }
                    assert(acc.update(k, Some(x)) =~= next);
                    assert(dec_field_body(reg, b, acc, wire_of(f.ty), f.tag, ts.skip(1)) == Ok::<
                        (Seq<Option<ValueV>>, Seq<TokenV>),
                        DecodeError,
                    >((next, after)));
                },
                None => {
                    lemma_skip_value(reg, f.ty, x, after);
                    assert forall|j: int| 0 <= j < b.len() implies #[trigger] acc[j] == next[j] by {
                        lemma_tag_index(a, b[j].tag, 0);
                        if b[j].tag == f.tag {
                            assert(b[j].ty == f.ty);
                            lemma_find_unique(b, 0, j);
                        }
                    }
                    assert(acc =~= next);
                    assert(dec_field_body(reg, b, acc, wire_of(f.ty), f.tag, ts.skip(1)) == Ok::<
                        (Seq<Option<ValueV>>, Seq<TokenV>),
                        DecodeError,
                    >((next, after)));
                },
            }
            assert(ts[0] == TokenV::FieldBegin(wire_of(f.ty), f.tag));
            assert(after.len() < ts.len());
            lemma_compat_fields(reg, a, slots, b, i + 1, rest);
        } else {
            assert(enc_field(reg, f, slots[i]) =~= Seq::<TokenV>::empty());
            assert(ts =~= later);
            assert forall|j: int| 0 <= j < b.len() implies #[trigger] acc[j] == next[j] by {
                lemma_tag_index(a, b[j].tag, 0);
            }
            assert(acc =~= next);
            lemma_compat_fields(reg, a, slots, b, i + 1, rest);
        }
    }
}

/// Forward compatibility: a struct written with fields `a` and read with
/// fields `b` gives, for each of the reader's fields, the written value
/// where the writer has that tag and the reader's default where it does not;
/// the writer's other fields are dropped and the decode does not fail.
pub proof fn lemma_forward_compatible(
    reg: Registry,
    a: Seq<FieldSpec>,
    slots: Seq<Option<ValueV>>,
    b: Seq<FieldSpec>,
    rest: Seq<TokenV>,
)
    requires
        registry_wf(reg),
        fields_wf(reg, a),
        fields_wf(reg, b),
        struct_wf(reg, a, slots),
        compatible(a, b),
    ensures
        dec_struct(reg, b, enc_struct(reg, a, slots) + rest) == Ok::<(Seq<Option<ValueV>>, Seq<TokenV>), DecodeError>(
            (project(reg, a, slots, b), rest),
        ),
{
    let ts = enc_struct(reg, a, slots) + rest;
    assert(ts.skip(1) =~= enc_fields(reg, a, slots, 0) + seq![TokenV::FieldStop, TokenV::StructEnd] + rest);
    assert forall|k: int| 0 <= k < b.len() implies #[trigger] partial(reg, a, slots, b, 0)[k] == default_slots(reg, b)[k] by {
        lemma_tag_index(a, b[k].tag, 0);
    }
    assert(partial(reg, a, slots, b, 0) =~= default_slots(reg, b));
    lemma_compat_fields(reg, a, slots, b, 0, rest);
}


/// A list value fits a list type when each element fits its element type.
pub proof fn lemma_list_wf(reg: Registry, ty: FieldType, m: Seq<ValueV>)
    requires
        ty is List || ty is SetOf,
    ensures
        value_wf(reg, ty, ValueV::List(m)) == (type_wf(reg, ty) && forall|k: int|
            0 <= k < m.len() ==> value_wf(reg, elem_of(reg, ty), #[trigger] m[k])),
{
    let v = ValueV::List(m);
    assert(decreases_to!(v => v->List_0));
    assert forall|k: int| 0 <= k < m.len() implies decreases_to!(v => #[trigger] m[k]) by {
        assert(decreases_to!(v => v->List_0));
        assert(decreases_to!(m => m[k]));
    }
}


/// A map value fits a map type when each key and value fits its type.
pub proof fn lemma_map_wf(reg: Registry, m: usize, ps: Seq<(ValueV, ValueV)>)
    ensures
        value_wf(reg, FieldType::MapOf(m), ValueV::MapOf(ps)) == (m < reg.maps@.len() && forall|k: int|
            0 <= k < ps.len() ==> value_wf(reg, reg.maps@[m as int].0, (#[trigger] ps[k]).0) && value_wf(
                reg,
                reg.maps@[m as int].1,
                ps[k].1,
            )),
{
    let v = ValueV::MapOf(ps);
    assert(decreases_to!(v => v->MapOf_0));
    assert forall|k: int| 0 <= k < ps.len() implies decreases_to!(v => (#[trigger] ps[k]).0) && decreases_to!(v => ps[k].1) by {
        assert(decreases_to!(v => v->MapOf_0));
        assert(decreases_to!(ps => ps[k]));
        assert(decreases_to!(ps[k] => ps[k].0));
        assert(decreases_to!(ps[k] => ps[k].1));
    }
}

} // verus!
