//! Schema metadata: structs, enums and their fields, held in a registry.
use vstd::prelude::*;
use crate::wire::WireType;

verus! {

/// The declared type of a field. Enums, structs and lists refer to the
/// registry by index; a list's entry there is its element type.
#[derive(Clone, Copy, Debug, PartialEq, Eq, Structural)]
pub enum FieldType {
    Bool,
    I32,
    I64,
    I16,
    Byte,
    Str,
    Enum(usize),
    Struct(usize),
    List(usize),
    /// Encoded as a list whose field carries the set wire type.
    SetOf(usize),
    /// A map; its entry in the registry is its key and value types.
    MapOf(usize),
}

/// One field of a struct or argument list.
#[derive(Clone, Debug)]
pub struct FieldSpec {
    pub name: String,
    pub tag: i16,
    pub ty: FieldType,
    pub optional: bool,
}

/// A composite record type: its fields in encode order.
#[derive(Clone, Debug)]
pub struct StructSchema {
    pub name: String,
    pub fields: Vec<FieldSpec>,
}

/// One named integer of an enum.
#[derive(Clone, Debug)]
pub struct Variant {
    pub name: String,
    pub value: i32,
}

/// A closed set of named integers with one default variant.
#[derive(Clone, Debug)]
pub struct EnumSchema {
    pub name: String,
    pub variants: Vec<Variant>,
    pub default: usize,
}

/// All struct and enum schemas, and list element types, that field
/// types may refer to.
#[derive(Clone, Debug)]
pub struct Registry {
    pub structs: Vec<StructSchema>,
    pub enums: Vec<EnumSchema>,
    pub lists: Vec<FieldType>,
    pub maps: Vec<(FieldType, FieldType)>,
}

/// The wire type written for a field of type `ty`.
pub open spec fn wire_of(ty: FieldType) -> WireType {
    match ty {
        FieldType::Bool => WireType::Bool,
        FieldType::I32 => WireType::I32,
        FieldType::I64 => WireType::I64,
        FieldType::I16 => WireType::I16,
        FieldType::Byte => WireType::Byte,
        FieldType::Str => WireType::Str,
        FieldType::Enum(_) => WireType::I32,
        FieldType::Struct(_) => WireType::Struct,
        FieldType::List(_) => WireType::List,
        FieldType::SetOf(_) => WireType::SetOf,
        FieldType::MapOf(_) => WireType::MapOf,
    }
}

pub fn wire_type_of(ty: FieldType) -> (r: WireType)
    ensures
        r == wire_of(ty),
{
    match ty {
        FieldType::Bool => WireType::Bool,
        FieldType::I32 => WireType::I32,
        FieldType::I64 => WireType::I64,
        FieldType::I16 => WireType::I16,
        FieldType::Byte => WireType::Byte,
        FieldType::Str => WireType::Str,
        FieldType::Enum(_) => WireType::I32,
        FieldType::Struct(_) => WireType::Struct,
        FieldType::List(_) => WireType::List,
        FieldType::SetOf(_) => WireType::SetOf,
        FieldType::MapOf(_) => WireType::MapOf,
    }
}

/// Tags are unique within a field list.
pub open spec fn tags_unique(fs: Seq<FieldSpec>) -> bool {
    forall|i: int, j: int| 0 <= i < fs.len() && 0 <= j < fs.len() && i != j
        ==> #[trigger] fs[i].tag != #[trigger] fs[j].tag
}

/// Integer values are unique within an enum and the default is one of them.
pub open spec fn enum_wf(e: EnumSchema) -> bool {
    &&& e.default < e.variants@.len()
    &&& forall|i: int, j: int| 0 <= i < e.variants@.len() && 0 <= j < e.variants@.len() && i != j
        ==> #[trigger] e.variants@[i].value != #[trigger] e.variants@[j].value
}

/// A field type whose indices point into the registry.
pub open spec fn type_wf(reg: Registry, ty: FieldType) -> bool {
    match ty {
        FieldType::Enum(e) => e < reg.enums@.len(),
        FieldType::Struct(s) => s < reg.structs@.len(),
        FieldType::List(l) => l < reg.lists@.len(),
        FieldType::SetOf(l) => l < reg.lists@.len(),
        FieldType::MapOf(m) => m < reg.maps@.len(),
        _ => true,
    }
}

/// A field list with unique tags and resolvable types.
pub open spec fn fields_wf(reg: Registry, fs: Seq<FieldSpec>) -> bool {
    &&& tags_unique(fs)
    &&& forall|i: int| 0 <= i < fs.len() ==> type_wf(reg, #[trigger] fs[i].ty)
}

/// Every schema of the registry is well formed.
pub open spec fn registry_wf(reg: Registry) -> bool {
    &&& forall|i: int| 0 <= i < reg.structs@.len() ==> fields_wf(reg, #[trigger] reg.structs@[i].fields@)
    &&& forall|i: int| 0 <= i < reg.enums@.len() ==> enum_wf(#[trigger] reg.enums@[i])
    &&& forall|i: int| 0 <= i < reg.lists@.len() ==> type_wf(reg, #[trigger] reg.lists@[i])
    &&& forall|i: int| 0 <= i < reg.maps@.len() ==> type_wf(reg, (#[trigger] reg.maps@[i]).0) && type_wf(reg, reg.maps@[i].1)
}

/// Whether `x` is the value of one of the enum's variants.
pub open spec fn enum_has(e: EnumSchema, x: i32) -> bool {
    exists|i: int| 0 <= i < e.variants@.len() && #[trigger] e.variants@[i].value == x
}

/// Looks up the variant whose value is `x`.
pub fn enum_lookup(e: &EnumSchema, x: i32) -> (r: Option<usize>)
    ensures
        r is Some <==> enum_has(*e, x),
        r matches Some(i) ==> i < e.variants@.len() && e.variants@[i as int].value == x,
{
    let mut i: usize = 0;
    while i < e.variants.len()
        invariant
            i <= e.variants@.len(),
            forall|k: int| 0 <= k < i ==> e.variants@[k].value != x,
        decreases e.variants@.len() - i,
    {
        if e.variants[i].value == x {
            return Some(i);
        }
        i = i + 1;
    }
    None
}


/// Whether `ty` points into the registry.
pub fn check_type(reg: &Registry, ty: FieldType) -> (r: bool)
    ensures
        r == type_wf(*reg, ty),
{
    match ty {
        FieldType::Enum(e) => e < reg.enums.len(),
        FieldType::Struct(s) => s < reg.structs.len(),
        FieldType::List(l) => l < reg.lists.len(),
        FieldType::SetOf(l) => l < reg.lists.len(),
        FieldType::MapOf(m) => m < reg.maps.len(),
        _ => true,
    }
}

/// Whether a field list has unique tags and resolvable types.
pub fn check_fields(reg: &Registry, fs: &Vec<FieldSpec>) -> (r: bool)
    ensures
        r == fields_wf(*reg, fs@),
{
    let mut i: usize = 0;
    while i < fs.len()
        invariant
            i <= fs@.len(),
            forall|a: int| 0 <= a < i ==> type_wf(*reg, #[trigger] fs@[a].ty),
            forall|a: int, b: int| 0 <= a < i && 0 <= b < fs@.len() && a != b ==> #[trigger] fs@[a].tag
                != #[trigger] fs@[b].tag,
        decreases fs@.len() - i,
    {
        if !check_type(reg, fs[i].ty) {
            return false;
        }
        let mut j: usize = 0;
        while j < fs.len()
            invariant
                i < fs@.len(),
                j <= fs@.len(),
                forall|b: int| 0 <= b < j && b != i ==> fs@[i as int].tag != #[trigger] fs@[b].tag,
            decreases fs@.len() - j,
        {
            if j != i && fs[i].tag == fs[j].tag {
                assert(!tags_unique(fs@)) by {
                    assert(fs@[i as int].tag == fs@[j as int].tag);
                }
                return false;
            }
            j = j + 1;
        }
        i = i + 1;
    }
    true
}

/// Whether an enum's values are unique and its default is one of them.
pub fn check_enum(e: &EnumSchema) -> (r: bool)
    ensures
        r == enum_wf(*e),
{
    if e.default >= e.variants.len() {
        return false;
    }
    let vs = &e.variants;
    let mut i: usize = 0;
    while i < vs.len()
        invariant
            i <= vs@.len(),
            vs@ == e.variants@,
            e.default < vs@.len(),
            forall|a: int, b: int| 0 <= a < i && 0 <= b < vs@.len() && a != b ==> #[trigger] vs@[a].value
                != #[trigger] vs@[b].value,
        decreases vs@.len() - i,
    {
        let mut j: usize = 0;
        while j < vs.len()
            invariant
                i < vs@.len(),
                j <= vs@.len(),
                vs@ == e.variants@,
                forall|b: int| 0 <= b < j && b != i ==> vs@[i as int].value != #[trigger] vs@[b].value,
            decreases vs@.len() - j,
        {
            if j != i && vs[i].value == vs[j].value {
                assert(vs@[i as int].value == vs@[j as int].value);
                return false;
            }
            j = j + 1;
        }
        i = i + 1;
    }
    true
}

/// Whether every schema of the registry is well formed.
pub fn check_registry(reg: &Registry) -> (r: bool)
    ensures
        r == registry_wf(*reg),
{
    let mut i: usize = 0;
    while i < reg.structs.len()
        invariant
            i <= reg.structs@.len(),
            forall|a: int| 0 <= a < i ==> fields_wf(*reg, #[trigger] reg.structs@[a].fields@),
        decreases reg.structs@.len() - i,
    {
        if !check_fields(reg, &reg.structs[i].fields) {
            return false;
        }
        i = i + 1;
    }
    let mut k: usize = 0;
    while k < reg.enums.len()
        invariant
            k <= reg.enums@.len(),
            forall|a: int| 0 <= a < reg.structs@.len() ==> fields_wf(*reg, #[trigger] reg.structs@[a].fields@),
            forall|a: int| 0 <= a < k ==> enum_wf(#[trigger] reg.enums@[a]),
        decreases reg.enums@.len() - k,
    {
        if !check_enum(&reg.enums[k]) {
            return false;
        }
        k = k + 1;
    }
    let mut l: usize = 0;
    while l < reg.lists.len()
        invariant
            l <= reg.lists@.len(),
            forall|a: int| 0 <= a < reg.structs@.len() ==> fields_wf(*reg, #[trigger] reg.structs@[a].fields@),
            forall|a: int| 0 <= a < reg.enums@.len() ==> enum_wf(#[trigger] reg.enums@[a]),
            forall|a: int| 0 <= a < l ==> type_wf(*reg, #[trigger] reg.lists@[a]),
        decreases reg.lists@.len() - l,
    {
        if !check_type(reg, reg.lists[l]) {
            return false;
        }
        l = l + 1;
    }
    let mut m: usize = 0;
    while m < reg.maps.len()
        invariant
            m <= reg.maps@.len(),
            forall|a: int| 0 <= a < reg.structs@.len() ==> fields_wf(*reg, #[trigger] reg.structs@[a].fields@),
            forall|a: int| 0 <= a < reg.enums@.len() ==> enum_wf(#[trigger] reg.enums@[a]),
            forall|a: int| 0 <= a < reg.lists@.len() ==> type_wf(*reg, #[trigger] reg.lists@[a]),
            forall|a: int| 0 <= a < m ==> type_wf(*reg, (#[trigger] reg.maps@[a]).0) && type_wf(*reg, reg.maps@[a].1),
        decreases reg.maps@.len() - m,
    {
        if !check_type(reg, reg.maps[m].0) || !check_type(reg, reg.maps[m].1) {
            return false;
        }
        m = m + 1;
    }
    true
}

} // verus!
