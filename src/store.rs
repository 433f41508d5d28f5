//! Keyed persistence of values in an outside key-value store.
//!
//! The library decides which commands store a value and what a read
//! reply means; the store itself runs the commands. A plain scalar, list,
//! set or map of scalars is kept as one entry under its key. A codec value
//! is spread over keys: a struct field under the struct's key followed by
//! `:FIELD_` and its tag, and a sequence or map with its length under
//! `:ARRAYSIZE` and each element under `:INDEX_` and its index.
use vstd::prelude::*;
use crate::schema::{FieldType, FieldSpec, Registry, registry_wf, type_wf, fields_wf, enum_lookup, enum_has};
use crate::codec::{
    Value, ValueV, DecodeError, opt_model, slots_model, default_slots, default_slots_of, value_model, lemma_struct_model,
    elem_of, entry_of, elems_model, pairs_model, lemma_list_model, lemma_map_model,
};

verus! {

/// A scalar as the store holds it.
#[derive(Clone, Debug, PartialEq)]
pub enum Stored {
    Int(i64),
    Bool(bool),
    Str(String),
}

/// Mathematical model of a stored scalar.
pub enum StoredV {
    Int(i64),
    Bool(bool),
    Str(Seq<char>),
}

impl View for Stored {
    type V = StoredV;

    open spec fn view(&self) -> StoredV {
        match self {
            Stored::Int(x) => StoredV::Int(*x),
            Stored::Bool(b) => StoredV::Bool(*b),
            Stored::Str(s) => StoredV::Str(s@),
        }
    }
}

/// What the store holds under one key.
pub enum Entry {
    Scalar(StoredV),
    List(Seq<StoredV>),
    Members(Set<StoredV>),
    Hash(Map<StoredV, StoredV>),
}

/// The whole keyspace.
pub type Keyspace = Map<Seq<char>, Entry>;

/// One command for the store.
#[derive(Clone, Debug, PartialEq)]
pub enum StoreCmd {
    /// Removes the key.
    Del(String),
    /// Sets the key to a scalar.
    Put(String, Stored),
    /// Appends to the list under the key.
    RPush(String, Vec<Stored>),
    /// Adds members to the set under the key.
    SAdd(String, Vec<Stored>),
    /// Sets fields of the hash under the key, in order.
    HSet(String, Vec<(Stored, Stored)>),
}

pub open spec fn stored_seq(v: Seq<Stored>) -> Seq<StoredV> {
    v.map_values(|x: Stored| x@)
}

pub open spec fn pair_seq(v: Seq<(Stored, Stored)>) -> Seq<(StoredV, StoredV)> {
    v.map_values(|p: (Stored, Stored)| (p.0@, p.1@))
}

/// The list under `k`; an absent key or another kind of entry reads as empty.
pub open spec fn list_at(s: Keyspace, k: Seq<char>) -> Seq<StoredV> {
    if s.dom().contains(k) && s[k] is List {
        s[k]->List_0
    } else {
        Seq::empty()
    }
}

/// The set under `k`, read as `list_at` does.
pub open spec fn set_at(s: Keyspace, k: Seq<char>) -> Set<StoredV> {
    if s.dom().contains(k) && s[k] is Members {
        s[k]->Members_0
    } else {
        Set::empty()
    }
}

/// The hash under `k`, read as `list_at` does.
pub open spec fn hash_at(s: Keyspace, k: Seq<char>) -> Map<StoredV, StoredV> {
    if s.dom().contains(k) && s[k] is Hash {
        s[k]->Hash_0
    } else {
        Map::empty()
    }
}

/// The scalar under `k`, if there is one.
pub open spec fn scalar_at(s: Keyspace, k: Seq<char>) -> Option<StoredV> {
    if s.dom().contains(k) && s[k] is Scalar {
        Some(s[k]->Scalar_0)
    } else {
        None
    }
}

/// A hash with the pairs set in order over `m`.
pub open spec fn hash_with(m: Map<StoredV, StoredV>, ps: Seq<(StoredV, StoredV)>) -> Map<StoredV, StoredV>
    decreases ps.len(),
{
    if ps.len() == 0 {
        m
    } else {
        hash_with(m.insert(ps[0].0, ps[0].1), ps.drop_first())
    }
}

/// The effect of one command.
pub open spec fn apply(s: Keyspace, c: StoreCmd) -> Keyspace {
    match c {
        StoreCmd::Del(k) => s.remove(k@),
        StoreCmd::Put(k, v) => s.insert(k@, Entry::Scalar(v@)),
        StoreCmd::RPush(k, vs) => s.insert(k@, Entry::List(list_at(s, k@) + stored_seq(vs@))),
        StoreCmd::SAdd(k, vs) => s.insert(k@, Entry::Members(set_at(s, k@).union(stored_seq(vs@).to_set()))),
        StoreCmd::HSet(k, ps) => s.insert(k@, Entry::Hash(hash_with(hash_at(s, k@), pair_seq(ps@)))),
    }
}

/// The effect of commands run in order.
pub open spec fn run(s: Keyspace, cmds: Seq<StoreCmd>) -> Keyspace
    decreases cmds.len(),
{
    if cmds.len() == 0 {
        s
    } else {
        run(apply(s, cmds[0]), cmds.drop_first())
    }
}

proof fn lemma_run_two(s: Keyspace, a: StoreCmd, b: StoreCmd)
    ensures
        run(s, seq![a, b]) == apply(apply(s, a), b),
        run(s, seq![a]) == apply(s, a),
{
    reveal_with_fuel(run, 3);
    assert(seq![a, b][0] == a);
    assert(seq![a][0] == a);
    assert(seq![b][0] == b);
    assert(seq![a, b].drop_first() =~= seq![b]);
    assert(seq![b].drop_first() =~= Seq::<StoreCmd>::empty());
    assert(seq![a].drop_first() =~= Seq::<StoreCmd>::empty());
}

proof fn lemma_run_append(s: Keyspace, a: Seq<StoreCmd>, b: Seq<StoreCmd>)
    ensures
        run(s, a + b) == run(run(s, a), b),
    decreases a.len(),
{
    if a.len() > 0 {
        assert((a + b).drop_first() =~= a.drop_first() + b);
        lemma_run_append(apply(s, a[0]), a.drop_first(), b);
    } else {
        assert(a + b =~= b);
    }
}

/// The decimal digits of `n`.
pub open spec fn decimal(n: nat) -> Seq<char>
    decreases n,
{
    if n < 10 {
        seq![digit_char(n)]
    } else {
        decimal(n / 10) + seq![digit_char(n % 10)]
    }
}

pub open spec fn digit_char(d: nat) -> char {
    if d < 10 {
        (('0' as u8) + (d as u8)) as char
    } else {
        '0'
    }
}

/// `n` in decimal, with leading zeros up to `w` digits.
pub open spec fn padded(n: nat, w: nat) -> Seq<char> {
    if decimal(n).len() >= w {
        decimal(n)
    } else {
        Seq::new((w - decimal(n).len()) as nat, |i: int| '0') + decimal(n)
    }
}

/// A number as four-wide decimal: a negative one as a sign and three digits.
pub open spec fn four_wide(x: int) -> Seq<char> {
    if x < 0 {
        seq!['-'] + padded((-x) as nat, 3)
    } else {
        padded(x as nat, 4)
    }
}

pub open spec fn field_key_of(key: Seq<char>, tag: i16) -> Seq<char> {
    key + seq![':', 'F', 'I', 'E', 'L', 'D', '_'] + four_wide(tag as int)
}

pub open spec fn index_key_of(key: Seq<char>, i: nat) -> Seq<char> {
    key + seq![':', 'I', 'N', 'D', 'E', 'X', '_'] + four_wide(i as int)
}

pub open spec fn size_key_of(key: Seq<char>) -> Seq<char> {
    key + seq![':', 'A', 'R', 'R', 'A', 'Y', 'S', 'I', 'Z', 'E']
}

fn digit_str(d: u64) -> (r: &'static str)
    requires
        d < 10,
    ensures
        r@ == seq![digit_char(d as nat)],
{
    proof {
        reveal_strlit("0");
        reveal_strlit("1");
        reveal_strlit("2");
        reveal_strlit("3");
        reveal_strlit("4");
        reveal_strlit("5");
        reveal_strlit("6");
        reveal_strlit("7");
        reveal_strlit("8");
        reveal_strlit("9");
    }
    let r = if d == 0 {
        "0"
    } else if d == 1 {
        "1"
    } else if d == 2 {
        "2"
    } else if d == 3 {
        "3"
    } else if d == 4 {
        "4"
    } else if d == 5 {
        "5"
    } else if d == 6 {
        "6"
    } else if d == 7 {
        "7"
    } else if d == 8 {
        "8"
    } else {
        "9"
    };
    assert(r@ =~= seq![digit_char(d as nat)]);
    r
}

fn push_decimal(out: &mut String, n: u64)
    ensures
        final(out)@ == old(out)@ + decimal(n as nat),
    decreases n,
{
    if n >= 10 {
        push_decimal(out, n / 10);
    }
    out.append(digit_str(n % 10));
    assert(final(out)@ =~= old(out)@ + decimal(n as nat));
}

fn decimal_len(n: u64) -> (r: u64)
    ensures
        r == decimal(n as nat).len(),
        r <= n + 1,
    decreases n,
{
    if n < 10 {
        1
    } else {
        let k = decimal_len(n / 10);
        k + 1
    }
}

fn push_padded(out: &mut String, n: u64, w: u64)
    requires
        w <= 4,
    ensures
        final(out)@ == old(out)@ + padded(n as nat, w as nat),
{
    let len = decimal_len(n);
    let ghost start = out@;
    if len < w {
        let mut i: u64 = len;
        while i < w
            invariant
                len == decimal(n as nat).len(),
                len <= i <= w,
                out@ =~= start + Seq::new((i - len) as nat, |j: int| '0'),
            decreases w - i,
        {
            out.append("0");
            proof {
                reveal_strlit("0");
            }
            assert(out@ =~= start + Seq::new((i + 1 - len) as nat, |j: int| '0'));
            i = i + 1;
        }
    }
    let ghost zeros = out@;
    push_decimal(out, n);
    assert(final(out)@ =~= old(out)@ + padded(n as nat, w as nat));
}

fn push_four_wide(out: &mut String, x: i64)
    requires
        x > i64::MIN,
    ensures
        final(out)@ == old(out)@ + four_wide(x as int),
{
    if x < 0 {
        out.append("-");
        proof {
            reveal_strlit("-");
        }
        push_padded(out, (-x) as u64, 3);
    } else {
        push_padded(out, x as u64, 4);
    }
    assert(final(out)@ =~= old(out)@ + four_wide(x as int));
}

fn key_with(key: &String, suffix: &str) -> (r: String)
    ensures
        r@ == key@ + suffix@,
{
    let mut r = key.clone();
    r.append(suffix);
    r
}

/// The key of a struct field: the struct's key, `:FIELD_` and the tag.
pub fn field_key(key: &String, tag: i16) -> (r: String)
    ensures
        r@ == field_key_of(key@, tag),
{
    proof {
        reveal_strlit(":FIELD_");
    }
    let mut r = key_with(key, ":FIELD_");
    push_four_wide(&mut r, tag as i64);
    assert(r@ =~= field_key_of(key@, tag));
    r
}

/// The key of a sequence element: the sequence's key, `:INDEX_` and the index.
pub fn index_key(key: &String, i: usize) -> (r: String)
    ensures
        r@ == index_key_of(key@, i as nat),
{
    proof {
        reveal_strlit(":INDEX_");
    }
    let mut r = key_with(key, ":INDEX_");
    push_padded(&mut r, i as u64, 4);
    assert(r@ =~= index_key_of(key@, i as nat));
    r
}

/// The key under which a sequence's length is stored.
pub fn size_key(key: &String) -> (r: String)
    ensures
        r@ == size_key_of(key@),
{
    proof {
        reveal_strlit(":ARRAYSIZE");
    }
    let r = key_with(key, ":ARRAYSIZE");
    assert(r@ =~= size_key_of(key@));
    r
}


/// Stores a scalar: the key is removed, then set.
pub fn scalar_write(key: &String, v: Stored) -> (r: Vec<StoreCmd>)
    ensures
        forall|s: Keyspace| #[trigger] run(s, r@) == s.insert(key@, Entry::Scalar(v@)),
{
    let ghost vm = v@;
    let r = vec![StoreCmd::Del(key.clone()), StoreCmd::Put(key.clone(), v)];
    assert forall|s: Keyspace| #[trigger] run(s, r@) == s.insert(key@, Entry::Scalar(vm)) by {
        lemma_run_two(s, r@[0], r@[1]);
        assert(s.remove(key@).insert(key@, Entry::Scalar(vm)) =~= s.insert(key@, Entry::Scalar(vm)));
    }
    r
}

/// Stores a list: the key is removed, then the elements are pushed in
/// order. An empty list leaves the key absent, which reads as empty.
pub fn list_write(key: &String, vs: Vec<Stored>) -> (r: Vec<StoreCmd>)
    ensures
        forall|s: Keyspace| #[trigger] run(s, r@) == if vs@.len() == 0 {
            s.remove(key@)
        } else {
            s.insert(key@, Entry::List(stored_seq(vs@)))
        },
{
    let ghost vm = stored_seq(vs@);
    let ghost n = vs@.len();
    if vs.len() == 0 {
        let r = vec![StoreCmd::Del(key.clone())];
        assert(r@ =~= seq![r@[0]]);
        assert forall|s: Keyspace| #[trigger] run(s, r@) == s.remove(key@) by {
            lemma_run_two(s, r@[0], r@[0]);
        }
        r
    } else {
        let r = vec![StoreCmd::Del(key.clone()), StoreCmd::RPush(key.clone(), vs)];
        assert forall|s: Keyspace| #[trigger] run(s, r@) == s.insert(key@, Entry::List(vm)) by {
            lemma_run_two(s, r@[0], r@[1]);
            assert(list_at(s.remove(key@), key@) + vm =~= vm);
            assert(s.remove(key@).insert(key@, Entry::List(vm)) =~= s.insert(key@, Entry::List(vm)));
        }
        r
    }
}

/// Stores a set: the key is removed, then the members are added.
pub fn set_write(key: &String, vs: Vec<Stored>) -> (r: Vec<StoreCmd>)
    ensures
        forall|s: Keyspace| #[trigger] run(s, r@) == if vs@.len() == 0 {
            s.remove(key@)
        } else {
            s.insert(key@, Entry::Members(stored_seq(vs@).to_set()))
        },
{
    let ghost vm = stored_seq(vs@).to_set();
    if vs.len() == 0 {
        let r = vec![StoreCmd::Del(key.clone())];
        assert(r@ =~= seq![r@[0]]);
        assert forall|s: Keyspace| #[trigger] run(s, r@) == s.remove(key@) by {
            lemma_run_two(s, r@[0], r@[0]);
        }
        r
    } else {
        let r = vec![StoreCmd::Del(key.clone()), StoreCmd::SAdd(key.clone(), vs)];
        assert forall|s: Keyspace| #[trigger] run(s, r@) == s.insert(key@, Entry::Members(vm)) by {
            lemma_run_two(s, r@[0], r@[1]);
            assert(set_at(s.remove(key@), key@).union(vm) =~= vm);
            assert(s.remove(key@).insert(key@, Entry::Members(vm)) =~= s.insert(key@, Entry::Members(vm)));
        }
        r
    }
}

/// Stores a map: the key is removed, then the pairs are set in order.
pub fn map_write(key: &String, ps: Vec<(Stored, Stored)>) -> (r: Vec<StoreCmd>)
    ensures
        forall|s: Keyspace| #[trigger] run(s, r@) == if ps@.len() == 0 {
            s.remove(key@)
        } else {
            s.insert(key@, Entry::Hash(hash_with(Map::empty(), pair_seq(ps@))))
        },
{
    let ghost hm = hash_with(Map::empty(), pair_seq(ps@));
    if ps.len() == 0 {
        let r = vec![StoreCmd::Del(key.clone())];
        assert(r@ =~= seq![r@[0]]);
        assert forall|s: Keyspace| #[trigger] run(s, r@) == s.remove(key@) by {
            lemma_run_two(s, r@[0], r@[0]);
        }
        r
    } else {
        let r = vec![StoreCmd::Del(key.clone()), StoreCmd::HSet(key.clone(), ps)];
        assert forall|s: Keyspace| #[trigger] run(s, r@) == s.insert(key@, Entry::Hash(hm)) by {
            lemma_run_two(s, r@[0], r@[1]);
            assert(hash_at(s.remove(key@), key@) =~= Map::<StoredV, StoredV>::empty());
            assert(s.remove(key@).insert(key@, Entry::Hash(hm)) =~= s.insert(key@, Entry::Hash(hm)));
        }
        r
    }
}

/// Stores an optional value: the key is removed, and only a present value
/// is written after that, with the given commands. No key means `None`.
pub fn option_write(key: &String, inner: Option<Vec<StoreCmd>>) -> (r: Vec<StoreCmd>)
    ensures
        forall|s: Keyspace| #[trigger] run(s, r@) == match inner {
            Some(c) => run(s.remove(key@), c@),
            None => s.remove(key@),
        },
{
    let mut r = vec![StoreCmd::Del(key.clone())];
    let ghost d = r@;
    assert(d =~= seq![d[0]]);
    match inner {
        Some(c) => {
            let mut c = c;
            let ghost cm = c@;
            r.append(&mut c);
            assert forall|s: Keyspace| #[trigger] run(s, r@) == run(s.remove(key@), cm) by {
                lemma_run_append(s, d, cm);
                lemma_run_two(s, d[0], d[0]);
            }
        },
        None => {
            assert forall|s: Keyspace| #[trigger] run(s, r@) == s.remove(key@) by {
                lemma_run_two(s, d[0], d[0]);
            }
            assert(r@ == d);
        },
    }
    r
}

/// What reading an optional value gives: nothing when the key does not
/// exist, else what was read under it.
pub fn option_read<X>(exists: bool, inner: Option<X>) -> (r: Option<Option<X>>)
    ensures
        !exists ==> r is None,
        exists ==> r == Some(inner),
{
    if exists {
        Some(inner)
    } else {
        None
    }
}

/// An optional value that was written with no value reads back as `None`.
pub proof fn lemma_option_none_reads_none(s: Keyspace, key: Seq<char>)
    ensures
        !s.remove(key).dom().contains(key),
{
}

/// A scalar written under a key reads back as itself, and no other key changes.
pub proof fn lemma_scalar_round_trip(s: Keyspace, key: Seq<char>, v: StoredV)
    ensures
        scalar_at(s.insert(key, Entry::Scalar(v)), key) == Some(v),
        forall|k: Seq<char>| k != key ==> #[trigger] s.insert(key, Entry::Scalar(v)).dom().contains(k) == s.dom().contains(k),
{
}

/// A list written under a key reads back as the same elements in the same
/// order; an empty list reads back empty.
pub proof fn lemma_list_round_trip(s: Keyspace, key: Seq<char>, vs: Seq<StoredV>)
    ensures
        list_at(if vs.len() == 0 { s.remove(key) } else { s.insert(key, Entry::List(vs)) }, key) == vs,
{
    if vs.len() == 0 {
        assert(list_at(s.remove(key), key) =~= vs);
    }
}

/// A set written under a key reads back as the set of its members.
pub proof fn lemma_set_round_trip(s: Keyspace, key: Seq<char>, vs: Seq<StoredV>)
    ensures
        set_at(if vs.len() == 0 { s.remove(key) } else { s.insert(key, Entry::Members(vs.to_set())) }, key) == vs.to_set(),
{
    if vs.len() == 0 {
        assert(vs.to_set() =~= Set::<StoredV>::empty());
    }
}

/// What a stored scalar means as a value of type `ty`: a missing entry is
/// no value, an integer that no variant of an enum declares is
/// `UnknownEnumValue`, and a scalar of the wrong kind is a protocol violation.
pub open spec fn from_stored(reg: Registry, ty: FieldType, got: Option<StoredV>) -> Result<Option<ValueV>, DecodeError> {
    match got {
        None => Ok(None),
        Some(x) => match (ty, x) {
            (FieldType::Bool, StoredV::Bool(b)) => Ok(Some(ValueV::Bool(b))),
            (FieldType::I32, StoredV::Int(n)) => if i32::MIN <= n <= i32::MAX {
                Ok(Some(ValueV::I32(n as i32)))
            } else {
                Err(DecodeError::ProtocolViolation)
            },
            (FieldType::I64, StoredV::Int(n)) => Ok(Some(ValueV::I64(n))),
            (FieldType::I16, StoredV::Int(n)) => if i16::MIN <= n <= i16::MAX {
                Ok(Some(ValueV::I16(n as i16)))
            } else {
                Err(DecodeError::ProtocolViolation)
            },
            (FieldType::Byte, StoredV::Int(n)) => if i8::MIN <= n <= i8::MAX {
                Ok(Some(ValueV::Byte(n as i8)))
            } else {
                Err(DecodeError::ProtocolViolation)
            },
            (FieldType::Str, StoredV::Str(t)) => Ok(Some(ValueV::Str(t))),
            (FieldType::Enum(e), StoredV::Int(n)) => if i32::MIN <= n <= i32::MAX && enum_has(
                reg.enums@[e as int],
                n as i32,
            ) {
                Ok(Some(ValueV::Enum(n as i32)))
            } else {
                Err(DecodeError::UnknownEnumValue)
            },
            _ => Err(DecodeError::ProtocolViolation),
        },
    }
}

/// The scalar that a value of a scalar type is stored as.
pub open spec fn stored_of(v: ValueV) -> Option<StoredV> {
    match v {
        ValueV::Bool(b) => Some(StoredV::Bool(b)),
        ValueV::I32(x) => Some(StoredV::Int(x as i64)),
        ValueV::I64(x) => Some(StoredV::Int(x)),
        ValueV::I16(x) => Some(StoredV::Int(x as i64)),
        ValueV::Byte(x) => Some(StoredV::Int(x as i64)),
        ValueV::Str(t) => Some(StoredV::Str(t)),
        ValueV::Enum(x) => Some(StoredV::Int(x as i64)),
        ValueV::Struct(_) => None,
        ValueV::List(_) => None,
        ValueV::MapOf(_) => None,
    }
}

/// Reads a stored scalar as a value of type `ty`.
pub fn value_from_stored(reg: &Registry, ty: FieldType, got: Option<Stored>) -> (r: Result<Option<Value>, DecodeError>)
    requires
        registry_wf(*reg),
        type_wf(*reg, ty),
    ensures
        match from_stored(*reg, ty, match got { Some(x) => Some(x@), None => None }) {
            Ok(o) => r matches Ok(x) && opt_model(x) == o,
            Err(e) => r == Err::<Option<Value>, DecodeError>(e),
        },
{
    match got {
        None => Ok(None),
        Some(x) => match (ty, x) {
            (FieldType::Bool, Stored::Bool(b)) => Ok(Some(Value::Bool(b))),
            (FieldType::I32, Stored::Int(n)) => if i32::MIN as i64 <= n && n <= i32::MAX as i64 {
                Ok(Some(Value::I32(n as i32)))
            } else {
                Err(DecodeError::ProtocolViolation)
            },
            (FieldType::I64, Stored::Int(n)) => Ok(Some(Value::I64(n))),
            (FieldType::I16, Stored::Int(n)) => if i16::MIN as i64 <= n && n <= i16::MAX as i64 {
                Ok(Some(Value::I16(n as i16)))
            } else {
                Err(DecodeError::ProtocolViolation)
            },
            (FieldType::Byte, Stored::Int(n)) => if i8::MIN as i64 <= n && n <= i8::MAX as i64 {
                Ok(Some(Value::Byte(n as i8)))
            } else {
                Err(DecodeError::ProtocolViolation)
            },
            (FieldType::Str, Stored::Str(t)) => Ok(Some(Value::Str(t))),
            (FieldType::Enum(e), Stored::Int(n)) => {
                if i32::MIN as i64 <= n && n <= i32::MAX as i64 {
                    match enum_lookup(&reg.enums[e], n as i32) {
                        Some(_) => Ok(Some(Value::Enum(n as i32))),
                        None => Err(DecodeError::UnknownEnumValue),
                    }
                } else {
                    Err(DecodeError::UnknownEnumValue)
                }
            },
            _ => Err(DecodeError::ProtocolViolation),
        },
    }
}

/// Assembles a struct from what was read under its field keys: a field
/// with nothing stored keeps its default slot.
pub fn struct_from_fields(reg: &Registry, fs: &Vec<FieldSpec>, got: Vec<Option<Value>>) -> (r: Vec<Option<Value>>)
    requires
        registry_wf(*reg),
        fields_wf(*reg, fs@),
        got@.len() == fs@.len(),
    ensures
        r@.len() == fs@.len(),
        forall|i: int| 0 <= i < fs@.len() ==> #[trigger] slots_model(r@)[i] == if got@[i] is Some {
            opt_model(got@[i])
        } else {
            default_slots(*reg, fs@)[i]
        },
{
    let ghost gm = got@;
    let mut r = default_slots_of(reg, fs);
    let n = fs.len();
    let mut rest = got;
    let mut i: usize = 0;
    while rest.len() > 0
        invariant
            n == fs@.len(),
            r@.len() == fs@.len(),
            i + rest@.len() == fs@.len(),
            got@ == gm,
            forall|k: int| 0 <= k < rest@.len() ==> rest@[k] == gm[i + k],
            forall|k: int| 0 <= k < fs@.len() ==> #[trigger] slots_model(r@)[k] == if k < i && gm[k] is Some {
                opt_model(gm[k])
            } else {
                default_slots(*reg, fs@)[k]
            },
        decreases rest@.len(),
    {
        assert(i < n);
        let g = rest.remove(0);
        let ghost before = slots_model(r@);
        match g {
            Some(v) => {
                r[i] = Some(v);
                assert forall|k: int| 0 <= k < fs@.len() implies #[trigger] slots_model(r@)[k] == if k < i + 1 && gm[k] is Some {
                    opt_model(gm[k])
                } else {
                    default_slots(*reg, fs@)[k]
                } by {
                    assert(slots_model(r@)[k] == opt_model(r@[k]));
                    if k != i {
                        assert(before[k] == opt_model(r@[k]));
                    }
                }
            },
            None => {},
        }
        i = i + 1;
    }
    r
}

/// Collects the elements of a sequence read under its index keys; an
/// element with nothing stored makes the read fail rather than vanish.
pub fn values_from_elements(got: Vec<Option<Value>>) -> (r: Result<Vec<Value>, DecodeError>)
    ensures
        (forall|i: int| 0 <= i < got@.len() ==> (#[trigger] got@[i]) is Some) ==> (r matches Ok(v) && v@.len() == got@.len()
            && forall|i: int| 0 <= i < got@.len() ==> Some(#[trigger] v@[i]) == got@[i]),
        !(forall|i: int| 0 <= i < got@.len() ==> (#[trigger] got@[i]) is Some) ==> r == Err::<Vec<Value>, DecodeError>(
            DecodeError::ProtocolViolation,
        ),
{
    let ghost gm = got@;
    let mut rest = got;
    let mut out: Vec<Value> = Vec::new();
    while rest.len() > 0
        invariant
            out@.len() + rest@.len() == gm.len(),
            got@ == gm,
            forall|k: int| 0 <= k < rest@.len() ==> rest@[k] == gm[out@.len() + k],
            forall|k: int| 0 <= k < out@.len() ==> Some(#[trigger] out@[k]) == gm[k],
        decreases rest@.len(),
    {
        let ghost j = out@.len();
        let g = rest.remove(0);
        match g {
            Some(v) => out.push(v),
            None => {
                assert(gm[j as int] is None);
                return Err(DecodeError::ProtocolViolation);
            },
        }
    }
    assert forall|i: int| 0 <= i < gm.len() implies (#[trigger] gm[i]) is Some by {
        assert(Some(out@[i]) == gm[i]);
    }
    Ok(out)
}


/// The keyspace after storing `v`, a value of type `ty`, under `key`:
/// no value removes the key, a scalar sets it, and a struct stores each
/// field under its field key.
pub open spec fn store_value(s: Keyspace, reg: Registry, ty: FieldType, v: Option<ValueV>, key: Seq<char>) -> Keyspace
    decreases v, 1int,
{
    match v {
        None => s.remove(key),
        Some(x) => store_some(s, reg, ty, x, key),
    }
}

/// The keyspace after storing the value `x` under `key`: a scalar sets the
/// key, a struct stores each field under its field key, and a sequence or
/// map stores its length under its size key and each element under its
/// index key.
pub open spec fn store_some(s: Keyspace, reg: Registry, ty: FieldType, x: ValueV, key: Seq<char>) -> Keyspace
    decreases x, 0int,
{
    match x {
        ValueV::Struct(slots) => {
            let fs = match ty {
                FieldType::Struct(sid) => reg.structs@[sid as int].fields@,
                _ => Seq::empty(),
            };
            store_fields(s, reg, fs, slots, key, 0)
        },
        ValueV::List(vs) => store_elems(
            s.insert(size_key_of(key), Entry::Scalar(StoredV::Int(vs.len() as i64))),
            reg,
            elem_of(reg, ty),
            vs,
            key,
            0,
        ),
        ValueV::MapOf(ps) => store_pairs(
            s.insert(size_key_of(key), Entry::Scalar(StoredV::Int(ps.len() as i64))),
            reg,
            entry_of(reg, ty).0,
            entry_of(reg, ty).1,
            ps,
            key,
            0,
        ),
        _ => match stored_of(x) {
            Some(sv) => s.insert(key, Entry::Scalar(sv)),
            None => s,
        },
    }
}

/// The keyspace after storing elements `i..` of a sequence, each under
/// its index key.
pub open spec fn store_elems(s: Keyspace, reg: Registry, ety: FieldType, vs: Seq<ValueV>, key: Seq<char>, i: int) -> Keyspace
    decreases vs, vs.len() - i,
{
    if i < 0 || i >= vs.len() {
        s
    } else {
        store_elems(store_some(s, reg, ety, vs[i], index_key_of(key, i as nat)), reg, ety, vs, key, i + 1)
    }
}

/// The keyspace after storing entries `i..` of a map: entry `i` is kept
/// like a struct under its index key, its key at tag 0 and its value at tag 1.
pub open spec fn store_pairs(
    s: Keyspace,
    reg: Registry,
    kt: FieldType,
    vt: FieldType,
    ps: Seq<(ValueV, ValueV)>,
    key: Seq<char>,
    i: int,
) -> Keyspace
    decreases ps, ps.len() - i,
{
    if i < 0 || i >= ps.len() {
        s
    } else {
        store_pairs(
            store_some(
                store_some(s, reg, kt, ps[i].0, field_key_of(index_key_of(key, i as nat), 0)),
                reg,
                vt,
                ps[i].1,
                field_key_of(index_key_of(key, i as nat), 1),
            ),
            reg,
            kt,
            vt,
            ps,
            key,
            i + 1,
        )
    }
}

/// The keyspace after storing fields `i..` of a struct under `key`.
pub open spec fn store_fields(
    s: Keyspace,
    reg: Registry,
    fs: Seq<FieldSpec>,
    slots: Seq<Option<ValueV>>,
    key: Seq<char>,
    i: int,
) -> Keyspace
    decreases slots, slots.len() - i,
{
    if i < 0 || i >= slots.len() || i >= fs.len() {
        s
    } else {
        store_fields(store_value(s, reg, fs[i].ty, slots[i], field_key_of(key, fs[i].tag)), reg, fs, slots, key, i + 1)
    }
}

/// The scalar that a value of a scalar type is stored as.
fn to_stored(v: &Value) -> (r: Option<Stored>)
    ensures
        match r {
            Some(x) => stored_of(v@) == Some(x@),
            None => stored_of(v@) is None,
        },
{
    match v {
        Value::Bool(b) => Some(Stored::Bool(*b)),
        Value::I32(x) => Some(Stored::Int(*x as i64)),
        Value::I64(x) => Some(Stored::Int(*x)),
        Value::I16(x) => Some(Stored::Int(*x as i64)),
        Value::Byte(x) => Some(Stored::Int(*x as i64)),
        Value::Str(t) => Some(Stored::Str(t.clone())),
        Value::Enum(x) => Some(Stored::Int(*x as i64)),
        Value::Struct(_) => None,
        Value::List(_) => None,
        Value::MapOf(_) => None,
    }
}

/// The commands that store `v` under `key`.
pub fn value_write(reg: &Registry, ty: FieldType, v: &Option<Value>, key: &String) -> (r: Vec<StoreCmd>)
    requires
        registry_wf(*reg),
        type_wf(*reg, ty),
    ensures
        forall|s: Keyspace| #[trigger] run(s, r@) == store_value(s, *reg, ty, opt_model(*v), key@),
    decreases v, 1int,
{
    match v {
        None => {
            let r = vec![StoreCmd::Del(key.clone())];
            assert(r@ =~= seq![r@[0]]);
            assert forall|s: Keyspace| #[trigger] run(s, r@) == store_value(s, *reg, ty, opt_model(*v), key@) by {
                lemma_run_two(s, r@[0], r@[0]);
            }
            r
        },
        Some(x) => some_write(reg, ty, x, key),
    }
}

/// The commands that store the value `x` under `key`.
fn some_write(reg: &Registry, ty: FieldType, x: &Value, key: &String) -> (r: Vec<StoreCmd>)
    requires
        registry_wf(*reg),
        type_wf(*reg, ty),
    ensures
        forall|s: Keyspace| #[trigger] run(s, r@) == store_some(s, *reg, ty, x@, key@),
    decreases x, 0int,
{
    match x {
        Value::Struct(slots) => {
            proof {
                lemma_struct_model(*slots);
            }
            let fs = match ty {
                FieldType::Struct(sid) => &reg.structs[sid].fields,
                _ => {
                    let r: Vec<StoreCmd> = Vec::new();
                    return r;
                },
            };
            fields_write(reg, fs, slots, key)
        },
        Value::List(vs) => {
            proof {
                lemma_list_model(*vs);
            }
            let ety = match ty {
                FieldType::List(l) => reg.lists[l],
                FieldType::SetOf(l) => reg.lists[l],
                _ => FieldType::Bool,
            };
            assert(ety == elem_of(*reg, ty));
            let mut r = scalar_write(&size_key(key), Stored::Int(vs.len() as i64));
            let ghost a = r@;
            let mut b = elems_write(reg, ety, vs, key);
            let ghost bm = b@;
            r.append(&mut b);
            assert forall|s: Keyspace| #[trigger] run(s, r@) == store_some(s, *reg, ty, x@, key@) by {
                lemma_run_append(s, a, bm);
            }
            r
        },
        Value::MapOf(ps) => {
            proof {
                lemma_map_model(*ps);
            }
            let (kt, vt) = match ty {
                FieldType::MapOf(m) => reg.maps[m],
                _ => (FieldType::Bool, FieldType::Bool),
            };
            assert((kt, vt) == entry_of(*reg, ty));
            let mut r = scalar_write(&size_key(key), Stored::Int(ps.len() as i64));
            let ghost a = r@;
            let mut b = pairs_write(reg, kt, vt, ps, key);
            let ghost bm = b@;
            r.append(&mut b);
            assert forall|s: Keyspace| #[trigger] run(s, r@) == store_some(s, *reg, ty, x@, key@) by {
                lemma_run_append(s, a, bm);
            }
            r
        },
        _ => {
            match to_stored(x) {
                Some(sv) => scalar_write(key, sv),
                None => Vec::new(),
            }
        },
    }
}

fn elems_write(reg: &Registry, ety: FieldType, vs: &Vec<Value>, key: &String) -> (r: Vec<StoreCmd>)
    requires
        registry_wf(*reg),
        type_wf(*reg, ety),
    ensures
        forall|s: Keyspace| #[trigger] run(s, r@) == store_elems(s, *reg, ety, elems_model(vs@), key@, 0),
    decreases vs,
{
    let ghost m = elems_model(vs@);
    proof {
        lemma_list_model(*vs);
    }
    let mut r: Vec<StoreCmd> = Vec::new();
    let mut i: usize = 0;
    while i < vs.len()
        invariant
            registry_wf(*reg),
            type_wf(*reg, ety),
            m == elems_model(vs@),
            m.len() == vs@.len(),
            forall|k: int| 0 <= k < vs@.len() ==> #[trigger] m[k] == value_model(vs@[k]),
            i <= vs@.len(),
            forall|s: Keyspace| #[trigger] run(s, r@) == run(s, r@) && store_elems(s, *reg, ety, m, key@, 0)
                == store_elems(run(s, r@), *reg, ety, m, key@, i as int),
        decreases vs@.len() - i,
    {
        let ik = index_key(key, i);
        let mut sub = some_write(reg, ety, &vs[i], &ik);
        assert(vs@[i as int]@ == m[i as int]);
        let ghost before = r@;
        let ghost subm = sub@;
        r.append(&mut sub);
        assert forall|s: Keyspace| #[trigger] run(s, r@) == run(s, r@) && store_elems(s, *reg, ety, m, key@, 0)
            == store_elems(run(s, r@), *reg, ety, m, key@, i + 1) by {
            lemma_run_append(s, before, subm);
            assert(run(s, before) == run(s, before));
        }
        i = i + 1;
    }
    proof {
        assert forall|s: Keyspace| #[trigger] run(s, r@) == store_elems(s, *reg, ety, m, key@, 0) by {
            assert(run(s, r@) == run(s, r@));
        }
    }
    r
}

fn pairs_write(reg: &Registry, kt: FieldType, vt: FieldType, ps: &Vec<(Value, Value)>, key: &String) -> (r: Vec<
    StoreCmd,
>)
    requires
        registry_wf(*reg),
        type_wf(*reg, kt),
        type_wf(*reg, vt),
    ensures
        forall|s: Keyspace| #[trigger] run(s, r@) == store_pairs(s, *reg, kt, vt, pairs_model(ps@), key@, 0),
    decreases ps,
{
    let ghost m = pairs_model(ps@);
    proof {
        lemma_map_model(*ps);
    }
    let mut r: Vec<StoreCmd> = Vec::new();
    let mut i: usize = 0;
    while i < ps.len()
        invariant
            registry_wf(*reg),
            type_wf(*reg, kt),
            type_wf(*reg, vt),
            m == pairs_model(ps@),
            m.len() == ps@.len(),
            forall|k: int| 0 <= k < ps@.len() ==> #[trigger] m[k] == (value_model(ps@[k].0), value_model(ps@[k].1)),
            i <= ps@.len(),
            forall|s: Keyspace| #[trigger] run(s, r@) == run(s, r@) && store_pairs(s, *reg, kt, vt, m, key@, 0)
                == store_pairs(run(s, r@), *reg, kt, vt, m, key@, i as int),
        decreases ps@.len() - i,
    {
        let ik = index_key(key, i);
        let p = &ps[i];
        assert(m[i as int] == (p.0@, p.1@));
        let mut ks = some_write(reg, kt, &p.0, &field_key(&ik, 0));
        let mut vs = some_write(reg, vt, &p.1, &field_key(&ik, 1));
        let ghost before = r@;
        let ghost km = ks@;
        let ghost vm = vs@;
        r.append(&mut ks);
        let ghost mid = r@;
        r.append(&mut vs);
        assert forall|s: Keyspace| #[trigger] run(s, r@) == run(s, r@) && store_pairs(s, *reg, kt, vt, m, key@, 0)
            == store_pairs(run(s, r@), *reg, kt, vt, m, key@, i + 1) by {
            lemma_run_append(s, before, km);
            lemma_run_append(s, mid, vm);
            assert(run(s, before) == run(s, before));
        }
        i = i + 1;
    }
    proof {
        assert forall|s: Keyspace| #[trigger] run(s, r@) == store_pairs(s, *reg, kt, vt, m, key@, 0) by {
            assert(run(s, r@) == run(s, r@));
        }
    }
    r
}

fn fields_write(reg: &Registry, fs: &Vec<FieldSpec>, slots: &Vec<Option<Value>>, key: &String) -> (r: Vec<StoreCmd>)
    requires
        registry_wf(*reg),
        fields_wf(*reg, fs@),
    ensures
        forall|s: Keyspace| #[trigger] run(s, r@) == store_fields(s, *reg, fs@, slots_model(slots@), key@, 0),
    decreases slots,
{
    let ghost m = slots_model(slots@);
    proof {
        lemma_struct_model(*slots);
    }
    let mut r: Vec<StoreCmd> = Vec::new();
    let mut i: usize = 0;
    while i < slots.len() && i < fs.len()
        invariant
            registry_wf(*reg),
            fields_wf(*reg, fs@),
            m == slots_model(slots@),
            m.len() == slots@.len(),
            forall|k: int| 0 <= k < slots@.len() ==> #[trigger] m[k] == opt_model(slots@[k]),
            i <= slots@.len(),
            forall|s: Keyspace| #[trigger] run(s, r@) == run(s, r@) && store_fields(s, *reg, fs@, m, key@, 0)
                == store_fields(run(s, r@), *reg, fs@, m, key@, i as int),
        decreases slots@.len() - i,
    {
        assert(type_wf(*reg, fs@[i as int].ty));
        let fk = field_key(key, fs[i].tag);
        let mut sub = value_write(reg, fs[i].ty, &slots[i], &fk);
        let ghost before = r@;
        let ghost subm = sub@;
        r.append(&mut sub);
        assert forall|s: Keyspace| #[trigger] run(s, r@) == run(s, r@) && store_fields(s, *reg, fs@, m, key@, 0)
            == store_fields(run(s, r@), *reg, fs@, m, key@, i + 1) by {
            lemma_run_append(s, before, subm);
            assert(run(s, before) == run(s, before));
        }
        i = i + 1;
    }
    proof {
        assert forall|s: Keyspace| #[trigger] run(s, r@) == store_fields(s, *reg, fs@, m, key@, 0) by {
            assert(run(s, r@) == run(s, r@));
        }
    }
    r
}

/// A scalar value stored under a key reads back as itself.
pub proof fn lemma_value_round_trip_at(s: Keyspace, reg: Registry, ty: FieldType, v: ValueV, key: Seq<char>)
    requires
        crate::codec::value_wf(reg, ty, v),
        !(v is Struct),
        !(v is List),
        !(v is MapOf),
    ensures
        from_stored(reg, ty, scalar_at(store_value(s, reg, ty, Some(v), key), key)) == Ok::<Option<ValueV>, DecodeError>(Some(v)),
{
}

/// Storing no value only removes the key.
pub proof fn lemma_none_only_deletes(s: Keyspace, reg: Registry, ty: FieldType, key: Seq<char>)
    ensures
        store_value(s, reg, ty, None, key) == s.remove(key),
        from_stored(reg, ty, scalar_at(store_value(s, reg, ty, None, key), key)) == Ok::<Option<ValueV>, DecodeError>(None),
{
}

} // verus!
