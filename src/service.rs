//! Services: composition of method tables, the dispatcher that answers
//! one call, and the client stub that makes one.
use vstd::prelude::*;
use crate::wire::{MessageKind, Token, TokenV, toks, push_token};
use crate::schema::{FieldType, Registry, registry_wf, type_wf, fields_wf};
use crate::codec::{
    Value, ValueV, DecodeError, value_wf, struct_wf, slots_model, opt_model, value_model, enc_struct,
    dec_struct, encode_struct, decode_struct, lemma_struct_model, lemma_struct_round_trip,
};
use crate::envelope::{
    MethodSpec, Outcome, OutcomeV, method_wf, outcome_wf, envelope_of, outcome_of, to_envelope,
    from_envelope, lemma_envelope_exclusive,
};

verus! {

/// The effective method table of a service: its own methods and those of
/// all its ancestors.
#[derive(Debug)]
pub struct Service {
    pub methods: Vec<MethodSpec>,
}

/// Why two method tables cannot be combined.
#[derive(Clone, Copy, Debug, PartialEq, Eq, Structural)]
pub enum CompositionError {
    /// Two methods of the combined table share a name.
    DuplicateMethod,
}

/// No two methods share a name.
pub open spec fn names_unique(ms: Seq<MethodSpec>) -> bool {
    forall|i: int, j: int| 0 <= i < ms.len() && 0 <= j < ms.len() && i != j
        ==> #[trigger] ms[i].name@ != #[trigger] ms[j].name@
}

/// The methods of the given services, in order.
pub open spec fn flat_methods(ps: Seq<Service>) -> Seq<MethodSpec> {
    ps.map_values(|p: Service| p.methods@).flatten()
}

/// Every method of a service is well formed.
pub open spec fn service_wf(reg: Registry, s: Service) -> bool {
    forall|i: int| 0 <= i < s.methods@.len() ==> method_wf(reg, #[trigger] s.methods@[i])
}

proof fn lemma_flat_first(ps: Seq<Service>)
    requires
        ps.len() > 0,
    ensures
        flat_methods(ps) == ps[0].methods@ + flat_methods(ps.remove(0)),
{
    let vs = ps.map_values(|p: Service| p.methods@);
    assert(vs.drop_first() =~= ps.remove(0).map_values(|p: Service| p.methods@));
}

/// Whether two methods of the table share a name.
fn has_duplicate(ms: &Vec<MethodSpec>) -> (r: bool)
    ensures
        r == !names_unique(ms@),
{
    let mut i: usize = 0;
    while i < ms.len()
        invariant
            i <= ms@.len(),
            forall|a: int, b: int| 0 <= a < i && 0 <= b < ms@.len() && a != b
                ==> #[trigger] ms@[a].name@ != #[trigger] ms@[b].name@,
        decreases ms@.len() - i,
    {
        let mut j: usize = 0;
        while j < ms.len()
            invariant
                i < ms@.len(),
                j <= ms@.len(),
                forall|a: int, b: int| 0 <= a < i && 0 <= b < ms@.len() && a != b
                    ==> #[trigger] ms@[a].name@ != #[trigger] ms@[b].name@,
                forall|b: int| 0 <= b < j && b != i ==> ms@[i as int].name@ != #[trigger] ms@[b].name@,
            decreases ms@.len() - j,
        {
            if i != j && ms[i].name == ms[j].name {
                return true;
            }
            j = j + 1;
        }
        i = i + 1;
    }
    false
}

/// Combines a service's own methods with those of its parents into one
/// table: own methods first, then each parent's in order. A name that
/// occurs twice is refused.
pub fn compose(own: Vec<MethodSpec>, parents: Vec<Service>) -> (r: Result<Service, CompositionError>)
    ensures
        names_unique(own@ + flat_methods(parents@)) ==> (r matches Ok(s) && s.methods@ == own@
            + flat_methods(parents@)),
        !names_unique(own@ + flat_methods(parents@)) ==> r == Err::<Service, CompositionError>(
            CompositionError::DuplicateMethod,
        ),
{
    let ghost target = own@ + flat_methods(parents@);
    let mut all = own;
    let mut ps = parents;
    while ps.len() > 0
        invariant
            all@ + flat_methods(ps@) == target,
        decreases ps@.len(),
    {
        proof {
            lemma_flat_first(ps@);
        }
        let mut p = ps.remove(0);
        all.append(&mut p.methods);
        assert(all@ + flat_methods(ps@) =~= target);
    }
    assert(flat_methods(ps@) =~= Seq::<MethodSpec>::empty());
    assert(all@ =~= target);
    if has_duplicate(&all) {
        Err(CompositionError::DuplicateMethod)
    } else {
        Ok(Service { methods: all })
    }
}

/// The first method named `name`.
pub open spec fn method_index(ms: Seq<MethodSpec>, name: Seq<char>, i: int) -> Option<int>
    decreases ms.len() - i,
{
    if i < 0 || i >= ms.len() {
        None
    } else if ms[i].name@ == name {
        Some(i)
    } else {
        method_index(ms, name, i + 1)
    }
}

/// Finds a method by name, case-sensitively.
pub fn find_method(s: &Service, name: &String) -> (r: Option<usize>)
    ensures
        r matches Some(i) ==> method_index(s.methods@, name@, 0) == Some(i as int) && i < s.methods@.len(),
        r is None ==> method_index(s.methods@, name@, 0) is None,
{
    let mut i: usize = 0;
    while i < s.methods.len()
        invariant
            i <= s.methods@.len(),
            method_index(s.methods@, name@, 0) == method_index(s.methods@, name@, i as int),
        decreases s.methods@.len() - i,
    {
        if s.methods[i].name == *name {
            return Some(i);
        }
        i = i + 1;
    }
    None
}

/// In a table with unique names, such as the one
/// that `compose` gives, each method is found under its own name.
pub proof fn lemma_composed_lookup(ms: Seq<MethodSpec>, k: int)
    requires
        names_unique(ms),
        0 <= k < ms.len(),
    ensures
        method_index(ms, ms[k].name@, 0) == Some(k),
{
    lemma_lookup_from(ms, ms[k].name@, 0, k);
}

proof fn lemma_lookup_from(ms: Seq<MethodSpec>, name: Seq<char>, i: int, k: int)
    requires
        names_unique(ms),
        0 <= i <= k < ms.len(),
        ms[k].name@ == name,
    ensures
        method_index(ms, name, i) == Some(k),
    decreases k - i,
{
    if i < k {
        assert(ms[i].name@ != ms[k].name@);
        lemma_lookup_from(ms, name, i + 1, k);
    }
}

/// Every slot is set.
pub open spec fn all_set(slots: Seq<Option<ValueV>>) -> bool {
    forall|i: int| 0 <= i < slots.len() ==> (#[trigger] slots[i]) is Some
}

/// What the dispatcher reads from an incoming message: the method's index,
/// the message kind and sequence id, and the decoded arguments. An unknown
/// method, a malformed message and a missing argument are protocol
/// violations.
pub open spec fn call_of(reg: Registry, s: Service, ts: Seq<TokenV>) -> Result<
    (int, MessageKind, i32, Seq<Option<ValueV>>),
    DecodeError,
> {
    if ts.len() > 0 && ts[0] is MessageBegin {
        let name = ts[0]->MessageBegin_0;
        match method_index(s.methods@, name, 0) {
            Some(i) => match dec_struct(reg, s.methods@[i].args@, ts.skip(1)) {
                Ok((args, rest)) => if rest.len() > 0 && rest[0] is MessageEnd && all_set(args) {
                    Ok((i, ts[0]->MessageBegin_1, ts[0]->MessageBegin_2, args))
                } else {
                    Err(DecodeError::ProtocolViolation)
                },
                Err(e) => Err(e),
            },
            None => Err(DecodeError::ProtocolViolation),
        }
    } else {
        Err(DecodeError::ProtocolViolation)
    }
}

/// A decoded call.
#[derive(Debug)]
pub struct Call {
    pub name: String,
    pub method: usize,
    pub kind: MessageKind,
    pub seq: i32,
    pub args: Vec<Option<Value>>,
}

/// Reads one call message: its envelope, the method by name, and its
/// arguments.
pub fn read_call(reg: &Registry, s: &Service, ts: &Vec<Token>) -> (r: Result<Call, DecodeError>)
    requires
        registry_wf(*reg),
        service_wf(*reg, *s),
    ensures
        match call_of(*reg, *s, toks(ts@)) {
            Ok((i, kind, seq, args)) => r matches Ok(c) && c.method == i && c.kind == kind && c.seq
                == seq && slots_model(c.args@) == args && c.name@ == s.methods@[i].name@ && 0 <= i
                < s.methods@.len(),
            Err(e) => r == Err::<Call, DecodeError>(e),
        },
{
    let ghost t = toks(ts@);
    if ts.len() == 0 {
        return Err(DecodeError::ProtocolViolation);
    }
    assert(t[0] == ts@[0]@);
    let (name, kind, seq) = match &ts[0] {
        Token::MessageBegin(n, k, q) => (n, *k, *q),
        _ => {
            return Err(DecodeError::ProtocolViolation);
        },
    };
    let i = match find_method(s, name) {
        Some(i) => i,
        None => {
            return Err(DecodeError::ProtocolViolation);
        },
    };
    assert(method_wf(*reg, s.methods@[i as int]));
    assert(t.skip(1) =~= toks(ts@).skip(1));
    assert(t[0]->MessageBegin_0 == name@);
    let ghost d = dec_struct(*reg, s.methods@[i as int].args@, t.skip(1));
    let (args, p) = match decode_struct(reg, &s.methods[i].args, ts, 1) {
        Ok(x) => x,
        Err(e) => {
            return Err(e);
        },
    };
    assert(d is Ok);
    assert(d->Ok_0.1 == toks(ts@).skip(p as int));
    assert(d->Ok_0.0 == slots_model(args@));
    assert(toks(ts@).skip(p as int).len() == ts@.len() - p);
    if p >= ts.len() {
        return Err(DecodeError::ProtocolViolation);
    }
    assert(toks(ts@).skip(p as int)[0] == ts@[p as int]@);
    match &ts[p] {
        Token::MessageEnd => {},
        _ => {
            return Err(DecodeError::ProtocolViolation);
        },
    }
    let ghost expected = (i as int, kind, seq, slots_model(args@));
    assert(all_set(slots_model(args@)) ==> call_of(*reg, *s, t) == Ok::<_, DecodeError>(expected));
    assert(!all_set(slots_model(args@)) ==> call_of(*reg, *s, t) == Err::<(int, MessageKind, i32, Seq<Option<ValueV>>), DecodeError>(DecodeError::ProtocolViolation));
    let mut k: usize = 0;
    while k < args.len()
        invariant
            k <= args@.len(),
            forall|j: int| 0 <= j < k ==> (#[trigger] args@[j]) is Some,
            t == toks(ts@),
            expected == (i as int, kind, seq, slots_model(args@)),
            all_set(slots_model(args@)) ==> call_of(*reg, *s, t) == Ok::<_, DecodeError>(expected),
            !all_set(slots_model(args@)) ==> call_of(*reg, *s, t) == Err::<(int, MessageKind, i32, Seq<Option<ValueV>>), DecodeError>(DecodeError::ProtocolViolation),
        decreases args@.len() - k,
    {
        if args[k].is_none() {
            assert(slots_model(args@)[k as int] == opt_model(args@[k as int]));
            return Err(DecodeError::ProtocolViolation);
        }
        k = k + 1;
    }
    proof {
        assert forall|j: int| 0 <= j < args@.len() implies (#[trigger] slots_model(args@)[j]) is Some by {
            assert(slots_model(args@)[j] == opt_model(args@[j]));
        }
    }
    Ok(Call { name: s.methods[i].name.clone(), method: i, kind, seq, args })
}

/// The tokens of a reply: the message envelope, the result envelope of
/// the outcome, and the message end.
pub open spec fn reply_tokens(reg: Registry, m: MethodSpec, seq: i32, o: OutcomeV) -> Seq<TokenV> {
    seq![TokenV::MessageBegin(m.name@, MessageKind::Reply, seq)] + enc_struct(
        reg,
        m.result@,
        envelope_of(m, o),
    ) + seq![TokenV::MessageEnd]
}

/// Writes the reply to a call of `m` with sequence id `seq`.
pub fn write_reply(reg: &Registry, m: &MethodSpec, seq: i32, o: Outcome, out: &mut Vec<Token>)
    requires
        registry_wf(*reg),
        method_wf(*reg, *m),
        outcome_wf(*reg, *m, o@),
    ensures
        toks(final(out)@) == toks(old(out)@) + reply_tokens(*reg, *m, seq, o@),
{
    let ghost om = o@;
    proof {
        lemma_envelope_exclusive(*reg, *m, om);
    }
    push_token(out, Token::MessageBegin(m.name.clone(), MessageKind::Reply, seq));
    let slots = to_envelope(reg, m, o);
    encode_struct(reg, &m.result, &slots, out);
    push_token(out, Token::MessageEnd);
    assert(toks(final(out)@) =~= toks(old(out)@) + reply_tokens(*reg, *m, seq, om));
}

/// Whether `v` fits `ty`.
pub fn check_value(reg: &Registry, ty: FieldType, v: &Value) -> (r: bool)
    requires
        registry_wf(*reg),
        type_wf(*reg, ty),
    ensures
        r == value_wf(*reg, ty, v@),
    decreases v,
{
    match (ty, v) {
        (FieldType::Bool, Value::Bool(_)) => true,
        (FieldType::I32, Value::I32(_)) => true,
        (FieldType::I64, Value::I64(_)) => true,
        (FieldType::I16, Value::I16(_)) => true,
        (FieldType::Byte, Value::Byte(_)) => true,
        (FieldType::Str, Value::Str(_)) => true,
        (FieldType::Enum(e), Value::Enum(x)) => crate::schema::enum_lookup(&reg.enums[e], *x).is_some(),
        (FieldType::Struct(sid), Value::Struct(slots)) => {
            proof {
                lemma_struct_model(*slots);
            }
            assert(fields_wf(*reg, reg.structs@[sid as int].fields@));
            check_slots(reg, &reg.structs[sid].fields, slots)
        },
        (FieldType::List(l), Value::List(vs)) | (FieldType::SetOf(l), Value::List(vs)) => {
            proof {
                crate::codec::lemma_list_model(*vs);
            }
            assert(type_wf(*reg, reg.lists@[l as int]));
            let ok = check_elems(reg, reg.lists[l], vs);
            assert(v@ == ValueV::List(crate::codec::elems_model(vs@)));
            let ghost m = crate::codec::elems_model(vs@);
            proof {
                crate::codec::lemma_list_wf(*reg, ty, m);
            }
            assert(ok == value_wf(*reg, ty, v@));
            ok
        },
        (FieldType::MapOf(mi), Value::MapOf(ps)) => {
            proof {
                crate::codec::lemma_map_model(*ps);
                crate::codec::lemma_map_wf(*reg, mi, crate::codec::pairs_model(ps@));
            }
            let (kt, vt) = reg.maps[mi];
            assert(type_wf(*reg, kt) && type_wf(*reg, vt));
            check_pairs(reg, kt, vt, ps)
        },
        _ => false,
    }
}

/// Whether every key fits `kt` and every value fits `vt`.
pub fn check_pairs(reg: &Registry, kt: FieldType, vt: FieldType, ps: &Vec<(Value, Value)>) -> (r: bool)
    requires
        registry_wf(*reg),
        type_wf(*reg, kt),
        type_wf(*reg, vt),
    ensures
        r == forall|k: int|
            0 <= k < ps@.len() ==> value_wf(*reg, kt, (#[trigger] crate::codec::pairs_model(ps@)[k]).0) && value_wf(
                *reg,
                vt,
                crate::codec::pairs_model(ps@)[k].1,
            ),
    decreases ps,
{
    proof {
        crate::codec::lemma_map_model(*ps);
    }
    let ghost m = crate::codec::pairs_model(ps@);
    let mut i: usize = 0;
    while i < ps.len()
        invariant
            i <= ps@.len(),
            registry_wf(*reg),
            type_wf(*reg, kt),
            type_wf(*reg, vt),
            m == crate::codec::pairs_model(ps@),
            forall|k: int| 0 <= k < ps@.len() ==> #[trigger] m[k] == (value_model(ps@[k].0), value_model(ps@[k].1)),
            forall|k: int| 0 <= k < i ==> value_wf(*reg, kt, (#[trigger] m[k]).0) && value_wf(*reg, vt, m[k].1),
        decreases ps@.len() - i,
    {
        let p = &ps[i];
        assert(m[i as int] == (p.0@, p.1@));
        if !check_value(reg, kt, &p.0) || !check_value(reg, vt, &p.1) {
            return false;
        }
        i = i + 1;
    }
    true
}

/// Whether every element fits `ety`.
pub fn check_elems(reg: &Registry, ety: FieldType, vs: &Vec<Value>) -> (r: bool)
    requires
        registry_wf(*reg),
        type_wf(*reg, ety),
    ensures
        r == forall|k: int| 0 <= k < vs@.len() ==> value_wf(*reg, ety, #[trigger] crate::codec::elems_model(vs@)[k]),
    decreases vs,
{
    proof {
        crate::codec::lemma_list_model(*vs);
    }
    let mut i: usize = 0;
    while i < vs.len()
        invariant
            i <= vs@.len(),
            registry_wf(*reg),
            type_wf(*reg, ety),
            forall|k: int| 0 <= k < vs@.len() ==> #[trigger] crate::codec::elems_model(vs@)[k] == value_model(vs@[k]),
            forall|k: int| 0 <= k < i ==> value_wf(*reg, ety, #[trigger] crate::codec::elems_model(vs@)[k]),
        decreases vs@.len() - i,
    {
        if !check_value(reg, ety, &vs[i]) {
            assert(crate::codec::elems_model(vs@)[i as int] == vs@[i as int]@);
            return false;
        }
        i = i + 1;
    }
    true
}

/// Whether `slots` fit the field list `fs`.
pub fn check_slots(reg: &Registry, fs: &Vec<crate::schema::FieldSpec>, slots: &Vec<Option<Value>>) -> (r: bool)
    requires
        registry_wf(*reg),
        fields_wf(*reg, fs@),
    ensures
        r == struct_wf(*reg, fs@, slots_model(slots@)),
    decreases slots,
{
    let ghost m = slots_model(slots@);
    assert(m.len() == slots@.len());
    if slots.len() != fs.len() {
        return false;
    }
    let mut i: usize = 0;
    while i < slots.len()
        invariant
            i <= slots@.len(),
            slots@.len() == fs@.len(),
            m == slots_model(slots@),
            m.len() == slots@.len(),
            registry_wf(*reg),
            fields_wf(*reg, fs@),
            forall|k: int|
                0 <= k < i ==> match #[trigger] m[k] {
                    Some(x) => value_wf(*reg, fs@[k].ty, x),
                    None => crate::codec::default_slot(*reg, fs@[k]) is None,
                },
        decreases slots@.len() - i,
    {
        assert(m[i as int] == opt_model(slots@[i as int]));
        assert(type_wf(*reg, fs@[i as int].ty));
        let ok = match &slots[i] {
            Some(v) => check_value(reg, fs[i].ty, v),
            None => {
                let f = &fs[i];
                f.optional || match f.ty {
                    FieldType::Struct(_) => true,
                    _ => false,
                }
            },
        };
        if !ok {
            return false;
        }
        i = i + 1;
    }
    true
}

/// Whether a handler's outcome is one the method can report.
pub fn check_outcome(reg: &Registry, m: &MethodSpec, o: &Outcome) -> (r: bool)
    requires
        registry_wf(*reg),
        method_wf(*reg, *m),
    ensures
        r == outcome_wf(*reg, *m, o@),
{
    match o {
        Outcome::Success(Some(v)) => {
            if m.has_success {
                assert(type_wf(*reg, m.result@[0].ty));
                check_value(reg, m.result[0].ty, v)
            } else {
                false
            }
        },
        Outcome::Success(None) => !m.has_success,
        Outcome::Failure(k, e) => {
            let off: usize = if m.has_success {
                1
            } else {
                0
            };
            if *k < m.result.len() - off {
                assert(type_wf(*reg, m.result@[off + *k].ty));
                check_value(reg, m.result[off + *k].ty, e)
            } else {
                false
            }
        },
    }
}

/// The implementation of a service's methods, supplied by its author.
pub trait Handler {
    /// Answers a call of the method with the given index.
    fn handle(&self, method: usize, args: &Vec<Option<Value>>) -> Outcome;
}

/// An observer of incoming calls, notified before the handler runs.
pub trait Observer {
    fn observe(&self, kind: MessageKind, name: &String, seq: i32, args: &Vec<Option<Value>>);
}

/// A dispatcher: a registry, the effective method table of a service, and
/// the observers to notify, in registration order.
pub struct Processor<O> {
    pub registry: Registry,
    pub service: Service,
    pub observers: Vec<O>,
}

impl<O: Observer> Processor<O> {
    pub fn new(registry: Registry, service: Service) -> (r: Self)
        ensures
            r.registry == registry,
            r.service == service,
            r.observers@.len() == 0,
    {
        Processor { registry, service, observers: Vec::new() }
    }

    /// Registers an observer after those already registered.
    pub fn add_observer(&mut self, o: O)
        ensures
            final(self).observers@ == old(self).observers@.push(o),
            final(self).registry == old(self).registry,
            final(self).service == old(self).service,
    {
        self.observers.push(o);
    }

    /// Answers one call: reads it, notifies every observer in order,
    /// invokes the handler and writes the reply with the call's sequence
    /// id. A call that cannot be read, or an outcome that the method
    /// cannot report, is an error and nothing is written.
    pub fn process<H: Handler>(&self, handler: &H, input: &Vec<Token>, out: &mut Vec<Token>) -> (r: Result<
        (),
        DecodeError,
    >)
        requires
            registry_wf(self.registry),
            service_wf(self.registry, self.service),
        ensures
            match call_of(self.registry, self.service, toks(input@)) {
                Ok((i, kind, seq, args)) => match r {
                    Ok(()) => exists|o: OutcomeV|
                        outcome_wf(self.registry, self.service.methods@[i], o) && toks(final(out)@)
                            == toks(old(out)@) + reply_tokens(
                            self.registry,
                            self.service.methods@[i],
                            seq,
                            o,
                        ),
                    Err(e) => e == DecodeError::ProtocolViolation && final(out)@ == old(out)@,
                },
                Err(e) => r == Err::<(), DecodeError>(e) && final(out)@ == old(out)@,
            },
    {
        let call = match read_call(&self.registry, &self.service, input) {
            Ok(c) => c,
            Err(e) => {
                return Err(e);
            },
        };
        let mut k: usize = 0;
        while k < self.observers.len()
            decreases self.observers@.len() - k,
        {
            self.observers[k].observe(call.kind, &call.name, call.seq, &call.args);
            k = k + 1;
        }
        let o = handler.handle(call.method, &call.args);
        let m = &self.service.methods[call.method];
        assert(method_wf(self.registry, *m));
        if !check_outcome(&self.registry, m, &o) {
            return Err(DecodeError::ProtocolViolation);
        }
        let ghost om = o@;
        write_reply(&self.registry, m, call.seq, o, out);
        assert(outcome_wf(self.registry, self.service.methods@[call.method as int], om));
        Ok(())
    }
}

/// Wraps each argument into its slot.
pub open spec fn wrap_args(args: Seq<Value>) -> Seq<Option<ValueV>> {
    Seq::new(args.len(), |i: int| Some(value_model(args[i])))
}

/// The tokens of a call of `m`: sequence id 0, the argument struct, and
/// the message end.
pub open spec fn call_tokens(reg: Registry, m: MethodSpec, args: Seq<Option<ValueV>>) -> Seq<TokenV> {
    seq![TokenV::MessageBegin(m.name@, MessageKind::Call, 0)] + enc_struct(reg, m.args@, args) + seq![
        TokenV::MessageEnd,
    ]
}

/// Writes a call of `m` with the given arguments.
pub fn write_call(reg: &Registry, m: &MethodSpec, args: Vec<Value>, out: &mut Vec<Token>)
    requires
        registry_wf(*reg),
        method_wf(*reg, *m),
        args@.len() == m.args@.len(),
        forall|i: int| 0 <= i < args@.len() ==> value_wf(*reg, m.args@[i].ty, #[trigger] args@[i]@),
    ensures
        toks(final(out)@) == toks(old(out)@) + call_tokens(*reg, *m, wrap_args(args@)),
{
    let ghost w = wrap_args(args@);
    let ghost n = args@.len();
    let mut rest = args;
    let mut slots: Vec<Option<Value>> = Vec::new();
    while rest.len() > 0
        invariant
            slots@.len() + rest@.len() == n,
            forall|i: int| 0 <= i < slots@.len() ==> opt_model(#[trigger] slots@[i]) == w[i],
            forall|i: int| 0 <= i < rest@.len() ==> Some(value_model(#[trigger] rest@[i])) == w[slots@.len() + i],
            w.len() == n,
        decreases rest@.len(),
    {
        let v = rest.remove(0);
        slots.push(Some(v));
    }
    assert(slots_model(slots@) =~= w);
    assert forall|i: int| 0 <= i < w.len() implies match #[trigger] w[i] {
        Some(x) => value_wf(*reg, m.args@[i].ty, x),
        None => crate::codec::default_slot(*reg, m.args@[i]) is None,
    } by {
        assert(args@[i]@ == value_model(args@[i]));
    }
    assert(struct_wf(*reg, m.args@, w));
    push_token(out, Token::MessageBegin(m.name.clone(), MessageKind::Call, 0));
    encode_struct(reg, &m.args, &slots, out);
    push_token(out, Token::MessageEnd);
    assert(toks(final(out)@) =~= toks(old(out)@) + call_tokens(*reg, *m, w));
}

/// What the client reads from a reply: the result envelope, turned
/// into a local outcome.
pub open spec fn reply_of(reg: Registry, m: MethodSpec, ts: Seq<TokenV>) -> Result<OutcomeV, DecodeError> {
    if ts.len() > 0 && ts[0] matches TokenV::MessageBegin(_, MessageKind::Reply, _) {
        match dec_struct(reg, m.result@, ts.skip(1)) {
            Ok((slots, rest)) => if rest.len() > 0 && rest[0] is MessageEnd {
                outcome_of(m, slots)
            } else {
                Err(DecodeError::ProtocolViolation)
            },
            Err(e) => Err(e),
        }
    } else {
        Err(DecodeError::ProtocolViolation)
    }
}

/// Reads the reply to a call of `m`.
pub fn read_reply(reg: &Registry, m: &MethodSpec, ts: &Vec<Token>) -> (r: Result<Outcome, DecodeError>)
    requires
        registry_wf(*reg),
        method_wf(*reg, *m),
    ensures
        match reply_of(*reg, *m, toks(ts@)) {
            Ok(o) => r matches Ok(x) && x@ == o,
            Err(e) => r == Err::<Outcome, DecodeError>(e),
        },
{
    if ts.len() == 0 {
        return Err(DecodeError::ProtocolViolation);
    }
    assert(toks(ts@)[0] == ts@[0]@);
    match &ts[0] {
        Token::MessageBegin(_, MessageKind::Reply, _) => {},
        _ => {
            return Err(DecodeError::ProtocolViolation);
        },
    }
    let (slots, p) = match decode_struct(reg, &m.result, ts, 1) {
        Ok(x) => x,
        Err(e) => {
            return Err(e);
        },
    };
    assert(toks(ts@).skip(p as int).len() == ts@.len() - p);
    if p >= ts.len() {
        return Err(DecodeError::ProtocolViolation);
    }
    assert(toks(ts@).skip(p as int)[0] == ts@[p as int]@);
    match &ts[p] {
        Token::MessageEnd => {},
        _ => {
            return Err(DecodeError::ProtocolViolation);
        },
    }
    from_envelope(m, slots)
}


/// The client reads back exactly the outcome that the dispatcher wrote:
/// the envelope sets one slot, and reading the envelope recovers it.
pub proof fn lemma_reply_round_trip(reg: Registry, m: MethodSpec, seq: i32, o: OutcomeV)
    requires
        registry_wf(reg),
        method_wf(reg, m),
        outcome_wf(reg, m, o),
    ensures
        reply_of(reg, m, reply_tokens(reg, m, seq, o)) == Ok::<OutcomeV, DecodeError>(o),
{
    let env = envelope_of(m, o);
    let ts = reply_tokens(reg, m, seq, o);
    lemma_envelope_exclusive(reg, m, o);
    assert(ts.skip(1) =~= enc_struct(reg, m.result@, env) + seq![TokenV::MessageEnd]);
    lemma_struct_round_trip(reg, m.result@, env, seq![TokenV::MessageEnd]);
}

/// A call that the client writes for a method of a service whose names are
/// unique is read by the dispatcher as a call of that same method, with
/// sequence id 0 and the same arguments.
pub proof fn lemma_call_round_trip(reg: Registry, s: Service, i: int, args: Seq<Option<ValueV>>)
    requires
        registry_wf(reg),
        service_wf(reg, s),
        names_unique(s.methods@),
        0 <= i < s.methods@.len(),
        all_set(args),
        struct_wf(reg, s.methods@[i].args@, args),
    ensures
        call_of(reg, s, call_tokens(reg, s.methods@[i], args)) == Ok::<_, DecodeError>(
            (i, MessageKind::Call, 0i32, args),
        ),
{
    let m = s.methods@[i];
    let ts = call_tokens(reg, m, args);
    assert(method_wf(reg, m));
    lemma_composed_lookup(s.methods@, i);
    assert(ts.skip(1) =~= enc_struct(reg, m.args@, args) + seq![TokenV::MessageEnd]);
    lemma_struct_round_trip(reg, m.args@, args, seq![TokenV::MessageEnd]);
}


proof fn lemma_flat_contains(ps: Seq<Service>, q: int, j: int)
    requires
        0 <= q < ps.len(),
        0 <= j < ps[q].methods@.len(),
    ensures
        exists|k: int| 0 <= k < flat_methods(ps).len() && flat_methods(ps)[k] == ps[q].methods@[j],
    decreases q,
{
    lemma_flat_first(ps);
    let first = ps[0].methods@;
    if q == 0 {
        assert(flat_methods(ps)[j] == ps[q].methods@[j]);
    } else {
        let tail = ps.remove(0);
        assert(tail[q - 1] == ps[q]);
        lemma_flat_contains(tail, q - 1, j);
        let k = choose|k: int| 0 <= k < flat_methods(tail).len() && flat_methods(tail)[k] == tail[q - 1].methods@[j];
        assert(flat_methods(ps)[first.len() + k] == ps[q].methods@[j]);
    }
}

/// Service composition: in the table that `compose` builds from a
/// service's own methods and its parents', each own method and each
/// parent's method is found under its name, at an index that holds it.
pub proof fn lemma_composition_answers(own: Seq<MethodSpec>, parents: Seq<Service>)
    requires
        names_unique(own + flat_methods(parents)),
    ensures
        forall|k: int|
            0 <= k < own.len() ==> method_index(own + flat_methods(parents), #[trigger] own[k].name@, 0) == Some(k)
                && (own + flat_methods(parents))[k] == own[k],
        forall|q: int, j: int|
            0 <= q < parents.len() && 0 <= j < parents[q].methods@.len() ==> exists|k: int|
                #[trigger] method_index(own + flat_methods(parents), parents[q].methods@[j].name@, 0) == Some(k)
                    && (own + flat_methods(parents))[k] == #[trigger] parents[q].methods@[j],
{
    let all = own + flat_methods(parents);
    assert forall|k: int| 0 <= k < own.len() implies method_index(all, #[trigger] own[k].name@, 0) == Some(k)
        && all[k] == own[k] by {
        assert(all[k] == own[k]);
        lemma_composed_lookup(all, k);
    }
    assert forall|q: int, j: int| 0 <= q < parents.len() && 0 <= j < parents[q].methods@.len() implies exists|k: int|
        #[trigger] method_index(all, parents[q].methods@[j].name@, 0) == Some(k) && all[k] == #[trigger] parents[q].methods@[j] by {
        lemma_flat_contains(parents, q, j);
        let k = choose|k: int| 0 <= k < flat_methods(parents).len() && flat_methods(parents)[k] == parents[q].methods@[j];
        assert(all[own.len() + k] == parents[q].methods@[j]);
        lemma_composed_lookup(all, own.len() + k);
    }
}


/// Whether a method's argument and envelope fields are well formed.
pub fn check_method(reg: &Registry, m: &MethodSpec) -> (r: bool)
    ensures
        r == method_wf(*reg, *m),
{
    if !crate::schema::check_fields(reg, &m.args) || !crate::schema::check_fields(reg, &m.result) {
        return false;
    }
    let mut i: usize = 0;
    while i < m.args.len()
        invariant
            i <= m.args@.len(),
            forall|a: int| 0 <= a < i ==> (#[trigger] m.args@[a]).optional,
        decreases m.args@.len() - i,
    {
        if !m.args[i].optional {
            return false;
        }
        i = i + 1;
    }
    let mut j: usize = 0;
    while j < m.result.len()
        invariant
            j <= m.result@.len(),
            forall|a: int| 0 <= a < j ==> (#[trigger] m.result@[a]).optional,
        decreases m.result@.len() - j,
    {
        if !m.result[j].optional {
            return false;
        }
        j = j + 1;
    }
    if m.has_success {
        m.result.len() >= 1 && m.result[0].tag == 0
    } else {
        true
    }
}

/// Whether every method of the service is well formed.
pub fn check_service(reg: &Registry, s: &Service) -> (r: bool)
    ensures
        r == service_wf(*reg, *s),
{
    let mut i: usize = 0;
    while i < s.methods.len()
        invariant
            i <= s.methods@.len(),
            forall|a: int| 0 <= a < i ==> method_wf(*reg, #[trigger] s.methods@[a]),
        decreases s.methods@.len() - i,
    {
        if !check_method(reg, &s.methods[i]) {
            return false;
        }
        i = i + 1;
    }
    true
}

} // verus!
