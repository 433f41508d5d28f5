//! The result envelope of a method: a success slot and one slot per
//! declared exception, of which a well-formed reply sets at most one.
use vstd::prelude::*;
use crate::schema::{FieldSpec, Registry, fields_wf};
use crate::codec::{Value, ValueV, DecodeError, value_wf, struct_wf, opt_model, slots_model};

verus! {

/// One service operation. `args` are the fields of its argument struct;
/// `result` the fields of its result envelope: when `has_success`, the
/// success slot at tag 0 first, then one slot per declared exception.
#[derive(Debug)]
pub struct MethodSpec {
    pub name: String,
    pub args: Vec<FieldSpec>,
    pub has_success: bool,
    pub result: Vec<FieldSpec>,
}

/// The local outcome of a call: a success value (none for a method
/// without one), or the payload of the exception with the given index.
#[derive(Debug)]
pub enum Outcome {
    Success(Option<Value>),
    Failure(usize, Value),
}

/// Mathematical model of an outcome.
pub enum OutcomeV {
    Success(Option<ValueV>),
    Failure(nat, ValueV),
}

impl View for Outcome {
    type V = OutcomeV;

    open spec fn view(&self) -> OutcomeV {
        match self {
            Outcome::Success(o) => OutcomeV::Success(opt_model(*o)),
            Outcome::Failure(k, v) => OutcomeV::Failure(*k as nat, v@),
        }
    }
}

/// Index of the first exception slot.
pub open spec fn exc_offset(m: MethodSpec) -> int {
    if m.has_success {
        1
    } else {
        0
    }
}

/// Number of declared exceptions.
pub open spec fn n_exceptions(m: MethodSpec) -> int {
    m.result@.len() - exc_offset(m)
}

/// Arguments and envelope slots are optional fields with unique tags;
/// the success slot, if any, has tag 0.
pub open spec fn method_wf(reg: Registry, m: MethodSpec) -> bool {
    &&& fields_wf(reg, m.args@)
    &&& fields_wf(reg, m.result@)
    &&& forall|i: int| 0 <= i < m.args@.len() ==> (#[trigger] m.args@[i]).optional
    &&& forall|i: int| 0 <= i < m.result@.len() ==> (#[trigger] m.result@[i]).optional
    &&& m.has_success ==> m.result@.len() >= 1 && m.result@[0].tag == 0
}

/// An outcome that the method can report.
pub open spec fn outcome_wf(reg: Registry, m: MethodSpec, o: OutcomeV) -> bool {
    match o {
        OutcomeV::Success(Some(v)) => m.has_success && value_wf(reg, m.result@[0].ty, v),
        OutcomeV::Success(None) => !m.has_success,
        OutcomeV::Failure(k, e) => k < n_exceptions(m) && value_wf(
            reg,
            m.result@[exc_offset(m) + k].ty,
            e,
        ),
    }
}

/// The slot an outcome sets, if any.
pub open spec fn slot_of(m: MethodSpec, o: OutcomeV) -> Option<int> {
    match o {
        OutcomeV::Success(Some(_)) => Some(0),
        OutcomeV::Success(None) => None,
        OutcomeV::Failure(k, _) => Some(exc_offset(m) + k),
    }
}

/// The value an outcome carries, if any.
pub open spec fn payload_of(o: OutcomeV) -> Option<ValueV> {
    match o {
        OutcomeV::Success(s) => s,
        OutcomeV::Failure(_, e) => Some(e),
    }
}

/// The envelope for a local outcome: the slot of the outcome is set to
/// its value, every other slot is unset.
pub open spec fn envelope_of(m: MethodSpec, o: OutcomeV) -> Seq<Option<ValueV>> {
    Seq::new(
        m.result@.len(),
        |i: int|
            if slot_of(m, o) == Some(i) {
                payload_of(o)
            } else {
                None
            },
    )
}

/// The first set slot at index `i` or after.
pub open spec fn first_set(slots: Seq<Option<ValueV>>, i: int) -> Option<int>
    decreases slots.len() - i,
{
    if i < 0 || i >= slots.len() {
        None
    } else if slots[i] is Some {
        Some(i)
    } else {
        first_set(slots, i + 1)
    }
}

/// The local outcome for an envelope: the success value if set, else the
/// first set exception slot in declared order; with neither, an empty
/// success for a method without a success value and a protocol violation
/// otherwise.
pub open spec fn outcome_of(m: MethodSpec, slots: Seq<Option<ValueV>>) -> Result<OutcomeV, DecodeError> {
    if m.has_success && slots.len() > 0 && slots[0] is Some {
        Ok(OutcomeV::Success(slots[0]))
    } else {
        match first_set(slots, exc_offset(m)) {
            Some(i) => Ok(OutcomeV::Failure((i - exc_offset(m)) as nat, slots[i]->Some_0)),
            None => if m.has_success {
                Err(DecodeError::ProtocolViolation)
            } else {
                Ok(OutcomeV::Success(None))
            },
        }
    }
}

proof fn lemma_first_set(slots: Seq<Option<ValueV>>, i: int, t: Option<int>)
    requires
        0 <= i,
        forall|j: int| i <= j < slots.len() ==> (#[trigger] slots[j] is Some <==> t == Some(j)),
        t matches Some(k) ==> i <= k < slots.len(),
    ensures
        first_set(slots, i) == t,
    decreases slots.len() - i,
{
    if i < slots.len() && slots[i] is None {
        lemma_first_set(slots, i + 1, t);
    }
}

/// Result envelope exclusivity: a well-formed outcome sets exactly its own
/// slot (none for an empty success), the envelope fits the method's
/// result fields, and reading the envelope back gives the same outcome.
pub proof fn lemma_envelope_exclusive(reg: Registry, m: MethodSpec, o: OutcomeV)
    requires
        method_wf(reg, m),
        outcome_wf(reg, m, o),
    ensures
        forall|i: int|
            0 <= i < m.result@.len() ==> (#[trigger] envelope_of(m, o)[i] is Some <==> slot_of(m, o)
                == Some(i)),
        struct_wf(reg, m.result@, envelope_of(m, o)),
        outcome_of(m, envelope_of(m, o)) == Ok::<OutcomeV, DecodeError>(o),
{
    let e = envelope_of(m, o);
    let off = exc_offset(m);
    match o {
        OutcomeV::Success(Some(v)) => {},
        OutcomeV::Success(None) => {
            lemma_first_set(e, off, None);
        },
        OutcomeV::Failure(k, x) => {
            lemma_first_set(e, off, Some(off + k));
        },
    }
}

/// Builds the result envelope of a local outcome.
pub fn to_envelope(reg: &Registry, m: &MethodSpec, o: Outcome) -> (r: Vec<Option<Value>>)
    requires
        method_wf(*reg, *m),
        outcome_wf(*reg, *m, o@),
    ensures
        slots_model(r@) == envelope_of(*m, o@),
{
    let ghost om = o@;
    let mut r: Vec<Option<Value>> = Vec::new();
    let mut i: usize = 0;
    while i < m.result.len()
        invariant
            i <= m.result@.len(),
            r@.len() == i,
            forall|k: int| 0 <= k < i ==> (#[trigger] r@[k]) is None,
        decreases m.result@.len() - i,
    {
        r.push(None);
        i = i + 1;
    }
    match o {
        Outcome::Success(Some(v)) => {
            r[0] = Some(v);
        },
        Outcome::Success(None) => {},
        Outcome::Failure(k, v) => {
            let off: usize = if m.has_success {
                1
            } else {
                0
            };
            r[off + k] = Some(v);
        },
    }
    assert(slots_model(r@) =~= envelope_of(*m, om));
    r
}

/// Reads the local outcome out of a result envelope.
pub fn from_envelope(m: &MethodSpec, envelope: Vec<Option<Value>>) -> (r: Result<Outcome, DecodeError>)
    ensures
        match outcome_of(*m, slots_model(envelope@)) {
            Ok(o) => r matches Ok(x) && x@ == o,
            Err(e) => r == Err::<Outcome, DecodeError>(e),
        },
{
    let ghost sm = slots_model(envelope@);
    let off: usize = if m.has_success {
        1
    } else {
        0
    };
    if m.has_success && envelope.len() > 0 {
        assert(sm[0] == opt_model(envelope@[0]));
    }
    let mut i: usize = off;
    if !(m.has_success && envelope.len() > 0 && envelope[0].is_some()) {
        while i < envelope.len() && envelope[i].is_none()
            invariant
                off <= i,
                m.has_success && sm.len() > 0 ==> sm[0] is None,
                envelope@.len() == sm.len(),
                sm == slots_model(envelope@),
                off == exc_offset(*m),
                first_set(sm, off as int) == first_set(sm, i as int),
            decreases envelope@.len() - i,
        {
            assert(sm[i as int] == opt_model(envelope@[i as int]));
            i = i + 1;
        }
        if i < envelope.len() {
            assert(sm[i as int] == opt_model(envelope@[i as int]));
            assert(first_set(sm, i as int) == Some(i as int));
        }
    }
    let mut slots = envelope;
    if m.has_success && slots.len() > 0 && slots[0].is_some() {
        let s = slots.remove(0);
        return Ok(Outcome::Success(s));
    }
    if i < slots.len() {
        let s = slots.remove(i);
        match s {
            Some(v) => Ok(Outcome::Failure(i - off, v)),
            None => Err(DecodeError::ProtocolViolation),
        }
    } else if m.has_success {
        Err(DecodeError::ProtocolViolation)
    } else {
        Ok(Outcome::Success(None))
    }
}

} // verus!
