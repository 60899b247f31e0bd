//! The payload values that requests, responses and notifications carry.
//!
//! A `Value` is the tree of data that the wire codec can carry: nothing,
//! booleans, integers, text, arrays of further values and runs of key/value
//! pairs.  `ValueV` is its mathematical shadow, used by all contracts.

use vstd::prelude::*;

verus! {

/// A payload value as it travels in a call's parameter list or in a
/// response's result or error slot.
#[derive(Debug, PartialEq)]
pub enum Value {
    /// The nil sentinel.  In a response it marks the empty error slot.
    Nil,
    /// A boolean.
    Bool(bool),
    /// A non-negative integer.
    UInt(u64),
    /// A negative integer.  Non-negative numbers belong in `UInt`: the wire
    /// format writes them the same way, so only this split round-trips.
    Int(i64),
    /// A piece of text.
    Str(String),
    /// An ordered sequence of further values.
    Array(Vec<Value>),
    /// An ordered run of key/value pairs.  The wire format orders entries
    /// and allows any value as a key, so the model is a sequence of pairs.
    Dict(Vec<(Value, Value)>),
}

/// The mathematical form of a `Value`: text becomes a sequence of characters,
/// vectors become sequences.
pub enum ValueV {
    Nil,
    Bool(bool),
    UInt(u64),
    Int(i64),
    Str(Seq<char>),
    Array(Seq<ValueV>),
    Dict(Seq<(ValueV, ValueV)>),
}

/// The mathematical form of an exec value.
pub open spec fn value_view(v: Value) -> ValueV
    decreases v,
{
    match v {
        Value::Nil => ValueV::Nil,
        Value::Bool(b) => ValueV::Bool(b),
        Value::UInt(n) => ValueV::UInt(n),
        Value::Int(n) => ValueV::Int(n),
        Value::Str(s) => ValueV::Str(s@),
        Value::Array(elems) => ValueV::Array(seq_view(elems@)),
        Value::Dict(entries) => ValueV::Dict(pairs_view(entries@)),
    }
}

/// The mathematical form of a sequence of exec values.
pub open spec fn seq_view(s: Seq<Value>) -> Seq<ValueV>
    decreases s,
{
    if s.len() == 0 {
        Seq::empty()
    } else {
        seq![value_view(s[0])] + seq_view(s.drop_first())
    }
}

/// The mathematical form of a sequence of exec key/value pairs.
pub open spec fn pairs_view(s: Seq<(Value, Value)>) -> Seq<(ValueV, ValueV)>
    decreases s,
{
    if s.len() == 0 {
        Seq::empty()
    } else {
        seq![(value_view(s[0].0), value_view(s[0].1))] + pairs_view(s.drop_first())
    }
}

impl View for Value {
    type V = ValueV;

    open spec fn view(&self) -> ValueV {
        value_view(*self)
    }
}

/// `seq_view` maps `value_view` over the sequence element by element.
pub proof fn lemma_seq_view_index(s: Seq<Value>)
    ensures
        seq_view(s).len() == s.len(),
        forall|i: int| 0 <= i < s.len() ==> seq_view(s)[i] == value_view(s[i]),
    decreases s.len(),
{
    if s.len() > 0 {
        lemma_seq_view_index(s.drop_first());
        assert forall|i: int| 0 <= i < s.len() implies seq_view(s)[i] == value_view(s[i]) by {
            if i > 0 {
                assert(s.drop_first()[i - 1] == s[i]);
            }
        }
    }
}

/// `pairs_view` maps `value_view` over both halves of each pair.
pub proof fn lemma_pairs_view_index(s: Seq<(Value, Value)>)
    ensures
        pairs_view(s).len() == s.len(),
        forall|i: int| 0 <= i < s.len() ==> pairs_view(s)[i] == (
            value_view(s[i].0),
            value_view(s[i].1),
        ),
    decreases s.len(),
{
    if s.len() > 0 {
        lemma_pairs_view_index(s.drop_first());
        assert forall|i: int| 0 <= i < s.len() implies pairs_view(s)[i] == (
            value_view(s[i].0),
            value_view(s[i].1),
        ) by {
            if i > 0 {
                assert(s.drop_first()[i - 1] == s[i]);
            }
        }
    }
}

/// A value that the wire format can represent and recover: text of fewer
/// than 2^30 characters (so its byte form fits the format's 32-bit length
/// field), arrays and maps of fewer than 2^32 entries, and signed integers
/// only where they are negative — a non-negative number travels as an
/// unsigned integer, so only that split reads back as it was written.
pub open spec fn wf_value(v: ValueV) -> bool
    decreases v,
{
    match v {
        ValueV::Nil => true,
        ValueV::Bool(_) => true,
        ValueV::UInt(_) => true,
        ValueV::Int(n) => n < 0,
        ValueV::Str(s) => s.len() < 0x4000_0000,
        ValueV::Array(elems) => elems.len() < 0x1_0000_0000 && wf_elems(elems),
        ValueV::Dict(entries) => entries.len() < 0x1_0000_0000 && wf_pairs(entries),
    }
}

/// Every element of the sequence is well formed.
pub open spec fn wf_elems(s: Seq<ValueV>) -> bool
    decreases s,
{
    if s.len() == 0 {
        true
    } else {
        wf_value(s[0]) && wf_elems(s.drop_first())
    }
}

/// Both halves of every pair in the run are well formed.
pub open spec fn wf_pairs(s: Seq<(ValueV, ValueV)>) -> bool
    decreases s,
{
    if s.len() == 0 {
        true
    } else {
        wf_value(s[0].0) && wf_value(s[0].1) && wf_pairs(s.drop_first())
    }
}

/// `wf_elems` holds exactly when each element is well formed.
pub proof fn lemma_wf_elems_index(s: Seq<ValueV>)
    ensures
        wf_elems(s) <==> (forall|i: int| 0 <= i < s.len() ==> wf_value(s[i])),
    decreases s.len(),
{
    if s.len() > 0 {
        lemma_wf_elems_index(s.drop_first());
        assert(forall|i: int| 0 < i < s.len() ==> s.drop_first()[i - 1] == s[i]);
        if wf_value(s[0]) && wf_elems(s.drop_first()) {
            assert forall|i: int| 0 <= i < s.len() implies wf_value(s[i]) by {
                if i > 0 {
                    assert(s.drop_first()[i - 1] == s[i]);
                }
            }
        }
    }
}

/// A pair of a well-formed run of pairs is itself well formed, key and
/// value both.
pub proof fn lemma_wf_pairs_member(s: Seq<(ValueV, ValueV)>, i: int)
    requires
        wf_pairs(s),
        0 <= i < s.len(),
    ensures
        wf_value(s[i].0),
        wf_value(s[i].1),
    decreases s.len(),
{
    if i > 0 {
        lemma_wf_pairs_member(s.drop_first(), i - 1);
        assert(s.drop_first()[i - 1] == s[i]);
    }
}

/// A member of a well-formed run is itself well formed.
pub proof fn lemma_wf_elems_member(s: Seq<ValueV>, i: int)
    requires
        wf_elems(s),
        0 <= i < s.len(),
    ensures
        wf_value(s[i]),
    decreases s.len(),
{
    if i > 0 {
        lemma_wf_elems_member(s.drop_first(), i - 1);
        assert(s.drop_first()[i - 1] == s[i]);
    }
}

impl Value {
    /// Whether the wire format can carry this value: the executable form of
    /// `wf_value`.
    pub fn is_encodable(&self) -> (b: bool)
        ensures
            b == wf_value(self@),
        decreases *self,
    {
        match self {
            Value::Nil => true,
            Value::Bool(_) => true,
            Value::UInt(_) => true,
            Value::Int(n) => *n < 0,
            Value::Str(s) => s.as_str().unicode_len() < 0x4000_0000,
            Value::Array(elems) => {
                proof {
                    lemma_seq_view_index(elems@);
                }
                (elems.len() as u64) < 0x1_0000_0000 && all_encodable(elems)
            },
            Value::Dict(entries) => {
                proof {
                    lemma_pairs_view_index(entries@);
                }
                (entries.len() as u64) < 0x1_0000_0000 && all_pairs_encodable(entries)
            },
        }
    }
}

/// Whether every element of the run is encodable: the executable form of
/// `wf_elems`.
pub fn all_encodable(elems: &Vec<Value>) -> (b: bool)
    ensures
        b == wf_elems(seq_view(elems@)),
    decreases elems@,
{
    let ghost vs = seq_view(elems@);
    proof {
        lemma_seq_view_index(elems@);
        lemma_wf_elems_index(vs);
    }
    let mut i: usize = 0;
    while i < elems.len()
        invariant
            i <= elems@.len(),
            vs == seq_view(elems@),
            vs.len() == elems@.len(),
            forall|k: int| 0 <= k < elems@.len() ==> vs[k] == value_view(elems@[k]),
            forall|k: int| 0 <= k < i ==> wf_value(vs[k]),
        decreases elems@.len() - i,
    {
        if !elems[i].is_encodable() {
            proof {
                if wf_elems(vs) {
                    lemma_wf_elems_member(vs, i as int);
                }
            }
            return false;
        }
        i = i + 1;
    }
    true
}

/// Whether both halves of every pair are encodable: the executable form of
/// `wf_pairs`.
pub fn all_pairs_encodable(entries: &Vec<(Value, Value)>) -> (b: bool)
    ensures
        b == wf_pairs(pairs_view(entries@)),
    decreases entries@,
{
    let ghost ps = pairs_view(entries@);
    proof {
        lemma_pairs_view_index(entries@);
        lemma_wf_pairs_index(ps);
    }
    let mut i: usize = 0;
    while i < entries.len()
        invariant
            i <= entries@.len(),
            ps == pairs_view(entries@),
            ps.len() == entries@.len(),
            forall|k: int| 0 <= k < entries@.len() ==> ps[k] == (
                value_view(entries@[k].0),
                value_view(entries@[k].1),
            ),
            forall|k: int| 0 <= k < i ==> wf_value(ps[k].0) && wf_value(ps[k].1),
        decreases entries@.len() - i,
    {
        if !entries[i].0.is_encodable() || !entries[i].1.is_encodable() {
            proof {
                if wf_pairs(ps) {
                    lemma_wf_pairs_member(ps, i as int);
                }
            }
            return false;
        }
        i = i + 1;
    }
    true
}

/// `wf_pairs` holds exactly when each pair is well formed on both sides.
pub proof fn lemma_wf_pairs_index(s: Seq<(ValueV, ValueV)>)
    ensures
        wf_pairs(s) <==> (forall|i: int| 0 <= i < s.len() ==> wf_value(s[i].0) && wf_value(
            s[i].1,
        )),
    decreases s.len(),
{
    if s.len() > 0 {
        lemma_wf_pairs_index(s.drop_first());
        assert(forall|i: int| 0 < i < s.len() ==> s.drop_first()[i - 1] == s[i]);
        if wf_value(s[0].0) && wf_value(s[0].1) && wf_pairs(s.drop_first()) {
            assert forall|i: int| 0 <= i < s.len() implies wf_value(s[i].0) && wf_value(
                s[i].1,
            ) by {
                if i > 0 {
                    assert(s.drop_first()[i - 1] == s[i]);
                }
            }
        }
    }
}

} // verus!
