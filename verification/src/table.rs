//! The correlation table: in-flight call identifier to result slot.
//!
//! The slot type is whatever will deliver the call's eventual result — in a
//! running client, the sending half of a single-use channel.  The table is
//! the one piece of state shared between the caller side, which registers,
//! and the per-call reader tasks, which resolve; callers wrap it in whatever
//! lock their runtime provides and rely on these contracts for what each
//! operation does to the mapping.

use vstd::prelude::*;
use std::collections::HashMap;

verus! {

broadcast use vstd::std_specs::hash::group_hash_axioms;

/// Maps each outstanding call identifier to the slot that will deliver its
/// result.
pub struct CorrelationTable<T> {
    entries: HashMap<i32, T>,
}

impl<T> CorrelationTable<T> {
    /// An empty table.
    pub fn new() -> (t: CorrelationTable<T>)
        ensures
            t@ == Map::<i32, T>::empty(),
    {
        CorrelationTable { entries: HashMap::new() }
    }

    /// How many calls are outstanding.
    pub fn len(&self) -> (n: usize)
        ensures
            n == self@.len(),
    {
        self.entries.len()
    }

    /// Whether a call with this identifier is outstanding.
    pub fn contains(&self, id: i32) -> (present: bool)
        ensures
            present == self@.contains_key(id),
    {
        self.entries.contains_key(&id)
    }

    /// Record a fresh in-flight call: its identifier now maps to `slot`.
    /// Registering an identifier that is already outstanding is refused and
    /// leaves the table unchanged — an identifier may be reused only once
    /// its earlier call has been resolved.
    pub fn register(&mut self, id: i32, slot: T) -> (fresh: bool)
        ensures
            fresh == !old(self)@.contains_key(id),
            fresh ==> final(self)@ == old(self)@.insert(id, slot),
            !fresh ==> final(self)@ == old(self)@,
    {
        if self.entries.contains_key(&id) {
            false
        } else {
            self.entries.insert(id, slot);
            true
        }
    }

    /// Take the slot of the call this identifier names, removing its entry:
    /// exactly the registered slot comes back, exactly once.  An identifier
    /// with no entry — an unsolicited or duplicate response — changes
    /// nothing and returns nothing.
    pub fn resolve(&mut self, id: i32) -> (slot: Option<T>)
        ensures
            match slot {
                Some(t) => old(self)@.contains_key(id) && t == old(self)@[id] && final(self)@
                    == old(self)@.remove(id),
                None => !old(self)@.contains_key(id) && final(self)@ == old(self)@,
            },
    {
        self.entries.remove(&id)
    }
}

impl<T> View for CorrelationTable<T> {
    type V = Map<i32, T>;

    closed spec fn view(&self) -> Map<i32, T> {
        self.entries@
    }
}

/// Law: resolving one call never disturbs another.  With two distinct
/// identifiers both outstanding, removing the second still leaves the first
/// mapped to its own slot — results are delivered to the call that asked,
/// never swapped, whatever order the responses arrive in.
pub proof fn lemma_resolution_independent<T>(m: Map<i32, T>, a: i32, b: i32)
    requires
        a != b,
        m.contains_key(a),
        m.contains_key(b),
    ensures
        m.remove(b).contains_key(a),
        m.remove(b)[a] == m[a],
        m.remove(a).contains_key(b),
        m.remove(a)[b] == m[b],
{
}

} // verus!
