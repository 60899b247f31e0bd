//! The client core: the decisions behind the call entry points.
//!
//! Everything here is pure bookkeeping over the identifier generator and the
//! correlation table; the surrounding runtime supplies the channels, the
//! transport and the tasks.  `async_call` assigns the next identifier,
//! registers the caller's result slot and hands back the request to enqueue;
//! `notify` builds a fire-and-forget notification and touches no state;
//! `accept` is what a per-call reader task does with the one message it
//! reads back.

use vstd::prelude::*;
use crate::ids::{IdGenerator, step_counter, counter_after, lemma_ids_distinct, ID_PERIOD, MAX_ID};
use crate::message::{Message, MessageV, Request, Notification, result_view};
use crate::table::CorrelationTable;
use crate::value::Value;
use crate::value::seq_view;

verus! {

/// What became of one message handed to `accept`.
pub enum Delivery<T> {
    /// The message answered the outstanding call whose slot this is:
    /// deliver the outcome through it.
    Resolved(T, Result<Value, Value>),
    /// A response no call is waiting for: dropped, harmless.
    Unsolicited,
    /// A request or notification arrived where only a response is valid.
    ProtocolViolation,
}

/// The verified heart of a client: the identifier generator and the
/// correlation table, advanced together.
pub struct ClientCore<T> {
    ids: IdGenerator,
    pending: CorrelationTable<T>,
}

impl<T> ClientCore<T> {
    /// The outstanding calls: identifier to result slot.
    pub closed spec fn pending_view(self) -> Map<i32, T> {
        self.pending@
    }

    /// The identifier the next call will receive.
    pub closed spec fn next_counter(self) -> int {
        self.ids.current()
    }

    /// The generator's counter stays inside the identifier range.
    pub closed spec fn wf(self) -> bool {
        self.ids.wf()
    }

    /// A fresh core: counting from zero, nothing outstanding.
    pub fn new() -> (c: ClientCore<T>)
        ensures
            c.wf(),
            c.next_counter() == 0,
            c.pending_view() == Map::<i32, T>::empty(),
    {
        ClientCore { ids: IdGenerator::new(), pending: CorrelationTable::new() }
    }

    /// Begin a call: assign the next identifier, register the caller's
    /// result slot under it, and hand back the request to enqueue with the
    /// dispatcher.  The call is refused — the slot comes back untouched —
    /// exactly when that identifier is somehow still outstanding: the
    /// counter wrapped all the way around into a live call, and refusing is
    /// what keeps two calls from ever sharing an identifier.
    pub fn async_call(&mut self, method: String, params: Vec<Value>, slot: T) -> (r: Result<
        Request,
        T,
    >)
        requires
            old(self).wf(),
        ensures
            final(self).wf(),
            final(self).next_counter() == step_counter(old(self).next_counter()),
            match r {
                Ok(req) => {
                    &&& req@.id as int == old(self).next_counter()
                    &&& 0 <= req@.id
                    &&& req@.method == method@
                    &&& req@.params == seq_view(params@)
                    &&& !old(self).pending_view().contains_key(req@.id)
                    &&& final(self).pending_view() == old(self).pending_view().insert(
                        req@.id,
                        slot,
                    )
                },
                Err(s) => {
                    &&& s == slot
                    &&& old(self).pending_view().contains_key(
                        old(self).next_counter() as i32,
                    )
                    &&& final(self).pending_view() == old(self).pending_view()
                },
            },
    {
        let id = self.ids.next_id();
        if self.pending.contains(id) {
            return Err(slot);
        }
        self.pending.register(id, slot);
        Ok(Request { id, method, params })
    }

    /// Build a fire-and-forget notification.  No identifier is consumed and
    /// no correlation entry is made: the borrow is shared, so the core
    /// cannot change.
    pub fn notify(&self, method: String, params: Vec<Value>) -> (n: Notification)
        ensures
            n@.method == method@,
            n@.params == seq_view(params@),
    {
        Notification { method, params }
    }

    /// A well-formed core's next identifier sits inside the identifier
    /// range, so the narrowing in `async_call`'s refusal clause names the
    /// very identifier that was assigned.
    pub proof fn lemma_counter_in_range(self)
        requires
            self.wf(),
        ensures
            0 <= self.next_counter() <= MAX_ID as int,
    {
    }

    /// Law: no two simultaneously outstanding calls share an identifier.
    /// `async_call` assigns `next_counter()` and steps the counter, so the
    /// `k`-th future call on this core is assigned
    /// `counter_after(self.next_counter(), k)` (see
    /// `ids::lemma_counter_after_step`), and any two of those assignments
    /// fewer than one counting period apart are distinct.
    pub proof fn lemma_assigned_ids_distinct(self, i: nat, j: nat)
        requires
            self.wf(),
            i < j,
            j - i < ID_PERIOD,
        ensures
            counter_after(self.next_counter(), i) != counter_after(self.next_counter(), j),
    {
        lemma_ids_distinct(self.next_counter(), i, j);
    }

    /// What a per-call reader task does with the one message it decoded: a
    /// response to an outstanding call takes that call's slot — exactly
    /// once — for the outcome to be delivered through; a response nobody is
    /// waiting for is dropped and disturbs no pending call; anything other
    /// than a response in that position is a protocol violation, and the
    /// table is left alone.
    pub fn accept(&mut self, m: Message) -> (d: Delivery<T>)
        requires
            old(self).wf(),
        ensures
            final(self).wf(),
            final(self).next_counter() == old(self).next_counter(),
            match m@ {
                MessageV::Response(rs) => {
                    if old(self).pending_view().contains_key(rs.id) {
                        &&& d matches Delivery::Resolved(slot, outcome)
                            && slot == old(self).pending_view()[rs.id]
                            && result_view(outcome) == rs.result
                        &&& final(self).pending_view() == old(self).pending_view().remove(rs.id)
                    } else {
                        &&& d is Unsolicited
                        &&& final(self).pending_view() == old(self).pending_view()
                    }
                },
                _ => d is ProtocolViolation && final(self).pending_view() == old(
                    self,
                ).pending_view(),
            },
    {
        match m {
            Message::Response(resp) => {
                match self.pending.resolve(resp.id) {
                    Some(slot) => Delivery::Resolved(slot, resp.result),
                    None => Delivery::Unsolicited,
                }
            }
            _ => Delivery::ProtocolViolation,
        }
    }
}

} // verus!
