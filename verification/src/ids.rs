//! The call identifier generator.
//!
//! Identifiers count up from zero; when the counter has handed out the
//! largest representable identifier it starts over at zero rather than
//! overflowing.  Within one wraparound period every emitted identifier is
//! distinct — the law `lemma_ids_distinct` below — which is what lets the
//! correlation table key in-flight calls by identifier alone.

use vstd::prelude::*;
use vstd::arithmetic::div_mod::{
    lemma_fundamental_div_mod, lemma_fundamental_div_mod_converse,
    lemma_mod_division_less_than_divisor,
};

verus! {

/// The largest identifier the generator hands out.
pub const MAX_ID: i32 = 0x7fff_ffff;

/// How many identifiers exist: the generator's counting period.
pub const ID_PERIOD: u64 = 0x8000_0000;

/// What one emission does to the counter: count up, or start over after the
/// largest identifier.
pub open spec fn step_counter(c: int) -> int {
    if c == MAX_ID {
        0
    } else {
        c + 1
    }
}

/// The counter value after `k` emissions from `start`.
pub open spec fn counter_after(start: int, k: nat) -> int
    decreases k,
{
    if k == 0 {
        start
    } else {
        step_counter(counter_after(start, (k - 1) as nat))
    }
}

/// The identifier the `k`-th emission returns (counting from zero) when the
/// counter starts at `start`.
pub open spec fn nth_id(start: int, k: nat) -> int {
    (start + k) % (ID_PERIOD as int)
}

/// Produces the call identifiers, one per emission.
pub struct IdGenerator {
    counter: i32,
}

impl IdGenerator {
    /// The counter's current value: the identifier the next emission
    /// returns.
    pub closed spec fn current(self) -> int {
        self.counter as int
    }

    /// The counter stays inside the identifier range, so every identifier
    /// it hands out is non-negative and the wire's widening to `u64` and
    /// narrowing back are lossless.
    pub open spec fn wf(self) -> bool {
        0 <= self.current() <= MAX_ID as int
    }

    /// A fresh generator, counting from zero.
    pub fn new() -> (g: IdGenerator)
        ensures
            g.wf(),
            g.current() == 0,
    {
        IdGenerator { counter: 0 }
    }

    /// A generator counting from `start`; lets a session resume, and lets a
    /// test reach the wraparound point directly.
    pub fn starting_at(start: i32) -> (g: IdGenerator)
        requires
            0 <= start,
        ensures
            g.wf(),
            g.current() == start,
    {
        IdGenerator { counter: start }
    }

    /// Emit the next identifier: the counter's current value, after which
    /// the counter steps — past the largest identifier it starts over at
    /// zero, the wraparound law.
    pub fn next_id(&mut self) -> (id: i32)
        requires
            old(self).wf(),
        ensures
            final(self).wf(),
            0 <= id,
            id == old(self).current(),
            final(self).current() == step_counter(old(self).current()),
            old(self).current() == MAX_ID ==> final(self).current() == 0,
    {
        let id = self.counter;
        if self.counter == MAX_ID {
            self.counter = 0;
        } else {
            self.counter = self.counter + 1;
        }
        id
    }
}

/// Stepping once and then `k` more times is stepping `k + 1` times: the
/// induction step for walking the counter along a run of calls.
pub proof fn lemma_counter_after_step(start: int, k: nat)
    ensures
        counter_after(step_counter(start), k) == counter_after(start, (k + 1) as nat),
    decreases k,
{
    reveal_with_fuel(counter_after, 2);
    if k > 0 {
        lemma_counter_after_step(start, (k - 1) as nat);
    }
}

/// Stepping the counter `k` times from `start` lands on `start + k`, reduced
/// by the counting period.
pub proof fn lemma_counter_after_mod(start: int, k: nat)
    requires
        0 <= start < ID_PERIOD,
    ensures
        counter_after(start, k) == nth_id(start, k),
        0 <= counter_after(start, k) < ID_PERIOD,
    decreases k,
{
    let m = ID_PERIOD as int;
    if k == 0 {
        lemma_fundamental_div_mod_converse(start, m, 0, start);
    } else {
        lemma_counter_after_mod(start, (k - 1) as nat);
        let prev = start + k - 1;
        let c = counter_after(start, (k - 1) as nat);
        lemma_fundamental_div_mod(prev, m);
        let q = prev / m;
        if c == MAX_ID {
            lemma_fundamental_div_mod_converse(start + k, m, q + 1, 0);
        } else {
            lemma_fundamental_div_mod_converse(start + k, m, q, c + 1);
        }
    }
}

/// Law: identifiers are unique among concurrently outstanding calls — any
/// two emissions fewer than one counting period apart return distinct
/// identifiers, so a run of up to 2^31 calls never sees a repeat.
pub proof fn lemma_ids_distinct(start: int, i: nat, j: nat)
    requires
        0 <= start < ID_PERIOD,
        i < j,
        j - i < ID_PERIOD,
    ensures
        nth_id(start, i) != nth_id(start, j),
        counter_after(start, i) != counter_after(start, j),
{
    let m = ID_PERIOD as int;
    lemma_counter_after_mod(start, i);
    lemma_counter_after_mod(start, j);
    if nth_id(start, i) == nth_id(start, j) {
        lemma_fundamental_div_mod(start + i, m);
        lemma_fundamental_div_mod(start + j, m);
        lemma_mod_division_less_than_divisor(start + i, m);
        lemma_mod_division_less_than_divisor(start + j, m);
        let qi = (start + i) / m;
        let qj = (start + j) / m;
        assert(j - i == m * (qj - qi));
        assert(false) by (nonlinear_arith)
            requires
                j - i == m * (qj - qi),
                0 < j - i < m,
        {}
    }
}

} // verus!
