//! Counters of the search and the timing of its iterations.
//!
//! The counters are advisory: nothing in the search reads them. They wrap
//! around at the width of the machine word, so what they account for is
//! stated up to that wrap.

use vstd::prelude::*;
use vstd::arithmetic::div_mod::{lemma_mod_add_multiples_vanish, lemma_mod_sub_multiples_vanish};

verus! {

/// Seconds between two progress reports.
pub const PRINT_INTERVAL: u64 = 1;

/// Nanoseconds in a second.
pub const NANOS_PER_SEC: u64 = 1_000_000_000;

/// What the search counts.
#[derive(Copy, Clone, Debug)]
pub struct Counters {
    /// Chunks that were allocated.
    pub chunk_alloc: usize,
    /// Chunks that were given back to the system.
    pub chunk_dealloc: usize,
    /// Pairs that were applied to a state.
    pub pair_apply: usize,
    /// Pairs that were applied and led to a new state.
    pub pair_apply_success: usize,
}

/// The sum of `x` and `y` as a counter holds it.
pub open spec fn wrapped_sum(x: usize, y: usize) -> usize {
    if x + y > usize::MAX {
        (x + y - usize::MAX - 1) as usize
    } else {
        (x + y) as usize
    }
}

/// The counters account for `live` chunks: allocated less deallocated is
/// `live`, up to the wrap of the counters.
pub open spec fn accounts_for(c: Counters, live: int) -> bool {
    (c.chunk_alloc - c.chunk_dealloc - live) % (usize::MAX + 1) == 0
}

impl Counters {
    /// Counters that have counted nothing.
    pub fn new() -> (c: Counters)
        ensures
            c.chunk_alloc == 0,
            c.chunk_dealloc == 0,
            c.pair_apply == 0,
            c.pair_apply_success == 0,
            accounts_for(c, 0),
    {
        proof {
            vstd::arithmetic::div_mod::lemma_small_mod(0, (usize::MAX + 1) as nat);
        }
        Counters { chunk_alloc: 0, chunk_dealloc: 0, pair_apply: 0, pair_apply_success: 0 }
    }
}

impl Counters {
    /// Adds what `other` has counted.
    pub fn merge(&mut self, other: Counters)
        ensures
            *final(self) == (Counters {
                chunk_alloc: wrapped_sum(old(self).chunk_alloc, other.chunk_alloc),
                chunk_dealloc: wrapped_sum(old(self).chunk_dealloc, other.chunk_dealloc),
                pair_apply: wrapped_sum(old(self).pair_apply, other.pair_apply),
                pair_apply_success: wrapped_sum(
                    old(self).pair_apply_success,
                    other.pair_apply_success,
                ),
            }),
            forall|a: int, b: int|
                #![trigger accounts_for(*old(self), a), accounts_for(other, b)]
                accounts_for(*old(self), a) && accounts_for(other, b) ==> accounts_for(
                    *final(self),
                    a + b,
                ),
    {
        let ghost before = *self;
        self.chunk_alloc = self.chunk_alloc.wrapping_add(other.chunk_alloc);
        self.chunk_dealloc = self.chunk_dealloc.wrapping_add(other.chunk_dealloc);
        self.pair_apply = self.pair_apply.wrapping_add(other.pair_apply);
        self.pair_apply_success = self.pair_apply_success.wrapping_add(other.pair_apply_success);
        proof {
            assert forall|a: int, b: int|
                #![trigger accounts_for(before, a), accounts_for(other, b)]
                accounts_for(before, a) && accounts_for(other, b) implies accounts_for(
                *self,
                a + b,
            ) by {
                let m = usize::MAX + 1;
                let x = before.chunk_alloc - before.chunk_dealloc - a;
                let y = other.chunk_alloc - other.chunk_dealloc - b;
                let z = self.chunk_alloc - self.chunk_dealloc - (a + b);
                vstd::arithmetic::div_mod::lemma_add_mod_noop(x, y, m);
                vstd::arithmetic::div_mod::lemma_small_mod(0, m as nat);
                assert(z == x + y || z == x + y - m || z == x + y + m);
                lemma_mod_add_multiples_vanish(x + y, m);
                lemma_mod_sub_multiples_vanish(x + y, m);
                assert(x + y - m == -m + (x + y));
                assert(x + y + m == m + (x + y));
            }
        }
    }
}

/// Counts one allocated chunk.
pub fn chunk_allocated(c: &mut Counters)
    ensures
        *final(c) == (Counters { chunk_alloc: wrapped_sum(old(c).chunk_alloc, 1), ..*old(c) }),
{
    c.chunk_alloc = c.chunk_alloc.wrapping_add(1);
}

/// Counts one chunk given back to the system.
pub fn chunk_deallocated(c: &mut Counters)
    ensures
        *final(c) == (Counters { chunk_dealloc: wrapped_sum(old(c).chunk_dealloc, 1), ..*old(c) }),
{
    c.chunk_dealloc = c.chunk_dealloc.wrapping_add(1);
}

/// Counts `cnt` applied pairs.
pub fn pairs_applied(c: &mut Counters, cnt: usize)
    ensures
        *final(c) == (Counters { pair_apply: wrapped_sum(old(c).pair_apply, cnt), ..*old(c) }),
{
    c.pair_apply = c.pair_apply.wrapping_add(cnt);
}

/// Counts `cnt` pairs that were applied and led to a new state.
pub fn pairs_successfully_applied(c: &mut Counters, cnt: usize)
    ensures
        *final(c) == (Counters {
            pair_apply_success: wrapped_sum(old(c).pair_apply_success, cnt),
            ..*old(c)
        }),
{
    c.pair_apply_success = c.pair_apply_success.wrapping_add(cnt);
}

/// Counting `a` more allocations and `d` more deallocations keeps the
/// account, with `a - d` more chunks alive.
pub proof fn lemma_counted(before: Counters, after: Counters, live: int, a: usize, d: usize)
    requires
        accounts_for(before, live),
        after.chunk_alloc == wrapped_sum(before.chunk_alloc, a),
        after.chunk_dealloc == wrapped_sum(before.chunk_dealloc, d),
    ensures
        accounts_for(after, live + a - d),
{
    let m = usize::MAX + 1;
    let x = before.chunk_alloc - before.chunk_dealloc - live;
    let y = after.chunk_alloc - after.chunk_dealloc - (live + a - d);
    assert(y == x || y == x - m || y == x + m);
    lemma_mod_add_multiples_vanish(x, m);
    lemma_mod_sub_multiples_vanish(x, m);
    assert(x - m == -m + x);
    assert(x + m == m + x);
}

/// Counters that account for no chunk show as many deallocations as
/// allocations.
pub proof fn lemma_all_returned(c: Counters)
    requires
        accounts_for(c, 0),
    ensures
        c.chunk_alloc == c.chunk_dealloc,
{
    let m = usize::MAX + 1;
    let x = c.chunk_alloc - c.chunk_dealloc;
    if x > 0 {
        vstd::arithmetic::div_mod::lemma_small_mod(x as nat, m as nat);
    } else if x < 0 {
        lemma_mod_add_multiples_vanish(x, m);
        vstd::arithmetic::div_mod::lemma_small_mod((x + m) as nat, m as nat);
        assert(m + x == x + m);
    }
}

/// What a counter that stood at `start` shows after `n` more counts.
pub open spec fn counted(start: usize, n: int) -> usize {
    ((start + n) % (usize::MAX + 1)) as usize
}

/// A counter that has counted nothing more shows what it showed.
pub proof fn lemma_counted_zero(start: usize)
    ensures
        counted(start, 0) == start,
{
    vstd::arithmetic::div_mod::lemma_small_mod(start as nat, (usize::MAX + 1) as nat);
}

/// Counting `k` more on a counter that has counted `n` shows `n + k` counts.
pub proof fn lemma_counted_more(start: usize, n: int, k: usize)
    requires
        n >= 0,
    ensures
        wrapped_sum(counted(start, n), k) == counted(start, n + k),
{
    let m = usize::MAX + 1;
    let r = (start + n) % m;
    vstd::arithmetic::div_mod::lemma_add_mod_noop_right(k as int, start + n, m);
    assert(k + (start + n) == start + (n + k));
    if r + k < m {
        vstd::arithmetic::div_mod::lemma_small_mod((r + k) as nat, m as nat);
    } else {
        lemma_mod_sub_multiples_vanish(r + k, m);
        vstd::arithmetic::div_mod::lemma_small_mod((r + k - m) as nat, m as nat);
        assert(-m + (r + k) == r + k - m);
    }
}

/// Counts add up.
pub proof fn lemma_counted_chain(start: usize, a: int, b: int)
    requires
        a >= 0,
        b >= 0,
    ensures
        counted(counted(start, a), b) == counted(start, a + b),
{
    let m = usize::MAX + 1;
    vstd::arithmetic::div_mod::lemma_add_mod_noop_right(b, start + a, m);
    assert(b + (start + a) == start + (a + b));
    assert(counted(start, a) + b == b + (start + a) % m);
}

/// The counters `c1`, with `n1` chunks alive, are in step with the counters
/// `c0` with `n0` chunks alive: nothing was deallocated in between, and what
/// was allocated is what was added to the chunks alive.
pub open spec fn in_step(c0: Counters, n0: int, c1: Counters, n1: int) -> bool {
    &&& c1.chunk_dealloc == c0.chunk_dealloc
    &&& (c1.chunk_alloc - n1 - (c0.chunk_alloc - n0)) % (usize::MAX + 1) == 0
}

/// Counters are in step with themselves.
pub proof fn lemma_in_step_same(c: Counters, n: int)
    ensures
        in_step(c, n, c, n),
{
    vstd::arithmetic::div_mod::lemma_small_mod(0, (usize::MAX + 1) as nat);
}

/// Being in step carries over.
pub proof fn lemma_in_step_chain(c0: Counters, n0: int, c1: Counters, n1: int, c2: Counters, n2: int)
    requires
        in_step(c0, n0, c1, n1),
        in_step(c1, n1, c2, n2),
    ensures
        in_step(c0, n0, c2, n2),
{
    let m = usize::MAX + 1;
    let x = c1.chunk_alloc - n1 - (c0.chunk_alloc - n0);
    let y = c2.chunk_alloc - n2 - (c1.chunk_alloc - n1);
    vstd::arithmetic::div_mod::lemma_add_mod_noop(x, y, m);
    vstd::arithmetic::div_mod::lemma_small_mod(0, m as nat);
    assert(x + y == c2.chunk_alloc - n2 - (c0.chunk_alloc - n0));
}

/// Counters that are in step with counters that account for their chunks
/// account for theirs.
pub proof fn lemma_in_step_accounts(c0: Counters, n0: int, c1: Counters, n1: int, held: int)
    requires
        in_step(c0, n0, c1, n1),
        accounts_for(c0, n0 + held),
    ensures
        accounts_for(c1, n1 + held),
{
    let m = usize::MAX + 1;
    let x = c1.chunk_alloc - n1 - (c0.chunk_alloc - n0);
    let y = c0.chunk_alloc - c0.chunk_dealloc - (n0 + held);
    vstd::arithmetic::div_mod::lemma_add_mod_noop(x, y, m);
    vstd::arithmetic::div_mod::lemma_small_mod(0, m as nat);
    assert(x + y == c1.chunk_alloc - c1.chunk_dealloc - (n1 + held));
}

/// One more chunk allocated and one more alive keeps counters in step; so
/// does a chunk that changes hands.
pub proof fn lemma_in_step_alloc(c0: Counters, n0: int, c1: Counters)
    requires
        c1 == (Counters { chunk_alloc: wrapped_sum(c0.chunk_alloc, 1), ..c0 }),
    ensures
        in_step(c0, n0, c1, n0 + 1),
{
    let m = usize::MAX + 1;
    let x = c1.chunk_alloc - (n0 + 1) - (c0.chunk_alloc - n0);
    assert(x == 0 || x == -m);
    vstd::arithmetic::div_mod::lemma_small_mod(0, m as nat);
    lemma_mod_sub_multiples_vanish(0, m);
    assert(-m + 0 == -m);
}

/// The time from `start` to `stop` in nanoseconds, both read off a clock
/// of 64 bits that wraps around; as a signed number of 64 bits.
pub open spec fn spec_span(start: u64, stop: u64) -> int {
    let e = if stop >= start {
        stop - start
    } else {
        stop - start + 0x1_0000_0000_0000_0000
    };
    if e <= i64::MAX {
        e
    } else {
        e - 0x1_0000_0000_0000_0000
    }
}

/// The time from `start` to `stop` in nanoseconds.
pub fn span(start: u64, stop: u64) -> (d: i64)
    ensures
        d == spec_span(start, stop),
{
    let e: u64 = stop.wrapping_sub(start);
    if e <= 0x7fff_ffff_ffff_ffff {
        e as i64
    } else {
        let back: u64 = u64::MAX - e;
        -(back as i64) - 1
    }
}

/// The sum of the spans.
pub open spec fn spec_total(timings: Seq<i64>) -> int
    decreases timings.len(),
{
    if timings.len() == 0 {
        0
    } else {
        spec_total(timings.drop_last()) + timings.last()
    }
}

/// The timing of the iterations of a search.
pub struct IterStats {
    timings: Vec<i64>,
    iter_cnt: u32,
    last_print: u64,
}

/// The clock of the machine, in nanoseconds since some moment.
///
/// This is `time::precise_time_ns`. Nothing is claimed of what it returns.
#[verifier::external_body]
pub(crate) fn precise_now() -> u64 {
    time::precise_time_ns()
}

impl IterStats {
    /// The time that each iteration took, in nanoseconds.
    pub closed spec fn spec_timings(&self) -> Seq<i64> {
        self.timings@
    }

    /// Number of iterations that were started, modulo 2^32.
    pub closed spec fn spec_iter_cnt(&self) -> u32 {
        self.iter_cnt
    }

    /// When progress was last reported.
    pub closed spec fn spec_last_print(&self) -> u64 {
        self.last_print
    }

    /// Statistics of a search that starts at `now`.
    pub fn starting_at(now: u64) -> (s: IterStats)
        ensures
            s.spec_timings().len() == 0,
            s.spec_iter_cnt() == 0,
            s.spec_last_print() == now,
    {
        IterStats { timings: Vec::new(), iter_cnt: 0, last_print: now }
    }

    /// Statistics of a search that starts now.
    pub fn new() -> (s: IterStats)
        ensures
            s.spec_timings().len() == 0,
            s.spec_iter_cnt() == 0,
    {
        IterStats::starting_at(precise_now())
    }

    /// Counts an iteration that starts at `start`, and says whether
    /// progress is to be reported: it is if the last report is at least
    /// `PRINT_INTERVAL` seconds back, and `start` then counts as the
    /// moment of the last report.
    pub fn start(&mut self, start: u64) -> (report: bool)
        ensures
            report == (spec_span(old(self).spec_last_print(), start) >= PRINT_INTERVAL
                * NANOS_PER_SEC),
            final(self).spec_timings() == old(self).spec_timings(),
            final(self).spec_iter_cnt() == (if old(self).spec_iter_cnt() == u32::MAX {
                0
            } else {
                old(self).spec_iter_cnt() + 1
            }),
            final(self).spec_last_print() == (if report {
                start
            } else {
                old(self).spec_last_print()
            }),
    {
        self.iter_cnt = self.iter_cnt.wrapping_add(1);

        if span(self.last_print, start) >= 1_000_000_000 {
            self.last_print = start;
            true
        } else {
            false
        }
    }

    /// Notes the time of an iteration that ran from `start` to `stop`.
    pub fn stop(&mut self, start: u64, stop: u64)
        ensures
            final(self).spec_timings() == old(self).spec_timings().push(
                spec_span(start, stop) as i64,
            ),
            final(self).spec_iter_cnt() == old(self).spec_iter_cnt(),
            final(self).spec_last_print() == old(self).spec_last_print(),
    {
        self.timings.push(span(start, stop));
    }

    /// Number of iterations that were started, modulo 2^32.
    pub fn iter_cnt(&self) -> (n: u32)
        ensures
            n == self.spec_iter_cnt(),
    {
        self.iter_cnt
    }

    /// The time that all iterations took together, in nanoseconds.
    pub fn iter_duration(&self) -> (total: i128)
        ensures
            total == spec_total(self.spec_timings()),
    {
        let mut total: i128 = 0;
        let mut i: usize = 0;
        proof {
            assert(self.timings@.take(0) =~= Seq::<i64>::empty());
        }
        while i < self.timings.len()
            invariant
                i <= self.timings.len(),
                total == spec_total(self.timings@.take(i as int)),
                -(i as int) * 0x8000_0000_0000_0000 <= total <= i * 0x8000_0000_0000_0000,
            decreases self.timings.len() - i,
        {
            proof {
                assert(self.timings@.take(i + 1).drop_last() =~= self.timings@.take(i as int));
                assert(i < 0x1_0000_0000_0000_0000);
            }
            total = total + self.timings[i] as i128;
            i += 1;
        }
        proof {
            assert(self.timings@.take(i as int) =~= self.timings@);
        }
        total
    }
}

} // verus!
