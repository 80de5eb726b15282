//! The search state as mathematics: which side is ahead, and by which bits.
//!
//! Everything here is specification. [`step`] says what appending one pair
//! does to a residual; the laws below it say why a residual that has become
//! empty witnesses a solution.

use vstd::prelude::*;
use crate::pair::Leading;

verus! {

/// The bits by which the leading side is ahead of the other side.
pub struct Residual {
    pub leading: Leading,
    pub bits: Seq<bool>,
}

/// A pair of words: the top word and the bottom word.
pub struct Words {
    pub top: Seq<bool>,
    pub bottom: Seq<bool>,
}

/// The residual before any pair is applied.
pub open spec fn initial() -> Residual {
    Residual { leading: Leading::Top, bits: Seq::empty() }
}

/// `p` is an initial piece of `s`.
pub open spec fn is_prefix(p: Seq<bool>, s: Seq<bool>) -> bool {
    &&& p.len() <= s.len()
    &&& forall|i: int| 0 <= i < p.len() ==> p[i] == s[i]
}

/// `k` is the length of the longest common prefix of `a` and `b`.
pub open spec fn is_common_prefix_len(a: Seq<bool>, b: Seq<bool>, k: nat) -> bool {
    &&& k <= a.len()
    &&& k <= b.len()
    &&& forall|i: int| 0 <= i < k ==> a[i] == b[i]
    &&& (k < a.len() && k < b.len() ==> a[k as int] != b[k as int])
}

/// The word that a pair adds to the side that is ahead.
pub open spec fn lead_of(r: Residual, w: Words) -> Seq<bool> {
    match r.leading {
        Leading::Top => w.top,
        Leading::Bot => w.bottom,
    }
}

/// The word that a pair adds to the side that is behind.
pub open spec fn follow_of(r: Residual, w: Words) -> Seq<bool> {
    match r.leading {
        Leading::Top => w.bottom,
        Leading::Bot => w.top,
    }
}

/// The pair gives the leading side nothing while the other side stays
/// behind. On such a pair [`step`] hands the lead over with nothing left,
/// although the residual is not used up.
pub open spec fn hands_over_early(r: Residual, w: Words) -> bool {
    lead_of(r, w).len() == 0 && follow_of(r, w).len() < r.bits.len()
}

/// What appending the pair `w` makes of the residual `r`: `None` where the
/// two sides then disagree in some bit, else the new residual.
///
/// The bits of the follower's word are matched against the residual followed
/// by the leader's word. Where the follower's word ends first, the leader
/// stays ahead by what is left; where it reaches further, or both end
/// together, the lead changes sides.
pub open spec fn step(r: Residual, w: Words) -> Option<Residual> {
    let lead = lead_of(r, w);
    let follow = follow_of(r, w);
    let ahead = r.bits + lead;
    if hands_over_early(r, w) {
        if is_prefix(follow, r.bits) {
            Some(Residual { leading: r.leading.spec_switched(), bits: Seq::empty() })
        } else {
            None
        }
    } else if is_prefix(follow, ahead) {
        if follow.len() < ahead.len() {
            Some(Residual { leading: r.leading, bits: ahead.skip(follow.len() as int) })
        } else {
            Some(Residual { leading: r.leading.spec_switched(), bits: Seq::empty() })
        }
    } else if is_prefix(ahead, follow) {
        Some(
            Residual {
                leading: r.leading.spec_switched(),
                bits: follow.skip(ahead.len() as int),
            },
        )
    } else {
        None
    }
}

/// Where in its first block the residual starts after the pair `w`, if it
/// started at `offset` before: behind the bits that the follower's word has
/// matched where the same side stays ahead, at the start of a block where
/// the lead changes sides.
pub open spec fn next_offset(r: Residual, offset: nat, w: Words) -> nat {
    match step(r, w) {
        Some(s) => if s.leading == r.leading {
            ((offset + matched(r, w)) % 64) as nat
        } else {
            0
        },
        None => 0,
    }
}

/// Number of bits of the residual that the follower's word can match: all
/// of the word, or all of the residual where the word is longer.
pub open spec fn matched(r: Residual, w: Words) -> nat {
    if follow_of(r, w).len() <= r.bits.len() {
        follow_of(r, w).len()
    } else {
        r.bits.len()
    }
}

/// Number of bits, matched ones all of them, that are given up with the
/// first block where the follower's word reaches the end of that block, if
/// the residual started at `offset` in it.
pub open spec fn dropped(r: Residual, offset: nat, w: Words) -> nat {
    (64 * ((offset + matched(r, w)) / 64)) as nat
}

/// The residual that the pair `w` leads to can be stored in `BCNT` blocks,
/// if `r` starts at `offset` in its first block.
///
/// Only a residual in which the same side stays ahead can be too long: it
/// keeps its place in the blocks, and the leader's word is appended.
pub open spec fn has_room(r: Residual, offset: nat, w: Words) -> bool {
    match step(r, w) {
        Some(s) => s.leading == r.leading ==> next_offset(r, offset, w) + s.bits.len() < 320,
        None => true,
    }
}

/// A bit in which the follower's word differs from the residual rules the
/// pair out.
pub proof fn lemma_step_mismatch(r: Residual, w: Words, i: int)
    requires
        0 <= i < r.bits.len(),
        i < follow_of(r, w).len(),
        r.bits[i] != follow_of(r, w)[i],
    ensures
        step(r, w) is None,
{
    let ahead = r.bits + lead_of(r, w);
    assert(ahead[i] == r.bits[i]);
}

/// The outcome of a step, read off after the follower's word was matched
/// against the residual (`c` bits) and what was left of it against the
/// leader's word (`k` more bits).
pub proof fn lemma_step_after_match(r: Residual, w: Words, c: nat, k: nat)
    requires
        c <= r.bits.len(),
        c <= follow_of(r, w).len(),
        c == r.bits.len() || c == follow_of(r, w).len(),
        forall|i: int| 0 <= i < c ==> r.bits[i] == follow_of(r, w)[i],
        is_common_prefix_len(follow_of(r, w).skip(c as int), lead_of(r, w), k),
    ensures
        lead_of(r, w).len() == k ==> step(r, w) == Some(
            Residual {
                leading: r.leading.spec_switched(),
                bits: follow_of(r, w).skip((c + k) as int),
            },
        ),
        lead_of(r, w).len() > k && follow_of(r, w).len() > c + k ==> step(r, w) is None,
        lead_of(r, w).len() > k && follow_of(r, w).len() == c + k ==> step(r, w) == Some(
            Residual {
                leading: r.leading,
                bits: r.bits.skip(c as int) + lead_of(r, w).skip(k as int),
            },
        ),
{
    let lead = lead_of(r, w);
    let follow = follow_of(r, w);
    let ahead = r.bits + lead;
    let n = r.bits.len();
    let rest = follow.skip(c as int);
    if c < follow.len() {
        // the follower's word outlasts the residual
        assert(c == n);
        assert forall|i: int| 0 <= i < c + k implies follow[i] == ahead[i] by {
            if i >= c {
                assert(rest[i - c] == lead[i - c]);
            }
        }
        if lead.len() == k {
            assert(is_prefix(ahead, follow));
            if follow.len() == ahead.len() {
                assert(is_prefix(follow, ahead));
                assert(follow.skip((c + k) as int) =~= Seq::<bool>::empty());
            } else {
                assert(!is_prefix(follow, ahead));
            }
        } else if follow.len() > c + k {
            assert(rest[k as int] != lead[k as int]);
            assert(follow[(c + k) as int] != ahead[(c + k) as int]);
            assert(!is_prefix(follow, ahead));
            assert(!is_prefix(ahead, follow));
        } else {
            assert(is_prefix(follow, ahead));
            assert(r.bits.skip(c as int) =~= Seq::<bool>::empty());
            assert(ahead.skip(follow.len() as int) =~= r.bits.skip(c as int) + lead.skip(k as int));
        }
    } else {
        // the follower's word ends within the residual
        assert(k == 0);
        assert(forall|i: int| 0 <= i < c ==> follow[i] == ahead[i]);
        if hands_over_early(r, w) {
            assert(is_prefix(follow, r.bits));
            assert(follow.skip((c + k) as int) =~= Seq::<bool>::empty());
        } else if lead.len() == 0 {
            assert(c == n);
            assert(is_prefix(follow, ahead));
            assert(follow.skip((c + k) as int) =~= Seq::<bool>::empty());
        } else {
            assert(is_prefix(follow, ahead));
            assert(ahead.skip(follow.len() as int) =~= r.bits.skip(c as int) + lead.skip(k as int));
        }
    }
}

/// The residual after the pairs `ws` were applied in turn, starting from
/// [`initial`]; `None` where one of the steps fails.
pub open spec fn run(ws: Seq<Words>) -> Option<Residual>
    decreases ws.len(),
{
    if ws.len() == 0 {
        Some(initial())
    } else {
        match run(ws.drop_last()) {
            Some(r) => step(r, ws.last()),
            None => None,
        }
    }
}

/// The top words of `ws`, one after the other.
pub open spec fn tops(ws: Seq<Words>) -> Seq<bool>
    decreases ws.len(),
{
    if ws.len() == 0 {
        Seq::empty()
    } else {
        tops(ws.drop_last()) + ws.last().top
    }
}

/// The bottom words of `ws`, one after the other.
pub open spec fn bottoms(ws: Seq<Words>) -> Seq<bool>
    decreases ws.len(),
{
    if ws.len() == 0 {
        Seq::empty()
    } else {
        bottoms(ws.drop_last()) + ws.last().bottom
    }
}

/// No step along `ws` hands the lead over early.
pub open spec fn steady(ws: Seq<Words>) -> bool
    decreases ws.len(),
{
    ws.len() == 0 || (steady(ws.drop_last()) && match run(ws.drop_last()) {
        Some(r) => !hands_over_early(r, ws.last()),
        None => true,
    })
}

/// The residual `r` is what the leading side's bits `top` or `bottom` have
/// beyond the other side's.
pub open spec fn accounts_for(r: Residual, top: Seq<bool>, bottom: Seq<bool>) -> bool {
    match r.leading {
        Leading::Top => top == bottom + r.bits,
        Leading::Bot => bottom == top + r.bits,
    }
}

/// A step keeps the residual in line with the two sides: where it was the
/// excess of the one side over the other before the pair, its successor is
/// the excess after the pair.
pub proof fn lemma_step_accounts(r: Residual, w: Words, top: Seq<bool>, bottom: Seq<bool>)
    requires
        accounts_for(r, top, bottom),
        !hands_over_early(r, w),
        step(r, w) is Some,
    ensures
        accounts_for(step(r, w).unwrap(), top + w.top, bottom + w.bottom),
{
    let lead = lead_of(r, w);
    let follow = follow_of(r, w);
    let ahead = r.bits + lead;
    let behind = match r.leading {
        Leading::Top => bottom,
        Leading::Bot => top,
    };
    let front = match r.leading {
        Leading::Top => top,
        Leading::Bot => bottom,
    };
    assert(front + lead =~= behind + ahead);
    if is_prefix(follow, ahead) {
        if follow.len() < ahead.len() {
            assert(behind + ahead =~= (behind + follow) + ahead.skip(follow.len() as int));
        } else {
            assert(follow =~= ahead);
            assert(behind + follow =~= (front + lead) + Seq::<bool>::empty());
        }
    } else {
        assert(behind + follow =~= (behind + ahead) + follow.skip(ahead.len() as int));
    }
}

/// Along a run in which no step hands over early, the residual is the
/// excess of the leading side's concatenation over the other's.
pub proof fn lemma_run_accounts(ws: Seq<Words>)
    requires
        steady(ws),
        run(ws) is Some,
    ensures
        accounts_for(run(ws).unwrap(), tops(ws), bottoms(ws)),
    decreases ws.len(),
{
    if ws.len() == 0 {
        assert(bottoms(ws) + initial().bits =~= tops(ws));
    } else {
        lemma_run_accounts(ws.drop_last());
        let r = run(ws.drop_last()).unwrap();
        lemma_step_accounts(r, ws.last(), tops(ws.drop_last()), bottoms(ws.drop_last()));
    }
}

/// A run that ends with nothing left over has found a solution: the top
/// words of its pairs, one after the other, read the same as the bottom
/// words.
pub proof fn lemma_complete_is_solution(ws: Seq<Words>)
    requires
        steady(ws),
        run(ws) is Some,
        run(ws).unwrap().bits.len() == 0,
    ensures
        tops(ws) == bottoms(ws),
{
    lemma_run_accounts(ws);
    let r = run(ws).unwrap();
    assert(tops(ws) + r.bits =~= tops(ws));
    assert(bottoms(ws) + r.bits =~= bottoms(ws));
}

/// One of the two is an initial piece of the other.
pub open spec fn comparable(a: Seq<bool>, b: Seq<bool>) -> bool {
    is_prefix(a, b) || is_prefix(b, a)
}

/// A step does not fail where the two sides still agree after the pair, as
/// far as both of them reach.
pub proof fn lemma_step_total(r: Residual, w: Words, top: Seq<bool>, bottom: Seq<bool>)
    requires
        accounts_for(r, top, bottom),
        !hands_over_early(r, w),
        comparable(top + w.top, bottom + w.bottom),
    ensures
        step(r, w) is Some,
{
    let lead = lead_of(r, w);
    let follow = follow_of(r, w);
    let ahead = r.bits + lead;
    let behind = match r.leading {
        Leading::Top => bottom,
        Leading::Bot => top,
    };
    let front = match r.leading {
        Leading::Top => top,
        Leading::Bot => bottom,
    };
    let n = behind.len() as int;
    assert(front + lead =~= behind + ahead);
    if is_prefix(behind + ahead, behind + follow) {
        assert forall|i: int| 0 <= i < ahead.len() implies ahead[i] == follow[i] by {
            assert((behind + ahead)[n + i] == (behind + follow)[n + i]);
        }
        assert(is_prefix(ahead, follow));
    } else {
        assert(is_prefix(behind + follow, behind + ahead));
        assert forall|i: int| 0 <= i < follow.len() implies follow[i] == ahead[i] by {
            assert((behind + follow)[n + i] == (behind + ahead)[n + i]);
        }
        assert(is_prefix(follow, ahead));
    }
}

/// The top words of the first `k` pairs are an initial piece of the top
/// words of all of them, and so it is with the bottom words.
pub proof fn lemma_tops_grow(ws: Seq<Words>, k: int)
    requires
        0 <= k <= ws.len(),
    ensures
        is_prefix(tops(ws.take(k)), tops(ws)),
        is_prefix(bottoms(ws.take(k)), bottoms(ws)),
    decreases ws.len(),
{
    if k == ws.len() {
        assert(ws.take(k) =~= ws);
    } else {
        lemma_tops_grow(ws.drop_last(), k);
        assert(ws.drop_last().take(k) =~= ws.take(k));
    }
}

/// A run along a solution does not fail, and ends with nothing left over:
/// where the top words of the pairs read the same as the bottom words, and
/// no step hands over early, every step succeeds and the last residual is
/// empty.
pub proof fn lemma_solution_is_complete(ws: Seq<Words>)
    requires
        steady(ws),
        tops(ws) == bottoms(ws),
    ensures
        run(ws) is Some,
        run(ws).unwrap().bits.len() == 0,
{
    lemma_solution_runs(ws, ws.len() as int);
    assert(ws.take(ws.len() as int) =~= ws);
    lemma_run_accounts(ws);
    let r = run(ws).unwrap();
    let all = tops(ws);
    assert((all + r.bits).len() == all.len());
}

/// Along a solution, the run of the first `k` pairs does not fail.
pub proof fn lemma_solution_runs(ws: Seq<Words>, k: int)
    requires
        steady(ws),
        tops(ws) == bottoms(ws),
        0 <= k <= ws.len(),
    ensures
        run(ws.take(k)) is Some,
        steady(ws.take(k)),
    decreases k,
{
    lemma_steady_take(ws, k);
    if k > 0 {
        lemma_solution_runs(ws, k - 1);
        let part = ws.take(k);
        let before = ws.take(k - 1);
        assert(part.drop_last() =~= before);
        assert(part.last() == ws[k - 1]);
        lemma_run_accounts(before);
        lemma_tops_grow(ws, k);
        let all = tops(ws);
        let t = tops(part);
        let b = bottoms(part);
        assert(comparable(t, b)) by {
            if t.len() <= b.len() {
                assert(is_prefix(t, b));
            } else {
                assert(is_prefix(b, t));
            }
        }
        lemma_step_total(run(before).unwrap(), ws[k - 1], tops(before), bottoms(before));
    }
}

/// The first `k` steps of a run in which no step hands over early hand
/// nothing over early.
pub proof fn lemma_steady_take(ws: Seq<Words>, k: int)
    requires
        steady(ws),
        0 <= k <= ws.len(),
    ensures
        steady(ws.take(k)),
    decreases ws.len(),
{
    if k == ws.len() {
        assert(ws.take(k) =~= ws);
    } else {
        lemma_steady_take(ws.drop_last(), k);
        assert(ws.drop_last().take(k) =~= ws.take(k));
    }
}

} // verus!
