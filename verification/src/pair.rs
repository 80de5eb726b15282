//! Packed words, pairs of words, and the residual of a partial match.

use vstd::prelude::*;
use vstd::std_specs::bits::axiom_u64_trailing_zeros;
use crate::bits::{
    bit_at, bits_of, lemma_and_mask_bit, lemma_bit_values, lemma_differing_bit, lemma_high_clear,
    lemma_merge_bit, lemma_shr_bit, lemma_shr_keeps_clear, lemma_xor_low_bit, low_mask, mask,
};
use crate::residual::{
    dropped, follow_of, has_room, is_common_prefix_len, lead_of, lemma_step_after_match,
    lemma_step_mismatch, matched, next_offset, step, Residual, Words,
};

verus! {

/// One block of residual bits.
#[allow(non_camel_case_types)]
pub type blk = u64;

/// Number of blocks a residual may occupy.
pub const BCNT: u8 = 5;

/// Bits in a block.
pub const BLK_BITS: u8 = 64;

/// `BCNT` as an array length.
pub const BCNT_: usize = 5;

/// Largest number of bits a packed word can hold.
pub const VAL_BITS: u8 = 56;

/// The bits of a packed word that hold its value.
pub const VAL_MASK: blk = 0x00ff_ffff_ffff_ffff;

/// The side whose concatenation is ahead of the other.
#[derive(Copy, Clone, PartialEq, Eq, Structural, Debug)]
pub enum Leading {
    Top,
    Bot,
}

impl Leading {
    /// The other side.
    pub open spec fn spec_switched(self) -> Leading {
        match self {
            Leading::Top => Leading::Bot,
            Leading::Bot => Leading::Top,
        }
    }

    /// The other side.
    #[verifier::when_used_as_spec(spec_switched)]
    pub fn switched(self) -> (r: Leading)
        ensures
            r == self.spec_switched(),
    {
        match self {
            Leading::Top => Leading::Bot,
            Leading::Bot => Leading::Top,
        }
    }
}

/// A word of at most `VAL_BITS` bits, packed with its length into one block:
/// the value in the low `VAL_BITS` bits, the length above them.
#[derive(Copy, Clone, Debug)]
pub struct SPart(blk);

impl View for SPart {
    type V = Seq<bool>;

    /// The word as a bit string, first bit first.
    open spec fn view(&self) -> Seq<bool> {
        bits_of(self.spec_data(), self.spec_len())
    }
}

impl SPart {
    /// Number of bits of the word.
    pub closed spec fn spec_len(self) -> nat {
        (self.0 >> 56) as nat
    }

    /// The bits of the word, bit `i` of the result being the word's `i`-th bit.
    pub closed spec fn spec_data(self) -> blk {
        self.0 & VAL_MASK
    }

    /// The length is at most `VAL_BITS` and no bit at or above it is set.
    pub closed spec fn wf(self) -> bool {
        &&& self.spec_len() <= 56
        &&& self.spec_data() >> (self.spec_len() as u64) == 0
    }

    /// A well-formed word is at most `VAL_BITS` long.
    pub proof fn lemma_len_bound(self)
        requires
            self.wf(),
        ensures
            self@.len() == self.spec_len(),
            self.spec_len() <= VAL_BITS,
    {
    }

    /// Packs the `len` low bits of `val`.
    pub fn new(len: blk, val: blk) -> (p: SPart)
        requires
            len <= VAL_BITS,
            val >> len == 0,
        ensures
            p.wf(),
            p.spec_len() == len,
            p.spec_data() == val,
            p@ == bits_of(val, len as nat),
    {
        let word: blk = (len << 56) | val;
        proof {
            assert((word >> 56) == len && (word & 0x00ff_ffff_ffff_ffff) == val) by (bit_vector)
                requires
                    word == (len << 56) | val,
                    len <= 56,
                    val >> len == 0,
            ;
        }
        SPart(word)
    }

    /// The bits of the word.
    pub fn data(&self) -> (d: blk)
        ensures
            d == self.spec_data(),
    {
        self.0 & VAL_MASK
    }

    /// Number of bits of the word.
    pub fn len(&self) -> (n: u8)
        ensures
            n == self.spec_len(),
    {
        let hi: blk = self.0 >> 56;
        proof {
            let w: blk = self.0;
            assert((w >> 56) < 256) by (bit_vector);
        }
        hi as u8
    }

    /// Drops the first `shift` bits of the word.
    pub fn shift(&mut self, shift: u8)
        requires
            old(self).wf(),
            shift <= old(self).spec_len(),
        ensures
            final(self).wf(),
            final(self).spec_len() == old(self).spec_len() - shift,
            final(self).spec_data() == old(self).spec_data() >> shift,
            final(self)@ == old(self)@.skip(shift as int),
    {
        let new_len: u8 = self.len() - shift;
        let new_val: blk = self.data() >> shift;
        let ghost old_data: blk = self.spec_data();
        let ghost old_len: nat = self.spec_len();
        let word: blk = ((new_len as blk) << 56) | new_val;
        proof {
            let nl: blk = new_len as blk;
            let sh: blk = shift as blk;
            lemma_shr_keeps_clear(old_data, old_len as u64, sh);
            assert((word >> 56) == nl && (word & 0x00ff_ffff_ffff_ffff) == new_val) by (bit_vector)
                requires
                    word == (nl << 56) | new_val,
                    nl <= 56,
                    new_val >> nl == 0,
            ;
        }
        self.0 = word;
        proof {
            let rest = old(self)@.skip(shift as int);
            assert forall|i: int| 0 <= i < new_len implies #[trigger] self@[i] == rest[i] by {
                lemma_shr_bit(old_data, shift as u64, i as u64);
            }
            assert(self@ =~= rest);
        }
    }

    /// Takes the first `shift` bits off the word and returns them.
    pub fn shift_data(&mut self, shift: u8) -> (d: blk)
        requires
            old(self).wf(),
            shift <= old(self).spec_len(),
        ensures
            final(self).wf(),
            final(self).spec_len() == old(self).spec_len() - shift,
            final(self)@ == old(self)@.skip(shift as int),
            d == old(self).spec_data() & low_mask(shift as u64),
            d >> shift == 0,
            bits_of(d, shift as nat) == old(self)@.take(shift as int),
    {
        let m: blk = mask(shift);
        let data: blk = self.0 & m;
        proof {
            let w: blk = self.0;
            let sh: blk = shift as blk;
            assert(w & m == (w & 0x00ff_ffff_ffff_ffff) & m && (w & m) >> sh == 0) by (bit_vector)
                requires
                    m == ((1u64 << sh) - 1) as u64,
                    sh <= 56,
            ;
            let low = bits_of(data, shift as nat);
            assert forall|i: int| 0 <= i < shift implies #[trigger] low[i] == self@[i] by {
                lemma_and_mask_bit(self.spec_data(), sh, i as u64);
            }
            assert(low =~= self@.take(shift as int));
        }
        self.shift(shift);
        data
    }

    /// Strips from both words the longest prefix that they have in common.
    pub fn shift_prefix(a: &mut SPart, b: &mut SPart)
        requires
            old(a).wf(),
            old(b).wf(),
        ensures
            final(a).wf(),
            final(b).wf(),
            final(a)@.len() <= old(a)@.len(),
            is_common_prefix_len(
                old(a)@,
                old(b)@,
                (old(a)@.len() - final(a)@.len()) as nat,
            ),
            final(a)@ == old(a)@.skip(old(a)@.len() - final(a)@.len()),
            final(b)@ == old(b)@.skip(old(a)@.len() - final(a)@.len()),
            is_common_prefix_len(final(a)@, final(b)@, 0),
            final(a)@.len() > 0 && final(b)@.len() > 0 ==> bit_at(final(a).spec_data(), 0)
                != bit_at(final(b).spec_data(), 0),
    {
        // after the xor the first mismatched bit is a one; the length fields
        // need no masking since the prefix is capped by both lengths anyway
        let x: blk = a.0 ^ b.0;
        let tz: u32 = x.trailing_zeros();
        let la: u8 = a.len();
        let lb: u8 = b.len();
        let mut prefix: u8 = if la < lb { la } else { lb };
        if tz < prefix as u32 {
            prefix = tz as u8;
        }
        proof {
            axiom_u64_trailing_zeros(x);
            assert forall|i: int| 0 <= i < prefix implies #[trigger] a@[i] == b@[i] by {
                let j: u64 = i as u64;
                assert((x >> j) & 1u64 == 0u64);
                lemma_xor_low_bit(a.0, b.0, j);
            }
            if prefix < la && prefix < lb {
                let j: u64 = prefix as u64;
                assert((x >> j) & 1u64 == 1u64);
                lemma_xor_low_bit(a.0, b.0, j);
                assert(a@[prefix as int] != b@[prefix as int]);
            }
        }
        a.shift(prefix);
        b.shift(prefix);
        proof {
            if a@.len() > 0 && b@.len() > 0 {
                assert(a@[0] == old(a)@[prefix as int]);
                assert(b@[0] == old(b)@[prefix as int]);
            }
        }
    }

    /// Two words that have no common prefix left differ in the lowest bit
    /// of their values exactly if both have bits left, as long as an empty
    /// word does not face one whose first bit is set.
    pub proof fn lemma_stripped_disagree(a: SPart, b: SPart)
        requires
            a.wf(),
            b.wf(),
            is_common_prefix_len(a@, b@, 0),
            !(a@.len() == 0 && b@.len() > 0 && b@[0]),
            !(b@.len() == 0 && a@.len() > 0 && a@[0]),
        ensures
            bit_at(a.spec_data(), 0) != bit_at(b.spec_data(), 0) <==> a@.len() > 0 && b@.len()
                > 0,
    {
        if a@.len() == 0 {
            lemma_high_clear(a.spec_data(), 0, 0);
        } else {
            assert(a@[0] == bit_at(a.spec_data(), 0));
        }
        if b@.len() == 0 {
            lemma_high_clear(b.spec_data(), 0, 0);
        } else {
            assert(b@[0] == bit_at(b.spec_data(), 0));
        }
    }
}

/// The two words of one pair of a problem.
#[derive(Copy, Clone, Debug)]
pub struct SPair {
    a: SPart,
    b: SPart,
}

impl View for SPair {
    type V = Words;

    /// The two words as bit strings.
    open spec fn view(&self) -> Words {
        Words { top: self.spec_top()@, bottom: self.spec_bottom()@ }
    }
}

impl SPair {
    /// The top word.
    pub closed spec fn spec_top(self) -> SPart {
        self.a
    }

    /// The bottom word.
    pub closed spec fn spec_bottom(self) -> SPart {
        self.b
    }

    /// Both words are well formed.
    pub open spec fn wf(self) -> bool {
        self.spec_top().wf() && self.spec_bottom().wf()
    }

    /// The pair with top word `a` and bottom word `b`.
    pub fn new(a: SPart, b: SPart) -> (p: SPair)
        ensures
            p.spec_top() == a,
            p.spec_bottom() == b,
    {
        SPair { a: a, b: b }
    }
}

/// How matching one block of the residual against a pair ended.
#[derive(Copy, Clone)]
enum ApplyResult {
    /// No match
    Mismatch,
    /// Completely matched, bits in lead need to be appended
    Match,
    /// Matched but end of block reached, repeat with second block
    MatchRemaining,
    /// Completely caught up, bits in follow make up a new block
    LeadSwitch,
}

/// One block of a residual, with the part of it that still counts.
#[derive(Copy, Clone)]
struct VHead {
    data: blk,
    /// How many bits are shared
    prefix: u8,
    /// How many bits are used
    used: u8,
}

impl VHead {
    /// The bits of the block from `prefix` up to `used`.
    spec fn bits(self) -> Seq<bool> {
        Seq::new(
            (self.used - self.prefix) as nat,
            |i: int| bit_at(self.data, (self.prefix + i) as u64),
        )
    }

    /// What `apply` promises when it has matched `follow` against the block
    /// `h` and, where the block is not used up, against `lead`.
    spec fn outcome(
        h: VHead,
        follow: SPart,
        lead: SPart,
        h2: VHead,
        follow2: SPart,
        lead2: SPart,
        res: ApplyResult,
    ) -> bool {
        let c = if h.bits().len() <= follow@.len() {
            h.bits().len()
        } else {
            follow@.len()
        };
        if exists|i: int| 0 <= i < c && h.bits()[i] != follow@[i] {
            res is Mismatch
        } else if h.prefix + c == 64 {
            &&& res is MatchRemaining
            &&& h2.prefix == 64
            &&& follow2@ == follow@.skip(c as int)
            &&& lead2 == lead
        } else {
            let k = (lead@.len() - lead2@.len()) as nat;
            &&& h2.prefix == h.prefix + c
            &&& lead2@.len() <= lead@.len()
            &&& is_common_prefix_len(follow@.skip(c as int), lead@, k)
            &&& follow2@ == follow@.skip((c + k) as int)
            &&& lead2@ == lead@.skip(k as int)
            &&& (lead2@.len() == 0 ==> res is LeadSwitch)
            &&& (lead2@.len() > 0 && follow2@.len() > 0 ==> res is Mismatch)
            &&& (lead2@.len() > 0 && follow2@.len() == 0 ==> res is Match)
        }
    }

    /// Matches `follow` against the block, and what is left of it against
    /// `lead`.
    #[verifier::rlimit(100)]
    fn apply(&mut self, follow: &mut SPart, lead: &mut SPart) -> (res: ApplyResult)
        requires
            old(self).prefix <= old(self).used <= 64,
            old(self).prefix < 64,
            old(follow).wf(),
            old(lead).wf(),
        ensures
            final(self).data == old(self).data,
            final(self).used == old(self).used,
            final(follow).wf(),
            final(lead).wf(),
            VHead::outcome(
                *old(self),
                *old(follow),
                *old(lead),
                *final(self),
                *final(follow),
                *final(lead),
                res,
            ),
    {
        let ghost h0 = *self;
        let ghost f0 = *follow;
        // first, check that overlapping follows are equal
        let avail: u8 = self.used - self.prefix;
        let flen: u8 = follow.len();
        let overlap: u8 = if avail < flen { avail } else { flen };

        // check
        let m: blk = mask(overlap);
        let h: blk = (self.data >> self.prefix) & m;
        let p: blk = follow.data() & m;

        proof {
            assert forall|i: int| 0 <= i < overlap implies (bit_at(h, i as u64) == #[trigger] h0.bits()[i]
                && bit_at(p, i as u64) == f0@[i]) by {
                lemma_and_mask_bit(self.data >> self.prefix, overlap as u64, i as u64);
                lemma_and_mask_bit(follow.spec_data(), overlap as u64, i as u64);
                lemma_shr_bit(self.data, self.prefix as u64, i as u64);
            }
        }

        if h != p {
            proof {
                let t = lemma_differing_bit(h, p);
                lemma_and_mask_bit(self.data >> self.prefix, overlap as u64, t);
                lemma_and_mask_bit(follow.spec_data(), overlap as u64, t);
                assert(t < overlap);
                assert(h0.bits()[t as int] != f0@[t as int]);
            }
            return ApplyResult::Mismatch;
        }
        // update

        self.prefix += overlap;
        follow.shift(overlap);

        if self.prefix == BLK_BITS {
            return ApplyResult::MatchRemaining;  // Reached the end of block, needs to be removed
        }
        // at this point follow has caught up to lead, so we can eliminate any common prefix from follow and lead

        let ghost f1 = *follow;
        SPart::shift_prefix(follow, lead);
        proof {
            let k = (f1@.len() - follow@.len()) as nat;
            assert(lead@.len() == old(lead)@.len() - k);
            assert(follow@ =~= f0@.skip((overlap + k) as int));
        }

        let follow_done: bool = follow.len() == 0;
        let lead_done: bool = lead.len() == 0;
        if lead_done {
            ApplyResult::LeadSwitch  // lead is empty, start a new block with follow
        } else if follow_done {
            ApplyResult::Match  // follow is empty
        } else {
            ApplyResult::Mismatch  // both have non matching bits remaining
        }
    }
}

/// The residual of a partial match: the bits by which one side is ahead.
///
/// The bits lie in `data` from bit `prefix` of block 0 up to bit `used` of
/// block `tail`. Bits below `prefix` are matched already and no longer
/// count; nothing is set from the end on.
#[derive(Copy, Clone, Debug)]
pub struct VPair {
    data: [blk; 5],
    /// Who is leading.
    leading: Leading,
    /// How many bits of the first block are shared.
    prefix: u8,
    /// How many bits of the last block are used.
    used: u8,
    /// which block is last used one
    tail: u8,
}

impl View for VPair {
    type V = Residual;

    /// Who is ahead, and by which bits.
    open spec fn view(&self) -> Residual {
        Residual {
            leading: self.spec_leading(),
            bits: self.stored(self.spec_prefix() as int, self.spec_end() as int),
        }
    }
}

/// The residual could not be stored in `BCNT` blocks.
#[derive(Copy, Clone, PartialEq, Eq, Structural, Debug)]
pub struct CapacityError;

impl VPair {
    /// Who is ahead.
    pub closed spec fn spec_leading(self) -> Leading {
        self.leading
    }

    /// Number of bits of block 0 that are matched already.
    pub closed spec fn spec_prefix(self) -> nat {
        self.prefix as nat
    }

    /// Number of bits that the last block holds.
    pub closed spec fn spec_used(self) -> nat {
        self.used as nat
    }

    /// Index of the last block.
    pub closed spec fn spec_tail(self) -> nat {
        self.tail as nat
    }

    /// Block `k`.
    pub closed spec fn spec_block(self, k: int) -> blk {
        self.data[k]
    }

    /// Where the bits end, counted from bit 0 of block 0.
    pub open spec fn spec_end(self) -> nat {
        self.spec_tail() * 64 + self.spec_used()
    }

    /// Bit `j` of the blocks, counted from bit 0 of block 0.
    pub open spec fn spec_bit(self, j: int) -> bool {
        bit_at(self.spec_block(j / 64), (j % 64) as u64)
    }

    /// The bits of the blocks from `from` up to `to`.
    pub open spec fn stored(self, from: int, to: int) -> Seq<bool> {
        Seq::new((to - from) as nat, |i: int| self.spec_bit(from + i))
    }

    /// The last block is one of the `BCNT` blocks and not full, and nothing
    /// is set from the end of the bits on.
    pub open spec fn tail_ok(self) -> bool {
        &&& self.spec_used() < BLK_BITS
        &&& self.spec_tail() < BCNT
        &&& self.spec_block(self.spec_tail() as int) >> (self.spec_used() as u64) == 0
        &&& forall|k: int| self.spec_tail() < k < BCNT ==> self.spec_block(k) == 0
    }

    /// What holds of every residual: the last block is one of the `BCNT`
    /// blocks and not full, nothing is set from the end on, the matched bits
    /// lie before the end, and no matched bit is kept in a residual that
    /// has nothing else.
    pub open spec fn wf(self) -> bool {
        &&& self.tail_ok()
        &&& self.spec_prefix() < BLK_BITS
        &&& self.spec_prefix() <= self.spec_end()
        &&& (self.spec_prefix() == self.spec_end() ==> self.spec_end() == 0)
    }

    /// There are no bits: neither side is ahead.
    pub open spec fn spec_is_complete(self) -> bool {
        self.spec_tail() == 0 && self.spec_used() == 0
    }

    /// A residual holds no bits exactly if it is complete.
    pub proof fn lemma_complete_iff_empty(self)
        requires
            self.wf(),
        ensures
            self.spec_is_complete() <==> self@.bits.len() == 0,
            self@.bits.len() == self.spec_end() - self.spec_prefix(),
            self@.bits.len() < 64 * BCNT,
    {
    }

    /// The residual of the empty match.
    pub closed spec fn new_spec() -> VPair {
        VPair { data: [0, 0, 0, 0, 0], leading: Leading::Top, prefix: 0, used: 0, tail: 0 }
    }

    /// What holds of the residual of the empty match.
    pub proof fn lemma_new_spec()
        ensures
            VPair::new_spec().wf(),
            VPair::new_spec()@ == crate::residual::initial(),
            VPair::new_spec().spec_is_complete(),
            VPair::new_spec().spec_prefix() == 0,
    {
        let v = VPair::new_spec();
        lemma_bit_values(0, 0);
        assert(v@.bits =~= Seq::<bool>::empty());
    }

    /// The residual of the empty match: no bits, the top side counted as ahead.
    pub fn new() -> (v: VPair)
        ensures
            v == VPair::new_spec(),
            v.wf(),
            v@ == crate::residual::initial(),
            v.spec_is_complete(),
            v.spec_prefix() == 0,
    {
        let v = VPair { data: [0, 0, 0, 0, 0], prefix: 0, used: 0, leading: Leading::Top, tail: 0 };
        proof {
            lemma_bit_values(0, 0);
            assert(v@.bits =~= Seq::<bool>::empty());
        }
        v
    }

    /// Whether no bits are left, so that both sides read the same.
    pub fn is_complete(&self) -> (r: bool)
        ensures
            r == self.spec_is_complete(),
            self.wf() ==> (r <==> self@.bits.len() == 0),
    {
        self.tail == 0 && self.used == 0
    }

    /// Who is ahead.
    pub fn leading(&self) -> (l: Leading)
        ensures
            l == self@.leading,
    {
        self.leading
    }

    /// Number of bits of the residual.
    pub fn len(&self) -> (n: u32)
        requires
            self.wf(),
        ensures
            n == self@.bits.len(),
    {
        if self.tail == 0 {
            (self.used - self.prefix) as u32
        } else {
            let full: u32 = self.tail as u32 - 1;
            let width: u32 = BLK_BITS as u32;
            assert(full * width == full * 64 && full <= 3) by (nonlinear_arith)
                requires
                    width == 64,
                    full <= 3,
            ;
            full * width + (BLK_BITS - self.prefix) as u32 + self.used as u32
        }
    }

    /// Bit `i` of the residual.
    pub fn bit(&self, i: u32) -> (b: bool)
        requires
            self.wf(),
            i < self@.bits.len(),
        ensures
            b == self@.bits[i as int],
    {
        let j: u32 = self.prefix as u32 + i;
        let word: blk = self.data[(j / 64) as usize];
        let pos: u32 = j % 64;
        (word >> pos) & 1 == 1
    }

    /// Opens a new last block.
    fn push(&mut self, block: blk)
        requires
            old(self).tail + 1 < BCNT,
        ensures
            final(self).tail == old(self).tail + 1,
            final(self).data@ == old(self).data@.update(old(self).tail + 1, block),
            final(self).leading == old(self).leading,
            final(self).prefix == old(self).prefix,
            final(self).used == old(self).used,
    {
        self.tail += 1;
        self.data[self.tail as usize] = block;
    }

    /// The first block, as far as it counts.
    fn head(&self) -> (h: VHead)
        requires
            self.wf(),
        ensures
            h.data == self.data[0],
            h.prefix == self.prefix,
            h.used == (if self.tail > 0 { BLK_BITS } else { self.used }),
    {
        VHead {
            data: self.data[0],
            prefix: self.prefix,
            used: if self.tail > 0 { BLK_BITS } else { self.used },
        }
    }

    /// The second block, as far as it counts.
    fn head2(&self) -> (h: VHead)
        requires
            self.wf(),
            self.tail > 0,
        ensures
            h.data == self.data[1],
            h.prefix == 0,
            h.used == (if self.tail > 1 { BLK_BITS } else { self.used }),
    {
        VHead {
            data: self.data[1],
            prefix: 0,
            used: if self.tail > 1 { BLK_BITS } else { self.used },
        }
    }

    /// The residual in which the other side is ahead by the bits of `lead`.
    fn switched_with_new_lead(&self, lead: SPart) -> (v: VPair)
        requires
            lead.wf(),
        ensures
            v.wf(),
            v@ == (Residual { leading: self.spec_leading().spec_switched(), bits: lead@ }),
            v.spec_prefix() == 0,
    {
        let mut p = VPair {
            data: [0;5],
            prefix: 0,
            used: lead.len(),
            leading: self.leading.switched(),
            tail: 0,
        };

        p.data[0] = lead.data();
        proof {
            assert(p@.bits =~= lead@);
        }

        p
    }

    /// Appends the bits of `lead` after the last bit.
    #[verifier::rlimit(100)]
    fn apply_lead(&mut self, lead: SPart)
        requires
            old(self).tail_ok(),
            lead.wf(),
            old(self).spec_end() + lead@.len() < 64 * BCNT,
        ensures
            final(self).tail_ok(),
            final(self).leading == old(self).leading,
            final(self).prefix == old(self).prefix,
            final(self).spec_end() == old(self).spec_end() + lead@.len(),
            final(self).stored(0, old(self).spec_end() as int) == old(self).stored(
                0,
                old(self).spec_end() as int,
            ),
            final(self).stored(old(self).spec_end() as int, final(self).spec_end() as int)
                == lead@,
    {
        let ghost s0 = *self;
        let ghost e0 = self.spec_end() as int;
        let ghost l0 = lead;
        let mut lead = lead;
        let t: usize = self.tail as usize;
        // push all we can into the current block
        let room: u8 = BLK_BITS - self.used;
        let llen: u8 = lead.len();
        let pushable: u8 = if room < llen { room } else { llen };
        let low: blk = lead.shift_data(pushable);
        let last: blk = self.data[t];
        let merged: blk = last | (low << self.used);
        self.data[t] = merged;

        let new_used: u8 = self.used + pushable;
        proof {
            assert forall|i: u64| i < 64 implies (#[trigger] bit_at(merged, i) == (if i
                < self.used {
                bit_at(last, i)
            } else {
                bit_at(low, (i - self.used) as u64)
            })) by {
                lemma_merge_bit(last, low, self.used as u64, pushable as u64, i);
            }
            lemma_merge_bit(last, low, self.used as u64, pushable as u64, 0);
            assert forall|i: int| 0 <= i < pushable implies bit_at(low, i as u64) == #[trigger] l0@[i] by {
                assert(bits_of(low, pushable as nat)[i] == l0@.take(pushable as int)[i]);
            }
        }

        // if new_used is 64 need to open a new block
        if lead.len() == 0 && new_used < BLK_BITS {
            self.used = new_used;
        } else {
            let block: blk = lead.data();
            self.push(block);
            self.used = lead.len();
            proof {
                assert(new_used == 64);
                assert forall|i: int| 0 <= i < lead@.len() implies bit_at(block, i as u64) == #[trigger] l0@[i + pushable] by {
                    assert(lead@[i] == l0@.skip(pushable as int)[i]);
                }
            }
        }
        proof {
            let e1 = self.spec_end() as int;
            assert(self.spec_block(self.tail as int) >> (self.used as u64) == 0);
            assert forall|k: int| self.tail < k < BCNT implies self.spec_block(k) == 0 by {
                assert(s0.spec_block(k) == 0);
            }
            assert forall|j: int| 0 <= j < e0 implies #[trigger] self.spec_bit(j) == s0.spec_bit(j) by {
                if j / 64 == t {
                    assert(bit_at(merged, (j % 64) as u64) == bit_at(last, (j % 64) as u64));
                }
            }
            assert(self.stored(0, e0) =~= s0.stored(0, e0));
            assert forall|i: int| 0 <= i < l0@.len() implies #[trigger] self.spec_bit(e0 + i) == l0@[i] by {
                let j = e0 + i;
                if i < pushable {
                    assert(j / 64 == t);
                    assert(bit_at(merged, (j % 64) as u64) == bit_at(low, i as u64));
                } else {
                    assert(j / 64 == t + 1);
                    assert(j % 64 == i - pushable);
                    assert(l0@[(i - pushable) + pushable] == l0@[i]);
                }
            }
            assert(self.stored(e0, e1) =~= l0@);
        }
    }

    /// The residual that keeps the blocks from `offset` on, counts the first
    /// `prefix` bits of them as matched, and has the bits of `lead` appended.
    #[verifier::rlimit(100)]
    fn with_offset_prefix_and_add_lead(&self, offset: u8, prefix: u8, lead: SPart) -> (v: VPair)
        requires
            self.wf(),
            offset <= 1,
            offset <= self.tail,
            prefix < 64,
            offset * 64 + prefix <= self.spec_end(),
            lead.wf(),
            lead@.len() > 0,
            self.spec_end() - offset * 64 + lead@.len() < 64 * BCNT,
        ensures
            v.wf(),
            v.leading == self.leading,
            v.prefix == prefix,
            v@.bits == self.stored(offset * 64 + prefix, self.spec_end() as int) + lead@,
            v.stored(0, prefix as int) == self.stored(offset * 64, offset * 64 + prefix),
    {
        let mut p = VPair {
            data: [0;5],
            prefix: prefix,
            used: self.used,
            leading: self.leading,
            tail: self.tail - offset,
        };

        let n: usize = BCNT_ - offset as usize;
        let mut i: usize = 0;
        while i < n
            invariant
                i <= n,
                n == 5 - offset,
                offset <= 1,
                p.prefix == prefix,
                p.used == self.used,
                p.leading == self.leading,
                p.tail == self.tail - offset,
                forall|k: int| 0 <= k < i ==> p.data[k] == self.data[k + offset],
                forall|k: int| i <= k < 5 ==> p.data[k] == 0,
            decreases n - i,
        {
            p.data[i] = self.data[i + offset as usize];
            i += 1;
        }

        let ghost p0 = p;
        let ghost e0 = p.spec_end() as int;
        proof {
            assert(p.spec_block(p.tail as int) == self.spec_block(self.tail as int));
            assert forall|k: int| p.tail < k < BCNT implies p.spec_block(k) == 0 by {
                if k < 5 - offset {
                    assert(self.spec_block(k + offset) == 0);
                }
            }
            assert forall|j: int| 0 <= j < e0 implies #[trigger] p0.spec_bit(j) == self.spec_bit(j + offset * 64) by {
                assert((j + offset * 64) / 64 == j / 64 + offset);
                assert((j + offset * 64) % 64 == j % 64);
            }
        }
        p.apply_lead(lead);
        proof {
            let e1 = p.spec_end() as int;
            let kept = self.stored(offset * 64 + prefix, self.spec_end() as int);
            assert forall|i: int| 0 <= i < e1 - prefix implies #[trigger] p@.bits[i] == (kept + lead@)[i] by {
                let j = prefix + i;
                if j < e0 {
                    assert(p.stored(0, e0)[j] == p0.stored(0, e0)[j]);
                    assert(p0.spec_bit(j) == self.spec_bit(j + offset * 64));
                } else {
                    assert(p.stored(e0, e1)[j - e0] == lead@[j - e0]);
                }
            }
            assert(p@.bits =~= kept + lead@);
            assert forall|j: int| 0 <= j < prefix implies #[trigger] p.spec_bit(j) == self.spec_bit(
                offset * 64 + j,
            ) by {
                assert(p.stored(0, e0)[j] == p0.stored(0, e0)[j]);
                assert(p0.spec_bit(j) == self.spec_bit(j + offset * 64));
            }
            assert(p.stored(0, prefix as int) =~= self.stored(offset * 64, offset * 64 + prefix));
        }

        p
    }

    /// The residual that `with_offset_prefix_and_add_lead` makes, where it
    /// can be stored.
    fn grown(&self, offset: u8, prefix: u8, lead: SPart) -> (res: Result<
        Option<VPair>,
        CapacityError,
    >)
        requires
            self.wf(),
            offset <= 1,
            offset <= self.tail,
            prefix < 64,
            offset * 64 + prefix <= self.spec_end(),
            lead.wf(),
            lead@.len() > 0,
        ensures
            res is Ok <==> self.spec_end() - offset * 64 + lead@.len() < 64 * BCNT,
            res matches Ok(o) ==> {
                &&& o matches Some(v)
                &&& v.wf()
                &&& v.leading == self.leading
                &&& v.prefix == prefix
                &&& v@.bits == self.stored(offset * 64 + prefix, self.spec_end() as int) + lead@
                &&& v.stored(0, prefix as int) == self.stored(offset * 64, offset * 64 + prefix)
            },
    {
        let end: u32 = (self.tail - offset) as u32 * 64 + self.used as u32 + lead.len() as u32;
        if end >= 320 {
            Err(CapacityError)
        } else {
            Ok(Some(self.with_offset_prefix_and_add_lead(offset, prefix, lead)))
        }
    }

    /// The residual that `p` leads to can be stored in `BCNT` blocks.
    pub open spec fn room_for(self, p: SPair) -> bool {
        has_room(self@, self.spec_prefix(), p@)
    }

    /// `o` is what applying `p` to `self` gives: nothing where the step
    /// fails, else a well-formed residual with the view that [`step`] names,
    /// at the place in its first block that [`next_offset`] names, with the
    /// matched bits before it that the first block held there.
    pub open spec fn applied(self, p: SPair, o: Option<VPair>) -> bool {
        match o {
            Some(v) => {
                &&& v.wf()
                &&& step(self@, p@) == Some(v@)
                &&& v.spec_prefix() == next_offset(self@, self.spec_prefix(), p@)
                &&& v.stored(0, v.spec_prefix() as int) == self.stored(
                    dropped(self@, self.spec_prefix(), p@) as int,
                    (dropped(self@, self.spec_prefix(), p@) + v.spec_prefix()) as int,
                )
            },
            None => step(self@, p@) is None,
        }
    }

    /// A well-formed residual is known by its leading side, its bits, the
    /// place where they start, and the matched bits before them.
    pub proof fn lemma_known_by_bits(self, other: VPair)
        requires
            self.wf(),
            other.wf(),
            self@ == other@,
            self.spec_prefix() == other.spec_prefix(),
            self.stored(0, self.spec_prefix() as int) == other.stored(0, self.spec_prefix() as int),
        ensures
            self == other,
    {
        let end = self.spec_end() as int;
        assert(self@.bits.len() == end - self.prefix);
        assert(other@.bits.len() == other.spec_end() - other.prefix);
        assert(other.spec_end() == end);
        assert(self.tail == other.tail && self.used == other.used);
        assert forall|j: int| 0 <= j < end implies self.spec_bit(j) == other.spec_bit(j) by {
            let start = self.prefix as int;
            if j < start {
                assert(self.stored(0, start)[j] == self.spec_bit(0 + j));
                assert(other.stored(0, start)[j] == other.spec_bit(0 + j));
            } else {
                assert(self.stored(start, end)[j - start] == self.spec_bit(start + (j - start)));
                assert(other.stored(start, end)[j - start] == other.spec_bit(start + (j - start)));
            }
        }
        assert forall|k: int| 0 <= k < 5 implies self.data[k] == other.data[k] by {
            if k <= self.tail {
                if self.data[k] != other.data[k] {
                    let t = lemma_differing_bit(self.data[k], other.data[k]);
                    if k * 64 + t < end {
                        assert(self.spec_bit(k * 64 + t) == other.spec_bit(k * 64 + t));
                        assert((k * 64 + t) / 64 == k);
                        assert((k * 64 + t) % 64 == t);
                    } else {
                        lemma_high_clear(self.data[k], self.used as u64, t);
                        lemma_high_clear(other.data[k], self.used as u64, t);
                    }
                }
            } else {
                assert(self.spec_block(k) == 0);
                assert(other.spec_block(k) == 0);
            }
        }
        assert(self.data =~= other.data);
    }

    /// Applying a pair is a function of the residual and the pair: whatever
    /// two applications of `p` to `self` give, they give the same.
    pub proof fn lemma_apply_is_function(self, p: SPair, o1: Option<VPair>, o2: Option<VPair>)
        requires
            self.applied(p, o1),
            self.applied(p, o2),
        ensures
            o1 == o2,
    {
        if o1 is Some {
            o1.unwrap().lemma_known_by_bits(o2.unwrap());
        }
    }

    /// Applies the pair `p`, unless the residual that it leads to cannot be
    /// stored.
    #[verifier::rlimit(100)]
    pub fn try_apply(&self, p: &SPair) -> (res: Result<Option<VPair>, CapacityError>)
        requires
            self.wf(),
            p.wf(),
        ensures
            res is Ok <==> self.room_for(*p),
            res matches Ok(o) ==> self.applied(*p, o),
    {
        let (mut lead, mut follow) = match self.leading {
            Leading::Top => (p.a, p.b),
            Leading::Bot => (p.b, p.a),
        };
        let ghost l0 = lead;
        let ghost f0 = follow;
        let ghost r = self@;
        let ghost w = p@;
        let ghost n = r.bits.len();
        proof {
            assert(lead_of(r, w) == l0@);
            assert(follow_of(r, w) == f0@);
        }

        let mut head = self.head();
        let ghost h1 = head;
        proof {
            assert forall|i: int| 0 <= i < h1.bits().len() implies #[trigger] h1.bits()[i] == r.bits[i] by {
                assert((self.prefix + i) / 64 == 0);
            }
            assert(f0@.skip(0) =~= f0@);
            assert(self.at_block(*p, h1, f0, l0, 0));
        }

        match head.apply(&mut follow, &mut lead) {
            ApplyResult::Mismatch => {
                proof {
                    self.lemma_mismatch(*p, h1, f0, l0, head, follow, lead, 0);
                }
                Ok(None)
            },
            ApplyResult::Match => {
                proof {
                    self.lemma_matched(*p, h1, f0, l0, head, follow, lead, 0);
                }
                self.grown(0, head.prefix, lead)
            },
            ApplyResult::LeadSwitch => {
                proof {
                    self.lemma_matched(*p, h1, f0, l0, head, follow, lead, 0);
                }
                let v = self.switched_with_new_lead(follow);
                proof {
                    let d = dropped(self@, self.spec_prefix(), p@) as int;
                    assert(v.stored(0, 0) =~= self.stored(d, d));
                }
                Ok(Some(v))
            },
            ApplyResult::MatchRemaining => {
                let ghost f1 = follow;
                let ghost c1 = (64 - self.prefix) as nat;
                let mut head2 = self.head2();
                let ghost h2 = head2;
                proof {
                    assert(self.tail > 0);
                    assert forall|i: int| 0 <= i < h2.bits().len() implies #[trigger] h2.bits()[i]
                        == r.bits[c1 + i] by {
                        assert((64 + i) / 64 == 1);
                    }
                    assert forall|i: int| 0 <= i < c1 implies r.bits[i] == #[trigger] f0@[i] by {
                        assert(h1.bits()[i] == r.bits[i]);
                    }
                    assert(self.at_block(*p, h2, f1, l0, c1));
                }

                match head2.apply(&mut follow, &mut lead) {
                    ApplyResult::Mismatch => {
                        proof {
                            self.lemma_mismatch(*p, h2, f1, l0, head2, follow, lead, c1);
                        }
                        Ok(None)
                    },
                    ApplyResult::Match => {
                        proof {
                            self.lemma_matched(*p, h2, f1, l0, head2, follow, lead, c1);
                        }
                        self.grown(1, head2.prefix, lead)
                    },
                    ApplyResult::LeadSwitch => {
                        proof {
                            self.lemma_matched(*p, h2, f1, l0, head2, follow, lead, c1);
                        }
                        let v = self.switched_with_new_lead(follow);
                        proof {
                            let d = dropped(self@, self.spec_prefix(), p@) as int;
                            assert(v.stored(0, 0) =~= self.stored(d, d));
                        }
                        Ok(Some(v))
                    },
                    ApplyResult::MatchRemaining => {
                        // a word has at most VAL_BITS bits, which never use up a block
                        proof {
                            f1.lemma_len_bound();
                        }
                        Ok(None)
                    },
                }
            },
        }
    }

    /// Applies the pair `p`: the residual that it leads to, or nothing where
    /// the two sides then disagree.
    pub fn apply(&self, p: &SPair) -> (res: Option<VPair>)
        requires
            self.wf(),
            p.wf(),
            self.room_for(*p),
        ensures
            self.applied(*p, res),
    {
        match self.try_apply(p) {
            Ok(o) => o,
            Err(_) => None,
        }
    }

    /// The block `h` lies `c0` bits into the residual, all bits before it
    /// were matched by the follower's word, and `follow` is what is left of
    /// that word.
    spec fn at_block(self, p: SPair, h: VHead, follow: SPart, lead: SPart, c0: nat) -> bool {
        let r = self@;
        let w = p@;
        &&& self.wf()
        &&& follow.wf()
        &&& lead.wf()
        &&& h.prefix <= h.used <= 64
        &&& lead@ == lead_of(r, w)
        &&& c0 <= follow_of(r, w).len()
        &&& follow@ == follow_of(r, w).skip(c0 as int)
        &&& c0 + h.bits().len() <= r.bits.len()
        &&& (h.used < 64 ==> c0 + h.bits().len() == r.bits.len())
        &&& self.spec_prefix() + c0 == h.prefix + (if c0 == 0 { 0nat } else { 64nat })
        &&& (c0 > 0 ==> self.spec_tail() > 0)
        &&& forall|i: int| 0 <= i < h.bits().len() ==> #[trigger] h.bits()[i] == r.bits[c0 + i]
        &&& forall|i: int| 0 <= i < c0 ==> r.bits[i] == #[trigger] follow_of(r, w)[i]
    }

    /// A block that ends in a mismatch rules the pair out.
    proof fn lemma_mismatch(
        self,
        p: SPair,
        h: VHead,
        follow: SPart,
        lead: SPart,
        h2: VHead,
        follow2: SPart,
        lead2: SPart,
        c0: nat,
    )
        requires
            self.at_block(p, h, follow, lead, c0),
            follow2.wf(),
            lead2.wf(),
            VHead::outcome(h, follow, lead, h2, follow2, lead2, ApplyResult::Mismatch),
        ensures
            step(self@, p@) is None,
    {
        let r = self@;
        let w = p@;
        let full = follow_of(r, w);
        let c = if h.bits().len() <= follow@.len() {
            h.bits().len()
        } else {
            follow@.len()
        };
        if exists|i: int| 0 <= i < c && h.bits()[i] != follow@[i] {
            let i = choose|i: int| 0 <= i < c && h.bits()[i] != follow@[i];
            assert(follow@[i] == full[c0 + i]);
            lemma_step_mismatch(r, w, c0 + i);
        } else {
            self.lemma_whole_match(p, h, follow, lead, h2, follow2, lead2, c0);
        }
    }

    /// After a block that was matched without running out, the step is
    /// decided by what is left of the two words.
    #[verifier::rlimit(100)]
    proof fn lemma_whole_match(
        self,
        p: SPair,
        h: VHead,
        follow: SPart,
        lead: SPart,
        h2: VHead,
        follow2: SPart,
        lead2: SPart,
        c0: nat,
    )
        requires
            self.at_block(p, h, follow, lead, c0),
            follow2.wf(),
            lead2.wf(),
            h.prefix + (if h.bits().len() <= follow@.len() {
                h.bits().len()
            } else {
                follow@.len()
            }) != 64,
            !(exists|i: int|
                0 <= i < (if h.bits().len() <= follow@.len() {
                    h.bits().len()
                } else {
                    follow@.len()
                }) && h.bits()[i] != follow@[i]),
            lead2@.len() <= lead@.len(),
            is_common_prefix_len(
                follow@.skip(
                    (if h.bits().len() <= follow@.len() {
                        h.bits().len()
                    } else {
                        follow@.len()
                    }) as int,
                ),
                lead@,
                (lead@.len() - lead2@.len()) as nat,
            ),
            follow2@ == follow@.skip(
                (if h.bits().len() <= follow@.len() {
                    h.bits().len()
                } else {
                    follow@.len()
                }) + (lead@.len() - lead2@.len()),
            ),
            lead2@ == lead@.skip(lead@.len() - lead2@.len()),
        ensures
            lead2@.len() == 0 ==> step(self@, p@) == Some(
                Residual { leading: self@.leading.spec_switched(), bits: follow2@ },
            ),
            lead2@.len() > 0 && follow2@.len() > 0 ==> step(self@, p@) is None,
            lead2@.len() > 0 && follow2@.len() == 0 ==> {
                let c = c0 + (if h.bits().len() <= follow@.len() {
                    h.bits().len()
                } else {
                    follow@.len()
                });
                &&& step(self@, p@) == Some(
                    Residual {
                        leading: self@.leading,
                        bits: self.stored(
                            (self.spec_prefix() + c) as int,
                            self.spec_end() as int,
                        ) + lead2@,
                    },
                )
                &&& self.spec_prefix() + c <= self.spec_end()
                &&& next_offset(self@, self.spec_prefix(), p@) == (self.spec_prefix() + c) % 64
                &&& matched(self@, p@) == c
                &&& next_offset(self@, self.spec_prefix(), p@) + (self.spec_end() - (self.spec_prefix() + c))
                    + lead2@.len() == self.spec_end() - (if c0 == 0 {
                    0int
                } else {
                    64int
                }) + lead2@.len()
            },
    {
        let r = self@;
        let w = p@;
        let full = follow_of(r, w);
        let c1 = if h.bits().len() <= follow@.len() {
            h.bits().len()
        } else {
            follow@.len()
        };
        let c = c0 + c1;
        let k = (lead@.len() - lead2@.len()) as nat;
        follow.lemma_len_bound();
        assert forall|i: int| 0 <= i < c implies r.bits[i] == full[i] by {
            if i >= c0 {
                assert(h.bits()[i - c0] == follow@[i - c0]);
                assert(follow@[i - c0] == full[i]);
            }
        }
        assert(full.skip(c as int) =~= follow@.skip(c1 as int));
        assert(full.skip((c + k) as int) =~= follow2@);
        lemma_step_after_match(r, w, c, k);
        assert(r.bits.skip(c as int) =~= self.stored(
            (self.spec_prefix() + c) as int,
            self.spec_end() as int,
        ));
    }

    /// What a block that ends in a match or in a change of lead says of the
    /// step.
    proof fn lemma_matched(
        self,
        p: SPair,
        h: VHead,
        follow: SPart,
        lead: SPart,
        h2: VHead,
        follow2: SPart,
        lead2: SPart,
        c0: nat,
    )
        requires
            self.at_block(p, h, follow, lead, c0),
            follow2.wf(),
            lead2.wf(),
            VHead::outcome(h, follow, lead, h2, follow2, lead2, ApplyResult::Match)
                || VHead::outcome(h, follow, lead, h2, follow2, lead2, ApplyResult::LeadSwitch),
        ensures
            lead2@.len() == 0 ==> step(self@, p@) == Some(
                Residual { leading: self@.leading.spec_switched(), bits: follow2@ },
            ),
            lead2@.len() > 0 ==> {
                let off = if c0 == 0 {
                    0int
                } else {
                    64int
                };
                &&& step(self@, p@) == Some(
                    Residual {
                        leading: self@.leading,
                        bits: self.stored(off + h2.prefix, self.spec_end() as int) + lead2@,
                    },
                )
                &&& off + h2.prefix <= self.spec_end()
                &&& h2.prefix < 64
                &&& next_offset(self@, self.spec_prefix(), p@) == h2.prefix
                &&& dropped(self@, self.spec_prefix(), p@) == off
                &&& next_offset(self@, self.spec_prefix(), p@) + (self.spec_end() - (off + h2.prefix))
                    + lead2@.len() == self.spec_end() - off + lead2@.len()
            },
    {
        self.lemma_whole_match(p, h, follow, lead, h2, follow2, lead2, c0);
    }
}

} // verus!
