//! The symbols of a problem and the encoding of its words as bit strings.
//!
//! Every symbol gets a number in the order in which the symbols first occur,
//! and every number the same width in bits. A word is encoded symbol by
//! symbol, its first symbol in the lowest bits.

use vstd::prelude::*;
use vstd::string::*;
use crate::bits::{bit_at, bits_of, lemma_merge_bit};
use crate::pair::{blk, SPart, VAL_BITS};

verus! {

/// The symbols of `base`, followed by those of `chars` that are new, each
/// once, in the order in which they first occur.
pub open spec fn collect(base: Seq<char>, chars: Seq<char>) -> Seq<char>
    decreases chars.len(),
{
    if chars.len() == 0 {
        base
    } else {
        let before = collect(base, chars.drop_last());
        if before.contains(chars.last()) {
            before
        } else {
            before.push(chars.last())
        }
    }
}

/// Number of bits that a symbol takes where there are `n` symbols: the
/// least width, but at least 1, with which `n` numbers can be told apart.
pub open spec fn bits_needed(n: nat) -> nat
    decreases n,
{
    if n <= 2 {
        1
    } else {
        1 + bits_needed((n + 1) / 2)
    }
}

/// Collecting from two sequences, one after the other.
pub proof fn lemma_collect_add(base: Seq<char>, a: Seq<char>, b: Seq<char>)
    ensures
        collect(base, a + b) == collect(collect(base, a), b),
    decreases b.len(),
{
    if b.len() == 0 {
        assert(a + b =~= a);
    } else {
        lemma_collect_add(base, a, b.drop_last());
        assert((a + b).drop_last() =~= a + b.drop_last());
        assert((a + b).last() == b.last());
    }
}

/// What was collected holds the base and every symbol collected from, and
/// nothing twice where the base held nothing twice.
pub proof fn lemma_collect_holds(base: Seq<char>, chars: Seq<char>)
    ensures
        forall|i: int| 0 <= i < base.len() ==> collect(base, chars).contains(#[trigger] base[i]),
        forall|i: int| 0 <= i < chars.len() ==> collect(base, chars).contains(#[trigger] chars[i]),
        base.no_duplicates() ==> collect(base, chars).no_duplicates(),
        base.len() <= collect(base, chars).len(),
    decreases chars.len(),
{
    if chars.len() == 0 {
        assert forall|i: int| 0 <= i < base.len() implies base.contains(#[trigger] base[i]) by {}
    } else {
        let rest = chars.drop_last();
        let before = collect(base, rest);
        let all = collect(base, chars);
        lemma_collect_holds(base, rest);
        assert forall|c: char| before.contains(c) implies all.contains(c) by {
            let i = choose|i: int| 0 <= i < before.len() && before[i] == c;
            assert(all[i] == c);
        }
        assert(all.contains(chars.last())) by {
            if !before.contains(chars.last()) {
                assert(all[before.len() as int] == chars.last());
            }
        }
        assert forall|i: int| 0 <= i < chars.len() implies all.contains(#[trigger] chars[i]) by {
            if i < rest.len() {
                assert(rest[i] == chars[i]);
            }
        }
    }
}

/// The bits of `word` where the symbols are numbered as in `symbols` and
/// every number takes `width` bits: the number of the first symbol, lowest
/// bit first, then that of the second symbol, and so on.
pub open spec fn encoding(symbols: Seq<char>, width: nat, word: Seq<char>) -> Seq<bool>
    decreases word.len(),
{
    if word.len() == 0 {
        Seq::empty()
    } else {
        bits_of(symbols.index_of(word[0]) as u64, width) + encoding(symbols, width, word.skip(1))
    }
}

/// The symbols of the words of `raw`, pair by pair, the top word first.
pub open spec fn all_chars(raw: Seq<(String, String)>) -> Seq<char>
    decreases raw.len(),
{
    if raw.len() == 0 {
        Seq::empty()
    } else {
        all_chars(raw.drop_last()) + raw.last().0@ + raw.last().1@
    }
}

/// The alphabet of the words of `raw`: their symbols, each once, in the
/// order in which they first occur.
pub open spec fn symbols_of(raw: Seq<(String, String)>) -> Seq<char> {
    collect(Seq::empty(), all_chars(raw))
}

/// A symbol of a word of `raw` is among the symbols of `raw`.
pub proof fn lemma_all_chars_holds(raw: Seq<(String, String)>, k: int)
    requires
        0 <= k < raw.len(),
    ensures
        forall|i: int| 0 <= i < raw[k].0@.len() ==> all_chars(raw).contains(#[trigger] raw[k].0@[i]),
        forall|i: int| 0 <= i < raw[k].1@.len() ==> all_chars(raw).contains(#[trigger] raw[k].1@[i]),
    decreases raw.len(),
{
    let before = all_chars(raw.drop_last());
    let top = raw.last().0@;
    let bottom = raw.last().1@;
    let all = all_chars(raw);
    if k == raw.len() - 1 {
        assert forall|i: int| 0 <= i < top.len() implies all.contains(#[trigger] top[i]) by {
            assert(all[before.len() + i] == top[i]);
        }
        assert forall|i: int| 0 <= i < bottom.len() implies all.contains(#[trigger] bottom[i]) by {
            assert(all[before.len() + top.len() + i] == bottom[i]);
        }
    } else {
        lemma_all_chars_holds(raw.drop_last(), k);
        assert(raw.drop_last()[k] == raw[k]);
        assert forall|c: char| before.contains(c) implies all.contains(c) by {
            let i = choose|i: int| 0 <= i < before.len() && before[i] == c;
            assert(all[i] == c);
        }
    }
}

/// Every symbol of `word` is among `symbols`.
pub open spec fn holds_all(symbols: Seq<char>, word: Seq<char>) -> bool {
    forall|i: int| 0 <= i < word.len() ==> symbols.contains(#[trigger] word[i])
}

/// The symbols of a problem, with the width of their numbers.
pub struct Alphabet {
    symbol_width: u32,
    symbols: Vec<char>,
}

/// Appends to `symbols` the symbols of `word` that it does not hold yet.
fn add_symbols(symbols: &mut Vec<char>, word: &str)
    ensures
        final(symbols)@ == collect(old(symbols)@, word@),
{
    let n = word.unicode_len();
    let mut i: usize = 0;
    proof {
        assert(word@.take(0) =~= Seq::<char>::empty());
    }
    while i < n
        invariant
            i <= n,
            n == word@.len(),
            symbols@ == collect(old(symbols)@, word@.take(i as int)),
        decreases n - i,
    {
        let c = word.get_char(i);
        proof {
            assert(word@.take(i + 1).drop_last() =~= word@.take(i as int));
            assert(word@.take(i + 1).last() == c);
        }
        if find(symbols, c).is_none() {
            symbols.push(c);
        }
        i += 1;
    }
    proof {
        assert(word@.take(n as int) =~= word@);
    }
}

/// The place of `c` in `symbols`, if it is there.
fn find(symbols: &Vec<char>, c: char) -> (res: Option<usize>)
    ensures
        match res {
            Some(i) => i < symbols@.len() && symbols@[i as int] == c,
            None => !symbols@.contains(c),
        },
{
    let mut i: usize = 0;
    while i < symbols.len()
        invariant
            i <= symbols.len(),
            forall|k: int| 0 <= k < i ==> symbols@[k] != c,
        decreases symbols.len() - i,
    {
        if symbols[i] == c {
            return Some(i);
        }
        i += 1;
    }
    None
}

/// Computes `bits_needed`.
fn width_for(n: usize) -> (w: u32)
    ensures
        w == bits_needed(n as nat),
        1 <= w <= 64,
{
    let mut m: usize = n;
    let mut w: u32 = 1;
    proof {
        assert(pow2_below(1) == 1);
        assert((n - 1) * 1 == n - 1);
    }
    while m > 2
        invariant
            1 <= w <= 64,
            w + bits_needed(m as nat) == 1 + bits_needed(n as nat),
            m <= 2 || (m - 1) * pow2_below(w) <= n - 1,
        decreases m,
    {
        proof {
            lemma_halving(m as nat, n as nat, w);
        }
        m = m / 2 + m % 2;
        w += 1;
    }
    w
}

/// 2 to the power of `w - 1`.
pub open spec fn pow2_below(w: u32) -> nat
    decreases w,
{
    if w <= 1 {
        1
    } else {
        2 * pow2_below((w - 1) as u32)
    }
}

/// Halving `m` once more keeps it in line with the number it came from;
/// that number fits a machine word, so the width stays below 64.
proof fn lemma_halving(m: nat, n: nat, w: u32)
    requires
        m > 2,
        1 <= w <= 64,
        (m - 1) * pow2_below(w) <= n - 1,
        n <= usize::MAX,
    ensures
        ((m + 1) / 2 - 1) * pow2_below((w + 1) as u32) <= n - 1,
        m / 2 + m % 2 == (m + 1) / 2,
        w < 64,
{
    let p = pow2_below(w);
    let h = (m + 1) / 2;
    if w == 64 {
        lemma_pow2_below_64();
        assert(2 * p <= (m - 1) * p) by (nonlinear_arith)
            requires
                m >= 3,
        ;
    }
    assert(pow2_below((w + 1) as u32) == 2 * p);
    assert((h - 1) * (2 * p) <= (m - 1) * p) by (nonlinear_arith)
        requires
            2 * (h - 1) <= m - 1,
            h >= 1,
    ;
}

/// 2 to the power of 63 is what it is.
proof fn lemma_pow2_below_64()
    ensures
        pow2_below(64) == 0x8000_0000_0000_0000,
{
    reveal_with_fuel(pow2_below, 65);
}

/// With the width that they need, `n` numbers fit: `n` is at most 2 to the
/// power of `bits_needed(n)`.
pub proof fn lemma_bits_suffice(n: nat)
    requires
        bits_needed(n) <= 64,
    ensures
        n <= 2 * pow2_below(bits_needed(n) as u32),
    decreases n,
{
    if n > 2 {
        let h = (n + 1) / 2;
        lemma_bits_suffice(h);
    }
}

/// No smaller width would do: where more than one bit is needed, `n` is
/// more than 2 to the power of `bits_needed(n) - 1`.
pub proof fn lemma_bits_are_needed(n: nat)
    requires
        1 < bits_needed(n) <= 64,
    ensures
        n > pow2_below(bits_needed(n) as u32),
    decreases n,
{
    let h = (n + 1) / 2;
    let v: u32 = bits_needed(h) as u32;
    let w: u32 = bits_needed(n) as u32;
    assert(w == v + 1);
    assert(pow2_below(w) == 2 * pow2_below(v));
    if v > 1 {
        lemma_bits_are_needed(h);
    } else {
        assert(pow2_below(v) == 1);
    }
}

/// A number below 2 to the power of `w` has no bit set from `w` on.
proof fn lemma_small_number(id: u64, w: u32)
    requires
        1 <= w < 64,
        id < 2 * pow2_below(w),
    ensures
        id >> w == 0,
{
    lemma_pow2_shift(w);
    let bound: u64 = 1u64 << w;
    assert(id >> w == 0) by (bit_vector)
        requires
            w < 64,
            bound == 1u64 << w,
            id < bound,
    ;
}

/// 2 to the power of `w`, as a shift.
proof fn lemma_pow2_shift(w: u32)
    requires
        1 <= w < 64,
    ensures
        2 * pow2_below(w) == (1u64 << w),
    decreases w,
{
    if w == 1 {
        assert(1u64 << 1u32 == 2) by (bit_vector);
    } else {
        let v: u32 = (w - 1) as u32;
        lemma_pow2_shift(v);
        assert((1u64 << w) == 2 * (1u64 << v)) by (bit_vector)
            requires
                1 <= v < 63,
                w == v + 1,
        ;
    }
}

/// Why a problem was turned down.
#[derive(Copy, Clone, PartialEq, Eq, Structural, Debug)]
pub enum InputError {
    /// A word takes more than `VAL_BITS` bits.
    WordTooLong,
    /// There is no pair.
    NoPairs,
}

impl Alphabet {
    /// The symbols, each at the place of its number.
    pub closed spec fn spec_symbols(&self) -> Seq<char> {
        self.symbols@
    }

    /// Number of bits that a symbol takes.
    pub closed spec fn spec_width(&self) -> nat {
        self.symbol_width as nat
    }

    /// No symbol occurs twice, and the width is the one that their number
    /// needs.
    pub open spec fn wf(&self) -> bool {
        &&& self.spec_symbols().no_duplicates()
        &&& self.spec_width() == bits_needed(self.spec_symbols().len())
    }

    /// The number of the symbol `c`.
    pub open spec fn spec_id(&self, c: char) -> int {
        self.spec_symbols().index_of(c)
    }

    /// Every symbol of `word` is a symbol of the alphabet.
    pub open spec fn knows(&self, word: Seq<char>) -> bool {
        holds_all(self.spec_symbols(), word)
    }

    /// The bits of `word`: the number of its first symbol, lowest bit first,
    /// then that of its second symbol, and so on.
    pub open spec fn spec_encode(&self, word: Seq<char>) -> Seq<bool> {
        encoding(self.spec_symbols(), self.spec_width(), word)
    }

    /// The alphabet of the symbols of `chars`.
    pub fn from_iter(chars: &str) -> (a: Alphabet)
        ensures
            a.wf(),
            a.spec_symbols() == collect(Seq::empty(), chars@),
    {
        let mut symbols: Vec<char> = Vec::new();
        add_symbols(&mut symbols, chars);
        proof {
            lemma_collect_holds(Seq::empty(), chars@);
        }
        let width = width_for(symbols.len());
        Alphabet { symbol_width: width, symbols: symbols }
    }

    /// The alphabet of the words of `raw`.
    pub fn from_raw(raw: &Vec<(String, String)>) -> (a: Alphabet)
        ensures
            a.wf(),
            a.spec_symbols() == symbols_of(raw@),
            forall|k: int|
                0 <= k < raw@.len() ==> a.knows((#[trigger] raw@[k]).0@) && a.knows(raw@[k].1@),
    {
        let mut symbols: Vec<char> = Vec::new();
        let mut k: usize = 0;
        proof {
            assert(raw@.take(0) =~= Seq::<(String, String)>::empty());
        }
        while k < raw.len()
            invariant
                k <= raw.len(),
                symbols@ == symbols_of(raw@.take(k as int)),
            decreases raw.len() - k,
        {
            let ghost before = all_chars(raw@.take(k as int));
            let pair = &raw[k];
            add_symbols(&mut symbols, pair.0.as_str());
            add_symbols(&mut symbols, pair.1.as_str());
            proof {
                assert(raw@.take(k + 1).drop_last() =~= raw@.take(k as int));
                assert(raw@.take(k + 1).last() == raw@[k as int]);
                lemma_collect_add(Seq::empty(), before, pair.0@);
                lemma_collect_add(Seq::empty(), before + pair.0@, pair.1@);
            }
            k += 1;
        }
        proof {
            assert(raw@.take(k as int) =~= raw@);
            lemma_collect_holds(Seq::empty(), all_chars(raw@));
            assert forall|k: int| 0 <= k < raw@.len() implies holds_all(
                symbols@,
                (#[trigger] raw@[k]).0@,
            ) && holds_all(symbols@, raw@[k].1@) by {
                lemma_all_chars_holds(raw@, k);
                let all = all_chars(raw@);
                assert forall|c: char| all.contains(c) implies symbols@.contains(c) by {
                    let i = choose|i: int| 0 <= i < all.len() && all[i] == c;
                    assert(symbols@.contains(all[i]));
                }
            }
        }
        let width = width_for(symbols.len());
        Alphabet { symbol_width: width, symbols: symbols }
    }

    /// Number of symbols.
    pub fn symbol_count(&self) -> (n: usize)
        ensures
            n == self.spec_symbols().len(),
    {
        self.symbols.len()
    }

    /// Number of bits that a symbol takes.
    pub fn symbol_width(&self) -> (w: u32)
        ensures
            w == self.spec_width(),
    {
        self.symbol_width
    }

    /// Packs `inp` into a word, unless it takes more than `VAL_BITS` bits.
    pub fn encode(&self, inp: &str) -> (res: Result<SPart, InputError>)
        requires
            self.wf(),
            self.knows(inp@),
        ensures
            res is Ok <==> inp@.len() * self.spec_width() <= VAL_BITS,
            res matches Ok(p) ==> p.wf() && p@ == self.spec_encode(inp@),
            res matches Err(e) ==> e == InputError::WordTooLong,
    {
        let n = inp.unicode_len();
        let width: u32 = self.symbol_width;
        let mut len: blk = 0;
        let mut val: blk = 0;
        let mut i: usize = n;
        proof {
            assert(inp@.skip(n as int) =~= Seq::<char>::empty());
            assert(bits_of(0, 0) =~= Seq::<bool>::empty());
            assert(0u64 >> 0u64 == 0) by (bit_vector);
            assert((n - i) * width == 0) by (nonlinear_arith)
                requires
                    n - i == 0,
            ;
        }

        while i > 0
            invariant
                i <= n,
                n == inp@.len(),
                self.wf(),
                self.knows(inp@),
                width == self.spec_width(),
                len == (n - i) * width,
                len <= 56,
                val >> len == 0,
                bits_of(val, len as nat) == encoding(
                    self.spec_symbols(),
                    self.spec_width(),
                    inp@.skip(i as int),
                ),
            decreases i,
        {
            i -= 1;
            let c = inp.get_char(i);
            let ghost rest = inp@.skip(i + 1);
            proof {
                assert(inp@.skip(i as int).skip(1) =~= rest);
                assert(inp@.skip(i as int)[0] == c);
                assert((n - i) * width == (n - (i + 1)) * width + width) by (nonlinear_arith);
            }
            if len + width as blk > 56 {
                proof {
                    assert(n * width >= (n - i) * width) by (nonlinear_arith)
                        requires
                            n >= n - i,
                            n - i >= 0,
                    ;
                }
                return Err(InputError::WordTooLong);
            }
            match find(&self.symbols, c) {
                None => {
                    proof {
                        assert(self.spec_symbols().contains(inp@[i as int]));
                    }
                    return Err(InputError::WordTooLong);
                },
                Some(idx) => {
                    let id: blk = idx as blk;
                    let merged: blk = id | (val << width);
                    proof {
                        assert(self.spec_id(c) == idx);
                        lemma_bits_suffice(self.symbols@.len());
                        lemma_small_number(id, width);
                        assert forall|j: u64| j < 64 implies (#[trigger] bit_at(merged, j) == (if j
                            < width {
                            bit_at(id, j)
                        } else {
                            bit_at(val, (j - width) as u64)
                        })) by {
                            lemma_merge_bit(id, val, width as u64, len, j);
                        }
                        lemma_merge_bit(id, val, width as u64, len, 0);
                        let now = bits_of(merged, (len + width) as nat);
                        let want = bits_of(id, width as nat) + bits_of(val, len as nat);
                        assert forall|j: int| 0 <= j < len + width implies now[j] == want[j] by {
                            assert(now[j] == bit_at(merged, j as u64));
                        }
                        assert(now =~= want);
                    }
                    val = merged;
                    len += width as blk;
                },
            }
        }

        proof {
            assert(inp@.skip(0) =~= inp@);
        }
        Ok(SPart::new(len, val))
    }
}

} // verus!
