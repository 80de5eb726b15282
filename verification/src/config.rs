//! The problem to solve: its pairs, and the bounds of the search.

use vstd::prelude::*;
use vstd::string::*;
use crate::alphabet::{bits_needed, encoding, symbols_of, Alphabet, InputError};
use crate::pair::{SPair, VAL_BITS};
use crate::residual::Words;

verus! {

/// A pair of the problem with what it adds to a node's label and depth.
#[derive(Copy, Clone, Debug)]
pub struct IPair {
    /// The two words.
    pub pair: SPair,
    /// What the pair adds to the label of a node.
    pub sum_inc: u16,
    /// What the pair adds to the depth of a node.
    pub depth_inc: u16,
}

/// A pair as the search sees it: its two words and its two increments.
pub struct Rule {
    /// The two words as bit strings.
    pub words: Words,
    /// What the pair adds to the label of a node.
    pub sum_inc: u16,
    /// What the pair adds to the depth of a node.
    pub depth_inc: u16,
}

impl View for IPair {
    type V = Rule;

    open spec fn view(&self) -> Rule {
        Rule { words: self.pair@, sum_inc: self.sum_inc, depth_inc: self.depth_inc }
    }
}

/// What a search is run with.
pub struct Config {
    /// The pairs, in the order in which they are applied to a node.
    pub pairs: Vec<IPair>,
    /// Number of iterations after which the search gives up.
    pub max_iter: usize,
    /// Number of workers.
    pub thread_cnt: u32,
}

/// The pairs as the search sees them, in configuration order.
pub open spec fn rules_of(pairs: Seq<IPair>) -> Seq<Rule> {
    pairs.map_values(|p: IPair| p@)
}

/// Every pair consists of well-formed words.
pub open spec fn pairs_wf(pairs: Seq<IPair>) -> bool {
    forall|j: int| 0 <= j < pairs.len() ==> (#[trigger] pairs[j]).pair.wf()
}

/// Number of processors that the machine offers to this process.
///
/// This is `num_cpus::get`, whose documentation promises at least 1.
#[verifier::external_body]
fn cpu_count() -> (n: usize)
    ensures
        n >= 1,
{
    num_cpus::get()
}

impl Config {
    /// The configuration of a search for `pairs` with at most `max_iter`
    /// iterations, without a bound where none is given, and with one
    /// worker for each processor of the machine.
    pub fn new(pairs: Vec<IPair>, max_iter: Option<usize>) -> (c: Config)
        ensures
            c.pairs == pairs,
            c.max_iter == (match max_iter {
                Some(n) => n,
                None => usize::MAX,
            }),
    {
        let max_iter = match max_iter {
            Some(n) => n,
            None => usize::MAX,
        };
        let cpus: usize = cpu_count();
        Config { pairs: pairs, max_iter: max_iter, thread_cnt: #[verifier::truncate] (cpus as u32) }
    }
}

/// The word `word` of the problem `raw` fits into a packed word.
pub open spec fn word_fits(raw: Seq<(String, String)>, word: Seq<char>) -> bool {
    word.len() * bits_needed(symbols_of(raw).len()) <= VAL_BITS
}

/// Every word of the problem `raw` fits into a packed word.
pub open spec fn words_fit(raw: Seq<(String, String)>) -> bool {
    forall|k: int|
        0 <= k < raw.len() ==> word_fits(raw, (#[trigger] raw[k]).0@) && word_fits(raw, raw[k].1@)
}

/// The pair of the search that stands for pair `k` of the problem `raw`:
/// its words encoded, its label `k + 1` counted modulo 2^16, its depth 1.
pub open spec fn rule_of(raw: Seq<(String, String)>, k: int) -> Rule {
    let symbols = symbols_of(raw);
    let width = bits_needed(symbols.len());
    Rule {
        words: Words {
            top: encoding(symbols, width, raw[k].0@),
            bottom: encoding(symbols, width, raw[k].1@),
        },
        sum_inc: ((k + 1) % 0x1_0000) as u16,
        depth_inc: 1,
    }
}

impl Config {
    /// The pairs of the search for the problem `raw`: an error where there
    /// is no pair, or where a word does not fit into a packed word.
    pub fn pairs_from_raw(raw: &Vec<(String, String)>) -> (res: Result<Vec<IPair>, InputError>)
        ensures
            res == Err::<Vec<IPair>, InputError>(InputError::NoPairs) <==> raw@.len() == 0,
            res is Ok <==> raw@.len() > 0 && words_fit(raw@),
            res matches Ok(pairs) ==> {
                &&& pairs@.len() == raw@.len()
                &&& pairs_wf(pairs@)
                &&& forall|k: int| 0 <= k < pairs@.len() ==> (#[trigger] pairs@[k])@ == rule_of(raw@, k)
            },
    {
        if raw.len() == 0 {
            return Err(InputError::NoPairs);
        }
        let alphabet = Alphabet::from_raw(raw);

        let mut id: u16 = 1;
        let mut pairs: Vec<IPair> = Vec::new();
        let mut k: usize = 0;

        while k < raw.len()
            invariant
                k <= raw.len(),
                raw@.len() > 0,
                alphabet.wf(),
                alphabet.spec_symbols() == symbols_of(raw@),
                forall|j: int|
                    0 <= j < raw@.len() ==> alphabet.knows((#[trigger] raw@[j]).0@)
                        && alphabet.knows(raw@[j].1@),
                id == (k + 1) % 0x1_0000,
                pairs@.len() == k,
                pairs_wf(pairs@),
                forall|j: int| 0 <= j < k ==> (#[trigger] pairs@[j])@ == rule_of(raw@, j),
                forall|j: int|
                    0 <= j < k ==> word_fits(raw@, (#[trigger] raw@[j]).0@) && word_fits(raw@, raw@[j].1@),
            decreases raw.len() - k,
        {
            let entry = &raw[k];
            proof {
                assert(alphabet.knows(raw@[k as int].0@));
            }
            let a = match alphabet.encode(entry.0.as_str()) {
                Ok(a) => a,
                Err(e) => {
                    return Err(e);
                },
            };
            let b = match alphabet.encode(entry.1.as_str()) {
                Ok(b) => b,
                Err(e) => {
                    return Err(e);
                },
            };
            let pair = SPair::new(a, b);

            pairs.push(IPair { pair: pair, sum_inc: id, depth_inc: 1 });

            id = id.wrapping_add(1);
            k += 1;
        }

        Ok(pairs)
    }
}

/// Whether `c` is white space, as `char::is_whitespace` decides it.
pub uninterp spec fn is_space(c: char) -> bool;

/// Whether `c` is white space.
///
/// This is `char::is_whitespace`; the contract gives its result a name.
#[verifier::external_body]
fn is_whitespace(c: char) -> (b: bool)
    ensures
        b == is_space(c),
{
    c.is_whitespace()
}

/// The word `cur` as a sequence of words: itself, or nothing where it is
/// empty.
pub open spec fn word_if_any(cur: Seq<char>) -> Seq<Seq<char>> {
    if cur.len() > 0 {
        seq![cur]
    } else {
        Seq::empty()
    }
}

/// The words of `cur` followed by `s`, where `cur` holds no white space: the
/// longest stretches without white space.
pub open spec fn tokens_from(s: Seq<char>, cur: Seq<char>) -> Seq<Seq<char>>
    decreases s.len(),
{
    if s.len() == 0 {
        word_if_any(cur)
    } else if is_space(s[0]) {
        word_if_any(cur) + tokens_from(s.skip(1), Seq::empty())
    } else {
        tokens_from(s.skip(1), cur.push(s[0]))
    }
}

/// The words of a line: its longest stretches without white space.
pub open spec fn tokens(line: Seq<char>) -> Seq<Seq<char>> {
    tokens_from(line, Seq::empty())
}

/// What a line of a problem holds.
#[derive(Debug)]
pub enum Line {
    /// No word.
    Empty,
    /// Two words: the top and the bottom word of a pair.
    Pair(String, String),
    /// Some other number of words.
    Malformed,
}

/// The strings as sequences of symbols.
pub open spec fn texts(words: Seq<String>) -> Seq<Seq<char>> {
    words.map_values(|w: String| w@)
}

/// The pairs that the lines give, in the order of the lines: a pair for
/// every line of two words.
pub open spec fn raw_pairs(lines: Seq<Seq<char>>) -> Seq<(Seq<char>, Seq<char>)>
    decreases lines.len(),
{
    if lines.len() == 0 {
        Seq::empty()
    } else {
        let before = raw_pairs(lines.drop_last());
        let words = tokens(lines.last());
        if words.len() == 2 {
            before.push((words[0], words[1]))
        } else {
            before
        }
    }
}

/// The lines that hold neither no word nor two, by their numbers from 0.
pub open spec fn malformed(lines: Seq<Seq<char>>) -> Seq<usize>
    decreases lines.len(),
{
    if lines.len() == 0 {
        Seq::empty()
    } else {
        let before = malformed(lines.drop_last());
        let words = tokens(lines.last());
        if words.len() == 0 || words.len() == 2 {
            before
        } else {
            before.push((lines.len() - 1) as usize)
        }
    }
}

/// The pairs as pairs of sequences of symbols.
pub open spec fn pair_texts(raw: Seq<(String, String)>) -> Seq<(Seq<char>, Seq<char>)> {
    raw.map_values(|p: (String, String)| (p.0@, p.1@))
}

impl Config {
    /// The words of `line`.
    pub fn split_line(line: &str) -> (words: Vec<String>)
        ensures
            texts(words@) == tokens(line@),
    {
        let n = line.unicode_len();
        let mut words: Vec<String> = Vec::new();
        let mut start: usize = 0;
        let mut in_word: bool = false;
        let mut i: usize = 0;
        proof {
            assert(line@.skip(0) =~= line@);
            assert(texts(words@) =~= Seq::<Seq<char>>::empty());
            assert(texts(words@) + tokens(line@) =~= tokens(line@));
        }
        while i < n
            invariant
                i <= n,
                n == line@.len(),
                in_word ==> start < i,
                tokens(line@) == texts(words@) + tokens_from(
                    line@.skip(i as int),
                    if in_word {
                        line@.subrange(start as int, i as int)
                    } else {
                        Seq::empty()
                    },
                ),
            decreases n - i,
        {
            let c = line.get_char(i);
            let ghost cur = if in_word {
                line@.subrange(start as int, i as int)
            } else {
                Seq::empty()
            };
            let ghost done = texts(words@);
            proof {
                assert(line@.skip(i as int).skip(1) =~= line@.skip(i + 1));
                assert(line@.skip(i as int)[0] == c);
            }
            if is_whitespace(c) {
                if in_word {
                    words.push(line.substring_char(start, i).to_owned());
                    in_word = false;
                    proof {
                        assert(texts(words@) =~= done + word_if_any(cur));
                    }
                } else {
                    proof {
                        assert(done + word_if_any(cur) =~= done);
                    }
                }
                proof {
                    assert(done + (word_if_any(cur) + tokens_from(
                        line@.skip(i + 1),
                        Seq::empty(),
                    )) =~= (done + word_if_any(cur)) + tokens_from(
                        line@.skip(i + 1),
                        Seq::empty(),
                    ));
                }
            } else {
                if !in_word {
                    start = i;
                    in_word = true;
                }
                proof {
                    assert(line@.subrange(start as int, i + 1) =~= cur.push(c));
                }
            }
            i += 1;
        }
        if in_word {
            let ghost done = texts(words@);
            words.push(line.substring_char(start, n).to_owned());
            proof {
                assert(texts(words@) =~= done + word_if_any(line@.subrange(start as int, n as int)));
            }
        } else {
            proof {
                assert(texts(words@) + word_if_any(Seq::<char>::empty()) =~= texts(words@));
            }
        }
        proof {
            assert(line@.skip(n as int) =~= Seq::<char>::empty());
        }
        words
    }

    /// What `line` holds.
    pub fn parse_line(line: &str) -> (res: Line)
        ensures
            res is Empty <==> tokens(line@).len() == 0,
            res is Pair <==> tokens(line@).len() == 2,
            res matches Line::Pair(a, b) ==> a@ == tokens(line@)[0] && b@ == tokens(line@)[1],
    {
        let mut words = Config::split_line(line);
        proof {
            assert(texts(words@).len() == words@.len());
            if words@.len() == 2 {
                assert(texts(words@)[0] == words@[0]@);
                assert(texts(words@)[1] == words@[1]@);
            }
        }
        if words.len() == 0 {
            Line::Empty
        } else if words.len() != 2 {
            Line::Malformed
        } else {
            let b = words.pop();
            let a = words.pop();
            match (a, b) {
                (Some(a), Some(b)) => Line::Pair(a, b),
                _ => Line::Malformed,
            }
        }
    }

    /// The pairs that `lines` give, and the numbers of the lines that are
    /// malformed. Lines without a word are passed over.
    pub fn raw_pairs_from_lines(lines: &Vec<String>) -> (res: (Vec<(String, String)>, Vec<usize>))
        ensures
            pair_texts(res.0@) == raw_pairs(texts(lines@)),
            res.1@ == malformed(texts(lines@)),
    {
        let mut raw: Vec<(String, String)> = Vec::new();
        let mut bad: Vec<usize> = Vec::new();
        let mut k: usize = 0;
        let ghost all = texts(lines@);
        proof {
            assert(all.take(0) =~= Seq::<Seq<char>>::empty());
            assert(pair_texts(raw@) =~= Seq::<(Seq<char>, Seq<char>)>::empty());
        }
        while k < lines.len()
            invariant
                k <= lines.len(),
                all == texts(lines@),
                pair_texts(raw@) == raw_pairs(all.take(k as int)),
                bad@ == malformed(all.take(k as int)),
            decreases lines.len() - k,
        {
            let ghost before = pair_texts(raw@);
            proof {
                assert(all.take(k + 1).drop_last() =~= all.take(k as int));
                assert(all.take(k + 1).last() == lines@[k as int]@);
            }
            match Config::parse_line(lines[k].as_str()) {
                Line::Empty => {},
                Line::Pair(a, b) => {
                    raw.push((a, b));
                    proof {
                        assert(pair_texts(raw@) =~= before.push((a@, b@)));
                    }
                },
                Line::Malformed => {
                    bad.push(k);
                },
            }
            k += 1;
        }
        proof {
            assert(all.take(k as int) =~= all);
        }
        (raw, bad)
    }
}

/// The value of the decimal digit `c`.
pub open spec fn digit_value(c: char) -> Option<nat> {
    if '0' <= c <= '9' {
        Some((c as nat - '0' as nat) as nat)
    } else {
        None
    }
}

/// The number that the decimal digits `s` write; `None` where `s` is empty
/// or holds anything but digits.
pub open spec fn decimal(s: Seq<char>) -> Option<nat>
    decreases s.len(),
{
    if s.len() == 0 {
        None
    } else {
        match digit_value(s.last()) {
            Some(d) => if s.len() == 1 {
                Some(d)
            } else {
                match decimal(s.drop_last()) {
                    Some(v) => Some(10 * v + d),
                    None => None,
                }
            },
            None => None,
        }
    }
}

/// The bound on the iterations that `text` names: decimal digits, with or
/// without a plus sign before them, that write a number of the machine's
/// word size.
pub open spec fn spec_max_iter(text: Seq<char>) -> Option<usize> {
    let digits = if text.len() > 0 && text[0] == '+' {
        text.skip(1)
    } else {
        text
    };
    match decimal(digits) {
        Some(v) => if v <= usize::MAX {
            Some(v as usize)
        } else {
            None
        },
        None => None,
    }
}

/// A number only grows with more digits.
proof fn lemma_decimal_grows(s: Seq<char>, k: int)
    requires
        1 <= k <= s.len(),
        decimal(s) is Some,
    ensures
        decimal(s.take(k)) is Some,
        decimal(s.take(k)).unwrap() <= decimal(s).unwrap(),
    decreases s.len(),
{
    if k == s.len() {
        assert(s.take(k) =~= s);
    } else {
        lemma_decimal_grows(s.drop_last(), k);
        assert(s.drop_last().take(k) =~= s.take(k));
    }
}

/// Where some digits are not a number, no more digits make them one.
proof fn lemma_decimal_fails(s: Seq<char>, k: int)
    requires
        1 <= k <= s.len(),
        decimal(s.take(k)) is None,
    ensures
        decimal(s) is None,
    decreases s.len(),
{
    if k == s.len() {
        assert(s.take(k) =~= s);
    } else {
        assert(s.drop_last().take(k) =~= s.take(k));
        lemma_decimal_fails(s.drop_last(), k);
    }
}

impl Config {
    /// The bound on the iterations that `text` names, if it names one.
    pub fn parse_max_iter(text: &str) -> (res: Option<usize>)
        ensures
            res == spec_max_iter(text@),
    {
        let n = text.unicode_len();
        let mut i: usize = 0;
        if n > 0 && text.get_char(0) == '+' {
            i = 1;
        }
        let first = i;
        let ghost digits = text@.skip(first as int);
        proof {
            assert(text@.skip(0) =~= text@);
        }
        if i == n {
            return None;
        }
        let mut value: usize = 0;
        while i < n
            invariant
                first <= i <= n,
                first < n,
                n == text@.len(),
                digits == text@.skip(first as int),
                digits == (if text@.len() > 0 && text@[0] == '+' {
                    text@.skip(1)
                } else {
                    text@
                }),
                i == first ==> value == 0,
                i > first ==> decimal(digits.take(i - first)) == Some(value as nat),
            decreases n - i,
        {
            let c = text.get_char(i);
            proof {
                assert(digits.take(i + 1 - first).drop_last() =~= digits.take(i - first));
                assert(digits.take(i + 1 - first).last() == c);
            }
            if c < '0' || c > '9' {
                proof {
                    lemma_decimal_fails(digits, i + 1 - first);
                }
                return None;
            }
            let d: usize = (c as u32 - '0' as u32) as usize;
            let next = match value.checked_mul(10) {
                Some(v) => v.checked_add(d),
                None => None,
            };
            match next {
                Some(v) => {
                    value = v;
                },
                None => {
                    proof {
                        if decimal(digits) is Some {
                            lemma_decimal_grows(digits, i + 1 - first);
                        }
                    }
                    return None;
                },
            }
            i += 1;
        }
        proof {
            assert(digits.take(n - first) =~= digits);
        }
        Some(value)
    }
}

} // verus!
