use pcp_search::alphabet::{Alphabet, InputError};
use pcp_search::config::{Config, Line};
use pcp_search::pair::{CapacityError, Leading, VPair};
use pcp_search::solve::{solve, Node};

fn raw(words: &[(&str, &str)]) -> Vec<(String, String)> {
    words.iter().map(|(a, b)| (a.to_string(), b.to_string())).collect()
}

#[test]
fn split_line_gives_the_words() {
    assert_eq!(Config::split_line("  ab \t cde  f"), vec!["ab", "cde", "f"]);
    assert!(Config::split_line(" \t ").is_empty());
    assert!(Config::split_line("").is_empty());
}

#[test]
fn parse_line_tells_lines_apart() {
    assert!(matches!(Config::parse_line(""), Line::Empty));
    assert!(matches!(Config::parse_line("   "), Line::Empty));
    assert!(matches!(Config::parse_line("one"), Line::Malformed));
    assert!(matches!(Config::parse_line("a b c"), Line::Malformed));
    match Config::parse_line(" 010\t0 ") {
        Line::Pair(a, b) => {
            assert_eq!(a, "010");
            assert_eq!(b, "0");
        }
        other => panic!("{:?}", other),
    }
}

#[test]
fn lines_give_pairs_and_malformed_lines() {
    let lines: Vec<String> =
        ["010 0", "", "bad", "0 01", "a b c", "101 0100"].iter().map(|s| s.to_string()).collect();
    let (pairs, bad) = Config::raw_pairs_from_lines(&lines);
    assert_eq!(pairs, raw(&[("010", "0"), ("0", "01"), ("101", "0100")]));
    assert_eq!(bad, vec![2, 4]);
}

#[test]
fn alphabet_numbers_symbols_by_first_occurrence() {
    let a = Alphabet::from_raw(&raw(&[("ba", "c"), ("ab", "d")]));
    assert_eq!(a.symbol_count(), 4);
    assert_eq!(a.symbol_width(), 2);
    // b = 0, a = 1, c = 2, d = 3; first symbol in the lowest bits
    let p = a.encode("abcd").unwrap();
    assert_eq!(p.len(), 8);
    assert_eq!(p.data(), 0b11_10_00_01);
}

#[test]
fn alphabet_width_is_at_least_one() {
    assert_eq!(Alphabet::from_iter("").symbol_width(), 1);
    assert_eq!(Alphabet::from_iter("aaa").symbol_width(), 1);
    assert_eq!(Alphabet::from_iter("ab").symbol_width(), 1);
    assert_eq!(Alphabet::from_iter("abc").symbol_width(), 2);
    assert_eq!(Alphabet::from_iter("abcd").symbol_width(), 2);
    assert_eq!(Alphabet::from_iter("abcde").symbol_width(), 3);
    assert_eq!(Alphabet::from_iter("abcdefgh").symbol_width(), 3);
    assert_eq!(Alphabet::from_iter("abcdefghi").symbol_width(), 4);
}

#[test]
fn word_of_more_than_56_bits_is_turned_down() {
    let a = Alphabet::from_iter("01");
    let long = "01".repeat(28);
    assert_eq!(a.encode(&long).unwrap().len(), 56);
    let longer = format!("{}0", long);
    assert_eq!(a.encode(&longer).err(), Some(InputError::WordTooLong));
    assert_eq!(
        Config::pairs_from_raw(&raw(&[("0", "1"), (&longer, "1")])).err(),
        Some(InputError::WordTooLong)
    );
}

#[test]
fn no_pairs_is_an_error() {
    assert_eq!(Config::pairs_from_raw(&Vec::new()).err(), Some(InputError::NoPairs));
}

#[test]
fn pairs_are_labelled_from_one() {
    let pairs = Config::pairs_from_raw(&raw(&[("1", "101"), ("10", "00"), ("011", "11")])).unwrap();
    assert_eq!(pairs.len(), 3);
    assert_eq!(pairs[0].sum_inc, 1);
    assert_eq!(pairs[2].sum_inc, 3);
    assert_eq!(pairs[1].depth_inc, 1);
}

const PCP_A: &str = "121112121112110201121011021101210112112110120112011211211102111120112010210112021110211100100211101021011201010102100100211100001010101120111000021111201110112021110210211101021010010210010010010101010000111021010010";

#[test]
fn pcp_a_has_a_solution_of_216_pairs() {
    let pairs = Config::pairs_from_raw(&raw(&[("010", "0"), ("0", "01"), ("101", "0100")])).unwrap();
    let mut node = Node::new();
    for (step, c) in PCP_A.chars().enumerate() {
        let pair = &pairs[c.to_digit(10).unwrap() as usize];
        node = node.try_apply(pair).unwrap().unwrap();
        assert_eq!(node.pair.is_complete(), step == 215);
    }
    assert_eq!(node.depth, 216);
    assert_eq!(node.sum, 396);
}

#[test]
fn pcp_a_has_no_solution_of_up_to_100_pairs() {
    let pairs = Config::pairs_from_raw(&raw(&[("010", "0"), ("0", "01"), ("101", "0100")])).unwrap();
    let report = solve(&Config::new(pairs, Some(100))).unwrap();
    assert!(!report.success);
    assert_eq!(report.iterations, 100);
    assert_eq!(report.counters.chunk_alloc, report.counters.chunk_dealloc);
}

#[test]
fn pcp_c_is_solved() {
    let pairs = Config::pairs_from_raw(&raw(&[
        ("001", "0"),
        ("01", "011"),
        ("01", "101"),
        ("10", "001"),
    ]))
    .unwrap();
    let report = solve(&Config::new(pairs, Some(100))).unwrap();
    assert!(report.success);
    assert_eq!(report.iterations, 66);
    assert_eq!(report.found[0].depth, 66);
}

#[test]
fn single_symbol_residual_grows_by_one() {
    let pairs = Config::pairs_from_raw(&raw(&[("aa", "a")])).unwrap();
    let mut v = VPair::new();
    for n in 1..=256 {
        v = v.apply(&pairs[0].pair).unwrap();
        assert_eq!(v.len(), n);
        assert_eq!(v.leading(), Leading::Top);
        assert!((0..n).all(|i| !v.bit(i)));
    }
    let mut steps = 256;
    loop {
        match v.try_apply(&pairs[0].pair) {
            Ok(next) => v = next.unwrap(),
            Err(e) => {
                assert_eq!(e, CapacityError);
                break;
            }
        }
        steps += 1;
        assert_eq!(v.len(), steps);
    }
    assert!(steps < 320);
}
