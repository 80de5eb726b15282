use std::cmp::Ordering;

use pcp_search::analyze::{analyze, and_then, cmp_nodes};
use pcp_search::chunk_vec::Chunk;
use pcp_search::config::{Config, IPair};
use pcp_search::merge::MultiMergeIter;
use pcp_search::pair::{Leading, SPair, SPart, VPair};
use pcp_search::solve::{
    expand_chunk, expand_node, IterState, Node, NodeReader, NodeWriter, SolveState,
};
use pcp_search::stats::Counters;

fn part(bits: &str) -> SPart {
    let mut val: u64 = 0;
    for (i, c) in bits.chars().enumerate() {
        if c == '1' {
            val |= 1 << i;
        }
    }
    SPart::new(bits.len() as u64, val)
}

fn pairs(words: &[(&str, &str)]) -> Vec<IPair> {
    let mut id = 0;
    words
        .iter()
        .map(|(a, b)| {
            id += 1;
            IPair { pair: SPair::new(part(a), part(b)), sum_inc: id, depth_inc: 1 }
        })
        .collect()
}

fn node(words: &[(&str, &str)]) -> Node {
    let mut n = Node::new();
    for p in pairs(words) {
        n = n.apply(&p).unwrap();
    }
    n
}

fn live(state: &SolveState) -> usize {
    state.pool_len() + state.current_len() + state.next_len()
}

#[test]
fn iter_state_counts_and_stops() {
    let mut it = IterState::new(2);
    assert!(!it.is_success());
    assert_eq!(it.next(), Some(()));
    assert_eq!(it.next(), Some(()));
    assert_eq!(it.next(), None);
    assert_eq!(it.iter_cnt, 2);

    let mut it = IterState::new(5);
    assert_eq!(it.next(), Some(()));
    it.report_success();
    assert!(it.is_success());
    assert_eq!(it.next(), None);
    assert_eq!(it.iter_cnt, 2);

    let mut it = IterState::new(5);
    it.interrupt();
    assert!(!it.is_success());
    assert_eq!(it.next(), None);

    let mut it = IterState::new(0);
    assert_eq!(it.next(), None);
    assert_eq!(it.iter_cnt, 0);
}

#[test]
fn node_apply_adds_label_and_depth() {
    let ps = pairs(&[("1", "101"), ("10", "00"), ("011", "11")]);
    let first = Node::new().apply(&ps[0]).unwrap();
    assert_eq!((first.sum, first.depth), (1, 1));
    let second = first.apply(&ps[2]).unwrap();
    assert_eq!((second.sum, second.depth), (4, 2));
    assert_eq!(second.pair.leading(), Leading::Bot);
    assert!(Node::new().apply(&ps[1]).is_none());
}

#[test]
fn node_label_and_depth_wrap_at_16_bits() {
    let step = IPair { pair: SPair::new(part("1"), part("1")), sum_inc: 40000, depth_inc: 65535 };
    let one = Node::new().apply(&step).unwrap();
    let two = one.apply(&step).unwrap();
    assert_eq!(one.sum, 40000);
    assert_eq!(two.sum, 14464);
    assert_eq!(one.depth, 65535);
    assert_eq!(two.depth, 65534);
}

#[test]
fn a_fresh_state_holds_the_start() {
    let mut counters = Counters::new();
    let mut state = SolveState::new(&mut counters);
    assert_eq!(counters.chunk_alloc, 1);
    assert_eq!((state.pool_len(), state.current_len(), state.next_len()), (0, 1, 0));
    let chunk = state.pop().unwrap();
    assert_eq!(chunk.len(), 1);
    assert!(chunk.as_slice()[0].pair.is_complete());
    assert!(state.pop().is_none());
    state.offer(chunk);
    assert_eq!(state.pool_len(), 1);
    assert_eq!(state.new_chunk(&mut counters).len(), 0);
    assert_eq!(counters.chunk_alloc, 1);
    assert_eq!(state.new_chunk_with(Node::new(), &mut counters).len(), 1);
    assert_eq!(counters.chunk_alloc, 2);
}

#[test]
fn a_writer_moves_full_chunks_to_the_next_working_set() {
    let mut counters = Counters::new();
    let mut state = SolveState::new(&mut counters);
    let mut writer = NodeWriter::new(&mut state, &mut counters);
    let cap = Chunk::<Node>::cap();
    for _ in 0..cap {
        writer.push(&mut state, Node::new(), &mut counters);
    }
    assert_eq!(state.next_len(), 0);
    writer.push(&mut state, node(&[("1", "101")]), &mut counters);
    assert_eq!(state.next_len(), 1);
    assert_eq!(counters.chunk_alloc, 3);
    assert_eq!(counters.chunk_alloc, live(&state) + 1);
    writer.finish(&mut state);
    assert_eq!(state.next_len(), 2);
    assert_eq!(counters.chunk_alloc - counters.chunk_dealloc, live(&state));
    let first = state.pop().unwrap();
    state.offer(first);
    state.swap();
    let last = state.pop().unwrap();
    assert_eq!(last.len(), 1);
    assert_eq!(last.as_slice()[0].depth, 1);
    assert_eq!(state.pop().unwrap().len(), cap);
}

#[test]
fn expand_node_puts_out_the_successors_in_the_order_of_the_pairs() {
    let ps = pairs(&[("1", "101"), ("10", "00"), ("011", "11"), ("1", "1")]);
    let mut counters = Counters::new();
    let mut state = SolveState::new(&mut counters);
    let mut iter = IterState::new(9);
    let mut found = Vec::new();
    let mut writer = NodeWriter::new(&mut state, &mut counters);
    let res =
        expand_node(&Node::new(), &ps, &mut writer, &mut state, &mut iter, &mut found, &mut counters);
    assert!(res.is_ok());
    writer.finish(&mut state);
    assert_eq!(counters.pair_apply, 4);
    assert_eq!(counters.pair_apply_success, 2);
    assert!(iter.is_success());
    assert_eq!(found.len(), 1);
    assert_eq!(found[0].sum, 4);
    let first = state.pop().unwrap();
    state.offer(first);
    state.swap();
    let out = NodeReader::new(state.pop().unwrap());
    let sums: Vec<u16> = out.nodes().iter().map(|n| n.sum).collect();
    assert_eq!(sums, vec![1, 4]);
    out.release(&mut state);
    assert_eq!(counters.chunk_alloc - counters.chunk_dealloc, live(&state));
}

#[test]
fn expand_chunk_goes_node_by_node() {
    let ps = pairs(&[("1", "101"), ("0", "0")]);
    let nodes = vec![Node::new(), node(&[("1", "101")])];
    let mut counters = Counters::new();
    let mut state = SolveState::new(&mut counters);
    let mut iter = IterState::new(9);
    let mut found = Vec::new();
    let mut writer = NodeWriter::new(&mut state, &mut counters);
    let res =
        expand_chunk(&nodes, &ps, &mut writer, &mut state, &mut iter, &mut found, &mut counters);
    assert!(res.is_ok());
    writer.finish(&mut state);
    assert_eq!(counters.pair_apply, 4);
    assert_eq!(counters.pair_apply_success, 3);
    let first = state.pop().unwrap();
    state.offer(first);
    state.swap();
    let out = state.pop().unwrap();
    let tags: Vec<(u16, u16)> = out.as_slice().iter().map(|n| (n.depth, n.sum)).collect();
    assert_eq!(tags, vec![(1, 1), (1, 2), (2, 3)]);
}

#[test]
fn one_pass_expands_the_whole_working_set() {
    let ps = pairs(&[("1", "101"), ("10", "00"), ("011", "11")]);
    let mut counters = Counters::new();
    let mut state = SolveState::new(&mut counters);
    let mut iter = IterState::new(50);
    let mut found = Vec::new();
    let mut applied = 0;
    let mut size = 1;
    for depth in 1..=4 {
        assert_eq!(iter.next(), Some(()));
        assert!(state.expand(&ps, &mut iter, &mut found, &mut counters).is_ok());
        assert_eq!(state.current_len(), 0);
        assert_eq!(counters.chunk_alloc - counters.chunk_dealloc, live(&state));
        state.swap();
        assert_eq!(state.next_len(), 0);
        applied += size * 3;
        assert_eq!(counters.pair_apply, applied);
        let chunk = state.pop().unwrap();
        assert!(chunk.as_slice().iter().all(|n| n.depth == depth));
        size = chunk.len();
        state.give(chunk);
        assert_eq!(iter.is_success(), depth == 4);
    }
    assert_eq!(found.len(), 1);
    assert_eq!((found[0].depth, found[0].sum), (4, 9));
    assert_eq!(iter.next(), None);
    state.teardown(&mut counters);
    assert_eq!(counters.chunk_alloc, counters.chunk_dealloc);
}

#[test]
fn an_interrupt_ends_the_search_after_the_iteration() {
    let ps = pairs(&[("0", "00")]);
    let mut counters = Counters::new();
    let mut state = SolveState::new(&mut counters);
    let mut iter = IterState::new(usize::MAX);
    let mut found = Vec::new();
    let mut rounds = 0;
    while iter.next().is_some() {
        assert!(state.expand(&ps, &mut iter, &mut found, &mut counters).is_ok());
        state.swap();
        rounds += 1;
        if rounds == 3 {
            iter.interrupt();
        }
    }
    assert_eq!(rounds, 3);
    assert!(!iter.is_success());
    assert!(found.is_empty());
    state.teardown(&mut counters);
    assert_eq!(counters.chunk_alloc, counters.chunk_dealloc);
}

#[test]
fn shares_of_a_state_can_be_worked_on_apart() {
    let ps = pairs(&[("1", "11"), ("1", "1")]);
    let mut counters = Counters::new();
    let mut state = SolveState::new(&mut counters);
    for word in ["1", "11", "111"] {
        state.give(Chunk::from_vec(vec![node(&[("1", "1"), ("", word)])]));
    }
    let mut shares = vec![SolveState::empty(), SolveState::empty()];
    let mut turn = 0;
    while let Some(chunk) = state.pop() {
        shares[turn % 2].give(chunk);
        turn += 1;
    }
    assert_eq!(turn, 4);
    let mut found = Vec::new();
    for mut share in shares {
        let mut own = Counters::new();
        let mut iter = IterState::new(1);
        assert!(share.expand(&ps, &mut iter, &mut found, &mut own).is_ok());
        counters.merge(own);
        state.absorb(share);
    }
    assert_eq!(counters.pair_apply, 8);
    assert_eq!(state.current_len(), 0);
    assert_eq!(state.next_len(), 2);
    assert_eq!(state.pool_len(), 4);
    assert_eq!(counters.chunk_alloc, 1 + 2);
    state.swap();
    let sorted = analyze(state.take_working_set());
    let total: usize = sorted.iter().map(|c| c.len()).sum();
    assert_eq!(total, counters.pair_apply_success);
}

#[test]
fn nodes_are_ordered_by_side_then_length() {
    let top_short = node(&[("1", "")]);
    let top_long = node(&[("11", "")]);
    let bot_short = node(&[("", "1")]);
    assert_eq!(cmp_nodes(&top_short, &top_long), Ordering::Less);
    assert_eq!(cmp_nodes(&top_long, &top_short), Ordering::Greater);
    assert_eq!(cmp_nodes(&top_long, &bot_short), Ordering::Less);
    assert_eq!(cmp_nodes(&bot_short, &top_short), Ordering::Greater);
    assert_eq!(cmp_nodes(&top_short, &node(&[("0", "")])), Ordering::Equal);
    assert_eq!(and_then(Ordering::Equal, Ordering::Less), Ordering::Less);
    assert_eq!(and_then(Ordering::Greater, Ordering::Less), Ordering::Greater);
    assert_eq!(and_then(Ordering::Equal, Ordering::Equal), Ordering::Equal);
}

#[test]
fn analyze_sorts_every_chunk() {
    let a = vec![node(&[("", "11")]), node(&[("111", "")]), node(&[("1", "")]), node(&[("", "1")])];
    let b = vec![node(&[("11", "")]), node(&[("1", "")])];
    let sorted = analyze(vec![Chunk::from_vec(a), Chunk::from_vec(b)]);
    let keys = |c: &Chunk<Node>| -> Vec<(Leading, u32)> {
        c.as_slice().iter().map(|n| (n.pair.leading(), n.pair.len())).collect()
    };
    assert_eq!(
        keys(&sorted[0]),
        vec![(Leading::Top, 1), (Leading::Top, 3), (Leading::Bot, 1), (Leading::Bot, 2)]
    );
    assert_eq!(keys(&sorted[1]), vec![(Leading::Top, 1), (Leading::Top, 2)]);
}

#[test]
fn a_configuration_has_at_least_one_worker() {
    let config = Config::new(pairs(&[("0", "1")]), None);
    assert!(config.thread_cnt >= 1);
    assert_eq!(config.max_iter, usize::MAX);
    assert_eq!(Config::new(Vec::new(), Some(3)).max_iter, 3);
    let _ = VPair::new();
}

#[test]
fn the_bound_on_iterations_is_a_decimal_number() {
    assert_eq!(Config::parse_max_iter("123"), Some(123));
    assert_eq!(Config::parse_max_iter("+7"), Some(7));
    assert_eq!(Config::parse_max_iter("007"), Some(7));
    assert_eq!(Config::parse_max_iter("0"), Some(0));
    assert_eq!(Config::parse_max_iter(""), None);
    assert_eq!(Config::parse_max_iter("+"), None);
    assert_eq!(Config::parse_max_iter("-1"), None);
    assert_eq!(Config::parse_max_iter("12a"), None);
    assert_eq!(Config::parse_max_iter(" 1"), None);
    assert_eq!(Config::parse_max_iter("1+"), None);
    assert_eq!(Config::parse_max_iter("99999999999999999999999999"), None);
    assert_eq!(Config::parse_max_iter(&usize::MAX.to_string()), Some(usize::MAX));
    assert_eq!(Config::parse_max_iter(&format!("{}0", usize::MAX)), None);
}

#[test]
fn sorted_chunks_are_read_as_one_sorted_sequence() {
    let a = vec![node(&[("", "11")]), node(&[("111", "")]), node(&[("1", "")]), node(&[("", "1")])];
    let b = vec![node(&[("11", "")]), node(&[("1", "")]), node(&[("", "111")])];
    let sorted = analyze(vec![Chunk::from_vec(a), Chunk::from_vec(Vec::new()), Chunk::from_vec(b)]);
    let mut merged = MultiMergeIter::new(sorted);
    let mut keys = Vec::new();
    while let Some(n) = merged.next() {
        keys.push((n.pair.leading(), n.pair.len()));
    }
    assert_eq!(
        keys,
        vec![
            (Leading::Top, 1),
            (Leading::Top, 1),
            (Leading::Top, 2),
            (Leading::Top, 3),
            (Leading::Bot, 1),
            (Leading::Bot, 2),
            (Leading::Bot, 3),
        ]
    );
    assert!(merged.next().is_none());
    assert!(MultiMergeIter::new(Vec::new()).next().is_none());
}

#[test]
fn of_nodes_that_stand_alike_the_first_chunk_goes_first() {
    let a = vec![node(&[("1", "")])];
    let b = vec![node(&[("0", "")])];
    let mut merged = MultiMergeIter::new(vec![Chunk::from_vec(a), Chunk::from_vec(b)]);
    assert!(merged.next().unwrap().pair.bit(0));
    assert!(!merged.next().unwrap().pair.bit(0));
}
