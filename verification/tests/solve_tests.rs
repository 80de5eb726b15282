use pcp_search::config::{Config, IPair};
use pcp_search::pair::{SPair, SPart};
use pcp_search::solve::{solve, SolveError};

fn part(bits: &str) -> SPart {
    let mut val: u64 = 0;
    for (i, c) in bits.chars().enumerate() {
        if c == '1' {
            val |= 1 << i;
        }
    }
    SPart::new(bits.len() as u64, val)
}

fn problem(words: &[(&str, &str)], max_iter: usize) -> Config {
    let mut pairs = Vec::new();
    let mut id: u16 = 1;
    for (a, b) in words {
        pairs.push(IPair { pair: SPair::new(part(a), part(b)), sum_inc: id, depth_inc: 1 });
        id += 1;
    }
    Config::new(pairs, Some(max_iter))
}

#[test]
fn pcp_b_is_solved_at_small_depth() {
    let config = problem(&[("1", "101"), ("10", "00"), ("011", "11")], 50);
    let report = solve(&config).unwrap();
    assert!(report.success);
    assert!(!report.found.is_empty());
    assert_eq!(report.found[0].depth, 4);
    assert_eq!(report.iterations, 4);
    assert_eq!(report.counters.chunk_alloc, report.counters.chunk_dealloc);
}

#[test]
fn pcp_without_solution_runs_all_iterations() {
    let config = problem(&[("0", "1")], 20);
    let report = solve(&config).unwrap();
    assert!(!report.success);
    assert!(report.found.is_empty());
    assert_eq!(report.iterations, 20);
    assert_eq!(report.counters.pair_apply, 1);
    assert_eq!(report.counters.pair_apply_success, 0);
}

#[test]
fn residual_that_outgrows_its_blocks_is_an_error() {
    let config = problem(&[("11", "1")], 1000);
    assert_eq!(solve(&config).err(), Some(SolveError::Capacity));
}
