use pcp_search::stats::{
    chunk_allocated, chunk_deallocated, pairs_applied, pairs_successfully_applied, span, Counters,
    IterStats,
};

#[test]
fn counters_count() {
    let mut c = Counters::new();
    chunk_allocated(&mut c);
    chunk_allocated(&mut c);
    chunk_deallocated(&mut c);
    pairs_applied(&mut c, 7);
    pairs_applied(&mut c, 5);
    pairs_successfully_applied(&mut c, 3);
    assert_eq!(c.chunk_alloc, 2);
    assert_eq!(c.chunk_dealloc, 1);
    assert_eq!(c.pair_apply, 12);
    assert_eq!(c.pair_apply_success, 3);
}

#[test]
fn counters_wrap_around() {
    let mut c = Counters::new();
    c.chunk_alloc = usize::MAX;
    c.pair_apply = usize::MAX - 1;
    chunk_allocated(&mut c);
    pairs_applied(&mut c, 3);
    assert_eq!(c.chunk_alloc, 0);
    assert_eq!(c.pair_apply, 1);
}

#[test]
fn counters_merge_adds_up() {
    let mut a = Counters::new();
    let mut b = Counters::new();
    chunk_allocated(&mut a);
    pairs_applied(&mut a, 4);
    chunk_allocated(&mut b);
    chunk_deallocated(&mut b);
    pairs_applied(&mut b, 6);
    pairs_successfully_applied(&mut b, 2);
    a.merge(b);
    assert_eq!(a.chunk_alloc, 2);
    assert_eq!(a.chunk_dealloc, 1);
    assert_eq!(a.pair_apply, 10);
    assert_eq!(a.pair_apply_success, 2);
}

#[test]
fn span_is_the_signed_difference() {
    assert_eq!(span(5, 7), 2);
    assert_eq!(span(7, 5), -2);
    assert_eq!(span(u64::MAX, 1), 2);
    assert_eq!(span(0, i64::MAX as u64), i64::MAX);
    assert_eq!(span(0, i64::MAX as u64 + 1), i64::MIN);
    assert_eq!(span(3, 3), 0);
}

#[test]
fn progress_is_reported_once_a_second() {
    let mut s = IterStats::starting_at(100);
    assert!(!s.start(100));
    assert!(!s.start(1_000_000_099));
    assert_eq!(s.iter_cnt(), 2);
    assert!(s.start(1_000_000_100));
    assert!(!s.start(1_500_000_000));
    assert!(!s.start(2_000_000_099));
    assert!(s.start(2_000_000_100));
    assert_eq!(s.iter_cnt(), 6);
}

#[test]
fn iteration_times_add_up() {
    let mut s = IterStats::starting_at(0);
    assert_eq!(s.iter_duration(), 0);
    s.stop(10, 25);
    s.stop(30, 130);
    s.stop(200, 199);
    assert_eq!(s.iter_duration(), 15 + 100 - 1);
    let fresh = IterStats::new();
    assert_eq!(fresh.iter_cnt(), 0);
    assert_eq!(fresh.iter_duration(), 0);
}
