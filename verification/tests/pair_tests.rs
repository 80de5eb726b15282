use pcp_search::bits::mask;
use pcp_search::pair::{CapacityError, Leading, SPair, SPart, VPair, BCNT, VAL_BITS, VAL_MASK};

fn part(bits: &str) -> SPart {
    let mut val: u64 = 0;
    for (i, c) in bits.chars().enumerate() {
        if c == '1' {
            val |= 1 << i;
        }
    }
    SPart::new(bits.len() as u64, val)
}

fn residual(v: &VPair) -> String {
    let mut s = String::new();
    for i in 0..v.len() {
        s.push(if v.bit(i) { '1' } else { '0' });
    }
    s
}

#[test]
fn new_state_is_complete_and_empty() {
    let v = VPair::new();
    assert!(v.is_complete());
    assert_eq!(v.len(), 0);
    assert_eq!(v.leading(), Leading::Top);
}

#[test]
fn part_keeps_length_and_value() {
    let p = SPart::new(5, 0b10110);
    assert_eq!(p.len(), 5);
    assert_eq!(p.data(), 0b10110);
}

#[test]
fn apply_match_appends_lead() {
    let v = VPair::new();
    let p = SPair::new(part("010"), part("0"));
    let n = v.apply(&p).unwrap();
    assert_eq!(n.leading(), Leading::Top);
    assert_eq!(residual(&n), "10");
    assert!(!n.is_complete());
}

#[test]
fn apply_lead_switch_hands_over() {
    let v = VPair::new();
    let p = SPair::new(part("0"), part("01"));
    let n = v.apply(&p).unwrap();
    assert_eq!(n.leading(), Leading::Bot);
    assert_eq!(residual(&n), "1");
}

#[test]
fn apply_mismatch_gives_nothing() {
    let v = VPair::new();
    let p = SPair::new(part("0"), part("1"));
    assert!(v.apply(&p).is_none());
}

fn text(p: &SPart) -> String {
    (0..p.len()).map(|i| if (p.data() >> i) & 1 == 1 { '1' } else { '0' }).collect()
}

fn after(pairs: &[(&str, &str)]) -> VPair {
    let mut v = VPair::new();
    for (a, b) in pairs {
        v = v.apply(&SPair::new(part(a), part(b))).unwrap();
    }
    v
}

const ONES: &str = "11111111111111111111111111111111111111111111111111111111";

#[test]
fn constants_are_those_of_a_64_bit_block() {
    assert_eq!(BCNT, 5);
    assert_eq!(VAL_BITS, 56);
    assert_eq!(VAL_MASK, (1u64 << 56) - 1);
    assert_eq!(ONES.len(), 56);
}

#[test]
fn mask_sets_the_low_bits() {
    assert_eq!(mask(0), 0);
    assert_eq!(mask(1), 1);
    assert_eq!(mask(5), 0b11111);
    assert_eq!(mask(63), u64::MAX >> 1);
}

#[test]
fn switched_is_the_other_side() {
    assert_eq!(Leading::Top.switched(), Leading::Bot);
    assert_eq!(Leading::Bot.switched(), Leading::Top);
}

#[test]
fn shift_drops_low_bits() {
    let mut p = part("10110");
    p.shift(2);
    assert_eq!(text(&p), "110");
    let mut q = part("10110");
    assert_eq!(q.shift_data(3), 0b101);
    assert_eq!(text(&q), "10");
    let mut r = part("10110");
    assert_eq!(r.shift_data(0), 0);
    assert_eq!(text(&r), "10110");
}

#[test]
fn shift_prefix_strips_the_common_prefix() {
    let mut a = part("1101");
    let mut b = part("1110");
    SPart::shift_prefix(&mut a, &mut b);
    assert_eq!(text(&a), "01");
    assert_eq!(text(&b), "10");
    assert_ne!(a.data() & 1, b.data() & 1);
    SPart::shift_prefix(&mut a, &mut b);
    assert_eq!(text(&a), "01");
    assert_eq!(text(&b), "10");
}

#[test]
fn shift_prefix_stops_at_the_shorter_word() {
    let mut a = part("101");
    let mut b = part("10111");
    SPart::shift_prefix(&mut a, &mut b);
    assert_eq!(a.len(), 0);
    assert_eq!(text(&b), "11");
    let mut c = part(ONES);
    let mut d = part(ONES);
    SPart::shift_prefix(&mut c, &mut d);
    assert_eq!(c.len(), 0);
    assert_eq!(d.len(), 0);
    let mut e = part("");
    let mut f = part("1");
    SPart::shift_prefix(&mut e, &mut f);
    assert_eq!(e.len(), 0);
    assert_eq!(text(&f), "1");
}

#[test]
fn apply_mismatch_within_the_residual() {
    let v = after(&[("010", "0")]);
    assert_eq!(residual(&v), "10");
    assert!(v.apply(&SPair::new(part("0"), part("0"))).is_none());
}

#[test]
fn apply_mismatch_behind_the_residual() {
    let v = after(&[("010", "0")]);
    assert!(v.apply(&SPair::new(part("0"), part("101"))).is_none());
}

#[test]
fn apply_match_keeps_the_rest_and_appends() {
    let v = after(&[("010", "0")]);
    let n = v.apply(&SPair::new(part("11"), part("1"))).unwrap();
    assert_eq!(n.leading(), Leading::Top);
    assert_eq!(residual(&n), "011");
}

#[test]
fn apply_lead_switch_with_bits_left() {
    let v = after(&[("010", "0")]);
    let n = v.apply(&SPair::new(part("0"), part("1001"))).unwrap();
    assert_eq!(n.leading(), Leading::Bot);
    assert_eq!(residual(&n), "1");
    assert!(!n.is_complete());
}

#[test]
fn apply_lead_switch_with_nothing_left_is_complete() {
    let v = after(&[("010", "0")]);
    let n = v.apply(&SPair::new(part("0"), part("100"))).unwrap();
    assert!(n.is_complete());
    assert_eq!(n.len(), 0);
    assert_eq!(n.leading(), Leading::Bot);
}

#[test]
fn apply_bottom_leading_takes_the_top_word_as_follower() {
    let v = after(&[("0", "01")]);
    assert_eq!(v.leading(), Leading::Bot);
    assert!(v.apply(&SPair::new(part("10"), part("1"))).is_none());
    assert!(v.apply(&SPair::new(part("11"), part("1"))).unwrap().is_complete());
    let n = v.apply(&SPair::new(part("110"), part("1"))).unwrap();
    assert_eq!(n.leading(), Leading::Top);
    assert_eq!(residual(&n), "0");
    let m = v.apply(&SPair::new(part("1"), part("00"))).unwrap();
    assert_eq!(m.leading(), Leading::Bot);
    assert_eq!(residual(&m), "00");
}

#[test]
fn apply_matches_across_the_end_of_a_block() {
    let v = after(&[(ONES, ""), (ONES, ""), ("0", ONES)]);
    assert_eq!(v.len(), 57);
    assert_eq!(residual(&v), format!("{}0", ONES));
    let n = v.apply(&SPair::new(part("0"), part(ONES))).unwrap();
    assert_eq!(n.leading(), Leading::Top);
    assert_eq!(residual(&n), "00");
}

#[test]
fn apply_mismatch_in_the_second_block() {
    let v = after(&[(ONES, ""), (ONES, ""), ("0", ONES)]);
    let follower = format!("{}0", &ONES[1..]);
    assert!(v.apply(&SPair::new(part("0"), part(&follower))).is_none());
}

#[test]
fn apply_drops_a_block_that_is_used_up() {
    let v = after(&[(ONES, ""), (ONES, "")]);
    assert_eq!(v.len(), 112);
    let w = v.apply(&SPair::new(part("01"), part(ONES))).unwrap();
    assert_eq!(w.len(), 58);
    let eight = "11111111";
    let x = w.apply(&SPair::new(part("0"), part(eight))).unwrap();
    assert_eq!(residual(&x), format!("{}010", &ONES[..48]));
    assert_eq!(x.leading(), Leading::Top);
}

#[test]
fn apply_leaves_the_state_as_it_was() {
    let v = after(&[("010", "0")]);
    let p = SPair::new(part("11"), part("1"));
    let first = v.apply(&p).unwrap();
    let second = v.apply(&p).unwrap();
    assert_eq!(residual(&v), "10");
    assert_eq!(residual(&first), residual(&second));
    assert_eq!(first.leading(), second.leading());
}

#[test]
fn empty_lead_word_hands_the_lead_over() {
    let v = after(&[("11", "")]);
    assert_eq!(residual(&v), "11");
    let n = v.apply(&SPair::new(part(""), part("1"))).unwrap();
    assert_eq!(n.leading(), Leading::Bot);
    assert!(n.is_complete());
}

#[test]
fn try_apply_fails_where_the_blocks_run_out() {
    let mut v = VPair::new();
    let grow = SPair::new(part(ONES), part(""));
    for n in 1..=5 {
        v = v.try_apply(&grow).unwrap().unwrap();
        assert_eq!(v.len(), 56 * n);
    }
    assert_eq!(v.try_apply(&grow).err(), Some(CapacityError));
    let small = SPair::new(part(&ONES[..39]), part(""));
    let w = v.try_apply(&small).unwrap().unwrap();
    assert_eq!(w.len(), 319);
    assert!(w.try_apply(&SPair::new(part("1"), part(""))).is_err());
    assert!(w.try_apply(&SPair::new(part("1"), part("1"))).is_err());
    assert!(w.try_apply(&SPair::new(part("1"), part("0"))).unwrap().is_none());
}
