use wordpal::entry::{Entry, DAY};
use wordpal::rng::{Rng, SEED};

#[test]
fn advance_forward_steps_through_delay_table() {
    let mut e = Entry::parse_from_line(b"a;; b", 0).unwrap();
    let expected_days: [u64; 5] = [1, 7, 14, 30, 30];
    for days in expected_days {
        e.timed_out = false;
        e.update_timeout(true, 1000);
        assert!(e.timed_out);
        assert_eq!(e.timeout, 1000 + days * DAY);
    }
}

#[test]
fn advance_forward_never_leaves_the_table() {
    let mut e = Entry::parse_from_line(b"a;; b", 0).unwrap();
    for _ in 0..10 {
        e.timed_out = false;
        e.update_timeout(true, 0);
        assert!(e.cur_iter <= 4);
    }
    assert_eq!(e.cur_iter, 4);
}

#[test]
fn advance_backward_never_goes_below_zero() {
    let mut e = Entry::parse_from_line(b"a;; b;; 2;; 0", 0).unwrap();
    for _ in 0..10 {
        e.timed_out = false;
        e.update_timeout(false, 0);
    }
    assert_eq!(e.cur_iter, 0);
}

#[test]
fn advance_backward_uses_the_lower_step() {
    let mut e = Entry::parse_from_line(b"a;; b;; 2;; 0", 0).unwrap();
    e.update_timeout(false, 100);
    assert_eq!(e.cur_iter, 1);
    assert_eq!(e.timeout, 100 + DAY);
}

#[test]
fn second_advance_changes_nothing() {
    let mut e = Entry::parse_from_line(b"a;; b", 0).unwrap();
    e.update_timeout(true, 100);
    let iter_after_first = e.cur_iter;
    let timeout_after_first = e.timeout;
    e.update_timeout(true, 99999);
    assert_eq!(e.cur_iter, iter_after_first);
    assert_eq!(e.timeout, timeout_after_first);
    e.update_timeout(false, 7);
    assert_eq!(e.cur_iter, iter_after_first);
    assert_eq!(e.timeout, timeout_after_first);
}

#[test]
fn resting_entry_is_never_touched() {
    let mut e = Entry::parse_from_line(b"a;; b;; 3;; 1000", 10).unwrap();
    assert!(e.timed_out);
    e.update_timeout(true, 5000);
    assert_eq!(e.cur_iter, 3);
    assert_eq!(e.timeout, 1000);
}

#[test]
fn fresh_forward_advance_waits_one_day() {
    let mut e = Entry::parse_from_line(b"a;; b", 0).unwrap();
    e.update_timeout(true, 0);
    assert_eq!(e.cur_iter, 1);
    assert_eq!(e.timeout, DAY);
}

#[test]
fn fresh_backward_advance_stays_at_zero_days() {
    let mut e = Entry::parse_from_line(b"a;; b", 0).unwrap();
    e.update_timeout(false, 42);
    assert_eq!(e.cur_iter, 0);
    assert_eq!(e.timeout, 42);
    assert!(e.timed_out);
}

#[test]
fn generators_with_the_same_seed_agree() {
    let mut a = Rng::new();
    let mut b = Rng::new();
    for _ in 0..32 {
        assert_eq!(a.rand(), b.rand());
    }
    for _ in 0..32 {
        assert_eq!(a.range(3, 17), b.range(3, 17));
    }
}

#[test]
fn generator_starts_at_the_fixed_seed() {
    let mut r = Rng::new();
    assert_eq!(r.rand(), SEED);
}

#[test]
fn range_folds_the_draw_into_the_bounds() {
    let mut r = Rng::new();
    let v = r.range(0, 9);
    assert_eq!(v, SEED % 10);
    let mut r2 = Rng::new();
    let w = r2.range(5, 5);
    assert_eq!(w, 5);
}

#[test]
fn generator_sequence_varies() {
    let mut r = Rng::new();
    let first = r.rand();
    let second = r.rand();
    assert_ne!(first, second);
}
