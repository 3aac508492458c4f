use wordpal::entry::Entry;

#[test]
fn parse_two_fields_is_fresh() {
    let e = Entry::parse_from_line(b"a;; b", 0).unwrap();
    assert_eq!(e.word, b"a".to_vec());
    assert_eq!(e.tr_word, b"b".to_vec());
    assert_eq!(e.cur_iter, 0);
    assert_eq!(e.timeout, 0);
    assert!(!e.timed_out);
}

#[test]
fn parse_without_real_delimiter_is_dropped() {
    // Double semicolons without the trailing space are no delimiter.
    assert!(Entry::parse_from_line(b"a;;b;;c", 0).is_none());
}

#[test]
fn parse_three_fields_is_dropped() {
    assert!(Entry::parse_from_line(b"a;; b;; 1", 0).is_none());
}

#[test]
fn parse_five_fields_is_dropped() {
    assert!(Entry::parse_from_line(b"a;; b;; 1;; 2;; 3", 0).is_none());
}

#[test]
fn parse_one_field_is_dropped() {
    assert!(Entry::parse_from_line(b"word", 0).is_none());
}

#[test]
fn parse_four_fields_keeps_numbers() {
    let e = Entry::parse_from_line(b"dum;; house;; 2;; 100", 50).unwrap();
    assert_eq!(e.word, b"dum".to_vec());
    assert_eq!(e.tr_word, b"house".to_vec());
    assert_eq!(e.cur_iter, 2);
    assert_eq!(e.timeout, 100);
    assert!(e.timed_out);
}

#[test]
fn parse_timeout_equal_to_clock_is_not_resting() {
    // Only a timeout strictly in the future marks the record resting.
    let e = Entry::parse_from_line(b"a;; b;; 0;; 100", 100).unwrap();
    assert!(!e.timed_out);
}

#[test]
fn parse_non_numeric_iteration_is_dropped() {
    assert!(Entry::parse_from_line(b"a;; b;; x;; 5", 0).is_none());
}

#[test]
fn parse_non_numeric_timeout_is_dropped() {
    assert!(Entry::parse_from_line(b"a;; b;; 1;; later", 0).is_none());
}

#[test]
fn parse_empty_number_field_is_dropped() {
    assert!(Entry::parse_from_line(b"a;; b;; ;; 5", 0).is_none());
}

#[test]
fn parse_overflowing_timeout_is_dropped() {
    assert!(Entry::parse_from_line(b"a;; b;; 1;; 99999999999999999999", 0).is_none());
}

#[test]
fn parse_largest_timeout_is_kept() {
    let e = Entry::parse_from_line(b"a;; b;; 1;; 18446744073709551615", 0).unwrap();
    assert_eq!(e.timeout, u64::MAX);
    assert!(e.timed_out);
}

#[test]
fn parse_plus_sign_is_accepted() {
    let e = Entry::parse_from_line(b"a;; b;; +1;; +5", 0).unwrap();
    assert_eq!(e.cur_iter, 1);
    assert_eq!(e.timeout, 5);
}

#[test]
fn parse_oversized_iteration_is_clamped() {
    let e = Entry::parse_from_line(b"a;; b;; 100;; 0", 0).unwrap();
    assert_eq!(e.cur_iter, 4);
}

#[test]
fn parse_empty_fields_are_kept() {
    let e = Entry::parse_from_line(b";; ", 0).unwrap();
    assert_eq!(e.word, Vec::<u8>::new());
    assert_eq!(e.tr_word, Vec::<u8>::new());
}

#[test]
fn encode_fresh_entry() {
    let e = Entry::parse_from_line(b"w;; t", 0).unwrap();
    assert_eq!(e.db_repr(), b"w;; t;; 0;; 0".to_vec());
}

#[test]
fn encode_tracked_entry() {
    let e = Entry::parse_from_line(b"w;; t;; 3;; 86400", 0).unwrap();
    assert_eq!(e.db_repr(), b"w;; t;; 3;; 86400".to_vec());
}

#[test]
fn round_trip_tracked_entry() {
    let now = 500;
    let e = Entry::parse_from_line(b"slovo;; word;; 2;; 1000", now).unwrap();
    let again = Entry::parse_from_line(&e.db_repr(), now).unwrap();
    assert_eq!(e.word, again.word);
    assert_eq!(e.tr_word, again.tr_word);
    assert_eq!(e.cur_iter, again.cur_iter);
    assert_eq!(e.timeout, again.timeout);
    assert_eq!(e.timed_out, again.timed_out);
}

#[test]
fn round_trip_fresh_entry() {
    let e = Entry::parse_from_line(b"pes;; dog", 77).unwrap();
    let again = Entry::parse_from_line(&e.db_repr(), 77).unwrap();
    assert_eq!(e.word, again.word);
    assert_eq!(e.tr_word, again.tr_word);
    assert_eq!(e.cur_iter, again.cur_iter);
    assert_eq!(e.timeout, again.timeout);
    assert_eq!(e.timed_out, again.timed_out);
}
