use wordpal::db::Database;
use wordpal::entry::DAY;
use wordpal::rng::SEED;

#[test]
fn load_partitions_by_resting_flag() {
    let contents = b"due;; a;; 1;; 1000\nready;; b;; 2;; 10\nfresh;; c\n";
    let db = Database::load(contents, 100);
    assert_eq!(db.usable.len(), 2);
    assert_eq!(db.unusable.len(), 1);
    assert_eq!(db.usable[0].word, b"ready".to_vec());
    assert_eq!(db.usable[1].word, b"fresh".to_vec());
    assert_eq!(db.unusable[0].word, b"due".to_vec());
    assert!(db.usable.iter().all(|e| !e.timed_out));
    assert!(db.unusable.iter().all(|e| e.timed_out));
}

#[test]
fn load_drops_unreadable_lines() {
    let contents = b"good;; a\nbad line\nworse;; b;; x;; 1\nalso good;; c\n";
    let db = Database::load(contents, 0);
    assert_eq!(db.usable.len(), 2);
    assert_eq!(db.unusable.len(), 0);
}

#[test]
fn load_handles_crlf_lines() {
    let contents = b"a;; b\r\nc;; d;; 1;; 999\r\n";
    let db = Database::load(contents, 10);
    assert_eq!(db.usable.len(), 1);
    assert_eq!(db.usable[0].tr_word, b"b".to_vec());
    assert_eq!(db.unusable.len(), 1);
    assert_eq!(db.unusable[0].timeout, 999);
}

#[test]
fn load_without_trailing_newline() {
    let db = Database::load(b"a;; b\nc;; d", 0);
    assert_eq!(db.usable.len(), 2);
}

#[test]
fn load_empty_file_is_empty_store() {
    let db = Database::load(b"", 0);
    assert_eq!(db.usable.len(), 0);
    assert_eq!(db.unusable.len(), 0);
}

#[test]
fn empty_store_has_no_pick() {
    let mut db = Database::load(b"", 0);
    assert!(db.random_entry().is_none());
}

#[test]
fn exhausted_store_has_no_pick() {
    // Every record rests, so there is nothing to pick.
    let mut db = Database::load(b"a;; b;; 1;; 1000\n", 10);
    assert!(db.random_entry().is_none());
}

#[test]
fn pick_returns_a_copy_and_its_position() {
    let mut db = Database::load(b"a;; b\nc;; d\ne;; f\n", 0);
    let (e, i) = db.random_entry().unwrap();
    assert!(i < db.usable.len());
    assert_eq!(e.word, db.usable[i].word);
    assert_eq!(e.tr_word, db.usable[i].tr_word);
    assert_eq!(i as u64, SEED % 3);
}

#[test]
fn update_moves_the_record_to_the_resting_side() {
    let mut db = Database::load(b"a;; b\n", 0);
    db.update_timeout(0, true, 50);
    assert_eq!(db.usable.len(), 0);
    assert_eq!(db.unusable.len(), 1);
    assert_eq!(db.unusable[0].cur_iter, 1);
    assert_eq!(db.unusable[0].timeout, 50 + DAY);
    assert!(db.unusable[0].timed_out);
}

#[test]
fn stale_handle_changes_nothing() {
    let mut db = Database::load(b"a;; b\nc;; d\n", 0);
    db.update_timeout(5, true, 0);
    assert_eq!(db.usable.len(), 2);
    assert_eq!(db.unusable.len(), 0);
    assert!(!db.usable[0].timed_out);
}

#[test]
fn update_fills_the_hole_with_the_last_record() {
    let mut db = Database::load(b"a;; b\nc;; d\ne;; f\n", 0);
    db.update_timeout(0, false, 0);
    assert_eq!(db.usable.len(), 2);
    assert_eq!(db.usable[0].word, b"e".to_vec());
    assert_eq!(db.usable[1].word, b"c".to_vec());
    assert_eq!(db.unusable[0].word, b"a".to_vec());
}

#[test]
fn render_writes_every_record_on_its_line() {
    let db = Database::load(b"a;; b\n", 0);
    assert_eq!(db.db_contents(), b"a;; b;; 0;; 0\n".to_vec());
}

#[test]
fn render_puts_shown_records_first() {
    let now = 100;
    let db = Database::load(b"rest;; a;; 3;; 5000\ngo;; b;; 1;; 10\n", now);
    assert_eq!(db.db_contents(), b"go;; b;; 1;; 10\nrest;; a;; 3;; 5000\n".to_vec());
}

#[test]
fn reload_of_rendered_store_restores_it() {
    let now = 100;
    let mut db = Database::load(b"a;; b\nc;; d\ne;; f;; 2;; 90000\n", now);
    db.update_timeout(1, true, now);
    let reloaded = Database::load(&db.db_contents(), now);
    assert_eq!(reloaded.usable.len(), db.usable.len());
    assert_eq!(reloaded.unusable.len(), db.unusable.len());
    for (a, b) in reloaded.usable.iter().zip(db.usable.iter()) {
        assert_eq!(a.word, b.word);
        assert_eq!(a.tr_word, b.tr_word);
        assert_eq!(a.cur_iter, b.cur_iter);
        assert_eq!(a.timeout, b.timeout);
        assert_eq!(a.timed_out, b.timed_out);
    }
    for (a, b) in reloaded.unusable.iter().zip(db.unusable.iter()) {
        assert_eq!(a.word, b.word);
        assert_eq!(a.tr_word, b.tr_word);
        assert_eq!(a.cur_iter, b.cur_iter);
        assert_eq!(a.timeout, b.timeout);
        assert_eq!(a.timed_out, b.timed_out);
    }
}

#[test]
fn repeated_render_is_stable() {
    let db = Database::load(b"a;; b\nc;; d;; 4;; 777\n", 10);
    assert_eq!(db.db_contents(), db.db_contents());
}
