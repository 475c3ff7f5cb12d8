//! Reading a batch through a cursor: navigation by key and value.

use differential::batch::Batch;
use differential::cursor::Cursor;
use differential::update::Update;

fn upd(key: u64, val: u64, time: u64, diff: i64) -> Update<u64> {
    Update { key, val, time, diff }
}

fn sample_batch() -> Batch<u64> {
    Batch {
        recs: vec![
            upd(1, 10, 0, 1),
            upd(1, 10, 3, 2),
            upd(1, 20, 0, 1),
            upd(5, 10, 1, -1),
            upd(9, 30, 2, 4),
        ],
        lower: vec![0],
        upper: vec![4],
    }
}

#[test]
fn cursor_walks_keys_and_values() {
    let batch = sample_batch();
    let mut c = Cursor::new(&batch);
    assert!(c.key_valid());
    assert_eq!(c.key(), 1);
    assert_eq!(c.val(), 10);
    let times = c.map_times();
    assert_eq!(times, vec![(0, 1), (3, 2)]);
    c.step_val();
    assert!(c.val_valid());
    assert_eq!(c.val(), 20);
    c.step_val();
    assert!(!c.val_valid());
    c.step_key();
    assert!(c.key_valid());
    assert_eq!(c.key(), 5);
    c.step_key();
    assert_eq!(c.key(), 9);
    c.step_key();
    assert!(!c.key_valid());
}

#[test]
fn cursor_seeks_and_rewinds() {
    let batch = sample_batch();
    let mut c = Cursor::new(&batch);
    c.seek_key(4);
    assert_eq!(c.key(), 5);
    c.seek_key(6);
    assert_eq!(c.key(), 9);
    c.rewind_keys();
    assert_eq!(c.key(), 1);
    c.seek_val(15);
    assert_eq!(c.val(), 20);
    c.rewind_vals();
    assert_eq!(c.val(), 10);
}
