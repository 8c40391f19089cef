use nizer::store::{parse_store, Store};

#[test]
fn missing_file_yields_empty_store() {
    let s = Store::new();
    assert_eq!(s.lookup(&b"/d/a.md".to_vec()), None);
    assert_eq!(s.serialize(), Vec::<u8>::new());
}

#[test]
fn parse_reads_one_record_per_line() {
    let content = b"/d/a.md|2024-01-02 03:04:05\n/d/b.txt|2024-06-07 08:09:10".to_vec();
    let s = parse_store(&content);
    assert_eq!(
        s.lookup(&b"/d/a.md".to_vec()),
        Some(b"2024-01-02 03:04:05".to_vec())
    );
    assert_eq!(
        s.lookup(&b"/d/b.txt".to_vec()),
        Some(b"2024-06-07 08:09:10".to_vec())
    );
    assert_eq!(s.lookup(&b"/d/c.doc".to_vec()), None);
}

#[test]
fn malformed_lines_are_skipped() {
    let content = b"no separator here\n/d/a.md|kept\n\nanother bad line".to_vec();
    let s = parse_store(&content);
    assert_eq!(s.lookup(&b"/d/a.md".to_vec()), Some(b"kept".to_vec()));
    assert_eq!(s.lookup(&b"no separator here".to_vec()), None);
    assert_eq!(s.lookup(&b"".to_vec()), None);
}

#[test]
fn last_line_wins_for_a_repeated_path() {
    let content = b"/d/a.md|old\n/d/a.md|new".to_vec();
    let s = parse_store(&content);
    assert_eq!(s.lookup(&b"/d/a.md".to_vec()), Some(b"new".to_vec()));
    // the duplicate collapses into a single record
    assert_eq!(s.serialize(), b"/d/a.md|new".to_vec());
}

#[test]
fn stamp_may_contain_the_separator() {
    let content = b"/d/a.md|odd|stamp".to_vec();
    let s = parse_store(&content);
    assert_eq!(s.lookup(&b"/d/a.md".to_vec()), Some(b"odd|stamp".to_vec()));
}

#[test]
fn record_then_load_round_trips() {
    let mut s = Store::new();
    s.record(&b"/d/a.md".to_vec(), &b"2024-01-02 03:04:05".to_vec());
    let reloaded = parse_store(&s.serialize());
    assert_eq!(
        reloaded.lookup(&b"/d/a.md".to_vec()),
        Some(b"2024-01-02 03:04:05".to_vec())
    );
}

#[test]
fn record_overwrites_and_keeps_other_paths() {
    let mut s = parse_store(&b"/d/a.md|one\n/d/b.txt|two".to_vec());
    s.record(&b"/d/a.md".to_vec(), &b"three".to_vec());
    let reloaded = parse_store(&s.serialize());
    assert_eq!(reloaded.lookup(&b"/d/a.md".to_vec()), Some(b"three".to_vec()));
    assert_eq!(reloaded.lookup(&b"/d/b.txt".to_vec()), Some(b"two".to_vec()));
}

#[test]
fn saving_a_loaded_store_is_byte_identical() {
    let content = b"/d/a.md|2024-01-02 03:04:05\n/d/b.txt|2024-06-07 08:09:10".to_vec();
    let first = parse_store(&content).serialize();
    let second = parse_store(&first).serialize();
    assert_eq!(first, second);
}

#[test]
fn record_viewed_stores_a_stamp_for_the_path() {
    let mut s = Store::new();
    let path = b"/d/notes.md".to_vec();
    s.record_viewed(&path);
    let reloaded = parse_store(&s.serialize());
    let stamp = reloaded.lookup(&path).expect("a stamp was recorded");
    assert!(!stamp.is_empty());
    assert!(!stamp.contains(&b'\n'));
    // the local-time format is date, space, time
    assert_eq!(stamp.iter().filter(|b| **b == b' ').count(), 1);
    assert_eq!(stamp.iter().filter(|b| **b == b':').count(), 2);
}

#[test]
fn viewed_label_falls_back_to_placeholder() {
    let s = parse_store(&b"/d/a.md|stamp".to_vec());
    assert_eq!(s.viewed_label(&b"/d/a.md".to_vec()), b"stamp".to_vec());
    assert_eq!(s.viewed_label(&b"/d/b.md".to_vec()), b"N/A".to_vec());
}
