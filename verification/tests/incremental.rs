use combatlog::incremental::{boundary, complete_end, fingerprint, identity, read, snapshot, Checkpoint, ReadError};

#[test]
fn append_partial_retry_and_no_new_data() {
    let log: &[u8] = b"header\nold\npart";
    let (raw, cp, reset) = read(log, None).unwrap();
    assert_eq!(raw, "header\nold\n");
    assert!(!reset);
    let log: &[u8] = b"header\nold\npartial\nnew\n";
    let (raw, next, _) = read(log, Some(&cp)).unwrap();
    assert_eq!(raw, "partial\nnew\n");
    // A failed upload reuses the unchanged checkpoint and obtains identical data.
    assert_eq!(read(log, Some(&cp)).unwrap().0, raw);
    assert!(read(log, Some(&next)).is_err());
}

#[test]
fn replacement_and_truncation_reset() {
    let cp = snapshot(b"header\nold\n");
    let (raw, _, reset) = read(b"header\nNEW\nmore\n", Some(&cp)).unwrap();
    assert!(reset);
    assert_eq!(raw, "header\nNEW\nmore\n");
    assert!(read(b"x\n", Some(&cp)).unwrap().2);
}

#[test]
fn start_now_is_read_only_and_handles_long_partial_line() {
    let mut bytes = b"header\n".to_vec();
    bytes.extend(vec![b'x'; 70000]);
    let before = bytes.clone();
    assert_eq!(snapshot(&bytes).offset, 7);
    assert_eq!(bytes, before);
}

#[test]
fn utf8_crlf_and_empty_file() {
    assert_eq!(snapshot(b"").offset, 0);
    assert!(read(b"", None).is_err());
    assert_eq!(read("é\r\n".as_bytes(), None).unwrap().1.offset, 4);
}

#[test]
fn fingerprint_is_fnv1a_and_length() {
    assert_eq!(fingerprint(b""), "cbf29ce484222325:0");
    assert_eq!(fingerprint(b"a"), "af63dc4c8601ec8c:1");
    assert_eq!(fingerprint(b"foobar"), "85944171f73967e8:6");
}

#[test]
fn identity_is_the_first_line() {
    assert_eq!(identity(b"header\nold\n"), fingerprint(b"header\n"));
    assert_eq!(identity(b"no line feed"), fingerprint(b"no line feed"));
    let long = vec![b'y'; 5000];
    assert_eq!(identity(&long), fingerprint(&long[..4096]));
}

#[test]
fn boundary_covers_the_bytes_before_the_offset() {
    let log = b"header\nold\n";
    assert_eq!(boundary(log, 11), fingerprint(log));
    assert_eq!(boundary(log, 0), fingerprint(b""));
    let mut long = vec![b'z'; 5000];
    long.push(b'\n');
    assert_eq!(boundary(&long, 5001), fingerprint(&long[905..5001]));
}

#[test]
fn complete_end_stops_after_the_last_line_feed() {
    assert_eq!(complete_end(b""), 0);
    assert_eq!(complete_end(b"abc"), 0);
    assert_eq!(complete_end(b"a\nb"), 2);
    assert_eq!(complete_end(b"a\nb\n"), 4);
    let mut long = b"x\n".to_vec();
    long.extend(vec![b'q'; 140000]);
    assert_eq!(complete_end(&long), 2);
}

#[test]
fn read_without_complete_lines_finds_nothing() {
    assert_eq!(read(b"partial", None).unwrap_err(), ReadError::NoNewEntries);
}

#[test]
fn read_of_invalid_utf8_fails() {
    assert_eq!(read(&[0xff, b'\n'], None).unwrap_err(), ReadError::NotUtf8);
}

#[test]
fn checkpoint_of_a_read_is_the_snapshot() {
    let log = b"a\nbb\nccc";
    let (_, next, _) = read(log, None).unwrap();
    let snap = snapshot(log);
    assert_eq!(next.offset, snap.offset);
    assert_eq!(next.fingerprint, snap.fingerprint);
    assert_eq!(next.boundary, snap.boundary);
}

#[test]
fn appended_lines_continue_without_reset() {
    let first = b"line one\nline two\n".to_vec();
    let cp = snapshot(&first);
    let mut longer = first.clone();
    longer.extend_from_slice(b"line three\npartial");
    let (raw, next, reset) = read(&longer, Some(&cp)).unwrap();
    assert_eq!(raw, "line three\n");
    assert!(!reset);
    assert_eq!(next.offset, 29);
}

#[test]
fn reading_again_finds_nothing() {
    let log = b"one\ntwo\n";
    let (_, next, _) = read(log, None).unwrap();
    assert_eq!(read(log, Some(&next)).unwrap_err(), ReadError::NoNewEntries);
}

#[test]
fn replaced_and_truncated_logs_reset() {
    let cp = snapshot(b"first\nsecond\n");
    let (raw, _, reset) = read(b"other\nsecond\n", Some(&cp)).unwrap();
    assert!(reset);
    assert_eq!(raw, "other\nsecond\n");
    let (_, _, reset) = read(b"first\n", Some(&cp)).unwrap();
    assert!(reset);
}

#[test]
fn checkpoint_at_zero_reads_from_the_start_without_reset() {
    let cp = Checkpoint { offset: 0, fingerprint: String::from("anything"), boundary: String::new() };
    let (raw, _, reset) = read(b"a\n", Some(&cp)).unwrap();
    assert_eq!(raw, "a\n");
    assert!(!reset);
}
