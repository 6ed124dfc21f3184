use logtail::Action;
use logtail::LogTail;
use logtail::Phase;

/// Drives the backward scan with the bytes of `content`, as the driver
/// would read them, until the machine is ready.
fn scan_to_ready(t: &mut LogTail, content: &[u8]) {
    loop {
        match t.next_action() {
            Action::ReadByteAt { off } => {
                assert!(off < content.len() as u64);
                t.on_scan_byte(content[off as usize]);
            }
            Action::ReadChunk { .. } => return,
            Action::Open => panic!("scan must not close the file"),
        }
    }
}

#[test]
fn skip_existing_content() {
    // The file holds "a\nb\nc\n" when the tail is constructed.
    let mut t = LogTail::new();
    assert!(t.next_action() == Action::Open);
    t.on_opened(6);
    assert!(t.next_action() == Action::ReadByteAt { off: 5 });
    t.on_scan_byte(b'\n');
    // Tailing starts after the last newline: everything present is skipped.
    assert!(t.phase == Phase::Ready);
    assert!(t.next_action() == Action::ReadChunk { from: 6 });
    // "d\n" is appended; the first pull yields "d", not "a".
    let line = t.on_chunk(b"d\n");
    assert_eq!(line, Some(b"d".to_vec()));
}

#[test]
fn no_newline_tail_is_in_progress() {
    // The file holds only "partial" (no newline) at construction time.
    let mut t = LogTail::new();
    t.on_opened(7);
    let content = b"partial";
    scan_to_ready(&mut t, content);
    // No newline anywhere: tailing starts at the very beginning.
    assert!(t.next_action() == Action::ReadChunk { from: 0 });
    // "rest\n" is appended; the whole line comes out joined.
    let line = t.on_chunk(b"partialrest\n");
    assert_eq!(line, Some(b"partialrest".to_vec()));
}

#[test]
fn scan_steps_back_byte_by_byte() {
    // "a\nbc": the scan walks over 'c' and 'b' and stops after the newline.
    let mut t = LogTail::new();
    t.on_opened(4);
    assert!(t.next_action() == Action::ReadByteAt { off: 3 });
    t.on_scan_byte(b'c');
    assert!(t.next_action() == Action::ReadByteAt { off: 2 });
    t.on_scan_byte(b'b');
    assert!(t.next_action() == Action::ReadByteAt { off: 1 });
    t.on_scan_byte(b'\n');
    assert!(t.phase == Phase::Ready);
    assert!(t.next_action() == Action::ReadChunk { from: 2 });
}

#[test]
fn empty_file_needs_no_scan() {
    let mut t = LogTail::new();
    t.on_opened(0);
    assert!(t.phase == Phase::Ready);
    assert!(t.next_action() == Action::ReadChunk { from: 0 });
}

#[test]
fn exact_byte_accounting_across_chunk_boundaries() {
    // Two appended lines "ab\n" and "cd\n" arrive split at arbitrary byte
    // boundaries relative to the reads; exactly those lines come out, in
    // order, and the position advances by exactly the bytes consumed.
    let mut t = LogTail::new();
    t.on_opened(0);
    assert_eq!(t.pos, 0);
    assert_eq!(t.on_chunk(b"a"), None);
    assert_eq!(t.pos, 1);
    assert_eq!(t.on_chunk(b"b\n"), Some(b"ab".to_vec()));
    assert_eq!(t.pos, 3);
    assert_eq!(t.on_chunk(b""), None);
    assert_eq!(t.pos, 3);
    assert_eq!(t.on_chunk(b"cd\n"), Some(b"cd".to_vec()));
    assert_eq!(t.pos, 6);
    // A following pull finds nothing new and keeps asking from there.
    assert!(t.next_action() == Action::ReadChunk { from: 6 });
}

#[test]
fn blocks_until_a_line_is_complete() {
    // While no new complete line exists, every read attempt returns
    // nothing and the machine keeps asking for more instead of producing
    // a partial or empty line.
    let mut t = LogTail::new();
    t.on_opened(0);
    assert_eq!(t.on_chunk(b""), None);
    assert_eq!(t.on_chunk(b""), None);
    assert_eq!(t.on_chunk(b"par"), None);
    assert!(t.phase == Phase::Ready);
    assert!(t.next_action() == Action::ReadChunk { from: 3 });
    assert_eq!(t.on_chunk(b"tial\n"), Some(b"partial".to_vec()));
}

#[test]
fn line_excludes_terminator() {
    let mut t = LogTail::new();
    t.on_opened(0);
    let line = t.on_chunk(b"x\n").expect("newline completes the line");
    assert_eq!(line, b"x".to_vec());
    assert!(!line.contains(&b'\n'));
}

#[test]
fn open_failure_is_retried() {
    // The file does not exist at the first pull: that pull fails, and the
    // machine stays uninitialized so the next pull opens again.
    let mut t = LogTail::new();
    assert!(t.next_action() == Action::Open);
    t.on_io_error();
    assert!(t.phase == Phase::Closed);
    assert!(t.next_action() == Action::Open);
    // The file now exists (created empty, then written "x\n"): the next
    // pull initializes and yields "x".
    t.on_opened(0);
    assert_eq!(t.on_chunk(b"x\n"), Some(b"x".to_vec()));
}

#[test]
fn read_error_discards_partial_progress() {
    let mut t = LogTail::new();
    t.on_opened(0);
    assert_eq!(t.on_chunk(b"abc"), None);
    // The read fails: the handle is dropped and the next pull starts over.
    t.on_io_error();
    assert!(t.phase == Phase::Closed);
    assert_eq!(t.pos, 0);
    assert!(t.next_action() == Action::Open);
}

#[test]
fn scan_error_restarts_initialization() {
    let mut t = LogTail::new();
    t.on_opened(9);
    assert!(t.phase == Phase::Scanning);
    t.on_io_error();
    assert!(t.phase == Phase::Closed);
    assert!(t.next_action() == Action::Open);
}

#[test]
fn end_to_end_scenario() {
    // File created with "l1\nl2\n"; construct the tail; append "l3\n";
    // pull once; append "l4\nl5\n"; pull twice; then nothing more arrives.
    let mut t = LogTail::new();
    assert!(t.next_action() == Action::Open);
    t.on_opened(6);
    t.on_scan_byte(b'\n');
    assert!(t.next_action() == Action::ReadChunk { from: 6 });
    assert_eq!(t.on_chunk(b"l3\n"), Some(b"l3".to_vec()));
    assert_eq!(t.on_chunk(b"l4\n"), Some(b"l4".to_vec()));
    assert_eq!(t.on_chunk(b"l5\n"), Some(b"l5".to_vec()));
    assert_eq!(t.pos, 15);
    // No further append: the pull does not produce a line; it only asks
    // to read again from the same position, forever.
    for _ in 0..100 {
        assert!(t.next_action() == Action::ReadChunk { from: 15 });
        assert_eq!(t.on_chunk(b""), None);
    }
}
