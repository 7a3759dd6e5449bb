use fizzle::writer::{BatchWriter, Options, Status};

fn options() -> Options {
    Options { channel_len: 16, max_timeout_ms: 30_000, max_lines: 5000, max_bytes: 30_000 }
}

#[test]
fn three_records_one_timer_flush() {
    // Submitting records below both thresholds and letting the timer
    // fire produces exactly one flush carrying all of them, in
    // submission order.
    let mut w = BatchWriter::new(options());
    let h1 = w.submit(b"a p=1i 1\n".to_vec()).unwrap();
    let h2 = w.submit(b"b p=2i 2\n".to_vec()).unwrap();
    let h3 = w.submit(b"c p=3i 3\n".to_vec()).unwrap();
    assert_eq!(w.status_of(h1), Status::Init);
    assert!(!w.buffer_next());
    assert!(!w.buffer_next());
    assert!(!w.buffer_next());
    assert_eq!(w.status_of(h1), Status::Buffered);
    assert_eq!(w.status_of(h2), Status::Buffered);
    assert_eq!(w.status_of(h3), Status::Buffered);
    assert!(w.timer_tick());
    let body = w.begin_flush();
    assert_eq!(body, b"a p=1i 1\nb p=2i 2\nc p=3i 3\n".to_vec());
    w.flush_succeeded();
    assert_eq!(w.status_of(h1), Status::Accepted);
    assert_eq!(w.status_of(h2), Status::Accepted);
    assert_eq!(w.status_of(h3), Status::Accepted);
    assert!(!w.timer_tick());
}

#[test]
fn failed_flush_keeps_records_buffered_and_first() {
    // A failed flush leaves every record at Buffered (never back at
    // Init), and the next flush carries those records first, in their
    // original order, ahead of anything newer.
    let mut w = BatchWriter::new(options());
    let h1 = w.submit(b"a p=1i 1\n".to_vec()).unwrap();
    let h2 = w.submit(b"b p=2i 2\n".to_vec()).unwrap();
    w.buffer_next();
    w.buffer_next();
    let body = w.begin_flush();
    assert_eq!(body, b"a p=1i 1\nb p=2i 2\n".to_vec());
    w.flush_failed();
    assert_eq!(w.status_of(h1), Status::Buffered);
    assert_eq!(w.status_of(h2), Status::Buffered);
    // A newer record arrives before the retry.
    let h3 = w.submit(b"c p=3i 3\n".to_vec()).unwrap();
    w.buffer_next();
    let body = w.begin_flush();
    assert_eq!(body, b"a p=1i 1\nb p=2i 2\nc p=3i 3\n".to_vec());
    w.flush_succeeded();
    assert_eq!(w.status_of(h1), Status::Accepted);
    assert_eq!(w.status_of(h2), Status::Accepted);
    assert_eq!(w.status_of(h3), Status::Accepted);
}

#[test]
fn line_threshold_cuts_batch() {
    let mut opts = options();
    opts.max_lines = 2;
    let mut w = BatchWriter::new(opts);
    w.submit(b"a\n".to_vec()).unwrap();
    assert!(!w.buffer_next());
    w.submit(b"b\n".to_vec()).unwrap();
    // The second buffered record reaches the two-line threshold.
    assert!(w.buffer_next());
    w.submit(b"c\n".to_vec()).unwrap();
    w.buffer_next();
    let body = w.begin_flush();
    assert_eq!(body, b"a\nb\n".to_vec());
    w.flush_succeeded();
    let body = w.begin_flush();
    assert_eq!(body, b"c\n".to_vec());
    w.flush_succeeded();
}

#[test]
fn byte_threshold_cuts_batch() {
    let mut opts = options();
    opts.max_bytes = 4;
    let mut w = BatchWriter::new(opts);
    w.submit(b"aaa\n".to_vec()).unwrap();
    // Four bytes pending reaches the byte threshold at once.
    assert!(w.buffer_next());
}

#[test]
fn submit_after_close_fails() {
    let mut w = BatchWriter::new(options());
    let h = w.submit(b"a\n".to_vec()).unwrap();
    w.close();
    assert!(w.is_closed());
    assert!(w.submit(b"b\n".to_vec()).is_err());
    // What was already queued still drains and flushes.
    w.buffer_next();
    let body = w.begin_flush();
    assert_eq!(body, b"a\n".to_vec());
    w.flush_succeeded();
    assert_eq!(w.status_of(h), Status::Accepted);
}
