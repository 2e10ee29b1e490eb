use hobo_os::stdin::{key_action, KeyAction, LineReader, ARR_SIZE, ESCAPE};

fn read(bytes: &[u8]) -> (LineReader, bool) {
    let mut r = LineReader::new();
    let mut done = false;
    for b in bytes {
        done = r.push_byte(*b);
    }
    (r, done)
}

#[test]
fn a_line_ends_at_a_line_feed_or_carriage_return() {
    let (_, done) = read(b"hi\n");
    assert!(done);
    let (_, done) = read(b"hi\r");
    assert!(done);
    let (r, done) = read(b"hi");
    assert!(!done);
    assert_eq!(r.stored(), 2);
}

#[test]
fn a_line_is_read_back_whole() {
    let (r, _) = read(b"ls\n");
    let line = r.finish().unwrap();
    assert_eq!(&line[..3], b"ls\n");
    assert!(line[3..].iter().all(|b| *b == ESCAPE));
    assert_eq!(line.len(), ARR_SIZE);
}

#[test]
fn an_empty_or_one_byte_line_reads_as_nothing() {
    let (r, _) = read(b"\n");
    assert_eq!(r.finish(), None);
    assert_eq!(LineReader::new().finish(), None);
    let (r, _) = read(b"a\n");
    assert!(r.finish().is_some());
}

#[test]
fn an_escape_cuts_the_line() {
    let (r, _) = read(&[b'a', ESCAPE, b'b', b'\n']);
    assert_eq!(r.finish(), None);
}

#[test]
fn keys_of_continuous_reading() {
    assert_eq!(key_action(10), KeyAction::NewLine);
    assert_eq!(key_action(13), KeyAction::NewLine);
    assert_eq!(key_action(27), KeyAction::Stop);
    assert_eq!(key_action(b'x'), KeyAction::Echo);
}

#[test]
fn a_line_stops_at_the_buffer_size() {
    let mut r = LineReader::new();
    for i in 0..ARR_SIZE - 1 {
        assert!(!r.push_byte(b'a' + (i % 26) as u8));
    }
    // the hundredth byte fills the buffer and ends the line
    assert!(r.push_byte(b'z'));
    assert_eq!(r.stored(), ARR_SIZE);
    // a further byte is not stored
    assert!(r.push_byte(b'y'));
    assert_eq!(r.stored(), ARR_SIZE);
    let line = r.finish().unwrap();
    assert_eq!(line[ARR_SIZE - 1], b'z');
}
