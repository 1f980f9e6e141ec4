use lineriver::reader::{LineError, LineReader, ReadEvent, READ_CHUNK};

const SPARKLE_HEART: [u8; 4] = [240, 159, 146, 150];
const INVALID_UTF8: [u8; 4] = [0, 159, 146, 150];

fn fresh() -> LineReader<()> {
    match LineReader::from_nonblocking(()) {
        Ok(r) => r,
        Err(_) => panic!("a reader on a non-blocking stream is always created"),
    }
}

/// A reader whose stream has delivered `input` in one read.
fn reader_for(input: &[u8]) -> LineReader<()> {
    let mut reader = fresh();
    if !input.is_empty() {
        assert!(matches!(reader.apply_read(ReadEvent::Data(input.to_vec())), Ok(true)));
    }
    reader
}

fn send(reader: &mut LineReader<()>, bytes: &[u8]) -> Result<bool, LineError> {
    reader.apply_read(ReadEvent::Data(bytes.to_vec()))
}

fn close(reader: &mut LineReader<()>) -> Result<bool, LineError> {
    reader.apply_read(ReadEvent::Data(Vec::new()))
}

#[test]
fn lineriver_tests_test_oneline_newline() {
    let mut reader = reader_for(b"test\n");
    assert_eq!(reader.lines_get(), vec!["test\n"]);
}

#[test]
fn lineriver_tests_test_oneline_nonewline() {
    let mut reader = reader_for(b"test");
    assert!(reader.lines_get().is_empty());
    assert!(matches!(close(&mut reader), Ok(true)));
    assert_eq!(reader.lines_get(), vec!["test"]);
}

#[test]
fn test_twoline() {
    let mut reader = reader_for(b"1\n2\n");
    assert!(!reader.eof());
    assert!(matches!(close(&mut reader), Ok(true)));
    assert!(reader.eof());
    assert_eq!(reader.lines_get(), vec!["1\n", "2\n"]);
}

#[test]
fn test_threeline() {
    let mut reader = reader_for(b"1\n\n3\n");
    assert!(matches!(close(&mut reader), Ok(true)));
    assert!(reader.has_lines());
    assert_eq!(reader.lines_get(), vec!["1\n", "\n", "3\n"]);
}

#[test]
fn test_empty() {
    let mut reader = reader_for(b"");
    assert!(matches!(close(&mut reader), Ok(true)));
    assert!(reader.eof());
    assert!(reader.lines_get().is_empty());
}

#[test]
fn test_empty_line() {
    let mut reader = reader_for(b"\n");
    assert_eq!(reader.lines_get(), vec!["\n"]);
}

#[test]
fn test_read_past_end() {
    let mut reader = reader_for(b"");
    for _ in 0..10 {
        assert!(close(&mut reader).is_ok());
    }
    assert!(reader.eof());
    assert!(reader.lines_get().is_empty());
}

#[test]
fn test_utf8() {
    let heart = format!("\n{}\n\n", std::str::from_utf8(&SPARKLE_HEART).unwrap());
    let mut reader = reader_for(heart.as_bytes());
    assert_eq!(
        reader.lines_get(),
        vec![
            "\n".to_string(),
            format!("{}\n", std::str::from_utf8(&SPARKLE_HEART).unwrap()),
            "\n".to_string()
        ]
    );
}

#[test]
fn test_invalid_utf8() {
    let mut invalid = Vec::from(INVALID_UTF8);
    invalid.push(b'\n');
    let mut reader = fresh();
    assert!(matches!(send(&mut reader, &invalid), Err(LineError::InvalidText)));
    assert!(reader.lines_get().is_empty());
}

#[test]
fn test_addlines() {
    let mut reader = fresh();
    assert!(matches!(reader.apply_read(ReadEvent::WouldBlock), Ok(true)));
    assert!(reader.lines_get().is_empty());
    assert!(matches!(send(&mut reader, b"1\n2"), Ok(true)));
    assert_eq!(reader.lines_get(), vec!["1\n"]);
    assert!(matches!(reader.apply_read(ReadEvent::WouldBlock), Ok(true)));
    assert!(reader.lines_get().is_empty());
    assert!(matches!(send(&mut reader, b"\n3\n4"), Ok(true)));
    assert_eq!(reader.lines_get(), vec!["2\n", "3\n"]);
    assert!(matches!(close(&mut reader), Ok(true)));
    assert_eq!(reader.lines_get(), vec!["4"]);
    assert!(reader.lines_get().is_empty());
    assert!(matches!(close(&mut reader), Ok(false)));
    assert!(reader.eof());
}

#[test]
fn lines_reproduce_the_stream_in_order() {
    let input: &[u8] = b"alpha\nbeta\n\ngamma";
    let mut reader = reader_for(input);
    assert!(matches!(close(&mut reader), Ok(true)));
    let lines = reader.lines_get();
    // three separators and a trailing fragment
    assert_eq!(lines.len(), 4);
    assert_eq!(lines.concat().as_bytes(), input);
    assert_eq!(lines, vec!["alpha\n", "beta\n", "\n", "gamma"]);
}

#[test]
fn lines_get_twice_gives_all_then_nothing() {
    let mut reader = reader_for(b"a\nb\n");
    assert_eq!(reader.lines_get(), vec!["a\n", "b\n"]);
    assert!(reader.lines_get().is_empty());
    assert!(!reader.has_lines());
}

#[test]
fn reads_after_the_end_change_nothing() {
    let mut reader = reader_for(b"x");
    assert!(matches!(close(&mut reader), Ok(true)));
    assert!(reader.eof());
    assert!(matches!(send(&mut reader, b"more\n"), Ok(false)));
    assert!(matches!(reader.apply_read(ReadEvent::WouldBlock), Ok(false)));
    assert!(reader.eof());
    assert_eq!(reader.lines_get(), vec!["x"]);
    assert!(matches!(close(&mut reader), Ok(false)));
    assert!(reader.lines_get().is_empty());
}

#[test]
fn fragment_then_end_scenario() {
    let mut reader = fresh();
    assert!(matches!(send(&mut reader, b"test"), Ok(true)));
    assert!(!reader.has_lines());
    assert!(matches!(close(&mut reader), Ok(true)));
    assert_eq!(reader.lines_get(), vec!["test"]);
}

#[test]
fn line_split_across_reads() {
    let mut reader = fresh();
    assert!(matches!(send(&mut reader, b"ab"), Ok(true)));
    assert!(matches!(send(&mut reader, b"c"), Ok(true)));
    assert!(!reader.has_lines());
    assert!(matches!(send(&mut reader, b"d\nef\ngh"), Ok(true)));
    assert_eq!(reader.lines_get(), vec!["abcd\n", "ef\n"]);
    assert!(matches!(close(&mut reader), Ok(true)));
    assert_eq!(reader.lines_get(), vec!["gh"]);
}

#[test]
fn separator_first_gives_an_empty_line() {
    let mut reader = reader_for(b"\nabc");
    assert_eq!(reader.lines_get(), vec!["\n"]);
}

#[test]
fn invalid_line_stops_the_split() {
    let mut bytes = b"ok\n".to_vec();
    bytes.extend_from_slice(&[0xff, b'\n']);
    bytes.extend_from_slice(b"fine\nmore\n");
    let mut reader = fresh();
    assert!(matches!(send(&mut reader, &bytes), Err(LineError::InvalidText)));
    // only the lines before the invalid one are kept; the rest stays buffered
    assert_eq!(reader.lines_get(), vec!["ok\n"]);
    // the next call splits the kept bytes at every separator
    assert!(matches!(send(&mut reader, b"next\n"), Ok(true)));
    assert_eq!(reader.lines_get(), vec!["fine\n", "more\n", "next\n"]);
}

#[test]
fn invalid_line_then_valid_line_in_one_read() {
    let mut reader = fresh();
    assert!(matches!(send(&mut reader, &[0xff, b'\n', b'a', b'\n']), Err(LineError::InvalidText)));
    assert!(!reader.has_lines());
    // no data: nothing changes
    assert!(matches!(reader.apply_read(ReadEvent::WouldBlock), Ok(true)));
    assert!(matches!(reader.apply_read(ReadEvent::Interrupted), Ok(true)));
    assert!(!reader.has_lines());
    // the next data splits the kept bytes too
    assert!(matches!(send(&mut reader, b"b\n"), Ok(true)));
    assert_eq!(reader.lines_get(), vec!["a\n", "b\n"]);
}

#[test]
fn kept_bytes_become_one_line_at_the_end() {
    let mut reader = fresh();
    assert!(matches!(
        send(&mut reader, &[0xff, b'\n', b'a', b'\n', b'b']),
        Err(LineError::InvalidText)
    ));
    assert!(matches!(close(&mut reader), Ok(true)));
    assert!(reader.eof());
    assert_eq!(reader.lines_get(), vec!["a\nb"]);
}

#[test]
fn invalid_kept_bytes_at_the_end() {
    let mut reader = fresh();
    let mut bytes = vec![0xff, b'\n'];
    bytes.extend_from_slice(b"x\n");
    bytes.extend_from_slice(&[0xfe, b'\n']);
    assert!(matches!(send(&mut reader, &bytes), Err(LineError::InvalidText)));
    assert!(matches!(close(&mut reader), Err(LineError::InvalidText)));
    assert!(reader.eof());
    assert!(reader.lines_get().is_empty());
    assert!(matches!(close(&mut reader), Ok(false)));
}

#[test]
fn invalid_trailing_fragment_at_end() {
    let mut reader = fresh();
    assert!(matches!(send(&mut reader, &[b'a', b'\n', 0xc3]), Ok(true)));
    assert!(matches!(close(&mut reader), Err(LineError::InvalidText)));
    assert!(reader.eof());
    assert_eq!(reader.lines_get(), vec!["a\n"]);
    assert!(matches!(close(&mut reader), Ok(false)));
}

#[test]
fn multibyte_char_split_across_reads() {
    let mut reader = fresh();
    assert!(matches!(send(&mut reader, &SPARKLE_HEART[..2]), Ok(true)));
    let mut rest = SPARKLE_HEART[2..].to_vec();
    rest.push(b'\n');
    assert!(matches!(send(&mut reader, &rest), Ok(true)));
    let lines = reader.lines_get();
    assert_eq!(lines.len(), 1);
    assert_eq!(lines[0].chars().count(), 2);
    assert_eq!(lines[0].as_bytes(), &rest_with_heart()[..]);
}

fn rest_with_heart() -> Vec<u8> {
    let mut v = SPARKLE_HEART.to_vec();
    v.push(b'\n');
    v
}

#[test]
fn stream_failure_changes_nothing() {
    let mut reader = reader_for(b"a\npartial");
    let err = std::io::Error::new(std::io::ErrorKind::Other, "broken pipe");
    match reader.apply_read(ReadEvent::Failed(err)) {
        Err(LineError::Io(e)) => assert_eq!(e.kind(), std::io::ErrorKind::Other),
        _ => panic!("the stream's error is handed back"),
    }
    assert!(!reader.eof());
    assert_eq!(reader.lines_get(), vec!["a\n"]);
    assert!(matches!(send(&mut reader, b"\n"), Ok(true)));
    assert_eq!(reader.lines_get(), vec!["partial\n"]);
}

#[test]
fn would_block_and_interrupted_are_not_errors() {
    let mut reader = reader_for(b"x");
    assert!(matches!(reader.apply_read(ReadEvent::WouldBlock), Ok(true)));
    assert!(matches!(reader.apply_read(ReadEvent::Interrupted), Ok(true)));
    assert!(!reader.eof());
    assert!(!reader.has_lines());
}

#[test]
fn line_longer_than_a_read_chunk() {
    let mut reader = fresh();
    let long = vec![b'z'; READ_CHUNK + 10];
    for part in long.chunks(READ_CHUNK) {
        assert!(matches!(send(&mut reader, part), Ok(true)));
    }
    assert!(!reader.has_lines());
    assert!(matches!(send(&mut reader, b"\n"), Ok(true)));
    let lines = reader.lines_get();
    assert_eq!(lines.len(), 1);
    assert_eq!(lines[0].len(), READ_CHUNK + 11);
}

#[test]
fn new_fails_where_the_mode_switch_failed() {
    let err = std::io::Error::new(std::io::ErrorKind::PermissionDenied, "fcntl");
    match LineReader::new(7u8, Err(err)) {
        Err(e) => assert_eq!(e.kind(), std::io::ErrorKind::PermissionDenied),
        Ok(_) => panic!("the mode switch error is handed back"),
    }
    match LineReader::new(7u8, Ok(())) {
        Ok(mut reader) => {
            assert_eq!(*reader.get_ref(), 7);
            *reader.get_mut() = 9;
            assert_eq!(*reader.get_ref(), 9);
            assert!(!reader.eof());
            assert!(!reader.has_lines());
        }
        Err(_) => panic!("a reader is created where the mode switch succeeded"),
    }
}

#[test]
fn test_trat_reader() {
    let array = "abcdefgh".as_bytes();
    let reader = LineReader::from_nonblocking(array);
    assert!(reader.is_ok());
}

#[test]
fn read_available_stops_at_a_line_or_the_end() {
    let mut reader = fresh();
    assert!(!reader.read_available_done());
    assert!(matches!(send(&mut reader, b"part"), Ok(true)));
    assert!(!reader.read_available_done());
    assert!(matches!(send(&mut reader, b"\n"), Ok(true)));
    assert!(reader.read_available_done());
    reader.lines_get();
    assert!(!reader.read_available_done());
    assert!(matches!(close(&mut reader), Ok(true)));
    assert!(reader.read_available_done());
}
