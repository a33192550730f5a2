use indexed_line_reader::LinesIndex;
use indexed_line_reader::{IndexedLineReader, LineSeek, SeekError};

fn numbered_lines(n: u64) -> Vec<u8> {
    let mut content = Vec::new();
    for i in 0..n {
        content.extend_from_slice(format!("{}\n", i).as_bytes());
    }
    content
}

fn next_line(reader: &mut IndexedLineReader) -> String {
    let buf = reader.fill_buf().to_vec();
    let end = buf.iter().position(|&b| b == b'\n').unwrap_or(buf.len());
    let line = String::from_utf8(buf[..end].to_vec()).unwrap();
    let consumed = if end < buf.len() { end + 1 } else { end };
    reader.consume(consumed);
    line
}

fn seek_and_assert_line_number(reader: &mut IndexedLineReader, seek_from: LineSeek, expected: u64) {
    reader.seek(seek_from).expect("seek failed");
    let line_number: u64 = next_line(reader).parse().expect("not a line number");
    assert_eq!(line_number, expected);
}

#[test]
fn test_seek() {
    let mut line_reader = IndexedLineReader::new(numbered_lines(10000), 100);

    line_reader.compute_index().expect("Unable to compute index");

    seek_and_assert_line_number(&mut line_reader, LineSeek::Start(1234), 1234);
    seek_and_assert_line_number(&mut line_reader, LineSeek::Start(2468), 2468);
    seek_and_assert_line_number(&mut line_reader, LineSeek::Current(1000), 3468);
    seek_and_assert_line_number(&mut line_reader, LineSeek::Current(1032), 4500);
    seek_and_assert_line_number(&mut line_reader, LineSeek::Current(-450), 4050);
    seek_and_assert_line_number(&mut line_reader, LineSeek::End(1234), 8766);
    seek_and_assert_line_number(&mut line_reader, LineSeek::End(-1234), 8766);
}

#[test]
fn seek_returns_byte_offset_of_line() {
    let content = numbered_lines(10000);
    let mut reader = IndexedLineReader::new(content.clone(), 100);
    // "0\n".."9\n" take 20 bytes, "10\n".."99\n" take 270, "100\n".."122\n" take 92.
    assert_eq!(reader.seek(LineSeek::Start(123)), Ok(382));
    assert_eq!(reader.get_current_pos(), 123);
    assert_eq!(&content[382..386], b"123\n");
}

#[test]
fn negative_current_before_line_zero_is_out_of_range() {
    let mut reader = IndexedLineReader::new(numbered_lines(50), 10);
    assert_eq!(reader.seek(LineSeek::Start(5)), Ok(10));
    assert_eq!(reader.seek(LineSeek::Current(-6)), Err(SeekError::OutOfRange));
    assert_eq!(reader.seek(LineSeek::Current(-5)), Ok(0));
    assert_eq!(reader.get_current_pos(), 0);
}

#[test]
fn end_past_line_total_is_out_of_range() {
    let mut reader = IndexedLineReader::new(numbered_lines(50), 10);
    assert_eq!(reader.seek(LineSeek::End(51)), Err(SeekError::OutOfRange));
    assert_eq!(reader.seek(LineSeek::End(i64::MIN)), Err(SeekError::OutOfRange));
    reader.seek(LineSeek::End(50)).unwrap();
    assert_eq!(next_line(&mut reader), "0");
}

#[test]
fn current_past_largest_line_is_out_of_range() {
    let mut reader = IndexedLineReader::new(numbered_lines(50), 10);
    reader.seek(LineSeek::Start(u64::MAX - 5)).unwrap();
    assert_eq!(reader.seek(LineSeek::Current(i64::MAX)), Err(SeekError::OutOfRange));
}

#[test]
fn index_overflow_is_reported() {
    let mut reader = IndexedLineReader::new(numbered_lines(50), 10);
    let mut index = LinesIndex::new(10);
    index.insert(u64::MAX - 10, 3);
    reader.restore_index(index);
    assert_eq!(reader.compute_index(), Err(SeekError::IndexOverflow));
    assert_eq!(reader.seek(LineSeek::Start(3)), Err(SeekError::IndexOverflow));
}

#[test]
fn start_lands_on_every_line() {
    for g in [1u64, 3, 7, 10] {
        let mut reader = IndexedLineReader::new(numbered_lines(57), g);
        reader.compute_index().unwrap();
        for k in 0..57u64 {
            reader.seek(LineSeek::Start(k)).unwrap();
            assert_eq!(reader.get_current_pos(), k);
            assert_eq!(next_line(&mut reader), k.to_string());
        }
    }
}

#[test]
fn end_and_negative_end_agree() {
    let mut reader = IndexedLineReader::new(numbered_lines(100), 8);
    for n in [0i64, 1, 17, 99, 100] {
        let a = reader.seek(LineSeek::End(n));
        let pos_a = reader.get_current_pos();
        let b = reader.seek(LineSeek::End(-n));
        assert_eq!(a, b);
        assert_eq!(pos_a, reader.get_current_pos());
        assert_eq!(pos_a, 100 - n as u64);
    }
}

#[test]
fn start_then_current_lands_like_start() {
    let mut reader = IndexedLineReader::new(numbered_lines(200), 16);
    reader.compute_index().unwrap();
    for (a, b) in [(5u64, 12u64), (12, 5), (0, 199), (199, 0), (37, 37), (31, 64)] {
        reader.seek(LineSeek::Start(a)).unwrap();
        let via_current = reader.seek(LineSeek::Current(b as i64 - a as i64));
        let pos = reader.get_current_pos();
        let direct = reader.seek(LineSeek::Start(b));
        assert_eq!(via_current, direct);
        assert_eq!(pos, reader.get_current_pos());
        assert_eq!(next_line(&mut reader), b.to_string());
    }
}

#[test]
fn seek_on_empty_stream() {
    let mut reader = IndexedLineReader::new(Vec::new(), 4);
    assert_eq!(reader.compute_index(), Ok(0));
    assert_eq!(reader.seek(LineSeek::Start(0)), Ok(0));
    assert_eq!(reader.seek(LineSeek::End(0)), Ok(0));
    assert_eq!(reader.seek(LineSeek::End(1)), Err(SeekError::OutOfRange));
}

#[test]
fn seek_forward_reads_lines_and_stops_at_end() {
    let mut reader = IndexedLineReader::new(b"a\nbb\nccc\n".to_vec(), 2);
    assert_eq!(reader.seek_forward(2), 5);
    assert_eq!(reader.get_current_pos(), 2);
    assert_eq!(reader.seek_forward(5), 4);
    assert_eq!(reader.get_current_pos(), 3);
    assert_eq!(reader.seek_forward(0), 0);
}

#[test]
fn read_fill_buf_consume_pass_through() {
    let mut reader = IndexedLineReader::new(b"hello\nworld\n".to_vec(), 2);
    let mut buf = [0u8; 4];
    assert_eq!(reader.read(&mut buf), 4);
    assert_eq!(&buf, b"hell");
    assert_eq!(reader.fill_buf(), b"o\nworld\n");
    reader.consume(2);
    assert_eq!(reader.fill_buf(), b"world\n");
    let mut big = [9u8; 10];
    assert_eq!(reader.read(&mut big), 6);
    assert_eq!(&big, b"world\n\x09\x09\x09\x09");
    assert_eq!(reader.read(&mut big), 0);
    assert_eq!(reader.byte_count(), 12);
}

#[test]
fn index_can_be_saved_cleared_and_restored() {
    let mut reader = IndexedLineReader::new(numbered_lines(300), 50);
    assert_eq!(reader.compute_index(), Ok(300));
    let saved = reader.get_index().clone();
    assert_eq!(saved.last_indexed_pos(), Some(300));
    reader.clear_index();
    assert_eq!(reader.get_index().last_indexed_pos(), None);
    assert_eq!(reader.get_index().line_count(), 0);
    reader.restore_index(saved);
    assert_eq!(reader.get_index().byte_count_at_pos(&150), Some(490));
    reader.seek(LineSeek::Start(151)).unwrap();
    assert_eq!(next_line(&mut reader), "151");
}

#[test]
fn start_past_the_indexed_lines_scans_from_byte_zero() {
    // Line 15 has no entry when the stream has 10 lines: the seek starts over
    // at byte 0 and scans 2 lines, while the current line says 17.
    let mut reader = IndexedLineReader::new(numbered_lines(10), 5);
    assert_eq!(reader.seek(LineSeek::Start(17)), Ok(4));
    assert_eq!(reader.get_current_pos(), 17);
}

#[test]
fn end_after_earlier_seeks_lands_counting_from_the_last_line() {
    let mut reader = IndexedLineReader::new(numbered_lines(150), 100);
    reader.compute_index().unwrap();
    reader.seek(LineSeek::Start(7)).unwrap();
    reader.seek(LineSeek::End(0)).unwrap();
    assert_eq!(reader.get_current_pos(), 150);
    assert_eq!(reader.get_index().line_count(), 150);
    reader.seek(LineSeek::End(1)).unwrap();
    assert_eq!(next_line(&mut reader), "149");
    reader.seek(LineSeek::End(-1)).unwrap();
    assert_eq!(next_line(&mut reader), "149");
}

#[test]
fn seek_sees_appended_lines() {
    let mut reader = IndexedLineReader::new(numbered_lines(30), 8);
    reader.compute_index().unwrap();
    reader.seek(LineSeek::Start(29)).unwrap();
    let mut more = Vec::new();
    for i in 30..75u64 {
        more.extend_from_slice(format!("{}\n", i).as_bytes());
    }
    reader.append(&more);
    for k in [0u64, 29, 30, 31, 40, 64, 74] {
        reader.seek(LineSeek::Start(k)).unwrap();
        assert_eq!(next_line(&mut reader), k.to_string());
    }
    reader.seek(LineSeek::End(1)).unwrap();
    assert_eq!(next_line(&mut reader), "74");
    assert_eq!(reader.get_index().line_count(), 75);
    assert_eq!(reader.get_index().byte_count_at_pos(&72), Some(206));
}

#[test]
fn start_leaves_line_total_on_empty_lines() {
    let mut reader = IndexedLineReader::new(b"\n\n\n".to_vec(), 2);
    assert_eq!(reader.compute_index(), Ok(3));
    assert_eq!(reader.seek(LineSeek::Start(0)), Ok(0));
    assert_eq!(reader.get_index().line_count(), 3);
    assert_eq!(reader.seek(LineSeek::End(0)), Ok(3));
    assert_eq!(reader.get_current_pos(), 3);
}
