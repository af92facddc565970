use std::cmp::Ordering;
use std::sync::Arc;

use indexed_file::{
    CloneableIndexedReader, Error, Index, IndexableFile, Indexable, IndexedString, ReadByLine,
};

fn lines_of(text: &str) -> Vec<&str> {
    let mut lines: Vec<&str> = text.split('\n').collect();
    if text.ends_with('\n') || text.is_empty() {
        lines.pop();
    }
    lines
}

const SAMPLE: &str = "alpha\nbravo\ncharlie\n\ndelta echo\nfoxtrot\n";

#[test]
fn test_empty() {
    let indexed = CloneableIndexedReader::new(Vec::new());
    assert!(indexed.is_err());
}

#[test]
fn three_lines_without_final_break() {
    let mut s = IndexedString::new_raw("a\nbb\nccc".to_string());
    assert_eq!(s.total_lines(), 3);
    assert_eq!(s.get_offset(0).unwrap(), 0);
    assert_eq!(s.get_offset(1).unwrap(), 2);
    assert_eq!(s.get_offset(2).unwrap(), 5);
    assert_eq!(s.read_line(0).unwrap(), "a");
    assert_eq!(s.read_line(1).unwrap(), "bb");
    assert_eq!(s.read_line(2).unwrap(), "ccc");
    assert!(matches!(s.read_line(3), Err(Error::OutOfBounds)));
}

#[test]
fn every_line_reads_as_the_split_piece() {
    for text in [SAMPLE, "no break at all", "\n\n\n", "x\r\ny\n", "ünï\ncödé"] {
        let mut reader = IndexedString::new_raw(text.to_string());
        let expected = lines_of(text);
        assert_eq!(reader.total_lines(), expected.len());
        for (n, line) in expected.iter().enumerate() {
            assert_eq!(reader.read_line(n).unwrap(), *line);
            let mut buf = Vec::new();
            reader.read_line_raw(n, &mut buf).unwrap();
            assert_eq!(buf, line.as_bytes());
        }
    }
}

#[test]
fn read_line_raw_reports_bytes_consumed() {
    let mut reader = CloneableIndexedReader::new_raw(SAMPLE.as_bytes().to_vec()).unwrap();
    let mut buf = Vec::new();
    assert_eq!(reader.read_line_raw(0, &mut buf).unwrap(), 6);
    assert_eq!(buf, b"alpha");
    assert_eq!(reader.read_line_raw(3, &mut buf).unwrap(), 1);
    assert_eq!(buf, b"");
    assert_eq!(reader.read_line_raw(5, &mut buf).unwrap(), 8);
    assert_eq!(buf, b"foxtrot");
}

#[test]
fn any_reading_order_gives_the_same_lines() {
    let mut reader = CloneableIndexedReader::new_raw(SAMPLE.as_bytes().to_vec()).unwrap();
    let n = reader.total_lines();
    let forward: Vec<String> = (0..n).map(|i| reader.read_line(i).unwrap()).collect();
    let backward: Vec<String> = (0..n).rev().map(|i| reader.read_line(i).unwrap()).collect();
    let jumping: Vec<String> = [3, 0, 1, 2, 5, 4, 4, 5]
        .iter()
        .map(|i| reader.read_line(*i).unwrap())
        .collect();
    let mut reversed = backward.clone();
    reversed.reverse();
    assert_eq!(forward, reversed);
    assert_eq!(forward, lines_of(SAMPLE));
    assert_eq!(jumping[0], forward[3]);
    assert_eq!(jumping[4], forward[5]);
    assert_eq!(jumping[7], forward[5]);
}

#[test]
fn written_file_reopens_with_the_same_lines() {
    let mut raw = CloneableIndexedReader::new_raw(SAMPLE.as_bytes().to_vec()).unwrap();
    raw.read_line(2).unwrap();
    let mut out = Vec::new();
    let written = raw.write_to(&mut out).unwrap();
    assert_eq!(written, out.len());
    assert_eq!(out.len(), 8 + 4 * 6 + SAMPLE.len());
    assert_eq!(&out[..8], &[6, 0, 0, 0, 0, 0, 0, 0]);
    assert_eq!(&out[8 + 4 * 6..], SAMPLE.as_bytes());

    let mut reopened = CloneableIndexedReader::new(out.clone()).unwrap();
    assert_eq!(reopened.total_lines(), raw.total_lines());
    assert_eq!(reopened.get_index_byte_len(), 8 + 4 * 6);
    for n in 0..raw.total_lines() {
        assert_eq!(reopened.read_line(n).unwrap(), raw.read_line(n).unwrap());
    }

    let mut again = Vec::new();
    reopened.write_to(&mut again).unwrap();
    assert_eq!(again, out);

    let mut text = IndexedString::new(String::from_utf8(out).unwrap()).unwrap();
    assert_eq!(text.read_line(4).unwrap(), "delta echo");
}

#[test]
fn empty_content_has_no_lines() {
    let mut reader = IndexedString::new_raw(String::new());
    assert_eq!(reader.total_lines(), 0);
    assert!(matches!(reader.read_line(0), Err(Error::OutOfBounds)));
    let mut buf = Vec::new();
    assert!(matches!(reader.read_line_raw(0, &mut buf), Err(Error::OutOfBounds)));
    assert!(matches!(reader.seek_line(0), Err(Error::OutOfBounds)));
    assert!(matches!(reader.binary_search("x"), Err(Error::NotFound)));
    assert!(matches!(reader.read_all(&mut buf), Err(Error::OutOfBounds)));
}

#[test]
fn binary_search_finds_sorted_lines() {
    let text = "apple\nbanana\ncherry\ndate\nelder\nfig\ngrape\n";
    let mut reader = IndexedString::new_raw(text.to_string());
    for (n, word) in lines_of(text).iter().enumerate() {
        assert_eq!(reader.binary_search(word).unwrap(), n);
        assert_eq!(reader.binary_search_raw(word.as_bytes()).unwrap(), n);
        assert_eq!(reader.binary_search_by(|p| p.cmp(word)).unwrap(), n);
        assert_eq!(reader.binary_search_raw_by(|p| p.cmp(word.as_bytes())).unwrap(), n);
    }
    for missing in ["", "aardvark", "blueberry", "zucchini", "fig2"] {
        assert!(matches!(reader.binary_search(missing), Err(Error::NotFound)));
        assert!(matches!(
            reader.binary_search_raw(missing.as_bytes()),
            Err(Error::NotFound)
        ));
    }
    let by_len = reader.binary_search_by(|p| p.len().cmp(&100));
    assert!(matches!(by_len, Err(Error::NotFound)));
    let any = reader.binary_search_raw_by(|_| Ordering::Equal).unwrap();
    assert_eq!(any, 3);
}

#[test]
fn invalid_utf8_line_fails_text_reads_only() {
    let data = vec![b'o', b'k', b'\n', 0xff, 0xfe, b'\n', b'z'];
    let mut reader = CloneableIndexedReader::new_raw(data).unwrap();
    assert_eq!(reader.read_line(0).unwrap(), "ok");
    assert!(matches!(reader.read_line(1), Err(Error::UTF8Error)));
    let mut buf = Vec::new();
    reader.read_line_raw(1, &mut buf).unwrap();
    assert_eq!(buf, vec![0xff, 0xfe]);
    assert!(matches!(reader.binary_search("ok"), Err(Error::UTF8Error)));
    assert_eq!(reader.binary_search_raw(&[0xff, 0xfe]).unwrap(), 1);
}

#[test]
fn index_past_the_content_is_malformed() {
    let index = Arc::new(Index::new(vec![0, 3, 40]).zero_len());
    let mut reader = CloneableIndexedReader::new_custom(b"abc\ndef\n".to_vec(), index);
    assert_eq!(reader.read_line(0).unwrap(), "abc");
    assert!(matches!(reader.read_line(1), Err(Error::MalformedIndex)));
    assert!(matches!(reader.read_line(2), Err(Error::MalformedIndex)));
    assert!(matches!(reader.binary_search("zzz"), Err(Error::MalformedIndex)));

    let backwards = Arc::new(Index::new(vec![4, 0]).zero_len());
    let mut reader = CloneableIndexedReader::new_custom(b"abc\ndef\n".to_vec(), backwards);
    assert!(matches!(reader.read_line(0), Err(Error::MalformedIndex)));

    let prefixed = Arc::new(Index::new(vec![0]));
    let mut reader = CloneableIndexedReader::new_custom(b"short".to_vec(), prefixed);
    let mut out = Vec::new();
    assert!(matches!(reader.write_to(&mut out), Err(Error::MalformedIndex)));
    assert!(out.is_empty());
}

#[test]
fn clones_share_data_and_keep_their_own_position() {
    let mut first = IndexedString::new_raw(SAMPLE.to_string());
    assert_eq!(first.read_line(0).unwrap(), "alpha");
    let mut second = first.clone();
    assert_eq!(second.read_line(1).unwrap(), "bravo");
    assert_eq!(first.read_line(1).unwrap(), "bravo");
    assert_eq!(first.read_line(2).unwrap(), "charlie");
    assert_eq!(second.read_line(5).unwrap(), "foxtrot");
    let reader = CloneableIndexedReader::new_raw(b"x\ny".to_vec()).unwrap();
    let mut dup = reader.duplicate();
    assert_eq!(dup.read_line(1).unwrap(), "y");
}

#[test]
fn test_no_new_line() {
    let index = Index::new(vec![0, 5, 10, 15, 20, 25, 30, 35, 40, 45]);
    let text = "this is a text with fifty characters. this is a te";

    let mut indexed_text = IndexedString::new_custom(text.to_string(), Arc::new(index.zero_len()));

    // No piece of this text ends with a line break, so each line keeps its five bytes.
    for i in 0..indexed_text.total_lines() {
        let read = indexed_text.read_line(i).unwrap();
        assert_eq!(read.len(), 5);
    }

    let mut buf = Vec::new();
    indexed_text.read_all(&mut buf).unwrap();
    assert_eq!(buf, text.as_bytes());
}

#[test]
fn custom_index_lines_and_read_all_length() {
    let text = "this is a text with fifty characters. this is a te";
    let index = Index::new(vec![0, 5, 10, 15, 20, 25, 30, 35, 40, 45]);
    let mut indexed = IndexedString::new_custom(text.to_string(), Arc::new(index.zero_len()));
    assert_eq!(indexed.total_lines(), 10);
    assert_eq!(indexed.read_line(0).unwrap(), "this ");
    assert_eq!(indexed.read_line(9).unwrap(), " a te");
    let mut buf = Vec::new();
    assert_eq!(indexed.read_all(&mut buf).unwrap(), 50);
}

#[test]
fn sequential_reads_through_current_line() {
    let mut reader = CloneableIndexedReader::new_raw(b"ab\ncd\nef".to_vec()).unwrap();
    let mut buf = Vec::new();
    reader.seek_line(0).unwrap();
    assert_eq!(reader.read_current_line(&mut buf, 0).unwrap(), 3);
    assert_eq!(buf, b"ab");
    reader.seek_line(1).unwrap();
    assert_eq!(reader.read_current_line(&mut buf, 1).unwrap(), 3);
    assert_eq!(buf, b"cd");
    reader.seek_line(2).unwrap();
    assert_eq!(reader.read_current_line(&mut buf, 2).unwrap(), 2);
    assert_eq!(buf, b"ef");
    assert!(matches!(reader.read_current_line(&mut buf, 3), Err(Error::OutOfBounds)));
}
