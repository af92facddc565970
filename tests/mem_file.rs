use std::collections::HashMap;

use indexed_file::{Index, MemFile};

fn test_data() -> &'static [&'static str] {
    &[
        "俺はプログラミングできねええ",
        "音楽好き",
        "昨日のコーヒー飲んじゃった",
        "this is a text",
    ]
}

fn test_entries(entries: &[&str]) {
    let mut new_file = MemFile::new();
    let mut map = HashMap::new();

    for (pos, entry) in entries.iter().enumerate() {
        let file_pos = new_file.insert(entry.as_bytes());
        map.insert(pos, file_pos);
    }

    assert_eq!(new_file.len(), entries.len());

    for (entry_pos, file_pos) in map {
        let entry = entries[entry_pos];
        let raw = new_file.get(file_pos).unwrap();
        let file_str = std::str::from_utf8(raw).unwrap();
        assert_eq!(file_str, entry);
    }

    let mut iter = new_file.iter();
    let mut seen = 0;
    while let Some(res) = iter.next() {
        let res_str = std::str::from_utf8(res).unwrap();
        assert_eq!(res_str, entries[seen]);
        seen += 1;
    }
    assert_eq!(seen, entries.len());
}

#[test]
fn test_mem_file_unicode() {
    test_entries(test_data());
}

#[test]
fn test_replace() {
    let mut m_file = MemFile::new();
    let data = test_data();
    for entry in data {
        m_file.insert(entry.as_bytes());
    }

    for (pos, i) in data.iter().enumerate() {
        assert_eq!(m_file.get(pos).unwrap(), i.as_bytes());
    }

    m_file.replace(0, "lol".as_bytes()).unwrap();
    assert_eq!(m_file.get(0), Some("lol".as_bytes()));
    for (pos, i) in data.iter().enumerate().skip(1) {
        assert_eq!(m_file.get(pos).unwrap(), i.as_bytes());
    }

    m_file.replace(0, "sometesttextあぶ".as_bytes()).unwrap();
    assert_eq!(m_file.get(0), Some("sometesttextあぶ".as_bytes()));
    for (pos, i) in data.iter().enumerate().skip(1) {
        assert_eq!(m_file.get(pos).unwrap(), i.as_bytes());
    }

    m_file.replace(0, data[0].as_bytes()).unwrap();
    for (pos, i) in data.iter().enumerate() {
        assert_eq!(m_file.get(pos).unwrap(), i.as_bytes());
    }

    m_file
        .replace(m_file.len() - 1, "lastlol".as_bytes())
        .unwrap();
    for (pos, i) in data.iter().enumerate().rev().skip(1) {
        assert_eq!(m_file.get(pos).unwrap(), i.as_bytes());
    }
    assert_eq!(m_file.get(m_file.len() - 1).unwrap(), "lastlol".as_bytes());
}

#[test]
fn replace_first_of_three_keeps_the_others() {
    let mut m = MemFile::new();
    assert_eq!(m.insert(b"a"), 0);
    assert_eq!(m.insert(b"bb"), 1);
    assert_eq!(m.insert(b"ccc"), 2);
    assert_eq!(m.replace(0, b"xyz"), Some(()));
    assert_eq!(m.get(0), Some(&b"xyz"[..]));
    assert_eq!(m.get(1), Some(&b"bb"[..]));
    assert_eq!(m.get(2), Some(&b"ccc"[..]));
    assert_eq!(m.raw_len(), 8);
    assert_eq!(m.len(), 3);
}

#[test]
fn replace_in_the_middle_shifts_later_entries_only() {
    let mut m = MemFile::with_capacity(16);
    m.insert(b"one");
    m.insert(b"two");
    m.insert(b"three");
    m.insert(b"");
    m.insert(b"five");
    m.replace(1, b"").unwrap();
    assert_eq!(m.get(0).unwrap(), b"one");
    assert_eq!(m.get(1).unwrap(), b"");
    assert_eq!(m.get(2).unwrap(), b"three");
    assert_eq!(m.get(3).unwrap(), b"");
    assert_eq!(m.get(4).unwrap(), b"five");
    m.replace(1, b"a much longer entry").unwrap();
    m.replace(3, b"four").unwrap();
    assert_eq!(m.get(0).unwrap(), b"one");
    assert_eq!(m.get(1).unwrap(), b"a much longer entry");
    assert_eq!(m.get(2).unwrap(), b"three");
    assert_eq!(m.get(3).unwrap(), b"four");
    assert_eq!(m.get(4).unwrap(), b"five");
    assert_eq!(m.raw_len(), 3 + 19 + 5 + 4 + 4);
}

#[test]
fn get_and_replace_past_the_end_give_none() {
    let mut m = MemFile::default();
    assert_eq!(m.get(0), None);
    assert_eq!(m.replace(0, b"x"), None);
    m.insert(b"x");
    assert_eq!(m.get(1), None);
    assert_eq!(m.replace(1, b"y"), None);
    assert_eq!(m.get(0).unwrap(), b"x");
}

#[test]
fn mem_file_from_buffer_and_index() {
    let index = Index::new(vec![0, 3, 3]).zero_len();
    let m = MemFile::new_raw(b"abcdef".to_vec(), index);
    assert_eq!(m.len(), 3);
    assert_eq!(m.get_unchecked(0), b"abc");
    assert_eq!(m.get_unchecked(1), b"");
    assert_eq!(m.get_unchecked(2), b"def");
    let copy = m.clone();
    assert_eq!(copy.get(2).unwrap(), b"def");
}

#[test]
fn last_write_wins_over_a_sequence_of_edits() {
    let mut m = MemFile::new();
    let mut expected: Vec<Vec<u8>> = Vec::new();
    for round in 0..20u8 {
        let bytes = vec![b'a' + (round % 26); (round as usize * 7) % 5];
        if round % 3 == 2 && !expected.is_empty() {
            let pos = (round as usize * 5) % expected.len();
            m.replace(pos, &bytes).unwrap();
            expected[pos] = bytes;
        } else {
            let pos = m.insert(&bytes);
            assert_eq!(pos, expected.len());
            expected.push(bytes);
        }
        for (pos, e) in expected.iter().enumerate() {
            assert_eq!(m.get(pos).unwrap(), &e[..]);
        }
    }
}

#[test]
fn extend_appends_every_entry_in_order() {
    let mut m = MemFile::new();
    m.insert(b"first");
    m.extend(&[b"second".to_vec(), Vec::new(), b"fourth".to_vec()]);
    assert_eq!(m.len(), 4);
    assert_eq!(m.get(1).unwrap(), b"second");
    assert_eq!(m.get(2).unwrap(), b"");
    assert_eq!(m.get(3).unwrap(), b"fourth");
    assert_eq!(m.raw_len(), 17);
    assert!(MemFile::check_consistent(m.raw_data(), m.index()));
    assert!(!MemFile::check_consistent(b"ab", &Index::new(vec![0, 3])));
    assert!(!MemFile::check_consistent(b"abc", &Index::new(vec![2, 1])));
}
