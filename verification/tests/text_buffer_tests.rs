use moded::text_buffer::{LinePos, LineSeparator, TextBuffer};

fn buf(s: &str) -> TextBuffer {
    TextBuffer::from_data(s.as_bytes().to_vec())
}

#[test]
fn test_char_iter() {
    let s = "tes😃t😂iä\nja toinen 🤝 kolmas\nneljäs: ภๅ";
    let b = buf(s);
    let mut st = String::new();
    let mut it = b.utf8_iter(LinePos { line: 0, col: 0 });
    while let Some(c) = it.next() {
        st.push(c);
    }
    assert!(st == s);
}

#[test]
fn test_rev_char_iter() {
    let s = "testiä";
    let b = buf(s);
    let mut st = String::new();
    let mut it = b.utf8_rev_iter(LinePos { line: 0, col: 5 });
    while let Some(c) = it.next() {
        if st.is_empty() {
            st.push(c);
        } else {
            st.insert(0, c);
        }
    }
    assert!(s == st, "{} != {}", s, st);
}

#[test]
fn lines_and_lengths() {
    let b = buf("foo bar\nbaz\n");
    assert_eq!(b.total_lines(), 2);
    assert_eq!(b.line(0), "foo bar");
    assert_eq!(b.line(1), "baz");
    assert_eq!(b.raw_line(0), "foo bar\n");
    assert_eq!(b.raw_line(1), "baz\n");
    assert_eq!(b.line_len(0), 7);
    assert_eq!(b.raw_line_len(0), 8);
    assert_eq!(b.line_len(1), 3);
    assert_eq!(b.raw_line_len(1), 4);
}

#[test]
fn round_trip_preserves_bytes() {
    for s in ["", "a", "foo bar\nbaz\n", "x\n\ny", "one\r\ntwo\r\n"] {
        let b = buf(s);
        assert_eq!(b.content(), s.as_bytes().to_vec());
    }
}

#[test]
fn crlf_detection() {
    let b = buf("one\r\ntwo");
    assert_eq!(b.separator(), LineSeparator::CRLF);
    assert_eq!(b.line(0), "one");
    assert_eq!(b.line(1), "two");
    assert_eq!(b.line_len(0), 3);
    assert_eq!(b.raw_line_len(0), 5);
    let lf = buf("one\ntwo");
    assert_eq!(lf.separator(), LineSeparator::LF);
}

#[test]
fn insert_and_remove_restore_line() {
    let mut b = buf("hello world");
    b.insert_into_line(0, 5, " dear".as_bytes());
    assert_eq!(b.line(0), "hello dear world");
    b.remove_from_line(0, 5, 5);
    assert_eq!(b.line(0), "hello world");
    assert_eq!(b.content(), "hello world".as_bytes().to_vec());
}

#[test]
fn zero_width_range_removes_one_char() {
    let mut b = buf("test data");
    b.remove_by_range(LinePos { line: 0, col: 4 }, LinePos { line: 0, col: 4 });
    assert_eq!(b.line(0), "testdata");
}

#[test]
fn remove_range_multi_line() {
    let mut b = buf("foo bar\nbaz\nqux\n");
    b.remove_by_range(LinePos { line: 0, col: 4 }, LinePos { line: 2, col: 0 });
    assert_eq!(b.total_lines(), 1);
    assert_eq!(b.line(0), "foo ux");
}

#[test]
fn split_and_join() {
    let mut b = buf("hello world");
    b.split_line_at_index(0, 5);
    assert_eq!(b.total_lines(), 2);
    assert_eq!(b.line(0), "hello");
    assert_eq!(b.line(1), " world");
    b.remove_line_sep(0);
    assert_eq!(b.total_lines(), 1);
    assert_eq!(b.line(0), "hello world");
}

#[test]
fn empty_lines_and_removal() {
    let mut b = buf("a\nb");
    b.insert_empty_line(1);
    assert_eq!(b.total_lines(), 3);
    assert_eq!(b.line(0), "a");
    assert_eq!(b.line(1), "");
    assert_eq!(b.line(2), "b");
    b.remove_line(1);
    assert_eq!(b.total_lines(), 2);
    assert_eq!(b.line(1), "b");
    b.remove_line(1);
    assert_eq!(b.total_lines(), 1);
    assert_eq!(b.line(0), "a");
    b.remove_line(0);
    assert_eq!(b.total_lines(), 1);
    assert_eq!(b.line(0), "");
}

#[test]
fn append_line_past_end() {
    let mut b = buf("a");
    b.insert_empty_line(1);
    assert_eq!(b.total_lines(), 2);
    assert_eq!(b.line(0), "a");
    assert_eq!(b.line(1), "");
    assert_eq!(b.content(), "a\n\n".as_bytes().to_vec());
}

#[test]
fn multibyte_columns() {
    let mut b = buf("aä😂b");
    assert_eq!(b.line_len(0), 4);
    b.remove_from_line(0, 1, 2);
    assert_eq!(b.line(0), "ab");
    b.insert_into_line(0, 1, "ä".as_bytes());
    assert_eq!(b.line(0), "aäb");
}

#[test]
fn empty_buffer_has_one_empty_line() {
    let b = buf("");
    assert_eq!(b.total_lines(), 1);
    assert_eq!(b.line(0), "");
    assert_eq!(b.line_len(0), 0);
    assert_eq!(b.raw_line_len(0), 0);
    assert_eq!(b.content(), Vec::<u8>::new());
}

#[test]
fn iterators_cover_buffer_from_any_split() {
    let s = "tes😃t😂iä\nja toinen 🤝 kolmas";
    let b = buf(s);
    // walk backward from a mid-buffer position, then forward from the same
    // position: together they reproduce every character
    let before: Vec<char> = {
        let mut v = Vec::new();
        let mut it = b.utf8_rev_iter(LinePos { line: 0, col: 4 });
        while let Some(c) = it.next() {
            v.insert(0, c);
        }
        v
    };
    let after: Vec<char> = {
        let mut v = Vec::new();
        let mut it = b.utf8_iter(LinePos { line: 0, col: 5 });
        while let Some(c) = it.next() {
            v.push(c);
        }
        v
    };
    let mut joined = before;
    joined.extend(after);
    let expected: Vec<char> = s.chars().collect();
    assert_eq!(joined, expected);
}

#[test]
fn crlf_editing_keeps_style() {
    let mut b = buf("one\r\ntwo\r\n");
    b.insert_into_line(0, 3, "!".as_bytes());
    assert_eq!(b.line(0), "one!");
    b.split_line_at_index(0, 2);
    assert_eq!(b.total_lines(), 3);
    assert_eq!(b.line(0), "on");
    assert_eq!(b.line(1), "e!");
    assert_eq!(b.content(), "on\r\ne!\r\ntwo\r\n".as_bytes().to_vec());
    b.remove_line_sep(0);
    assert_eq!(b.content(), "one!\r\ntwo\r\n".as_bytes().to_vec());
}

#[test]
fn full_view_decodes_everything() {
    let s = "ab\ncd";
    let b = buf(s);
    match b.full_view() {
        moded::text_buffer::LineView::Contiguous(t) => assert_eq!(t, s),
        moded::text_buffer::LineView::Parts(_, _) => panic!("expected one piece"),
    }
}
