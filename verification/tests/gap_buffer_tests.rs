use moded::gap_buffer::GapBuffer;

fn text(buf: &GapBuffer<u8>) -> String {
    String::from_utf8(buf.get_to_end(0)).unwrap()
}

#[test]
fn test_insert() {
    let data = "test data for myself".as_bytes();
    let mut buf = GapBuffer::new(data.to_vec());

    buf.insert(4, "best".as_bytes());
    assert_eq!(buf.get_by_range(0, 8), "testbest".as_bytes().to_vec());
    assert_eq!(buf.get_to_end(8), " data for myself".as_bytes().to_vec());

    buf.insert(18, "me and ".as_bytes());
    assert_eq!(buf.get_by_range(0, 25), "testbest data for me and ".as_bytes().to_vec());

    buf.insert(0, "this is ".as_bytes());
    assert_eq!("this is testbest data for me and myself", &text(&buf));

    buf.insert(39, " and it just works".as_bytes());
    assert_eq!("this is testbest data for me and myself and it just works", &text(&buf));

    buf.insert(8, "and will be ".as_bytes());
    assert_eq!("this is and will be testbest data for me and myself and it just works", &text(&buf));
}

#[test]
fn test_remove() {
    let data = "test data for myself".as_bytes();
    let mut buf = GapBuffer::new(data.to_vec());

    buf.remove(5, 5);
    assert_eq!("test for myself", &text(&buf));

    buf.remove(9, 3);
    assert_eq!("test for elf", &text(&buf));

    buf.remove(10, 2);
    assert_eq!("test for e", &text(&buf));

    buf.insert(10, "r".as_bytes());
    assert_eq!("test for er", &text(&buf));

    buf.remove(4, 5);
    assert_eq!("tester", &text(&buf));

    buf.remove(1, 1);
    assert_eq!("tster", &text(&buf));

    buf.remove(3, 2);
    assert_eq!("tst", &text(&buf));
}

#[test]
fn offset_shifts() {
    let mut offs = GapBuffer::new(vec![0usize, 4, 9]);
    offs.increment_range_by(1, 3, 5);
    assert_eq!(offs.get_one(0), 0);
    assert_eq!(offs.get_one(1), 9);
    assert_eq!(offs.get_one(2), 14);
    offs.decrement_range_by(1, 3, 2);
    assert_eq!(offs.get_one(1), 7);
    assert_eq!(offs.get_one(2), 12);
    assert_eq!(offs.len(), 3);
}

#[test]
fn byte_iterators() {
    let buf = GapBuffer::new("abc".as_bytes().to_vec());
    let mut it = buf.into_iterator(0);
    assert_eq!(it.next(), Some(b'a'));
    assert_eq!(it.next(), Some(b'b'));
    assert_eq!(it.next(), Some(b'c'));
    assert_eq!(it.next(), None);
    let mut rev = buf.into_rev_iterator(2);
    assert_eq!(rev.next(), Some(b'c'));
    assert_eq!(rev.next(), Some(b'b'));
    assert_eq!(rev.next(), Some(b'a'));
    assert_eq!(rev.next(), None);
}
