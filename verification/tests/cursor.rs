use bytes::Bytes;
use unbytes::{EndOfInput, Reader};

#[test]
fn static_slice_test() {
    let slice: &'static [u8; 20] = &[
        1, 2, 3, 4, 5, 6, 7, 8, 9, 10, 11, 12, 13, 14, 15, 16, 17, 18, 19, 20,
    ];
    let bytes = Bytes::from_static(slice);

    let mut reader = Reader::new(bytes.clone());
    assert_eq!(slice, &*reader.read_bytes(20).unwrap());

    let mut reader = Reader::new(bytes.clone());
    assert_eq!(slice, reader.read_slice(20).unwrap());

    let mut reader = Reader::new(bytes.clone());
    assert_eq!(slice, &reader.read_array::<20>().unwrap());

    let mut reader = Reader::new(bytes.clone());
    assert_eq!(&[1, 2, 3, 4, 5], &*reader.read_bytes(5).unwrap());
    assert_eq!(&[6, 7, 8, 9, 10], reader.read_slice(5).unwrap());
    assert_eq!(&[11, 12, 13, 14, 15], &reader.read_array::<5>().unwrap());
    assert_eq!(16, reader.read_u8().unwrap());

    assert_eq!(reader.consumed(), 16);
    assert_eq!(reader.remaining(), 4);
    assert!(reader.has_remaining(4));
}

#[test]
fn sixteen_byte_walk() {
    let data = Bytes::copy_from_slice(&[1, 2, 3, 4, 5, 6, 7, 8, 9, 10, 11, 12, 13, 14, 15, 16]);
    let mut reader = Reader::new(data);
    assert_eq!(&*reader.read_bytes(5).unwrap(), &[1, 2, 3, 4, 5][..]);
    assert_eq!(reader.read_slice(5).unwrap(), &[6, 7, 8, 9, 10][..]);
    assert_eq!(reader.read_array::<5>().unwrap(), [11, 12, 13, 14, 15]);
    assert_eq!(reader.read_byte().unwrap(), 16);
    assert_eq!(reader.consumed(), 16);
    assert_eq!(reader.remaining(), 0);
    assert!(!reader.has_remaining(1));
}

#[test]
fn empty_cursor() {
    let mut reader = Reader::new(Bytes::new());
    assert_eq!(reader.read_byte(), Err(EndOfInput));
    assert!(!reader.peek(0));
    assert!(!reader.peek(123));
    reader.skip(100);
    assert_eq!(reader.consumed(), 0);
    assert_eq!(reader.remaining(), 0);
}

#[test]
fn successful_reads_advance_exactly() {
    let data = Bytes::copy_from_slice(&[10, 20, 30, 40, 50, 60]);
    let mut reader = Reader::new(data);
    let before = reader.consumed();
    let b = reader.read_bytes(3).unwrap();
    assert_eq!(&*b, &[10, 20, 30][..]);
    assert_eq!(reader.consumed(), before + 3);

    let before = reader.consumed();
    let s = reader.read_slice(2).unwrap().to_vec();
    assert_eq!(s, vec![40, 50]);
    assert_eq!(reader.consumed(), before + 2);

    let before = reader.consumed();
    let a = reader.read_array::<1>().unwrap();
    assert_eq!(a, [60]);
    assert_eq!(reader.consumed(), before + 1);
}

#[test]
fn oversized_reads_fail_without_advancing() {
    let data = Bytes::copy_from_slice(&[1, 2, 3]);
    let mut reader = Reader::new(data);
    assert_eq!(reader.read_byte().unwrap(), 1);
    let consumed = reader.consumed();

    assert_eq!(reader.read_bytes(3).unwrap_err(), EndOfInput);
    assert_eq!(reader.consumed(), consumed);
    assert_eq!(reader.read_slice(3).unwrap_err(), EndOfInput);
    assert_eq!(reader.consumed(), consumed);
    assert_eq!(reader.read_array::<3>().unwrap_err(), EndOfInput);
    assert_eq!(reader.consumed(), consumed);
    assert_eq!(reader.read_u32().unwrap_err(), EndOfInput);
    assert_eq!(reader.consumed(), consumed);
    assert!(matches!(reader.subreader(3), Err(EndOfInput)));
    assert_eq!(reader.consumed(), consumed);

    // The two bytes that remain are still readable afterwards.
    assert_eq!(reader.read_array::<2>().unwrap(), [2, 3]);
}

#[test]
fn remaining_plus_consumed_is_constant() {
    let data = Bytes::copy_from_slice(&[9, 8, 7, 6, 5]);
    let mut reader = Reader::new(data);
    assert_eq!(reader.remaining() + reader.consumed(), 5);
    reader.read_byte().unwrap();
    assert_eq!(reader.remaining() + reader.consumed(), 5);
    reader.read_bytes(2).unwrap();
    assert_eq!(reader.remaining() + reader.consumed(), 5);
    let _ = reader.read_bytes(100);
    assert_eq!(reader.remaining() + reader.consumed(), 5);
    reader.skip(100);
    assert_eq!(reader.remaining() + reader.consumed(), 5);
}

#[test]
fn skip_clamps_to_end() {
    let data = Bytes::copy_from_slice(&[1, 2, 3, 4]);
    let mut reader = Reader::new(data);
    reader.skip(2);
    assert_eq!(reader.consumed(), 2);
    reader.skip(100);
    assert_eq!(reader.consumed(), 4);
    assert_eq!(reader.remaining(), 0);
}

#[test]
fn peek_matches_without_advancing() {
    let data = Bytes::copy_from_slice(&[42, 7]);
    let reader = Reader::new(data);
    assert!(reader.peek(42));
    assert!(!reader.peek(7));
    assert_eq!(reader.consumed(), 0);
}

#[test]
fn read_to_end_returns_rest() {
    let data = Bytes::copy_from_slice(&[1, 2, 3, 4]);
    let mut reader = Reader::new(data);
    reader.read_byte().unwrap();
    let rest = reader.read_to_end();
    assert_eq!(&*rest, &[2, 3, 4][..]);
}

#[test]
fn read_to_end_at_end_is_empty() {
    let data = Bytes::copy_from_slice(&[1, 2]);
    let mut reader = Reader::new(data);
    reader.read_bytes(2).unwrap();
    let rest = reader.read_to_end();
    assert_eq!(rest.len(), 0);
    assert!(rest.is_empty());
}

#[test]
fn subreader_zero_always_fails() {
    let data = Bytes::copy_from_slice(&[1, 2, 3]);
    let mut reader = Reader::new(data);
    assert!(matches!(reader.subreader(0), Err(EndOfInput)));
    assert_eq!(reader.consumed(), 0);
    assert_eq!(reader.remaining(), 3);
}

#[test]
fn subreader_reads_exact_window() {
    let data = Bytes::copy_from_slice(&[1, 2, 3, 4, 5]);
    let mut reader = Reader::new(data);
    let mut sub = reader.subreader(3).unwrap();
    assert_eq!(reader.consumed(), 3);
    assert_eq!(sub.consumed(), 0);
    assert_eq!(sub.remaining(), 3);
    assert_eq!(&*sub.read_bytes(3).unwrap(), &[1, 2, 3][..]);
    assert_eq!(sub.read_byte(), Err(EndOfInput));
    assert_eq!(reader.read_byte().unwrap(), 4);
}

#[test]
fn remaining_slice_shows_unread_bytes() {
    let data = Bytes::copy_from_slice(&[5, 6, 7, 8]);
    let mut reader = Reader::new(data);
    reader.read_byte().unwrap();
    assert_eq!(reader.remaining_slice(), &[6, 7, 8][..]);
    assert_eq!(reader.consumed(), 1);
}

#[test]
fn reader_from_bytes() {
    let data = Bytes::copy_from_slice(&[11, 22]);
    let mut reader = Reader::from(data);
    assert_eq!(reader.consumed(), 0);
    assert_eq!(reader.read_byte().unwrap(), 11);
}

#[test]
fn end_of_input_message() {
    assert_eq!(EndOfInput.message(), "end of input");
}
