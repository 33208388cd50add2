use ai2048::protocol::{REQUEST_LEN, RequestError, read_request};

#[test]
fn parses_full_record() {
    assert_eq!(REQUEST_LEN, 17);
    let mut raw: Vec<u8> = (0..16).collect();
    raw.push(99);
    let (board, reserved) = read_request(&raw).unwrap();
    // Byte order is column fastest: byte 4*y + x is the rank at (x, y).
    assert_eq!(board.get_row(0), [0, 1, 2, 3]);
    assert_eq!(board.get_row(1), [4, 5, 6, 7]);
    assert_eq!(board.get_row(2), [8, 9, 10, 11]);
    assert_eq!(board.get_row(3), [12, 13, 14, 15]);
    assert_eq!(reserved, 99);
}

#[test]
fn rejects_short_record() {
    let raw: Vec<u8> = vec![0; 16];
    assert_eq!(read_request(&raw), Err(RequestError::Truncated));
    let empty: Vec<u8> = Vec::new();
    assert_eq!(read_request(&empty), Err(RequestError::Truncated));
}

#[test]
fn rejects_long_record() {
    let raw: Vec<u8> = vec![0; 18];
    assert_eq!(read_request(&raw), Err(RequestError::Truncated));
}
