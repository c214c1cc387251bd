use hypr_kblayout::error::KbError;
use hypr_kblayout::framer::{newline_idx, LineFramer};

#[test]
fn newline_idx_finds_first() {
    assert_eq!(Some(3), newline_idx(b"abc\ndef\n"));
    assert_eq!(Some(0), newline_idx(b"\nabc"));
    assert_eq!(None, newline_idx(b"abc"));
    assert_eq!(None, newline_idx(b""));
}

#[test]
fn one_line_comes_out_once() {
    let mut framer = LineFramer::new();
    framer.push_bytes(b"activelayout>>kb,English (US)\n");
    let line = framer.next_line().unwrap().unwrap();
    assert_eq!(b"activelayout>>kb,English (US)".to_vec(), line);
    assert_eq!(Ok(None), framer.next_line());
}

#[test]
fn chunking_does_not_change_lines() {
    let data = b"activelayout>>kb,English (US)\n";

    let mut all_at_once = LineFramer::new();
    all_at_once.push_bytes(data);
    let l1 = all_at_once.next_line().unwrap().unwrap();

    let mut byte_at_a_time = LineFramer::new();
    for b in data.iter() {
        byte_at_a_time.push_bytes(&[*b]);
    }
    let l2 = byte_at_a_time.next_line().unwrap().unwrap();

    assert_eq!(l1, l2);
    assert_eq!(Ok(None), all_at_once.next_line());
    assert_eq!(Ok(None), byte_at_a_time.next_line());
}

#[test]
fn partial_line_waits_for_terminator() {
    let mut framer = LineFramer::new();
    framer.push_bytes(b"abc");
    assert_eq!(Ok(None), framer.next_line());
    framer.push_bytes(b"def\ntail");
    assert_eq!(b"abcdef".to_vec(), framer.next_line().unwrap().unwrap());
    assert_eq!(Ok(None), framer.next_line());
    framer.push_bytes(b"\n");
    assert_eq!(b"tail".to_vec(), framer.next_line().unwrap().unwrap());
}

#[test]
fn two_lines_in_one_chunk() {
    let mut framer = LineFramer::new();
    framer.push_bytes(b"first\nsecond\n");
    assert_eq!(b"first".to_vec(), framer.next_line().unwrap().unwrap());
    assert_eq!(b"second".to_vec(), framer.next_line().unwrap().unwrap());
    assert_eq!(Ok(None), framer.next_line());
}

#[test]
fn empty_line_is_a_line() {
    let mut framer = LineFramer::new();
    framer.push_bytes(b"\n");
    assert_eq!(Vec::<u8>::new(), framer.next_line().unwrap().unwrap());
}

#[test]
fn overlong_line_reported() {
    let mut framer = LineFramer::new();
    let chunk = vec![b'a'; 9000];
    framer.push_bytes(&chunk);
    assert_eq!(Err(KbError::LineTooLong), framer.next_line());
}
