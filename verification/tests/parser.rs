use udp_relay::command::{
    bytes_eq, check_for_command, is_ascii_whitespace, receive_window, split_whitespace,
    trim_newlines, Command, Message, CONNECT_STR, DISCONNECT_STR, MAX_PACKET_LEN,
};

fn connect(secret: &[u8], session: &[u8]) -> Message {
    Message::Connect { secret: secret.to_vec(), session: session.to_vec() }
}

fn disconnect(session: &[u8]) -> Message {
    Message::Disconnect { session: session.to_vec() }
}

#[test]
fn connect_with_secret_and_session() {
    assert_eq!(check_for_command(b"CONNECT S room1"), connect(b"S", b"room1"));
}

#[test]
fn connect_may_end_in_a_newline() {
    assert_eq!(check_for_command(b"CONNECT S room1\n"), connect(b"S", b"room1"));
    assert_eq!(check_for_command(b"CONNECT S room1\n\n\n"), connect(b"S", b"room1"));
}

#[test]
fn disconnect_with_session() {
    assert_eq!(check_for_command(b"DISCONNECT room1"), disconnect(b"room1"));
    assert_eq!(check_for_command(b"DISCONNECT room1\n"), disconnect(b"room1"));
}

#[test]
fn words_are_separated_by_runs_of_white_space() {
    assert_eq!(check_for_command(b"  CONNECT \t S \x0b\x0c room1  "), connect(b"S", b"room1"));
    assert_eq!(check_for_command(b"CONNECT\nS\nroom1"), connect(b"S", b"room1"));
    assert_eq!(check_for_command(b"\tDISCONNECT\t\troom1\t"), disconnect(b"room1"));
}

#[test]
fn carriage_return_separates_words() {
    assert_eq!(check_for_command(b"CONNECT S room1\r\n"), connect(b"S", b"room1"));
    assert_eq!(check_for_command(b"DISCONNECT room1\r\n"), disconnect(b"room1"));
}

#[test]
fn empty_payload_is_data() {
    assert_eq!(check_for_command(b""), Message::Data);
}

#[test]
fn white_space_alone_is_data() {
    assert_eq!(check_for_command(b" \n\t "), Message::Data);
    assert_eq!(check_for_command(b"\n"), Message::Data);
}

#[test]
fn connect_with_wrong_arity_is_data() {
    assert_eq!(check_for_command(b"CONNECT"), Message::Data);
    assert_eq!(check_for_command(b"CONNECT S"), Message::Data);
    assert_eq!(check_for_command(b"CONNECT S room1 extra"), Message::Data);
}

#[test]
fn disconnect_with_wrong_arity_is_data() {
    assert_eq!(check_for_command(b"DISCONNECT"), Message::Data);
    assert_eq!(check_for_command(b"DISCONNECT room1 extra"), Message::Data);
}

#[test]
fn command_names_are_matched_exactly() {
    assert_eq!(check_for_command(b"connect S room1"), Message::Data);
    assert_eq!(check_for_command(b"CONNECTX S room1"), Message::Data);
    assert_eq!(check_for_command(b"CONNEC S room1"), Message::Data);
    assert_eq!(check_for_command(b"Disconnect room1"), Message::Data);
    assert_eq!(check_for_command(b"hello"), Message::Data);
    assert_eq!(check_for_command(b"S CONNECT room1"), Message::Data);
}

#[test]
fn connect_followed_by_invalid_utf8_is_data() {
    assert_eq!(check_for_command(b"CONNECT \xff\xfe"), Message::Data);
    assert_eq!(check_for_command(b"CONNECT S room1 \xff"), Message::Data);
}

#[test]
fn three_words_that_are_not_utf8_are_data() {
    // Split at white space this is CONNECT with two more words; it is
    // data all the same, because the last word is no text.
    assert_eq!(check_for_command(b"CONNECT S \xff"), Message::Data);
    assert_eq!(check_for_command(b"CONNECT \xc3\x28 room1"), Message::Data);
    assert_eq!(check_for_command(b"DISCONNECT \xed\xa0\x80"), Message::Data);
    assert_eq!(check_for_command(b"DISCONNECT \xc0\xaf"), Message::Data);
}

#[test]
fn binary_payload_is_data() {
    assert_eq!(check_for_command(&[0xff, 0xfe, 0x00, 0x01]), Message::Data);
}

#[test]
fn words_may_hold_any_text_but_white_space() {
    let session = "caf\u{e9}-\u{1f600}".as_bytes();
    let mut payload = b"CONNECT s3cr3t! ".to_vec();
    payload.extend_from_slice(session);
    assert_eq!(check_for_command(&payload), connect(b"s3cr3t!", session));
}

#[test]
fn white_space_beyond_ascii_separates_nothing() {
    // U+00A0 and U+2003 are white space, but not ASCII: they are part of
    // the word they stand in.
    let payload = "CONNECT S\u{a0}x room\u{2003}1".as_bytes();
    assert_eq!(
        check_for_command(payload),
        connect("S\u{a0}x".as_bytes(), "room\u{2003}1".as_bytes())
    );
    assert_eq!(check_for_command("CONNECT\u{a0}S room1".as_bytes()), Message::Data);
}

#[test]
fn nul_is_no_white_space() {
    assert_eq!(check_for_command(b"CONNECT S\0 room1"), connect(b"S\0", b"room1"));
}

#[test]
fn split_at_white_space() {
    let none: Vec<Vec<u8>> = Vec::new();
    assert_eq!(split_whitespace(b""), none);
    assert_eq!(split_whitespace(b"   "), none);
    assert_eq!(split_whitespace(b"a"), vec![b"a".to_vec()]);
    assert_eq!(
        split_whitespace(b" ab  cd\te\n"),
        vec![b"ab".to_vec(), b"cd".to_vec(), b"e".to_vec()]
    );
    assert_eq!(split_whitespace(b"x\x0by\x0cz\rw"), vec![
        b"x".to_vec(),
        b"y".to_vec(),
        b"z".to_vec(),
        b"w".to_vec()
    ]);
}

#[test]
fn the_six_separators() {
    for b in 0u8..=255 {
        let expected = matches!(b, 0x09 | 0x0a | 0x0b | 0x0c | 0x0d | 0x20);
        assert_eq!(is_ascii_whitespace(b), expected);
    }
}

#[test]
fn only_line_feeds_are_trimmed() {
    assert_eq!(trim_newlines(b"abc\n\n"), b"abc");
    assert_eq!(trim_newlines(b"abc\r\n"), b"abc\r");
    assert_eq!(trim_newlines(b"abc \n"), b"abc ");
    assert_eq!(trim_newlines(b"\nabc"), b"\nabc");
    assert_eq!(trim_newlines(b"\n\n"), b"");
    assert_eq!(trim_newlines(b""), b"");
}

#[test]
fn command_by_name() {
    assert_eq!(Command::parse(b"CONNECT"), Some(Command::Connect));
    assert_eq!(Command::parse(b"DISCONNECT"), Some(Command::Disconnect));
    assert_eq!(Command::parse(b"CONNECT "), None);
    assert_eq!(Command::parse(b"DISCONNEC"), None);
    assert_eq!(Command::parse(b""), None);
    assert_eq!(CONNECT_STR, "CONNECT");
    assert_eq!(DISCONNECT_STR, "DISCONNECT");
}

#[test]
fn byte_strings_compare_byte_by_byte() {
    assert!(bytes_eq(b"", b""));
    assert!(bytes_eq(b"room1", b"room1"));
    assert!(!bytes_eq(b"room1", b"room2"));
    assert!(!bytes_eq(b"room1", b"room"));
    assert!(!bytes_eq(b"Room1", b"room1"));
}

#[test]
fn payload_is_cut_at_the_receive_buffer() {
    assert_eq!(MAX_PACKET_LEN, 1500);
    let exact = vec![7u8; 1500];
    assert_eq!(receive_window(&exact), &exact[..]);
    let long: Vec<u8> = (0..1600u32).map(|i| (i % 251) as u8).collect();
    assert_eq!(receive_window(&long), &long[..1500]);
    assert_eq!(receive_window(b"hello"), b"hello");
    assert_eq!(receive_window(b""), b"");
}
