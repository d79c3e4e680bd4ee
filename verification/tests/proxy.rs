use protocore::proxy::{is_wallet_addr, parse_slice, replace_wallet, try_parse_slice};

const TONY: &[u8] = b"7YWHMfk9JZe0LM0g1ZauHuiSxhI";

#[test]
fn proxy_recognises_a_wallet_address() {
    assert!(is_wallet_addr(b"7F1u3wSD5RbOHQmupo9nx4TnhQ"));
    assert!(is_wallet_addr(b"7iKDZEwPZSqIvDnHvVN2r0hUWXD5rHX"));
    assert!(is_wallet_addr(TONY));
}

#[test]
fn proxy_rejects_near_misses() {
    // wrong first character
    assert!(!is_wallet_addr(b"8F1u3wSD5RbOHQmupo9nx4TnhQ"));
    // too short: 25 characters
    assert!(!is_wallet_addr(b"7F1u3wSD5RbOHQmupo9nx4Tnh"));
    // too long: 36 characters
    assert!(!is_wallet_addr(b"7F1u3wSD5RbOHQmupo9nx4TnhQaaaaaaaaaa"));
    // a non-alphanumeric character
    assert!(!is_wallet_addr(b"7F1u3wSD5RbOHQmupo-nx4TnhQ"));
    assert!(!is_wallet_addr(b""));
}

#[test]
fn proxy_rewrites_a_wallet_in_a_message() {
    let msg = b"Please send the payment to 7iKDZEwPZSqIvDnHvVN2r0hUWXD5rHX\n";
    let mut expected = b"Please send the payment to ".to_vec();
    expected.extend_from_slice(TONY);
    expected.push(b'\n');
    assert_eq!(replace_wallet(msg), expected);
}

#[test]
fn proxy_rewrites_a_wallet_at_the_end() {
    let msg = b"pay 7F1u3wSD5RbOHQmupo9nx4TnhQ";
    let mut expected = b"pay ".to_vec();
    expected.extend_from_slice(TONY);
    assert_eq!(replace_wallet(msg), expected);
}

#[test]
fn proxy_keeps_ordinary_text() {
    let msg = b"hello there, nothing to see\n";
    assert_eq!(replace_wallet(msg), msg.to_vec());
}

#[test]
fn proxy_keeps_whitespace_runs_and_other_tokens() {
    let msg = b"  a  7F1u3wSD5RbOHQmupo9nx4TnhQ  b ";
    let mut expected = b"  a  ".to_vec();
    expected.extend_from_slice(TONY);
    expected.extend_from_slice(b"  b ");
    assert_eq!(replace_wallet(msg), expected);
}

#[test]
fn proxy_token_must_stand_alone() {
    // glued to a longer token the address is not 26 to 35 characters of
    // its own, and a 36-character token is no wallet
    let msg = b"x7F1u3wSD5RbOHQmupo9nx4TnhQaaaaaaaaa end";
    assert_eq!(replace_wallet(msg), msg.to_vec());
}

#[test]
fn proxy_rewrites_every_wallet() {
    let msg = b"7F1u3wSD5RbOHQmupo9nx4TnhQ 7iKDZEwPZSqIvDnHvVN2r0hUWXD5rHX";
    let mut expected = TONY.to_vec();
    expected.push(b' ');
    expected.extend_from_slice(TONY);
    assert_eq!(replace_wallet(msg), expected);
}

#[test]
fn proxy_empty_message() {
    assert_eq!(replace_wallet(b""), Vec::<u8>::new());
}

#[test]
fn proxy_parse_slice_views_bytes_as_text() {
    assert_eq!(parse_slice(b"hello"), "hello");
    assert_eq!(parse_slice("grüße".as_bytes()), "gr\u{fc}\u{df}e");
}

#[test]
fn proxy_try_parse_slice_rejects_invalid_bytes() {
    assert!(try_parse_slice(&[0xff, 0xfe]).is_none());
    assert_eq!(try_parse_slice(b"ok"), Some("ok"));
}
