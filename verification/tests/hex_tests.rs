use keyscan::hex::encode_hex;
use keyscan::hex::parse_hex;

#[test]
fn hex_decodes_simple_pairs() {
    assert_eq!(parse_hex(b"0a1b"), vec![0x0a, 0x1b]);
    assert_eq!(parse_hex(b"00ff"), vec![0x00, 0xff]);
    assert_eq!(parse_hex(b"deadbeef"), vec![0xde, 0xad, 0xbe, 0xef]);
}

#[test]
fn hex_decodes_upper_and_mixed_case() {
    assert_eq!(parse_hex(b"AbF0"), vec![0xab, 0xf0]);
    assert_eq!(parse_hex(b"DEADBEEF"), vec![0xde, 0xad, 0xbe, 0xef]);
}

#[test]
fn hex_ignores_non_hex_bytes() {
    assert_eq!(parse_hex(b"0a-1b"), parse_hex(b"0a1b"));
    assert_eq!(parse_hex(b"0x0a 0x1b"), vec![0x00, 0xa0, 0x1b]);
    assert_eq!(parse_hex(b"zz"), Vec::<u8>::new());
}

#[test]
fn hex_drops_odd_trailing_nibble() {
    assert_eq!(parse_hex(b"abc"), vec![0xab]);
    assert_eq!(parse_hex(b"a"), Vec::<u8>::new());
}

#[test]
fn hex_decodes_empty_input() {
    assert_eq!(parse_hex(b""), Vec::<u8>::new());
}

#[test]
fn hex_round_trip() {
    let bytes: Vec<u8> = vec![0x00, 0x5a, 0xff, 0x10, 0x0a];
    let encoded = encode_hex(&bytes);
    assert_eq!(encoded, b"005aff100a".to_vec());
    assert_eq!(parse_hex(&encoded), bytes);
}
