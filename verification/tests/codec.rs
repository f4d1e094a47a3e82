use stellar_codec::base32::{ascii_to_value_5bit, decode, encode};
use stellar_codec::error::Error;

#[test]
fn encode_empty_is_empty() {
    let out = encode(&[]);
    assert_eq!(out, Vec::<u8>::new());
}

#[test]
fn decode_empty_is_empty() {
    assert_eq!(decode(&[]), Ok(Vec::new()));
}

#[test]
fn decode_only_padding_is_empty() {
    assert_eq!(decode(b"===="), Ok(Vec::new()));
}

#[test]
fn encode_known_vector() {
    let out = encode(&[0x66, 0x6f, 0x6f]);
    assert_eq!(out, b"MZXW6".to_vec());
}

#[test]
fn decode_known_vector() {
    assert_eq!(decode(b"MZXW6"), Ok(vec![0x66, 0x6f, 0x6f]));
}

#[test]
fn decode_tolerates_padding() {
    assert_eq!(decode(b"MZXW6==="), decode(b"MZXW6"));
    assert_eq!(decode(b"MZXW6==="), Ok(vec![0x66, 0x6f, 0x6f]));
}

#[test]
fn decode_is_case_insensitive() {
    assert_eq!(decode(b"mzxw6==="), decode(b"MZXW6==="));
    assert_eq!(decode(b"mZxW6"), decode(b"MZXW6"));
}

#[test]
fn decode_digit_aliases() {
    // '0' stands for 'O' and '1' for 'I'
    assert_eq!(decode(b"0123"), decode(b"OI23"));
    assert_eq!(decode(b"C0FFEE"), decode(b"COFFEE"));
    assert_eq!(decode(b"A1B2"), decode(b"AIB2"));
}

#[test]
fn decode_reports_first_invalid_position() {
    assert_eq!(
        decode(b"AB!D"),
        Err(Error::InvalidBase32Character { at_position: 2 })
    );
}

#[test]
fn decode_invalid_at_start() {
    assert_eq!(
        decode(b"!ABC"),
        Err(Error::InvalidBase32Character { at_position: 0 })
    );
}

#[test]
fn decode_invalid_after_padding_is_ignored() {
    // the `=` stops decoding, so the `!` behind it is never seen
    assert_eq!(decode(b"MZXW6=!!"), Ok(vec![0x66, 0x6f, 0x6f]));
}

#[test]
fn encode_length_is_ceil_of_8n_over_5() {
    for n in 0usize..=64 {
        let input: Vec<u8> = (0..n).map(|i| (i * 37 + 11) as u8).collect();
        let out = encode(&input);
        assert_eq!(out.len(), (8 * n + 4) / 5);
    }
}

#[test]
fn round_trip_all_lengths_up_to_256() {
    for n in 0usize..=256 {
        let input: Vec<u8> = (0..n).map(|i| (i * 31 + 7) as u8).collect();
        let text = encode(&input);
        assert_eq!(decode(&text), Ok(input));
    }
}

#[test]
fn round_trip_extreme_bytes() {
    let input = vec![0x00, 0xff, 0x00, 0xff, 0x80, 0x01, 0x7f, 0xfe];
    assert_eq!(decode(&encode(&input)), Ok(input));
}

#[test]
fn encode_and_decode_are_deterministic() {
    let input = vec![1u8, 2, 3, 4, 5, 6, 7, 8, 9];
    assert_eq!(encode(&input), encode(&input));
    let text = b"MZXW6Y3PN5XXE===";
    assert_eq!(decode(text), decode(text));
}

#[test]
fn encode_uses_only_the_alphabet() {
    let input: Vec<u8> = (0..=255u8).collect();
    for c in encode(&input) {
        assert!((b'A'..=b'Z').contains(&c) || (b'2'..=b'7').contains(&c));
    }
}

#[test]
fn symbol_values() {
    assert_eq!(ascii_to_value_5bit(b'A'), Some(0));
    assert_eq!(ascii_to_value_5bit(b'a'), Some(0));
    assert_eq!(ascii_to_value_5bit(b'Z'), Some(25));
    assert_eq!(ascii_to_value_5bit(b'z'), Some(25));
    assert_eq!(ascii_to_value_5bit(b'2'), Some(26));
    assert_eq!(ascii_to_value_5bit(b'7'), Some(31));
    assert_eq!(ascii_to_value_5bit(b'0'), Some(14));
    assert_eq!(ascii_to_value_5bit(b'O'), Some(14));
    assert_eq!(ascii_to_value_5bit(b'1'), Some(8));
    assert_eq!(ascii_to_value_5bit(b'I'), Some(8));
    assert_eq!(ascii_to_value_5bit(b'!'), None);
    assert_eq!(ascii_to_value_5bit(b'8'), None);
    assert_eq!(ascii_to_value_5bit(b'='), None);
}

#[test]
fn decode_flushes_nonzero_trailing_carry() {
    // "MZXW7" leaves the three low bits of '7' pending, which are not all
    // zero, so a fourth byte is flushed
    assert_eq!(decode(b"MZXW7"), Ok(vec![0x66, 0x6f, 0x6f, 0x80]));
}

#[test]
fn decode_drops_zero_trailing_carry() {
    // "ME" spells 8 bits of 'a' and two zero bits: only one byte comes out
    assert_eq!(decode(b"ME"), Ok(vec![b'a']));
}
