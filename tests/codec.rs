use lambda_wire::codec::{
    alphabet_byte_at, decode_payload, encode_integer, encode_string, integer_to_text,
    parse_integer, parse_number, position_in_alphabet,
};
use lambda_wire::BigInt;
use lambda_wire::WireError;

const ALPHABET: &str = "abcdefghijklmnopqrstuvwxyzABCDEFGHIJKLMNOPQRSTUVWXYZ0123456789!\"#$%&'()*+,-./:;<=>?@[\\]^_`|~ \n";

#[test]
fn alphabet_matches_its_literal() {
    let bytes = ALPHABET.as_bytes();
    assert_eq!(bytes.len(), 94);
    for (i, &b) in bytes.iter().enumerate() {
        assert_eq!(alphabet_byte_at(i as u8), b);
        assert_eq!(position_in_alphabet(b), Some(i as u8));
    }
    assert_eq!(position_in_alphabet(b'{'), None);
    assert_eq!(position_in_alphabet(b'}'), None);
    assert_eq!(position_in_alphabet(b'\t'), None);
}

#[test]
fn every_character_round_trips() {
    for c in ALPHABET.chars() {
        let word = encode_string(&c.to_string()).unwrap();
        assert_eq!(word.len(), 2);
        assert_eq!(&word[..1], "S");
        let text = decode_payload(&word.as_bytes()[1..]).unwrap();
        assert_eq!(text, vec![c as u8]);
    }
}

#[test]
fn whole_alphabet_encodes_to_printable_range() {
    let word = encode_string(ALPHABET).unwrap();
    let expected: String = std::iter::once('S')
        .chain((33u8..127).map(|b| b as char))
        .collect();
    assert_eq!(word, expected);
}

#[test]
fn encode_get_index_decodes_back() {
    let word = encode_string("get index").unwrap();
    assert!(word.starts_with('S'));
    let text = decode_payload(&word.as_bytes()[1..]).unwrap();
    assert_eq!(text, b"get index".to_vec());
}

#[test]
fn encode_empty_text() {
    assert_eq!(encode_string("").unwrap(), "S");
}

#[test]
fn encode_rejects_unsupported_characters() {
    assert_eq!(encode_string("a{b"), Err(WireError::UnsupportedCharacter));
    assert_eq!(encode_string("\t"), Err(WireError::UnsupportedCharacter));
    assert_eq!(encode_string("caf\u{e9}"), Err(WireError::UnsupportedCharacter));
}

#[test]
fn decode_rejects_bytes_outside_printable_range() {
    assert_eq!(decode_payload(&[40, 127]), Err(WireError::PayloadOutOfRange));
    assert_eq!(decode_payload(&[32]), Err(WireError::PayloadOutOfRange));
    assert_eq!(decode_payload(&[]), Ok(vec![]));
}

#[test]
fn integer_encoding_examples() {
    assert_eq!(encode_integer(&BigInt::from_u64(0)), "I!");
    assert_eq!(encode_integer(&BigInt::from_u64(93)), "I~");
    assert_eq!(encode_integer(&BigInt::from_u64(94)), "I\"!");
    assert_eq!(encode_integer(&BigInt::from_u64(1337)), "I/6");
    assert_eq!(encode_integer(&BigInt::from_u64(15818151)), "I4%34");
    assert_eq!(encode_integer(&BigInt::from_i64(-3)), "U- I$");
}

fn power_of_94(k: u32) -> BigInt {
    let mut p = BigInt::from_u64(1);
    for _ in 0..k {
        p = p.mul(&BigInt::from_u64(94));
    }
    p
}

#[test]
fn integers_round_trip() {
    let mut n: u64 = 0;
    while n < 200_000 {
        let word = encode_integer(&BigInt::from_u64(n));
        let back = parse_number(&word.as_bytes()[1..], false).unwrap();
        assert_eq!(back, BigInt::from_u64(n));
        n += 7;
    }
    for n in [u64::MAX, u64::MAX - 1, 1 << 40, i64::MAX as u64] {
        let word = encode_integer(&BigInt::from_u64(n));
        assert_eq!(parse_number(&word.as_bytes()[1..], false).unwrap(), BigInt::from_u64(n));
    }
    let huge = power_of_94(40).add(&BigInt::from_u64(12345));
    let word = encode_integer(&huge);
    assert_eq!(word.len(), 42);
    assert_eq!(parse_number(&word.as_bytes()[1..], false).unwrap(), huge);
}

#[test]
fn large_payload_is_read_exactly() {
    let n = parse_number(b"#!!!!!!!!!!", false).unwrap();
    assert_eq!(n, BigInt::from_u64(2).mul(&power_of_94(10)));
    assert_eq!(n.to_i64(), None);
    assert_eq!(encode_integer(&n), "I#!!!!!!!!!!");
}

#[test]
fn parse_integer_errors() {
    assert_eq!(parse_integer(b"", false, 10), Ok(0));
    assert_eq!(parse_integer(b"/6", false, 1337), Ok(1337));
    assert_eq!(parse_integer(b"/6", false, 1336), Err(WireError::IntegerOverflow));
    assert_eq!(parse_integer(b"/ ", false, 10_000), Err(WireError::PayloadOutOfRange));
    assert_eq!(parse_integer(b"test", true, 1 << 40), Ok(15818151));
    assert_eq!(parse_integer(b"te{t", true, 1 << 40), Err(WireError::UnsupportedCharacter));
}

#[test]
fn integer_text_examples() {
    assert_eq!(integer_to_text(&BigInt::from_i64(15818151)), b"test".to_vec());
    assert_eq!(integer_to_text(&BigInt::from_i64(0)), Vec::<u8>::new());
    assert_eq!(integer_to_text(&BigInt::from_i64(-5)), Vec::<u8>::new());
    assert_eq!(integer_to_text(&BigInt::from_i64(94)), b"ba".to_vec());
    assert_eq!(integer_to_text(&power_of_94(3)), b"baaa".to_vec());
}

#[test]
fn encoded_text_parses_back() {
    for c in ALPHABET.chars() {
        let word = encode_string(&c.to_string()).unwrap();
        let t = lambda_wire::parse_string(&word).unwrap();
        assert_eq!(t.string(), vec![c as u8]);
    }
    let word = encode_string(ALPHABET).unwrap();
    assert_eq!(lambda_wire::parse_string(&word).unwrap().string(), ALPHABET.as_bytes().to_vec());
    let empty = encode_string("").unwrap();
    assert_eq!(lambda_wire::parse_string(&empty).unwrap().string(), Vec::<u8>::new());
}
