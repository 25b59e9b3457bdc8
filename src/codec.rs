//! The alphabet codec: text to and from string payloads, and numbers to and
//! from base-94 digits.
use vstd::prelude::*;

use crate::bigint::BigInt;
use crate::error::WireError;
use vstd::string::is_ascii;

verus! {

broadcast use vstd::string::is_ascii_spec_bytes;

/// Number of characters in the alphabet, which is also the numeric base.
pub const BASE: u64 = 94;

/// Offset that maps digit `0` onto the first printable byte `!`.
pub const START: u8 = 33;

/// The alphabet
/// `abcdefghijklmnopqrstuvwxyzABCDEFGHIJKLMNOPQRSTUVWXYZ0123456789!"#$%&'()*+,-./:;<=>?@[\]^_`|~ \n`,
/// described by its runs of consecutive ASCII codes.
pub open spec fn alphabet_byte(i: int) -> u8
    recommends
        0 <= i < 94,
{
    if i < 26 {
        (97 + i) as u8  // a..z
    } else if i < 52 {
        (65 + i - 26) as u8  // A..Z
    } else if i < 62 {
        (48 + i - 52) as u8  // 0..9
    } else if i < 77 {
        (33 + i - 62) as u8  // ! .. /
    } else if i < 84 {
        (58 + i - 77) as u8  // : .. @
    } else if i < 90 {
        (91 + i - 84) as u8  // [ .. `
    } else if i == 90 {
        124u8  // |
    } else if i == 91 {
        126u8  // ~
    } else if i == 92 {
        32u8  // space
    } else {
        10u8  // newline
    }
}

/// Where a byte stands in the alphabet, if it stands there at all.
pub open spec fn alphabet_position(b: u8) -> Option<int> {
    if 97 <= b <= 122 {
        Some(b - 97)
    } else if 65 <= b <= 90 {
        Some(b - 65 + 26)
    } else if 48 <= b <= 57 {
        Some(b - 48 + 52)
    } else if 33 <= b <= 47 {
        Some(b - 33 + 62)
    } else if 58 <= b <= 64 {
        Some(b - 58 + 77)
    } else if 91 <= b <= 96 {
        Some(b - 91 + 84)
    } else if b == 124 {
        Some(90)
    } else if b == 126 {
        Some(91)
    } else if b == 32 {
        Some(92)
    } else if b == 10 {
        Some(93)
    } else {
        None
    }
}

/// Where a character stands in the alphabet; only ASCII characters can.
pub open spec fn char_position(c: char) -> Option<int> {
    if '\0' <= c <= '\u{7f}' {
        alphabet_position(c as u8)
    } else {
        None
    }
}

/// A byte that a wire payload may hold: the printable range 33..=126.
pub open spec fn is_payload_byte(b: u8) -> bool {
    33 <= b <= 126
}

/// The payload byte that carries the character at `position` of the alphabet.
pub open spec fn payload_byte_of(position: int) -> u8 {
    (position + 33) as u8
}

/// Text made only of alphabet characters.
pub open spec fn is_encodable(text: Seq<char>) -> bool {
    forall|i: int| 0 <= i < text.len() ==> (#[trigger] char_position(text[i])) is Some
}

/// The string payload of an encodable text: each character replaced by its
/// position plus 33.
pub open spec fn encoded_payload(text: Seq<char>) -> Seq<u8> {
    Seq::new(text.len(), |i: int| payload_byte_of(char_position(text[i])->Some_0))
}

/// The text that a string payload carries, or the error when a byte of it
/// lies outside the printable range.
pub open spec fn decoded_text(payload: Seq<u8>) -> Result<Seq<u8>, WireError> {
    if forall|i: int| 0 <= i < payload.len() ==> is_payload_byte(#[trigger] payload[i]) {
        Ok(Seq::new(payload.len(), |i: int| alphabet_byte(payload[i] - 33)))
    } else {
        Err(WireError::PayloadOutOfRange)
    }
}

/// The value of one base-94 digit: a payload byte minus 33 when
/// `from_text` is false, a position in the alphabet when it is true.
pub open spec fn digit_value(b: u8, from_text: bool) -> Option<int> {
    if from_text {
        alphabet_position(b)
    } else if is_payload_byte(b) {
        Some(b - 33)
    } else {
        None
    }
}

/// The error for a byte that is no digit.
pub open spec fn bad_digit_error(from_text: bool) -> WireError {
    if from_text {
        WireError::UnsupportedCharacter
    } else {
        WireError::PayloadOutOfRange
    }
}

/// The number that `digits` spell in base 94, most significant first, read
/// from the left: the first byte that is no digit, or the first prefix whose
/// value exceeds `limit`, ends the reading with an error.
pub open spec fn base94_value(digits: Seq<u8>, from_text: bool, limit: int) -> Result<int, WireError>
    decreases digits.len(),
{
    if digits.len() == 0 {
        Ok(0)
    } else {
        match base94_value(digits.drop_last(), from_text, limit) {
            Err(e) => Err(e),
            Ok(v) => match digit_value(digits.last(), from_text) {
                None => Err(bad_digit_error(from_text)),
                Some(d) => if v * 94 + d > limit {
                    Err(WireError::IntegerOverflow)
                } else {
                    Ok(v * 94 + d)
                },
            },
        }
    }
}

/// The shortest base-94 payload of `n`, most significant digit first, each
/// digit offset by 33; zero is the single digit `!`.
pub open spec fn integer_payload(n: nat) -> Seq<u8>
    decreases n,
{
    if n < 94 {
        seq![payload_byte_of(n as int)]
    } else {
        integer_payload(n / 94).push(payload_byte_of((n % 94) as int))
    }
}

/// The base-94 digits of `n` written as alphabet characters, most significant
/// first; zero is the empty text.
pub open spec fn integer_text(n: nat) -> Seq<u8>
    decreases n,
{
    if n == 0 {
        Seq::empty()
    } else {
        integer_text(n / 94).push(alphabet_byte((n % 94) as int))
    }
}

/// The alphabet character at `i`.
pub fn alphabet_byte_at(i: u8) -> (r: u8)
    requires
        i < 94,
    ensures
        r == alphabet_byte(i as int),
{
    if i < 26 {
        97 + i
    } else if i < 52 {
        65 + (i - 26)
    } else if i < 62 {
        48 + (i - 52)
    } else if i < 77 {
        33 + (i - 62)
    } else if i < 84 {
        58 + (i - 77)
    } else if i < 90 {
        91 + (i - 84)
    } else if i == 90 {
        124
    } else if i == 91 {
        126
    } else if i == 92 {
        32
    } else {
        10
    }
}

/// Where `b` stands in the alphabet.
pub fn position_in_alphabet(b: u8) -> (r: Option<u8>)
    ensures
        match alphabet_position(b) {
            Some(p) => r == Some(p as u8),
            None => r is None,
        },
{
    if 97 <= b && b <= 122 {
        Some(b - 97)
    } else if 65 <= b && b <= 90 {
        Some(b - 65 + 26)
    } else if 48 <= b && b <= 57 {
        Some(b - 48 + 52)
    } else if 33 <= b && b <= 47 {
        Some(b - 33 + 62)
    } else if 58 <= b && b <= 64 {
        Some(b - 58 + 77)
    } else if 91 <= b && b <= 96 {
        Some(b - 91 + 84)
    } else if b == 124 {
        Some(90)
    } else if b == 126 {
        Some(91)
    } else if b == 32 {
        Some(92)
    } else if b == 10 {
        Some(93)
    } else {
        None
    }
}

/// Relies on String::from_utf8: a sequence of ASCII bytes is valid UTF-8 and
/// reads back as one character per byte.
#[verifier::external_body]
fn ascii_to_string(bytes: Vec<u8>) -> (r: String)
    requires
        forall|i: int| 0 <= i < bytes@.len() ==> bytes@[i] < 128,
    ensures
        r@ == Seq::new(bytes@.len(), |i: int| bytes@[i] as char),
{
    match String::from_utf8(bytes) {
        Ok(s) => s,
        Err(_) => String::new(),
    }
}

/// Encodes human text as a string word: the indicator `S` followed by each
/// character's alphabet position plus 33. Fails when a character is not in
/// the alphabet.
pub fn encode_string(s: &str) -> (r: Result<String, WireError>)
    ensures
        match r {
            Ok(w) => {
                &&& is_encodable(s@)
                &&& w@ == seq!['S'] + encoded_payload(s@).map_values(|b: u8| b as char)
            },
            Err(e) => e == WireError::UnsupportedCharacter && !is_encodable(s@),
        },
{
    if !s.is_ascii() {
        proof {
            assert(!vstd::utf8::is_ascii_chars(s@));
            let i = choose|i: int| 0 <= i < s@.len() && !('\0' <= #[trigger] s@[i] <= '\u{7f}');
            assert(char_position(s@[i]) is None);
        }
        return Err(WireError::UnsupportedCharacter);
    }
    let bytes = s.as_bytes();
    assert(bytes@ == Seq::new(s@.len(), |i: int| s@[i] as u8));
    let mut out: Vec<u8> = Vec::new();
    out.push(83u8);
    let mut i: usize = 0;
    while i < bytes.len()
        invariant
            bytes@ == Seq::new(s@.len(), |i: int| s@[i] as u8),
            is_ascii(s),
            0 <= i <= bytes@.len(),
            out@.len() == i + 1,
            out@[0] == 83u8,
            forall|j: int| 0 <= j < out@.len() ==> out@[j] < 128,
            forall|j: int| 0 <= j < i ==> (#[trigger] char_position(s@[j])) is Some,
            forall|j: int|
                0 <= j < i ==> out@[j + 1] == payload_byte_of(
                    #[trigger] char_position(s@[j])->Some_0,
                ),
        decreases bytes@.len() - i,
    {
        match position_in_alphabet(bytes[i]) {
            None => {
                assert(char_position(s@[i as int]) is None);
                return Err(WireError::UnsupportedCharacter);
            },
            Some(p) => {
                out.push(p + 33);
            },
        }
        i = i + 1;
    }
    let w = ascii_to_string(out);
    assert(w@ =~= seq!['S'] + encoded_payload(s@).map_values(|b: u8| b as char));
    Ok(w)
}


/// A reading that fails on a prefix of `digits` fails the same way on all of it.
proof fn lemma_base94_error_persists(digits: Seq<u8>, n: int, from_text: bool, limit: int)
    requires
        0 <= n <= digits.len(),
        base94_value(digits.take(n), from_text, limit) is Err,
    ensures
        base94_value(digits, from_text, limit) == base94_value(digits.take(n), from_text, limit),
    decreases digits.len(),
{
    if n == digits.len() {
        assert(digits.take(n) =~= digits);
    } else {
        assert(digits.drop_last().take(n) =~= digits.take(n));
        lemma_base94_error_persists(digits.drop_last(), n, from_text, limit);
    }
}

/// The value of one digit byte.
fn digit_of(b: u8, from_text: bool) -> (r: Option<u8>)
    ensures
        match digit_value(b, from_text) {
            Some(d) => r == Some(d as u8),
            None => r is None,
        },
{
    if from_text {
        position_in_alphabet(b)
    } else if START <= b && b <= 126 {
        Some(b - START)
    } else {
        None
    }
}

/// Reads the base-94 number that `digits` spell, most significant first,
/// failing on a byte that is no digit and on a value above `limit`.
pub fn parse_integer(digits: &[u8], from_text: bool, limit: u64) -> (r: Result<u64, WireError>)
    ensures
        match r {
            Ok(v) => base94_value(digits@, from_text, limit as int) == Ok::<int, WireError>(
                v as int,
            ),
            Err(e) => base94_value(digits@, from_text, limit as int) == Err::<int, WireError>(e),
        },
{
    let mut res: u64 = 0;
    let mut i: usize = 0;
    assert(digits@.take(0) =~= Seq::<u8>::empty());
    while i < digits.len()
        invariant
            0 <= i <= digits@.len(),
            res <= limit,
            base94_value(digits@.take(i as int), from_text, limit as int) == Ok::<int, WireError>(
                res as int,
            ),
        decreases digits@.len() - i,
    {
        assert(digits@.take(i + 1).drop_last() =~= digits@.take(i as int));
        let d = match digit_of(digits[i], from_text) {
            Some(d) => d,
            None => {
                proof {
                    lemma_base94_error_persists(digits@, i + 1, from_text, limit as int);
                }
                return Err(if from_text {
                    WireError::UnsupportedCharacter
                } else {
                    WireError::PayloadOutOfRange
                });
            },
        };
        let next = match res.checked_mul(BASE) {
            Some(m) => m.checked_add(d as u64),
            None => None,
        };
        match next {
            Some(v) if v <= limit => {
                res = v;
            },
            _ => {
                proof {
                    lemma_base94_error_persists(digits@, i + 1, from_text, limit as int);
                }
                return Err(WireError::IntegerOverflow);
            },
        }
        i = i + 1;
    }
    assert(digits@.take(digits@.len() as int) =~= digits@);
    Ok(res)
}

/// Decodes a string payload into its text; fails when a byte lies outside
/// the printable range.
pub fn decode_payload(payload: &[u8]) -> (r: Result<Vec<u8>, WireError>)
    ensures
        match r {
            Ok(t) => decoded_text(payload@) == Ok::<Seq<u8>, WireError>(t@),
            Err(e) => decoded_text(payload@) == Err::<Seq<u8>, WireError>(e),
        },
{
    let mut out: Vec<u8> = Vec::new();
    let mut i: usize = 0;
    while i < payload.len()
        invariant
            0 <= i <= payload@.len(),
            out@.len() == i,
            forall|j: int| 0 <= j < i ==> is_payload_byte(#[trigger] payload@[j]),
            forall|j: int| 0 <= j < i ==> out@[j] == alphabet_byte(#[trigger] payload@[j] - 33),
        decreases payload@.len() - i,
    {
        let b = payload[i];
        if b < START || b > 126 {
            assert(!is_payload_byte(payload@[i as int]));
            return Err(WireError::PayloadOutOfRange);
        }
        out.push(alphabet_byte_at(b - START));
        i = i + 1;
    }
    assert(out@ =~= Seq::new(payload@.len(), |i: int| alphabet_byte(payload@[i] - 33)));
    Ok(out)
}

/// Appends the base-94 digits of a non-negative `n` to `out`, each offset
/// by 33.
fn push_integer_payload(n: &BigInt, out: &mut Vec<u8>)
    requires
        n@ >= 0,
    ensures
        final(out)@ == old(out)@ + integer_payload(n@ as nat),
    decreases n@,
{
    let (q, r) = n.divmod_small(BASE);
    if q.is_zero() {
        out.push(r as u8 + START);
        assert(final(out)@ =~= old(out)@ + integer_payload(n@ as nat));
    } else {
        push_integer_payload(&q, out);
        out.push(r as u8 + START);
        assert(final(out)@ =~= old(out)@ + integer_payload(n@ as nat));
    }
}

/// Encodes an integer as wire words: a non-negative one as the indicator `I`
/// followed by its base-94 digits, a negative one as the negation `U-` of
/// its absolute value.
pub fn encode_integer(n: &BigInt) -> (r: String)
    ensures
        r@ == (if n@ >= 0 {
            seq!['I'] + integer_payload(n@ as nat).map_values(|b: u8| b as char)
        } else {
            seq!['U', '-', ' ', 'I'] + integer_payload((-n@) as nat).map_values(|b: u8| b as char)
        }),
{
    let mut out: Vec<u8> = Vec::new();
    let m = if n.compare(&BigInt::zero()) == -1 {
        out.push(85u8);
        out.push(45u8);
        out.push(32u8);
        n.neg()
    } else {
        n.copy()
    };
    out.push(73u8);
    let ghost head = out@;
    push_integer_payload(&m, &mut out);
    proof {
        lemma_integer_payload_printable(m@ as nat);
        assert(forall|i: int| 0 <= i < head.len() ==> head[i] < 128);
    }
    let w = ascii_to_string(out);
    proof {
        if n@ >= 0 {
            assert(w@ =~= seq!['I'] + integer_payload(n@ as nat).map_values(|b: u8| b as char));
        } else {
            assert(w@ =~= seq!['U', '-', ' ', 'I'] + integer_payload((-n@) as nat).map_values(
                |b: u8| b as char,
            ));
        }
    }
    w
}

/// Every digit of an integer payload is printable.
proof fn lemma_integer_payload_printable(n: nat)
    ensures
        forall|i: int|
            0 <= i < integer_payload(n).len() ==> is_payload_byte(#[trigger] integer_payload(n)[i]),
    decreases n,
{
    let p = integer_payload(n);
    if n < 94 {
        assert(p[0] == (n + 33) as u8);
    } else {
        lemma_integer_payload_printable(n / 94);
        assert(n % 94 < 94);
        assert(p.last() == (n % 94 + 33) as u8);
        assert(p =~= integer_payload(n / 94).push(p.last()));
    }
}

/// The digits of `n` written as alphabet characters; zero and negative
/// numbers give the empty text.
pub fn integer_to_text(n: &BigInt) -> (r: Vec<u8>)
    ensures
        r@ == (if n@ > 0 {
            integer_text(n@ as nat)
        } else {
            Seq::empty()
        }),
{
    if n.compare(&BigInt::zero()) == 1 {
        natural_to_text(n)
    } else {
        Vec::new()
    }
}

/// The digits of a natural number written as alphabet characters.
fn natural_to_text(n: &BigInt) -> (r: Vec<u8>)
    requires
        n@ >= 0,
    ensures
        r@ == integer_text(n@ as nat),
    decreases n@,
{
    if n.is_zero() {
        Vec::new()
    } else {
        let (q, r) = n.divmod_small(BASE);
        let mut t = natural_to_text(&q);
        t.push(alphabet_byte_at(r as u8));
        t
    }
}

/// The number that `digits` spell in base 94, of any size, read from the
/// left: the first byte that is no digit ends the reading with an error.
pub open spec fn base94_number(digits: Seq<u8>, from_text: bool) -> Result<int, WireError>
    decreases digits.len(),
{
    if digits.len() == 0 {
        Ok(0)
    } else {
        match base94_number(digits.drop_last(), from_text) {
            Err(e) => Err(e),
            Ok(v) => match digit_value(digits.last(), from_text) {
                None => Err(bad_digit_error(from_text)),
                Some(d) => Ok(v * 94 + d),
            },
        }
    }
}

/// A reading of any size that fails on a prefix fails the same way on all of
/// `digits`.
proof fn lemma_base94_number_error_persists(digits: Seq<u8>, n: int, from_text: bool)
    requires
        0 <= n <= digits.len(),
        base94_number(digits.take(n), from_text) is Err,
    ensures
        base94_number(digits, from_text) == base94_number(digits.take(n), from_text),
    decreases digits.len(),
{
    if n == digits.len() {
        assert(digits.take(n) =~= digits);
    } else {
        assert(digits.drop_last().take(n) =~= digits.take(n));
        lemma_base94_number_error_persists(digits.drop_last(), n, from_text);
    }
}

/// Reads the base-94 number of any size that `digits` spell, most
/// significant first, failing on a byte that is no digit.
pub fn parse_number(digits: &[u8], from_text: bool) -> (r: Result<BigInt, WireError>)
    ensures
        match r {
            Ok(v) => base94_number(digits@, from_text) == Ok::<int, WireError>(v@),
            Err(e) => base94_number(digits@, from_text) == Err::<int, WireError>(e),
        },
{
    let mut res = BigInt::zero();
    let mut i: usize = 0;
    assert(digits@.take(0) =~= Seq::<u8>::empty());
    while i < digits.len()
        invariant
            0 <= i <= digits@.len(),
            res@ >= 0,
            base94_number(digits@.take(i as int), from_text) == Ok::<int, WireError>(res@),
        decreases digits@.len() - i,
    {
        assert(digits@.take(i + 1).drop_last() =~= digits@.take(i as int));
        let d = match digit_of(digits[i], from_text) {
            Some(d) => d,
            None => {
                proof {
                    lemma_base94_number_error_persists(digits@, i + 1, from_text);
                }
                return Err(if from_text {
                    WireError::UnsupportedCharacter
                } else {
                    WireError::PayloadOutOfRange
                });
            },
        };
        res = res.mul_small_add(BASE, d as u64);
        i = i + 1;
    }
    assert(digits@.take(digits@.len() as int) =~= digits@);
    Ok(res)
}

/// Each alphabet character comes back from its position, and each position
/// from its character.
pub proof fn lemma_alphabet_round_trip()
    ensures
        forall|i: int| 0 <= i < 94 ==> alphabet_position(#[trigger] alphabet_byte(i)) == Some(i),
        forall|b: u8|
            (#[trigger] alphabet_position(b)) is Some ==> {
                let i = alphabet_position(b)->Some_0;
                0 <= i < 94 && alphabet_byte(i) == b
            },
{
}

/// Decoding the payload of an encodable text gives the text back, one byte
/// per character.
pub proof fn lemma_text_round_trip(text: Seq<char>)
    requires
        is_encodable(text),
    ensures
        decoded_text(encoded_payload(text)) == Ok::<Seq<u8>, WireError>(
            text.map_values(|c: char| c as u8),
        ),
{
    lemma_alphabet_round_trip();
    let p = encoded_payload(text);
    assert forall|i: int| 0 <= i < p.len() implies is_payload_byte(#[trigger] p[i]) by {
        assert(char_position(text[i]) is Some);
    }
    assert forall|i: int| 0 <= i < p.len() implies alphabet_byte(p[i] - 33) == text[i] as u8 by {
        assert(char_position(text[i]) is Some);
    }
    assert(Seq::new(p.len(), |i: int| alphabet_byte(p[i] - 33)) =~= text.map_values(
        |c: char| c as u8,
    ));
}

/// Reading the payload of `n` back gives `n`, for every natural number.
pub proof fn lemma_integer_round_trip(n: nat)
    ensures
        base94_number(integer_payload(n), false) == Ok::<int, WireError>(n as int),
    decreases n,
{
    let p = integer_payload(n);
    if n < 94 {
        assert(p.drop_last() =~= Seq::<u8>::empty());
        assert(p.last() == (n + 33) as u8);
        assert(digit_value(p.last(), false) == Some(n as int));
        assert(base94_number(p.drop_last(), false) == Ok::<int, WireError>(0));
        assert(p.len() == 1);
    } else {
        lemma_integer_round_trip(n / 94);
        assert(p.drop_last() =~= integer_payload(n / 94));
        assert(n % 94 < 94);
        assert(p.last() == (n % 94 + 33) as u8);
        assert(digit_value(p.last(), false) == Some((n % 94) as int));
        assert((n / 94) * 94 + n % 94 == n);
        assert(base94_number(p.drop_last(), false) == Ok::<int, WireError>((n / 94) as int));
        assert(p.len() > 0);
    }
}

} // verus!
