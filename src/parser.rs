//! Builds an expression tree from the words of a message.
use vstd::prelude::*;

use std::collections::VecDeque;
use std::rc::Rc;

use crate::codec::{
    char_position, encoded_payload, is_encodable, is_payload_byte, lemma_text_round_trip, base94_number, base94_value, decode_payload, decoded_text, parse_integer, parse_number};
use crate::error::WireError;
use crate::lexer::{is_space, lex_state, queue_words, split_words, words_of};
use crate::token::{BinaryOp, Term, Token, UnaryOp};
use vstd::string::{is_ascii, StringSliceAdditionalSpecFns};

verus! {

/// The unary operator that a code byte selects.
pub open spec fn unary_op_of(code: u8) -> Option<UnaryOp> {
    if code == 45 {
        Some(UnaryOp::NegInteger)  // -
    } else if code == 33 {
        Some(UnaryOp::Not)  // !
    } else if code == 35 {
        Some(UnaryOp::StringToInt)  // #
    } else if code == 36 {
        Some(UnaryOp::IntToString)  // $
    } else {
        None
    }
}

/// The binary operator that a code byte selects; application (`$`) is no
/// operator and is told apart by [`is_application_word`].
pub open spec fn binary_op_of(code: u8) -> Option<BinaryOp> {
    if code == 43 {
        Some(BinaryOp::Add)  // +
    } else if code == 45 {
        Some(BinaryOp::Sub)  // -
    } else if code == 42 {
        Some(BinaryOp::Mul)  // *
    } else if code == 47 {
        Some(BinaryOp::Div)  // /
    } else if code == 37 {
        Some(BinaryOp::Mod)  // %
    } else if code == 60 {
        Some(BinaryOp::Less)  // <
    } else if code == 62 {
        Some(BinaryOp::More)  // >
    } else if code == 61 {
        Some(BinaryOp::Eq)  // =
    } else if code == 124 {
        Some(BinaryOp::Or)  // |
    } else if code == 38 {
        Some(BinaryOp::And)  // &
    } else if code == 46 {
        Some(BinaryOp::Concat)  // .
    } else if code == 84 {
        Some(BinaryOp::Prefix)  // T
    } else if code == 68 {
        Some(BinaryOp::Drop)  // D
    } else {
        None
    }
}

/// The operator of a `U` word: its second byte.
pub open spec fn unary_op_of_word(w: Seq<u8>) -> Option<UnaryOp> {
    if w.len() >= 2 {
        unary_op_of(w[1])
    } else {
        None
    }
}

/// The operator of a `B` word: its second byte.
pub open spec fn binary_op_of_word(w: Seq<u8>) -> Option<BinaryOp> {
    if w.len() >= 2 {
        binary_op_of(w[1])
    } else {
        None
    }
}

/// A `B$` word: function application.
pub open spec fn is_application_word(w: Seq<u8>) -> bool {
    w.len() >= 2 && w[1] == 36
}

/// The node that a valid `B` word builds over its two operands.
pub open spec fn binary_term(w: Seq<u8>, a: Term, b: Term) -> Term {
    if is_application_word(w) {
        Term::Apply(Box::new(a), Box::new(b))
    } else {
        Term::Binary(binary_op_of_word(w)->Some_0, Box::new(a), Box::new(b))
    }
}

/// Parses one expression from the front of `ws`: its tree and the words
/// after it. The indicator (first byte) of the first word selects the node,
/// and the node's operands are parsed from the words that follow, in order;
/// an unknown operator is reported before any operand is read.
/// (Each successful parse consumes at least one word, see
/// [`lemma_parse_consumes`], so the length tests below always pass.)
pub open spec fn parse_words(ws: Seq<Seq<u8>>) -> Result<(Term, Seq<Seq<u8>>), WireError>
    decreases ws.len(),
{
    if ws.len() == 0 {
        Err(WireError::UnexpectedEndOfInput)
    } else {
        let w = ws[0];
        let rest = ws.drop_first();
        let payload = w.drop_first();
        if w.len() == 0 {
            Err(WireError::UnknownIndicator)
        } else if w[0] == 84 {
            // T
            Ok((Term::Bool(true), rest))
        } else if w[0] == 70 {
            // F
            Ok((Term::Bool(false), rest))
        } else if w[0] == 73 {
            // I
            match base94_number(payload, false) {
                Ok(n) => Ok((Term::Int(n), rest)),
                Err(e) => Err(e),
            }
        } else if w[0] == 83 {
            // S
            match decoded_text(payload) {
                Ok(t) => Ok((Term::Str(t), rest)),
                Err(e) => Err(e),
            }
        } else if w[0] == 85 {
            // U
            match unary_op_of_word(w) {
                None => Err(WireError::UnknownOperator),
                Some(op) => match parse_words(rest) {
                    Err(e) => Err(e),
                    Ok((a, r1)) => Ok((Term::Unary(op, Box::new(a)), r1)),
                },
            }
        } else if w[0] == 66 {
            // B
            if !is_application_word(w) && binary_op_of_word(w) is None {
                Err(WireError::UnknownOperator)
            } else {
                match parse_words(rest) {
                    Err(e) => Err(e),
                    Ok((a, r1)) => if r1.len() < ws.len() {
                        match parse_words(r1) {
                            Err(e) => Err(e),
                            Ok((b, r2)) => Ok((binary_term(w, a, b), r2)),
                        }
                    } else {
                        Err(WireError::UnexpectedEndOfInput)
                    },
                }
            }
        } else if w[0] == 63 {
            // ?
            match parse_words(rest) {
                Err(e) => Err(e),
                Ok((c, r1)) => if r1.len() < ws.len() {
                    match parse_words(r1) {
                        Err(e) => Err(e),
                        Ok((a, r2)) => if r2.len() < ws.len() {
                            match parse_words(r2) {
                                Err(e) => Err(e),
                                Ok((b, r3)) => Ok(
                                    (Term::If(Box::new(c), Box::new(a), Box::new(b)), r3),
                                ),
                            }
                        } else {
                            Err(WireError::UnexpectedEndOfInput)
                        },
                    }
                } else {
                    Err(WireError::UnexpectedEndOfInput)
                },
            }
        } else if w[0] == 76 {
            // L
            match base94_value(payload, false, usize::MAX as int) {
                Err(e) => Err(e),
                Ok(id) => match parse_words(rest) {
                    Err(e) => Err(e),
                    Ok((body, r1)) => Ok((Term::Lambda(id as usize, Box::new(body)), r1)),
                },
            }
        } else if w[0] == 118 {
            // v
            match base94_value(payload, false, usize::MAX as int) {
                Err(e) => Err(e),
                Ok(id) => Ok((Term::Var(id as usize), rest)),
            }
        } else {
            Err(WireError::UnknownIndicator)
        }
    }
}

/// A whole message: one expression that uses every word.
pub open spec fn parse_message(ws: Seq<Seq<u8>>) -> Result<Term, WireError> {
    match parse_words(ws) {
        Err(e) => Err(e),
        Ok((t, rest)) => if rest.len() == 0 {
            Ok(t)
        } else {
            Err(WireError::TrailingTokens)
        },
    }
}

/// A successful parse consumes at least one word and leaves the words after
/// those it used.
pub proof fn lemma_parse_consumes(ws: Seq<Seq<u8>>)
    ensures
        parse_words(ws) matches Ok((t, rest)) ==> rest.len() < ws.len() && rest == ws.skip(
            ws.len() - rest.len(),
        ),
    decreases ws.len(),
{
    if ws.len() > 0 {
        let rest = ws.drop_first();
        assert(rest =~= ws.skip(1));
        lemma_parse_consumes(rest);
        if let Ok((_, r1)) = parse_words(rest) {
            assert(r1 =~= ws.skip(ws.len() - r1.len()));
            lemma_parse_consumes(r1);
            if let Ok((_, r2)) = parse_words(r1) {
                assert(r2 =~= ws.skip(ws.len() - r2.len()));
                lemma_parse_consumes(r2);
                if let Ok((_, r3)) = parse_words(r2) {
                    assert(r3 =~= ws.skip(ws.len() - r3.len()));
                }
            }
        }
    }
}

fn unary_op_code(code: u8) -> (r: Option<UnaryOp>)
    ensures
        r == unary_op_of(code),
{
    if code == 45u8 {  // -
        Some(UnaryOp::NegInteger)
    } else if code == 33u8 {  // !
        Some(UnaryOp::Not)
    } else if code == 35u8 {  // #
        Some(UnaryOp::StringToInt)
    } else if code == 36u8 {  // $
        Some(UnaryOp::IntToString)
    } else {
        None
    }
}

fn binary_op_code(code: u8) -> (r: Option<BinaryOp>)
    ensures
        r == binary_op_of(code),
{
    if code == 43u8 {  // +
        Some(BinaryOp::Add)
    } else if code == 45u8 {  // -
        Some(BinaryOp::Sub)
    } else if code == 42u8 {  // *
        Some(BinaryOp::Mul)
    } else if code == 47u8 {  // /
        Some(BinaryOp::Div)
    } else if code == 37u8 {  // %
        Some(BinaryOp::Mod)
    } else if code == 60u8 {  // <
        Some(BinaryOp::Less)
    } else if code == 62u8 {  // >
        Some(BinaryOp::More)
    } else if code == 61u8 {  // =
        Some(BinaryOp::Eq)
    } else if code == 124u8 {  // |
        Some(BinaryOp::Or)
    } else if code == 38u8 {  // &
        Some(BinaryOp::And)
    } else if code == 46u8 {  // .
        Some(BinaryOp::Concat)
    } else if code == 84u8 {  // T
        Some(BinaryOp::Prefix)
    } else if code == 68u8 {  // D
        Some(BinaryOp::Drop)
    } else {
        None
    }
}

/// Takes words from the front of `tokens` and builds one expression from
/// them, pulling as many further words as its indicator asks for.
#[verifier::rlimit(80)]
pub fn parse(tokens: &mut VecDeque<Vec<u8>>) -> (r: Result<Token, WireError>)
    ensures
        match parse_words(queue_words(*old(tokens))) {
            Ok((t, rest)) => {
                &&& r is Ok
                &&& r->Ok_0@ == t
                &&& queue_words(*final(tokens)) == rest
                &&& final(tokens)@.len() < old(tokens)@.len()
            },
            Err(e) => r == Err::<Token, WireError>(e),
        },
    decreases old(tokens)@.len(),
{
    let ghost ws = queue_words(*tokens);
    let w = match tokens.pop_front() {
        Some(w) => w,
        None => {
            return Err(WireError::UnexpectedEndOfInput);
        },
    };
    assert(queue_words(*tokens) =~= ws.drop_first());
    assert(w@ == ws[0]);
    if w.len() == 0 {
        return Err(WireError::UnknownIndicator);
    }
    let (_, payload) = w.as_slice().split_at(1);
    assert(payload@ =~= ws[0].drop_first());
    let indicator = w[0];
    if indicator == 84u8 {  // T
        Ok(Token::Bool(true))
    } else if indicator == 70u8 {  // F
        Ok(Token::Bool(false))
    } else if indicator == 73u8 {  // I
        match parse_number(payload, false) {
            Ok(n) => Ok(Token::Int(n)),
            Err(e) => Err(e),
        }
    } else if indicator == 83u8 {  // S
        match decode_payload(payload) {
            Ok(t) => Ok(Token::String(t)),
            Err(e) => Err(e),
        }
    } else if indicator == 85u8 {  // U
        let op = if w.len() >= 2 {
            unary_op_code(w[1])
        } else {
            None
        };
        let op = match op {
            Some(op) => op,
            None => {
                return Err(WireError::UnknownOperator);
            },
        };
        match parse(tokens) {
            Ok(a) => Ok(Token::UnaryOp(op, Rc::new(a))),
            Err(e) => Err(e),
        }
    } else if indicator == 66u8 {  // B
        let application = w.len() >= 2 && w[1] == 36u8;
        let op = if w.len() >= 2 {
            binary_op_code(w[1])
        } else {
            None
        };
        if !application && op.is_none() {
            return Err(WireError::UnknownOperator);
        }
        let a = match parse(tokens) {
            Ok(a) => a,
            Err(e) => {
                return Err(e);
            },
        };
        let b = match parse(tokens) {
            Ok(b) => b,
            Err(e) => {
                return Err(e);
            },
        };
        match op {
            Some(op) if !application => Ok(Token::BinaryOp(op, Rc::new(a), Rc::new(b))),
            _ => Ok(Token::Application(Rc::new(a), Rc::new(b))),
        }
    } else if indicator == 63u8 {  // ?
        let c = match parse(tokens) {
            Ok(c) => c,
            Err(e) => {
                return Err(e);
            },
        };
        let a = match parse(tokens) {
            Ok(a) => a,
            Err(e) => {
                return Err(e);
            },
        };
        let b = match parse(tokens) {
            Ok(b) => b,
            Err(e) => {
                return Err(e);
            },
        };
        Ok(Token::If(Rc::new(c), Rc::new(a), Rc::new(b)))
    } else if indicator == 76u8 {  // L
        let id = match parse_integer(payload, false, usize::MAX as u64) {
            Ok(id) => id as usize,
            Err(e) => {
                return Err(e);
            },
        };
        match parse(tokens) {
            Ok(body) => Ok(Token::Abstraction(id, Rc::new(body))),
            Err(e) => Err(e),
        }
    } else if indicator == 118u8 {  // v
        match parse_integer(payload, false, usize::MAX as u64) {
            Ok(id) => Ok(Token::Id(id as usize)),
            Err(e) => Err(e),
        }
    } else {
        Err(WireError::UnknownIndicator)
    }
}

/// Splits `input` into words and parses them as one expression; words left
/// over after it are an error.
pub fn parse_string(input: &str) -> (r: Result<Token, WireError>)
    ensures
        match parse_message(words_of(input.spec_bytes())) {
            Ok(t) => r is Ok && r->Ok_0@ == t,
            Err(e) => r == Err::<Token, WireError>(e),
        },
{
    let mut words = split_words(input.as_bytes());
    match parse(&mut words) {
        Ok(t) => if words.len() == 0 {
            Ok(t)
        } else {
            Err(WireError::TrailingTokens)
        },
        Err(e) => Err(e),
    }
}


/// Text with no whitespace byte is a single word, when it is not empty.
proof fn lemma_single_word(text: Seq<u8>)
    requires
        forall|i: int| 0 <= i < text.len() ==> !is_space(#[trigger] text[i]),
    ensures
        lex_state(text) == (Seq::<Seq<u8>>::empty(), text),
    decreases text.len(),
{
    if text.len() > 0 {
        lemma_single_word(text.drop_last());
        assert(text.drop_last().push(text.last()) =~= text);
    }
}

/// Parsing the word that encodes an encodable text gives that text back as a
/// string literal: `parse_string(encode_string(s))` is the string of `s`'s
/// bytes.
pub proof fn lemma_encoded_text_parses(text: Seq<char>, word: &str)
    requires
        is_encodable(text),
        word@ == seq!['S'] + encoded_payload(text).map_values(|b: u8| b as char),
    ensures
        parse_message(words_of(word.spec_bytes())) == Ok::<Term, WireError>(
            Term::Str(text.map_values(|c: char| c as u8)),
        ),
{
    let payload = encoded_payload(text);
    let bytes = seq![83u8] + payload;
    assert forall|i: int| 0 <= i < payload.len() implies is_payload_byte(#[trigger] payload[i]) by {
        assert(char_position(text[i]) is Some);
    }
    assert forall|i: int| 0 <= i < word@.len() implies '\0' <= #[trigger] word@[i] <= '\u{7f}' by {
        if i > 0 {
            assert(is_payload_byte(payload[i - 1]));
        }
    }
    assert(is_ascii(word));
    assert(word.spec_bytes() =~= Seq::new(word@.len(), |i: int| word@[i] as u8));
    assert forall|i: int| 0 <= i < bytes.len() implies word.spec_bytes()[i] == bytes[i] by {
        if i > 0 {
            assert(is_payload_byte(payload[i - 1]));
        }
    }
    assert(word.spec_bytes() =~= bytes);
    assert forall|i: int| 0 <= i < bytes.len() implies !is_space(#[trigger] bytes[i]) by {
        if i > 0 {
            assert(is_payload_byte(payload[i - 1]));
        }
    }
    lemma_single_word(bytes);
    assert(words_of(bytes) =~= seq![bytes]);
    assert(seq![bytes].drop_first() =~= Seq::<Seq<u8>>::empty());
    assert(bytes.drop_first() =~= payload);
    lemma_text_round_trip(text);
}

} // verus!
