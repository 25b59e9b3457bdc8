use lambda_wire::{eval, eval_with_depth, parse_string, BigInt, Token, WireError};

fn run(input: &str) -> Result<Token, WireError> {
    eval(&parse_string(input)?)
}

fn int_of(input: &str) -> i64 {
    run(input).unwrap().integer().to_i64().unwrap()
}

fn big_of(input: &str) -> BigInt {
    run(input).unwrap().integer().copy()
}

fn bool_of(input: &str) -> bool {
    run(input).unwrap().bool()
}

fn text_of(input: &str) -> Vec<u8> {
    run(input).unwrap().string()
}

#[test]
fn literals_evaluate_to_themselves() {
    assert!(bool_of("T"));
    assert!(!bool_of("F"));
    assert_eq!(int_of("I/6"), 1337);
    assert_eq!(text_of("SB%,,/}Q/2,$_"), b"Hello World!".to_vec());
    assert_eq!(text_of("S"), Vec::<u8>::new());
}

#[test]
fn conditional_takes_then_branch() {
    assert_eq!(int_of("? T I$ U- I$"), 3);
    assert_eq!(int_of("? F I$ U- I$"), -3);
}

#[test]
fn untaken_branch_is_never_evaluated() {
    assert_eq!(int_of("? T I$ B/ I$ I!"), 3);
    assert_eq!(int_of("? F B/ I$ I! I$"), 3);
    assert_eq!(int_of("? B= I! I! I# BT I% S!"), 2);
}

#[test]
fn conditional_needs_a_boolean() {
    assert_eq!(run("? I! I\" I#").err(), Some(WireError::TypeMismatch));
}

#[test]
fn shadowing_binder_keeps_inner_variable() {
    assert_eq!(int_of("B$ B$ L! L! v! I\" I#"), 2);
    assert_eq!(int_of("B$ B$ L! L\" v! I\" I#"), 1);
}

#[test]
fn call_by_name_ignores_unused_failing_argument() {
    assert_eq!(int_of("B$ L! I& B/ I\" I!"), 5);
}

#[test]
fn applying_an_evaluated_function() {
    assert_eq!(int_of("B$ ? T L! B+ v! I\" L! v! I%"), 5);
}

#[test]
fn abstraction_is_a_value() {
    let t = run("L! v!").unwrap();
    let (var, body) = t.create_var();
    assert_eq!(var, 0);
    assert!(matches!(*body, Token::Id(0)));
}

#[test]
fn arithmetic_examples() {
    assert_eq!(int_of("B+ I# I$"), 5);
    assert_eq!(int_of("B- I$ I#"), 1);
    assert_eq!(int_of("B* I$ I#"), 6);
    assert_eq!(int_of("B/ U- I( I#"), -3);
    assert_eq!(int_of("B% U- I( I#"), -1);
    assert_eq!(int_of("B/ I( U- I#"), -3);
    assert_eq!(int_of("B% I( U- I#"), 1);
    assert_eq!(int_of("U- I$"), -3);
}

#[test]
fn comparison_and_logic_examples() {
    assert!(bool_of("B< I$ I%"));
    assert!(!bool_of("B> I$ I%"));
    assert!(bool_of("B= I$ I$"));
    assert!(bool_of("B= S4%34 S4%34"));
    assert!(!bool_of("B= T F"));
    assert!(bool_of("B| T F"));
    assert!(!bool_of("B& T F"));
    assert!(!bool_of("U! T"));
}

#[test]
fn string_operation_examples() {
    assert_eq!(text_of("B. S4% S34"), b"test".to_vec());
    assert_eq!(text_of("BT I$ S4%34"), b"tes".to_vec());
    assert_eq!(text_of("BD I$ S4%34"), b"t".to_vec());
    assert_eq!(text_of("BT I% S4%34"), b"test".to_vec());
    assert_eq!(text_of("BD I% S4%34"), Vec::<u8>::new());
    assert_eq!(text_of("U$ I!"), Vec::<u8>::new());
    assert_eq!(int_of("U# S"), 0);
}

#[test]
fn equality_across_kinds_is_a_type_mismatch() {
    assert_eq!(run("B= I! T").err(), Some(WireError::TypeMismatch));
    assert_eq!(run("B= S! I!").err(), Some(WireError::TypeMismatch));
}

#[test]
fn operand_of_wrong_kind() {
    assert_eq!(run("B+ T I!").err(), Some(WireError::TypeMismatch));
    assert_eq!(run("U! I!").err(), Some(WireError::TypeMismatch));
    assert_eq!(run("B$ I! I!").err(), Some(WireError::TypeMismatch));
}

#[test]
fn take_and_drop_out_of_range() {
    assert_eq!(run("BT I& S4%34").err(), Some(WireError::IndexOutOfRange));
    assert_eq!(run("BD U- I\" S4%34").err(), Some(WireError::IndexOutOfRange));
}

#[test]
fn free_variable_in_operand_is_unbound() {
    assert_eq!(run("U- v!").err(), Some(WireError::UnboundVariable));
    assert_eq!(run("B= v! I!").err(), Some(WireError::UnboundVariable));
    assert!(matches!(run("v!"), Ok(Token::Id(0))));
}

#[test]
fn division_by_zero() {
    assert_eq!(run("B/ I# I!").err(), Some(WireError::DivisionByZero));
    assert_eq!(run("B% I# I!").err(), Some(WireError::DivisionByZero));
}

#[test]
fn integers_have_no_size_limit() {
    let big = BigInt::from_u64(2).mul(&BigInt::from_u64(94).mul(&BigInt::from_u64(94)));
    assert_eq!(big_of("I#!!"), big);
    let n = big_of("I#!!!!!!!!!!");
    assert_eq!(n.to_i64(), None);
    assert_eq!(big_of("B- I#!!!!!!!!!! I#!!!!!!!!!!"), BigInt::zero());
    assert_eq!(big_of("B/ B* I#!!!!!!!!!! I#!!!!!!!!!! I#!!!!!!!!!!"), n);
    assert_eq!(int_of("B% B+ B* I#!!!!!!!!!! I#!!!!!!!!!! I( I#!!!!!!!!!!"), 7);
    let word = lambda_wire::encode_integer(&BigInt::from_i64(i64::MAX));
    assert_eq!(int_of(&word), i64::MAX);
    let above = big_of(&format!("B+ {} I\"", word));
    assert_eq!(above.to_i64(), None);
    assert_eq!(above, BigInt::from_i64(i64::MAX).add(&BigInt::from_u64(1)));
    assert_eq!(big_of(&format!("B/ B- U- {} I\" U- I\"", word)), above);
    assert_eq!(int_of(&format!("B% B- U- {} I\" U- I\"", word)), 0);
    let long_text = "S4%34aaaaaaaaaaaaaaaaaaaaaaa";
    assert_eq!(text_of(&format!("U$ U# {}", long_text)), text_of(long_text));
    assert!(bool_of("B< I#!!!!!!!!!! I$!!!!!!!!!!"));
    assert!(bool_of("B= I#!!!!!!!!!! B* I# I\"!!!!!!!!!!"));
}

#[test]
fn variable_id_too_large() {
    let id = "~".repeat(11);
    assert_eq!(parse_string(&format!("v{}", id)).err(), Some(WireError::IntegerOverflow));
}

#[test]
fn unsupported_character_in_string_to_int() {
    let t = Token::UnaryOp(
        lambda_wire::UnaryOp::StringToInt,
        std::rc::Rc::new(Token::String(b"a{".to_vec())),
    );
    assert_eq!(eval(&t).err(), Some(WireError::UnsupportedCharacter));
}

#[test]
fn endless_self_application_exceeds_depth() {
    assert_eq!(run("B$ L! B$ v! v! L! B$ v! v!").err(), Some(WireError::EvaluationDepthExceeded));
}

#[test]
fn depth_limit_is_respected() {
    let t = parse_string("B+ I! B+ I! I!").unwrap();
    assert_eq!(eval_with_depth(&t, 2).err(), Some(WireError::EvaluationDepthExceeded));
    assert_eq!(*eval_with_depth(&t, 3).unwrap().integer(), BigInt::zero());
    assert_eq!(eval_with_depth(&t, 0).err(), Some(WireError::EvaluationDepthExceeded));
}
