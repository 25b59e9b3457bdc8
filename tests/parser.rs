use lambda_wire::{encode_string, eval, parse_string, BigInt};

#[test]
fn simple() {
    let input = "S'%4}).$%8";
    let res = parse_string(input).unwrap();
    println!("Res: {:?}", res);
    assert_eq!(res.string(), b"get index".to_vec());
}

#[test]
fn encode_str_test() {
    let input = "get index";
    let res = encode_string(input).unwrap();
    println!("Res: {:?}", res);
    assert_eq!(res, "S'%4}).$%8");
}

#[test]
fn parse_simple_lambda() {
    let input = "B$ B$ L# L$ v# B. SB%,,/ S}Q/2,$_ IK";
    let res = parse_string(input).unwrap();
    println!("Res: {:?}", res);
    let eval_res = eval(&res).unwrap();
    println!("Eval res: {:?}", eval_res);
    assert_eq!(eval_res.string(), b"Hello World!");
}

#[test]
fn parse_smaller() {
    let input = "B$ B$ L# L! v# I& I$";
    let res = parse_string(input).unwrap();
    println!("Res: {:?}", res);
    let eval_res = eval(&res).unwrap();
    println!("Eval res: {:?}", eval_res);
    assert_eq!(*eval_res.integer(), BigInt::from_i64(5));
}

#[test]
fn int_to_string() {
    let input = "U$ I4%34";
    let res = parse_string(input).unwrap();
    println!("Res: {:?}", res);
    let eval_res = eval(&res).unwrap();
    println!("Eval res: {:?}", eval_res);
    assert_eq!(eval_res.string(), b"test");
}

#[test]
fn string_to_int() {
    let input = "U# S4%34";
    let res = parse_string(input).unwrap();
    println!("Res: {:?}", res);
    let eval_res = eval(&res).unwrap();
    println!("Eval res: {:?}", eval_res);
    assert_eq!(*eval_res.integer(), BigInt::from_i64(15818151));
}
