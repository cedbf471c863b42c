use rexpr::Op;
use rexpr::compile;

#[test]
fn compile_valid_test() {
    let re = "abc.*[]+";
    let tgt = vec![
        Op::Cmp('a'),
        Op::Cmp('b'),
        Op::Cmp('c'),
        Op::AtLeast(0),
        Op::NoOp,
        Op::Cmp('['),
        Op::AtLeast(1),
        Op::Cmp(']'),
        Op::Final,
    ];
    let res = compile(re).unwrap();
    assert_eq!(tgt, res.ops);
}

#[test]
fn compile_invalid_test() {
    let re = "*abc.[]+";
    assert_eq!(Err("invalid quantifier position"), compile(re));
    let re = "abc.[]++";
    assert_eq!(Err("invalid quantifier position"), compile(re));
    let re = "abc.+[]+?";
    assert_eq!(Err("invalid quantifier position"), compile(re));
}

#[test]
fn compile_empty_pattern() {
    let res = compile("").unwrap();
    assert_eq!(vec![Op::Final], res.ops);
}

#[test]
fn compile_single_atoms() {
    let res = compile("a.").unwrap();
    assert_eq!(vec![Op::Cmp('a'), Op::NoOp, Op::Final], res.ops);
}

#[test]
fn compile_quantifier_kinds() {
    let res = compile("a*b+c?").unwrap();
    assert_eq!(
        vec![
            Op::AtLeast(0),
            Op::Cmp('a'),
            Op::AtLeast(1),
            Op::Cmp('b'),
            Op::AtMost(1),
            Op::Cmp('c'),
            Op::Final,
        ],
        res.ops
    );
}

#[test]
fn compile_leading_quantifier_fails() {
    assert_eq!(Err("invalid quantifier position"), compile("*"));
    assert_eq!(Err("invalid quantifier position"), compile("?x"));
    assert_eq!(Err("invalid quantifier position"), compile("+abc"));
}

#[test]
fn compile_consecutive_quantifiers_fail() {
    assert_eq!(Err("invalid quantifier position"), compile("a**"));
    assert_eq!(Err("invalid quantifier position"), compile("ab++"));
    assert_eq!(Err("invalid quantifier position"), compile("a?+"));
}

#[test]
fn compile_twice_yields_equal_sequences() {
    let first = compile("abc.*[]+").unwrap();
    let second = compile("abc.*[]+").unwrap();
    assert_eq!(first.ops, second.ops);
    assert_eq!(first, second);
}
