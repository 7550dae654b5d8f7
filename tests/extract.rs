use evm_symex::extract::{is_concrete, is_extractable, is_symbolic, term_to_expression};
use evm_symex::sym_stack::{Constant, Expr, Kind, SymVal, Term, Variable};

fn lit(v: u64) -> Term {
    Term { sym_val: SymVal { value: v, kind: Kind::Concrete }, args: vec![] }
}

fn sym(op: u64, args: Vec<Term>) -> Term {
    Term { sym_val: SymVal { value: op, kind: Kind::Symbolic }, args }
}

fn e(a: u64, b: u64, k: i64) -> Expr {
    Expr { a: Variable(a), b: Variable(b), k: Constant(k) }
}

const LT: u64 = 0x10;
const GT: u64 = 0x11;
const EQ: u64 = 0x14;
const ISZERO: u64 = 0x15;
const X: u64 = 0x35;
const Y: u64 = 0x34;

#[test]
fn lt_concrete_then_symbolic() {
    let t = sym(LT, vec![lit(5), sym(X, vec![])]);
    assert_eq!(term_to_expression(t), vec![e(0, X, -6)]);
}

#[test]
fn eq_of_two_symbols() {
    let t = sym(EQ, vec![sym(X, vec![]), sym(Y, vec![])]);
    assert_eq!(term_to_expression(t), vec![e(X, Y, 0), e(Y, X, 0)]);
}

#[test]
fn lt_of_two_symbols() {
    let t = sym(LT, vec![sym(X, vec![]), sym(Y, vec![])]);
    assert_eq!(term_to_expression(t), vec![e(X, Y, -1)]);
}

#[test]
fn lt_symbolic_then_concrete() {
    let t = sym(LT, vec![sym(X, vec![]), lit(10)]);
    assert_eq!(term_to_expression(t), vec![e(X, 0, 9)]);
    let t = sym(LT, vec![sym(X, vec![]), lit(0)]);
    assert_eq!(term_to_expression(t), vec![e(X, 0, -1)]);
}

#[test]
fn gt_reads_as_swapped_lt() {
    let t = sym(GT, vec![sym(X, vec![]), lit(5)]);
    assert_eq!(term_to_expression(t), vec![e(0, X, -6)]);
}

#[test]
fn iszero_negates_a_comparison() {
    let t = sym(ISZERO, vec![sym(LT, vec![sym(X, vec![]), sym(Y, vec![])])]);
    assert_eq!(term_to_expression(t), vec![e(Y, X, 0)]);
    let t = sym(ISZERO, vec![sym(LT, vec![sym(X, vec![]), lit(10)])]);
    assert_eq!(term_to_expression(t), vec![e(0, X, -10)]);
}

#[test]
fn other_shapes_give_nothing() {
    let t = sym(ISZERO, vec![sym(EQ, vec![sym(X, vec![]), sym(Y, vec![])])]);
    assert_eq!(term_to_expression(t), vec![]);
    let t = sym(0x16, vec![sym(X, vec![]), sym(Y, vec![])]);
    assert_eq!(term_to_expression(t), vec![]);
    assert_eq!(term_to_expression(lit(LT)), vec![]);
}

#[test]
fn bounds_out_of_range_give_nothing() {
    let t = sym(LT, vec![sym(X, vec![]), lit(u64::MAX)]);
    assert_eq!(term_to_expression(t), vec![]);
    let t = sym(LT, vec![lit(1u64 << 63), sym(X, vec![])]);
    assert_eq!(term_to_expression(t), vec![]);
    let t = sym(LT, vec![lit((1u64 << 63) - 1), sym(X, vec![])]);
    assert_eq!(term_to_expression(t), vec![e(0, X, i64::MIN)]);
}

#[test]
fn constant_comparisons_are_not_extractable() {
    assert!(!is_extractable(&sym(LT, vec![lit(1), lit(2)])));
    assert!(!is_extractable(&sym(ISZERO, vec![sym(GT, vec![lit(1), lit(2)])])));
    assert!(is_extractable(&sym(LT, vec![lit(1), sym(X, vec![])])));
    assert!(is_extractable(&lit(3)));
}

#[test]
fn kinds() {
    assert!(is_symbolic(&sym(X, vec![])));
    assert!(!is_concrete(&sym(X, vec![])));
    assert!(is_concrete(&lit(1)));
}

#[test]
fn eq_with_a_constant_uses_the_origin() {
    let t = sym(EQ, vec![sym(X, vec![]), lit(7)]);
    assert_eq!(term_to_expression(t), vec![e(X, 0, 7), e(0, X, -7)]);
    let t = sym(EQ, vec![lit(0xa9059cbb), sym(X, vec![])]);
    assert_eq!(term_to_expression(t), vec![e(0, X, -0xa9059cbb), e(X, 0, 0xa9059cbb)]);
    let t = sym(EQ, vec![sym(X, vec![]), lit(u64::MAX)]);
    assert_eq!(term_to_expression(t), vec![]);
    assert!(is_extractable(&sym(EQ, vec![lit(1), lit(1)])));
    assert_eq!(term_to_expression(sym(EQ, vec![lit(1), lit(1)])), vec![]);
    assert_eq!(term_to_expression(sym(ISZERO, vec![sym(EQ, vec![lit(1), lit(2)])])), vec![]);
}
