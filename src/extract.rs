//! Turning branch conditions into difference-logic constraints.
use vstd::prelude::*;

use crate::opcodes::{EQ, GT, ISZERO, LT};
use crate::sym_stack::{Constant, Expr, Kind, Term, TermModel, Variable};

verus! {

pub open spec fn is_sym(t: TermModel) -> bool {
    t.sym_val.kind == Kind::Symbolic
}

/// `t` is a symbolic term produced by opcode `op`.
pub open spec fn has_tag(t: TermModel, op: u8) -> bool {
    is_sym(t) && t.sym_val.value == op
}

/// The difference-logic variable that stands for a term.
pub open spec fn var_of(t: TermModel) -> Variable {
    Variable(t.sym_val.value)
}

/// The constraints saying `a < b`; id 0 stands for the origin when one side
/// is concrete. A bound that does not fit in an `i64` gives no constraint.
pub open spec fn lt_constraints(a: TermModel, b: TermModel) -> Seq<Expr> {
    if is_sym(a) && is_sym(b) {
        seq![Expr { a: var_of(a), b: var_of(b), k: Constant(-1i64) }]
    } else if is_sym(a) {
        if b.sym_val.value - 1 <= i64::MAX {
            seq![Expr { a: var_of(a), b: Variable(0), k: Constant((b.sym_val.value - 1) as i64) }]
        } else {
            seq![]
        }
    } else if is_sym(b) {
        if -(a.sym_val.value + 1) >= i64::MIN {
            seq![Expr { a: Variable(0), b: var_of(b), k: Constant((-(a.sym_val.value + 1)) as i64) }]
        } else {
            seq![]
        }
    } else {
        seq![]
    }
}

/// `t` is an `LT` or `GT` with two operands.
pub open spec fn is_comparison(t: TermModel) -> bool {
    (has_tag(t, LT) || has_tag(t, GT)) && t.args.len() == 2
}

/// The constraints of an `LT` or `GT` term; `GT(a, b)` is read as `LT(b, a)`.
pub open spec fn comparison_constraints(t: TermModel) -> Seq<Expr> {
    if has_tag(t, LT) {
        lt_constraints(t.args[0], t.args[1])
    } else {
        lt_constraints(t.args[1], t.args[0])
    }
}

/// `t` is an `EQ` with two operands.
pub open spec fn is_equality(t: TermModel) -> bool {
    has_tag(t, EQ) && t.args.len() == 2
}

/// The constraints saying `a == b`: `a - b <= 0` and `b - a <= 0`, where a
/// concrete side is the origin and its value moves into the bounds. A bound
/// that does not fit in an `i64` gives no constraint.
pub open spec fn eq_constraints(a: TermModel, b: TermModel) -> Seq<Expr> {
    if is_sym(a) && is_sym(b) {
        seq![
            Expr { a: var_of(a), b: var_of(b), k: Constant(0i64) },
            Expr { a: var_of(b), b: var_of(a), k: Constant(0i64) },
        ]
    } else if is_sym(a) {
        if b.sym_val.value <= i64::MAX {
            seq![
                Expr { a: var_of(a), b: Variable(0), k: Constant(b.sym_val.value as i64) },
                Expr { a: Variable(0), b: var_of(a), k: Constant((-b.sym_val.value) as i64) },
            ]
        } else {
            seq![]
        }
    } else if is_sym(b) {
        if a.sym_val.value <= i64::MAX {
            seq![
                Expr { a: Variable(0), b: var_of(b), k: Constant((-a.sym_val.value) as i64) },
                Expr { a: var_of(b), b: Variable(0), k: Constant(a.sym_val.value as i64) },
            ]
        } else {
            seq![]
        }
    } else {
        seq![]
    }
}

/// An `LT` or `GT` between two concrete values, which is decided statically
/// and is never handed to the extractor.
pub open spec fn compares_constants(t: TermModel) -> bool {
    is_comparison(t) && !is_sym(t.args[0]) && !is_sym(t.args[1])
}

/// `t` is a condition that the extractor accepts.
pub open spec fn extractable(t: TermModel) -> bool {
    &&& !compares_constants(t)
    &&& has_tag(t, ISZERO) && t.args.len() == 1 ==> !compares_constants(t.args[0])
}

/// The strict complement of `a - b <= k`: `b - a <= -(k + 1)`.
pub open spec fn negate(e: Expr) -> Expr {
    Expr { a: e.b, b: e.a, k: Constant((-1 - e.k.0) as i64) }
}

/// The difference-logic constraints that a branch condition implies.
pub open spec fn extract(t: TermModel) -> Seq<Expr> {
    if is_comparison(t) {
        comparison_constraints(t)
    } else if is_equality(t) {
        eq_constraints(t.args[0], t.args[1])
    } else if has_tag(t, ISZERO) && t.args.len() == 1 && is_comparison(t.args[0])
        && comparison_constraints(t.args[0]).len() == 1 {
        seq![negate(comparison_constraints(t.args[0])[0])]
    } else {
        seq![]
    }
}

pub fn is_symbolic(term: &Term) -> (r: bool)
    ensures
        r == is_sym(term.model()),
{
    term.sym_val.kind == Kind::Symbolic
}

pub fn is_concrete(term: &Term) -> (r: bool)
    ensures
        r == !is_sym(term.model()),
{
    term.sym_val.kind == Kind::Concrete
}

fn has_opcode(term: &Term, op: u8) -> (r: bool)
    ensures
        r == has_tag(term.model(), op),
{
    term.sym_val.kind == Kind::Symbolic && term.sym_val.value == op as u64
}

fn is_comparison_term(term: &Term) -> (r: bool)
    ensures
        r == is_comparison(term.model()),
{
    proof {
        term.lemma_model();
    }
    term.args.len() == 2 && (has_opcode(term, LT) || has_opcode(term, GT))
}

fn compares_constants_term(term: &Term) -> (r: bool)
    ensures
        r == compares_constants(term.model()),
{
    proof {
        term.lemma_model();
    }
    is_comparison_term(term) && is_concrete(&term.args[0]) && is_concrete(&term.args[1])
}

/// Whether the extractor accepts `term`: it is no `LT` or `GT` of two
/// constants, nor the `ISZERO` of one.
pub fn is_extractable(term: &Term) -> (r: bool)
    ensures
        r == extractable(term.model()),
{
    proof {
        term.lemma_model();
    }
    if compares_constants_term(term) {
        return false;
    }
    if term.args.len() == 1 && has_opcode(term, ISZERO) {
        return !compares_constants_term(&term.args[0]);
    }
    true
}

/// The constraints saying `a < b`.
fn lt_to_expression(a: &Term, b: &Term) -> (r: Vec<Expr>)
    requires
        is_sym(a.model()) || is_sym(b.model()),
    ensures
        r@ == lt_constraints(a.model(), b.model()),
{
    let mut r: Vec<Expr> = Vec::new();
    if is_symbolic(a) && is_symbolic(b) {
        r.push(Expr { a: Variable(a.sym_val.value), b: Variable(b.sym_val.value), k: Constant(-1) });
    } else if is_symbolic(a) {
        let c = b.sym_val.value;
        if c <= 0x8000_0000_0000_0000 {
            let k: i64 = if c == 0 {
                -1
            } else {
                (c - 1) as i64
            };
            r.push(Expr { a: Variable(a.sym_val.value), b: Variable(0), k: Constant(k) });
        }
    } else {
        let c = a.sym_val.value;
        if c <= 0x7fff_ffff_ffff_ffff {
            let k: i64 = -(c as i64) - 1;
            r.push(Expr { a: Variable(0), b: Variable(b.sym_val.value), k: Constant(k) });
        }
    }
    assert(r@ =~= lt_constraints(a.model(), b.model()));
    r
}

/// The constraints saying `a == b`.
fn eq_to_expression(a: &Term, b: &Term) -> (r: Vec<Expr>)
    requires
        is_sym(a.model()) || is_sym(b.model()),
    ensures
        r@ == eq_constraints(a.model(), b.model()),
{
    let mut r: Vec<Expr> = Vec::new();
    if is_symbolic(a) && is_symbolic(b) {
        let x = Variable(a.sym_val.value);
        let y = Variable(b.sym_val.value);
        r.push(Expr { a: x, b: y, k: Constant(0) });
        r.push(Expr { a: y, b: x, k: Constant(0) });
    } else if is_symbolic(a) {
        let c = b.sym_val.value;
        if c <= 0x7fff_ffff_ffff_ffff {
            let k: i64 = c as i64;
            let neg: i64 = -k;
            r.push(Expr { a: Variable(a.sym_val.value), b: Variable(0), k: Constant(k) });
            r.push(Expr { a: Variable(0), b: Variable(a.sym_val.value), k: Constant(neg) });
        }
    } else {
        let c = a.sym_val.value;
        if c <= 0x7fff_ffff_ffff_ffff {
            let k: i64 = c as i64;
            let neg: i64 = -k;
            r.push(Expr { a: Variable(0), b: Variable(b.sym_val.value), k: Constant(neg) });
            r.push(Expr { a: Variable(b.sym_val.value), b: Variable(0), k: Constant(k) });
        }
    }
    assert(r@ =~= eq_constraints(a.model(), b.model()));
    r
}

/// The constraints of an `LT` or `GT` term.
fn comparison_to_expression(term: &Term) -> (r: Vec<Expr>)
    requires
        is_comparison(term.model()),
        !compares_constants(term.model()),
    ensures
        r@ == comparison_constraints(term.model()),
{
    if has_opcode(term, LT) {
        lt_to_expression(&term.args[0], &term.args[1])
    } else {
        lt_to_expression(&term.args[1], &term.args[0])
    }
}

/// Encode a branch condition as difference-logic constraints: `LT`, `GT`,
/// `EQ` and `ISZERO` of `LT` or `GT` give constraints; any other shape gives
/// none.
pub fn term_to_expression(term: Term) -> (r: Vec<Expr>)
    requires
        extractable(term.model()),
    ensures
        r@ == extract(term.model()),
{
    let m = Ghost(term.model());
    if term.args.len() == 2 && (has_opcode(&term, LT) || has_opcode(&term, GT)) {
        return comparison_to_expression(&term);
    }
    if term.args.len() == 2 && has_opcode(&term, EQ) {
        proof {
            term.lemma_model();
        }
        if is_concrete(&term.args[0]) && is_concrete(&term.args[1]) {
            let r: Vec<Expr> = Vec::new();
            assert(r@ =~= extract(m@));
            return r;
        }
        return eq_to_expression(&term.args[0], &term.args[1]);
    }
    if term.args.len() == 1 && has_opcode(&term, ISZERO) {
        let child = &term.args[0];
        if child.args.len() == 2 && (has_opcode(child, LT) || has_opcode(child, GT)) {
            let inner = comparison_to_expression(child);
            if inner.len() == 1 {
                let first = inner[0];
                let k: i64 = -1 - first.k.0;
                let r = vec![Expr { a: first.b, b: first.a, k: Constant(k) }];
                assert(r@ =~= extract(m@));
                return r;
            }
        }
    }
    let r: Vec<Expr> = Vec::new();
    assert(r@ =~= extract(m@));
    r
}

} // verus!
