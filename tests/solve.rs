use evm_symex::error::EvmError;
use evm_symex::solve::{solve, DLResult};
use evm_symex::sym_stack::{Constant, Expr, Variable};

fn e(a: u64, b: u64, k: i64) -> Expr {
    Expr { a: Variable(a), b: Variable(b), k: Constant(k) }
}

#[test]
fn two_cycle_of_negative_weight_is_unsat() {
    assert_eq!(solve(&[e(1, 2, -1), e(2, 1, -1)]), Ok(DLResult::Unsat));
}

#[test]
fn single_constraint_is_sat() {
    assert_eq!(solve(&[e(1, 2, 5)]), Ok(DLResult::Sat));
}

#[test]
fn empty_set_is_rejected() {
    assert_eq!(solve(&[]), Err(EvmError::SolverPrecondition));
}

#[test]
fn zero_weight_cycle_is_sat() {
    assert_eq!(solve(&[e(1, 2, 0), e(2, 1, 0)]), Ok(DLResult::Sat));
}

#[test]
fn longer_negative_cycle_is_unsat() {
    let es = [e(1, 2, 3), e(2, 3, -2), e(3, 0, 1), e(0, 1, -3)];
    assert_eq!(solve(&es), Ok(DLResult::Unsat));
    let es = [e(1, 2, 3), e(2, 3, -2), e(3, 0, 1), e(0, 1, -2)];
    assert_eq!(solve(&es), Ok(DLResult::Sat));
}

#[test]
fn each_constraint_keeps_its_own_bound() {
    // a - b <= -10 and b - a <= 8 contradict, whatever a later a - b <= 5 says
    assert_eq!(solve(&[e(1, 2, -10), e(2, 1, 8), e(1, 2, 5)]), Ok(DLResult::Unsat));
}

#[test]
fn self_loop() {
    assert_eq!(solve(&[e(3, 3, -1)]), Ok(DLResult::Unsat));
    assert_eq!(solve(&[e(3, 3, 0)]), Ok(DLResult::Sat));
}

#[test]
fn extreme_bounds() {
    assert_eq!(solve(&[e(1, 2, i64::MIN), e(2, 1, i64::MIN)]), Ok(DLResult::Unsat));
    assert_eq!(solve(&[e(1, 2, i64::MIN), e(2, 1, i64::MAX)]), Ok(DLResult::Unsat));
    assert_eq!(solve(&[e(1, 2, i64::MIN), e(2, 3, i64::MIN), e(3, 1, i64::MAX)]), Ok(DLResult::Unsat));
    assert_eq!(solve(&[e(1, 2, i64::MAX), e(2, 1, -i64::MAX)]), Ok(DLResult::Sat));
}
