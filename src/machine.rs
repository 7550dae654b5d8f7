//! The mathematical model of a run: its state and what one step does.
use vstd::prelude::*;
use vstd::set_lib::{lemma_int_range, lemma_len_subset, set_int_range};

use crate::error::EvmError;
use crate::extract::{extract, extractable, is_sym, negate};
use crate::handlers::{descriptor, HandlerType};
use crate::solve::satisfiable;
use crate::sym_stack::{dup_seq, swap_seq, Expr, Kind, SymVal, TermModel, STACK_CAPACITY};

verus! {

/// The mathematical state of one run.
#[verifier::ext_equal]
pub struct RunState {
    pub code: Seq<u8>,
    pub stack: Seq<TermModel>,
    pub pc: int,
    pub path: Seq<usize>,
    pub constraints: Seq<Expr>,
    pub counter: u64,
}

/// What one step of a run leads to.
pub enum StepOutcome {
    /// The run goes on from this state.
    Continue(RunState),
    /// The run has ended normally in this state.
    Halt(RunState),
    /// The run is abandoned.
    Fail(EvmError),
}

/// The invariant of a run: the stack within capacity, and the path made of
/// distinct program counters inside the code.
pub open spec fn state_wf(s: RunState) -> bool {
    &&& s.stack.len() <= STACK_CAPACITY
    &&& s.path.no_duplicates()
    &&& forall|i: int| 0 <= i < s.path.len() ==> #[trigger] s.path[i] < s.code.len()
    &&& 0 <= s.pc
}

pub open spec fn concrete(value: u64) -> TermModel {
    TermModel { sym_val: SymVal { value, kind: Kind::Concrete }, args: seq![] }
}

pub open spec fn symbolic(op: u8, args: Seq<TermModel>) -> TermModel {
    TermModel { sym_val: SymVal { value: op as u64, kind: Kind::Symbolic }, args }
}

/// The unsigned number whose big-endian bytes are `bs`.
pub open spec fn big_endian(bs: Seq<u8>) -> nat
    decreases bs.len(),
{
    if bs.len() == 0 {
        0
    } else {
        (big_endian(bs.drop_last()) * 256 + bs.last()) as nat
    }
}

/// The `n` bytes of `code` from `start` on; bytes past the end read as zero.
pub open spec fn immediate(code: Seq<u8>, start: int, n: int) -> Seq<u8> {
    Seq::new(
        n as nat,
        |i: int|
            if 0 <= start + i < code.len() {
                code[start + i]
            } else {
                0u8
            },
    )
}

/// The value a PUSH of `n` immediate bytes at `pc` places on the stack.
pub open spec fn push_value(code: Seq<u8>, pc: int, n: int) -> u64 {
    (big_endian(immediate(code, pc + 1, n)) % 0x1_0000_0000_0000_0000) as u64
}

/// `pc + k`; a pc no `usize` can hold stays at `usize::MAX`, past any code.
pub open spec fn advance(pc: int, k: int) -> int {
    if pc + k <= usize::MAX {
        pc + k
    } else {
        usize::MAX as int
    }
}

/// The operands of an instruction: the top `n` items, nearest the top first.
pub open spec fn operands(stack: Seq<TermModel>, n: int) -> Seq<TermModel> {
    Seq::new(n as nat, |i: int| stack[stack.len() - 1 - i])
}

/// `n` fresh symbolic results of `op` over `args`.
pub open spec fn results(op: u8, args: Seq<TermModel>, n: int) -> Seq<TermModel> {
    Seq::new(n as nat, |i: int| symbolic(op, args))
}

/// Every variable id leaves room for the solver's node count.
pub open spec fn queryable(es: Seq<Expr>) -> bool {
    forall|i: int|
        0 <= i < es.len() ==> (#[trigger] es[i]).a.0 < usize::MAX && es[i].b.0 < usize::MAX
}

/// The solver cannot rule the constraints out.
pub open spec fn feasible(es: Seq<Expr>) -> bool {
    !queryable(es) || satisfiable(es)
}

/// The constraints of a branch condition; a comparison of two constants is
/// decided statically and gives none.
pub open spec fn condition_constraints(cond: TermModel) -> Seq<Expr> {
    if extractable(cond) {
        extract(cond)
    } else {
        seq![]
    }
}

/// The branch whose condition implies `new` may be taken.
pub open spec fn taken_feasible(c: Seq<Expr>, new: Seq<Expr>) -> bool {
    feasible(c + new)
}

/// The branch where the condition fails may be taken: the condition is a
/// conjunction, so it fails where one of its constraints fails.
pub open spec fn not_taken_feasible(c: Seq<Expr>, new: Seq<Expr>) -> bool {
    exists|i: int| 0 <= i < new.len() && #[trigger] feasible(c.push(negate(new[i])))
}

/// Where a jump to `target` leads: the target itself; a target no `usize`
/// can hold leads to `usize::MAX`, past any code.
pub open spec fn jump_dest(target: u64) -> int {
    if target <= usize::MAX {
        target as int
    } else {
        usize::MAX as int
    }
}

/// The conditional jump, once its operands are popped. With no constraints
/// both arms stay open and the constraints are kept. Otherwise an arm the
/// solver rules out is pruned: the run follows the fall-through arm when it
/// is open, adding the failed condition when it is a single constraint, else
/// the jump when it is open, adding the condition. When both arms are
/// pruned, the constraints already contradict each other; the run falls
/// through and keeps them.
pub open spec fn jumpi_next(s: RunState, cond: TermModel, target: u64) -> RunState {
    let new = condition_constraints(cond);
    let c = s.constraints;
    let next = advance(s.pc, 1);
    if new.len() == 0 {
        RunState { pc: next, ..s }
    } else if not_taken_feasible(c, new) {
        RunState {
            pc: next,
            constraints: if new.len() == 1 {
                c.push(negate(new[0]))
            } else {
                c
            },
            ..s
        }
    } else if taken_feasible(c, new) {
        RunState { pc: jump_dest(target), constraints: c + new, ..s }
    } else {
        RunState { pc: next, ..s }
    }
}

/// One step of a run whose pc lies inside the code.
pub open spec fn step_spec(s: RunState) -> StepOutcome {
    let op = s.code[s.pc];
    let d = descriptor(op);
    let stack = s.stack;
    let s1 = RunState { path: s.path.push(s.pc as usize), ..s };
    if s.path.contains(s.pc as usize) {
        StepOutcome::Halt(s)
    } else if d.handler_type == HandlerType::Push {
        if stack.len() >= STACK_CAPACITY {
            StepOutcome::Fail(EvmError::StackOverflow)
        } else {
            StepOutcome::Continue(
                RunState {
                    stack: stack.push(concrete(push_value(s.code, s.pc, d.bytecode_reads as int))),
                    pc: advance(s.pc, d.bytecode_reads + 1),
                    ..s1
                },
            )
        }
    } else if d.handler_type == HandlerType::Dup {
        let n = d.in_args as int;
        if stack.len() >= STACK_CAPACITY {
            StepOutcome::Fail(EvmError::StackOverflow)
        } else if stack.len() < n {
            StepOutcome::Fail(EvmError::StackUnderflow)
        } else {
            StepOutcome::Continue(
                RunState { stack: dup_seq(stack, n), pc: advance(s.pc, 1), ..s1 },
            )
        }
    } else if d.handler_type == HandlerType::Swap {
        let n = d.in_args - 1;
        if stack.len() <= n {
            StepOutcome::Fail(EvmError::StackUnderflow)
        } else {
            StepOutcome::Continue(
                RunState { stack: swap_seq(stack, n), pc: advance(s.pc, 1), ..s1 },
            )
        }
    } else {
        let n_in = d.in_args as int;
        let n_out = d.out_args as int;
        let is_jump = d.handler_type == HandlerType::Jump || d.handler_type == HandlerType::JumpI;
        if stack.len() < n_in {
            StepOutcome::Fail(EvmError::StackUnderflow)
        } else if is_jump && is_sym(stack.last()) {
            StepOutcome::Fail(EvmError::UnsupportedSymbolicJump)
        } else if stack.len() - n_in + n_out > STACK_CAPACITY {
            StepOutcome::Fail(EvmError::StackOverflow)
        } else {
            let args = operands(stack, n_in);
            let s2 = RunState {
                stack: stack.subrange(0, stack.len() - n_in) + results(op, args, n_out),
                ..s1
            };
            if d.handler_type == HandlerType::Terminating {
                StepOutcome::Halt(s2)
            } else if d.handler_type == HandlerType::Jump {
                StepOutcome::Continue(
                    RunState { pc: jump_dest(stack.last().sym_val.value), ..s2 },
                )
            } else if d.handler_type == HandlerType::JumpI {
                StepOutcome::Continue(jumpi_next(s2, args[1], stack.last().sym_val.value))
            } else if d.handler_type == HandlerType::Base {
                StepOutcome::Continue(s2)
            } else {
                StepOutcome::Continue(RunState { pc: advance(s.pc, 1), ..s2 })
            }
        }
    }
}

/// The result of running from `s` for at most `fuel` steps; a run that
/// leaves the code ends normally.
pub open spec fn run_from(s: RunState, fuel: nat) -> Result<u64, EvmError>
    decreases fuel,
{
    if fuel == 0 || s.pc >= s.code.len() {
        Ok(s.counter)
    } else {
        match step_spec(s) {
            StepOutcome::Continue(next) => run_from(next, (fuel - 1) as nat),
            StepOutcome::Halt(last) => Ok(last.counter),
            StepOutcome::Fail(e) => Err(e),
        }
    }
}

/// The state a run starts in.
pub open spec fn initial(code: Seq<u8>) -> RunState {
    RunState {
        code,
        stack: seq![],
        pc: 0,
        path: seq![],
        constraints: seq![],
        counter: 1,
    }
}

/// The number of steps a run from `s` can still take: each one visits a
/// new pc inside the code.
pub open spec fn fuel(s: RunState) -> nat {
    (s.code.len() + 1 - s.path.len()) as nat
}

/// A path of distinct program counters inside the code is no longer than
/// the code.
pub proof fn lemma_path_len(path: Seq<usize>, len: int)
    requires
        path.no_duplicates(),
        forall|i: int| 0 <= i < path.len() ==> #[trigger] path[i] < len,
        0 <= len,
    ensures
        path.len() <= len,
{
    let p = Seq::new(path.len(), |i: int| path[i] as int);
    assert(p.no_duplicates());
    p.unique_seq_to_set();
    lemma_int_range(0, len);
    assert(p.to_set().subset_of(set_int_range(0, len)));
    lemma_len_subset(p.to_set(), set_int_range(0, len));
}

/// Executing `PUSHn`, `n` in `1..=32`, with its `n` immediate bytes inside
/// the code, at a pc not visited before and on a stack below capacity,
/// leaves on top of the stack a concrete term whose value is the big-endian
/// reading of those bytes modulo 2^64.
pub proof fn lemma_push_top(s: RunState, n: int)
    requires
        1 <= n <= 32,
        0 <= s.pc,
        s.pc + n < s.code.len(),
        s.code[s.pc] == 0x5f + n,
        !s.path.contains(s.pc as usize),
        s.stack.len() < STACK_CAPACITY,
    ensures
        step_spec(s) matches StepOutcome::Continue(next) && next.stack.last() == concrete(
            (big_endian(s.code.subrange(s.pc + 1, s.pc + 1 + n)) % 0x1_0000_0000_0000_0000) as u64,
        ),
{
    assert(immediate(s.code, s.pc + 1, n) =~= s.code.subrange(s.pc + 1, s.pc + 1 + n));
}

/// A step from a pc that the path already holds ends the run where it
/// stands, and the run returns its identifier.
pub proof fn lemma_revisit_halts(s: RunState, fuel: nat)
    requires
        0 <= s.pc < s.code.len(),
        s.path.contains(s.pc as usize),
        fuel >= 1,
    ensures
        step_spec(s) == StepOutcome::Halt(s),
        run_from(s, fuel) == Ok::<u64, EvmError>(s.counter),
{
}

/// A step that goes on keeps the invariant, keeps the code and the
/// identifier, and adds the pc it left to the path.
pub proof fn lemma_step_wf(s: RunState)
    requires
        state_wf(s),
        s.pc < s.code.len(),
    ensures
        step_spec(s) matches StepOutcome::Continue(next) ==> state_wf(next) && next.code == s.code
            && next.counter == s.counter && next.path == s.path.push(s.pc as usize),
{
    if !s.path.contains(s.pc as usize) {
        let p = s.path.push(s.pc as usize);
        assert forall|i: int| 0 <= i < p.len() implies #[trigger] p[i] < s.code.len() by {
            if i < s.path.len() {
                assert(p[i] == s.path[i]);
            }
        }
        assert(p.no_duplicates());
    }
}

/// Every run ends within `fuel` steps: any further steps change nothing,
/// since each step that goes on visits a new pc inside the code.
pub proof fn lemma_run_bounded(s: RunState, extra: nat)
    requires
        state_wf(s),
    ensures
        run_from(s, fuel(s) + extra) == run_from(s, fuel(s)),
    decreases fuel(s),
{
    lemma_path_len(s.path, s.code.len() as int);
    if s.pc < s.code.len() {
        lemma_step_wf(s);
        match step_spec(s) {
            StepOutcome::Continue(next) => {
                lemma_path_len(next.path, next.code.len() as int);
                lemma_run_bounded(next, extra);
                assert((fuel(s) + extra - 1) as nat == fuel(next) + extra);
            },
            _ => {},
        }
    }
}

} // verus!
