//! The interpreter loop and the solver queries at conditional jumps.
use vstd::prelude::*;

use crate::error::EvmError;
use crate::extract::negate;
use crate::handlers::{descriptor, sym_handlers, EvmContext, HandlerType, OpcodeHandler};
use crate::machine::{
    feasible, fuel, initial, lemma_path_len, lemma_step_wf, operands, queryable, results, run_from,
    step_spec, symbolic,
    RunState, StepOutcome,
};
use crate::solve::{satisfiable, satisfied_by, solve, DLResult};
use crate::sym_stack::{lemma_models_push, models, Constant, Expr, Kind, SymVal, Term};

verus! {

/// The strict complement of a constraint.
pub fn negate_expr(e: Expr) -> (r: Expr)
    ensures
        r == negate(e),
{
    let k: i64 = -1 - e.k.0;
    Expr { a: e.b, b: e.a, k: Constant(k) }
}

/// Whether every variable id of `es` leaves room for the solver's node count.
fn is_queryable(es: &Vec<Expr>) -> (r: bool)
    ensures
        r == queryable(es@),
{
    let limit = usize::MAX as u64;
    let mut i: usize = 0;
    while i < es.len()
        invariant
            i <= es@.len(),
            limit == usize::MAX,
            forall|j: int|
                0 <= j < i ==> (#[trigger] es@[j]).a.0 < usize::MAX && es@[j].b.0 < usize::MAX,
        decreases es@.len() - i,
    {
        if es[i].a.0 >= limit || es[i].b.0 >= limit {
            assert(!((es@[i as int]).a.0 < usize::MAX && es@[i as int].b.0 < usize::MAX));
            return false;
        }
        i += 1;
    }
    true
}

/// Whether the solver leaves `es` open: an empty set is trivially
/// satisfiable and is not handed to the solver.
fn is_feasible(es: &Vec<Expr>) -> (r: bool)
    ensures
        r == feasible(es@),
{
    if !is_queryable(es) {
        return true;
    }
    if es.len() == 0 {
        let ghost x = |v: int| 0int;
        assert(satisfied_by(es@, x));
        return true;
    }
    match solve(es.as_slice()) {
        Ok(DLResult::Sat) => true,
        Ok(DLResult::Unsat) => false,
        Err(_) => true,
    }
}

/// `a` followed by `b`.
fn concat(a: &Vec<Expr>, b: &Vec<Expr>) -> (r: Vec<Expr>)
    ensures
        r@ == a@ + b@,
{
    let mut r: Vec<Expr> = Vec::new();
    let mut i: usize = 0;
    while i < a.len()
        invariant
            i <= a@.len(),
            r@ == a@.subrange(0, i as int),
        decreases a@.len() - i,
    {
        r.push(a[i]);
        assert(r@ =~= a@.subrange(0, i + 1));
        i += 1;
    }
    let mut j: usize = 0;
    while j < b.len()
        invariant
            j <= b@.len(),
            r@ == a@ + b@.subrange(0, j as int),
        decreases b@.len() - j,
    {
        r.push(b[j]);
        assert(r@ =~= a@ + b@.subrange(0, j + 1));
        j += 1;
    }
    assert(b@.subrange(0, b@.len() as int) =~= b@);
    r
}

/// Whether the branch where the condition fails stays open: some
/// constraint of the condition can fail alongside `c`.
pub fn not_taken_open(c: &Vec<Expr>, new: &Vec<Expr>) -> (r: bool)
    ensures
        r == crate::machine::not_taken_feasible(c@, new@),
{
    let mut i: usize = 0;
    while i < new.len()
        invariant
            i <= new@.len(),
            forall|j: int| 0 <= j < i ==> !#[trigger] feasible(c@.push(negate(new@[j]))),
        decreases new@.len() - i,
    {
        let mut with: Vec<Expr> = concat(c, &Vec::new());
        assert(c@ + Seq::<Expr>::empty() =~= c@);
        with.push(negate_expr(new[i]));
        if is_feasible(&with) {
            return true;
        }
        i += 1;
    }
    false
}

/// Whether the branch whose condition implies `new` stays open beside `c`.
pub fn taken_open(c: &Vec<Expr>, new: &Vec<Expr>) -> (r: (bool, Vec<Expr>))
    ensures
        r.0 == crate::machine::taken_feasible(c@, new@),
        r.1@ == c@ + new@,
{
    let with = concat(c, new);
    (is_feasible(&with), with)
}

/// Whether `pc` already occurs in `path`.
pub fn search_path(path: &[usize], pc: &usize) -> (r: bool)
    ensures
        r == path@.contains(*pc),
{
    let mut i: usize = 0;
    while i < path.len()
        invariant
            i <= path@.len(),
            forall|j: int| 0 <= j < i ==> path@[j] != *pc,
        decreases path@.len() - i,
    {
        if path[i] == *pc {
            return true;
        }
        i += 1;
    }
    false
}

/// Copies of `v`'s terms.
fn clone_terms(v: &Vec<Term>) -> (r: Vec<Term>)
    ensures
        models(r@) == models(v@),
{
    let mut r: Vec<Term> = Vec::new();
    let mut i: usize = 0;
    while i < v.len()
        invariant
            i <= v@.len(),
            models(r@) =~= models(v@).subrange(0, i as int),
        decreases v@.len() - i,
    {
        let ghost before = r@;
        let t = v[i].clone();
        r.push(t);
        proof {
            lemma_models_push(before, t);
        }
        i += 1;
    }
    assert(models(v@).subrange(0, v@.len() as int) =~= models(v@));
    r
}

/// Execute one instruction: the one at `pc`, unless `pc` was visited
/// before, which ends the run. Returns the run's identifier when the run has
/// ended.
pub fn step(context: &mut EvmContext, handlers: &[OpcodeHandler; 256]) -> (r: Result<
    Option<u64>,
    EvmError,
>)
    requires
        old(context).wf(),
        old(context).pc < old(context).code@.len(),
        forall|i: int| 0 <= i < 256 ==> #[trigger] handlers@[i] == descriptor(i as u8),
    ensures
        match step_spec(old(context).state()) {
            StepOutcome::Continue(n) => r == Ok::<Option<u64>, EvmError>(None)
                && final(context).state() == n && final(context).wf(),
            StepOutcome::Halt(n) => r == Ok::<Option<u64>, EvmError>(Some(n.counter))
                && final(context).state() == n,
            StepOutcome::Fail(e) => r == Err::<Option<u64>, EvmError>(e),
        },
{
    let ghost s = context.state();
    let pc = context.pc;
    let opcode = context.code[pc];
    if search_path(context.path.as_slice(), &pc) {
        assert(context.state() =~= s);
        return Ok(Some(context.counter));
    }
    context.path.push(pc);
    let ghost s1 = context.state();
    assert(s1 =~= RunState { path: s.path.push(s.pc as usize), ..s });
    proof {
        assert forall|i: int| 0 <= i < s1.path.len() implies #[trigger] s1.path[i] < s1.code.len() by {
            if i < s.path.len() {
                assert(s1.path[i] == s.path[i]);
            }
        }
        assert(s1.path.no_duplicates());
    }
    let handler = handlers[opcode as usize];
    assert(handler == descriptor(opcode));
    match handler.handler_type {
        HandlerType::Push => {
            return match handler.handle_push(context) {
                Ok(()) => {
                    assert(context.state() =~= RunState {
                        stack: context.sym_stack@,
                        pc: context.pc as int,
                        ..s1
                    });
                    Ok(None)
                },
                Err(e) => Err(e),
            };
        },
        HandlerType::Dup => {
            return match handler.handle_dup(context) {
                Ok(()) => {
                    assert(context.state() =~= RunState {
                        stack: context.sym_stack@,
                        pc: context.pc as int,
                        ..s1
                    });
                    Ok(None)
                },
                Err(e) => Err(e),
            };
        },
        HandlerType::Swap => {
            return match handler.handle_swap(context) {
                Ok(()) => {
                    assert(context.state() =~= RunState {
                        stack: context.sym_stack@,
                        pc: context.pc as int,
                        ..s1
                    });
                    Ok(None)
                },
                Err(e) => Err(e),
            };
        },
        _ => {},
    }
    let n_in = handler.in_args as usize;
    let n_out = handler.out_args as usize;
    let depth = context.sym_stack.depth();
    if depth < n_in {
        return Err(EvmError::StackUnderflow);
    }
    let ghost st = context.sym_stack@;
    let ghost args = operands(st, n_in as int);

    // The operands, nearest the top first
    let mut sym_args: Vec<Term> = Vec::new();
    let mut i: usize = 0;
    while i < n_in
        invariant
            i <= n_in <= depth,
            depth == context.sym_stack.values@.len(),
            st == context.sym_stack@,
            args == operands(st, n_in as int),
            models(sym_args@) =~= args.subrange(0, i as int),
        decreases n_in - i,
    {
        let ghost before = sym_args@;
        let t = context.sym_stack.values[depth - i - 1].clone();
        sym_args.push(t);
        proof {
            lemma_models_push(before, t);
        }
        i += 1;
    }
    assert(models(sym_args@) =~= args);

    // The fresh symbolic results
    let mut sym_op: Vec<Term> = Vec::new();
    let mut j: usize = 0;
    while j < n_out
        invariant
            j <= n_out,
            models(sym_args@) == args,
            models(sym_op@) =~= results(opcode, args, n_out as int).subrange(0, j as int),
        decreases n_out - j,
    {
        let t = Term {
            sym_val: SymVal { value: opcode as u64, kind: Kind::Symbolic },
            args: clone_terms(&sym_args),
        };
        proof {
            t.lemma_model();
            assert(t.model().args =~= args);
            assert(t.model() == symbolic(opcode, args));
        }
        let ghost before = sym_op@;
        sym_op.push(t);
        proof {
            lemma_models_push(before, t);
        }
        j += 1;
    }
    assert(models(sym_op@).subrange(0, n_out as int) =~= results(opcode, args, n_out as int));

    match handler.handler_type {
        HandlerType::Terminating => {
            match handler.handle_terminating(context, &sym_op) {
                Ok(()) => {
                    assert(context.state() =~= RunState { stack: context.sym_stack@, ..s1 });
                    Ok(Some(context.counter))
                },
                Err(e) => Err(e),
            }
        },
        HandlerType::Jump => {
            match handler.handle_jump(context, &sym_op) {
                Ok(()) => {
                    assert(context.state() =~= RunState {
                        stack: context.sym_stack@,
                        pc: context.pc as int,
                        ..s1
                    });
                    Ok(None)
                },
                Err(e) => Err(e),
            }
        },
        HandlerType::JumpI => {
            proof {
                assert(sym_args@[1].model() == args[1]);
            }
            match handler.handle_jumpi(context, &sym_op, &sym_args[1]) {
                Ok(()) => Ok(None),
                Err(e) => Err(e),
            }
        },
        HandlerType::Base => {
            match handler.handle_base(context, &sym_op) {
                Ok(()) => {
                    assert(context.state() =~= RunState { stack: context.sym_stack@, ..s1 });
                    Ok(None)
                },
                Err(e) => Err(e),
            }
        },
        _ => {
            match handler.handle_unimplemented(context, &sym_op) {
                Ok(()) => {
                    assert(context.state() =~= RunState {
                        stack: context.sym_stack@,
                        pc: context.pc as int,
                        ..s1
                    });
                    Ok(None)
                },
                Err(e) => Err(e),
            }
        },
    }
}

/// Run from `context` until the run ends: at a terminating opcode, at a pc
/// visited before, or when the pc leaves the code. Returns the run's
/// identifier.
pub fn execute(context: &mut EvmContext) -> (r: Result<u64, EvmError>)
    requires
        old(context).wf(),
    ensures
        r == run_from(old(context).state(), fuel(old(context).state())),
{
    let handlers = sym_handlers();
    let ghost goal = run_from(context.state(), fuel(context.state()));
    proof {
        lemma_path_len(context.path@, context.code@.len() as int);
    }
    while context.pc < context.code.len()
        invariant
            context.wf(),
            forall|i: int| 0 <= i < 256 ==> #[trigger] handlers@[i] == descriptor(i as u8),
            context.path@.len() <= context.code@.len(),
            run_from(context.state(), fuel(context.state())) == goal,
            goal == run_from(old(context).state(), fuel(old(context).state())),
        decreases context.code@.len() - context.path@.len(),
    {
        let ghost s = context.state();
        proof {
            lemma_step_wf(s);
            assert(fuel(s) >= 1);
            assert(run_from(s, fuel(s)) == match step_spec(s) {
                StepOutcome::Continue(next) => run_from(next, (fuel(s) - 1) as nat),
                StepOutcome::Halt(last) => Ok(last.counter),
                StepOutcome::Fail(e) => Err(e),
            });
        }
        match step(context, &handlers) {
            Ok(None) => {
                proof {
                    lemma_path_len(context.path@, context.code@.len() as int);
                }
            },
            Ok(Some(c)) => {
                assert(step_spec(s) is Halt);
                return Ok(c);
            },
            Err(e) => {
                assert(step_spec(s) is Fail);
                return Err(e);
            },
        }
    }
    Ok(context.counter)
}

/// Run `runtime` from its start with a fresh context. Returns the run's
/// identifier, or the reason the run was abandoned.
pub fn run(runtime: Vec<u8>) -> (r: Result<u64, EvmError>)
    ensures
        r == run_from(initial(runtime@), (runtime@.len() + 1) as nat),
{
    let mut context = EvmContext::new(runtime);
    execute(&mut context)
}

} // verus!
