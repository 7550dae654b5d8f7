//! The opcode descriptor table, the run context and the per-class handlers.
use vstd::prelude::*;

use vstd::arithmetic::div_mod::{lemma_add_mod_noop, lemma_mod_twice, lemma_mul_mod_noop_left};

use crate::error::EvmError;
use crate::driver::{negate_expr, not_taken_open, taken_open};
use crate::extract::{is_extractable, is_sym, term_to_expression};
use crate::machine::{
    advance, big_endian, concrete, condition_constraints, immediate, initial, jump_dest, jumpi_next,
    push_value, state_wf, RunState,
};
use crate::opcodes::{
    DUP1, DUP16, INVALID, JUMP, JUMPI, PUSH1, PUSH32, RETURN, REVERT, SELFDESTRUCT, STOP, SWAP1,
    SWAP16,
};
use crate::sym_stack::{
    dup_seq, models, swap_seq, EvmSymStack, Expr, Kind, SymVal, Term, TermModel, STACK_CAPACITY,
};

verus! {

/// The behaviour class of an opcode.
#[derive(Clone, Copy, PartialEq, Eq, Debug, Structural)]
pub enum HandlerType {
    /// Modelled structurally: pops its operands, pushes fresh symbolic
    /// results and moves to the next instruction.
    Unimplemented,
    /// Pops its operands and pushes its results without moving the pc.
    Base,
    Push,
    Dup,
    Swap,
    Jump,
    JumpI,
    Terminating,
}

/// The static description of one opcode.
///
/// For `Dup`, `in_args` is the depth copied from; for `Swap`, `in_args` is
/// the depth swapped with plus one.
#[derive(Clone, Copy, PartialEq, Eq, Debug, Structural)]
pub struct OpcodeHandler {
    pub handler_type: HandlerType,
    pub in_args: u8,
    pub out_args: u8,
    pub bytecode_reads: u8,
}

/// The descriptor with the given fields.
pub open spec fn handler(t: HandlerType, i: u8, o: u8, r: u8) -> OpcodeHandler {
    OpcodeHandler { handler_type: t, in_args: i, out_args: o, bytecode_reads: r }
}

/// The descriptor of an opcode modelled as an uninterpreted operator.
pub open spec fn ordinary(i: u8, o: u8) -> OpcodeHandler {
    handler(HandlerType::Unimplemented, i, o, 0)
}

/// The descriptor of each opcode byte; reserved bytes get an ordinary
/// descriptor that consumes and produces nothing.
pub open spec fn descriptor(op: u8) -> OpcodeHandler {
    if op == STOP {
        handler(HandlerType::Terminating, 0, 0, 0)
    } else if 0x01 <= op && op <= 0x07 {
        ordinary(2, 1)
    } else if 0x08 <= op && op <= 0x09 {
        ordinary(3, 1)
    } else if 0x0a <= op && op <= 0x0b {
        ordinary(2, 1)
    } else if 0x10 <= op && op <= 0x14 {
        ordinary(2, 1)
    } else if op == 0x15 {
        ordinary(1, 1)
    } else if 0x16 <= op && op <= 0x18 {
        ordinary(2, 1)
    } else if op == 0x19 {
        ordinary(1, 1)
    } else if 0x1a <= op && op <= 0x1d {
        ordinary(2, 1)
    } else if op == 0x20 {
        ordinary(2, 1)
    } else if op == 0x30 {
        ordinary(0, 1)
    } else if op == 0x31 {
        ordinary(1, 1)
    } else if 0x32 <= op && op <= 0x34 {
        ordinary(0, 1)
    } else if op == 0x35 {
        ordinary(1, 1)
    } else if op == 0x36 {
        ordinary(0, 1)
    } else if op == 0x37 {
        ordinary(3, 0)
    } else if op == 0x38 {
        ordinary(0, 1)
    } else if op == 0x39 {
        ordinary(3, 0)
    } else if op == 0x3a {
        ordinary(0, 1)
    } else if op == 0x3b {
        ordinary(1, 1)
    } else if op == 0x3c {
        ordinary(4, 0)
    } else if op == 0x3d {
        ordinary(0, 1)
    } else if op == 0x3e {
        ordinary(3, 0)
    } else if op == 0x3f {
        ordinary(1, 1)
    } else if op == 0x40 {
        ordinary(1, 1)
    } else if 0x41 <= op && op <= 0x48 {
        ordinary(0, 1)
    } else if op == 0x50 {
        ordinary(1, 0)
    } else if op == 0x51 {
        ordinary(1, 1)
    } else if 0x52 <= op && op <= 0x53 {
        ordinary(2, 0)
    } else if op == 0x54 {
        ordinary(1, 1)
    } else if op == 0x55 {
        ordinary(2, 0)
    } else if op == JUMP {
        handler(HandlerType::Jump, 1, 0, 0)
    } else if op == JUMPI {
        handler(HandlerType::JumpI, 2, 0, 0)
    } else if 0x58 <= op && op <= 0x5a {
        ordinary(0, 1)
    } else if PUSH1 <= op && op <= PUSH32 {
        handler(HandlerType::Push, 0, 1, (op - PUSH1 + 1) as u8)
    } else if DUP1 <= op && op <= DUP16 {
        handler(HandlerType::Dup, (op - DUP1 + 1) as u8, (op - DUP1 + 2) as u8, 0)
    } else if SWAP1 <= op && op <= SWAP16 {
        handler(HandlerType::Swap, (op - SWAP1 + 2) as u8, (op - SWAP1 + 2) as u8, 0)
    } else if 0xa0 <= op && op <= 0xa4 {
        ordinary((op - 0x9e) as u8, 0)
    } else if op == 0xf0 {
        ordinary(3, 1)
    } else if 0xf1 <= op && op <= 0xf2 {
        ordinary(7, 1)
    } else if op == RETURN {
        handler(HandlerType::Terminating, 2, 0, 0)
    } else if op == 0xf4 {
        ordinary(6, 1)
    } else if op == 0xf5 {
        ordinary(4, 1)
    } else if op == 0xfa {
        ordinary(6, 1)
    } else if op == REVERT {
        handler(HandlerType::Terminating, 2, 0, 0)
    } else if op == INVALID {
        handler(HandlerType::Terminating, 0, 0, 0)
    } else if op == SELFDESTRUCT {
        handler(HandlerType::Terminating, 1, 0, 0)
    } else {
        ordinary(0, 0)
    }
}

impl OpcodeHandler {
    pub fn new(handler_type: HandlerType, in_args: u8, out_args: u8, bytecode_reads: u8) -> (r:
        Self)
        ensures
            r == handler(handler_type, in_args, out_args, bytecode_reads),
    {
        OpcodeHandler { handler_type, in_args, out_args, bytecode_reads }
    }
}

/// The descriptor of one opcode byte.
pub fn lookup(op: u8) -> (r: OpcodeHandler)
    ensures
        r == descriptor(op),
{
    let u = HandlerType::Unimplemented;
    if op == STOP {
        OpcodeHandler::new(HandlerType::Terminating, 0, 0, 0)
    } else if 0x01 <= op && op <= 0x07 {
        OpcodeHandler::new(u, 2, 1, 0)
    } else if 0x08 <= op && op <= 0x09 {
        OpcodeHandler::new(u, 3, 1, 0)
    } else if 0x0a <= op && op <= 0x0b {
        OpcodeHandler::new(u, 2, 1, 0)
    } else if 0x10 <= op && op <= 0x14 {
        OpcodeHandler::new(u, 2, 1, 0)
    } else if op == 0x15 {
        OpcodeHandler::new(u, 1, 1, 0)
    } else if 0x16 <= op && op <= 0x18 {
        OpcodeHandler::new(u, 2, 1, 0)
    } else if op == 0x19 {
        OpcodeHandler::new(u, 1, 1, 0)
    } else if 0x1a <= op && op <= 0x1d {
        OpcodeHandler::new(u, 2, 1, 0)
    } else if op == 0x20 {
        OpcodeHandler::new(u, 2, 1, 0)
    } else if op == 0x30 {
        OpcodeHandler::new(u, 0, 1, 0)
    } else if op == 0x31 {
        OpcodeHandler::new(u, 1, 1, 0)
    } else if 0x32 <= op && op <= 0x34 {
        OpcodeHandler::new(u, 0, 1, 0)
    } else if op == 0x35 {
        OpcodeHandler::new(u, 1, 1, 0)
    } else if op == 0x36 {
        OpcodeHandler::new(u, 0, 1, 0)
    } else if op == 0x37 {
        OpcodeHandler::new(u, 3, 0, 0)
    } else if op == 0x38 {
        OpcodeHandler::new(u, 0, 1, 0)
    } else if op == 0x39 {
        OpcodeHandler::new(u, 3, 0, 0)
    } else if op == 0x3a {
        OpcodeHandler::new(u, 0, 1, 0)
    } else if op == 0x3b {
        OpcodeHandler::new(u, 1, 1, 0)
    } else if op == 0x3c {
        OpcodeHandler::new(u, 4, 0, 0)
    } else if op == 0x3d {
        OpcodeHandler::new(u, 0, 1, 0)
    } else if op == 0x3e {
        OpcodeHandler::new(u, 3, 0, 0)
    } else if op == 0x3f {
        OpcodeHandler::new(u, 1, 1, 0)
    } else if op == 0x40 {
        OpcodeHandler::new(u, 1, 1, 0)
    } else if 0x41 <= op && op <= 0x48 {
        OpcodeHandler::new(u, 0, 1, 0)
    } else if op == 0x50 {
        OpcodeHandler::new(u, 1, 0, 0)
    } else if op == 0x51 {
        OpcodeHandler::new(u, 1, 1, 0)
    } else if 0x52 <= op && op <= 0x53 {
        OpcodeHandler::new(u, 2, 0, 0)
    } else if op == 0x54 {
        OpcodeHandler::new(u, 1, 1, 0)
    } else if op == 0x55 {
        OpcodeHandler::new(u, 2, 0, 0)
    } else if op == JUMP {
        OpcodeHandler::new(HandlerType::Jump, 1, 0, 0)
    } else if op == JUMPI {
        OpcodeHandler::new(HandlerType::JumpI, 2, 0, 0)
    } else if 0x58 <= op && op <= 0x5a {
        OpcodeHandler::new(u, 0, 1, 0)
    } else if PUSH1 <= op && op <= PUSH32 {
        OpcodeHandler::new(HandlerType::Push, 0, 1, op - PUSH1 + 1)
    } else if DUP1 <= op && op <= DUP16 {
        OpcodeHandler::new(HandlerType::Dup, op - DUP1 + 1, op - DUP1 + 2, 0)
    } else if SWAP1 <= op && op <= SWAP16 {
        OpcodeHandler::new(HandlerType::Swap, op - SWAP1 + 2, op - SWAP1 + 2, 0)
    } else if 0xa0 <= op && op <= 0xa4 {
        OpcodeHandler::new(u, op - 0x9e, 0, 0)
    } else if op == 0xf0 {
        OpcodeHandler::new(u, 3, 1, 0)
    } else if 0xf1 <= op && op <= 0xf2 {
        OpcodeHandler::new(u, 7, 1, 0)
    } else if op == RETURN {
        OpcodeHandler::new(HandlerType::Terminating, 2, 0, 0)
    } else if op == 0xf4 {
        OpcodeHandler::new(u, 6, 1, 0)
    } else if op == 0xf5 {
        OpcodeHandler::new(u, 4, 1, 0)
    } else if op == 0xfa {
        OpcodeHandler::new(u, 6, 1, 0)
    } else if op == REVERT {
        OpcodeHandler::new(HandlerType::Terminating, 2, 0, 0)
    } else if op == INVALID {
        OpcodeHandler::new(HandlerType::Terminating, 0, 0, 0)
    } else if op == SELFDESTRUCT {
        OpcodeHandler::new(HandlerType::Terminating, 1, 0, 0)
    } else {
        OpcodeHandler::new(u, 0, 0, 0)
    }
}

/// The table of descriptors for all 256 opcode bytes, indexed by opcode.
pub fn sym_handlers() -> (r: [OpcodeHandler; 256])
    ensures
        forall|i: int| 0 <= i < 256 ==> #[trigger] r@[i] == descriptor(i as u8),
{
    let mut table = [OpcodeHandler::new(HandlerType::Unimplemented, 0, 0, 0); 256];
    let mut i: usize = 0;
    while i < 256
        invariant
            i <= 256,
            forall|j: int| 0 <= j < i ==> #[trigger] table@[j] == descriptor(j as u8),
        decreases 256 - i,
    {
        table[i] = lookup(i as u8);
        i += 1;
    }
    table
}

/// The state of one run: the code, the stack, the program counter, the
/// program counters visited so far, the path constraints and the run's
/// identifier.
pub struct EvmContext {
    pub code: Vec<u8>,
    pub sym_stack: EvmSymStack,
    pub pc: usize,
    pub path: Vec<usize>,
    pub constraints: Vec<Expr>,
    pub counter: u64,
}

impl EvmContext {
    pub open spec fn state(&self) -> RunState {
        RunState {
            code: self.code@,
            stack: self.sym_stack@,
            pc: self.pc as int,
            path: self.path@,
            constraints: self.constraints@,
            counter: self.counter,
        }
    }

    pub open spec fn wf(&self) -> bool {
        state_wf(self.state())
    }

    /// A fresh context at the start of the code, with identifier 1.
    pub fn new(code: Vec<u8>) -> (r: Self)
        ensures
            r.state() == initial(code@),
            r.wf(),
    {
        let r = EvmContext {
            code,
            sym_stack: EvmSymStack::new(),
            pc: 0,
            path: Vec::new(),
            constraints: Vec::new(),
            counter: 1,
        };
        assert(r.sym_stack@ =~= seq![]);
        assert(r.state() =~= initial(r.code@));
        r
    }
}

/// `c` differs from `o` at most in its stack.
pub open spec fn same_but_stack(c: &EvmContext, o: &EvmContext) -> bool {
    &&& c.code@ == o.code@
    &&& c.pc == o.pc
    &&& c.path@ == o.path@
    &&& c.constraints@ == o.constraints@
    &&& c.counter == o.counter
}

/// The stack after popping `n_in` items and pushing `vals`, or the error
/// that stops it.
pub open spec fn pop_push(
    stack: Seq<TermModel>,
    n_in: int,
    vals: Seq<TermModel>,
) -> Result<Seq<TermModel>, EvmError> {
    if stack.len() < n_in {
        Err(EvmError::StackUnderflow)
    } else if stack.len() - n_in + vals.len() > STACK_CAPACITY {
        Err(EvmError::StackOverflow)
    } else {
        Ok(stack.subrange(0, stack.len() - n_in) + vals)
    }
}

/// `c` differs from `o` at most in its stack and its pc.
pub open spec fn same_but_stack_pc(c: &EvmContext, o: &EvmContext) -> bool {
    &&& c.code@ == o.code@
    &&& c.path@ == o.path@
    &&& c.constraints@ == o.constraints@
    &&& c.counter == o.counter
}

proof fn lemma_shift_in(w: int, b: int)
    requires
        0 <= w,
        0 <= b < 256,
    ensures
        ((((w % 0x1_0000_0000_0000_0000) * 256) % 0x1_0000_0000_0000_0000) + b)
            % 0x1_0000_0000_0000_0000 == (w * 256 + b) % 0x1_0000_0000_0000_0000,
{
    let m: int = 0x1_0000_0000_0000_0000;
    lemma_mul_mod_noop_left(w, 256, m);
    lemma_add_mod_noop(w * 256, b, m);
    assert(b % m == b);
    assert((w * 256) % m % m == (w * 256) % m) by {
        lemma_mod_twice(w * 256, m);
    }
}

/// The `n` bytes after `pc`, read as a big-endian number modulo 2^64;
/// bytes past the end of the code read as zero.
fn read_immediate(code: &Vec<u8>, pc: usize, n: u8) -> (r: u64)
    requires
        pc < code@.len(),
    ensures
        r == push_value(code@, pc as int, n as int),
{
    let room = code.len() - pc - 1;
    let mut word: u64 = 0;
    let mut i: u8 = 0;
    while i < n
        invariant
            i <= n,
            pc < code@.len(),
            room == code@.len() - pc - 1,
            code@.len() <= usize::MAX,
            word == big_endian(immediate(code@, pc + 1, i as int)) % 0x1_0000_0000_0000_0000,
        decreases n - i,
    {
        let byte: u8 = if (i as usize) < room {
            code[pc + 1 + i as usize]
        } else {
            0
        };
        let ghost prev = immediate(code@, pc + 1, i as int);
        let ghost next = immediate(code@, pc + 1, i + 1);
        assert(next.drop_last() =~= prev);
        assert(big_endian(next) == big_endian(prev) * 256 + byte);
        proof {
            lemma_shift_in(big_endian(prev) as int, byte as int);
        }
        let shifted = word.wrapping_mul(256);
        assert(shifted == (word * 256) % 0x1_0000_0000_0000_0000);
        word = shifted.wrapping_add(byte as u64);
        i += 1;
    }
    word
}

/// Where a jump to `target` leads.
fn jump_target(target: u64) -> (r: usize)
    ensures
        r == jump_dest(target),
{
    if target <= usize::MAX as u64 {
        target as usize
    } else {
        usize::MAX
    }
}

/// `pc + k`, saturating at `usize::MAX`.
fn advance_pc(pc: usize, k: usize) -> (r: usize)
    ensures
        r == advance(pc as int, k as int),
{
    if k <= usize::MAX - pc {
        pc + k
    } else {
        usize::MAX
    }
}

impl OpcodeHandler {
    /// Pop `in_args` items off the stack, then push the first `out_args`
    /// prepared values.
    pub fn handle_base(&self, context: &mut EvmContext, sym_vals: &Vec<Term>) -> (r: Result<
        (),
        EvmError,
    >)
        requires
            old(context).sym_stack.wf(),
            sym_vals@.len() >= self.out_args,
        ensures
            final(context).sym_stack.wf(),
            same_but_stack(final(context), old(context)),
            match pop_push(
                old(context).sym_stack@,
                self.in_args as int,
                models(sym_vals@).subrange(0, self.out_args as int),
            ) {
                Ok(st) => r is Ok && final(context).sym_stack@ == st,
                Err(e) => r == Err::<(), EvmError>(e),
            },
    {
        let depth = context.sym_stack.depth();
        let n_in = self.in_args as usize;
        let n_out = self.out_args as usize;
        if depth < n_in {
            return Err(EvmError::StackUnderflow);
        }
        if depth - n_in + n_out > STACK_CAPACITY {
            return Err(EvmError::StackOverflow);
        }
        let ghost st = context.sym_stack@;
        let mut i: usize = 0;
        while i < n_in
            invariant
                i <= n_in <= depth,
                depth == st.len(),
                context.sym_stack.wf(),
                context.sym_stack@ =~= st.subrange(0, depth - i),
                same_but_stack(context, old(context)),
            decreases n_in - i,
        {
            let ghost before = context.sym_stack.values@;
            let _ = context.sym_stack.sym_pop();
            assert(models(before.drop_last()) =~= models(before).drop_last());
            i += 1;
        }
        let mut j: usize = 0;
        while j < n_out
            invariant
                j <= n_out <= sym_vals@.len(),
                n_in <= depth,
                depth == st.len(),
                depth - n_in + n_out <= STACK_CAPACITY,
                context.sym_stack.wf(),
                context.sym_stack@ =~= st.subrange(0, depth - n_in) + models(sym_vals@).subrange(
                    0,
                    j as int,
                ),
                same_but_stack(context, old(context)),
            decreases n_out - j,
        {
            let ghost before = context.sym_stack.values@;
            let t = sym_vals[j].clone();
            let _ = context.sym_stack.sym_push(t);
            assert(models(before.push(t)) =~= models(before).push(t.model()));
            j += 1;
        }
        Ok(())
    }

    /// Pop and push as `handle_base`, then move to the next instruction.
    pub fn handle_unimplemented(&self, context: &mut EvmContext, sym_vals: &Vec<Term>) -> (r:
        Result<(), EvmError>)
        requires
            old(context).sym_stack.wf(),
            sym_vals@.len() >= self.out_args,
        ensures
            final(context).sym_stack.wf(),
            same_but_stack_pc(final(context), old(context)),
            match pop_push(
                old(context).sym_stack@,
                self.in_args as int,
                models(sym_vals@).subrange(0, self.out_args as int),
            ) {
                Ok(st) => r is Ok && final(context).sym_stack@ == st && final(context).pc
                    == advance(old(context).pc as int, 1),
                Err(e) => r == Err::<(), EvmError>(e),
            },
    {
        match self.handle_base(context, sym_vals) {
            Ok(()) => {
                context.pc = advance_pc(context.pc, 1);
                Ok(())
            },
            Err(e) => Err(e),
        }
    }

    /// Pop and push as `handle_base`; the run then ends.
    pub fn handle_terminating(&self, context: &mut EvmContext, sym_vals: &Vec<Term>) -> (r: Result<
        (),
        EvmError,
    >)
        requires
            old(context).sym_stack.wf(),
            sym_vals@.len() >= self.out_args,
        ensures
            final(context).sym_stack.wf(),
            same_but_stack(final(context), old(context)),
            match pop_push(
                old(context).sym_stack@,
                self.in_args as int,
                models(sym_vals@).subrange(0, self.out_args as int),
            ) {
                Ok(st) => r is Ok && final(context).sym_stack@ == st,
                Err(e) => r == Err::<(), EvmError>(e),
            },
    {
        self.handle_base(context, sym_vals)
    }

    /// Duplicate the `in_args`-th item and move to the next instruction.
    pub fn handle_dup(&self, context: &mut EvmContext) -> (r: Result<(), EvmError>)
        requires
            old(context).sym_stack.wf(),
            1 <= self.in_args <= 16,
        ensures
            final(context).sym_stack.wf(),
            same_but_stack_pc(final(context), old(context)),
            old(context).sym_stack@.len() >= STACK_CAPACITY ==> r == Err::<(), EvmError>(
                EvmError::StackOverflow,
            ),
            old(context).sym_stack@.len() < STACK_CAPACITY && old(context).sym_stack@.len()
                < self.in_args ==> r == Err::<(), EvmError>(EvmError::StackUnderflow),
            old(context).sym_stack@.len() < STACK_CAPACITY && self.in_args
                <= old(context).sym_stack@.len() ==> r is Ok && final(context).sym_stack@
                == dup_seq(old(context).sym_stack@, self.in_args as int) && final(context).pc
                == advance(old(context).pc as int, 1),
    {
        match context.sym_stack.sym_dup(self.in_args) {
            Ok(()) => {
                context.pc = advance_pc(context.pc, 1);
                Ok(())
            },
            Err(e) => Err(e),
        }
    }

    /// Exchange the top with the item `in_args - 1` slots below it and move
    /// to the next instruction.
    pub fn handle_swap(&self, context: &mut EvmContext) -> (r: Result<(), EvmError>)
        requires
            old(context).sym_stack.wf(),
            2 <= self.in_args <= 17,
        ensures
            final(context).sym_stack.wf(),
            same_but_stack_pc(final(context), old(context)),
            old(context).sym_stack@.len() <= self.in_args - 1 ==> r == Err::<(), EvmError>(
                EvmError::StackUnderflow,
            ),
            self.in_args - 1 < old(context).sym_stack@.len() ==> r is Ok && final(context).sym_stack@
                == swap_seq(old(context).sym_stack@, self.in_args - 1) && final(context).pc
                == advance(old(context).pc as int, 1),
    {
        match context.sym_stack.sym_swap((self.in_args - 1) as usize) {
            Ok(()) => {
                context.pc = advance_pc(context.pc, 1);
                Ok(())
            },
            Err(e) => Err(e),
        }
    }

    /// Push the `bytecode_reads` immediate bytes as a concrete value and move
    /// past them.
    pub fn handle_push(&self, context: &mut EvmContext) -> (r: Result<(), EvmError>)
        requires
            old(context).sym_stack.wf(),
            old(context).pc < old(context).code@.len(),
            self.bytecode_reads <= 32,
        ensures
            final(context).sym_stack.wf(),
            same_but_stack_pc(final(context), old(context)),
            old(context).sym_stack@.len() >= STACK_CAPACITY ==> r == Err::<(), EvmError>(
                EvmError::StackOverflow,
            ),
            old(context).sym_stack@.len() < STACK_CAPACITY ==> r is Ok && final(context).sym_stack@
                == old(context).sym_stack@.push(
                concrete(
                    push_value(
                        old(context).code@,
                        old(context).pc as int,
                        self.bytecode_reads as int,
                    ),
                ),
            ) && final(context).pc == advance(old(context).pc as int, self.bytecode_reads + 1),
    {
        let word = read_immediate(&context.code, context.pc, self.bytecode_reads);
        let concrete_var = Term {
            sym_val: SymVal { value: word, kind: Kind::Concrete },
            args: Vec::new(),
        };
        proof {
            concrete_var.lemma_model();
            assert(concrete_var.model().args =~= concrete(word).args);
        }
        let ghost before = context.sym_stack.values@;
        match context.sym_stack.sym_push(concrete_var) {
            Ok(()) => {
                assert(models(before.push(concrete_var)) =~= models(before).push(
                    concrete_var.model(),
                ));
                context.pc = advance_pc(context.pc, self.bytecode_reads as usize + 1);
                Ok(())
            },
            Err(e) => Err(e),
        }
    }

    /// Jump to the concrete value on top of the stack, after popping and
    /// pushing as `handle_base`.
    pub fn handle_jump(&self, context: &mut EvmContext, sym_vals: &Vec<Term>) -> (r: Result<
        (),
        EvmError,
    >)
        requires
            old(context).sym_stack.wf(),
            sym_vals@.len() >= self.out_args,
            self.in_args >= 1,
        ensures
            final(context).sym_stack.wf(),
            same_but_stack_pc(final(context), old(context)),
            old(context).sym_stack@.len() == 0 ==> r == Err::<(), EvmError>(
                EvmError::StackUnderflow,
            ),
            old(context).sym_stack@.len() > 0 && is_sym(old(context).sym_stack@.last()) ==> r
                == Err::<(), EvmError>(EvmError::UnsupportedSymbolicJump),
            old(context).sym_stack@.len() == 0 || is_sym(old(context).sym_stack@.last()) ==> (
            final(context).sym_stack@ == old(context).sym_stack@ && final(context).pc == old(
                context,
            ).pc),
            old(context).sym_stack@.len() > 0 && !is_sym(old(context).sym_stack@.last()) ==> match pop_push(
                old(context).sym_stack@,
                self.in_args as int,
                models(sym_vals@).subrange(0, self.out_args as int),
            ) {
                Ok(st) => r is Ok && final(context).sym_stack@ == st && final(context).pc
                    == jump_dest(old(context).sym_stack@.last().sym_val.value),
                Err(e) => r == Err::<(), EvmError>(e),
            },
    {
        let top = match context.sym_stack.sym_top() {
            Ok(t) => t,
            Err(e) => return Err(e),
        };
        proof {
            top.lemma_model();
        }
        if top.sym_val.kind == Kind::Symbolic {
            return Err(EvmError::UnsupportedSymbolicJump);
        }
        match self.handle_base(context, sym_vals) {
            Ok(()) => {
                context.pc = jump_target(top.sym_val.value);
                Ok(())
            },
            Err(e) => Err(e),
        }
    }

    /// Pop and push as `handle_base`, then decide the conditional jump to
    /// the concrete value on top of the stack, whose condition `cond` lies
    /// directly below it.
    pub fn handle_jumpi(&self, context: &mut EvmContext, sym_vals: &Vec<Term>, cond: &Term) -> (r:
        Result<(), EvmError>)
        requires
            old(context).sym_stack.wf(),
            sym_vals@.len() >= self.out_args,
            self.in_args >= 2,
            old(context).sym_stack@.len() >= 2 ==> cond.model() == old(context).sym_stack@[old(
                context,
            ).sym_stack@.len() - 2],
        ensures
            final(context).sym_stack.wf(),
            old(context).sym_stack@.len() == 0 ==> r == Err::<(), EvmError>(
                EvmError::StackUnderflow,
            ),
            old(context).sym_stack@.len() > 0 && is_sym(old(context).sym_stack@.last()) ==> r
                == Err::<(), EvmError>(EvmError::UnsupportedSymbolicJump),
            old(context).sym_stack@.len() == 0 || is_sym(old(context).sym_stack@.last()) ==> (
            final(context).state() == old(context).state()),
            old(context).sym_stack@.len() > 0 && !is_sym(old(context).sym_stack@.last()) ==> match pop_push(
                old(context).sym_stack@,
                self.in_args as int,
                models(sym_vals@).subrange(0, self.out_args as int),
            ) {
                Ok(st) => r is Ok && final(context).state() == jumpi_next(
                    RunState { stack: st, ..old(context).state() },
                    cond.model(),
                    old(context).sym_stack@.last().sym_val.value,
                ),
                Err(e) => r == Err::<(), EvmError>(e) && same_but_stack_pc(final(context), old(context)),
            },
    {
        let top = match context.sym_stack.sym_top() {
            Ok(t) => t,
            Err(e) => {
                assert(context.state() =~= old(context).state());
                return Err(e);
            },
        };
        proof {
            top.lemma_model();
        }
        if top.sym_val.kind == Kind::Symbolic {
            assert(context.state() =~= old(context).state());
            return Err(EvmError::UnsupportedSymbolicJump);
        }
        match self.handle_base(context, sym_vals) {
            Ok(()) => {},
            Err(e) => return Err(e),
        }
        let ghost s2 = context.state();
        let target = top.sym_val.value;
        let new: Vec<Expr> = if is_extractable(cond) {
            term_to_expression(cond.clone())
        } else {
            Vec::new()
        };
        assert(new@ == condition_constraints(cond.model()));
        if new.len() == 0 {
            context.pc = advance_pc(context.pc, 1);
            assert(context.state() =~= RunState { pc: context.pc as int, ..s2 });
            return Ok(());
        }
        if not_taken_open(&context.constraints, &new) {
            context.pc = advance_pc(context.pc, 1);
            if new.len() == 1 {
                context.constraints.push(negate_expr(new[0]));
            }
            assert(context.state() =~= RunState {
                pc: context.pc as int,
                constraints: context.constraints@,
                ..s2
            });
            return Ok(());
        }
        let (open, with) = taken_open(&context.constraints, &new);
        if open {
            context.pc = jump_target(target);
            context.constraints = with;
            assert(context.state() =~= RunState {
                pc: context.pc as int,
                constraints: context.constraints@,
                ..s2
            });
            return Ok(());
        }
        context.pc = advance_pc(context.pc, 1);
        assert(context.state() =~= RunState { pc: context.pc as int, ..s2 });
        Ok(())
    }
}

} // verus!
