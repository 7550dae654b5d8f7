use evm_symex::driver::{execute, run, search_path, step};
use evm_symex::error::EvmError;
use evm_symex::handlers::{lookup, sym_handlers, EvmContext, HandlerType, OpcodeHandler};
use evm_symex::sym_stack::{Constant, Expr, Kind, Variable};

#[test]
fn add_is_recorded_not_folded() {
    let mut ctx = EvmContext::new(vec![0x60, 0x01, 0x60, 0x01, 0x01, 0x00]);
    assert_eq!(execute(&mut ctx), Ok(1));
    assert_eq!(ctx.pc, 5);
    assert_eq!(ctx.sym_stack.values.len(), 1);
    let top = &ctx.sym_stack.values[0];
    assert_eq!(top.sym_val.kind, Kind::Symbolic);
    assert_eq!(top.sym_val.value, 0x01);
    assert_eq!(top.args.len(), 2);
    for a in &top.args {
        assert_eq!(a.sym_val.kind, Kind::Concrete);
        assert_eq!(a.sym_val.value, 1);
    }
    assert_eq!(run(vec![0x60, 0x01, 0x60, 0x01, 0x01, 0x00]), Ok(1));
}

#[test]
fn push_reads_big_endian() {
    let mut ctx = EvmContext::new(vec![0x61, 0x12, 0x34, 0x00]);
    assert_eq!(execute(&mut ctx), Ok(1));
    let top = ctx.sym_stack.sym_top().unwrap();
    assert_eq!(top.sym_val.kind, Kind::Concrete);
    assert_eq!(top.sym_val.value, 0x1234);
}

#[test]
fn push32_keeps_low_64_bits() {
    let mut code = vec![0x7f];
    code.extend((1..=32u8).collect::<Vec<u8>>());
    code.push(0x00);
    let mut ctx = EvmContext::new(code);
    assert_eq!(execute(&mut ctx), Ok(1));
    let top = ctx.sym_stack.sym_top().unwrap();
    assert_eq!(top.sym_val.value, 0x191a1b1c1d1e1f20);
}

#[test]
fn push_past_end_reads_zeros() {
    let mut ctx = EvmContext::new(vec![0x62, 0xab]);
    assert_eq!(execute(&mut ctx), Ok(1));
    assert_eq!(ctx.sym_stack.sym_top().unwrap().sym_val.value, 0xab0000);
    assert_eq!(ctx.pc, 4);
}

#[test]
fn loop_halts_at_first_repeat() {
    // JUMPDEST; PUSH1 0; JUMP
    let mut ctx = EvmContext::new(vec![0x5b, 0x60, 0x00, 0x56]);
    assert_eq!(execute(&mut ctx), Ok(1));
    assert_eq!(ctx.path, vec![0, 1, 3]);
    assert_eq!(ctx.pc, 0);
}

#[test]
fn symbolic_jump_is_unsupported() {
    assert_eq!(run(vec![0x33, 0x56]), Err(EvmError::UnsupportedSymbolicJump));
    assert_eq!(run(vec![0x60, 0x01, 0x33, 0x57]), Err(EvmError::UnsupportedSymbolicJump));
}

#[test]
fn underflow_abandons_the_run() {
    assert_eq!(run(vec![0x01]), Err(EvmError::StackUnderflow));
    assert_eq!(run(vec![0x80]), Err(EvmError::StackUnderflow));
    assert_eq!(run(vec![0x60, 0x01, 0x90]), Err(EvmError::StackUnderflow));
}

#[test]
fn dup_and_swap_opcodes() {
    // PUSH1 1; PUSH1 2; DUP2; SWAP1; STOP
    let mut ctx = EvmContext::new(vec![0x60, 0x01, 0x60, 0x02, 0x81, 0x90, 0x00]);
    assert_eq!(execute(&mut ctx), Ok(1));
    let v: Vec<u64> = ctx.sym_stack.values.iter().map(|t| t.sym_val.value).collect();
    assert_eq!(v, vec![1, 1, 2]);
}

#[test]
fn empty_code_and_jump_past_end() {
    assert_eq!(run(vec![]), Ok(1));
    assert_eq!(run(vec![0x60, 0xff, 0x56]), Ok(1));
}

#[test]
fn jump_moves_pc() {
    let mut ctx = EvmContext::new(vec![0x60, 0x04, 0x56, 0xfe, 0x5b, 0x00]);
    assert_eq!(execute(&mut ctx), Ok(1));
    assert_eq!(ctx.path, vec![0, 2, 4, 5]);
}

#[test]
fn jumpi_falls_through_and_records_the_negation() {
    // CALLVALUE; PUSH1 5; LT; PUSH1 0x20; JUMPI; STOP
    let mut ctx = EvmContext::new(vec![0x34, 0x60, 0x05, 0x10, 0x60, 0x20, 0x57, 0x00]);
    assert_eq!(execute(&mut ctx), Ok(1));
    assert_eq!(ctx.pc, 7);
    let c = Expr { a: Variable(0x34), b: Variable(0), k: Constant(5) };
    assert_eq!(ctx.constraints, vec![c]);
}

#[test]
fn jumpi_prunes_an_infeasible_fall_through() {
    let code = vec![
        0x34, 0x60, 0x05, 0x10, 0x60, 0x20, 0x57, // callvalue <= 5 on fall-through
        0x60, 0x0a, 0x34, 0x10, 0x60, 0x10, 0x57, // callvalue < 10 must hold: jump
        0x00, 0x00, 0x5b, 0xfe,
    ];
    let mut ctx = EvmContext::new(code);
    assert_eq!(execute(&mut ctx), Ok(1));
    assert_eq!(ctx.pc, 17);
    let c1 = Expr { a: Variable(0x34), b: Variable(0), k: Constant(5) };
    let c2 = Expr { a: Variable(0x34), b: Variable(0), k: Constant(9) };
    assert_eq!(ctx.constraints, vec![c1, c2]);
}

#[test]
fn jumpi_with_opaque_condition_falls_through() {
    // PUSH1 1; PUSH1 2; LT (constants); PUSH1 9; JUMPI; STOP
    let mut ctx = EvmContext::new(vec![0x60, 0x01, 0x60, 0x02, 0x10, 0x60, 0x09, 0x57, 0x00]);
    assert_eq!(execute(&mut ctx), Ok(1));
    assert_eq!(ctx.pc, 8);
    assert!(ctx.constraints.is_empty());
}

#[test]
fn step_by_step() {
    let table = sym_handlers();
    let mut ctx = EvmContext::new(vec![0x60, 0x07, 0x50, 0x00]);
    assert_eq!(step(&mut ctx, &table), Ok(None));
    assert_eq!(ctx.pc, 2);
    assert_eq!(step(&mut ctx, &table), Ok(None));
    assert_eq!(ctx.sym_stack.values.len(), 0);
    assert_eq!(step(&mut ctx, &table), Ok(Some(1)));
}

#[test]
fn terminating_opcodes_pop_their_operands() {
    let mut ctx = EvmContext::new(vec![0x60, 0x00, 0x60, 0x00, 0xf3]);
    assert_eq!(execute(&mut ctx), Ok(1));
    assert!(ctx.sym_stack.values.is_empty());
    assert_eq!(run(vec![0xfd]), Err(EvmError::StackUnderflow));
}

#[test]
fn descriptor_table() {
    let t = sym_handlers();
    assert_eq!(t[0x00], OpcodeHandler::new(HandlerType::Terminating, 0, 0, 0));
    assert_eq!(t[0x01], OpcodeHandler::new(HandlerType::Unimplemented, 2, 1, 0));
    assert_eq!(t[0x56], OpcodeHandler::new(HandlerType::Jump, 1, 0, 0));
    assert_eq!(t[0x57], OpcodeHandler::new(HandlerType::JumpI, 2, 0, 0));
    assert_eq!(t[0x60], OpcodeHandler::new(HandlerType::Push, 0, 1, 1));
    assert_eq!(t[0x7f], OpcodeHandler::new(HandlerType::Push, 0, 1, 32));
    assert_eq!(t[0x8f], OpcodeHandler::new(HandlerType::Dup, 16, 17, 0));
    assert_eq!(t[0x90], OpcodeHandler::new(HandlerType::Swap, 2, 2, 0));
    assert_eq!(t[0xa4], OpcodeHandler::new(HandlerType::Unimplemented, 6, 0, 0));
    assert_eq!(t[0xf1], OpcodeHandler::new(HandlerType::Unimplemented, 7, 1, 0));
    assert_eq!(t[0xff], OpcodeHandler::new(HandlerType::Terminating, 1, 0, 0));
    assert_eq!(t[0x0c], OpcodeHandler::new(HandlerType::Unimplemented, 0, 0, 0));
    assert_eq!(t[0xef], OpcodeHandler::new(HandlerType::Unimplemented, 0, 0, 0));
    for op in 0..=255u8 {
        assert_eq!(t[op as usize], lookup(op));
    }
}

#[test]
fn search_path_finds_visited_pcs() {
    assert!(search_path(&[0, 3, 5], &3));
    assert!(!search_path(&[0, 3, 5], &4));
    assert!(!search_path(&[], &0));
}

#[test]
fn selector_dispatch_keeps_both_arms_open() {
    // PUSH1 0; CALLDATALOAD; PUSH4 sel; EQ; PUSH1 0x0f; JUMPI; STOP
    let code = vec![0x60, 0x00, 0x35, 0x63, 0xa9, 0x05, 0x9c, 0xbb, 0x14, 0x60, 0x0f, 0x57, 0x00];
    let mut ctx = EvmContext::new(code);
    assert_eq!(execute(&mut ctx), Ok(1));
    assert_eq!(ctx.pc, 12);
    assert!(ctx.constraints.is_empty());
}

#[test]
fn jump_past_end_sets_pc_to_target() {
    let mut ctx = EvmContext::new(vec![0x60, 0xff, 0x56]);
    assert_eq!(execute(&mut ctx), Ok(1));
    assert_eq!(ctx.pc, 0xff);
}

#[test]
fn taken_jump_past_end_sets_pc_to_target() {
    // the fall-through arm needs callvalue >= 10 beside callvalue <= 5
    let code = vec![
        0x34, 0x60, 0x05, 0x10, 0x60, 0x20, 0x57, 0x60, 0x0a, 0x34, 0x10, 0x60, 0xf0, 0x57, 0x00,
    ];
    let mut ctx = EvmContext::new(code);
    assert_eq!(execute(&mut ctx), Ok(1));
    assert_eq!(ctx.pc, 0xf0);
}

#[test]
fn jumpi_with_contradictory_constraints_falls_through() {
    let c = |a: u64, b: u64, k: i64| Expr { a: Variable(a), b: Variable(b), k: Constant(k) };
    // CALLVALUE; PUSH1 5; LT; PUSH1 0x20; JUMPI; STOP
    let mut ctx = EvmContext::new(vec![0x34, 0x60, 0x05, 0x10, 0x60, 0x20, 0x57, 0x00]);
    ctx.constraints = vec![c(1, 2, -1), c(2, 1, -1)];
    assert_eq!(execute(&mut ctx), Ok(1));
    assert_eq!(ctx.pc, 7);
    assert_eq!(ctx.constraints, vec![c(1, 2, -1), c(2, 1, -1)]);
}

#[test]
fn symbolic_jump_leaves_the_context_alone() {
    let table = sym_handlers();
    let mut ctx = EvmContext::new(vec![0x33, 0x56]);
    assert_eq!(step(&mut ctx, &table), Ok(None));
    assert_eq!(step(&mut ctx, &table), Err(EvmError::UnsupportedSymbolicJump));
    assert_eq!(ctx.sym_stack.values.len(), 1);
}
