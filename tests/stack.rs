use evm_symex::error::EvmError;
use evm_symex::sym_stack::{EvmSymStack, Kind, SymVal, Term};

fn lit(v: u64) -> Term {
    Term { sym_val: SymVal { value: v, kind: Kind::Concrete }, args: vec![] }
}

fn values(s: &EvmSymStack) -> Vec<u64> {
    s.values.iter().map(|t| t.sym_val.value).collect()
}

#[test]
fn push_pop_top() {
    let mut s = EvmSymStack::new();
    assert_eq!(s.sym_top().unwrap_err(), EvmError::StackUnderflow);
    s.sym_push(lit(7)).unwrap();
    s.sym_push(lit(9)).unwrap();
    assert_eq!(s.depth(), 2);
    assert_eq!(s.sym_top().unwrap().sym_val.value, 9);
    s.sym_pop().unwrap();
    assert_eq!(s.sym_top().unwrap().sym_val.value, 7);
    assert_eq!(s.depth(), 1);
}

#[test]
fn push_beyond_capacity_overflows() {
    let mut s = EvmSymStack::new();
    for i in 0..1024u64 {
        assert!(s.sym_push(lit(i)).is_ok());
    }
    assert_eq!(s.sym_push(lit(1024)), Err(EvmError::StackOverflow));
    assert_eq!(s.depth(), 1024);
    assert_eq!(s.sym_dup(1), Err(EvmError::StackOverflow));
}

#[test]
fn pop_empty_underflows() {
    let mut s = EvmSymStack::new();
    assert_eq!(s.sym_pop(), Err(EvmError::StackUnderflow));
    assert_eq!(s.depth(), 0);
}

#[test]
fn dup_copies_nth_item() {
    let mut s = EvmSymStack::new();
    for v in [1u64, 2, 3] {
        s.sym_push(lit(v)).unwrap();
    }
    s.sym_dup(3).unwrap();
    assert_eq!(values(&s), vec![1, 2, 3, 1]);
    s.sym_dup(1).unwrap();
    assert_eq!(values(&s), vec![1, 2, 3, 1, 1]);
}

#[test]
fn dup_rejects_bad_depths() {
    let mut s = EvmSymStack::new();
    s.sym_push(lit(1)).unwrap();
    assert_eq!(s.sym_dup(0), Err(EvmError::InvalidArgument));
    assert_eq!(s.sym_dup(17), Err(EvmError::InvalidArgument));
    assert_eq!(s.sym_dup(2), Err(EvmError::StackUnderflow));
    assert_eq!(values(&s), vec![1]);
}

#[test]
fn swap_exchanges_top_with_nth_below() {
    let mut s = EvmSymStack::new();
    for v in [1u64, 2, 3, 4] {
        s.sym_push(lit(v)).unwrap();
    }
    s.sym_swap(1).unwrap();
    assert_eq!(values(&s), vec![1, 2, 4, 3]);
    s.sym_swap(3).unwrap();
    assert_eq!(values(&s), vec![3, 2, 4, 1]);
}

#[test]
fn swap_rejects_bad_depths() {
    let mut s = EvmSymStack::new();
    s.sym_push(lit(1)).unwrap();
    s.sym_push(lit(2)).unwrap();
    assert_eq!(s.sym_swap(0), Err(EvmError::InvalidArgument));
    assert_eq!(s.sym_swap(17), Err(EvmError::InvalidArgument));
    assert_eq!(s.sym_swap(2), Err(EvmError::StackUnderflow));
    assert_eq!(values(&s), vec![1, 2]);
}

#[test]
fn dup_then_swap_round_trip() {
    let mut s = EvmSymStack::new();
    for v in [10u64, 20, 30] {
        s.sym_push(lit(v)).unwrap();
    }
    s.sym_dup(2).unwrap();
    s.sym_swap(2).unwrap();
    assert_eq!(values(&s), vec![10, 20, 30, 20]);
    let mut t = EvmSymStack::new();
    for v in [10u64, 20] {
        t.sym_push(lit(v)).unwrap();
    }
    t.sym_dup(2).unwrap();
    t.sym_swap(2).unwrap();
    // the two items on top are the previous top pair, exchanged
    assert_eq!(values(&t), vec![10, 20, 10]);
}

#[test]
fn clone_copies_the_whole_tree() {
    let t = Term {
        sym_val: SymVal { value: 0x01, kind: Kind::Symbolic },
        args: vec![lit(1), lit(2)],
    };
    let c = t.clone();
    assert_eq!(c.sym_val, t.sym_val);
    assert_eq!(c.args.len(), 2);
    assert_eq!(c.args[1].sym_val.value, 2);
}
