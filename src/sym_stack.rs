//! Terms, difference-logic constraints and the bounded symbolic stack.
use vstd::prelude::*;

use crate::error::EvmError;

verus! {

/// Whether a value is a known literal or an expression over unknown inputs.
#[derive(Clone, Copy, PartialEq, Eq, Debug, Structural)]
pub enum Kind {
    Concrete,
    Symbolic,
}

/// The tag of a term: a literal value for a concrete term, the opcode that
/// produced it for a symbolic one.
#[derive(Clone, Copy, PartialEq, Eq, Debug, Structural)]
pub struct SymVal {
    pub value: u64,
    pub kind: Kind,
}

/// A symbolic or concrete value: a node of an expression tree whose operands
/// are listed nearest-to-top-of-stack first.
#[derive(Debug)]
pub struct Term {
    pub sym_val: SymVal,
    pub args: Vec<Term>,
}

/// The mathematical content of a `Term`.
pub struct TermModel {
    pub sym_val: SymVal,
    pub args: Seq<TermModel>,
}

impl Term {
    /// The tree this term denotes.
    pub open spec fn model(&self) -> TermModel
        decreases self,
    {
        TermModel {
            sym_val: self.sym_val,
            args: Seq::new(
                self.args@.len(),
                |i: int|
                    if 0 <= i < self.args@.len() {
                        self.args@[i].model()
                    } else {
                        TermModel { sym_val: self.sym_val, args: Seq::empty() }
                    },
            ),
        }
    }

    /// One level of the model: its tag, and the models of its operands.
    pub proof fn lemma_model(&self)
        ensures
            self.model().sym_val == self.sym_val,
            self.model().args.len() == self.args@.len(),
            forall|i: int|
                0 <= i < self.args@.len() ==> #[trigger] self.model().args[i]
                    == self.args@[i].model(),
            forall|i: int|
                0 <= i < self.args@.len() ==> #[trigger] self.model().args[i].sym_val
                    == self.args@[i].sym_val,
    {
        assert forall|i: int| 0 <= i < self.args@.len() implies #[trigger] self.model().args[i].sym_val
            == self.args@[i].sym_val by {
            assert(self.args@[i].model().sym_val == self.args@[i].sym_val);
        }
    }
}

impl Clone for Term {
    fn clone(&self) -> (r: Self)
        ensures
            r.model() == self.model(),
        decreases self,
    {
        let mut args: Vec<Term> = Vec::new();
        let mut i: usize = 0;
        while i < self.args.len()
            invariant
                i <= self.args@.len(),
                args@.len() == i,
                forall|j: int| 0 <= j < i ==> (#[trigger] args@[j]).model() == self.args@[j].model(),
            decreases self.args@.len() - i,
        {
            proof {
                assert(decreases_to!(self => self.args@[i as int]));
            }
            let a = self.args[i].clone();
            args.push(a);
            i += 1;
        }
        let r = Term { sym_val: self.sym_val, args };
        assert(r.model().args =~= self.model().args);
        r
    }
}

/// An integer bound.
#[derive(Clone, Copy, PartialEq, Eq, Debug, Structural)]
pub struct Constant(pub i64);

/// A difference-logic variable, named by its id.
#[derive(Clone, Copy, PartialEq, Eq, Debug, Structural)]
pub struct Variable(pub u64);

/// A difference-logic constraint `a - b <= k`.
#[derive(Clone, Copy, PartialEq, Eq, Debug, Structural)]
pub struct Expr {
    pub a: Variable,
    pub b: Variable,
    pub k: Constant,
}

/// The number of items the stack can hold.
pub const STACK_CAPACITY: usize = 1024;

/// The models of a sequence of terms.
pub open spec fn models(s: Seq<Term>) -> Seq<TermModel> {
    Seq::new(s.len(), |i: int| s[i].model())
}

/// Pushing a term pushes its model.
pub proof fn lemma_models_push(s: Seq<Term>, t: Term)
    ensures
        models(s.push(t)) == models(s).push(t.model()),
{
    assert(models(s.push(t)) =~= models(s).push(t.model()));
}

/// `s` with a copy of its `n`-th item from the top pushed on top.
pub open spec fn dup_seq<A>(s: Seq<A>, n: int) -> Seq<A> {
    s.push(s[s.len() - n])
}

/// `s` with its top item and the item `n` slots below it exchanged.
pub open spec fn swap_seq<A>(s: Seq<A>, n: int) -> Seq<A> {
    let t = s.len() - 1;
    s.update(t, s[t - n]).update(t - n, s[t])
}

/// A bounded LIFO store of terms; the last item of `values` is the top.
pub struct EvmSymStack {
    pub values: Vec<Term>,
}

impl View for EvmSymStack {
    type V = Seq<TermModel>;

    open spec fn view(&self) -> Seq<TermModel> {
        models(self.values@)
    }
}

impl EvmSymStack {
    /// The depth never exceeds the capacity.
    pub open spec fn wf(&self) -> bool {
        self.values@.len() <= STACK_CAPACITY
    }

    /// An empty stack.
    pub fn new() -> (r: Self)
        ensures
            r.wf(),
            r.values@.len() == 0,
    {
        EvmSymStack { values: Vec::new() }
    }

    /// The number of items on the stack.
    pub fn depth(&self) -> (r: usize)
        ensures
            r == self.values@.len(),
    {
        self.values.len()
    }

    /// Retrieve a copy of the value at the top of the stack.
    pub fn sym_top(&self) -> (r: Result<Term, EvmError>)
        ensures
            match r {
                Ok(t) => self@.len() > 0 && t.model() == self@.last(),
                Err(e) => self@.len() == 0 && e == EvmError::StackUnderflow,
            },
    {
        let n = self.values.len();
        if n == 0 {
            return Err(EvmError::StackUnderflow);
        }
        Ok(self.values[n - 1].clone())
    }

    /// Push a new value onto the top of the stack.
    pub fn sym_push(&mut self, term: Term) -> (r: Result<(), EvmError>)
        requires
            old(self).wf(),
        ensures
            final(self).wf(),
            old(self).values@.len() < STACK_CAPACITY ==> r is Ok && final(self).values@
                == old(self).values@.push(term),
            old(self).values@.len() >= STACK_CAPACITY ==> r == Err::<(), EvmError>(
                EvmError::StackOverflow,
            ) && final(self).values@ == old(self).values@,
    {
        if self.values.len() >= STACK_CAPACITY {
            return Err(EvmError::StackOverflow);
        }
        self.values.push(term);
        Ok(())
    }

    /// Pop a value off of the top of the stack.
    pub fn sym_pop(&mut self) -> (r: Result<(), EvmError>)
        requires
            old(self).wf(),
        ensures
            final(self).wf(),
            old(self).values@.len() > 0 ==> r is Ok && final(self).values@
                == old(self).values@.drop_last(),
            old(self).values@.len() == 0 ==> r == Err::<(), EvmError>(EvmError::StackUnderflow)
                && final(self).values@ == old(self).values@,
    {
        if self.values.len() == 0 {
            return Err(EvmError::StackUnderflow);
        }
        self.values.pop();
        Ok(())
    }

    /// Duplicate the item `n` slots from the top (the top is slot 1) onto the top.
    pub fn sym_dup(&mut self, n: u8) -> (r: Result<(), EvmError>)
        requires
            old(self).wf(),
        ensures
            final(self).wf(),
            r is Err ==> final(self).values@ == old(self).values@,
            old(self)@.len() >= STACK_CAPACITY ==> r == Err::<(), EvmError>(
                EvmError::StackOverflow,
            ),
            old(self)@.len() < STACK_CAPACITY && !(1 <= n <= 16) ==> r == Err::<(), EvmError>(
                EvmError::InvalidArgument,
            ),
            old(self)@.len() < STACK_CAPACITY && 1 <= n <= 16 && old(self)@.len() < n ==> r
                == Err::<(), EvmError>(EvmError::StackUnderflow),
            old(self)@.len() < STACK_CAPACITY && 1 <= n <= 16 && n <= old(self)@.len() ==> r is Ok
                && final(self)@ == dup_seq(old(self)@, n as int),
    {
        let depth = self.values.len();
        if depth >= STACK_CAPACITY {
            return Err(EvmError::StackOverflow);
        }
        if n < 1 || n > 16 {
            return Err(EvmError::InvalidArgument);
        }
        if depth < n as usize {
            return Err(EvmError::StackUnderflow);
        }
        let to_duplicate = self.values[depth - n as usize].clone();
        self.values.push(to_duplicate);
        assert(self@ =~= dup_seq(old(self)@, n as int));
        Ok(())
    }

    /// Exchange the top item with the item `n` slots below it.
    pub fn sym_swap(&mut self, n: usize) -> (r: Result<(), EvmError>)
        requires
            old(self).wf(),
        ensures
            final(self).wf(),
            r is Err ==> final(self).values@ == old(self).values@,
            !(1 <= n <= 16) ==> r == Err::<(), EvmError>(EvmError::InvalidArgument),
            1 <= n <= 16 && old(self)@.len() <= n ==> r == Err::<(), EvmError>(
                EvmError::StackUnderflow,
            ),
            1 <= n <= 16 && n < old(self)@.len() ==> r is Ok && final(self).values@ == swap_seq(
                old(self).values@,
                n as int,
            ) && final(self)@ == swap_seq(old(self)@, n as int),
    {
        if n < 1 || n > 16 {
            return Err(EvmError::InvalidArgument);
        }
        let depth = self.values.len();
        if depth <= n {
            return Err(EvmError::StackUnderflow);
        }
        let ghost pre = self.values@;
        let mut top = self.values.pop().unwrap();
        std::mem::swap(&mut self.values[depth - 1 - n], &mut top);
        self.values.push(top);
        assert(self.values@ =~= swap_seq(pre, n as int));
        assert(self@ =~= swap_seq(old(self)@, n as int));
        Ok(())
    }
}

/// Duplicating the `n`-th item and then swapping the top with the item `n`
/// slots below it leaves the stack as the dup alone left it: every item that
/// was there before the dup is unchanged, the previous top sits directly under
/// the new top, and the new top is a copy of the `n`-th item.
pub proof fn lemma_dup_then_swap<A>(s: Seq<A>, n: int)
    requires
        1 <= n <= 16,
        n <= s.len(),
    ensures
        swap_seq(dup_seq(s, n), n) == dup_seq(s, n),
        swap_seq(dup_seq(s, n), n).len() == s.len() + 1,
        forall|i: int| 0 <= i < s.len() ==> #[trigger] swap_seq(dup_seq(s, n), n)[i] == s[i],
        swap_seq(dup_seq(s, n), n)[s.len() - 1] == s.last(),
        swap_seq(dup_seq(s, n), n)[s.len() as int] == s[s.len() - n],
{
    assert(swap_seq(dup_seq(s, n), n) =~= dup_seq(s, n));
}

} // verus!
