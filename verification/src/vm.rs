//! The stack machine: what a bytecode sequence does to an operand stack,
//! and the machine that runs it.

use crate::types::{apply, Binop, Instr};
use vstd::prelude::*;
use vstd::slice::slice_to_vec;

verus! {

/// The number of operands that an instruction takes from the stack.
pub open spec fn operands(i: Instr) -> nat {
    match i {
        Instr::II32(_) => 0,
        Instr::IPlus => 2,
        Instr::ITimes => 2,
    }
}

/// The stack after one instruction. The top of the stack is the right
/// operand, the value below it the left one.
pub open spec fn step(i: Instr, st: Seq<i32>) -> Seq<i32>
    recommends
        operands(i) <= st.len(),
{
    let n = st.len() as int;
    match i {
        Instr::II32(v) => st.push(v),
        Instr::IPlus => st.take(n - 2).push(apply(Binop::BPlus, st[n - 2], st[n - 1])),
        Instr::ITimes => st.take(n - 2).push(apply(Binop::BTimes, st[n - 2], st[n - 1])),
    }
}

/// Whether the instructions can run on the stack without ever taking an
/// operand that is not there.
pub open spec fn runs(instrs: Seq<Instr>, st: Seq<i32>) -> bool
    decreases instrs.len(),
{
    instrs.len() == 0 || (operands(instrs[0]) <= st.len() && runs(
        instrs.drop_first(),
        step(instrs[0], st),
    ))
}

/// The stack after all the instructions, run in order.
pub open spec fn exec(instrs: Seq<Instr>, st: Seq<i32>) -> Seq<i32>
    decreases instrs.len(),
{
    if instrs.len() == 0 {
        st
    } else {
        exec(instrs.drop_first(), step(instrs[0], st))
    }
}

/// The depth of the stack after the instructions, started at the depth
/// `d`; nothing where an instruction lacks an operand.
pub open spec fn depth_after(instrs: Seq<Instr>, d: nat) -> Option<nat>
    decreases instrs.len(),
{
    if instrs.len() == 0 {
        Some(d)
    } else if operands(instrs[0]) <= d {
        depth_after(instrs.drop_first(), (d + 1 - operands(instrs[0])) as nat)
    } else {
        None
    }
}

/// Whether instructions can run depends on the depth of the stack alone,
/// and so does the depth that they leave.
pub proof fn lemma_depth(instrs: Seq<Instr>, st: Seq<i32>)
    ensures
        runs(instrs, st) == depth_after(instrs, st.len()).is_some(),
        runs(instrs, st) ==> depth_after(instrs, st.len()) == Some(exec(instrs, st).len()),
    decreases instrs.len(),
{
    if instrs.len() > 0 && operands(instrs[0]) <= st.len() {
        lemma_depth(instrs.drop_first(), step(instrs[0], st));
    }
}

/// A stack machine: the instructions, the operand stack, and the index of
/// the next instruction.
#[derive(Debug)]
pub struct VM {
    pub stack: Vec<i32>,
    pub instrs: Vec<Instr>,
    pub pc: usize,
}

impl VM {
    /// The instructions that are still to run.
    pub open spec fn pending(&self) -> Seq<Instr> {
        self.instrs@.skip(self.pc as int)
    }

    /// Whether `run` can be called: the counter is in range, no pending
    /// instruction lacks an operand, and a value is left at the end.
    pub open spec fn ready(&self) -> bool {
        &&& self.pc <= self.instrs@.len()
        &&& runs(self.pending(), self.stack@)
        &&& exec(self.pending(), self.stack@).len() > 0
    }

    /// Tells whether `run` can be called.
    pub fn ready_to_run(&self) -> (b: bool)
        ensures
            b == self.ready(),
    {
        if self.pc > self.instrs.len() {
            return false;
        }
        let mut depth: u128 = self.stack.len() as u128;
        let mut i: usize = self.pc;
        proof {
            lemma_depth(self.pending(), self.stack@);
        }
        while i < self.instrs.len()
            invariant
                self.pc <= i <= self.instrs@.len(),
                self.stack@.len() <= usize::MAX,
                depth <= self.stack@.len() + (i - self.pc),
                self.ready() == (depth_after(self.pending(), self.stack@.len()).is_some()
                    && depth_after(self.pending(), self.stack@.len())->0 > 0),
                depth_after(self.instrs@.skip(i as int), depth as nat) == depth_after(
                    self.pending(),
                    self.stack@.len(),
                ),
            decreases self.instrs@.len() - i,
        {
            proof {
                assert(self.instrs@.skip(i as int).drop_first() == self.instrs@.skip(i + 1));
                assert(self.instrs@.skip(i as int)[0] == self.instrs@[i as int]);
            }
            match self.instrs[i] {
                Instr::II32(_) => {
                    depth = depth + 1;
                },
                _ => {
                    if depth < 2 {
                        return false;
                    }
                    depth = depth - 1;
                },
            }
            i = i + 1;
        }
        depth > 0
    }

    /// A machine at the start of `instrs`, with an empty stack.
    pub fn init(instrs: &[Instr]) -> (vm: VM)
        ensures
            vm.stack@ == Seq::<i32>::empty(),
            vm.instrs@ == instrs@,
            vm.pc == 0,
    {
        VM { stack: Vec::new(), instrs: slice_to_vec(instrs), pc: 0 }
    }

    /// Runs the pending instructions to the end and returns the top of the
    /// stack.
    pub fn run(&mut self) -> (r: Option<i32>)
        requires
            old(self).ready(),
        ensures
            final(self).instrs@ == old(self).instrs@,
            final(self).pc == old(self).instrs@.len(),
            final(self).stack@ == exec(old(self).pending(), old(self).stack@),
            r == Some(final(self).stack@.last()),
    {
        while self.pc < self.instrs.len()
            invariant
                self.instrs@ == old(self).instrs@,
                self.pc <= self.instrs@.len(),
                runs(self.pending(), self.stack@),
                exec(self.pending(), self.stack@) == exec(old(self).pending(), old(self).stack@),
            decreases self.instrs@.len() - self.pc,
        {
            proof {
                assert(self.pending().drop_first() == self.instrs@.skip(self.pc + 1));
                assert(self.pending()[0] == self.instrs@[self.pc as int]);
            }
            let ghost before = self.stack@;
            match self.instrs[self.pc] {
                Instr::IPlus => {
                    let v2 = self.stack.pop().unwrap();
                    let v1 = self.stack.pop().unwrap();
                    self.stack.push(v1.wrapping_add(v2));
                },
                Instr::ITimes => {
                    let v2 = self.stack.pop().unwrap();
                    let v1 = self.stack.pop().unwrap();
                    self.stack.push(v1.wrapping_mul(v2));
                },
                Instr::II32(i) => {
                    self.stack.push(i);
                },
            }
            assert(self.stack@ == step(self.instrs@[self.pc as int], before));
            self.pc = self.pc + 1;
        }
        let res = self.stack[self.stack.len() - 1];
        Some(res)
    }
}

} // verus!
