//! The compiler from expressions to bytecode, and the proof that the
//! compiled code computes the expression's value.

use crate::parser::parsed;
use crate::types::{value, Binop, Exp, Instr, Interp};
use crate::vm::{exec, operands, runs, step, VM};
use vstd::prelude::*;

verus! {

/// The instruction that applies an operator.
pub open spec fn op_instr(op: Binop) -> Instr {
    match op {
        Binop::BPlus => Instr::IPlus,
        Binop::BTimes => Instr::ITimes,
    }
}

/// The bytecode of an expression: a literal is one push; an operation is
/// the code of the left operand, then that of the right one, then the
/// operator's instruction.
pub open spec fn code(e: Exp) -> Seq<Instr>
    decreases e,
{
    match e {
        Exp::EI32(i) => seq![Instr::II32(i)],
        Exp::EBinop(b) => code(b.lhs) + code(b.rhs) + seq![op_instr(b.op)],
    }
}

/// Running `a` and then `b` is running `a + b`.
pub proof fn lemma_exec_concat(a: Seq<Instr>, b: Seq<Instr>, st: Seq<i32>)
    requires
        runs(a, st),
    ensures
        runs(a + b, st) == runs(b, exec(a, st)),
        exec(a + b, st) == exec(b, exec(a, st)),
    decreases a.len(),
{
    if a.len() == 0 {
        assert(a + b == b);
    } else {
        assert((a + b).drop_first() == a.drop_first() + b);
        assert((a + b)[0] == a[0]);
        lemma_exec_concat(a.drop_first(), b, step(a[0], st));
    }
}

/// The code of an expression runs on every stack, and leaves that stack
/// with the expression's value pushed on top of it.
pub proof fn lemma_code_pushes_value(e: Exp, st: Seq<i32>)
    ensures
        runs(code(e), st),
        exec(code(e), st) == st.push(value(e)),
    decreases e,
{
    match e {
        Exp::EI32(i) => {
            let c = code(e);
            assert(c.drop_first().len() == 0);
            assert(runs(c.drop_first(), step(c[0], st)));
            assert(exec(c.drop_first(), step(c[0], st)) == step(c[0], st));
        },
        Exp::EBinop(b) => {
            let l = code(b.lhs);
            let r = code(b.rhs);
            let o = seq![op_instr(b.op)];
            let s1 = st.push(value(b.lhs));
            let s2 = s1.push(value(b.rhs));
            lemma_code_pushes_value(b.lhs, st);
            lemma_code_pushes_value(b.rhs, s1);
            lemma_exec_concat(l, r, st);
            lemma_exec_concat(l + r, o, st);
            assert(o.drop_first().len() == 0);
            assert(operands(o[0]) <= s2.len());
            assert(s2.take(s2.len() - 2) == st);
            assert(step(o[0], s2) == st.push(value(e)));
            assert(runs(o.drop_first(), step(o[0], s2)));
            assert(runs(o, s2));
            assert(exec(o.drop_first(), step(o[0], s2)) == step(o[0], s2));
            assert(exec(o, s2) == st.push(value(e)));
        },
    }
}

/// The interpreter and the stack machine agree: a machine started on the
/// code of an expression can run, and halts with the expression's value as
/// the only entry of its stack.
pub proof fn lemma_interp_vm_agree(e: Exp, vm: VM)
    requires
        vm.instrs@ == code(e),
        vm.stack@.len() == 0,
        vm.pc == 0,
    ensures
        vm.ready(),
        exec(vm.pending(), vm.stack@) == seq![e.meaning()],
{
    lemma_code_pushes_value(e, vm.stack@);
    assert(vm.pending() == code(e));
    assert(vm.stack@.push(value(e)) == seq![value(e)]);
}

/// The two ways of evaluating a program agree: where a text parses, a
/// machine started on the code of its tree can run, and halts with the
/// value that the interpreter gives the tree as the only entry of its
/// stack.
pub proof fn lemma_backends_agree(text: Seq<char>, vm: VM)
    requires
        parsed(text) is Ok,
        vm.instrs@ == code(parsed(text)->Ok_0),
        vm.stack@.len() == 0,
        vm.pc == 0,
    ensures
        vm.ready(),
        exec(vm.pending(), vm.stack@) == seq![parsed(text)->Ok_0.meaning()],
{
    lemma_interp_vm_agree(parsed(text)->Ok_0, vm);
}

/// Compiles an expression to bytecode.
pub fn compile(e: &Exp) -> (is: Vec<Instr>)
    ensures
        is@ == code(*e),
    decreases e,
{
    match e {
        Exp::EI32(i) => {
            let mut is = Vec::new();
            is.push(Instr::II32(*i));
            assert(is@ == seq![Instr::II32(*i)]);
            is
        },
        Exp::EBinop(b) => {
            let mut is = compile(&b.lhs);
            let mut is_rhs = compile(&b.rhs);
            is.append(&mut is_rhs);
            match b.op {
                Binop::BPlus => is.push(Instr::IPlus),
                Binop::BTimes => is.push(Instr::ITimes),
            }
            assert(is@ == code(b.lhs) + code(b.rhs) + seq![op_instr(b.op)]);
            is
        },
    }
}

} // verus!
