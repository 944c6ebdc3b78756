//! A register machine: four 32-bit registers, a program counter, and a
//! program of moves, comparisons, arithmetic and one conditional branch.
//! Arithmetic wraps on overflow.

use crate::text::{i32_to_string, int_text, nat_text, u64_to_string};
use vstd::prelude::*;
use vstd::string::StringExecFns;

verus! {

/// A register.
#[derive(Debug, Clone, Copy, PartialEq, Eq)]
pub enum Reg {
    ACC,
    RA,
    RB,
    RC,
}

/// The contents of the registers.
#[derive(Debug, Clone, Copy, PartialEq, Eq)]
pub struct RegBank {
    pub acc: i32,
    pub ra: i32,
    pub rb: i32,
    pub rc: i32,
}

impl RegBank {
    /// The content of a register.
    pub open spec fn at(self, reg: Reg) -> i32 {
        match reg {
            Reg::ACC => self.acc,
            Reg::RA => self.ra,
            Reg::RB => self.rb,
            Reg::RC => self.rc,
        }
    }

    /// The bank with `v` in the register `reg`.
    pub open spec fn with(self, reg: Reg, v: i32) -> RegBank {
        match reg {
            Reg::ACC => RegBank { acc: v, ..self },
            Reg::RA => RegBank { ra: v, ..self },
            Reg::RB => RegBank { rb: v, ..self },
            Reg::RC => RegBank { rc: v, ..self },
        }
    }

    /// Reads a register.
    pub fn get(&self, reg: Reg) -> (v: i32)
        ensures
            v == self.at(reg),
    {
        match reg {
            Reg::ACC => self.acc,
            Reg::RA => self.ra,
            Reg::RB => self.rb,
            Reg::RC => self.rc,
        }
    }

    /// Writes a register.
    pub fn set(&mut self, reg: Reg, v: i32)
        ensures
            *final(self) == old(self).with(reg, v),
    {
        match reg {
            Reg::ACC => self.acc = v,
            Reg::RA => self.ra = v,
            Reg::RB => self.rb = v,
            Reg::RC => self.rc = v,
        }
    }
}

/// An instruction of the register machine.
#[derive(Debug, Clone, Copy, PartialEq, Eq)]
pub enum Instr {
    /// `Const(r, i)`: `r` becomes `i`.
    Const(Reg, i32),
    /// `Mov(d, s)`: `d` becomes `s`.
    Mov(Reg, Reg),
    /// `Br(l)`: go to `l` if the accumulator is 1.
    Br(usize),
    /// `Eq(d, s)`: `d` becomes 1 if `s` equals `d`, else 0.
    Eq(Reg, Reg),
    /// `Sub(d, s)`: `d` becomes `d - s`.
    Sub(Reg, Reg),
    /// `Mul(d, s)`: `d` becomes `d * s`.
    Mul(Reg, Reg),
    /// Halts the machine.
    Hlt,
}

/// The machine's state: the index of the next instruction, and the
/// registers.
#[derive(Debug, Clone, Copy, PartialEq, Eq)]
pub struct State {
    pub pc: usize,
    pub rb: RegBank,
}

/// The state after the instruction `i`, which is not `Hlt`.
pub open spec fn after(s: State, i: Instr) -> State
    recommends
        s.pc < usize::MAX,
{
    let next = (s.pc + 1) as usize;
    match i {
        Instr::Const(d, v) => State { pc: next, rb: s.rb.with(d, v) },
        Instr::Mov(d, r) => State { pc: next, rb: s.rb.with(d, s.rb.at(r)) },
        Instr::Br(l) => State { pc: if s.rb.acc == 1 { l } else { next }, rb: s.rb },
        Instr::Eq(d, r) => State {
            pc: next,
            rb: s.rb.with(d, if s.rb.at(r) == s.rb.at(d) { 1i32 } else { 0i32 }),
        },
        Instr::Sub(d, r) => State { pc: next, rb: s.rb.with(d, s.rb.at(d).wrapping_sub(s.rb.at(r))) },
        Instr::Mul(d, r) => State { pc: next, rb: s.rb.with(d, s.rb.at(d).wrapping_mul(s.rb.at(r))) },
        Instr::Hlt => s,
    }
}

/// Whether the machine stands at an instruction of the program that is not
/// `Hlt`.
pub open spec fn can_step(s: State, prog: Seq<Instr>) -> bool {
    s.pc < prog.len() && prog[s.pc as int] != Instr::Hlt
}

/// Whether the machine stands at a `Hlt`.
pub open spec fn at_halt(s: State, prog: Seq<Instr>) -> bool {
    s.pc < prog.len() && prog[s.pc as int] == Instr::Hlt
}

/// The state after at most `n` steps: the machine stops early at a `Hlt`,
/// and where the counter leaves the program.
pub open spec fn advance(s: State, prog: Seq<Instr>, n: nat) -> State
    decreases n,
{
    if n == 0 || !can_step(s, prog) {
        s
    } else {
        advance(after(s, prog[s.pc as int]), prog, (n - 1) as nat)
    }
}

/// Whether the machine reaches a `Hlt` within `n` steps.
pub open spec fn halts_within(s: State, prog: Seq<Instr>, n: nat) -> bool {
    at_halt(advance(s, prog, n), prog)
}

/// A machine that cannot step stays where it is.
pub proof fn lemma_advance_stuck(s: State, prog: Seq<Instr>, n: nat)
    requires
        !can_step(s, prog),
    ensures
        advance(s, prog, n) == s,
{
}

/// Steps add up.
pub proof fn lemma_advance_sum(s: State, prog: Seq<Instr>, n: nat, m: nat)
    ensures
        advance(advance(s, prog, n), prog, m) == advance(s, prog, n + m),
    decreases n,
{
    if n == 0 {
    } else if !can_step(s, prog) {
        lemma_advance_stuck(s, prog, m);
        lemma_advance_stuck(s, prog, n + m);
    } else {
        lemma_advance_sum(after(s, prog[s.pc as int]), prog, (n - 1) as nat, m);
    }
}

/// A machine halts in one state only: whatever the numbers of steps within
/// which it halts, the states reached are the same.
pub proof fn lemma_halt_unique(s: State, prog: Seq<Instr>, n: nat, m: nat)
    requires
        halts_within(s, prog, n),
        halts_within(s, prog, m),
    ensures
        advance(s, prog, n) == advance(s, prog, m),
{
    if n <= m {
        lemma_advance_sum(s, prog, n, (m - n) as nat);
        lemma_advance_stuck(advance(s, prog, n), prog, (m - n) as nat);
    } else {
        lemma_advance_sum(s, prog, m, (n - m) as nat);
        lemma_advance_stuck(advance(s, prog, m), prog, (n - m) as nat);
    }
}

/// The state in which a machine starts: counter 0, 5 in `RA`, 0 elsewhere.
pub fn init_state() -> (s: State)
    ensures
        s == (State { pc: 0, rb: RegBank { acc: 0, ra: 5, rb: 0, rc: 0 } }),
{
    State { pc: 0, rb: RegBank { acc: 0, ra: 5, rb: 0, rc: 0 } }
}

/// Performs the instruction `i`, which is not `Hlt`.
pub fn step(s: &mut State, i: Instr)
    requires
        old(s).pc < usize::MAX,
    ensures
        *final(s) == after(*old(s), i),
{
    match i {
        Instr::Const(rdst, v) => {
            s.rb.set(rdst, v);
            s.pc = s.pc + 1;
        },
        Instr::Mov(rdst, rsrc) => {
            let v = s.rb.get(rsrc);
            s.rb.set(rdst, v);
            s.pc = s.pc + 1;
        },
        Instr::Br(lbl) => {
            if s.rb.get(Reg::ACC) == 1 {
                s.pc = lbl;
            } else {
                s.pc = s.pc + 1;
            }
        },
        Instr::Eq(rdst, rsrc) => {
            if s.rb.get(rsrc) == s.rb.get(rdst) {
                s.rb.set(rdst, 1);
            } else {
                s.rb.set(rdst, 0);
            }
            s.pc = s.pc + 1;
        },
        Instr::Sub(rdst, rsrc) => {
            let v = s.rb.get(rdst).wrapping_sub(s.rb.get(rsrc));
            s.rb.set(rdst, v);
            s.pc = s.pc + 1;
        },
        Instr::Mul(rdst, rsrc) => {
            let v = s.rb.get(rdst).wrapping_mul(s.rb.get(rsrc));
            s.rb.set(rdst, v);
            s.pc = s.pc + 1;
        },
        Instr::Hlt => {},
    }
}

/// Whether an instruction is `Hlt`.
pub fn is_halt(i: Instr) -> (b: bool)
    ensures
        b == (i == Instr::Hlt),
{
    match i {
        Instr::Hlt => true,
        _ => false,
    }
}

/// Runs the program for at most `limit` steps, and tells whether the
/// machine stands at a `Hlt`.
pub fn run_within(s: &mut State, prog: &[Instr], limit: u64) -> (halted: bool)
    ensures
        *final(s) == advance(*old(s), prog@, limit as nat),
        halted == halts_within(*old(s), prog@, limit as nat),
{
    let mut left = limit;
    while left > 0 && s.pc < prog.len() && !is_halt(prog[s.pc])
        invariant
            advance(*s, prog@, left as nat) == advance(*old(s), prog@, limit as nat),
        decreases left,
    {
        step(s, prog[s.pc]);
        left = left - 1;
    }
    s.pc < prog.len() && is_halt(prog[s.pc])
}

/// Runs the program until the machine halts.
pub fn run(s: &mut State, prog: &[Instr])
    requires
        exists|n: nat| halts_within(*old(s), prog@, n),
    ensures
        at_halt(*final(s), prog@),
        exists|n: nat| *final(s) == advance(*old(s), prog@, n),
{
    let ghost total = choose|n: nat| halts_within(*old(s), prog@, n);
    let ghost left = total;
    proof {
        if !can_step(*s, prog@) {
            lemma_advance_stuck(*s, prog@, total);
        }
    }
    while !is_halt(prog[s.pc])
        invariant
            advance(*s, prog@, left) == advance(*old(s), prog@, total),
            halts_within(*s, prog@, left),
            s.pc < prog@.len(),
        decreases left,
    {
        let ghost before = *s;
        step(s, prog[s.pc]);
        proof {
            assert(can_step(before, prog@));
            if left == 0 {
                assert(advance(before, prog@, 0) == before);
            }
            left = (left - 1) as nat;
            if !can_step(*s, prog@) {
                lemma_advance_stuck(*s, prog@, left);
            }
        }
    }
    proof {
        lemma_advance_stuck(*s, prog@, left);
    }
}

/// The state as text: the counter and the four registers.
pub open spec fn state_text(s: State) -> Seq<char> {
    "pc="@ + nat_text(s.pc as nat) + ", acc="@ + int_text(s.rb.acc as int) + ", ra="@ + int_text(
        s.rb.ra as int,
    ) + ", rb="@ + int_text(s.rb.rb as int) + ", rc="@ + int_text(s.rb.rc as int)
}

/// Writes the state as text.
pub fn show_state(s: &State) -> (r: String)
    ensures
        r@ == state_text(*s),
{
    let mut r = String::from_str("pc=");
    r.append(u64_to_string(s.pc as u64).as_str());
    r.append(", acc=");
    r.append(i32_to_string(s.rb.get(Reg::ACC)).as_str());
    r.append(", ra=");
    r.append(i32_to_string(s.rb.get(Reg::RA)).as_str());
    r.append(", rb=");
    r.append(i32_to_string(s.rb.get(Reg::RB)).as_str());
    r.append(", rc=");
    r.append(i32_to_string(s.rb.get(Reg::RC)).as_str());
    r
}

} // verus!
