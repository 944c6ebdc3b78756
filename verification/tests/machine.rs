use exprlang::regvm::Instr;
use exprlang::regvm::Instr::{Br, Const, Hlt, Mov, Mul, Sub};
use exprlang::regvm::Reg::{ACC, RA, RB, RC};
use exprlang::regvm::{init_state, run, run_within, show_state, step};

#[test]
fn run_const() {
    let mut s = init_state();
    run(&mut s, &[Const(ACC, 1), Hlt]);
    assert_eq!(s.rb.get(ACC), 1);
}

#[test]
fn run_mov() {
    let mut s = init_state();
    s.rb.set(ACC, 0);
    s.rb.set(RA, 7);
    run(&mut s, &[Mov(ACC, RA), Hlt]);
    assert_eq!(s.rb.get(ACC), 7);
}

#[test]
fn run_br() {
    let mut s = init_state();
    s.rb.set(RA, 7);
    run(&mut s, &[Br(1), Mov(ACC, RA), Hlt]);
    assert_eq!(s.rb.get(ACC), 7);
}

#[test]
fn branch_taken_when_accumulator_is_one() {
    let mut s = init_state();
    s.rb.set(ACC, 1);
    run(&mut s, &[Br(2), Const(RB, 9), Hlt]);
    assert_eq!(s.pc, 2);
    assert_eq!(s.rb.get(RB), 0);
}

#[test]
fn factorial_of_five() {
    let fact = [
        Mov(RC, RA),
        Const(ACC, 1),
        Instr::Eq(ACC, RA),
        Br(11),
        Mov(ACC, RA),
        Const(RB, 1),
        Sub(ACC, RB),
        Mul(RC, ACC),
        Mov(RA, ACC),
        Const(ACC, 1),
        Br(1),
        Mov(ACC, RC),
        Hlt,
    ];
    let mut s = init_state();
    run(&mut s, &fact);
    assert_eq!(s.rb.get(ACC), 120);
    assert_eq!(s.pc, 12);
}

#[test]
fn run_within_stops_at_the_limit() {
    let looping = [Const(ACC, 1), Br(0), Hlt];
    let mut s = init_state();
    assert!(!run_within(&mut s, &looping, 5));
    assert_eq!(s.pc, 1);
    let mut t = init_state();
    assert!(run_within(&mut t, &[Const(ACC, 3), Hlt], 1));
    assert_eq!((t.pc, t.rb.get(ACC)), (1, 3));
    let mut u = init_state();
    assert!(!run_within(&mut u, &[Const(ACC, 3)], 10));
    assert_eq!(u.pc, 1);
}

#[test]
fn arithmetic_wraps() {
    let mut s = init_state();
    s.rb.set(ACC, i32::MIN);
    s.rb.set(RB, 1);
    step(&mut s, Sub(ACC, RB));
    assert_eq!(s.rb.get(ACC), i32::MAX);
    s.rb.set(RC, 2);
    step(&mut s, Mul(ACC, RC));
    assert_eq!(s.rb.get(ACC), -2);
    assert_eq!(s.pc, 2);
}

#[test]
fn eq_compares_registers() {
    let mut s = init_state();
    s.rb.set(RB, 5);
    step(&mut s, Instr::Eq(RB, RA));
    assert_eq!(s.rb.get(RB), 1);
    step(&mut s, Instr::Eq(RC, RA));
    assert_eq!(s.rb.get(RC), 0);
}

#[test]
fn state_is_shown_with_counter_and_registers() {
    let mut s = init_state();
    s.rb.set(RB, -12);
    s.rb.set(RC, i32::MIN);
    s.pc = 30;
    assert_eq!(show_state(&s), "pc=30, acc=0, ra=5, rb=-12, rc=-2147483648");
}
