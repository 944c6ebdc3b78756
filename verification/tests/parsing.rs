use exprlang::compile::compile;
use exprlang::parser::{parse, tok_to_string};
use exprlang::lexer::Tok;
use exprlang::types::{Binexp, Binop, Exp, Instr, Interp};
use exprlang::vm::VM;

fn lit(i: i32) -> Exp {
    Exp::EI32(i)
}

fn plus(lhs: Exp, rhs: Exp) -> Exp {
    Exp::EBinop(Box::new(Binexp { op: Binop::BPlus, lhs, rhs }))
}

fn times(lhs: Exp, rhs: Exp) -> Exp {
    Exp::EBinop(Box::new(Binexp { op: Binop::BTimes, lhs, rhs }))
}

fn run_compiled(e: &Exp) -> i32 {
    let code = compile(e);
    let mut vm = VM::init(&code);
    let r = vm.run();
    assert_eq!(vm.stack.len(), 1);
    assert_eq!(vm.pc, code.len());
    r.unwrap()
}

#[test]
fn single_literal() {
    let e = parse("3 $").unwrap();
    assert_eq!(e, plus(times(lit(3), lit(1)), lit(0)));
    assert_eq!(e.interp(), 3);
    assert_eq!(run_compiled(&e), 3);
}

#[test]
fn sum_keeps_the_trailing_zero() {
    let e = parse("2 + 3 $").unwrap();
    assert_eq!(e, plus(times(lit(2), lit(1)), plus(times(lit(3), lit(1)), lit(0))));
    assert_eq!(e.to_string(), "((2 * 1) + ((3 * 1) + 0))");
    assert_eq!(e.interp(), 5);
    assert_eq!(run_compiled(&e), 5);
}

#[test]
fn product_binds_tighter_than_sum() {
    let e = parse("2 * 3 + 1 $").unwrap();
    assert_eq!(
        e,
        plus(times(lit(2), times(lit(3), lit(1))), plus(times(lit(1), lit(1)), lit(0)))
    );
    assert_eq!(e.to_string(), "((2 * (3 * 1)) + ((1 * 1) + 0))");
    assert_eq!(e.interp(), 7);
    assert_eq!(run_compiled(&e), 7);
}

#[test]
fn sum_then_product() {
    let e = parse("1 + 2 * 3 $").unwrap();
    assert_eq!(e.interp(), 7);
    assert_eq!(run_compiled(&e), 7);
}

#[test]
fn missing_operand_is_a_diagnostic() {
    assert_eq!(parse("2 + $"), Err("term: unexpected token DOLLAR at 1:3 in ' $'".to_string()));
}

#[test]
fn missing_factor_after_times() {
    assert_eq!(parse("2 * + 1 $"), Err("term: unexpected token PLUS at 1:3 in ' + 1 $'".to_string()));
}

#[test]
fn two_literals_in_a_row() {
    assert_eq!(parse("2 3 $"), Err("erest: unexpected token I32(3) at 1:1 in ' 3 $'".to_string()));
}

#[test]
fn program_must_begin_with_a_literal() {
    assert_eq!(parse("+ 2 $"), Err("exp: unexpected token PLUS at 1:0 in '+ 2 $'".to_string()));
    assert_eq!(parse("$"), Err("exp: unexpected token DOLLAR at 1:0 in '$'".to_string()));
}

#[test]
fn missing_end_marker() {
    assert_eq!(parse("2 + 3"), Err("lexer error: unexpected end of program at 1:5".to_string()));
    assert_eq!(parse(""), Err("lexer error: unexpected end of program at 1:0".to_string()));
    assert_eq!(parse("2 \n"), Err("lexer error: unexpected end of program at 1:1".to_string()));
}

#[test]
fn nothing_may_follow_the_end_marker() {
    assert_eq!(parse("3 $ 4"), Err("exp: unexpected token I32(4) at 1:3 in ' 4'".to_string()));
    assert_eq!(parse("3 $ $"), Err("exp: unexpected token DOLLAR at 1:3 in ' $'".to_string()));
    assert_eq!(parse("3 $ x"), Err("lexer error: unexpected token 'x' at 1:4".to_string()));
}

#[test]
fn comments_and_blanks_may_follow_the_end_marker() {
    assert_eq!(parse("3 $ /* done */").unwrap().interp(), 3);
    assert_eq!(parse("3 $ \n\t ").unwrap().interp(), 3);
    assert_eq!(parse("3 $ /* open").unwrap().interp(), 3);
}

#[test]
fn unexpected_character_in_a_program() {
    assert_eq!(parse("2 - 3 $"), Err("lexer error: unexpected token '-' at 1:2".to_string()));
    assert_eq!(parse("2 +\n  \u{e9} $"), Err("lexer error: unexpected token '\u{e9}' at 2:2".to_string()));
}

#[test]
fn literal_out_of_range_is_rejected() {
    assert_eq!(parse("2147483647 $").unwrap().interp(), 2147483647);
    assert_eq!(
        parse("2147483648 $"),
        Err("lexer error: integer literal out of range at 1:0".to_string())
    );
    assert_eq!(
        parse("1 + 99999999999999999999999999 $"),
        Err("lexer error: integer literal out of range at 1:4".to_string())
    );
}

#[test]
fn arithmetic_wraps_in_both_backends() {
    let e = parse("2147483647 + 1 $").unwrap();
    assert_eq!(e.interp(), i32::MIN);
    assert_eq!(run_compiled(&e), i32::MIN);
    let f = parse("65536 * 65536 + 7 $").unwrap();
    assert_eq!(f.interp(), 7);
    assert_eq!(run_compiled(&f), 7);
    let g = parse("46341 * 46341 $").unwrap();
    assert_eq!(g.interp(), -2147479015);
    assert_eq!(run_compiled(&g), -2147479015);
}

#[test]
fn backends_agree_on_many_programs() {
    let programs = [
        "0 $",
        "1 + 2 + 3 + 4 $",
        "2 * 3 * 4 $",
        "1 + 2 * 3 + 4 * 5 * 6 + 7 $",
        "/* lead */ 10 * /* mid /* deep */ */ 20 + 30 $",
        "123456 * 654321 + 999999 * 999999 $",
        "007 + 08 $",
    ];
    let expected = [0, 10, 24, 134, 230, 123456i32.wrapping_mul(654321).wrapping_add(999999i32.wrapping_mul(999999)), 15];
    for (p, want) in programs.iter().zip(expected.iter()) {
        let e = parse(p).unwrap();
        assert_eq!(e.interp(), *want);
        assert_eq!(run_compiled(&e), *want);
    }
}

#[test]
fn compile_emits_left_right_operator() {
    let e = plus(lit(2), times(lit(3), lit(4)));
    assert_eq!(
        compile(&e),
        vec![Instr::II32(2), Instr::II32(3), Instr::II32(4), Instr::ITimes, Instr::IPlus]
    );
    assert_eq!(compile(&lit(-5)), vec![Instr::II32(-5)]);
}

#[test]
fn machine_takes_the_top_as_right_operand() {
    let mut vm = VM::init(&[Instr::II32(7), Instr::II32(2), Instr::II32(3), Instr::ITimes]);
    assert_eq!(vm.run(), Some(6));
    assert_eq!(vm.stack, vec![7, 6]);
    assert_eq!(vm.pc, 4);
}

#[test]
fn machine_resumes_from_its_counter() {
    let mut vm = VM::init(&[Instr::II32(1), Instr::II32(2), Instr::IPlus]);
    vm.stack.push(40);
    vm.stack.push(2);
    vm.pc = 2;
    assert_eq!(vm.run(), Some(42));
    assert_eq!(vm.stack, vec![42]);
}

#[test]
fn expressions_are_written_in_parentheses() {
    assert_eq!(lit(-3).to_string(), "-3");
    assert_eq!(lit(i32::MIN).to_string(), "-2147483648");
    assert_eq!(plus(lit(1), times(lit(20), lit(300))).to_string(), "(1 + (20 * 300))");
    assert_eq!(Binop::BPlus.to_string(), "+");
    assert_eq!(Binop::BTimes.to_string(), "*");
}

#[test]
fn tokens_are_written_by_name() {
    assert_eq!(tok_to_string(Tok::PLUS), "PLUS");
    assert_eq!(tok_to_string(Tok::TIMES), "TIMES");
    assert_eq!(tok_to_string(Tok::DOLLAR), "DOLLAR");
    assert_eq!(tok_to_string(Tok::I32(-17)), "I32(-17)");
}

#[test]
fn clone_copies_the_tree() {
    let e = parse("1 + 2 * 3 $").unwrap();
    assert_eq!(e.clone(), e);
}

#[test]
fn machine_tells_whether_it_can_run() {
    assert!(VM::init(&[Instr::II32(1)]).ready_to_run());
    assert!(VM::init(&[Instr::II32(1), Instr::II32(2), Instr::IPlus]).ready_to_run());
    assert!(!VM::init(&[]).ready_to_run());
    assert!(!VM::init(&[Instr::IPlus]).ready_to_run());
    assert!(!VM::init(&[Instr::II32(1), Instr::ITimes]).ready_to_run());
    assert!(!VM::init(&[Instr::II32(1), Instr::ITimes, Instr::II32(2), Instr::II32(3)]).ready_to_run());
    let mut vm = VM::init(&[Instr::IPlus]);
    vm.stack.push(1);
    vm.stack.push(2);
    assert!(vm.ready_to_run());
    assert_eq!(vm.run(), Some(3));
    assert!(vm.ready_to_run());
    vm.pc = 2;
    assert!(!vm.ready_to_run());
    let code = compile(&parse("1 + 2 * 3 $").unwrap());
    assert!(VM::init(&code).ready_to_run());
}
