use exprlang::lexer::{LexerState, Tok};

fn tokens(text: &str) -> Vec<Tok> {
    let mut l = LexerState::new(text);
    let mut out = Vec::new();
    loop {
        match l.next() {
            Ok(t) => {
                out.push(t);
                if t == Tok::DOLLAR {
                    break;
                }
            }
            Err(_) => break,
        }
    }
    out
}

#[test]
fn nested_comments_are_skipped() {
    assert_eq!(tokens("/* a /* b */ c */ 2 $"), vec![Tok::I32(2), Tok::DOLLAR]);
}

#[test]
fn peek_twice_changes_nothing() {
    let mut l = LexerState::new("  /* x */ 12 + 3 $");
    let a = l.peek();
    assert_eq!(l.rest, "  /* x */ 12 + 3 $");
    assert_eq!((l.info.line_no, l.info.col_no, l.comment_depth), (1, 0, 0));
    let b = l.peek();
    assert_eq!(a, Ok(Tok::I32(12)));
    assert_eq!(b, Ok(Tok::I32(12)));
    assert_eq!(l.rest, "  /* x */ 12 + 3 $");
    assert_eq!((l.info.line_no, l.info.col_no, l.comment_depth), (1, 0, 0));
}

fn at(l: &LexerState) -> (u64, u64, u64) {
    (l.info.line_no, l.info.col_no, l.comment_depth)
}

#[test]
fn new_starts_at_line_one_column_zero() {
    let l = LexerState::new("1 + 2 $");
    assert_eq!(l.rest, "1 + 2 $");
    assert_eq!(at(&l), (1, 0, 0));
}

#[test]
fn new_leaves_out_trailing_white_space() {
    assert_eq!(LexerState::new("3 $ \t\r\n\n").rest, "3 $");
    assert_eq!(LexerState::new("3 $\u{a0}\u{3000}").rest, "3 $");
    assert_eq!(LexerState::new("  3 $").rest, "  3 $");
    assert_eq!(LexerState::new(" \n ").rest, "");
}

#[test]
fn tokens_and_positions() {
    let mut l = LexerState::new("12 +\t3*4 $");
    assert_eq!(l.next(), Ok(Tok::I32(12)));
    assert_eq!((l.rest, at(&l)), (" +\t3*4 $", (1, 2, 0)));
    assert_eq!(l.next(), Ok(Tok::PLUS));
    assert_eq!((l.rest, at(&l)), ("\t3*4 $", (1, 4, 0)));
    assert_eq!(l.next(), Ok(Tok::I32(3)));
    assert_eq!((l.rest, at(&l)), ("*4 $", (1, 6, 0)));
    assert_eq!(l.next(), Ok(Tok::TIMES));
    assert_eq!(l.next(), Ok(Tok::I32(4)));
    assert_eq!(l.next(), Ok(Tok::DOLLAR));
    assert_eq!((l.rest, at(&l)), ("", (1, 10, 0)));
    assert_eq!(l.next(), Err("lexer error: unexpected end of program at 1:10".to_string()));
    assert_eq!((l.rest, at(&l)), ("", (1, 10, 0)));
}

#[test]
fn the_three_line_breaks() {
    let mut l = LexerState::new("1\n 2\r\n  3\r   4 $");
    assert_eq!(l.next(), Ok(Tok::I32(1)));
    assert_eq!(at(&l), (1, 1, 0));
    assert_eq!(l.next(), Ok(Tok::I32(2)));
    assert_eq!(at(&l), (2, 2, 0));
    assert_eq!(l.next(), Ok(Tok::I32(3)));
    assert_eq!(at(&l), (3, 3, 0));
    assert_eq!(l.next(), Ok(Tok::I32(4)));
    assert_eq!(at(&l), (4, 4, 0));
}

#[test]
fn comment_delimiters_take_no_columns() {
    let mut l = LexerState::new("/*ab*/7 $");
    assert_eq!(l.next(), Ok(Tok::I32(7)));
    assert_eq!((l.rest, at(&l)), (" $", (1, 3, 0)));
}

#[test]
fn comments_hold_any_character() {
    let mut l = LexerState::new("/* + * $ 12 x \u{e9}\u{4e2d} / * \n second */ 5 $");
    assert_eq!(l.next(), Ok(Tok::I32(5)));
    assert_eq!(at(&l).0, 2);
    assert_eq!(l.next(), Ok(Tok::DOLLAR));
}

#[test]
fn digits_in_a_comment_are_not_a_literal() {
    assert_eq!(
        tokens("/* 99999999999999999999999 */ 1 $"),
        vec![Tok::I32(1), Tok::DOLLAR]
    );
}

#[test]
fn inner_close_does_not_end_the_outer_comment() {
    let mut l = LexerState::new("/* a /* b */ 1 + */ 2 $");
    assert_eq!(l.next(), Ok(Tok::I32(2)));
    assert_eq!(l.comment_depth, 0);
}

#[test]
fn close_outside_a_comment_is_passed_over() {
    let mut l = LexerState::new("*/ 2 */ $");
    assert_eq!(l.next(), Ok(Tok::I32(2)));
    assert_eq!(at(&l), (1, 2, 0));
    assert_eq!(l.next(), Ok(Tok::DOLLAR));
}

#[test]
fn star_before_slash_closes_and_star_alone_is_times() {
    assert_eq!(tokens("2 * 3 $"), vec![Tok::I32(2), Tok::TIMES, Tok::I32(3), Tok::DOLLAR]);
    assert_eq!(tokens("2 */ 3 $"), vec![Tok::I32(2), Tok::I32(3), Tok::DOLLAR]);
}

#[test]
fn unclosed_comment_ends_the_program() {
    let mut l = LexerState::new("1 /* /* x */ y");
    assert_eq!(l.next(), Ok(Tok::I32(1)));
    assert_eq!(l.next(), Err("lexer error: unexpected end of program at 1:8".to_string()));
    assert_eq!((l.rest, l.comment_depth), ("", 1));
}

#[test]
fn unexpected_character_stops_the_scanner_before_it() {
    let mut l = LexerState::new("  a + 1 $");
    assert_eq!(l.next(), Err("lexer error: unexpected token 'a' at 1:2".to_string()));
    assert_eq!((l.rest, at(&l)), ("a + 1 $", (1, 2, 0)));
    let mut m = LexerState::new("/");
    assert_eq!(m.next(), Err("lexer error: unexpected token '/' at 1:0".to_string()));
    let mut n = LexerState::new("\u{1f600}");
    assert_eq!(n.next(), Err("lexer error: unexpected token '\u{1f600}' at 1:0".to_string()));
}

#[test]
fn literal_too_large_stops_the_scanner_before_it() {
    let mut l = LexerState::new(" 2147483648 $");
    assert_eq!(l.next(), Err("lexer error: integer literal out of range at 1:1".to_string()));
    assert_eq!((l.rest, at(&l)), ("2147483648 $", (1, 1, 0)));
    let mut m = LexerState::new("2147483647");
    assert_eq!(m.next(), Ok(Tok::I32(2147483647)));
    let mut n = LexerState::new("0000000000002147483647");
    assert_eq!(n.next(), Ok(Tok::I32(2147483647)));
    assert_eq!(at(&n), (1, 22, 0));
}

#[test]
fn literal_is_the_longest_run_of_digits() {
    let mut l = LexerState::new("123+45");
    assert_eq!(l.next(), Ok(Tok::I32(123)));
    assert_eq!(l.rest, "+45");
    let mut m = LexerState::new("12\u{663}4");
    assert_eq!(m.next(), Ok(Tok::I32(12)));
    assert_eq!(m.next(), Err("lexer error: unexpected token '\u{663}' at 1:2".to_string()));
}

#[test]
fn peek_restores_the_scanner_after_a_failure() {
    let mut l = LexerState::new(" /* c */ ? 1");
    assert_eq!(l.peek(), Err("lexer error: unexpected token '?' at 1:5".to_string()));
    assert_eq!((l.rest, at(&l)), (" /* c */ ? 1", (1, 0, 0)));
    assert_eq!(l.peek(), Err("lexer error: unexpected token '?' at 1:5".to_string()));
    assert_eq!((l.rest, at(&l)), (" /* c */ ? 1", (1, 0, 0)));
}

#[test]
fn peek_then_next_give_the_same_token() {
    let mut l = LexerState::new("+ 1");
    assert_eq!(l.peek(), Ok(Tok::PLUS));
    assert_eq!(l.next(), Ok(Tok::PLUS));
    assert_eq!(l.peek(), Ok(Tok::I32(1)));
    assert_eq!(l.next(), Ok(Tok::I32(1)));
}

#[test]
fn eat_compares_the_next_token() {
    let mut l = LexerState::new("1 + 2");
    assert_eq!(l.eat(Tok::I32(1)), Some(()));
    assert_eq!(l.eat(Tok::TIMES), None);
    assert_eq!(l.rest, " 2");
    assert_eq!(l.eat(Tok::I32(3)), None);
    assert_eq!(l.rest, "");
    assert_eq!(l.eat(Tok::DOLLAR), None);
}

#[test]
fn line_info_moves() {
    let mut i = exprlang::lexer::LineInfo { line_no: 3, col_no: 9 };
    i.incr_col(4);
    assert_eq!((i.line_no, i.col_no), (3, 13));
    i.incr_line(2);
    assert_eq!((i.line_no, i.col_no), (5, 0));
}
