//! The parser: predictive descent, one function for each non-terminal of
//! the grammar, each choosing its production by the next token alone.
//!
//! ```text
//! Exp      := Term ExpRest '$'
//! ExpRest  := '+' Term ExpRest | (nothing: the literal 0)
//! Term     := Factor TermRest
//! TermRest := '*' Factor TermRest | (nothing: the literal 1)
//! Factor   := IntLiteral
//! ```
//!
//! Nothing but blanks, line breaks and comments may follow the `$`.
//!
//! A diagnostic of the parser names the token that it did not expect, the
//! scanner's position before that token, and the text that is left. It
//! begins with a label: `exp` at the start and at the end of a program,
//! `term` where a term or a factor must begin, `erest` after a term or a
//! factor. A failure of the scanner is reported with the scanner's own
//! diagnostic.

use crate::lexer::{diagnostic, scan, LexFail, LexerState, Scan, Tok};
use crate::lexer::{lemma_end_of_text, lemma_scan_shrinks, trimmed};
use crate::text::{i32_to_string, int_text, nat_text, u64_to_string};
use crate::types::{Binexp, Binop, Exp};
use vstd::prelude::*;
use vstd::string::StringExecFns;

verus! {

/// What parsing gave: the scanner's state where parsing stopped, and the
/// tree or the diagnostic.
pub struct Parsed {
    pub end: Scan,
    pub out: Result<Exp, Seq<char>>,
}

/// A token as text.
pub open spec fn tok_text(t: Tok) -> Seq<char> {
    match t {
        Tok::PLUS => "PLUS"@,
        Tok::TIMES => "TIMES"@,
        Tok::I32(i) => "I32("@ + int_text(i as int) + ")"@,
        Tok::DOLLAR => "DOLLAR"@,
    }
}

/// The diagnostic of a token that no production of `label` begins with:
/// the token, the position, and the text that is left.
pub open spec fn unexpected(label: Seq<char>, t: Tok, s: Scan) -> Seq<char> {
    label + ": unexpected token "@ + tok_text(t) + " at "@ + nat_text(s.line) + ":"@ + nat_text(
        s.col,
    ) + " in '"@ + s.rest + "'"@
}

/// The next token from `s`, or the scanner's diagnostic.
pub open spec fn look(s: Scan) -> Result<Tok, Seq<char>> {
    match scan(s).1 {
        Ok(t) => Ok(t),
        Err(f) => Err(diagnostic(f, scan(s).0.line, scan(s).0.col)),
    }
}

/// The tree of a binary operation.
pub open spec fn node(op: Binop, lhs: Exp, rhs: Exp) -> Exp {
    Exp::EBinop(Box::new(Binexp { op, lhs, rhs }))
}

/// Parsing that stops at `s` with the diagnostic `m`.
pub open spec fn stop(s: Scan, m: Seq<char>) -> Parsed {
    Parsed { end: s, out: Err(m) }
}

/// `Factor`: an integer literal.
pub open spec fn factor(s: Scan) -> Parsed {
    match look(s) {
        Err(m) => stop(s, m),
        Ok(Tok::I32(i)) => Parsed { end: scan(s).0, out: Ok(Exp::EI32(i)) },
        Ok(t) => stop(s, unexpected("term"@, t, s)),
    }
}

/// `TermRest`: `*`, a factor and the rest, as a product; or, before `+`
/// and `$`, the literal 1.
pub open spec fn term_rest(s: Scan) -> Parsed
    decreases s.rest.len(),
    via term_rest_decreases
{
    match look(s) {
        Err(m) => stop(s, m),
        Ok(Tok::TIMES) => {
            let f = factor(scan(s).0);
            match f.out {
                Err(_) => f,
                Ok(lhs) => {
                    let r = term_rest(f.end);
                    match r.out {
                        Err(_) => r,
                        Ok(rhs) => Parsed { end: r.end, out: Ok(node(Binop::BTimes, lhs, rhs)) },
                    }
                },
            }
        },
        Ok(Tok::PLUS) => Parsed { end: s, out: Ok(Exp::EI32(1)) },
        Ok(Tok::DOLLAR) => Parsed { end: s, out: Ok(Exp::EI32(1)) },
        Ok(t) => stop(s, unexpected("erest"@, t, s)),
    }
}

#[via_fn]
proof fn term_rest_decreases(s: Scan) {
    lemma_scan_shrinks(s);
    lemma_scan_shrinks(scan(s).0);
}

/// `Term`: a factor and the rest, as a product.
pub open spec fn term(s: Scan) -> Parsed {
    match look(s) {
        Err(m) => stop(s, m),
        Ok(Tok::I32(_)) => {
            let f = factor(s);
            match f.out {
                Err(_) => f,
                Ok(lhs) => {
                    let r = term_rest(f.end);
                    match r.out {
                        Err(_) => r,
                        Ok(rhs) => Parsed { end: r.end, out: Ok(node(Binop::BTimes, lhs, rhs)) },
                    }
                },
            }
        },
        Ok(t) => stop(s, unexpected("term"@, t, s)),
    }
}

/// A factor, the rest of a term and a term leave no more text than there
/// was, and counters that could take the text before can take it after.
pub proof fn lemma_term_shrinks(s: Scan)
    ensures
        factor(s).end.rest.len() <= s.rest.len(),
        term_rest(s).end.rest.len() <= s.rest.len(),
        term(s).end.rest.len() <= s.rest.len(),
        s.fits() ==> factor(s).end.fits() && term_rest(s).end.fits() && term(s).end.fits(),
    decreases s.rest.len(),
{
    lemma_scan_shrinks(s);
    lemma_scan_shrinks(scan(s).0);
    if look(s) == Ok::<Tok, Seq<char>>(Tok::TIMES) {
        let f = factor(scan(s).0);
        if f.out is Ok {
            lemma_term_shrinks(f.end);
        }
    }
    if look(s) is Ok && look(s)->Ok_0 is I32 {
        let f = factor(s);
        lemma_term_shrinks(f.end);
    }
}

/// `ExpRest`: `+`, a term and the rest, as a sum; or, before `$`, the
/// literal 0.
pub open spec fn exp_rest(s: Scan) -> Parsed
    decreases s.rest.len(),
    via exp_rest_decreases
{
    match look(s) {
        Err(m) => stop(s, m),
        Ok(Tok::PLUS) => {
            let t = term(scan(s).0);
            match t.out {
                Err(_) => t,
                Ok(lhs) => {
                    let r = exp_rest(t.end);
                    match r.out {
                        Err(_) => r,
                        Ok(rhs) => Parsed { end: r.end, out: Ok(node(Binop::BPlus, lhs, rhs)) },
                    }
                },
            }
        },
        Ok(Tok::DOLLAR) => Parsed { end: s, out: Ok(Exp::EI32(0)) },
        Ok(t) => stop(s, unexpected("erest"@, t, s)),
    }
}

#[via_fn]
proof fn exp_rest_decreases(s: Scan) {
    lemma_scan_shrinks(s);
    lemma_term_shrinks(scan(s).0);
}

/// The end of a program, with `s` the state after its `$`: nothing but
/// blanks, line breaks and comments is left.
pub open spec fn end(s: Scan, tree: Exp) -> Parsed {
    match scan(s).1 {
        Err(LexFail::EndOfProgram) => Parsed { end: s, out: Ok(tree) },
        Err(f) => stop(s, diagnostic(f, scan(s).0.line, scan(s).0.col)),
        Ok(t) => stop(s, unexpected("exp"@, t, s)),
    }
}

/// `Exp`: a term and the rest, as a sum, then `$` and the end of the
/// text.
pub open spec fn exp(s: Scan) -> Parsed {
    match look(s) {
        Err(m) => stop(s, m),
        Ok(Tok::I32(_)) => {
            let t = term(s);
            match t.out {
                Err(_) => t,
                Ok(lhs) => {
                    let r = exp_rest(t.end);
                    match r.out {
                        Err(_) => r,
                        Ok(rhs) => end(scan(r.end).0, node(Binop::BPlus, lhs, rhs)),
                    }
                },
            }
        },
        Ok(t) => stop(s, unexpected("exp"@, t, s)),
    }
}

/// The scanner's state at the start of a text.
pub open spec fn start(text: Seq<char>) -> Scan {
    Scan { rest: trimmed(text), depth: 0, line: 1, col: 0 }
}

/// The tree of a program, or the diagnostic of its first error.
pub open spec fn parsed(text: Seq<char>) -> Result<Exp, Seq<char>> {
    exp(start(text)).out
}

/// Whether a result of the parser is the outcome `out`: the same tree, or
/// the same diagnostic.
pub open spec fn gives(r: Result<Exp, String>, out: Result<Exp, Seq<char>>) -> bool {
    match out {
        Ok(e) => r == Ok::<Exp, String>(e),
        Err(m) => r is Err && r->Err_0@ == m,
    }
}

/// Writes a token as text.
pub fn tok_to_string(t: Tok) -> (r: String)
    ensures
        r@ == tok_text(t),
{
    match t {
        Tok::PLUS => String::from_str("PLUS"),
        Tok::TIMES => String::from_str("TIMES"),
        Tok::I32(i) => {
            let mut r = String::from_str("I32(");
            r.append(i32_to_string(i).as_str());
            r.append(")");
            r
        },
        Tok::DOLLAR => String::from_str("DOLLAR"),
    }
}

/// The diagnostic of an unexpected token, at the scanner's position.
fn parse_err(l: &LexerState, label: &str, tok: Tok) -> (r: String)
    ensures
        r@ == unexpected(label@, tok, l@),
{
    let mut r = String::from_str(label);
    r.append(": unexpected token ");
    r.append(tok_to_string(tok).as_str());
    r.append(" at ");
    r.append(u64_to_string(l.info.line_no).as_str());
    r.append(":");
    r.append(u64_to_string(l.info.col_no).as_str());
    r.append(" in '");
    r.append(l.rest);
    r.append("'");
    r
}

/// Parses a `Factor`.
fn parse_factor(l: &mut LexerState) -> (r: Result<Exp, String>)
    requires
        old(l).wf(),
    ensures
        final(l)@ == factor(old(l)@).end,
        gives(r, factor(old(l)@).out),
        final(l).wf(),
{
    match l.peek() {
        Err(m) => Err(m),
        Ok(Tok::I32(i)) => {
            l.eat(Tok::I32(i));
            Ok(Exp::EI32(i))
        },
        Ok(tok) => Err(parse_err(l, "term", tok)),
    }
}

/// Parses a `TermRest`.
fn parse_trest(l: &mut LexerState) -> (r: Result<Exp, String>)
    requires
        old(l).wf(),
    ensures
        final(l)@ == term_rest(old(l)@).end,
        gives(r, term_rest(old(l)@).out),
        final(l).wf(),
    decreases old(l)@.rest.len(),
{
    proof {
        lemma_scan_shrinks(l@);
        lemma_term_shrinks(scan(l@).0);
    }
    match l.peek() {
        Err(m) => Err(m),
        Ok(Tok::TIMES) => {
            l.eat(Tok::TIMES);
            match parse_factor(l) {
                Err(m) => Err(m),
                Ok(f) => match parse_trest(l) {
                    Err(m) => Err(m),
                    Ok(trest) => Ok(
                        Exp::EBinop(Box::new(Binexp { op: Binop::BTimes, lhs: f, rhs: trest })),
                    ),
                },
            }
        },
        Ok(Tok::PLUS) => Ok(Exp::EI32(1)),
        Ok(Tok::DOLLAR) => Ok(Exp::EI32(1)),
        Ok(tok) => Err(parse_err(l, "erest", tok)),
    }
}

/// Parses a `Term`.
fn parse_term(l: &mut LexerState) -> (r: Result<Exp, String>)
    requires
        old(l).wf(),
    ensures
        final(l)@ == term(old(l)@).end,
        gives(r, term(old(l)@).out),
        final(l).wf(),
{
    match l.peek() {
        Err(m) => Err(m),
        Ok(Tok::I32(_)) => match parse_factor(l) {
            Err(m) => Err(m),
            Ok(f) => match parse_trest(l) {
                Err(m) => Err(m),
                Ok(trest) => Ok(
                    Exp::EBinop(Box::new(Binexp { op: Binop::BTimes, lhs: f, rhs: trest })),
                ),
            },
        },
        Ok(tok) => Err(parse_err(l, "term", tok)),
    }
}

/// Parses an `ExpRest`.
fn parse_erest(l: &mut LexerState) -> (r: Result<Exp, String>)
    requires
        old(l).wf(),
    ensures
        final(l)@ == exp_rest(old(l)@).end,
        gives(r, exp_rest(old(l)@).out),
        final(l).wf(),
    decreases old(l)@.rest.len(),
{
    proof {
        lemma_scan_shrinks(l@);
        lemma_term_shrinks(scan(l@).0);
    }
    match l.peek() {
        Err(m) => Err(m),
        Ok(Tok::PLUS) => {
            l.eat(Tok::PLUS);
            match parse_term(l) {
                Err(m) => Err(m),
                Ok(t) => match parse_erest(l) {
                    Err(m) => Err(m),
                    Ok(erest) => Ok(
                        Exp::EBinop(Box::new(Binexp { op: Binop::BPlus, lhs: t, rhs: erest })),
                    ),
                },
            }
        },
        Ok(Tok::DOLLAR) => Ok(Exp::EI32(0)),
        Ok(tok) => Err(parse_err(l, "erest", tok)),
    }
}

/// Checks that the text ends after the `$`.
fn parse_end(l: &mut LexerState, tree: Exp) -> (r: Result<Exp, String>)
    requires
        old(l).wf(),
    ensures
        final(l)@ == end(old(l)@, tree).end,
        gives(r, end(old(l)@, tree).out),
        final(l).wf(),
{
    let mut ahead = *l;
    match ahead.next() {
        Ok(tok) => Err(parse_err(l, "exp", tok)),
        Err(m) => {
            if ahead.rest.is_empty() {
                proof {
                    lemma_end_of_text(l@);
                }
                Ok(tree)
            } else {
                proof {
                    lemma_end_of_text(l@);
                }
                Err(m)
            }
        },
    }
}

/// Parses an `Exp`: the whole program.
fn parse_exp(l: &mut LexerState) -> (r: Result<Exp, String>)
    requires
        old(l).wf(),
    ensures
        final(l)@ == exp(old(l)@).end,
        gives(r, exp(old(l)@).out),
        final(l).wf(),
{
    match l.peek() {
        Err(m) => Err(m),
        Ok(Tok::I32(_)) => match parse_term(l) {
            Err(m) => Err(m),
            Ok(t) => match parse_erest(l) {
                Err(m) => Err(m),
                Ok(erest) => {
                    l.eat(Tok::DOLLAR);
                    parse_end(l, Exp::EBinop(Box::new(Binexp { op: Binop::BPlus, lhs: t, rhs: erest })))
                },
            },
        },
        Ok(tok) => Err(parse_err(l, "exp", tok)),
    }
}

/// Parses a program: the tree, or the diagnostic of the first error.
pub fn parse(s: &str) -> (r: Result<Exp, String>)
    requires
        s@.len() < u64::MAX,
    ensures
        gives(r, parsed(s@)),
{
    let mut l = LexerState::new(s);
    parse_exp(&mut l)
}

} // verus!
