//! The scanner: tokens, positions, nested block comments, and one token of
//! lookahead.
//!
//! An integer literal is a run of decimal digits whose value fits a 32-bit
//! signed integer; a longer one is rejected. The two characters of a comment
//! delimiter do not count as columns.

use crate::text::{ascii_head, nat_text, split_ascii, split_first, u64_to_string};
use vstd::prelude::*;
use vstd::string::StringExecFns;
use vstd::string::StringSliceAdditionalSpecFns;
use vstd::utf8::is_ascii_chars;

verus! {

/// A token of the language.
#[derive(Debug, Clone, Copy, PartialEq, Eq, Structural)]
pub enum Tok {
    PLUS,
    TIMES,
    I32(i32),
    DOLLAR,
}

/// A position in the text: the line, counted from 1, and the column,
/// counted from 0.
#[derive(Debug, Clone, Copy, PartialEq, Eq, Structural)]
pub struct LineInfo {
    pub line_no: u64,
    pub col_no: u64,
}

impl LineInfo {
    /// Moves `n` lines down, to the start of the line.
    pub fn incr_line(&mut self, n: u64)
        requires
            old(self).line_no + n <= u64::MAX,
        ensures
            final(self).line_no == old(self).line_no + n,
            final(self).col_no == 0,
    {
        self.col_no = 0;
        self.line_no = self.line_no + n;
    }

    /// Moves `n` columns to the right.
    pub fn incr_col(&mut self, n: u64)
        requires
            old(self).col_no + n <= u64::MAX,
        ensures
            final(self).line_no == old(self).line_no,
            final(self).col_no == old(self).col_no + n,
    {
        self.col_no = self.col_no + n;
    }
}

/// Whether a character is a decimal digit.
pub open spec fn is_digit(c: char) -> bool {
    '0' <= c <= '9'
}

/// The number of decimal digits that a text begins with.
pub open spec fn digit_run(s: Seq<char>) -> nat
    decreases s.len(),
{
    if s.len() > 0 && is_digit(s[0]) {
        1 + digit_run(s.drop_first())
    } else {
        0
    }
}

/// The number that a text of decimal digits denotes.
pub open spec fn decimal(s: Seq<char>) -> nat
    decreases s.len(),
{
    if s.len() == 0 {
        0
    } else {
        decimal(s.drop_last()) * 10 + ((s.last() as u32 - '0' as u32) as nat)
    }
}

/// Whether a character is white space: the code points with the Unicode
/// property `White_Space`.
pub open spec fn is_space(c: char) -> bool {
    let u = c as u32;
    ||| 0x09 <= u <= 0x0D
    ||| u == 0x20
    ||| u == 0x85
    ||| u == 0xA0
    ||| u == 0x1680
    ||| 0x2000 <= u <= 0x200A
    ||| u == 0x2028
    ||| u == 0x2029
    ||| u == 0x202F
    ||| u == 0x205F
    ||| u == 0x3000
}

/// A text without the white space at its end.
pub open spec fn trimmed(s: Seq<char>) -> Seq<char>
    decreases s.len(),
{
    if s.len() > 0 && is_space(s.last()) {
        trimmed(s.drop_last())
    } else {
        s
    }
}

/// `str::trim_end`: the slice without its trailing white space, which std
/// documents as the characters with the Unicode property `White_Space`.
#[verifier::external_body]
fn trim_end<'a>(s: &'a str) -> (r: &'a str)
    ensures
        r@ == trimmed(s@),
{
    s.trim_end()
}

/// The pattern of an integer literal: at the start of the text, one or
/// more of the ASCII digits `0` to `9`.
pub const LITERAL: &'static str = "^\\A[[:digit:]]+";

/// `regex::Regex::new` on the pattern of an integer literal, then
/// `regex::Regex::find` on `s`, and the end of the match. The pattern is
/// anchored at the start of the text, its class holds the ASCII digits `0`
/// to `9` only, and `+` is greedy: the match is the longest run of digits
/// that the text begins with, and there is none where the text does not
/// begin with a digit.
#[verifier::external_body]
fn leading_digits(pattern: &str, s: &str) -> (r: Option<usize>)
    requires
        pattern@ == LITERAL@,
    ensures
        match r {
            Some(n) => n > 0 && n == digit_run(s@),
            None => digit_run(s@) == 0,
        },
{
    match regex::Regex::new(pattern).unwrap().find(s) {
        Some(mat) => Some(mat.end()),
        None => None,
    }
}

/// A run of digits is a prefix of the text and holds digits only.
pub proof fn lemma_digit_run(s: Seq<char>)
    ensures
        digit_run(s) <= s.len(),
        forall|i: int| 0 <= i < digit_run(s) ==> is_digit(#[trigger] s[i]),
        digit_run(s) < s.len() ==> !is_digit(s[digit_run(s) as int]),
    decreases s.len(),
{
    if s.len() > 0 && is_digit(s[0]) {
        let t = s.drop_first();
        lemma_digit_run(t);
        assert forall|i: int| 0 <= i < digit_run(s) implies is_digit(#[trigger] s[i]) by {
            if i > 0 {
                assert(s[i] == t[i - 1]);
            }
        }
        if digit_run(s) < s.len() {
            assert(s[digit_run(s) as int] == t[digit_run(t) as int]);
        }
    }
}

/// A number does not shrink when digits are added at its end.
pub proof fn lemma_decimal_grows(s: Seq<char>, i: int)
    requires
        0 <= i <= s.len(),
        forall|j: int| 0 <= j < s.len() ==> is_digit(#[trigger] s[j]),
    ensures
        decimal(s.take(i)) <= decimal(s),
    decreases s.len() - i,
{
    if i < s.len() {
        lemma_decimal_grows(s, i + 1);
        assert(s.take(i + 1).drop_last() == s.take(i));
    } else {
        assert(s.take(i) == s);
    }
}

/// The value of a text of decimal digits, where it fits 32 bits.
pub fn parse_decimal(s: &str) -> (r: Option<i32>)
    requires
        forall|j: int| 0 <= j < s@.len() ==> is_digit(#[trigger] s@[j]),
    ensures
        r == if decimal(s@) <= i32::MAX {
            Some(decimal(s@) as i32)
        } else {
            None::<i32>
        },
{
    broadcast use vstd::string::is_ascii_spec_bytes;

    assert(is_ascii_chars(s@));
    assert(vstd::string::is_ascii(s));
    let bytes = s.as_bytes();
    let mut acc: u64 = 0;
    let mut i: usize = 0;
    assert(s@.take(0).len() == 0);
    while i < bytes.len()
        invariant
            bytes@ == s.spec_bytes(),
            bytes@.len() == s@.len(),
            forall|j: int| 0 <= j < s@.len() ==> bytes@[j] == #[trigger] s@[j] as u8,
            forall|j: int| 0 <= j < s@.len() ==> is_digit(#[trigger] s@[j]),
            i <= bytes.len(),
            acc == decimal(s@.take(i as int)),
            acc <= i32::MAX,
        decreases bytes.len() - i,
    {
        let b = bytes[i];
        assert(is_digit(s@[i as int]));
        let d: u64 = (b - 48) as u64;
        proof {
            let t = s@.take(i + 1);
            assert(t.drop_last() == s@.take(i as int));
            assert(t.last() == s@[i as int]);
            assert(decimal(t) == acc * 10 + d);
            lemma_decimal_grows(s@, i + 1);
        }
        acc = acc * 10 + d;
        if acc > 2147483647 {
            return None;
        }
        i = i + 1;
    }
    assert(s@.take(i as int) == s@);
    Some(acc as i32)
}

/// The scanner's state as plain values: the text that is left, the depth
/// of comment nesting, and the position.
pub struct Scan {
    pub rest: Seq<char>,
    pub depth: nat,
    pub line: nat,
    pub col: nat,
}

/// Why no token could be formed.
pub enum LexFail {
    /// A character outside any comment that begins no token.
    Unexpected(char),
    /// The text ended where a token was required.
    EndOfProgram,
    /// An integer literal whose value does not fit 32 bits.
    LiteralTooLarge,
}

/// Whether a text begins with the characters `a` and `b`.
pub open spec fn begins(s: Seq<char>, a: char, b: char) -> bool {
    s.len() >= 2 && s[0] == a && s[1] == b
}

impl Scan {
    /// The state after `n` characters that move the position `n` columns.
    pub open spec fn right(self, n: nat) -> Scan {
        Scan { rest: self.rest.skip(n as int), col: self.col + n, ..self }
    }

    /// The state after a line break of `n` characters.
    pub open spec fn down(self, n: nat) -> Scan {
        Scan { rest: self.rest.skip(n as int), line: self.line + 1, col: 0, ..self }
    }

    /// The state after a comment delimiter, at the comment depth `depth`.
    pub open spec fn delimited(self, depth: nat) -> Scan {
        Scan { rest: self.rest.skip(2), depth: depth, ..self }
    }

    /// Whether the counters can take every character that is left.
    pub open spec fn fits(self) -> bool {
        &&& self.depth + self.rest.len() <= u64::MAX
        &&& self.line + self.rest.len() <= u64::MAX
        &&& self.col + self.rest.len() <= u64::MAX
    }
}

/// Scanning: the state after the next token, and that token, or the state
/// at the point of failure, and the reason.
///
/// `/*` opens a comment and `*/` closes one, at any depth; a `*/` outside
/// any comment is passed over. Blanks and line breaks are passed over.
/// Inside a comment every other character is passed over too. Outside,
/// `+`, `*`, `$` and a run of digits are tokens.
pub open spec fn scan(s: Scan) -> (Scan, Result<Tok, LexFail>)
    decreases s.rest.len(),
{
    let r = s.rest;
    if r.len() == 0 {
        (s, Err(LexFail::EndOfProgram))
    } else if begins(r, '/', '*') {
        scan(s.delimited(s.depth + 1))
    } else if begins(r, '*', '/') {
        scan(s.delimited(if s.depth > 0 { (s.depth - 1) as nat } else { 0 }))
    } else if r[0] == ' ' || r[0] == '\t' {
        scan(s.right(1))
    } else if begins(r, '\r', '\n') {
        scan(s.down(2))
    } else if r[0] == '\r' || r[0] == '\n' {
        scan(s.down(1))
    } else if s.depth > 0 {
        scan(s.right(1))
    } else if r[0] == '+' {
        (s.right(1), Ok(Tok::PLUS))
    } else if r[0] == '*' {
        (s.right(1), Ok(Tok::TIMES))
    } else if r[0] == '$' {
        (s.right(1), Ok(Tok::DOLLAR))
    } else if is_digit(r[0]) {
        let n = digit_run(r);
        if decimal(r.take(n as int)) <= i32::MAX {
            (s.right(n), Ok(Tok::I32(decimal(r.take(n as int)) as i32)))
        } else {
            (s, Err(LexFail::LiteralTooLarge))
        }
    } else {
        (s, Err(LexFail::Unexpected(r[0])))
    }
}

/// The message of a failure.
pub open spec fn fail_text(f: LexFail) -> Seq<char> {
    match f {
        LexFail::Unexpected(c) => "unexpected token '"@ + seq![c] + "'"@,
        LexFail::EndOfProgram => "unexpected end of program"@,
        LexFail::LiteralTooLarge => "integer literal out of range"@,
    }
}

/// Whether a result of the scanner is the outcome `o`: the same token, or
/// the message of the same failure.
pub open spec fn reports(r: Result<Tok, String>, o: Result<Tok, LexFail>) -> bool {
    match o {
        Ok(t) => r == Ok::<Tok, String>(t),
        Err(f) => r is Err && r->Err_0@ == fail_text(f),
    }
}

/// Scanning leaves no more text than there was, and less where it gives a
/// token; counters that could take the text before can take it after.
pub proof fn lemma_scan_shrinks(s: Scan)
    ensures
        scan(s).0.rest.len() <= s.rest.len(),
        scan(s).1 is Ok ==> scan(s).0.rest.len() < s.rest.len(),
        s.fits() ==> scan(s).0.fits(),
    decreases s.rest.len(),
{
    let r = s.rest;
    if r.len() == 0 {
    } else if begins(r, '/', '*') {
        lemma_scan_shrinks(s.delimited(s.depth + 1));
    } else if begins(r, '*', '/') {
        lemma_scan_shrinks(s.delimited(if s.depth > 0 { (s.depth - 1) as nat } else { 0 }));
    } else if r[0] == ' ' || r[0] == '\t' {
        lemma_scan_shrinks(s.right(1));
    } else if begins(r, '\r', '\n') {
        lemma_scan_shrinks(s.down(2));
    } else if r[0] == '\r' || r[0] == '\n' {
        lemma_scan_shrinks(s.down(1));
    } else if s.depth > 0 {
        lemma_scan_shrinks(s.right(1));
    } else if is_digit(r[0]) {
        lemma_digit_run(r);
    }
}

/// A scanner over a text: the text that is left, the depth of comment
/// nesting, and the position.
#[derive(Debug, Clone, Copy)]
pub struct LexerState<'a> {
    pub comment_depth: u64,
    pub rest: &'a str,
    pub info: LineInfo,
}

impl<'a> View for LexerState<'a> {
    type V = Scan;

    open spec fn view(&self) -> Scan {
        Scan {
            rest: self.rest@,
            depth: self.comment_depth as nat,
            line: self.info.line_no as nat,
            col: self.info.col_no as nat,
        }
    }
}

/// The diagnostic of a failure at a position.
pub open spec fn diagnostic(f: LexFail, line: nat, col: nat) -> Seq<char> {
    "lexer error: "@ + fail_text(f) + " at "@ + nat_text(line) + ":"@ + nat_text(col)
}

/// Whether `r` is what scanning from `s` gives: the token, or the
/// diagnostic of the failure, at the position where scanning stopped.
pub open spec fn answers(r: Result<Tok, String>, s: Scan) -> bool {
    match scan(s).1 {
        Ok(t) => r == Ok::<Tok, String>(t),
        Err(f) => r is Err && r->Err_0@ == diagnostic(f, scan(s).0.line, scan(s).0.col),
    }
}

impl<'a> LexerState<'a> {
    /// Whether the counters can take every character that is left.
    pub open spec fn wf(&self) -> bool {
        self@.fits()
    }

    /// A scanner at the start of `s`, line 1 and column 0, outside any
    /// comment. White space at the end of `s` is left out.
    pub fn new(s: &'a str) -> (l: Self)
        requires
            s@.len() < u64::MAX,
        ensures
            l@ == (Scan { rest: trimmed(s@), depth: 0, line: 1, col: 0 }),
            l.wf(),
    {
        proof {
            lemma_trimmed_len(s@);
        }
        LexerState { comment_depth: 0, rest: trim_end(s), info: LineInfo { line_no: 1, col_no: 0 } }
    }

    /// The next token, with the scanner left as it was.
    pub fn peek(&mut self) -> (r: Result<Tok, String>)
        requires
            old(self).wf(),
        ensures
            *final(self) == *old(self),
            answers(r, old(self)@),
    {
        let revert = *self;
        let r = lex(self);
        let r = match r {
            Ok(tok) => Ok(tok),
            Err(err) => Err(tagged(err, &self.info)),
        };
        *self = revert;
        r
    }

    /// The next token, with the scanner moved past it; on failure, the
    /// scanner stands where scanning stopped.
    pub fn next(&mut self) -> (r: Result<Tok, String>)
        requires
            old(self).wf(),
        ensures
            final(self)@ == scan(old(self)@).0,
            final(self).wf(),
            answers(r, old(self)@),
            r is Ok ==> final(self).comment_depth == 0,
    {
        proof {
            lemma_token_outside_comment(self@);
        }
        match lex(self) {
            Ok(tok) => Ok(tok),
            Err(err) => Err(tagged(err, &self.info)),
        }
    }

    /// Scans the next token and tells whether it is `expected`.
    pub fn eat(&mut self, expected: Tok) -> (r: Option<()>)
        requires
            old(self).wf(),
        ensures
            final(self)@ == scan(old(self)@).0,
            final(self).wf(),
            r is Some <==> scan(old(self)@).1 == Ok::<Tok, LexFail>(expected),
    {
        match self.next() {
            Ok(t) => {
                if t == expected {
                    Some(())
                } else {
                    None
                }
            },
            Err(_) => None,
        }
    }
}

/// Scanning fails for want of text just where it stops with no text left.
pub proof fn lemma_end_of_text(s: Scan)
    ensures
        scan(s).1 is Err ==> (scan(s).1 == Err::<Tok, LexFail>(LexFail::EndOfProgram) <==> scan(
            s,
        ).0.rest.len() == 0),
    decreases s.rest.len(),
{
    let r = s.rest;
    if r.len() == 0 {
    } else if begins(r, '/', '*') {
        lemma_end_of_text(s.delimited(s.depth + 1));
    } else if begins(r, '*', '/') {
        lemma_end_of_text(s.delimited(if s.depth > 0 { (s.depth - 1) as nat } else { 0 }));
    } else if r[0] == ' ' || r[0] == '\t' {
        lemma_end_of_text(s.right(1));
    } else if begins(r, '\r', '\n') {
        lemma_end_of_text(s.down(2));
    } else if r[0] == '\r' || r[0] == '\n' {
        lemma_end_of_text(s.down(1));
    } else if s.depth > 0 {
        lemma_end_of_text(s.right(1));
    }
}

/// No token is given inside a comment: after a token the depth of comment
/// nesting is 0.
pub proof fn lemma_token_outside_comment(s: Scan)
    ensures
        scan(s).1 is Ok ==> scan(s).0.depth == 0,
    decreases s.rest.len(),
{
    let r = s.rest;
    if r.len() == 0 {
    } else if begins(r, '/', '*') {
        lemma_token_outside_comment(s.delimited(s.depth + 1));
    } else if begins(r, '*', '/') {
        lemma_token_outside_comment(s.delimited(if s.depth > 0 { (s.depth - 1) as nat } else { 0 }));
    } else if r[0] == ' ' || r[0] == '\t' {
        lemma_token_outside_comment(s.right(1));
    } else if begins(r, '\r', '\n') {
        lemma_token_outside_comment(s.down(2));
    } else if r[0] == '\r' || r[0] == '\n' {
        lemma_token_outside_comment(s.down(1));
    } else if s.depth > 0 {
        lemma_token_outside_comment(s.right(1));
    }
}

/// Lookahead can be repeated: a second `peek` right after a first finds
/// the scanner as it was before the first, leaves it so, and gives the same
/// token, or the same diagnostic.
pub proof fn lemma_peek_repeats(
    before: LexerState,
    between: LexerState,
    after: LexerState,
    first: Result<Tok, String>,
    second: Result<Tok, String>,
)
    requires
        between == before,
        answers(first, before@),
        after == between,
        answers(second, between@),
    ensures
        after == before,
        first is Ok ==> second == first,
        first is Err ==> second is Err && second->Err_0@ == first->Err_0@,
{
}

/// Trimming does not lengthen a text.
pub proof fn lemma_trimmed_len(s: Seq<char>)
    ensures
        trimmed(s).len() <= s.len(),
    decreases s.len(),
{
    if s.len() > 0 && is_space(s.last()) {
        lemma_trimmed_len(s.drop_last());
    }
}

/// The diagnostic of a scanner's message at a position.
fn tagged(msg: String, info: &LineInfo) -> (r: String)
    ensures
        r@ == "lexer error: "@ + msg@ + " at "@ + nat_text(info.line_no as nat) + ":"@ + nat_text(
            info.col_no as nat,
        ),
{
    let mut r = String::from_str("lexer error: ");
    r.append(msg.as_str());
    r.append(" at ");
    let line = u64_to_string(info.line_no);
    r.append(line.as_str());
    r.append(":");
    let col = u64_to_string(info.col_no);
    r.append(col.as_str());
    r
}

/// Scans the next token.
fn lex<'a>(l: &mut LexerState<'a>) -> (r: Result<Tok, String>)
    requires
        old(l)@.fits(),
    ensures
        final(l)@ == scan(old(l)@).0,
        reports(r, scan(old(l)@).1),
        final(l)@.fits(),
{
    loop
        invariant
            l@.fits(),
            scan(l@) == scan(old(l)@),
        decreases l.rest@.len(),
    {
        let s = l.rest;
        let ghost here = l@;
        let first = ascii_head(s);
        if first.is_none() {
            if s.is_empty() {
                return Err(String::from_str("unexpected end of program"));
            }
            let (c, t) = split_first(s);
            if l.comment_depth > 0 {
                l.info.incr_col(1);
                l.rest = t;
                assert(l@ == here.right(1));
                continue ;
            }
            let mut m = String::from_str("unexpected token '");
            m.append(c);
            m.append("'");
            assert(c@ == seq![s@[0]]);
            return Err(m);
        }
        let c = first.unwrap();
        let (_, t) = split_first(s);
        let second = ascii_head(t);
        assert(t@.len() > 0 ==> t@[0] == s@[1]);
        if c == 0x2F && second == Some(0x2Au8) {
            let (_, u) = split_first(t);
            l.comment_depth = l.comment_depth + 1;
            l.rest = u;
            assert(u@ == s@.skip(2));
            assert(l@ == here.delimited(here.depth + 1));
        } else if c == 0x2A && second == Some(0x2Fu8) {
            let (_, u) = split_first(t);
            if l.comment_depth > 0 {
                l.comment_depth = l.comment_depth - 1;
            }
            l.rest = u;
            assert(u@ == s@.skip(2));
            assert(l@ == here.delimited(if here.depth > 0 { (here.depth - 1) as nat } else { 0 }));
        } else if c == 0x20 || c == 0x09 {
            l.info.incr_col(1);
            l.rest = t;
            assert(l@ == here.right(1));
        } else if c == 0x0D && second == Some(0x0Au8) {
            let (_, u) = split_first(t);
            l.info.incr_line(1);
            l.rest = u;
            assert(u@ == s@.skip(2));
            assert(l@ == here.down(2));
        } else if c == 0x0D || c == 0x0A {
            l.info.incr_line(1);
            l.rest = t;
            assert(l@ == here.down(1));
        } else if l.comment_depth > 0 {
            l.info.incr_col(1);
            l.rest = t;
            assert(l@ == here.right(1));
        } else if c == 0x2B {
            l.info.incr_col(1);
            l.rest = t;
            assert(l@ == here.right(1));
            return Ok(Tok::PLUS);
        } else if c == 0x2A {
            l.info.incr_col(1);
            l.rest = t;
            assert(l@ == here.right(1));
            return Ok(Tok::TIMES);
        } else if c == 0x24 {
            l.info.incr_col(1);
            l.rest = t;
            assert(l@ == here.right(1));
            return Ok(Tok::DOLLAR);
        } else {
            match leading_digits(LITERAL, s) {
                Some(n) => {
                    proof {
                        lemma_digit_run(s@);
                    }
                    let (digits, u) = split_ascii(s, n);
                    match parse_decimal(digits) {
                        Some(v) => {
                            l.info.incr_col(n as u64);
                            l.rest = u;
                            assert(l@ == here.right(n as nat));
                            return Ok(Tok::I32(v));
                        },
                        None => {
                            return Err(String::from_str("integer literal out of range"));
                        },
                    }
                },
                None => {
                    let (c, _) = split_first(s);
                    let mut m = String::from_str("unexpected token '");
                    m.append(c);
                    m.append("'");
                    assert(c@ == seq![s@[0]]);
                    return Err(m);
                },
            }
        }
    }
}

} // verus!
