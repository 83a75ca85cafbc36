//! The lexer: turns program text into a queue of tokens.
//!
//! Comments (`// ...` to the end of the line, `/* ... */`) are removed
//! first. The remaining text is then scanned from left to right; at each
//! position the first of these alternatives that applies produces a token:
//! a string literal, a number, an operator, `=`, `,`, `;`, a bracket, an
//! identifier or keyword. A character that starts none of them (white space,
//! or anything the language does not know) is skipped.
use std::collections::VecDeque;
use vstd::prelude::*;

use crate::text::{chars_of, string_from_chars, string_from_span};

verus! {

#[derive(PartialEq, Debug, Clone)]
pub enum Token {
    Identifier(String),
    String(String),
    OpenParen,
    CloseParen,
    OpenBlock,
    CloseBlock,
    ConstantNumber(String),
    Boolean(bool),
    WhileLoop,
    MathOp(MathOp),
    EndLine,
    If,
    ForLoop,
    Comma,
    Increment,
    Decrement,
    Else,
    Elif,
    Ignore,
    OpenBracket,
    CloseBracket,
    DefineFunction,
    Assign,
}

#[derive(PartialEq, Eq, Structural, Debug, Clone, Copy)]
pub enum MathOp {
    Add,
    Multiply,
    Divide,
    Subtract,
    Modulus,
    Equals,
    NotEqual,
    LessThan,
    GreaterThan,
    LessThanOrEqualTo,
    GreaterThanOrEqualTo,
    And,
    Or,
    Not,
}

/// A token with its text as a sequence of characters.
pub enum TokenView {
    Identifier(Seq<char>),
    String(Seq<char>),
    OpenParen,
    CloseParen,
    OpenBlock,
    CloseBlock,
    ConstantNumber(Seq<char>),
    Boolean(bool),
    WhileLoop,
    MathOp(MathOp),
    EndLine,
    If,
    ForLoop,
    Comma,
    Increment,
    Decrement,
    Else,
    Elif,
    Ignore,
    OpenBracket,
    CloseBracket,
    DefineFunction,
    Assign,
}

impl View for Token {
    type V = TokenView;

    open spec fn view(&self) -> TokenView {
        match self {
            Token::Identifier(s) => TokenView::Identifier(s@),
            Token::String(s) => TokenView::String(s@),
            Token::OpenParen => TokenView::OpenParen,
            Token::CloseParen => TokenView::CloseParen,
            Token::OpenBlock => TokenView::OpenBlock,
            Token::CloseBlock => TokenView::CloseBlock,
            Token::ConstantNumber(s) => TokenView::ConstantNumber(s@),
            Token::Boolean(b) => TokenView::Boolean(*b),
            Token::WhileLoop => TokenView::WhileLoop,
            Token::MathOp(op) => TokenView::MathOp(*op),
            Token::EndLine => TokenView::EndLine,
            Token::If => TokenView::If,
            Token::ForLoop => TokenView::ForLoop,
            Token::Comma => TokenView::Comma,
            Token::Increment => TokenView::Increment,
            Token::Decrement => TokenView::Decrement,
            Token::Else => TokenView::Else,
            Token::Elif => TokenView::Elif,
            Token::Ignore => TokenView::Ignore,
            Token::OpenBracket => TokenView::OpenBracket,
            Token::CloseBracket => TokenView::CloseBracket,
            Token::DefineFunction => TokenView::DefineFunction,
            Token::Assign => TokenView::Assign,
        }
    }
}

/// The views of a sequence of tokens.
pub open spec fn tokens_view(ts: Seq<Token>) -> Seq<TokenView> {
    ts.map_values(|t: Token| t@)
}

// ---------------------------------------------------------------------
// Character classes
// ---------------------------------------------------------------------
/// Whether the regex class `\d` (Unicode decimal digit) holds of `c`.
pub uninterp spec fn regex_decimal_digit(c: char) -> bool;

/// Tests `c` against the pattern `^\d$` with `regex::Regex::is_match`.
/// The answer is the name `regex_decimal_digit` applied to `c`; the crate
/// documents `\d` as the Unicode class `\p{Nd}`, whose only ASCII members
/// are `'0'` to `'9'`, and that much is stated. Which characters beyond
/// ASCII belong to the class is left unsaid.
#[verifier::external_body]
fn matches_regex_digit(c: char) -> (r: bool)
    ensures
        r == regex_decimal_digit(c),
        (c as u32) < 128 ==> (r <==> ('0' <= c && c <= '9')),
{
    let mut buf = [0u8; 4];
    regex::Regex::new(r"^\d$").unwrap().is_match(c.encode_utf8(&mut buf))
}

/// A digit for the lexer: what the regex class `\d` accepts, which among
/// ASCII characters is `'0'` to `'9'`.
pub open spec fn is_digit(c: char) -> bool {
    if (c as u32) < 128 {
        '0' <= c <= '9'
    } else {
        regex_decimal_digit(c)
    }
}

pub open spec fn is_ident_start(c: char) -> bool {
    ('a' <= c <= 'z') || ('A' <= c <= 'Z') || c == '_'
}

pub open spec fn is_ident_continue(c: char) -> bool {
    is_ident_start(c) || ('0' <= c <= '9') || c == '<' || c == '>' || c == '?'
}

fn digit(c: char) -> (r: bool)
    ensures
        r == is_digit(c),
{
    matches_regex_digit(c)
}

fn ident_start(c: char) -> (r: bool)
    ensures
        r == is_ident_start(c),
{
    ('a' <= c && c <= 'z') || ('A' <= c && c <= 'Z') || c == '_'
}

fn ident_continue(c: char) -> (r: bool)
    ensures
        r == is_ident_continue(c),
{
    ident_start(c) || ('0' <= c && c <= '9') || c == '<' || c == '>' || c == '?'
}

// ---------------------------------------------------------------------
// Comments
// ---------------------------------------------------------------------
/// Where the comment stripper stands: in ordinary text, inside a line
/// comment, or inside a block comment that is known to be closed.
pub enum CommentMode {
    Text,
    Line,
    Block,
}

/// Whether `*/` occurs at some position `k >= j` of `s`.
pub open spec fn closes_from(s: Seq<char>, j: int) -> bool
    decreases s.len() - j,
{
    if j < 0 || j + 1 >= s.len() {
        false
    } else if s[j] == '*' && s[j + 1] == '/' {
        true
    } else {
        closes_from(s, j + 1)
    }
}

/// The text of `s` from position `i` on, with comments removed, when the
/// scan at `i` is in `mode`.
pub open spec fn strip_from(s: Seq<char>, i: int, mode: CommentMode) -> Seq<char>
    decreases s.len() - i,
{
    if i < 0 || i >= s.len() {
        Seq::empty()
    } else {
        match mode {
            CommentMode::Text => if s[i] == '/' && i + 1 < s.len() && s[i + 1] == '/' {
                strip_from(s, i + 2, CommentMode::Line)
            } else if s[i] == '/' && i + 1 < s.len() && s[i + 1] == '*' && closes_from(s, i + 2) {
                strip_from(s, i + 2, CommentMode::Block)
            } else {
                seq![s[i]] + strip_from(s, i + 1, CommentMode::Text)
            },
            CommentMode::Line => if s[i] == '\n' {
                seq!['\n'] + strip_from(s, i + 1, CommentMode::Text)
            } else {
                strip_from(s, i + 1, CommentMode::Line)
            },
            CommentMode::Block => if s[i] == '*' && i + 1 < s.len() && s[i + 1] == '/' {
                strip_from(s, i + 2, CommentMode::Text)
            } else {
                strip_from(s, i + 1, CommentMode::Block)
            },
        }
    }
}

/// `s` with its comments removed.
pub open spec fn strip_comments_spec(s: Seq<char>) -> Seq<char> {
    strip_from(s, 0, CommentMode::Text)
}

fn closes_at_or_after(chars: &Vec<char>, j: usize) -> (r: bool)
    ensures
        r == closes_from(chars@, j as int),
{
    let n = chars.len();
    let mut k = j;
    while n > 0 && k < n - 1
        invariant
            j <= k,
            n == chars@.len(),
            closes_from(chars@, j as int) == closes_from(chars@, k as int),
        decreases n - k,
    {
        if chars[k] == '*' && chars[k + 1] == '/' {
            return true;
        }
        k = k + 1;
    }
    false
}

/// Removes `//` line comments (up to, not including, the end of line) and
/// `/* ... */` block comments; a `/*` with no `*/` after it stays text.
pub fn strip_comments(chars: &Vec<char>) -> (out: Vec<char>)
    ensures
        out@ == strip_comments_spec(chars@),
{
    let n = chars.len();
    let mut out: Vec<char> = Vec::new();
    let mut i: usize = 0;
    let mut mode = CommentMode::Text;
    while i < n
        invariant
            i <= n,
            n == chars@.len(),
            (mode is Block) ==> closes_from(chars@, i as int),
            out@ + strip_from(chars@, i as int, mode) == strip_comments_spec(chars@),
        decreases n - i,
    {
        let c = chars[i];
        let ghost s = chars@;
        let ghost before = strip_from(s, i as int, mode);
        let ghost prev_out = out@;
        match mode {
            CommentMode::Text => {
                if c == '/' && i + 1 < n && chars[i + 1] == '/' {
                    mode = CommentMode::Line;
                    i = i + 2;
                } else if c == '/' && i + 1 < n && chars[i + 1] == '*' && closes_at_or_after(
                    chars,
                    i + 2,
                ) {
                    mode = CommentMode::Block;
                    i = i + 2;
                } else {
                    out.push(c);
                    i = i + 1;
                    assert(out@ + strip_from(s, i as int, mode) =~= prev_out + (seq![c]
                        + strip_from(s, i as int, mode)));
                }
            },
            CommentMode::Line => {
                if c == '\n' {
                    out.push(c);
                    mode = CommentMode::Text;
                    i = i + 1;
                    assert(out@ + strip_from(s, i as int, mode) =~= prev_out + (seq![c]
                        + strip_from(s, i as int, mode)));
                } else {
                    i = i + 1;
                }
            },
            CommentMode::Block => {
                if c == '*' && i + 1 < n && chars[i + 1] == '/' {
                    mode = CommentMode::Text;
                    i = i + 2;
                } else {
                    i = i + 1;
                }
            },
        }
    }
    out
}

// ---------------------------------------------------------------------
// Scanning
// ---------------------------------------------------------------------
/// For a string literal whose opening quote stands just before `j`: the
/// position of its closing quote. A backslash takes the next character with
/// it (any character but a line feed); a backslash before a line feed or at
/// the end leaves the literal unclosed.
pub open spec fn string_close(s: Seq<char>, j: int) -> Option<int>
    decreases s.len() - j,
{
    if j < 0 || j >= s.len() {
        None
    } else if s[j] == '"' {
        Some(j)
    } else if s[j] == '\\' {
        if j + 1 < s.len() && s[j + 1] != '\n' {
            string_close(s, j + 2)
        } else {
            None
        }
    } else {
        string_close(s, j + 1)
    }
}

/// For a number whose digits run up to `j`: where it ends. Digits go on,
/// and so does a `_` that is followed by a digit.
pub open spec fn number_end(s: Seq<char>, j: int) -> int
    decreases s.len() - j,
{
    if 0 <= j < s.len() && is_digit(s[j]) {
        number_end(s, j + 1)
    } else if 0 <= j && j + 1 < s.len() && s[j] == '_' && is_digit(s[j + 1]) {
        number_end(s, j + 2)
    } else {
        j
    }
}

/// For an identifier whose characters run up to `j`: where it ends.
pub open spec fn ident_end(s: Seq<char>, j: int) -> int
    decreases s.len() - j,
{
    if 0 <= j < s.len() && is_ident_continue(s[j]) {
        ident_end(s, j + 1)
    } else {
        j
    }
}

/// `w` without its underscores.
pub open spec fn without_underscores(w: Seq<char>) -> Seq<char>
    decreases w.len(),
{
    if w.len() == 0 {
        w
    } else if w.last() == '_' {
        without_underscores(w.drop_last())
    } else {
        without_underscores(w.drop_last()).push(w.last())
    }
}

/// The operator written with the two characters `a` and `b`, if any.
pub open spec fn two_char_op(a: char, b: char) -> Option<TokenView> {
    if a == '+' && b == '+' {
        Some(TokenView::Increment)
    } else if a == '-' && b == '-' {
        Some(TokenView::Decrement)
    } else if a == '=' && b == '=' {
        Some(TokenView::MathOp(MathOp::Equals))
    } else if a == '!' && b == '=' {
        Some(TokenView::MathOp(MathOp::NotEqual))
    } else if a == '<' && b == '=' {
        Some(TokenView::MathOp(MathOp::LessThanOrEqualTo))
    } else if a == '>' && b == '=' {
        Some(TokenView::MathOp(MathOp::GreaterThanOrEqualTo))
    } else if a == '&' && b == '&' {
        Some(TokenView::MathOp(MathOp::And))
    } else if a == '|' && b == '|' {
        Some(TokenView::MathOp(MathOp::Or))
    } else {
        None
    }
}

/// The token written with the single character `c`, if any.
pub open spec fn one_char_token(c: char) -> Option<TokenView> {
    if c == '+' {
        Some(TokenView::MathOp(MathOp::Add))
    } else if c == '-' {
        Some(TokenView::MathOp(MathOp::Subtract))
    } else if c == '*' {
        Some(TokenView::MathOp(MathOp::Multiply))
    } else if c == '/' {
        Some(TokenView::MathOp(MathOp::Divide))
    } else if c == '%' {
        Some(TokenView::MathOp(MathOp::Modulus))
    } else if c == '<' {
        Some(TokenView::MathOp(MathOp::LessThan))
    } else if c == '>' {
        Some(TokenView::MathOp(MathOp::GreaterThan))
    } else if c == '!' {
        Some(TokenView::MathOp(MathOp::Not))
    } else if c == '=' {
        Some(TokenView::Assign)
    } else if c == ',' {
        Some(TokenView::Comma)
    } else if c == ';' {
        Some(TokenView::EndLine)
    } else if c == '(' {
        Some(TokenView::OpenParen)
    } else if c == ')' {
        Some(TokenView::CloseParen)
    } else if c == '{' {
        Some(TokenView::OpenBlock)
    } else if c == '}' {
        Some(TokenView::CloseBlock)
    } else if c == '[' {
        Some(TokenView::OpenBracket)
    } else if c == ']' {
        Some(TokenView::CloseBracket)
    } else {
        None
    }
}

/// The keyword spelled by `w`, if it is one.
pub open spec fn keyword(w: Seq<char>) -> Option<TokenView> {
    if w == seq!['w', 'h', 'i', 'l', 'e'] {
        Some(TokenView::WhileLoop)
    } else if w == seq!['i', 'f'] {
        Some(TokenView::If)
    } else if w == seq!['e', 'l', 'i', 'f'] {
        Some(TokenView::Elif)
    } else if w == seq!['e', 'l', 's', 'e'] {
        Some(TokenView::Else)
    } else if w == seq!['f', 'o', 'r'] {
        Some(TokenView::ForLoop)
    } else if w == seq!['f', 'n'] {
        Some(TokenView::DefineFunction)
    } else if w == seq!['t', 'r', 'u', 'e'] {
        Some(TokenView::Boolean(true))
    } else if w == seq!['f', 'a', 'l', 's', 'e'] {
        Some(TokenView::Boolean(false))
    } else {
        None
    }
}

/// The token for an identifier-shaped word: a keyword or an identifier.
pub open spec fn word_token(w: Seq<char>) -> TokenView {
    match keyword(w) {
        Some(t) => t,
        None => TokenView::Identifier(w),
    }
}

/// What the scan finds at position `i` (inside `s`): the token, if any,
/// and the position where the scan goes on.
pub open spec fn scan_at(s: Seq<char>, i: int) -> (Option<TokenView>, int) {
    let c = s[i];
    if c == '"' && string_close(s, i + 1) is Some {
        let e = string_close(s, i + 1)->0;
        (Some(TokenView::String(s.subrange(i + 1, e))), e + 1)
    } else if is_digit(c) {
        let e = number_end(s, i + 1);
        (Some(TokenView::ConstantNumber(without_underscores(s.subrange(i, e)))), e)
    } else if i + 1 < s.len() && two_char_op(c, s[i + 1]) is Some {
        (two_char_op(c, s[i + 1]), i + 2)
    } else if one_char_token(c) is Some {
        (one_char_token(c), i + 1)
    } else if is_ident_start(c) {
        let e = ident_end(s, i + 1);
        (Some(word_token(s.subrange(i, e))), e)
    } else {
        (None, i + 1)
    }
}

/// The operator that a one-character operator becomes when `=` follows it.
pub open spec fn with_equals(m: MathOp) -> Option<MathOp> {
    match m {
        MathOp::LessThan => Some(MathOp::LessThanOrEqualTo),
        MathOp::GreaterThan => Some(MathOp::GreaterThanOrEqualTo),
        MathOp::Not => Some(MathOp::NotEqual),
        _ => None,
    }
}

/// How operators are spelled: distinct spellings, of one character or of
/// two, read as distinct tokens, and no two-character token is read from a
/// single character; `<`, `>`
/// and `!` followed by `=` read as `<=`, `>=` and `!=`, and `=` followed by
/// `=` as `==`; and where two characters spell an operator, the scan reads
/// both at once as that operator.
pub proof fn lemma_operator_spellings(a: char, b: char, c: char, d: char, s: Seq<char>, i: int)
    ensures
        two_char_op(a, b) is Some && two_char_op(a, b) == two_char_op(c, d) ==> a == c && b == d,
        two_char_op(a, b) is Some ==> one_char_token(c) != two_char_op(a, b),
        one_char_token(a) is Some && one_char_token(a) == one_char_token(c) ==> a == c,
        one_char_token(a) matches Some(TokenView::MathOp(m)) ==> (with_equals(m) matches Some(n)
            ==> two_char_op(a, '=') == Some(TokenView::MathOp(n))),
        one_char_token(a) == Some(TokenView::Assign) ==> two_char_op(a, '=') == Some(
            TokenView::MathOp(MathOp::Equals),
        ),
        two_char_op(a, '=') == Some(TokenView::MathOp(MathOp::LessThanOrEqualTo)) <==> a == '<',
        two_char_op(a, '=') == Some(TokenView::MathOp(MathOp::GreaterThanOrEqualTo)) <==> a == '>',
        0 <= i && i + 1 < s.len() && two_char_op(s[i], s[i + 1]) is Some ==> scan_at(s, i) == (
            two_char_op(s[i], s[i + 1]),
            i + 2,
        ),
{
}

pub proof fn lemma_string_close(s: Seq<char>, j: int)
    requires
        0 <= j,
    ensures
        string_close(s, j) matches Some(e) ==> j <= e < s.len() && s[e] == '"',
    decreases s.len() - j,
{
    if 0 <= j < s.len() && s[j] != '"' {
        if s[j] == '\\' {
            if j + 1 < s.len() && s[j + 1] != '\n' {
                lemma_string_close(s, j + 2);
            }
        } else {
            lemma_string_close(s, j + 1);
        }
    }
}

pub proof fn lemma_number_end(s: Seq<char>, j: int)
    requires
        0 <= j <= s.len(),
    ensures
        j <= number_end(s, j) <= s.len(),
    decreases s.len() - j,
{
    if 0 <= j < s.len() && is_digit(s[j]) {
        lemma_number_end(s, j + 1);
    } else if 0 <= j && j + 1 < s.len() && s[j] == '_' && is_digit(s[j + 1]) {
        lemma_number_end(s, j + 2);
    }
}

pub proof fn lemma_ident_end(s: Seq<char>, j: int)
    requires
        0 <= j <= s.len(),
    ensures
        j <= ident_end(s, j) <= s.len(),
    decreases s.len() - j,
{
    if 0 <= j < s.len() && is_ident_continue(s[j]) {
        lemma_ident_end(s, j + 1);
    }
}

/// The scan always moves forward and stays within the text.
pub proof fn lemma_scan_advances(s: Seq<char>, i: int)
    requires
        0 <= i < s.len(),
    ensures
        i < scan_at(s, i).1 <= s.len(),
{
    lemma_string_close(s, i + 1);
    lemma_number_end(s, i + 1);
    lemma_ident_end(s, i + 1);
}

/// The tokens of `s` from position `i` on.
pub open spec fn lex_from(s: Seq<char>, i: int) -> Seq<TokenView>
    decreases s.len() - i,
{
    if i < 0 || i >= s.len() {
        Seq::empty()
    } else {
        let (t, next) = scan_at(s, i);
        proof {
            lemma_scan_advances(s, i);
        }
        let rest = lex_from(s, next);
        match t {
            Some(t) => seq![t] + rest,
            None => rest,
        }
    }
}

/// The tokens of a program text.
pub open spec fn tokenize_spec(text: Seq<char>) -> Seq<TokenView> {
    lex_from(strip_comments_spec(text), 0)
}

/// `lex_from` never yields `Ignore`.
proof fn lemma_lex_from_no_ignore(s: Seq<char>, i: int)
    ensures
        forall|k: int| 0 <= k < lex_from(s, i).len() ==> lex_from(s, i)[k] != TokenView::Ignore,
    decreases s.len() - i,
{
    if 0 <= i < s.len() {
        lemma_scan_advances(s, i);
        let (t, next) = scan_at(s, i);
        lemma_lex_from_no_ignore(s, next);
        assert(t != Some(TokenView::Ignore));
    }
}

/// No token of a program text is `Ignore`: whatever the scan passes over
/// (white space, characters that start no token) leaves no token behind.
pub proof fn lemma_tokenize_has_no_ignore(text: Seq<char>)
    ensures
        forall|k: int| 0 <= k < tokenize_spec(text).len() ==> tokenize_spec(text)[k] != TokenView::Ignore,
{
    lemma_lex_from_no_ignore(strip_comments_spec(text), 0);
}

fn find_string_close(chars: &Vec<char>, j: usize) -> (r: Option<usize>)
    ensures
        match r {
            Some(e) => string_close(chars@, j as int) == Some(e as int),
            None => string_close(chars@, j as int) is None,
        },
{
    let n = chars.len();
    let mut k = j;
    while k < n
        invariant
            j <= k,
            n == chars@.len(),
            string_close(chars@, j as int) == string_close(chars@, k as int),
        decreases n - k,
    {
        let c = chars[k];
        if c == '"' {
            return Some(k);
        } else if c == '\\' {
            if k + 1 < n && chars[k + 1] != '\n' {
                k = k + 2;
            } else {
                return None;
            }
        } else {
            k = k + 1;
        }
    }
    None
}

fn find_number_end(chars: &Vec<char>, j: usize) -> (r: usize)
    requires
        j <= chars@.len(),
    ensures
        r == number_end(chars@, j as int),
{
    let n = chars.len();
    let mut k = j;
    loop
        invariant
            j <= k <= n,
            n == chars@.len(),
            number_end(chars@, j as int) == number_end(chars@, k as int),
        decreases n - k,
    {
        if k < n && digit(chars[k]) {
            k = k + 1;
        } else if k < n && k + 1 < n && chars[k] == '_' && digit(chars[k + 1]) {
            k = k + 2;
        } else {
            return k;
        }
    }
}

fn find_ident_end(chars: &Vec<char>, j: usize) -> (r: usize)
    requires
        j <= chars@.len(),
    ensures
        r == ident_end(chars@, j as int),
{
    let n = chars.len();
    let mut k = j;
    while k < n && ident_continue(chars[k])
        invariant
            j <= k <= n,
            n == chars@.len(),
            ident_end(chars@, j as int) == ident_end(chars@, k as int),
        decreases n - k,
    {
        k = k + 1;
    }
    k
}

/// `chars[start..end]` without its underscores, as a `String`.
fn digits_without_underscores(chars: &Vec<char>, start: usize, end: usize) -> (out: String)
    requires
        start <= end <= chars@.len(),
    ensures
        out@ == without_underscores(chars@.subrange(start as int, end as int)),
{
    let mut out = String::new();
    let mut k = start;
    assert(chars@.subrange(start as int, start as int) =~= Seq::<char>::empty());
    while k < end
        invariant
            start <= k <= end <= chars@.len(),
            out@ == without_underscores(chars@.subrange(start as int, k as int)),
        decreases end - k,
    {
        let c = chars[k];
        assert(chars@.subrange(start as int, k + 1).drop_last() =~= chars@.subrange(
            start as int,
            k as int,
        ));
        if c != '_' {
            crate::text::push_char(&mut out, c);
        }
        k = k + 1;
    }
    out
}

fn two_char_token(a: char, b: char) -> (r: Option<Token>)
    ensures
        match r {
            Some(t) => two_char_op(a, b) == Some(t@),
            None => two_char_op(a, b) is None,
        },
{
    if a == '+' && b == '+' {
        Some(Token::Increment)
    } else if a == '-' && b == '-' {
        Some(Token::Decrement)
    } else if a == '=' && b == '=' {
        Some(Token::MathOp(MathOp::Equals))
    } else if a == '!' && b == '=' {
        Some(Token::MathOp(MathOp::NotEqual))
    } else if a == '<' && b == '=' {
        Some(Token::MathOp(MathOp::LessThanOrEqualTo))
    } else if a == '>' && b == '=' {
        Some(Token::MathOp(MathOp::GreaterThanOrEqualTo))
    } else if a == '&' && b == '&' {
        Some(Token::MathOp(MathOp::And))
    } else if a == '|' && b == '|' {
        Some(Token::MathOp(MathOp::Or))
    } else {
        None
    }
}

fn single_char_token(c: char) -> (r: Option<Token>)
    ensures
        match r {
            Some(t) => one_char_token(c) == Some(t@),
            None => one_char_token(c) is None,
        },
{
    if c == '+' {
        Some(Token::MathOp(MathOp::Add))
    } else if c == '-' {
        Some(Token::MathOp(MathOp::Subtract))
    } else if c == '*' {
        Some(Token::MathOp(MathOp::Multiply))
    } else if c == '/' {
        Some(Token::MathOp(MathOp::Divide))
    } else if c == '%' {
        Some(Token::MathOp(MathOp::Modulus))
    } else if c == '<' {
        Some(Token::MathOp(MathOp::LessThan))
    } else if c == '>' {
        Some(Token::MathOp(MathOp::GreaterThan))
    } else if c == '!' {
        Some(Token::MathOp(MathOp::Not))
    } else if c == '=' {
        Some(Token::Assign)
    } else if c == ',' {
        Some(Token::Comma)
    } else if c == ';' {
        Some(Token::EndLine)
    } else if c == '(' {
        Some(Token::OpenParen)
    } else if c == ')' {
        Some(Token::CloseParen)
    } else if c == '{' {
        Some(Token::OpenBlock)
    } else if c == '}' {
        Some(Token::CloseBlock)
    } else if c == '[' {
        Some(Token::OpenBracket)
    } else if c == ']' {
        Some(Token::CloseBracket)
    } else {
        None
    }
}

/// Whether `chars[start..end]` spells `word`.
fn span_is(chars: &Vec<char>, start: usize, end: usize, word: &str) -> (r: bool)
    requires
        start <= end <= chars@.len(),
    ensures
        r == (chars@.subrange(start as int, end as int) == word@),
{
    let w = chars_of(word);
    if end - start != w.len() {
        assert(chars@.subrange(start as int, end as int).len() != word@.len());
        return false;
    }
    let mut k: usize = 0;
    while k < w.len()
        invariant
            start <= end <= chars@.len(),
            end - start == w@.len(),
            w@ == word@,
            k <= w@.len(),
            forall|m: int| 0 <= m < k ==> chars@[start + m] == w@[m],
        decreases w@.len() - k,
    {
        if chars[start + k] != w[k] {
            assert(chars@.subrange(start as int, end as int)[k as int] != word@[k as int]);
            return false;
        }
        k = k + 1;
    }
    assert(chars@.subrange(start as int, end as int) =~= word@);
    true
}

fn word_at(chars: &Vec<char>, start: usize, end: usize) -> (t: Token)
    requires
        start <= end <= chars@.len(),
    ensures
        t@ == word_token(chars@.subrange(start as int, end as int)),
{
    proof {
        reveal_strlit("while");
        reveal_strlit("if");
        reveal_strlit("elif");
        reveal_strlit("else");
        reveal_strlit("for");
        reveal_strlit("fn");
        reveal_strlit("true");
        reveal_strlit("false");
    }
    assert("while"@ =~= seq!['w', 'h', 'i', 'l', 'e']);
    assert("if"@ =~= seq!['i', 'f']);
    assert("elif"@ =~= seq!['e', 'l', 'i', 'f']);
    assert("else"@ =~= seq!['e', 'l', 's', 'e']);
    assert("for"@ =~= seq!['f', 'o', 'r']);
    assert("fn"@ =~= seq!['f', 'n']);
    assert("true"@ =~= seq!['t', 'r', 'u', 'e']);
    assert("false"@ =~= seq!['f', 'a', 'l', 's', 'e']);
    if span_is(chars, start, end, "while") {
        Token::WhileLoop
    } else if span_is(chars, start, end, "if") {
        Token::If
    } else if span_is(chars, start, end, "elif") {
        Token::Elif
    } else if span_is(chars, start, end, "else") {
        Token::Else
    } else if span_is(chars, start, end, "for") {
        Token::ForLoop
    } else if span_is(chars, start, end, "fn") {
        Token::DefineFunction
    } else if span_is(chars, start, end, "true") {
        Token::Boolean(true)
    } else if span_is(chars, start, end, "false") {
        Token::Boolean(false)
    } else {
        Token::Identifier(string_from_span(chars, start, end))
    }
}

/// The token (if any) at position `i` and the position after it.
fn scan(chars: &Vec<char>, i: usize) -> (r: (Option<Token>, usize))
    requires
        i < chars@.len(),
    ensures
        r.1 == scan_at(chars@, i as int).1,
        match r.0 {
            Some(t) => scan_at(chars@, i as int).0 == Some(t@),
            None => scan_at(chars@, i as int).0 is None,
        },
{
    let n = chars.len();
    let c = chars[i];
    proof {
        lemma_scan_advances(chars@, i as int);
        lemma_string_close(chars@, i + 1);
        lemma_number_end(chars@, i + 1);
        lemma_ident_end(chars@, i + 1);
    }
    if c == '"' {
        if let Some(e) = find_string_close(chars, i + 1) {
            return (Some(Token::String(string_from_span(chars, i + 1, e))), e + 1);
        }
    }
    if digit(c) {
        let e = find_number_end(chars, i + 1);
        return (Some(Token::ConstantNumber(digits_without_underscores(chars, i, e))), e);
    }
    if i + 1 < n {
        if let Some(t) = two_char_token(c, chars[i + 1]) {
            return (Some(t), i + 2);
        }
    }
    if let Some(t) = single_char_token(c) {
        return (Some(t), i + 1);
    }
    if ident_start(c) {
        let e = find_ident_end(chars, i + 1);
        return (Some(word_at(chars, i, e)), e);
    }
    (None, i + 1)
}

/// Splits program text into tokens: comments are removed, then the text is
/// scanned from left to right as the module documentation describes.
pub fn tokenize(text: &str) -> (tokens: VecDeque<Token>)
    ensures
        tokens_view(tokens@) == tokenize_spec(text@),
{
    let raw = chars_of(text);
    let s = strip_comments(&raw);
    let n = s.len();
    let mut tokens: VecDeque<Token> = VecDeque::new();
    let mut i: usize = 0;
    assert(tokens_view(tokens@) =~= Seq::<TokenView>::empty());
    while i < n
        invariant
            i <= n,
            n == s@.len(),
            s@ == strip_comments_spec(text@),
            tokens_view(tokens@) + lex_from(s@, i as int) == tokenize_spec(text@),
        decreases n - i,
    {
        let ghost prev = tokens_view(tokens@);
        let (t, next) = scan(&s, i);
        proof {
            lemma_scan_advances(s@, i as int);
        }
        match t {
            Some(t) => {
                let ghost tv = t@;
                tokens.push_back(t);
                assert(tokens_view(tokens@) =~= prev.push(tv));
                assert(tokens_view(tokens@) + lex_from(s@, next as int) =~= prev + (seq![tv]
                    + lex_from(s@, next as int)));
            },
            None => {},
        }
        i = next;
    }
    assert(tokens_view(tokens@) + lex_from(s@, i as int) =~= tokens_view(tokens@));
    tokens
}

} // verus!
