//! The first token set of the language, and the removal of white space
//! outside quotes that the first lexer relied on.
use vstd::prelude::*;

use crate::text::{chars_of, push_char};

verus! {

#[derive(PartialEq, Debug, Clone)]
pub enum Token {
    String(String),
    OpenParen,
    CloseParen,
    StartBlock,
    EndBlock,
    Identifier,
    ConstantNumber(String),
    Boolean(bool),
    WhileLoop,
    MathOp(MathOp),
    EndLine,
    If,
    ForLoop,
    Comma,
    Increment,
    Decrement,
    Else,
    Elif,
    FunctionCall(String),
    Ignore,
    OpenBracket,
    CloseBracket,
}

#[derive(PartialEq, Eq, Structural, Debug, Clone, Copy)]
pub enum MathOp {
    Add,
    Multiply,
    Divide,
    Subtract,
    Modulus,
    Equals,
    NotEqual,
    LessThan,
    GreaterThan,
    LessThanOrEqualTo,
    GreaterThanOrEqualTo,
    And,
    Or,
    Not,
}

/// Space, tab, carriage return or line feed.
pub open spec fn is_blank(c: char) -> bool {
    c == ' ' || c == '\t' || c == '\r' || c == '\n'
}

/// The text of `s[i..]` with blanks dropped where `eat` holds; a quote
/// (`"` or `'`) not preceded by a backslash flips `eat`.
pub open spec fn without_spaces_from(s: Seq<char>, i: int, eat: bool) -> Seq<char>
    decreases s.len() - i,
{
    if i < 0 || i >= s.len() {
        Seq::empty()
    } else if !is_blank(s[i]) {
        let flips = (s[i] == '"' || s[i] == '\'') && i > 0 && s[i - 1] != '\\';
        seq![s[i]] + without_spaces_from(s, i + 1, if flips { !eat } else { eat })
    } else if eat {
        without_spaces_from(s, i + 1, eat)
    } else {
        seq![s[i]] + without_spaces_from(s, i + 1, eat)
    }
}

/// Drops spaces, tabs and line breaks, except between quotes. The text may
/// not start with a quote (the character before it would be read).
pub fn remove_spaces(raw: &str) -> (result: String)
    requires
        raw@.len() > 0 ==> raw@[0] != '"' && raw@[0] != '\'',
    ensures
        result@ == without_spaces_from(raw@, 0, true),
{
    let mut eat = true;
    let chars = chars_of(raw);
    let mut result = String::new();
    let mut i: usize = 0;
    while i < chars.len()
        invariant
            chars@ == raw@,
            i <= chars@.len(),
            raw@.len() > 0 ==> raw@[0] != '"' && raw@[0] != '\'',
            result@ + without_spaces_from(raw@, i as int, eat) == without_spaces_from(raw@, 0, true),
        decreases chars@.len() - i,
    {
        let c = chars[i];
        let ghost before = result@;
        let ghost old_eat = eat;
        if c != ' ' && c != '\t' && c != '\r' && c != '\n' {
            if (c == '"' || c == '\'') && chars[i - 1] != '\\' {
                eat = !eat;
            }
            push_char(&mut result, c);
        } else {
            if !eat {
                push_char(&mut result, c);
            }
        }
        i = i + 1;
        assert(result@ + without_spaces_from(raw@, i as int, eat) =~= before
            + without_spaces_from(raw@, (i - 1) as int, old_eat));
    }
    assert(result@ + without_spaces_from(raw@, i as int, eat) =~= result@);
    result
}

} // verus!
