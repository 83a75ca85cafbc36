//! The interpreter: values, variables, the evaluation of expressions and
//! the execution of statements.
//!
//! Floating-point values are carried as their IEEE-754 bit patterns; every
//! computation on them (reading a literal, arithmetic, comparison,
//! conversion, formatting) is asked of a `FloatArithmetic` given by the
//! caller. What the library states of a result never depends on what that
//! object answers: where a result depends on it, the contracts say so and
//! leave it open.
use std::collections::VecDeque;
use vstd::prelude::*;

use crate::compiler::Type;
use crate::parse::{
    complete_view, expr_view, exprs_view, lemma_exprs_view, lemma_stmts_view, stmt_view, stmts_view,
    BinaryOperator, Complete, CompleteU, ExprView, Expression,
    Statement, StmtView, UnaryOperator,
};
use crate::number::{all_ascii_digits, decimal_value, is_ascii_digit, signed_decimal};
use crate::text::{chars_of, str_equals, string_from_chars};

verus! {

broadcast use vstd::std_specs::vec::axiom_vec_index_decreases;

/// A value of the language. `F32` and `F64` hold IEEE-754 bit patterns.
#[derive(PartialEq, Debug)]
pub enum Primitive {
    String(String),
    I32(i32),
    F32(u32),
    I64(i64),
    F64(u64),
    Bool(bool),
    Array(Vec<Primitive>),
}

/// A value with its text as a character sequence.
pub enum PrimView {
    String(Seq<char>),
    I32(i32),
    F32(u32),
    I64(i64),
    F64(u64),
    Bool(bool),
    Array(Seq<PrimView>),
}

pub open spec fn prim_view(p: Primitive) -> PrimView
    decreases p, 0nat,
{
    match p {
        Primitive::String(s) => PrimView::String(s@),
        Primitive::I32(v) => PrimView::I32(v),
        Primitive::F32(v) => PrimView::F32(v),
        Primitive::I64(v) => PrimView::I64(v),
        Primitive::F64(v) => PrimView::F64(v),
        Primitive::Bool(v) => PrimView::Bool(v),
        Primitive::Array(items) => PrimView::Array(prims_view_upto(items, items.len() as nat)),
    }
}

/// The views of the first `n` values of `v`.
pub open spec fn prims_view_upto(v: Vec<Primitive>, n: nat) -> Seq<PrimView>
    decreases v, n,
{
    if n == 0 || n > v.len() {
        Seq::empty()
    } else {
        prims_view_upto(v, (n - 1) as nat).push(prim_view(v[n - 1]))
    }
}

pub open spec fn prims_view(v: Vec<Primitive>) -> Seq<PrimView> {
    prims_view_upto(v, v.len() as nat)
}

pub proof fn lemma_prims_view_upto(v: Vec<Primitive>, n: nat)
    requires
        n <= v.len(),
    ensures
        prims_view_upto(v, n).len() == n,
        forall|i: int| 0 <= i < n ==> #[trigger] prims_view_upto(v, n)[i] == prim_view(v@[i]),
    decreases n,
{
    if n > 0 {
        lemma_prims_view_upto(v, (n - 1) as nat);
    }
}

/// The view of a vector of values is the view of each element.
pub proof fn lemma_prims_view(v: Vec<Primitive>)
    ensures
        prims_view(v) == v@.map_values(|p: Primitive| prim_view(p)),
{
    lemma_prims_view_upto(v, v.len() as nat);
    assert(prims_view(v) =~= v@.map_values(|p: Primitive| prim_view(p)));
}

impl View for Primitive {
    type V = PrimView;

    open spec fn view(&self) -> PrimView {
        prim_view(*self)
    }
}

/// A copy of a value.
pub fn copy_primitive(p: &Primitive) -> (r: Primitive)
    ensures
        r@ == p@,
    decreases p,
{
    match p {
        Primitive::String(s) => Primitive::String(s.clone()),
        Primitive::I32(v) => Primitive::I32(*v),
        Primitive::F32(v) => Primitive::F32(*v),
        Primitive::I64(v) => Primitive::I64(*v),
        Primitive::F64(v) => Primitive::F64(*v),
        Primitive::Bool(v) => Primitive::Bool(*v),
        Primitive::Array(items) => {
            let mut out: Vec<Primitive> = Vec::new();
            let mut k: usize = 0;
            proof {
                lemma_prims_view(*items);
                lemma_prims_view(out);
            }
            while k < items.len()
                invariant
                    k <= items@.len(),
                    *p == Primitive::Array(*items),
                    prims_view(*items) == items@.map_values(|q: Primitive| prim_view(q)),
                    out@.len() == k,
                    forall|m: int| 0 <= m < k ==> prim_view(#[trigger] out@[m]) == prim_view(items@[m]),
                decreases items@.len() - k,
            {
                proof {
                    assert(decreases_to!(*p => (*p)->Array_0));
                    assert(decreases_to!(*items => items[k as int]));
                }
                let q = copy_primitive(&items[k]);
                out.push(q);
                k = k + 1;
            }
            proof {
                lemma_prims_view(out);
                assert(prims_view(out) =~= prims_view(*items));
            }
            Primitive::Array(out)
        },
    }
}

// ---------------------------------------------------------------------
// Floating-point computation
// ---------------------------------------------------------------------
/// The floating-point computations the interpreter needs, on IEEE-754
/// bit patterns. The library makes no claim about what an implementation
/// returns; every result of the interpreter that depends on one of these
/// calls is left open by the contracts.
pub trait FloatArithmetic {
    /// The `f32` nearest to the decimal literal `text`.
    fn f32_parse(&self, text: &str) -> u32;

    /// The `f64` nearest to the decimal literal `text`.
    fn f64_parse(&self, text: &str) -> u64;

    /// `a op b` for one of `+ - * / %` on `f32`.
    fn f32_arith(&self, op: BinaryOperator, a: u32, b: u32) -> u32;

    /// `a op b` for one of `+ - * / %` on `f64`.
    fn f64_arith(&self, op: BinaryOperator, a: u64, b: u64) -> u64;

    /// `a op b` for one of `== != < <= > >=` on `f32`.
    fn f32_compare(&self, op: BinaryOperator, a: u32, b: u32) -> bool;

    /// `a op b` for one of `== != < <= > >=` on `f64`.
    fn f64_compare(&self, op: BinaryOperator, a: u64, b: u64) -> bool;

    /// `v as f32`.
    fn f32_from_i32(&self, v: i32) -> u32;

    /// `v as f64`.
    fn f64_from_i32(&self, v: i32) -> u64;

    /// `x as i32`.
    fn f32_to_i32(&self, x: u32) -> i32;

    /// `x as i64`.
    fn f32_to_i64(&self, x: u32) -> i64;

    /// `x as f64`.
    fn f32_to_f64(&self, x: u32) -> u64;

    /// The text `Display` gives for an `f32`.
    fn f32_text(&self, x: u32) -> String;

    /// The text `Display` gives for an `f64`.
    fn f64_text(&self, x: u64) -> String;
}

// ---------------------------------------------------------------------
// Text of values
// ---------------------------------------------------------------------
/// The decimal digits of `n`.
pub open spec fn digits_text(n: nat) -> Seq<char>
    decreases n,
{
    if n < 10 {
        seq![(('0' as int) + n) as char]
    } else {
        digits_text(n / 10).push((('0' as int) + n % 10) as char)
    }
}

/// An integer in decimal, with a `-` in front when it is negative.
pub open spec fn int_text(v: int) -> Seq<char> {
    if v < 0 {
        seq!['-'] + digits_text((-v) as nat)
    } else {
        digits_text(v as nat)
    }
}

pub open spec fn bool_text(b: bool) -> Seq<char> {
    if b {
        seq!['t', 'r', 'u', 'e']
    } else {
        seq!['f', 'a', 'l', 's', 'e']
    }
}

/// `s` without its last character, if it has one (`String::pop`).
pub open spec fn pop_char(s: Seq<char>) -> Seq<char> {
    if s.len() > 0 {
        s.drop_last()
    } else {
        s
    }
}

/// The text a value prints as; `None` where it depends on the text of a
/// floating-point number.
pub open spec fn display_text(p: PrimView) -> Option<Seq<char>>
    decreases p, 0nat,
{
    match p {
        PrimView::String(s) => Some(s),
        PrimView::I32(v) => Some(int_text(v as int)),
        PrimView::I64(v) => Some(int_text(v as int)),
        PrimView::Bool(b) => Some(bool_text(b)),
        PrimView::F32(_) => None,
        PrimView::F64(_) => None,
        PrimView::Array(items) => match items_text(items, items.len()) {
            Some(t) => Some(array_text(t)),
            None => None,
        },
    }
}

/// An array prints as `[`, then each string item as it is and each other
/// item followed by `, `; the last two characters are then dropped and `]`
/// closes it.
pub open spec fn array_text(body: Seq<char>) -> Seq<char> {
    pop_char(pop_char(seq!['['] + body)).push(']')
}

/// The pieces of the first `n` items of an array, joined.
pub open spec fn items_text(items: Seq<PrimView>, n: nat) -> Option<Seq<char>>
    decreases items, n,
{
    if n == 0 || n > items.len() {
        Some(Seq::empty())
    } else {
        match items_text(items, (n - 1) as nat) {
            Some(prev) => match items[n - 1] {
                PrimView::String(s) => Some(prev + s),
                _ => match display_text(items[n - 1]) {
                    Some(t) => Some(prev + t + seq![',', ' ']),
                    None => None,
                },
            },
            None => None,
        }
    }
}

/// The pieces of the first `n` items of an array, each item having the
/// text of the same position in `texts`: a string item as it is, any other
/// item's text followed by `, `.
pub open spec fn pieces(items: Seq<PrimView>, texts: Seq<Seq<char>>, n: nat) -> Seq<char>
    decreases n,
{
    if n == 0 || n > items.len() {
        Seq::empty()
    } else {
        pieces(items, texts, (n - 1) as nat) + match items[n - 1] {
            PrimView::String(s) => s,
            _ => texts[n - 1] + seq![',', ' '],
        }
    }
}

/// `t` is a text `p` prints as, the floating-point numbers in it shown by
/// `floats`: a float as a text that `f32_text` or `f64_text` of `floats`
/// gives for it; an array as `array_text` of its items' pieces, each item
/// shown as it is shown on its own; any other value as `display_text`
/// says.
/// Only the texts of the first `n` items count for their pieces.
proof fn lemma_pieces_prefix(items: Seq<PrimView>, texts: Seq<Seq<char>>, t: Seq<char>, n: nat)
    requires
        n <= texts.len(),
    ensures
        pieces(items, texts.push(t), n) == pieces(items, texts, n),
    decreases n,
{
    if n > 0 {
        lemma_pieces_prefix(items, texts, t, (n - 1) as nat);
    }
}

pub open spec fn shown_as<F: FloatArithmetic>(floats: &F, p: PrimView, t: Seq<char>) -> bool
    decreases p,
{
    match p {
        PrimView::F32(x) => exists|s: String| #[trigger] call_ensures(F::f32_text, (floats, x), s) && s@ == t,
        PrimView::F64(x) => exists|s: String| #[trigger] call_ensures(F::f64_text, (floats, x), s) && s@ == t,
        PrimView::Array(items) => exists|texts: Seq<Seq<char>>|
            #![trigger pieces(items, texts, items.len())]
            texts.len() == items.len() && (forall|i: int|
                0 <= i < items.len() ==> shown_as(floats, items[i], #[trigger] texts[i])) && t == array_text(
                pieces(items, texts, items.len()),
            ),
        _ => display_text(p) == Some(t),
    }
}

proof fn lemma_items_text_pieces(items: Seq<PrimView>, texts: Seq<Seq<char>>, n: nat)
    requires
        n <= items.len(),
        items_text(items, n) is Some,
        texts.len() == items.len(),
        forall|i: int| 0 <= i < n && display_text(items[i]) is Some ==> texts[i] == display_text(items[i])->0,
    ensures
        forall|i: int| 0 <= i < n ==> (#[trigger] display_text(items[i])) is Some,
        pieces(items, texts, n) == items_text(items, n)->0,
    decreases n,
{
    if n > 0 {
        lemma_items_text_pieces(items, texts, (n - 1) as nat);
    }
}

/// Where the text of a value is known, it is the text it shows as, with
/// any float formatter.
pub proof fn lemma_known_text_shown<F: FloatArithmetic>(floats: &F, p: PrimView, t: Seq<char>)
    requires
        display_text(p) == Some(t),
    ensures
        shown_as(floats, p, t),
    decreases p,
{
    if let PrimView::Array(items) = p {
        let texts = Seq::new(
            items.len(),
            |i: int|
                match display_text(items[i]) {
                    Some(x) => x,
                    None => Seq::empty(),
                },
        );
        lemma_items_text_pieces(items, texts, items.len());
        assert forall|i: int| 0 <= i < items.len() implies shown_as(floats, items[i], #[trigger] texts[i]) by {
            assert(display_text(items[i]) is Some);
            lemma_known_text_shown(floats, items[i], texts[i]);
        }
        assert(t == array_text(pieces(items, texts, items.len())));
    }
}

/// An array shows its items as each shows on its own, in order: two items
/// that are not strings show as `[`, the first one's text, `, `, the
/// second one's text and `]`; a float item shows as a text the float
/// formatter of `floats` gives for that float.
pub proof fn lemma_array_shows_items<F: FloatArithmetic>(floats: &F, p: PrimView, q: PrimView, t: Seq<char>)
    requires
        !(p is String),
        !(q is String),
        shown_as(floats, PrimView::Array(seq![p, q]), t),
    ensures
        exists|a: Seq<char>, b: Seq<char>|
            #[trigger] shown_as(floats, p, a) && #[trigger] shown_as(floats, q, b) && t == seq!['['] + a + seq![
                ',',
                ' ',
            ] + b + seq![']'],
        p matches PrimView::F32(x) ==> exists|s: String|
            #[trigger] call_ensures(F::f32_text, (floats, x), s) && t.subrange(1, s@.len() + 1int) == s@,
{
    let items = seq![p, q];
    let texts = choose|texts: Seq<Seq<char>>|
        #![trigger pieces(items, texts, items.len())]
        texts.len() == items.len() && (forall|i: int|
            0 <= i < items.len() ==> shown_as(floats, items[i], #[trigger] texts[i])) && t == array_text(
            pieces(items, texts, items.len()),
        );
    let a = texts[0];
    let b = texts[1];
    assert(shown_as(floats, items[0], texts[0]));
    assert(shown_as(floats, items[1], texts[1]));
    assert(pieces(items, texts, 0) =~= Seq::<char>::empty());
    assert(items[0] == p && items[1] == q);
    assert(pieces(items, texts, 1) =~= a + seq![',', ' ']);
    assert(pieces(items, texts, 2) =~= a + seq![',', ' '] + b + seq![',', ' ']);
    assert(t =~= seq!['['] + a + seq![',', ' '] + b + seq![']']);
    if let PrimView::F32(x) = p {
        let s = choose|s: String| #[trigger] call_ensures(F::f32_text, (floats, x), s) && s@ == a;
        assert(t.subrange(1, a.len() + 1int) =~= a);
    }
}

/// The digits of `n` are ASCII digits, the first of them `0` only for
/// zero, and they read back as `n`.
pub proof fn lemma_digits_read_back(n: nat)
    ensures
        digits_text(n).len() > 0,
        all_ascii_digits(digits_text(n)),
        decimal_value(digits_text(n)) == n,
        n > 0 ==> digits_text(n)[0] != '0',
    decreases n,
{
    if n < 10 {
        let c = (('0' as int) + n) as char;
        assert((c as int) == ('0' as int) + n);
        assert(digits_text(n) == seq![c]);
        assert(digits_text(n).drop_last() =~= Seq::<char>::empty());
        assert(decimal_value(Seq::<char>::empty()) == 0);
        assert(decimal_value(digits_text(n)) == n);
    } else {
        lemma_digits_read_back(n / 10);
        let d = digits_text(n / 10);
        let c = (('0' as int) + n % 10) as char;
        assert(digits_text(n) == d.push(c));
        assert(digits_text(n).drop_last() =~= d);
        vstd::arithmetic::div_mod::lemma_fundamental_div_mod(n as int, 10);
        assert((c as int) == ('0' as int) + n % 10);
        assert(digits_text(n).last() == c);
        assert(decimal_value(digits_text(n)) == decimal_value(d) * 10 + ((c as int) - ('0' as int)) as nat);
        assert((n / 10) * 10 == 10 * (n / 10)) by (nonlinear_arith);
        assert(decimal_value(digits_text(n)) == n);
        assert(digits_text(n)[0] == d[0]);
        assert forall|i: int| 0 <= i < digits_text(n).len() implies is_ascii_digit(#[trigger] digits_text(n)[i]) by {
            if i < d.len() {
                assert(digits_text(n)[i] == d[i]);
            }
        }
    }
}

/// An integer's text reads back as the integer: the text of every integer
/// is a signed decimal (a `-` only for negative ones, no leading zero)
/// whose value is the integer.
pub proof fn lemma_int_text_reads_back(v: int)
    ensures
        signed_decimal(int_text(v)) == Some(v),
        v >= 0 ==> int_text(v) == digits_text(v as nat),
        v < 0 ==> int_text(v)[0] == '-',
{
    if v < 0 {
        lemma_digits_read_back((-v) as nat);
        assert((seq!['-'] + digits_text((-v) as nat)).drop_first() =~= digits_text((-v) as nat));
    } else {
        lemma_digits_read_back(v as nat);
    }
}

fn push_digits(out: &mut Vec<char>, n: u128)
    ensures
        final(out)@ == old(out)@ + digits_text(n as nat),
    decreases n,
{
    if n < 10 {
        let c = char_for_digit(n);
        out.push(c);
        assert(digits_text(n as nat) =~= seq![c]);
    } else {
        push_digits(out, n / 10);
        let c = char_for_digit(n % 10);
        out.push(c);
        assert(out@ =~= old(out)@ + digits_text(n as nat));
    }
}

fn char_for_digit(d: u128) -> (c: char)
    requires
        d < 10,
    ensures
        c == (('0' as int) + d) as char,
{
    if d == 0 {
        '0'
    } else if d == 1 {
        '1'
    } else if d == 2 {
        '2'
    } else if d == 3 {
        '3'
    } else if d == 4 {
        '4'
    } else if d == 5 {
        '5'
    } else if d == 6 {
        '6'
    } else if d == 7 {
        '7'
    } else if d == 8 {
        '8'
    } else {
        '9'
    }
}

/// Appends a count in decimal.
pub fn push_count(out: &mut Vec<char>, n: u128)
    ensures
        final(out)@ == old(out)@ + int_text(n as int),
{
    push_digits(out, n);
}

/// Appends an integer in decimal.
pub fn push_int(out: &mut Vec<char>, v: i64)
    ensures
        final(out)@ == old(out)@ + int_text(v as int),
{
    if v < 0 {
        out.push('-');
        let magnitude: u128 = if v == i64::MIN {
            9223372036854775808u128
        } else {
            (-v) as u128
        };
        push_digits(out, magnitude);
        assert(out@ =~= old(out)@ + int_text(v as int));
    } else {
        push_digits(out, v as u128);
    }
}

/// An integer in decimal (the text `Display` gives for `i32` and `i64`).
pub fn int_to_string(v: i64) -> (s: String)
    ensures
        s@ == int_text(v as int),
{
    let mut out: Vec<char> = Vec::new();
    push_int(&mut out, v);
    assert(out@ =~= int_text(v as int));
    string_from_chars(&out)
}

fn push_bool(out: &mut Vec<char>, b: bool)
    ensures
        final(out)@ == old(out)@ + bool_text(b),
{
    if b {
        out.push('t');
        out.push('r');
        out.push('u');
        out.push('e');
    } else {
        out.push('f');
        out.push('a');
        out.push('l');
        out.push('s');
        out.push('e');
    }
    assert(out@ =~= old(out)@ + bool_text(b));
}

/// Appends the characters of `s`.
pub fn push_str(out: &mut Vec<char>, s: &str)
    ensures
        final(out)@ == old(out)@ + s@,
{
    let chars = chars_of(s);
    let mut k: usize = 0;
    while k < chars.len()
        invariant
            k <= chars@.len(),
            chars@ == s@,
            out@ == old(out)@ + s@.take(k as int),
        decreases chars@.len() - k,
    {
        out.push(chars[k]);
        k = k + 1;
        assert(out@ =~= old(out)@ + s@.take(k as int));
    }
    assert(s@.take(k as int) =~= s@);
}

/// Appends what `p` prints as.
fn push_display<F: FloatArithmetic>(out: &mut Vec<char>, p: &Primitive, floats: &F)
    ensures
        display_text(p@) matches Some(t) ==> final(out)@ == old(out)@ + t,
        exists|t: Seq<char>| #[trigger] shown_as(floats, p@, t) && final(out)@ == old(out)@ + t,
    decreases p, 1nat,
{
    match p {
        Primitive::String(s) => {
            push_str(out, s.as_str());
            assert(shown_as(floats, p@, s@));
        },
        Primitive::I32(v) => {
            push_int(out, *v as i64);
            assert(shown_as(floats, p@, int_text(*v as int)));
        },
        Primitive::I64(v) => {
            push_int(out, *v);
            assert(shown_as(floats, p@, int_text(*v as int)));
        },
        Primitive::Bool(b) => {
            push_bool(out, *b);
            assert(shown_as(floats, p@, bool_text(*b)));
        },
        Primitive::F32(x) => {
            let t = floats.f32_text(*x);
            push_str(out, t.as_str());
            assert(call_ensures(F::f32_text, (floats, *x), t));
            assert(shown_as(floats, p@, t@));
        },
        Primitive::F64(x) => {
            let t = floats.f64_text(*x);
            push_str(out, t.as_str());
            assert(call_ensures(F::f64_text, (floats, *x), t));
            assert(shown_as(floats, p@, t@));
        },
        Primitive::Array(items) => {
            let t = array_display_recusion(items, floats);
            proof {
                lemma_prims_view(*items);
                assert(prims_view_upto(*items, items.len() as nat) == prims_view(*items));
            }
            push_str(out, t.as_str());
            assert(shown_as(floats, p@, t@));
        },
    }
}

/// The text of an array of values (see `array_text`).
pub fn array_display_recusion<F: FloatArithmetic>(primitives: &Vec<Primitive>, floats: &F) -> (s: String)
    ensures
        items_text(prims_view(*primitives), primitives@.len()) matches Some(body) ==> s@ == array_text(body),
        shown_as(floats, PrimView::Array(prims_view(*primitives)), s@),
    decreases primitives, 0nat,
{
    let ghost pv = prims_view(*primitives);
    let ghost mut texts: Seq<Seq<char>> = Seq::empty();
    proof {
        lemma_prims_view(*primitives);
    }
    let mut out: Vec<char> = Vec::new();
    out.push('[');
    let mut k: usize = 0;
    while k < primitives.len()
        invariant
            k <= primitives@.len(),
            pv == prims_view(*primitives),
            pv == primitives@.map_values(|q: Primitive| prim_view(q)),
            items_text(pv, k as nat) matches Some(body) ==> out@ == seq!['['] + body,
            texts.len() == k,
            forall|i: int| 0 <= i < k ==> shown_as(floats, pv[i], #[trigger] texts[i]),
            out@ == seq!['['] + pieces(pv, texts, k as nat),
        decreases primitives@.len() - k,
    {
        let ghost before = out@;
        let p = &primitives[k];
        assert(pv[k as int] == prim_view(*p));
        let ghost mut t: Seq<char> = Seq::empty();
        match p {
            Primitive::String(s) => {
                push_str(&mut out, s.as_str());
                proof {
                    t = s@;
                }
            },
            _ => {
                let ghost mid = out@;
                push_display(&mut out, p, floats);
                proof {
                    t = choose|t: Seq<char>| #[trigger] shown_as(floats, p@, t) && out@ == mid + t;
                }
                out.push(',');
                out.push(' ');
            },
        }
        proof {
            lemma_pieces_prefix(pv, texts, t, k as nat);
            texts = texts.push(t);
            assert(shown_as(floats, pv[k as int], texts[k as int]));
            assert(out@ =~= seq!['['] + pieces(pv, texts, (k + 1) as nat));
        }
        proof {
            if let Some(body) = items_text(pv, (k + 1) as nat) {
                let prev = items_text(pv, k as nat).unwrap();
                match pv[k as int] {
                    PrimView::String(t) => {
                        assert(out@ =~= seq!['['] + body);
                    },
                    _ => {
                        assert(out@ =~= seq!['['] + body);
                    },
                }
            }
        }
        k = k + 1;
    }
    out.pop();
    out.pop();
    out.push(']');
    proof {
        if let Some(body) = items_text(pv, primitives@.len()) {
            assert(out@ =~= array_text(body));
        }
        assert(out@ =~= array_text(pieces(pv, texts, pv.len())));
        assert(shown_as(floats, PrimView::Array(pv), out@));
    }
    string_from_chars(&out)
}

impl Primitive {
    /// The text this value prints as.
    pub fn to_text<F: FloatArithmetic>(&self, floats: &F) -> (s: String)
        ensures
            display_text(self@) matches Some(t) ==> s@ == t,
            shown_as(floats, self@, s@),
    {
        let mut out: Vec<char> = Vec::new();
        push_display(&mut out, self, floats);
        proof {
            if let Some(t) = display_text(self@) {
                assert(out@ =~= t);
            }
            let t = choose|t: Seq<char>| #[trigger] shown_as(floats, self@, t) && out@ == Seq::<char>::empty() + t;
            assert(out@ =~= t);
        }
        string_from_chars(&out)
    }

    /// The length in bytes of a string value (its UTF-8 encoding).
    pub fn len(&self) -> (n: usize)
        requires
            self is String,
        ensures
            self matches Primitive::String(s) && n == vstd::utf8::encode_utf8(s@).len() as usize,
    {
        match self {
            Primitive::String(s) => s.as_str().len(),
            _ => 0,
        }
    }
}

// ---------------------------------------------------------------------
// Errors
// ---------------------------------------------------------------------
/// Why a program stopped.
#[derive(Debug)]
pub enum EvalError {
    /// A variable that was never defined was read.
    UndefinedVariable(String),
    /// A variable that was never defined was assigned to.
    AssignToUndefined(String),
    /// A statement called a function the language does not have.
    UndefinedFunction(String),
    /// An expression called a conversion the language does not have.
    UnknownConversion(String),
    /// An operator was applied to values it is not defined for.
    MismatchedTypes,
    /// The condition of an `if` is not a `bool`.
    ConditionNotBool,
    /// No condition held and the `if` has no `else`.
    MissingElse,
    /// A call has no argument.
    MissingArgument,
    /// A conversion was applied to a value that is neither `i32` nor `f32`.
    NotConvertible,
    /// `++`, `--`, or the assignment of an array.
    Unsupported,
    /// An integer result does not fit its type.
    Overflow,
    /// An integer division or remainder by zero.
    DivisionByZero,
    /// A statement that cannot be executed on its own.
    UnexpectedStatement,
    /// An operator standing alone as an expression.
    UnexpectedExpression,
}

pub enum ErrView {
    UndefinedVariable(Seq<char>),
    AssignToUndefined(Seq<char>),
    UndefinedFunction(Seq<char>),
    UnknownConversion(Seq<char>),
    MismatchedTypes,
    ConditionNotBool,
    MissingElse,
    MissingArgument,
    NotConvertible,
    Unsupported,
    Overflow,
    DivisionByZero,
    UnexpectedStatement,
    UnexpectedExpression,
}

pub open spec fn err_view(e: EvalError) -> ErrView {
    match e {
        EvalError::UndefinedVariable(n) => ErrView::UndefinedVariable(n@),
        EvalError::AssignToUndefined(n) => ErrView::AssignToUndefined(n@),
        EvalError::UndefinedFunction(n) => ErrView::UndefinedFunction(n@),
        EvalError::UnknownConversion(n) => ErrView::UnknownConversion(n@),
        EvalError::MismatchedTypes => ErrView::MismatchedTypes,
        EvalError::ConditionNotBool => ErrView::ConditionNotBool,
        EvalError::MissingElse => ErrView::MissingElse,
        EvalError::MissingArgument => ErrView::MissingArgument,
        EvalError::NotConvertible => ErrView::NotConvertible,
        EvalError::Unsupported => ErrView::Unsupported,
        EvalError::Overflow => ErrView::Overflow,
        EvalError::DivisionByZero => ErrView::DivisionByZero,
        EvalError::UnexpectedStatement => ErrView::UnexpectedStatement,
        EvalError::UnexpectedExpression => ErrView::UnexpectedExpression,
    }
}

impl View for EvalError {
    type V = ErrView;

    open spec fn view(&self) -> ErrView {
        err_view(*self)
    }
}

/// What evaluation gives, seen through the views.
pub open spec fn outcome_view(r: Result<Primitive, EvalError>) -> Result<PrimView, ErrView> {
    match r {
        Ok(p) => Ok(p@),
        Err(e) => Err(e@),
    }
}

// ---------------------------------------------------------------------
// Variables
// ---------------------------------------------------------------------
/// A variable: its name, its value and the type it was declared with.
pub struct Variable {
    pub name: String,
    pub value: Primitive,
    pub var_type: Type,
}

pub type VarView = (Seq<char>, PrimView, Type);

/// The variables of a running program. A name is looked up at its last
/// entry; assigning to a name that has an entry replaces that entry, any
/// other name is added at the end.
pub struct Variables {
    entries: Vec<Variable>,
}

impl View for Variables {
    type V = Seq<VarView>;

    closed spec fn view(&self) -> Seq<VarView> {
        self.entries@.map_values(|v: Variable| (v.name@, v.value@, v.var_type))
    }
}

/// The index of the last of the first `n` entries named `name`, or -1.
pub open spec fn var_index_upto(vars: Seq<VarView>, name: Seq<char>, n: nat) -> int
    decreases n,
{
    if n == 0 || n > vars.len() {
        -1
    } else if vars[n - 1].0 == name {
        n - 1
    } else {
        var_index_upto(vars, name, (n - 1) as nat)
    }
}

/// The index of the entry of `name`, or -1 where it has none.
pub open spec fn var_index(vars: Seq<VarView>, name: Seq<char>) -> int {
    var_index_upto(vars, name, vars.len())
}

/// The value and type of `name`.
pub open spec fn lookup(vars: Seq<VarView>, name: Seq<char>) -> Option<(PrimView, Type)> {
    let i = var_index(vars, name);
    if i < 0 {
        None
    } else {
        Some((vars[i].1, vars[i].2))
    }
}

/// The variables after `name` is set to `value` of type `t`.
pub open spec fn assign(vars: Seq<VarView>, name: Seq<char>, value: PrimView, t: Type) -> Seq<VarView> {
    let i = var_index(vars, name);
    if i >= 0 {
        vars.update(i, (name, value, t))
    } else {
        vars.push((name, value, t))
    }
}

pub proof fn lemma_var_index_upto(vars: Seq<VarView>, name: Seq<char>, n: nat)
    requires
        n <= vars.len(),
    ensures
        -1 <= var_index_upto(vars, name, n) < n,
        var_index_upto(vars, name, n) >= 0 ==> vars[var_index_upto(vars, name, n)].0 == name,
        var_index_upto(vars, name, n) < 0 ==> forall|j: int| 0 <= j < n ==> vars[j].0 != name,
        forall|j: int| var_index_upto(vars, name, n) < j < n ==> vars[j].0 != name,
    decreases n,
{
    if n > 0 {
        lemma_var_index_upto(vars, name, (n - 1) as nat);
    }
}

impl Variables {
    /// No variables.
    pub fn new() -> (v: Variables)
        ensures
            v@ == Seq::<VarView>::empty(),
    {
        let v = Variables { entries: Vec::new() };
        assert(v@ =~= Seq::<VarView>::empty());
        v
    }

    /// The number of entries.
    pub fn len(&self) -> (n: usize)
        ensures
            n == self@.len(),
    {
        self.entries.len()
    }

    /// The entry at `i`.
    pub fn entry(&self, i: usize) -> (e: &Variable)
        requires
            i < self@.len(),
        ensures
            (e.name@, e.value@, e.var_type) == self@[i as int],
    {
        &self.entries[i]
    }

    /// Where `name` stands.
    pub fn find(&self, name: &str) -> (r: Option<usize>)
        ensures
            match r {
                Some(i) => i < self@.len() && i as int == var_index(self@, name@),
                None => var_index(self@, name@) == -1,
            },
    {
        let mut k: usize = self.entries.len();
        assert(self@.len() == self.entries@.len());
        while k > 0
            invariant
                k <= self@.len(),
                self@.len() == self.entries@.len(),
                var_index(self@, name@) == var_index_upto(self@, name@, k as nat),
            decreases k,
        {
            k = k - 1;
            assert(self@[k as int].0 == self.entries@[k as int].name@);
            if str_equals(self.entries[k].name.as_str(), name) {
                return Some(k);
            }
        }
        None
    }

    /// Sets `name` to `value`, declared of type `var_type`.
    pub fn insert(&mut self, name: String, value: Primitive, var_type: Type)
        ensures
            final(self)@ == assign(old(self)@, name@, value@, var_type),
    {
        let ghost name_view = name@;
        let ghost value_view = value@;
        let found = self.find(name.as_str());
        assert(self@.len() == self.entries@.len());
        let var = Variable { name, value, var_type };
        match found {
            Some(i) => {
                self.entries.set(i, var);
                assert(self@ =~= assign(old(self)@, name_view, value_view, var_type));
            },
            None => {
                self.entries.push(var);
                assert(self@ =~= assign(old(self)@, name_view, value_view, var_type));
            },
        }
    }

    /// The value of `name`, copied.
    pub fn get(&self, name: &str) -> (r: Option<Primitive>)
        ensures
            match lookup(self@, name@) {
                Some((v, _)) => r matches Some(p) && p@ == v,
                None => r is None,
            },
    {
        assert(self@.len() == self.entries@.len());
        match self.find(name) {
            Some(i) => {
                assert(self@[i as int].1 == self.entries@[i as int].value@);
                Some(copy_primitive(&self.entries[i].value))
            },
            None => None,
        }
    }
}

/// The variables after assigning, in order, the first `n` entries of `es`.
pub open spec fn assign_all(vars: Seq<VarView>, es: Seq<VarView>, n: nat) -> Seq<VarView>
    decreases n,
{
    if n == 0 || n > es.len() {
        vars
    } else {
        let e = es[n - 1];
        assign(assign_all(vars, es, (n - 1) as nat), e.0, e.1, e.2)
    }
}

proof fn lemma_var_index_same_names(a: Seq<VarView>, b: Seq<VarView>, name: Seq<char>, n: nat)
    requires
        n <= a.len(),
        n <= b.len(),
        forall|j: int| 0 <= j < n ==> (#[trigger] a[j]).0 == b[j].0,
    ensures
        var_index_upto(a, name, n) == var_index_upto(b, name, n),
    decreases n,
{
    if n > 0 {
        lemma_var_index_same_names(a, b, name, (n - 1) as nat);
    }
}

/// After `name` is set to `value`, looking `name` up gives `value` and its
/// type, and every other name gives what it gave before.
pub proof fn lemma_assign_then_lookup(
    vars: Seq<VarView>,
    name: Seq<char>,
    value: PrimView,
    t: Type,
    other: Seq<char>,
)
    ensures
        lookup(assign(vars, name, value, t), name) == Some((value, t)),
        other != name ==> lookup(assign(vars, name, value, t), other) == lookup(vars, other),
{
    let i = var_index(vars, name);
    let after = assign(vars, name, value, t);
    lemma_var_index_upto(vars, name, vars.len());
    lemma_var_index_upto(vars, other, vars.len());
    if i >= 0 {
        lemma_var_index_same_names(after, vars, name, vars.len());
        lemma_var_index_same_names(after, vars, other, vars.len());
    } else {
        lemma_var_index_same_names(after, vars, other, vars.len());
        assert(var_index_upto(after, name, after.len()) == vars.len());
    }
}

/// After the entries `es` are assigned in order, a name that some entry
/// has gets the value of the last such entry; any other name keeps what it
/// had.
pub proof fn lemma_assign_all_lookup(vars: Seq<VarView>, es: Seq<VarView>, other: Seq<char>)
    ensures
        lookup(assign_all(vars, es, es.len()), other) == match lookup(es, other) {
            Some(v) => Some(v),
            None => lookup(vars, other),
        },
{
    lemma_assign_all_prefix(vars, es, other, es.len());
}

proof fn lemma_assign_all_prefix(vars: Seq<VarView>, es: Seq<VarView>, other: Seq<char>, n: nat)
    requires
        n <= es.len(),
    ensures
        lookup(assign_all(vars, es, n), other) == if var_index_upto(es, other, n) >= 0 {
            Some((es[var_index_upto(es, other, n)].1, es[var_index_upto(es, other, n)].2))
        } else {
            lookup(vars, other)
        },
    decreases n,
{
    if n > 0 {
        lemma_assign_all_prefix(vars, es, other, (n - 1) as nat);
        let e = es[n - 1];
        lemma_assign_then_lookup(assign_all(vars, es, (n - 1) as nat), e.0, e.1, e.2, other);
    }
}

/// The variables after assigning, in order, every entry of the first `n`
/// sets of `sets`.
pub open spec fn combine_all(vars: Seq<VarView>, sets: Seq<Seq<VarView>>, n: nat) -> Seq<VarView>
    decreases n,
{
    if n == 0 || n > sets.len() {
        vars
    } else {
        let prev = combine_all(vars, sets, (n - 1) as nat);
        assign_all(prev, sets[n - 1], sets[n - 1].len())
    }
}

/// Combining one more set of variables: a name the new set has gets its
/// value from it; any other name keeps what the sets before gave it.
pub proof fn lemma_combine_lookup(vars: Seq<VarView>, sets: Seq<Seq<VarView>>, n: nat, name: Seq<char>)
    requires
        n < sets.len(),
    ensures
        lookup(combine_all(vars, sets, n + 1), name) == match lookup(sets[n as int], name) {
            Some(v) => Some(v),
            None => lookup(combine_all(vars, sets, n), name),
        },
{
    lemma_assign_all_lookup(combine_all(vars, sets, n), sets[n as int], name);
}

/// Copies every variable of `inherited` into `local_variable_map`, later
/// sets overriding earlier ones.
pub fn combine_variables(local_variable_map: &mut Variables, inherited_variables: Vec<Variables>)
    ensures
        final(local_variable_map)@ == combine_all(
            old(local_variable_map)@,
            inherited_variables@.map_values(|v: Variables| v@),
            inherited_variables@.len(),
        ),
{
    let ghost sets = inherited_variables@.map_values(|v: Variables| v@);
    let mut m: usize = 0;
    while m < inherited_variables.len()
        invariant
            m <= inherited_variables@.len(),
            sets == inherited_variables@.map_values(|v: Variables| v@),
            local_variable_map@ == combine_all(old(local_variable_map)@, sets, m as nat),
        decreases inherited_variables@.len() - m,
    {
        let set = &inherited_variables[m];
        let ghost start = local_variable_map@;
        let mut k: usize = 0;
        while k < set.len()
            invariant
                k <= set@.len(),
                sets == inherited_variables@.map_values(|v: Variables| v@),
                set@ == sets[m as int],
                m < inherited_variables@.len(),
                start == combine_all(old(local_variable_map)@, sets, m as nat),
                local_variable_map@ == assign_all(start, set@, k as nat),
            decreases set@.len() - k,
        {
            let e = set.entry(k);
            let name = copy_string(&e.name);
            let value = copy_primitive(&e.value);
            local_variable_map.insert(name, value, e.var_type.clone());
            k = k + 1;
        }
        m = m + 1;
    }
}

fn copy_string(s: &String) -> (r: String)
    ensures
        r@ == s@,
{
    s.clone()
}

// ---------------------------------------------------------------------
// Evaluation of expressions
// ---------------------------------------------------------------------
/// Division rounding toward zero (Rust's `/` on integers).
pub open spec fn trunc_div(x: int, d: int) -> int {
    if x == 0 {
        0
    } else if x > 0 && d > 0 {
        x / d
    } else if x < 0 && d < 0 {
        (x * -1) / (d * -1)
    } else if x < 0 {
        ((x * -1) / d) * -1
    } else {
        (x / (d * -1)) * -1
    }
}

/// The remainder that goes with `trunc_div` (Rust's `%` on integers).
pub open spec fn trunc_rem(x: int, d: int) -> int {
    if x == 0 {
        0
    } else if x > 0 && d > 0 {
        x % d
    } else if x < 0 && d < 0 {
        ((x * -1) % (d * -1)) * -1
    } else if x < 0 {
        ((x * -1) % d) * -1
    } else {
        x % (d * -1)
    }
}

pub open spec fn is_arith(op: BinaryOperator) -> bool {
    ||| op == BinaryOperator::Add
    ||| op == BinaryOperator::Subtract
    ||| op == BinaryOperator::Multiply
    ||| op == BinaryOperator::Divide
    ||| op == BinaryOperator::Modulus
}

pub open spec fn is_compare(op: BinaryOperator) -> bool {
    ||| op == BinaryOperator::Equals
    ||| op == BinaryOperator::NotEqual
    ||| op == BinaryOperator::LessThan
    ||| op == BinaryOperator::LessThanOrEqualTo
    ||| op == BinaryOperator::GreaterThan
    ||| op == BinaryOperator::GreaterThanOrEqualTo
}

/// `x op y` for a comparison `op`.
pub open spec fn compare(op: BinaryOperator, x: int, y: int) -> bool {
    match op {
        BinaryOperator::Equals => x == y,
        BinaryOperator::NotEqual => x != y,
        BinaryOperator::LessThan => x < y,
        BinaryOperator::LessThanOrEqualTo => x <= y,
        BinaryOperator::GreaterThan => x > y,
        _ => x >= y,
    }
}

/// `x op y` for an arithmetic `op` on integers of the range `lo..=hi`:
/// the exact result where it fits, else an error.
pub open spec fn arith(op: BinaryOperator, x: int, y: int, lo: int, hi: int) -> Result<int, ErrView> {
    let r = match op {
        BinaryOperator::Add => x + y,
        BinaryOperator::Subtract => x - y,
        BinaryOperator::Multiply => x * y,
        BinaryOperator::Divide => trunc_div(x, y),
        _ => trunc_rem(x, y),
    };
    if (op == BinaryOperator::Divide || op == BinaryOperator::Modulus) && y == 0 {
        Err(ErrView::DivisionByZero)
    } else if op == BinaryOperator::Modulus && x == lo && y == -1 {
        Err(ErrView::Overflow)
    } else if lo <= r <= hi {
        Ok(r)
    } else {
        Err(ErrView::Overflow)
    }
}

/// `a op b`; `None` where it is a floating-point computation.
pub open spec fn binary_spec(op: BinaryOperator, a: PrimView, b: PrimView) -> Option<Result<PrimView, ErrView>> {
    match (a, b) {
        (PrimView::Bool(x), PrimView::Bool(y)) => if op == BinaryOperator::Or {
            Some(Ok(PrimView::Bool(x || y)))
        } else if op == BinaryOperator::And {
            Some(Ok(PrimView::Bool(x && y)))
        } else {
            Some(Err(ErrView::MismatchedTypes))
        },
        (PrimView::I32(x), PrimView::I32(y)) => if is_arith(op) {
            match arith(op, x as int, y as int, i32::MIN as int, i32::MAX as int) {
                Ok(r) => Some(Ok(PrimView::I32(r as i32))),
                Err(e) => Some(Err(e)),
            }
        } else if is_compare(op) {
            Some(Ok(PrimView::Bool(compare(op, x as int, y as int))))
        } else {
            Some(Err(ErrView::MismatchedTypes))
        },
        (PrimView::I64(x), PrimView::I64(y)) => if is_arith(op) {
            match arith(op, x as int, y as int, i64::MIN as int, i64::MAX as int) {
                Ok(r) => Some(Ok(PrimView::I64(r as i64))),
                Err(e) => Some(Err(e)),
            }
        } else if is_compare(op) {
            Some(Ok(PrimView::Bool(compare(op, x as int, y as int))))
        } else {
            Some(Err(ErrView::MismatchedTypes))
        },
        (PrimView::I64(x), PrimView::I32(y)) => if is_compare(op) {
            Some(Ok(PrimView::Bool(compare(op, x as int, y as int))))
        } else {
            Some(Err(ErrView::MismatchedTypes))
        },
        (PrimView::F32(_), PrimView::F32(_)) => if is_arith(op) || is_compare(op) {
            None
        } else {
            Some(Err(ErrView::MismatchedTypes))
        },
        (PrimView::F64(_), PrimView::F64(_)) => if is_arith(op) || is_compare(op) {
            None
        } else {
            Some(Err(ErrView::MismatchedTypes))
        },
        _ => Some(Err(ErrView::MismatchedTypes)),
    }
}

/// `op v` for a unary operator.
pub open spec fn unary_spec(op: UnaryOperator, v: PrimView) -> Result<PrimView, ErrView> {
    match op {
        UnaryOperator::Not => match v {
            PrimView::Bool(b) => Ok(PrimView::Bool(!b)),
            _ => Err(ErrView::MismatchedTypes),
        },
        UnaryOperator::Parenthesis => match v {
            PrimView::Array(_) => Err(ErrView::MismatchedTypes),
            _ => Ok(v),
        },
    }
}

/// A call of the conversion `name` on `v`; `None` where it is a
/// floating-point computation. The conversions of an `i32` are named
/// `i32`, `i64`, `f32`, `f64`, `string`; those of an `f32` carry `()`.
pub open spec fn convert_spec(name: Seq<char>, v: PrimView) -> Option<Result<PrimView, ErrView>> {
    match v {
        PrimView::I32(x) => if name == seq!['i', '3', '2'] {
            Some(Ok(PrimView::I32(x)))
        } else if name == seq!['i', '6', '4'] {
            Some(Ok(PrimView::I64(x as i64)))
        } else if name == seq!['f', '6', '4'] || name == seq!['f', '3', '2'] {
            None
        } else if name == seq!['s', 't', 'r', 'i', 'n', 'g'] {
            Some(Ok(PrimView::String(int_text(x as int))))
        } else {
            Some(Err(ErrView::UnknownConversion(name)))
        },
        PrimView::F32(x) => if name == seq!['f', '3', '2', '(', ')'] {
            Some(Ok(PrimView::F32(x)))
        } else if name == seq!['i', '3', '2', '(', ')'] || name == seq!['i', '6', '4', '(', ')']
            || name == seq!['f', '6', '4', '(', ')'] || name == seq![
            's',
            't',
            'r',
            'i',
            'n',
            'g',
            '(',
            ')',
        ] {
            None
        } else {
            Some(Err(ErrView::UnknownConversion(name)))
        },
        _ => Some(Err(ErrView::NotConvertible)),
    }
}

/// The value of `e` with the variables `vars`; `None` where it depends on
/// a floating-point computation.
pub open spec fn eval_spec(e: ExprView, vars: Seq<VarView>) -> Option<Result<PrimView, ErrView>>
    decreases e, 0nat,
{
    match e {
        ExprView::Array(items) => match eval_items(items, vars, items.len()) {
            Some(Ok(vs)) => Some(Ok(PrimView::Array(vs))),
            Some(Err(x)) => Some(Err(x)),
            None => None,
        },
        ExprView::String(s) => Some(Ok(PrimView::String(s))),
        ExprView::Bool(b) => Some(Ok(PrimView::Bool(b))),
        ExprView::Variable(n) => match lookup(vars, n) {
            Some((v, _)) => Some(Ok(v)),
            None => Some(Err(ErrView::UndefinedVariable(n))),
        },
        ExprView::Complete(op, l, r) => match eval_spec(*l, vars) {
            Some(Ok(a)) => match eval_spec(*r, vars) {
                Some(Ok(b)) => binary_spec(op, a, b),
                other => other,
            },
            other => other,
        },
        ExprView::CompleteU(op, c) => match eval_spec(*c, vars) {
            Some(Ok(v)) => Some(unary_spec(op, v)),
            other => other,
        },
        ExprView::Increment => Some(Err(ErrView::Unsupported)),
        ExprView::Decrement => Some(Err(ErrView::Unsupported)),
        ExprView::I32(v) => Some(Ok(PrimView::I32(v))),
        ExprView::I64(v) => Some(Ok(PrimView::I64(v))),
        ExprView::F32(_) => None,
        ExprView::F64(_) => None,
        ExprView::FunctionCall(name, args) => if args.len() == 0 {
            Some(Err(ErrView::MissingArgument))
        } else {
            match eval_spec(args[0], vars) {
                Some(Ok(v)) => convert_spec(name, v),
                other => other,
            }
        },
        ExprView::BinaryOperator(_) => Some(Err(ErrView::UnexpectedExpression)),
        ExprView::UnaryOperator(_) => Some(Err(ErrView::UnexpectedExpression)),
    }
}

/// The values of the first `n` of `items`, evaluated in order; the first
/// error stops it.
pub open spec fn eval_items(items: Seq<ExprView>, vars: Seq<VarView>, n: nat) -> Option<
    Result<Seq<PrimView>, ErrView>,
>
    decreases items, n,
{
    if n == 0 || n > items.len() {
        Some(Ok(Seq::empty()))
    } else {
        match eval_items(items, vars, (n - 1) as nat) {
            Some(Ok(vs)) => match eval_spec(items[n - 1], vars) {
                Some(Ok(v)) => Some(Ok(vs.push(v))),
                Some(Err(x)) => Some(Err(x)),
                None => None,
            },
            other => other,
        }
    }
}

/// Once an item fails or needs floating-point computation, so do all
/// longer prefixes.
proof fn lemma_eval_items_stops(items: Seq<ExprView>, vars: Seq<VarView>, k: nat, n: nat)
    requires
        k <= n <= items.len(),
        !(eval_items(items, vars, k) is Some && eval_items(items, vars, k).unwrap() is Ok),
    ensures
        eval_items(items, vars, n) == eval_items(items, vars, k),
    decreases n - k,
{
    if k < n {
        lemma_eval_items_stops(items, vars, k, (n - 1) as nat);
    }
}

// ---------------------------------------------------------------------
// Kinds of values, known also where the values rest on floating point
// ---------------------------------------------------------------------
/// The kind of a value: its variant without its contents.
pub enum Kind {
    Bool,
    I32,
    String,
    F32,
    I64,
    F64,
    Array,
}

pub open spec fn kind_of(v: PrimView) -> Kind {
    match v {
        PrimView::Bool(_) => Kind::Bool,
        PrimView::I32(_) => Kind::I32,
        PrimView::String(_) => Kind::String,
        PrimView::F32(_) => Kind::F32,
        PrimView::I64(_) => Kind::I64,
        PrimView::F64(_) => Kind::F64,
        PrimView::Array(_) => Kind::Array,
    }
}

/// A value of the kind `k`.
pub open spec fn kind_example(k: Kind) -> PrimView {
    match k {
        Kind::Bool => PrimView::Bool(false),
        Kind::I32 => PrimView::I32(0),
        Kind::String => PrimView::String(Seq::empty()),
        Kind::F32 => PrimView::F32(0),
        Kind::I64 => PrimView::I64(0),
        Kind::F64 => PrimView::F64(0),
        Kind::Array => PrimView::Array(Seq::empty()),
    }
}

/// What is known of an evaluation whatever the floating-point results:
/// the kind of its value or its error; and whether integer arithmetic on
/// a value got from floating-point work comes first, which may fail with
/// an overflow or a division by zero in its place.
pub struct Shape {
    pub result: Result<Kind, ErrView>,
    pub may_trap: bool,
}

/// The errors of integer arithmetic.
pub open spec fn is_trap(x: ErrView) -> bool {
    x is Overflow || x is DivisionByZero
}

/// The outcome `v` has the shape `s`.
pub open spec fn fits(s: Shape, v: Result<PrimView, ErrView>) -> bool {
    match v {
        Ok(p) => s.result == Ok::<Kind, ErrView>(kind_of(p)),
        Err(x) => s.result == Err::<Kind, ErrView>(x) || (s.may_trap && is_trap(x)),
    }
}

/// The shape of a known outcome.
pub open spec fn exact_shape(x: Result<PrimView, ErrView>) -> Shape {
    Shape {
        result: match x {
            Ok(p) => Ok(kind_of(p)),
            Err(e) => Err(e),
        },
        may_trap: false,
    }
}

/// An outcome of the shape `s`.
pub open spec fn shape_example(s: Shape) -> Result<PrimView, ErrView> {
    match s.result {
        Ok(k) => Ok(kind_example(k)),
        Err(x) => Err(x),
    }
}

/// The kind of `a op b` for values of the kinds `a` and `b`, or its error.
pub open spec fn binary_kind(op: BinaryOperator, a: Kind, b: Kind) -> Result<Kind, ErrView> {
    match (a, b) {
        (Kind::Bool, Kind::Bool) => if op == BinaryOperator::Or || op == BinaryOperator::And {
            Ok(Kind::Bool)
        } else {
            Err(ErrView::MismatchedTypes)
        },
        (Kind::I32, Kind::I32) => if is_arith(op) {
            Ok(Kind::I32)
        } else if is_compare(op) {
            Ok(Kind::Bool)
        } else {
            Err(ErrView::MismatchedTypes)
        },
        (Kind::I64, Kind::I64) => if is_arith(op) {
            Ok(Kind::I64)
        } else if is_compare(op) {
            Ok(Kind::Bool)
        } else {
            Err(ErrView::MismatchedTypes)
        },
        (Kind::I64, Kind::I32) => if is_compare(op) {
            Ok(Kind::Bool)
        } else {
            Err(ErrView::MismatchedTypes)
        },
        (Kind::F32, Kind::F32) => if is_arith(op) {
            Ok(Kind::F32)
        } else if is_compare(op) {
            Ok(Kind::Bool)
        } else {
            Err(ErrView::MismatchedTypes)
        },
        (Kind::F64, Kind::F64) => if is_arith(op) {
            Ok(Kind::F64)
        } else if is_compare(op) {
            Ok(Kind::Bool)
        } else {
            Err(ErrView::MismatchedTypes)
        },
        _ => Err(ErrView::MismatchedTypes),
    }
}

/// Whether `a op b` is integer arithmetic, which may overflow or divide by
/// zero.
pub open spec fn arith_traps(op: BinaryOperator, a: Kind, b: Kind) -> bool {
    is_arith(op) && ((a is I32 && b is I32) || (a is I64 && b is I64))
}

/// The kind of `op v` for a value of the kind `k`, or its error.
pub open spec fn unary_kind(op: UnaryOperator, k: Kind) -> Result<Kind, ErrView> {
    match op {
        UnaryOperator::Not => if k is Bool {
            Ok(Kind::Bool)
        } else {
            Err(ErrView::MismatchedTypes)
        },
        UnaryOperator::Parenthesis => if k is Array {
            Err(ErrView::MismatchedTypes)
        } else {
            Ok(k)
        },
    }
}

/// The kind of the conversion `name` of a value of the kind `k`, or its
/// error (see `convert_spec`).
pub open spec fn convert_kind(name: Seq<char>, k: Kind) -> Result<Kind, ErrView> {
    match k {
        Kind::I32 => if name == seq!['i', '3', '2'] {
            Ok(Kind::I32)
        } else if name == seq!['i', '6', '4'] {
            Ok(Kind::I64)
        } else if name == seq!['f', '6', '4'] {
            Ok(Kind::F64)
        } else if name == seq!['f', '3', '2'] {
            Ok(Kind::F32)
        } else if name == seq!['s', 't', 'r', 'i', 'n', 'g'] {
            Ok(Kind::String)
        } else {
            Err(ErrView::UnknownConversion(name))
        },
        Kind::F32 => if name == seq!['i', '3', '2', '(', ')'] {
            Ok(Kind::I32)
        } else if name == seq!['i', '6', '4', '(', ')'] {
            Ok(Kind::I64)
        } else if name == seq!['f', '6', '4', '(', ')'] {
            Ok(Kind::F64)
        } else if name == seq!['f', '3', '2', '(', ')'] {
            Ok(Kind::F32)
        } else if name == seq!['s', 't', 'r', 'i', 'n', 'g', '(', ')'] {
            Ok(Kind::String)
        } else {
            Err(ErrView::UnknownConversion(name))
        },
        _ => Err(ErrView::NotConvertible),
    }
}

/// The shape of `left op right`, the left side evaluated first.
pub open spec fn complete_shape(op: BinaryOperator, l: Shape, r: Shape) -> Shape {
    match l.result {
        Err(x) => Shape { result: Err(x), may_trap: l.may_trap },
        Ok(a) => match r.result {
            Err(x) => Shape { result: Err(x), may_trap: l.may_trap || r.may_trap },
            Ok(b) => Shape {
                result: binary_kind(op, a, b),
                may_trap: l.may_trap || r.may_trap || arith_traps(op, a, b),
            },
        },
    }
}

/// The shape of a step with the outcome `k` that follows an evaluation
/// of the shape `s`, when that evaluation gives a value.
pub open spec fn then_shape(s: Shape, k: Result<Kind, ErrView>) -> Shape {
    Shape {
        result: match s.result {
            Ok(_) => k,
            Err(x) => Err(x),
        },
        may_trap: s.may_trap,
    }
}

/// The shape of the evaluation of `e` with the variables `vars`: exact
/// where `eval_spec` knows the outcome, else built from the shapes of its
/// parts.
pub open spec fn shape_spec(e: ExprView, vars: Seq<VarView>) -> Shape
    decreases e, 0nat,
{
    match eval_spec(e, vars) {
        Some(x) => exact_shape(x),
        None => match e {
            ExprView::Array(items) => items_shape(items, vars, items.len()),
            ExprView::Complete(op, l, r) => complete_shape(op, shape_spec(*l, vars), shape_spec(*r, vars)),
            ExprView::CompleteU(op, c) => {
                let s = shape_spec(*c, vars);
                then_shape(
                    s,
                    match s.result {
                        Ok(k) => unary_kind(op, k),
                        Err(x) => Err(x),
                    },
                )
            },
            ExprView::F32(_) => Shape { result: Ok(Kind::F32), may_trap: false },
            ExprView::F64(_) => Shape { result: Ok(Kind::F64), may_trap: false },
            ExprView::FunctionCall(name, args) => if args.len() == 0 {
                exact_shape(Err(ErrView::MissingArgument))
            } else {
                let s = shape_spec(args[0], vars);
                then_shape(
                    s,
                    match s.result {
                        Ok(k) => convert_kind(name, k),
                        Err(x) => Err(x),
                    },
                )
            },
            _ => exact_shape(Err(ErrView::Unsupported)),
        },
    }
}

/// The shape of evaluating the first `n` of `items` in order, the first
/// error stopping it; an array where none fails.
pub open spec fn items_shape(items: Seq<ExprView>, vars: Seq<VarView>, n: nat) -> Shape
    decreases items, n,
{
    if n == 0 || n > items.len() {
        Shape { result: Ok(Kind::Array), may_trap: false }
    } else {
        let prev = items_shape(items, vars, (n - 1) as nat);
        match prev.result {
            Err(_) => prev,
            Ok(_) => {
                let s = shape_spec(items[n - 1], vars);
                Shape {
                    result: match s.result {
                        Ok(_) => Ok(Kind::Array),
                        Err(x) => Err(x),
                    },
                    may_trap: prev.may_trap || s.may_trap,
                }
            },
        }
    }
}

/// Longer prefixes of items keep a failure, and the chance of one.
proof fn lemma_items_shape_grows(items: Seq<ExprView>, vars: Seq<VarView>, k: nat, n: nat)
    requires
        k <= n <= items.len(),
    ensures
        items_shape(items, vars, k).may_trap ==> items_shape(items, vars, n).may_trap,
        items_shape(items, vars, k).result is Err ==> items_shape(items, vars, n) == items_shape(items, vars, k),
    decreases n - k,
{
    if k < n {
        lemma_items_shape_grows(items, vars, k, (n - 1) as nat);
    }
}

/// The value of `e` as far as it is known; one of its kind, or its error,
/// where it rests on floating-point results.
pub open spec fn known_value(e: ExprView, vars: Seq<VarView>) -> Result<PrimView, ErrView> {
    match eval_spec(e, vars) {
        Some(x) => x,
        None => shape_example(shape_spec(e, vars)),
    }
}

/// Integer division rounds toward zero: the quotient times the divisor
/// plus the remainder gives back the dividend, and the remainder is smaller
/// than the divisor in size and has the sign of the dividend (or is zero).
pub proof fn lemma_truncated_division(x: int, y: int)
    requires
        y != 0,
    ensures
        trunc_div(x, y) * y + trunc_rem(x, y) == x,
        x >= 0 ==> 0 <= trunc_rem(x, y) < (if y < 0 { -y } else { y }),
        x < 0 ==> -(if y < 0 { -y } else { y }) < trunc_rem(x, y) <= 0,
{
    if x > 0 && y > 0 {
        vstd::arithmetic::div_mod::lemma_fundamental_div_mod(x, y);
        assert((x / y) * y == y * (x / y)) by (nonlinear_arith);
    } else if x < 0 && y < 0 {
        let a = x * -1;
        let d = y * -1;
        vstd::arithmetic::div_mod::lemma_fundamental_div_mod(a, d);
        assert((a / d) * y == -(d * (a / d))) by (nonlinear_arith)
            requires
                d == y * -1,
        ;
    } else if x < 0 {
        let a = x * -1;
        vstd::arithmetic::div_mod::lemma_fundamental_div_mod(a, y);
        assert(((a / y) * -1) * y == -(y * (a / y))) by (nonlinear_arith);
    } else if x > 0 {
        let d = y * -1;
        vstd::arithmetic::div_mod::lemma_fundamental_div_mod(x, d);
        assert(((x / d) * -1) * y == d * (x / d)) by (nonlinear_arith)
            requires
                d == y * -1,
        ;
    }
}

/// The integer operations compute the mathematical result and fail with
/// an overflow exactly when it leaves the range `lo..=hi`; division and
/// remainder by zero fail as such, and otherwise round toward zero.
pub proof fn lemma_integer_arithmetic(x: int, y: int, lo: int, hi: int)
    ensures
        arith(BinaryOperator::Add, x, y, lo, hi) == (if lo <= x + y <= hi {
            Ok::<int, ErrView>(x + y)
        } else {
            Err(ErrView::Overflow)
        }),
        arith(BinaryOperator::Subtract, x, y, lo, hi) == (if lo <= x - y <= hi {
            Ok::<int, ErrView>(x - y)
        } else {
            Err(ErrView::Overflow)
        }),
        arith(BinaryOperator::Multiply, x, y, lo, hi) == (if lo <= x * y <= hi {
            Ok::<int, ErrView>(x * y)
        } else {
            Err(ErrView::Overflow)
        }),
        y == 0 ==> arith(BinaryOperator::Divide, x, y, lo, hi) == Err::<int, ErrView>(ErrView::DivisionByZero)
            && arith(BinaryOperator::Modulus, x, y, lo, hi) == Err::<int, ErrView>(ErrView::DivisionByZero),
        y != 0 ==> arith(BinaryOperator::Divide, x, y, lo, hi) == (if lo <= trunc_div(x, y) <= hi {
            Ok::<int, ErrView>(trunc_div(x, y))
        } else {
            Err(ErrView::Overflow)
        }),
        y != 0 && !(x == lo && y == -1) ==> arith(BinaryOperator::Modulus, x, y, lo, hi) == (if lo
            <= trunc_rem(x, y) <= hi {
            Ok::<int, ErrView>(trunc_rem(x, y))
        } else {
            Err(ErrView::Overflow)
        }),
{
}

/// `||`, `&&` and `!` on booleans are the logical operations, and
/// parentheses keep any value but an array; converting an `i32` to `i32`
/// or `i64` keeps its value, and to `string` gives a decimal text that
/// reads back as it.
pub proof fn lemma_logic_and_conversions(p: bool, q: bool, v: i32, e: PrimView)
    ensures
        binary_spec(BinaryOperator::Or, PrimView::Bool(p), PrimView::Bool(q)) == Some(
            Ok::<PrimView, ErrView>(PrimView::Bool(p || q)),
        ),
        binary_spec(BinaryOperator::And, PrimView::Bool(p), PrimView::Bool(q)) == Some(
            Ok::<PrimView, ErrView>(PrimView::Bool(p && q)),
        ),
        unary_spec(UnaryOperator::Not, PrimView::Bool(p)) == Ok::<PrimView, ErrView>(PrimView::Bool(!p)),
        !(e is Array) ==> unary_spec(UnaryOperator::Parenthesis, e) == Ok::<PrimView, ErrView>(e),
        convert_spec(seq!['i', '3', '2'], PrimView::I32(v)) == Some(Ok::<PrimView, ErrView>(PrimView::I32(v))),
        convert_spec(seq!['i', '6', '4'], PrimView::I32(v)) matches Some(Ok(PrimView::I64(w))) && w == v,
        convert_spec(seq!['s', 't', 'r', 'i', 'n', 'g'], PrimView::I32(v)) matches Some(
            Ok(PrimView::String(t)),
        ) && signed_decimal(t) == Some(v as int),
{
    lemma_int_text_reads_back(v as int);
}

/// The comparisons of integers mean what they say: `<=` holds exactly when
/// `<` or `==` does (so `x <= x`), `>` is `<` with the sides swapped, `>=`
/// is the negation of `<`, and `!=` that of `==`; on `i32`, `i64`, and an
/// `i64` against an `i32`, each gives the `bool` of the mathematical
/// comparison.
pub proof fn lemma_comparisons(x: int, y: int, a: i32, b: i32, c: i64, d: i64)
    ensures
        compare(BinaryOperator::Equals, x, y) == (x == y),
        compare(BinaryOperator::NotEqual, x, y) == !compare(BinaryOperator::Equals, x, y),
        compare(BinaryOperator::LessThan, x, y) == (x < y),
        compare(BinaryOperator::LessThanOrEqualTo, x, y) == (compare(BinaryOperator::LessThan, x, y)
            || compare(BinaryOperator::Equals, x, y)),
        compare(BinaryOperator::LessThanOrEqualTo, x, x),
        compare(BinaryOperator::GreaterThan, x, y) == compare(BinaryOperator::LessThan, y, x),
        compare(BinaryOperator::GreaterThanOrEqualTo, x, y) == !compare(BinaryOperator::LessThan, x, y),
        binary_spec(BinaryOperator::LessThanOrEqualTo, PrimView::I32(a), PrimView::I32(b)) == Some(
            Ok::<PrimView, ErrView>(PrimView::Bool(a <= b)),
        ),
        binary_spec(BinaryOperator::LessThan, PrimView::I32(a), PrimView::I32(b)) == Some(
            Ok::<PrimView, ErrView>(PrimView::Bool(a < b)),
        ),
        binary_spec(BinaryOperator::GreaterThanOrEqualTo, PrimView::I32(a), PrimView::I32(b)) == Some(
            Ok::<PrimView, ErrView>(PrimView::Bool(a >= b)),
        ),
        binary_spec(BinaryOperator::GreaterThan, PrimView::I32(a), PrimView::I32(b)) == Some(
            Ok::<PrimView, ErrView>(PrimView::Bool(a > b)),
        ),
        binary_spec(BinaryOperator::Equals, PrimView::I32(a), PrimView::I32(b)) == Some(
            Ok::<PrimView, ErrView>(PrimView::Bool(a == b)),
        ),
        binary_spec(BinaryOperator::NotEqual, PrimView::I32(a), PrimView::I32(b)) == Some(
            Ok::<PrimView, ErrView>(PrimView::Bool(a != b)),
        ),
        binary_spec(BinaryOperator::LessThanOrEqualTo, PrimView::I64(c), PrimView::I64(d)) == Some(
            Ok::<PrimView, ErrView>(PrimView::Bool(c <= d)),
        ),
        binary_spec(BinaryOperator::LessThan, PrimView::I64(c), PrimView::I64(d)) == Some(
            Ok::<PrimView, ErrView>(PrimView::Bool(c < d)),
        ),
        binary_spec(BinaryOperator::GreaterThanOrEqualTo, PrimView::I64(c), PrimView::I64(d)) == Some(
            Ok::<PrimView, ErrView>(PrimView::Bool(c >= d)),
        ),
        binary_spec(BinaryOperator::GreaterThan, PrimView::I64(c), PrimView::I64(d)) == Some(
            Ok::<PrimView, ErrView>(PrimView::Bool(c > d)),
        ),
        binary_spec(BinaryOperator::Equals, PrimView::I64(c), PrimView::I64(d)) == Some(
            Ok::<PrimView, ErrView>(PrimView::Bool(c == d)),
        ),
        binary_spec(BinaryOperator::NotEqual, PrimView::I64(c), PrimView::I64(d)) == Some(
            Ok::<PrimView, ErrView>(PrimView::Bool(c != d)),
        ),
        binary_spec(BinaryOperator::LessThanOrEqualTo, PrimView::I64(c), PrimView::I32(a)) == Some(
            Ok::<PrimView, ErrView>(PrimView::Bool(c <= a)),
        ),
        binary_spec(BinaryOperator::LessThan, PrimView::I64(c), PrimView::I32(a)) == Some(
            Ok::<PrimView, ErrView>(PrimView::Bool(c < a)),
        ),
        binary_spec(BinaryOperator::GreaterThanOrEqualTo, PrimView::I64(c), PrimView::I32(a)) == Some(
            Ok::<PrimView, ErrView>(PrimView::Bool(c >= a)),
        ),
        binary_spec(BinaryOperator::GreaterThan, PrimView::I64(c), PrimView::I32(a)) == Some(
            Ok::<PrimView, ErrView>(PrimView::Bool(c > a)),
        ),
        binary_spec(BinaryOperator::Equals, PrimView::I64(c), PrimView::I32(a)) == Some(
            Ok::<PrimView, ErrView>(PrimView::Bool(c == a)),
        ),
        binary_spec(BinaryOperator::NotEqual, PrimView::I64(c), PrimView::I32(a)) == Some(
            Ok::<PrimView, ErrView>(PrimView::Bool(c != a)),
        ),
{
}

/// The kinds floating-point evaluations give, whatever their values: a
/// float literal gives a value of its type; two `f32` (or two `f64`) values
/// give one of the same type under arithmetic and a `bool` under a
/// comparison; an `f32` or `f64` value mixed with an `i32` is a type
/// mismatch; `f32` and `f64` of an `i32` give an `f32` and an `f64`.
pub proof fn lemma_float_kinds(
    text: Seq<char>,
    op: BinaryOperator,
    l: ExprView,
    r: ExprView,
    arg: ExprView,
    vars: Seq<VarView>,
)
    ensures
        shape_spec(ExprView::F32(text), vars) == (Shape { result: Ok(Kind::F32), may_trap: false }),
        shape_spec(ExprView::F64(text), vars) == (Shape { result: Ok(Kind::F64), may_trap: false }),
        shape_spec(l, vars).result == Ok::<Kind, ErrView>(Kind::F32) && shape_spec(r, vars).result == Ok::<
            Kind,
            ErrView,
        >(Kind::F32) && (is_arith(op) || is_compare(op)) ==> shape_spec(
            ExprView::Complete(op, Box::new(l), Box::new(r)),
            vars,
        ).result == Ok::<Kind, ErrView>(if is_arith(op) { Kind::F32 } else { Kind::Bool }),
        shape_spec(l, vars).result == Ok::<Kind, ErrView>(Kind::F64) && shape_spec(r, vars).result == Ok::<
            Kind,
            ErrView,
        >(Kind::F64) && (is_arith(op) || is_compare(op)) ==> shape_spec(
            ExprView::Complete(op, Box::new(l), Box::new(r)),
            vars,
        ).result == Ok::<Kind, ErrView>(if is_arith(op) { Kind::F64 } else { Kind::Bool }),
        (shape_spec(l, vars).result == Ok::<Kind, ErrView>(Kind::F32) || shape_spec(l, vars).result == Ok::<
            Kind,
            ErrView,
        >(Kind::F64)) && shape_spec(r, vars).result == Ok::<Kind, ErrView>(Kind::I32) && !shape_spec(
            r,
            vars,
        ).may_trap ==> shape_spec(ExprView::Complete(op, Box::new(l), Box::new(r)), vars).result == Err::<
            Kind,
            ErrView,
        >(ErrView::MismatchedTypes),
        shape_spec(arg, vars).result == Ok::<Kind, ErrView>(Kind::I32) ==> shape_spec(
            ExprView::FunctionCall(seq!['f', '3', '2'], seq![arg]),
            vars,
        ).result == Ok::<Kind, ErrView>(Kind::F32) && shape_spec(
            ExprView::FunctionCall(seq!['f', '6', '4'], seq![arg]),
            vars,
        ).result == Ok::<Kind, ErrView>(Kind::F64),
{
}

fn int32_binary(op: BinaryOperator, x: i32, y: i32) -> (r: Result<Primitive, EvalError>)
    ensures
        binary_spec(op, PrimView::I32(x), PrimView::I32(y)) == Some(outcome_view(r)),
{
    match op {
        BinaryOperator::Add => match x.checked_add(y) {
            Some(v) => Ok(Primitive::I32(v)),
            None => Err(EvalError::Overflow),
        },
        BinaryOperator::Subtract => match x.checked_sub(y) {
            Some(v) => Ok(Primitive::I32(v)),
            None => Err(EvalError::Overflow),
        },
        BinaryOperator::Multiply => match x.checked_mul(y) {
            Some(v) => Ok(Primitive::I32(v)),
            None => Err(EvalError::Overflow),
        },
        BinaryOperator::Divide => if y == 0 {
            Err(EvalError::DivisionByZero)
        } else {
            match x.checked_div(y) {
                Some(v) => Ok(Primitive::I32(v)),
                None => Err(EvalError::Overflow),
            }
        },
        BinaryOperator::Modulus => if y == 0 {
            Err(EvalError::DivisionByZero)
        } else {
            match x.checked_rem(y) {
                Some(v) => Ok(Primitive::I32(v)),
                None => Err(EvalError::Overflow),
            }
        },
        BinaryOperator::Equals => Ok(Primitive::Bool(x == y)),
        BinaryOperator::NotEqual => Ok(Primitive::Bool(x != y)),
        BinaryOperator::LessThan => Ok(Primitive::Bool(x < y)),
        BinaryOperator::LessThanOrEqualTo => Ok(Primitive::Bool(x <= y)),
        BinaryOperator::GreaterThan => Ok(Primitive::Bool(x > y)),
        BinaryOperator::GreaterThanOrEqualTo => Ok(Primitive::Bool(x >= y)),
        _ => Err(EvalError::MismatchedTypes),
    }
}

fn int64_binary(op: BinaryOperator, x: i64, y: i64) -> (r: Result<Primitive, EvalError>)
    ensures
        binary_spec(op, PrimView::I64(x), PrimView::I64(y)) == Some(outcome_view(r)),
{
    match op {
        BinaryOperator::Add => match x.checked_add(y) {
            Some(v) => Ok(Primitive::I64(v)),
            None => Err(EvalError::Overflow),
        },
        BinaryOperator::Subtract => match x.checked_sub(y) {
            Some(v) => Ok(Primitive::I64(v)),
            None => Err(EvalError::Overflow),
        },
        BinaryOperator::Multiply => match x.checked_mul(y) {
            Some(v) => Ok(Primitive::I64(v)),
            None => Err(EvalError::Overflow),
        },
        BinaryOperator::Divide => if y == 0 {
            Err(EvalError::DivisionByZero)
        } else {
            match x.checked_div(y) {
                Some(v) => Ok(Primitive::I64(v)),
                None => Err(EvalError::Overflow),
            }
        },
        BinaryOperator::Modulus => if y == 0 {
            Err(EvalError::DivisionByZero)
        } else {
            match x.checked_rem(y) {
                Some(v) => Ok(Primitive::I64(v)),
                None => Err(EvalError::Overflow),
            }
        },
        BinaryOperator::Equals => Ok(Primitive::Bool(x == y)),
        BinaryOperator::NotEqual => Ok(Primitive::Bool(x != y)),
        BinaryOperator::LessThan => Ok(Primitive::Bool(x < y)),
        BinaryOperator::LessThanOrEqualTo => Ok(Primitive::Bool(x <= y)),
        BinaryOperator::GreaterThan => Ok(Primitive::Bool(x > y)),
        BinaryOperator::GreaterThanOrEqualTo => Ok(Primitive::Bool(x >= y)),
        _ => Err(EvalError::MismatchedTypes),
    }
}

fn is_arith_op(op: BinaryOperator) -> (b: bool)
    ensures
        b == is_arith(op),
{
    match op {
        BinaryOperator::Add | BinaryOperator::Subtract | BinaryOperator::Multiply
        | BinaryOperator::Divide | BinaryOperator::Modulus => true,
        _ => false,
    }
}

fn is_compare_op(op: BinaryOperator) -> (b: bool)
    ensures
        b == is_compare(op),
{
    match op {
        BinaryOperator::Equals | BinaryOperator::NotEqual | BinaryOperator::LessThan
        | BinaryOperator::LessThanOrEqualTo | BinaryOperator::GreaterThan
        | BinaryOperator::GreaterThanOrEqualTo => true,
        _ => false,
    }
}

fn compare_i64(op: BinaryOperator, x: i64, y: i64) -> (b: bool)
    requires
        is_compare(op),
    ensures
        b == compare(op, x as int, y as int),
{
    match op {
        BinaryOperator::Equals => x == y,
        BinaryOperator::NotEqual => x != y,
        BinaryOperator::LessThan => x < y,
        BinaryOperator::LessThanOrEqualTo => x <= y,
        BinaryOperator::GreaterThan => x > y,
        _ => x >= y,
    }
}

/// `a op b`.
fn apply_binary<F: FloatArithmetic>(op: BinaryOperator, a: Primitive, b: Primitive, floats: &F) -> (r: Result<Primitive, EvalError>)
    ensures
        binary_spec(op, a@, b@) matches Some(x) ==> outcome_view(r) == x,
        fits(
            Shape {
                result: binary_kind(op, kind_of(a@), kind_of(b@)),
                may_trap: arith_traps(op, kind_of(a@), kind_of(b@)),
            },
            outcome_view(r),
        ),
{
    match (a, b) {
        (Primitive::Bool(x), Primitive::Bool(y)) => match op {
            BinaryOperator::Or => Ok(Primitive::Bool(x || y)),
            BinaryOperator::And => Ok(Primitive::Bool(x && y)),
            _ => Err(EvalError::MismatchedTypes),
        },
        (Primitive::I32(x), Primitive::I32(y)) => int32_binary(op, x, y),
        (Primitive::I64(x), Primitive::I64(y)) => int64_binary(op, x, y),
        (Primitive::I64(x), Primitive::I32(y)) => if is_compare_op(op) {
            Ok(Primitive::Bool(compare_i64(op, x, y as i64)))
        } else {
            Err(EvalError::MismatchedTypes)
        },
        (Primitive::F32(x), Primitive::F32(y)) => if is_arith_op(op) {
            Ok(Primitive::F32(floats.f32_arith(op, x, y)))
        } else if is_compare_op(op) {
            Ok(Primitive::Bool(floats.f32_compare(op, x, y)))
        } else {
            Err(EvalError::MismatchedTypes)
        },
        (Primitive::F64(x), Primitive::F64(y)) => if is_arith_op(op) {
            Ok(Primitive::F64(floats.f64_arith(op, x, y)))
        } else if is_compare_op(op) {
            Ok(Primitive::Bool(floats.f64_compare(op, x, y)))
        } else {
            Err(EvalError::MismatchedTypes)
        },
        _ => Err(EvalError::MismatchedTypes),
    }
}

/// `op v`.
fn apply_unary(op: UnaryOperator, v: Primitive) -> (r: Result<Primitive, EvalError>)
    ensures
        outcome_view(r) == unary_spec(op, v@),
{
    match op {
        UnaryOperator::Not => match v {
            Primitive::Bool(b) => Ok(Primitive::Bool(!b)),
            _ => Err(EvalError::MismatchedTypes),
        },
        UnaryOperator::Parenthesis => match v {
            Primitive::Array(_) => Err(EvalError::MismatchedTypes),
            _ => Ok(v),
        },
    }
}

/// The conversion `name` applied to `v`.
fn apply_conversion<F: FloatArithmetic>(name: &String, v: Primitive, floats: &F) -> (r: Result<Primitive, EvalError>)
    ensures
        convert_spec(name@, v@) matches Some(x) ==> outcome_view(r) == x,
        fits(Shape { result: convert_kind(name@, kind_of(v@)), may_trap: false }, outcome_view(r)),
{
    proof {
        reveal_strlit("i32");
        reveal_strlit("i64");
        reveal_strlit("f64");
        reveal_strlit("f32");
        reveal_strlit("string");
        reveal_strlit("i32()");
        reveal_strlit("i64()");
        reveal_strlit("f64()");
        reveal_strlit("f32()");
        reveal_strlit("string()");
        assert("i32"@ =~= seq!['i', '3', '2']);
        assert("i64"@ =~= seq!['i', '6', '4']);
        assert("f64"@ =~= seq!['f', '6', '4']);
        assert("f32"@ =~= seq!['f', '3', '2']);
        assert("string"@ =~= seq!['s', 't', 'r', 'i', 'n', 'g']);
        assert("i32()"@ =~= seq!['i', '3', '2', '(', ')']);
        assert("i64()"@ =~= seq!['i', '6', '4', '(', ')']);
        assert("f64()"@ =~= seq!['f', '6', '4', '(', ')']);
        assert("f32()"@ =~= seq!['f', '3', '2', '(', ')']);
        assert("string()"@ =~= seq!['s', 't', 'r', 'i', 'n', 'g', '(', ')']);
    }
    let n = name.as_str();
    match v {
        Primitive::I32(x) => if str_equals(n, "i32") {
            Ok(Primitive::I32(x))
        } else if str_equals(n, "i64") {
            Ok(Primitive::I64(x as i64))
        } else if str_equals(n, "f64") {
            Ok(Primitive::F64(floats.f64_from_i32(x)))
        } else if str_equals(n, "f32") {
            Ok(Primitive::F32(floats.f32_from_i32(x)))
        } else if str_equals(n, "string") {
            Ok(Primitive::String(int_to_string(x as i64)))
        } else {
            Err(EvalError::UnknownConversion(copy_string(name)))
        },
        Primitive::F32(x) => if str_equals(n, "i32()") {
            Ok(Primitive::I32(floats.f32_to_i32(x)))
        } else if str_equals(n, "i64()") {
            Ok(Primitive::I64(floats.f32_to_i64(x)))
        } else if str_equals(n, "f64()") {
            Ok(Primitive::F64(floats.f32_to_f64(x)))
        } else if str_equals(n, "f32()") {
            Ok(Primitive::F32(x))
        } else if str_equals(n, "string()") {
            Ok(Primitive::String(floats.f32_text(x)))
        } else {
            Err(EvalError::UnknownConversion(copy_string(name)))
        },
        _ => Err(EvalError::NotConvertible),
    }
}

impl Expression {
    /// The value of this expression with the variables `variables`, on
    /// expressions whose shape is a value (an expression that fails goes to
    /// `try_evaluate`). The value is of the kind the shape gives; where it
    /// rests on floating-point results, it is what they give. Only integer
    /// arithmetic on a value got from floating-point work can still fail
    /// here (an overflow or a division by zero); the value is then
    /// `Bool(false)`.
    pub fn evaluate<F: FloatArithmetic>(&self, variables: &Variables, floats: &F) -> (r: Primitive)
        requires
            shape_spec(self@, variables@).result is Ok,
        ensures
            eval_spec(self@, variables@) matches Some(x) ==> x == Ok::<PrimView, ErrView>(r@),
            !shape_spec(self@, variables@).may_trap ==> shape_spec(self@, variables@).result == Ok::<
                Kind,
                ErrView,
            >(kind_of(r@)),
    {
        match self.try_evaluate(variables, floats) {
            Ok(v) => v,
            Err(_) => Primitive::Bool(false),
        }
    }

    /// The value of this expression with the variables `variables`, or the
    /// error that stops its evaluation.
    pub fn try_evaluate<F: FloatArithmetic>(&self, variables: &Variables, floats: &F) -> (r: Result<Primitive, EvalError>)
        ensures
            eval_spec(self@, variables@) matches Some(x) ==> outcome_view(r) == x,
            fits(shape_spec(self@, variables@), outcome_view(r)),
        decreases self, 1nat,
    {
        match self {
            Expression::Array(items) => {
                let ghost iv = exprs_view(*items);
                proof {
                    lemma_exprs_view(*items);
                }
                let mut out: Vec<Primitive> = Vec::new();
                let mut k: usize = 0;
                while k < items.len()
                    invariant
                        k <= items@.len(),
                        *self == Expression::Array(*items),
                        iv == exprs_view(*items),
                        iv == items@.map_values(|e: Expression| expr_view(e)),
                        eval_items(iv, variables@, k as nat) is None || eval_items(iv, variables@, k as nat)
                            == Some(Ok::<Seq<PrimView>, ErrView>(prims_view(out))),
                        items_shape(iv, variables@, k as nat).result == Ok::<Kind, ErrView>(Kind::Array),
                    decreases items@.len() - k,
                {
                    proof {
                        assert(decreases_to!(*self => (*self)->Array_0));
                        assert(decreases_to!(*items => items[k as int]));
                        lemma_prims_view(out);
                    }
                    let v = items[k].try_evaluate(variables, floats);
                    match v {
                        Ok(p) => {
                            let ghost before = out;
                            out.push(p);
                            proof {
                                lemma_prims_view(out);
                                assert(prims_view(out) =~= prims_view(before).push(p@));
                            }
                        },
                        Err(e) => {
                            proof {
                                lemma_eval_items_stops(iv, variables@, (k + 1) as nat, iv.len());
                                lemma_items_shape_grows(iv, variables@, (k + 1) as nat, iv.len());
                            }
                            return Err(e);
                        },
                    }
                    k = k + 1;
                }
                Ok(Primitive::Array(out))
            },
            Expression::String(s) => Ok(Primitive::String(copy_string(s))),
            Expression::Bool(b) => Ok(Primitive::Bool(*b)),
            Expression::Variable(name) => match variables.get(name.as_str()) {
                Some(p) => Ok(p),
                None => Err(EvalError::UndefinedVariable(copy_string(name))),
            },
            Expression::Complete(complete) => complete.try_evaluate(variables, floats),
            Expression::CompleteU(complete_u) => complete_u.try_evaluate(variables, floats),
            Expression::Increment => Err(EvalError::Unsupported),
            Expression::Decrement => Err(EvalError::Unsupported),
            Expression::I32(v) => Ok(Primitive::I32(*v)),
            Expression::I64(v) => Ok(Primitive::I64(*v)),
            Expression::F32(text) => Ok(Primitive::F32(floats.f32_parse(text.as_str()))),
            Expression::F64(text) => Ok(Primitive::F64(floats.f64_parse(text.as_str()))),
            Expression::FunctionCall(name, args) => {
                proof {
                    lemma_exprs_view(*args);
                }
                if args.len() == 0 {
                    return Err(EvalError::MissingArgument);
                }
                proof {
                    assert(decreases_to!(*self => (*self)->FunctionCall_1));
                    assert(decreases_to!(*args => args[0]));
                }
                match args[0].try_evaluate(variables, floats) {
                    Ok(v) => apply_conversion(name, v, floats),
                    Err(e) => Err(e),
                }
            },
            Expression::BinaryOperator(_) => Err(EvalError::UnexpectedExpression),
            Expression::UnaryOperator(_) => Err(EvalError::UnexpectedExpression),
        }
    }
}

impl Complete {
    /// The value of `left operator right`, on operations whose shape is a
    /// value (an operation that fails goes to `try_evaluate`). The value is
    /// of the kind the shape gives; where it rests on floating-point results,
    /// it is what they give. Only integer arithmetic on a value got from
    /// floating-point work can still fail here (an overflow or a division by
    /// zero); the value is then `Bool(false)`.
    pub fn evaluate<F: FloatArithmetic>(&self, variables: &Variables, floats: &F) -> (r: Primitive)
        requires
            shape_spec(complete_view(*self), variables@).result is Ok,
        ensures
            eval_spec(complete_view(*self), variables@) matches Some(x) ==> x == Ok::<PrimView, ErrView>(r@),
            !shape_spec(complete_view(*self), variables@).may_trap ==> shape_spec(
                complete_view(*self),
                variables@,
            ).result == Ok::<Kind, ErrView>(kind_of(r@)),
    {
        match self.try_evaluate(variables, floats) {
            Ok(v) => v,
            Err(_) => Primitive::Bool(false),
        }
    }

    /// The value of `left operator right`, the left side evaluated first,
    /// or the error that stops its evaluation.
    pub fn try_evaluate<F: FloatArithmetic>(&self, variables: &Variables, floats: &F) -> (r: Result<Primitive, EvalError>)
        ensures
            eval_spec(complete_view(*self), variables@) matches Some(x) ==> outcome_view(r) == x,
            fits(shape_spec(complete_view(*self), variables@), outcome_view(r)),
        decreases self, 0nat,
    {
        let left = self.left.try_evaluate(variables, floats);
        match left {
            Ok(a) => {
                let right = self.right.try_evaluate(variables, floats);
                match right {
                    Ok(b) => apply_binary(self.operator, a, b, floats),
                    Err(e) => Err(e),
                }
            },
            Err(e) => Err(e),
        }
    }
}

impl CompleteU {
    /// The value of `operator child`, or the error that stops its
    /// evaluation.
    pub fn try_evaluate<F: FloatArithmetic>(&self, variables: &Variables, floats: &F) -> (r: Result<Primitive, EvalError>)
        ensures
            eval_spec(ExprView::CompleteU(self.operator, Box::new(expr_view(*self.child))), variables@) matches Some(x)
                ==> outcome_view(r) == x,
            fits(shape_spec(ExprView::CompleteU(self.operator, Box::new(expr_view(*self.child))), variables@), outcome_view(r)),
        decreases self, 0nat,
    {
        match self.child.try_evaluate(variables, floats) {
            Ok(v) => apply_unary(self.operator, v),
            Err(e) => Err(e),
        }
    }
}

// ---------------------------------------------------------------------
// Execution of statements
// ---------------------------------------------------------------------
/// A piece of work a running program still has to do.
pub enum Frame<'a> {
    /// Execute the statements of a block from the given index on.
    Block(&'a VecDeque<Statement>, usize),
    /// Execute one statement.
    Single(&'a Statement),
    /// Check the condition of a `while` loop again, after its body ran.
    WhileAgain(&'a Expression, &'a VecDeque<Statement>),
    /// Check the condition of a `for` loop: condition, increment, body,
    /// and whether this is the check right after the definition.
    ForCheck(&'a Expression, &'a Statement, &'a VecDeque<Statement>, bool),
    /// After the body of a `for` loop: run the increment, then check again.
    ForStep(&'a Expression, &'a Statement, &'a VecDeque<Statement>),
    /// The `else` block of an `if` whose condition was false; it runs after
    /// the `elif` block that was chosen, if any.
    Else(&'a Option<VecDeque<Statement>>),
}

pub enum FrameView {
    Block(Seq<StmtView>, nat),
    Single(StmtView),
    WhileAgain(ExprView, Seq<StmtView>),
    ForCheck(ExprView, StmtView, Seq<StmtView>, bool),
    ForStep(ExprView, StmtView, Seq<StmtView>),
    Else(Option<Seq<StmtView>>),
}

pub open spec fn frame_view(f: Frame) -> FrameView {
    match f {
        Frame::Block(b, i) => FrameView::Block(stmts_view(*b), i as nat),
        Frame::Single(st) => FrameView::Single(stmt_view(*st)),
        Frame::WhileAgain(c, b) => FrameView::WhileAgain(expr_view(*c), stmts_view(*b)),
        Frame::ForCheck(c, inc, b, first) => FrameView::ForCheck(
            expr_view(*c),
            stmt_view(*inc),
            stmts_view(*b),
            first,
        ),
        Frame::ForStep(c, inc, b) => FrameView::ForStep(expr_view(*c), stmt_view(*inc), stmts_view(*b)),
        Frame::Else(e) => FrameView::Else(
            match *e {
                Some(b) => Some(stmts_view(b)),
                None => None,
            },
        ),
    }
}

/// What the caller has to do after a step.
#[derive(Debug)]
pub enum Action {
    /// Nothing; step again.
    Continue,
    /// Print the text and a newline, then step again.
    Print(String),
    /// Sleep this many seconds (the value taken as `u64`), then step again.
    Sleep(i32),
    /// The program has ended.
    Finished,
    /// The program stopped with an error.
    Failed(EvalError),
}

pub enum ActionView {
    Continue,
    Print(Seq<char>),
    Sleep(i32),
    Finished,
    Failed(ErrView),
}

pub open spec fn action_view(a: Action) -> ActionView {
    match a {
        Action::Continue => ActionView::Continue,
        Action::Print(t) => ActionView::Print(t@),
        Action::Sleep(v) => ActionView::Sleep(v),
        Action::Finished => ActionView::Finished,
        Action::Failed(e) => ActionView::Failed(e@),
    }
}

impl View for Action {
    type V = ActionView;

    open spec fn view(&self) -> ActionView {
        action_view(*self)
    }
}

/// The state of a running program: its variables and the work left,
/// innermost last.
pub type MachineView = (Seq<VarView>, Seq<FrameView>);

/// A step's result: the next state and the action; `None` where it
/// depends on a floating-point computation.
pub type StepView = Option<(MachineView, ActionView)>;

/// The type a value gets when it is assigned to an existing variable.
pub open spec fn type_of(v: PrimView) -> Option<Type> {
    match v {
        PrimView::Bool(_) => Some(Type::Bool),
        PrimView::I32(_) => Some(Type::I32),
        PrimView::String(_) => Some(Type::String),
        PrimView::F32(_) => Some(Type::F32),
        PrimView::I64(_) => Some(Type::I64),
        PrimView::F64(_) => Some(Type::F64),
        PrimView::Array(_) => None,
    }
}

/// A step that stops the program with `e`; no work is left.
pub open spec fn fail(vars: Seq<VarView>, e: ErrView) -> StepView {
    Some(((vars, Seq::empty()), ActionView::Failed(e)))
}

/// A step that goes on with `frames` and nothing for the caller to do.
pub open spec fn go_on(vars: Seq<VarView>, frames: Seq<FrameView>) -> StepView {
    Some(((vars, frames), ActionView::Continue))
}

pub open spec fn print_name() -> Seq<char> {
    seq!['p', 'r', 'i', 'n', 't']
}

pub open spec fn sleep_name() -> Seq<char> {
    seq!['s', 'l', 'e', 'e', 'p']
}

/// The first `elif` from index `k` on whose condition is `true`: its
/// block, or `None` where there is none. Entries that are not `elif`s, and
/// conditions that are not `bool`s, are passed over.
pub open spec fn elif_choice(elifs: Seq<StmtView>, vars: Seq<VarView>, k: nat) -> Option<
    Result<Option<Seq<StmtView>>, ErrView>,
>
    decreases elifs.len() - k,
{
    if k >= elifs.len() {
        Some(Ok(None))
    } else {
        match elifs[k as int] {
            StmtView::Elif(c, b) => match eval_spec(c, vars) {
                Some(Ok(PrimView::Bool(true))) => Some(Ok(Some(b))),
                Some(Ok(_)) => elif_choice(elifs, vars, k + 1),
                Some(Err(e)) => Some(Err(e)),
                None => None,
            },
            _ => elif_choice(elifs, vars, k + 1),
        }
    }
}

/// The condition of the entry `i` of `elifs` is known to be `true`.
pub open spec fn elif_true(elifs: Seq<StmtView>, vars: Seq<VarView>, i: int) -> bool {
    elifs[i] matches StmtView::Elif(c, _) && eval_spec(c, vars) == Some(
        Ok::<PrimView, ErrView>(PrimView::Bool(true)),
    )
}

/// The condition of the entry `i` of `elifs` is known to fail with `e`.
pub open spec fn elif_fails(elifs: Seq<StmtView>, vars: Seq<VarView>, i: int, e: ErrView) -> bool {
    elifs[i] matches StmtView::Elif(c, _) && eval_spec(c, vars) == Some(Err::<PrimView, ErrView>(e))
}

/// The entry `i` of `elifs` is passed over: it is no `elif`, or its
/// condition is known to give a value other than `true`.
pub open spec fn elif_passed(elifs: Seq<StmtView>, vars: Seq<VarView>, i: int) -> bool {
    match elifs[i] {
        StmtView::Elif(c, _) => eval_spec(c, vars) matches Some(Ok(v)) && v != PrimView::Bool(true),
        _ => true,
    }
}

/// The `elif` chosen for an `if` whose condition is false is the first,
/// in order, whose condition is `true`: a chosen block belongs to an `elif`
/// whose condition is `true` and every entry before it was passed over;
/// no block is chosen only when every entry was passed over; and an error
/// is that of the first condition that fails, every entry before it
/// passed over.
pub proof fn lemma_elif_choice_is_first_true(elifs: Seq<StmtView>, vars: Seq<VarView>, k: nat)
    ensures
        elif_choice(elifs, vars, k) matches Some(Ok(Some(b))) ==> exists|j: int|
            k <= j < elifs.len() && #[trigger] elif_true(elifs, vars, j) && elifs[j]->Elif_1 == b && forall|
                i: int,
            |
                k <= i < j ==> #[trigger] elif_passed(elifs, vars, i),
        elif_choice(elifs, vars, k) == Some(Ok::<Option<Seq<StmtView>>, ErrView>(None)) ==> forall|i: int|
            k <= i < elifs.len() ==> #[trigger] elif_passed(elifs, vars, i),
        elif_choice(elifs, vars, k) matches Some(Err(e)) ==> exists|j: int|
            k <= j < elifs.len() && #[trigger] elif_fails(elifs, vars, j, e) && forall|i: int|
                k <= i < j ==> #[trigger] elif_passed(elifs, vars, i),
        (forall|i: int| k <= i < elifs.len() ==> #[trigger] elif_passed(elifs, vars, i)) ==> elif_choice(
            elifs,
            vars,
            k,
        ) == Some(Ok::<Option<Seq<StmtView>>, ErrView>(None)),
    decreases elifs.len() - k,
{
    if k < elifs.len() {
        lemma_elif_choice_is_first_true(elifs, vars, k + 1);
        assert(elif_true(elifs, vars, k as int) ==> !elif_passed(elifs, vars, k as int));
        if forall|i: int| k <= i < elifs.len() ==> #[trigger] elif_passed(elifs, vars, i) {
            assert(elif_passed(elifs, vars, k as int));
            assert(forall|i: int| k + 1 <= i < elifs.len() ==> #[trigger] elif_passed(elifs, vars, i));
        }
        match elifs[k as int] {
            StmtView::Elif(c, b) => {
                match eval_spec(c, vars) {
                    Some(Ok(PrimView::Bool(true))) => {
                        assert(elif_true(elifs, vars, k as int));
                    },
                    Some(Ok(_)) => {
                        assert(elif_passed(elifs, vars, k as int));
                    },
                    Some(Err(e)) => {
                        assert(elif_fails(elifs, vars, k as int, e));
                    },
                    None => {},
                }
            },
            _ => {
                assert(elif_passed(elifs, vars, k as int));
            },
        }
    }
}

/// Executing the statement `st` with the variables `vars`, where `frames`
/// is the work that follows it.
pub open spec fn exec_spec(st: StmtView, vars: Seq<VarView>, frames: Seq<FrameView>) -> StepView {
    match st {
        StmtView::FunctionCall(name, args) => if name == print_name() || name == sleep_name() {
            if args.len() == 0 {
                fail(vars, ErrView::MissingArgument)
            } else {
                match eval_spec(args[0], vars) {
                    Some(Ok(v)) => if name == print_name() {
                        match display_text(v) {
                            Some(t) => Some(((vars, frames), ActionView::Print(t))),
                            None => None,
                        }
                    } else {
                        match v {
                            PrimView::I32(secs) => Some(((vars, frames), ActionView::Sleep(secs))),
                            _ => go_on(vars, frames),
                        }
                    },
                    Some(Err(e)) => fail(vars, e),
                    None => None,
                }
            }
        } else {
            fail(vars, ErrView::UndefinedFunction(name))
        },
        StmtView::DefineVariable(name, e, t) => match eval_spec(e, vars) {
            Some(Ok(v)) => go_on(assign(vars, name, v, t), frames),
            Some(Err(x)) => fail(vars, x),
            None => None,
        },
        StmtView::WhileLoop(c, body) => match eval_spec(c, vars) {
            Some(Ok(PrimView::Bool(true))) => go_on(
                vars,
                frames.push(FrameView::WhileAgain(c, body)).push(FrameView::Block(body, 0)),
            ),
            Some(Ok(_)) => go_on(vars, frames),
            Some(Err(x)) => fail(vars, x),
            None => None,
        },
        StmtView::If(c, body, elifs, else_block) => match eval_spec(c, vars) {
            Some(Ok(PrimView::Bool(true))) => go_on(vars, frames.push(FrameView::Block(body, 0))),
            Some(Ok(PrimView::Bool(false))) => match elif_choice(elifs, vars, 0) {
                Some(Ok(Some(b))) => go_on(
                    vars,
                    frames.push(FrameView::Else(else_block)).push(FrameView::Block(b, 0)),
                ),
                Some(Ok(None)) => go_on(vars, frames.push(FrameView::Else(else_block))),
                Some(Err(x)) => fail(vars, x),
                None => None,
            },
            Some(Ok(_)) => fail(vars, ErrView::ConditionNotBool),
            Some(Err(x)) => fail(vars, x),
            None => None,
        },
        StmtView::ModifyVariable(name, e) => match eval_spec(e, vars) {
            Some(Ok(v)) => if lookup(vars, name) is None {
                fail(vars, ErrView::AssignToUndefined(name))
            } else {
                match type_of(v) {
                    Some(t) => go_on(assign(vars, name, v, t), frames),
                    None => fail(vars, ErrView::Unsupported),
                }
            },
            Some(Err(x)) => fail(vars, x),
            None => None,
        },
        StmtView::ForLoop(def, c, inc, body) => go_on(
            vars,
            frames.push(FrameView::ForCheck(c, *inc, body, true)).push(FrameView::Single(*def)),
        ),
        StmtView::Elif(_, _) => fail(vars, ErrView::UnexpectedStatement),
        StmtView::DefineFunction(_, _, _) => fail(vars, ErrView::UnexpectedStatement),
    }
}

/// Whether `st` may go to `evaluate_line`: it calls no function but
/// `print` and `sleep`, and assigns only to a defined variable.
pub open spec fn line_allowed(st: StmtView, vars: Seq<VarView>) -> bool {
    &&& (st matches StmtView::FunctionCall(name, _) ==> name == print_name() || name == sleep_name())
    &&& (st matches StmtView::ModifyVariable(name, _) ==> lookup(vars, name) is Some)
}

/// One step of a running program.
pub open spec fn step_spec(m: MachineView) -> StepView {
    let (vars, frames) = m;
    if frames.len() == 0 {
        Some(((vars, frames), ActionView::Finished))
    } else {
        let rest = frames.drop_last();
        match frames.last() {
            FrameView::Block(b, i) => if i >= b.len() {
                go_on(vars, rest)
            } else {
                exec_spec(b[i as int], vars, rest.push(FrameView::Block(b, i + 1)))
            },
            FrameView::Single(st) => exec_spec(st, vars, rest),
            FrameView::WhileAgain(c, body) => match eval_spec(c, vars) {
                Some(Ok(PrimView::Bool(false))) => go_on(vars, rest),
                Some(Ok(_)) => go_on(
                    vars,
                    rest.push(FrameView::WhileAgain(c, body)).push(FrameView::Block(body, 0)),
                ),
                Some(Err(x)) => fail(vars, x),
                None => None,
            },
            FrameView::ForCheck(c, inc, body, first) => match eval_spec(c, vars) {
                Some(Ok(PrimView::Bool(false))) => go_on(vars, rest),
                Some(Ok(PrimView::Bool(true))) => go_on(
                    vars,
                    rest.push(FrameView::ForStep(c, inc, body)).push(FrameView::Block(body, 0)),
                ),
                Some(Ok(_)) => if first {
                    go_on(vars, rest)
                } else {
                    go_on(
                        vars,
                        rest.push(FrameView::ForStep(c, inc, body)).push(FrameView::Block(body, 0)),
                    )
                },
                Some(Err(x)) => fail(vars, x),
                None => None,
            },
            FrameView::ForStep(c, inc, body) => go_on(
                vars,
                rest.push(FrameView::ForCheck(c, inc, body, false)).push(FrameView::Single(inc)),
            ),
            FrameView::Else(e) => match e {
                Some(b) => go_on(vars, rest.push(FrameView::Block(b, 0))),
                None => fail(vars, ErrView::MissingElse),
            },
        }
    }
}

/// A step that stops the program with an error leaves no work; a step
/// that finishes it changes nothing, and comes only when no work is left.
pub proof fn lemma_step_ends(m: MachineView)
    ensures
        step_spec(m) matches Some((next, ActionView::Failed(_))) ==> next.1.len() == 0 && next.0 == m.0,
        step_spec(m) matches Some((next, ActionView::Finished)) ==> m.1.len() == 0 && next == m,
        m.1.len() == 0 ==> step_spec(m) == Some((m, ActionView::Finished)),
{
    let (vars, frames) = m;
    if frames.len() > 0 {
        let rest = frames.drop_last();
        match frames.last() {
            FrameView::Block(b, i) => {
                if i < b.len() {
                    lemma_exec_never_finishes(b[i as int], vars, rest.push(FrameView::Block(b, i + 1)));
                }
            },
            FrameView::Single(st) => lemma_exec_never_finishes(st, vars, rest),
            _ => {},
        }
    }
}

proof fn lemma_exec_never_finishes(st: StmtView, vars: Seq<VarView>, frames: Seq<FrameView>)
    ensures
        exec_spec(st, vars, frames) matches Some((next, ActionView::Failed(_))) ==> next.1.len() == 0 && next.0 == vars,
        !(exec_spec(st, vars, frames) matches Some((_, ActionView::Finished))),
{
}

/// A step's result with the frames `bottom` put under the frames it
/// leaves, unless it stopped the program.
pub open spec fn under(bottom: Seq<FrameView>, s: StepView) -> StepView {
    match s {
        Some(((v, f), a)) => Some(((v, if a is Failed { f } else { bottom + f }), a)),
        None => None,
    }
}

proof fn lemma_push_under(bottom: Seq<FrameView>, r: Seq<FrameView>, x: FrameView, y: FrameView)
    ensures
        (bottom + r).push(x) == bottom + r.push(x),
        (bottom + r).push(x).push(y) == bottom + r.push(x).push(y),
{
    assert((bottom + r).push(x) =~= bottom + r.push(x));
    assert((bottom + r).push(x).push(y) =~= bottom + r.push(x).push(y));
}

proof fn lemma_exec_under(st: StmtView, vars: Seq<VarView>, bottom: Seq<FrameView>, r: Seq<FrameView>)
    ensures
        exec_spec(st, vars, bottom + r) == under(bottom, exec_spec(st, vars, r)),
{
    match st {
        StmtView::WhileLoop(c, body) => {
            lemma_push_under(bottom, r, FrameView::WhileAgain(c, body), FrameView::Block(body, 0));
        },
        StmtView::If(c, body, elifs, else_block) => {
            lemma_push_under(bottom, r, FrameView::Block(body, 0), FrameView::Block(body, 0));
            match elif_choice(elifs, vars, 0) {
                Some(Ok(Some(b))) => lemma_push_under(bottom, r, FrameView::Else(else_block), FrameView::Block(b, 0)),
                _ => lemma_push_under(bottom, r, FrameView::Else(else_block), FrameView::Else(else_block)),
            }
        },
        StmtView::ForLoop(def, c, inc, body) => {
            lemma_push_under(bottom, r, FrameView::ForCheck(c, *inc, body, true), FrameView::Single(*def));
        },
        _ => {},
    }
}

/// What runs on top of the stack does not depend on the work below it: a
/// step with more work underneath does what the step without it does, and
/// leaves that work in place (unless the program stops).
pub proof fn lemma_step_under(vars: Seq<VarView>, bottom: Seq<FrameView>, top: Seq<FrameView>)
    requires
        top.len() > 0,
    ensures
        step_spec((vars, bottom + top)) == under(bottom, step_spec((vars, top))),
{
    let all = bottom + top;
    let rest = top.drop_last();
    assert(all.drop_last() =~= bottom + rest);
    assert(all.last() == top.last());
    match top.last() {
        FrameView::Block(b, i) => {
            if i < b.len() {
                lemma_exec_under(b[i as int], vars, bottom, rest.push(FrameView::Block(b, i + 1)));
                lemma_push_under(bottom, rest, FrameView::Block(b, i + 1), FrameView::Block(b, i + 1));
            }
        },
        FrameView::Single(st) => lemma_exec_under(st, vars, bottom, rest),
        FrameView::WhileAgain(c, body) => {
            lemma_push_under(bottom, rest, FrameView::WhileAgain(c, body), FrameView::Block(body, 0));
        },
        FrameView::ForCheck(c, inc, body, first) => {
            lemma_push_under(bottom, rest, FrameView::ForStep(c, inc, body), FrameView::Block(body, 0));
        },
        FrameView::ForStep(c, inc, body) => {
            lemma_push_under(bottom, rest, FrameView::ForCheck(c, inc, body, false), FrameView::Single(inc));
        },
        FrameView::Else(e) => {
            match e {
                Some(b) => lemma_push_under(bottom, rest, FrameView::Block(b, 0), FrameView::Block(b, 0)),
                None => {},
            }
        },
    }
}

// ---------------------------------------------------------------------
// Steps for every outcome of the evaluations they make
// ---------------------------------------------------------------------
/// What the evaluations a step makes gave: the value of its first
/// expression, the `elif` an `if` chose, and the text of a printed value.
/// Where these rest on floating-point computation, any outcome may stand
/// here; elsewhere they are what `eval_spec`, `elif_choice` and
/// `display_text` say (see `outcome_agrees`).
pub struct Outcome {
    pub value: Result<PrimView, ErrView>,
    pub choice: Result<Option<Seq<StmtView>>, ErrView>,
    pub text: Seq<char>,
}

/// The expression a statement evaluates first, if any.
pub open spec fn first_expression(st: StmtView) -> Option<ExprView> {
    match st {
        StmtView::FunctionCall(_, args) => if args.len() > 0 {
            Some(args[0])
        } else {
            None
        },
        StmtView::DefineVariable(_, e, _) => Some(e),
        StmtView::WhileLoop(c, _) => Some(c),
        StmtView::If(c, _, _, _) => Some(c),
        StmtView::ModifyVariable(_, e) => Some(e),
        _ => None,
    }
}

/// `v` is what evaluating `e` gives, where that is known, and of the shape
/// of that evaluation in any case.
pub open spec fn value_agrees(e: ExprView, vars: Seq<VarView>, v: Result<PrimView, ErrView>) -> bool {
    &&& eval_spec(e, vars) matches Some(x) ==> v == x
    &&& fits(shape_spec(e, vars), v)
}

/// The outcomes agree with everything known of the evaluations `st` makes.
pub open spec fn outcome_agrees(st: StmtView, vars: Seq<VarView>, o: Outcome) -> bool {
    &&& (first_expression(st) matches Some(e) ==> value_agrees(e, vars, o.value))
    &&& (st matches StmtView::If(_, _, elifs, _) ==> (elif_choice(elifs, vars, 0) matches Some(x)
        ==> o.choice == x))
    &&& (o.value matches Ok(v) ==> (display_text(v) matches Some(t) ==> o.text == t))
}

/// The text a value prints as, where that is known.
pub open spec fn shown(value: Result<PrimView, ErrView>) -> Seq<char> {
    match value {
        Ok(v) => match display_text(v) {
            Some(t) => t,
            None => Seq::empty(),
        },
        Err(_) => Seq::empty(),
    }
}

/// The `elif` an `if` statement chooses, where that is known.
pub open spec fn known_choice(st: StmtView, vars: Seq<VarView>) -> Result<Option<Seq<StmtView>>, ErrView> {
    match st {
        StmtView::If(_, _, elifs, _) => match elif_choice(elifs, vars, 0) {
            Some(x) => x,
            None => Ok(None),
        },
        _ => Ok(None),
    }
}

/// The outcomes of `st` where its first expression gave `value`.
pub open spec fn outcome_with(st: StmtView, vars: Seq<VarView>, value: Result<PrimView, ErrView>) -> Outcome {
    Outcome { value, choice: known_choice(st, vars), text: shown(value) }
}

/// The outcomes as far as they are known, anything where they are not.
pub open spec fn known_outcome(st: StmtView, vars: Seq<VarView>) -> Outcome {
    outcome_with(
        st,
        vars,
        match first_expression(st) {
            Some(e) => known_value(e, vars),
            None => Err(ErrView::Unsupported),
        },
    )
}

/// A step that stops the program with `e`.
pub open spec fn failed(vars: Seq<VarView>, e: ErrView) -> (MachineView, ActionView) {
    ((vars, Seq::empty()), ActionView::Failed(e))
}

/// A step that goes on with `frames`.
pub open spec fn carry_on(vars: Seq<VarView>, frames: Seq<FrameView>) -> (MachineView, ActionView) {
    ((vars, frames), ActionView::Continue)
}

/// Executing `st` with the variables `vars`, `frames` being the work that
/// follows it, when its evaluations gave `o`.
pub open spec fn exec_given(st: StmtView, vars: Seq<VarView>, frames: Seq<FrameView>, o: Outcome) -> (MachineView, ActionView) {
    match st {
        StmtView::FunctionCall(name, args) => if name == print_name() || name == sleep_name() {
            if args.len() == 0 {
                failed(vars, ErrView::MissingArgument)
            } else {
                match o.value {
                    Ok(v) => if name == print_name() {
                        ((vars, frames), ActionView::Print(o.text))
                    } else {
                        match v {
                            PrimView::I32(secs) => ((vars, frames), ActionView::Sleep(secs)),
                            _ => carry_on(vars, frames),
                        }
                    },
                    Err(e) => failed(vars, e),
                }
            }
        } else {
            failed(vars, ErrView::UndefinedFunction(name))
        },
        StmtView::DefineVariable(name, _, t) => match o.value {
            Ok(v) => carry_on(assign(vars, name, v, t), frames),
            Err(x) => failed(vars, x),
        },
        StmtView::WhileLoop(c, body) => match o.value {
            Ok(PrimView::Bool(true)) => carry_on(
                vars,
                frames.push(FrameView::WhileAgain(c, body)).push(FrameView::Block(body, 0)),
            ),
            Ok(_) => carry_on(vars, frames),
            Err(x) => failed(vars, x),
        },
        StmtView::If(_, body, _, else_block) => match o.value {
            Ok(PrimView::Bool(true)) => carry_on(vars, frames.push(FrameView::Block(body, 0))),
            Ok(PrimView::Bool(false)) => match o.choice {
                Ok(Some(b)) => carry_on(
                    vars,
                    frames.push(FrameView::Else(else_block)).push(FrameView::Block(b, 0)),
                ),
                Ok(None) => carry_on(vars, frames.push(FrameView::Else(else_block))),
                Err(x) => failed(vars, x),
            },
            Ok(_) => failed(vars, ErrView::ConditionNotBool),
            Err(x) => failed(vars, x),
        },
        StmtView::ModifyVariable(name, _) => match o.value {
            Ok(v) => if lookup(vars, name) is None {
                failed(vars, ErrView::AssignToUndefined(name))
            } else {
                match type_of(v) {
                    Some(t) => carry_on(assign(vars, name, v, t), frames),
                    None => failed(vars, ErrView::Unsupported),
                }
            },
            Err(x) => failed(vars, x),
        },
        StmtView::ForLoop(def, c, inc, body) => carry_on(
            vars,
            frames.push(FrameView::ForCheck(c, *inc, body, true)).push(FrameView::Single(*def)),
        ),
        StmtView::Elif(_, _) => failed(vars, ErrView::UnexpectedStatement),
        StmtView::DefineFunction(_, _, _) => failed(vars, ErrView::UnexpectedStatement),
    }
}

/// The outcomes agree with everything known of the evaluations the next
/// step of `m` makes.
pub open spec fn step_agrees(m: MachineView, o: Outcome) -> bool {
    let (vars, frames) = m;
    frames.len() > 0 ==> match frames.last() {
        FrameView::Block(b, i) => i < b.len() ==> outcome_agrees(b[i as int], vars, o),
        FrameView::Single(st) => outcome_agrees(st, vars, o),
        FrameView::WhileAgain(c, _) => value_agrees(c, vars, o.value),
        FrameView::ForCheck(c, _, _, _) => value_agrees(c, vars, o.value),
        _ => true,
    }
}

/// Where `st` prints, the printed text is a text the printed value shows
/// as with the float formatter `floats` (see `shown_as`).
pub open spec fn printed_as<F: FloatArithmetic>(floats: &F, st: StmtView, o: Outcome) -> bool {
    match st {
        StmtView::FunctionCall(name, _) => name == print_name() ==> match o.value {
            Ok(v) => shown_as(floats, v, o.text),
            Err(_) => true,
        },
        _ => true,
    }
}

/// Where the next step of `m` prints, the printed text is a text the
/// printed value shows as with the float formatter `floats`.
pub open spec fn step_printed_as<F: FloatArithmetic>(floats: &F, m: MachineView, o: Outcome) -> bool {
    let (vars, frames) = m;
    frames.len() > 0 ==> match frames.last() {
        FrameView::Block(b, i) => i < b.len() ==> printed_as(floats, b[i as int], o),
        FrameView::Single(st) => printed_as(floats, st, o),
        _ => true,
    }
}

/// One step of a running program, when its evaluations gave `o`.
pub open spec fn step_given(m: MachineView, o: Outcome) -> (MachineView, ActionView) {
    let (vars, frames) = m;
    if frames.len() == 0 {
        (m, ActionView::Finished)
    } else {
        let rest = frames.drop_last();
        match frames.last() {
            FrameView::Block(b, i) => if i >= b.len() {
                carry_on(vars, rest)
            } else {
                exec_given(b[i as int], vars, rest.push(FrameView::Block(b, i + 1)), o)
            },
            FrameView::Single(st) => exec_given(st, vars, rest, o),
            FrameView::WhileAgain(c, body) => match o.value {
                Ok(PrimView::Bool(false)) => carry_on(vars, rest),
                Ok(_) => carry_on(
                    vars,
                    rest.push(FrameView::WhileAgain(c, body)).push(FrameView::Block(body, 0)),
                ),
                Err(x) => failed(vars, x),
            },
            FrameView::ForCheck(c, inc, body, first) => match o.value {
                Ok(PrimView::Bool(false)) => carry_on(vars, rest),
                Ok(PrimView::Bool(true)) => carry_on(
                    vars,
                    rest.push(FrameView::ForStep(c, inc, body)).push(FrameView::Block(body, 0)),
                ),
                Ok(_) => if first {
                    carry_on(vars, rest)
                } else {
                    carry_on(
                        vars,
                        rest.push(FrameView::ForStep(c, inc, body)).push(FrameView::Block(body, 0)),
                    )
                },
                Err(x) => failed(vars, x),
            },
            FrameView::ForStep(c, inc, body) => carry_on(
                vars,
                rest.push(FrameView::ForCheck(c, inc, body, false)).push(FrameView::Single(inc)),
            ),
            FrameView::Else(e) => match e {
                Some(b) => carry_on(vars, rest.push(FrameView::Block(b, 0))),
                None => failed(vars, ErrView::MissingElse),
            },
        }
    }
}

/// Where the evaluations of a statement rest on no floating-point result,
/// executing it with any outcomes that agree with them does what
/// `exec_spec` says.
pub proof fn lemma_exec_given_agrees(st: StmtView, vars: Seq<VarView>, frames: Seq<FrameView>, o: Outcome)
    requires
        outcome_agrees(st, vars, o),
    ensures
        exec_spec(st, vars, frames) matches Some(r) ==> exec_given(st, vars, frames, o) == r,
{
}

/// Where the evaluations of the next step rest on no floating-point result,
/// the step with any outcomes that agree with them does what `step_spec`
/// says.
pub proof fn lemma_step_given_agrees(m: MachineView, o: Outcome)
    requires
        step_agrees(m, o),
    ensures
        step_spec(m) matches Some(r) ==> step_given(m, o) == r,
{
    let (vars, frames) = m;
    if frames.len() > 0 {
        let rest = frames.drop_last();
        match frames.last() {
            FrameView::Block(b, i) => {
                if i < b.len() {
                    lemma_exec_given_agrees(b[i as int], vars, rest.push(FrameView::Block(b, i + 1)), o);
                }
            },
            FrameView::Single(st) => lemma_exec_given_agrees(st, vars, rest, o),
            _ => {},
        }
    }
}

/// What the statements do, whatever their evaluations gave:
/// - a definition binds the name to the value with the declared type;
/// - an assignment to a defined name rebinds it to the value with the
///   value's own type (an array cannot be assigned);
/// - `print` prints the value's text and leaves the variables and the work
///   as they were;
/// - a `while` loop leaves the variables as they were, pushes its body and
///   its check exactly when its condition is `true`, and otherwise goes on;
///   once its body ran, it leaves only on a `false` condition;
/// - a step that does not stop the program keeps the work below the frame
///   it took.
pub proof fn lemma_statement_laws(st: StmtView, vars: Seq<VarView>, frames: Seq<FrameView>, o: Outcome)
    ensures
        st matches StmtView::DefineVariable(name, _, t) ==> (o.value matches Ok(v) ==> {
            &&& exec_given(st, vars, frames, o) == carry_on(assign(vars, name, v, t), frames)
            &&& lookup(assign(vars, name, v, t), name) == Some((v, t))
        }),
        st matches StmtView::ModifyVariable(name, _) ==> (o.value matches Ok(v) ==> (lookup(vars, name) is Some
            ==> match type_of(v) {
            Some(t) => exec_given(st, vars, frames, o) == carry_on(assign(vars, name, v, t), frames) && lookup(
                assign(vars, name, v, t),
                name,
            ) == Some((v, t)),
            None => exec_given(st, vars, frames, o) == failed(vars, ErrView::Unsupported),
        })),
        st matches StmtView::FunctionCall(name, args) ==> (name == print_name() && args.len() > 0 && o.value is Ok
            ==> exec_given(st, vars, frames, o) == ((vars, frames), ActionView::Print(o.text))),
        st matches StmtView::WhileLoop(c, body) ==> (o.value is Ok ==> {
            &&& exec_given(st, vars, frames, o).0.0 == vars
            &&& exec_given(st, vars, frames, o).1 == ActionView::Continue
            &&& (exec_given(st, vars, frames, o).0.1 == frames.push(FrameView::WhileAgain(c, body)).push(
                FrameView::Block(body, 0),
            ) <==> o.value == Ok::<PrimView, ErrView>(PrimView::Bool(true)))
            &&& (o.value != Ok::<PrimView, ErrView>(PrimView::Bool(true)) ==> exec_given(st, vars, frames, o).0.1
                == frames)
        }),
        frames.len() > 0 ==> (frames.last() is WhileAgain && o.value is Ok ==> (step_given((vars, frames), o)
            == carry_on(vars, frames.drop_last()) <==> o.value == Ok::<PrimView, ErrView>(PrimView::Bool(false)))),
        !(exec_given(st, vars, frames, o).1 is Failed) ==> exec_given(st, vars, frames, o).0.1.subrange(
            0,
            frames.len() as int,
        ) == frames,
{
    match st {
        StmtView::DefineVariable(name, _, t) => {
            if let Ok(v) = o.value {
                lemma_assign_then_lookup(vars, name, v, t, name);
            }
        },
        StmtView::ModifyVariable(name, _) => {
            if let Ok(v) = o.value {
                if let Some(t) = type_of(v) {
                    lemma_assign_then_lookup(vars, name, v, t, name);
                }
            }
        },
        StmtView::WhileLoop(c, body) => {
            let pushed = frames.push(FrameView::WhileAgain(c, body)).push(FrameView::Block(body, 0));
            assert(pushed.len() != frames.len());
            assert(pushed.subrange(0, frames.len() as int) =~= frames);
        },
        StmtView::If(_, body, _, else_block) => {
            assert(frames.push(FrameView::Block(body, 0)).subrange(0, frames.len() as int) =~= frames);
            assert(frames.push(FrameView::Else(else_block)).subrange(0, frames.len() as int) =~= frames);
            if let Ok(Some(b)) = o.choice {
                assert(frames.push(FrameView::Else(else_block)).push(FrameView::Block(b, 0)).subrange(
                    0,
                    frames.len() as int,
                ) =~= frames);
            }
        },
        StmtView::ForLoop(def, c, inc, body) => {
            assert(frames.push(FrameView::ForCheck(c, *inc, body, true)).push(FrameView::Single(*def)).subrange(
                0,
                frames.len() as int,
            ) =~= frames);
        },
        _ => {},
    }
    assert(frames.subrange(0, frames.len() as int) =~= frames);
    if frames.len() > 0 {
        if let FrameView::WhileAgain(c, body) = frames.last() {
            let rest = frames.drop_last();
            let again = rest.push(FrameView::WhileAgain(c, body)).push(FrameView::Block(body, 0));
            assert(again.len() != rest.len());
        }
    }
}

pub open spec fn choice_view(r: Result<Option<&VecDeque<Statement>>, EvalError>) -> Result<Option<Seq<StmtView>>, ErrView> {
    match r {
        Ok(Some(b)) => Ok(Some(stmts_view(*b))),
        Ok(None) => Ok(None),
        Err(e) => Err(e@),
    }
}

/// A running program.
pub struct Interpreter<'a> {
    variables: Variables,
    frames: Vec<Frame<'a>>,
}

impl<'a> View for Interpreter<'a> {
    type V = MachineView;

    closed spec fn view(&self) -> MachineView {
        (self.variables@, self.frames@.map_values(|f: Frame<'a>| frame_view(f)))
    }
}

impl<'a> Interpreter<'a> {
    /// A program that runs `statements`, starting from the variables of
    /// `inherited_variables` (later sets overriding earlier ones).
    pub fn new(statements: &'a VecDeque<Statement>, inherited_variables: Vec<Variables>) -> (m: Interpreter<'a>)
        ensures
            m@.0 == combine_all(
                Seq::<VarView>::empty(),
                inherited_variables@.map_values(|v: Variables| v@),
                inherited_variables@.len(),
            ),
            m@.1 == seq![FrameView::Block(stmts_view(*statements), 0)],
    {
        let mut variables = Variables::new();
        combine_variables(&mut variables, inherited_variables);
        let mut frames: Vec<Frame<'a>> = Vec::new();
        frames.push(Frame::Block(statements, 0));
        let m = Interpreter { variables, frames };
        assert(m@.1 =~= seq![FrameView::Block(stmts_view(*statements), 0)]);
        m
    }

    /// The variables of the program.
    pub fn variables(&self) -> (v: &Variables)
        ensures
            v@ == self@.0,
    {
        &self.variables
    }

    /// The variables of the program, taken out of it.
    pub fn into_variables(self) -> (v: Variables)
        ensures
            v@ == self@.0,
    {
        self.variables
    }

    /// Whether work is left.
    pub fn is_running(&self) -> (b: bool)
        ensures
            b == (self@.1.len() > 0),
    {
        self.frames.len() > 0
    }

    fn stop(&mut self, e: EvalError) -> (a: Action)
        ensures
            final(self)@ == (old(self)@.0, Seq::<FrameView>::empty()),
            a@ == ActionView::Failed(e@),
    {
        self.frames = Vec::new();
        assert(self.frames@.map_values(|f: Frame<'a>| frame_view(f)) =~= Seq::<FrameView>::empty());
        Action::Failed(e)
    }

    fn push_frame(&mut self, f: Frame<'a>)
        ensures
            final(self)@ == (old(self)@.0, old(self)@.1.push(frame_view(f))),
    {
        self.frames.push(f);
        assert(self.frames@.map_values(|g: Frame<'a>| frame_view(g)) =~= old(self)@.1.push(frame_view(f)));
    }

    /// Executes `statement` (see `exec_spec` and `exec_given`): a call of an
    /// unknown function, or an assignment to an undefined variable, stops
    /// the program; any other statement goes to `evaluate_line`.
    fn run_line<F: FloatArithmetic>(&mut self, statement: &'a Statement, floats: &F) -> (a: Action)
        ensures
            exec_spec(stmt_view(*statement), old(self)@.0, old(self)@.1) matches Some(
                r,
            ) ==> (final(self)@, a@) == r,
            exists|o: Outcome|
                #[trigger] outcome_agrees(stmt_view(*statement), old(self)@.0, o) && (final(self)@, a@)
                    == exec_given(stmt_view(*statement), old(self)@.0, old(self)@.1, o) && printed_as(
                    floats,
                    stmt_view(*statement),
                    o,
                ),
    {
        let ghost st = stmt_view(*statement);
        let ghost vars = self@.0;
        proof {
            reveal_strlit("print");
            reveal_strlit("sleep");
            assert("print"@ =~= print_name());
            assert("sleep"@ =~= sleep_name());
        }
        match statement {
            Statement::FunctionCall(name, _) => {
                if !str_equals(name.as_str(), "print") && !str_equals(name.as_str(), "sleep") {
                    let a = self.stop(EvalError::UndefinedFunction(copy_string(name)));
                    proof {
                        assert(outcome_agrees(st, vars, known_outcome(st, vars)));
                    }
                    return a;
                }
            },
            Statement::ModifyVariable(name, expression) => {
                if self.variables.find(name.as_str()).is_none() {
                    let r = expression.try_evaluate(&self.variables, floats);
                    let ghost w = outcome_with(st, vars, outcome_view(r));
                    let a = match r {
                        Ok(_) => self.stop(EvalError::AssignToUndefined(copy_string(name))),
                        Err(e) => self.stop(e),
                    };
                    proof {
                        assert(outcome_agrees(st, vars, w));
                    }
                    return a;
                }
            },
            _ => {},
        }
        self.evaluate_line(statement, floats)
    }

    /// Executes `statement`, the work that follows it being on the stack
    /// already: what it does at once, and the frames for what it does later
    /// (see `exec_given`; `exec_spec` where no evaluation rests on
    /// floating-point results). The statement calls no function but `print`
    /// and `sleep`, and assigns only to defined variables (`step` checks both
    /// before it calls this).
    pub fn evaluate_line<F: FloatArithmetic>(&mut self, statement: &'a Statement, floats: &F) -> (a: Action)
        requires
            line_allowed(stmt_view(*statement), old(self)@.0),
        ensures
            exec_spec(stmt_view(*statement), old(self)@.0, old(self)@.1) matches Some(
                r,
            ) ==> (final(self)@, a@) == r,
            exists|o: Outcome|
                #[trigger] outcome_agrees(stmt_view(*statement), old(self)@.0, o) && (final(self)@, a@)
                    == exec_given(stmt_view(*statement), old(self)@.0, old(self)@.1, o) && printed_as(
                    floats,
                    stmt_view(*statement),
                    o,
                ),
    {
        let ghost st = stmt_view(*statement);
        let ghost vars = self@.0;
        let ghost mut w = known_outcome(st, vars);
        proof {
            reveal_strlit("print");
            reveal_strlit("sleep");
            assert("print"@ =~= print_name());
            assert("sleep"@ =~= sleep_name());
        }
        let a = match statement {
            Statement::FunctionCall(name, args) => {
                proof {
                    lemma_exprs_view(*args);
                }
                let is_print = str_equals(name.as_str(), "print");
                let is_sleep = str_equals(name.as_str(), "sleep");
                if !is_print && !is_sleep {
                    self.stop(EvalError::UndefinedFunction(copy_string(name)))
                } else if args.len() == 0 {
                    self.stop(EvalError::MissingArgument)
                } else {
                    let r = args[0].try_evaluate(&self.variables, floats);
                    proof {
                        w = outcome_with(st, vars, outcome_view(r));
                    }
                    match r {
                        Ok(v) => if is_print {
                            let text = v.to_text(floats);
                            proof {
                                w = Outcome { value: w.value, choice: w.choice, text: text@ };
                            }
                            Action::Print(text)
                        } else {
                            match v {
                                Primitive::I32(secs) => Action::Sleep(secs),
                                _ => Action::Continue,
                            }
                        },
                        Err(e) => self.stop(e),
                    }
                }
            },
            Statement::DefineVariable(name, value, variable_type) => {
                let r = value.try_evaluate(&self.variables, floats);
                proof {
                    w = outcome_with(st, vars, outcome_view(r));
                }
                match r {
                    Ok(v) => {
                        self.variables.insert(copy_string(name), v, variable_type.clone());
                        Action::Continue
                    },
                    Err(e) => self.stop(e),
                }
            },
            Statement::WhileLoop(condition, lines) => {
                let r = condition.try_evaluate(&self.variables, floats);
                proof {
                    w = outcome_with(st, vars, outcome_view(r));
                }
                match r {
                    Ok(Primitive::Bool(true)) => {
                        self.push_frame(Frame::WhileAgain(condition, lines));
                        self.push_frame(Frame::Block(lines, 0));
                        Action::Continue
                    },
                    Ok(_) => Action::Continue,
                    Err(e) => self.stop(e),
                }
            },
            Statement::If(condition, statements, elifs, else_) => {
                let r = condition.try_evaluate(&self.variables, floats);
                proof {
                    w = outcome_with(st, vars, outcome_view(r));
                }
                match r {
                    Ok(Primitive::Bool(true)) => {
                        self.push_frame(Frame::Block(statements, 0));
                        Action::Continue
                    },
                    Ok(Primitive::Bool(false)) => {
                        let c = choose_elif(elifs, &self.variables, floats);
                        proof {
                            w = Outcome { value: w.value, choice: choice_view(c), text: w.text };
                        }
                        match c {
                            Ok(Some(block)) => {
                                self.push_frame(Frame::Else(else_));
                                self.push_frame(Frame::Block(block, 0));
                                Action::Continue
                            },
                            Ok(None) => {
                                self.push_frame(Frame::Else(else_));
                                Action::Continue
                            },
                            Err(e) => self.stop(e),
                        }
                    },
                    Ok(_) => self.stop(EvalError::ConditionNotBool),
                    Err(e) => self.stop(e),
                }
            },
            Statement::ModifyVariable(name, expression) => {
                let r = expression.try_evaluate(&self.variables, floats);
                proof {
                    w = outcome_with(st, vars, outcome_view(r));
                }
                match r {
                    Ok(literal) => {
                        match self.variables.find(name.as_str()) {
                            Some(_) => {
                                let ty: Option<Type> = match literal {
                                    Primitive::Bool(_) => Some(Type::Bool),
                                    Primitive::I32(_) => Some(Type::I32),
                                    Primitive::String(_) => Some(Type::String),
                                    Primitive::F32(_) => Some(Type::F32),
                                    Primitive::I64(_) => Some(Type::I64),
                                    Primitive::F64(_) => Some(Type::F64),
                                    Primitive::Array(_) => None,
                                };
                                match ty {
                                    Some(t) => {
                                        self.variables.insert(copy_string(name), literal, t);
                                        Action::Continue
                                    },
                                    None => self.stop(EvalError::Unsupported),
                                }
                            },
                            None => self.stop(EvalError::AssignToUndefined(copy_string(name))),
                        }
                    },
                    Err(e) => self.stop(e),
                }
            },
            Statement::ForLoop(define_variable, condition, increment, lines) => {
                self.push_frame(Frame::ForCheck(condition, increment, lines, true));
                self.push_frame(Frame::Single(define_variable));
                Action::Continue
            },
            Statement::Elif(_, _) => self.stop(EvalError::UnexpectedStatement),
            Statement::_DefineFunction(_, _, _) => self.stop(EvalError::UnexpectedStatement),
        };
        proof {
            assert(outcome_agrees(st, vars, w));
        }
        a
    }
}

impl<'a> Interpreter<'a> {
    /// Does the next piece of work and says what the caller has to do (see
    /// `step_given`; `step_spec` where no evaluation rests on floating-point
    /// results).
    pub fn step<F: FloatArithmetic>(&mut self, floats: &F) -> (a: Action)
        ensures
            step_spec(old(self)@) matches Some(r) ==> (final(self)@, a@) == r,
            exists|o: Outcome|
                #[trigger] step_agrees(old(self)@, o) && (final(self)@, a@) == step_given(old(self)@, o)
                    && step_printed_as(floats, old(self)@, o),
    {
        let ghost m = self@;
        let ghost old_frames = self@.1;
        let ghost vars = self@.0;
        let ghost mut w = Outcome { value: Err(ErrView::Unsupported), choice: Ok(None), text: Seq::empty() };
        if self.frames.len() == 0 {
            proof {
                assert(step_agrees(m, w));
            }
            return Action::Finished;
        }
        let frame = self.frames.pop().unwrap();
        assert(self@.1 =~= old_frames.drop_last());
        assert(frame_view(frame) == old_frames.last());
        let a = match frame {
            Frame::Block(block, i) => {
                proof {
                    lemma_stmts_view(*block);
                }
                if i >= block.len() {
                    Action::Continue
                } else {
                    self.push_frame(Frame::Block(block, i + 1));
                    let ghost before = self@;
                    let a = self.run_line(&block[i], floats);
                    proof {
                        let st = stmt_view(block@[i as int]);
                        w = choose|o: Outcome|
                            #[trigger] outcome_agrees(st, before.0, o) && (self@, a@) == exec_given(
                                st,
                                before.0,
                                before.1,
                                o,
                            ) && printed_as(floats, st, o);
                    }
                    a
                }
            },
            Frame::Single(statement) => {
                let ghost before = self@;
                let a = self.run_line(statement, floats);
                proof {
                    let st = stmt_view(*statement);
                    w = choose|o: Outcome|
                        #[trigger] outcome_agrees(st, before.0, o) && (self@, a@) == exec_given(
                            st,
                            before.0,
                            before.1,
                            o,
                        ) && printed_as(floats, st, o);
                }
                a
            },
            Frame::WhileAgain(condition, lines) => {
                let r = condition.try_evaluate(&self.variables, floats);
                proof {
                    w = Outcome { value: outcome_view(r), choice: Ok(None), text: Seq::empty() };
                }
                match r {
                    Ok(Primitive::Bool(false)) => Action::Continue,
                    Ok(_) => {
                        self.push_frame(Frame::WhileAgain(condition, lines));
                        self.push_frame(Frame::Block(lines, 0));
                        Action::Continue
                    },
                    Err(e) => self.stop(e),
                }
            },
            Frame::ForCheck(condition, increment, lines, first) => {
                let r = condition.try_evaluate(&self.variables, floats);
                proof {
                    w = Outcome { value: outcome_view(r), choice: Ok(None), text: Seq::empty() };
                }
                match r {
                    Ok(Primitive::Bool(false)) => Action::Continue,
                    Ok(Primitive::Bool(true)) => {
                        self.push_frame(Frame::ForStep(condition, increment, lines));
                        self.push_frame(Frame::Block(lines, 0));
                        Action::Continue
                    },
                    Ok(_) => {
                        if !first {
                            self.push_frame(Frame::ForStep(condition, increment, lines));
                            self.push_frame(Frame::Block(lines, 0));
                        }
                        Action::Continue
                    },
                    Err(e) => self.stop(e),
                }
            },
            Frame::ForStep(condition, increment, lines) => {
                self.push_frame(Frame::ForCheck(condition, increment, lines, false));
                self.push_frame(Frame::Single(increment));
                Action::Continue
            },
            Frame::Else(else_) => match else_ {
                Some(block) => {
                    self.push_frame(Frame::Block(block, 0));
                    Action::Continue
                },
                None => self.stop(EvalError::MissingElse),
            },
        };
        proof {
            assert(step_agrees(m, w));
        }
        a
    }
}

/// The block of the first `elif` whose condition is `true`.
fn choose_elif<'a, F: FloatArithmetic>(elifs: &'a VecDeque<Statement>, variables: &Variables, floats: &F) -> (r: Result<Option<&'a VecDeque<Statement>>, EvalError>)
    ensures
        elif_choice(stmts_view(*elifs), variables@, 0) matches Some(x) ==> match (r, x) {
            (Ok(Some(b)), Ok(Some(bv))) => stmts_view(*b) == bv,
            (Ok(None), Ok(None)) => true,
            (Err(e), Err(ev)) => e@ == ev,
            _ => false,
        },
{
    let ghost ev = stmts_view(*elifs);
    proof {
        lemma_stmts_view(*elifs);
    }
    let mut k: usize = 0;
    while k < elifs.len()
        invariant
            k <= elifs@.len(),
            ev == stmts_view(*elifs),
            ev == elifs@.map_values(|s: Statement| stmt_view(s)),
            elif_choice(ev, variables@, 0) is None || elif_choice(ev, variables@, 0) == elif_choice(
                ev,
                variables@,
                k as nat,
            ),
        decreases elifs@.len() - k,
    {
        assert(ev[k as int] == stmt_view(elifs@[k as int]));
        match &elifs[k] {
            Statement::Elif(condition, block) => {
                match condition.try_evaluate(variables, floats) {
                    Ok(Primitive::Bool(true)) => {
                        return Ok(Some(block));
                    },
                    Ok(_) => {},
                    Err(e) => {
                        return Err(e);
                    },
                }
            },
            _ => {},
        }
        k = k + 1;
    }
    Ok(None)
}

} // verus!
