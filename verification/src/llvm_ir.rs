//! The LLVM IR text of a program: string and `i32`
//! constants, and calls of `printf` for `print`.
use std::collections::VecDeque;
use vstd::prelude::*;

use crate::interpreter::{
    eval_spec, first_expression, int_text, known_value, outcome_view, print_name, push_count, push_int, push_str,
    value_agrees, ErrView, EvalError, FloatArithmetic, PrimView, Primitive, VarView, Variables,
};
use crate::parse::{lemma_exprs_view, lemma_stmts_view, stmt_view, stmts_view, Statement, StmtView};
use crate::text::{str_equals, string_from_chars};

verus! {

/// The number of bytes of the UTF-8 encoding of `s` (what `str::len`
/// gives).
pub open spec fn byte_len(s: Seq<char>) -> int {
    (vstd::utf8::encode_utf8(s).len() as usize) as int
}

pub open spec fn header_line() -> Seq<char> {
    "define i32 @main() {\nentry:\n"@
}

pub open spec fn footer_line() -> Seq<char> {
    "ret i32 0\n}"@
}

pub open spec fn printf_declaration() -> Seq<char> {
    "declare i32 @printf(i8*, ...)\n"@
}

/// The global a constant is stored in: its name, or `var` and the index.
pub open spec fn global_label(name: Option<Seq<char>>, var_index: u32) -> Seq<char> {
    match name {
        Some(n) => n,
        None => "var"@ + int_text(var_index as int),
    }
}

/// The line that defines the constant `p` (a string or an `i32`); `None`
/// for other values. An `i32` without a name defines the `printf` format
/// for it instead.
pub open spec fn define_line(p: PrimView, var_index: u32, name: Option<Seq<char>>) -> Option<Seq<char>> {
    match p {
        PrimView::String(v) => Some(
            "@"@ + global_label(name, var_index) + " = private unnamed_addr constant ["@ + int_text(
                byte_len(v) + 1,
            ) + " x i8] c\""@ + v + "\\00\", align 1\n"@,
        ),
        PrimView::I32(v) => match name {
            Some(n) => Some("@"@ + n + " = private constant i32 "@ + int_text(v as int) + "\n"@),
            None => Some(
                "@"@ + global_label(name, var_index) + " = private constant [4 x i8] c\"%d\\0A\\00\"\n"@,
            ),
        },
        _ => None,
    }
}

/// The line that prints the constant `p` (a string or an `i32`).
pub open spec fn print_line(p: PrimView, var_index: u32) -> Option<Seq<char>> {
    match p {
        PrimView::String(v) => Some(
            "call i32 (i8*, ...) @printf(i8* getelementptr inbounds (["@ + int_text(byte_len(v) + 1)
                + " x i8], ["@ + int_text(byte_len(v) + 1) + " x i8]* @var"@ + int_text(
                var_index as int,
            ) + ", i32 0, i32 0))\n"@,
        ),
        PrimView::I32(v) => Some(
            "call i32 (i8*, ...) @printf(i8* @var"@ + int_text(var_index as int) + ", i32 "@ + int_text(
                v as int,
            ) + ")\n"@,
        ),
        _ => None,
    }
}

/// The lines after emitting `st`: a definition goes to the front, a
/// call to the back; the `printf` declaration is put in front once.
/// `None` where the value depends on a floating-point computation.
pub open spec fn emit_spec(lines: Seq<Seq<char>>, st: StmtView, vars: Seq<VarView>) -> Option<
    Result<Seq<Seq<char>>, ErrView>,
> {
    match st {
        StmtView::FunctionCall(name, args) => if name == print_name() {
            let declared = if lines.contains(printf_declaration()) {
                lines
            } else {
                seq![printf_declaration()] + lines
            };
            if args.len() == 0 {
                Some(Err(ErrView::MissingArgument))
            } else {
                match eval_spec(args[0], vars) {
                    Some(Ok(p)) => match (define_line(p, 0, None), print_line(p, 0)) {
                        (Some(d), Some(c)) => Some(Ok((seq![d] + declared).push(c))),
                        _ => Some(Err(ErrView::Unsupported)),
                    },
                    Some(Err(e)) => Some(Err(e)),
                    None => None,
                }
            }
        } else {
            Some(Err(ErrView::Unsupported))
        },
        StmtView::DefineVariable(name, e, _) => match eval_spec(e, vars) {
            Some(Ok(p)) => match define_line(p, 0, Some(name)) {
                Some(d) => Some(Ok(seq![d] + lines)),
                None => Some(Err(ErrView::Unsupported)),
            },
            Some(Err(x)) => Some(Err(x)),
            None => None,
        },
        _ => Some(Ok(lines)),
    }
}

/// The lines after emitting the first `n` statements.
pub open spec fn lines_spec(stmts: Seq<StmtView>, vars: Seq<VarView>, n: nat) -> Option<
    Result<Seq<Seq<char>>, ErrView>,
>
    decreases n,
{
    if n == 0 || n > stmts.len() {
        Some(Ok(seq![header_line()]))
    } else {
        match lines_spec(stmts, vars, (n - 1) as nat) {
            Some(Ok(lines)) => emit_spec(lines, stmts[n - 1], vars),
            other => other,
        }
    }
}

/// The LLVM IR text of a program: its lines, then `ret i32 0` and `}`,
/// joined.
pub open spec fn buffer_spec(stmts: Seq<StmtView>, vars: Seq<VarView>) -> Option<Result<Seq<char>, ErrView>> {
    match lines_spec(stmts, vars, stmts.len()) {
        Some(Ok(lines)) => Some(Ok(lines.push(footer_line()).flatten())),
        Some(Err(e)) => Some(Err(e)),
        None => None,
    }
}

/// The lines after emitting `st`, where the expression it emits gave
/// `value` (see `emit_spec`).
pub open spec fn emit_given(lines: Seq<Seq<char>>, st: StmtView, value: Result<PrimView, ErrView>) -> Result<
    Seq<Seq<char>>,
    ErrView,
> {
    match st {
        StmtView::FunctionCall(name, args) => if name == print_name() {
            let declared = if lines.contains(printf_declaration()) {
                lines
            } else {
                seq![printf_declaration()] + lines
            };
            if args.len() == 0 {
                Err(ErrView::MissingArgument)
            } else {
                match value {
                    Ok(p) => match (define_line(p, 0, None), print_line(p, 0)) {
                        (Some(d), Some(c)) => Ok((seq![d] + declared).push(c)),
                        _ => Err(ErrView::Unsupported),
                    },
                    Err(e) => Err(e),
                }
            }
        } else {
            Err(ErrView::Unsupported)
        },
        StmtView::DefineVariable(name, _, _) => match value {
            Ok(p) => match define_line(p, 0, Some(name)) {
                Some(d) => Ok(seq![d] + lines),
                None => Err(ErrView::Unsupported),
            },
            Err(x) => Err(x),
        },
        _ => Ok(lines),
    }
}

/// The lines after emitting the first `n` statements, where the expression
/// statement `i` emits gave `values[i]`.
pub open spec fn lines_given(stmts: Seq<StmtView>, values: Seq<Result<PrimView, ErrView>>, n: nat) -> Result<
    Seq<Seq<char>>,
    ErrView,
>
    decreases n,
{
    if n == 0 || n > stmts.len() {
        Ok(seq![header_line()])
    } else {
        match lines_given(stmts, values, (n - 1) as nat) {
            Ok(lines) => emit_given(lines, stmts[n - 1], values[n - 1]),
            Err(e) => Err(e),
        }
    }
}

/// The LLVM IR text of a program, where the expression statement `i`
/// emits gave `values[i]`.
pub open spec fn buffer_given(stmts: Seq<StmtView>, values: Seq<Result<PrimView, ErrView>>) -> Result<Seq<char>, ErrView> {
    match lines_given(stmts, values, stmts.len()) {
        Ok(lines) => Ok(lines.push(footer_line()).flatten()),
        Err(e) => Err(e),
    }
}

/// The values agree with everything known of the expressions the
/// statements emit (any value may stand where one rests on floating-point
/// results).
pub open spec fn values_agree(stmts: Seq<StmtView>, vars: Seq<VarView>, values: Seq<Result<PrimView, ErrView>>) -> bool {
    &&& values.len() == stmts.len()
    &&& forall|i: int|
        0 <= i < stmts.len() ==> (first_expression(stmts[i]) matches Some(e) ==> value_agrees(
            e,
            vars,
            #[trigger] values[i],
        ))
}

/// The values of the expressions the statements emit, as far as they are
/// known.
pub open spec fn known_values(stmts: Seq<StmtView>, vars: Seq<VarView>) -> Seq<Result<PrimView, ErrView>> {
    Seq::new(
        stmts.len(),
        |i: int|
            match first_expression(stmts[i]) {
                Some(e) => known_value(e, vars),
                None => Err(ErrView::Unsupported),
            },
    )
}

/// Where the emitted expressions rest on no floating-point result, the
/// lines with any values that agree with them are those of `lines_spec`.
pub proof fn lemma_lines_given_agrees(
    stmts: Seq<StmtView>,
    vars: Seq<VarView>,
    values: Seq<Result<PrimView, ErrView>>,
    n: nat,
)
    requires
        values_agree(stmts, vars, values),
    ensures
        lines_spec(stmts, vars, n) matches Some(x) ==> lines_given(stmts, values, n) == x,
    decreases n,
{
    if n > 0 && n <= stmts.len() {
        lemma_lines_given_agrees(stmts, vars, values, (n - 1) as nat);
        assert(first_expression(stmts[n - 1]) matches Some(e) ==> value_agrees(e, vars, values[n - 1]));
    }
}

/// Where the emitted expressions rest on no floating-point result, the text
/// with any values that agree with them is that of `buffer_spec`.
pub proof fn lemma_buffer_given_agrees(stmts: Seq<StmtView>, vars: Seq<VarView>, values: Seq<Result<PrimView, ErrView>>)
    requires
        values_agree(stmts, vars, values),
    ensures
        buffer_spec(stmts, vars) matches Some(x) ==> buffer_given(stmts, values) == x,
{
    lemma_lines_given_agrees(stmts, vars, values, stmts.len());
}

/// Only the values of the first `n` statements count for their lines.
proof fn lemma_lines_given_prefix(
    stmts: Seq<StmtView>,
    values: Seq<Result<PrimView, ErrView>>,
    k: int,
    v: Result<PrimView, ErrView>,
    n: nat,
)
    requires
        n <= k < values.len(),
    ensures
        lines_given(stmts, values.update(k, v), n) == lines_given(stmts, values, n),
    decreases n,
{
    if n > 0 {
        lemma_lines_given_prefix(stmts, values, k, v, (n - 1) as nat);
        assert(values.update(k, v)[n - 1] == values[n - 1]);
    }
}

/// Once emitting fails, the lines of all longer prefixes fail alike.
proof fn lemma_given_stop(stmts: Seq<StmtView>, values: Seq<Result<PrimView, ErrView>>, k: nat, n: nat)
    requires
        k <= n <= stmts.len(),
        lines_given(stmts, values, k) is Err,
    ensures
        lines_given(stmts, values, n) == lines_given(stmts, values, k),
    decreases n - k,
{
    if k < n {
        lemma_given_stop(stmts, values, k, (n - 1) as nat);
    }
}

pub open spec fn lines_view(d: VecDeque<String>) -> Seq<Seq<char>> {
    d@.map_values(|s: String| s@)
}

fn string_of(s: &str) -> (r: String)
    ensures
        r@ == s@,
{
    let mut out: Vec<char> = Vec::new();
    push_str(&mut out, s);
    assert(out@ =~= s@);
    string_from_chars(&out)
}

fn push_front_line(lines: &mut VecDeque<String>, line: String)
    ensures
        lines_view(*final(lines)) == seq![line@] + lines_view(*old(lines)),
{
    lines.push_front(line);
    assert(lines_view(*lines) =~= seq![line@] + lines_view(*old(lines)));
}

fn push_back_line(lines: &mut VecDeque<String>, line: String)
    ensures
        lines_view(*final(lines)) == lines_view(*old(lines)).push(line@),
{
    lines.push_back(line);
    assert(lines_view(*lines) =~= lines_view(*old(lines)).push(line@));
}

fn contains_line(lines: &VecDeque<String>, line: &str) -> (r: bool)
    ensures
        r == lines_view(*lines).contains(line@),
{
    let mut k: usize = 0;
    while k < lines.len()
        invariant
            k <= lines@.len(),
            forall|j: int| 0 <= j < k ==> lines_view(*lines)[j] != line@,
        decreases lines@.len() - k,
    {
        if str_equals(lines[k].as_str(), line) {
            assert(lines_view(*lines)[k as int] == line@);
            return true;
        }
        k = k + 1;
    }
    false
}

/// Appends the decimal text of the byte length of `v`, plus one.
fn push_size(out: &mut Vec<char>, v: &String)
    ensures
        final(out)@ == old(out)@ + int_text(byte_len(v@) + 1),
{
    let n = v.as_str().len();
    push_count(out, n as u128 + 1);
}

/// Puts the line that defines the constant `primitive` in front of the
/// lines; values other than strings and `i32`s are not supported.
pub fn llvm_define_variable(lines: &mut VecDeque<String>, primitive: &Primitive, var_index: u32, name: Option<&String>) -> (r: Result<(), EvalError>)
    ensures
        match define_line(primitive@, var_index, opt_name(name)) {
            Some(d) => r is Ok && lines_view(*final(lines)) == seq![d] + lines_view(*old(lines)),
            None => r matches Err(EvalError::Unsupported) && *final(lines) == *old(lines),
        },
{
    let mut out: Vec<char> = Vec::new();
    push_str(&mut out, "@");
    match name {
        Some(n) => push_str(&mut out, n.as_str()),
        None => {
            push_str(&mut out, "var");
            push_count(&mut out, var_index as u128);
        },
    }
    match primitive {
        Primitive::String(value) => {
            push_str(&mut out, " = private unnamed_addr constant [");
            push_size(&mut out, value);
            push_str(&mut out, " x i8] c\"");
            push_str(&mut out, value.as_str());
            push_str(&mut out, "\\00\", align 1\n");
        },
        Primitive::I32(value) => match name {
            Some(_) => {
                push_str(&mut out, " = private constant i32 ");
                push_int(&mut out, *value as i64);
                push_str(&mut out, "\n");
            },
            None => {
                push_str(&mut out, " = private constant [4 x i8] c\"%d\\0A\\00\"\n");
            },
        },
        _ => {
            return Err(EvalError::Unsupported);
        },
    }
    proof {
        let d = define_line(primitive@, var_index, opt_name(name)).unwrap();
        assert(out@ =~= d);
    }
    push_front_line(lines, string_from_chars(&out));
    Ok(())
}

pub open spec fn opt_name(name: Option<&String>) -> Option<Seq<char>> {
    match name {
        Some(n) => Some(n@),
        None => None,
    }
}

/// The line that prints the constant `primitive`, stored as `@var` and
/// the index.
fn llvm_print_line(primitive: &Primitive, var_index: u32) -> (r: Option<String>)
    ensures
        match print_line(primitive@, var_index) {
            Some(c) => r matches Some(s) && s@ == c,
            None => r is None,
        },
{
    let mut out: Vec<char> = Vec::new();
    match primitive {
        Primitive::String(value) => {
            push_str(&mut out, "call i32 (i8*, ...) @printf(i8* getelementptr inbounds ([");
            push_size(&mut out, value);
            push_str(&mut out, " x i8], [");
            push_size(&mut out, value);
            push_str(&mut out, " x i8]* @var");
            push_count(&mut out, var_index as u128);
            push_str(&mut out, ", i32 0, i32 0))\n");
        },
        Primitive::I32(value) => {
            push_str(&mut out, "call i32 (i8*, ...) @printf(i8* @var");
            push_count(&mut out, var_index as u128);
            push_str(&mut out, ", i32 ");
            push_int(&mut out, *value as i64);
            push_str(&mut out, ")\n");
        },
        _ => {
            return None;
        },
    }
    proof {
        let c = print_line(primitive@, var_index).unwrap();
        assert(out@ =~= c);
    }
    Some(string_from_chars(&out))
}

/// The LLVM IR text of a program, the variables `variable_map` in scope:
/// each string or `i32` definition becomes a constant, each `print` of a
/// string or `i32` a call of `printf`; other statements are left out.
pub fn get_buffer<F: FloatArithmetic>(statements: &VecDeque<Statement>, variable_map: &Variables, floats: &F) -> (r: Result<String, EvalError>)
    ensures
        buffer_spec(stmts_view(*statements), variable_map@) matches Some(x) ==> match (r, x) {
            (Ok(s), Ok(t)) => s@ == t,
            (Err(e), Err(ev)) => e@ == ev,
            _ => false,
        },
        exists|values: Seq<Result<PrimView, ErrView>>|
            #[trigger] values_agree(stmts_view(*statements), variable_map@, values) && match (
                r,
                buffer_given(stmts_view(*statements), values),
            ) {
                (Ok(s), Ok(t)) => s@ == t,
                (Err(e), Err(ev)) => e@ == ev,
                _ => false,
            },
{
    let ghost sv = stmts_view(*statements);
    let ghost vars = variable_map@;
    let ghost mut values = known_values(sv, vars);
    proof {
        lemma_stmts_view(*statements);
    }
    let mut lines: VecDeque<String> = VecDeque::new();
    push_back_line(&mut lines, string_of("define i32 @main() {\nentry:\n"));
    assert(lines_view(lines) =~= seq![header_line()]);
    let mut k: usize = 0;
    while k < statements.len()
        invariant
            k <= statements@.len(),
            sv == stmts_view(*statements),
            sv == statements@.map_values(|s: Statement| stmt_view(s)),
            lines_spec(sv, variable_map@, k as nat) is None || lines_spec(sv, variable_map@, k as nat)
                == Some(Ok::<Seq<Seq<char>>, ErrView>(lines_view(lines))),
            vars == variable_map@,
            values_agree(sv, vars, values),
            lines_given(sv, values, k as nat) == Ok::<Seq<Seq<char>>, ErrView>(lines_view(lines)),
        decreases statements@.len() - k,
    {
        assert(sv[k as int] == stmt_view(statements@[k as int]));
        let ghost n = sv.len();
        match &statements[k] {
            Statement::FunctionCall(name, args) => {
                proof {
                    reveal_strlit("print");
                    assert("print"@ =~= print_name());
                    lemma_exprs_view(*args);
                }
                if !str_equals(name.as_str(), "print") {
                    proof {
                        lemma_lines_stop(sv, variable_map@, (k + 1) as nat, sv.len());
                        lemma_given_stop(sv, values, (k + 1) as nat, n);
                        assert(values_agree(sv, vars, values));
                    }
                    return Err(EvalError::Unsupported);
                }
                if !contains_line(&lines, "declare i32 @printf(i8*, ...)\n") {
                    push_front_line(&mut lines, string_of("declare i32 @printf(i8*, ...)\n"));
                }
                if args.len() == 0 {
                    proof {
                        lemma_lines_stop(sv, variable_map@, (k + 1) as nat, sv.len());
                        lemma_given_stop(sv, values, (k + 1) as nat, n);
                        assert(values_agree(sv, vars, values));
                    }
                    return Err(EvalError::MissingArgument);
                }
                let r = args[0].try_evaluate(variable_map, floats);
                proof {
                    lemma_lines_given_prefix(sv, values, k as int, outcome_view(r), k as nat);
                    values = values.update(k as int, outcome_view(r));
                    assert(values_agree(sv, vars, values));
                }
                let primitive = match r {
                    Ok(p) => p,
                    Err(e) => {
                        proof {
                            lemma_lines_stop(sv, variable_map@, (k + 1) as nat, sv.len());
                            lemma_given_stop(sv, values, (k + 1) as nat, n);
                        }
                        return Err(e);
                    },
                };
                let call = match llvm_print_line(&primitive, 0) {
                    Some(c) => c,
                    None => {
                        proof {
                            lemma_lines_stop(sv, variable_map@, (k + 1) as nat, sv.len());
                            lemma_given_stop(sv, values, (k + 1) as nat, n);
                        }
                        return Err(EvalError::Unsupported);
                    },
                };
                match llvm_define_variable(&mut lines, &primitive, 0, None) {
                    Ok(()) => {},
                    Err(e) => {
                        return Err(e);
                    },
                }
                push_back_line(&mut lines, call);
            },
            Statement::DefineVariable(name, expression, _) => {
                let r = expression.try_evaluate(variable_map, floats);
                proof {
                    lemma_lines_given_prefix(sv, values, k as int, outcome_view(r), k as nat);
                    values = values.update(k as int, outcome_view(r));
                    assert(values_agree(sv, vars, values));
                }
                let primitive = match r {
                    Ok(p) => p,
                    Err(e) => {
                        proof {
                            lemma_lines_stop(sv, variable_map@, (k + 1) as nat, sv.len());
                            lemma_given_stop(sv, values, (k + 1) as nat, n);
                        }
                        return Err(e);
                    },
                };
                match llvm_define_variable(&mut lines, &primitive, 0, Some(name)) {
                    Ok(()) => {},
                    Err(e) => {
                        proof {
                            lemma_lines_stop(sv, variable_map@, (k + 1) as nat, sv.len());
                            lemma_given_stop(sv, values, (k + 1) as nat, n);
                        }
                        return Err(e);
                    },
                }
            },
            _ => {},
        }
        k = k + 1;
    }
    push_back_line(&mut lines, string_of("ret i32 0\n}"));
    let mut out: Vec<char> = Vec::new();
    let ghost all = lines_view(lines);
    let mut j: usize = 0;
    while j < lines.len()
        invariant
            j <= lines@.len(),
            all == lines_view(lines),
            out@ == all.take(j as int).flatten(),
        decreases lines@.len() - j,
    {
        let ghost before = out@;
        push_str(&mut out, lines[j].as_str());
        proof {
            assert(all.take(j as int + 1) =~= all.take(j as int).push(all[j as int]));
            all.take(j as int).lemma_flatten_push(all[j as int]);
        }
        j = j + 1;
    }
    assert(all.take(all.len() as int) =~= all);
    proof {
        assert(values_agree(sv, vars, values));
    }
    Ok(string_from_chars(&out))
}

/// Once emitting fails or depends on floating-point computation, so do
/// all longer prefixes.
proof fn lemma_lines_stop(stmts: Seq<StmtView>, vars: Seq<VarView>, k: nat, n: nat)
    requires
        k <= n <= stmts.len(),
        !(lines_spec(stmts, vars, k) is Some && lines_spec(stmts, vars, k).unwrap() is Ok),
    ensures
        lines_spec(stmts, vars, n) == lines_spec(stmts, vars, k),
    decreases n - k,
{
    if k < n {
        lemma_lines_stop(stmts, vars, k, (n - 1) as nat);
    }
}

} // verus!
