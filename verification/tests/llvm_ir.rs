use sarateese::compiler::Type;
use sarateese::interpreter::{EvalError, FloatArithmetic, Primitive, Variables};
use sarateese::llvm_ir::{get_buffer, llvm_define_variable};
use sarateese::parse::{BinaryOperator, Expression, Statement};
use std::collections::VecDeque;

struct Ieee;

impl FloatArithmetic for Ieee {
    fn f32_parse(&self, text: &str) -> u32 {
        text.parse::<f32>().unwrap().to_bits()
    }
    fn f64_parse(&self, text: &str) -> u64 {
        text.parse::<f64>().unwrap().to_bits()
    }
    fn f32_arith(&self, _op: BinaryOperator, a: u32, _b: u32) -> u32 {
        a
    }
    fn f64_arith(&self, _op: BinaryOperator, a: u64, _b: u64) -> u64 {
        a
    }
    fn f32_compare(&self, _op: BinaryOperator, a: u32, b: u32) -> bool {
        a == b
    }
    fn f64_compare(&self, _op: BinaryOperator, a: u64, b: u64) -> bool {
        a == b
    }
    fn f32_from_i32(&self, v: i32) -> u32 {
        (v as f32).to_bits()
    }
    fn f64_from_i32(&self, v: i32) -> u64 {
        (v as f64).to_bits()
    }
    fn f32_to_i32(&self, x: u32) -> i32 {
        f32::from_bits(x) as i32
    }
    fn f32_to_i64(&self, x: u32) -> i64 {
        f32::from_bits(x) as i64
    }
    fn f32_to_f64(&self, x: u32) -> u64 {
        (f32::from_bits(x) as f64).to_bits()
    }
    fn f32_text(&self, x: u32) -> String {
        f32::from_bits(x).to_string()
    }
    fn f64_text(&self, x: u64) -> String {
        f64::from_bits(x).to_string()
    }
}

const HEADER: &str = "define i32 @main() {\nentry:\n";
const DECLARE: &str = "declare i32 @printf(i8*, ...)\n";
const FOOTER: &str = "ret i32 0\n}";

#[test]
fn llvm_ir_hello_world() {
    let statements = VecDeque::from([Statement::FunctionCall(
        "print".to_owned(),
        vec![Expression::String("hello world".to_owned())],
    )]);
    let actual = get_buffer(&statements, &Variables::new(), &Ieee).unwrap();
    let expected = format!(
        "@var0 = private unnamed_addr constant [12 x i8] c\"hello world\\00\", align 1\n{}{}call i32 (i8*, ...) @printf(i8* getelementptr inbounds ([12 x i8], [12 x i8]* @var0, i32 0, i32 0))\n{}",
        DECLARE, HEADER, FOOTER
    );
    assert_eq!(actual, expected);
}

#[test]
fn llvm_ir_define_string_variable() {
    let statements = VecDeque::from([Statement::DefineVariable(
        "abc".to_owned(),
        Expression::String("this is a string".to_owned()),
        Type::String,
    )]);
    let actual = get_buffer(&statements, &Variables::new(), &Ieee).unwrap();
    let expected = format!(
        "@abc = private unnamed_addr constant [17 x i8] c\"this is a string\\00\", align 1\n{}{}",
        HEADER, FOOTER
    );
    assert_eq!(actual, expected);
}

#[test]
fn print_i32_variable() {
    let statements = VecDeque::from([
        Statement::DefineVariable("a".to_string(), Expression::I32(888), Type::I32),
        Statement::FunctionCall("print".to_owned(), vec![Expression::Variable("a".to_string())]),
    ]);
    let mut variables = Variables::new();
    variables.insert("a".to_string(), Primitive::I32(888), Type::I32);
    let actual = get_buffer(&statements, &variables, &Ieee).unwrap();
    let expected = format!(
        "@var0 = private constant [4 x i8] c\"%d\\0A\\00\"\n{}@a = private constant i32 888\n{}call i32 (i8*, ...) @printf(i8* @var0, i32 888)\n{}",
        DECLARE, HEADER, FOOTER
    );
    assert_eq!(actual, expected);
}

#[test]
fn llvm_ir_print_string_variable() {
    let statements = VecDeque::from([
        Statement::DefineVariable("a".to_owned(), Expression::String("abc".to_owned()), Type::String),
        Statement::FunctionCall("print".to_owned(), vec![Expression::Variable("a".to_owned())]),
    ]);
    let mut variables = Variables::new();
    variables.insert("a".to_string(), Primitive::String("abc".to_string()), Type::String);
    let actual = get_buffer(&statements, &variables, &Ieee).unwrap();
    let expected = format!(
        "@var0 = private unnamed_addr constant [4 x i8] c\"abc\\00\", align 1\n{}@a = private unnamed_addr constant [4 x i8] c\"abc\\00\", align 1\n{}call i32 (i8*, ...) @printf(i8* getelementptr inbounds ([4 x i8], [4 x i8]* @var0, i32 0, i32 0))\n{}",
        DECLARE, HEADER, FOOTER
    );
    assert_eq!(actual, expected);
}

#[test]
fn llvm_ir_print_i32() {
    let statements = VecDeque::from([Statement::FunctionCall("print".to_owned(), vec![Expression::I32(777)])]);
    let actual = get_buffer(&statements, &Variables::new(), &Ieee).unwrap();
    let expected = format!(
        "@var0 = private constant [4 x i8] c\"%d\\0A\\00\"\n{}{}call i32 (i8*, ...) @printf(i8* @var0, i32 777)\n{}",
        DECLARE, HEADER, FOOTER
    );
    assert_eq!(actual, expected);
}

#[test]
fn buffer_declares_printf_once() {
    let statements = VecDeque::from([
        Statement::FunctionCall("print".to_owned(), vec![Expression::I32(1)]),
        Statement::FunctionCall("print".to_owned(), vec![Expression::I32(-2)]),
    ]);
    let actual = get_buffer(&statements, &Variables::new(), &Ieee).unwrap();
    assert_eq!(actual.matches("declare i32 @printf").count(), 1);
    assert!(actual.ends_with("call i32 (i8*, ...) @printf(i8* @var0, i32 1)\ncall i32 (i8*, ...) @printf(i8* @var0, i32 -2)\nret i32 0\n}"));
}

#[test]
fn buffer_counts_bytes_of_strings() {
    let statements = VecDeque::from([Statement::DefineVariable(
        "s".to_owned(),
        Expression::String("é".to_owned()),
        Type::String,
    )]);
    let actual = get_buffer(&statements, &Variables::new(), &Ieee).unwrap();
    assert!(actual.starts_with("@s = private unnamed_addr constant [3 x i8]"));
}

#[test]
fn buffer_skips_other_statements() {
    let statements = VecDeque::from([Statement::WhileLoop(Expression::Bool(false), VecDeque::new())]);
    let actual = get_buffer(&statements, &Variables::new(), &Ieee).unwrap();
    assert_eq!(actual, format!("{}{}", HEADER, FOOTER));
}

#[test]
fn buffer_unsupported_values_and_calls() {
    let boolean = VecDeque::from([Statement::FunctionCall("print".to_owned(), vec![Expression::Bool(true)])]);
    assert!(matches!(get_buffer(&boolean, &Variables::new(), &Ieee), Err(EvalError::Unsupported)));
    let sleep = VecDeque::from([Statement::FunctionCall("sleep".to_owned(), vec![Expression::I32(1)])]);
    assert!(matches!(get_buffer(&sleep, &Variables::new(), &Ieee), Err(EvalError::Unsupported)));
    let missing = VecDeque::from([Statement::FunctionCall("print".to_owned(), vec![Expression::Variable("x".to_owned())])]);
    assert!(matches!(get_buffer(&missing, &Variables::new(), &Ieee), Err(EvalError::UndefinedVariable(_))));
}

#[test]
fn define_variable_line_for_unnamed_string() {
    let mut lines = VecDeque::new();
    llvm_define_variable(&mut lines, &Primitive::String("ab".to_string()), 3, None).unwrap();
    assert_eq!(lines, VecDeque::from(["@var3 = private unnamed_addr constant [3 x i8] c\"ab\\00\", align 1\n".to_string()]));
    assert!(matches!(
        llvm_define_variable(&mut lines, &Primitive::Bool(true), 0, None),
        Err(EvalError::Unsupported)
    ));
    assert_eq!(lines.len(), 1);
}

#[test]
fn buffer_defines_value_of_float_conversion() {
    let statements = VecDeque::from([Statement::DefineVariable(
        "n".to_owned(),
        Expression::FunctionCall("i32()".to_owned(), vec![Expression::F32("2.75".to_owned())]),
        Type::I32,
    )]);
    let actual = get_buffer(&statements, &Variables::new(), &Ieee).unwrap();
    assert_eq!(actual, format!("@n = private constant i32 2\n{}{}", HEADER, FOOTER));
    let float = VecDeque::from([Statement::DefineVariable(
        "f".to_owned(),
        Expression::F32("2.75".to_owned()),
        Type::F32,
    )]);
    assert!(matches!(get_buffer(&float, &Variables::new(), &Ieee), Err(EvalError::Unsupported)));
}

#[test]
fn buffer_refuses_printing_a_float() {
    let statements = VecDeque::from([Statement::FunctionCall(
        "print".to_owned(),
        vec![Expression::F64("1.5".to_owned())],
    )]);
    assert!(matches!(get_buffer(&statements, &Variables::new(), &Ieee), Err(EvalError::Unsupported)));
}
