use sarateese::compiler::{Compiler, Type};
use sarateese::interpreter::{
    array_display_recusion, combine_variables, int_to_string, Action, EvalError, FloatArithmetic,
    Interpreter, Primitive, Variables,
};
use sarateese::parse::{BinaryOperator, Complete, CompleteU, Expression, Statement, UnaryOperator};
use sarateese::tokenizer::tokenize;
use std::collections::VecDeque;

struct Ieee;

impl FloatArithmetic for Ieee {
    fn f32_parse(&self, text: &str) -> u32 {
        text.parse::<f32>().unwrap().to_bits()
    }
    fn f64_parse(&self, text: &str) -> u64 {
        text.parse::<f64>().unwrap().to_bits()
    }
    fn f32_arith(&self, op: BinaryOperator, a: u32, b: u32) -> u32 {
        let (x, y) = (f32::from_bits(a), f32::from_bits(b));
        let r = match op {
            BinaryOperator::Add => x + y,
            BinaryOperator::Subtract => x - y,
            BinaryOperator::Multiply => x * y,
            BinaryOperator::Divide => x / y,
            _ => x % y,
        };
        r.to_bits()
    }
    fn f64_arith(&self, op: BinaryOperator, a: u64, b: u64) -> u64 {
        let (x, y) = (f64::from_bits(a), f64::from_bits(b));
        let r = match op {
            BinaryOperator::Add => x + y,
            BinaryOperator::Subtract => x - y,
            BinaryOperator::Multiply => x * y,
            BinaryOperator::Divide => x / y,
            _ => x % y,
        };
        r.to_bits()
    }
    fn f32_compare(&self, op: BinaryOperator, a: u32, b: u32) -> bool {
        let (x, y) = (f32::from_bits(a), f32::from_bits(b));
        match op {
            BinaryOperator::Equals => x == y,
            BinaryOperator::NotEqual => x != y,
            BinaryOperator::LessThan => x < y,
            BinaryOperator::LessThanOrEqualTo => x <= y,
            BinaryOperator::GreaterThan => x > y,
            _ => x >= y,
        }
    }
    fn f64_compare(&self, op: BinaryOperator, a: u64, b: u64) -> bool {
        let (x, y) = (f64::from_bits(a), f64::from_bits(b));
        match op {
            BinaryOperator::Equals => x == y,
            BinaryOperator::NotEqual => x != y,
            BinaryOperator::LessThan => x < y,
            BinaryOperator::LessThanOrEqualTo => x <= y,
            BinaryOperator::GreaterThan => x > y,
            _ => x >= y,
        }
    }
    fn f32_from_i32(&self, v: i32) -> u32 {
        (v as f32).to_bits()
    }
    fn f64_from_i32(&self, v: i32) -> u64 {
        (v as f64).to_bits()
    }
    fn f32_to_i32(&self, x: u32) -> i32 {
        f32::from_bits(x) as i32
    }
    fn f32_to_i64(&self, x: u32) -> i64 {
        f32::from_bits(x) as i64
    }
    fn f32_to_f64(&self, x: u32) -> u64 {
        (f32::from_bits(x) as f64).to_bits()
    }
    fn f32_text(&self, x: u32) -> String {
        f32::from_bits(x).to_string()
    }
    fn f64_text(&self, x: u64) -> String {
        f64::from_bits(x).to_string()
    }
}

/// Runs a program to its end; the printed lines and the error, if any.
fn run(statements: &VecDeque<Statement>) -> (Vec<String>, Option<EvalError>, Variables) {
    let mut machine = Interpreter::new(statements, Vec::new());
    let mut printed = Vec::new();
    let mut failure = None;
    for _ in 0..100_000 {
        match machine.step(&Ieee) {
            Action::Continue => {}
            Action::Print(text) => printed.push(text),
            Action::Sleep(_) => {}
            Action::Finished => break,
            Action::Failed(e) => {
                failure = Some(e);
                break;
            }
        }
    }
    (printed, failure, machine.into_variables())
}

fn run_text(text: &str) -> (Vec<String>, Option<EvalError>, Variables) {
    let mut tokens = tokenize(text);
    let statements = Compiler::new().parse(&mut tokens);
    run(&statements)
}

fn value_of(vars: &Variables, name: &str) -> Option<Primitive> {
    vars.get(name)
}

fn binary(op: BinaryOperator, left: Expression, right: Expression) -> Expression {
    Expression::Complete(Complete { operator: op, left: Box::new(left), right: Box::new(right) })
}

fn eval(e: &Expression) -> Result<Primitive, EvalError> {
    e.try_evaluate(&Variables::new(), &Ieee)
}

#[test]
fn hello_world_prints() {
    let (printed, failure, _) = run_text("print(\"hello world\");");
    assert_eq!(printed, vec!["hello world".to_string()]);
    assert!(failure.is_none());
}

#[test]
fn arithmetic_and_variables() {
    let (printed, failure, vars) = run_text("i32 e = 1;i32 ee = 2;print(e + ee);");
    assert_eq!(printed, vec!["3".to_string()]);
    assert!(failure.is_none());
    assert_eq!(value_of(&vars, "ee"), Some(Primitive::I32(2)));
}

#[test]
fn precedence_in_evaluation() {
    let (_, failure, vars) = run_text("i32 foo = 3 + 5 / 4 * 68;");
    assert!(failure.is_none());
    assert_eq!(value_of(&vars, "foo"), Some(Primitive::I32(71)));
}

#[test]
fn while_loop_counts() {
    let (printed, failure, vars) =
        run_text("i32 i = 0;while (i < 3){\nprint(i);\ni = i + 1;\n}");
    assert!(failure.is_none());
    assert_eq!(printed, vec!["0".to_string(), "1".to_string(), "2".to_string()]);
    assert_eq!(value_of(&vars, "i"), Some(Primitive::I32(3)));
}

#[test]
fn if_elif_else_runs_else_after_chosen_elif() {
    let (printed, failure, _) =
        run_text("i32 i = 7;if(i == 6){print(\"six\");}elif(i == 7){print(\"seven\");}else{print(\"e\");}");
    assert!(failure.is_none());
    assert_eq!(printed, vec!["seven".to_string(), "e".to_string()]);
}

#[test]
fn if_true_skips_else() {
    let (printed, _, _) = run_text("i32 e = 6;if(e == 6){print(e);}else{print(\"no\");}");
    assert_eq!(printed, vec!["6".to_string()]);
}

#[test]
fn if_false_without_else_fails() {
    let (printed, failure, _) = run_text("if(false){print(\"a\");}");
    assert!(printed.is_empty());
    assert!(matches!(failure, Some(EvalError::MissingElse)));
}

#[test]
fn if_condition_not_bool_fails() {
    let (_, failure, _) = run_text("if(5){print(\"a\");}");
    assert!(matches!(failure, Some(EvalError::ConditionNotBool)));
}

#[test]
fn for_loop_with_increment_operator_stops_after_first_pass() {
    let (printed, failure, _) = run_text("for(i32 i = 0, i < 10, i++){\nprint(i);\n}");
    assert_eq!(printed, vec!["0".to_string()]);
    assert!(matches!(failure, Some(EvalError::Unsupported)));
}

#[test]
fn for_loop_runs_body_and_step() {
    let body = VecDeque::from([Statement::FunctionCall(
        "print".to_string(),
        vec![Expression::Variable("i".to_string())],
    )]);
    let program = VecDeque::from([Statement::ForLoop(
        Box::new(Statement::DefineVariable("i".to_string(), Expression::I32(0), Type::I32)),
        binary(BinaryOperator::LessThan, Expression::Variable("i".to_string()), Expression::I32(3)),
        Box::new(Statement::ModifyVariable(
            "i".to_string(),
            binary(BinaryOperator::Add, Expression::Variable("i".to_string()), Expression::I32(1)),
        )),
        body,
    )]);
    let (printed, failure, vars) = run(&program);
    assert!(failure.is_none());
    assert_eq!(printed, vec!["0".to_string(), "1".to_string(), "2".to_string()]);
    assert_eq!(value_of(&vars, "i"), Some(Primitive::I32(3)));
}

#[test]
fn while_condition_not_bool_skips_loop() {
    let program = VecDeque::from([Statement::WhileLoop(
        Expression::I32(1),
        VecDeque::from([Statement::FunctionCall("print".to_string(), vec![Expression::I32(1)])]),
    )]);
    let (printed, failure, _) = run(&program);
    assert!(printed.is_empty());
    assert!(failure.is_none());
}

#[test]
fn undefined_variable_fails() {
    let (_, failure, _) = run_text("print(nothing);");
    match failure {
        Some(EvalError::UndefinedVariable(name)) => assert_eq!(name, "nothing"),
        other => panic!("unexpected {:?}", other),
    }
}

#[test]
fn assignment_to_undefined_fails() {
    let (_, failure, _) = run_text("i = 1;");
    match failure {
        Some(EvalError::AssignToUndefined(name)) => assert_eq!(name, "i"),
        other => panic!("unexpected {:?}", other),
    }
}

#[test]
fn unknown_function_fails() {
    let program = VecDeque::from([Statement::FunctionCall("shout".to_string(), vec![Expression::I32(1)])]);
    let (_, failure, _) = run(&program);
    match failure {
        Some(EvalError::UndefinedFunction(name)) => assert_eq!(name, "shout"),
        other => panic!("unexpected {:?}", other),
    }
}

#[test]
fn print_without_argument_fails() {
    let program = VecDeque::from([Statement::FunctionCall("print".to_string(), vec![])]);
    let (_, failure, _) = run(&program);
    assert!(matches!(failure, Some(EvalError::MissingArgument)));
}

#[test]
fn sleep_hands_seconds_to_caller() {
    let program = VecDeque::from([Statement::FunctionCall("sleep".to_string(), vec![Expression::I32(2)])]);
    let mut machine = Interpreter::new(&program, Vec::new());
    assert!(matches!(machine.step(&Ieee), Action::Sleep(2)));
    assert!(matches!(machine.step(&Ieee), Action::Continue));
    assert!(matches!(machine.step(&Ieee), Action::Finished));
}

#[test]
fn elif_statement_alone_is_unexpected() {
    let program = VecDeque::from([Statement::Elif(Expression::Bool(true), VecDeque::new())]);
    let (_, failure, _) = run(&program);
    assert!(matches!(failure, Some(EvalError::UnexpectedStatement)));
}

#[test]
fn integer_errors() {
    assert!(matches!(
        eval(&binary(BinaryOperator::Divide, Expression::I32(1), Expression::I32(0))),
        Err(EvalError::DivisionByZero)
    ));
    assert!(matches!(
        eval(&binary(BinaryOperator::Add, Expression::I32(i32::MAX), Expression::I32(1))),
        Err(EvalError::Overflow)
    ));
    assert!(matches!(
        eval(&binary(BinaryOperator::Modulus, Expression::I32(i32::MIN), Expression::I32(-1))),
        Err(EvalError::Overflow)
    ));
    assert!(matches!(
        eval(&binary(BinaryOperator::Add, Expression::Bool(true), Expression::I32(1))),
        Err(EvalError::MismatchedTypes)
    ));
}

#[test]
fn integer_division_truncates() {
    assert_eq!(eval(&binary(BinaryOperator::Divide, Expression::I32(-7), Expression::I32(2))).unwrap(), Primitive::I32(-3));
    assert_eq!(eval(&binary(BinaryOperator::Modulus, Expression::I32(-7), Expression::I32(2))).unwrap(), Primitive::I32(-1));
    assert_eq!(eval(&binary(BinaryOperator::Modulus, Expression::I64(7), Expression::I64(-2))).unwrap(), Primitive::I64(1));
}

#[test]
fn mixed_width_comparison() {
    assert_eq!(
        eval(&binary(BinaryOperator::GreaterThan, Expression::I64(5), Expression::I32(4))).unwrap(),
        Primitive::Bool(true)
    );
    assert!(matches!(
        eval(&binary(BinaryOperator::Add, Expression::I64(5), Expression::I32(4))),
        Err(EvalError::MismatchedTypes)
    ));
}

#[test]
fn logic_and_not() {
    let e = Expression::CompleteU(CompleteU {
        operator: UnaryOperator::Not,
        child: Box::new(binary(BinaryOperator::And, Expression::Bool(true), Expression::Bool(false))),
    });
    assert_eq!(eval(&e).unwrap(), Primitive::Bool(true));
    let bad = Expression::CompleteU(CompleteU { operator: UnaryOperator::Not, child: Box::new(Expression::I32(1)) });
    assert!(matches!(eval(&bad), Err(EvalError::MismatchedTypes)));
}

#[test]
fn conversions() {
    let call = |name: &str, arg: Expression| Expression::FunctionCall(name.to_string(), vec![arg]);
    assert_eq!(eval(&call("i64", Expression::I32(5))).unwrap(), Primitive::I64(5));
    assert_eq!(eval(&call("string", Expression::I32(-42))).unwrap(), Primitive::String("-42".to_string()));
    assert_eq!(eval(&call("f64", Expression::I32(2))).unwrap(), Primitive::F64(2.0f64.to_bits()));
    assert_eq!(eval(&call("i32()", Expression::F32("2.75".to_string()))).unwrap(), Primitive::I32(2));
    match eval(&call("bogus", Expression::I32(1))) {
        Err(EvalError::UnknownConversion(name)) => assert_eq!(name, "bogus"),
        other => panic!("unexpected {:?}", other),
    }
    assert!(matches!(eval(&call("i32", Expression::Bool(true))), Err(EvalError::NotConvertible)));
    assert!(matches!(eval(&Expression::FunctionCall("i32".to_string(), vec![])), Err(EvalError::MissingArgument)));
}

#[test]
fn float_arithmetic_goes_through_the_caller() {
    let e = binary(BinaryOperator::Add, Expression::F64("1.5".to_string()), Expression::F64("2.25".to_string()));
    assert_eq!(eval(&e).unwrap(), Primitive::F64(3.75f64.to_bits()));
    let (printed, _, _) = run(&VecDeque::from([Statement::FunctionCall(
        "print".to_string(),
        vec![Expression::F32("0.5".to_string())],
    )]));
    assert_eq!(printed, vec!["0.5".to_string()]);
}

#[test]
fn array_display_keeps_its_quirks() {
    let numbers = vec![Primitive::I32(1), Primitive::I32(2)];
    assert_eq!(array_display_recusion(&numbers, &Ieee), "[1, 2]");
    assert_eq!(array_display_recusion(&Vec::new(), &Ieee), "]");
    let words = vec![Primitive::String("a".to_string()), Primitive::String("b".to_string())];
    assert_eq!(array_display_recusion(&words, &Ieee), "[]");
    let nested = vec![Primitive::Array(vec![Primitive::Bool(true)]), Primitive::I64(-3)];
    assert_eq!(array_display_recusion(&nested, &Ieee), "[[true], -3]");
}

#[test]
fn int_text_is_decimal() {
    assert_eq!(int_to_string(0), "0");
    assert_eq!(int_to_string(-9223372036854775808), "-9223372036854775808");
    assert_eq!(int_to_string(1234567), "1234567");
}

#[test]
fn string_length_is_in_bytes() {
    assert_eq!(Primitive::String("héllo".to_string()).len(), 6);
}

#[test]
fn variables_replace_and_combine() {
    let mut first = Variables::new();
    first.insert("a".to_string(), Primitive::I32(1), Type::I32);
    first.insert("b".to_string(), Primitive::Bool(true), Type::Bool);
    first.insert("a".to_string(), Primitive::I32(5), Type::I32);
    assert_eq!(first.len(), 2);
    assert_eq!(first.get("a"), Some(Primitive::I32(5)));
    let mut second = Variables::new();
    second.insert("b".to_string(), Primitive::Bool(false), Type::Bool);
    let mut local = Variables::new();
    combine_variables(&mut local, vec![first, second]);
    assert_eq!(local.get("a"), Some(Primitive::I32(5)));
    assert_eq!(local.get("b"), Some(Primitive::Bool(false)));
    assert_eq!(local.get("c"), None);
}

#[test]
fn inherited_variables_are_visible() {
    let mut given = Variables::new();
    given.insert("x".to_string(), Primitive::String("hi".to_string()), Type::String);
    let program = VecDeque::from([Statement::FunctionCall(
        "print".to_string(),
        vec![Expression::Variable("x".to_string())],
    )]);
    let mut machine = Interpreter::new(&program, vec![given]);
    match machine.step(&Ieee) {
        Action::Print(text) => assert_eq!(text, "hi"),
        other => panic!("unexpected {:?}", other),
    }
}

#[test]
fn evaluate_known_values() {
    let e = binary(BinaryOperator::Multiply, Expression::I32(6), Expression::I32(7));
    assert_eq!(e.evaluate(&Variables::new(), &Ieee), Primitive::I32(42));
    let c = Complete { operator: BinaryOperator::Or, left: Box::new(Expression::Bool(false)), right: Box::new(Expression::Bool(true)) };
    assert_eq!(c.evaluate(&Variables::new(), &Ieee), Primitive::Bool(true));
    assert!(matches!(c.try_evaluate(&Variables::new(), &Ieee), Ok(Primitive::Bool(true))));
}

#[test]
fn try_parse_reports_errors() {
    let mut tokens = tokenize("i32 = ;");
    assert!(Compiler::new().try_parse(&mut tokens).is_err());
    let mut tokens = tokenize("Array<u8> a = [];");
    assert!(matches!(Compiler::new().try_parse(&mut tokens), Err(sarateese::parse::ParseError::UnknownType)));
}

#[test]
fn array_literals_evaluate() {
    let (printed, failure, _) = run_text("Array<i64> a = [100, 200];print(a);");
    assert!(failure.is_none());
    assert_eq!(printed, vec!["[100, 200]".to_string()]);
}

#[test]
fn float_definition_binds_with_declared_type() {
    let program = VecDeque::from([
        Statement::DefineVariable("x".to_string(), Expression::F32("1.5".to_string()), Type::F32),
        Statement::DefineVariable("y".to_string(), Expression::F32("2.5".to_string()), Type::F64),
    ]);
    let (printed, failure, vars) = run(&program);
    assert!(printed.is_empty());
    assert!(failure.is_none());
    assert_eq!(value_of(&vars, "x"), Some(Primitive::F32(1.5f32.to_bits())));
    assert_eq!(vars.find("y").map(|i| vars.entry(i).var_type.clone()), Some(Type::F64));
}

#[test]
fn float_assignment_rebinds_with_the_value_type() {
    let program = VecDeque::from([
        Statement::DefineVariable("x".to_string(), Expression::I32(1), Type::I32),
        Statement::ModifyVariable("x".to_string(), Expression::F64("0.25".to_string())),
    ]);
    let (_, failure, vars) = run(&program);
    assert!(failure.is_none());
    assert_eq!(value_of(&vars, "x"), Some(Primitive::F64(0.25f64.to_bits())));
    assert_eq!(vars.find("x").map(|i| vars.entry(i).var_type.clone()), Some(Type::F64));
}

#[test]
fn float_print_leaves_variables() {
    let program = VecDeque::from([
        Statement::DefineVariable("x".to_string(), Expression::F64("2.5".to_string()), Type::F64),
        Statement::FunctionCall("print".to_string(), vec![Expression::Variable("x".to_string())]),
    ]);
    let mut machine = Interpreter::new(&program, Vec::new());
    assert!(matches!(machine.step(&Ieee), Action::Continue));
    let before = machine.variables().len();
    match machine.step(&Ieee) {
        Action::Print(text) => assert_eq!(text, "2.5"),
        other => panic!("unexpected {:?}", other),
    }
    assert_eq!(machine.variables().len(), before);
    assert_eq!(value_of(machine.variables(), "x"), Some(Primitive::F64(2.5f64.to_bits())));
}

#[test]
fn float_condition_while_loop_leaves_on_false() {
    let x = || Expression::Variable("x".to_string());
    let program = VecDeque::from([
        Statement::DefineVariable("x".to_string(), Expression::F32("0.5".to_string()), Type::F32),
        Statement::WhileLoop(
            binary(BinaryOperator::LessThan, x(), Expression::F32("1.0".to_string())),
            VecDeque::from([Statement::ModifyVariable(
                "x".to_string(),
                binary(BinaryOperator::Add, x(), Expression::F32("0.25".to_string())),
            )]),
        ),
    ]);
    let (_, failure, vars) = run(&program);
    assert!(failure.is_none());
    assert_eq!(value_of(&vars, "x"), Some(Primitive::F32(1.0f32.to_bits())));
}

#[test]
fn evaluate_float_expression() {
    let e = binary(BinaryOperator::Multiply, Expression::F64("1.5".to_string()), Expression::F64("2.0".to_string()));
    assert_eq!(e.evaluate(&Variables::new(), &Ieee), Primitive::F64(3.0f64.to_bits()));
    let c = Complete {
        operator: BinaryOperator::LessThan,
        left: Box::new(Expression::F32("0.5".to_string())),
        right: Box::new(Expression::F32("0.75".to_string())),
    };
    assert_eq!(c.evaluate(&Variables::new(), &Ieee), Primitive::Bool(true));
}

#[test]
fn float_kinds_and_mismatches() {
    let call = |name: &str, arg: Expression| Expression::FunctionCall(name.to_string(), vec![arg]);
    assert!(matches!(eval(&Expression::F32("0.1".to_string())), Ok(Primitive::F32(_))));
    assert!(matches!(eval(&Expression::F64("0.1".to_string())), Ok(Primitive::F64(_))));
    let sum = binary(BinaryOperator::Subtract, Expression::F32("1.5".to_string()), Expression::F32("0.25".to_string()));
    assert_eq!(eval(&sum).unwrap(), Primitive::F32(1.25f32.to_bits()));
    let less = binary(BinaryOperator::LessThan, Expression::F64("1.5".to_string()), Expression::F64("0.25".to_string()));
    assert_eq!(eval(&less).unwrap(), Primitive::Bool(false));
    let mixed = binary(BinaryOperator::Add, Expression::F32("1.5".to_string()), Expression::I32(1));
    assert!(matches!(eval(&mixed), Err(EvalError::MismatchedTypes)));
    let logic = binary(BinaryOperator::And, Expression::F64("1.5".to_string()), Expression::F64("1.5".to_string()));
    assert!(matches!(eval(&logic), Err(EvalError::MismatchedTypes)));
    assert_eq!(eval(&call("f32", Expression::I32(3))).unwrap(), Primitive::F32(3.0f32.to_bits()));
    assert!(matches!(eval(&call("f64()", Expression::F32("0.5".to_string()))), Ok(Primitive::F64(_))));
    assert!(matches!(eval(&call("f32", Expression::F32("0.5".to_string()))), Err(EvalError::UnknownConversion(_))));
    let (_, failure, _) = run(&VecDeque::from([Statement::DefineVariable(
        "x".to_string(),
        mixed,
        Type::F32,
    )]));
    assert!(matches!(failure, Some(EvalError::MismatchedTypes)));
}

#[test]
fn integer_trap_after_float_conversion() {
    let call = |name: &str, arg: Expression| Expression::FunctionCall(name.to_string(), vec![arg]);
    let quotient = binary(BinaryOperator::Divide, Expression::I32(1), call("i32()", Expression::F32("0.5".to_string())));
    assert!(matches!(eval(&quotient), Err(EvalError::DivisionByZero)));
    let sum = binary(BinaryOperator::Add, Expression::I32(1), call("i32()", Expression::F32("2.5".to_string())));
    assert_eq!(eval(&sum).unwrap(), Primitive::I32(3));
}
