use sarateese::compiler::{Compiler, Type};
use sarateese::parse::{BinaryOperator, Complete, CompleteU, Expression, Statement, UnaryOperator};
use sarateese::tokenizer::{MathOp, Token};
use std::collections::VecDeque;

#[test]
    fn parse_hello_world() {
        let compiler = Compiler::new();
        let actual = compiler.parse(&mut VecDeque::from([
            Token::Identifier("print".to_string()),
            Token::OpenParen,
            Token::String("hello world".to_string()),
            Token::CloseParen,
            Token::EndLine,
        ]));
        let expected = vec![Statement::FunctionCall(
            "print".to_string(),
            vec![Expression::String("hello world".to_string())],
        )];
        assert_eq!(actual, expected);
    }

#[test]
    fn parse_bool_test() {
        let compiler = Compiler::new();
        let actual = compiler.parse(&mut VecDeque::from([
            Token::Identifier("Bool".to_string()),
            Token::Identifier("peepaw".to_string()),
            Token::Assign,
            Token::Boolean(true),
            Token::EndLine,
        ]));
        let expected = vec![Statement::DefineVariable(
            "peepaw".to_string(),
            Expression::Bool(true),
            Type::Bool,
        )];
        assert_eq!(actual, expected);
    }

#[test]
    fn parse_print_variable_test() {
        let compiler = Compiler::new();
        let actual = compiler.parse(&mut VecDeque::from([
            Token::Identifier("Bool".to_string()),
            Token::Identifier("eee".to_string()),
            Token::Assign,
            Token::Boolean(true),
            Token::EndLine,
            Token::Identifier("print".to_string()),
            Token::OpenParen,
            Token::Identifier("eee".to_string()),
            Token::CloseParen,
            Token::EndLine,
        ]));
        let expected = vec![
            Statement::DefineVariable("eee".to_string(), Expression::Bool(true), Type::Bool),
            Statement::FunctionCall(
                "print".to_string(),
                vec![Expression::Variable("eee".to_string())],
            ),
        ];
        assert_eq!(actual, expected);
    }

#[test]
    fn parse_print_string_test() {
        let compiler = Compiler::new();
        let actual = compiler.parse(&mut VecDeque::from([
            Token::Identifier("String".to_string()),
            Token::Identifier("ee".to_string()),
            Token::Assign,
            Token::String("yeet?".to_string()),
            Token::EndLine,
            Token::Identifier("print".to_string()),
            Token::OpenParen,
            Token::Identifier("ee".to_string()),
            Token::CloseParen,
            Token::EndLine,
        ]));
        let expected = vec![
            Statement::DefineVariable(
                "ee".to_string(),
                Expression::String("yeet?".to_string()),
                Type::String,
            ),
            Statement::FunctionCall(
                "print".to_string(),
                vec![Expression::Variable("ee".to_string())],
            ),
        ];
        assert_eq!(actual, expected);
    }

#[test]
    fn parse_simple_while_loop() {
        let compiler = Compiler::new();
        let actual = compiler.parse(&mut VecDeque::from([
            Token::WhileLoop,
            Token::OpenParen,
            Token::Boolean(true),
            Token::CloseParen,
            Token::OpenBlock,
            Token::Identifier("print".to_string()),
            Token::OpenParen,
            Token::String("69".to_string()),
            Token::CloseParen,
            Token::EndLine,
            Token::CloseBlock,
        ]));
        let expected = vec![Statement::WhileLoop(
            Expression::Bool(true),
            VecDeque::from([Statement::FunctionCall(
                "print".to_string(),
                vec![Expression::String("69".to_string())],
            )]),
        )];
        assert_eq!(actual, expected);
    }

#[test]
    fn parse_change_variable() {
        let compiler = Compiler::new();
        let actual = compiler.parse(&mut VecDeque::from([
            Token::Identifier("i32".to_string()),
            Token::Identifier("i".to_string()),
            Token::Assign,
            Token::ConstantNumber("0".to_string()),
            Token::EndLine,
            Token::Identifier("i".to_string()),
            Token::Assign,
            Token::ConstantNumber("1".to_string()),
            Token::EndLine,
            Token::Identifier("String".to_string()),
            Token::Identifier("e".to_string()),
            Token::Assign,
            Token::String("hello".to_string()),
            Token::EndLine,
            Token::Identifier("e".to_string()),
            Token::Assign,
            Token::String("bye".to_string()),
            Token::EndLine,
            Token::Identifier("Bool".to_string()),
            Token::Identifier("yes".to_string()),
            Token::Assign,
            Token::Boolean(true),
            Token::EndLine,
            Token::Identifier("yes".to_string()),
            Token::Assign,
            Token::Boolean(false),
            Token::EndLine,
        ]));
        let expected = vec![
            Statement::DefineVariable("i".to_string(), Expression::I32(0), Type::I32),
            Statement::ModifyVariable("i".to_string(), Expression::I32(1)),
            Statement::DefineVariable(
                "e".to_string(),
                Expression::String("hello".to_string()),
                Type::String,
            ),
            Statement::ModifyVariable("e".to_string(), Expression::String("bye".to_string())),
            Statement::DefineVariable("yes".to_string(), Expression::Bool(true), Type::Bool),
            Statement::ModifyVariable("yes".to_string(), Expression::Bool(false)),
        ];
        assert_eq!(actual, expected);
    }

#[test]
    fn parse_math_test() {
        let compiler = Compiler::new();
        let actual = compiler.parse(&mut VecDeque::from([
            Token::Identifier("i32".to_string()),
            Token::Identifier("e".to_string()),
            Token::Assign,
            Token::ConstantNumber("4".to_string()),
            Token::MathOp(MathOp::Add),
            Token::ConstantNumber("4".to_string()),
            Token::MathOp(MathOp::Add),
            Token::ConstantNumber("4".to_string()),
            Token::MathOp(MathOp::Add),
            Token::ConstantNumber("4".to_string()),
            Token::EndLine,
        ]));
        let expected = vec![Statement::DefineVariable(
            "e".to_string(),
            Expression::Complete(Complete {
                operator: BinaryOperator::Add,
                left: Box::new(Expression::Complete(Complete {
                    operator: BinaryOperator::Add,
                    left: Box::new(Expression::Complete(Complete {
                        operator: BinaryOperator::Add,
                        left: Box::new(Expression::I32(4)),
                        right: Box::new(Expression::I32(4)),
                    })),
                    right: Box::new(Expression::I32(4)),
                })),
                right: Box::new(Expression::I32(4)),
            }),
            Type::I32,
        )];
        assert_eq!(actual, expected);
    }

#[test]
    fn parse_oop_test() {
        let compiler = Compiler::new();
        let actual = compiler.parse(&mut VecDeque::from([
            Token::Identifier("i32".to_string()),
            Token::Identifier("e".to_string()),
            Token::Assign,
            Token::ConstantNumber("1".to_string()),
            Token::MathOp(MathOp::Add),
            Token::ConstantNumber("2".to_string()),
            Token::MathOp(MathOp::Subtract),
            Token::ConstantNumber("3".to_string()),
            Token::MathOp(MathOp::Multiply),
            Token::ConstantNumber("4".to_string()),
            Token::EndLine,
        ]));
        let expected = vec![Statement::DefineVariable(
            "e".to_string(),
            Expression::Complete(Complete {
                operator: BinaryOperator::Subtract,
                left: Box::new(Expression::Complete(Complete {
                    operator: BinaryOperator::Add,
                    left: Box::new(Expression::I32(1)),
                    right: Box::new(Expression::I32(2)),
                })),
                right: Box::new(Expression::Complete(Complete {
                    operator: BinaryOperator::Multiply,
                    left: Box::new(Expression::I32(3)),
                    right: Box::new(Expression::I32(4)),
                })),
            }),
            Type::I32,
        )];
        assert_eq!(actual, expected);
    }

#[test]
    fn parse_simple_print_add() {
        let compiler = Compiler::new();
        let actual = compiler.parse(&mut VecDeque::from([
            Token::Identifier("print".to_string()),
            Token::OpenParen,
            Token::ConstantNumber("1".to_string()),
            Token::MathOp(MathOp::Add),
            Token::ConstantNumber("69".to_string()),
            Token::CloseParen,
            Token::EndLine,
        ]));
        let expected = vec![Statement::FunctionCall(
            "print".to_string(),
            vec![Expression::Complete(Complete {
                operator: BinaryOperator::Add,
                left: Box::new(Expression::I32(1)),
                right: Box::new(Expression::I32(69)),
            })],
        )];
        assert_eq!(actual, expected);
    }

#[test]
    fn parse_variable_adding() {
        let compiler = Compiler::new();
        let actual = compiler.parse(&mut VecDeque::from([
            Token::Identifier("i32".to_string()),
            Token::Identifier("e".to_string()),
            Token::Assign,
            Token::ConstantNumber("1".to_string()),
            Token::EndLine,
            Token::Identifier("i32".to_string()),
            Token::Identifier("ee".to_string()),
            Token::Assign,
            Token::ConstantNumber("2".to_string()),
            Token::EndLine,
            Token::Identifier("print".to_string()),
            Token::OpenParen,
            Token::Identifier("e".to_string()),
            Token::MathOp(MathOp::Add),
            Token::Identifier("ee".to_string()),
            Token::CloseParen,
            Token::EndLine,
        ]));
        let expected = vec![
            Statement::DefineVariable("e".to_string(), Expression::I32(1), Type::I32),
            Statement::DefineVariable("ee".to_string(), Expression::I32(2), Type::I32),
            Statement::FunctionCall(
                "print".to_string(),
                vec![Expression::Complete(Complete {
                    operator: BinaryOperator::Add,
                    left: Box::new(Expression::Variable("e".to_string())),
                    right: Box::new(Expression::Variable("ee".to_string())),
                })],
            ),
        ];
        assert_eq!(actual, expected);
    }

#[test]
    fn parse_basic_if() {
        let compiler = Compiler::new();
        let actual = compiler.parse(&mut VecDeque::from([
            Token::Identifier("i32".to_string()),
            Token::Identifier("e".to_string()),
            Token::Assign,
            Token::ConstantNumber("69".to_string()),
            Token::EndLine,
            Token::If,
            Token::OpenParen,
            Token::Identifier("e".to_string()),
            Token::MathOp(MathOp::Equals),
            Token::ConstantNumber("69".to_string()),
            Token::CloseParen,
            Token::OpenBlock,
            Token::Identifier("print".to_string()),
            Token::OpenParen,
            Token::Identifier("e".to_string()),
            Token::CloseParen,
            Token::EndLine,
            Token::CloseBlock,
        ]));
        let expected = vec![
            Statement::DefineVariable("e".to_string(), Expression::I32(69), Type::I32),
            Statement::If(
                Expression::Complete(Complete {
                    operator: BinaryOperator::Equals,
                    left: Box::new(Expression::Variable("e".to_string())),
                    right: Box::new(Expression::I32(69)),
                }),
                VecDeque::from([Statement::FunctionCall(
                    "print".to_string(),
                    vec![Expression::Variable("e".to_string())],
                )]),
                VecDeque::new(),
                None,
            ),
        ];
        assert_eq!(actual, expected);
    }

#[test]
    fn parse_for_loop() {
        let compiler = Compiler::new();
        let actual = compiler.parse(&mut VecDeque::from([
            Token::ForLoop,
            Token::OpenParen,
            Token::Identifier("i32".to_string()),
            Token::Identifier("i".to_string()),
            Token::Assign,
            Token::ConstantNumber("0".to_string()),
            Token::EndLine,
            Token::Identifier("i".to_string()),
            Token::MathOp(MathOp::LessThan),
            Token::ConstantNumber("10".to_string()),
            Token::EndLine,
            Token::Identifier("i".to_string()),
            Token::Increment,
            Token::CloseParen,
            Token::OpenBlock,
            Token::Identifier("print".to_string()),
            Token::OpenParen,
            Token::Identifier("i".to_string()),
            Token::CloseParen,
            Token::EndLine,
            Token::CloseBlock,
        ]));
        let expected = vec![Statement::ForLoop(
            Box::new(Statement::DefineVariable(
                "i".to_string(),
                Expression::I32(0),
                Type::I32,
            )),
            Expression::Complete(Complete {
                operator: BinaryOperator::LessThan,
                left: Box::new(Expression::Variable("i".to_string())),
                right: Box::new(Expression::I32(10)),
            }),
            Box::new(Statement::ModifyVariable(
                "i".to_string(),
                Expression::Increment,
            )),
            VecDeque::from([Statement::FunctionCall(
                "print".to_string(),
                vec![Expression::Variable("i".to_string())],
            )]),
        )];
        assert_eq!(actual, expected);
    }

#[test]
    fn parse_double_if() {
        let compiler = Compiler::new();
        let actual = compiler.parse(&mut VecDeque::from([
            Token::If,
            Token::OpenParen,
            Token::Boolean(true),
            Token::CloseParen,
            Token::OpenBlock,
            Token::If,
            Token::OpenParen,
            Token::Boolean(false),
            Token::CloseParen,
            Token::OpenBlock,
            Token::Identifier("print".to_string()),
            Token::OpenParen,
            Token::String("a".to_string()),
            Token::CloseParen,
            Token::EndLine,
            Token::CloseBlock,
            Token::CloseBlock,
        ]));
        let expected = vec![Statement::If(
            Expression::Bool(true),
            VecDeque::from([Statement::If(
                Expression::Bool(false),
                VecDeque::from([Statement::FunctionCall(
                    "print".to_string(),
                    vec![Expression::String("a".to_string())],
                )]),
                VecDeque::new(),
                None,
            )]),
            VecDeque::new(),
            None,
        )];
        assert_eq!(actual, expected);
    }

#[test]
    fn parse_more_if() {
        let compiler = Compiler::new();
        let actual = compiler.parse(&mut VecDeque::from([
            Token::If,
            Token::OpenParen,
            Token::Boolean(true),
            Token::CloseParen,
            Token::OpenBlock,
            Token::If,
            Token::OpenParen,
            Token::Boolean(false),
            Token::CloseParen,
            Token::OpenBlock,
            Token::Identifier("print".to_string()),
            Token::OpenParen,
            Token::String("a".to_string()),
            Token::CloseParen,
            Token::EndLine,
            Token::CloseBlock,
            Token::If,
            Token::OpenParen,
            Token::Boolean(true),
            Token::CloseParen,
            Token::OpenBlock,
            Token::Identifier("print".to_string()),
            Token::OpenParen,
            Token::String("n".to_string()),
            Token::CloseParen,
            Token::EndLine,
            Token::CloseBlock,
            Token::CloseBlock,
        ]));
        let expected = vec![Statement::If(
            Expression::Bool(true),
            VecDeque::from([
                Statement::If(
                    Expression::Bool(false),
                    VecDeque::from([Statement::FunctionCall(
                        "print".to_string(),
                        vec![Expression::String("a".to_string())],
                    )]),
                    VecDeque::new(),
                    None,
                ),
                Statement::If(
                    Expression::Bool(true),
                    VecDeque::from([Statement::FunctionCall(
                        "print".to_string(),
                        vec![Expression::String("n".to_string())],
                    )]),
                    VecDeque::new(),
                    None,
                ),
            ]),
            VecDeque::new(),
            None,
        )];
        assert_eq!(actual, expected);
    }

#[test]
    fn parse_increment_test() {
        let compiler = Compiler::new();
        let actual = compiler.parse(&mut VecDeque::from([
            Token::Identifier("i32".to_string()),
            Token::Identifier("w".to_string()),
            Token::Assign,
            Token::ConstantNumber("68".to_string()),
            Token::EndLine,
            Token::Identifier("w".to_string()),
            Token::Decrement,
            Token::EndLine,
        ]));
        let expected = vec![
            Statement::DefineVariable("w".to_string(), Expression::I32(68), Type::I32),
            Statement::ModifyVariable("w".to_string(), Expression::Decrement),
        ];
        assert_eq!(actual, expected);
    }

#[test]
    fn if_elif_elif_else() {
        let compiler = Compiler::new();
        let actual = compiler.parse(&mut VecDeque::from([
            Token::Identifier("i32".to_string()),
            Token::Identifier("i".to_string()),
            Token::Assign,
            Token::ConstantNumber("69".to_string()),
            Token::EndLine,
            Token::If,
            Token::OpenParen,
            Token::Identifier("i".to_string()),
            Token::MathOp(MathOp::Equals),
            Token::ConstantNumber("6".to_string()),
            Token::CloseParen,
            Token::OpenBlock,
            Token::CloseBlock,
            Token::Elif,
            Token::OpenParen,
            Token::Identifier("i".to_string()),
            Token::MathOp(MathOp::Equals),
            Token::ConstantNumber("7".to_string()),
            Token::CloseParen,
            Token::OpenBlock,
            Token::CloseBlock,
            Token::Elif,
            Token::OpenParen,
            Token::Identifier("i".to_string()),
            Token::MathOp(MathOp::Equals),
            Token::ConstantNumber("69".to_string()),
            Token::CloseParen,
            Token::OpenBlock,
            Token::CloseBlock,
            Token::Else,
            Token::OpenBlock,
            Token::CloseBlock,
        ]));
        let expected = vec![
            Statement::DefineVariable("i".to_string(), Expression::I32(69), Type::I32),
            Statement::If(
                Expression::Complete(Complete {
                    operator: BinaryOperator::Equals,
                    left: Box::new(Expression::Variable("i".to_string())),
                    right: Box::new(Expression::I32(6)),
                }),
                VecDeque::from([]),
                VecDeque::from([
                    Statement::Elif(
                        Expression::Complete(Complete {
                            operator: BinaryOperator::Equals,
                            left: Box::new(Expression::Variable("i".to_string())),
                            right: Box::new(Expression::I32(7)),
                        }),
                        VecDeque::from([]),
                    ),
                    Statement::Elif(
                        Expression::Complete(Complete {
                            operator: BinaryOperator::Equals,
                            left: Box::new(Expression::Variable("i".to_string())),
                            right: Box::new(Expression::I32(69)),
                        }),
                        VecDeque::from([]),
                    ),
                ]),
                Some(VecDeque::new()),
            ),
        ];
        assert_eq!(actual, expected);
    }

#[test]
    fn parse_i32_i64_f32_f64() {
        let compiler = Compiler::new();
        let actual = compiler.parse(&mut VecDeque::from([
            Token::Identifier("i32".to_string()),
            Token::Identifier("i".to_string()),
            Token::Assign,
            Token::ConstantNumber("31".to_string()),
            Token::EndLine,
            Token::Identifier("i64".to_string()),
            Token::Identifier("e".to_string()),
            Token::Assign,
            Token::ConstantNumber("63".to_string()),
            Token::EndLine,
            Token::Identifier("f32".to_string()),
            Token::Identifier("f".to_string()),
            Token::Assign,
            Token::ConstantNumber("32".to_string()),
            Token::EndLine,
            Token::Identifier("f64".to_string()),
            Token::Identifier("g".to_string()),
            Token::Assign,
            Token::ConstantNumber("64".to_string()),
            Token::EndLine,
        ]));
        let expected = vec![
            Statement::DefineVariable("i".to_string(), Expression::I32(31), Type::I32),
            Statement::DefineVariable("e".to_string(), Expression::I64(63), Type::I64),
            Statement::DefineVariable("f".to_string(), Expression::F32("32".to_string()), Type::F32),
            Statement::DefineVariable("g".to_string(), Expression::F64("64".to_string()), Type::F64),
        ];
        assert_eq!(actual, expected);
    }

#[test]
    fn f32_test() {
        let compiler = Compiler::new();
        let actual = compiler.parse(&mut VecDeque::from([
            Token::Identifier("f32".to_string()),
            Token::Identifier("e".to_string()),
            Token::Assign,
            Token::ConstantNumber("32".to_string()),
            Token::EndLine,
        ]));
        let expected = vec![Statement::DefineVariable(
            "e".to_string(),
            Expression::F32("32".to_string()),
            Type::F32,
        )];
        assert_eq!(actual, expected);
    }

#[test]
    fn simple_cast() {
        let compiler = Compiler::new();
        let actual = compiler.parse(&mut VecDeque::from([
            Token::Identifier("i32".to_string()),
            Token::Identifier("i".to_string()),
            Token::Assign,
            Token::ConstantNumber("6".to_string()),
            Token::EndLine,
            Token::Identifier("i64".to_string()),
            Token::Identifier("e".to_string()),
            Token::Assign,
            Token::Identifier("i64".to_string()),
            Token::OpenParen,
            Token::Identifier("i".to_string()),
            Token::CloseParen,
            Token::EndLine,
        ]));
        let expected = vec![
            Statement::DefineVariable("i".to_string(), Expression::I32(6), Type::I32),
            Statement::DefineVariable(
                "e".to_string(),
                Expression::FunctionCall(
                    "i64".to_string(),
                    vec![Expression::Variable("i".to_string())],
                ),
                Type::I64,
            ),
        ];
        assert_eq!(actual, expected);
    }

#[test]
    fn cast_in_while() {
        let compiler = Compiler::new();
        let actual = compiler.parse(&mut VecDeque::from([
            Token::Identifier("i64".to_string()),
            Token::Identifier("i".to_string()),
            Token::Assign,
            Token::ConstantNumber("6".to_string()),
            Token::EndLine,
            Token::WhileLoop,
            Token::OpenParen,
            Token::Identifier("i".to_string()),
            Token::MathOp(MathOp::NotEqual),
            Token::Identifier("i64".to_string()),
            Token::OpenParen,
            Token::ConstantNumber("2".to_string()),
            Token::CloseParen,
            Token::CloseParen,
            Token::OpenBlock,
            Token::CloseBlock,
        ]));
        let expected = vec![
            Statement::DefineVariable("i".to_string(), Expression::I64(6), Type::I64),
            Statement::WhileLoop(
                Expression::Complete(Complete {
                    operator: BinaryOperator::NotEqual,
                    left: Box::new(Expression::Variable("i".to_string())),
                    right: Box::new(Expression::FunctionCall(
                        "i64".to_string(),
                        vec![Expression::I32(2)],
                    )),
                }),
                VecDeque::new(),
            ),
        ];
        assert_eq!(actual, expected);
    }

#[test]
    fn statement_after_loop() {
        let compiler = Compiler::new();
        let actual = compiler.parse(&mut VecDeque::from([
            Token::Identifier("i64".to_string()),
            Token::Identifier("i".to_string()),
            Token::Assign,
            Token::ConstantNumber("9".to_string()),
            Token::EndLine,
            Token::WhileLoop,
            Token::OpenParen,
            Token::Boolean(false),
            Token::CloseParen,
            Token::OpenBlock,
            Token::CloseBlock,
            Token::Identifier("print".to_string()),
            Token::OpenParen,
            Token::Identifier("i".to_string()),
            Token::CloseParen,
            Token::EndLine,
        ]));
        let expected = vec![
            Statement::DefineVariable("i".to_string(), Expression::I64(9), Type::I64),
            Statement::WhileLoop(Expression::Bool(false), VecDeque::new()),
            Statement::FunctionCall(
                "print".to_string(),
                vec![Expression::Variable("i".to_string())],
            ),
        ];
        assert_eq!(actual, expected);
    }

#[test]
    fn order_of_ops_parenthesis_1() {
        let mut tokens = VecDeque::from([
            Token::OpenParen,
            Token::ConstantNumber("1".to_string()),
            Token::MathOp(MathOp::Add),
            Token::ConstantNumber("2".to_string()),
            Token::CloseParen,
            Token::MathOp(MathOp::Multiply),
            Token::ConstantNumber("3".to_string()),
        ]);
        let compiler = Compiler::new();
        let actual = compiler.parse_expression(&mut tokens, Some(Type::I32));
        let expected = Expression::Complete(Complete {
            operator: BinaryOperator::Multiply,
            left: Box::new(Expression::CompleteU(CompleteU {
                operator: UnaryOperator::Parenthesis,
                child: Box::new(Expression::Complete(Complete {
                    operator: BinaryOperator::Add,
                    left: Box::new(Expression::I32(1)),
                    right: Box::new(Expression::I32(2)),
                })),
            })),
            right: Box::new(Expression::I32(3)),
        });
        assert_eq!(actual, expected);
    }

#[test]
    fn order_of_ops_parenthesis_2() {
        let mut tokens = VecDeque::from([
            Token::ConstantNumber("3".to_string()),
            Token::MathOp(MathOp::Multiply),
            Token::OpenParen,
            Token::ConstantNumber("2".to_string()),
            Token::MathOp(MathOp::Add),
            Token::ConstantNumber("6".to_string()),
            Token::CloseParen,
        ]);
        let compiler = Compiler::new();
        let actual = compiler.parse_expression(&mut tokens, Some(Type::I32));
        let expected = Expression::Complete(Complete {
            operator: BinaryOperator::Multiply,
            left: Box::new(Expression::I32(3)),
            right: Box::new(Expression::CompleteU(CompleteU {
                operator: UnaryOperator::Parenthesis,
                child: Box::new(Expression::Complete(Complete {
                    operator: BinaryOperator::Add,
                    left: Box::new(Expression::I32(2)),
                    right: Box::new(Expression::I32(6)),
                })),
            })),
        });
        assert_eq!(actual, expected);
    }

#[test]
    fn complex_print_1() {
        let compiler = Compiler::new();
        let actual = compiler.parse(&mut VecDeque::from([
            Token::Identifier("print".to_string()),
            Token::OpenParen,
            Token::OpenParen,
            Token::ConstantNumber("1".to_string()),
            Token::MathOp(MathOp::Add),
            Token::ConstantNumber("2".to_string()),
            Token::CloseParen,
            Token::MathOp(MathOp::Multiply),
            Token::ConstantNumber("3".to_string()),
            Token::CloseParen,
            Token::EndLine,
        ]));
        let expected = vec![Statement::FunctionCall(
            "print".to_string(),
            vec![Expression::Complete(Complete {
                operator: BinaryOperator::Multiply,
                left: Box::new(Expression::CompleteU(CompleteU {
                    operator: UnaryOperator::Parenthesis,
                    child: Box::new(Expression::Complete(Complete {
                        operator: BinaryOperator::Add,
                        left: Box::new(Expression::I32(1)),
                        right: Box::new(Expression::I32(2)),
                    })),
                })),
                right: Box::new(Expression::I32(3)),
            })],
        )];
        assert_eq!(actual, expected);
    }

#[test]
    fn boolean_operators() {
        let compiler = Compiler::new();
        let actual = compiler.parse(&mut VecDeque::from([
            Token::Identifier("print".to_string()),
            Token::OpenParen,
            Token::Boolean(false),
            Token::MathOp(MathOp::And),
            Token::Boolean(true),
            Token::CloseParen,
            Token::EndLine,
            Token::Identifier("print".to_string()),
            Token::OpenParen,
            Token::Boolean(false),
            Token::MathOp(MathOp::Or),
            Token::Boolean(true),
            Token::CloseParen,
            Token::EndLine,
            Token::Identifier("print".to_string()),
            Token::OpenParen,
            Token::MathOp(MathOp::Not),
            Token::Boolean(false),
            Token::MathOp(MathOp::And),
            Token::Boolean(true),
            Token::CloseParen,
            Token::EndLine,
        ]));
        let expected = vec![
            Statement::FunctionCall(
                "print".to_string(),
                vec![Expression::Complete(Complete {
                    operator: BinaryOperator::And,
                    left: Box::new(Expression::Bool(false)),
                    right: Box::new(Expression::Bool(true)),
                })],
            ),
            Statement::FunctionCall(
                "print".to_string(),
                vec![Expression::Complete(Complete {
                    operator: BinaryOperator::Or,
                    left: Box::new(Expression::Bool(false)),
                    right: Box::new(Expression::Bool(true)),
                })],
            ),
            Statement::FunctionCall(
                "print".to_string(),
                vec![Expression::Complete(Complete {
                    operator: BinaryOperator::And,
                    left: Box::new(Expression::CompleteU(CompleteU {
                        operator: UnaryOperator::Not,
                        child: Box::new(Expression::Bool(false)),
                    })),
                    right: Box::new(Expression::Bool(true)),
                })],
            ),
        ];
        assert_eq!(actual, expected);
    }


#[test]
    fn parse_one_dim_array() {
        let compiler = Compiler::new();
        let actual = compiler.parse(&mut VecDeque::from([
            Token::Identifier("Array<i32>".to_string()),
            Token::Identifier("a".to_string()),
            Token::Assign,
            Token::OpenBracket,
            Token::ConstantNumber("69".to_string()),
            Token::Comma,
            Token::ConstantNumber("420".to_string()),
            Token::CloseBracket,
            Token::EndLine,
        ]));
        let expected = vec![Statement::DefineVariable(
            "a".to_string(),
            Expression::Array(vec![Expression::F32("69".to_string()), Expression::F32("420".to_string())]),
            Type::F32,
        )];
        assert_eq!(actual, expected);
    }

#[test]
    fn empty_one_dim_array() {
        let compiler = Compiler::new();
        let actual = compiler.parse(&mut VecDeque::from([
            Token::Identifier("Array<String>".to_string()),
            Token::Identifier("a".to_string()),
            Token::Assign,
            Token::OpenBracket,
            Token::CloseBracket,
            Token::EndLine,
        ]));
        let expected = vec![Statement::DefineVariable(
            "a".to_string(),
            Expression::Array(vec![]),
            Type::String,
        )];
        assert_eq!(actual, expected);
    }

#[test]
    fn statements_clone_to_equal_values() {
        let compiler = Compiler::new();
        let statements = compiler.parse(&mut sarateese::tokenizer::tokenize(
            "i32 i = 0;while (i < 3){print((i + 1) * 2);i = i + 1;}if(i == 3){}elif(true){}else{print([1, 2]);}",
        ));
        assert_eq!(statements.len(), 3);
        for s in &statements {
            assert_eq!(s.clone(), *s);
        }
        let e = Expression::Complete(Complete {
            operator: BinaryOperator::Add,
            left: Box::new(Expression::I32(1)),
            right: Box::new(Expression::CompleteU(CompleteU { operator: UnaryOperator::Not, child: Box::new(Expression::Bool(true)) })),
        });
        assert_eq!(e.clone(), e);
    }
