use sarateese::compiler::Compiler;
use sarateese::dag::{build_dag, schedule};
use sarateese::lex::BinaryOperator as OldOperator;
use sarateese::number::{is_float_text, parse_i32, parse_i64};
use sarateese::parse::{BinaryOperator, Complete, Expression};
use sarateese::text::{trim_chars, white_space};
use sarateese::token_block::{split_blocks, TokenBlock};
use sarateese::tokenize::remove_spaces;
use sarateese::tokenizer::{strip_comments, tokenize, Token};
use std::collections::VecDeque;

#[test]
fn blocks_join_back_to_the_text() {
    let text = "intro text block a{x}block b requires[a]{ y }tail";
    let pieces = split_blocks(text);
    assert_eq!(pieces, vec!["intro text ", "block a{x}", "block b requires[a]{ y }tail"]);
    assert_eq!(pieces.concat(), text);
}

#[test]
fn text_without_headers_is_one_piece() {
    assert_eq!(split_blocks("no blocks here"), vec!["no blocks here"]);
    assert!(split_blocks("").is_empty());
}

#[test]
fn tokens_never_include_ignore() {
    let tokens = tokenize("@ # $ ~ ` i32 x = 1; & | ^");
    assert!(!tokens.iter().any(|t| *t == Token::Ignore));
    assert_eq!(
        tokens,
        VecDeque::from([
            Token::Identifier("i32".to_string()),
            Token::Identifier("x".to_string()),
            Token::Assign,
            Token::ConstantNumber("1".to_string()),
            Token::EndLine,
        ])
    );
}

#[test]
fn unicode_digits_start_numbers() {
    let tokens = tokenize("\u{661}\u{662}");
    assert_eq!(tokens, VecDeque::from([Token::ConstantNumber("\u{661}\u{662}".to_string())]));
}

#[test]
fn numbers_drop_their_underscores() {
    assert_eq!(tokenize("1_000"), VecDeque::from([Token::ConstantNumber("1000".to_string())]));
}

#[test]
fn comments_are_removed() {
    let chars: Vec<char> = "a//b\nc/*d*/e/*f".chars().collect();
    let out: String = strip_comments(&chars).into_iter().collect();
    assert_eq!(out, "a\nce/*f");
}

#[test]
fn precedence_keeps_operand_order() {
    let mut tokens = tokenize("1 + 2 * 3 - 4;");
    let e = Compiler::new().parse_expression(&mut tokens, None);
    fn leaves(e: &Expression, out: &mut Vec<String>) {
        match e {
            Expression::Complete(Complete { operator, left, right }) => {
                leaves(left, out);
                out.push(format!("{:?}", operator));
                leaves(right, out);
            }
            Expression::I32(v) => out.push(v.to_string()),
            other => out.push(format!("{:?}", other)),
        }
    }
    let mut seen = Vec::new();
    leaves(&e, &mut seen);
    assert_eq!(seen, vec!["1", "Add", "2", "Multiply", "3", "Subtract", "4"]);
}

#[test]
fn schedule_orders_a_chain() {
    let block = |id: &str, reqs: &[&str]| {
        TokenBlock::new(id.to_string(), reqs.iter().map(|r| (r.to_string(), Vec::new())).collect(), VecDeque::new())
    };
    let dag = build_dag(vec![block("c", &["a", "b"]), block("a", &[]), block("b", &["a"])]);
    let (rounds, stuck) = schedule(&dag);
    assert!(!stuck);
    assert_eq!(rounds, vec![vec![1], vec![2], vec![0]]);
}

#[test]
fn schedule_stops_before_a_cycle() {
    let block = |id: &str, reqs: &[&str]| {
        TokenBlock::new(id.to_string(), reqs.iter().map(|r| (r.to_string(), Vec::new())).collect(), VecDeque::new())
    };
    let dag = build_dag(vec![block("free", &[]), block("x", &["y"]), block("y", &["x"])]);
    let (rounds, stuck) = schedule(&dag);
    assert!(stuck);
    assert_eq!(rounds, vec![vec![0]]);
}

#[test]
fn integers_read_like_str_parse() {
    assert_eq!(parse_i32("42"), Some(42));
    assert_eq!(parse_i32("+7"), Some(7));
    assert_eq!(parse_i32("-2147483648"), Some(i32::MIN));
    assert_eq!(parse_i32("2147483648"), None);
    assert_eq!(parse_i32(""), None);
    assert_eq!(parse_i32("-"), None);
    assert_eq!(parse_i32("1_0"), None);
    assert_eq!(parse_i64("9223372036854775807"), Some(i64::MAX));
    assert_eq!(parse_i64("9223372036854775808"), None);
}

#[test]
fn float_literals_read_like_str_parse() {
    for text in ["1", "1.", ".5", "1.5e3", "-2E-2", "inf", "-Infinity", "NaN", "+0.0"] {
        assert!(is_float_text(text), "{}", text);
        assert!(text.parse::<f64>().is_ok(), "{}", text);
    }
    for text in ["", ".", "e5", "1e", "1.2.3", "--1", "infinit", "0x10"] {
        assert!(!is_float_text(text), "{}", text);
        assert!(text.parse::<f64>().is_err(), "{}", text);
    }
}

#[test]
fn spaces_are_removed_outside_quotes() {
    assert_eq!(remove_spaces("print( \"a b\" );\n\ti32 x = 1;"), "print(\"a b\");i32x=1;");
}

#[test]
fn white_space_is_unicode_white_space() {
    assert!(white_space(' '));
    assert!(white_space('\u{3000}'));
    assert!(!white_space('a'));
    let chars: Vec<char> = "  \t x y \n".chars().collect();
    assert_eq!(trim_chars(&chars).into_iter().collect::<String>(), "x y");
}

#[test]
fn operator_precedences() {
    assert_eq!(BinaryOperator::Multiply.get_precidence(), 2);
    assert_eq!(BinaryOperator::Add.get_precidence(), 1);
    assert_eq!(BinaryOperator::Or.get_precidence(), 0);
    assert_eq!(OldOperator::Modulus.get_precidence(), 2);
    assert_eq!(OldOperator::LessThan.get_precidence(), 0);
}
