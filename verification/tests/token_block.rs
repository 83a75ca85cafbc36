use sarateese::token_block::{extract_block_meta, split_blocks, BlockError};

#[test]
fn test_split_blocks_with_labels() {
    let input = "block abc{stuff}block def requires[ghi[j, k]]{morestuff}";
    let expected = vec!["block abc{stuff}", "block def requires[ghi[j, k]]{morestuff}"];
    let result = split_blocks(input);
    assert_eq!(result, expected);
}

#[test]
fn test_extract_block_meta_no_requires() {
    let input = "block def {\n    some content here\n}";
    let expected_id = "def".to_string();
    let expected_requirements: Vec<(String, Vec<String>)> = Vec::new();
    let expected_content = "some content here";
    let (block_id, requirements, content) = extract_block_meta(input).unwrap();
    assert_eq!(block_id, expected_id);
    assert_eq!(requirements, expected_requirements);
    assert_eq!(content, expected_content);
}

#[test]
fn test_extract_block_meta_shorthand_requires() {
    let input = "block xyz requires[abc]{}";
    let expected_id = "xyz".to_string();
    let expected_requirements = vec![("abc".to_string(), Vec::<String>::new())];
    let expected_content = "";
    let (block_id, requirements, content) = extract_block_meta(input).unwrap();
    assert_eq!(block_id, expected_id);
    assert_eq!(requirements, expected_requirements);
    assert_eq!(content, expected_content);
}

#[test]
fn test_extract_block_meta_with_vars() {
    let input = "block xyz requires[abc[a, b, c], def[d]] {\n    some content here\n}";
    let expected_id = "xyz".to_string();
    let expected_requirements = vec![
        ("abc".to_string(), vec!["a".to_string(), "b".to_string(), "c".to_string()]),
        ("def".to_string(), vec!["d".to_string()]),
    ];
    let expected_content = "some content here";
    let (block_id, requirements, content) = extract_block_meta(input).unwrap();
    assert_eq!(block_id, expected_id);
    assert_eq!(requirements, expected_requirements);
    assert_eq!(content, expected_content);
}

#[test]
fn split_blocks_keeps_text_before_first_block() {
    let result = split_blocks("x = 1; block a {b}");
    assert_eq!(result, vec!["x = 1; ", "block a {b}"]);
}

#[test]
fn split_blocks_without_blocks_gives_the_text() {
    assert_eq!(split_blocks("no blocks here"), vec!["no blocks here"]);
    assert_eq!(split_blocks(""), Vec::<String>::new());
}

#[test]
fn extract_block_meta_rejects_non_block() {
    assert_eq!(extract_block_meta("print(1);").unwrap_err(), BlockError::InvalidFormat);
}

#[test]
fn extract_block_meta_rejects_unclosed_block() {
    assert_eq!(extract_block_meta("block a { if(true){ }").unwrap_err(), BlockError::UnmatchedBraces);
}

#[test]
fn extract_block_meta_nested_braces() {
    let (id, reqs, content) = extract_block_meta("block a requires[b] { if(true){ print(1); } } trailing").unwrap();
    assert_eq!(id, "a");
    assert_eq!(reqs, vec![("b".to_string(), Vec::<String>::new())]);
    assert_eq!(content, "if(true){ print(1); }");
}

#[test]
fn extract_block_meta_repeated_requirement_keeps_last() {
    let (_, reqs, _) = extract_block_meta("block a requires[b[x], c, b[y, z]] {}").unwrap();
    assert_eq!(
        reqs,
        vec![
            ("b".to_string(), vec!["y".to_string(), "z".to_string()]),
            ("c".to_string(), Vec::<String>::new()),
        ]
    );
}
