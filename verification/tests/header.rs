use regex::Regex;
use sarateese::header::{header_at, header_starts, list_items};

fn chars(s: &str) -> Vec<char> {
    s.chars().collect()
}

fn char_pos(s: &str, byte: usize) -> usize {
    s[..byte].chars().count()
}

const SAMPLES: &[&str] = &[
    "block a{x}",
    "block abc{stuff}block def requires[ghi[j, k]]{morestuff}",
    "block xyz requires[abc[a, b, c], def[d]] {\n    some content here\n}",
    "block xrequires[a]{ }",
    "block x requires[a] b]{ }",
    "block x requires[a\n]{ }",
    "block x requires [ a ]\u{3000}{ }",
    "block\u{a0}x {}",
    "block{}",
    "blockx {}",
    "block  _9 requires[] {} block y{}",
    "text before block q requires[r]{ block s {} }",
    "block x requires[a]",
    "block x requires[a]]{",
    "block é {}",
];

#[test]
fn header_starts_agree_with_the_regex() {
    let re = Regex::new(r"(block\s+[A-Za-z_][A-Za-z0-9_]*\s*(?:requires\s*\[.*?\])?\s*\{)").unwrap();
    for text in SAMPLES {
        let expected: Vec<usize> = re.find_iter(text).map(|m| char_pos(text, m.start())).collect();
        assert_eq!(header_starts(&chars(text)), expected, "{:?}", text);
    }
}

#[test]
fn header_at_start_agrees_with_the_regex() {
    let re = Regex::new(r"(?s)^(block\s+([A-Za-z_][A-Za-z0-9_]*)\s*(?:requires\s*\[(.*?)\])?\s*\{)").unwrap();
    for text in SAMPLES {
        let expected = re.captures(text).map(|caps| {
            (
                chars(caps.get(2).unwrap().as_str()),
                caps.get(3).map(|m| chars(m.as_str())),
                char_pos(text, caps.get(0).unwrap().end()),
            )
        });
        assert_eq!(header_at(&chars(text), 0, true), expected, "{:?}", text);
    }
}

#[test]
fn list_items_agree_with_the_regex() {
    let re = Regex::new(r"([A-Za-z_][A-Za-z0-9_]*)(?:\s*\[\s*(.*?)\s*\])?").unwrap();
    let lists = [
        "abc[a, b, c], def[d]",
        "abc",
        "ghi[j, k]",
        " a [ x ] b[] 9c d[\n] e[ y\t]",
        "a[b]c]",
        "x[ a b ]",
        "é a",
    ];
    for list in lists {
        let expected: Vec<(Vec<char>, Option<Vec<char>>)> = re
            .captures_iter(list)
            .map(|caps| (chars(caps.get(1).unwrap().as_str()), caps.get(2).map(|m| chars(m.as_str()))))
            .collect();
        assert_eq!(list_items(&chars(list)), expected, "{:?}", list);
    }
}
