use sarateese::dag::{build_children_map, build_dag, check_requirements, dag_lines, insert_block, schedule, sort_ids, DagError};
use sarateese::token_block::TokenBlock;
use std::collections::VecDeque;

fn block(id: &str, requires: &[&str]) -> TokenBlock {
    TokenBlock::new(
        id.to_string(),
        requires.iter().map(|r| (r.to_string(), Vec::new())).collect(),
        VecDeque::new(),
    )
}

#[test]
fn test_build_and_print_dag() {
    let block1 = block("1", &[]);
    let block2 = block("2", &[]);
    let block3 = block("3", &[]);
    let block4 = block("4", &["1"]);
    let mut token_blocks = Vec::new();
    for b in vec![block1, block2, block3, block4] {
        assert!(insert_block(&mut token_blocks, b));
    }
    let dag = build_dag(token_blocks);
    assert_eq!(dag.len(), 4);
    assert!(dag.iter().any(|b| b.id == "1"));
    assert!(dag.iter().any(|b| b.id == "2"));
    assert!(dag.iter().any(|b| b.id == "3"));
    assert!(dag.iter().any(|b| b.id == "4"));
    let lines = dag_lines(&dag);
    assert_eq!(
        lines,
        vec![
            "\x1b[32mDAG:\x1b[0m ".to_string(),
            "\x1b[32mBlock 1\x1b[0m".to_string(),
            "└── Block 4\x1b[0m".to_string(),
            "\x1b[32mBlock 2\x1b[0m".to_string(),
            "\x1b[32mBlock 3\x1b[0m".to_string(),
        ]
    );
}

#[test]
fn insert_block_refuses_duplicate_id() {
    let mut blocks = Vec::new();
    assert!(insert_block(&mut blocks, block("a", &[])));
    assert!(!insert_block(&mut blocks, block("a", &["b"])));
    assert_eq!(blocks.len(), 1);
    assert!(blocks[0].requirements.is_empty());
}

#[test]
fn build_dag_reports_missing_block() {
    let blocks = vec![block("a", &[]), block("b", &["a", "zzz"])];
    match check_requirements(&blocks) {
        Err(DagError::MissingBlock { block, required }) => {
            assert_eq!(block, "b");
            assert_eq!(required, "zzz");
        }
        Ok(()) => panic!("a missing block was accepted"),
    }
    assert!(check_requirements(&vec![block("a", &[]), block("b", &["a"])]).is_ok());
}

#[test]
fn children_map_lists_requiring_blocks() {
    let dag = vec![block("a", &[]), block("b", &["a"]), block("c", &["a", "b"])];
    let children = build_children_map(&dag);
    assert_eq!(children.len(), 3);
    assert_eq!(children[0], ("a".to_string(), vec!["b".to_string(), "c".to_string()]));
    assert_eq!(children[1], ("b".to_string(), vec!["c".to_string()]));
    assert_eq!(children[2], ("c".to_string(), Vec::<String>::new()));
}

#[test]
fn schedule_runs_requirements_first() {
    let dag = vec![block("c", &["a", "b"]), block("a", &[]), block("b", &["a"]), block("d", &[])];
    let (rounds, stuck) = schedule(&dag);
    assert!(!stuck);
    assert_eq!(rounds, vec![vec![1, 3], vec![2], vec![0]]);
}

#[test]
fn schedule_detects_cycle() {
    let dag = vec![block("a", &[]), block("b", &["c"]), block("c", &["b"])];
    let (rounds, stuck) = schedule(&dag);
    assert!(stuck);
    assert_eq!(rounds, vec![vec![0]]);
}

#[test]
fn schedule_of_nothing() {
    let (rounds, stuck) = schedule(&Vec::new());
    assert!(!stuck);
    assert!(rounds.is_empty());
}

#[test]
fn dag_drawing_nests_and_draws_shared_blocks_once() {
    let dag = build_dag(vec![
        block("top", &[]),
        block("left", &["top"]),
        block("right", &["top"]),
        block("bottom", &["left", "right"]),
        block("leaf", &["bottom"]),
    ]);
    assert_eq!(
        dag_lines(&dag),
        vec![
            "\x1b[32mDAG:\x1b[0m ".to_string(),
            "\x1b[32mBlock top\x1b[0m".to_string(),
            "├── Block left\x1b[0m".to_string(),
            "│   └── Block bottom\x1b[0m".to_string(),
            "│       └── Block leaf\x1b[0m".to_string(),
            "└── Block right\x1b[0m".to_string(),
            "    └── Block bottom\x1b[0m".to_string(),
        ]
    );
}

#[test]
fn dag_drawing_of_a_cycle_starts_from_every_block() {
    let dag = build_dag(vec![block("b", &["a"]), block("a", &["b"])]);
    assert_eq!(
        dag_lines(&dag),
        vec![
            "\x1b[32mDAG:\x1b[0m ".to_string(),
            "\x1b[32mBlock a\x1b[0m".to_string(),
            "└── Block b\x1b[0m".to_string(),
            "    └── Block a\x1b[0m".to_string(),
            "\x1b[32mBlock b\x1b[0m".to_string(),
        ]
    );
}

#[test]
fn ids_sort_like_strings() {
    let ids = vec!["b".to_string(), "ab".to_string(), "a".to_string(), "B".to_string(), "a".to_string()];
    let mut expected = ids.clone();
    expected.sort();
    assert_eq!(sort_ids(&ids), expected);
}
