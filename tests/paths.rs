use offchain::ast::{OpCode, UntypedAst};
use offchain::mutation::{enum_nodes_dfs, get_subtree, get_subtree_size, replace_subtree};

fn lit(v: i32) -> UntypedAst {
    UntypedAst::IntLiteral(v)
}

fn sample() -> UntypedAst {
    UntypedAst::Sublist(vec![
        lit(1),
        UntypedAst::Sublist(vec![UntypedAst::Instruction(OpCode::Plus), lit(2)]),
    ])
}

#[test]
fn enumeration_is_preorder_with_root_first() {
    let paths = enum_nodes_dfs(&sample());
    let expected: Vec<Vec<usize>> = vec![vec![], vec![0], vec![1], vec![1, 0], vec![1, 1]];
    assert_eq!(paths, expected);
}

#[test]
fn enumeration_has_one_path_per_node() {
    let trees = vec![lit(4), UntypedAst::Sublist(vec![]), sample(), UntypedAst::Sublist(vec![sample(), sample(), lit(0)])];
    for t in &trees {
        assert_eq!(enum_nodes_dfs(t).len(), get_subtree_size(t));
    }
    assert_eq!(get_subtree_size(&sample()), 5);
    assert_eq!(get_subtree_size(&UntypedAst::Sublist(vec![])), 1);
}

#[test]
fn read_at_valid_path() {
    assert_eq!(get_subtree(&sample(), &[1, 0]), UntypedAst::Instruction(OpCode::Plus));
    assert_eq!(get_subtree(&sample(), &[]), sample());
}

#[test]
fn read_at_invalid_path_gives_whole_tree() {
    assert_eq!(get_subtree(&sample(), &[5]), sample());
    assert_eq!(get_subtree(&sample(), &[0, 0]), sample());
    assert_eq!(get_subtree(&sample(), &[1, 2]), sample());
}

#[test]
fn replace_at_root_gives_replacement() {
    let r = lit(42);
    assert_eq!(replace_subtree(&sample(), &[], r.clone()), r);
}

#[test]
fn read_after_write_every_path() {
    let t = sample();
    let r = UntypedAst::Sublist(vec![lit(9), lit(8)]);
    for p in enum_nodes_dfs(&t) {
        let written = replace_subtree(&t, &p, r.clone());
        assert_eq!(get_subtree(&written, &p), r);
    }
}

#[test]
fn replace_keeps_siblings() {
    let out = replace_subtree(&sample(), &[1, 1], lit(7));
    let expected = UntypedAst::Sublist(vec![
        lit(1),
        UntypedAst::Sublist(vec![UntypedAst::Instruction(OpCode::Plus), lit(7)]),
    ]);
    assert_eq!(out, expected);
}

#[test]
fn replace_at_invalid_path_leaves_tree() {
    assert_eq!(replace_subtree(&sample(), &[3], lit(7)), sample());
    assert_eq!(replace_subtree(&sample(), &[0, 1], lit(7)), sample());
}
