use offchain::ast::{OpCode, UntypedAst};
use offchain::distance::{structural_distance_terms, DistanceTerm};

fn lit(v: i32) -> UntypedAst {
    UntypedAst::IntLiteral(v)
}

fn op(o: OpCode) -> UntypedAst {
    UntypedAst::Instruction(o)
}

fn list(children: Vec<UntypedAst>) -> UntypedAst {
    UntypedAst::Sublist(children)
}

fn value(terms: &[DistanceTerm]) -> f64 {
    terms.iter().map(|t| 0.8f64.powi(t.depth as i32) * t.numerator as f64 / t.denominator as f64).sum()
}

#[test]
fn identical_trees_are_at_distance_zero() {
    let a = list(vec![lit(3), op(OpCode::Plus)]);
    let b = list(vec![lit(3), op(OpCode::Plus)]);
    let terms = structural_distance_terms(&a, &b);
    assert!(terms.iter().all(|t| t.numerator == 0));
    assert_eq!(value(&terms), 0.0);
}

#[test]
fn distance_is_symmetric_on_examples() {
    let a = list(vec![lit(3), list(vec![op(OpCode::Plus), lit(-8)]), op(OpCode::Dup)]);
    let b = list(vec![lit(9), list(vec![op(OpCode::Minus)])]);
    assert_eq!(structural_distance_terms(&a, &b), structural_distance_terms(&b, &a));
    assert_eq!(structural_distance_terms(&a, &lit(1)), structural_distance_terms(&lit(1), &a));
}

#[test]
fn literal_pair_term() {
    let t = structural_distance_terms(&lit(3), &lit(7));
    assert_eq!(t, vec![DistanceTerm { depth: 0, numerator: 4, denominator: 5 }]);
    let t = structural_distance_terms(&lit(i32::MIN), &lit(i32::MAX));
    assert_eq!(t[0].numerator, 4294967295);
}

#[test]
fn mismatched_kinds_cost_full_weight() {
    let t = structural_distance_terms(&lit(3), &op(OpCode::Plus));
    assert_eq!(t, vec![DistanceTerm { depth: 0, numerator: 1, denominator: 1 }]);
    let t = structural_distance_terms(&op(OpCode::Plus), &op(OpCode::Minus));
    assert_eq!(t, vec![DistanceTerm { depth: 0, numerator: 1, denominator: 1 }]);
}

#[test]
fn block_length_penalty_and_aligned_children() {
    let a = list(vec![lit(1), lit(2), lit(3)]);
    let b = list(vec![lit(1)]);
    let t = structural_distance_terms(&a, &b);
    assert_eq!(
        t,
        vec![
            DistanceTerm { depth: 0, numerator: 2, denominator: 4 },
            DistanceTerm { depth: 1, numerator: 0, denominator: 1 },
        ]
    );
    assert!((value(&t) - 0.5).abs() < 1e-12);
}
