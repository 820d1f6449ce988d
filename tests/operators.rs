use offchain::ast::{OpCode, UntypedAst};
use offchain::generate::{random_ast, random_opcode, random_sublist_ast};
use offchain::generate_spec::{decompose, random_code, random_code_with_size, ranmdom_code_fixed, InstructionAtom, InstructionSet};
use offchain::genetic_ops::mutated_ast;
use offchain::local_mutation::{local_mutation, local_mutation_fixed};
use offchain::mutation::{
    closest_size_pair, crossover_by_index, enum_nodes_dfs, get_subtree, get_subtree_size, mutate_by_index, mutate_subtree, point_mutate,
    saturating_shift, shrink_ast, size_aware_crossover, size_limited_mutate, size_up_to,
};
use offchain::random::Probability;
use offchain::samples::{generate_samples, TargetFunction};
use rand::rngs::StdRng;
use rand::SeedableRng;

fn lit(v: i32) -> UntypedAst {
    UntypedAst::IntLiteral(v)
}

fn op(o: OpCode) -> UntypedAst {
    UntypedAst::Instruction(o)
}

fn list(children: Vec<UntypedAst>) -> UntypedAst {
    UntypedAst::Sublist(children)
}

fn height(t: &UntypedAst) -> usize {
    match t {
        UntypedAst::Sublist(ch) => 1 + ch.iter().map(height).max().unwrap_or(0),
        _ => 0,
    }
}

#[test]
fn generated_size_equals_budget() {
    let set = InstructionSet::new_default();
    for seed in 0..20u64 {
        let mut rng = StdRng::seed_from_u64(seed);
        for points in 1..40usize {
            let t = random_code_with_size(&mut rng, &set, points);
            assert_eq!(get_subtree_size(&t), points);
        }
    }
}

#[test]
fn random_code_stays_within_budget() {
    let mut rng = StdRng::seed_from_u64(7);
    for _ in 0..200 {
        let t = ranmdom_code_fixed(&mut rng, 15);
        let n = get_subtree_size(&t);
        assert!(1 <= n && n <= 15);
    }
    let set = InstructionSet { atoms: vec![InstructionAtom::EphemeralInt] };
    for _ in 0..50 {
        let t = random_code(&mut rng, &set, 1);
        match t {
            UntypedAst::IntLiteral(v) => assert!(-30 <= v && v < 30),
            _ => panic!("a one-point program is a single atom"),
        }
    }
}

#[test]
fn budget_one_is_a_deterministic_single_terminal() {
    let mut a = StdRng::seed_from_u64(1234);
    let mut b = StdRng::seed_from_u64(1234);
    let x = ranmdom_code_fixed(&mut a, 1);
    let y = ranmdom_code_fixed(&mut b, 1);
    assert_eq!(x, y);
    assert_eq!(get_subtree_size(&x), 1);
    assert!(!matches!(x, UntypedAst::Sublist(_)));
}

#[test]
fn decompose_parts_are_positive_and_add_up() {
    let mut rng = StdRng::seed_from_u64(3);
    for number in 1..50usize {
        let parts = decompose(&mut rng, number, number);
        assert!(parts.iter().all(|&p| p >= 1));
        assert_eq!(parts.iter().sum::<usize>(), number);
    }
    assert_eq!(decompose(&mut rng, 9, 1), vec![9]);
}

#[test]
fn default_instruction_set_has_every_opcode_and_ephemeral() {
    let set = InstructionSet::new_default();
    assert_eq!(set.atoms.len(), 26);
    assert_eq!(set.atoms[0], InstructionAtom::Opcode(OpCode::Noop));
    assert_eq!(set.atoms[24], InstructionAtom::Opcode(OpCode::IfElse));
    assert_eq!(set.atoms[25], InstructionAtom::EphemeralInt);
}

#[test]
fn point_mutation_at_rate_zero_is_identity() {
    let t = list(vec![lit(3), op(OpCode::Plus), list(vec![lit(-2), op(OpCode::Sqrt)]), list(vec![])]);
    let mut rng = StdRng::seed_from_u64(99);
    for _ in 0..20 {
        assert_eq!(point_mutate(&t, &mut rng, Probability::never()), t);
    }
}

#[test]
fn point_mutation_at_full_rate_changes_leaves_within_bounds() {
    let t = list(vec![lit(100), op(OpCode::Sin)]);
    let mut rng = StdRng::seed_from_u64(5);
    let always = Probability::new(1, 1).unwrap();
    for _ in 0..50 {
        match point_mutate(&t, &mut rng, always) {
            UntypedAst::Sublist(ch) => {
                assert!(ch.len() >= 1 && ch.len() <= 3);
                for c in &ch {
                    match c {
                        UntypedAst::IntLiteral(v) => assert!((90..=110).contains(v) || (-10..=10).contains(v)),
                        UntypedAst::Instruction(_) => {}
                        UntypedAst::Sublist(_) => panic!("no block is inserted"),
                    }
                }
            }
            _ => panic!("a block stays a block"),
        }
    }
    assert!(Probability::new(3, 2).is_none());
    assert!(Probability::new(1, 0).is_none());
}

#[test]
fn shrink_leaves_single_child_block_unchanged() {
    let t = list(vec![lit(1)]);
    let mut rng = StdRng::seed_from_u64(0);
    assert_eq!(shrink_ast(&t, &mut rng, 0), t);
    let leaf = lit(5);
    assert_eq!(shrink_ast(&leaf, &mut rng, 0), leaf);
}

#[test]
fn shrink_reaches_target_or_one_child() {
    let t = list(vec![lit(1), lit(2), lit(3), lit(4), lit(5), lit(6)]);
    let mut rng = StdRng::seed_from_u64(11);
    let s = shrink_ast(&t, &mut rng, 4);
    assert_eq!(get_subtree_size(&s), 4);
    let s = shrink_ast(&t, &mut rng, 0);
    assert_eq!(get_subtree_size(&s), 2);
}

#[test]
fn closest_pair_is_first_with_least_ratio() {
    assert_eq!(closest_size_pair(&vec![5, 1, 3], &vec![2, 4]), Some((0, 1)));
    assert_eq!(closest_size_pair(&vec![2, 4], &vec![4, 2]), Some((0, 1)));
    assert_eq!(closest_size_pair(&vec![0, 0], &vec![3]), None);
    assert_eq!(closest_size_pair(&vec![], &vec![3]), None);
}

#[test]
fn size_aware_crossover_picks_least_ratio_pair() {
    let a = list(vec![list(vec![lit(1), lit(2), lit(3)]), lit(4)]);
    let b = list(vec![lit(5), list(vec![lit(6), lit(7)])]);
    let pa = enum_nodes_dfs(&a);
    let pb = enum_nodes_dfs(&b);
    let sa: Vec<usize> = pa.iter().map(|p| get_subtree_size(&get_subtree(&a, p))).collect();
    let sb: Vec<usize> = pb.iter().map(|p| get_subtree_size(&get_subtree(&b, p))).collect();
    let mut best = (0usize, 0usize);
    let mut best_ratio = f64::INFINITY;
    for (i, &x) in sa.iter().enumerate() {
        for (j, &y) in sb.iter().enumerate() {
            let r = if x >= y { x as f64 / y as f64 } else { y as f64 / x as f64 };
            if r < best_ratio {
                best_ratio = r;
                best = (i, j);
            }
        }
    }
    let mut rng = StdRng::seed_from_u64(0);
    let (na, nb) = size_aware_crossover(&a, &b, &mut rng);
    let sub_a = get_subtree(&a, &pa[best.0]);
    let sub_b = get_subtree(&b, &pb[best.1]);
    assert_eq!(na, offchain::mutation::replace_subtree(&a, &pa[best.0], sub_b));
    assert_eq!(nb, offchain::mutation::replace_subtree(&b, &pb[best.1], sub_a));
    assert_ne!(na, a);
}

#[test]
fn basic_crossover_can_change_total_sizes() {
    let a = list(vec![list(vec![lit(1), lit(2), lit(3)]), lit(4)]);
    let b = list(vec![lit(5), lit(6)]);
    let before = (get_subtree_size(&a), get_subtree_size(&b));
    let mut changed = false;
    for seed in 0..64u64 {
        let mut rng = StdRng::seed_from_u64(seed);
        let (x, y) = crossover_by_index(&a, &b, &mut rng);
        assert_eq!(get_subtree_size(&x) + get_subtree_size(&y), before.0 + before.1);
        if (get_subtree_size(&x), get_subtree_size(&y)) != before {
            changed = true;
        }
    }
    assert!(changed);
}

#[test]
fn subtree_mutation_respects_budget() {
    let t = list(vec![lit(1), list(vec![lit(2), op(OpCode::Dup)])]);
    let mut rng = StdRng::seed_from_u64(21);
    for _ in 0..100 {
        let m = mutate_by_index(&t, &mut rng, 3);
        assert!(get_subtree_size(&m) <= get_subtree_size(&t) - 1 + 3);
    }
}

#[test]
fn size_limited_mutation_shrinks_oversized_input() {
    let t = list((0..10).map(lit).collect());
    let mut rng = StdRng::seed_from_u64(8);
    let m = size_limited_mutate(&t, &mut rng, 5, 4);
    assert_eq!(get_subtree_size(&m), 4);
    let small = list(vec![lit(1), lit(2)]);
    for _ in 0..50 {
        let m = size_limited_mutate(&small, &mut rng, 5, 6);
        assert!(get_subtree_size(&m) <= 6 || get_subtree_size(&m) <= 4);
    }
}

#[test]
fn size_up_to_stops_at_limit() {
    let t = list(vec![lit(1), lit(2), lit(3)]);
    assert_eq!(size_up_to(&t, 4), Some(4));
    assert_eq!(size_up_to(&t, 3), None);
    assert_eq!(size_up_to(&lit(1), 0), None);
}

#[test]
fn saturating_shift_clamps() {
    assert_eq!(saturating_shift(i32::MAX, 5), i32::MAX);
    assert_eq!(saturating_shift(i32::MIN, -5), i32::MIN);
    assert_eq!(saturating_shift(10, -3), 7);
}

#[test]
fn depth_bounded_generation() {
    let mut rng = StdRng::seed_from_u64(4);
    for _ in 0..100 {
        assert!(height(&random_ast(&mut rng, 0, 3)) <= 3);
        assert_eq!(height(&random_ast(&mut rng, 5, 3)), 0);
        let s = random_sublist_ast(&mut rng, 3);
        match &s {
            UntypedAst::Sublist(ch) => assert!(!ch.is_empty() && ch.len() <= 3),
            _ => panic!("a sublist is a block"),
        }
        let o = random_opcode(&mut rng);
        assert!(matches!(o, OpCode::Noop | OpCode::Plus | OpCode::Minus | OpCode::Mult | OpCode::Dup | OpCode::Pop));
    }
}

#[test]
fn recursive_mutation_keeps_depth_bound() {
    let t = list(vec![lit(1), list(vec![lit(2), list(vec![op(OpCode::Pow)])])]);
    let mut rng = StdRng::seed_from_u64(17);
    for _ in 0..100 {
        let m = mutated_ast(&t, &mut rng, 0, 2);
        assert!(height(&m) <= 3);
    }
}

#[test]
fn local_mutation_edits_one_node() {
    let t = list(vec![lit(10), op(OpCode::Plus)]);
    let mut rng = StdRng::seed_from_u64(2);
    let set = InstructionSet { atoms: vec![InstructionAtom::Opcode(OpCode::Minus)] };
    for _ in 0..50 {
        let m = local_mutation(&t, &mut rng, &set);
        let n = get_subtree_size(&m);
        assert!(n >= 2 && n <= 4);
        let f = local_mutation_fixed(&t, &mut rng);
        assert!(get_subtree_size(&f) <= 4);
    }
}

#[test]
fn samples_of_both_targets() {
    let q = generate_samples(TargetFunction::Quadratic);
    assert_eq!(q.len(), 11);
    assert_eq!(q[0], (-5, 73));
    assert_eq!(q[5], (0, 3));
    assert_eq!(q[10], (5, 83));
    let c = generate_samples(TargetFunction::Cubic);
    assert_eq!(c.len(), 21);
    assert_eq!(c[0], (-10, -1225));
    assert_eq!(c[10], (0, 5));
    assert_eq!(c[20], (10, 835));
}

#[test]
fn subtree_mutation_can_spare_the_root() {
    let t = list(vec![lit(1), lit(2)]);
    let mut rng = StdRng::seed_from_u64(13);
    for _ in 0..100 {
        match mutate_subtree(&t, &mut rng, 4, false) {
            UntypedAst::Sublist(ch) => assert_eq!(ch.len(), 2),
            other => panic!("the root was replaced: {:?}", other),
        }
    }
    let leaf = lit(3);
    let m = mutate_subtree(&leaf, &mut rng, 1, false);
    assert_eq!(get_subtree_size(&m), 1);
}

fn all_ops_basic(t: &UntypedAst) -> bool {
    match t {
        UntypedAst::Instruction(o) => {
            matches!(o, OpCode::Noop | OpCode::Plus | OpCode::Minus | OpCode::Mult | OpCode::Dup | OpCode::Pop)
        }
        UntypedAst::IntLiteral(_) => true,
        UntypedAst::Sublist(ch) => ch.iter().all(all_ops_basic),
    }
}

fn blocks_nonempty(t: &UntypedAst) -> bool {
    match t {
        UntypedAst::Sublist(ch) => !ch.is_empty() && ch.iter().all(blocks_nonempty),
        _ => true,
    }
}

#[test]
fn point_mutation_at_rate_one_redraws_every_instruction() {
    let t = list(vec![op(OpCode::Sin), list(vec![op(OpCode::IfElse), lit(4)]), op(OpCode::ConstPi)]);
    let mut rng = StdRng::seed_from_u64(31);
    let always = Probability::new(7, 7).unwrap();
    for _ in 0..50 {
        assert!(all_ops_basic(&point_mutate(&t, &mut rng, always)));
    }
}

#[test]
fn decompose_splits_when_it_can() {
    let mut rng = StdRng::seed_from_u64(6);
    for number in 2..40usize {
        let parts = decompose(&mut rng, number, number);
        assert!(parts.len() >= 2);
        assert!(parts[0] >= 1 && parts[0] < number);
    }
}

#[test]
fn shrink_keeps_remaining_children_in_order() {
    let t = list((0..12).map(lit).collect());
    for seed in 0..20u64 {
        let mut rng = StdRng::seed_from_u64(seed);
        match shrink_ast(&t, &mut rng, 5) {
            UntypedAst::Sublist(ch) => {
                let vals: Vec<i32> = ch
                    .iter()
                    .map(|c| match c {
                        UntypedAst::IntLiteral(v) => *v,
                        _ => panic!("only literals were present"),
                    })
                    .collect();
                assert_eq!(vals.len(), 4);
                assert!(vals.windows(2).all(|w| w[0] < w[1]));
            }
            _ => panic!("a block stays a block"),
        }
    }
}

#[test]
fn generated_blocks_are_never_empty() {
    let mut rng = StdRng::seed_from_u64(12);
    for _ in 0..200 {
        assert!(blocks_nonempty(&ranmdom_code_fixed(&mut rng, 25)));
    }
}

#[test]
fn size_aware_crossover_preserves_sizes() {
    let a = list(vec![list(vec![lit(1), lit(2), lit(3)]), lit(4)]);
    let b = list(vec![lit(5), list(vec![lit(6), lit(7)])]);
    let mut rng = StdRng::seed_from_u64(0);
    let (x, y) = size_aware_crossover(&a, &b, &mut rng);
    assert_eq!(get_subtree_size(&x), get_subtree_size(&a));
    assert_eq!(get_subtree_size(&y), get_subtree_size(&b));
}

#[test]
fn recursive_mutation_changes_little_in_place() {
    let t = list(vec![lit(1), lit(2), lit(3), lit(4), lit(5)]);
    let mut rng = StdRng::seed_from_u64(40);
    for _ in 0..100 {
        if let UntypedAst::Sublist(ch) = mutated_ast(&t, &mut rng, 0, 1) {
            if ch.len() == 5 {
                let original = [1, 2, 3, 4, 5];
                let changed = ch.iter().zip(original.iter()).filter(|(c, v)| **c != lit(**v)).count();
                assert!(changed <= 2);
            }
        }
    }
}
