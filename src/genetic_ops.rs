//! Recursive, depth-aware mutation.
use vstd::prelude::*;
use rand::rngs::StdRng;
use crate::ast::{lemma_trees_of, trees_of, Tree, UntypedAst};
use crate::generate::{generated, height, lemma_height_all, levels_left, random_ast, random_opcode};
use crate::mutation::{base_op, larger, saturating_shift};
use crate::random::{index_below, int_between, trial};

verus! {

/// `c` agrees with `ch` at every position but `i` and `j`.
pub open spec fn same_except(c: Seq<Tree>, ch: Seq<Tree>, i: int, j: int) -> bool {
    forall|k: int| 0 <= k < ch.len() && k != i && k != j ==> #[trigger] c[k] == ch[k]
}

/// `r` keeps the kind of `t` with a small change: a literal moves by at most two,
/// an instruction stays or becomes a basic operation, and a block keeps its
/// length with at most two children changed.
pub open spec fn mutated_in_place(t: Tree, r: Tree) -> bool {
    match t {
        Tree::Lit(v) => r matches Tree::Lit(w) && v - 2 <= w <= v + 2,
        Tree::Op(op) => r matches Tree::Op(op2) && (op2 == op || base_op(op2)),
        Tree::Block(ch) => r matches Tree::Block(c) && c.len() == ch.len() && exists|i: int, j: int|
            #[trigger] same_except(c, ch, i, j),
    }
}

/// A mutated copy of `original`, which is left as it is. At each node there is a
/// one-in-ten chance to put a fresh `random_ast` in its place; otherwise a literal
/// moves by at most two (saturating), an instruction becomes a random basic
/// operation half of the time, and a non-empty block has one or two randomly
/// chosen children mutated one level deeper. The result is never deeper than the
/// original or than the levels left before `max_depth`.
pub fn mutated_ast(original: &UntypedAst, rng: &mut StdRng, depth: usize, max_depth: usize) -> (r: UntypedAst)
    ensures
        height(r@) <= larger(height(original@) as int, levels_left(depth, max_depth) as int),
        generated(r@, depth as int, max_depth as int) || mutated_in_place(original@, r@),
    decreases larger(height(original@) as int, levels_left(depth, max_depth) as int),
{
    if index_below(rng, 100) < 10 {
        return random_ast(rng, depth, max_depth);
    }
    match original {
        UntypedAst::IntLiteral(val) => {
            if index_below(rng, 100) < 10 {
                return random_ast(rng, depth, max_depth);
            }
            let delta = int_between(rng, -2, 3);
            UntypedAst::IntLiteral(saturating_shift(*val, delta))
        },
        UntypedAst::Instruction(op) => {
            if index_below(rng, 100) < 10 {
                return random_ast(rng, depth, max_depth);
            }
            if trial(rng, 1, 2) {
                UntypedAst::Instruction(random_opcode(rng))
            } else {
                UntypedAst::Instruction(*op)
            }
        },
        UntypedAst::Sublist(children) => {
            if index_below(rng, 100) < 10 {
                return random_ast(rng, depth, max_depth);
            }
            let ghost ts = trees_of(children@);
            let child_depth: usize = if depth == usize::MAX { depth } else { depth + 1 };
            let ghost below = levels_left(child_depth, max_depth);
            proof {
                lemma_trees_of(children@);
                lemma_height_all(ts, 0);
            }
            let mut new_children: Vec<UntypedAst> = Vec::with_capacity(children.len());
            let mut i: usize = 0;
            while i < children.len()
                invariant
                    i <= children.len(),
                    new_children@.len() == i,
                    forall|k: int| 0 <= k < i ==> #[trigger] new_children@[k]@ == children@[k]@,
                decreases children.len() - i,
            {
                new_children.push(children[i].duplicate());
                i = i + 1;
            }
            let ghost mut first: int = -1;
            let ghost mut second: int = -1;
            proof {
                lemma_trees_of(children@);
                lemma_trees_of(new_children@);
                assert(same_except(trees_of(new_children@), ts, first, second));
            }
            if new_children.len() > 0 {
                let cap: usize = if new_children.len() < 2 { new_children.len() } else { 2 };
                let mut_count = 1 + index_below(rng, cap);
                let mut n: usize = 0;
                while n < mut_count
                    invariant
                        mut_count <= 2,
                        n <= mut_count,
                        n <= 1 ==> second == -1,
                        n == 0 ==> first == -1,
                        same_except(trees_of(new_children@), ts, first, second),
                        new_children@.len() > 0,
                        child_depth == (if depth == usize::MAX { depth } else { (depth + 1) as usize }),
                        *original == UntypedAst::Sublist(*children),
                        ts == trees_of(children@),
                        ts.len() == children@.len(),
                        new_children@.len() == children@.len(),
                        original@ == Tree::Block(ts),
                        height(original@) == 1 + crate::generate::height_all(ts),
                        forall|k: int| 0 <= k < ts.len() ==> height(#[trigger] ts[k]) <= crate::generate::height_all(ts),
                        below == levels_left(child_depth, max_depth),
                        forall|k: int| 0 <= k < new_children@.len() ==> height(#[trigger] new_children@[k]@) <= larger(height(ts[k]) as int, below as int),
                    decreases mut_count - n,
                {
                    let idx = index_below(rng, new_children.len());
                    let m = mutated_ast(&new_children[idx], rng, child_depth, max_depth);
                    let ghost before = new_children@;
                    new_children[idx] = m;
                    proof {
                        let old_first = first;
                        let old_second = second;
                        assert(same_except(trees_of(before), ts, old_first, old_second));
                        if n == 0 {
                            first = idx as int;
                        } else {
                            second = idx as int;
                        }
                        lemma_trees_of(before);
                        lemma_trees_of(new_children@);
                        let c = trees_of(new_children@);
                        assert forall|k: int| 0 <= k < ts.len() && k != first && k != second implies #[trigger] c[k] == ts[k] by {
                            assert(new_children@[k] == before[k]);
                            assert(k != old_first && k != old_second);
                            assert(trees_of(before)[k] == ts[k]);
                        }
                    }
                    n = n + 1;
                }
            }
            proof {
                lemma_trees_of(new_children@);
                let ns = trees_of(new_children@);
                let bound = larger(crate::generate::height_all(ts) as int, below as int) as nat;
                assert forall|k: int| 0 <= k < ns.len() implies height(#[trigger] ns[k]) <= bound by {
                    assert(ns[k] == new_children@[k]@);
                }
                lemma_height_all(ns, bound);
                assert(same_except(ns, ts, first, second));
            }
            UntypedAst::Sublist(new_children)
        },
    }
}

} // verus!
