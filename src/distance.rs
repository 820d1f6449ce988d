//! Structural distance between programs, as exact rational contributions.
//!
//! The distance is `sum over terms of 0.8^depth * numerator / denominator`; the
//! terms are computed here exactly, and turned into a real number by the caller.
use vstd::prelude::*;
use crate::ast::{lemma_child_decreases, lemma_trees_of, trees_of, Tree, UntypedAst};

verus! {

/// One contribution to the distance: `0.8^depth * numerator / denominator`, a
/// fraction in `[0, 1)` (or exactly one for a full mismatch) at a given depth.
#[derive(Debug, Clone, Copy, PartialEq, Eq, Structural)]
pub struct DistanceTerm {
    pub depth: u64,
    pub numerator: u128,
    pub denominator: u128,
}

/// A term of the given depth and fraction.
pub open spec fn term(depth: u64, numerator: int, denominator: int) -> DistanceTerm {
    DistanceTerm { depth, numerator: numerator as u128, denominator: denominator as u128 }
}

/// The depth of a child, saturating.
pub open spec fn deeper(depth: u64) -> u64 {
    if depth == u64::MAX {
        depth
    } else {
        (depth + 1) as u64
    }
}

/// Absolute difference.
pub open spec fn diff(x: int, y: int) -> int {
    if x >= y {
        x - y
    } else {
        y - x
    }
}

/// The terms that compare `a` with `b` at `depth`, in preorder: two literals by
/// `|x - y| / (1 + |x - y|)`; two instructions by 0 when equal and 1 when not;
/// two blocks by `|la - lb| / (1 + max(la, lb))`, then their aligned children one
/// level deeper; nodes of different kinds by 1.
pub open spec fn terms(a: Tree, b: Tree, depth: u64) -> Seq<DistanceTerm>
    decreases a, 0int,
{
    match a {
        Tree::Lit(x) => match b {
            Tree::Lit(y) => seq![term(depth, diff(x as int, y as int), 1 + diff(x as int, y as int))],
            _ => seq![term(depth, 1, 1)],
        },
        Tree::Op(x) => match b {
            Tree::Op(y) => seq![if x == y { term(depth, 0, 1) } else { term(depth, 1, 1) }],
            _ => seq![term(depth, 1, 1)],
        },
        Tree::Block(xs) => match b {
            Tree::Block(ys) => {
                let hi = if xs.len() >= ys.len() { xs.len() } else { ys.len() };
                seq![term(depth, diff(xs.len() as int, ys.len() as int), (1 + hi) as int)] + aligned_terms(xs, ys, deeper(depth))
            },
            _ => seq![term(depth, 1, 1)],
        },
    }
}

/// The terms of the children at equal positions, over the common prefix.
pub open spec fn aligned_terms(xs: Seq<Tree>, ys: Seq<Tree>, depth: u64) -> Seq<DistanceTerm>
    decreases xs, 1int,
{
    if xs.len() == 0 || ys.len() == 0 {
        Seq::empty()
    } else {
        let n = if xs.len() <= ys.len() { xs.len() } else { ys.len() };
        aligned_terms(xs.subrange(0, n - 1), ys.subrange(0, n - 1), depth) + terms(xs[n - 1], ys[n - 1], depth)
    }
}


fn abs_diff(x: i64, y: i64) -> (r: u128)
    requires
        -0x1_0000_0000 <= x <= 0x1_0000_0000,
        -0x1_0000_0000 <= y <= 0x1_0000_0000,
    ensures
        r == diff(x as int, y as int),
{
    if x >= y {
        (x - y) as u128
    } else {
        (y - x) as u128
    }
}

fn push_terms(a: &UntypedAst, b: &UntypedAst, depth: u64, out: &mut Vec<DistanceTerm>)
    ensures
        final(out)@ == old(out)@ + terms(a@, b@, depth),
    decreases a,
{
    match (a, b) {
        (UntypedAst::IntLiteral(x), UntypedAst::IntLiteral(y)) => {
            let d = abs_diff(*x as i64, *y as i64);
            out.push(DistanceTerm { depth, numerator: d, denominator: d + 1 });
        },
        (UntypedAst::Instruction(x), UntypedAst::Instruction(y)) => {
            if *x == *y {
                out.push(DistanceTerm { depth, numerator: 0, denominator: 1 });
            } else {
                out.push(DistanceTerm { depth, numerator: 1, denominator: 1 });
            }
        },
        (UntypedAst::Sublist(xs), UntypedAst::Sublist(ys)) => {
            proof {
                lemma_trees_of(xs@);
                lemma_trees_of(ys@);
            }
            let hi: usize = if xs.len() >= ys.len() { xs.len() } else { ys.len() };
            let lo: usize = if xs.len() >= ys.len() { ys.len() } else { xs.len() };
            out.push(DistanceTerm { depth, numerator: (hi - lo) as u128, denominator: hi as u128 + 1 });
            let child_depth: u64 = if depth == u64::MAX { depth } else { depth + 1 };
            let ghost start = out@;
            let ghost txs = trees_of(xs@);
            let ghost tys = trees_of(ys@);
            let mut i: usize = 0;
            while i < lo
                invariant
                    i <= lo,
                    lo as int == if xs@.len() <= ys@.len() { xs@.len() as int } else { ys@.len() as int },
                    *a == UntypedAst::Sublist(*xs),
                    *b == UntypedAst::Sublist(*ys),
                    txs == trees_of(xs@),
                    tys == trees_of(ys@),
                    out@ == start + aligned_terms(txs.subrange(0, i as int), tys.subrange(0, i as int), child_depth),
                decreases lo - i,
            {
                proof {
                    lemma_trees_of(xs@);
                    lemma_trees_of(ys@);
                    lemma_child_decreases(*a, i as int);
                    let p = txs.subrange(0, i as int + 1);
                    let q = tys.subrange(0, i as int + 1);
                    assert(p.subrange(0, i as int) =~= txs.subrange(0, i as int));
                    assert(q.subrange(0, i as int) =~= tys.subrange(0, i as int));
                }
                let ghost mid = out@;
                push_terms(&xs[i], &ys[i], child_depth, out);
                proof {
                    assert(out@ =~= start + aligned_terms(txs.subrange(0, i as int + 1), tys.subrange(0, i as int + 1), child_depth));
                }
                i = i + 1;
            }
            proof {
                lemma_aligned_prefix(txs, tys, child_depth);
            }
        },
        _ => {
            out.push(DistanceTerm { depth, numerator: 1, denominator: 1 });
        },
    }
}

/// Aligned terms only look at the common prefix.
pub proof fn lemma_aligned_prefix(xs: Seq<Tree>, ys: Seq<Tree>, depth: u64)
    ensures
        ({
            let n = if xs.len() <= ys.len() { xs.len() as int } else { ys.len() as int };
            aligned_terms(xs, ys, depth) == aligned_terms(xs.subrange(0, n), ys.subrange(0, n), depth)
        }),
{
    let n = if xs.len() <= ys.len() { xs.len() as int } else { ys.len() as int };
    let p = xs.subrange(0, n);
    let q = ys.subrange(0, n);
    if n > 0 {
        assert(p.subrange(0, n - 1) =~= xs.subrange(0, n - 1));
        assert(q.subrange(0, n - 1) =~= ys.subrange(0, n - 1));
    }
}

/// The terms of the structural distance from `a` to `b`, starting at depth zero.
pub fn structural_distance_terms(a: &UntypedAst, b: &UntypedAst) -> (r: Vec<DistanceTerm>)
    ensures
        r@ == terms(a@, b@, 0),
{
    let mut out: Vec<DistanceTerm> = Vec::new();
    push_terms(a, b, 0, &mut out);
    assert(out@ =~= terms(a@, b@, 0));
    out
}


/// Every term contributes nothing: the distance these terms add up to is zero.
pub open spec fn all_zero(s: Seq<DistanceTerm>) -> bool {
    forall|i: int| 0 <= i < s.len() ==> #[trigger] s[i].numerator == 0
}

proof fn lemma_terms_symmetric(a: Tree, b: Tree, depth: u64)
    ensures
        terms(a, b, depth) == terms(b, a, depth),
    decreases a, 0int,
{
    if let Tree::Block(xs) = a {
        if let Tree::Block(ys) = b {
            lemma_aligned_symmetric(xs, ys, deeper(depth));
        }
    }
}

proof fn lemma_aligned_symmetric(xs: Seq<Tree>, ys: Seq<Tree>, depth: u64)
    ensures
        aligned_terms(xs, ys, depth) == aligned_terms(ys, xs, depth),
    decreases xs, 1int,
{
    if xs.len() > 0 && ys.len() > 0 {
        let n = if xs.len() <= ys.len() { xs.len() } else { ys.len() };
        lemma_aligned_symmetric(xs.subrange(0, n - 1), ys.subrange(0, n - 1), depth);
        lemma_terms_symmetric(xs[n - 1], ys[n - 1], depth);
    }
}

proof fn lemma_terms_self(a: Tree, depth: u64)
    ensures
        all_zero(terms(a, a, depth)),
    decreases a, 0int,
{
    if let Tree::Block(xs) = a {
        lemma_aligned_self(xs, deeper(depth));
        let hi = xs.len();
        let s = terms(a, a, depth);
        assert(s == seq![term(depth, 0, (1 + hi) as int)] + aligned_terms(xs, xs, deeper(depth)));
        assert forall|i: int| 0 <= i < s.len() implies #[trigger] s[i].numerator == 0 by {
            if i > 0 {
                assert(s[i] == aligned_terms(xs, xs, deeper(depth))[i - 1]);
            }
        }
    }
}

proof fn lemma_aligned_self(xs: Seq<Tree>, depth: u64)
    ensures
        all_zero(aligned_terms(xs, xs, depth)),
    decreases xs, 1int,
{
    if xs.len() > 0 {
        let n = xs.len();
        let pre = xs.subrange(0, n - 1);
        lemma_aligned_self(pre, depth);
        lemma_terms_self(xs[n - 1], depth);
        let l = aligned_terms(pre, pre, depth);
        let r = terms(xs[n - 1], xs[n - 1], depth);
        let s = aligned_terms(xs, xs, depth);
        assert(s == l + r);
        assert forall|i: int| 0 <= i < s.len() implies #[trigger] s[i].numerator == 0 by {
            if i < l.len() {
                assert(s[i] == l[i]);
            } else {
                assert(s[i] == r[i - l.len()]);
            }
        }
    }
}

/// The structural distance is symmetric: comparing `b` with `a` gives the same
/// terms, in the same order, as comparing `a` with `b`.
pub proof fn lemma_distance_symmetric(a: UntypedAst, b: UntypedAst)
    ensures
        terms(a@, b@, 0) == terms(b@, a@, 0),
{
    lemma_terms_symmetric(a@, b@, 0);
}

/// A program is at distance zero from itself: every term has numerator zero.
pub proof fn lemma_distance_to_self(a: UntypedAst)
    ensures
        all_zero(terms(a@, a@, 0)),
{
    lemma_terms_self(a@, 0);
}

} // verus!
