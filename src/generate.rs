//! Depth-bounded random program generation.
use vstd::prelude::*;
use rand::rngs::StdRng;
use crate::ast::{lemma_trees_of, trees_of, OpCode, Tree, UntypedAst};
use crate::mutation::{base_op, basic_op};
use crate::random::{index_below, int_between};

verus! {

/// Nesting depth of a tree: zero for a leaf, one more than its deepest child for a block.
pub open spec fn height(t: Tree) -> nat
    decreases t, 0int,
{
    match t {
        Tree::Block(ch) => 1 + height_all(ch),
        _ => 0,
    }
}

/// The greatest height in a sequence of trees; zero when it is empty.
pub open spec fn height_all(s: Seq<Tree>) -> nat
    decreases s, 1int,
{
    if s.len() == 0 {
        0
    } else {
        let h = height(s[s.len() - 1]);
        let rest = height_all(s.subrange(0, s.len() - 1));
        if h >= rest {
            h
        } else {
            rest
        }
    }
}

/// The levels left below `depth` before `max_depth` is reached.
pub open spec fn levels_left(depth: usize, max_depth: usize) -> nat {
    if depth >= max_depth {
        0
    } else {
        (max_depth - depth) as nat
    }
}

/// The greatest height is at least that of each tree, and is reached by one
/// unless the sequence is empty.
pub proof fn lemma_height_all(s: Seq<Tree>, bound: nat)
    ensures
        forall|i: int| 0 <= i < s.len() ==> height(#[trigger] s[i]) <= height_all(s),
        (forall|i: int| 0 <= i < s.len() ==> height(#[trigger] s[i]) <= bound) ==> height_all(s) <= bound,
    decreases s.len(),
{
    if s.len() > 0 {
        let pre = s.subrange(0, s.len() - 1);
        lemma_height_all(pre, bound);
        assert forall|i: int| 0 <= i < s.len() implies height(#[trigger] s[i]) <= height_all(s) by {
            if i < s.len() - 1 {
                assert(pre[i] == s[i]);
            }
        }
        if forall|i: int| 0 <= i < s.len() ==> height(#[trigger] s[i]) <= bound {
            assert forall|i: int| 0 <= i < pre.len() implies height(#[trigger] pre[i]) <= bound by {
                assert(pre[i] == s[i]);
            }
        }
    }
}

/// One of the six basic stack operations, uniformly.
pub fn random_opcode(rng: &mut StdRng) -> (r: OpCode)
    ensures
        base_op(r),
{
    basic_op(index_below(rng, 6))
}

/// A leaf: a literal in `[-10, 10)` or a basic operation.
pub open spec fn basic_leaf(t: Tree) -> bool {
    match t {
        Tree::Lit(v) => -10 <= v < 10,
        Tree::Op(op) => base_op(op),
        _ => false,
    }
}

/// `t` is a possible result of `random_ast` at `depth` below `max_depth`: a
/// basic leaf once `max_depth` is reached, otherwise a basic leaf or a block of
/// one to three children each of the same kind one level deeper.
pub open spec fn generated(t: Tree, depth: int, max_depth: int) -> bool
    decreases t, 0int,
{
    if depth >= max_depth {
        basic_leaf(t)
    } else {
        match t {
            Tree::Block(ch) => 1 <= ch.len() <= 3 && all_generated(ch, depth + 1, max_depth),
            _ => basic_leaf(t),
        }
    }
}

/// Every tree of the sequence is a possible result of `random_ast` at `depth`.
pub open spec fn all_generated(s: Seq<Tree>, depth: int, max_depth: int) -> bool
    decreases s, 1int,
{
    if s.len() == 0 {
        true
    } else {
        all_generated(s.subrange(0, s.len() - 1), depth, max_depth) && generated(s[s.len() - 1], depth, max_depth)
    }
}

/// `all_generated` holds when it holds of each element.
pub proof fn lemma_all_generated(s: Seq<Tree>, depth: int, max_depth: int)
    requires
        forall|i: int| 0 <= i < s.len() ==> generated(#[trigger] s[i], depth, max_depth),
    ensures
        all_generated(s, depth, max_depth),
    decreases s.len(),
{
    if s.len() > 0 {
        let pre = s.subrange(0, s.len() - 1);
        assert forall|i: int| 0 <= i < pre.len() implies generated(#[trigger] pre[i], depth, max_depth) by {
            assert(pre[i] == s[i]);
        }
        lemma_all_generated(pre, depth, max_depth);
    }
}

fn random_terminal(rng: &mut StdRng) -> (r: UntypedAst)
    ensures
        basic_leaf(r@),
{
    if index_below(rng, 2) == 0 {
        UntypedAst::IntLiteral(int_between(rng, -10, 10))
    } else {
        UntypedAst::Instruction(random_opcode(rng))
    }
}

fn random_children(rng: &mut StdRng, depth: usize, max_depth: usize) -> (r: Vec<UntypedAst>)
    requires
        depth < max_depth,
    ensures
        1 <= r@.len() <= 3,
        height_all(trees_of(r@)) <= levels_left((depth + 1) as usize, max_depth),
        all_generated(trees_of(r@), depth + 1, max_depth as int),
    decreases max_depth - depth, 0int,
{
    let len = 1 + index_below(rng, 3);
    let mut children: Vec<UntypedAst> = Vec::with_capacity(len);
    let mut i: usize = 0;
    while i < len
        invariant
            depth < max_depth,
            len <= 3,
            i <= len,
            children@.len() == i,
            forall|k: int| 0 <= k < i ==> height(#[trigger] children@[k]@) <= levels_left((depth + 1) as usize, max_depth),
            forall|k: int| 0 <= k < i ==> generated(#[trigger] children@[k]@, depth + 1, max_depth as int),
        decreases len - i,
    {
        children.push(random_ast(rng, depth + 1, max_depth));
        i = i + 1;
    }
    proof {
        lemma_trees_of(children@);
        let ts = trees_of(children@);
        assert forall|k: int| 0 <= k < ts.len() implies height(#[trigger] ts[k]) <= levels_left((depth + 1) as usize, max_depth) by {
            assert(ts[k] == children@[k]@);
        }
        lemma_height_all(ts, levels_left((depth + 1) as usize, max_depth));
        assert forall|k: int| 0 <= k < ts.len() implies generated(#[trigger] ts[k], depth + 1, max_depth as int) by {
            assert(ts[k] == children@[k]@);
        }
        lemma_all_generated(ts, depth + 1, max_depth as int);
    }
    children
}

/// A random program no deeper than the levels left between `depth` and
/// `max_depth`: a leaf once `max_depth` is reached, otherwise a literal in
/// `[-10, 10)`, a basic operation, or a block of one to three random children,
/// with equal odds.
pub fn random_ast(rng: &mut StdRng, depth: usize, max_depth: usize) -> (r: UntypedAst)
    ensures
        height(r@) <= levels_left(depth, max_depth),
        generated(r@, depth as int, max_depth as int),
    decreases max_depth - depth, 1int,
{
    if depth >= max_depth {
        random_terminal(rng)
    } else {
        let choice = index_below(rng, 3);
        if choice == 0 {
            UntypedAst::IntLiteral(int_between(rng, -10, 10))
        } else if choice == 1 {
            UntypedAst::Instruction(random_opcode(rng))
        } else {
            let children = random_children(rng, depth, max_depth);
            proof {
                lemma_trees_of(children@);
            }
            let r = UntypedAst::Sublist(children);
            assert(r@ == Tree::Block(trees_of(children@)));
            r
        }
    }
}

/// A random block of one to three children, each built by `random_ast` one
/// level down.
pub fn random_sublist_ast(rng: &mut StdRng, max_depth: usize) -> (r: UntypedAst)
    ensures
        r@ matches Tree::Block(ch) && 1 <= ch.len() <= 3 && all_generated(ch, 1, max_depth as int),
        height(r@) <= 1 + levels_left(1, max_depth),
{
    let len = 1 + index_below(rng, 3);
    let mut children: Vec<UntypedAst> = Vec::with_capacity(len);
    let mut i: usize = 0;
    while i < len
        invariant
            len <= 3,
            i <= len,
            children@.len() == i,
            forall|k: int| 0 <= k < i ==> height(#[trigger] children@[k]@) <= levels_left(1, max_depth),
            forall|k: int| 0 <= k < i ==> generated(#[trigger] children@[k]@, 1, max_depth as int),
        decreases len - i,
    {
        children.push(random_ast(rng, 1, max_depth));
        i = i + 1;
    }
    proof {
        lemma_trees_of(children@);
        let ts = trees_of(children@);
        assert forall|k: int| 0 <= k < ts.len() implies height(#[trigger] ts[k]) <= levels_left(1, max_depth) by {
            assert(ts[k] == children@[k]@);
        }
        lemma_height_all(ts, levels_left(1, max_depth));
        assert forall|k: int| 0 <= k < ts.len() implies generated(#[trigger] ts[k], 1, max_depth as int) by {
            assert(ts[k] == children@[k]@);
        }
        lemma_all_generated(ts, 1, max_depth as int);
    }
    UntypedAst::Sublist(children)
}

} // verus!
