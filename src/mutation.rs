//! Path-addressed access to subtrees, path enumeration, and tree size.
use vstd::prelude::*;
use rand::rngs::StdRng;
use crate::ast::{lemma_child_decreases, lemma_trees_of, size, size_all, trees_of, Tree, UntypedAst};
use crate::generate_spec::{default_atoms, drawn_from, lemma_size_all_concat, lemma_trees_of_concat, ranmdom_code_fixed};
use crate::ast::OpCode;
use crate::random::{coin, index_below, int_between, trial, Probability};

verus! {

/// A path is valid in `t` when each index selects an existing child, descending
/// from the root; the empty path names the root.
pub open spec fn valid_path(t: Tree, p: Seq<usize>) -> bool
    decreases p.len(),
{
    if p.len() == 0 {
        true
    } else {
        match t {
            Tree::Block(ch) => p[0] < ch.len() && valid_path(ch[p[0] as int], p.drop_first()),
            _ => false,
        }
    }
}

/// The node that a valid path names.
pub open spec fn node_at(t: Tree, p: Seq<usize>) -> Tree
    decreases p.len(),
{
    if p.len() == 0 {
        t
    } else {
        match t {
            Tree::Block(ch) => if p[0] < ch.len() {
                node_at(ch[p[0] as int], p.drop_first())
            } else {
                t
            },
            _ => t,
        }
    }
}

/// What a read at `p` gives: the node there, or the whole tree when `p` is not
/// a path of `t`.
pub open spec fn subtree_at(t: Tree, p: Seq<usize>) -> Tree {
    if valid_path(t, p) {
        node_at(t, p)
    } else {
        t
    }
}

/// `t` with the node at `p` replaced by `r`; `t` itself when `p` is not a path of `t`.
pub open spec fn replace_at(t: Tree, p: Seq<usize>, r: Tree) -> Tree
    decreases p.len(),
{
    if p.len() == 0 {
        r
    } else {
        match t {
            Tree::Block(ch) => if p[0] < ch.len() {
                Tree::Block(ch.update(p[0] as int, replace_at(ch[p[0] as int], p.drop_first(), r)))
            } else {
                t
            },
            _ => t,
        }
    }
}

/// Every path of the tree in depth-first preorder: the root first, then the
/// paths of each child in order, each prefixed with the child's index.
pub open spec fn paths(t: Tree) -> Seq<Seq<usize>>
    decreases t,
{
    match t {
        Tree::Block(ch) => seq![Seq::<usize>::empty()] + child_paths(ch),
        _ => seq![Seq::<usize>::empty()],
    }
}

/// The paths below a block whose children are `ch`, in preorder.
pub open spec fn child_paths(ch: Seq<Tree>) -> Seq<Seq<usize>>
    decreases ch,
{
    if ch.len() == 0 {
        Seq::empty()
    } else {
        let i = ch.len() - 1;
        child_paths(ch.subrange(0, i)) + prefixed((i as usize), paths(ch[i]))
    }
}

/// Each path of `ps` with `i` put in front.
pub open spec fn prefixed(i: usize, ps: Seq<Seq<usize>>) -> Seq<Seq<usize>> {
    ps.map_values(|p: Seq<usize>| seq![i] + p)
}

/// A path through `a` and then `b` is valid exactly when `a` is valid and `b`
/// is valid from the node that `a` names, which it then reaches.
pub proof fn lemma_path_concat(t: Tree, a: Seq<usize>, b: Seq<usize>)
    ensures
        valid_path(t, a + b) == (valid_path(t, a) && valid_path(node_at(t, a), b)),
        valid_path(t, a) ==> node_at(t, a + b) == node_at(node_at(t, a), b),
    decreases a.len(),
{
    if a.len() > 0 {
        assert((a + b)[0] == a[0]);
        assert((a + b).drop_first() =~= a.drop_first() + b);
        if let Tree::Block(ch) = t {
            if a[0] < ch.len() {
                lemma_path_concat(ch[a[0] as int], a.drop_first(), b);
            }
        }
    } else {
        assert(a + b =~= b);
    }
}

/// A path that is not valid leaves the tree unchanged under replacement.
pub proof fn lemma_replace_invalid(t: Tree, p: Seq<usize>, r: Tree)
    requires
        !valid_path(t, p),
    ensures
        replace_at(t, p, r) == t,
    decreases p.len(),
{
    if let Tree::Block(ch) = t {
        if p[0] < ch.len() {
            lemma_replace_invalid(ch[p[0] as int], p.drop_first(), r);
            assert(ch.update(p[0] as int, ch[p[0] as int]) =~= ch);
        }
    }
}

/// Replacing at the empty path yields the replacement itself.
pub proof fn lemma_replace_at_root(t: Tree, r: Tree)
    ensures
        replace_at(t, Seq::empty(), r) == r,
{
}

/// Reading back at a valid path after replacing there yields the replacement.
pub proof fn lemma_read_after_write(t: Tree, p: Seq<usize>, r: Tree)
    requires
        valid_path(t, p),
    ensures
        valid_path(replace_at(t, p, r), p),
        subtree_at(replace_at(t, p, r), p) == r,
    decreases p.len(),
{
    if p.len() > 0 {
        if let Tree::Block(ch) = t {
            lemma_read_after_write(ch[p[0] as int], p.drop_first(), r);
        }
    }
}

/// Walks `path` from the root; the copy of the node reached, or of the whole
/// tree when the path leaves it.
pub fn get_subtree(original: &UntypedAst, path: &[usize]) -> (r: UntypedAst)
    ensures
        r@ == subtree_at(original@, path@),
{
    let mut cur: &UntypedAst = original;
    let mut k: usize = 0;
    while k < path.len()
        invariant
            k <= path@.len(),
            valid_path(original@, path@.subrange(0, k as int)),
            cur@ == node_at(original@, path@.subrange(0, k as int)),
        decreases path.len() - k,
    {
        let ghost pre = path@.subrange(0, k as int);
        let ghost step = seq![path@[k as int]];
        proof {
            assert(path@.subrange(0, k as int + 1) =~= pre + step);
            lemma_path_concat(original@, pre, step);
            assert(step.drop_first() =~= Seq::<usize>::empty());
        }
        match cur {
            UntypedAst::Sublist(children) => {
                proof {
                    lemma_trees_of(children@);
                }
                if path[k] >= children.len() {
                    proof {
                        lemma_not_valid_extends(original@, path@, k as int + 1);
                    }
                    return original.duplicate();
                }
                let ghost before = cur@;
                cur = &children[path[k]];
                proof {
                    let ts = trees_of(children@);
                    assert(before == Tree::Block(ts));
                    assert(ts[path@[k as int] as int] == cur@);
                    assert(valid_path(cur@, step.drop_first()));
                    assert(valid_path(before, step));
                    assert(node_at(before, step) == node_at(cur@, Seq::empty()));
                }
            },
            _ => {
                proof {
                    lemma_not_valid_extends(original@, path@, k as int + 1);
                }
                return original.duplicate();
            },
        }
        k = k + 1;
    }
    proof {
        assert(path@.subrange(0, path@.len() as int) =~= path@);
    }
    cur.duplicate()
}

/// A path is not valid when one of its prefixes is not.
pub proof fn lemma_not_valid_extends(t: Tree, p: Seq<usize>, j: int)
    requires
        0 <= j <= p.len(),
        !valid_path(t, p.subrange(0, j)),
    ensures
        !valid_path(t, p),
{
    lemma_path_concat(t, p.subrange(0, j), p.subrange(j, p.len() as int));
    assert(p.subrange(0, j) + p.subrange(j, p.len() as int) =~= p);
}


fn replace_from(original: &UntypedAst, path: &[usize], k: usize, replacement: UntypedAst) -> (r: UntypedAst)
    requires
        k <= path@.len(),
    ensures
        r@ == replace_at(original@, path@.subrange(k as int, path@.len() as int), replacement@),
    decreases path@.len() - k,
{
    let ghost q = path@.subrange(k as int, path@.len() as int);
    if k == path.len() {
        return replacement;
    }
    proof {
        assert(q[0] == path@[k as int]);
        assert(q.drop_first() =~= path@.subrange(k as int + 1, path@.len() as int));
    }
    match original {
        UntypedAst::Sublist(children) => {
            let idx = path[k];
            proof {
                lemma_trees_of(children@);
            }
            if idx >= children.len() {
                return original.duplicate();
            }
            let new_child = replace_from(&children[idx], path, k + 1, replacement);
            let mut out: Vec<UntypedAst> = Vec::with_capacity(children.len());
            let mut i: usize = 0;
            while i < children.len()
                invariant
                    i <= children.len(),
                    out@.len() == i,
                    forall|j: int| 0 <= j < i ==> #[trigger] out@[j]@ == children@[j]@,
                decreases children.len() - i,
            {
                out.push(children[i].duplicate());
                i = i + 1;
            }
            out[idx] = new_child;
            proof {
                lemma_trees_of(out@);
                let ts = trees_of(children@);
                assert(trees_of(out@) =~= ts.update(idx as int, replace_at(ts[idx as int], q.drop_first(), replacement@)));
            }
            UntypedAst::Sublist(out)
        },
        _ => original.duplicate(),
    }
}

/// `original` with the node at `path` replaced by `replacement`; an unchanged
/// copy of `original` when `path` is not a path of it.
pub fn replace_subtree(original: &UntypedAst, path: &[usize], replacement: UntypedAst) -> (r: UntypedAst)
    ensures
        r@ == replace_at(original@, path@, replacement@),
        !valid_path(original@, path@) ==> r@ == original@,
{
    proof {
        assert(path@.subrange(0, path@.len() as int) =~= path@);
        if !valid_path(original@, path@) {
            lemma_replace_invalid(original@, path@, replacement@);
        }
    }
    replace_from(original, path, 0, replacement)
}

/// A prefix of a sequence never holds more nodes than the whole.
pub proof fn lemma_size_all_prefix(s: Seq<Tree>, j: int)
    requires
        0 <= j <= s.len(),
    ensures
        size_all(s.subrange(0, j)) <= size_all(s),
    decreases s.len(),
{
    if j < s.len() {
        let t = s.subrange(0, s.len() - 1);
        lemma_size_all_prefix(t, j);
        assert(t.subrange(0, j) =~= s.subrange(0, j));
    } else {
        assert(s.subrange(0, j) =~= s);
    }
}

/// Number of nodes in the tree.
pub fn get_subtree_size(ast: &UntypedAst) -> (r: usize)
    requires
        size(ast@) <= usize::MAX,
    ensures
        r == size(ast@),
    decreases ast,
{
    match ast {
        UntypedAst::Sublist(children) => {
            let ghost ts = trees_of(children@);
            let mut total: usize = 1;
            let mut i: usize = 0;
            while i < children.len()
                invariant
                    i <= children.len(),
                    *ast == UntypedAst::Sublist(*children),
                    ts == trees_of(children@),
                    size(ast@) <= usize::MAX,
                    total == 1 + size_all(ts.subrange(0, i as int)),
                decreases children.len() - i,
            {
                proof {
                    lemma_trees_of(children@);
                    lemma_child_decreases(*ast, i as int);
                    let s1 = ts.subrange(0, i as int + 1);
                    assert(s1.subrange(0, s1.len() - 1) =~= ts.subrange(0, i as int));
                    lemma_size_all_prefix(ts, i as int + 1);
                }
                let c = get_subtree_size(&children[i]);
                total = total + c;
                i = i + 1;
            }
            proof {
                lemma_trees_of(children@);
                assert(ts.subrange(0, children@.len() as int) =~= ts);
            }
            total
        },
        _ => 1,
    }
}


/// The paths that a sequence of path buffers holds.
pub open spec fn path_views(s: Seq<Vec<usize>>) -> Seq<Seq<usize>> {
    s.map_values(|v: Vec<usize>| v@)
}

/// Each path of `ps` with the path `c` put in front.
pub open spec fn below(c: Seq<usize>, ps: Seq<Seq<usize>>) -> Seq<Seq<usize>> {
    ps.map_values(|p: Seq<usize>| c + p)
}

fn copy_path(p: &Vec<usize>) -> (r: Vec<usize>)
    ensures
        r@ == p@,
{
    let mut r: Vec<usize> = Vec::with_capacity(p.len());
    let mut i: usize = 0;
    while i < p.len()
        invariant
            i <= p.len(),
            r@ == p@.subrange(0, i as int),
        decreases p.len() - i,
    {
        r.push(p[i]);
        i = i + 1;
    }
    proof {
        assert(p@.subrange(0, p@.len() as int) =~= p@);
    }
    r
}

fn dfs_helper(ast: &UntypedAst, paths_out: &mut Vec<Vec<usize>>, current_path: &mut Vec<usize>)
    ensures
        final(current_path)@ == old(current_path)@,
        path_views(final(paths_out)@) == path_views(old(paths_out)@) + below(old(current_path)@, paths(ast@)),
    decreases ast,
{
    let ghost c0 = current_path@;
    let ghost out0 = path_views(paths_out@);
    let here = copy_path(current_path);
    paths_out.push(here);
    proof {
        assert(path_views(paths_out@) =~= out0 + below(c0, seq![Seq::<usize>::empty()]));
    }
    match ast {
        UntypedAst::Sublist(children) => {
            let ghost ts = trees_of(children@);
            let mut i: usize = 0;
            while i < children.len()
                invariant
                    i <= children.len(),
                    *ast == UntypedAst::Sublist(*children),
                    ts == trees_of(children@),
                    current_path@ == c0,
                    path_views(paths_out@) == out0 + below(c0, seq![Seq::<usize>::empty()] + child_paths(ts.subrange(0, i as int))),
                decreases children.len() - i,
            {
                proof {
                    lemma_trees_of(children@);
                    lemma_child_decreases(*ast, i as int);
                }
                let ghost before = path_views(paths_out@);
                current_path.push(i);
                dfs_helper(&children[i], paths_out, current_path);
                current_path.pop();
                proof {
                    let s1 = ts.subrange(0, i as int + 1);
                    assert(s1.subrange(0, s1.len() - 1) =~= ts.subrange(0, i as int));
                    assert(s1[i as int] == ts[i as int]);
                    let head = seq![Seq::<usize>::empty()];
                    let added = prefixed(i, paths(ts[i as int]));
                    assert(below(c0, head + child_paths(s1)) =~= below(c0, head + child_paths(ts.subrange(0, i as int))) + below(c0, added));
                    assert(below(c0, added) =~= below(c0.push(i), paths(children@[i as int]@))) by {
                        assert forall|j: int| 0 <= j < added.len() implies #[trigger] below(c0, added)[j] == below(c0.push(i), paths(children@[i as int]@))[j] by {
                            let p = paths(ts[i as int])[j];
                            assert(c0 + (seq![i] + p) =~= c0.push(i) + p);
                        }
                    }
                }
                i = i + 1;
            }
            proof {
                lemma_trees_of(children@);
                assert(ts.subrange(0, children@.len() as int) =~= ts);
            }
        },
        _ => {},
    }
}

/// Every node's path, in depth-first preorder with the root first.
pub fn enum_nodes_dfs(ast: &UntypedAst) -> (r: Vec<Vec<usize>>)
    ensures
        path_views(r@) == paths(ast@),
{
    let mut out: Vec<Vec<usize>> = Vec::new();
    let mut current: Vec<usize> = Vec::new();
    dfs_helper(ast, &mut out, &mut current);
    proof {
        assert(path_views(Seq::<Vec<usize>>::empty()) =~= Seq::<Seq<usize>>::empty());
        assert forall|j: int| 0 <= j < paths(ast@).len() implies #[trigger] below(Seq::<usize>::empty(), paths(ast@))[j] == paths(ast@)[j] by {
            assert(Seq::<usize>::empty() + paths(ast@)[j] =~= paths(ast@)[j]);
        }
        assert(below(Seq::<usize>::empty(), paths(ast@)) =~= paths(ast@));
        assert(path_views(out@) =~= paths(ast@));
    }
    out
}


/// Path enumeration yields one path per node.
pub proof fn lemma_paths_len(t: Tree)
    ensures
        paths(t).len() == size(t),
    decreases t,
{
    if let Tree::Block(ch) = t {
        lemma_child_paths_len(ch);
    }
}

/// The paths below a block number its descendants.
pub proof fn lemma_child_paths_len(ch: Seq<Tree>)
    ensures
        child_paths(ch).len() == size_all(ch),
    decreases ch,
{
    if ch.len() > 0 {
        let i = ch.len() - 1;
        lemma_child_paths_len(ch.subrange(0, i));
        lemma_paths_len(ch[i]);
    }
}

/// Every block of the tree has at most `usize::MAX` children, as each block of
/// a program does.
pub open spec fn bounded(t: Tree) -> bool
    decreases t,
{
    match t {
        Tree::Block(ch) => ch.len() <= usize::MAX && forall|i: int| 0 <= i < ch.len() ==> bounded(#[trigger] ch[i]),
        _ => true,
    }
}

/// The tree of a program is bounded.
pub proof fn lemma_bounded(t: UntypedAst)
    ensures
        bounded(t@),
    decreases t,
{
    if let UntypedAst::Sublist(ch) = t {
        lemma_trees_of(ch@);
        vstd::std_specs::vec::axiom_spec_len(&ch);
        assert(ch@.len() == ch.len());
        assert forall|i: int| 0 <= i < trees_of(ch@).len() implies bounded(#[trigger] trees_of(ch@)[i]) by {
            lemma_child_decreases(t, i);
            lemma_bounded(ch@[i]);
        }
    }
}

/// Every enumerated path is a valid path of the tree.
pub proof fn lemma_paths_valid(t: Tree)
    requires
        bounded(t),
    ensures
        forall|j: int| 0 <= j < paths(t).len() ==> valid_path(t, #[trigger] paths(t)[j]),
    decreases t,
{
    if let Tree::Block(ch) = t {
        lemma_child_paths_valid(ch);
        assert forall|j: int| 0 <= j < paths(t).len() implies valid_path(t, #[trigger] paths(t)[j]) by {
            if j > 0 {
                assert(paths(t)[j] == child_paths(ch)[j - 1]);
            }
        }
    }
}

/// Every path below a block starts at an existing child and continues validly.
pub proof fn lemma_child_paths_valid(ch: Seq<Tree>)
    requires
        ch.len() <= usize::MAX,
        forall|i: int| 0 <= i < ch.len() ==> bounded(#[trigger] ch[i]),
    ensures
        forall|j: int| 0 <= j < child_paths(ch).len() ==> {
            let q = #[trigger] child_paths(ch)[j];
            &&& q.len() > 0
            &&& q[0] < ch.len()
            &&& valid_path(ch[q[0] as int], q.drop_first())
        },
    decreases ch,
{
    if ch.len() > 0 {
        let i = ch.len() - 1;
        let pre = ch.subrange(0, i);
        assert forall|k: int| 0 <= k < pre.len() implies bounded(#[trigger] pre[k]) by {
            assert(pre[k] == ch[k]);
        }
        lemma_child_paths_valid(pre);
        lemma_paths_valid(ch[i]);
        let left = child_paths(pre);
        let right = prefixed(i as usize, paths(ch[i]));
        assert forall|j: int| 0 <= j < child_paths(ch).len() implies {
            let q = #[trigger] child_paths(ch)[j];
            &&& q.len() > 0
            &&& q[0] < ch.len()
            &&& valid_path(ch[q[0] as int], q.drop_first())
        } by {
            let q = child_paths(ch)[j];
            if j < left.len() {
                assert(q == left[j]);
                assert(pre[q[0] as int] == ch[q[0] as int]);
            } else {
                let p = paths(ch[i])[j - left.len()];
                assert(q == right[j - left.len()]);
                assert(q.drop_first() =~= p);
            }
        }
    }
}


/// The enumeration of a program's nodes is non-empty, lists valid paths only,
/// and has one entry per node.
pub proof fn lemma_enumeration(t: UntypedAst)
    ensures
        paths(t@).len() == size(t@),
        paths(t@).len() >= 1,
        forall|j: int| 0 <= j < paths(t@).len() ==> valid_path(t@, #[trigger] paths(t@)[j]),
{
    lemma_paths_len(t@);
    lemma_bounded(t);
    lemma_paths_valid(t@);
}

/// Picks a node uniformly among all nodes (the root included) and replaces it
/// with a fresh random program of at most `max_points` nodes.
pub fn mutate_by_index(original: &UntypedAst, rng: &mut StdRng, max_points: usize) -> (r: UntypedAst)
    requires
        max_points >= 1,
    ensures
        exists|p: Seq<usize>, n: Tree|
            valid_path(original@, p) && 1 <= size(n) <= max_points && drawn_from(default_atoms(), n)
                && r@ == #[trigger] replace_at(original@, p, n),
{
    mutate_subtree(original, rng, max_points, true)
}

/// Subtree-swap mutation with the choice of the root as an option: with
/// `include_root` false, a tree of more than one node never has its root
/// replaced, so the mutation cannot regenerate the whole program.
pub fn mutate_subtree(original: &UntypedAst, rng: &mut StdRng, max_points: usize, include_root: bool) -> (r: UntypedAst)
    requires
        max_points >= 1,
    ensures
        exists|p: Seq<usize>, n: Tree|
            valid_path(original@, p) && (!include_root && size(original@) > 1 ==> p.len() > 0) && 1 <= size(n) <= max_points
                && drawn_from(default_atoms(), n) && r@ == #[trigger] replace_at(original@, p, n),
{
    let all_paths = enum_nodes_dfs(original);
    proof {
        lemma_enumeration(*original);
        lemma_nonroot_paths(original@);
    }
    let idx = if include_root || all_paths.len() == 1 {
        index_below(rng, all_paths.len())
    } else {
        1 + index_below(rng, all_paths.len() - 1)
    };
    let chosen_path = &all_paths[idx];
    assert(valid_path(original@, paths(original@)[idx as int]));
    let new_subtree = ranmdom_code_fixed(rng, max_points);
    let ghost n = new_subtree@;
    let r = replace_subtree(original, chosen_path.as_slice(), new_subtree);
    assert(valid_path(original@, chosen_path@) && (!include_root && size(original@) > 1 ==> chosen_path@.len() > 0)
        && 1 <= size(n) <= max_points && drawn_from(default_atoms(), n) && r@ == replace_at(original@, chosen_path@, n));
    r
}

/// The root is enumerated first, and every later path is not empty.
pub proof fn lemma_nonroot_paths(t: Tree)
    ensures
        paths(t)[0] == Seq::<usize>::empty(),
        forall|j: int| 1 <= j < paths(t).len() ==> (#[trigger] paths(t)[j]).len() > 0,
{
    if let Tree::Block(ch) = t {
        lemma_child_paths_nonempty(ch);
        assert forall|j: int| 1 <= j < paths(t).len() implies (#[trigger] paths(t)[j]).len() > 0 by {
            assert(paths(t)[j] == child_paths(ch)[j - 1]);
        }
    }
}

/// Every path below a block starts with a child index.
pub proof fn lemma_child_paths_nonempty(ch: Seq<Tree>)
    ensures
        forall|j: int| 0 <= j < child_paths(ch).len() ==> (#[trigger] child_paths(ch)[j]).len() > 0,
    decreases ch.len(),
{
    if ch.len() > 0 {
        let i = ch.len() - 1;
        lemma_child_paths_nonempty(ch.subrange(0, i));
        let left = child_paths(ch.subrange(0, i));
        let right = prefixed(i as usize, paths(ch[i]));
        assert forall|j: int| 0 <= j < child_paths(ch).len() implies (#[trigger] child_paths(ch)[j]).len() > 0 by {
            if j < left.len() {
                assert(child_paths(ch)[j] == left[j]);
            } else {
                assert(child_paths(ch)[j] == right[j - left.len()]);
            }
        }
    }
}

/// Picks a node uniformly in each parent and swaps the two subtrees, giving two
/// children; nothing about their sizes is kept.
pub fn crossover_by_index(a: &UntypedAst, b: &UntypedAst, rng: &mut StdRng) -> (r: (UntypedAst, UntypedAst))
    ensures
        exists|pa: Seq<usize>, pb: Seq<usize>|
            valid_path(a@, pa) && valid_path(b@, pb) && #[trigger] swapped(a@, b@, pa, pb, r.0@, r.1@),
{
    let paths_a = enum_nodes_dfs(a);
    let paths_b = enum_nodes_dfs(b);
    proof {
        lemma_enumeration(*a);
        lemma_enumeration(*b);
    }
    let idx_a = index_below(rng, paths_a.len());
    let idx_b = index_below(rng, paths_b.len());
    assert(valid_path(a@, paths(a@)[idx_a as int]));
    assert(valid_path(b@, paths(b@)[idx_b as int]));
    swap_at(a, b, &paths_a[idx_a], &paths_b[idx_b])
}

/// The two children of swapping the node at `pa` in `a` with the node at `pb` in `b`.
pub open spec fn swapped(a: Tree, b: Tree, pa: Seq<usize>, pb: Seq<usize>, ra: Tree, rb: Tree) -> bool {
    ra == replace_at(a, pa, node_at(b, pb)) && rb == replace_at(b, pb, node_at(a, pa))
}

fn swap_at(a: &UntypedAst, b: &UntypedAst, pa: &Vec<usize>, pb: &Vec<usize>) -> (r: (UntypedAst, UntypedAst))
    requires
        valid_path(a@, pa@),
        valid_path(b@, pb@),
    ensures
        swapped(a@, b@, pa@, pb@, r.0@, r.1@),
{
    let subtree_a = get_subtree(a, pa.as_slice());
    let subtree_b = get_subtree(b, pb.as_slice());
    let new_a = replace_subtree(a, pa.as_slice(), subtree_b);
    let new_b = replace_subtree(b, pb.as_slice(), subtree_a);
    (new_a, new_b)
}

/// A node never holds more nodes than the tree it sits in.
pub proof fn lemma_node_size(t: Tree, p: Seq<usize>)
    requires
        valid_path(t, p),
    ensures
        size(node_at(t, p)) <= size(t),
    decreases p.len(),
{
    if p.len() > 0 {
        if let Tree::Block(ch) = t {
            let i = p[0] as int;
            lemma_node_size(ch[i], p.drop_first());
            lemma_size_all_prefix(ch, i + 1);
            let s1 = ch.subrange(0, i + 1);
            assert(s1.subrange(0, s1.len() - 1) =~= ch.subrange(0, i));
            assert(s1[i] == ch[i]);
        }
    }
}


/// The larger of two sizes.
pub open spec fn larger(x: int, y: int) -> int {
    if x >= y {
        x
    } else {
        y
    }
}

/// The smaller of two sizes.
pub open spec fn smaller(x: int, y: int) -> int {
    if x >= y {
        y
    } else {
        x
    }
}

/// The size ratio `larger / smaller` of the pair `(x1, y1)` is strictly below
/// that of `(x2, y2)`; all four sizes positive.
pub open spec fn closer(x1: int, y1: int, x2: int, y2: int) -> bool {
    larger(x1, y1) * smaller(x2, y2) < larger(x2, y2) * smaller(x1, y1)
}

/// `(k, l)` comes before `(i, j)` in row-major order.
pub open spec fn earlier(k: int, l: int, i: int, j: int) -> bool {
    k < i || (k == i && l < j)
}

/// `(i, j)` is the first pair, in row-major order, whose size ratio is least among
/// all pairs of positive sizes.
pub open spec fn first_closest(sa: Seq<usize>, sb: Seq<usize>, i: int, j: int) -> bool {
    &&& 0 <= i < sa.len() && 0 <= j < sb.len()
    &&& sa[i] > 0 && sb[j] > 0
    &&& forall|k: int, l: int|
        0 <= k < sa.len() && 0 <= l < sb.len() && sa[k] > 0 && sb[l] > 0 ==> !#[trigger] closer(
            sa[k] as int,
            sb[l] as int,
            sa[i] as int,
            sb[j] as int,
        )
    &&& forall|k: int, l: int|
        0 <= k < sa.len() && 0 <= l < sb.len() && sa[k] > 0 && sb[l] > 0 && earlier(k, l, i, j)
            ==> #[trigger] closer(sa[i] as int, sb[j] as int, sa[k] as int, sb[l] as int)
}

/// A ratio below one that is at most a third is below the third.
pub proof fn lemma_closer_trans(qx: int, qn: int, bx: int, bn: int, px: int, pn: int)
    requires
        qn > 0,
        bn > 0,
        pn > 0,
        qx * bn < bx * qn,
        px * bn >= bx * pn,
    ensures
        qx * pn < px * qn,
{
    assert(qx * bn * pn < bx * qn * pn) by (nonlinear_arith)
        requires
            qx * bn < bx * qn,
            pn > 0,
    ;
    assert(bx * pn * qn <= px * bn * qn) by (nonlinear_arith)
        requires
            px * bn >= bx * pn,
            qn > 0,
    ;
    assert(qx * pn * bn < px * qn * bn) by (nonlinear_arith)
        requires
            qx * bn * pn < bx * qn * pn,
            bx * pn * qn <= px * bn * qn,
    ;
    assert(qx * pn < px * qn) by (nonlinear_arith)
        requires
            qx * pn * bn < px * qn * bn,
            bn > 0,
    ;
}

/// Under `closer`, a pair that beats the best beats every pair the best beat or tied.
pub proof fn lemma_closer_step(qx: int, qy: int, bx: int, by: int, px: int, py: int)
    requires
        qx > 0 && qy > 0 && bx > 0 && by > 0 && px > 0 && py > 0,
        closer(qx, qy, bx, by),
        !closer(px, py, bx, by),
    ensures
        closer(qx, qy, px, py),
        !closer(px, py, qx, qy),
{
    lemma_closer_trans(larger(qx, qy), smaller(qx, qy), larger(bx, by), smaller(bx, by), larger(px, py), smaller(px, py));
}

/// The first pair of positive sizes, one from each list, whose ratio
/// `larger / smaller` is least; `None` when no such pair exists.
pub fn closest_size_pair(sizes_a: &Vec<usize>, sizes_b: &Vec<usize>) -> (r: Option<(usize, usize)>)
    ensures
        r is None <==> !(exists|k: int, l: int|
            0 <= k < sizes_a@.len() && 0 <= l < sizes_b@.len() && #[trigger] sizes_a@[k] > 0 && #[trigger] sizes_b@[l] > 0),
        r matches Some((i, j)) ==> first_closest(sizes_a@, sizes_b@, i as int, j as int),
{
    let ghost sa = sizes_a@;
    let ghost sb = sizes_b@;
    let mut best: Option<(usize, usize)> = None;
    let mut i: usize = 0;
    while i < sizes_a.len()
        invariant
            i <= sa.len(),
            sa == sizes_a@,
            sb == sizes_b@,
            best is None <==> !(exists|k: int, l: int| 0 <= k < i && 0 <= l < sb.len() && #[trigger] sa[k] > 0 && #[trigger] sb[l] > 0),
            best matches Some((bi, bj)) ==> {
                &&& bi < i && bj < sb.len() && sa[bi as int] > 0 && sb[bj as int] > 0
                &&& forall|k: int, l: int| 0 <= k < i && 0 <= l < sb.len() && sa[k] > 0 && sb[l] > 0
                    ==> !#[trigger] closer(sa[k] as int, sb[l] as int, sa[bi as int] as int, sb[bj as int] as int)
                &&& forall|k: int, l: int| 0 <= k < sa.len() && 0 <= l < sb.len() && sa[k] > 0 && sb[l] > 0 && earlier(k, l, bi as int, bj as int)
                    ==> #[trigger] closer(sa[bi as int] as int, sb[bj as int] as int, sa[k] as int, sb[l] as int)
            },
        decreases sa.len() - i,
    {
        let mut j: usize = 0;
        while j < sizes_b.len()
            invariant
                i < sa.len(),
                j <= sb.len(),
                sa == sizes_a@,
                sb == sizes_b@,
                best is None <==> !(exists|k: int, l: int| 0 <= k < sa.len() && 0 <= l < sb.len() && earlier(k, l, i as int, j as int) && #[trigger] sa[k] > 0 && #[trigger] sb[l] > 0),
                best matches Some((bi, bj)) ==> earlier(bi as int, bj as int, i as int, j as int) && bi < sa.len() && bj < sb.len() && sa[bi as int] > 0 && sb[bj as int] > 0,
                best matches Some((bi, bj)) ==> forall|k: int, l: int| 0 <= k < sa.len() && 0 <= l < sb.len() && earlier(k, l, i as int, j as int) && sa[k] > 0 && sb[l] > 0
                        ==> !#[trigger] closer(sa[k] as int, sb[l] as int, sa[bi as int] as int, sb[bj as int] as int),
                best matches Some((bi, bj)) ==> forall|k: int, l: int| 0 <= k < sa.len() && 0 <= l < sb.len() && sa[k] > 0 && sb[l] > 0 && earlier(k, l, bi as int, bj as int)
                        ==> #[trigger] closer(sa[bi as int] as int, sb[bj as int] as int, sa[k] as int, sb[l] as int),
            decreases sb.len() - j,
        {
            let x = sizes_a[i];
            let y = sizes_b[j];
            if x > 0 && y > 0 {
                let take = match best {
                    None => true,
                    Some((bi, bj)) => {
                        let bx = sizes_a[bi];
                        let by = sizes_b[bj];
                        let (hi, lo) = if x >= y { (x as u128, y as u128) } else { (y as u128, x as u128) };
                        let (bhi, blo) = if bx >= by { (bx as u128, by as u128) } else { (by as u128, bx as u128) };
                        assert(hi * blo <= 0xffff_ffff_ffff_ffff_ffff_ffff_ffff_ffff) by (nonlinear_arith)
                            requires
                                hi <= 0xffff_ffff_ffff_ffff,
                                blo <= 0xffff_ffff_ffff_ffff,
                        ;
                        assert(bhi * lo <= 0xffff_ffff_ffff_ffff_ffff_ffff_ffff_ffff) by (nonlinear_arith)
                            requires
                                bhi <= 0xffff_ffff_ffff_ffff,
                                lo <= 0xffff_ffff_ffff_ffff,
                        ;
                        let c = hi * blo < bhi * lo;
                        assert(c == closer(x as int, y as int, bx as int, by as int));
                        c
                    },
                };
                if take {
                    proof {
                        if best is None {
                            assert forall|k: int, l: int| 0 <= k < sa.len() && 0 <= l < sb.len() && earlier(k, l, i as int, j as int)
                                implies !(sa[k] > 0 && sb[l] > 0) by {
                                if sa[k] > 0 && sb[l] > 0 {
                                    assert(exists|k: int, l: int| 0 <= k < sa.len() && 0 <= l < sb.len() && earlier(k, l, i as int, j as int) && #[trigger] sa[k] > 0 && #[trigger] sb[l] > 0);
                                }
                            }
                        }
                        if let Some((bi, bj)) = best {
                            assert forall|k: int, l: int| 0 <= k < sa.len() && 0 <= l < sb.len() && earlier(k, l, i as int, j as int) && sa[k] > 0 && sb[l] > 0
                                implies #[trigger] closer(sa[i as int] as int, sb[j as int] as int, sa[k] as int, sb[l] as int) by {
                                lemma_closer_step(x as int, y as int, sa[bi as int] as int, sb[bj as int] as int, sa[k] as int, sb[l] as int);
                            }
                            assert forall|k: int, l: int| 0 <= k < sa.len() && 0 <= l < sb.len() && earlier(k, l, i as int, j as int) && sa[k] > 0 && sb[l] > 0
                                implies !#[trigger] closer(sa[k] as int, sb[l] as int, sa[i as int] as int, sb[j as int] as int) by {
                                lemma_closer_step(x as int, y as int, sa[bi as int] as int, sb[bj as int] as int, sa[k] as int, sb[l] as int);
                            }
                        }
                    }
                    best = Some((i, j));
                }
            }
            j = j + 1;
        }
        i = i + 1;
    }
    best
}


/// The node count of each node that the paths name.
pub open spec fn node_sizes(t: Tree, ps: Seq<Seq<usize>>) -> Seq<usize> {
    ps.map_values(|p: Seq<usize>| size(node_at(t, p)) as usize)
}

fn subtree_sizes(t: &UntypedAst, ps: &Vec<Vec<usize>>) -> (r: Vec<usize>)
    requires
        path_views(ps@) == paths(t@),
    ensures
        r@ == node_sizes(t@, paths(t@)),
        forall|k: int| 0 <= k < r@.len() ==> #[trigger] r@[k] >= 1,
{
    proof {
        lemma_enumeration(*t);
    }
    let mut r: Vec<usize> = Vec::with_capacity(ps.len());
    let mut k: usize = 0;
    while k < ps.len()
        invariant
            k <= ps@.len(),
            path_views(ps@) == paths(t@),
            paths(t@).len() == size(t@),
            forall|j: int| 0 <= j < paths(t@).len() ==> valid_path(t@, #[trigger] paths(t@)[j]),
            r@ == node_sizes(t@, paths(t@)).subrange(0, k as int),
            forall|j: int| 0 <= j < k ==> #[trigger] r@[j] >= 1,
        decreases ps.len() - k,
    {
        assert(ps@[k as int]@ == paths(t@)[k as int]);
        let node = get_subtree(t, ps[k].as_slice());
        proof {
            lemma_node_size(t@, paths(t@)[k as int]);
        }
        let n = get_subtree_size(&node);
        r.push(n);
        k = k + 1;
        assert(r@ =~= node_sizes(t@, paths(t@)).subrange(0, k as int));
    }
    r
}

/// Swaps, between the two parents, the pair of subtrees whose node counts are
/// closest in ratio `larger / smaller`, searching all pairs and keeping the first
/// found on ties.
pub fn size_aware_crossover(a: &UntypedAst, b: &UntypedAst, rng: &mut StdRng) -> (r: (UntypedAst, UntypedAst))
    ensures
        exists|i: int, j: int|
            first_closest(node_sizes(a@, paths(a@)), node_sizes(b@, paths(b@)), i, j)
                && #[trigger] swapped(a@, b@, paths(a@)[i], paths(b@)[j], r.0@, r.1@),
        *final(rng) == *old(rng),
{
    let paths_a = enum_nodes_dfs(a);
    let paths_b = enum_nodes_dfs(b);
    proof {
        lemma_enumeration(*a);
        lemma_enumeration(*b);
    }
    let sizes_a = subtree_sizes(a, &paths_a);
    let sizes_b = subtree_sizes(b, &paths_b);
    let (idx_a, idx_b) = match closest_size_pair(&sizes_a, &sizes_b) {
        Some(pair) => pair,
        None => {
            assert(sizes_a@[0] > 0 && sizes_b@[0] > 0);
            (index_below(rng, paths_a.len()), index_below(rng, paths_b.len()))
        },
    };
    assert(paths_a@[idx_a as int]@ == paths(a@)[idx_a as int]);
    assert(paths_b@[idx_b as int]@ == paths(b@)[idx_b as int]);
    assert(valid_path(a@, paths(a@)[idx_a as int]));
    assert(valid_path(b@, paths(b@)[idx_b as int]));
    let r = swap_at(a, b, &paths_a[idx_a], &paths_b[idx_b]);
    assert(swapped(a@, b@, paths(a@)[idx_a as int], paths(b@)[idx_b as int], r.0@, r.1@));
    r
}


/// `x` clamped to the range of `i32`.
pub open spec fn saturate(x: int) -> i32 {
    if x > i32::MAX {
        i32::MAX
    } else if x < i32::MIN {
        i32::MIN
    } else {
        x as i32
    }
}

/// `v + delta`, saturating at the bounds of `i32` instead of wrapping.
pub fn saturating_shift(v: i32, delta: i32) -> (r: i32)
    ensures
        r == saturate(v + delta),
{
    let s: i64 = v as i64 + delta as i64;
    if s > i32::MAX as i64 {
        i32::MAX
    } else if s < i32::MIN as i64 {
        i32::MIN
    } else {
        s as i32
    }
}

/// The six basic stack operations that point mutation resamples from.
pub open spec fn base_op(op: OpCode) -> bool {
    op is Noop || op is Plus || op is Minus || op is Mult || op is Dup || op is Pop
}

/// A leaf that point mutation may insert: a literal in `[-10, 10]` or one of
/// five arithmetic and stack operations.
pub open spec fn simple_leaf(t: Tree) -> bool {
    match t {
        Tree::Lit(v) => -10 <= v <= 10,
        Tree::Op(op) => op is Plus || op is Minus || op is Mult || op is Dup || op is Pop,
        _ => false,
    }
}

/// Point mutation grows a block only while it has fewer children than this.
pub const MAX_GROWN_CHILDREN: usize = 8;

/// `r` can come out of point mutation of `t`: literals move by at most five,
/// instructions stay instructions (unchanged or a basic operation), and a block's
/// children are each mutated in place, after which one child may be removed (when
/// there were more than one) or one simple leaf inserted (when there were fewer
/// than eight).
pub open spec fn point_variant(t: Tree, r: Tree) -> bool
    decreases t, 0int,
{
    match t {
        Tree::Lit(v) => r matches Tree::Lit(w) && v - 5 <= w <= v + 5,
        Tree::Op(op) => r matches Tree::Op(op2) && (op2 == op || base_op(op2)),
        Tree::Block(ch) => r matches Tree::Block(c) && {
            ||| pointwise_variant(ch, c)
            ||| (ch.len() > 1 && one_removed(ch, c))
            ||| (ch.len() < MAX_GROWN_CHILDREN && one_inserted(ch, c))
        },
    }
}

/// `m` has one point variant of each tree of `ch`, in order.
pub open spec fn pointwise_variant(ch: Seq<Tree>, m: Seq<Tree>) -> bool
    decreases ch, 0int,
{
    if ch.len() == 0 {
        m.len() == 0
    } else {
        &&& m.len() == ch.len()
        &&& pointwise_variant(ch.subrange(0, ch.len() - 1), m.subrange(0, m.len() - 1))
        &&& point_variant(ch[ch.len() - 1], m[m.len() - 1])
    }
}

/// `c` is a pointwise variant of `ch` with one element left out.
pub open spec fn one_removed(ch: Seq<Tree>, c: Seq<Tree>) -> bool
    decreases ch, 1int,
{
    &&& ch.len() == c.len() + 1
    &&& {
        ||| pointwise_variant(ch.subrange(0, ch.len() - 1), c)
        ||| (c.len() > 0 && point_variant(ch[ch.len() - 1], c[c.len() - 1]) && one_removed(
            ch.subrange(0, ch.len() - 1),
            c.subrange(0, c.len() - 1),
        ))
    }
}

/// `c` is a pointwise variant of `ch` with one simple leaf put in somewhere.
pub open spec fn one_inserted(ch: Seq<Tree>, c: Seq<Tree>) -> bool
    decreases ch, 1int,
{
    &&& c.len() == ch.len() + 1
    &&& {
        ||| (simple_leaf(c[c.len() - 1]) && pointwise_variant(ch, c.subrange(0, c.len() - 1)))
        ||| (ch.len() > 0 && point_variant(ch[ch.len() - 1], c[c.len() - 1]) && one_inserted(
            ch.subrange(0, ch.len() - 1),
            c.subrange(0, c.len() - 1),
        ))
    }
}

/// Pointwise variants are exactly index-wise point variants.
pub proof fn lemma_pointwise_variant(ch: Seq<Tree>, m: Seq<Tree>)
    requires
        m.len() == ch.len(),
        forall|i: int| 0 <= i < ch.len() ==> point_variant(ch[i], #[trigger] m[i]),
    ensures
        pointwise_variant(ch, m),
    decreases ch.len(),
{
    if ch.len() > 0 {
        let c1 = ch.subrange(0, ch.len() - 1);
        let m1 = m.subrange(0, m.len() - 1);
        assert forall|i: int| 0 <= i < c1.len() implies point_variant(c1[i], #[trigger] m1[i]) by {
            assert(c1[i] == ch[i]);
            assert(m1[i] == m[i]);
        }
        lemma_pointwise_variant(c1, m1);
    }
}

/// Removing one element from index-wise variants gives `one_removed`.
pub proof fn lemma_one_removed(ch: Seq<Tree>, m: Seq<Tree>, j: int)
    requires
        m.len() == ch.len(),
        0 <= j < m.len(),
        forall|i: int| 0 <= i < ch.len() ==> point_variant(ch[i], #[trigger] m[i]),
    ensures
        one_removed(ch, m.remove(j)),
    decreases ch.len(),
{
    let c = m.remove(j);
    let n = ch.len() - 1;
    let c1 = ch.subrange(0, n);
    let m1 = m.subrange(0, n);
    assert forall|i: int| 0 <= i < c1.len() implies point_variant(c1[i], #[trigger] m1[i]) by {
        assert(c1[i] == ch[i]);
        assert(m1[i] == m[i]);
    }
    if j == n {
        assert(c =~= m1);
        lemma_pointwise_variant(c1, m1);
    } else {
        lemma_one_removed(c1, m1, j);
        assert(c.subrange(0, c.len() - 1) =~= m1.remove(j));
        assert(c[c.len() - 1] == m[n]);
    }
}

/// Inserting a simple leaf into index-wise variants gives `one_inserted`.
pub proof fn lemma_one_inserted(ch: Seq<Tree>, m: Seq<Tree>, j: int, x: Tree)
    requires
        m.len() == ch.len(),
        0 <= j <= m.len(),
        simple_leaf(x),
        forall|i: int| 0 <= i < ch.len() ==> point_variant(ch[i], #[trigger] m[i]),
    ensures
        one_inserted(ch, m.insert(j, x)),
    decreases ch.len(),
{
    let c = m.insert(j, x);
    if j == m.len() {
        assert(c.subrange(0, c.len() - 1) =~= m);
        lemma_pointwise_variant(ch, m);
    } else {
        let n = ch.len() - 1;
        let c1 = ch.subrange(0, n);
        let m1 = m.subrange(0, n);
        assert forall|i: int| 0 <= i < c1.len() implies point_variant(c1[i], #[trigger] m1[i]) by {
            assert(c1[i] == ch[i]);
            assert(m1[i] == m[i]);
        }
        lemma_one_inserted(c1, m1, j, x);
        assert(c.subrange(0, c.len() - 1) =~= m1.insert(j, x));
        assert(c[c.len() - 1] == m[n]);
    }
}

/// Every instruction of the tree is one of the six basic stack operations.
pub open spec fn ops_basic(t: Tree) -> bool
    decreases t, 0int,
{
    match t {
        Tree::Op(op) => base_op(op),
        Tree::Lit(_) => true,
        Tree::Block(ch) => all_ops_basic(ch),
    }
}

/// Every tree of the sequence has basic instructions only.
pub open spec fn all_ops_basic(s: Seq<Tree>) -> bool
    decreases s, 1int,
{
    if s.len() == 0 {
        true
    } else {
        all_ops_basic(s.subrange(0, s.len() - 1)) && ops_basic(s[s.len() - 1])
    }
}

/// `all_ops_basic` holds when it holds of each element.
pub proof fn lemma_all_ops_basic(s: Seq<Tree>)
    requires
        forall|i: int| 0 <= i < s.len() ==> ops_basic(#[trigger] s[i]),
    ensures
        all_ops_basic(s),
    decreases s.len(),
{
    if s.len() > 0 {
        let pre = s.subrange(0, s.len() - 1);
        assert forall|i: int| 0 <= i < pre.len() implies ops_basic(#[trigger] pre[i]) by {
            assert(pre[i] == s[i]);
        }
        lemma_all_ops_basic(pre);
    }
}

/// `trees_of` commutes with removing an element.
pub proof fn lemma_trees_of_remove(s: Seq<UntypedAst>, j: int)
    requires
        0 <= j < s.len(),
    ensures
        trees_of(s.remove(j)) == trees_of(s).remove(j),
{
    lemma_trees_of(s);
    lemma_trees_of(s.remove(j));
    assert(trees_of(s.remove(j)) =~= trees_of(s).remove(j));
}

/// `trees_of` commutes with inserting an element.
pub proof fn lemma_trees_of_insert(s: Seq<UntypedAst>, j: int, x: UntypedAst)
    requires
        0 <= j <= s.len(),
    ensures
        trees_of(s.insert(j, x)) == trees_of(s).insert(j, x@),
{
    lemma_trees_of(s);
    lemma_trees_of(s.insert(j, x));
    assert(trees_of(s.insert(j, x)) =~= trees_of(s).insert(j, x@));
}

pub(crate) fn basic_op(k: usize) -> (r: OpCode)
    requires
        k < 6,
    ensures
        base_op(r),
{
    match k {
        0 => OpCode::Noop,
        1 => OpCode::Plus,
        2 => OpCode::Minus,
        3 => OpCode::Mult,
        4 => OpCode::Dup,
        _ => OpCode::Pop,
    }
}

fn small_leaf(rng: &mut StdRng) -> (r: UntypedAst)
    ensures
        simple_leaf(r@),
{
    if coin(rng) {
        UntypedAst::IntLiteral(int_between(rng, -10, 11))
    } else {
        let op = match index_below(rng, 5) {
            0 => OpCode::Plus,
            1 => OpCode::Minus,
            2 => OpCode::Mult,
            3 => OpCode::Dup,
            _ => OpCode::Pop,
        };
        UntypedAst::Instruction(op)
    }
}

/// Point mutation: every node independently undergoes a trial at `mutation_rate`;
/// on a hit a literal moves by a random amount in `[-5, 5]` (saturating), an
/// instruction becomes a random basic operation, and a block, after its children
/// are mutated, may lose or gain one child. A zero rate leaves the program as it
/// is; at rate one every instruction is redrawn from the basic operations.
pub fn point_mutate(original: &UntypedAst, rng: &mut StdRng, mutation_rate: Probability) -> (r: UntypedAst)
    requires
        mutation_rate.wf(),
    ensures
        point_variant(original@, r@),
        mutation_rate.numerator == 0 ==> r@ == original@,
        mutation_rate.numerator == mutation_rate.denominator ==> ops_basic(r@),
{
    point_mutate_recursive(original, rng, mutation_rate)
}

fn point_mutate_recursive(ast: &UntypedAst, rng: &mut StdRng, mutation_rate: Probability) -> (r: UntypedAst)
    requires
        mutation_rate.wf(),
    ensures
        point_variant(ast@, r@),
        mutation_rate.numerator == 0 ==> r@ == ast@,
        mutation_rate.numerator == mutation_rate.denominator ==> ops_basic(r@),
    decreases ast,
{
    let should_mutate = mutation_rate.hit(rng);
    match ast {
        UntypedAst::IntLiteral(val) => {
            if should_mutate {
                let delta = int_between(rng, -5, 6);
                UntypedAst::IntLiteral(saturating_shift(*val, delta))
            } else {
                UntypedAst::IntLiteral(*val)
            }
        },
        UntypedAst::Instruction(op) => {
            if should_mutate {
                UntypedAst::Instruction(basic_op(index_below(rng, 6)))
            } else {
                UntypedAst::Instruction(*op)
            }
        },
        UntypedAst::Sublist(children) => {
            let ghost ts = trees_of(children@);
            let mut new_children: Vec<UntypedAst> = Vec::with_capacity(children.len());
            let mut i: usize = 0;
            while i < children.len()
                invariant
                    i <= children.len(),
                    *ast == UntypedAst::Sublist(*children),
                    ts == trees_of(children@),
                    mutation_rate.wf(),
                    new_children@.len() == i,
                    forall|k: int| 0 <= k < i ==> point_variant(children@[k]@, #[trigger] new_children@[k]@),
                    mutation_rate.numerator == 0 ==> forall|k: int| 0 <= k < i ==> #[trigger] new_children@[k]@ == children@[k]@,
                    mutation_rate.numerator == mutation_rate.denominator ==> forall|k: int| 0 <= k < i ==> ops_basic(#[trigger] new_children@[k]@),
                decreases children.len() - i,
            {
                proof {
                    lemma_child_decreases(*ast, i as int);
                }
                let c = point_mutate_recursive(&children[i], rng, mutation_rate);
                new_children.push(c);
                i = i + 1;
            }
            let ghost m = trees_of(new_children@);
            proof {
                lemma_trees_of(children@);
                lemma_trees_of(new_children@);
                assert forall|k: int| 0 <= k < ts.len() implies point_variant(ts[k], #[trigger] m[k]) by {
                    assert(ts[k] == children@[k]@);
                    assert(m[k] == new_children@[k]@);
                }
                if mutation_rate.numerator == 0 {
                    assert(m =~= ts);
                }
                lemma_pointwise_variant(ts, m);
                assert(mutation_rate.numerator == mutation_rate.denominator ==> forall|k: int| 0 <= k < m.len() ==> ops_basic(#[trigger] m[k]));
            }
            if should_mutate && trial(rng, 3, 10) {
                if new_children.len() > 1 && coin(rng) {
                    let remove_idx = index_below(rng, new_children.len());
                    let ghost before = new_children@;
                    new_children.remove(remove_idx);
                    proof {
                        lemma_trees_of_remove(before, remove_idx as int);
                        lemma_one_removed(ts, m, remove_idx as int);
                        let c = m.remove(remove_idx as int);
                        assert(mutation_rate.numerator == mutation_rate.denominator ==> forall|k: int| 0 <= k < c.len() ==> ops_basic(#[trigger] c[k])) by {
                            assert forall|k: int| 0 <= k < c.len() && mutation_rate.numerator == mutation_rate.denominator implies ops_basic(#[trigger] c[k]) by {
                                if k < remove_idx {
                                    assert(c[k] == m[k]);
                                } else {
                                    assert(c[k] == m[k + 1]);
                                }
                            }
                        }
                    }
                } else if new_children.len() < MAX_GROWN_CHILDREN {
                    let leaf = small_leaf(rng);
                    let insert_idx = index_below(rng, new_children.len() + 1);
                    let ghost before = new_children@;
                    let ghost x = leaf@;
                    new_children.insert(insert_idx, leaf);
                    proof {
                        lemma_trees_of_insert(before, insert_idx as int, leaf);
                        lemma_one_inserted(ts, m, insert_idx as int, x);
                        let c = m.insert(insert_idx as int, x);
                        assert(ops_basic(x));
                        assert(mutation_rate.numerator == mutation_rate.denominator ==> forall|k: int| 0 <= k < c.len() ==> ops_basic(#[trigger] c[k])) by {
                            assert forall|k: int| 0 <= k < c.len() && mutation_rate.numerator == mutation_rate.denominator implies ops_basic(#[trigger] c[k]) by {
                                if k < insert_idx {
                                    assert(c[k] == m[k]);
                                } else if k == insert_idx {
                                    assert(c[k] == x);
                                } else {
                                    assert(c[k] == m[k - 1]);
                                }
                            }
                        }
                    }
                }
            }
            proof {
                lemma_trees_of(new_children@);
                if mutation_rate.numerator == mutation_rate.denominator {
                    lemma_all_ops_basic(trees_of(new_children@));
                }
            }
            UntypedAst::Sublist(new_children)
        },
    }
}


/// Removing one tree from a sequence removes exactly its nodes.
pub proof fn lemma_size_all_remove(s: Seq<Tree>, j: int)
    requires
        0 <= j < s.len(),
    ensures
        size_all(s.remove(j)) + size(s[j]) == size_all(s),
{
    let l = s.subrange(0, j);
    let x = seq![s[j]];
    let rr = s.subrange(j + 1, s.len() as int);
    assert(s =~= l + x + rr);
    assert(s.remove(j) =~= l + rr);
    lemma_size_all_concat(l + x, rr);
    lemma_size_all_concat(l, x);
    lemma_size_all_concat(l, rr);
    assert(x.subrange(0, 0) =~= Seq::<Tree>::empty());
    assert(size_all(Seq::<Tree>::empty()) == 0);
}

/// `idx` maps each element of `c` to a position of `ch` holding it, with
/// positions strictly increasing.
pub open spec fn order_map(idx: Seq<int>, c: Seq<Tree>, ch: Seq<Tree>) -> bool {
    &&& idx.len() == c.len()
    &&& forall|k: int| 0 <= k < idx.len() ==> 0 <= #[trigger] idx[k] < ch.len() && c[k] == ch[idx[k]]
    &&& forall|k: int, l: int| 0 <= k < l < idx.len() ==> #[trigger] idx[k] < #[trigger] idx[l]
}

/// `c` is a subsequence of `ch`: some of its elements, in their original order.
pub open spec fn kept_in_order(c: Seq<Tree>, ch: Seq<Tree>) -> bool {
    exists|idx: Seq<int>| #[trigger] order_map(idx, c, ch)
}

/// What shrinking `t` toward `target` nodes may give: a leaf or an empty block
/// unchanged; a block of one child unchanged; otherwise the block with at least
/// one child removed, at least one kept, the kept ones in their order, and either at most `target` nodes left
/// or a single child left.
pub open spec fn shrunk(t: Tree, r: Tree, target: nat) -> bool {
    match t {
        Tree::Block(ch) => r matches Tree::Block(c) && {
            &&& size(r) <= size(t)
            &&& kept_in_order(c, ch)
            &&& ch.len() <= 1 ==> r == t
            &&& ch.len() > 1 ==> 1 <= c.len() < ch.len() && (size(r) <= target || c.len() == 1)
        },
        _ => r == t,
    }
}

/// Removes random children from the root block, one at a time, until the tree
/// has at most `target_size` nodes or one child is left; any other tree comes
/// back unchanged.
pub fn shrink_ast(ast: &UntypedAst, rng: &mut StdRng, target_size: usize) -> (r: UntypedAst)
    requires
        size(ast@) <= usize::MAX,
    ensures
        shrunk(ast@, r@, target_size as nat),
{
    match ast {
        UntypedAst::Sublist(children) => {
            let ghost ts = trees_of(children@);
            proof {
                lemma_trees_of(children@);
            }
            if children.len() <= 1 {
                let r = ast.duplicate();
                assert(order_map(Seq::new(ts.len(), |k: int| k), ts, ts));
                return r;
            }
            let mut kids: Vec<UntypedAst> = Vec::with_capacity(children.len());
            let mut i: usize = 0;
            while i < children.len()
                invariant
                    i <= children.len(),
                    kids@.len() == i,
                    forall|k: int| 0 <= k < i ==> #[trigger] kids@[k]@ == children@[k]@,
                decreases children.len() - i,
            {
                kids.push(children[i].duplicate());
                i = i + 1;
            }
            proof {
                lemma_trees_of(kids@);
                lemma_trees_of(children@);
                assert(trees_of(kids@) =~= ts);
            }
            let ghost mut idx: Seq<int> = Seq::new(ts.len(), |k: int| k);
            let mut total: usize = get_subtree_size(ast) - 1;
            let mut done = false;
            while !done
                invariant
                    size(ast@) <= usize::MAX,
                    ast@ == Tree::Block(ts),
                    ts.len() > 1,
                    1 <= kids@.len() <= ts.len(),
                    total == size_all(trees_of(kids@)),
                    total + 1 <= size(ast@),
                    order_map(idx, trees_of(kids@), ts),
                    !done ==> kids@.len() == ts.len() || (total + 1 > target_size && kids@.len() > 1),
                    done ==> kids@.len() < ts.len() && (total + 1 <= target_size || kids@.len() == 1),
                decreases kids@.len() + (if done { 0int } else { 1int }),
            {
                if kids.len() > 1 {
                    let remove_idx = index_below(rng, kids.len());
                    proof {
                        lemma_trees_of(kids@);
                        lemma_size_all_remove(trees_of(kids@), remove_idx as int);
                    }
                    let gone = get_subtree_size(&kids[remove_idx]);
                    let ghost before = kids@;
                    kids.remove(remove_idx);
                    proof {
                        lemma_trees_of_remove(before, remove_idx as int);
                        lemma_size_all_remove(trees_of(before), remove_idx as int);
                        let j = remove_idx as int;
                        let old_c = trees_of(before);
                        let old_idx = idx;
                        idx = idx.remove(j);
                        let c = trees_of(kids@);
                        assert forall|k: int| 0 <= k < idx.len() implies 0 <= #[trigger] idx[k] < ts.len() && c[k] == ts[idx[k]] by {
                            if k < j {
                                assert(idx[k] == old_idx[k] && c[k] == old_c[k]);
                            } else {
                                assert(idx[k] == old_idx[k + 1] && c[k] == old_c[k + 1]);
                            }
                        }
                        assert forall|k: int, l: int| 0 <= k < l < idx.len() implies #[trigger] idx[k] < #[trigger] idx[l] by {
                            let k1 = if k < j { k } else { k + 1 };
                            let l1 = if l < j { l } else { l + 1 };
                            assert(idx[k] == old_idx[k1] && idx[l] == old_idx[l1]);
                            assert(old_idx[k1] < old_idx[l1]);
                        }
                    }
                    total = total - gone;
                    if total + 1 <= target_size || kids.len() == 1 {
                        done = true;
                    }
                } else {
                    done = true;
                }
            }
            proof {
                lemma_trees_of(kids@);
            }
            UntypedAst::Sublist(kids)
        },
        _ => ast.duplicate(),
    }
}


/// The node count of the tree when it is at most `limit`, else `None`; it stops
/// counting once the limit is passed.
pub fn size_up_to(ast: &UntypedAst, limit: usize) -> (r: Option<usize>)
    ensures
        r == (if size(ast@) <= limit { Some(size(ast@) as usize) } else { None::<usize> }),
    decreases ast,
{
    match ast {
        UntypedAst::Sublist(children) => {
            if limit == 0 {
                return None;
            }
            let ghost ts = trees_of(children@);
            let mut total: usize = 1;
            let mut i: usize = 0;
            while i < children.len()
                invariant
                    i <= children.len(),
                    *ast == UntypedAst::Sublist(*children),
                    ts == trees_of(children@),
                    total == 1 + size_all(ts.subrange(0, i as int)),
                    total <= limit,
                decreases children.len() - i,
            {
                proof {
                    lemma_trees_of(children@);
                    lemma_child_decreases(*ast, i as int);
                    let s1 = ts.subrange(0, i as int + 1);
                    assert(s1.subrange(0, s1.len() - 1) =~= ts.subrange(0, i as int));
                    lemma_size_all_prefix(ts, i as int + 1);
                }
                match size_up_to(&children[i], limit - total) {
                    Some(c) => {
                        total = total + c;
                    },
                    None => {
                        return None;
                    },
                }
                i = i + 1;
            }
            proof {
                lemma_trees_of(children@);
                assert(ts.subrange(0, children@.len() as int) =~= ts);
            }
            Some(total)
        },
        _ => if limit >= 1 {
            Some(1)
        } else {
            None
        },
    }
}

/// Subtree-swap mutation held to `max_size` nodes: a program already above the
/// cap is shrunk instead; a subtree mutant that passes the cap is dropped in
/// favour of point mutation of the original at rate one in ten.
pub fn size_limited_mutate(original: &UntypedAst, rng: &mut StdRng, max_points: usize, max_size: usize) -> (r: UntypedAst)
    requires
        max_points >= 1,
        size(original@) <= usize::MAX,
    ensures
        size(original@) > max_size ==> shrunk(original@, r@, max_size as nat),
        size(original@) <= max_size ==> {
            ||| (size(r@) <= max_size && exists|p: Seq<usize>, n: Tree|
                valid_path(original@, p) && 1 <= size(n) <= max_points && drawn_from(default_atoms(), n)
                    && r@ == #[trigger] replace_at(original@, p, n))
            ||| (point_variant(original@, r@) && exists|p: Seq<usize>, n: Tree|
                valid_path(original@, p) && 1 <= size(n) <= max_points && drawn_from(default_atoms(), n)
                    && size(#[trigger] replace_at(original@, p, n)) > max_size)
        },
{
    let current_size = get_subtree_size(original);
    if current_size > max_size {
        return shrink_ast(original, rng, max_size);
    }
    let mutated = mutate_by_index(original, rng, max_points);
    match size_up_to(&mutated, max_size) {
        Some(_) => mutated,
        None => {
            let r = point_mutate(original, rng, Probability { numerator: 1, denominator: 10 });
            proof {
                let (p, n) = choose|p: Seq<usize>, n: Tree|
                    valid_path(original@, p) && 1 <= size(n) <= max_points && drawn_from(default_atoms(), n)
                        && mutated@ == #[trigger] replace_at(original@, p, n);
                assert(size(replace_at(original@, p, n)) > max_size);
            }
            r
        },
    }
}

} // verus!
