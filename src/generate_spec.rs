//! Size-controlled random program synthesis over a configurable atom set.
use vstd::prelude::*;
use rand::rngs::StdRng;
use crate::ast::{lemma_trees_of, size, size_all, trees_of, OpCode, Tree, UntypedAst};
use crate::random::{index_below, int_between, shuffle_programs};

verus! {

/// One choice for a leaf: a fixed opcode, or a fresh integer literal.
#[derive(Debug, Clone, Copy, PartialEq, Eq, Structural)]
pub enum InstructionAtom {
    Opcode(OpCode),
    EphemeralInt,
}

/// The atoms that random leaves are drawn from.
pub struct InstructionSet {
    pub atoms: Vec<InstructionAtom>,
}

/// Lowest literal an ephemeral atom can yield.
pub const EPHEMERAL_MIN: i32 = -30;
/// One past the highest literal an ephemeral atom can yield.
pub const EPHEMERAL_END: i32 = 30;

/// The leaf that an atom can yield: its opcode, or a literal in the ephemeral range.
pub open spec fn yields(a: InstructionAtom, t: Tree) -> bool {
    match a {
        InstructionAtom::Opcode(op) => t == Tree::Op(op),
        InstructionAtom::EphemeralInt => t matches Tree::Lit(v) && EPHEMERAL_MIN <= v < EPHEMERAL_END,
    }
}

/// The default atoms: every opcode in declaration order, then the ephemeral integer.
pub open spec fn default_atoms() -> Seq<InstructionAtom> {
    seq![
        InstructionAtom::Opcode(OpCode::Noop),
        InstructionAtom::Opcode(OpCode::Plus),
        InstructionAtom::Opcode(OpCode::Minus),
        InstructionAtom::Opcode(OpCode::Mult),
        InstructionAtom::Opcode(OpCode::Dup),
        InstructionAtom::Opcode(OpCode::Pop),
        InstructionAtom::Opcode(OpCode::GreaterThan),
        InstructionAtom::Opcode(OpCode::LessThan),
        InstructionAtom::Opcode(OpCode::Equal),
        InstructionAtom::Opcode(OpCode::NotEqual),
        InstructionAtom::Opcode(OpCode::GreaterEqual),
        InstructionAtom::Opcode(OpCode::LessEqual),
        InstructionAtom::Opcode(OpCode::Sin),
        InstructionAtom::Opcode(OpCode::Cos),
        InstructionAtom::Opcode(OpCode::Sqrt),
        InstructionAtom::Opcode(OpCode::Abs),
        InstructionAtom::Opcode(OpCode::Mod),
        InstructionAtom::Opcode(OpCode::Pow),
        InstructionAtom::Opcode(OpCode::ConstPi),
        InstructionAtom::Opcode(OpCode::ConstE),
        InstructionAtom::Opcode(OpCode::ConstRand),
        InstructionAtom::Opcode(OpCode::BoolToInt),
        InstructionAtom::Opcode(OpCode::IntToBool),
        InstructionAtom::Opcode(OpCode::IfThen),
        InstructionAtom::Opcode(OpCode::IfElse),
        InstructionAtom::EphemeralInt,
    ]
}

impl InstructionSet {
    /// The full opcode set plus ephemeral integers.
    pub fn new_default() -> (r: InstructionSet)
        ensures
            r.atoms@ == default_atoms(),
    {
        let atoms: Vec<InstructionAtom> = vec![
            InstructionAtom::Opcode(OpCode::Noop),
            InstructionAtom::Opcode(OpCode::Plus),
            InstructionAtom::Opcode(OpCode::Minus),
            InstructionAtom::Opcode(OpCode::Mult),
            InstructionAtom::Opcode(OpCode::Dup),
            InstructionAtom::Opcode(OpCode::Pop),
            InstructionAtom::Opcode(OpCode::GreaterThan),
            InstructionAtom::Opcode(OpCode::LessThan),
            InstructionAtom::Opcode(OpCode::Equal),
            InstructionAtom::Opcode(OpCode::NotEqual),
            InstructionAtom::Opcode(OpCode::GreaterEqual),
            InstructionAtom::Opcode(OpCode::LessEqual),
            InstructionAtom::Opcode(OpCode::Sin),
            InstructionAtom::Opcode(OpCode::Cos),
            InstructionAtom::Opcode(OpCode::Sqrt),
            InstructionAtom::Opcode(OpCode::Abs),
            InstructionAtom::Opcode(OpCode::Mod),
            InstructionAtom::Opcode(OpCode::Pow),
            InstructionAtom::Opcode(OpCode::ConstPi),
            InstructionAtom::Opcode(OpCode::ConstE),
            InstructionAtom::Opcode(OpCode::ConstRand),
            InstructionAtom::Opcode(OpCode::BoolToInt),
            InstructionAtom::Opcode(OpCode::IntToBool),
            InstructionAtom::Opcode(OpCode::IfThen),
            InstructionAtom::Opcode(OpCode::IfElse),
            InstructionAtom::EphemeralInt,
        ];
        assert(atoms@ =~= default_atoms());
        InstructionSet { atoms }
    }

    /// A leaf drawn from one of the atoms.
    pub fn random_atom_as_ast(&self, rng: &mut StdRng) -> (r: UntypedAst)
        requires
            self.atoms@.len() > 0,
        ensures
            exists|i: int| 0 <= i < self.atoms@.len() && yields(self.atoms@[i], r@),
    {
        let idx = index_below(rng, self.atoms.len());
        match self.atoms[idx] {
            InstructionAtom::Opcode(op) => UntypedAst::Instruction(op),
            InstructionAtom::EphemeralInt => {
                let v = int_between(rng, EPHEMERAL_MIN, EPHEMERAL_END);
                UntypedAst::IntLiteral(v)
            },
        }
    }
}

/// Every leaf of the tree is one that an atom of the set can yield.
pub open spec fn drawn_from(atoms: Seq<InstructionAtom>, t: Tree) -> bool
    decreases t, 0int,
{
    match t {
        Tree::Block(ch) => all_drawn_from(atoms, ch),
        _ => exists|i: int| 0 <= i < atoms.len() && yields(atoms[i], t),
    }
}

/// Every tree of the sequence has only leaves that the atoms can yield.
pub open spec fn all_drawn_from(atoms: Seq<InstructionAtom>, s: Seq<Tree>) -> bool
    decreases s, 1int,
{
    if s.len() == 0 {
        true
    } else {
        all_drawn_from(atoms, s.subrange(0, s.len() - 1)) && drawn_from(atoms, s[s.len() - 1])
    }
}

/// `all_drawn_from` holds exactly when it holds of each element.
pub proof fn lemma_all_drawn_from(atoms: Seq<InstructionAtom>, s: Seq<Tree>)
    requires
        forall|i: int| 0 <= i < s.len() ==> drawn_from(atoms, #[trigger] s[i]),
    ensures
        all_drawn_from(atoms, s),
    decreases s.len(),
{
    if s.len() > 0 {
        let pre = s.subrange(0, s.len() - 1);
        assert forall|i: int| 0 <= i < pre.len() implies drawn_from(atoms, #[trigger] pre[i]) by {
            assert(pre[i] == s[i]);
        }
        lemma_all_drawn_from(atoms, pre);
    }
}

/// Every block of the tree has at least one child.
pub open spec fn blocks_nonempty(t: Tree) -> bool
    decreases t, 0int,
{
    match t {
        Tree::Block(ch) => ch.len() > 0 && all_blocks_nonempty(ch),
        _ => true,
    }
}

/// Every tree of the sequence has only non-empty blocks.
pub open spec fn all_blocks_nonempty(s: Seq<Tree>) -> bool
    decreases s, 1int,
{
    if s.len() == 0 {
        true
    } else {
        all_blocks_nonempty(s.subrange(0, s.len() - 1)) && blocks_nonempty(s[s.len() - 1])
    }
}

/// `all_blocks_nonempty` holds when it holds of each element.
pub proof fn lemma_all_blocks_nonempty(s: Seq<Tree>)
    requires
        forall|i: int| 0 <= i < s.len() ==> blocks_nonempty(#[trigger] s[i]),
    ensures
        all_blocks_nonempty(s),
    decreases s.len(),
{
    if s.len() > 0 {
        let pre = s.subrange(0, s.len() - 1);
        assert forall|i: int| 0 <= i < pre.len() implies blocks_nonempty(#[trigger] pre[i]) by {
            assert(pre[i] == s[i]);
        }
        lemma_all_blocks_nonempty(pre);
    }
}

/// Sum of a sequence of counts.
pub open spec fn sum(s: Seq<usize>) -> int
    decreases s.len(),
{
    if s.len() == 0 {
        0
    } else {
        sum(s.subrange(0, s.len() - 1)) + s[s.len() - 1]
    }
}

/// Nodes of concatenated sequences add up.
pub proof fn lemma_size_all_concat(a: Seq<Tree>, b: Seq<Tree>)
    ensures
        size_all(a + b) == size_all(a) + size_all(b),
    decreases b.len(),
{
    if b.len() == 0 {
        assert(a + b =~= a);
    } else {
        let b1 = b.subrange(0, b.len() - 1);
        lemma_size_all_concat(a, b1);
        assert((a + b).subrange(0, (a + b).len() - 1) =~= a + b1);
    }
}

/// `trees_of` distributes over concatenation.
pub proof fn lemma_trees_of_concat(a: Seq<UntypedAst>, b: Seq<UntypedAst>)
    ensures
        trees_of(a + b) == trees_of(a) + trees_of(b),
{
    lemma_trees_of(a);
    lemma_trees_of(b);
    lemma_trees_of(a + b);
    assert(trees_of(a + b) =~= trees_of(a) + trees_of(b));
}

/// Reordering programs keeps their total number of nodes.
pub proof fn lemma_size_all_reorder(a: Seq<UntypedAst>, b: Seq<UntypedAst>)
    requires
        a.to_multiset() == b.to_multiset(),
    ensures
        size_all(trees_of(a)) == size_all(trees_of(b)),
    decreases a.len(),
{
    broadcast use vstd::seq_lib::group_to_multiset_ensures;
    if a.len() == 0 {
        assert(b.to_multiset().len() == 0);
        assert(b =~= Seq::<UntypedAst>::empty());
    } else {
        let x = a[a.len() - 1];
        let a1 = a.subrange(0, a.len() - 1);
        assert(a1.push(x) =~= a);
        assert(b.to_multiset().count(x) > 0);
        assert(b.contains(x));
        let j = choose|j: int| 0 <= j < b.len() && b[j] == x;
        let b1 = b.remove(j);
        assert(a1.to_multiset() =~= b1.to_multiset());
        lemma_size_all_reorder(a1, b1);
        let l = b.subrange(0, j);
        let rr = b.subrange(j + 1, b.len() as int);
        assert(b =~= l + seq![x] + rr);
        assert(b1 =~= l + rr);
        lemma_trees_of_concat(l + seq![x], rr);
        lemma_trees_of_concat(l, seq![x]);
        lemma_trees_of_concat(l, rr);
        lemma_size_all_concat(trees_of(l + seq![x]), trees_of(rr));
        lemma_size_all_concat(trees_of(l), trees_of(seq![x]));
        lemma_size_all_concat(trees_of(l), trees_of(rr));
        lemma_trees_of(seq![x]);
        assert(trees_of(seq![x]) =~= seq![x@]);
        assert(size_all(seq![x@]) == size(x@)) by {
            assert(seq![x@].subrange(0, 0) =~= Seq::<Tree>::empty());
            assert(size_all(Seq::<Tree>::empty()) == 0);
        }
        let ta = trees_of(a);
        assert(ta == trees_of(a1).push(x@));
        assert(ta.subrange(0, ta.len() - 1) =~= trees_of(a1));
        lemma_trees_of(a);
    }
}


/// Splits `number` into at most `max_parts` positive parts that add up to it:
/// a random first part below `number`, then the remainder split the same way;
/// `number` itself when it is one or only one part is allowed.
pub fn decompose(rng: &mut StdRng, number: usize, max_parts: usize) -> (r: Vec<usize>)
    requires
        number >= 1,
        max_parts >= 1,
    ensures
        1 <= r@.len() <= max_parts,
        sum(r@) == number,
        forall|i: int| 0 <= i < r@.len() ==> #[trigger] r@[i] >= 1,
        number >= 2 && max_parts >= 2 ==> r@.len() >= 2 && 1 <= r@[0] < number,
    decreases number,
{
    if number == 1 || max_parts == 1 {
        let r: Vec<usize> = vec![number];
        assert(r@.subrange(0, 0) =~= Seq::<usize>::empty());
        assert(sum(Seq::<usize>::empty()) == 0);
        return r;
    }
    let this_part = 1 + index_below(rng, number - 1);
    let mut remainder = decompose(rng, number - this_part, max_parts - 1);
    let mut result: Vec<usize> = vec![this_part];
    let ghost rest = remainder@;
    result.append(&mut remainder);
    proof {
        lemma_sum_cons(this_part, rest);
        assert(result@ =~= seq![this_part] + rest);
    }
    result
}

/// The sum of a sequence with one more element in front.
pub proof fn lemma_sum_cons(x: usize, s: Seq<usize>)
    ensures
        sum(seq![x] + s) == x + sum(s),
    decreases s.len(),
{
    if s.len() == 0 {
        assert(seq![x] + s =~= seq![x]);
        assert(seq![x].subrange(0, 0) =~= Seq::<usize>::empty());
        assert(sum(Seq::<usize>::empty()) == 0);
    } else {
        let s1 = s.subrange(0, s.len() - 1);
        lemma_sum_cons(x, s1);
        let t = seq![x] + s;
        assert(t.subrange(0, t.len() - 1) =~= seq![x] + s1);
    }
}

/// A program of exactly `points` nodes: a single atom for one point; otherwise a
/// block whose children, generated for a random split of the remaining points,
/// are shuffled into random order.
pub fn random_code_with_size(rng: &mut StdRng, instr_set: &InstructionSet, points: usize) -> (r: UntypedAst)
    requires
        instr_set.atoms@.len() > 0,
        points >= 1,
    ensures
        size(r@) == points,
        drawn_from(instr_set.atoms@, r@),
        blocks_nonempty(r@),
    decreases points,
{
    if points == 1 {
        return instr_set.random_atom_as_ast(rng);
    }
    let parts = decompose(rng, points - 1, points - 1);
    let mut sub_asts: Vec<UntypedAst> = Vec::with_capacity(parts.len());
    let mut i: usize = 0;
    while i < parts.len()
        invariant
            i <= parts@.len(),
            instr_set.atoms@.len() > 0,
            sum(parts@) == points - 1,
            forall|k: int| 0 <= k < parts@.len() ==> #[trigger] parts@[k] >= 1,
            sub_asts@.len() == i,
            size_all(trees_of(sub_asts@)) == sum(parts@.subrange(0, i as int)),
            forall|k: int| 0 <= k < i ==> drawn_from(instr_set.atoms@, #[trigger] sub_asts@[k]@),
            forall|k: int| 0 <= k < i ==> blocks_nonempty(#[trigger] sub_asts@[k]@),
        decreases parts.len() - i,
    {
        proof {
            lemma_sum_prefix(parts@, i as int + 1);
            lemma_sum_prefix(parts@, i as int);
            let grown = parts@.subrange(0, i as int + 1);
            assert(grown.subrange(0, grown.len() - 1) =~= parts@.subrange(0, i as int));
        }
        let part = parts[i];
        let child = random_code_with_size(rng, instr_set, part);
        let ghost before = sub_asts@;
        sub_asts.push(child);
        proof {
            let ts = trees_of(sub_asts@);
            assert(sub_asts@.subrange(0, sub_asts@.len() - 1) =~= before);
            assert(ts.subrange(0, ts.len() - 1) =~= trees_of(before));
            lemma_trees_of(sub_asts@);
        }
        i = i + 1;
    }
    proof {
        assert(parts@.subrange(0, parts@.len() as int) =~= parts@);
    }
    let ghost unshuffled = sub_asts@;
    shuffle_programs(rng, &mut sub_asts);
    proof {
        lemma_size_all_reorder(sub_asts@, unshuffled);
        broadcast use vstd::seq_lib::group_to_multiset_ensures;
        lemma_trees_of(sub_asts@);
        let ts = trees_of(sub_asts@);
        assert forall|k: int| 0 <= k < ts.len() implies drawn_from(instr_set.atoms@, #[trigger] ts[k]) by {
            let x = sub_asts@[k];
            assert(sub_asts@.contains(x));
            assert(sub_asts@.to_multiset().count(x) > 0);
            assert(unshuffled.contains(x));
            let j = choose|j: int| 0 <= j < unshuffled.len() && unshuffled[j] == x;
            assert(drawn_from(instr_set.atoms@, unshuffled[j]@));
        }
        assert forall|k: int| 0 <= k < ts.len() implies blocks_nonempty(#[trigger] ts[k]) by {
            let x = sub_asts@[k];
            assert(sub_asts@.contains(x));
            assert(sub_asts@.to_multiset().count(x) > 0);
            assert(unshuffled.contains(x));
            let j = choose|j: int| 0 <= j < unshuffled.len() && unshuffled[j] == x;
            assert(blocks_nonempty(unshuffled[j]@));
        }
        lemma_all_drawn_from(instr_set.atoms@, ts);
        lemma_all_blocks_nonempty(ts);
        assert(sub_asts@.len() == sub_asts@.to_multiset().len());
        assert(unshuffled.len() == unshuffled.to_multiset().len());
    }
    UntypedAst::Sublist(sub_asts)
}

/// Every prefix sum of positive parts lies between zero and the whole sum.
pub proof fn lemma_sum_prefix(s: Seq<usize>, j: int)
    requires
        0 <= j <= s.len(),
    ensures
        0 <= sum(s.subrange(0, j)) <= sum(s),
    decreases s.len(),
{
    if j < s.len() {
        let t = s.subrange(0, s.len() - 1);
        lemma_sum_prefix(t, j);
        assert(t.subrange(0, j) =~= s.subrange(0, j));
    } else {
        assert(s.subrange(0, j) =~= s);
    }
    lemma_sum_nonneg(s.subrange(0, j));
}

/// A sum of counts is never negative.
pub proof fn lemma_sum_nonneg(s: Seq<usize>)
    ensures
        sum(s) >= 0,
    decreases s.len(),
{
    if s.len() > 0 {
        lemma_sum_nonneg(s.subrange(0, s.len() - 1));
    }
}

/// A program of between one and `max_points` nodes, the budget drawn uniformly.
pub fn random_code(rng: &mut StdRng, instr_set: &InstructionSet, max_points: usize) -> (r: UntypedAst)
    requires
        instr_set.atoms@.len() > 0,
        max_points >= 1,
    ensures
        1 <= size(r@) <= max_points,
        drawn_from(instr_set.atoms@, r@),
        blocks_nonempty(r@),
{
    let actual_points = 1 + index_below(rng, max_points);
    random_code_with_size(rng, instr_set, actual_points)
}

/// `random_code` over the default instruction set.
pub fn ranmdom_code_fixed(rng: &mut StdRng, max_points: usize) -> (r: UntypedAst)
    requires
        max_points >= 1,
    ensures
        1 <= size(r@) <= max_points,
        drawn_from(default_atoms(), r@),
        blocks_nonempty(r@),
{
    let instr_set = InstructionSet::new_default();
    random_code(rng, &instr_set, max_points)
}

} // verus!
