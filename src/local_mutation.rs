//! A localized mutation: one random node receives a small, kind-specific edit.
use vstd::prelude::*;
use rand::rngs::StdRng;
use crate::ast::{lemma_trees_of, trees_of, OpCode, Tree, UntypedAst};
use crate::generate_spec::{yields, InstructionAtom, InstructionSet};
use crate::mutation::{
    enum_nodes_dfs, get_subtree, lemma_enumeration, lemma_trees_of_insert, lemma_trees_of_remove, node_at, paths,
    replace_at, replace_subtree, saturating_shift, valid_path,
};
use crate::random::{index_below, int_between};

verus! {

/// `op` is one of the set's opcodes, or `Noop` when the set has none.
pub open spec fn offered_op(atoms: Seq<InstructionAtom>, op: OpCode) -> bool {
    (exists|i: int| 0 <= i < atoms.len() && atoms[i] == InstructionAtom::Opcode(op))
        || (op == OpCode::Noop && !(exists|i: int| 0 <= i < atoms.len() && #[trigger] atoms[i] is Opcode))
}

/// `x` is a leaf that one of the atoms yields.
pub open spec fn drawn(atoms: Seq<InstructionAtom>, x: Tree) -> bool {
    exists|k: int| 0 <= k < atoms.len() && #[trigger] yields(atoms[k], x)
}

/// `r` can come out of a local edit of `t`: a literal moves by at most five
/// (saturating), an instruction becomes an opcode of the set, and a block loses
/// one child, gains one leaf drawn from the set, has two children swapped, or
/// stays as it is.
pub open spec fn local_variant(atoms: Seq<InstructionAtom>, t: Tree, r: Tree) -> bool {
    match t {
        Tree::Lit(v) => r matches Tree::Lit(w) && v - 5 <= w <= v + 5,
        Tree::Op(_) => r matches Tree::Op(op) && offered_op(atoms, op),
        Tree::Block(ch) => r matches Tree::Block(c) && {
            ||| c == ch
            ||| exists|i: int| 0 <= i < ch.len() && c == #[trigger] ch.remove(i)
            ||| exists|i: int, x: Tree| 0 <= i <= ch.len() && drawn(atoms, x) && c == #[trigger] ch.insert(i, x)
            ||| exists|i: int, j: int|
                0 <= i < ch.len() && 0 <= j < ch.len() && c == #[trigger] ch.update(i, ch[j]).update(j, ch[i])
        },
    }
}

fn pick_random_opcode(rng: &mut StdRng, instr_set: &InstructionSet) -> (r: OpCode)
    ensures
        offered_op(instr_set.atoms@, r),
{
    let atoms = &instr_set.atoms;
    let mut opcode_list: Vec<OpCode> = Vec::new();
    let mut i: usize = 0;
    while i < atoms.len()
        invariant
            i <= atoms@.len(),
            forall|k: int| 0 <= k < opcode_list@.len() ==> exists|j: int| 0 <= j < atoms@.len() && atoms@[j] == InstructionAtom::Opcode(#[trigger] opcode_list@[k]),
            opcode_list@.len() == 0 ==> forall|j: int| 0 <= j < i ==> !(#[trigger] atoms@[j] is Opcode),
        decreases atoms.len() - i,
    {
        if let InstructionAtom::Opcode(op) = atoms[i] {
            opcode_list.push(op);
        }
        i = i + 1;
    }
    if opcode_list.len() == 0 {
        return OpCode::Noop;
    }
    let k = index_below(rng, opcode_list.len());
    opcode_list[k]
}

fn create_small_node(rng: &mut StdRng, instr_set: &InstructionSet) -> (r: UntypedAst)
    requires
        instr_set.atoms@.len() > 0,
    ensures
        drawn(instr_set.atoms@, r@),
{
    instr_set.random_atom_as_ast(rng)
}

fn local_mutation_node(subtree: &UntypedAst, rng: &mut StdRng, instr_set: &InstructionSet) -> (r: UntypedAst)
    requires
        instr_set.atoms@.len() > 0,
    ensures
        local_variant(instr_set.atoms@, subtree@, r@),
{
    match subtree {
        UntypedAst::IntLiteral(val) => {
            let delta = int_between(rng, -5, 6);
            UntypedAst::IntLiteral(saturating_shift(*val, delta))
        },
        UntypedAst::Instruction(op) => {
            let mut new_op = pick_random_opcode(rng, instr_set);
            let mut tries: usize = 0;
            while tries < 3
                invariant
                    offered_op(instr_set.atoms@, new_op),
                decreases 3 - tries,
            {
                if new_op != *op {
                    break;
                }
                new_op = pick_random_opcode(rng, instr_set);
                tries = tries + 1;
            }
            UntypedAst::Instruction(new_op)
        },
        UntypedAst::Sublist(children) => {
            let choice = index_below(rng, 3);
            let ghost ts = trees_of(children@);
            let mut new_children: Vec<UntypedAst> = Vec::with_capacity(children.len());
            let mut i: usize = 0;
            while i < children.len()
                invariant
                    i <= children.len(),
                    new_children@.len() == i,
                    forall|k: int| 0 <= k < i ==> #[trigger] new_children@[k]@ == children@[k]@,
                decreases children.len() - i,
            {
                new_children.push(children[i].duplicate());
                i = i + 1;
            }
            proof {
                lemma_trees_of(children@);
                lemma_trees_of(new_children@);
                assert(trees_of(new_children@) =~= ts);
            }
            let ghost before = new_children@;
            if choice == 0 {
                if new_children.len() > 0 {
                    let k = index_below(rng, new_children.len());
                    new_children.remove(k);
                    proof {
                        lemma_trees_of_remove(before, k as int);
                    }
                }
            } else if choice == 1 && new_children.len() < usize::MAX {
                let k = index_below(rng, new_children.len() + 1);
                let node = create_small_node(rng, instr_set);
                let ghost x = node@;
                new_children.insert(k, node);
                proof {
                    lemma_trees_of_insert(before, k as int, node);
                }
            } else if new_children.len() > 1 {
                let a = index_below(rng, new_children.len());
                let b = index_below(rng, new_children.len());
                let na = new_children[a].duplicate();
                let nb = new_children[b].duplicate();
                new_children[a] = nb;
                new_children[b] = na;
                proof {
                    lemma_trees_of(new_children@);
                    assert(trees_of(new_children@) =~= ts.update(a as int, ts[b as int]).update(b as int, ts[a as int]));
                }
            }
            UntypedAst::Sublist(new_children)
        },
    }
}

/// Picks a node uniformly among all nodes and gives it a small local edit.
pub fn local_mutation(original: &UntypedAst, rng: &mut StdRng, instr_set: &InstructionSet) -> (r: UntypedAst)
    requires
        instr_set.atoms@.len() > 0,
    ensures
        exists|p: Seq<usize>, n: Tree|
            valid_path(original@, p) && local_variant(instr_set.atoms@, node_at(original@, p), n)
                && r@ == #[trigger] replace_at(original@, p, n),
{
    let all_paths = enum_nodes_dfs(original);
    proof {
        lemma_enumeration(*original);
    }
    let idx = index_below(rng, all_paths.len());
    let chosen_path = &all_paths[idx];
    assert(valid_path(original@, paths(original@)[idx as int]));
    let old_subtree = get_subtree(original, chosen_path.as_slice());
    let new_subtree = local_mutation_node(&old_subtree, rng, instr_set);
    let ghost n = new_subtree@;
    let r = replace_subtree(original, chosen_path.as_slice(), new_subtree);
    assert(valid_path(original@, chosen_path@) && local_variant(instr_set.atoms@, node_at(original@, chosen_path@), n)
        && r@ == replace_at(original@, chosen_path@, n));
    r
}

/// `local_mutation` over the default instruction set.
pub fn local_mutation_fixed(original: &UntypedAst, rng: &mut StdRng) -> (r: UntypedAst)
    ensures
        exists|p: Seq<usize>, n: Tree|
            valid_path(original@, p) && local_variant(crate::generate_spec::default_atoms(), node_at(original@, p), n)
                && r@ == #[trigger] replace_at(original@, p, n),
{
    let instr_set = InstructionSet::new_default();
    local_mutation(original, rng, &instr_set)
}

} // verus!
