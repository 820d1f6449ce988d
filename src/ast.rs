//! The program tree, its opcodes, and the bytecode the interpreter parses.
use vstd::prelude::*;

verus! {

/// The closed set of operations a program can name. Byte values live in an
/// [`OpCodeMapping`], not in the enum.
#[derive(Debug, Clone, Copy, PartialEq, Eq, Structural)]
pub enum OpCode {
    Noop,
    Plus,
    Minus,
    Mult,
    Dup,
    Pop,
    GreaterThan,
    LessThan,
    Equal,
    NotEqual,
    GreaterEqual,
    LessEqual,
    Sin,
    Cos,
    Sqrt,
    Abs,
    Mod,
    Pow,
    ConstPi,
    ConstE,
    ConstRand,
    BoolToInt,
    IntToBool,
    IfThen,
    IfElse,
}

/// A program: a literal, one instruction, or an ordered block of programs.
#[derive(Debug)]
pub enum UntypedAst {
    IntLiteral(i32),
    Instruction(OpCode),
    Sublist(Vec<UntypedAst>),
}

/// The mathematical value of a program: the same shape, with `Seq` for blocks.
pub enum Tree {
    Lit(i32),
    Op(OpCode),
    Block(Seq<Tree>),
}

/// The tree that a program denotes.
pub open spec fn tree_of(t: UntypedAst) -> Tree
    decreases t,
{
    match t {
        UntypedAst::IntLiteral(v) => Tree::Lit(v),
        UntypedAst::Instruction(op) => Tree::Op(op),
        UntypedAst::Sublist(ch) => Tree::Block(trees_of(ch@)),
    }
}

/// The trees that a sequence of programs denotes, element by element.
pub open spec fn trees_of(s: Seq<UntypedAst>) -> Seq<Tree>
    decreases s,
{
    if s.len() == 0 {
        Seq::empty()
    } else {
        trees_of(s.subrange(0, s.len() - 1)).push(tree_of(s[s.len() - 1]))
    }
}

impl View for UntypedAst {
    type V = Tree;

    open spec fn view(&self) -> Tree {
        tree_of(*self)
    }
}

/// `trees_of` maps each element on its own.
pub broadcast proof fn lemma_trees_of(s: Seq<UntypedAst>)
    ensures
        #[trigger] trees_of(s).len() == s.len(),
        forall|i: int| 0 <= i < s.len() ==> #[trigger] trees_of(s)[i] == s[i]@,
    decreases s.len(),
{
    if s.len() > 0 {
        lemma_trees_of(s.subrange(0, s.len() - 1));
        assert forall|i: int| 0 <= i < s.len() implies #[trigger] trees_of(s)[i] == s[i]@ by {
            if i < s.len() - 1 {
                assert(s.subrange(0, s.len() - 1)[i] == s[i]);
            }
        }
    }
}

/// A child of a sublist is smaller than the sublist.
pub proof fn lemma_child_decreases(t: UntypedAst, i: int)
    requires
        t is Sublist,
        0 <= i < t->Sublist_0@.len(),
    ensures
        decreases_to!(t => t->Sublist_0@[i]),
{
    vstd::std_specs::vec::axiom_vec_index_decreases(t->Sublist_0, i);
    assert(decreases_to!(t => t->Sublist_0));
}

impl UntypedAst {
    /// A deep copy of the program.
    pub fn duplicate(&self) -> (r: UntypedAst)
        ensures
            r@ == self@,
        decreases self,
    {
        match self {
            UntypedAst::IntLiteral(v) => UntypedAst::IntLiteral(*v),
            UntypedAst::Instruction(op) => UntypedAst::Instruction(*op),
            UntypedAst::Sublist(children) => {
                let mut out: Vec<UntypedAst> = Vec::with_capacity(children.len());
                let mut i: usize = 0;
                while i < children.len()
                    invariant
                        i <= children.len(),
                        *self == UntypedAst::Sublist(*children),
                        out@.len() == i,
                        forall|k: int| 0 <= k < i ==> #[trigger] out@[k]@ == children@[k]@,
                    decreases children.len() - i,
                {
                    proof {
                        lemma_child_decreases(*self, i as int);
                    }
                    let c = children[i].duplicate();
                    out.push(c);
                    i = i + 1;
                }
                proof {
                    lemma_trees_of(out@);
                    lemma_trees_of(children@);
                    assert(trees_of(out@) =~= trees_of(children@));
                }
                UntypedAst::Sublist(out)
            },
        }
    }

    /// Structural equality of two programs.
    pub fn same_as(&self, other: &UntypedAst) -> (r: bool)
        ensures
            r == (self@ == other@),
        decreases self,
    {
        match (self, other) {
            (UntypedAst::IntLiteral(a), UntypedAst::IntLiteral(b)) => *a == *b,
            (UntypedAst::Instruction(a), UntypedAst::Instruction(b)) => *a == *b,
            (UntypedAst::Sublist(xs), UntypedAst::Sublist(ys)) => {
                proof {
                    lemma_trees_of(xs@);
                    lemma_trees_of(ys@);
                }
                if xs.len() != ys.len() {
                    assert(trees_of(xs@).len() != trees_of(ys@).len());
                    return false;
                }
                let mut i: usize = 0;
                while i < xs.len()
                    invariant
                        i <= xs.len(),
                        xs.len() == ys.len(),
                        *self == UntypedAst::Sublist(*xs),
                        *other == UntypedAst::Sublist(*ys),
                        forall|k: int| 0 <= k < i ==> #[trigger] xs@[k]@ == ys@[k]@,
                    decreases xs.len() - i,
                {
                    proof {
                        lemma_child_decreases(*self, i as int);
                        lemma_trees_of(xs@);
                        lemma_trees_of(ys@);
                    }
                    if !xs[i].same_as(&ys[i]) {
                        assert(trees_of(xs@)[i as int] != trees_of(ys@)[i as int]);
                        return false;
                    }
                    i = i + 1;
                }
                assert(trees_of(xs@) =~= trees_of(ys@));
                true
            },
            _ => false,
        }
    }
}

impl Clone for UntypedAst {
    fn clone(&self) -> (r: Self)
        ensures
            r@ == self@,
    {
        self.duplicate()
    }
}

impl PartialEq for UntypedAst {
    fn eq(&self, other: &UntypedAst) -> (r: bool) {
        self.same_as(other)
    }
}

impl vstd::std_specs::cmp::PartialEqSpecImpl for UntypedAst {
    open spec fn obeys_eq_spec() -> bool {
        true
    }

    open spec fn eq_spec(&self, other: &UntypedAst) -> bool {
        self@ == other@
    }
}

/// Tag byte that opens an integer literal.
pub const INT_LITERAL_TAG: u8 = 2;
/// Tag byte that opens a sublist.
pub const SUBLIST_TAG: u8 = 3;
/// Largest payload, in bytes, that a sublist's length field can hold.
pub const MAX_SUBLIST_PAYLOAD: usize = 65535;

/// Number of nodes in a tree: one per leaf, one per block plus its children.
pub open spec fn size(t: Tree) -> nat
    decreases t,
{
    match t {
        Tree::Block(ch) => 1 + size_all(ch),
        _ => 1,
    }
}

/// Total number of nodes in a sequence of trees.
pub open spec fn size_all(s: Seq<Tree>) -> nat
    decreases s,
{
    if s.len() == 0 {
        0
    } else {
        size_all(s.subrange(0, s.len() - 1)) + size(s[s.len() - 1])
    }
}


/// Encoded length of a tree: five bytes per literal, one per instruction, and
/// three per block on top of its children.
pub open spec fn enc_len(t: Tree) -> nat
    decreases t,
{
    match t {
        Tree::Lit(_) => 5,
        Tree::Op(_) => 1,
        Tree::Block(ch) => 3 + enc_len_all(ch),
    }
}

/// Total encoded length of a sequence of trees.
pub open spec fn enc_len_all(s: Seq<Tree>) -> nat
    decreases s,
{
    if s.len() == 0 {
        0
    } else {
        enc_len_all(s.subrange(0, s.len() - 1)) + enc_len(s[s.len() - 1])
    }
}

/// Every block of the tree has a payload that its 16-bit length field can hold.
pub open spec fn fits_wire_format(t: Tree) -> bool
    decreases t,
{
    match t {
        Tree::Block(ch) => enc_len_all(ch) <= MAX_SUBLIST_PAYLOAD && fits_all(ch),
        _ => true,
    }
}

/// Every tree of the sequence fits the wire format.
pub open spec fn fits_all(s: Seq<Tree>) -> bool
    decreases s,
{
    if s.len() == 0 {
        true
    } else {
        fits_all(s.subrange(0, s.len() - 1)) && fits_wire_format(s[s.len() - 1])
    }
}

/// Maps each opcode to the single byte the interpreter reads for it.
pub trait OpCodeMapping {
    /// The byte that this mapping gives `op`.
    spec fn byte_of(&self, op: OpCode) -> u8;

    fn opcode_byte(&self, op: &OpCode) -> (r: u8)
        ensures
            r == self.byte_of(*op),
    ;
}

/// The four bytes of a 32-bit integer, most significant first, in two's complement.
pub open spec fn be_i32(v: i32) -> Seq<u8> {
    let u = v as u32;
    seq![(u >> 24u32) as u8, ((u >> 16u32) & 0xffu32) as u8, ((u >> 8u32) & 0xffu32) as u8, (u & 0xffu32) as u8]
}

/// The two bytes of a length below 65536, most significant first.
pub open spec fn be_u16(n: nat) -> Seq<u8> {
    seq![(n / 256) as u8, (n % 256) as u8]
}

/// The bytecode of a tree under mapping `m`.
pub open spec fn encode<M: OpCodeMapping>(t: Tree, m: M) -> Seq<u8>
    decreases t,
{
    match t {
        Tree::Lit(v) => seq![INT_LITERAL_TAG] + be_i32(v),
        Tree::Op(op) => seq![m.byte_of(op)],
        Tree::Block(ch) => seq![SUBLIST_TAG] + be_u16(encode_all(ch, m).len()) + encode_all(ch, m),
    }
}

/// The concatenated bytecode of a sequence of trees.
pub open spec fn encode_all<M: OpCodeMapping>(s: Seq<Tree>, m: M) -> Seq<u8>
    decreases s,
{
    if s.len() == 0 {
        Seq::empty()
    } else {
        encode_all(s.subrange(0, s.len() - 1), m) + encode(s[s.len() - 1], m)
    }
}

/// The bytecode's length does not depend on the mapping.
pub proof fn lemma_encode_len<M: OpCodeMapping>(t: Tree, m: M)
    ensures
        encode(t, m).len() == enc_len(t),
    decreases t,
{
    if let Tree::Block(ch) = t {
        lemma_encode_all_len(ch, m);
    }
}

/// The concatenated bytecode's length does not depend on the mapping.
pub proof fn lemma_encode_all_len<M: OpCodeMapping>(s: Seq<Tree>, m: M)
    ensures
        encode_all(s, m).len() == enc_len_all(s),
    decreases s,
{
    if s.len() > 0 {
        lemma_encode_all_len(s.subrange(0, s.len() - 1), m);
        lemma_encode_len(s[s.len() - 1], m);
    }
}

/// Total bytecode length of a sequence of trees, summed tree by tree.
pub open spec fn payload_len<M: OpCodeMapping>(s: Seq<Tree>, m: M) -> nat
    decreases s.len(),
{
    if s.len() == 0 {
        0
    } else {
        payload_len(s.subrange(0, s.len() - 1), m) + encode(s[s.len() - 1], m).len()
    }
}

/// Encoding is a function of the program's value and the mapping alone: equal
/// programs encode to equal bytes, with nothing else consulted.
pub proof fn lemma_encoding_deterministic<M: OpCodeMapping>(a: UntypedAst, b: UntypedAst, m: M)
    requires
        a@ == b@,
    ensures
        encode(a@, m) == encode(b@, m),
{
}

/// A sublist encodes as its tag, the big-endian sum of its children's encoded
/// lengths, and the children's encodings one after another.
pub proof fn lemma_sublist_layout<M: OpCodeMapping>(children: Seq<Tree>, m: M)
    ensures
        encode(Tree::Block(children), m) == seq![SUBLIST_TAG] + be_u16(payload_len(children, m)) + encode_all(children, m),
        encode_all(children, m).len() == payload_len(children, m),
    decreases children.len(),
{
    if children.len() > 0 {
        lemma_sublist_layout(children.subrange(0, children.len() - 1), m);
    }
}

/// The byte assignment of the deployed interpreter.
pub struct DefaultOpCodeMapping;

/// The byte that the deployed interpreter reads for `op`.
pub open spec fn default_byte(op: OpCode) -> u8 {
    match op {
        OpCode::Noop => 0x00,
        OpCode::Plus => 0x05,
        OpCode::Minus => 0x06,
        OpCode::Mult => 0x07,
        OpCode::Dup => 0x08,
        OpCode::Pop => 0x09,
        OpCode::GreaterThan => 0x20,
        OpCode::LessThan => 0x21,
        OpCode::Equal => 0x22,
        OpCode::NotEqual => 0x23,
        OpCode::GreaterEqual => 0x24,
        OpCode::LessEqual => 0x25,
        OpCode::Sin => 0x30,
        OpCode::Cos => 0x31,
        OpCode::Sqrt => 0x32,
        OpCode::Abs => 0x33,
        OpCode::Mod => 0x34,
        OpCode::Pow => 0x35,
        OpCode::ConstPi => 0x40,
        OpCode::ConstE => 0x41,
        OpCode::ConstRand => 0x42,
        OpCode::BoolToInt => 0x50,
        OpCode::IntToBool => 0x51,
        OpCode::IfThen => 0x60,
        OpCode::IfElse => 0x61,
    }
}

impl OpCodeMapping for DefaultOpCodeMapping {
    open spec fn byte_of(&self, op: OpCode) -> u8 {
        default_byte(op)
    }

    fn opcode_byte(&self, op: &OpCode) -> (r: u8) {
        match op {
            OpCode::Noop => 0x00,
            OpCode::Plus => 0x05,
            OpCode::Minus => 0x06,
            OpCode::Mult => 0x07,
            OpCode::Dup => 0x08,
            OpCode::Pop => 0x09,
            OpCode::GreaterThan => 0x20,
            OpCode::LessThan => 0x21,
            OpCode::Equal => 0x22,
            OpCode::NotEqual => 0x23,
            OpCode::GreaterEqual => 0x24,
            OpCode::LessEqual => 0x25,
            OpCode::Sin => 0x30,
            OpCode::Cos => 0x31,
            OpCode::Sqrt => 0x32,
            OpCode::Abs => 0x33,
            OpCode::Mod => 0x34,
            OpCode::Pow => 0x35,
            OpCode::ConstPi => 0x40,
            OpCode::ConstE => 0x41,
            OpCode::ConstRand => 0x42,
            OpCode::BoolToInt => 0x50,
            OpCode::IntToBool => 0x51,
            OpCode::IfThen => 0x60,
            OpCode::IfElse => 0x61,
        }
    }
}

/// The default mapping never gives two opcodes the same byte.
pub proof fn lemma_default_mapping_injective(a: OpCode, b: OpCode)
    ensures
        default_byte(a) == default_byte(b) ==> a == b,
{
}

/// A program that can be turned into interpreter bytecode.
pub trait Push3Ast: Sized {
    /// The program can be encoded: no length field overflows.
    spec fn encodable(&self) -> bool;

    /// The bytecode of the program.
    spec fn bytecode(&self) -> Seq<u8>;

    fn to_bytecode(&self) -> (r: Vec<u8>)
        requires
            self.encodable(),
        ensures
            r@ == self.bytecode(),
    ;
}

impl UntypedAst {
    /// Encodes the program under `mapping`.
    pub fn to_bytecode_with_mapping<M: OpCodeMapping>(&self, mapping: &M) -> (r: Vec<u8>)
        requires
            fits_wire_format(self@),
        ensures
            r@ == encode(self@, *mapping),
        decreases self,
    {
        match self {
            UntypedAst::IntLiteral(val) => {
                let u: u32 = #[verifier::truncate] (*val as u32);
                let mut bytes: Vec<u8> = Vec::with_capacity(5);
                bytes.push(INT_LITERAL_TAG);
                bytes.push(#[verifier::truncate] ((u >> 24u32) as u8));
                bytes.push(#[verifier::truncate] (((u >> 16u32) & 0xffu32) as u8));
                bytes.push(#[verifier::truncate] (((u >> 8u32) & 0xffu32) as u8));
                bytes.push(#[verifier::truncate] ((u & 0xffu32) as u8));
                assert(bytes@ =~= encode(self@, *mapping));
                bytes
            },
            UntypedAst::Instruction(op) => {
                let b = mapping.opcode_byte(op);
                let bytes: Vec<u8> = vec![b];
                assert(bytes@ =~= encode(self@, *mapping));
                bytes
            },
            UntypedAst::Sublist(children) => {
                let ghost ts = trees_of(children@);
                proof {
                    lemma_trees_of(children@);
                }
                let mut payload: Vec<u8> = Vec::new();
                let mut i: usize = 0;
                while i < children.len()
                    invariant
                        i <= children.len(),
                        *self == UntypedAst::Sublist(*children),
                        ts == trees_of(children@),
                        ts.len() == children@.len(),
                        forall|k: int| 0 <= k < children@.len() ==> #[trigger] ts[k] == children@[k]@,
                        fits_wire_format(self@),
                        self@ == Tree::Block(ts),
                        payload@ == encode_all(ts.subrange(0, i as int), *mapping),
                    decreases children.len() - i,
                {
                    proof {
                        lemma_fits_all_index(ts, i as int);
                        vstd::std_specs::vec::axiom_vec_index_decreases(*children, i as int);
                    }
                    let mut child_bytes = children[i].to_bytecode_with_mapping(mapping);
                    payload.append(&mut child_bytes);
                    proof {
                        let s1 = ts.subrange(0, i as int + 1);
                        assert(s1.subrange(0, s1.len() - 1) =~= ts.subrange(0, i as int));
                    }
                    i = i + 1;
                }
                proof {
                    assert(ts.subrange(0, ts.len() as int) =~= ts);
                    lemma_encode_all_len(ts, *mapping);
                }
                let n: usize = payload.len();
                let mut bytes: Vec<u8> = Vec::with_capacity(3 + n);
                bytes.push(SUBLIST_TAG);
                bytes.push((n / 256) as u8);
                bytes.push((n % 256) as u8);
                bytes.append(&mut payload);
                assert(bytes@ =~= encode(self@, *mapping));
                bytes
            },
        }
    }
}

/// A sequence fits the wire format exactly when each of its trees does.
pub proof fn lemma_fits_all_index(s: Seq<Tree>, i: int)
    requires
        fits_all(s),
        0 <= i < s.len(),
    ensures
        fits_wire_format(s[i]),
    decreases s.len(),
{
    if i < s.len() - 1 {
        lemma_fits_all_index(s.subrange(0, s.len() - 1), i);
        assert(s.subrange(0, s.len() - 1)[i] == s[i]);
    }
}

/// A prefix never encodes longer than the whole sequence.
pub proof fn lemma_enc_len_all_prefix(s: Seq<Tree>, j: int)
    requires
        0 <= j <= s.len(),
    ensures
        enc_len_all(s.subrange(0, j)) <= enc_len_all(s),
    decreases s.len(),
{
    if j < s.len() {
        let t = s.subrange(0, s.len() - 1);
        lemma_enc_len_all_prefix(t, j);
        assert(t.subrange(0, j) =~= s.subrange(0, j));
    } else {
        assert(s.subrange(0, j) =~= s);
    }
}

impl UntypedAst {
    /// Length of the bytecode, or `None` when some block's payload would not fit
    /// its 16-bit length field.
    pub fn encoded_len(&self) -> (r: Option<usize>)
        ensures
            r == (if fits_wire_format(self@) { Some(enc_len(self@) as usize) } else { None }),
        decreases self,
    {
        match self {
            UntypedAst::IntLiteral(_) => Some(5),
            UntypedAst::Instruction(_) => Some(1),
            UntypedAst::Sublist(children) => {
                let ghost ts = trees_of(children@);
                proof {
                    lemma_trees_of(children@);
                }
                let mut total: usize = 0;
                let mut i: usize = 0;
                while i < children.len()
                    invariant
                        i <= children.len(),
                        *self == UntypedAst::Sublist(*children),
                        ts == trees_of(children@),
                        ts.len() == children@.len(),
                        forall|k: int| 0 <= k < children@.len() ==> #[trigger] ts[k] == children@[k]@,
                        self@ == Tree::Block(ts),
                        total == enc_len_all(ts.subrange(0, i as int)),
                        fits_all(ts.subrange(0, i as int)),
                        total <= MAX_SUBLIST_PAYLOAD,
                    decreases children.len() - i,
                {
                    proof {
                        vstd::std_specs::vec::axiom_vec_index_decreases(*children, i as int);
                    }
                    let c = children[i].encoded_len();
                    let ghost s1 = ts.subrange(0, i as int + 1);
                    proof {
                        assert(s1.subrange(0, s1.len() - 1) =~= ts.subrange(0, i as int));
                    }
                    match c {
                        None => {
                            proof {
                                if fits_all(ts) {
                                    lemma_fits_all_index(ts, i as int);
                                }
                            }
                            return None;
                        },
                        Some(l) => {
                            if l > MAX_SUBLIST_PAYLOAD - total {
                                proof {
                                    lemma_enc_len_all_prefix(ts, i as int + 1);
                                }
                                return None;
                            }
                            total = total + l;
                        },
                    }
                    i = i + 1;
                }
                proof {
                    assert(ts.subrange(0, ts.len() as int) =~= ts);
                }
                Some(total + 3)
            },
        }
    }

    /// Whether the program can be encoded: every block's payload fits 16 bits.
    pub fn is_encodable(&self) -> (r: bool)
        ensures
            r == fits_wire_format(self@),
    {
        self.encoded_len().is_some()
    }
}

impl Push3Ast for UntypedAst {
    open spec fn encodable(&self) -> bool {
        fits_wire_format(self@)
    }

    open spec fn bytecode(&self) -> Seq<u8> {
        encode(self@, DefaultOpCodeMapping)
    }

    fn to_bytecode(&self) -> (r: Vec<u8>) {
        self.to_bytecode_with_mapping(&DefaultOpCodeMapping)
    }
}

} // verus!
