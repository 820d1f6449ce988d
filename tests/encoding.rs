use offchain::ast::{DefaultOpCodeMapping, OpCode, Push3Ast, UntypedAst};

fn lit(v: i32) -> UntypedAst {
    UntypedAst::IntLiteral(v)
}

fn op(o: OpCode) -> UntypedAst {
    UntypedAst::Instruction(o)
}

fn list(children: Vec<UntypedAst>) -> UntypedAst {
    UntypedAst::Sublist(children)
}

#[test]
fn int_literal_is_tag_and_big_endian_bytes() {
    assert_eq!(lit(258).to_bytecode(), vec![2, 0, 0, 1, 2]);
    assert_eq!(lit(-1).to_bytecode(), vec![2, 0xff, 0xff, 0xff, 0xff]);
    assert_eq!(lit(i32::MIN).to_bytecode(), vec![2, 0x80, 0, 0, 0]);
}

#[test]
fn instruction_is_one_mapped_byte() {
    assert_eq!(op(OpCode::Plus).to_bytecode(), vec![0x05]);
    assert_eq!(op(OpCode::IfElse).to_bytecode(), vec![0x61]);
    assert_eq!(op(OpCode::Noop).to_bytecode(), vec![0x00]);
}

#[test]
fn empty_sublist_is_three_bytes() {
    assert_eq!(list(vec![]).to_bytecode(), vec![3, 0, 0]);
}

#[test]
fn sublist_is_tag_length_and_children() {
    let t = list(vec![lit(3), op(OpCode::Plus)]);
    assert_eq!(t.to_bytecode(), vec![3, 0, 6, 2, 0, 0, 0, 3, 5]);
}

#[test]
fn sublist_layout_matches_children_encodings() {
    let children = vec![lit(7), list(vec![op(OpCode::Dup), op(OpCode::Mult)]), op(OpCode::Minus)];
    let mut payload: Vec<u8> = Vec::new();
    for c in &children {
        payload.extend(c.to_bytecode());
    }
    let code = list(children).to_bytecode();
    assert_eq!(code[0], 3);
    assert_eq!(((code[1] as usize) << 8) | code[2] as usize, payload.len());
    assert_eq!(code[3..].to_vec(), payload);
}

#[test]
fn encoding_is_deterministic() {
    let t = list(vec![lit(-4), list(vec![op(OpCode::Sin), lit(9)])]);
    assert_eq!(t.to_bytecode(), t.to_bytecode());
    assert_eq!(t.to_bytecode_with_mapping(&DefaultOpCodeMapping), t.to_bytecode());
}

#[test]
fn encoded_length_and_payload_limit() {
    let t = list(vec![lit(1), op(OpCode::Pop)]);
    assert_eq!(t.encoded_len(), Some(9));
    let fits = list((0..13107).map(lit).collect());
    assert!(fits.is_encodable());
    assert_eq!(fits.encoded_len(), Some(65538));
    let too_big = list((0..13108).map(lit).collect());
    assert!(!too_big.is_encodable());
    assert_eq!(too_big.encoded_len(), None);
}

#[test]
fn deep_copy_and_equality() {
    let t = list(vec![lit(1), list(vec![op(OpCode::Abs)])]);
    let c = t.clone();
    assert_eq!(c, t);
    assert!(t.same_as(&c));
    assert_ne!(t, list(vec![lit(1), list(vec![op(OpCode::Cos)])]));
    assert_ne!(t, list(vec![lit(1)]));
}
