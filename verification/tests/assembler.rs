use bytevm::assembler::{
    assemble, jump_instruction, tokenize_line, split_lines, register_name_to_index,
    type_name_to_index, parse_int, parse_bool, AsmError,
};

fn build(src: &str) -> Result<Vec<u8>, AsmError> {
    assemble(&src.as_bytes().to_vec())
}

fn be8(v: u64) -> Vec<u8> {
    v.to_be_bytes().to_vec()
}

#[test]
fn move_register_to_register() {
    assert_eq!(build("move a b").unwrap(), vec![1, 0x01]);
    assert_eq!(build("move n sp").unwrap(), vec![1, 13 << 4 | 15]);
}

#[test]
fn move_literals_all_widths() {
    assert_eq!(build("move byte a 65").unwrap(), vec![2, 0, 0, 65]);
    assert_eq!(build("move dbyte c 513").unwrap(), vec![2, 1, 2, 2, 1]);
    assert_eq!(build("move qbyte d 66051").unwrap(), vec![2, 2, 3, 0, 1, 2, 3]);
    let mut expected = vec![2, 3, 0];
    expected.extend(be8(18446744073709551615));
    assert_eq!(build("move obyte a 18446744073709551615").unwrap(), expected);
}

#[test]
fn move_byte_char_literal_fallback() {
    // a one-byte literal that is not numeric is the ASCII code of its
    // first character
    assert_eq!(build("move byte a x").unwrap(), vec![2, 0, 0, 120]);
    assert_eq!(build("move byte a +").unwrap(), vec![2, 0, 0, 43]);
}

#[test]
fn read_absolute_and_register_address() {
    let mut expected = vec![3, 2, 0];
    expected.extend(be8(7));
    assert_eq!(build("read qbyte a 7").unwrap(), expected);
    assert_eq!(build("read byte a b").unwrap(), vec![4, 0, 0x01]);
}

#[test]
fn write_absolute_and_register_address() {
    let mut expected = vec![5, 3, 13];
    expected.extend(be8(5));
    assert_eq!(build("write obyte n 5").unwrap(), expected);
    assert_eq!(build("write byte a b").unwrap(), vec![6, 0, 0x01]);
}

#[test]
fn push_register_and_literal() {
    assert_eq!(build("push byte a").unwrap(), vec![7, 0, 0]);
    assert_eq!(build("push dbyte 300").unwrap(), vec![8, 1, 1, 44]);
    assert_eq!(build("push qbyte 1").unwrap(), vec![8, 2, 0, 0, 0, 1]);
}

#[test]
fn pop_into_register() {
    assert_eq!(build("pop byte c").unwrap(), vec![9, 0, 2]);
    assert_eq!(build("pop obyte sp").unwrap(), vec![9, 3, 15]);
}

#[test]
fn jump_forms() {
    assert_eq!(build("jump 5").unwrap(), {
        let mut v = vec![10];
        v.extend(be8(5));
        v
    });
    assert_eq!(build("jump a").unwrap(), vec![11, 0]);
    assert_eq!(build("jump 5 true").unwrap(), {
        let mut v = vec![12, 1];
        v.extend(be8(5));
        v
    });
    assert_eq!(build("jump a false").unwrap(), vec![13, 0, 0]);
}

#[test]
fn alu_opcodes() {
    let src = "add\nsub\nmul\ndiv\nequal\nless\nnot\nand\nor\nxor\n";
    assert_eq!(build(src).unwrap(), vec![14, 15, 16, 17, 18, 19, 20, 21, 22, 23]);
}

#[test]
fn data_directives() {
    assert_eq!(build("byte 7").unwrap(), vec![7]);
    assert_eq!(build("dbyte 258").unwrap(), vec![1, 2]);
    assert_eq!(build("qbyte 1").unwrap(), vec![0, 0, 0, 1]);
    assert_eq!(build("obyte 1").unwrap(), be8(1));
}

#[test]
fn backward_label_reference() {
    let out = build(":loop\nadd\njump :loop\n").unwrap();
    let mut expected = vec![14, 10];
    expected.extend(be8(0));
    assert_eq!(out, expected);
}

#[test]
fn forward_label_reference() {
    let out = build("jump :end\n:end\nadd\n").unwrap();
    let mut expected = vec![10];
    expected.extend(be8(9));
    expected.push(14);
    assert_eq!(out, expected);
}

#[test]
fn sigilless_label_reference() {
    let out = build("jump target\n:target\nadd\n").unwrap();
    let mut expected = vec![10];
    expected.extend(be8(9));
    expected.push(14);
    assert_eq!(out, expected);
}

#[test]
fn duplicate_references_all_patched() {
    // two references to one label must each be backpatched
    let out = build("jump :e\njump :e\n:e\n").unwrap();
    let mut expected = vec![10];
    expected.extend(be8(18));
    expected.push(10);
    expected.extend(be8(18));
    assert_eq!(out, expected);
}

#[test]
fn conditional_jump_to_label() {
    let out = build("jump :e true\n:e\n").unwrap();
    let mut expected = vec![12, 1];
    expected.extend(be8(10));
    assert_eq!(out, expected);
}

#[test]
fn undeclared_label_fails() {
    let err = build("jump :missing\n").unwrap_err();
    assert_eq!(err, AsmError::LabelNotDeclared { name: b"missing".to_vec() });
}

#[test]
fn undeclared_label_never_resolves_to_zero() {
    // even with another label declared, the missing one still fails
    let err = build(":here\njump :gone\n").unwrap_err();
    assert!(matches!(err, AsmError::LabelNotDeclared { .. }));
}

#[test]
fn error_missing_operand() {
    assert_eq!(build("move").unwrap_err(), AsmError::MissingOperand { line: 1 });
    assert_eq!(build("add\nmove\n").unwrap_err(), AsmError::MissingOperand { line: 2 });
    assert_eq!(build("push byte").unwrap_err(), AsmError::MissingOperand { line: 1 });
}

#[test]
fn error_bad_register() {
    assert_eq!(build("move byte z 5").unwrap_err(), AsmError::BadRegister { line: 1 });
    assert_eq!(build("pop byte zz").unwrap_err(), AsmError::BadRegister { line: 1 });
}

#[test]
fn error_bad_type() {
    assert_eq!(build("write blah a 5").unwrap_err(), AsmError::BadType { line: 1 });
    assert_eq!(build("push blah 5").unwrap_err(), AsmError::BadType { line: 1 });
}

#[test]
fn error_bad_literal() {
    assert_eq!(build("move dbyte a 99999").unwrap_err(), AsmError::BadLiteral { line: 1 });
    assert_eq!(build("push byte 256").unwrap_err(), AsmError::BadLiteral { line: 1 });
    assert_eq!(build("byte 300").unwrap_err(), AsmError::BadLiteral { line: 1 });
}

#[test]
fn error_bad_condition() {
    assert_eq!(build("jump 5 maybe").unwrap_err(), AsmError::BadCondition { line: 1 });
}

#[test]
fn unknown_lines_are_ignored() {
    assert_eq!(build("hello world\nadd\n").unwrap(), vec![14]);
    assert_eq!(build("\n\n  \nadd\n").unwrap(), vec![14]);
}

#[test]
fn offset_advance_equals_bytes_written_for_conditional_jump() {
    // the byte-offset increment an instruction reports must equal the
    // bytes it actually wrote, on the conditional absolute-address path too
    let tokens = tokenize_line(&b"jump 100 true".to_vec());
    let mut out: Vec<u8> = Vec::new();
    let mut pending: Vec<(Vec<u8>, usize)> = Vec::new();
    let n = jump_instruction(&mut pending, &tokens, 1, &mut out).unwrap();
    assert_eq!(n, 10);
    assert_eq!(out.len(), 10);
    let mut expected = vec![12, 1];
    expected.extend(be8(100));
    assert_eq!(out, expected);
    assert!(pending.is_empty());
}

#[test]
fn offset_advance_equals_bytes_written_for_register_move() {
    let tokens = tokenize_line(&b"move a b".to_vec());
    let mut out: Vec<u8> = Vec::new();
    let n = bytevm::assembler::move_instruction(&tokens, 1, &mut out).unwrap();
    assert_eq!(n, out.len());
    assert_eq!(n, 2);
}

#[test]
fn tokenizer_splits_on_whitespace() {
    let tokens = tokenize_line(&b"  move \t byte  a\t65 ".to_vec());
    let words: Vec<Vec<u8>> =
        vec![b"move".to_vec(), b"byte".to_vec(), b"a".to_vec(), b"65".to_vec()];
    assert_eq!(tokens, words);
}

#[test]
fn line_splitter_keeps_empty_middle_lines() {
    let lines = split_lines(&b"a\n\nb\n".to_vec());
    assert_eq!(lines, vec![b"a".to_vec(), b"".to_vec(), b"b".to_vec()]);
}

#[test]
fn register_names() {
    assert_eq!(register_name_to_index(&b"a".to_vec()), Some(0));
    assert_eq!(register_name_to_index(&b"n".to_vec()), Some(13));
    assert_eq!(register_name_to_index(&b"pc".to_vec()), Some(14));
    assert_eq!(register_name_to_index(&b"sp".to_vec()), Some(15));
    assert_eq!(register_name_to_index(&b"o".to_vec()), None);
    assert_eq!(register_name_to_index(&b"ab".to_vec()), None);
}

#[test]
fn type_names() {
    assert_eq!(type_name_to_index(&b"byte".to_vec()), Some(0));
    assert_eq!(type_name_to_index(&b"dbyte".to_vec()), Some(1));
    assert_eq!(type_name_to_index(&b"qbyte".to_vec()), Some(2));
    assert_eq!(type_name_to_index(&b"obyte".to_vec()), Some(3));
    assert_eq!(type_name_to_index(&b"word".to_vec()), None);
}

#[test]
fn integer_parsing() {
    assert_eq!(parse_int(&b"0".to_vec(), 255), Some(0));
    assert_eq!(parse_int(&b"255".to_vec(), 255), Some(255));
    assert_eq!(parse_int(&b"256".to_vec(), 255), None);
    assert_eq!(parse_int(&b"+5".to_vec(), 255), Some(5));
    assert_eq!(parse_int(&b"".to_vec(), 255), None);
    assert_eq!(parse_int(&b"+".to_vec(), 255), None);
    assert_eq!(parse_int(&b"12x".to_vec(), 255), None);
    assert_eq!(
        parse_int(&b"18446744073709551615".to_vec(), u64::MAX),
        Some(18446744073709551615)
    );
    assert_eq!(parse_int(&b"18446744073709551616".to_vec(), u64::MAX), None);
}

#[test]
fn bool_parsing() {
    assert_eq!(parse_bool(&b"true".to_vec()), Some(true));
    assert_eq!(parse_bool(&b"false".to_vec()), Some(false));
    assert_eq!(parse_bool(&b"TRUE".to_vec()), None);
    assert_eq!(parse_bool(&b"1".to_vec()), None);
}

#[test]
fn later_label_declaration_wins() {
    let out = build(":l\nadd\n:l\njump :l\n").unwrap();
    let mut expected = vec![14, 10];
    expected.extend(be8(1));
    assert_eq!(out, expected);
}
