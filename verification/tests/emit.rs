use flatbin::arch::{FieldType, InstructionDefinition, InstructionField, InstructionFormat, RiscVSpec};
use flatbin::emit::flatbin::{emit_flat_binary, EmitError};
use flatbin::node::Node;

fn field(vtype: FieldType, offset: u32, width: u32) -> InstructionField {
    InstructionField { vtype, offset, width }
}

/// `jal rd, target`: opcode in bits 0..7, `rd` in 7..12, target in 12..32.
/// `addi rd, rs, imm`: opcode 0..7, `rd` 7..12, `rs` 15..20, `imm` 20..32.
/// `c.nop`: a sixteen-bit instruction without arguments.
/// `pair lo, hi`: two sixteen-bit values.
/// `wide`: a sixty-four-bit instruction with one value.
fn test_arch() -> RiscVSpec {
    let mut arch = RiscVSpec::new();
    let jump = InstructionFormat::new(
        32,
        vec![
            field(FieldType::Value, 0, 7),
            field(FieldType::Register, 7, 5),
            field(FieldType::Value, 12, 20),
        ],
    )
    .unwrap();
    arch.add_instruction(InstructionDefinition::new("jal".to_string(), jump, vec![1, 2], 0x6f).unwrap());
    let immediate = InstructionFormat::new(
        32,
        vec![
            field(FieldType::Value, 0, 7),
            field(FieldType::Register, 7, 5),
            field(FieldType::Value, 12, 3),
            field(FieldType::Register, 15, 5),
            field(FieldType::Value, 20, 12),
        ],
    )
    .unwrap();
    arch.add_instruction(
        InstructionDefinition::new("addi".to_string(), immediate, vec![1, 3, 4], 0x13).unwrap(),
    );
    let short = InstructionFormat::new(16, vec![]).unwrap();
    arch.add_instruction(InstructionDefinition::new("c.nop".to_string(), short, vec![], 0x0001).unwrap());
    let halves = InstructionFormat::new(
        32,
        vec![field(FieldType::Value, 0, 16), field(FieldType::Value, 16, 16)],
    )
    .unwrap();
    arch.add_instruction(InstructionDefinition::new("pair".to_string(), halves, vec![0, 1], 0).unwrap());
    let long = InstructionFormat::new(64, vec![field(FieldType::Value, 0, 64)]).unwrap();
    arch.add_instruction(InstructionDefinition::new("wide".to_string(), long, vec![0], 0).unwrap());
    arch
}

fn arg(node: Node) -> Node {
    Node::Argument(Box::new(node))
}

fn num(value: u64) -> Node {
    arg(Node::Integer(value))
}

fn reg(index: u32) -> Node {
    arg(Node::Register(index))
}

fn ident(name: &str) -> Node {
    arg(Node::Identifier(name.to_string()))
}

fn insn(name: &str, args: Vec<Node>) -> Node {
    Node::Instruction(name.to_string(), args)
}

fn label(name: &str) -> Node {
    Node::Label(name.to_string())
}

fn emit(nodes: Vec<Node>) -> Result<Vec<u8>, EmitError> {
    emit_flat_binary(&test_arch(), &Node::Root(nodes))
}

/// The bytes of `jal rd, target`.
fn jal_bytes(rd: u32, target: u32) -> Vec<u8> {
    (0x6f | rd << 7 | target << 12).to_le_bytes().to_vec()
}

/// The bytes of `addi rd, rs, imm`.
fn addi_bytes(rd: u32, rs: u32, imm: u32) -> Vec<u8> {
    (0x13 | rd << 7 | rs << 15 | imm << 20).to_le_bytes().to_vec()
}

#[test]
fn forward_jump_is_resolved_at_end_of_stream() {
    let image = emit(vec![label("start"), insn("jal", vec![reg(1), ident("end")]), label("end")]).unwrap();
    assert_eq!(image.len(), 4);
    let word = u32::from_le_bytes([image[0], image[1], image[2], image[3]]);
    assert_eq!(word & 0x7f, 0x6f);
    assert_eq!((word >> 7) & 0x1f, 1);
    assert_eq!(word >> 12, 4);
    assert_eq!(image, vec![0xef, 0x40, 0x00, 0x00]);
}

#[test]
fn empty_program_gives_empty_image() {
    assert_eq!(emit(vec![]), Ok(vec![]));
}

#[test]
fn instructions_follow_one_another() {
    let image = emit(vec![insn("addi", vec![reg(1), reg(2), num(3)]), insn("jal", vec![reg(0), num(8)])]).unwrap();
    let mut expected = addi_bytes(1, 2, 3);
    expected.extend(jal_bytes(0, 8));
    assert_eq!(expected, vec![0x93, 0x00, 0x31, 0x00, 0x6f, 0x80, 0x00, 0x00]);
    assert_eq!(image, expected);
}

#[test]
fn forward_reference_gets_the_encoding_of_a_known_symbol() {
    let deferred = emit(vec![
        insn("addi", vec![reg(1), reg(0), ident("later")]),
        insn("jal", vec![reg(1), ident("later")]),
        label("later"),
    ])
    .unwrap();
    let known = emit(vec![
        insn(".equ", vec![ident("later"), num(8)]),
        insn("addi", vec![reg(1), reg(0), ident("later")]),
        insn("jal", vec![reg(1), ident("later")]),
    ])
    .unwrap();
    assert_eq!(deferred, known);
    let mut expected = addi_bytes(1, 0, 8);
    expected.extend(jal_bytes(1, 8));
    assert_eq!(deferred, expected);
}

#[test]
fn backward_reference_is_encoded_at_once() {
    // The label stands at the cursor, which is not aligned yet; the jump
    // that follows is.
    let image = emit(vec![
        insn("c.nop", vec![]),
        insn("c.nop", vec![]),
        label("here"),
        insn("jal", vec![reg(0), ident("here")]),
    ]);
    let mut expected = vec![0x01, 0x00, 0x00, 0x00, 0x01, 0x00, 0x00, 0x00];
    expected.extend(jal_bytes(0, 6));
    assert_eq!(image, Ok(expected));
}

#[test]
fn forward_reference_is_resolved_at_the_next_global_label() {
    // The flush that `second` causes runs before `second` itself is known,
    // so the jump is encoded by the flush that `third` causes.
    let image = emit(vec![
        insn("jal", vec![reg(1), ident("second")]),
        label("second"),
        insn("jal", vec![reg(2), ident("third")]),
        label("third"),
    ])
    .unwrap();
    let mut expected = jal_bytes(1, 4);
    expected.extend(jal_bytes(2, 8));
    assert_eq!(image, expected);
}

#[test]
fn local_label_is_resolved_inside_its_scope() {
    let image = emit(vec![
        label("main"),
        insn("jal", vec![reg(0), ident(".loop")]),
        label(".loop"),
        insn("jal", vec![reg(0), ident(".loop")]),
        label("next"),
    ])
    .unwrap();
    let mut expected = jal_bytes(0, 4);
    expected.extend(jal_bytes(0, 4));
    assert_eq!(image, expected);
}

#[test]
fn local_label_is_unknown_after_the_next_global_label() {
    let program = vec![
        label("a"),
        label(".x"),
        insn("jal", vec![reg(0), num(0)]),
        label("b"),
        insn("jal", vec![reg(0), ident(".x")]),
    ];
    let waiting = (4usize, insn("jal", vec![reg(0), ident(".x")]));
    assert_eq!(emit(program), Err(EmitError::UnexpectedNodeType(format!("{:?}", waiting))));
}

#[test]
fn local_label_may_be_defined_again_in_the_next_scope() {
    let image = emit(vec![
        label("a"),
        label(".x"),
        insn("jal", vec![reg(0), ident(".x")]),
        label("b"),
        label(".x"),
        insn("jal", vec![reg(0), ident(".x")]),
    ])
    .unwrap();
    let mut expected = jal_bytes(0, 0);
    expected.extend(jal_bytes(0, 4));
    assert_eq!(image, expected);
}

#[test]
fn pending_instruction_loses_the_locals_of_its_scope() {
    // `.x` is defined in the scope of `a`, but the instruction also waits
    // for `far`, and once `far` is known `.x` is out of scope.
    let program = vec![
        label("a"),
        insn("pair", vec![ident(".x"), ident("far")]),
        label(".x"),
        label("far"),
    ];
    let waiting = (0usize, insn("pair", vec![ident(".x"), ident("far")]));
    assert_eq!(emit(program), Err(EmitError::UnexpectedNodeType(format!("{:?}", waiting))));
}

#[test]
fn pending_instruction_is_resolved_while_its_scope_lasts() {
    let program = vec![
        label("a"),
        insn("addi", vec![reg(1), reg(0), ident(".late")]),
        insn("jal", vec![reg(0), ident("far")]),
        label(".late"),
        label("far"),
    ];
    let mut expected = addi_bytes(1, 0, 8);
    expected.extend(jal_bytes(0, 8));
    assert_eq!(emit(program), Ok(expected));
}

#[test]
fn pending_instruction_takes_a_local_of_a_later_scope() {
    let program = vec![label("a"), insn("pair", vec![ident(".late"), num(1)]), label("b"), label(".late")];
    // 4 | 1 << 16
    assert_eq!(emit(program), Ok(vec![4, 0, 1, 0]));
}

#[test]
fn duplicate_global_label_is_refused() {
    assert_eq!(
        emit(vec![label("a"), label("b"), label("a")]),
        Err(EmitError::DuplicateLabel("a".to_string()))
    );
    assert_eq!(
        emit(vec![label("a"), insn("jal", vec![reg(0), num(0)]), label(".l"), label("a")]),
        Err(EmitError::DuplicateLabel("a".to_string()))
    );
}

#[test]
fn duplicate_local_label_is_refused_in_one_scope() {
    assert_eq!(
        emit(vec![label("a"), label(".l"), label(".l")]),
        Err(EmitError::DuplicateLabel(".l".to_string()))
    );
}

#[test]
fn duplicate_constant_is_refused() {
    assert_eq!(
        emit(vec![
            insn(".equ", vec![ident("size"), num(1)]),
            insn("jal", vec![reg(0), num(0)]),
            insn(".define", vec![ident("size"), num(2)]),
        ]),
        Err(EmitError::DuplicateConstant("size".to_string()))
    );
    assert_eq!(
        emit(vec![insn(".EQU", vec![ident("size"), num(1)]), insn(".DEFINE", vec![ident("size"), num(1)])]),
        Err(EmitError::DuplicateConstant("size".to_string()))
    );
}

#[test]
fn constant_is_used_by_a_later_instruction() {
    let image = emit(vec![
        insn(".equ", vec![ident("base"), num(0x20)]),
        insn(".define", vec![ident("top"), ident("base")]),
        insn("addi", vec![reg(3), reg(0), ident("top")]),
    ])
    .unwrap();
    assert_eq!(image, addi_bytes(3, 0, 0x20));
}

#[test]
fn constant_of_the_architecture_resolves_last() {
    let mut arch = test_arch();
    arch.set_const("XLEN".to_string(), 64);
    let image = emit_flat_binary(&arch, &Node::Root(vec![insn("addi", vec![reg(1), reg(0), ident("XLEN")])]));
    assert_eq!(image, Ok(addi_bytes(1, 0, 64)));
    let image = emit_flat_binary(
        &arch,
        &Node::Root(vec![
            insn(".equ", vec![ident("XLEN"), num(32)]),
            insn("addi", vec![reg(1), reg(0), ident("XLEN")]),
        ]),
    );
    assert_eq!(image, Ok(addi_bytes(1, 0, 32)));
}

#[test]
fn label_hides_constant_of_the_same_name() {
    let image = emit(vec![
        insn(".equ", vec![ident("x"), num(0x40)]),
        insn(".equ", vec![ident(".y"), num(0x44)]),
        insn("jal", vec![reg(0), num(0)]),
        label("x"),
        label(".y"),
        insn("addi", vec![reg(1), reg(0), ident("x")]),
        insn("addi", vec![reg(1), reg(0), ident(".y")]),
    ])
    .unwrap();
    let mut expected = jal_bytes(0, 0);
    expected.extend(addi_bytes(1, 0, 4));
    expected.extend(addi_bytes(1, 0, 4));
    assert_eq!(image, expected);
}

#[test]
fn global_label_and_constant_may_share_a_name() {
    assert_eq!(emit(vec![label("x"), insn(".equ", vec![ident("x"), num(1)])]), Ok(vec![]));
}

#[test]
fn alignment_pads_with_zero_bytes() {
    let image = emit(vec![insn("c.nop", vec![]), insn("jal", vec![reg(1), num(2)])]).unwrap();
    let mut expected = vec![0x01, 0x00, 0x00, 0x00];
    expected.extend(jal_bytes(1, 2));
    assert_eq!(image, expected);
}

#[test]
fn alignment_follows_the_architecture() {
    let mut arch = test_arch();
    arch.set_const("IALIGN".to_string(), 16);
    let program = Node::Root(vec![insn("c.nop", vec![]), insn("jal", vec![reg(1), num(2)])]);
    let mut expected = vec![0x01, 0x00];
    expected.extend(jal_bytes(1, 2));
    assert_eq!(emit_flat_binary(&arch, &program), Ok(expected));
    arch.set_const("IALIGN".to_string(), 64);
    let mut expected = vec![0x01, 0x00, 0, 0, 0, 0, 0, 0];
    expected.extend(jal_bytes(1, 2));
    assert_eq!(emit_flat_binary(&arch, &program), Ok(expected));
}

#[test]
fn alignment_of_zero_bits_is_refused() {
    let mut arch = test_arch();
    arch.set_const("IALIGN".to_string(), 0);
    assert_eq!(
        emit_flat_binary(&arch, &Node::Root(vec![insn("c.nop", vec![])])),
        Err(EmitError::InvalidEncoding("c.nop".to_string()))
    );
}

#[test]
fn deferred_instruction_is_aligned_too() {
    let image = emit(vec![insn("c.nop", vec![]), insn("jal", vec![reg(1), ident("end")]), label("end")]).unwrap();
    let mut expected = vec![0x01, 0x00, 0x00, 0x00];
    expected.extend(jal_bytes(1, 8));
    assert_eq!(image, expected);
}

#[test]
fn instruction_longer_than_ilen_is_refused() {
    assert_eq!(emit(vec![insn("wide", vec![num(1)])]), Err(EmitError::InvalidEncoding("wide".to_string())));
    let mut arch = test_arch();
    arch.set_const("ILEN".to_string(), 64);
    assert_eq!(
        emit_flat_binary(&arch, &Node::Root(vec![insn("wide", vec![num(0x0102)])])),
        Ok(vec![2, 1, 0, 0, 0, 0, 0, 0])
    );
    arch.set_const("ILEN".to_string(), 16);
    assert_eq!(
        emit_flat_binary(&arch, &Node::Root(vec![insn("jal", vec![reg(0), num(0)])])),
        Err(EmitError::InvalidEncoding("jal".to_string()))
    );
}

#[test]
fn org_moves_the_cursor_and_fills_with_zero() {
    let image = emit(vec![
        insn("jal", vec![reg(0), num(1)]),
        insn(".org", vec![num(0x100)]),
        insn("jal", vec![reg(1), num(2)]),
    ])
    .unwrap();
    assert_eq!(image.len(), 0x104);
    assert_eq!(image[..4].to_vec(), jal_bytes(0, 1));
    assert!(image[4..0x100].iter().all(|byte| *byte == 0));
    assert_eq!(image[0x100..].to_vec(), jal_bytes(1, 2));
}

#[test]
fn org_alone_extends_the_image() {
    assert_eq!(emit(vec![insn(".ORG", vec![num(3)])]), Ok(vec![0, 0, 0]));
}

#[test]
fn org_backwards_patches_what_was_written() {
    let image = emit(vec![
        insn("jal", vec![reg(0), num(1)]),
        insn("jal", vec![reg(0), num(2)]),
        insn(".org", vec![num(0)]),
        insn("jal", vec![reg(0), num(3)]),
    ])
    .unwrap();
    let mut expected = jal_bytes(0, 3);
    expected.extend(jal_bytes(0, 2));
    assert_eq!(image, expected);
}

#[test]
fn org_takes_a_known_symbol() {
    let image = emit(vec![
        insn(".equ", vec![ident("base"), num(8)]),
        insn(".org", vec![ident("base")]),
        label("entry"),
        insn("jal", vec![reg(0), ident("entry")]),
    ])
    .unwrap();
    let mut expected = vec![0u8; 8];
    expected.extend(jal_bytes(0, 8));
    assert_eq!(image, expected);
}

#[test]
fn org_is_never_deferred() {
    assert_eq!(
        emit(vec![insn(".org", vec![ident("later")]), label("later")]),
        Err(EmitError::InvalidArgumentType(".org".to_string(), 0))
    );
    assert_eq!(
        emit(vec![insn(".org", vec![reg(1)])]),
        Err(EmitError::InvalidArgumentType(".org".to_string(), 0))
    );
    assert_eq!(
        emit(vec![insn(".org", vec![Node::Integer(4)])]),
        Err(EmitError::InvalidArgumentType(".org".to_string(), 0))
    );
}

#[test]
fn org_beyond_the_largest_image_is_refused() {
    assert_eq!(
        emit(vec![insn(".org", vec![num(u64::MAX)])]),
        Err(EmitError::InvalidArgumentType(".org".to_string(), 0))
    );
    assert_eq!(
        emit(vec![insn(".org", vec![num(isize::MAX as u64 + 1)])]),
        Err(EmitError::InvalidArgumentType(".org".to_string(), 0))
    );
}

#[test]
fn org_takes_one_argument() {
    assert_eq!(emit(vec![insn(".org", vec![])]), Err(EmitError::InvalidArgumentCount(".org".to_string())));
    assert_eq!(
        emit(vec![insn(".ORG", vec![num(1), num(2)])]),
        Err(EmitError::InvalidArgumentCount(".ORG".to_string()))
    );
}

#[test]
fn directive_names_have_two_spellings() {
    assert_eq!(emit(vec![insn(".Org", vec![num(1)])]), Err(EmitError::InvalidInstruction(".Org".to_string())));
    assert_eq!(
        emit(vec![insn(".Equ", vec![ident("a"), num(1)])]),
        Err(EmitError::InvalidInstruction(".Equ".to_string()))
    );
}

#[test]
fn equ_takes_an_identifier_and_an_integer() {
    assert_eq!(
        emit(vec![insn(".equ", vec![ident("a")])]),
        Err(EmitError::InvalidArgumentCount(".equ".to_string()))
    );
    assert_eq!(
        emit(vec![insn(".equ", vec![num(1), num(2)])]),
        Err(EmitError::InvalidArgumentType(".equ".to_string(), 0))
    );
    assert_eq!(
        emit(vec![insn(".define", vec![ident("a"), reg(2)])]),
        Err(EmitError::InvalidArgumentType(".define".to_string(), 1))
    );
    assert_eq!(
        emit(vec![insn(".equ", vec![ident("a"), ident("later")]), label("later")]),
        Err(EmitError::InvalidArgumentType(".equ".to_string(), 1))
    );
}

#[test]
fn equ_does_not_reduce_the_name_it_defines() {
    // `a` is known as a label, yet `.equ a 1` defines the constant `a`.
    assert_eq!(
        emit(vec![
            label("a"),
            insn(".equ", vec![ident("a"), num(1)]),
            insn(".equ", vec![ident("a"), num(1)]),
        ]),
        Err(EmitError::DuplicateConstant("a".to_string()))
    );
}

#[test]
fn unknown_instruction_is_refused() {
    assert_eq!(emit(vec![insn("mul", vec![])]), Err(EmitError::InvalidInstruction("mul".to_string())));
}

#[test]
fn wrong_number_of_arguments_is_refused() {
    assert_eq!(emit(vec![insn("jal", vec![reg(1)])]), Err(EmitError::InvalidArgumentCount("jal".to_string())));
    assert_eq!(
        emit(vec![insn("c.nop", vec![num(1)])]),
        Err(EmitError::InvalidArgumentCount("c.nop".to_string()))
    );
}

#[test]
fn wrong_kind_of_argument_is_named_with_its_index() {
    assert_eq!(
        emit(vec![insn("jal", vec![num(1), num(4)])]),
        Err(EmitError::InvalidArgumentType("jal".to_string(), 0))
    );
    assert_eq!(
        emit(vec![insn("addi", vec![reg(1), reg(2), reg(3)])]),
        Err(EmitError::InvalidArgumentType("addi".to_string(), 2))
    );
    assert_eq!(
        emit(vec![insn("addi", vec![reg(1), num(2), reg(3)])]),
        Err(EmitError::InvalidArgumentType("addi".to_string(), 1))
    );
    assert_eq!(
        emit(vec![insn("jal", vec![reg(1), Node::Integer(4)])]),
        Err(EmitError::InvalidArgumentType("jal".to_string(), 1))
    );
}

#[test]
fn wrong_kind_of_argument_is_found_when_the_symbol_is_known() {
    assert_eq!(
        emit(vec![insn("jal", vec![ident("end"), num(4)]), label("end")]),
        Err(EmitError::InvalidArgumentType("jal".to_string(), 0))
    );
}

#[test]
fn value_out_of_range_is_refused() {
    assert_eq!(
        emit(vec![insn("jal", vec![reg(32), num(4)])]),
        Err(EmitError::InvalidEncoding("jal".to_string()))
    );
    assert_eq!(
        emit(vec![insn("addi", vec![reg(1), reg(2), num(0x1000)])]),
        Err(EmitError::InvalidEncoding("addi".to_string()))
    );
    assert_eq!(emit(vec![insn("addi", vec![reg(1), reg(2), num(0xfff)])]), Ok(addi_bytes(1, 2, 0xfff)));
}

#[test]
fn unresolved_symbol_fails_at_end_of_stream() {
    let waiting = (4usize, insn("jal", vec![reg(1), ident("nowhere")]));
    assert_eq!(
        emit(vec![insn("jal", vec![reg(0), num(0)]), insn("jal", vec![reg(1), ident("nowhere")])]),
        Err(EmitError::UnexpectedNodeType(format!("{:?}", waiting)))
    );
    assert_eq!(
        format!("{:?}", waiting),
        "(4, Instruction(\"jal\", [Argument(Register(1)), Argument(Identifier(\"nowhere\"))]))"
    );
}

#[test]
fn first_waiting_instruction_is_named() {
    let first = (0usize, insn("jal", vec![reg(1), ident("p")]));
    assert_eq!(
        emit(vec![
            insn("jal", vec![reg(1), ident("p")]),
            insn("jal", vec![reg(2), ident("q")]),
            insn("jal", vec![reg(3), ident("r")]),
            label("q"),
            label("end"),
        ]),
        Err(EmitError::UnexpectedNodeType(format!("{:?}", first)))
    );
    let second = (4usize, insn("jal", vec![reg(2), ident("q")]));
    assert_eq!(
        emit(vec![
            insn("jal", vec![reg(1), ident("p")]),
            insn("jal", vec![reg(2), ident("q")]),
            insn("jal", vec![reg(3), ident("r")]),
            label("p"),
            label("r"),
        ]),
        Err(EmitError::UnexpectedNodeType(format!("{:?}", second)))
    );
}

#[test]
fn waiting_instruction_is_named_as_it_was_written() {
    // `seven` is known when the instruction is met, `nowhere` never is: the
    // queue keeps the instruction as it was written.
    let written = (0usize, insn("pair", vec![ident("seven"), ident("nowhere")]));
    assert_eq!(
        emit(vec![
            insn(".equ", vec![ident("seven"), num(7)]),
            insn("pair", vec![ident("seven"), ident("nowhere")]),
        ]),
        Err(EmitError::UnexpectedNodeType(format!("{:?}", written)))
    );
    assert_eq!(
        format!("{:?}", written),
        "(0, Instruction(\"pair\", [Argument(Identifier(\"seven\")), Argument(Identifier(\"nowhere\"))]))"
    );
}

#[test]
fn local_known_at_first_sight_is_lost_with_its_scope() {
    // `.x` is known when `pair` is met, but `pair` also waits for `far`. When
    // `far` becomes known, the scope of `.x` has ended.
    let program = vec![
        label("a"),
        label(".x"),
        insn("pair", vec![ident(".x"), ident("far")]),
        label("b"),
        label("far"),
    ];
    let waiting = (0usize, insn("pair", vec![ident(".x"), ident("far")]));
    assert_eq!(emit(program), Err(EmitError::UnexpectedNodeType(format!("{:?}", waiting))));
}

#[test]
fn local_known_at_first_sight_is_used_while_its_scope_lasts() {
    let program = vec![
        label("a"),
        insn("jal", vec![reg(0), num(0)]),
        label(".x"),
        insn("pair", vec![ident(".x"), ident(".y")]),
        label(".y"),
        label("b"),
    ];
    let mut expected = jal_bytes(0, 0);
    // 4 | 8 << 16
    expected.extend(vec![4, 0, 8, 0]);
    assert_eq!(emit(program), Ok(expected));
}

#[test]
fn waiting_instruction_takes_the_value_known_at_the_flush() {
    // `v` is the constant 5 when `pair` is met and the label at offset 4
    // when the queue is flushed: labels come first.
    let program = vec![
        insn(".equ", vec![ident("v"), num(5)]),
        insn("pair", vec![ident("v"), ident("far")]),
        label("v"),
        label("far"),
    ];
    assert_eq!(emit(program), Ok(vec![4, 0, 4, 0]));
    // Without the wait the value of the first moment is encoded.
    let program = vec![
        insn(".equ", vec![ident("v"), num(5)]),
        insn("pair", vec![ident("v"), num(4)]),
        label("v"),
        label("far"),
    ];
    assert_eq!(emit(program), Ok(vec![5, 0, 4, 0]));
}

#[test]
fn node_out_of_place_is_refused() {
    assert_eq!(
        emit(vec![Node::Integer(5)]),
        Err(EmitError::UnexpectedNodeType("Integer(5)".to_string()))
    );
    assert_eq!(
        emit(vec![Node::Identifier("a".to_string())]),
        Err(EmitError::UnexpectedNodeType("Identifier(\"a\")".to_string()))
    );
    assert_eq!(emit(vec![reg(3)]), Err(EmitError::UnexpectedNodeType("Argument(Register(3))".to_string())));
    assert_eq!(
        emit_flat_binary(&test_arch(), &Node::Register(2)),
        Err(EmitError::UnexpectedNodeType("Register(2)".to_string()))
    );
}

#[test]
fn nested_sequence_is_finished_on_its_own() {
    let inner = Node::Root(vec![insn("jal", vec![reg(1), ident("end")]), label("end")]);
    assert_eq!(emit(vec![insn("jal", vec![reg(0), num(0)]), inner]), Ok({
        let mut expected = jal_bytes(0, 0);
        expected.extend(jal_bytes(1, 8));
        expected
    }));
    let inner = Node::Root(vec![insn("jal", vec![reg(1), ident("end")])]);
    let waiting = (0usize, insn("jal", vec![reg(1), ident("end")]));
    assert_eq!(
        emit(vec![inner, label("end")]),
        Err(EmitError::UnexpectedNodeType(format!("{:?}", waiting)))
    );
}

#[test]
fn single_statement_is_emitted_without_a_last_flush() {
    assert_eq!(
        emit_flat_binary(&test_arch(), &insn("jal", vec![reg(1), num(4)])),
        Ok(jal_bytes(1, 4))
    );
    assert_eq!(emit_flat_binary(&test_arch(), &label("a")), Ok(vec![]));
    assert_eq!(
        emit_flat_binary(&test_arch(), &insn("jal", vec![reg(1), ident("end")])),
        Ok(vec![0, 0, 0, 0])
    );
}

#[test]
fn error_in_a_retry_comes_before_the_duplicate_label() {
    assert_eq!(
        emit(vec![
            label("a"),
            insn("jal", vec![ident("b"), num(0)]),
            label("b"),
            label("a"),
        ]),
        Err(EmitError::InvalidArgumentType("jal".to_string(), 0))
    );
}

#[test]
fn label_with_empty_name_is_global() {
    assert_eq!(
        emit(vec![label(""), label(".l"), label(""), label(".l")]),
        Err(EmitError::DuplicateLabel("".to_string()))
    );
}
