use flatbin::arch::{
    bits_to_bytes, EncodeFailure, FieldType, InstructionDefinition, InstructionField,
    InstructionFormat, RiscVSpec,
};

fn field(vtype: FieldType, offset: u32, width: u32) -> InstructionField {
    InstructionField { vtype, offset, width }
}

fn jump_fields() -> Vec<InstructionField> {
    vec![
        field(FieldType::Value, 0, 7),
        field(FieldType::Register, 7, 5),
        field(FieldType::Value, 12, 20),
    ]
}

fn jal() -> InstructionDefinition {
    let format = InstructionFormat::new(32, jump_fields()).unwrap();
    InstructionDefinition::new("jal".to_string(), format, vec![1, 2], 0x6f).unwrap()
}

#[test]
fn bits_round_up_to_whole_bytes() {
    assert_eq!(bits_to_bytes(0), 0);
    assert_eq!(bits_to_bytes(1), 1);
    assert_eq!(bits_to_bytes(8), 1);
    assert_eq!(bits_to_bytes(9), 2);
    assert_eq!(bits_to_bytes(32), 4);
    assert_eq!(bits_to_bytes(u64::MAX), 0x2000_0000_0000_0000);
}

#[test]
fn format_keeps_length_and_fields() {
    let format = InstructionFormat::new(32, jump_fields()).unwrap();
    assert_eq!(format.ilen(), 32);
    assert_eq!(format.fields(), &jump_fields());
}

#[test]
fn format_of_sixty_four_bits_is_accepted() {
    assert!(InstructionFormat::new(64, vec![field(FieldType::Value, 0, 64)]).is_some());
}

#[test]
fn format_longer_than_a_word_is_refused() {
    assert!(InstructionFormat::new(65, vec![]).is_none());
}

#[test]
fn format_with_empty_field_is_refused() {
    assert!(InstructionFormat::new(32, vec![field(FieldType::Value, 3, 0)]).is_none());
}

#[test]
fn format_with_field_outside_the_word_is_refused() {
    assert!(InstructionFormat::new(32, vec![field(FieldType::Value, 28, 5)]).is_none());
    assert!(InstructionFormat::new(32, vec![field(FieldType::Value, u32::MAX, u32::MAX)]).is_none());
    assert!(InstructionFormat::new(32, vec![field(FieldType::Value, 28, 4)]).is_some());
}

#[test]
fn definition_keeps_its_parts() {
    let def = jal();
    assert_eq!(def.name(), "jal");
    assert_eq!(def.args(), &vec![1usize, 2usize]);
    assert_eq!(def.get_format().ilen(), 32);
}

#[test]
fn definition_with_unknown_field_is_refused() {
    let format = InstructionFormat::new(32, jump_fields()).unwrap();
    assert!(InstructionDefinition::new("jal".to_string(), format, vec![1, 3], 0x6f).is_none());
}

#[test]
fn definition_with_too_many_arguments_is_refused() {
    let format = InstructionFormat::new(32, jump_fields()).unwrap();
    assert!(InstructionDefinition::new("x".to_string(), format, vec![0; 65], 0).is_none());
    let format = InstructionFormat::new(32, jump_fields()).unwrap();
    assert!(InstructionDefinition::new("x".to_string(), format, vec![0; 64], 0).is_some());
}

#[test]
fn encoding_packs_fields_least_significant_byte_first() {
    let mut out = vec![0xaa_u8; 6];
    assert_eq!(jal().encode_into(&mut out, 1, &[1, 4]), Ok(()));
    // 0x6f | 1 << 7 | 4 << 12 = 0x0000_40ef
    assert_eq!(out, vec![0xaa, 0xef, 0x40, 0x00, 0x00, 0xaa]);
}

#[test]
fn encoding_depends_on_each_value() {
    let mut a = vec![0u8; 4];
    let mut b = vec![0u8; 4];
    let mut c = vec![0u8; 4];
    assert_eq!(jal().encode_into(&mut a, 0, &[1, 4]), Ok(()));
    assert_eq!(jal().encode_into(&mut b, 0, &[2, 4]), Ok(()));
    assert_eq!(jal().encode_into(&mut c, 0, &[1, 0xfffff]), Ok(()));
    assert_eq!(a, vec![0xef, 0x40, 0x00, 0x00]);
    assert_eq!(b, vec![0x6f, 0x41, 0x00, 0x00]);
    assert_eq!(c, vec![0xef, 0xf0, 0xff, 0xff]);
}

#[test]
fn encoding_refuses_value_out_of_range() {
    let mut out = vec![7u8; 4];
    assert_eq!(jal().encode_into(&mut out, 0, &[32, 4]), Err(EncodeFailure::OutOfRange));
    assert_eq!(jal().encode_into(&mut out, 0, &[1, 0x100000]), Err(EncodeFailure::OutOfRange));
    assert_eq!(out, vec![7u8; 4]);
}

#[test]
fn encoding_refuses_wrong_number_of_values() {
    let mut out = vec![7u8; 4];
    assert_eq!(jal().encode_into(&mut out, 0, &[1]), Err(EncodeFailure::ArgumentCount));
    assert_eq!(jal().encode_into(&mut out, 0, &[1, 2, 3]), Err(EncodeFailure::ArgumentCount));
    assert_eq!(out, vec![7u8; 4]);
}

#[test]
fn encoding_of_a_short_instruction_writes_two_bytes() {
    let format = InstructionFormat::new(16, vec![field(FieldType::Value, 2, 5)]).unwrap();
    let def = InstructionDefinition::new("c.li".to_string(), format, vec![0], 0x4001).unwrap();
    let mut out = vec![0xff_u8; 4];
    assert_eq!(def.encode_into(&mut out, 2, &[3]), Ok(()));
    // 0x4001 | 3 << 2 = 0x400d
    assert_eq!(out, vec![0xff, 0xff, 0x0d, 0x40]);
}

#[test]
fn encoding_of_a_full_word_field() {
    let format = InstructionFormat::new(64, vec![field(FieldType::Value, 0, 64)]).unwrap();
    let def = InstructionDefinition::new("wide".to_string(), format, vec![0], 0).unwrap();
    let mut out = vec![0u8; 8];
    assert_eq!(def.encode_into(&mut out, 0, &[0x0102_0304_0506_0708]), Ok(()));
    assert_eq!(out, vec![8, 7, 6, 5, 4, 3, 2, 1]);
}

#[test]
fn architecture_constants_and_defaults() {
    let mut arch = RiscVSpec::new();
    assert_eq!(arch.get_const("ILEN"), None);
    assert_eq!(arch.ialign_bytes(), 4);
    assert_eq!(arch.max_ilen_bytes(), 4);
    arch.set_const("IALIGN".to_string(), 16);
    arch.set_const("ILEN".to_string(), 48);
    arch.set_const("XLEN".to_string(), 64);
    assert_eq!(arch.get_const("XLEN"), Some(64));
    assert_eq!(arch.ialign_bytes(), 2);
    assert_eq!(arch.max_ilen_bytes(), 6);
    arch.set_const("IALIGN".to_string(), 17);
    assert_eq!(arch.ialign_bytes(), 3);
}

#[test]
fn architecture_finds_instructions_by_name() {
    let mut arch = RiscVSpec::new();
    assert!(arch.get_instruction_by_name("jal").is_none());
    arch.add_instruction(jal());
    assert_eq!(arch.get_instruction_by_name("jal").unwrap().name(), "jal");
    assert!(arch.get_instruction_by_name("JAL").is_none());
}
