use parser_8086::cursor::{BitCursor, EndOfInput};
use parser_8086::decode::{decode, DecodedInstruction};
use parser_8086::template::{
    fields_are_valid, mov_template, push_template, Instruction, InstructionCode, SubInstruction,
    SubInstructionCode, TemplateRegistry,
};

fn single(bytes: &[u8]) -> DecodedInstruction {
    let reg = TemplateRegistry::standard();
    let mut out = decode(&reg, bytes).expect("decodes");
    assert_eq!(out.len(), 1);
    out.remove(0)
}

#[test]
fn mov_memory_without_displacement() {
    let d = single(&[0xC6, 0x00]);
    assert_eq!(d.code, InstructionCode::MOV);
    assert_eq!(d.field(SubInstructionCode::Width), Some(0));
    assert_eq!(d.field(SubInstructionCode::AddressingMode), Some(0));
    assert_eq!(d.field(SubInstructionCode::RegisterOrMemory), Some(0));
    assert_eq!(d.byte_length, 2);
    assert_eq!(d.displacement_len, 0);
}

#[test]
fn mov_with_direction_bit_does_not_pack_into_bytes() {
    let t = Instruction::new(
        InstructionCode::MOV,
        vec![
            SubInstruction::literal(0b1100011),
            SubInstruction::direction(),
            SubInstruction::width(),
            SubInstruction::addressing_mode(),
            SubInstruction::register(),
            SubInstruction::register_or_memory(),
        ],
    );
    let err = TemplateRegistry::new(vec![push_template(), t]).unwrap_err();
    assert_eq!(err.index, 1);
}

#[test]
fn push_width_comes_from_implied_field() {
    let d = single(&[0xFF, 0xF0]);
    assert_eq!(d.code, InstructionCode::PUSH);
    assert_eq!(d.field(SubInstructionCode::Width), Some(1));
    assert_eq!(d.field(SubInstructionCode::Direction), Some(1));
    assert_eq!(d.field(SubInstructionCode::AddressingMode), Some(3));
    assert_eq!(d.field(SubInstructionCode::RegisterOrMemory), Some(0));
    assert_eq!(d.byte_length, 2);
    assert_eq!(d.fields.len(), 4);
}

#[test]
fn empty_buffer_decodes_to_nothing() {
    let reg = TemplateRegistry::standard();
    let out = decode(&reg, &[]).expect("decodes");
    assert!(out.is_empty());
}

#[test]
fn truncated_displacement_fails_at_instruction_start() {
    let reg = TemplateRegistry::standard();
    // mode 10 asks for two displacement bytes; only one is there
    let err = decode(&reg, &[0xC6, 0x80, 0x01]).unwrap_err();
    assert_eq!(err.offset, 0);
    assert!(err.end_of_input);
    assert!(err.decoded.is_empty());
}

#[test]
fn truncated_second_instruction_keeps_first() {
    let reg = TemplateRegistry::standard();
    let err = decode(&reg, &[0xFF, 0xF0, 0xC6]).unwrap_err();
    assert_eq!(err.offset, 2);
    assert!(err.end_of_input);
    assert_eq!(err.decoded.len(), 1);
    assert_eq!(err.decoded[0].code, InstructionCode::PUSH);
}

#[test]
fn unknown_opcode_fails_without_end_of_input() {
    let reg = TemplateRegistry::standard();
    let err = decode(&reg, &[0xC6, 0xC0, 0x00, 0x00]).unwrap_err();
    assert_eq!(err.offset, 2);
    assert!(!err.end_of_input);
    assert_eq!(err.decoded.len(), 1);
}

fn general() -> Instruction {
    Instruction::new(
        InstructionCode::MOV,
        vec![
            SubInstruction::literal(0xFF),
            SubInstruction::addressing_mode(),
            SubInstruction::register(),
            SubInstruction::register_or_memory(),
        ],
    )
}

fn specific() -> Instruction {
    Instruction::new(
        InstructionCode::POP,
        vec![
            SubInstruction::literal(0xFF),
            SubInstruction::literal(0b11),
            SubInstruction::literal(0b110),
            SubInstruction::register_or_memory(),
        ],
    )
}

#[test]
fn more_specific_template_registered_first_wins() {
    let reg = TemplateRegistry::new(vec![specific(), general()]).unwrap();
    let out = decode(&reg, &[0xFF, 0xF0]).unwrap();
    assert_eq!(out.len(), 1);
    assert_eq!(out[0].code, InstructionCode::POP);
    let other = decode(&reg, &[0xFF, 0xC8]).unwrap();
    assert_eq!(other[0].code, InstructionCode::MOV);
    assert_eq!(other[0].field(SubInstructionCode::Register), Some(1));
}

#[test]
fn general_template_registered_first_shadows() {
    let reg = TemplateRegistry::new(vec![general(), specific()]).unwrap();
    let out = decode(&reg, &[0xFF, 0xF0]).unwrap();
    assert_eq!(out[0].code, InstructionCode::MOV);
    assert_eq!(out[0].field(SubInstructionCode::Register), Some(6));
}

#[test]
fn encoded_sequence_decodes_to_same_fields() {
    let reg = TemplateRegistry::standard();
    // MOV w=1 mod=01 reg=010 rm=011 disp8=0x7F; PUSH mod=10 rm=101 disp16=0x1234; MOV w=0 mod=00 rm=110 disp16=0xBEEF
    let bytes = [0xC7, 0x53, 0x7F, 0xFF, 0xB5, 0x34, 0x12, 0xC6, 0x26, 0xEF, 0xBE];
    let out = decode(&reg, &bytes).unwrap();
    assert_eq!(out.len(), 3);
    assert_eq!(out[0].code, InstructionCode::MOV);
    assert_eq!(out[0].field(SubInstructionCode::Width), Some(1));
    assert_eq!(out[0].field(SubInstructionCode::AddressingMode), Some(1));
    assert_eq!(out[0].field(SubInstructionCode::Register), Some(2));
    assert_eq!(out[0].field(SubInstructionCode::RegisterOrMemory), Some(3));
    assert_eq!(out[0].displacement_len, 1);
    assert_eq!(out[0].displacement, 0x7F);
    assert_eq!(out[0].byte_length, 3);
    assert_eq!(out[1].code, InstructionCode::PUSH);
    assert_eq!(out[1].field(SubInstructionCode::AddressingMode), Some(2));
    assert_eq!(out[1].field(SubInstructionCode::RegisterOrMemory), Some(5));
    assert_eq!(out[1].displacement_len, 2);
    assert_eq!(out[1].displacement, 0x1234);
    assert_eq!(out[1].byte_length, 4);
    assert_eq!(out[2].field(SubInstructionCode::Width), Some(0));
    assert_eq!(out[2].field(SubInstructionCode::Register), Some(4));
    assert_eq!(out[2].field(SubInstructionCode::RegisterOrMemory), Some(6));
    assert_eq!(out[2].displacement_len, 2);
    assert_eq!(out[2].displacement, 0xBEEF);
    assert_eq!(out[2].byte_length, 4);
}

#[test]
fn direct_address_escape_takes_two_bytes() {
    let d = single(&[0xC6, 0x06, 0x34, 0x12]);
    assert_eq!(d.displacement_len, 2);
    assert_eq!(d.displacement, 0x1234);
    assert_eq!(d.byte_length, 4);
}

fn with_data() -> TemplateRegistry {
    let t = Instruction::new(
        InstructionCode::MOV,
        vec![
            SubInstruction::literal(0b1011),
            SubInstruction::width(),
            SubInstruction::register(),
            SubInstruction::data(),
        ],
    );
    TemplateRegistry::new(vec![t]).unwrap()
}

#[test]
fn word_width_reads_data_high_byte() {
    let reg = with_data();
    let out = decode(&reg, &[0xB9, 0x34, 0x12]).unwrap();
    assert_eq!(out.len(), 1);
    assert_eq!(out[0].field(SubInstructionCode::Width), Some(1));
    assert_eq!(out[0].field(SubInstructionCode::Register), Some(1));
    assert_eq!(out[0].field(SubInstructionCode::DataLow), Some(0x34));
    assert_eq!(out[0].field(SubInstructionCode::DataHigh), Some(0x12));
    assert_eq!(out[0].byte_length, 3);
}

#[test]
fn byte_width_reads_one_data_byte() {
    let reg = with_data();
    let out = decode(&reg, &[0xB1, 0x34, 0xB2, 0x56]).unwrap();
    assert_eq!(out.len(), 2);
    assert_eq!(out[0].field(SubInstructionCode::DataLow), Some(0x34));
    assert_eq!(out[0].field(SubInstructionCode::DataHigh), None);
    assert_eq!(out[0].byte_length, 2);
    assert_eq!(out[1].field(SubInstructionCode::Register), Some(2));
}

#[test]
fn implied_width_selects_data_length() {
    let t = Instruction::new(
        InstructionCode::PUSH,
        vec![
            SubInstruction::literal(0b1101010),
            SubInstruction::direction(),
            SubInstruction::implied_width(0),
            SubInstruction::data(),
        ],
    );
    let reg = TemplateRegistry::new(vec![t]).unwrap();
    let out = decode(&reg, &[0xD4, 0x09]).unwrap();
    assert_eq!(out[0].field(SubInstructionCode::DataLow), Some(9));
    assert_eq!(out[0].byte_length, 2);
}

#[test]
fn registry_rejects_bad_widths_and_literals() {
    let wide_register = Instruction::new(
        InstructionCode::MOV,
        vec![SubInstruction::literal(0b11111), SubInstruction::new(SubInstructionCode::Register, 3, 0, 0)],
    );
    assert!(TemplateRegistry::new(vec![wide_register]).is_ok());
    let bad_width = Instruction::new(
        InstructionCode::MOV,
        vec![SubInstruction::literal(0b1111111), SubInstruction::new(SubInstructionCode::Width, 2, 0, 0)],
    );
    assert_eq!(TemplateRegistry::new(vec![bad_width]).unwrap_err().index, 0);
    let overfull_literal = Instruction::new(
        InstructionCode::MOV,
        vec![SubInstruction::new(SubInstructionCode::Literal, 2, 0, 7), SubInstruction::new(SubInstructionCode::Literal, 6, 0, 0)],
    );
    assert!(TemplateRegistry::new(vec![overfull_literal]).is_err());
    let unanchored = Instruction::new(
        InstructionCode::MOV,
        vec![SubInstruction::width(), SubInstruction::literal(0b1111111)],
    );
    assert!(TemplateRegistry::new(vec![unanchored]).is_err());
    assert!(TemplateRegistry::new(vec![]).is_ok());
    assert!(!fields_are_valid(&vec![]));
}

#[test]
fn standard_templates_are_valid() {
    assert!(fields_are_valid(&mov_template().sub_instructions));
    assert!(fields_are_valid(&push_template().sub_instructions));
    assert_eq!(TemplateRegistry::standard().templates().len(), 2);
}

#[test]
fn literal_width_is_its_binary_length() {
    assert_eq!(SubInstruction::literal(0b110).size, 3);
    assert_eq!(SubInstruction::literal(0b1100011).size, 7);
    assert_eq!(SubInstruction::literal(0xFF).size, 8);
    assert_eq!(SubInstruction::literal(0).size, 1);
    assert_eq!(SubInstruction::literal(1).size, 1);
}

#[test]
fn cursor_reads_across_byte_boundary() {
    let bytes = [0b1010_1100u8, 0b0111_0001];
    let mut c = BitCursor::at_byte(0);
    assert_eq!(c.consume_bits(&bytes, 3), Ok(0b101));
    assert_eq!(c.peek_bits(&bytes, 8), Ok(0b0_1100_011));
    assert_eq!(c.consume_bits(&bytes, 8), Ok(0b0_1100_011));
    assert_eq!(c.byte_index, 1);
    assert_eq!(c.bit_index, 3);
    assert_eq!(c.consume_bits(&bytes, 6), Err(EndOfInput));
    assert_eq!(c.byte_index, 1);
    assert_eq!(c.consume_bits(&bytes, 5), Ok(0b10001));
    assert_eq!(c.peek_bits(&bytes, 0), Ok(0));
    assert_eq!(c.peek_bits(&bytes, 1), Err(EndOfInput));
}

#[test]
fn cursor_reads_sixteen_bits() {
    let bytes = [0x12u8, 0x34, 0x56];
    let c = BitCursor::at_byte(1);
    assert_eq!(c.peek_bits(&bytes, 16), Ok(0x3456));
    assert_eq!(c.peek_bits(&bytes, 17), Err(EndOfInput));
    assert_eq!(BitCursor::at_byte(4).peek_bits(&bytes, 0), Err(EndOfInput));
}
