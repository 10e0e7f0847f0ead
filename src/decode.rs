//! The decode engine: matching templates against a bit stream and walking a
//! buffer instruction by instruction.

use vstd::prelude::*;
use vstd::arithmetic::div_mod::lemma_fundamental_div_mod_converse;
use crate::cursor::{bits_of, bits_value, BitCursor};
use crate::template::{
    field_ok, two_pow, valid_fields, Instruction, InstructionCode, SubInstruction,
    SubInstructionCode, TemplateModel, TemplateRegistry,
};

verus! {

/// One resolved field of a decoded instruction: its kind and its value.
#[derive(Clone, Copy, Debug, PartialEq, Eq, Structural)]
pub struct Field {
    pub kind: SubInstructionCode,
    pub value: u32,
}

/// The value most recently resolved for `kind`, if any.
pub open spec fn lookup(fields: Seq<Field>, kind: SubInstructionCode) -> Option<u32>
    decreases fields.len(),
{
    if fields.len() == 0 {
        None
    } else if fields.last().kind == kind {
        Some(fields.last().value)
    } else {
        lookup(fields.drop_last(), kind)
    }
}

/// How many displacement bytes follow a RegisterOrMemory field, given the
/// addressing mode resolved before it: none for register-direct (`11`), one
/// for mode `01`, two for mode `10`, and for mode `00` none unless the
/// register/memory code is the direct-address escape `110`, which takes two.
pub open spec fn displacement_len(mode: Option<u32>, rm: nat) -> nat {
    match mode {
        Some(m) => if m == 0 {
            if rm == 6 {
                2
            } else {
                0
            }
        } else if m == 1 {
            1
        } else if m == 2 {
            2
        } else {
            0
        },
        None => 0,
    }
}

/// The little-endian number in the `len` bytes (0, 1 or 2) starting at bit `pos`.
pub open spec fn displacement_value(bits: Seq<bool>, pos: nat, len: nat) -> nat {
    if len == 0 {
        0
    } else if len == 1 {
        bits_value(bits, pos as int, 8)
    } else {
        bits_value(bits, pos as int, 8) + 256 * bits_value(bits, pos + 8int, 8)
    }
}

/// Progress of one template match: fields resolved so far, the displacement
/// read, and the bit position reached.
pub struct MatchState {
    pub fields: Seq<Field>,
    pub displacement_len: nat,
    pub displacement: nat,
    pub pos: nat,
}

/// The state at the start of a match at bit `pos`.
pub open spec fn start_state(pos: nat) -> MatchState {
    MatchState { fields: Seq::empty(), displacement_len: 0, displacement: 0, pos }
}

/// Outcome of matching one template.
pub enum Attempt {
    Matched(MatchState),
    Mismatch,
    EndOfInput,
}

/// Matches `fields` against `bits` from state `st`, field by field: literals
/// must equal their value, implied fields add their constant without reading,
/// a RegisterOrMemory field is followed by its displacement bytes, and a
/// DataLow field is followed by a DataHigh byte when the width resolved so
/// far is 1. Any read past the end gives `EndOfInput`.
pub open spec fn match_fields(fields: Seq<SubInstruction>, bits: Seq<bool>, st: MatchState) -> Attempt
    decreases fields.len(),
{
    if fields.len() == 0 {
        Attempt::Matched(st)
    } else {
        let f = fields[0];
        let rest = fields.drop_first();
        let size = f.size as nat;
        let end = st.pos + size;
        let v = bits_value(bits, st.pos as int, size);
        match f.code {
            SubInstructionCode::ImpliedWidth => match_fields(
                rest,
                bits,
                MatchState {
                    fields: st.fields.push(Field { kind: SubInstructionCode::Width, value: f.value as u32 }),
                    ..st
                },
            ),
            SubInstructionCode::ImpliedDirection => match_fields(
                rest,
                bits,
                MatchState {
                    fields: st.fields.push(Field { kind: SubInstructionCode::Direction, value: f.value as u32 }),
                    ..st
                },
            ),
            _ => if end > bits.len() {
                Attempt::EndOfInput
            } else {
                match f.code {
                    SubInstructionCode::Literal => if v != f.value as nat {
                        Attempt::Mismatch
                    } else {
                        match_fields(rest, bits, MatchState { pos: end, ..st })
                    },
                    SubInstructionCode::RegisterOrMemory => {
                        let dl = displacement_len(lookup(st.fields, SubInstructionCode::AddressingMode), v);
                        if end + 8 * dl > bits.len() {
                            Attempt::EndOfInput
                        } else {
                            match_fields(
                                rest,
                                bits,
                                MatchState {
                                    fields: st.fields.push(Field { kind: f.code, value: v as u32 }),
                                    displacement_len: dl,
                                    displacement: displacement_value(bits, end, dl),
                                    pos: end + 8 * dl,
                                },
                            )
                        }
                    },
                    SubInstructionCode::DataLow => {
                        let fs = st.fields.push(Field { kind: f.code, value: v as u32 });
                        if lookup(st.fields, SubInstructionCode::Width) == Some(1u32) {
                            if end + 8 > bits.len() {
                                Attempt::EndOfInput
                            } else {
                                let hi = Field { kind: SubInstructionCode::DataHigh, value: bits_value(bits, end as int, 8) as u32 };
                                match_fields(rest, bits, MatchState { fields: fs.push(hi), pos: end + 8, ..st })
                            }
                        } else {
                            match_fields(rest, bits, MatchState { fields: fs, pos: end, ..st })
                        }
                    },
                    _ => match_fields(
                        rest,
                        bits,
                        MatchState { fields: st.fields.push(Field { kind: f.code, value: v as u32 }), pos: end, ..st },
                    ),
                }
            },
        }
    }
}

/// Why one template did not match.
#[derive(Clone, Copy, Debug, PartialEq, Eq, Structural)]
enum MatchFailure {
    Mismatch,
    EndOfInput,
}

/// What a successful executable match produced.
struct Matched {
    fields: Vec<Field>,
    displacement_len: usize,
    displacement: u32,
    end: BitCursor,
}

fn lookup_field(fields: &Vec<Field>, kind: SubInstructionCode) -> (r: Option<u32>)
    ensures
        r == lookup(fields@, kind),
{
    let mut j: usize = fields.len();
    assert(fields@.subrange(0, j as int) =~= fields@);
    while j > 0
        invariant
            j <= fields@.len(),
            lookup(fields@, kind) == lookup(fields@.subrange(0, j as int), kind),
        decreases j,
    {
        let f = fields[j - 1];
        proof {
            assert(fields@.subrange(0, j as int).drop_last() =~= fields@.subrange(0, j - 1));
        }
        if f.kind == kind {
            return Some(f.value);
        }
        j = j - 1;
    }
    None
}

pub proof fn lemma_two_pow_8()
    ensures
        two_pow(8) == 256,
{
    reveal_with_fuel(two_pow, 9);
}

/// Matches template `t` at cursor `start`, without touching any other state.
fn match_template(t: &Instruction, bytes: &[u8], start: BitCursor) -> (r: Result<Matched, MatchFailure>)
    requires
        valid_fields(t@.fields),
        start.well_formed(),
        start.pos() <= bits_of(bytes@).len(),
    ensures
        match match_fields(t@.fields, bits_of(bytes@), start_state(start.pos())) {
            Attempt::Matched(st) => {
                &&& r is Ok
                &&& r->Ok_0.fields@ == st.fields
                &&& r->Ok_0.displacement_len == st.displacement_len
                &&& r->Ok_0.displacement == st.displacement
                &&& r->Ok_0.end.well_formed()
                &&& r->Ok_0.end.pos() == st.pos
                &&& st.pos <= bits_of(bytes@).len()
            },
            Attempt::Mismatch => r == Err::<Matched, MatchFailure>(MatchFailure::Mismatch),
            Attempt::EndOfInput => r == Err::<Matched, MatchFailure>(MatchFailure::EndOfInput),
        },
{
    let ghost bits = bits_of(bytes@);
    let ghost fields = t@.fields;
    let mut cur = start;
    let mut acc: Vec<Field> = Vec::new();
    let mut dl: usize = 0;
    let mut disp: u32 = 0;
    let mut i: usize = 0;
    proof {
        lemma_two_pow_8();
        assert(fields.skip(0) =~= fields);
    }
    while i < t.sub_instructions.len()
        invariant
            fields == t.sub_instructions@,
            valid_fields(fields),
            bits == bits_of(bytes@),
            two_pow(8) == 256,
            cur.well_formed(),
            cur.pos() <= bits.len(),
            i <= fields.len(),
            match_fields(fields, bits, start_state(start.pos())) == match_fields(
                fields.skip(i as int),
                bits,
                MatchState { fields: acc@, displacement_len: dl as nat, displacement: disp as nat, pos: cur.pos() },
            ),
        decreases fields.len() - i,
    {
        let f = t.sub_instructions[i];
        proof {
            assert(field_ok(fields[i as int]));
            assert(fields.skip(i as int)[0] == f);
            assert(fields.skip(i as int).drop_first() =~= fields.skip(i + 1));
        }
        match f.code {
            SubInstructionCode::ImpliedWidth => {
                acc.push(Field { kind: SubInstructionCode::Width, value: f.value as u32 });
            },
            SubInstructionCode::ImpliedDirection => {
                acc.push(Field { kind: SubInstructionCode::Direction, value: f.value as u32 });
            },
            SubInstructionCode::Literal => {
                match cur.consume_bits(bytes, f.size) {
                    Ok(v) => {
                        if v != f.value as u32 {
                            return Err(MatchFailure::Mismatch);
                        }
                    },
                    Err(_) => {
                        return Err(MatchFailure::EndOfInput);
                    },
                }
            },
            SubInstructionCode::RegisterOrMemory => {
                let mode = lookup_field(&acc, SubInstructionCode::AddressingMode);
                let rm = match cur.consume_bits(bytes, f.size) {
                    Ok(v) => v,
                    Err(_) => {
                        return Err(MatchFailure::EndOfInput);
                    },
                };
                let ghost end = cur.pos();
                let n: usize = match mode {
                    Some(m) => if m == 0 {
                        if rm == 6 {
                            2
                        } else {
                            0
                        }
                    } else if m == 1 {
                        1
                    } else if m == 2 {
                        2
                    } else {
                        0
                    },
                    None => 0,
                };
                assert(n as nat == displacement_len(mode, rm as nat));
                let mut d: u32 = 0;
                if n >= 1 {
                    match cur.consume_bits(bytes, 8) {
                        Ok(lo) => {
                            d = lo;
                        },
                        Err(_) => {
                            return Err(MatchFailure::EndOfInput);
                        },
                    }
                }
                if n == 2 {
                    match cur.consume_bits(bytes, 8) {
                        Ok(hi) => {
                            d = d + 256 * hi;
                        },
                        Err(_) => {
                            return Err(MatchFailure::EndOfInput);
                        },
                    }
                }
                assert(d as nat == displacement_value(bits, end, n as nat));
                acc.push(Field { kind: f.code, value: rm });
                dl = n;
                disp = d;
            },
            SubInstructionCode::DataLow => {
                let width = lookup_field(&acc, SubInstructionCode::Width);
                let lo = match cur.consume_bits(bytes, f.size) {
                    Ok(v) => v,
                    Err(_) => {
                        return Err(MatchFailure::EndOfInput);
                    },
                };
                acc.push(Field { kind: f.code, value: lo });
                if width == Some(1u32) {
                    match cur.consume_bits(bytes, 8) {
                        Ok(hi) => {
                            acc.push(Field { kind: SubInstructionCode::DataHigh, value: hi });
                        },
                        Err(_) => {
                            return Err(MatchFailure::EndOfInput);
                        },
                    }
                }
            },
            _ => {
                let v = match cur.consume_bits(bytes, f.size) {
                    Ok(v) => v,
                    Err(_) => {
                        return Err(MatchFailure::EndOfInput);
                    },
                };
                acc.push(Field { kind: f.code, value: v });
            },
        }
        i = i + 1;
    }
    proof {
        assert(fields.skip(i as int).len() == 0);
    }
    Ok(Matched { fields: acc, displacement_len: dl, displacement: disp, end: cur })
}

/// Outcome of trying the templates in registration order at one position:
/// the first one that matches, or none, noting whether some template ran out
/// of input.
pub enum Selection {
    Found(nat, MatchState),
    NotFound(bool),
}

/// `s`, with the end-of-input note set when `end_of_input` holds.
pub open spec fn noting(end_of_input: bool, s: Selection) -> Selection {
    match s {
        Selection::NotFound(e) => Selection::NotFound(end_of_input || e),
        _ => s,
    }
}

/// Tries templates `i..` of `reg` at bit `pos`; the first match wins.
pub open spec fn select_from(reg: Seq<TemplateModel>, bits: Seq<bool>, pos: nat, i: nat) -> Selection
    decreases reg.len() - i,
{
    if i >= reg.len() {
        Selection::NotFound(false)
    } else {
        match match_fields(reg[i as int].fields, bits, start_state(pos)) {
            Attempt::Matched(st) => Selection::Found(i, st),
            Attempt::Mismatch => select_from(reg, bits, pos, i + 1),
            Attempt::EndOfInput => noting(true, select_from(reg, bits, pos, i + 1)),
        }
    }
}

/// A decoded instruction as a mathematical value.
pub struct DecodedModel {
    pub code: InstructionCode,
    pub fields: Seq<Field>,
    pub displacement_len: nat,
    pub displacement: nat,
    pub byte_length: nat,
}

/// Outcome of decoding a whole buffer.
pub enum DecodeOutcome {
    Complete(Seq<DecodedModel>),
    Failed { offset: nat, end_of_input: bool, decoded: Seq<DecodedModel> },
}

/// Decodes from byte `byte` on, after the instructions `done`: at each
/// position the selected template's consumed bits, rounded up to whole
/// bytes, give the instruction's length; decoding stops with success at the
/// end of the input and with failure at the first position where no template
/// matches (or the match consumes nothing).
pub open spec fn decode_from(reg: Seq<TemplateModel>, bits: Seq<bool>, byte: nat, done: Seq<DecodedModel>) -> DecodeOutcome
    decreases bits.len() + 8 - byte * 8
    via decode_from_decreases

{
    if byte * 8 >= bits.len() {
        DecodeOutcome::Complete(done)
    } else {
        match select_from(reg, bits, byte * 8, 0) {
            Selection::NotFound(e) => DecodeOutcome::Failed { offset: byte, end_of_input: e, decoded: done },
            Selection::Found(i, st) => if st.pos <= byte * 8 {
                DecodeOutcome::Failed { offset: byte, end_of_input: false, decoded: done }
            } else {
                let len = ((st.pos - byte * 8 + 7) / 8) as nat;
                let d = DecodedModel {
                    code: reg[i as int].code,
                    fields: st.fields,
                    displacement_len: st.displacement_len,
                    displacement: st.displacement,
                    byte_length: len,
                };
                decode_from(reg, bits, byte + len, done.push(d))
            },
        }
    }
}

/// A match never reads past the input nor moves backwards.
pub proof fn lemma_match_within(fields: Seq<SubInstruction>, bits: Seq<bool>, st: MatchState)
    requires
        st.pos <= bits.len(),
    ensures
        match_fields(fields, bits, st) matches Attempt::Matched(e) ==> st.pos <= e.pos <= bits.len(),
    decreases fields.len(),
{
    if fields.len() > 0 {
        let f = fields[0];
        let rest = fields.drop_first();
        let size = f.size as nat;
        let end = st.pos + size;
        let v = bits_value(bits, st.pos as int, size);
        match f.code {
            SubInstructionCode::ImpliedWidth => lemma_match_within(
                rest,
                bits,
                MatchState {
                    fields: st.fields.push(Field { kind: SubInstructionCode::Width, value: f.value as u32 }),
                    ..st
                },
            ),
            SubInstructionCode::ImpliedDirection => lemma_match_within(
                rest,
                bits,
                MatchState {
                    fields: st.fields.push(Field { kind: SubInstructionCode::Direction, value: f.value as u32 }),
                    ..st
                },
            ),
            _ => if end <= bits.len() {
                match f.code {
                    SubInstructionCode::Literal => {
                        lemma_match_within(rest, bits, MatchState { pos: end, ..st });
                    },
                    SubInstructionCode::RegisterOrMemory => {
                        let dl = displacement_len(lookup(st.fields, SubInstructionCode::AddressingMode), v);
                        if end + 8 * dl <= bits.len() {
                            lemma_match_within(
                                rest,
                                bits,
                                MatchState {
                                    fields: st.fields.push(Field { kind: f.code, value: v as u32 }),
                                    displacement_len: dl,
                                    displacement: displacement_value(bits, end, dl),
                                    pos: end + 8 * dl,
                                },
                            );
                        }
                    },
                    SubInstructionCode::DataLow => {
                        let fs = st.fields.push(Field { kind: f.code, value: v as u32 });
                        if lookup(st.fields, SubInstructionCode::Width) == Some(1u32) {
                            if end + 8 <= bits.len() {
                                let hi = Field { kind: SubInstructionCode::DataHigh, value: bits_value(bits, end as int, 8) as u32 };
                                lemma_match_within(rest, bits, MatchState { fields: fs.push(hi), pos: end + 8, ..st });
                            }
                        } else {
                            lemma_match_within(rest, bits, MatchState { fields: fs, pos: end, ..st });
                        }
                    },
                    _ => lemma_match_within(
                        rest,
                        bits,
                        MatchState { fields: st.fields.push(Field { kind: f.code, value: v as u32 }), pos: end, ..st },
                    ),
                }
            },
        }
    }
}

/// The selected template is a registered one, and its match stays within
/// the input and does not move backwards.
pub proof fn lemma_select_within(reg: Seq<TemplateModel>, bits: Seq<bool>, pos: nat, i: nat)
    requires
        pos <= bits.len(),
    ensures
        select_from(reg, bits, pos, i) matches Selection::Found(j, e) ==> i <= j < reg.len() && pos <= e.pos <= bits.len(),
    decreases reg.len() - i,
{
    if i < reg.len() {
        lemma_match_within(reg[i as int].fields, bits, start_state(pos));
        lemma_select_within(reg, bits, pos, i + 1);
    }
}

/// Decoding an empty buffer succeeds with no instructions.
pub proof fn lemma_decode_empty(reg: Seq<TemplateModel>)
    ensures
        decoding(reg, Seq::empty()) == DecodeOutcome::Complete(Seq::empty()),
{
    assert(bits_of(Seq::<u8>::empty()).len() == 0);
}

/// What was selected is what the selected template's match gave.
pub proof fn lemma_select_found(reg: Seq<TemplateModel>, bits: Seq<bool>, pos: nat, i: nat)
    ensures
        select_from(reg, bits, pos, i) matches Selection::Found(j, e) ==> match_fields(reg[j as int].fields, bits, start_state(pos)) == Attempt::Matched(e),
    decreases reg.len() - i,
{
    if i < reg.len() {
        lemma_select_found(reg, bits, pos, i + 1);
    }
}

#[via_fn]
proof fn decode_from_decreases(reg: Seq<TemplateModel>, bits: Seq<bool>, byte: nat, done: Seq<DecodedModel>) {
    if byte * 8 < bits.len() {
        match select_from(reg, bits, byte * 8, 0) {
            Selection::Found(i, st) => {
                lemma_select_within(reg, bits, byte * 8, 0);
                if st.pos > byte * 8 {
                    let x = st.pos - byte * 8 + 7;
                    assert(x / 8 >= 1) by (nonlinear_arith)
                        requires
                            x >= 8,
                    ;
                    let len = (x / 8) as nat;
                    assert(len == ((st.pos - byte * 8 + 7) / 8) as nat);
                    assert(len >= 1);
                    assert((byte + len) * 8 == byte * 8 + len * 8);
                    assert(bits.len() - (byte + len) * 8 < bits.len() - byte * 8);
                }
            },
            _ => {},
        }
    }
}

/// What decoding `bytes` with the templates `reg` gives.
pub open spec fn decoding(reg: Seq<TemplateModel>, bytes: Seq<u8>) -> DecodeOutcome {
    decode_from(reg, bits_of(bytes), 0, Seq::empty())
}

/// One decoded instruction: its opcode, its resolved fields in the order
/// they were read, its displacement, and how many bytes it took.
#[derive(Debug)]
pub struct DecodedInstruction {
    pub code: InstructionCode,
    pub fields: Vec<Field>,
    pub displacement_len: usize,
    pub displacement: u32,
    pub byte_length: usize,
}

impl View for DecodedInstruction {
    type V = DecodedModel;

    open spec fn view(&self) -> DecodedModel {
        DecodedModel {
            code: self.code,
            fields: self.fields@,
            displacement_len: self.displacement_len as nat,
            displacement: self.displacement as nat,
            byte_length: self.byte_length as nat,
        }
    }
}

impl DecodedInstruction {
    /// The value resolved for `kind`, the latest one if it was resolved twice.
    pub fn field(&self, kind: SubInstructionCode) -> (r: Option<u32>)
        ensures
            r == lookup(self.fields@, kind),
    {
        lookup_field(&self.fields, kind)
    }
}

/// The views of a sequence of decoded instructions.
pub open spec fn models(s: Seq<DecodedInstruction>) -> Seq<DecodedModel> {
    s.map_values(|d: DecodedInstruction| d@)
}

/// No template matched at byte `offset`; `decoded` holds what was decoded
/// before it, and `end_of_input` notes that some template ran out of input
/// there.
#[derive(Debug)]
pub struct DecodeError {
    pub offset: usize,
    pub end_of_input: bool,
    pub decoded: Vec<DecodedInstruction>,
}

fn select(registry: &TemplateRegistry, bytes: &[u8], start: BitCursor) -> (r: Result<(usize, Matched), bool>)
    requires
        registry.well_formed(),
        start.well_formed(),
        start.pos() <= bits_of(bytes@).len(),
    ensures
        match select_from(registry@, bits_of(bytes@), start.pos(), 0) {
            Selection::Found(i, st) => {
                &&& r is Ok
                &&& r->Ok_0.0 == i
                &&& i < registry@.len()
                &&& r->Ok_0.1.fields@ == st.fields
                &&& r->Ok_0.1.displacement_len == st.displacement_len
                &&& r->Ok_0.1.displacement == st.displacement
                &&& r->Ok_0.1.end.well_formed()
                &&& r->Ok_0.1.end.pos() == st.pos
                &&& st.pos <= bits_of(bytes@).len()
            },
            Selection::NotFound(e) => r == Err::<(usize, Matched), bool>(e),
        },
{
    let templates = registry.templates();
    let ghost bits = bits_of(bytes@);
    let ghost reg = registry@;
    let mut end_of_input = false;
    let mut i: usize = 0;
    while i < templates.len()
        invariant
            templates@.map_values(|t: Instruction| t@) == reg,
            reg == registry@,
            registry.well_formed(),
            bits == bits_of(bytes@),
            start.well_formed(),
            start.pos() <= bits.len(),
            i <= templates@.len(),
            select_from(reg, bits, start.pos(), 0) == noting(end_of_input, select_from(reg, bits, start.pos(), i as nat)),
        decreases templates.len() - i,
    {
        proof {
            assert(reg[i as int] == templates@[i as int]@);
            assert(valid_fields(reg[i as int].fields));
        }
        match match_template(&templates[i], bytes, start) {
            Ok(m) => {
                return Ok((i, m));
            },
            Err(MatchFailure::Mismatch) => {},
            Err(MatchFailure::EndOfInput) => {
                end_of_input = true;
            },
        }
        i = i + 1;
    }
    Err(end_of_input)
}

/// Decodes `bytes` from its start, instruction by instruction, trying the
/// registry's templates in order at each position. On success every byte
/// belongs to exactly one instruction; on failure the error gives the byte
/// offset where no template matched and the instructions decoded before it.
pub fn decode(registry: &TemplateRegistry, bytes: &[u8]) -> (r: Result<Vec<DecodedInstruction>, DecodeError>)
    requires
        registry.well_formed(),
    ensures
        match decoding(registry@, bytes@) {
            DecodeOutcome::Complete(s) => r is Ok && models(r->Ok_0@) == s,
            DecodeOutcome::Failed { offset, end_of_input, decoded } => {
                &&& r is Err
                &&& r->Err_0.offset == offset
                &&& r->Err_0.end_of_input == end_of_input
                &&& models(r->Err_0.decoded@) == decoded
            },
        },
{
    let templates = registry.templates();
    let ghost bits = bits_of(bytes@);
    let ghost reg = registry@;
    let mut out: Vec<DecodedInstruction> = Vec::new();
    let mut byte: usize = 0;
    assert(models(out@) =~= Seq::<DecodedModel>::empty());
    while byte < bytes.len()
        invariant
            templates@.map_values(|t: Instruction| t@) == reg,
            reg == registry@,
            registry.well_formed(),
            bits == bits_of(bytes@),
            bits.len() == bytes@.len() * 8,
            byte <= bytes@.len(),
            decoding(reg, bytes@) == decode_from(reg, bits, byte as nat, models(out@)),
        decreases bytes.len() - byte,
    {
        let start = BitCursor::at_byte(byte);
        match select(registry, bytes, start) {
            Err(e) => {
                return Err(DecodeError { offset: byte, end_of_input: e, decoded: out });
            },
            Ok((idx, m)) => {
                let eb = m.end.byte_index;
                let eo = m.end.bit_index;
                if eb < byte || (eb == byte && eo == 0) {
                    return Err(DecodeError { offset: byte, end_of_input: false, decoded: out });
                }
                let len: usize = if eo > 0 {
                    eb - byte + 1
                } else {
                    eb - byte
                };
                proof {
                    let x = (eb * 8 + eo - byte * 8 + 7) as int;
                    if eo > 0 {
                        lemma_fundamental_div_mod_converse(x, 8, (eb - byte + 1) as int, (eo - 1) as int);
                    } else {
                        lemma_fundamental_div_mod_converse(x, 8, (eb - byte) as int, 7);
                    }
                    assert(reg[idx as int] == templates@[idx as int]@);
                }
                let d = DecodedInstruction {
                    code: templates[idx].code,
                    fields: m.fields,
                    displacement_len: m.displacement_len,
                    displacement: m.displacement,
                    byte_length: len,
                };
                proof {
                    assert(models(out@.push(d)) =~= models(out@).push(d@));
                }
                out.push(d);
                byte = byte + len;
            },
        }
    }
    Ok(out)
}

} // verus!
