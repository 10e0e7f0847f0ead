//! Field descriptors and instruction templates.

use vstd::prelude::*;

verus! {

/// Symbolic identity of an instruction family.
#[derive(Clone, Copy, Debug, PartialEq, Eq, Structural)]
pub enum InstructionCode {
    MOV,
    PUSH,
    POP,
}

/// The kind of one bit-level field inside an instruction template.
#[derive(Clone, Copy, Debug, PartialEq, Eq, Structural)]
pub enum SubInstructionCode {
    Literal,
    Direction,
    SignExtend,
    Width,
    ShiftCount,
    Repeat,
    AddressingMode,
    Register,
    RegisterOrMemory,
    DataLow,
    DataHigh,
    ImpliedWidth,
    ImpliedDirection,
}

/// One field of a template: its kind, how many bits it occupies, its bit
/// offset inside its byte group as the template's author declared it, and,
/// for literal and implied fields, its fixed value. The decoder tracks bit
/// positions itself and does not read `shift`.
#[derive(Clone, Copy, Debug, PartialEq, Eq, Structural)]
pub struct SubInstruction {
    pub code: SubInstructionCode,
    pub size: u8,
    pub shift: u8,
    pub value: u8,
}

/// Number of binary digits of `v`, with at least one digit for zero.
pub open spec fn bit_length(v: nat) -> nat
    decreases v,
{
    if v <= 1 {
        1
    } else {
        1 + bit_length(v / 2)
    }
}

proof fn lemma_bit_length_bound(v: nat, k: nat)
    requires
        k >= 1,
        v < two_pow(k),
    ensures
        bit_length(v) <= k,
        v < two_pow(bit_length(v)),
    decreases v,
{
    if v > 1 {
        assert(k >= 2) by {
            if k == 1 {
                reveal_with_fuel(two_pow, 2);
            }
        }
        lemma_bit_length_bound(v / 2, (k - 1) as nat);
        assert(two_pow(bit_length(v)) == 2 * two_pow(bit_length(v / 2)));
    } else {
        reveal_with_fuel(two_pow, 2);
    }
}

impl SubInstruction {
    pub fn new(code: SubInstructionCode, size: u8, shift: u8, value: u8) -> (r: Self)
        ensures
            r == (SubInstruction { code, size, shift, value }),
    {
        SubInstruction { code, size, shift, value }
    }

    /// A literal field holding `bits`, as wide as its binary digits.
    pub fn literal(bits: u8) -> (r: Self)
        ensures
            r == (SubInstruction { code: SubInstructionCode::Literal, size: bit_length(bits as nat) as u8, shift: 0, value: bits }),
            field_ok(r),
    {
        let mut n: u8 = 1;
        let mut v: u8 = bits;
        proof {
            reveal_with_fuel(two_pow, 9);
            lemma_bit_length_bound(bits as nat, 8);
        }
        while v > 1
            invariant
                1 <= n,
                bit_length(bits as nat) == n - 1 + bit_length(v as nat),
                bit_length(bits as nat) <= 8,
            decreases v,
        {
            v = v / 2;
            n = n + 1;
        }
        SubInstruction::new(SubInstructionCode::Literal, n, 0, bits)
    }

    /// A one-bit Direction field.
    pub fn direction() -> (r: Self)
        ensures
            r == (SubInstruction { code: SubInstructionCode::Direction, size: 1, shift: 0, value: 0 }),
    {
        SubInstruction::new(SubInstructionCode::Direction, 1, 0, 0)
    }

    /// A one-bit Width field.
    pub fn width() -> (r: Self)
        ensures
            r == (SubInstruction { code: SubInstructionCode::Width, size: 1, shift: 0, value: 0 }),
    {
        SubInstruction::new(SubInstructionCode::Width, 1, 0, 0)
    }

    /// A two-bit AddressingMode field.
    pub fn addressing_mode() -> (r: Self)
        ensures
            r == (SubInstruction { code: SubInstructionCode::AddressingMode, size: 2, shift: 0, value: 0 }),
    {
        SubInstruction::new(SubInstructionCode::AddressingMode, 2, 0, 0)
    }

    /// A three-bit Register field.
    pub fn register() -> (r: Self)
        ensures
            r == (SubInstruction { code: SubInstructionCode::Register, size: 3, shift: 0, value: 0 }),
    {
        SubInstruction::new(SubInstructionCode::Register, 3, 0, 0)
    }

    /// A three-bit RegisterOrMemory field.
    pub fn register_or_memory() -> (r: Self)
        ensures
            r == (SubInstruction { code: SubInstructionCode::RegisterOrMemory, size: 3, shift: 0, value: 0 }),
    {
        SubInstruction::new(SubInstructionCode::RegisterOrMemory, 3, 0, 0)
    }

    /// An eight-bit data field, followed by a high byte for word width.
    pub fn data() -> (r: Self)
        ensures
            r == (SubInstruction { code: SubInstructionCode::DataLow, size: 8, shift: 0, value: 0 }),
    {
        SubInstruction::new(SubInstructionCode::DataLow, 8, 0, 0)
    }

    /// A width fixed by the opcode: no bits, constant `value`.
    pub fn implied_width(value: u8) -> (r: Self)
        ensures
            r == (SubInstruction { code: SubInstructionCode::ImpliedWidth, size: 0, shift: 0, value }),
    {
        SubInstruction::new(SubInstructionCode::ImpliedWidth, 0, 0, value)
    }

    /// A direction fixed by the opcode: no bits, constant `value`.
    pub fn implied_direction(value: u8) -> (r: Self)
        ensures
            r == (SubInstruction { code: SubInstructionCode::ImpliedDirection, size: 0, shift: 0, value }),
    {
        SubInstruction::new(SubInstructionCode::ImpliedDirection, 0, 0, value)
    }
}

/// An instruction template: an opcode tag and its fields in decode order.
#[derive(Debug)]
pub struct Instruction {
    pub code: InstructionCode,
    pub sub_instructions: Vec<SubInstruction>,
}

/// Mathematical view of a template.
pub struct TemplateModel {
    pub code: InstructionCode,
    pub fields: Seq<SubInstruction>,
}

impl View for Instruction {
    type V = TemplateModel;

    open spec fn view(&self) -> TemplateModel {
        TemplateModel { code: self.code, fields: self.sub_instructions@ }
    }
}

impl Instruction {
    pub fn new(code: InstructionCode, sub_instructions: Vec<SubInstruction>) -> (r: Self)
        ensures
            r.code == code,
            r.sub_instructions@ == sub_instructions@,
    {
        Instruction { code, sub_instructions }
    }
}

/// `2` to the power `n`.
pub open spec fn two_pow(n: nat) -> nat
    decreases n,
{
    if n == 0 {
        1
    } else {
        2 * two_pow((n - 1) as nat)
    }
}

/// The width each kind of field must declare; a literal declares any width
/// from 1 to 8 that holds its value, and an implied field carries a one-bit
/// constant in zero bits.
pub open spec fn field_ok(f: SubInstruction) -> bool {
    match f.code {
        SubInstructionCode::Literal => 1 <= f.size <= 8 && (f.value as nat) < two_pow(f.size as nat),
        SubInstructionCode::Direction | SubInstructionCode::SignExtend | SubInstructionCode::Width
        | SubInstructionCode::ShiftCount | SubInstructionCode::Repeat => f.size == 1,
        SubInstructionCode::AddressingMode => f.size == 2,
        SubInstructionCode::Register | SubInstructionCode::RegisterOrMemory => f.size == 3,
        SubInstructionCode::DataLow | SubInstructionCode::DataHigh => f.size == 8,
        SubInstructionCode::ImpliedWidth | SubInstructionCode::ImpliedDirection => f.size == 0
            && f.value <= 1,
    }
}

/// The fields, starting `used` bits into a byte, fill whole bytes: no field
/// runs past the end of its byte and the last byte is full. Equivalently, the
/// widths of the fields in each byte group add up to exactly 8.
pub open spec fn packed_from(fields: Seq<SubInstruction>, used: nat) -> bool
    decreases fields.len(),
{
    if fields.len() == 0 {
        used == 0
    } else {
        used + fields[0].size <= 8 && packed_from(fields.drop_first(), ((used + fields[0].size) % 8) as nat)
    }
}

/// A well-formed template: anchored by a leading literal, every field of the
/// width its kind requires, and its fields packed into whole bytes.
pub open spec fn valid_fields(fields: Seq<SubInstruction>) -> bool {
    &&& fields.len() > 0
    &&& fields[0].code == SubInstructionCode::Literal
    &&& forall|i: int| 0 <= i < fields.len() ==> #[trigger] field_ok(fields[i])
    &&& packed_from(fields, 0)
}

fn field_is_ok(f: SubInstruction) -> (r: bool)
    ensures
        r == field_ok(f),
{
    match f.code {
        SubInstructionCode::Literal => {
            if f.size < 1 || f.size > 8 {
                return false;
            }
            let mut limit: u16 = 1;
            let mut i: u8 = 0;
            while i < f.size
                invariant
                    1 <= f.size <= 8,
                    i <= f.size,
                    limit as nat == two_pow(i as nat),
                    limit <= 256,
                    two_pow(i as nat) <= two_pow(8) ==> limit <= 256,
                decreases f.size - i,
            {
                proof {
                    reveal_with_fuel(two_pow, 9);
                    assert(two_pow((i + 1) as nat) == 2 * two_pow(i as nat));
                    assert(i + 1 <= 8);
                    lemma_two_pow_monotone((i + 1) as nat, 8);
                }
                limit = limit * 2;
                i = i + 1;
            }
            (f.value as u16) < limit
        },
        SubInstructionCode::Direction | SubInstructionCode::SignExtend | SubInstructionCode::Width
        | SubInstructionCode::ShiftCount | SubInstructionCode::Repeat => f.size == 1,
        SubInstructionCode::AddressingMode => f.size == 2,
        SubInstructionCode::Register | SubInstructionCode::RegisterOrMemory => f.size == 3,
        SubInstructionCode::DataLow | SubInstructionCode::DataHigh => f.size == 8,
        SubInstructionCode::ImpliedWidth | SubInstructionCode::ImpliedDirection => f.size == 0
            && f.value <= 1,
    }
}

pub proof fn lemma_two_pow_monotone(a: nat, b: nat)
    requires
        a <= b,
    ensures
        two_pow(a) <= two_pow(b),
    decreases b,
{
    if a < b {
        lemma_two_pow_monotone(a, (b - 1) as nat);
    }
}

/// Checks a template's fields against `valid_fields`.
pub fn fields_are_valid(fields: &Vec<SubInstruction>) -> (r: bool)
    ensures
        r == valid_fields(fields@),
{
    if fields.len() == 0 {
        return false;
    }
    if fields[0].code != SubInstructionCode::Literal {
        return false;
    }
    let mut used: u8 = 0;
    let mut i: usize = 0;
    assert(fields@.skip(0) =~= fields@);
    while i < fields.len()
        invariant
            i <= fields@.len(),
            fields@.len() > 0,
            fields@[0].code == SubInstructionCode::Literal,
            used < 8,
            forall|j: int| 0 <= j < i ==> #[trigger] field_ok(fields@[j]),
            packed_from(fields@, 0) == packed_from(fields@.skip(i as int), used as nat),
        decreases fields.len() - i,
    {
        let f = fields[i];
        proof {
            assert(fields@.skip(i as int)[0] == f);
            assert(fields@.skip(i as int).drop_first() =~= fields@.skip(i + 1));
        }
        if !field_is_ok(f) {
            return false;
        }
        if f.size > 8 - used {
            return false;
        }
        used = (used + f.size) % 8;
        i = i + 1;
    }
    proof {
        assert(fields@.skip(i as int).len() == 0);
    }
    used == 0
}

/// MOV, immediate to register/memory form: opcode bits `1100011`, then
/// Width, AddressingMode, Register and RegisterOrMemory.
pub open spec fn mov_fields() -> Seq<SubInstruction> {
    seq![
        SubInstruction { code: SubInstructionCode::Literal, size: 7, shift: 0, value: 0x63 },
        SubInstruction { code: SubInstructionCode::Width, size: 1, shift: 0, value: 0 },
        SubInstruction { code: SubInstructionCode::AddressingMode, size: 2, shift: 0, value: 0 },
        SubInstruction { code: SubInstructionCode::Register, size: 3, shift: 0, value: 0 },
        SubInstruction { code: SubInstructionCode::RegisterOrMemory, size: 3, shift: 0, value: 0 },
    ]
}

/// PUSH register/memory: opcode bits `11111111`, AddressingMode, the
/// sub-opcode `110`, RegisterOrMemory, and an implied word width and
/// direction.
pub open spec fn push_fields() -> Seq<SubInstruction> {
    seq![
        SubInstruction { code: SubInstructionCode::Literal, size: 8, shift: 0, value: 0xFF },
        SubInstruction { code: SubInstructionCode::AddressingMode, size: 2, shift: 0, value: 0 },
        SubInstruction { code: SubInstructionCode::Literal, size: 3, shift: 0, value: 6 },
        SubInstruction { code: SubInstructionCode::RegisterOrMemory, size: 3, shift: 0, value: 0 },
        SubInstruction { code: SubInstructionCode::ImpliedWidth, size: 0, shift: 0, value: 1 },
        SubInstruction { code: SubInstructionCode::ImpliedDirection, size: 0, shift: 0, value: 1 },
    ]
}

pub proof fn lemma_standard_valid()
    ensures
        valid_fields(mov_fields()),
        valid_fields(push_fields()),
{
    reveal_with_fuel(two_pow, 9);
    reveal_with_fuel(packed_from, 7);
    let m = mov_fields();
    let p = push_fields();
    assert forall|i: int| 0 <= i < m.len() implies #[trigger] field_ok(m[i]) by {}
    assert forall|i: int| 0 <= i < p.len() implies #[trigger] field_ok(p[i]) by {}
    assert(m.drop_first() =~= m.subrange(1, 5));
    assert(packed_from(m, 0));
    assert(packed_from(p, 0));
}

/// The standard table: MOV, then PUSH.
pub open spec fn standard_templates() -> Seq<TemplateModel> {
    seq![
        TemplateModel { code: InstructionCode::MOV, fields: mov_fields() },
        TemplateModel { code: InstructionCode::PUSH, fields: push_fields() },
    ]
}

/// The MOV template of the standard table.
pub fn mov_template() -> (r: Instruction)
    ensures
        r@ == (TemplateModel { code: InstructionCode::MOV, fields: mov_fields() }),
{
    proof {
        reveal_with_fuel(bit_length, 8);
    }
    let subs = vec![
        SubInstruction::literal(0b1100011),
        SubInstruction::width(),
        SubInstruction::addressing_mode(),
        SubInstruction::register(),
        SubInstruction::register_or_memory(),
    ];
    assert(subs@ =~= mov_fields());
    Instruction::new(InstructionCode::MOV, subs)
}

/// The PUSH template of the standard table.
pub fn push_template() -> (r: Instruction)
    ensures
        r@ == (TemplateModel { code: InstructionCode::PUSH, fields: push_fields() }),
{
    proof {
        reveal_with_fuel(bit_length, 9);
    }
    let subs = vec![
        SubInstruction::literal(0b11111111),
        SubInstruction::addressing_mode(),
        SubInstruction::literal(0b110),
        SubInstruction::register_or_memory(),
        SubInstruction::implied_width(1),
        SubInstruction::implied_direction(1),
    ];
    assert(subs@ =~= push_fields());
    Instruction::new(InstructionCode::PUSH, subs)
}

/// A template could not be registered because its fields are malformed.
#[derive(Clone, Copy, Debug, PartialEq, Eq, Structural)]
pub struct TemplateConfigurationError {
    /// Position of the first malformed template in registration order.
    pub index: usize,
}

/// The ordered set of templates the decoder tries; read-only once built.
#[derive(Debug)]
pub struct TemplateRegistry {
    templates: Vec<Instruction>,
}

impl View for TemplateRegistry {
    type V = Seq<TemplateModel>;

    closed spec fn view(&self) -> Seq<TemplateModel> {
        self.templates@.map_values(|t: Instruction| t@)
    }
}

impl TemplateRegistry {
    /// Every registered template is well formed.
    pub open spec fn well_formed(&self) -> bool {
        forall|i: int| 0 <= i < self@.len() ==> #[trigger] valid_fields(self@[i].fields)
    }

    /// Builds a registry, checking each template; fails at the first
    /// malformed one.
    pub fn new(templates: Vec<Instruction>) -> (r: Result<Self, TemplateConfigurationError>)
        ensures
            match r {
                Ok(reg) => {
                    &&& reg@ == templates@.map_values(|t: Instruction| t@)
                    &&& reg.well_formed()
                },
                Err(e) => {
                    &&& e.index < templates@.len()
                    &&& !valid_fields(templates@[e.index as int]@.fields)
                    &&& forall|j: int| 0 <= j < e.index ==> #[trigger] valid_fields(templates@[j]@.fields)
                },
            },
            r is Ok <==> forall|j: int| 0 <= j < templates@.len() ==> #[trigger] valid_fields(templates@[j]@.fields),
    {
        let mut i: usize = 0;
        while i < templates.len()
            invariant
                i <= templates@.len(),
                forall|j: int| 0 <= j < i ==> #[trigger] valid_fields(templates@[j]@.fields),
            decreases templates.len() - i,
        {
            if !fields_are_valid(&templates[i].sub_instructions) {
                return Err(TemplateConfigurationError { index: i });
            }
            i = i + 1;
        }
        let reg = TemplateRegistry { templates };
        proof {
            assert forall|k: int| 0 <= k < reg@.len() implies #[trigger] valid_fields(reg@[k].fields) by {
                assert(valid_fields(templates@[k]@.fields));
            }
        }
        Ok(reg)
    }

    /// The standard table: MOV, then PUSH.
    pub fn standard() -> (r: Self)
        ensures
            r.well_formed(),
            r@ == standard_templates(),
    {
        proof {
            lemma_standard_valid();
        }
        let templates = vec![mov_template(), push_template()];
        let r = TemplateRegistry { templates };
        assert(r@ =~= standard_templates());
        r
    }

    /// The registered templates, in registration order.
    pub fn templates(&self) -> (r: &Vec<Instruction>)
        ensures
            r@.map_values(|t: Instruction| t@) == self@,
    {
        &self.templates
    }
}

} // verus!
