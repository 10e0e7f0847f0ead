//! The encoding a template gives to chosen field values, and the laws that
//! decoding inverts it.

use vstd::prelude::*;
use crate::cursor::{bits_of, bits_value};
use crate::decode::{
    decode_from, decoding, lemma_select_found, lemma_select_within, select_from, start_state, DecodeOutcome, DecodedModel, Selection,
    lemma_two_pow_8,
    displacement_len, displacement_value, lookup, match_fields, Attempt, Field, MatchState,
};
use crate::template::{
    field_ok, lemma_standard_valid, mov_fields, packed_from, push_fields, standard_templates, two_pow,
    valid_fields, SubInstruction, SubInstructionCode, TemplateModel,
};

verus! {

/// `v` written in `n` bits, most significant first.
pub open spec fn encode_value(v: nat, n: nat) -> Seq<bool>
    decreases n,
{
    if n == 0 {
        Seq::empty()
    } else {
        encode_value(v / 2, (n - 1) as nat).push(v % 2 == 1)
    }
}

/// `bits` holds `x` starting at position `at`.
pub open spec fn holds_at(bits: Seq<bool>, at: int, x: Seq<bool>) -> bool {
    &&& 0 <= at
    &&& at + x.len() <= bits.len()
    &&& forall|k: int| 0 <= k < x.len() ==> bits[at + k] == #[trigger] x[k]
}

/// The values chosen for one instruction: one per field (read only for the
/// fields that take a value from the stream), the displacement, and the data
/// high byte used when the width is a word.
pub struct Operands {
    pub values: Seq<nat>,
    pub displacement: nat,
    pub data_high: nat,
}

/// The displacement bytes for `disp` when `len` of them follow, low byte first.
pub open spec fn displacement_bits(disp: nat, len: nat) -> Seq<bool> {
    if len == 0 {
        Seq::empty()
    } else if len == 1 {
        encode_value(disp % 0x100, 8)
    } else {
        encode_value(disp % 0x100, 8) + encode_value(disp / 0x100, 8)
    }
}

/// The part of `disp` that `len` displacement bytes carry.
pub open spec fn displacement_kept(disp: nat, len: nat) -> nat {
    if len == 0 {
        0
    } else if len == 1 {
        disp % 0x100
    } else {
        disp
    }
}

/// The bits that encode `fields` with the values `vals` (and `disp`,
/// `high`), continuing from state `st`, together with the state a decoder
/// reaches after them: the resolved fields it should report.
pub open spec fn encode_fields(
    fields: Seq<SubInstruction>,
    vals: Seq<nat>,
    disp: nat,
    high: nat,
    st: MatchState,
) -> (Seq<bool>, MatchState)
    decreases fields.len(),
{
    if fields.len() == 0 {
        (Seq::empty(), st)
    } else {
        let f = fields[0];
        let rest = fields.drop_first();
        let vs = vals.drop_first();
        let v = vals[0];
        let size = f.size as nat;
        match f.code {
            SubInstructionCode::ImpliedWidth => encode_fields(
                rest,
                vs,
                disp,
                high,
                MatchState {
                    fields: st.fields.push(Field { kind: SubInstructionCode::Width, value: f.value as u32 }),
                    ..st
                },
            ),
            SubInstructionCode::ImpliedDirection => encode_fields(
                rest,
                vs,
                disp,
                high,
                MatchState {
                    fields: st.fields.push(Field { kind: SubInstructionCode::Direction, value: f.value as u32 }),
                    ..st
                },
            ),
            SubInstructionCode::Literal => {
                let e = encode_fields(rest, vs, disp, high, MatchState { pos: st.pos + size, ..st });
                (encode_value(f.value as nat, size) + e.0, e.1)
            },
            SubInstructionCode::RegisterOrMemory => {
                let dl = displacement_len(lookup(st.fields, SubInstructionCode::AddressingMode), v);
                let e = encode_fields(
                    rest,
                    vs,
                    disp,
                    high,
                    MatchState {
                        fields: st.fields.push(Field { kind: f.code, value: v as u32 }),
                        displacement_len: dl,
                        displacement: displacement_kept(disp, dl),
                        pos: st.pos + size + 8 * dl,
                    },
                );
                (encode_value(v, size) + displacement_bits(disp, dl) + e.0, e.1)
            },
            SubInstructionCode::DataLow => {
                let fs = st.fields.push(Field { kind: f.code, value: v as u32 });
                if lookup(st.fields, SubInstructionCode::Width) == Some(1u32) {
                    let hi = Field { kind: SubInstructionCode::DataHigh, value: high as u32 };
                    let e = encode_fields(rest, vs, disp, high, MatchState { fields: fs.push(hi), pos: st.pos + size + 8, ..st });
                    (encode_value(v, size) + encode_value(high, 8) + e.0, e.1)
                } else {
                    let e = encode_fields(rest, vs, disp, high, MatchState { fields: fs, pos: st.pos + size, ..st });
                    (encode_value(v, size) + e.0, e.1)
                }
            },
            _ => {
                let e = encode_fields(
                    rest,
                    vs,
                    disp,
                    high,
                    MatchState { fields: st.fields.push(Field { kind: f.code, value: v as u32 }), pos: st.pos + size, ..st },
                );
                (encode_value(v, size) + e.0, e.1)
            },
        }
    }
}

proof fn lemma_encode_value_len(v: nat, n: nat)
    ensures
        encode_value(v, n).len() == n,
    decreases n,
{
    if n > 0 {
        lemma_encode_value_len(v / 2, (n - 1) as nat);
    }
}

/// Reading `n` bits where `v` was written in `n` bits gives back `v`.
pub proof fn lemma_read_encoded(bits: Seq<bool>, at: int, v: nat, n: nat)
    requires
        v < two_pow(n),
        holds_at(bits, at, encode_value(v, n)),
    ensures
        bits_value(bits, at, n) == v,
    decreases n,
{
    lemma_encode_value_len(v, n);
    if n > 0 {
        let x = encode_value(v, n);
        let y = encode_value(v / 2, (n - 1) as nat);
        lemma_encode_value_len(v / 2, (n - 1) as nat);
        assert(x == y.push(v % 2 == 1));
        assert forall|k: int| 0 <= k < y.len() implies bits[at + k] == #[trigger] y[k] by {
            assert(x[k] == y[k]);
        }
        lemma_read_encoded(bits, at, v / 2, (n - 1) as nat);
        assert(x[n - 1] == (v % 2 == 1));
        assert(bits[at + n - 1] == x[n - 1]);
    }
}

proof fn lemma_holds_split(bits: Seq<bool>, at: int, x: Seq<bool>, y: Seq<bool>)
    requires
        holds_at(bits, at, x + y),
    ensures
        holds_at(bits, at, x),
        holds_at(bits, at + x.len(), y),
{
    assert forall|k: int| 0 <= k < x.len() implies bits[at + k] == #[trigger] x[k] by {
        assert((x + y)[k] == x[k]);
    }
    assert forall|k: int| 0 <= k < y.len() implies bits[at + x.len() + k] == #[trigger] y[k] by {
        assert((x + y)[x.len() + k] == y[k]);
    }
}

/// One value per field, each fitting its field's width, over well-formed
/// fields. Values for literal and implied fields are not encoded.
pub open spec fn values_fit(fields: Seq<SubInstruction>, vals: Seq<nat>) -> bool {
    &&& vals.len() == fields.len()
    &&& forall|i: int| 0 <= i < fields.len() ==> #[trigger] field_ok(fields[i])
    &&& forall|i: int| 0 <= i < fields.len() ==> (#[trigger] vals[i]) < two_pow(fields[i].size as nat)
}

proof fn lemma_values_fit_rest(fields: Seq<SubInstruction>, vals: Seq<nat>)
    requires
        values_fit(fields, vals),
        fields.len() > 0,
    ensures
        values_fit(fields.drop_first(), vals.drop_first()),
        field_ok(fields[0]),
        vals[0] < two_pow(fields[0].size as nat),
{
    assert forall|i: int| 0 <= i < fields.len() - 1 implies #[trigger] field_ok(fields.drop_first()[i]) by {
        assert(field_ok(fields[i + 1]));
    }
    assert forall|i: int| 0 <= i < fields.len() - 1 implies (#[trigger] vals.drop_first()[i]) < two_pow(
        fields.drop_first()[i].size as nat,
    ) by {
        assert(vals[i + 1] < two_pow(fields[i + 1].size as nat));
    }
    assert(field_ok(fields[0]));
    assert(vals[0] < two_pow(fields[0].size as nat));
}

proof fn lemma_read_displacement(bits: Seq<bool>, at: int, disp: nat, dl: nat)
    requires
        disp < 0x10000,
        dl <= 2,
        holds_at(bits, at, displacement_bits(disp, dl)),
    ensures
        displacement_bits(disp, dl).len() == 8 * dl,
        displacement_value(bits, at as nat, dl) == displacement_kept(disp, dl),
{
    lemma_two_pow_8();
    lemma_encode_value_len(disp % 0x100, 8);
    lemma_encode_value_len(disp / 0x100, 8);
    if dl == 1 {
        lemma_read_encoded(bits, at, disp % 0x100, 8);
    } else if dl == 2 {
        lemma_holds_split(bits, at, encode_value(disp % 0x100, 8), encode_value(disp / 0x100, 8));
        lemma_read_encoded(bits, at, disp % 0x100, 8);
        lemma_read_encoded(bits, at + 8, disp / 0x100, 8);
    }
}

/// Matching a template against bits that hold its encoding of some values
/// succeeds, consumes exactly the encoding, and resolves exactly the fields
/// the encoding was made from.
pub proof fn lemma_match_encoded(
    fields: Seq<SubInstruction>,
    vals: Seq<nat>,
    disp: nat,
    high: nat,
    st: MatchState,
    bits: Seq<bool>,
)
    requires
        values_fit(fields, vals),
        disp < 0x10000,
        high < 0x100,
        holds_at(bits, st.pos as int, encode_fields(fields, vals, disp, high, st).0),
    ensures
        match_fields(fields, bits, st) == Attempt::Matched(encode_fields(fields, vals, disp, high, st).1),
        encode_fields(fields, vals, disp, high, st).1.pos == st.pos + encode_fields(fields, vals, disp, high, st).0.len(),
    decreases fields.len(),
{
    if fields.len() > 0 {
        lemma_values_fit_rest(fields, vals);
        lemma_two_pow_8();
        let f = fields[0];
        let rest = fields.drop_first();
        let vs = vals.drop_first();
        let v = vals[0];
        let size = f.size as nat;
        let at = st.pos as int;
        lemma_encode_value_len(v, size);
        lemma_encode_value_len(f.value as nat, size);
        lemma_encode_value_len(high, 8);
        match f.code {
            SubInstructionCode::ImpliedWidth => {
                lemma_match_encoded(rest, vs, disp, high, MatchState {
                    fields: st.fields.push(Field { kind: SubInstructionCode::Width, value: f.value as u32 }),
                    ..st
                }, bits);
            },
            SubInstructionCode::ImpliedDirection => {
                lemma_match_encoded(rest, vs, disp, high, MatchState {
                    fields: st.fields.push(Field { kind: SubInstructionCode::Direction, value: f.value as u32 }),
                    ..st
                }, bits);
            },
            SubInstructionCode::Literal => {
                let st1 = MatchState { pos: st.pos + size, ..st };
                let e = encode_fields(rest, vs, disp, high, st1);
                lemma_holds_split(bits, at, encode_value(f.value as nat, size), e.0);
                lemma_read_encoded(bits, at, f.value as nat, size);
                lemma_match_encoded(rest, vs, disp, high, st1, bits);
            },
            SubInstructionCode::RegisterOrMemory => {
                let dl = displacement_len(lookup(st.fields, SubInstructionCode::AddressingMode), v);
                let st1 = MatchState {
                    fields: st.fields.push(Field { kind: f.code, value: v as u32 }),
                    displacement_len: dl,
                    displacement: displacement_kept(disp, dl),
                    pos: st.pos + size + 8 * dl,
                };
                let e = encode_fields(rest, vs, disp, high, st1);
                let x = encode_value(v, size);
                let d = displacement_bits(disp, dl);
                lemma_holds_split(bits, at, x + d, e.0);
                lemma_holds_split(bits, at, x, d);
                lemma_read_encoded(bits, at, v, size);
                lemma_read_displacement(bits, at + size, disp, dl);
                lemma_match_encoded(rest, vs, disp, high, st1, bits);
            },
            SubInstructionCode::DataLow => {
                let fs = st.fields.push(Field { kind: f.code, value: v as u32 });
                let x = encode_value(v, size);
                if lookup(st.fields, SubInstructionCode::Width) == Some(1u32) {
                    let hi = Field { kind: SubInstructionCode::DataHigh, value: high as u32 };
                    let st1 = MatchState { fields: fs.push(hi), pos: st.pos + size + 8, ..st };
                    let e = encode_fields(rest, vs, disp, high, st1);
                    let h = encode_value(high, 8);
                    lemma_holds_split(bits, at, x + h, e.0);
                    lemma_holds_split(bits, at, x, h);
                    lemma_read_encoded(bits, at, v, size);
                    lemma_read_encoded(bits, at + size, high, 8);
                    lemma_match_encoded(rest, vs, disp, high, st1, bits);
                } else {
                    let st1 = MatchState { fields: fs, pos: st.pos + size, ..st };
                    let e = encode_fields(rest, vs, disp, high, st1);
                    lemma_holds_split(bits, at, x, e.0);
                    lemma_read_encoded(bits, at, v, size);
                    lemma_match_encoded(rest, vs, disp, high, st1, bits);
                }
            },
            _ => {
                let st1 = MatchState { fields: st.fields.push(Field { kind: f.code, value: v as u32 }), pos: st.pos + size, ..st };
                let e = encode_fields(rest, vs, disp, high, st1);
                lemma_holds_split(bits, at, encode_value(v, size), e.0);
                lemma_read_encoded(bits, at, v, size);
                lemma_match_encoded(rest, vs, disp, high, st1, bits);
            },
        }
    }
}

proof fn lemma_whole_bytes_step(used: nat, size: nat, extra: nat, rest: nat)
    requires
        ((used + size) % 8 + rest) % 8 == 0,
        extra % 8 == 0,
    ensures
        (used + (size + extra + rest)) % 8 == 0,
{
}

/// A template encoding whose fields pack into whole bytes is a whole number
/// of bytes long.
#[verifier::spinoff_prover]
proof fn lemma_encoding_whole_bytes(
    fields: Seq<SubInstruction>,
    vals: Seq<nat>,
    disp: nat,
    high: nat,
    st: MatchState,
    used: nat,
)
    requires
        values_fit(fields, vals),
        packed_from(fields, used),
    ensures
        (used + encode_fields(fields, vals, disp, high, st).0.len()) % 8 == 0,
    decreases fields.len(),
{
    if fields.len() > 0 {
        lemma_values_fit_rest(fields, vals);
        let f = fields[0];
        let rest = fields.drop_first();
        let vs = vals.drop_first();
        let v = vals[0];
        let size = f.size as nat;
        let u1 = ((used + size) % 8) as nat;
        lemma_encode_value_len(v, size);
        lemma_encode_value_len(f.value as nat, size);
        lemma_encode_value_len(high, 8);
        lemma_encode_value_len(disp % 0x100, 8);
        lemma_encode_value_len(disp / 0x100, 8);
        let st1 = if f.code == SubInstructionCode::ImpliedWidth {
            MatchState {
                fields: st.fields.push(Field { kind: SubInstructionCode::Width, value: f.value as u32 }),
                ..st
            }
        } else if f.code == SubInstructionCode::ImpliedDirection {
            MatchState {
                fields: st.fields.push(Field { kind: SubInstructionCode::Direction, value: f.value as u32 }),
                ..st
            }
        } else if f.code == SubInstructionCode::Literal {
            MatchState { pos: st.pos + size, ..st }
        } else if f.code == SubInstructionCode::RegisterOrMemory {
            let dl = displacement_len(lookup(st.fields, SubInstructionCode::AddressingMode), v);
            MatchState {
                fields: st.fields.push(Field { kind: f.code, value: v as u32 }),
                displacement_len: dl,
                displacement: displacement_kept(disp, dl),
                pos: st.pos + size + 8 * dl,
            }
        } else if f.code == SubInstructionCode::DataLow {
            let fs = st.fields.push(Field { kind: f.code, value: v as u32 });
            if lookup(st.fields, SubInstructionCode::Width) == Some(1u32) {
                let hi = Field { kind: SubInstructionCode::DataHigh, value: high as u32 };
                MatchState { fields: fs.push(hi), pos: st.pos + size + 8, ..st }
            } else {
                MatchState { fields: fs, pos: st.pos + size, ..st }
            }
        } else {
            MatchState { fields: st.fields.push(Field { kind: f.code, value: v as u32 }), pos: st.pos + size, ..st }
        };
        let e = encode_fields(rest, vs, disp, high, st1);
        lemma_encoding_whole_bytes(rest, vs, disp, high, st1, u1);
        let whole = encode_fields(fields, vals, disp, high, st).0;
        let extra: nat = (whole.len() - size - e.0.len()) as nat;
        assert(whole.len() == size + extra + e.0.len() && extra % 8 == 0) by {
            let dl = displacement_len(lookup(st.fields, SubInstructionCode::AddressingMode), v);
            if f.code == SubInstructionCode::RegisterOrMemory {
                assert(whole == encode_value(v, size) + displacement_bits(disp, dl) + e.0);
            }
        }
        lemma_whole_bytes_step(used, size, extra, e.0.len());
    }
}

/// One instruction of a program: which registered template, with which values.
pub struct Encoded {
    pub template: nat,
    pub ops: Operands,
}

/// The encoding of instruction `e` when it starts at bit `pos`.
pub open spec fn encode_one(reg: Seq<TemplateModel>, e: Encoded, pos: nat) -> (Seq<bool>, MatchState) {
    encode_fields(reg[e.template as int].fields, e.ops.values, e.ops.displacement, e.ops.data_high, start_state(pos))
}

/// The bits of the program `prog` laid end to end from bit `pos`.
pub open spec fn encode_program(reg: Seq<TemplateModel>, prog: Seq<Encoded>, pos: nat) -> Seq<bool>
    decreases prog.len(),
{
    if prog.len() == 0 {
        Seq::empty()
    } else {
        let e = encode_one(reg, prog[0], pos);
        e.0 + encode_program(reg, prog.drop_first(), pos + e.0.len())
    }
}

/// The instructions a decoder should report for `prog` laid out from `pos`.
pub open spec fn expected_program(reg: Seq<TemplateModel>, prog: Seq<Encoded>, pos: nat) -> Seq<DecodedModel>
    decreases prog.len(),
{
    if prog.len() == 0 {
        Seq::empty()
    } else {
        let e = encode_one(reg, prog[0], pos);
        let d = DecodedModel {
            code: reg[prog[0].template as int].code,
            fields: e.1.fields,
            displacement_len: e.1.displacement_len,
            displacement: e.1.displacement,
            byte_length: e.0.len() / 8,
        };
        seq![d] + expected_program(reg, prog.drop_first(), pos + e.0.len())
    }
}

/// Every instruction of `prog` names a registered template and values that
/// fit it.
pub open spec fn program_fits(reg: Seq<TemplateModel>, prog: Seq<Encoded>) -> bool {
    forall|k: int|
        0 <= k < prog.len() ==> {
            &&& (#[trigger] prog[k]).template < reg.len()
            &&& values_fit(reg[prog[k].template as int].fields, prog[k].ops.values)
            &&& prog[k].ops.displacement < 0x10000
            &&& prog[k].ops.data_high < 0x100
        }
}

/// At the start of each instruction of `prog` (laid out from `pos` in
/// `bits`), no template registered before the instruction's own matches.
pub open spec fn not_shadowed(reg: Seq<TemplateModel>, bits: Seq<bool>, prog: Seq<Encoded>, pos: nat) -> bool
    decreases prog.len(),
{
    prog.len() == 0 || {
        &&& forall|j: int|
            0 <= j < prog[0].template ==> !(match_fields(#[trigger] reg[j].fields, bits, start_state(pos)) is Matched)
        &&& not_shadowed(reg, bits, prog.drop_first(), pos + encode_one(reg, prog[0], pos).0.len())
    }
}

proof fn lemma_select_first(reg: Seq<TemplateModel>, bits: Seq<bool>, pos: nat, i: nat, t: nat, st: MatchState)
    requires
        i <= t < reg.len(),
        forall|j: int| i <= j < t ==> !(match_fields(#[trigger] reg[j].fields, bits, start_state(pos)) is Matched),
        match_fields(reg[t as int].fields, bits, start_state(pos)) == Attempt::Matched(st),
    ensures
        select_from(reg, bits, pos, i) == Selection::Found(t, st),
    decreases t - i,
{
    if i < t {
        assert(!(match_fields(reg[i as int].fields, bits, start_state(pos)) is Matched));
        lemma_select_first(reg, bits, pos, i + 1, t, st);
    }
}

/// Decoding over the encoding of `prog`, whatever follows it, reports the
/// instructions of `prog` and goes on right after them.
proof fn lemma_decode_program(reg: Seq<TemplateModel>, bits: Seq<bool>, byte: nat, done: Seq<DecodedModel>, prog: Seq<Encoded>)
    requires
        forall|i: int| 0 <= i < reg.len() ==> #[trigger] valid_fields(reg[i].fields),
        program_fits(reg, prog),
        holds_at(bits, (byte * 8) as int, encode_program(reg, prog, byte * 8)),
        not_shadowed(reg, bits, prog, byte * 8),
    ensures
        encode_program(reg, prog, byte * 8).len() % 8 == 0,
        decode_from(reg, bits, byte, done) == decode_from(
            reg,
            bits,
            byte + encode_program(reg, prog, byte * 8).len() / 8,
            done + expected_program(reg, prog, byte * 8),
        ),
    decreases prog.len(),
{
    let pos = byte * 8;
    if prog.len() == 0 {
        assert(done + Seq::<DecodedModel>::empty() =~= done);
    } else {
        let p0 = prog[0];
        assert(program_fits(reg, prog.drop_first())) by {
            assert forall|k: int| 0 <= k < prog.drop_first().len() implies {
                &&& (#[trigger] prog.drop_first()[k]).template < reg.len()
                &&& values_fit(reg[prog.drop_first()[k].template as int].fields, prog.drop_first()[k].ops.values)
                &&& prog.drop_first()[k].ops.displacement < 0x10000
                &&& prog.drop_first()[k].ops.data_high < 0x100
            } by {
                assert(prog.drop_first()[k] == prog[k + 1]);
            }
        }
        assert(p0 == prog[0]);
        let t = p0.template;
        let fields = reg[t as int].fields;
        assert(valid_fields(fields));
        let e = encode_one(reg, p0, pos);
        let rest = encode_program(reg, prog.drop_first(), pos + e.0.len());
        lemma_holds_split(bits, pos as int, e.0, rest);
        lemma_match_encoded(fields, p0.ops.values, p0.ops.displacement, p0.ops.data_high, start_state(pos), bits);
        lemma_select_first(reg, bits, pos, 0, t, e.1);
        lemma_encoding_whole_bytes(fields, p0.ops.values, p0.ops.displacement, p0.ops.data_high, start_state(pos), 0);
        lemma_values_fit_rest(fields, p0.ops.values);
        lemma_encode_value_len(fields[0].value as nat, fields[0].size as nat);
        assert(e.0.len() >= 1);
        let len = e.0.len() / 8;
        assert((e.1.pos - pos + 7) / 8 == len);
        let d = DecodedModel {
            code: reg[t as int].code,
            fields: e.1.fields,
            displacement_len: e.1.displacement_len,
            displacement: e.1.displacement,
            byte_length: len,
        };
        assert((byte + len) * 8 == pos + e.0.len());
        lemma_decode_program(reg, bits, byte + len, done.push(d), prog.drop_first());
        assert(byte + len + rest.len() / 8 == byte + (e.0.len() + rest.len()) / 8);
        assert(expected_program(reg, prog, pos) == seq![d] + expected_program(reg, prog.drop_first(), pos + e.0.len()));
        assert(done.push(d) + expected_program(reg, prog.drop_first(), pos + e.0.len()) =~= done + expected_program(reg, prog, pos));
    }
}

/// Round trip: a buffer made by laying end to end the encodings of
/// instructions (each a registered template with values that fit it)
/// decodes to exactly those instructions, with the fields they were encoded
/// from, provided no template registered earlier also matches at an
/// instruction's start.
pub proof fn lemma_round_trip(reg: Seq<TemplateModel>, prog: Seq<Encoded>, bytes: Seq<u8>)
    requires
        forall|i: int| 0 <= i < reg.len() ==> #[trigger] valid_fields(reg[i].fields),
        program_fits(reg, prog),
        bits_of(bytes) == encode_program(reg, prog, 0),
        not_shadowed(reg, bits_of(bytes), prog, 0),
    ensures
        decoding(reg, bytes) == DecodeOutcome::Complete(expected_program(reg, prog, 0)),
{
    let bits = bits_of(bytes);
    assert(holds_at(bits, 0, encode_program(reg, prog, 0)));
    lemma_decode_program(reg, bits, 0, Seq::empty(), prog);
    assert(Seq::<DecodedModel>::empty() + expected_program(reg, prog, 0) =~= expected_program(reg, prog, 0));
    assert(encode_program(reg, prog, 0).len() / 8 * 8 == bits.len());
}

proof fn lemma_bits_value_agree(b1: Seq<bool>, b2: Seq<bool>, a: int, n: nat)
    requires
        0 <= a,
        a + n <= b1.len(),
        a + n <= b2.len(),
        forall|k: int| a <= k < a + n ==> b1[k] == b2[k],
    ensures
        bits_value(b1, a, n) == bits_value(b2, a, n),
    decreases n,
{
    if n > 0 {
        lemma_bits_value_agree(b1, b2, a, (n - 1) as nat);
    }
}

/// Cutting the input at `cut`, before the end of a match but not before its
/// start, turns the match into running out of input.
proof fn lemma_match_truncated(fields: Seq<SubInstruction>, bits: Seq<bool>, st: MatchState, cut: nat)
    requires
        st.pos <= cut <= bits.len(),
        match_fields(fields, bits, st) is Matched,
        cut < match_fields(fields, bits, st)->Matched_0.pos,
    ensures
        match_fields(fields, bits.take(cut as int), st) == Attempt::EndOfInput,
    decreases fields.len(),
{
    let short = bits.take(cut as int);
    if fields.len() > 0 {
        let f = fields[0];
        let rest = fields.drop_first();
        let size = f.size as nat;
        let end = st.pos + size;
        let v = bits_value(bits, st.pos as int, size);
        match f.code {
            SubInstructionCode::ImpliedWidth => {
                lemma_match_truncated(rest, bits, MatchState {
                    fields: st.fields.push(Field { kind: SubInstructionCode::Width, value: f.value as u32 }),
                    ..st
                }, cut);
            },
            SubInstructionCode::ImpliedDirection => {
                lemma_match_truncated(rest, bits, MatchState {
                    fields: st.fields.push(Field { kind: SubInstructionCode::Direction, value: f.value as u32 }),
                    ..st
                }, cut);
            },
            _ => {
                if end <= cut {
                    lemma_bits_value_agree(bits, short, st.pos as int, size);
                    match f.code {
                        SubInstructionCode::Literal => {
                            lemma_match_truncated(rest, bits, MatchState { pos: end, ..st }, cut);
                        },
                        SubInstructionCode::RegisterOrMemory => {
                            let dl = displacement_len(lookup(st.fields, SubInstructionCode::AddressingMode), v);
                            if end + 8 * dl <= cut {
                                if dl >= 1 {
                                    lemma_bits_value_agree(bits, short, end as int, 8);
                                }
                                if dl == 2 {
                                    lemma_bits_value_agree(bits, short, end + 8int, 8);
                                }
                                lemma_match_truncated(
                                    rest,
                                    bits,
                                    MatchState {
                                        fields: st.fields.push(Field { kind: f.code, value: v as u32 }),
                                        displacement_len: dl,
                                        displacement: displacement_value(bits, end, dl),
                                        pos: end + 8 * dl,
                                    },
                                    cut,
                                );
                            }
                        },
                        SubInstructionCode::DataLow => {
                            let fs = st.fields.push(Field { kind: f.code, value: v as u32 });
                            if lookup(st.fields, SubInstructionCode::Width) == Some(1u32) {
                                if end + 8 <= cut {
                                    lemma_bits_value_agree(bits, short, end as int, 8);
                                    let hi = Field { kind: SubInstructionCode::DataHigh, value: bits_value(bits, end as int, 8) as u32 };
                                    lemma_match_truncated(rest, bits, MatchState { fields: fs.push(hi), pos: end + 8, ..st }, cut);
                                }
                            } else {
                                lemma_match_truncated(rest, bits, MatchState { fields: fs, pos: end, ..st }, cut);
                            }
                        },
                        _ => {
                            lemma_match_truncated(
                                rest,
                                bits,
                                MatchState { fields: st.fields.push(Field { kind: f.code, value: v as u32 }), pos: end, ..st },
                                cut,
                            );
                        },
                    }
                }
            },
        }
    }
}

proof fn lemma_select_nothing(reg: Seq<TemplateModel>, bits: Seq<bool>, pos: nat, i: nat)
    requires
        forall|j: int| 0 <= j < reg.len() ==> !(match_fields(#[trigger] reg[j].fields, bits, start_state(pos)) is Matched),
    ensures
        select_from(reg, bits, pos, i) is NotFound,
    decreases reg.len() - i,
{
    if i < reg.len() {
        assert(!(match_fields(reg[i as int].fields, bits, start_state(pos)) is Matched));
        lemma_select_nothing(reg, bits, pos, i + 1);
    }
}

proof fn lemma_select_none(reg: Seq<TemplateModel>, bits: Seq<bool>, pos: nat, i: nat, t: nat)
    requires
        i <= t < reg.len(),
        forall|j: int| 0 <= j < reg.len() ==> !(match_fields(#[trigger] reg[j].fields, bits, start_state(pos)) is Matched),
        match_fields(reg[t as int].fields, bits, start_state(pos)) == Attempt::EndOfInput,
    ensures
        select_from(reg, bits, pos, i) == Selection::NotFound(true),
    decreases t - i,
{
    assert(!(match_fields(reg[i as int].fields, bits, start_state(pos)) is Matched));
    if i < t {
        lemma_select_none(reg, bits, pos, i + 1, t);
    } else {
        lemma_select_nothing(reg, bits, pos, i + 1);
    }
}

/// A buffer cut short inside an instruction fails at that instruction's
/// first byte with the end of input noted, keeping exactly the instructions
/// before it and emitting nothing of the cut one. Here `bytes` is the first
/// bytes of `full`; it opens with the encoding of `prog`, which ends where
/// the cut instruction starts; in `full` that instruction needs more bytes
/// than `bytes` has. Left out: buffers where some template matches the short
/// remainder on its own, or where `prog` is shadowed.
pub proof fn lemma_truncated_instruction(reg: Seq<TemplateModel>, prog: Seq<Encoded>, full: Seq<u8>, bytes: Seq<u8>)
    requires
        forall|i: int| 0 <= i < reg.len() ==> #[trigger] valid_fields(reg[i].fields),
        program_fits(reg, prog),
        bytes.len() <= full.len(),
        bytes == full.take(bytes.len() as int),
        holds_at(bits_of(bytes), 0, encode_program(reg, prog, 0)),
        not_shadowed(reg, bits_of(bytes), prog, 0),
        encode_program(reg, prog, 0).len() < bits_of(bytes).len(),
        select_from(reg, bits_of(full), encode_program(reg, prog, 0).len(), 0) matches Selection::Found(t, e)
            && bits_of(bytes).len() < e.pos,
        forall|j: int|
            0 <= j < reg.len() ==> !(match_fields(
                #[trigger] reg[j].fields,
                bits_of(bytes),
                start_state(encode_program(reg, prog, 0).len()),
            ) is Matched),
    ensures
        decoding(reg, bytes) == (DecodeOutcome::Failed {
            offset: encode_program(reg, prog, 0).len() / 8,
            end_of_input: true,
            decoded: expected_program(reg, prog, 0),
        }),
{
    let bits = bits_of(full);
    let short = bits_of(bytes);
    let cut = short.len();
    assert(short =~= bits.take(cut as int));
    let enc = encode_program(reg, prog, 0);
    lemma_decode_program(reg, short, 0, Seq::empty(), prog);
    assert(Seq::<DecodedModel>::empty() + expected_program(reg, prog, 0) =~= expected_program(reg, prog, 0));
    let pos = enc.len();
    assert(enc.len() / 8 * 8 == pos);
    let sel = select_from(reg, bits, pos, 0);
    lemma_select_within(reg, bits, pos, 0);
    let t = sel->Found_0;
    lemma_select_found(reg, bits, pos, 0);
    lemma_match_truncated(reg[t as int].fields, bits, start_state(pos), cut);
    lemma_select_none(reg, short, pos, 0, t);
}

proof fn lemma_standard_not_shadowed(bits: Seq<bool>, prog: Seq<Encoded>, pos: nat)
    requires
        program_fits(standard_templates(), prog),
        holds_at(bits, pos as int, encode_program(standard_templates(), prog, pos)),
    ensures
        not_shadowed(standard_templates(), bits, prog, pos),
    decreases prog.len(),
{
    let reg = standard_templates();
    if prog.len() > 0 {
        let p0 = prog[0];
        assert(program_fits(reg, prog.drop_first())) by {
            assert forall|k: int| 0 <= k < prog.drop_first().len() implies {
                &&& (#[trigger] prog.drop_first()[k]).template < reg.len()
                &&& values_fit(reg[prog.drop_first()[k].template as int].fields, prog.drop_first()[k].ops.values)
                &&& prog.drop_first()[k].ops.displacement < 0x10000
                &&& prog.drop_first()[k].ops.data_high < 0x100
            } by {
                assert(prog.drop_first()[k] == prog[k + 1]);
            }
        }
        assert(p0 == prog[0]);
        let e = encode_one(reg, p0, pos);
        let rest = encode_program(reg, prog.drop_first(), pos + e.0.len());
        lemma_holds_split(bits, pos as int, e.0, rest);
        if p0.template == 1 {
            // PUSH starts with eight one bits, which MOV's seven-bit literal cannot match
            let f = push_fields();
            let vals = p0.ops.values;
            lemma_values_fit_rest(f, vals);
            let st1 = MatchState { pos: pos + 8, ..start_state(pos) };
            let tail = encode_fields(f.drop_first(), vals.drop_first(), p0.ops.displacement, p0.ops.data_high, st1);
            assert(e.0 == encode_value(255, 8) + tail.0);
            lemma_holds_split(bits, pos as int, encode_value(255, 8), tail.0);
            assert(encode_value(255, 8) == encode_value(127, 7).push(true));
            lemma_encode_value_len(127, 7);
            assert(holds_at(bits, pos as int, encode_value(127, 7))) by {
                assert forall|k: int| 0 <= k < 7 implies bits[pos + k] == #[trigger] encode_value(127, 7)[k] by {
                    assert(encode_value(255, 8)[k] == encode_value(127, 7)[k]);
                }
            }
            reveal_with_fuel(two_pow, 8);
            lemma_read_encoded(bits, pos as int, 127, 7);
            assert(mov_fields()[0].size == 7 && mov_fields()[0].value == 0x63);
            assert(!(match_fields(reg[0].fields, bits, start_state(pos)) is Matched));
        }
        lemma_standard_not_shadowed(bits, prog.drop_first(), pos + e.0.len());
    }
}

/// Round trip for the standard table: any sequence of MOV and PUSH
/// instructions with values that fit, laid end to end, decodes to exactly
/// those instructions and values.
pub proof fn lemma_standard_round_trip(prog: Seq<Encoded>, bytes: Seq<u8>)
    requires
        program_fits(standard_templates(), prog),
        bits_of(bytes) == encode_program(standard_templates(), prog, 0),
    ensures
        decoding(standard_templates(), bytes) == DecodeOutcome::Complete(expected_program(standard_templates(), prog, 0)),
{
    let reg = standard_templates();
    lemma_standard_valid();
    assert forall|i: int| 0 <= i < reg.len() implies #[trigger] valid_fields(reg[i].fields) by {}
    lemma_standard_not_shadowed(bits_of(bytes), prog, 0);
    lemma_round_trip(reg, prog, bytes);
}

} // verus!
