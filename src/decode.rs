use iced_x86::{Decoder, DecoderOptions, Formatter, GasFormatter, Instruction, IntelFormatter};
use vstd::prelude::*;

verus! {

/// `iced_x86::Instruction`, carried opaquely from the decoder to the formatters.
#[verifier::external_type_specification]
#[verifier::external_body]
pub struct ExInstruction(Instruction);

/// The register width that the decoder works with.
#[derive(Copy, Clone, Debug, PartialEq, Eq)]
pub enum Bitness {
    X64,
}

impl Bitness {
    /// The width in bits.
    pub open spec fn bits(self) -> u32 {
        match self {
            Bitness::X64 => 64,
        }
    }

    pub fn width(self) -> (r: u32)
        ensures
            r == self.bits(),
    {
        match self {
            Bitness::X64 => 64,
        }
    }
}

/// One instruction as the decoder hands it out: where it starts, how many bytes
/// it takes, and the decoded form for the formatters.
pub struct RawInstruction {
    pub address: u64,
    pub length: usize,
    pub instruction: Instruction,
}

/// The lengths of the instructions that `iced_x86::Decoder` finds in `code`
/// when it works at `bitness` bits; they do not depend on the start address.
pub uninterp spec fn decoded_lengths(bitness: u32, code: Seq<u8>) -> Seq<nat>;

/// Sum of the first `k` lengths: where instruction `k` starts in the buffer.
pub open spec fn offset_of(lens: Seq<nat>, k: int) -> int
    decreases k,
{
    if k <= 0 || lens.len() == 0 {
        0
    } else {
        offset_of(lens, k - 1) + lens[k - 1]
    }
}

/// `base + off` in 64-bit wrapping arithmetic, for `0 <= off < 2^64`.
pub open spec fn address_at(base: u64, off: int) -> u64 {
    if base + off <= u64::MAX {
        (base + off) as u64
    } else {
        (base + off - 0x1_0000_0000_0000_0000) as u64
    }
}

/// Instruction lengths that cover a buffer of `total` bytes exactly.
pub open spec fn tiles(lens: Seq<nat>, total: int) -> bool {
    &&& forall|i: int| 0 <= i < lens.len() ==> 1 <= #[trigger] lens[i] <= 15
    &&& offset_of(lens, lens.len() as int) == total
}

pub open spec fn lengths_of(r: Seq<RawInstruction>) -> Seq<nat> {
    Seq::new(r.len(), |i: int| r[i].length as nat)
}

/// Relies on `iced_x86::Decoder::with_ip` and its `iter`: decoding runs from the
/// start of `code` to its end, each instruction takes one to fifteen bytes, the
/// next one starts where it ends, and the addresses count on from `ip` with
/// wrapping.
#[verifier::external_body]
fn decode_all(bitness: u32, code: &[u8], ip: u64) -> (r: Vec<RawInstruction>)
    requires
        bitness == 16 || bitness == 32 || bitness == 64,
    ensures
        lengths_of(r@) == decoded_lengths(bitness, code@),
        tiles(lengths_of(r@), code@.len() as int),
        forall|k: int|
            0 <= k < r@.len() ==> #[trigger] r@[k].address == address_at(
                ip,
                offset_of(lengths_of(r@), k),
            ),
{
    let mut decoder = Decoder::with_ip(bitness, code, ip, DecoderOptions::NONE);
    decoder.iter().map(|i| RawInstruction { address: i.ip(), length: i.len(), instruction: i }).collect()
}

/// Relies on `iced_x86::Instruction::mnemonic`, written with its `Debug` name.
#[verifier::external_body]
fn mnemonic_name(i: &Instruction) -> String {
    format!("{:?}", i.mnemonic())
}

/// Relies on `iced_x86::OpCodeInfo::op_code_string` of the instruction's opcode.
#[verifier::external_body]
fn op_code_text(i: &Instruction) -> String {
    i.op_code().op_code_string().to_string()
}

/// Relies on `iced_x86::Instruction::cpuid_features`, each written with its `Debug` name.
#[verifier::external_body]
fn feature_names(i: &Instruction) -> Vec<String> {
    i.cpuid_features().iter().map(|f| format!("{:?}", f)).collect()
}

/// Relies on `iced_x86::IntelFormatter`: Intel syntax, lower-case mnemonics, the
/// first operand at character `column`.
#[verifier::external_body]
fn format_intel(i: &Instruction, column: u32) -> String {
    let mut formatter = IntelFormatter::new();
    formatter.options_mut().set_uppercase_mnemonics(false);
    formatter.options_mut().set_first_operand_char_index(column);
    let mut out = String::new();
    formatter.format(i, &mut out);
    out
}

/// Relies on `iced_x86::GasFormatter`: AT&T syntax, lower-case mnemonics with
/// their size suffix, the first operand at character `column`.
#[verifier::external_body]
fn format_gas(i: &Instruction, column: u32) -> String {
    let mut formatter = GasFormatter::new();
    formatter.options_mut().set_uppercase_mnemonics(false);
    formatter.options_mut().set_gas_show_mnemonic_size_suffix(true);
    formatter.options_mut().set_first_operand_char_index(column);
    let mut out = String::new();
    formatter.format(i, &mut out);
    out
}

/// The character column at which rendered operands begin.
pub const OPERAND_COLUMN: u32 = 8;

/// A decoded instruction as plain values: its place, its mnemonic name, its
/// opcode encoding, its text in the chosen assembly dialect and the CPUID
/// features that it needs.
pub struct DecodedInstruction {
    pub address: u64,
    pub length: usize,
    pub mnemonic: String,
    pub op_code: String,
    pub text: String,
    pub features: Vec<String>,
}

/// Reads the plain values out of one decoded instruction.
pub fn describe(raw: &RawInstruction, use_intel: bool) -> (d: DecodedInstruction)
    ensures
        d.address == raw.address,
        d.length == raw.length,
{
    let text = if use_intel {
        format_intel(&raw.instruction, OPERAND_COLUMN)
    } else {
        format_gas(&raw.instruction, OPERAND_COLUMN)
    };
    DecodedInstruction {
        address: raw.address,
        length: raw.length,
        mnemonic: mnemonic_name(&raw.instruction),
        op_code: op_code_text(&raw.instruction),
        text,
        features: feature_names(&raw.instruction),
    }
}

pub open spec fn layout_of(d: Seq<DecodedInstruction>) -> Seq<nat> {
    Seq::new(d.len(), |i: int| d[i].length as nat)
}

/// The instructions are laid out as the decoder laid out `code` from `base`.
pub open spec fn decoded_from(d: Seq<DecodedInstruction>, bitness: u32, code: Seq<u8>, base: u64) -> bool {
    &&& layout_of(d) == decoded_lengths(bitness, code)
    &&& tiles(layout_of(d), code.len() as int)
    &&& forall|k: int|
        0 <= k < d.len() ==> #[trigger] d[k].address == address_at(base, offset_of(layout_of(d), k))
}

/// Decodes `code`, placed at address `base`, into plain instruction records,
/// with each instruction's text rendered in Intel or AT&T syntax.
pub fn decode(code: &[u8], bitness: Bitness, base: u64, use_intel: bool) -> (r: Vec<DecodedInstruction>)
    ensures
        decoded_from(r@, bitness.bits(), code@, base),
{
    let raw = decode_all(bitness.width(), code, base);
    let mut r: Vec<DecodedInstruction> = Vec::new();
    let mut i: usize = 0;
    while i < raw.len()
        invariant
            i <= raw@.len(),
            r@.len() == i,
            forall|k: int| 0 <= k < i ==> #[trigger] r@[k].address == raw@[k].address,
            forall|k: int| 0 <= k < i ==> #[trigger] r@[k].length == raw@[k].length,
        decreases raw.len() - i,
    {
        r.push(describe(&raw[i], use_intel));
        i = i + 1;
    }
    assert(layout_of(r@) =~= lengths_of(raw@));
    assert forall|k: int| 0 <= k < r@.len() implies #[trigger] r@[k].address == address_at(
        base,
        offset_of(layout_of(r@), k),
    ) by {
        assert(raw@[k].address == address_at(base, offset_of(lengths_of(raw@), k)));
    }
    r
}

} // verus!
