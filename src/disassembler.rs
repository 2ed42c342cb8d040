use crate::decode::{
    address_at, decode, decoded_from, decoded_lengths, layout_of, offset_of, tiles, Bitness,
    DecodedInstruction,
};
use crate::render::{
    address_field, byte_dump, extract_assembly, lemma_dump_field, line_of, start_of, within,
};
use crate::stats::{
    all_features, extract_isa_extensions, extract_most_used_instructions, first_seen, is_tally,
    keys_of, names, sorted_desc, ties_first_seen, total,
};
use vstd::prelude::*;

verus! {

/// The listing, the mnemonic ranking and the ISA extensions of one piece of code.
pub struct DisassemblerResult {
    pub assembly: Vec<String>,
    pub most_used_instructions: Vec<(String, usize)>,
    pub isa_extensions_used: Vec<String>,
}

/// `r` is what the instructions `ds`, found in `code` placed at `base`, give:
/// one listing line per instruction in order, the ranked mnemonic tally, and the
/// first-seen ISA extensions.
pub open spec fn describes(
    r: DisassemblerResult,
    ds: Seq<DecodedInstruction>,
    code: Seq<u8>,
    base: u64,
    binary: bool,
) -> bool {
    &&& r.assembly@.len() == ds.len()
    &&& forall|i: int| 0 <= i < ds.len() ==> #[trigger] r.assembly@[i]@ == line_of(ds[i], code, base, binary)
    &&& is_tally(r.most_used_instructions@, keys_of(ds))
    &&& sorted_desc(r.most_used_instructions@)
    &&& ties_first_seen(r.most_used_instructions@, keys_of(ds))
    &&& total(r.most_used_instructions@) == ds.len()
    &&& names(r.isa_extensions_used@) == first_seen(all_features(ds))
}

/// The bytes of instruction `i` when the lengths `lens` cover `code`.
pub open spec fn nth_code(code: Seq<u8>, lens: Seq<nat>, i: int) -> Seq<u8> {
    code.subrange(offset_of(lens, i), offset_of(lens, i) + lens[i])
}

/// What `disassemble` promises of its result.
pub open spec fn disassembly_of(
    r: DisassemblerResult,
    code: Seq<u8>,
    bitness: Bitness,
    base: u64,
    binary: bool,
) -> bool {
    let lens = decoded_lengths(bitness.bits(), code);
    &&& r.assembly@.len() == lens.len()
    &&& forall|i: int|
        0 <= i < lens.len() ==> {
            let a = address_field(address_at(base, offset_of(lens, i)), binary);
            let p = a.len() + 3;
            let q = p + byte_dump(nth_code(code, lens, i), binary).len();
            &&& (#[trigger] r.assembly@[i])@.subrange(0, a.len() as int) == a
            &&& r.assembly@[i]@.subrange(p as int, q as int) == byte_dump(nth_code(code, lens, i), binary)
        }
    &&& exists|ds: Seq<DecodedInstruction>| #[trigger]
        decoded_from(ds, bitness.bits(), code, base) && describes(r, ds, code, base, binary)
}

/// Renders and aggregates instructions that have already been decoded.
pub fn disassemble_decoded(ds: &Vec<DecodedInstruction>, code: &[u8], base: u64, use_binary: bool) -> (r: DisassemblerResult)
    requires
        forall|i: int| 0 <= i < ds@.len() ==> within(#[trigger] ds@[i], code@, base),
    ensures
        describes(r, ds@, code@, base, use_binary),
{
    let assembly = extract_assembly(ds, code, base, use_binary);
    let most_used_instructions = extract_most_used_instructions(ds);
    let isa_extensions_used = extract_isa_extensions(ds);
    DisassemblerResult { assembly, most_used_instructions, isa_extensions_used }
}

proof fn lemma_offset_mono(lens: Seq<nat>, k: int, n: int)
    requires
        0 <= k <= n <= lens.len(),
    ensures
        offset_of(lens, k) <= offset_of(lens, n),
    decreases n - k,
{
    if k < n {
        lemma_offset_mono(lens, k, n - 1);
    }
}

/// Decoded instructions lie inside the buffer, where their addresses say.
proof fn lemma_decoded_within(ds: Seq<DecodedInstruction>, bitness: u32, code: Seq<u8>, base: u64, i: int)
    requires
        decoded_from(ds, bitness, code, base),
        0 <= i < ds.len(),
        code.len() <= usize::MAX,
    ensures
        start_of(ds[i], base) == offset_of(layout_of(ds), i),
        within(ds[i], code, base),
{
    let lens = layout_of(ds);
    lemma_offset_mono(lens, i + 1, lens.len() as int);
    lemma_offset_mono(lens, 0, i);
    assert(offset_of(lens, i + 1) == offset_of(lens, i) + lens[i]);
    assert(lens[i] == ds[i].length);
    assert(ds[i].address == address_at(base, offset_of(lens, i)));
}

/// Disassembles `bytes`, placed at address `rip`: one listing line per
/// instruction (binary or hexadecimal numbers, Intel or AT&T syntax), the
/// mnemonics ranked by use, and the ISA extensions in order of first use.
pub fn disassemble(bytes: &[u8], bitness: Bitness, rip: u64, use_binary: bool, use_intel: bool) -> (r: DisassemblerResult)
    ensures
        disassembly_of(r, bytes@, bitness, rip, use_binary),
{
    let n = bytes.len();
    let ds = decode(bytes, bitness, rip, use_intel);
    proof {
        assert forall|i: int| 0 <= i < ds@.len() implies within(#[trigger] ds@[i], bytes@, rip) by {
            lemma_decoded_within(ds@, bitness.bits(), bytes@, rip, i);
        }
    }
    let r = disassemble_decoded(&ds, bytes, rip, use_binary);
    proof {
        let lens = decoded_lengths(bitness.bits(), bytes@);
        assert forall|i: int| 0 <= i < lens.len() implies {
            let a = address_field(address_at(rip, offset_of(lens, i)), use_binary);
            let p = a.len() + 3;
            let q = p + byte_dump(nth_code(bytes@, lens, i), use_binary).len();
            &&& (#[trigger] r.assembly@[i])@.subrange(0, a.len() as int) == a
            &&& r.assembly@[i]@.subrange(p as int, q as int) == byte_dump(nth_code(bytes@, lens, i), use_binary)
        } by {
            lemma_decoded_within(ds@, bitness.bits(), bytes@, rip, i);
            let d = ds@[i];
            assert(layout_of(ds@)[i] == d.length);
            lemma_dump_field(d.address, nth_code(bytes@, lens, i), d.op_code@, d.text@, use_binary);
        }
        assert(decoded_from(ds@, bitness.bits(), bytes@, rip) && describes(r, ds@, bytes@, rip, use_binary));
    }
    r
}

/// Disassembling the same bytes twice gives listings with the same number of
/// lines, whose address fields and byte dumps agree line by line.
pub proof fn lemma_repeat_same_layout(
    r1: DisassemblerResult,
    r2: DisassemblerResult,
    code: Seq<u8>,
    bitness: Bitness,
    base: u64,
    binary: bool,
)
    requires
        disassembly_of(r1, code, bitness, base, binary),
        disassembly_of(r2, code, bitness, base, binary),
    ensures
        r1.assembly@.len() == r2.assembly@.len(),
        forall|i: int|
            0 <= i < r1.assembly@.len() ==> {
                let lens = decoded_lengths(bitness.bits(), code);
                let a = address_field(address_at(base, offset_of(lens, i)), binary).len();
                let q = a + 3 + byte_dump(nth_code(code, lens, i), binary).len();
                &&& (#[trigger] r1.assembly@[i])@.subrange(0, a as int) == r2.assembly@[i]@.subrange(0, a as int)
                &&& r1.assembly@[i]@.subrange((a + 3) as int, q as int) == r2.assembly@[i]@.subrange((a + 3) as int, q as int)
            },
{
    assert forall|i: int| 0 <= i < r1.assembly@.len() implies {
        let lens = decoded_lengths(bitness.bits(), code);
        let a = address_field(address_at(base, offset_of(lens, i)), binary).len();
        let q = a + 3 + byte_dump(nth_code(code, lens, i), binary).len();
        &&& (#[trigger] r1.assembly@[i])@.subrange(0, a as int) == r2.assembly@[i]@.subrange(0, a as int)
        &&& r1.assembly@[i]@.subrange((a + 3) as int, q as int) == r2.assembly@[i]@.subrange((a + 3) as int, q as int)
    } by {
        assert(r2.assembly@[i] == r2.assembly@[i]);
    }
}

proof fn lemma_offset_at_least(lens: Seq<nat>, k: int)
    requires
        0 <= k <= lens.len(),
        forall|i: int| 0 <= i < lens.len() ==> 1 <= #[trigger] lens[i],
    ensures
        offset_of(lens, k) >= k,
    decreases k,
{
    if k > 0 {
        lemma_offset_at_least(lens, k - 1);
    }
}

/// Empty code gives no lines, no mnemonics and no ISA extensions.
pub proof fn lemma_empty_code(r: DisassemblerResult, bitness: Bitness, base: u64, binary: bool)
    requires
        disassembly_of(r, Seq::empty(), bitness, base, binary),
    ensures
        r.assembly@.len() == 0,
        r.most_used_instructions@.len() == 0,
        r.isa_extensions_used@.len() == 0,
{
    let ds = choose|ds: Seq<DecodedInstruction>| #[trigger]
        decoded_from(ds, bitness.bits(), Seq::empty(), base) && describes(r, ds, Seq::empty(), base, binary);
    let lens = layout_of(ds);
    assert(tiles(lens, 0));
    lemma_offset_at_least(lens, lens.len() as int);
    assert(ds.len() == 0);
    assert(keys_of(ds) =~= Seq::<Seq<char>>::empty());
    if r.most_used_instructions@.len() > 0 {
        assert(keys_of(ds).contains(r.most_used_instructions@[0].0@));
    }
    assert(names(r.isa_extensions_used@).len() == 0);
}

} // verus!
