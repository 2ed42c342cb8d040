use crate::decode::DecodedInstruction;
use crate::text::{digits, digits_value, lemma_digits_len, lemma_digits_value, number_text, pad_right, push_digits, push_number, push_padded, radix_pow};
use rayon::iter::IntoParallelRefIterator;
use rayon::iter::ParallelIterator;
use vstd::prelude::*;
use vstd::string::StrSliceExecFns;

verus! {

/// Digits per byte in the dump: eight bits, or two hexadecimal digits.
pub open spec fn byte_width(binary: bool) -> nat {
    if binary {
        8
    } else {
        2
    }
}

/// Width of the byte-dump column.
pub open spec fn dump_width(binary: bool) -> nat {
    if binary {
        80
    } else {
        32
    }
}

/// Width of the opcode-encoding column.
pub const OP_CODE_WIDTH: usize = 32;

/// Width of the address field before padding to more digits.
pub const ADDRESS_DIGITS: u64 = 16;

/// The text of one byte in the dump, followed by its space.
pub open spec fn byte_text(b: u8, binary: bool) -> Seq<char> {
    digits(b as nat, binary, byte_width(binary)).push(' ')
}

/// Every byte as its digits followed by a space, in order.
pub open spec fn byte_dump(bs: Seq<u8>, binary: bool) -> Seq<char>
    decreases bs.len(),
{
    if bs.len() == 0 {
        Seq::empty()
    } else {
        byte_dump(bs.drop_last(), binary) + byte_text(bs.last(), binary)
    }
}

/// Reads a byte dump back into bytes, one group of digits and a space at a time.
pub open spec fn parse_dump(s: Seq<char>, binary: bool) -> Seq<u8>
    decreases s.len(),
{
    let w = byte_width(binary) + 1;
    if s.len() < w {
        Seq::empty()
    } else {
        seq![digits_value(s.take(byte_width(binary) as int), binary) as u8] + parse_dump(
            s.skip(w as int),
            binary,
        )
    }
}

pub open spec fn separator() -> Seq<char> {
    seq![' ', '|', ' ']
}

/// The address field: the address in the numeric mode with at least sixteen
/// digits, and a space.
pub open spec fn address_field(address: u64, binary: bool) -> Seq<char> {
    number_text(address as nat, binary, ADDRESS_DIGITS as nat).push(' ')
}

/// One listing line: address, byte dump, opcode encoding and rendered text.
pub open spec fn line_text(
    address: u64,
    bytes: Seq<u8>,
    op_code: Seq<char>,
    text: Seq<char>,
    binary: bool,
) -> Seq<char> {
    address_field(address, binary) + separator() + pad_right(
        byte_dump(bytes, binary),
        dump_width(binary),
    ) + separator() + pad_right(op_code, OP_CODE_WIDTH as nat) + separator() + text.push('\n')
}

/// Where an instruction starts in the buffer: its address less the base, with wrapping.
pub open spec fn start_of(d: DecodedInstruction, base: u64) -> int {
    if d.address >= base {
        d.address - base
    } else {
        d.address - base + 0x1_0000_0000_0000_0000
    }
}

pub open spec fn within(d: DecodedInstruction, code: Seq<u8>, base: u64) -> bool {
    start_of(d, base) + d.length <= code.len()
}

/// The bytes of an instruction.
pub open spec fn code_of(d: DecodedInstruction, code: Seq<u8>, base: u64) -> Seq<u8> {
    code.subrange(start_of(d, base), start_of(d, base) + d.length)
}

pub open spec fn line_of(d: DecodedInstruction, code: Seq<u8>, base: u64, binary: bool) -> Seq<
    char,
> {
    line_text(d.address, code_of(d, code, base), d.op_code@, d.text@, binary)
}

fn push_separator(out: &mut String)
    ensures
        final(out)@ == old(out)@ + separator(),
{
    out.push(' ');
    out.push('|');
    out.push(' ');
    assert(out@ =~= old(out)@ + separator());
}

/// Renders the listing line of one instruction.
pub fn render_line(d: &DecodedInstruction, code: &[u8], base: u64, use_binary: bool) -> (r: String)
    requires
        within(*d, code@, base),
    ensures
        r@ == line_of(*d, code@, base, use_binary),
{
    let mut line = String::new();
    push_number(&mut line, d.address, use_binary, ADDRESS_DIGITS);
    line.push(' ');
    push_separator(&mut line);
    let n = code.len();
    let off = d.address.wrapping_sub(base);
    assert(off as int == start_of(*d, base));
    let start = off as usize;
    let end = start + d.length;
    let bw: u64 = if use_binary { 8 } else { 2 };
    let mut dump = String::new();
    let mut j: usize = start;
    while j < end
        invariant
            start <= j <= end,
            end <= code@.len(),
            start == start_of(*d, base),
            end == start + d.length,
            bw == byte_width(use_binary),
            dump@ == byte_dump(code@.subrange(start as int, j as int), use_binary),
        decreases end - j,
    {
        push_digits(&mut dump, code[j] as u64, use_binary, bw);
        dump.push(' ');
        assert(code@.subrange(start as int, j + 1).drop_last() =~= code@.subrange(
            start as int,
            j as int,
        ));
        j = j + 1;
    }
    let dw: usize = if use_binary { 80 } else { 32 };
    push_padded(&mut line, dump.as_str(), dw);
    push_separator(&mut line);
    push_padded(&mut line, d.op_code.as_str(), OP_CODE_WIDTH);
    push_separator(&mut line);
    line.append(d.text.as_str());
    line.push('\n');
    assert(line@ =~= line_of(*d, code@, base, use_binary));
    line
}

/// Relies on rayon's `par_iter().map(..).collect()` into a `Vec`, which keeps
/// the order of the input; each line comes from `render_line`.
#[verifier::external_body]
fn render_parallel(ds: &Vec<DecodedInstruction>, code: &[u8], base: u64, use_binary: bool) -> (r: Vec<String>)
    requires
        forall|i: int| 0 <= i < ds@.len() ==> within(#[trigger] ds@[i], code@, base),
    ensures
        r@.len() == ds@.len(),
        forall|i: int| 0 <= i < ds@.len() ==> #[trigger] r@[i]@ == line_of(ds@[i], code@, base, use_binary),
{
    ds.par_iter().map(|d| render_line(d, code, base, use_binary)).collect()
}

/// Renders every instruction's listing line, in instruction order.
pub fn extract_assembly(ds: &Vec<DecodedInstruction>, code: &[u8], base: u64, use_binary: bool) -> (r: Vec<String>)
    requires
        forall|i: int| 0 <= i < ds@.len() ==> within(#[trigger] ds@[i], code@, base),
    ensures
        r@.len() == ds@.len(),
        forall|i: int| 0 <= i < ds@.len() ==> #[trigger] r@[i]@ == line_of(ds@[i], code@, base, use_binary),
{
    render_parallel(ds, code, base, use_binary)
}

pub proof fn lemma_dump_front(bs: Seq<u8>, binary: bool)
    requires
        bs.len() > 0,
    ensures
        byte_dump(bs, binary) == byte_text(bs[0], binary) + byte_dump(bs.drop_first(), binary),
    decreases bs.len(),
{
    if bs.len() == 1 {
        assert(bs.drop_last() =~= Seq::<u8>::empty());
        assert(bs.drop_first() =~= Seq::<u8>::empty());
        assert(byte_dump(bs.drop_last(), binary) =~= Seq::<char>::empty());
        assert(byte_dump(bs.drop_first(), binary) =~= Seq::<char>::empty());
        assert(bs.last() == bs[0]);
        assert(byte_dump(bs, binary) =~= byte_text(bs[0], binary));
    } else {
        lemma_dump_front(bs.drop_last(), binary);
        assert(bs.drop_last().drop_first() =~= bs.drop_first().drop_last());
        assert(byte_dump(bs, binary) =~= byte_text(bs[0], binary) + byte_dump(bs.drop_first(), binary));
    }
}

/// The byte dump of an instruction, read back digit group by digit group in the
/// same numeric mode, gives back exactly its bytes.
pub proof fn lemma_dump_round_trip(bs: Seq<u8>, binary: bool)
    ensures
        parse_dump(byte_dump(bs, binary), binary) == bs,
    decreases bs.len(),
{
    if bs.len() > 0 {
        lemma_dump_front(bs, binary);
        lemma_dump_round_trip(bs.drop_first(), binary);
        let w = byte_width(binary);
        let t = byte_text(bs[0], binary);
        let s = byte_dump(bs, binary);
        lemma_digits_len(bs[0] as nat, binary, w);
        assert(radix_pow(binary, w) == 256) by {
            reveal_with_fuel(radix_pow, 9);
        }
        lemma_digits_value(bs[0] as nat, binary, w);
        assert(s.take(w as int) =~= digits(bs[0] as nat, binary, w));
        assert(s.skip(w as int + 1) =~= byte_dump(bs.drop_first(), binary));
        assert(parse_dump(s, binary) =~= bs);
    } else {
        assert(byte_dump(bs, binary) =~= Seq::<char>::empty());
        assert(parse_dump(Seq::<char>::empty(), binary) =~= bs);
    }
}

/// The byte-dump field of a line starts after the address field and the first
/// separator; its first `byte_dump` characters are the dump itself.
pub proof fn lemma_dump_field(address: u64, bytes: Seq<u8>, op_code: Seq<char>, text: Seq<char>, binary: bool)
    ensures
        ({
            let line = line_text(address, bytes, op_code, text, binary);
            let p = address_field(address, binary).len() + 3;
            let q = p + byte_dump(bytes, binary).len();
            &&& line.subrange(0, address_field(address, binary).len() as int) == address_field(address, binary)
            &&& line.subrange(p as int, q as int) == byte_dump(bytes, binary)
        }),
{
    let line = line_text(address, bytes, op_code, text, binary);
    let a = address_field(address, binary);
    let p = a.len() + 3;
    let q = p + byte_dump(bytes, binary).len();
    assert(line.subrange(0, a.len() as int) =~= a);
    assert(line.subrange(p as int, q as int) =~= byte_dump(bytes, binary));
}

} // verus!
