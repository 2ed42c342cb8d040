use maschinengott::decode::DecodedInstruction;
use maschinengott::Bitness;
use maschinengott::disassembler::{disassemble, disassemble_decoded};

fn record(address: u64, length: usize, mnemonic: &str, features: &[&str]) -> DecodedInstruction {
    DecodedInstruction {
        address,
        length,
        mnemonic: mnemonic.to_string(),
        op_code: "OP".to_string(),
        text: "text".to_string(),
        features: features.iter().map(|f| f.to_string()).collect(),
    }
}

fn parse_dump(dump: &str, binary: bool) -> Vec<u8> {
    let radix = if binary { 2 } else { 16 };
    dump.split_whitespace()
        .map(|g| u8::from_str_radix(g, radix).unwrap())
        .collect()
}

#[test]
fn single_nop_in_hex_intel() {
    let r = disassemble(&[0x90], Bitness::X64, 0x1000, false, true);
    assert_eq!(r.assembly.len(), 1);
    let line = &r.assembly[0];
    assert!(line.starts_with("0000000000001000 "));
    let fields: Vec<&str> = line.split(" | ").collect();
    assert_eq!(fields.len(), 4);
    assert!(fields[1].contains("90"));
    assert!(fields[3].contains("nop"));
    assert!(line.ends_with('\n'));
    assert_eq!(r.most_used_instructions, vec![("nop".to_string(), 1)]);
    // The decoder lists the base 8086 feature for a plain no-op.
    assert_eq!(r.isa_extensions_used, vec!["INTEL8086".to_string()]);
}

#[test]
fn empty_buffer_gives_nothing() {
    let r = disassemble(&[], Bitness::X64, 0x1000, false, true);
    assert!(r.assembly.is_empty());
    assert!(r.most_used_instructions.is_empty());
    assert!(r.isa_extensions_used.is_empty());
}

#[test]
fn hex_line_layout() {
    let r = disassemble(&[0x90], Bitness::X64, 0x1000, false, true);
    let line = &r.assembly[0];
    let prefix = format!("0000000000001000  | {:<32} | ", "90 ");
    assert!(line.starts_with(&prefix));
}

#[test]
fn binary_line_layout() {
    let r = disassemble(&[0x90], Bitness::X64, 0x1000, true, true);
    let line = &r.assembly[0];
    let prefix = format!("0001000000000000  | {:<80} | ", "10010000 ");
    assert!(line.starts_with(&prefix));
}

#[test]
fn binary_address_grows_past_sixteen_digits() {
    let r = disassemble(&[0x90], Bitness::X64, 0x1_0000, true, true);
    assert!(r.assembly[0].starts_with("10000000000000000 "));
}

#[test]
fn one_line_per_instruction_with_addresses() {
    // push rbp; mov rbp, rsp; nop; ret
    let code = [0x55, 0x48, 0x89, 0xE5, 0x90, 0xC3];
    let r = disassemble(&code, Bitness::X64, 0x40_0000, false, true);
    assert_eq!(r.assembly.len(), 4);
    assert!(r.assembly[0].starts_with("0000000000400000 "));
    assert!(r.assembly[1].starts_with("0000000000400001 "));
    assert!(r.assembly[2].starts_with("0000000000400004 "));
    assert!(r.assembly[3].starts_with("0000000000400005 "));
    let total: usize = r.most_used_instructions.iter().map(|(_, c)| c).sum();
    assert_eq!(total, 4);
}

#[test]
fn dumps_read_back_to_the_code() {
    let code = [0x55, 0x48, 0x89, 0xE5, 0x90, 0xC3];
    for binary in [false, true] {
        let r = disassemble(&code, Bitness::X64, 0, binary, false);
        let mut all = Vec::new();
        for line in &r.assembly {
            let dump = line.split(" | ").nth(1).unwrap();
            all.extend(parse_dump(dump, binary));
        }
        assert_eq!(all, code.to_vec());
    }
}

#[test]
fn address_wraps_at_the_top() {
    let r = disassemble(&[0x90, 0x90], Bitness::X64, u64::MAX, false, true);
    assert_eq!(r.assembly.len(), 2);
    assert!(r.assembly[0].starts_with("FFFFFFFFFFFFFFFF "));
    assert!(r.assembly[1].starts_with("0000000000000000 "));
    assert_eq!(parse_dump(r.assembly[1].split(" | ").nth(1).unwrap(), false), vec![0x90]);
}

#[test]
fn att_syntax_renders_lower_case() {
    let r = disassemble(&[0x48, 0x89, 0xE5], Bitness::X64, 0, false, false);
    let text = r.assembly[0].split(" | ").nth(3).unwrap();
    assert!(text.starts_with("mov"));
    assert!(text.contains("%rsp"));
    assert!(text.contains("%rbp"));
}

#[test]
fn intel_syntax_puts_operands_at_column_eight() {
    let r = disassemble(&[0x48, 0x89, 0xE5], Bitness::X64, 0, false, true);
    let text = r.assembly[0].split(" | ").nth(3).unwrap();
    assert!(text.starts_with("mov     rbp,rsp"));
}

#[test]
fn repeated_calls_agree() {
    let code = [0x55, 0x48, 0x89, 0xE5, 0x90, 0xC3, 0xC5, 0xF8, 0x28, 0xCD];
    let a = disassemble(&code, Bitness::X64, 0x1000, false, false);
    let b = disassemble(&code, Bitness::X64, 0x1000, false, false);
    assert_eq!(a.assembly, b.assembly);
    assert_eq!(a.most_used_instructions, b.most_used_instructions);
    assert_eq!(a.isa_extensions_used, b.isa_extensions_used);
}

#[test]
fn vector_instruction_reports_avx() {
    // vmovaps xmm1, xmm5
    let r = disassemble(&[0xC5, 0xF8, 0x28, 0xCD], Bitness::X64, 0, false, true);
    assert_eq!(r.isa_extensions_used, vec!["AVX".to_string()]);
    assert_eq!(r.most_used_instructions, vec![("vmovaps".to_string(), 1)]);
}

#[test]
fn counts_merge_case_and_rank_descending() {
    let ds = vec![
        record(0, 1, "Mov", &[]),
        record(1, 1, "Nop", &[]),
        record(2, 1, "NOP", &[]),
        record(3, 1, "Ret", &[]),
        record(4, 1, "nop", &[]),
    ];
    let code = [0u8; 5];
    let r = disassemble_decoded(&ds, &code, 0, false);
    assert_eq!(
        r.most_used_instructions,
        vec![("nop".to_string(), 3), ("mov".to_string(), 1), ("ret".to_string(), 1)]
    );
}

#[test]
fn features_first_seen_without_repeats() {
    let ds = vec![
        record(0, 1, "a", &["SSE2", "AVX"]),
        record(1, 1, "b", &[]),
        record(2, 1, "c", &["AVX", "BMI1", "SSE2"]),
        record(3, 1, "d", &["BMI1", "AVX512F"]),
    ];
    let code = [0u8; 4];
    let r = disassemble_decoded(&ds, &code, 0, false);
    assert_eq!(r.isa_extensions_used, vec!["SSE2", "AVX", "BMI1", "AVX512F"]);
}

#[test]
fn decoded_line_is_exact() {
    let ds = vec![record(0x2000, 2, "Add", &[])];
    let code = [0xAB, 0x01, 0x02];
    let r = disassemble_decoded(&ds, &code[1..], 0x2000, false);
    let expected = format!("0000000000002000  | {:<32} | {:<32} | text\n", "01 02 ", "OP");
    assert_eq!(r.assembly, vec![expected]);
}

#[test]
fn decoded_line_binary_is_exact() {
    let ds = vec![record(5, 1, "Add", &[])];
    let code = [0x00, 0x00, 0x00, 0x00, 0x00, 0xFF];
    let r = disassemble_decoded(&ds, &code, 0, true);
    let expected = format!("0000000000000101  | {:<80} | {:<32} | text\n", "11111111 ", "OP");
    assert_eq!(r.assembly, vec![expected]);
}
