use maschinengott::text::{count_digits, push_digits, push_number, push_padded, to_ascii_lower};

#[test]
fn hex_number_is_sixteen_upper_case_digits() {
    let mut s = String::new();
    push_number(&mut s, 0xBEEF, false, 16);
    assert_eq!(s, "000000000000BEEF");
}

#[test]
fn binary_number_keeps_all_digits() {
    let mut s = String::new();
    push_number(&mut s, u64::MAX, true, 16);
    assert_eq!(s, "1".repeat(64));
}

#[test]
fn fixed_digits_of_a_byte() {
    let mut s = String::from("x");
    push_digits(&mut s, 0x5A, true, 8);
    push_digits(&mut s, 0x5A, false, 2);
    assert_eq!(s, "x010110105A");
}

#[test]
fn digit_counts() {
    assert_eq!(count_digits(0, true), 1);
    assert_eq!(count_digits(0x1000, true), 13);
    assert_eq!(count_digits(0x1000, false), 4);
    assert_eq!(count_digits(u64::MAX, false), 16);
}

#[test]
fn padding_to_width() {
    let mut s = String::new();
    push_padded(&mut s, "ab", 5);
    push_padded(&mut s, "toolong", 3);
    assert_eq!(s, "ab   toolong");
}

#[test]
fn lower_case_keys() {
    assert_eq!(to_ascii_lower("VMovDQu64"), "vmovdqu64");
    assert_eq!(to_ascii_lower("nop"), "nop");
    assert_eq!(to_ascii_lower(""), "");
}
