use vstd::prelude::*;
use vstd::string::StrSliceExecFns;
use vstd::string::StringExecFns;

verus! {

/// Relies on `String::push`: the character is appended at the end.
pub assume_specification[ String::push ](s: &mut String, ch: char)
    ensures
        final(s)@ == old(s)@.push(ch),
;

/// The radix of a numeric mode: binary or hexadecimal.
pub open spec fn radix(binary: bool) -> nat {
    if binary {
        2
    } else {
        16
    }
}

/// The digit character for a value below 16 (upper-case hexadecimal letters).
pub open spec fn digit_char(d: nat) -> char {
    if d < 10 {
        (d + 48) as char
    } else {
        (d + 55) as char
    }
}

/// The numeric value of a digit character, inverse of `digit_char`.
pub open spec fn digit_value(c: char) -> nat {
    if c as u32 <= 57 {
        (c as u32 - 48) as nat
    } else {
        (c as u32 - 55) as nat
    }
}

/// The last `w` digits of `n` in the given radix, most significant first.
pub open spec fn digits(n: nat, binary: bool, w: nat) -> Seq<char>
    decreases w,
{
    if w == 0 {
        Seq::empty()
    } else {
        digits(n / radix(binary), binary, (w - 1) as nat).push(digit_char(n % radix(binary)))
    }
}

/// Reads a digit string back as a number (most significant digit first).
pub open spec fn digits_value(s: Seq<char>, binary: bool) -> nat
    decreases s.len(),
{
    if s.len() == 0 {
        0
    } else {
        digits_value(s.drop_last(), binary) * radix(binary) + digit_value(s.last())
    }
}

/// The number of significant digits of `n` (one for zero).
pub open spec fn sig_len(n: nat, binary: bool) -> nat
    decreases n,
{
    if n < radix(binary) {
        1
    } else {
        1 + sig_len(n / radix(binary), binary)
    }
}

pub open spec fn max_nat(a: nat, b: nat) -> nat {
    if a >= b {
        a
    } else {
        b
    }
}

/// `n` written in the given radix without leading zeros, then zero-padded on the
/// left to at least `min_w` digits.
pub open spec fn number_text(n: nat, binary: bool, min_w: nat) -> Seq<char> {
    digits(n, binary, max_nat(min_w, sig_len(n, binary)))
}

/// `s` followed by spaces up to a total of `w` characters.
pub open spec fn pad_right(s: Seq<char>, w: nat) -> Seq<char> {
    if s.len() >= w {
        s
    } else {
        s + Seq::new((w - s.len()) as nat, |i: int| ' ')
    }
}

/// ASCII upper-case letters become lower case; every other character stays.
pub open spec fn lower_char(c: char) -> char {
    if 'A' <= c && c <= 'Z' {
        ((c as u32) + 32) as char
    } else {
        c
    }
}

pub open spec fn ascii_lower(s: Seq<char>) -> Seq<char> {
    Seq::new(s.len(), |i: int| lower_char(s[i]))
}

pub fn digit_of(d: u64) -> (c: char)
    requires
        d < 16,
    ensures
        c == digit_char(d as nat),
{
    match d {
        0 => '0',
        1 => '1',
        2 => '2',
        3 => '3',
        4 => '4',
        5 => '5',
        6 => '6',
        7 => '7',
        8 => '8',
        9 => '9',
        10 => 'A',
        11 => 'B',
        12 => 'C',
        13 => 'D',
        14 => 'E',
        _ => 'F',
    }
}

/// Appends the last `w` digits of `n`.
pub fn push_digits(out: &mut String, n: u64, binary: bool, w: u64)
    ensures
        final(out)@ == old(out)@ + digits(n as nat, binary, w as nat),
    decreases w,
{
    if w > 0 {
        let r: u64 = if binary { 2 } else { 16 };
        push_digits(out, n / r, binary, w - 1);
        out.push(digit_of(n % r));
        assert(final(out)@ =~= old(out)@ + digits(n as nat, binary, w as nat));
    }
}

/// The number of significant digits of `n`.
pub fn count_digits(n: u64, binary: bool) -> (r: u64)
    ensures
        r == sig_len(n as nat, binary),
        r <= n as int + 1,
    decreases n,
{
    let rad: u64 = if binary { 2 } else { 16 };
    if n < rad {
        1
    } else {
        let k = count_digits(n / rad, binary);
        1 + k
    }
}

/// Appends `number_text(n, binary, min_w)`.
pub fn push_number(out: &mut String, n: u64, binary: bool, min_w: u64)
    ensures
        final(out)@ == old(out)@ + number_text(n as nat, binary, min_w as nat),
{
    let k = count_digits(n, binary);
    let w = if min_w >= k { min_w } else { k };
    push_digits(out, n, binary, w);
}

/// Appends `s` padded with spaces to `w` characters.
pub fn push_padded(out: &mut String, s: &str, w: usize)
    ensures
        final(out)@ == old(out)@ + pad_right(s@, w as nat),
{
    let n = s.unicode_len();
    out.append(s);
    let ghost base = old(out)@ + s@;
    if n < w {
        let mut i: usize = n;
        while i < w
            invariant
                n <= i <= w,
                n == s@.len(),
                out@ == base + Seq::new((i - n) as nat, |j: int| ' '),
            decreases w - i,
        {
            out.push(' ');
            i = i + 1;
            assert(out@ =~= base + Seq::new((i - n) as nat, |j: int| ' '));
        }
        assert(out@ =~= old(out)@ + pad_right(s@, w as nat));
    } else {
        assert(out@ =~= old(out)@ + pad_right(s@, w as nat));
    }
}

/// The ASCII lower-case form of `s`.
pub fn to_ascii_lower(s: &str) -> (r: String)
    ensures
        r@ == ascii_lower(s@),
{
    let n = s.unicode_len();
    let mut r = String::new();
    let mut i: usize = 0;
    while i < n
        invariant
            i <= n,
            n == s@.len(),
            r@ == ascii_lower(s@.take(i as int)),
        decreases n - i,
    {
        let c = s.get_char(i);
        let l = if 'A' <= c && c <= 'Z' {
            ((c as u8) + 32) as char
        } else {
            c
        };
        r.push(l);
        i = i + 1;
        assert(r@ =~= ascii_lower(s@.take(i as int)));
    }
    assert(s@.take(n as int) =~= s@);
    r
}

} // verus!

verus! {

pub proof fn lemma_digit_value(d: nat)
    requires
        d < 16,
    ensures
        digit_value(digit_char(d)) == d,
{
}

/// `radix(binary)` to the power `w`.
pub open spec fn radix_pow(binary: bool, w: nat) -> nat
    decreases w,
{
    if w == 0 {
        1
    } else {
        radix(binary) * radix_pow(binary, (w - 1) as nat)
    }
}

pub proof fn lemma_digits_len(n: nat, binary: bool, w: nat)
    ensures
        digits(n, binary, w).len() == w,
    decreases w,
{
    if w > 0 {
        lemma_digits_len(n / radix(binary), binary, (w - 1) as nat);
    }
}

/// A number below `radix^w`, written with `w` digits, reads back as itself.
pub proof fn lemma_digits_value(n: nat, binary: bool, w: nat)
    requires
        n < radix_pow(binary, w),
    ensures
        digits_value(digits(n, binary, w), binary) == n,
    decreases w,
{
    if w > 0 {
        let r = radix(binary);
        let p = radix_pow(binary, (w - 1) as nat);
        assert(n / r < p) by {
            if binary {
                assert(n < 2 * p);
            } else {
                assert(n < 16 * p);
            }
        }
        lemma_digits_value(n / r, binary, (w - 1) as nat);
        let s = digits(n, binary, w);
        assert(s.drop_last() =~= digits(n / r, binary, (w - 1) as nat));
        lemma_digit_value(n % r);
        assert((n / r) * r + n % r == n) by {
            if binary {
                assert((n / 2) * 2 + n % 2 == n);
            } else {
                assert((n / 16) * 16 + n % 16 == n);
            }
        }
    }
}

} // verus!
