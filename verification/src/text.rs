//! Text building blocks: appending to strings, decimal and hexadecimal digits.

use vstd::prelude::*;

verus! {

/// Appends one character to a string (`String::push`).
#[verifier::external_body]
pub(crate) fn string_push(s: &mut String, c: char)
    ensures
        final(s)@ == old(s)@.push(c),
{
    s.push(c);
}

/// Appends a string slice to a string (`String::push_str`).
#[verifier::external_body]
pub(crate) fn string_push_str(s: &mut String, t: &str)
    ensures
        final(s)@ == old(s)@ + t@,
{
    s.push_str(t);
}

/// The ASCII character of a decimal digit.
pub open spec fn decimal_digit(d: int) -> char {
    (48 + d) as char
}

/// The shortest decimal representation of `n`.
pub open spec fn decimal_chars(n: nat) -> Seq<char>
    decreases n,
{
    if n < 10 {
        seq![decimal_digit(n as int)]
    } else {
        decimal_chars(n / 10).push(decimal_digit((n % 10) as int))
    }
}

/// The lowercase ASCII character of a hexadecimal digit.
pub open spec fn hex_digit(d: int) -> char {
    if d < 10 {
        (48 + d) as char
    } else {
        (87 + d) as char
    }
}

/// The hexadecimal digit at position `i` (0 is the most significant) of a
/// 64-bit value.
pub open spec fn hex_nibble(x: u64, i: int) -> int {
    ((x >> ((60 - 4 * i) as u64)) & 0xf) as int
}

/// The 16 lowercase hexadecimal digits of `x`, zero-padded.
pub open spec fn hex16_chars(x: u64) -> Seq<char> {
    Seq::new(16, |i: int| hex_digit(hex_nibble(x, i)))
}

/// Appends the shortest decimal representation of `n`.
pub fn push_decimal(s: &mut String, n: u64)
    ensures
        final(s)@ == old(s)@ + decimal_chars(n as nat),
    decreases n,
{
    if n >= 10 {
        push_decimal(s, n / 10);
    }
    let d: u64 = n % 10;
    let c: char = ((48 + d) as u8) as char;
    string_push(s, c);
    proof {
        assert(decimal_chars(n as nat) == if n < 10 {
            seq![decimal_digit(n as int)]
        } else {
            decimal_chars((n / 10) as nat).push(decimal_digit((n % 10) as int))
        });
    }
}

/// Appends `x` as 16 lowercase, zero-padded hexadecimal digits.
pub fn push_hex16(s: &mut String, x: u64)
    ensures
        final(s)@ == old(s)@ + hex16_chars(x),
{
    let ghost start = s@;
    let mut i: u64 = 0;
    while i < 16
        invariant
            i <= 16,
            s@ == start + hex16_chars(x).take(i as int),
        decreases 16 - i,
    {
        let shift: u64 = 60 - 4 * i;
        let d: u64 = (x >> shift) & 0xf;
        assert(d < 16) by (bit_vector)
            requires
                d == (x >> shift) & 0xf,
        ;
        let c: char = if d < 10 {
            ((48 + d) as u8) as char
        } else {
            ((87 + d) as u8) as char
        };
        string_push(s, c);
        proof {
            assert(hex16_chars(x).take(i + 1) =~= hex16_chars(x).take(i as int).push(c));
        }
        i = i + 1;
    }
    proof {
        assert(hex16_chars(x).take(16) =~= hex16_chars(x));
    }
}

} // verus!
