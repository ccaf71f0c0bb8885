//! Standard base64 (RFC 4648 alphabet, `=` padding).

use vstd::prelude::*;
use crate::text::string_push;

verus! {

/// The base64 symbol of a 6-bit value.
pub open spec fn b64_symbol(i: int) -> char {
    if i < 26 {
        (65 + i) as char
    } else if i < 52 {
        (97 + (i - 26)) as char
    } else if i < 62 {
        (48 + (i - 52)) as char
    } else if i == 62 {
        '+'
    } else {
        '/'
    }
}

/// The four symbols that encode one group of `n` (1 to 3) bytes; missing
/// bytes count as zero and missing symbols are `=`.
pub open spec fn b64_group(b0: u8, b1: u8, b2: u8, n: int) -> Seq<char> {
    seq![
        b64_symbol((b0 >> 2u8) as int),
        b64_symbol((((b0 & 0x03u8) << 4u8) | (b1 >> 4u8)) as int),
        if n > 1 { b64_symbol((((b1 & 0x0fu8) << 2u8) | (b2 >> 6u8)) as int) } else { '=' },
        if n > 2 { b64_symbol((b2 & 0x3fu8) as int) } else { '=' },
    ]
}

/// Number of bytes in the first group of `bytes`.
pub open spec fn first_group_len(bytes: Seq<u8>) -> int {
    if bytes.len() >= 3 { 3 } else { bytes.len() as int }
}

/// The base64 encoding of `bytes`, group by group from the front.
pub open spec fn base64_spec(bytes: Seq<u8>) -> Seq<char>
    decreases bytes.len(),
{
    if bytes.len() == 0 {
        Seq::empty()
    } else {
        let n = first_group_len(bytes);
        b64_group(
            bytes[0],
            if n > 1 { bytes[1] } else { 0u8 },
            if n > 2 { bytes[2] } else { 0u8 },
            n,
        ) + base64_spec(bytes.skip(n))
    }
}

/// The base64 symbol of a 6-bit value, as a character.
pub fn b64_char(i: u8) -> (c: char)
    requires
        i < 64,
    ensures
        c == b64_symbol(i as int),
{
    if i < 26 {
        (65 + i) as char
    } else if i < 52 {
        (97 + (i - 26)) as char
    } else if i < 62 {
        (48 + (i - 52)) as char
    } else if i == 62 {
        '+'
    } else {
        '/'
    }
}

/// Encodes bytes as standard base64 with padding.
pub fn base64_encode(bytes: &[u8]) -> (encoded: String)
    ensures
        encoded@ == base64_spec(bytes@),
{
    let mut encoded = String::new();
    let len = bytes.len();
    let mut i: usize = 0;
    proof {
        assert(bytes@.skip(0) =~= bytes@);
    }
    while i < len
        invariant
            len == bytes@.len(),
            i <= len,
            base64_spec(bytes@) == encoded@ + base64_spec(bytes@.skip(i as int)),
        decreases len - i,
    {
        let rest = len - i;
        let n: usize = if rest >= 3 { 3 } else { rest };
        let first = bytes[i];
        let second: u8 = if n > 1 { bytes[i + 1] } else { 0 };
        let third: u8 = if n > 2 { bytes[i + 2] } else { 0 };
        let ghost tail = bytes@.skip(i as int);
        proof {
            assert(first_group_len(tail) == n);
            assert(tail[0] == first);
            assert(n > 1 ==> tail[1] == second);
            assert(n > 2 ==> tail[2] == third);
            assert(tail.skip(n as int) =~= bytes@.skip(i + n));
        }
        let ghost group = b64_group(first, second, third, n as int);
        assert((first >> 2u8) < 64) by (bit_vector);
        assert((((first & 0x03u8) << 4u8) | (second >> 4u8)) < 64) by (bit_vector);
        assert((((second & 0x0fu8) << 2u8) | (third >> 6u8)) < 64) by (bit_vector);
        assert((third & 0x3fu8) < 64) by (bit_vector);
        let ghost before = encoded@;
        string_push(&mut encoded, b64_char(first >> 2));
        string_push(&mut encoded, b64_char(((first & 0x03) << 4) | (second >> 4)));
        if n > 1 {
            string_push(&mut encoded, b64_char(((second & 0x0f) << 2) | (third >> 6)));
        } else {
            string_push(&mut encoded, '=');
        }
        if n > 2 {
            string_push(&mut encoded, b64_char(third & 0x3f));
        } else {
            string_push(&mut encoded, '=');
        }
        proof {
            assert(encoded@ =~= before + group);
            assert(before + group + base64_spec(bytes@.skip(i + n)) =~= before + (group
                + base64_spec(bytes@.skip(i + n))));
        }
        i = i + n;
    }
    proof {
        assert(bytes@.skip(len as int) =~= Seq::<u8>::empty());
        assert(encoded@ + Seq::<char>::empty() =~= encoded@);
    }
    encoded
}

/// The encoding is four symbols for every started group of three bytes.
pub proof fn lemma_base64_len(bytes: Seq<u8>)
    ensures
        base64_spec(bytes).len() == 4 * ((bytes.len() + 2) / 3),
    decreases bytes.len(),
{
    if bytes.len() > 0 {
        let n = first_group_len(bytes);
        lemma_base64_len(bytes.skip(n));
    }
}

/// Encoding a whole number of groups followed by more bytes is the
/// concatenation of the two encodings.
pub proof fn lemma_base64_concat(a: Seq<u8>, b: Seq<u8>)
    requires
        a.len() % 3 == 0,
    ensures
        base64_spec(a + b) == base64_spec(a) + base64_spec(b),
    decreases a.len(),
{
    if a.len() == 0 {
        assert(a + b =~= b);
        assert(Seq::<char>::empty() + base64_spec(b) =~= base64_spec(b));
    } else {
        let ab = a + b;
        assert(first_group_len(ab) == 3);
        assert(first_group_len(a) == 3);
        assert(ab.skip(3) =~= a.skip(3) + b);
        assert(ab[0] == a[0] && ab[1] == a[1] && ab[2] == a[2]);
        lemma_base64_concat(a.skip(3), b);
        let g = b64_group(a[0], a[1], a[2], 3);
        assert(g + (base64_spec(a.skip(3)) + base64_spec(b)) =~= (g + base64_spec(a.skip(3)))
            + base64_spec(b));
    }
}

/// The 6-bit value of a base64 symbol.
pub open spec fn b64_value(c: char) -> int {
    let n = c as int;
    if 65 <= n <= 90 {
        n - 65
    } else if 97 <= n <= 122 {
        n - 97 + 26
    } else if 48 <= n <= 57 {
        n - 48 + 52
    } else if c == '+' {
        62
    } else {
        63
    }
}

/// The bytes of one group of four symbols (RFC 4648): three bytes from the
/// four 6-bit values, or fewer where the group ends in `=` padding.
pub open spec fn b64_decode_group(g: Seq<char>) -> Seq<u8> {
    let v0 = b64_value(g[0]);
    let v1 = b64_value(g[1]);
    let v2 = if g[2] == '=' { 0 } else { b64_value(g[2]) };
    let v3 = if g[3] == '=' { 0 } else { b64_value(g[3]) };
    let b0 = (v0 * 4 + v1 / 16) as u8;
    let b1 = ((v1 % 16) * 16 + v2 / 4) as u8;
    let b2 = ((v2 % 4) * 64 + v3) as u8;
    if g[2] == '=' {
        seq![b0]
    } else if g[3] == '=' {
        seq![b0, b1]
    } else {
        seq![b0, b1, b2]
    }
}

/// Standard base64 decoding of padded text, four symbols at a time.
pub open spec fn base64_decode_spec(s: Seq<char>) -> Seq<u8>
    decreases s.len(),
{
    if s.len() < 4 {
        Seq::empty()
    } else {
        b64_decode_group(s.take(4)) + base64_decode_spec(s.skip(4))
    }
}

proof fn lemma_symbol_value(i: int)
    requires
        0 <= i < 64,
    ensures
        b64_value(b64_symbol(i)) == i,
        b64_symbol(i) != '=',
{
}

proof fn lemma_group_bytes(b0: u8, b1: u8, b2: u8)
    ensures
        (b0 >> 2u8) as int * 4 + (((b0 & 0x03u8) << 4u8) | (b1 >> 4u8)) as int / 16 == b0 as int,
        ((((b0 & 0x03u8) << 4u8) | (b1 >> 4u8)) as int % 16) * 16 + (((b1 & 0x0fu8) << 2u8) | (b2
            >> 6u8)) as int / 4 == b1 as int,
        ((((b1 & 0x0fu8) << 2u8) | (b2 >> 6u8)) as int % 4) * 64 + (b2 & 0x3fu8) as int == b2 as int,
        (b0 >> 2u8) < 64,
        (((b0 & 0x03u8) << 4u8) | (b1 >> 4u8)) < 64,
        (((b1 & 0x0fu8) << 2u8) | (b2 >> 6u8)) < 64,
        (b2 & 0x3fu8) < 64,
{
    assert((b0 >> 2u8) as int * 4 + (((b0 & 0x03u8) << 4u8) | (b1 >> 4u8)) as int / 16 == b0 as int)
        by (bit_vector);
    assert(((((b0 & 0x03u8) << 4u8) | (b1 >> 4u8)) as int % 16) * 16 + (((b1 & 0x0fu8) << 2u8) | (b2
        >> 6u8)) as int / 4 == b1 as int) by (bit_vector);
    assert(((((b1 & 0x0fu8) << 2u8) | (b2 >> 6u8)) as int % 4) * 64 + (b2 & 0x3fu8) as int == b2 as int)
        by (bit_vector);
    assert((b0 >> 2u8) < 64) by (bit_vector);
    assert((((b0 & 0x03u8) << 4u8) | (b1 >> 4u8)) < 64) by (bit_vector);
    assert((((b1 & 0x0fu8) << 2u8) | (b2 >> 6u8)) < 64) by (bit_vector);
    assert((b2 & 0x3fu8) < 64) by (bit_vector);
}

/// Decoding an encoded group of `n` bytes gives the bytes back.
proof fn lemma_group_roundtrip(b0: u8, b1: u8, b2: u8, n: int)
    requires
        1 <= n <= 3,
    ensures
        b64_decode_group(b64_group(b0, b1, b2, n)) == (if n == 1 {
            seq![b0]
        } else if n == 2 {
            seq![b0, b1]
        } else {
            seq![b0, b1, b2]
        }),
{
    let g = b64_group(b0, b1, b2, n);
    let i0 = (b0 >> 2u8) as int;
    let i1 = (((b0 & 0x03u8) << 4u8) | (b1 >> 4u8)) as int;
    let i2 = (((b1 & 0x0fu8) << 2u8) | (b2 >> 6u8)) as int;
    let i3 = (b2 & 0x3fu8) as int;
    lemma_group_bytes(b0, b1, b2);
    lemma_symbol_value(i0);
    lemma_symbol_value(i1);
    lemma_symbol_value(i2);
    lemma_symbol_value(i3);
    assert(g[0] == b64_symbol(i0));
    assert(g[1] == b64_symbol(i1));
    if n == 1 {
        assert(g[2] == '=');
        assert(b64_decode_group(g) =~= seq![b0]);
    } else if n == 2 {
        assert(g[2] == b64_symbol(i2));
        assert(g[3] == '=');
        assert(b64_decode_group(g) =~= seq![b0, b1]);
    } else {
        assert(g[2] == b64_symbol(i2));
        assert(g[3] == b64_symbol(i3));
        assert(b64_decode_group(g) =~= seq![b0, b1, b2]);
    }
}

/// Standard base64 decoding of the encoding gives back exactly the bytes.
pub proof fn lemma_base64_roundtrip(bytes: Seq<u8>)
    ensures
        base64_decode_spec(base64_spec(bytes)) == bytes,
    decreases bytes.len(),
{
    if bytes.len() > 0 {
        let n = first_group_len(bytes);
        let b1 = if n > 1 { bytes[1] } else { 0u8 };
        let b2 = if n > 2 { bytes[2] } else { 0u8 };
        let g = b64_group(bytes[0], b1, b2, n);
        let rest = base64_spec(bytes.skip(n));
        let enc = g + rest;
        assert(base64_spec(bytes) == enc);
        assert(enc.take(4) =~= g);
        assert(enc.skip(4) =~= rest);
        lemma_group_roundtrip(bytes[0], b1, b2, n);
        lemma_base64_roundtrip(bytes.skip(n));
        assert(b64_decode_group(g) =~= bytes.take(n));
        assert(bytes.take(n) + bytes.skip(n) =~= bytes);
    } else {
        assert(base64_spec(bytes) =~= Seq::<char>::empty());
    }
}

} // verus!
