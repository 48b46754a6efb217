use vstd::prelude::*;
use vstd::string::*;

use crate::error::Error;

verus! {

/// The big-endian value of the first eight bytes of `b`.
pub open spec fn be_u64(b: Seq<u8>) -> u64 {
    ((b[0] as u64) << 56u64) | ((b[1] as u64) << 48u64) | ((b[2] as u64) << 40u64) | ((b[3] as u64)
        << 32u64) | ((b[4] as u64) << 24u64) | ((b[5] as u64) << 16u64) | ((b[6] as u64) << 8u64)
        | (b[7] as u64)
}

/// The big-endian value of the first four bytes of `b`.
pub open spec fn be_u32(b: Seq<u8>) -> u32 {
    ((b[0] as u32) << 24u32) | ((b[1] as u32) << 16u32) | ((b[2] as u32) << 8u32) | (b[3] as u32)
}

/// The `i`-th byte, counted from the most significant one, of the
/// big-endian form of `u`.
pub open spec fn be_byte(u: u64, i: int) -> u8 {
    ((u >> ((56 - 8 * i) as u64)) & 0xffu64) as u8
}

/// The eight bytes of `u` in big-endian order.
pub open spec fn be_bytes(u: u64) -> Seq<u8> {
    Seq::new(8, |i: int| be_byte(u, i))
}

/// Create an integer value from its representation as a byte array in big endian.
pub fn u8x8_to_u64(u8x8: &[u8; 8]) -> (r: u64)
    ensures
        r == be_u64(u8x8@),
{
    ((u8x8[0] as u64) << 56u64) | ((u8x8[1] as u64) << 48u64) | ((u8x8[2] as u64) << 40u64) | ((
    u8x8[3] as u64) << 32u64) | ((u8x8[4] as u64) << 24u64) | ((u8x8[5] as u64) << 16u64) | ((
    u8x8[6] as u64) << 8u64) | (u8x8[7] as u64)
}

/// The bytes of `u` in big-endian order are exactly the ones that read back as `u`.
pub proof fn be_round_trip(u: u64)
    ensures
        be_u64(be_bytes(u)) == u,
        be_bytes(u).len() == 8,
{
    let b = be_bytes(u);
    let b0 = b[0];
    let b1 = b[1];
    let b2 = b[2];
    let b3 = b[3];
    let b4 = b[4];
    let b5 = b[5];
    let b6 = b[6];
    let b7 = b[7];
    assert(b0 == ((u >> 56u64) & 0xffu64) as u8);
    assert(b7 == ((u >> 0u64) & 0xffu64) as u8);
    assert(((b0 as u64) << 56u64) | ((b1 as u64) << 48u64) | ((b2 as u64) << 40u64) | ((b3 as u64)
        << 32u64) | ((b4 as u64) << 24u64) | ((b5 as u64) << 16u64) | ((b6 as u64) << 8u64) | (b7 as u64)
        == u) by (bit_vector)
        requires
            b0 == ((u >> 56u64) & 0xffu64) as u8,
            b1 == ((u >> 48u64) & 0xffu64) as u8,
            b2 == ((u >> 40u64) & 0xffu64) as u8,
            b3 == ((u >> 32u64) & 0xffu64) as u8,
            b4 == ((u >> 24u64) & 0xffu64) as u8,
            b5 == ((u >> 16u64) & 0xffu64) as u8,
            b6 == ((u >> 8u64) & 0xffu64) as u8,
            b7 == ((u >> 0u64) & 0xffu64) as u8,
    ;
}

/// Return the memory representation of this integer as a byte array in
/// big-endian (network) byte order.
pub fn u64_to_u8x8(u: u64) -> (r: [u8; 8])
    ensures
        r@ == be_bytes(u),
        be_u64(r@) == u,
{
    let r = [
        ((u >> 56u64) & 0xffu64) as u8,
        ((u >> 48u64) & 0xffu64) as u8,
        ((u >> 40u64) & 0xffu64) as u8,
        ((u >> 32u64) & 0xffu64) as u8,
        ((u >> 24u64) & 0xffu64) as u8,
        ((u >> 16u64) & 0xffu64) as u8,
        ((u >> 8u64) & 0xffu64) as u8,
        (u & 0xffu64) as u8,
    ];
    proof {
        assert((u & 0xffu64) == ((u >> 0u64) & 0xffu64)) by (bit_vector);
        assert(r@ =~= be_bytes(u));
        be_round_trip(u);
    }
    r
}

/// The four bytes of `u` in big-endian order.
pub fn u32_to_u8x4(u: u32) -> (r: [u8; 4])
    ensures
        be_u32(r@) == u,
{
    let r = [
        ((u >> 24u32) & 0xffu32) as u8,
        ((u >> 16u32) & 0xffu32) as u8,
        ((u >> 8u32) & 0xffu32) as u8,
        (u & 0xffu32) as u8,
    ];
    let b0 = r[0];
    let b1 = r[1];
    let b2 = r[2];
    let b3 = r[3];
    proof {
        assert(((b0 as u32) << 24u32) | ((b1 as u32) << 16u32) | ((b2 as u32) << 8u32) | (b3 as u32)
            == u) by (bit_vector)
            requires
                b0 == ((u >> 24u32) & 0xffu32) as u8,
                b1 == ((u >> 16u32) & 0xffu32) as u8,
                b2 == ((u >> 8u32) & 0xffu32) as u8,
                b3 == (u & 0xffu32) as u8,
        ;
    }
    r
}

pub open spec fn is_hex_digit(c: char) -> bool {
    ('0' <= c <= '9') || ('a' <= c <= 'f') || ('A' <= c <= 'F')
}

pub open spec fn hex_digit_value(c: char) -> int {
    if '0' <= c <= '9' {
        c as int - '0' as int
    } else if 'a' <= c <= 'f' {
        c as int - 'a' as int + 10
    } else {
        c as int - 'A' as int + 10
    }
}

/// Two characters that read as one byte in base 16: two hex digits, or a
/// `+` sign and one hex digit.
pub open spec fn hex_pair_ok(c0: char, c1: char) -> bool {
    is_hex_digit(c1) && (is_hex_digit(c0) || c0 == '+')
}

pub open spec fn hex_pair_value(c0: char, c1: char) -> u8 {
    if c0 == '+' {
        hex_digit_value(c1) as u8
    } else {
        (hex_digit_value(c0) * 16 + hex_digit_value(c1)) as u8
    }
}

/// `s` is made of pairs of characters that each read as one byte.
pub open spec fn is_hex_text(s: Seq<char>) -> bool {
    &&& s.len() % 2 == 0
    &&& forall|i: int| 0 <= i < s.len() / 2 ==> hex_pair_ok(#[trigger] s[2 * i], s[2 * i + 1])
}

/// The bytes that the hex text `s` stands for.
pub open spec fn hex_bytes(s: Seq<char>) -> Seq<u8> {
    Seq::new(s.len() / 2, |i: int| hex_pair_value(s[2 * i], s[2 * i + 1]))
}

fn hex_digit(c: char) -> (r: Option<u8>)
    ensures
        r.is_some() == is_hex_digit(c),
        r.is_some() ==> r.unwrap() == hex_digit_value(c),
{
    if '0' <= c && c <= '9' {
        Some(((c as u32) - ('0' as u32)) as u8)
    } else if 'a' <= c && c <= 'f' {
        Some(((c as u32) - ('a' as u32) + 10) as u8)
    } else if 'A' <= c && c <= 'F' {
        Some(((c as u32) - ('A' as u32) + 10) as u8)
    } else {
        None
    }
}

/// Decode text in base 16, two characters per byte.
pub fn decode_hex(s: &str) -> (r: Result<Vec<u8>, Error>)
    ensures
        r.is_ok() == is_hex_text(s@),
        r.is_ok() ==> r.unwrap()@ == hex_bytes(s@),
{
    let n = s.unicode_len();
    let mut out: Vec<u8> = Vec::new();
    if n % 2 != 0 {
        return Err(Error::IsNotNumber(String::from_str(s)));
    }
    let mut i: usize = 0;
    while i < n
        invariant
            n == s@.len(),
            n % 2 == 0,
            i % 2 == 0,
            i <= n,
            out@.len() == i / 2,
            forall|j: int| 0 <= j < i / 2 ==> hex_pair_ok(#[trigger] s@[2 * j], s@[2 * j + 1]),
            forall|j: int| 0 <= j < i / 2 ==> #[trigger] out@[j] == hex_pair_value(s@[2 * j], s@[2 * j + 1]),
        decreases n - i,
    {
        let c0 = s.get_char(i);
        let c1 = s.get_char(i + 1);
        let lo = hex_digit(c1);
        let hi = hex_digit(c0);
        if lo.is_none() || (hi.is_none() && c0 != '+') {
            proof {
                assert(!hex_pair_ok(s@[2 * (i / 2) as int], s@[2 * (i / 2) as int + 1]));
            }
            return Err(Error::IsNotNumber(String::from_str(s)));
        }
        let v = lo.unwrap();
        if c0 == '+' {
            out.push(v);
        } else {
            let h = hi.unwrap();
            out.push(h * 16 + v);
        }
        proof {
            assert(2 * ((i / 2) as int) == i);
        }
        i = i + 2;
    }
    proof {
        assert(out@ =~= hex_bytes(s@));
    }
    Ok(out)
}

} // verus!
