//! The encode and decode algorithms, written once for the widest integers
//! and shared by every width.
use crate::error::DecodeError;
use crate::repack::{signed_bit_length, unsigned_bit_length};
use crate::model::{
    bit_length, concat, continues, fits_signed, fits_unsigned, group, is_encoding, le_byte,
    lemma_signed_suffix_out_of_range, lemma_unsigned_suffix_le, magnitude, sign_extend,
    signed_encoding, signed_value, signed_width, splits_into_values, twos_complement, unsigned_encoding,
    unsigned_value,
};
use vstd::arithmetic::div_mod::lemma_div_denominator;
use vstd::arithmetic::power2::{
    lemma2_to64, lemma2_to64_rest, lemma_pow2_adds, lemma_pow2_strictly_increases,
    lemma_pow2_unfold, pow2,
};
use vstd::prelude::*;

verus! {

/// Encodes `value` as unsigned LEB128: the low seven bits at a time, with the
/// continuation bit set on every byte after which non-zero bits remain.
pub fn encode_unsigned(value: u128) -> (r: Vec<u8>)
    ensures
        r@ == unsigned_encoding(value as nat),
{
    let mut v: u128 = value;
    let mut out: Vec<u8> = Vec::new();
    loop
        invariant
            out@ + unsigned_encoding(v as nat) == unsigned_encoding(value as nat),
        decreases v,
    {
        let low = (v & 0x7f) as u8;
        let rest = v >> 7;
        assert(low == v % 128 && rest == v / 128) by (bit_vector)
            requires
                low == (v & 0x7f) as u8,
                rest == v >> 7,
        ;
        if rest != 0 {
            let byte = low | 0x80;
            assert(byte == low + 128) by (bit_vector)
                requires
                    byte == low | 0x80,
                    low < 128,
            ;
            assert(unsigned_encoding(v as nat) == seq![byte] + unsigned_encoding(rest as nat));
            out.push(byte);
            assert(out@ + unsigned_encoding(rest as nat) =~= unsigned_encoding(value as nat));
            v = rest;
        } else {
            out.push(low);
            assert(out@ =~= unsigned_encoding(value as nat));
            return out;
        }
    }
}

/// Encodes `value` as signed LEB128: groups are emitted until what remains is
/// the sign extension of bit 6 of the group just emitted.
pub fn encode_signed(value: i128) -> (r: Vec<u8>)
    ensures
        r@ == signed_encoding(value as int),
{
    let mut v: i128 = value;
    let mut out: Vec<u8> = Vec::new();
    loop
        invariant
            out@ + signed_encoding(v as int) == signed_encoding(value as int),
        decreases magnitude(v as int),
    {
        let low = (v & 0x7f) as u8;
        let rest = v >> 7;
        assert(low == v % 128 && rest == v / 128) by (bit_vector)
            requires
                low == (v & 0x7f) as u8,
                rest == v >> 7,
        ;
        let sign_clear = low & 0x40 == 0;
        assert(sign_clear <==> low < 64) by (bit_vector)
            requires
                sign_clear == (low & 0x40 == 0),
                low < 128,
        ;
        if (rest == 0 && sign_clear) || (rest == -1 && !sign_clear) {
            out.push(low);
            assert(out@ =~= signed_encoding(value as int));
            return out;
        } else {
            let byte = low | 0x80;
            assert(byte == low + 128) by (bit_vector)
                requires
                    byte == low | 0x80,
                    low < 128,
            ;
            assert(signed_encoding(v as int) == seq![byte] + signed_encoding(rest as int));
            out.push(byte);
            assert(out@ + signed_encoding(rest as int) =~= signed_encoding(value as int));
            v = rest;
        }
    }
}

/// The powers of two that bound the widest accumulators.
proof fn lemma_wide_powers()
    ensures
        pow2(7) == 128,
        pow2(120) == 0x100_0000_0000_0000_0000_0000_0000_0000,
        pow2(121) == 0x200_0000_0000_0000_0000_0000_0000_0000,
        pow2(127) == 0x8000_0000_0000_0000_0000_0000_0000_0000,
{
    lemma2_to64();
    lemma2_to64_rest();
    lemma_pow2_adds(56, 64);
    lemma_pow2_adds(57, 64);
    lemma_pow2_adds(63, 64);
    assert(pow2(56) * pow2(64) == 0x100_0000_0000_0000_0000_0000_0000_0000);
    assert(pow2(57) * pow2(64) == 0x200_0000_0000_0000_0000_0000_0000_0000);
    assert(pow2(63) * pow2(64) == 0x8000_0000_0000_0000_0000_0000_0000_0000);
}

/// The overflow reported when the unsigned value of `s` does not fit in
/// `width` bits.
pub open spec fn unsigned_overflow(s: Seq<u8>, width: u32) -> DecodeError {
    DecodeError::Overflow {
        requested_width: width,
        needed_bits: bit_length(unsigned_value(s)) as u128,
    }
}

/// The overflow reported when the signed value of `s` does not fit in
/// `width` bits.
pub open spec fn signed_overflow(s: Seq<u8>, width: u32) -> DecodeError {
    DecodeError::Overflow {
        requested_width: width,
        needed_bits: signed_width(signed_value(s)) as u128,
    }
}

/// Two to the power `n`.
pub(crate) fn pow2_u128(n: u32) -> (r: u128)
    requires
        n < 128,
    ensures
        r == pow2(n as nat),
{
    proof {
        lemma_wide_powers();
        lemma2_to64();
    }
    let mut r: u128 = 1;
    let mut k: u32 = 0;
    while k < n
        invariant
            k <= n < 128,
            r == pow2(k as nat),
            pow2(127) == 0x8000_0000_0000_0000_0000_0000_0000_0000,
        decreases n - k,
    {
        proof {
            lemma_pow2_unfold((k + 1) as nat);
            if k + 1 < 127 {
                lemma_pow2_strictly_increases((k + 1) as nat, 127);
            }
        }
        r = r * 2;
        k = k + 1;
    }
    r
}

/// The payload group of one byte, as a machine integer.
pub(crate) fn group_of(b: u8) -> (g: u8)
    ensures
        g as nat == group(b),
        g < 128,
{
    let g = b & 0x7f;
    assert(g == b % 128) by (bit_vector)
        requires
            g == b & 0x7f,
    ;
    g
}

/// Decodes the groups of `bytes` as an unsigned integer of `bits` bits.
///
/// The groups are folded from the most significant down, and the decode
/// stops with an overflow as soon as the part read so far cannot fit.
#[verifier::spinoff_prover]
pub fn decode_unsigned(bytes: &[u8], bits: u32) -> (r: Result<u128, DecodeError>)
    requires
        8 <= bits <= 128,
    ensures
        r is Ok <==> fits_unsigned(unsigned_value(bytes@) as int, bits as nat),
        r matches Ok(v) ==> v == unsigned_value(bytes@),
        r matches Err(e) ==> e == unsigned_overflow(bytes@, bits),
{
    let limit = pow2_u128(bits - 7);
    proof {
        lemma_wide_powers();
        lemma_pow2_adds((bits - 7) as nat, 7);
        vstd::arithmetic::power2::lemma_pow2_pos(bits as nat);
        if bits - 7 < 121 {
            lemma_pow2_strictly_increases((bits - 7) as nat, 121);
        }
    }
    let n = bytes.len();
    let mut acc: u128 = 0;
    let mut i: usize = n;
    assert(bytes@.subrange(n as int, n as int) =~= Seq::<u8>::empty());
    while i > 0
        invariant
            i <= n == bytes@.len(),
            acc == unsigned_value(bytes@.subrange(i as int, n as int)),
            acc < pow2(bits as nat),
            limit == pow2((bits - 7) as nat),
            limit <= 0x200_0000_0000_0000_0000_0000_0000_0000,
            pow2(bits as nat) == limit * 128,
        decreases i,
    {
        i = i - 1;
        let g = group_of(bytes[i]);
        let ghost tail = bytes@.subrange(i as int, n as int);
        assert(tail.drop_first() =~= bytes@.subrange(i + 1, n as int));
        assert(unsigned_value(tail) == g + 128 * acc);
        if acc >= limit {
            proof {
                lemma_unsigned_suffix_le(bytes@, i as int);
            }
            let needed_bits = unsigned_bit_length(bytes);
            return Err(DecodeError::Overflow { requested_width: bits, needed_bits });
        }
        acc = acc * 128 + g as u128;
    }
    assert(bytes@.subrange(0, n as int) =~= bytes@);
    Ok(acc)
}

/// Decodes the groups of `bytes` as a two's-complement integer of `bits`
/// bits, sign-extending the most significant group.
#[verifier::spinoff_prover]
pub fn decode_signed(bytes: &[u8], bits: u32) -> (r: Result<i128, DecodeError>)
    requires
        8 <= bits <= 128,
    ensures
        r is Ok <==> fits_signed(signed_value(bytes@), bits as nat),
        r matches Ok(v) ==> v == signed_value(bytes@),
        r matches Err(e) ==> e == signed_overflow(bytes@, bits),
{
    let n = bytes.len();
    proof {
        lemma_wide_powers();
        lemma_pow2_adds((bits - 8) as nat, 7);
        if bits > 8 {
            lemma_pow2_strictly_increases(7, (bits - 1) as nat);
        }
        if bits - 8 < 120 {
            lemma_pow2_strictly_increases((bits - 8) as nat, 120);
        }
    }
    if n == 0 {
        return Ok(0);
    }
    let limit = pow2_u128(bits - 8) as i128;
    let last = group_of(bytes[n - 1]);
    let mut acc: i128 = if last >= 64 {
        last as i128 - 128
    } else {
        last as i128
    };
    let mut i: usize = n - 1;
    assert(bytes@.subrange(i as int, n as int) =~= seq![bytes@[i as int]]);
    assert(acc == sign_extend(group(bytes@[i as int])));
    while i > 0
        invariant
            i < n == bytes@.len(),
            acc == signed_value(bytes@.subrange(i as int, n as int)),
            fits_signed(acc as int, bits as nat),
            limit == pow2((bits - 8) as nat),
            limit <= 0x100_0000_0000_0000_0000_0000_0000_0000,
            pow2((bits - 1) as nat) == limit * 128,
            8 <= bits <= 128,
        decreases i,
    {
        i = i - 1;
        let g = group_of(bytes[i]);
        let ghost tail = bytes@.subrange(i as int, n as int);
        assert(tail.drop_first() =~= bytes@.subrange(i + 1, n as int));
        assert(signed_value(tail) == g + 128 * acc);
        if acc < -limit || acc >= limit {
            proof {
                lemma_signed_suffix_out_of_range(bytes@, i as int, bits as nat);
            }
            let needed_bits = signed_bit_length(bytes);
            return Err(DecodeError::Overflow { requested_width: bits, needed_bits });
        }
        acc = acc * 128 + g as i128;
    }
    assert(bytes@.subrange(0, n as int) =~= bytes@);
    Ok(acc)
}

/// The length of the one complete value at the start of `bytes`: up to and
/// including the first byte whose continuation bit is clear.
pub fn first_value_len(bytes: &[u8]) -> (r: Result<usize, DecodeError>)
    ensures
        r is Ok <==> exists|i: int| 0 <= i < bytes@.len() && !continues(#[trigger] bytes@[i]),
        r matches Ok(k) ==> 1 <= k <= bytes@.len() && is_encoding(bytes@.subrange(0, k as int)),
        r matches Err(e) ==> e == DecodeError::Truncated,
{
    let mut i: usize = 0;
    while i < bytes.len()
        invariant
            i <= bytes@.len(),
            forall|j: int| 0 <= j < i ==> continues(#[trigger] bytes@[j]),
        decreases bytes@.len() - i,
    {
        if bytes[i] < 0x80 {
            assert(!continues(bytes@[i as int]));
            return Ok(i + 1);
        }
        i = i + 1;
    }
    Err(DecodeError::Truncated)
}

/// The views of a list of byte slices.
pub open spec fn slice_views(parts: Seq<&[u8]>) -> Seq<Seq<u8>> {
    parts.map_values(|p: &[u8]| p@)
}

/// Splits `bytes` into the complete values laid end to end in it.
pub fn split_values<'a>(bytes: &'a [u8]) -> (r: Result<Vec<&'a [u8]>, DecodeError>)
    ensures
        r is Ok <==> splits_into_values(bytes@),
        r matches Ok(parts) ==> {
            &&& forall|i: int| 0 <= i < parts@.len() ==> is_encoding(#[trigger] parts@[i]@)
            &&& concat(slice_views(parts@)) == bytes@
        },
        r matches Err(e) ==> e == DecodeError::TrailingBytes,
{
    let n = bytes.len();
    let mut parts: Vec<&'a [u8]> = Vec::new();
    let mut start: usize = 0;
    let mut end: usize = 0;
    assert(concat(slice_views(parts@)) =~= bytes@.subrange(0, 0));
    while end < n
        invariant
            start <= end <= n == bytes@.len(),
            forall|j: int| start <= j < end ==> continues(#[trigger] bytes@[j]),
            forall|i: int| 0 <= i < parts@.len() ==> is_encoding(#[trigger] parts@[i]@),
            concat(slice_views(parts@)) == bytes@.subrange(0, start as int),
        decreases n - end,
    {
        let byte = bytes[end];
        end = end + 1;
        if byte < 0x80 {
            let part = vstd::slice::slice_subrange(bytes, start, end);
            let ghost before = parts@;
            parts.push(part);
            assert(slice_views(parts@).drop_last() =~= slice_views(before));
            assert(bytes@.subrange(0, end as int) =~= bytes@.subrange(0, start as int) + part@);
            start = end;
        }
    }
    if start == end {
        assert(bytes@.subrange(0, n as int) =~= bytes@);
        Ok(parts)
    } else {
        Err(DecodeError::TrailingBytes)
    }
}

/// The width of `usize` in bits.
pub fn word_bits() -> (r: u32)
    ensures
        r == usize::BITS,
        r == 32 || r == 64,
        pow2(r as nat) == usize::MAX + 1,
        pow2((r - 1) as nat) == isize::MAX + 1,
        -pow2((r - 1) as nat) == isize::MIN,
{
    proof {
        lemma2_to64();
        lemma2_to64_rest();
    }
    if usize::MAX == 0xffff_ffff {
        32
    } else {
        64
    }
}

/// The sixteen bytes of `v`, least significant first.
#[verifier::spinoff_prover]
pub fn le_bytes_u128(v: u128) -> (r: [u8; 16])
    ensures
        forall|i: int| 0 <= i < 16 ==> r[i] == le_byte(v as nat, i as nat),
{
    let mut out: [u8; 16] = [0u8; 16];
    let mut x: u128 = v;
    let mut i: usize = 0;
    proof {
        lemma2_to64();
        assert(v as nat / 1 == v as nat);
    }
    while i < 16
        invariant
            i <= 16,
            x == v as nat / pow2(8 * i as nat),
            pow2(8) == 256,
            forall|j: int| 0 <= j < i ==> out[j] == le_byte(v as nat, j as nat),
        decreases 16 - i,
    {
        proof {
            vstd::arithmetic::power2::lemma_pow2_pos(8 * i as nat);
            lemma_pow2_adds(8 * i as nat, 8);
            lemma_div_denominator(v as int, pow2(8 * i as nat) as int, 256);
            assert(8 * (i + 1) == 8 * i + 8) by (nonlinear_arith);
        }
        out[i] = (x % 256) as u8;
        x = x / 256;
        i = i + 1;
    }
    out
}

/// The bit pattern of `v`, read unsigned.
pub fn twos_complement_u128(v: i128) -> (r: u128)
    ensures
        r == twos_complement(v as int, 128),
{
    proof {
        lemma_wide_powers();
        lemma_pow2_adds(64, 64);
        lemma2_to64_rest();
    }
    if v >= 0 {
        v as u128
    } else {
        (v - i128::MIN) as u128 + 0x8000_0000_0000_0000_0000_0000_0000_0000
    }
}

} // verus!
