//! Conversions between LEB128 groups and runs of little-endian bytes of any
//! length, for values wider than any machine integer.
use crate::codec::{group_of, pow2_u128};
use crate::model::{
    bit_length, lemma_bit_length_between, lemma_bit_length_bounds, lemma_le_value_bound,
    lemma_signed_value_complement, signed_width, continues, group, is_encoding, is_minimal_le, is_minimal_le_signed, le_signed_value, le_value,
    lemma_le_signed_push_sign, lemma_le_signed_range, lemma_le_value_push, lemma_signed_canonical,
    lemma_signed_push_sign, lemma_signed_range, lemma_signed_unsigned,
    lemma_signed_value_same_groups, lemma_unsigned_canonical, lemma_unsigned_value_push,
    lemma_unsigned_value_same_groups, negative_top, signed_encoding, signed_value,
    unsigned_encoding, unsigned_value,
};
use vstd::arithmetic::power2::{
    lemma2_to64, lemma_pow2_adds, lemma_pow2_strictly_increases, lemma_pow2_unfold, pow2,
};
use vstd::prelude::*;

verus! {

/// Drops most significant zero bytes, keeping at least one byte.
fn trim_le(out: &mut Vec<u8>)
    requires
        old(out)@.len() >= 1,
    ensures
        le_value(final(out)@) == le_value(old(out)@),
        is_minimal_le(final(out)@),
        final(out)@.len() <= old(out)@.len(),
{
    while out.len() > 1 && out[out.len() - 1] == 0
        invariant
            1 <= out@.len() <= old(out)@.len(),
            le_value(out@) == le_value(old(out)@),
        decreases out@.len(),
    {
        let ghost before = out@;
        out.pop();
        proof {
            assert(before =~= out@.push(0));
            lemma_le_value_push(out@, 0);
        }
    }
}

/// Repacks the groups of `bytes` into whole bytes, least significant first,
/// and the `nbits` bits left over.
#[verifier::spinoff_prover]
fn groups_to_bytes(bytes: &[u8]) -> (r: (Vec<u8>, u32, u32))
    ensures
        r.2 < 8,
        r.1 < pow2(r.2 as nat),
        7 * bytes@.len() == 8 * r.0@.len() + r.2,
        unsigned_value(bytes@) == le_value(r.0@) + r.1 * pow2(8 * r.0@.len()),
{
    let n = bytes.len();
    let mut out: Vec<u8> = Vec::new();
    let mut acc: u32 = 0;
    let mut nbits: u32 = 0;
    let mut i: usize = 0;
    proof {
        lemma2_to64();
        assert(bytes@.subrange(0, 0) =~= Seq::<u8>::empty());
    }
    while i < n
        invariant
            i <= n == bytes@.len(),
            nbits < 8,
            acc < pow2(nbits as nat),
            7 * i == 8 * out@.len() + nbits,
            unsigned_value(bytes@.subrange(0, i as int)) == le_value(out@) + acc * pow2(
                8 * out@.len(),
            ),
            pow2(7) == 128,
            pow2(8) == 256,
        decreases n - i,
    {
        let g = group_of(bytes[i]);
        proof {
            lemma_pow2_strictly_increases(nbits as nat, 8);
        }
        let scale = pow2_u128(nbits) as u32;
        let ghost p = pow2(8 * out@.len());
        proof {
            assert(bytes@.subrange(0, i + 1) =~= bytes@.subrange(0, i as int).push(bytes@[i as int]));
            lemma_unsigned_value_push(bytes@.subrange(0, i as int), bytes@[i as int]);
            lemma_pow2_adds(8 * out@.len(), nbits as nat);
            lemma_pow2_adds(nbits as nat, 7);
            assert(g * (p * scale) == (g * scale) * p) by (nonlinear_arith);
            assert(acc * p + (g * scale) * p == (acc + g * scale) * p) by (nonlinear_arith);
            assert(acc + g * scale < scale * 128) by (nonlinear_arith)
                requires
                    acc < scale,
                    g < 128,
            ;
        }
        let wide = acc + g as u32 * scale;
        let width = nbits + 7;
        assert(wide < pow2(width as nat));
        if width >= 8 {
            let byte = (wide % 256) as u8;
            let ghost before = out@;
            out.push(byte);
            proof {
                lemma_le_value_push(before, byte);
                lemma_pow2_adds(8 * before.len(), 8);
                assert(8 * out@.len() == 8 * before.len() + 8);
                lemma_pow2_adds((width - 8) as nat, 8);
                assert((width - 8) as nat + 8 == width as nat);
                assert(wide / 256 < pow2((width - 8) as nat)) by (nonlinear_arith)
                    requires
                        wide < pow2((width - 8) as nat) * 256,
                ;
                assert(byte * p + (wide / 256) * (p * 256) == wide * p) by (nonlinear_arith)
                    requires
                        byte == wide % 256,
                ;
            }
            acc = wide / 256;
            nbits = width - 8;
        } else {
            acc = wide;
            nbits = width;
        }
        i = i + 1;
    }
    assert(bytes@.subrange(0, n as int) =~= bytes@);
    (out, acc, nbits)
}

/// The unsigned value of the groups of `bytes`, as its shortest run of
/// bytes, least significant first.
pub fn unsigned_to_le(bytes: &[u8]) -> (r: Vec<u8>)
    ensures
        le_value(r@) == unsigned_value(bytes@),
        is_minimal_le(r@),
        r@.len() <= bytes@.len() + 1,
{
    let (mut out, acc, nbits) = groups_to_bytes(bytes);
    proof {
        lemma2_to64();
    }
    if acc != 0 || out.len() == 0 {
        proof {
            lemma_le_value_push(out@, acc as u8);
        }
        out.push(acc as u8);
    }
    trim_le(&mut out);
    out
}

/// Drops most significant zero groups, keeping at least one group.
fn trim_groups(groups: &mut Vec<u8>)
    requires
        old(groups)@.len() >= 1,
    ensures
        unsigned_value(final(groups)@) == unsigned_value(old(groups)@),
        1 <= final(groups)@.len() <= old(groups)@.len(),
        final(groups)@.len() == 1 || final(groups)@[final(groups)@.len() - 1] != 0,
        final(groups)@ == old(groups)@.subrange(0, final(groups)@.len() as int),
{
    while groups.len() > 1 && groups[groups.len() - 1] == 0
        invariant
            1 <= groups@.len() <= old(groups)@.len(),
            unsigned_value(groups@) == unsigned_value(old(groups)@),
            groups@ == old(groups)@.subrange(0, groups@.len() as int),
        decreases groups@.len(),
    {
        let ghost before = groups@;
        groups.pop();
        proof {
            assert(before =~= groups@.push(0));
            lemma_unsigned_value_push(groups@, 0);
            assert(group(0u8) == 0);
            let p = pow2(7 * groups@.len());
            assert(group(0u8) * p == 0) by (nonlinear_arith)
                requires
                    group(0u8) == 0,
            ;
            assert(unsigned_value(before) == unsigned_value(groups@));
            assert(groups@ =~= old(groups)@.subrange(0, groups@.len() as int));
        }
    }
}

/// Repacks `bytes`, least significant first, into whole 7-bit groups and
/// the `nbits` bits left over.
#[verifier::spinoff_prover]
fn bytes_to_groups(bytes: &[u8]) -> (r: (Vec<u8>, u32, u32))
    ensures
        r.2 < 7,
        r.1 < pow2(r.2 as nat),
        8 * bytes@.len() == 7 * r.0@.len() + r.2,
        forall|j: int| 0 <= j < r.0@.len() ==> #[trigger] r.0@[j] < 128,
        le_value(bytes@) == unsigned_value(r.0@) + r.1 * pow2(7 * r.0@.len()),
{
    let n = bytes.len();
    let mut groups: Vec<u8> = Vec::new();
    let mut acc: u32 = 0;
    let mut nbits: u32 = 0;
    let mut i: usize = 0;
    proof {
        lemma2_to64();
        assert(bytes@.subrange(0, 0) =~= Seq::<u8>::empty());
    }
    while i < n
        invariant
            i <= n == bytes@.len(),
            nbits < 7,
            acc < pow2(nbits as nat),
            8 * i == 7 * groups@.len() + nbits,
            forall|j: int| 0 <= j < groups@.len() ==> #[trigger] groups@[j] < 128,
            le_value(bytes@.subrange(0, i as int)) == unsigned_value(groups@) + acc * pow2(
                7 * groups@.len(),
            ),
            pow2(7) == 128,
            pow2(8) == 256,
        decreases n - i,
    {
        let b = bytes[i];
        proof {
            lemma_pow2_strictly_increases(nbits as nat, 7);
        }
        let scale = pow2_u128(nbits) as u32;
        let ghost p = pow2(7 * groups@.len());
        proof {
            assert(bytes@.subrange(0, i + 1) =~= bytes@.subrange(0, i as int).push(b));
            lemma_le_value_push(bytes@.subrange(0, i as int), b);
            lemma_pow2_adds(7 * groups@.len(), nbits as nat);
            lemma_pow2_adds(nbits as nat, 8);
            assert(b * (p * scale) == (b * scale) * p) by (nonlinear_arith);
            assert(acc * p + (b * scale) * p == (acc + b * scale) * p) by (nonlinear_arith);
            assert(acc + b * scale < scale * 256) by (nonlinear_arith)
                requires
                    acc < scale,
                    b < 256,
            ;
        }
        acc = acc + b as u32 * scale;
        nbits = nbits + 8;
        while nbits >= 7
            invariant
                nbits < 15,
                acc < pow2(nbits as nat),
                8 * (i + 1) == 7 * groups@.len() + nbits,
                forall|j: int| 0 <= j < groups@.len() ==> #[trigger] groups@[j] < 128,
                le_value(bytes@.subrange(0, i + 1)) == unsigned_value(groups@) + acc * pow2(
                    7 * groups@.len(),
                ),
                pow2(7) == 128,
            decreases nbits,
        {
            let g = (acc % 128) as u8;
            let ghost before = groups@;
            let ghost q = pow2(7 * before.len());
            groups.push(g);
            proof {
                lemma_unsigned_value_push(before, g);
                lemma_pow2_adds(7 * before.len(), 7);
                assert(7 * groups@.len() == 7 * before.len() + 7);
                lemma_pow2_adds((nbits - 7) as nat, 7);
                assert(acc / 128 < pow2((nbits - 7) as nat)) by (nonlinear_arith)
                    requires
                        acc < pow2((nbits - 7) as nat) * 128,
                ;
                assert(g * q + (acc / 128) * (q * 128) == acc * q) by (nonlinear_arith)
                    requires
                        g == acc % 128,
                ;
            }
            acc = acc / 128;
            nbits = nbits - 7;
        }
        i = i + 1;
    }
    assert(bytes@.subrange(0, n as int) =~= bytes@);
    (groups, acc, nbits)
}

/// Sets the continuation bit on every group but the last.
fn mark_continuations(groups: &Vec<u8>) -> (r: Vec<u8>)
    requires
        groups@.len() >= 1,
        forall|k: int| 0 <= k < groups@.len() ==> #[trigger] groups@[k] < 128,
    ensures
        is_encoding(r@),
        r@.len() == groups@.len(),
        forall|k: int| 0 <= k < r@.len() ==> group(#[trigger] r@[k]) == group(groups@[k]),
        r@[r@.len() - 1] == groups@[groups@.len() - 1],
{
    let m = groups.len();
    let mut out: Vec<u8> = Vec::new();
    let mut j: usize = 0;
    while j < m
        invariant
            j <= m == groups@.len(),
            m >= 1,
            out@.len() == j,
            forall|k: int| 0 <= k < groups@.len() ==> #[trigger] groups@[k] < 128,
            forall|k: int| 0 <= k < j ==> group(#[trigger] out@[k]) == group(groups@[k]),
            forall|k: int| 0 <= k < j && k < m - 1 ==> continues(#[trigger] out@[k]),
            forall|k: int| 0 <= k < j && k == m - 1 ==> #[trigger] out@[k] == groups@[k],
        decreases m - j,
    {
        let g = groups[j];
        if j + 1 < m {
            out.push(g + 128);
        } else {
            out.push(g);
        }
        j = j + 1;
    }
    out
}

/// The canonical unsigned encoding of the integer whose bytes, least
/// significant first, are `bytes`.
pub fn le_to_unsigned(bytes: &[u8]) -> (r: Vec<u8>)
    ensures
        r@ == unsigned_encoding(le_value(bytes@)),
{
    let (mut groups, acc, nbits) = bytes_to_groups(bytes);
    proof {
        lemma2_to64();
    }
    if acc != 0 || groups.len() == 0 {
        proof {
            lemma_pow2_strictly_increases(nbits as nat, 7);
            lemma_unsigned_value_push(groups@, acc as u8);
        }
        groups.push(acc as u8);
    }
    let ghost untrimmed = groups@;
    trim_groups(&mut groups);
    assert forall|k: int| 0 <= k < groups@.len() implies #[trigger] groups@[k] < 128 by {
        assert(groups@[k] == untrimmed[k]);
    }
    let out = mark_continuations(&groups);
    proof {
        lemma_unsigned_value_same_groups(out@, groups@);
        lemma_unsigned_canonical(out@);
    }
    out
}

/// Drops most significant bytes that only repeat the sign of the byte below
/// them, keeping at least one byte.
fn trim_le_signed(out: &mut Vec<u8>)
    requires
        old(out)@.len() >= 1,
    ensures
        le_signed_value(final(out)@) == le_signed_value(old(out)@),
        is_minimal_le_signed(final(out)@),
{
    while out.len() > 1 && ((out[out.len() - 1] == 0 && out[out.len() - 2] < 0x80) || (out[out.len()
        - 1] == 0xff && out[out.len() - 2] >= 0x80))
        invariant
            out@.len() >= 1,
            le_signed_value(out@) == le_signed_value(old(out)@),
        decreases out@.len(),
    {
        let ghost before = out@;
        out.pop();
        proof {
            assert(before =~= out@.push(before[before.len() - 1]));
            lemma_le_signed_push_sign(out@, before[before.len() - 1]);
        }
    }
}

/// The signed value of the groups of `bytes`, as its shortest run of
/// two's-complement bytes, least significant first.
#[verifier::spinoff_prover]
pub fn signed_to_le(bytes: &[u8]) -> (r: Vec<u8>)
    ensures
        le_signed_value(r@) == signed_value(bytes@),
        is_minimal_le_signed(r@),
{
    let n = bytes.len();
    let (mut out, acc, nbits) = groups_to_bytes(bytes);
    let negative = n > 0 && group_of(bytes[n - 1]) >= 64;
    proof {
        lemma2_to64();
        lemma_signed_unsigned(bytes@);
        if nbits < 7 {
            lemma_pow2_strictly_increases(nbits as nat, 7);
        }
    }
    let scale = pow2_u128(nbits) as u32;
    let top: u8 = if negative {
        (acc + 256 - scale) as u8
    } else {
        acc as u8
    };
    let ghost before = out@;
    let ghost p = pow2(8 * before.len());
    proof {
        assert(negative == negative_top(bytes@));
        lemma_le_value_push(before, top);
        lemma_pow2_adds(8 * before.len(), nbits as nat);
        assert(8 * before.len() + nbits == 7 * bytes@.len());
        lemma_pow2_adds(8 * before.len(), 8);
        assert(8 * before.push(top).len() == 8 * before.len() + 8);
        if negative {
            assert(top * p == acc * p + 256 * p - scale * p) by (nonlinear_arith)
                requires
                    top == acc + 256 - scale,
            ;
        }
    }
    out.push(top);
    trim_le_signed(&mut out);
    out
}

/// Values congruent modulo `2 * h` that both lie in `[-h, h)` are equal.
proof fn lemma_congruent_in_range(x: int, y: int, k: int, h: int)
    requires
        h > 0,
        -h <= x < h,
        -h <= y < h,
        x == y + k * (2 * h),
    ensures
        k == 0,
{
    if k >= 1 {
        assert(k * (2 * h) >= 2 * h) by (nonlinear_arith)
            requires
                k >= 1,
                h > 0,
        ;
    } else if k <= -1 {
        assert(k * (2 * h) <= -2 * h) by (nonlinear_arith)
            requires
                k <= -1,
                h > 0,
        ;
    }
}

/// Drops most significant groups that only repeat the sign of the group
/// below them, keeping at least one group.
fn trim_groups_signed(groups: &mut Vec<u8>)
    requires
        old(groups)@.len() >= 1,
        forall|k: int| 0 <= k < old(groups)@.len() ==> #[trigger] old(groups)@[k] < 128,
    ensures
        signed_value(final(groups)@) == signed_value(old(groups)@),
        final(groups)@.len() >= 1,
        forall|k: int| 0 <= k < final(groups)@.len() ==> #[trigger] final(groups)@[k] < 128,
        final(groups)@.len() == 1 || !(final(groups)@[final(groups)@.len() - 1] == 0 && group(
            final(groups)@[final(groups)@.len() - 2],
        ) < 64) && !(final(groups)@[final(groups)@.len() - 1] == 127 && group(
            final(groups)@[final(groups)@.len() - 2],
        ) >= 64),
{
    while groups.len() > 1 && ((groups[groups.len() - 1] == 0 && groups[groups.len() - 2] < 64) || (
    groups[groups.len() - 1] == 127 && groups[groups.len() - 2] >= 64))
        invariant
            groups@.len() >= 1,
            forall|k: int| 0 <= k < groups@.len() ==> #[trigger] groups@[k] < 128,
            signed_value(groups@) == signed_value(old(groups)@),
        decreases groups@.len(),
    {
        let ghost before = groups@;
        groups.pop();
        proof {
            assert(before =~= groups@.push(before[before.len() - 1]));
            assert(groups@[groups@.len() - 1] == before[before.len() - 2]);
            lemma_signed_push_sign(groups@, before[before.len() - 1]);
        }
    }
}

/// The canonical signed encoding of the two's-complement integer whose
/// bytes, least significant first, are `bytes`.
#[verifier::spinoff_prover]
pub fn le_to_signed(bytes: &[u8]) -> (r: Vec<u8>)
    ensures
        r@ == signed_encoding(le_signed_value(bytes@)),
{
    let n = bytes.len();
    if n == 0 {
        let mut zero: Vec<u8> = Vec::new();
        zero.push(0);
        assert(zero@ =~= signed_encoding(0));
        return zero;
    }
    let negative = bytes[n - 1] >= 0x80;
    let fill: u8 = if negative {
        0xff
    } else {
        0
    };
    let mut extended = vstd::slice::slice_to_vec(bytes);
    extended.push(fill);
    let (mut groups, acc, nbits) = bytes_to_groups(extended.as_slice());
    let g = groups.len();
    proof {
        lemma2_to64();
        let v = le_signed_value(bytes@);
        let big_m = pow2(7 * g as nat);
        lemma_le_value_push(bytes@, fill);
        assert(extended@ =~= bytes@.push(fill));
        lemma_signed_unsigned(groups@);
        lemma_signed_range(groups@);
        lemma_le_signed_range(bytes@);
        lemma_pow2_adds(7 * g as nat, nbits as nat);
        lemma_pow2_adds(8 * n as nat, 8);
        assert(7 * g + nbits == 8 * n + 8);
        lemma_pow2_unfold(7 * g as nat);
        assert((7 * g - 1) as nat + 1 == 7 * g);
        lemma_pow2_strictly_increases((8 * n - 1) as nat, (7 * g - 1) as nat);
        let h = pow2((7 * g - 1) as nat) as int;
        let w = pow2(8 * n as nat) as int;
        let e = pow2(nbits as nat) as int;
        let top: int = if negative_top(groups@) {
            1
        } else {
            0
        };
        let neg: int = if negative {
            1
        } else {
            0
        };
        assert(signed_value(groups@) == unsigned_value(groups@) - top * big_m);
        assert(le_value(bytes@) == v + neg * w);
        assert(fill == 255 * neg);
        assert(unsigned_value(groups@) + acc * big_m == le_value(bytes@) + fill * w);
        assert(w * 256 == e * big_m);
        let k = neg * e - acc - top;
        assert(signed_value(groups@) == v + k * big_m) by (nonlinear_arith)
            requires
                signed_value(groups@) == unsigned_value(groups@) - top * big_m,
                le_value(bytes@) == v + neg * w,
                fill == 255 * neg,
                unsigned_value(groups@) + acc * big_m == le_value(bytes@) + fill * w,
                w * 256 == e * big_m,
                k == neg * e - acc - top,
        ;
        lemma_congruent_in_range(signed_value(groups@), v, k, h);
    }
    trim_groups_signed(&mut groups);
    let out = mark_continuations(&groups);
    proof {
        lemma_signed_value_same_groups(out@, groups@);
        lemma_signed_canonical(out@);
    }
    out
}

/// The number of binary digits of one byte.
fn byte_bit_length(b: u8) -> (n: u32)
    ensures
        n == bit_length(b as nat),
{
    proof {
        lemma2_to64();
    }
    if b == 0 {
        0
    } else if b < 2 {
        proof {
            lemma_bit_length_between(b as nat, 1);
        }
        1
    } else if b < 4 {
        proof {
            lemma_bit_length_between(b as nat, 2);
        }
        2
    } else if b < 8 {
        proof {
            lemma_bit_length_between(b as nat, 3);
        }
        3
    } else if b < 16 {
        proof {
            lemma_bit_length_between(b as nat, 4);
        }
        4
    } else if b < 32 {
        proof {
            lemma_bit_length_between(b as nat, 5);
        }
        5
    } else if b < 64 {
        proof {
            lemma_bit_length_between(b as nat, 6);
        }
        6
    } else if b < 128 {
        proof {
            lemma_bit_length_between(b as nat, 7);
        }
        7
    } else {
        proof {
            lemma_bit_length_between(b as nat, 8);
        }
        8
    }
}

/// The number of binary digits of the unsigned value of the groups of
/// `bytes`.
#[verifier::spinoff_prover]
pub fn unsigned_bit_length(bytes: &[u8]) -> (n: u128)
    ensures
        n == bit_length(unsigned_value(bytes@)),
        n <= 8 * bytes@.len() + 8,
{
    let r = unsigned_to_le(bytes);
    let len = r.len();
    let last = r[len - 1];
    let b = byte_bit_length(last);
    proof {
        lemma2_to64();
        let init = r@.drop_last();
        let k = (8 * (len - 1)) as nat;
        assert(r@ =~= init.push(last));
        lemma_le_value_push(init, last);
        lemma_le_value_bound(init);
        lemma_bit_length_bounds(last as nat);
        let v = le_value(r@);
        let p = pow2(k);
        if last == 0 {
            assert(v == 0) by (nonlinear_arith)
                requires
                    len == 1,
                    v == le_value(init) + last * p,
                    le_value(init) == 0,
                    last == 0,
            ;
            assert(init.len() == 0);
        } else {
            let e = (k + b) as nat;
            let lo = pow2((b - 1) as nat);
            let hi = pow2(b as nat);
            lemma_pow2_adds(k, (b - 1) as nat);
            lemma_pow2_adds(k, b as nat);
            assert((e - 1) as nat == k + (b - 1) as nat);
            assert(pow2((e - 1) as nat) == p * lo);
            assert(pow2(e) == p * hi);
            assert(p * lo <= v < p * hi) by (nonlinear_arith)
                requires
                    v == le_value(init) + last * p,
                    le_value(init) < p,
                    lo <= last,
                    last + 1 <= hi,
            ;
            lemma_bit_length_between(v, e);
        }
        assert(b <= 8) by {
            if b > 8 {
                lemma_pow2_strictly_increases(8, (b - 1) as nat);
            }
        }
    }
    8 * (len as u128 - 1) + b as u128
}

/// The fewest bits of a two's-complement integer that holds the signed
/// value of the groups of `bytes`.
pub fn signed_bit_length(bytes: &[u8]) -> (n: u128)
    ensures
        n == signed_width(signed_value(bytes@)),
{
    let n = bytes.len();
    proof {
        lemma_signed_unsigned(bytes@);
    }
    if n > 0 && group_of(bytes[n - 1]) >= 64 {
        let mut flipped: Vec<u8> = Vec::new();
        let mut i: usize = 0;
        while i < n
            invariant
                i <= n == bytes@.len(),
                flipped@.len() == i,
                forall|j: int| 0 <= j < i ==> group(#[trigger] flipped@[j]) == 127 - group(bytes@[j]),
            decreases n - i,
        {
            let g = group_of(bytes[i]);
            flipped.push(127 - g);
            proof {
                assert(group(flipped@[i as int]) == 127 - group(bytes@[i as int]));
            }
            i = i + 1;
        }
        proof {
            lemma_signed_value_complement(bytes@, flipped@);
            lemma_signed_unsigned(flipped@);
        }
        unsigned_bit_length(flipped.as_slice()) + 1
    } else {
        unsigned_bit_length(bytes) + 1
    }
}

} // verus!
