//! The mathematical model of LEB128: what a byte sequence means, and the
//! canonical byte sequence of each integer.
use vstd::arithmetic::power2::pow2;
use vstd::prelude::*;

verus! {

/// The 7-bit payload group carried by one byte.
pub open spec fn group(b: u8) -> nat {
    (b % 128) as nat
}

/// Whether a byte has its continuation bit set.
pub open spec fn continues(b: u8) -> bool {
    b >= 0x80
}

/// One complete encoded value: every byte but the last carries the
/// continuation bit, the last does not.
pub open spec fn is_encoding(s: Seq<u8>) -> bool {
    &&& s.len() >= 1
    &&& forall|i: int| 0 <= i < s.len() - 1 ==> continues(#[trigger] s[i])
    &&& !continues(s[s.len() - 1])
}

/// The unsigned value of a sequence of groups, least significant first.
pub open spec fn unsigned_value(s: Seq<u8>) -> nat
    decreases s.len(),
{
    if s.len() == 0 {
        0
    } else {
        group(s[0]) + 128 * unsigned_value(s.drop_first())
    }
}

/// A 7-bit group read as a two's-complement number.
pub open spec fn sign_extend(g: nat) -> int {
    if g >= 64 {
        g - 128
    } else {
        g as int
    }
}

/// The signed value of a sequence of groups, least significant first: the
/// most significant group is sign-extended.
pub open spec fn signed_value(s: Seq<u8>) -> int
    decreases s.len(),
{
    if s.len() == 0 {
        0
    } else if s.len() == 1 {
        sign_extend(group(s[0]))
    } else {
        group(s[0]) + 128 * signed_value(s.drop_first())
    }
}

/// The canonical unsigned encoding of `v`.
pub open spec fn unsigned_encoding(v: nat) -> Seq<u8>
    decreases v,
{
    if v < 128 {
        seq![v as u8]
    } else {
        seq![(v % 128 + 128) as u8] + unsigned_encoding(v / 128)
    }
}

pub open spec fn magnitude(v: int) -> nat {
    if v < 0 {
        (-v) as nat
    } else {
        v as nat
    }
}

/// The canonical signed encoding of `v`: groups are emitted until what is
/// left is the sign extension of the last group emitted.
pub open spec fn signed_encoding(v: int) -> Seq<u8>
    decreases magnitude(v),
{
    if -64 <= v < 64 {
        seq![(v % 128) as u8]
    } else {
        seq![(v % 128 + 128) as u8] + signed_encoding(v / 128)
    }
}

/// `v` is representable as an unsigned integer of `bits` bits.
pub open spec fn fits_unsigned(v: int, bits: nat) -> bool {
    0 <= v < pow2(bits)
}

/// `v` is representable as a two's-complement integer of `bits` bits.
pub open spec fn fits_signed(v: int, bits: nat) -> bool {
    bits >= 1 && -pow2((bits - 1) as nat) <= v < pow2((bits - 1) as nat)
}

/// A suffix of a byte sequence is worth no more, unsigned, than the whole.
pub proof fn lemma_unsigned_suffix_le(s: Seq<u8>, i: int)
    requires
        0 <= i <= s.len(),
    ensures
        unsigned_value(s.subrange(i, s.len() as int)) <= unsigned_value(s),
    decreases i,
{
    if i == 0 {
        assert(s.subrange(0, s.len() as int) =~= s);
    } else {
        lemma_unsigned_suffix_le(s.drop_first(), i - 1);
        assert(s.drop_first().subrange(i - 1, s.len() - 1) =~= s.subrange(i, s.len() as int));
    }
}

/// Prepending groups to a sequence whose signed value does not fit in `bits`
/// bits gives a sequence whose signed value does not fit either.
pub proof fn lemma_signed_suffix_out_of_range(s: Seq<u8>, i: int, bits: nat)
    requires
        0 <= i < s.len(),
        bits >= 8,
        !fits_signed(signed_value(s.subrange(i, s.len() as int)), bits),
    ensures
        !fits_signed(signed_value(s), bits),
    decreases i,
{
    if i == 0 {
        assert(s.subrange(0, s.len() as int) =~= s);
    } else {
        assert(s.drop_first().subrange(i - 1, s.len() - 1) =~= s.subrange(i, s.len() as int));
        lemma_signed_suffix_out_of_range(s.drop_first(), i - 1, bits);
        vstd::arithmetic::power2::lemma_pow2_pos((bits - 1) as nat);
    }
}

/// The bytes of several values laid end to end.
pub open spec fn concat(parts: Seq<Seq<u8>>) -> Seq<u8>
    decreases parts.len(),
{
    if parts.len() == 0 {
        Seq::empty()
    } else {
        concat(parts.drop_last()) + parts.last()
    }
}

/// A byte sequence splits into whole values exactly when it is empty or its
/// last byte ends a value.
pub open spec fn splits_into_values(s: Seq<u8>) -> bool {
    s.len() == 0 || !continues(s[s.len() - 1])
}

/// The powers of two that bound the native integer widths.
pub proof fn lemma_native_widths()
    ensures
        pow2(7) == 0x80,
        pow2(8) == 0x100,
        pow2(15) == 0x8000,
        pow2(16) == 0x1_0000,
        pow2(31) == 0x8000_0000,
        pow2(32) == 0x1_0000_0000,
        pow2(63) == 0x8000_0000_0000_0000,
        pow2(64) == 0x1_0000_0000_0000_0000,
{
    vstd::arithmetic::power2::lemma2_to64();
    vstd::arithmetic::power2::lemma2_to64_rest();
}

/// Byte `i`, in little-endian order, of the non-negative integer `v`.
pub open spec fn le_byte(v: nat, i: nat) -> u8 {
    ((v / pow2(8 * i)) % 256) as u8
}

/// The two's-complement bit pattern of `v` in `bits` bits, read unsigned.
pub open spec fn twos_complement(v: int, bits: nat) -> nat {
    if v < 0 {
        (v + pow2(bits)) as nat
    } else {
        v as nat
    }
}

/// Decoding the unsigned encoding of `v` gives `v` back, and that encoding is
/// one complete value.
pub proof fn lemma_unsigned_round_trip(v: nat)
    ensures
        is_encoding(unsigned_encoding(v)),
        unsigned_value(unsigned_encoding(v)) == v,
    decreases v,
{
    let e = unsigned_encoding(v);
    if v < 128 {
        assert(e.drop_first() =~= Seq::<u8>::empty());
        assert(unsigned_value(Seq::<u8>::empty()) == 0);
    } else {
        lemma_unsigned_round_trip(v / 128);
        let rest = unsigned_encoding(v / 128);
        assert(e.drop_first() =~= rest);
        assert forall|i: int| 0 <= i < e.len() - 1 implies continues(#[trigger] e[i]) by {
            if i > 0 {
                assert(e[i] == rest[i - 1]);
            }
        }
    }
}

/// Decoding the signed encoding of `v` gives `v` back, and that encoding is
/// one complete value.
pub proof fn lemma_signed_round_trip(v: int)
    ensures
        is_encoding(signed_encoding(v)),
        signed_value(signed_encoding(v)) == v,
    decreases magnitude(v),
{
    let e = signed_encoding(v);
    if -64 <= v < 64 {
        assert(e.len() == 1);
    } else {
        lemma_signed_round_trip(v / 128);
        let rest = signed_encoding(v / 128);
        assert(e.drop_first() =~= rest);
        assert forall|i: int| 0 <= i < e.len() - 1 implies continues(#[trigger] e[i]) by {
            if i > 0 {
                assert(e[i] == rest[i - 1]);
            }
        }
    }
}

/// No unsigned encoding of a value is shorter than the canonical one.
pub proof fn lemma_unsigned_minimal(s: Seq<u8>)
    requires
        is_encoding(s),
    ensures
        unsigned_encoding(unsigned_value(s)).len() <= s.len(),
    decreases s.len(),
{
    let v = unsigned_value(s);
    if s.len() == 1 {
        assert(s.drop_first() =~= Seq::<u8>::empty());
        assert(unsigned_value(Seq::<u8>::empty()) == 0);
    } else {
        let rest = s.drop_first();
        assert forall|i: int| 0 <= i < rest.len() - 1 implies continues(#[trigger] rest[i]) by {
            assert(rest[i] == s[i + 1]);
        }
        lemma_unsigned_minimal(rest);
        assert(v / 128 == unsigned_value(rest));
    }
}

/// No signed encoding of a value is shorter than the canonical one.
pub proof fn lemma_signed_minimal(s: Seq<u8>)
    requires
        is_encoding(s),
    ensures
        signed_encoding(signed_value(s)).len() <= s.len(),
    decreases s.len(),
{
    let v = signed_value(s);
    if s.len() > 1 {
        let rest = s.drop_first();
        assert forall|i: int| 0 <= i < rest.len() - 1 implies continues(#[trigger] rest[i]) by {
            assert(rest[i] == s[i + 1]);
        }
        lemma_signed_minimal(rest);
        assert(v / 128 == signed_value(rest));
    }
}

/// The unsigned integer whose bytes, least significant first, are `s`.
pub open spec fn le_value(s: Seq<u8>) -> nat
    decreases s.len(),
{
    if s.len() == 0 {
        0
    } else {
        s[0] as nat + 256 * le_value(s.drop_first())
    }
}

/// `s` has no superfluous most significant zero byte.
pub open spec fn is_minimal_le(s: Seq<u8>) -> bool {
    s.len() == 1 || (s.len() > 1 && s[s.len() - 1] != 0)
}

/// Appending a most significant group adds it at its place value.
pub proof fn lemma_unsigned_value_push(s: Seq<u8>, b: u8)
    ensures
        unsigned_value(s.push(b)) == unsigned_value(s) + group(b) * pow2(7 * s.len()),
    decreases s.len(),
{
    let t = s.push(b);
    vstd::arithmetic::power2::lemma2_to64();
    if s.len() == 0 {
        assert(t.drop_first() =~= Seq::<u8>::empty());
        assert(unsigned_value(t.drop_first()) == 0);
        assert(unsigned_value(t) == group(b));
        assert(pow2(7 * s.len()) == 1);
    } else {
        assert(t.drop_first() =~= s.drop_first().push(b));
        lemma_unsigned_value_push(s.drop_first(), b);
        let k = (7 * (s.len() - 1)) as nat;
        vstd::arithmetic::power2::lemma_pow2_adds(7, k);
        assert(7 + k == 7 * s.len());
        let p = pow2(k);
        assert(128 * (unsigned_value(s.drop_first()) + group(b) * p) == 128
            * unsigned_value(s.drop_first()) + group(b) * (128 * p)) by (nonlinear_arith);
        assert(t[0] == s[0]);
        assert(pow2(7 * s.len()) == 128 * p);
        assert(unsigned_value(t) == group(s[0]) + 128 * unsigned_value(t.drop_first()));
        assert(unsigned_value(s) == group(s[0]) + 128 * unsigned_value(s.drop_first()));
        assert(unsigned_value(t) == unsigned_value(s) + group(b) * pow2(7 * s.len()));
    }
}

/// Appending a most significant byte adds it at its place value.
pub proof fn lemma_le_value_push(s: Seq<u8>, b: u8)
    ensures
        le_value(s.push(b)) == le_value(s) + b * pow2(8 * s.len()),
    decreases s.len(),
{
    let t = s.push(b);
    vstd::arithmetic::power2::lemma2_to64();
    if s.len() == 0 {
        assert(t.drop_first() =~= Seq::<u8>::empty());
        assert(le_value(t.drop_first()) == 0);
        assert(le_value(t) == b);
        assert(pow2(8 * s.len()) == 1);
    } else {
        assert(t.drop_first() =~= s.drop_first().push(b));
        lemma_le_value_push(s.drop_first(), b);
        let k = (8 * (s.len() - 1)) as nat;
        vstd::arithmetic::power2::lemma_pow2_adds(8, k);
        assert(8 + k == 8 * s.len());
        let p = pow2(k);
        assert(256 * (le_value(s.drop_first()) + b * p) == 256 * le_value(s.drop_first()) + b * (256
            * p)) by (nonlinear_arith);
        assert(t[0] == s[0]);
        assert(pow2(8 * s.len()) == 256 * p);
        assert(le_value(t) == s[0] + 256 * le_value(t.drop_first()));
        assert(le_value(s) == s[0] + 256 * le_value(s.drop_first()));
        assert(le_value(t) == le_value(s) + b * pow2(8 * s.len()));
    }
}

/// Sequences with the same groups have the same unsigned value, whatever
/// their continuation bits.
pub proof fn lemma_unsigned_value_same_groups(a: Seq<u8>, b: Seq<u8>)
    requires
        a.len() == b.len(),
        forall|i: int| 0 <= i < a.len() ==> group(#[trigger] a[i]) == group(b[i]),
    ensures
        unsigned_value(a) == unsigned_value(b),
    decreases a.len(),
{
    if a.len() > 0 {
        assert forall|i: int| 0 <= i < a.len() - 1 implies group(#[trigger] a.drop_first()[i])
            == group(b.drop_first()[i]) by {
            assert(a.drop_first()[i] == a[i + 1]);
            assert(b.drop_first()[i] == b[i + 1]);
        }
        lemma_unsigned_value_same_groups(a.drop_first(), b.drop_first());
    }
}

/// An encoding without a superfluous most significant zero group is the
/// canonical encoding of its value.
pub proof fn lemma_unsigned_canonical(s: Seq<u8>)
    requires
        is_encoding(s),
        s.len() == 1 || s[s.len() - 1] != 0,
    ensures
        s == unsigned_encoding(unsigned_value(s)),
    decreases s.len(),
{
    if s.len() == 1 {
        assert(s.drop_first() =~= Seq::<u8>::empty());
        assert(unsigned_value(s.drop_first()) == 0);
        assert(s =~= seq![unsigned_value(s) as u8]);
    } else {
        let rest = s.drop_first();
        assert forall|i: int| 0 <= i < rest.len() - 1 implies continues(#[trigger] rest[i]) by {
            assert(rest[i] == s[i + 1]);
        }
        assert(rest[rest.len() - 1] == s[s.len() - 1]);
        lemma_unsigned_canonical(rest);
        if unsigned_value(rest) == 0 {
            assert(rest =~= seq![0u8]);
        }
        let v = unsigned_value(s);
        assert(v / 128 == unsigned_value(rest));
        assert(s[0] == (v % 128 + 128) as u8);
        assert(s =~= seq![(v % 128 + 128) as u8] + rest);
    }
}

/// The most significant group of `s` has its sign bit set.
pub open spec fn negative_top(s: Seq<u8>) -> bool {
    s.len() > 0 && group(s[s.len() - 1]) >= 64
}

/// The two's-complement integer whose bytes, least significant first, are
/// `s`.
pub open spec fn le_signed_value(s: Seq<u8>) -> int {
    if s.len() > 0 && s[s.len() - 1] >= 0x80 {
        le_value(s) - pow2(8 * s.len())
    } else {
        le_value(s) as int
    }
}

/// `s` has no most significant byte that only repeats the sign of the byte
/// below it.
pub open spec fn is_minimal_le_signed(s: Seq<u8>) -> bool {
    s.len() == 1 || (s.len() > 1 && !(s[s.len() - 1] == 0 && s[s.len() - 2] < 0x80) && !(s[s.len()
        - 1] == 0xff && s[s.len() - 2] >= 0x80))
}

/// The signed value is the unsigned value, less the weight of the whole
/// sequence when its sign bit is set.
pub proof fn lemma_signed_unsigned(s: Seq<u8>)
    ensures
        signed_value(s) == unsigned_value(s) - (if negative_top(s) {
            pow2(7 * s.len())
        } else {
            0
        }),
    decreases s.len(),
{
    vstd::arithmetic::power2::lemma2_to64();
    if s.len() == 1 {
        assert(s.drop_first() =~= Seq::<u8>::empty());
        assert(unsigned_value(s.drop_first()) == 0);
    } else if s.len() > 1 {
        let rest = s.drop_first();
        lemma_signed_unsigned(rest);
        assert(rest[rest.len() - 1] == s[s.len() - 1]);
        let k = (7 * (s.len() - 1)) as nat;
        vstd::arithmetic::power2::lemma_pow2_adds(7, k);
        assert(7 + k == 7 * s.len());
    }
}

/// The signed value of `s` lies in the range of a two's-complement integer
/// of seven bits per group.
pub proof fn lemma_signed_range(s: Seq<u8>)
    requires
        s.len() >= 1,
    ensures
        -pow2((7 * s.len() - 1) as nat) <= signed_value(s) < pow2((7 * s.len() - 1) as nat),
    decreases s.len(),
{
    vstd::arithmetic::power2::lemma2_to64();
    if s.len() > 1 {
        let rest = s.drop_first();
        lemma_signed_range(rest);
        let k = (7 * rest.len() - 1) as nat;
        vstd::arithmetic::power2::lemma_pow2_adds(7, k);
        assert(7 + k == (7 * s.len() - 1) as nat);
    }
}

/// The unsigned value of `s` is below the weight of its length.
pub proof fn lemma_le_value_bound(s: Seq<u8>)
    ensures
        le_value(s) < pow2(8 * s.len()),
    decreases s.len(),
{
    vstd::arithmetic::power2::lemma2_to64();
    if s.len() > 0 {
        lemma_le_value_bound(s.drop_first());
        let k = (8 * (s.len() - 1)) as nat;
        vstd::arithmetic::power2::lemma_pow2_adds(8, k);
        assert(8 + k == 8 * s.len());
    }
}

/// The two's-complement value of `s` lies in the range of its width.
pub proof fn lemma_le_signed_range(s: Seq<u8>)
    requires
        s.len() >= 1,
    ensures
        -pow2((8 * s.len() - 1) as nat) <= le_signed_value(s) < pow2((8 * s.len() - 1) as nat),
{
    vstd::arithmetic::power2::lemma2_to64();
    let init = s.drop_last();
    let top = s[s.len() - 1];
    assert(s =~= init.push(top));
    lemma_le_value_push(init, top);
    lemma_le_value_bound(init);
    let k = (8 * init.len()) as nat;
    vstd::arithmetic::power2::lemma_pow2_adds(7, k);
    vstd::arithmetic::power2::lemma_pow2_adds(8, k);
    assert(7 + k == (8 * s.len() - 1) as nat);
    assert(8 + k == 8 * s.len());
    let p = pow2(k);
    if top >= 0x80 {
        assert(top * p >= 128 * p) by (nonlinear_arith)
            requires
                top >= 128,
        ;
    } else {
        assert(top * p <= 127 * p) by (nonlinear_arith)
            requires
                top <= 127,
        ;
    }
    assert(top * p <= 255 * p) by (nonlinear_arith)
        requires
            top <= 255,
    ;
}

/// A most significant byte that only repeats the sign of the byte below it
/// leaves the two's-complement value unchanged.
pub proof fn lemma_le_signed_push_sign(s: Seq<u8>, x: u8)
    requires
        s.len() >= 1,
        (x == 0 && s[s.len() - 1] < 0x80) || (x == 0xff && s[s.len() - 1] >= 0x80),
    ensures
        le_signed_value(s.push(x)) == le_signed_value(s),
{
    vstd::arithmetic::power2::lemma2_to64();
    lemma_le_value_push(s, x);
    let k = 8 * s.len();
    vstd::arithmetic::power2::lemma_pow2_adds(k, 8);
    let t = s.push(x);
    assert(t[t.len() - 1] == x);
    assert(8 * t.len() == k + 8);
    let p = pow2(k);
    assert(pow2(k + 8) == 256 * p);
    if x == 0xff {
        assert(le_value(t) == le_value(s) + 255 * p);
        assert(le_signed_value(t) == le_value(t) - 256 * p);
        assert(le_signed_value(s) == le_value(s) - p);
        let (a, b, c, d) = (le_signed_value(t), le_value(t) as int, le_signed_value(s), le_value(s) as int);
        assert(a == c) by (nonlinear_arith)
            requires
                b == d + 255 * p,
                a == b - 256 * p,
                c == d - p,
        ;
    } else {
        assert(x * p == 0) by (nonlinear_arith)
            requires
                x == 0,
        ;
        assert(le_value(t) == le_value(s));
        assert(le_signed_value(t) == le_value(t));
        assert(le_signed_value(s) == le_value(s));
        assert(le_signed_value(t) == le_signed_value(s));
    }
    assert(le_signed_value(s.push(x)) == le_signed_value(s));
}

/// A most significant group that only repeats the sign of the group below it
/// leaves the signed value unchanged.
pub proof fn lemma_signed_push_sign(s: Seq<u8>, x: u8)
    requires
        s.len() >= 1,
        (x == 0 && group(s[s.len() - 1]) < 64) || (x == 127 && group(s[s.len() - 1]) >= 64),
    ensures
        signed_value(s.push(x)) == signed_value(s),
{
    vstd::arithmetic::power2::lemma2_to64();
    let t = s.push(x);
    lemma_signed_unsigned(s);
    lemma_signed_unsigned(t);
    lemma_unsigned_value_push(s, x);
    let k = 7 * s.len();
    vstd::arithmetic::power2::lemma_pow2_adds(k, 7);
    assert(t[s.len() as int] == x);
    assert(7 * t.len() == k + 7);
}

/// Sequences with the same groups have the same signed value, whatever
/// their continuation bits.
pub proof fn lemma_signed_value_same_groups(a: Seq<u8>, b: Seq<u8>)
    requires
        a.len() == b.len(),
        forall|i: int| 0 <= i < a.len() ==> group(#[trigger] a[i]) == group(b[i]),
    ensures
        signed_value(a) == signed_value(b),
{
    lemma_unsigned_value_same_groups(a, b);
    lemma_signed_unsigned(a);
    lemma_signed_unsigned(b);
    if a.len() > 0 {
        assert(group(a[a.len() - 1]) == group(b[b.len() - 1]));
    }
}

/// An encoding whose most significant group does not only repeat the sign
/// of the group below it is the canonical signed encoding of its value.
pub proof fn lemma_signed_canonical(s: Seq<u8>)
    requires
        is_encoding(s),
        s.len() == 1 || !(s[s.len() - 1] == 0 && group(s[s.len() - 2]) < 64) && !(s[s.len() - 1]
            == 127 && group(s[s.len() - 2]) >= 64),
    ensures
        s == signed_encoding(signed_value(s)),
    decreases s.len(),
{
    if s.len() == 1 {
        let v = signed_value(s);
        assert(s =~= seq![(v % 128) as u8]);
    } else {
        let rest = s.drop_first();
        assert forall|i: int| 0 <= i < rest.len() - 1 implies continues(#[trigger] rest[i]) by {
            assert(rest[i] == s[i + 1]);
        }
        assert(rest[rest.len() - 1] == s[s.len() - 1]);
        if rest.len() > 1 {
            assert(rest[rest.len() - 2] == s[s.len() - 2]);
        }
        lemma_signed_canonical(rest);
        let r = signed_value(rest);
        if rest.len() == 1 {
            assert(rest =~= seq![s[s.len() - 1]]);
        } else {
            assert(!(-64 <= r < 64));
        }
        let v = signed_value(s);
        assert(!(-64 <= v < 64));
        assert(v / 128 == r);
        assert(s[0] == (v % 128 + 128) as u8);
        assert(s =~= seq![(v % 128 + 128) as u8] + rest);
    }
}

/// The number of binary digits of `v`; none for zero.
pub open spec fn bit_length(v: nat) -> nat
    decreases v,
{
    if v == 0 {
        0
    } else {
        1 + bit_length(v / 2)
    }
}

/// The fewest bits of a two's-complement integer that holds `v`.
pub open spec fn signed_width(v: int) -> nat {
    if v >= 0 {
        bit_length(v as nat) + 1
    } else {
        bit_length((-v - 1) as nat) + 1
    }
}

/// A positive `v` between `2^(n-1)` and `2^n` has `n` binary digits.
pub proof fn lemma_bit_length_between(v: nat, n: nat)
    requires
        n >= 1,
        pow2((n - 1) as nat) <= v < pow2(n),
    ensures
        bit_length(v) == n,
    decreases n,
{
    vstd::arithmetic::power2::lemma_pow2_unfold(n);
    vstd::arithmetic::power2::lemma2_to64();
    assert(bit_length(0) == 0);
    if n > 1 {
        vstd::arithmetic::power2::lemma_pow2_unfold((n - 1) as nat);
        lemma_bit_length_between(v / 2, (n - 1) as nat);
    }
}

/// `v` lies between `2^(bit_length(v)-1)` and `2^bit_length(v)`.
pub proof fn lemma_bit_length_bounds(v: nat)
    ensures
        v < pow2(bit_length(v)),
        v > 0 ==> pow2((bit_length(v) - 1) as nat) <= v,
    decreases v,
{
    vstd::arithmetic::power2::lemma2_to64();
    if v > 0 {
        let m = bit_length(v / 2);
        lemma_bit_length_bounds(v / 2);
        vstd::arithmetic::power2::lemma_pow2_unfold(m + 1);
        if m >= 1 {
            vstd::arithmetic::power2::lemma_pow2_unfold(m);
            assert(((m - 1) as nat) == (m - 1));
        } else {
            assert(v / 2 == 0);
        }
        assert(bit_length(v) == m + 1);
    }
}

/// Flipping every payload bit of `s` maps its signed value `v` to `-v - 1`.
pub proof fn lemma_signed_value_complement(s: Seq<u8>, t: Seq<u8>)
    requires
        s.len() == t.len(),
        forall|i: int| 0 <= i < s.len() ==> group(#[trigger] t[i]) == 127 - group(s[i]),
    ensures
        s.len() >= 1 ==> signed_value(t) == -signed_value(s) - 1,
    decreases s.len(),
{
    if s.len() > 1 {
        assert forall|i: int| 0 <= i < s.len() - 1 implies group(#[trigger] t.drop_first()[i])
            == 127 - group(s.drop_first()[i]) by {
            assert(t.drop_first()[i] == t[i + 1]);
            assert(s.drop_first()[i] == s[i + 1]);
        }
        lemma_signed_value_complement(s.drop_first(), t.drop_first());
        assert(group(t[0]) == 127 - group(s[0]));
    } else if s.len() == 1 {
        assert(group(t[0]) == 127 - group(s[0]));
    }
}

} // verus!
