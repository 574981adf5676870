//! Unsigned LEB128 values, borrowed and owned.
use crate::codec::{
    decode_unsigned, encode_unsigned, first_value_len, le_bytes_u128, slice_views, split_values,
    unsigned_overflow, word_bits,
};
use crate::error::DecodeError;
use crate::model::{
    concat, is_encoding, is_minimal_le, le_byte, le_value, lemma_native_widths,
    lemma_unsigned_round_trip, splits_into_values, unsigned_encoding, unsigned_value,
};
use crate::repack::{le_to_unsigned, unsigned_to_le};
use vstd::arithmetic::power2::pow2;
use vstd::prelude::*;

verus! {

/// Unsigned LEB128 integer, backed by a reference: exactly one complete
/// encoded value.
#[derive(Debug, Clone, Copy, PartialEq, Eq, Hash)]
pub struct ULeb128<'a>(&'a [u8]);

/// Unsigned LEB128 integer that owns its bytes.
#[derive(Debug, PartialEq, Eq, Hash)]
pub struct ULeb128Owned(Vec<u8>);

impl<'a> View for ULeb128<'a> {
    type V = Seq<u8>;

    closed spec fn view(&self) -> Seq<u8> {
        self.0@
    }
}

impl View for ULeb128Owned {
    type V = Seq<u8>;

    closed spec fn view(&self) -> Seq<u8> {
        self.0@
    }
}

/// The views of a list of borrowed values.
pub open spec fn views_of(vs: Seq<ULeb128>) -> Seq<Seq<u8>> {
    vs.map_values(|v: ULeb128| v@)
}

/// The views of a list of owned values.
pub open spec fn owned_views_of(vs: Seq<ULeb128Owned>) -> Seq<Seq<u8>> {
    vs.map_values(|v: ULeb128Owned| v@)
}

impl<'a> ULeb128<'a> {
    #[verifier::type_invariant]
    spec fn well_formed(self) -> bool {
        is_encoding(self.0@)
    }

    /// Reads the single value at the start of `bytes`.
    pub fn from_bytes(bytes: &'a [u8]) -> (r: Result<ULeb128<'a>, DecodeError>)
        ensures
            r is Ok <==> exists|i: int| 0 <= i < bytes@.len() && bytes@[i] < 0x80,
            r matches Ok(v) ==> v@.len() <= bytes@.len(),
            r matches Ok(v) ==> is_encoding(v@) && v@ == bytes@.subrange(0, v@.len() as int),
            r matches Err(e) ==> e == DecodeError::Truncated,
    {
        match first_value_len(bytes) {
            Ok(k) => Ok(ULeb128(vstd::slice::slice_subrange(bytes, 0, k))),
            Err(e) => Err(e),
        }
    }

    /// Reads every value in `bytes`, which must end with a complete value.
    pub fn all_from_bytes(bytes: &'a [u8]) -> (r: Result<Vec<ULeb128<'a>>, DecodeError>)
        ensures
            r is Ok <==> splits_into_values(bytes@),
            r matches Ok(vs) ==> {
                &&& forall|i: int| 0 <= i < vs@.len() ==> is_encoding(#[trigger] vs@[i]@)
                &&& concat(views_of(vs@)) == bytes@
            },
            r matches Err(e) ==> e == DecodeError::TrailingBytes,
    {
        let parts = match split_values(bytes) {
            Ok(parts) => parts,
            Err(e) => {
                return Err(e);
            },
        };
        let mut out: Vec<ULeb128<'a>> = Vec::new();
        let mut i: usize = 0;
        while i < parts.len()
            invariant
                i <= parts@.len(),
                forall|j: int| 0 <= j < parts@.len() ==> is_encoding(#[trigger] parts@[j]@),
                views_of(out@) == slice_views(parts@).subrange(0, i as int),
            decreases parts@.len() - i,
        {
            let v = ULeb128(parts[i]);
            let ghost before = out@;
            out.push(v);
            assert(views_of(out@) =~= views_of(before).push(v@));
            assert(slice_views(parts@).subrange(0, i + 1) =~= slice_views(parts@).subrange(
                0,
                i as int,
            ).push(parts@[i as int]@));
            i = i + 1;
        }
        assert(slice_views(parts@).subrange(0, parts@.len() as int) =~= slice_views(parts@));
        proof {
            assert forall|j: int| 0 <= j < out@.len() implies is_encoding(#[trigger] out@[j]@) by {
                assert(views_of(out@)[j] == out@[j]@);
            }
        }
        Ok(out)
    }

    /// The number of bytes of the encoded value.
    pub fn byte_count(self) -> (r: usize)
        ensures
            r == self@.len(),
    {
        self.0.len()
    }

    /// The encoded bytes.
    pub fn as_bytes(self) -> (r: &'a [u8])
        ensures
            r@ == self@,
    {
        self.0
    }

    /// An owned copy of the bytes.
    pub fn to_owned(self) -> (r: ULeb128Owned)
        ensures
            r@ == self@,
    {
        proof {
            use_type_invariant(&self);
        }
        ULeb128Owned(vstd::slice::slice_to_vec(self.0))
    }

    /// Decodes the value as a `u8`.
    pub fn expect_u8(self) -> (r: Result<u8, DecodeError>)
        ensures
            r is Ok <==> unsigned_value(self@) <= u8::MAX,
            r matches Ok(v) ==> v == unsigned_value(self@),
            r matches Err(e) ==> e == unsigned_overflow(self@, 8),
    {
        proof {
            lemma_native_widths();
        }
        match decode_unsigned(self.0, 8) {
            Ok(v) => Ok(v as u8),
            Err(e) => Err(e),
        }
    }

    /// Decodes the value as a `u16`.
    pub fn expect_u16(self) -> (r: Result<u16, DecodeError>)
        ensures
            r is Ok <==> unsigned_value(self@) <= u16::MAX,
            r matches Ok(v) ==> v == unsigned_value(self@),
            r matches Err(e) ==> e == unsigned_overflow(self@, 16),
    {
        proof {
            lemma_native_widths();
        }
        match decode_unsigned(self.0, 16) {
            Ok(v) => Ok(v as u16),
            Err(e) => Err(e),
        }
    }

    /// Decodes the value as a `u32`.
    pub fn expect_u32(self) -> (r: Result<u32, DecodeError>)
        ensures
            r is Ok <==> unsigned_value(self@) <= u32::MAX,
            r matches Ok(v) ==> v == unsigned_value(self@),
            r matches Err(e) ==> e == unsigned_overflow(self@, 32),
    {
        proof {
            lemma_native_widths();
        }
        match decode_unsigned(self.0, 32) {
            Ok(v) => Ok(v as u32),
            Err(e) => Err(e),
        }
    }

    /// Decodes the value as a `u64`.
    pub fn expect_u64(self) -> (r: Result<u64, DecodeError>)
        ensures
            r is Ok <==> unsigned_value(self@) <= u64::MAX,
            r matches Ok(v) ==> v == unsigned_value(self@),
            r matches Err(e) ==> e == unsigned_overflow(self@, 64),
    {
        proof {
            lemma_native_widths();
        }
        match decode_unsigned(self.0, 64) {
            Ok(v) => Ok(v as u64),
            Err(e) => Err(e),
        }
    }

    /// Decodes the value as a `usize`.
    pub fn expect_usize(self) -> (r: Result<usize, DecodeError>)
        ensures
            r is Ok <==> unsigned_value(self@) <= usize::MAX,
            r matches Ok(v) ==> v == unsigned_value(self@),
            r matches Err(e) ==> e == unsigned_overflow(self@, usize::BITS),
    {
        let bits = word_bits();
        match decode_unsigned(self.0, bits) {
            Ok(v) => Ok(v as usize),
            Err(e) => Err(e),
        }
    }

    /// Decodes the value as a 128-bit integer, returned as its sixteen bytes
    /// in little-endian order.
    pub fn expect_u128(self) -> (r: Result<[u8; 16], DecodeError>)
        ensures
            r is Ok <==> unsigned_value(self@) < pow2(128),
            r matches Ok(b) ==> forall|i: int|
                0 <= i < 16 ==> b[i] == le_byte(unsigned_value(self@), i as nat),
            r matches Err(e) ==> e == unsigned_overflow(self@, 128),
    {
        match decode_unsigned(self.0, 128) {
            Ok(v) => Ok(le_bytes_u128(v)),
            Err(e) => Err(e),
        }
    }
    /// Decodes the value, of any size, as its shortest run of bytes, least
    /// significant first.
    pub fn decode_bytes(self) -> (r: Vec<u8>)
        ensures
            le_value(r@) == unsigned_value(self@),
            is_minimal_le(r@),
    {
        unsigned_to_le(self.0)
    }
}

impl ULeb128Owned {
    #[verifier::type_invariant]
    spec fn well_formed(self) -> bool {
        is_encoding(self.0@)
    }

    /// Reads the single value at the start of `bytes` into an owned copy.
    pub fn from_bytes(bytes: &[u8]) -> (r: Result<ULeb128Owned, DecodeError>)
        ensures
            r is Ok <==> exists|i: int| 0 <= i < bytes@.len() && bytes@[i] < 0x80,
            r matches Ok(v) ==> v@.len() <= bytes@.len(),
            r matches Ok(v) ==> is_encoding(v@) && v@ == bytes@.subrange(0, v@.len() as int),
            r matches Err(e) ==> e == DecodeError::Truncated,
    {
        match ULeb128::from_bytes(bytes) {
            Ok(v) => Ok(v.to_owned()),
            Err(e) => Err(e),
        }
    }

    /// Reads every value in `bytes` into owned copies; `bytes` must end with
    /// a complete value.
    pub fn all_from_bytes(bytes: &[u8]) -> (r: Result<Vec<ULeb128Owned>, DecodeError>)
        ensures
            r is Ok <==> splits_into_values(bytes@),
            r matches Ok(vs) ==> {
                &&& forall|i: int| 0 <= i < vs@.len() ==> is_encoding(#[trigger] vs@[i]@)
                &&& concat(owned_views_of(vs@)) == bytes@
            },
            r matches Err(e) ==> e == DecodeError::TrailingBytes,
    {
        let views = match ULeb128::all_from_bytes(bytes) {
            Ok(views) => views,
            Err(e) => {
                return Err(e);
            },
        };
        let mut out: Vec<ULeb128Owned> = Vec::new();
        let mut i: usize = 0;
        while i < views.len()
            invariant
                i <= views@.len(),
                forall|j: int| 0 <= j < views@.len() ==> is_encoding(#[trigger] views@[j]@),
                owned_views_of(out@) == views_of(views@).subrange(0, i as int),
            decreases views@.len() - i,
        {
            let v = views[i].to_owned();
            let ghost before = out@;
            out.push(v);
            assert(owned_views_of(out@) =~= owned_views_of(before).push(v@));
            assert(views_of(views@).subrange(0, i + 1) =~= views_of(views@).subrange(
                0,
                i as int,
            ).push(views@[i as int]@));
            i = i + 1;
        }
        assert(views_of(views@).subrange(0, views@.len() as int) =~= views_of(views@));
        proof {
            assert forall|j: int| 0 <= j < out@.len() implies is_encoding(#[trigger] out@[j]@) by {
                assert(owned_views_of(out@)[j] == out@[j]@);
                assert(views_of(views@)[j] == views@[j]@);
            }
        }
        Ok(out)
    }

    /// The number of bytes of the encoded value.
    pub fn byte_count(self) -> (r: usize)
        ensures
            r == self@.len(),
    {
        self.0.len()
    }

    /// The encoded bytes.
    pub fn as_bytes(&self) -> (r: &[u8])
        ensures
            r@ == self@,
    {
        self.0.as_slice()
    }

    /// A borrowed view of the bytes.
    pub fn as_ref(&self) -> (r: ULeb128<'_>)
        ensures
            r@ == self@,
    {
        proof {
            use_type_invariant(self);
        }
        ULeb128(self.0.as_slice())
    }

    /// Decodes the value as a `u8`.
    pub fn expect_u8(&self) -> (r: Result<u8, DecodeError>)
        ensures
            r is Ok <==> unsigned_value(self@) <= u8::MAX,
            r matches Ok(v) ==> v == unsigned_value(self@),
            r matches Err(e) ==> e == unsigned_overflow(self@, 8),
    {
        self.as_ref().expect_u8()
    }

    /// Decodes the value as a `u16`.
    pub fn expect_u16(&self) -> (r: Result<u16, DecodeError>)
        ensures
            r is Ok <==> unsigned_value(self@) <= u16::MAX,
            r matches Ok(v) ==> v == unsigned_value(self@),
            r matches Err(e) ==> e == unsigned_overflow(self@, 16),
    {
        self.as_ref().expect_u16()
    }

    /// Decodes the value as a `u32`.
    pub fn expect_u32(&self) -> (r: Result<u32, DecodeError>)
        ensures
            r is Ok <==> unsigned_value(self@) <= u32::MAX,
            r matches Ok(v) ==> v == unsigned_value(self@),
            r matches Err(e) ==> e == unsigned_overflow(self@, 32),
    {
        self.as_ref().expect_u32()
    }

    /// Decodes the value as a `u64`.
    pub fn expect_u64(&self) -> (r: Result<u64, DecodeError>)
        ensures
            r is Ok <==> unsigned_value(self@) <= u64::MAX,
            r matches Ok(v) ==> v == unsigned_value(self@),
            r matches Err(e) ==> e == unsigned_overflow(self@, 64),
    {
        self.as_ref().expect_u64()
    }

    /// Decodes the value as a `usize`.
    pub fn expect_usize(&self) -> (r: Result<usize, DecodeError>)
        ensures
            r is Ok <==> unsigned_value(self@) <= usize::MAX,
            r matches Ok(v) ==> v == unsigned_value(self@),
            r matches Err(e) ==> e == unsigned_overflow(self@, usize::BITS),
    {
        self.as_ref().expect_usize()
    }

    /// Decodes the value as a 128-bit integer, returned as its sixteen bytes
    /// in little-endian order.
    pub fn expect_u128(&self) -> (r: Result<[u8; 16], DecodeError>)
        ensures
            r is Ok <==> unsigned_value(self@) < pow2(128),
            r matches Ok(b) ==> forall|i: int|
                0 <= i < 16 ==> b[i] == le_byte(unsigned_value(self@), i as nat),
            r matches Err(e) ==> e == unsigned_overflow(self@, 128),
    {
        self.as_ref().expect_u128()
    }
    /// Decodes the value, of any size, as its shortest run of bytes, least
    /// significant first.
    pub fn decode_bytes(&self) -> (r: Vec<u8>)
        ensures
            le_value(r@) == unsigned_value(self@),
            is_minimal_le(r@),
    {
        self.as_ref().decode_bytes()
    }
}

impl Clone for ULeb128Owned {
    fn clone(&self) -> (r: ULeb128Owned)
        ensures
            r@ == self@,
    {
        proof {
            use_type_invariant(self);
        }
        let bytes = self.0.clone();
        assert(bytes@ =~= self.0@);
        ULeb128Owned(bytes)
    }
}

/// Integers that encode as unsigned LEB128.
pub trait ToULeb128Owned: Sized {
    /// The integer that `self` stands for.
    spec fn unsigned_amount(&self) -> nat;

    /// The canonical unsigned LEB128 encoding of `self`.
    fn encode(self) -> (r: ULeb128Owned)
        ensures
            r@ == unsigned_encoding(self.unsigned_amount()),
    ;
}

/// Encodes an integer known to be non-negative.
fn encode_owned(v: u128) -> (r: ULeb128Owned)
    ensures
        r@ == unsigned_encoding(v as nat),
{
    proof {
        lemma_unsigned_round_trip(v as nat);
    }
    ULeb128Owned(encode_unsigned(v))
}

impl ToULeb128Owned for u8 {
    open spec fn unsigned_amount(&self) -> nat {
        *self as nat
    }

    fn encode(self) -> (r: ULeb128Owned) {
        encode_owned(self as u128)
    }
}

impl ToULeb128Owned for u16 {
    open spec fn unsigned_amount(&self) -> nat {
        *self as nat
    }

    fn encode(self) -> (r: ULeb128Owned) {
        encode_owned(self as u128)
    }
}

impl ToULeb128Owned for u32 {
    open spec fn unsigned_amount(&self) -> nat {
        *self as nat
    }

    fn encode(self) -> (r: ULeb128Owned) {
        encode_owned(self as u128)
    }
}

impl ToULeb128Owned for u64 {
    open spec fn unsigned_amount(&self) -> nat {
        *self as nat
    }

    fn encode(self) -> (r: ULeb128Owned) {
        encode_owned(self as u128)
    }
}

impl ToULeb128Owned for usize {
    open spec fn unsigned_amount(&self) -> nat {
        *self as nat
    }

    fn encode(self) -> (r: ULeb128Owned) {
        encode_owned(self as u128)
    }
}

/// A run of bytes, least significant first, stands for an unsigned integer of
/// any size.
impl<'a> ToULeb128Owned for &'a [u8] {
    open spec fn unsigned_amount(&self) -> nat {
        le_value(self@)
    }

    fn encode(self) -> (r: ULeb128Owned) {
        proof {
            lemma_unsigned_round_trip(le_value(self@));
        }
        ULeb128Owned(le_to_unsigned(self))
    }
}

} // verus!
