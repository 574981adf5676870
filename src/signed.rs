//! Signed LEB128 values, borrowed and owned.
use crate::codec::{
    decode_signed, encode_signed, first_value_len, le_bytes_u128, slice_views, split_values,
    signed_overflow, twos_complement_u128, word_bits,
};
use crate::error::DecodeError;
use crate::model::{
    concat, fits_signed, is_encoding, is_minimal_le_signed, le_byte, le_signed_value,
    lemma_native_widths, lemma_signed_round_trip, signed_encoding, signed_value, splits_into_values,
    twos_complement,
};
use crate::repack::{le_to_signed, signed_to_le};
use vstd::prelude::*;

verus! {

/// Signed LEB128 integer, backed by a reference: exactly one complete
/// encoded value.
#[derive(Debug, Clone, Copy, PartialEq, Eq, Hash)]
pub struct ILeb128<'a>(&'a [u8]);

/// Signed LEB128 integer that owns its bytes.
#[derive(Debug, PartialEq, Eq, Hash)]
pub struct ILeb128Owned(Vec<u8>);

impl<'a> View for ILeb128<'a> {
    type V = Seq<u8>;

    closed spec fn view(&self) -> Seq<u8> {
        self.0@
    }
}

impl View for ILeb128Owned {
    type V = Seq<u8>;

    closed spec fn view(&self) -> Seq<u8> {
        self.0@
    }
}

/// The views of a list of borrowed values.
pub open spec fn views_of(vs: Seq<ILeb128>) -> Seq<Seq<u8>> {
    vs.map_values(|v: ILeb128| v@)
}

/// The views of a list of owned values.
pub open spec fn owned_views_of(vs: Seq<ILeb128Owned>) -> Seq<Seq<u8>> {
    vs.map_values(|v: ILeb128Owned| v@)
}

impl<'a> ILeb128<'a> {
    #[verifier::type_invariant]
    spec fn well_formed(self) -> bool {
        is_encoding(self.0@)
    }

    /// Reads the single value at the start of `bytes`.
    pub fn from_bytes(bytes: &'a [u8]) -> (r: Result<ILeb128<'a>, DecodeError>)
        ensures
            r is Ok <==> exists|i: int| 0 <= i < bytes@.len() && bytes@[i] < 0x80,
            r matches Ok(v) ==> v@.len() <= bytes@.len(),
            r matches Ok(v) ==> is_encoding(v@) && v@ == bytes@.subrange(0, v@.len() as int),
            r matches Err(e) ==> e == DecodeError::Truncated,
    {
        match first_value_len(bytes) {
            Ok(k) => Ok(ILeb128(vstd::slice::slice_subrange(bytes, 0, k))),
            Err(e) => Err(e),
        }
    }

    /// Reads every value in `bytes`, which must end with a complete value.
    pub fn all_from_bytes(bytes: &'a [u8]) -> (r: Result<Vec<ILeb128<'a>>, DecodeError>)
        ensures
            r is Ok <==> splits_into_values(bytes@),
            r matches Ok(vs) ==> {
                &&& forall|i: int| 0 <= i < vs@.len() ==> is_encoding(#[trigger] vs@[i]@)
                &&& concat(views_of(vs@)) == bytes@
            },
            r matches Err(e) ==> e == DecodeError::TrailingBytes,
    {
        let parts = match split_values(bytes) {
            Ok(parts) => parts,
            Err(e) => {
                return Err(e);
            },
        };
        let mut out: Vec<ILeb128<'a>> = Vec::new();
        let mut i: usize = 0;
        while i < parts.len()
            invariant
                i <= parts@.len(),
                forall|j: int| 0 <= j < parts@.len() ==> is_encoding(#[trigger] parts@[j]@),
                views_of(out@) == slice_views(parts@).subrange(0, i as int),
            decreases parts@.len() - i,
        {
            let v = ILeb128(parts[i]);
            let ghost before = out@;
            out.push(v);
            assert(views_of(out@) =~= views_of(before).push(v@));
            assert(slice_views(parts@).subrange(0, i + 1) =~= slice_views(parts@).subrange(
                0,
                i as int,
            ).push(parts@[i as int]@));
            i = i + 1;
        }
        assert(slice_views(parts@).subrange(0, parts@.len() as int) =~= slice_views(parts@));
        proof {
            assert forall|j: int| 0 <= j < out@.len() implies is_encoding(#[trigger] out@[j]@) by {
                assert(views_of(out@)[j] == out@[j]@);
            }
        }
        Ok(out)
    }

    /// The number of bytes of the encoded value.
    pub fn byte_count(self) -> (r: usize)
        ensures
            r == self@.len(),
    {
        self.0.len()
    }

    /// The encoded bytes.
    pub fn as_bytes(self) -> (r: &'a [u8])
        ensures
            r@ == self@,
    {
        self.0
    }

    /// An owned copy of the bytes.
    pub fn to_owned(self) -> (r: ILeb128Owned)
        ensures
            r@ == self@,
    {
        proof {
            use_type_invariant(&self);
        }
        ILeb128Owned(vstd::slice::slice_to_vec(self.0))
    }

    /// Decodes the value as an `i8`.
    pub fn expect_i8(self) -> (r: Result<i8, DecodeError>)
        ensures
            r is Ok <==> i8::MIN <= signed_value(self@) <= i8::MAX,
            r matches Ok(v) ==> v == signed_value(self@),
            r matches Err(e) ==> e == signed_overflow(self@, 8),
    {
        proof {
            lemma_native_widths();
        }
        match decode_signed(self.0, 8) {
            Ok(v) => Ok(v as i8),
            Err(e) => Err(e),
        }
    }

    /// Decodes the value as an `i16`.
    pub fn expect_i16(self) -> (r: Result<i16, DecodeError>)
        ensures
            r is Ok <==> i16::MIN <= signed_value(self@) <= i16::MAX,
            r matches Ok(v) ==> v == signed_value(self@),
            r matches Err(e) ==> e == signed_overflow(self@, 16),
    {
        proof {
            lemma_native_widths();
        }
        match decode_signed(self.0, 16) {
            Ok(v) => Ok(v as i16),
            Err(e) => Err(e),
        }
    }

    /// Decodes the value as an `i32`.
    pub fn expect_i32(self) -> (r: Result<i32, DecodeError>)
        ensures
            r is Ok <==> i32::MIN <= signed_value(self@) <= i32::MAX,
            r matches Ok(v) ==> v == signed_value(self@),
            r matches Err(e) ==> e == signed_overflow(self@, 32),
    {
        proof {
            lemma_native_widths();
        }
        match decode_signed(self.0, 32) {
            Ok(v) => Ok(v as i32),
            Err(e) => Err(e),
        }
    }

    /// Decodes the value as an `i64`.
    pub fn expect_i64(self) -> (r: Result<i64, DecodeError>)
        ensures
            r is Ok <==> i64::MIN <= signed_value(self@) <= i64::MAX,
            r matches Ok(v) ==> v == signed_value(self@),
            r matches Err(e) ==> e == signed_overflow(self@, 64),
    {
        proof {
            lemma_native_widths();
        }
        match decode_signed(self.0, 64) {
            Ok(v) => Ok(v as i64),
            Err(e) => Err(e),
        }
    }

    /// Decodes the value as an `isize`.
    pub fn expect_isize(self) -> (r: Result<isize, DecodeError>)
        ensures
            r is Ok <==> isize::MIN <= signed_value(self@) <= isize::MAX,
            r matches Ok(v) ==> v == signed_value(self@),
            r matches Err(e) ==> e == signed_overflow(self@, usize::BITS),
    {
        let bits = word_bits();
        match decode_signed(self.0, bits) {
            Ok(v) => Ok(v as isize),
            Err(e) => Err(e),
        }
    }

    /// Decodes the value as a 128-bit two's-complement integer, returned as
    /// its sixteen bytes in little-endian order.
    pub fn expect_i128(self) -> (r: Result<[u8; 16], DecodeError>)
        ensures
            r is Ok <==> fits_signed(signed_value(self@), 128),
            r matches Ok(b) ==> forall|i: int|
                0 <= i < 16 ==> b[i] == le_byte(twos_complement(signed_value(self@), 128), i as nat),
            r matches Err(e) ==> e == signed_overflow(self@, 128),
    {
        match decode_signed(self.0, 128) {
            Ok(v) => Ok(le_bytes_u128(twos_complement_u128(v))),
            Err(e) => Err(e),
        }
    }
    /// Decodes the value, of any size, as its shortest run of
    /// two's-complement bytes, least significant first.
    pub fn decode_bytes(self) -> (r: Vec<u8>)
        ensures
            le_signed_value(r@) == signed_value(self@),
            is_minimal_le_signed(r@),
    {
        signed_to_le(self.0)
    }
}

impl ILeb128Owned {
    #[verifier::type_invariant]
    spec fn well_formed(self) -> bool {
        is_encoding(self.0@)
    }

    /// Reads the single value at the start of `bytes` into an owned copy.
    pub fn from_bytes(bytes: &[u8]) -> (r: Result<ILeb128Owned, DecodeError>)
        ensures
            r is Ok <==> exists|i: int| 0 <= i < bytes@.len() && bytes@[i] < 0x80,
            r matches Ok(v) ==> v@.len() <= bytes@.len(),
            r matches Ok(v) ==> is_encoding(v@) && v@ == bytes@.subrange(0, v@.len() as int),
            r matches Err(e) ==> e == DecodeError::Truncated,
    {
        match ILeb128::from_bytes(bytes) {
            Ok(v) => Ok(v.to_owned()),
            Err(e) => Err(e),
        }
    }

    /// Reads every value in `bytes` into owned copies; `bytes` must end with
    /// a complete value.
    pub fn all_from_bytes(bytes: &[u8]) -> (r: Result<Vec<ILeb128Owned>, DecodeError>)
        ensures
            r is Ok <==> splits_into_values(bytes@),
            r matches Ok(vs) ==> {
                &&& forall|i: int| 0 <= i < vs@.len() ==> is_encoding(#[trigger] vs@[i]@)
                &&& concat(owned_views_of(vs@)) == bytes@
            },
            r matches Err(e) ==> e == DecodeError::TrailingBytes,
    {
        let views = match ILeb128::all_from_bytes(bytes) {
            Ok(views) => views,
            Err(e) => {
                return Err(e);
            },
        };
        let mut out: Vec<ILeb128Owned> = Vec::new();
        let mut i: usize = 0;
        while i < views.len()
            invariant
                i <= views@.len(),
                forall|j: int| 0 <= j < views@.len() ==> is_encoding(#[trigger] views@[j]@),
                owned_views_of(out@) == views_of(views@).subrange(0, i as int),
            decreases views@.len() - i,
        {
            let v = views[i].to_owned();
            let ghost before = out@;
            out.push(v);
            assert(owned_views_of(out@) =~= owned_views_of(before).push(v@));
            assert(views_of(views@).subrange(0, i + 1) =~= views_of(views@).subrange(
                0,
                i as int,
            ).push(views@[i as int]@));
            i = i + 1;
        }
        assert(views_of(views@).subrange(0, views@.len() as int) =~= views_of(views@));
        proof {
            assert forall|j: int| 0 <= j < out@.len() implies is_encoding(#[trigger] out@[j]@) by {
                assert(owned_views_of(out@)[j] == out@[j]@);
                assert(views_of(views@)[j] == views@[j]@);
            }
        }
        Ok(out)
    }

    /// The number of bytes of the encoded value.
    pub fn byte_count(self) -> (r: usize)
        ensures
            r == self@.len(),
    {
        self.0.len()
    }

    /// The encoded bytes.
    pub fn as_bytes(&self) -> (r: &[u8])
        ensures
            r@ == self@,
    {
        self.0.as_slice()
    }

    /// A borrowed view of the bytes.
    pub fn as_ref(&self) -> (r: ILeb128<'_>)
        ensures
            r@ == self@,
    {
        proof {
            use_type_invariant(self);
        }
        ILeb128(self.0.as_slice())
    }

    /// Decodes the value as an `i8`.
    pub fn expect_i8(&self) -> (r: Result<i8, DecodeError>)
        ensures
            r is Ok <==> i8::MIN <= signed_value(self@) <= i8::MAX,
            r matches Ok(v) ==> v == signed_value(self@),
            r matches Err(e) ==> e == signed_overflow(self@, 8),
    {
        self.as_ref().expect_i8()
    }

    /// Decodes the value as an `i16`.
    pub fn expect_i16(&self) -> (r: Result<i16, DecodeError>)
        ensures
            r is Ok <==> i16::MIN <= signed_value(self@) <= i16::MAX,
            r matches Ok(v) ==> v == signed_value(self@),
            r matches Err(e) ==> e == signed_overflow(self@, 16),
    {
        self.as_ref().expect_i16()
    }

    /// Decodes the value as an `i32`.
    pub fn expect_i32(&self) -> (r: Result<i32, DecodeError>)
        ensures
            r is Ok <==> i32::MIN <= signed_value(self@) <= i32::MAX,
            r matches Ok(v) ==> v == signed_value(self@),
            r matches Err(e) ==> e == signed_overflow(self@, 32),
    {
        self.as_ref().expect_i32()
    }

    /// Decodes the value as an `i64`.
    pub fn expect_i64(&self) -> (r: Result<i64, DecodeError>)
        ensures
            r is Ok <==> i64::MIN <= signed_value(self@) <= i64::MAX,
            r matches Ok(v) ==> v == signed_value(self@),
            r matches Err(e) ==> e == signed_overflow(self@, 64),
    {
        self.as_ref().expect_i64()
    }

    /// Decodes the value as an `isize`.
    pub fn expect_isize(&self) -> (r: Result<isize, DecodeError>)
        ensures
            r is Ok <==> isize::MIN <= signed_value(self@) <= isize::MAX,
            r matches Ok(v) ==> v == signed_value(self@),
            r matches Err(e) ==> e == signed_overflow(self@, usize::BITS),
    {
        self.as_ref().expect_isize()
    }

    /// Decodes the value as a 128-bit two's-complement integer, returned as
    /// its sixteen bytes in little-endian order.
    pub fn expect_i128(&self) -> (r: Result<[u8; 16], DecodeError>)
        ensures
            r is Ok <==> fits_signed(signed_value(self@), 128),
            r matches Ok(b) ==> forall|i: int|
                0 <= i < 16 ==> b[i] == le_byte(twos_complement(signed_value(self@), 128), i as nat),
            r matches Err(e) ==> e == signed_overflow(self@, 128),
    {
        self.as_ref().expect_i128()
    }
    /// Decodes the value, of any size, as its shortest run of
    /// two's-complement bytes, least significant first.
    pub fn decode_bytes(&self) -> (r: Vec<u8>)
        ensures
            le_signed_value(r@) == signed_value(self@),
            is_minimal_le_signed(r@),
    {
        self.as_ref().decode_bytes()
    }
}

impl Clone for ILeb128Owned {
    fn clone(&self) -> (r: ILeb128Owned)
        ensures
            r@ == self@,
    {
        proof {
            use_type_invariant(self);
        }
        let bytes = self.0.clone();
        assert(bytes@ =~= self.0@);
        ILeb128Owned(bytes)
    }
}

/// Integers that encode as signed LEB128.
pub trait ToILeb128Owned: Sized {
    /// The integer that `self` stands for.
    spec fn signed_amount(&self) -> int;

    /// The canonical signed LEB128 encoding of `self`.
    fn encode(self) -> (r: ILeb128Owned)
        ensures
            r@ == signed_encoding(self.signed_amount()),
    ;
}

/// Encodes an integer of any width up to 128 bits.
fn encode_owned(v: i128) -> (r: ILeb128Owned)
    ensures
        r@ == signed_encoding(v as int),
{
    proof {
        lemma_signed_round_trip(v as int);
    }
    ILeb128Owned(encode_signed(v))
}

impl ToILeb128Owned for i8 {
    open spec fn signed_amount(&self) -> int {
        *self as int
    }

    fn encode(self) -> (r: ILeb128Owned) {
        encode_owned(self as i128)
    }
}

impl ToILeb128Owned for i16 {
    open spec fn signed_amount(&self) -> int {
        *self as int
    }

    fn encode(self) -> (r: ILeb128Owned) {
        encode_owned(self as i128)
    }
}

impl ToILeb128Owned for i32 {
    open spec fn signed_amount(&self) -> int {
        *self as int
    }

    fn encode(self) -> (r: ILeb128Owned) {
        encode_owned(self as i128)
    }
}

impl ToILeb128Owned for i64 {
    open spec fn signed_amount(&self) -> int {
        *self as int
    }

    fn encode(self) -> (r: ILeb128Owned) {
        encode_owned(self as i128)
    }
}

impl ToILeb128Owned for isize {
    open spec fn signed_amount(&self) -> int {
        *self as int
    }

    fn encode(self) -> (r: ILeb128Owned) {
        encode_owned(self as i128)
    }
}

/// A run of two's-complement bytes, least significant first, stands for a
/// signed integer of any size.
impl<'a> ToILeb128Owned for &'a [u8] {
    open spec fn signed_amount(&self) -> int {
        le_signed_value(self@)
    }

    fn encode(self) -> (r: ILeb128Owned) {
        proof {
            lemma_signed_round_trip(le_signed_value(self@));
        }
        ILeb128Owned(le_to_signed(self))
    }
}

} // verus!
