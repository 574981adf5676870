use leb128::{ILeb128Owned, ToILeb128Owned, ToULeb128Owned, ULeb128Owned};

#[test]
fn test_unsigned_encode() {
    assert!((0u8).encode() == ULeb128Owned::from_bytes(&[0]).unwrap());
    assert!((42u8).encode() == ULeb128Owned::from_bytes(&[42]).unwrap());
    assert!((127u8).encode() == ULeb128Owned::from_bytes(&[127]).unwrap());
    assert!((128u8).encode() == ULeb128Owned::from_bytes(&[128, 1]).unwrap());
    assert!((255u8).encode() == ULeb128Owned::from_bytes(&[255, 1]).unwrap());

    assert!((0u16).encode() == ULeb128Owned::from_bytes(&[0]).unwrap());
    assert!((42u16).encode() == ULeb128Owned::from_bytes(&[42]).unwrap());
    assert!((127u16).encode() == ULeb128Owned::from_bytes(&[127]).unwrap());
    assert!((128u16).encode() == ULeb128Owned::from_bytes(&[128, 1]).unwrap());
    assert!((0xffffu16).encode() == ULeb128Owned::from_bytes(&[255, 255, 0b11]).unwrap());

    assert!((0u32).encode() == ULeb128Owned::from_bytes(&[0]).unwrap());
    assert!((42u32).encode() == ULeb128Owned::from_bytes(&[42]).unwrap());
    assert!((127u32).encode() == ULeb128Owned::from_bytes(&[127]).unwrap());
    assert!((128u32).encode() == ULeb128Owned::from_bytes(&[128, 1]).unwrap());
    assert!((624485u32).encode() == ULeb128Owned::from_bytes(&[0xE5, 0x8E, 0x26]).unwrap());

    assert!((0u64).encode() == ULeb128Owned::from_bytes(&[0]).unwrap());
    assert!((42u64).encode() == ULeb128Owned::from_bytes(&[42]).unwrap());
    assert!((127u64).encode() == ULeb128Owned::from_bytes(&[127]).unwrap());
    assert!((128u64).encode() == ULeb128Owned::from_bytes(&[128, 1]).unwrap());
    assert!((624485u64).encode() == ULeb128Owned::from_bytes(&[0xE5, 0x8E, 0x26]).unwrap());

    assert!((0usize).encode() == ULeb128Owned::from_bytes(&[0]).unwrap());
    assert!((42usize).encode() == ULeb128Owned::from_bytes(&[42]).unwrap());
    assert!((127usize).encode() == ULeb128Owned::from_bytes(&[127]).unwrap());
    assert!((128usize).encode() == ULeb128Owned::from_bytes(&[128, 1]).unwrap());
    assert!((624485usize).encode() == ULeb128Owned::from_bytes(&[0xE5, 0x8E, 0x26]).unwrap());
}

#[test]
fn test_signed_encode() {
    assert!((   0i8).encode() == ILeb128Owned::from_bytes(&[0]).unwrap());
    assert!((   2i8).encode() == ILeb128Owned::from_bytes(&[2]).unwrap());
    assert!((  -2i8).encode() == ILeb128Owned::from_bytes(&[0x7e]).unwrap());
    assert!(( 127i8).encode() == ILeb128Owned::from_bytes(&[0xff, 0]).unwrap());
    assert!((-127i8).encode() == ILeb128Owned::from_bytes(&[0x81, 0x7f]).unwrap());
    assert!((-128i8).encode() == ILeb128Owned::from_bytes(&[0x80, 0x7f]).unwrap());

    assert!((   0i16).encode() == ILeb128Owned::from_bytes(&[0]).unwrap());
    assert!((   2i16).encode() == ILeb128Owned::from_bytes(&[2]).unwrap());
    assert!((  -2i16).encode() == ILeb128Owned::from_bytes(&[0x7e]).unwrap());
    assert!(( 127i16).encode() == ILeb128Owned::from_bytes(&[0xff, 0]).unwrap());
    assert!((-127i16).encode() == ILeb128Owned::from_bytes(&[0x81, 0x7f]).unwrap());
    assert!(( 128i16).encode() == ILeb128Owned::from_bytes(&[0x80, 1]).unwrap());
    assert!((-128i16).encode() == ILeb128Owned::from_bytes(&[0x80, 0x7f]).unwrap());
    assert!(( 129i16).encode() == ILeb128Owned::from_bytes(&[0x81, 1]).unwrap());
    assert!((-129i16).encode() == ILeb128Owned::from_bytes(&[0xff, 0x7e]).unwrap());

    assert!((   0i32).encode() == ILeb128Owned::from_bytes(&[0]).unwrap());
    assert!((   2i32).encode() == ILeb128Owned::from_bytes(&[2]).unwrap());
    assert!((  -2i32).encode() == ILeb128Owned::from_bytes(&[0x7e]).unwrap());
    assert!(( 127i32).encode() == ILeb128Owned::from_bytes(&[0xff, 0]).unwrap());
    assert!((-127i32).encode() == ILeb128Owned::from_bytes(&[0x81, 0x7f]).unwrap());
    assert!(( 128i32).encode() == ILeb128Owned::from_bytes(&[0x80, 1]).unwrap());
    assert!((-128i32).encode() == ILeb128Owned::from_bytes(&[0x80, 0x7f]).unwrap());
    assert!(( 129i32).encode() == ILeb128Owned::from_bytes(&[0x81, 1]).unwrap());
    assert!((-129i32).encode() == ILeb128Owned::from_bytes(&[0xff, 0x7e]).unwrap());

    assert!((   0i64).encode() == ILeb128Owned::from_bytes(&[0]).unwrap());
    assert!((   2i64).encode() == ILeb128Owned::from_bytes(&[2]).unwrap());
    assert!((  -2i64).encode() == ILeb128Owned::from_bytes(&[0x7e]).unwrap());
    assert!(( 127i64).encode() == ILeb128Owned::from_bytes(&[0xff, 0]).unwrap());
    assert!((-127i64).encode() == ILeb128Owned::from_bytes(&[0x81, 0x7f]).unwrap());
    assert!(( 128i64).encode() == ILeb128Owned::from_bytes(&[0x80, 1]).unwrap());
    assert!((-128i64).encode() == ILeb128Owned::from_bytes(&[0x80, 0x7f]).unwrap());
    assert!(( 129i64).encode() == ILeb128Owned::from_bytes(&[0x81, 1]).unwrap());
    assert!((-129i64).encode() == ILeb128Owned::from_bytes(&[0xff, 0x7e]).unwrap());

    assert!((   0isize).encode() == ILeb128Owned::from_bytes(&[0]).unwrap());
    assert!((   2isize).encode() == ILeb128Owned::from_bytes(&[2]).unwrap());
    assert!((  -2isize).encode() == ILeb128Owned::from_bytes(&[0x7e]).unwrap());
    assert!(( 127isize).encode() == ILeb128Owned::from_bytes(&[0xff, 0]).unwrap());
    assert!((-127isize).encode() == ILeb128Owned::from_bytes(&[0x81, 0x7f]).unwrap());
    assert!(( 128isize).encode() == ILeb128Owned::from_bytes(&[0x80, 1]).unwrap());
    assert!((-128isize).encode() == ILeb128Owned::from_bytes(&[0x80, 0x7f]).unwrap());
    assert!(( 129isize).encode() == ILeb128Owned::from_bytes(&[0x81, 1]).unwrap());
    assert!((-129isize).encode() == ILeb128Owned::from_bytes(&[0xff, 0x7e]).unwrap());
}

#[test]
fn test_unsigned_decode() {
    assert!(ULeb128Owned::from_bytes(&[0]).unwrap().expect_u8().unwrap() == 0);
    assert!(ULeb128Owned::from_bytes(&[42]).unwrap().expect_u8().unwrap() == 42);
    assert!(ULeb128Owned::from_bytes(&[127]).unwrap().expect_u8().unwrap() == 127);
    assert!(ULeb128Owned::from_bytes(&[128, 1]).unwrap().expect_u8().unwrap() == 128);
    assert!(ULeb128Owned::from_bytes(&[255, 1]).unwrap().expect_u8().unwrap() == 255);

    assert!(ULeb128Owned::from_bytes(&[0]).unwrap().expect_u16().unwrap() == 0);
    assert!(ULeb128Owned::from_bytes(&[42]).unwrap().expect_u16().unwrap() == 42);
    assert!(ULeb128Owned::from_bytes(&[127]).unwrap().expect_u16().unwrap() == 127);
    assert!(ULeb128Owned::from_bytes(&[128, 1]).unwrap().expect_u16().unwrap() == 128);
    assert!(ULeb128Owned::from_bytes(&[255, 255, 3]).unwrap().expect_u16().unwrap() == 0xffff);

    assert!(ULeb128Owned::from_bytes(&[0]).unwrap().expect_u32().unwrap() == 0);
    assert!(ULeb128Owned::from_bytes(&[42]).unwrap().expect_u32().unwrap() == 42);
    assert!(ULeb128Owned::from_bytes(&[127]).unwrap().expect_u32().unwrap() == 127);
    assert!(ULeb128Owned::from_bytes(&[128, 1]).unwrap().expect_u32().unwrap() == 128);
    assert!(ULeb128Owned::from_bytes(&[0xE5, 0x8E, 0x26]).unwrap().expect_u32().unwrap() == 624485);
    assert!(ULeb128Owned::from_bytes(&[255, 255, 255, 255, 0b1111]).unwrap().expect_u32().unwrap() == 0xffff_ffff);

    assert!(ULeb128Owned::from_bytes(&[0]).unwrap().expect_u64().unwrap() == 0);
    assert!(ULeb128Owned::from_bytes(&[42]).unwrap().expect_u64().unwrap() == 42);
    assert!(ULeb128Owned::from_bytes(&[127]).unwrap().expect_u64().unwrap() == 127);
    assert!(ULeb128Owned::from_bytes(&[128, 1]).unwrap().expect_u64().unwrap() == 128);
    assert!(ULeb128Owned::from_bytes(&[0xE5, 0x8E, 0x26]).unwrap().expect_u64().unwrap() == 624485);
    assert!(ULeb128Owned::from_bytes(&[255, 255, 255, 255, 255, 255, 255, 255, 255, 1]).unwrap().expect_u64().unwrap() == 0xffff_ffff_ffff_ffff);

    assert!(ULeb128Owned::from_bytes(&[0]).unwrap().expect_usize().unwrap() == 0);
    assert!(ULeb128Owned::from_bytes(&[42]).unwrap().expect_usize().unwrap() == 42);
    assert!(ULeb128Owned::from_bytes(&[127]).unwrap().expect_usize().unwrap() == 127);
    assert!(ULeb128Owned::from_bytes(&[128, 1]).unwrap().expect_usize().unwrap() == 128);
    assert!(ULeb128Owned::from_bytes(&[0xE5, 0x8E, 0x26]).unwrap().expect_usize().unwrap() == 624485);
    assert!(ULeb128Owned::from_bytes(&[255, 255, 255, 255, 0b1111]).unwrap().expect_usize().unwrap() == 0xffff_ffff);
}

#[test]
fn test_signed_decode() {
    assert!(ILeb128Owned::from_bytes(&[0]).unwrap().expect_i8().unwrap() == 0);
    assert!(ILeb128Owned::from_bytes(&[0]).unwrap().expect_i8().unwrap() == 0);
    assert!(ILeb128Owned::from_bytes(&[2]).unwrap().expect_i8().unwrap() == 2);
    assert!(ILeb128Owned::from_bytes(&[0x7e]).unwrap().expect_i8().unwrap() == -2);
    assert!(ILeb128Owned::from_bytes(&[0xff, 0]).unwrap().expect_i8().unwrap() == 127);
    assert!(ILeb128Owned::from_bytes(&[0x81, 0x7f]).unwrap().expect_i8().unwrap() == -127);
    assert!(ILeb128Owned::from_bytes(&[0x80, 0x7f]).unwrap().expect_i8().unwrap() == -128);

    assert!(ILeb128Owned::from_bytes(&[0]).unwrap().expect_i16().unwrap() == 0);
    assert!(ILeb128Owned::from_bytes(&[0]).unwrap().expect_i16().unwrap() == 0);
    assert!(ILeb128Owned::from_bytes(&[2]).unwrap().expect_i16().unwrap() == 2);
    assert!(ILeb128Owned::from_bytes(&[0x7e]).unwrap().expect_i16().unwrap() == -2);
    assert!(ILeb128Owned::from_bytes(&[0xff, 0]).unwrap().expect_i16().unwrap() == 127);
    assert!(ILeb128Owned::from_bytes(&[0x81, 0x7f]).unwrap().expect_i16().unwrap() == -127);
    assert!(ILeb128Owned::from_bytes(&[0x80, 1]).unwrap().expect_i16().unwrap() == 128);
    assert!(ILeb128Owned::from_bytes(&[0x80, 0x7f]).unwrap().expect_i16().unwrap() == -128);
    assert!(ILeb128Owned::from_bytes(&[0x81, 1]).unwrap().expect_i16().unwrap() == 129);
    assert!(ILeb128Owned::from_bytes(&[0xff, 0x7e]).unwrap().expect_i16().unwrap() == -129);

    assert!(ILeb128Owned::from_bytes(&[0]).unwrap().expect_i32().unwrap() == 0);
    assert!(ILeb128Owned::from_bytes(&[0]).unwrap().expect_i32().unwrap() == 0);
    assert!(ILeb128Owned::from_bytes(&[2]).unwrap().expect_i32().unwrap() == 2);
    assert!(ILeb128Owned::from_bytes(&[0x7e]).unwrap().expect_i32().unwrap() == -2);
    assert!(ILeb128Owned::from_bytes(&[0xff, 0]).unwrap().expect_i32().unwrap() == 127);
    assert!(ILeb128Owned::from_bytes(&[0x81, 0x7f]).unwrap().expect_i32().unwrap() == -127);
    assert!(ILeb128Owned::from_bytes(&[0x80, 1]).unwrap().expect_i32().unwrap() == 128);
    assert!(ILeb128Owned::from_bytes(&[0x80, 0x7f]).unwrap().expect_i32().unwrap() == -128);
    assert!(ILeb128Owned::from_bytes(&[0x81, 1]).unwrap().expect_i32().unwrap() == 129);
    assert!(ILeb128Owned::from_bytes(&[0xff, 0x7e]).unwrap().expect_i32().unwrap() == -129);

    assert!(ILeb128Owned::from_bytes(&[0]).unwrap().expect_i64().unwrap() == 0);
    assert!(ILeb128Owned::from_bytes(&[0]).unwrap().expect_i64().unwrap() == 0);
    assert!(ILeb128Owned::from_bytes(&[2]).unwrap().expect_i64().unwrap() == 2);
    assert!(ILeb128Owned::from_bytes(&[0x7e]).unwrap().expect_i64().unwrap() == -2);
    assert!(ILeb128Owned::from_bytes(&[0xff, 0]).unwrap().expect_i64().unwrap() == 127);
    assert!(ILeb128Owned::from_bytes(&[0x81, 0x7f]).unwrap().expect_i64().unwrap() == -127);
    assert!(ILeb128Owned::from_bytes(&[0x80, 1]).unwrap().expect_i64().unwrap() == 128);
    assert!(ILeb128Owned::from_bytes(&[0x80, 0x7f]).unwrap().expect_i64().unwrap() == -128);
    assert!(ILeb128Owned::from_bytes(&[0x81, 1]).unwrap().expect_i64().unwrap() == 129);
    assert!(ILeb128Owned::from_bytes(&[0xff, 0x7e]).unwrap().expect_i64().unwrap() == -129);

    assert!(ILeb128Owned::from_bytes(&[0]).unwrap().expect_isize().unwrap() == 0);
    assert!(ILeb128Owned::from_bytes(&[0]).unwrap().expect_isize().unwrap() == 0);
    assert!(ILeb128Owned::from_bytes(&[2]).unwrap().expect_isize().unwrap() == 2);
    assert!(ILeb128Owned::from_bytes(&[0x7e]).unwrap().expect_isize().unwrap() == -2);
    assert!(ILeb128Owned::from_bytes(&[0xff, 0]).unwrap().expect_isize().unwrap() == 127);
    assert!(ILeb128Owned::from_bytes(&[0x81, 0x7f]).unwrap().expect_isize().unwrap() == -127);
    assert!(ILeb128Owned::from_bytes(&[0x80, 1]).unwrap().expect_isize().unwrap() == 128);
    assert!(ILeb128Owned::from_bytes(&[0x80, 0x7f]).unwrap().expect_isize().unwrap() == -128);
    assert!(ILeb128Owned::from_bytes(&[0x81, 1]).unwrap().expect_isize().unwrap() == 129);
    assert!(ILeb128Owned::from_bytes(&[0xff, 0x7e]).unwrap().expect_isize().unwrap() == -129);
}

#[test]
#[should_panic]
fn test_decode_overflow_u8() {
    ULeb128Owned::from_bytes(&[128, 2]).unwrap().expect_u8().unwrap();
}
#[test]
#[should_panic]
fn test_decode_overflow_u16() {
    ULeb128Owned::from_bytes(&[128, 128, 4]).unwrap().expect_u16().unwrap();
}
#[test]
#[should_panic]
fn test_decode_overflow_u32() {
    ULeb128Owned::from_bytes(&[128, 128, 128, 128, 16]).unwrap().expect_u32().unwrap();
}
#[test]
#[should_panic]
fn test_decode_overflow_u64() {
    ULeb128Owned::from_bytes(&[128, 128, 128, 128, 128, 128, 128, 128, 128, 2]).unwrap().expect_u64().unwrap();
}
#[test]
#[should_panic]
fn test_decode_overflow_i8() {
    ILeb128Owned::from_bytes(&[128, 2]).unwrap().expect_i8().unwrap();
}
#[test]
#[should_panic]
fn test_decode_overflow_i16() {
    ILeb128Owned::from_bytes(&[128, 128, 4]).unwrap().expect_i16().unwrap();
}
#[test]
#[should_panic]
fn test_decode_overflow_i32() {
    ILeb128Owned::from_bytes(&[128, 128, 128, 128, 16]).unwrap().expect_i32().unwrap();
}
#[test]
#[should_panic]
fn test_decode_overflow_i64() {
    ILeb128Owned::from_bytes(&[128, 128, 128, 128, 128, 128, 128, 128, 128, 2]).unwrap().expect_i64().unwrap();
}

#[test]
fn test_byte_count() {
    assert!(ILeb128Owned::from_bytes(&[2]).unwrap().byte_count() == 1);
    assert!(ILeb128Owned::from_bytes(&[128, 128, 128, 2]).unwrap().byte_count() == 4);
    assert!(ILeb128Owned::from_bytes(&[128, 128, 128, 128, 128, 128, 128, 128, 128, 2]).unwrap().byte_count() == 10);

    assert!(ULeb128Owned::from_bytes(&[2]).unwrap().byte_count() == 1);
    assert!(ULeb128Owned::from_bytes(&[128, 128, 128, 2]).unwrap().byte_count() == 4);
    assert!(ULeb128Owned::from_bytes(&[128, 128, 128, 128, 128, 128, 128, 128, 128, 2]).unwrap().byte_count() == 10);
}
