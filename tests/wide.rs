use leb128::{ILeb128, ILeb128Owned, ToILeb128Owned, ToULeb128Owned, ULeb128, ULeb128Owned};

fn unsigned_bytes(encoded: &[u8]) -> Vec<u8> {
    ULeb128Owned::from_bytes(encoded).unwrap().decode_bytes()
}

fn signed_bytes(encoded: &[u8]) -> Vec<u8> {
    ILeb128Owned::from_bytes(encoded).unwrap().decode_bytes()
}

#[test]
fn decode_bytes_unsigned() {
    assert_eq!(unsigned_bytes(&[0xe5, 0x8e, 0x26]), vec![0x65, 0x87, 0x09]);
    assert_eq!(unsigned_bytes(&[0x00]), vec![0x00]);
    assert_eq!(unsigned_bytes(&[0x80, 0x80, 0x00]), vec![0x00]);
    assert_eq!(unsigned_bytes(&[0x80, 0x01]), vec![0x80]);
    assert_eq!(unsigned_bytes(&[0x80, 0x02]), vec![0x00, 0x01]);
    assert_eq!(unsigned_bytes(u64::MAX.encode().as_bytes()), vec![0xff; 8]);
    let mut big = vec![0x80u8; 18];
    big.push(0x04);
    let mut want = vec![0u8; 16];
    want.push(1);
    assert_eq!(unsigned_bytes(&big), want);
    assert_eq!(ULeb128::from_bytes(&[0x7f]).unwrap().decode_bytes(), vec![0x7f]);
}

#[test]
fn decode_bytes_signed() {
    assert_eq!(signed_bytes(&[0x00]), vec![0x00]);
    assert_eq!(signed_bytes(&[0x7f]), vec![0xff]);
    assert_eq!(signed_bytes(&[0x3f]), vec![0x3f]);
    assert_eq!(signed_bytes(&[0x80, 0x7f]), vec![0x80]);
    assert_eq!(signed_bytes(&[0xff, 0x7e]), vec![0x7f, 0xff]);
    assert_eq!(signed_bytes(&[0x80, 0x01]), vec![0x80, 0x00]);
    assert_eq!(signed_bytes(&[0xff, 0xff, 0xff, 0x7f]), vec![0xff]);
    assert_eq!(ILeb128::from_bytes(&[0xe5, 0x8e, 0x26]).unwrap().decode_bytes(), vec![0x65, 0x87, 0x09]);
    for v in i16::MIN..=i16::MAX {
        let got = v.encode().decode_bytes();
        let le = v.to_le_bytes();
        let want: Vec<u8> = if (-128..=127).contains(&v) { vec![le[0]] } else { le.to_vec() };
        assert_eq!(got, want);
    }
}

#[test]
fn encode_byte_slices_unsigned() {
    let e = ToULeb128Owned::encode(&[0x65u8, 0x87, 0x09][..]);
    assert_eq!(e.as_bytes(), &[0xe5, 0x8e, 0x26]);
    let e = ToULeb128Owned::encode(&[][..]);
    assert_eq!(e.as_bytes(), &[0x00]);
    let e = ToULeb128Owned::encode(&[0x00u8, 0x00][..]);
    assert_eq!(e.as_bytes(), &[0x00]);
    let e = ToULeb128Owned::encode(&[0xffu8; 16][..]);
    let mut want = vec![0xffu8; 18];
    want.push(0x03);
    assert_eq!(e.as_bytes(), &want[..]);
    for v in 0..=u16::MAX {
        let e = ToULeb128Owned::encode(&v.to_le_bytes()[..]);
        assert_eq!(e, v.encode());
    }
}

#[test]
fn encode_byte_slices_signed() {
    assert_eq!(ToILeb128Owned::encode(&[0xffu8][..]).as_bytes(), &[0x7f]);
    assert_eq!(ToILeb128Owned::encode(&[0x80u8][..]).as_bytes(), &[0x80, 0x7f]);
    assert_eq!(ToILeb128Owned::encode(&[0x7fu8, 0xff][..]).as_bytes(), &[0xff, 0x7e]);
    assert_eq!(ToILeb128Owned::encode(&[0x80u8, 0x00][..]).as_bytes(), &[0x80, 0x01]);
    assert_eq!(ToILeb128Owned::encode(&[][..]).as_bytes(), &[0x00]);
    assert_eq!(ToILeb128Owned::encode(&[0xffu8; 16][..]).as_bytes(), &[0x7f]);
    for v in i16::MIN..=i16::MAX {
        let e = ToILeb128Owned::encode(&v.to_le_bytes()[..]);
        assert_eq!(e, v.encode());
    }
    for v in [i64::MIN, i64::MAX, -1, 0, 1 << 40] {
        assert_eq!(ToILeb128Owned::encode(&v.to_le_bytes()[..]), v.encode());
    }
}
