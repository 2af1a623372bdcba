use macho_dwarf::leb::{ileb128_decode, ileb128_encode, uleb128_decode, uleb128_encode, Error};

#[test]
fn uleb128_encode_works() {
    assert_eq!(*uleb128_encode(0), [0]);
    assert_eq!(*uleb128_encode(2), [2]);
    assert_eq!(*uleb128_encode(127), [127]);
    assert_eq!(*uleb128_encode(128), [0x80 | 0, 1]);
    assert_eq!(*uleb128_encode(129), [0x80 | 1, 1]);
    assert_eq!(*uleb128_encode(130), [0x80 | 2, 1]);
    assert_eq!(*uleb128_encode(12857), [0x80 | 57, 100]);
}

#[test]
fn uleb128_decode_works() {
    assert_eq!(uleb128_decode(&[2]), Ok((2, 1)));
    assert_eq!(uleb128_decode(&[127]), Ok((127, 1)));
    assert_eq!(uleb128_decode(&[0x80 | 0, 1]), Ok((128, 2)));
    assert_eq!(uleb128_decode(&[0x80 | 1, 1]), Ok((129, 2)));
    assert_eq!(uleb128_decode(&[0x80 | 2, 1]), Ok((130, 2)));
    assert_eq!(uleb128_decode(&[0x80 | 57, 100]), Ok((12857, 2)));
}

#[test]
fn ileb128_encode_works() {
    assert_eq!(*ileb128_encode(0), [0]);
    assert_eq!(*ileb128_encode(2), [2]);
    assert_eq!(*ileb128_encode(127), [0x80 | 127, 0]);
    assert_eq!(*ileb128_encode(128), [0x80 | 0, 1]);
    assert_eq!(*ileb128_encode(129), [0x80 | 1, 1]);
    assert_eq!(*ileb128_encode(-1), [0x7f]);
    assert_eq!(*ileb128_encode(-2), [0x7e]);
    assert_eq!(*ileb128_encode(-127), [0x80 | 1, 0x7f]);
    assert_eq!(*ileb128_encode(-128), [0x80 | 0, 0x7f]);
    assert_eq!(*ileb128_encode(-129), [0x80 | 0x7f, 0x7e]);
}

#[test]
fn ileb128_decode_works() {
    assert_eq!(ileb128_decode(&[2]), Ok((2, 1)));
    assert_eq!(ileb128_decode(&[0x80 | 127, 0]), Ok((127, 2)));
    assert_eq!(ileb128_decode(&[0x80 | 0, 1]), Ok((128, 2)));
    assert_eq!(ileb128_decode(&[0x80 | 1, 1]), Ok((129, 2)));
    assert_eq!(ileb128_decode(&[0x7e]), Ok((-2, 1)));
    assert_eq!(ileb128_decode(&[0x80 | 1, 0x7f]), Ok((-127, 2)));
    assert_eq!(ileb128_decode(&[0x80 | 0, 0x7f]), Ok((-128, 2)));
    assert_eq!(ileb128_decode(&[0x80 | 0x7f, 0x7e]), Ok((-129, 2)));
}

#[test]
fn unsigned_round_trip_on_representative_values() {
    for n in [0u64, 2, 127, 128, 129, 130, 12857, i64::MAX as u64, u64::MAX] {
        let e = uleb128_encode(n);
        assert_eq!(uleb128_decode(&e), Ok((n, e.len())), "value {}", n);
    }
}

#[test]
fn signed_round_trip_on_representative_values() {
    for n in [0i64, 2, 127, 128, 129, 130, 12857, i64::MAX, -1, -2, -127, -128, -129, i64::MIN] {
        let e = ileb128_encode(n);
        assert_eq!(ileb128_decode(&e), Ok((n, e.len())), "value {}", n);
    }
}

#[test]
fn extreme_values_have_ten_byte_encodings() {
    assert_eq!(
        *uleb128_encode(u64::MAX),
        [0xff, 0xff, 0xff, 0xff, 0xff, 0xff, 0xff, 0xff, 0xff, 0x01]
    );
    assert_eq!(
        *ileb128_encode(i64::MIN),
        [0x80, 0x80, 0x80, 0x80, 0x80, 0x80, 0x80, 0x80, 0x80, 0x7f]
    );
}

#[test]
fn uleb_decodes_small_two_byte_value() {
    assert_eq!(uleb128_decode(&[0xB9, 0x64]), Ok((12857, 2)));
}

#[test]
fn sleb_decodes_negative_two_byte_value() {
    assert_eq!(ileb128_decode(&[0x81, 0x7F]), Ok((-127, 2)));
}

#[test]
fn decoding_stops_at_the_first_final_byte() {
    assert_eq!(uleb128_decode(&[0x05, 0xff, 0x80]), Ok((5, 1)));
    assert_eq!(ileb128_decode(&[0x7f, 0x01]), Ok((-1, 1)));
}

#[test]
fn unterminated_input_is_truncated() {
    assert_eq!(uleb128_decode(&[0x80]), Err(Error::LastByteHasContinueBit));
    assert_eq!(uleb128_decode(&[0xff, 0xff, 0x80]), Err(Error::LastByteHasContinueBit));
    assert_eq!(ileb128_decode(&[0x81, 0xff]), Err(Error::LastByteHasContinueBit));
    assert_eq!(uleb128_decode(&[]), Err(Error::LastByteHasContinueBit));
    assert_eq!(ileb128_decode(&[]), Err(Error::LastByteHasContinueBit));
}

#[test]
fn oversized_values_keep_their_low_64_bits() {
    // 2^64 + 5: eleven groups, the value wraps to 5.
    let mut bytes = vec![0x85u8];
    bytes.extend_from_slice(&[0x80; 8]);
    bytes.push(0x82);
    bytes.push(0x00);
    assert_eq!(uleb128_decode(&bytes), Ok((5, 11)));
    // -1 written with redundant sign-extension groups.
    assert_eq!(ileb128_decode(&[0xff, 0xff, 0xff, 0xff, 0xff, 0xff, 0xff, 0xff, 0xff, 0xff, 0x7f]), Ok((-1, 11)));
}
