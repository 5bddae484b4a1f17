use unpack::ArrayString;
use unpack::ArrayVec;
use unpack::BigEndian;
use unpack::FromHex;
use unpack::HexError;
use unpack::LittleEndian;
use unpack::Unpack;
use unpack::UnpackError;
use unpack::UnpackLength;

#[test]
fn it_works_be() -> Result<(), UnpackError> {
    let data: [u8; 4] = [0x12, 0x34, 0x56, 0x78];

    let buf = &mut &data[..];
    let result: BigEndian<u8> = Unpack::unpack(buf)?;
    assert_eq!(result.value(), 0x12);
    assert_eq!(buf, &[0x34, 0x56, 0x78]);

    let buf = &mut &data[..];
    let result: BigEndian<u16> = Unpack::unpack(buf)?;
    assert_eq!(result.value(), 0x1234);
    assert_eq!(buf, &[0x56, 0x78]);

    let buf = &mut &data[..];
    let result: BigEndian<u32> = Unpack::unpack(buf)?;
    assert_eq!(result.value(), 0x12345678);
    assert_eq!(buf, &[]);

    Ok(())
}

#[test]
fn it_fails_be() {
    let data: [u8; 1] = [0x12];
    let buf = &mut &data[..];
    let result: Result<BigEndian<u16>, UnpackError> = Unpack::unpack(buf);

    assert_eq!(
        result.unwrap_err(),
        UnpackError::NotEnoughBytes {
            expected: 2,
            found: 1
        }
    );
}

#[test]
fn it_works_le() -> Result<(), UnpackError> {
    let data: [u8; 3] = [0x12, 0x34, 0x56];
    let buf = &mut &data[..];
    let result: LittleEndian<u16> = Unpack::unpack(buf)?;

    assert_eq!(result.value(), 0x3412);
    assert_eq!(buf, &[0x56]);
    Ok(())
}

#[test]
fn it_fails_le() {
    let data: [u8; 1] = [0x12];
    let buf = &mut &data[..];
    let result: Result<LittleEndian<u16>, UnpackError> = Unpack::unpack(buf);

    assert_eq!(
        result.unwrap_err(),
        UnpackError::NotEnoughBytes {
            expected: 2,
            found: 1
        }
    );
}

#[test]
fn test_unpack_slice() -> Result<(), UnpackError> {
    let data = [0x12, 0x34, 0x56, 0x78];
    let buf = &mut &data[..];
    let result: &[u8] = UnpackLength::unpack(buf, 3)?;

    assert_eq!(result, &[0x12, 0x34, 0x56]);
    assert_eq!(buf, &[0x78]);

    Ok(())
}

#[test]
fn test_unpack_byte_array() -> Result<(), UnpackError> {
    let data = [0x12, 0x34, 0x56, 0x78];
    let buf = &mut &data[..];
    let result: [u8; 3] = Unpack::unpack(buf)?;

    assert_eq!(result, [0x12, 0x34, 0x56]);
    assert_eq!(buf, &[0x78]);

    Ok(())
}

#[test]
fn test_wide_integers() -> Result<(), UnpackError> {
    let data: [u8; 16] = [
        0x01, 0x02, 0x03, 0x04, 0x05, 0x06, 0x07, 0x08, 0x09, 0x0a, 0x0b, 0x0c, 0x0d, 0x0e, 0x0f,
        0x10,
    ];

    let buf = &mut &data[..];
    let result: BigEndian<u64> = Unpack::unpack(buf)?;
    assert_eq!(result.value(), 0x0102030405060708);
    assert_eq!(buf.len(), 8);

    let buf = &mut &data[..];
    let result: BigEndian<u128> = Unpack::unpack(buf)?;
    assert_eq!(result.value(), 0x0102030405060708090a0b0c0d0e0f10);
    assert_eq!(buf, &[]);

    let buf = &mut &data[..];
    let result: LittleEndian<u32> = Unpack::unpack(buf)?;
    assert_eq!(result.value(), 0x04030201);

    let buf = &mut &data[..];
    let result: LittleEndian<u64> = Unpack::unpack(buf)?;
    assert_eq!(result.value(), 0x0807060504030201);

    Ok(())
}

#[test]
fn test_peek_idempotent() -> Result<(), UnpackError> {
    let data = [0x12, 0x34, 0x56];

    let first: BigEndian<u16> = Unpack::peek(&data[..])?;
    let second: BigEndian<u16> = Unpack::peek(&data[..])?;
    assert_eq!(first.value(), 0x1234);
    assert_eq!(second.value(), 0x1234);

    let buf = &mut &data[..];
    let decoded: BigEndian<u16> = Unpack::unpack(buf)?;
    assert_eq!(decoded.value(), 0x1234);
    assert_eq!(buf, &[0x56]);

    Ok(())
}

#[test]
fn test_peek_with_length() -> Result<(), UnpackError> {
    let data = [0x12, 0x34, 0x56, 0x78];

    let first: &[u8] = UnpackLength::peek(&data[..], 2)?;
    let second: &[u8] = UnpackLength::peek(&data[..], 2)?;
    assert_eq!(first, &[0x12, 0x34]);
    assert_eq!(second, &[0x12, 0x34]);

    Ok(())
}

#[test]
fn test_unpack_vec_u8() -> Result<(), UnpackError> {
    let data = [0x12, 0x34, 0x56, 0x78];
    let buf = &mut &data[..];
    let result: Vec<u8> = UnpackLength::unpack(buf, 2)?;

    assert_eq!(result, vec![0x12, 0x34]);
    assert_eq!(buf, &[0x56, 0x78]);

    Ok(())
}

#[test]
fn test_unpack_str_and_string() -> Result<(), UnpackError> {
    let data = *b"hello!";

    let buf = &mut &data[..];
    let result: &str = UnpackLength::unpack(buf, 5)?;
    assert_eq!(result, "hello");
    assert_eq!(buf, b"!");

    let buf = &mut &data[..];
    let result: String = UnpackLength::unpack(buf, 5)?;
    assert_eq!(result, "hello");
    assert_eq!(buf, b"!");

    Ok(())
}

#[test]
fn test_text_encoding_invalid() {
    let data: [u8; 3] = [0xff, 0xfe, 0x41];

    let buf = &mut &data[..];
    let result: Result<&str, UnpackError> = UnpackLength::unpack(buf, 2);
    assert_eq!(result.unwrap_err(), UnpackError::Utf8Error);

    let buf = &mut &data[..];
    let result: Result<&[u8], UnpackError> = UnpackLength::unpack(buf, 2);
    assert_eq!(result.unwrap(), &[0xff, 0xfe]);
}

#[test]
fn test_unpack_element_sequence() -> Result<(), UnpackError> {
    let data = [0x12, 0x34, 0x56, 0x78, 0x9a];
    let buf = &mut &data[..];
    let result: Vec<BigEndian<u16>> = UnpackLength::unpack(buf, 2)?;

    assert_eq!(result.len(), 2);
    assert_eq!(result[0].value(), 0x1234);
    assert_eq!(result[1].value(), 0x5678);
    assert_eq!(buf, &[0x9a]);

    Ok(())
}

#[test]
fn test_element_sequence_propagates_error() {
    let data = [0x12, 0x34, 0x56];
    let buf = &mut &data[..];
    let result: Result<Vec<BigEndian<u16>>, UnpackError> = UnpackLength::unpack(buf, 2);

    assert_eq!(
        result.unwrap_err(),
        UnpackError::NotEnoughBytes {
            expected: 2,
            found: 1
        }
    );
}

#[test]
fn test_unpack_generic_array() -> Result<(), UnpackError> {
    let data = [0x12, 0x34, 0x56, 0x78];
    let buf = &mut &data[..];
    let result: [BigEndian<u16>; 2] = Unpack::unpack(buf)?;

    assert_eq!(result[0].value(), 0x1234);
    assert_eq!(result[1].value(), 0x5678);
    assert_eq!(buf, &[]);

    Ok(())
}

#[test]
fn test_capacity_exceeded_then_smaller() -> Result<(), UnpackError> {
    let data = [0x12, 0x34, 0x56, 0x78];
    let buf = &mut &data[..];

    let result: Result<ArrayVec<u8, 4>, UnpackError> = UnpackLength::unpack(buf, 5);
    assert_eq!(
        result.unwrap_err(),
        UnpackError::TooManyBytes {
            expected: 4,
            found: 5
        }
    );
    assert_eq!(buf, &[0x12, 0x34, 0x56, 0x78]);

    let result: ArrayVec<u8, 4> = UnpackLength::unpack(buf, 3)?;
    assert_eq!(result.as_slice(), &[0x12, 0x34, 0x56]);
    assert_eq!(result.len(), 3);
    assert_eq!(result.capacity(), 4);
    assert_eq!(buf, &[0x78]);

    Ok(())
}

#[test]
fn test_arrayvec_self_describing() -> Result<(), UnpackError> {
    let data = [0x12, 0x34, 0x56, 0x78];
    let buf = &mut &data[..];
    let result: ArrayVec<u8, 3> = Unpack::unpack(buf)?;

    assert_eq!(result.as_slice(), &[0x12, 0x34, 0x56]);
    assert_eq!(buf, &[0x78]);

    Ok(())
}

#[test]
fn test_arrayvec_of_elements() -> Result<(), UnpackError> {
    let data = [0x12, 0x34, 0x56, 0x78];
    let buf = &mut &data[..];
    let result: ArrayVec<BigEndian<u16>, 2> = Unpack::unpack(buf)?;

    assert_eq!(result.len(), 2);
    assert_eq!(result.as_slice()[0].value(), 0x1234);
    assert_eq!(result.as_slice()[1].value(), 0x5678);
    assert_eq!(buf, &[]);

    Ok(())
}

#[test]
fn test_arraystring_length_qualified() -> Result<(), UnpackError> {
    let data = *b"abcd";
    let buf = &mut &data[..];
    let result: ArrayString<4> = UnpackLength::unpack(buf, 3)?;

    assert_eq!(result.as_str(), "abc");
    assert_eq!(result.len(), 3);
    assert_eq!(result.capacity(), 4);
    assert_eq!(buf, b"d");

    Ok(())
}

#[test]
fn test_arraystring_capacity_exceeded() {
    let data = *b"abcdef";
    let buf = &mut &data[..];
    let result: Result<ArrayString<4>, UnpackError> = UnpackLength::unpack(buf, 5);

    assert_eq!(
        result.unwrap_err(),
        UnpackError::TooManyBytes {
            expected: 4,
            found: 5
        }
    );
    assert_eq!(buf, b"abcdef");
}

#[test]
fn test_arraystring_self_describing() -> Result<(), UnpackError> {
    let data = *b"abcd";
    let buf = &mut &data[..];
    let result: ArrayString<3> = Unpack::unpack(buf)?;

    assert_eq!(result.as_str(), "abc");
    assert_eq!(buf, b"d");

    Ok(())
}

#[test]
fn test_arraystring_invalid_utf8() {
    let data: [u8; 3] = [0x61, 0xff, 0x62];
    let buf = &mut &data[..];
    let result: Result<ArrayString<4>, UnpackError> = UnpackLength::unpack(buf, 3);

    assert_eq!(result.unwrap_err(), UnpackError::Utf8Error);
}

#[test]
fn test_hex_round_trip() -> Result<(), UnpackError> {
    let result: BigEndian<u32> = FromHex::from_hex(b"12345678")?;
    assert_eq!(result.value(), 0x12345678);

    Ok(())
}

#[test]
fn test_hex_odd_length() {
    let result: Result<BigEndian<u32>, UnpackError> = FromHex::from_hex(b"1234567");
    assert_eq!(
        result.unwrap_err(),
        UnpackError::DecodeHex(HexError::OddLength)
    );
}

#[test]
fn test_hex_invalid_character() {
    let result: Result<BigEndian<u16>, UnpackError> = FromHex::from_hex(b"12g4");
    assert_eq!(
        result.unwrap_err(),
        UnpackError::DecodeHex(HexError::InvalidHexCharacter { c: 'g', index: 2 })
    );
}

#[test]
fn test_hex_mixed_case() -> Result<(), UnpackError> {
    let result: ArrayVec<u8, 4> = FromHex::from_hex(b"aAbBcCdD")?;
    assert_eq!(result.as_slice(), &[0xaa, 0xbb, 0xcc, 0xdd]);

    Ok(())
}

#[test]
fn test_hex_too_short_for_value() {
    let result: Result<BigEndian<u32>, UnpackError> = FromHex::from_hex(b"1234");
    assert_eq!(
        result.unwrap_err(),
        UnpackError::NotEnoughBytes {
            expected: 4,
            found: 2
        }
    );
}

#[test]
fn test_unpack_bytes_fn() -> Result<(), UnpackError> {
    let data = [0x12, 0x34, 0x56];
    let buf = &mut &data[..];
    let head = unpack::unpack_bytes(buf, 2)?;

    assert_eq!(head, &[0x12, 0x34]);
    assert_eq!(buf, &[0x56]);

    Ok(())
}

#[test]
fn test_unpack_str_fn() -> Result<(), UnpackError> {
    let data = *b"hey?";
    let buf = &mut &data[..];
    let head = unpack::unpack_str(buf, 3)?;

    assert_eq!(head, "hey");
    assert_eq!(buf, b"?");

    Ok(())
}

#[test]
fn test_arraystring_unpack_with_len() -> Result<(), UnpackError> {
    let data = *b"abcd";
    let buf = &mut &data[..];
    let result = unpack::ArrayString::<4>::unpack_with_len(buf, 3)?;

    assert_eq!(result.as_str(), "abc");
    assert_eq!(result.len(), 3);
    assert_eq!(buf, b"d");

    Ok(())
}

#[test]
fn test_arraystring_unpack_exact() -> Result<(), UnpackError> {
    let data = *b"abcd";
    let buf = &mut &data[..];
    let result = unpack::ArrayString::<3>::unpack_exact(buf)?;

    assert_eq!(result.as_str(), "abc");
    assert_eq!(result.len(), 3);
    assert_eq!(buf, b"d");

    Ok(())
}

#[test]
fn test_signed_integers() -> Result<(), UnpackError> {
    let data: [u8; 4] = [0xff, 0xfe, 0x00, 0x01];

    let buf = &mut &data[..];
    let result: BigEndian<i8> = Unpack::unpack(buf)?;
    assert_eq!(result.value(), -1);

    let buf = &mut &data[..];
    let result: BigEndian<i16> = Unpack::unpack(buf)?;
    assert_eq!(result.value(), -2);
    assert_eq!(buf, &[0x00, 0x01]);

    let buf = &mut &data[..];
    let result: BigEndian<i32> = Unpack::unpack(buf)?;
    assert_eq!(result.value(), -0x0001_ffff);

    let buf = &mut &data[..];
    let result: LittleEndian<i16> = Unpack::unpack(buf)?;
    assert_eq!(result.value(), -257);

    let buf = &mut &data[..];
    let result: LittleEndian<i32> = Unpack::unpack(buf)?;
    assert_eq!(result.value(), 0x0100feff);

    let data: [u8; 8] = [0x80, 0, 0, 0, 0, 0, 0, 0];
    let buf = &mut &data[..];
    let result: BigEndian<i64> = Unpack::unpack(buf)?;
    assert_eq!(result.value(), i64::MIN);

    let data: [u8; 16] = [0xff; 16];
    let buf = &mut &data[..];
    let result: BigEndian<i128> = Unpack::unpack(buf)?;
    assert_eq!(result.value(), -1);

    let buf = &mut &data[..];
    let result: LittleEndian<i128> = Unpack::unpack(buf)?;
    assert_eq!(result.value(), -1);

    Ok(())
}

#[test]
fn test_signed_insufficient() {
    let data: [u8; 1] = [0x12];
    let buf = &mut &data[..];
    let result: Result<BigEndian<i16>, UnpackError> = Unpack::unpack(buf);

    assert_eq!(
        result.unwrap_err(),
        UnpackError::NotEnoughBytes {
            expected: 2,
            found: 1
        }
    );
}
