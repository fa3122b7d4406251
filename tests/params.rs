use esp32_wroom_rp::protocol::{
    NinaAbstractParam, NinaByteParam, NinaLargeArrayParam, NinaSmallArrayParam, NinaWordParam,
    ProtocolError,
};
use esp32_wroom_rp::Error;

#[test]
fn nina_byte_param_new_returns_payload_too_large_error_when_given_too_many_bytes() {
    let str_slice: &str = "too many bytes";
    let result = NinaByteParam::new(str_slice);

    assert_eq!(result.unwrap_err(), Error::Protocol(ProtocolError::PayloadTooLarge))
}

#[test]
fn nina_byte_param_from_bytes_returns_payload_too_large_error_when_given_too_many_bytes() {
    let bytes: [u8; 2] = [0; 2];
    let result = NinaByteParam::from_bytes(&bytes);

    assert_eq!(result.unwrap_err(), Error::Protocol(ProtocolError::PayloadTooLarge))
}

#[test]
fn nina_word_param_new_returns_payload_too_large_error_when_given_too_many_bytes() {
    let str_slice: &str = "too many bytes";
    let result = NinaWordParam::new(str_slice);

    assert_eq!(result.unwrap_err(), Error::Protocol(ProtocolError::PayloadTooLarge))
}

#[test]
fn nina_word_param_from_bytes_returns_payload_too_large_error_when_given_too_many_bytes() {
    let bytes: [u8; 3] = [0; 3];
    let result = NinaWordParam::from_bytes(&bytes);

    assert_eq!(result.unwrap_err(), Error::Protocol(ProtocolError::PayloadTooLarge))
}

#[test]
fn nina_small_array_param_new_returns_payload_too_large_error_when_given_too_many_bytes() {
    let bytes = [0xA; 256];
    let str_slice: &str = std::str::from_utf8(&bytes).unwrap();
    let result = NinaSmallArrayParam::new(str_slice);

    assert_eq!(result.unwrap_err(), Error::Protocol(ProtocolError::PayloadTooLarge))
}

#[test]
fn nina_small_array_param_from_bytes_returns_payload_too_large_error_when_given_too_many_bytes() {
    let bytes: [u8; 256] = [0xA; 256];
    let result = NinaSmallArrayParam::from_bytes(&bytes);

    assert_eq!(result.unwrap_err(), Error::Protocol(ProtocolError::PayloadTooLarge))
}

#[test]
fn nina_large_array_param_new_returns_payload_too_large_error_when_given_too_many_bytes() {
    let bytes = [0xA; 1025];
    let str_slice: &str = std::str::from_utf8(&bytes).unwrap();
    let result = NinaLargeArrayParam::new(str_slice);

    assert_eq!(result.unwrap_err(), Error::Protocol(ProtocolError::PayloadTooLarge))
}

#[test]
fn nina_large_array_param_from_bytes_returns_payload_too_large_error_when_given_too_many_bytes() {
    let bytes: [u8; 1025] = [0xA; 1025];
    let result = NinaLargeArrayParam::from_bytes(&bytes);

    assert_eq!(result.unwrap_err(), Error::Protocol(ProtocolError::PayloadTooLarge))
}

#[test]
fn params_at_capacity_round_trip() {
    let one = [0x5u8; 1];
    let two = [0x6u8; 2];
    let small = [0x7u8; 255];
    let large = [0x8u8; 1024];

    let p = NinaByteParam::from_bytes(&one).unwrap();
    assert_eq!(p.data(), &one[..]);
    assert_eq!(p.length(), 1);
    let p = NinaWordParam::from_bytes(&two).unwrap();
    assert_eq!(p.data(), &two[..]);
    assert_eq!(p.length(), 2);
    let p = NinaSmallArrayParam::from_bytes(&small).unwrap();
    assert_eq!(p.data(), &small[..]);
    assert_eq!(p.length_as_bytes(), [255]);
    let p = NinaLargeArrayParam::from_bytes(&large).unwrap();
    assert_eq!(p.data(), &large[..]);
    assert_eq!(p.length_as_bytes(), [0x04, 0x00]);
}

#[test]
fn params_from_text_at_capacity_round_trip() {
    let text = "x".repeat(255);
    let p = NinaSmallArrayParam::new(&text).unwrap();
    assert_eq!(p.data(), text.as_bytes());
    let p = NinaWordParam::new("ab").unwrap();
    assert_eq!(p.data(), b"ab");
    let p = NinaByteParam::new("").unwrap();
    assert_eq!(p.data(), b"");
    let text = "y".repeat(1024);
    let p = NinaLargeArrayParam::new(&text).unwrap();
    assert_eq!(p.data(), text.as_bytes());
}

#[test]
fn large_array_length_is_big_endian() {
    let bytes = [0u8; 300];
    let p = NinaLargeArrayParam::from_bytes(&bytes).unwrap();

    assert_eq!(p.length_as_bytes(), [0x01, 0x2C]);
    let abstract_param = NinaAbstractParam::from(p);
    assert_eq!(abstract_param.length_size(), 2);
    assert_eq!(abstract_param.length_as_bytes(), [0x01, 0x2C]);
    assert_eq!(abstract_param.length(), 300);
}

#[test]
fn one_byte_length_params_have_length_size_one() {
    let p = NinaAbstractParam::from(NinaSmallArrayParam::from_bytes(&[1, 2, 3]).unwrap());
    assert_eq!(p.length_size(), 1);
    assert_eq!(p.length_as_bytes()[0], 3);
    assert_eq!(p.data(), &[1, 2, 3]);
    let p = NinaAbstractParam::from(NinaWordParam::default());
    assert_eq!(p.length(), 0);
}
