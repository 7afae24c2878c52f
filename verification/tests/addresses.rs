use autonomi_webrtc::address::{
    address_of, content_address, hex, hex_digit, parse_address, parse_hex_address,
};
use autonomi_webrtc::text::decimal;

#[test]
fn parses_hex_addresses() {
    let address = [0xabu8; 32];
    assert_eq!(parse_hex_address(&hex(&address)).unwrap(), address.to_vec());
    assert!(parse_hex_address("abcd").is_err());
    assert!(parse_hex_address(&"zz".repeat(32)).is_err());
}

#[test]
fn hex_is_lower_case_and_two_digits_a_byte() {
    assert_eq!(hex(&[]), "");
    assert_eq!(hex(&[0x00, 0x0f, 0xf0, 0xab, 0xff]), "000ff0abff");
}

#[test]
fn either_case_parses_and_comes_back_lower() {
    let text = "00FFab".to_string() + &"Ce".repeat(29);
    let bytes = parse_hex_address(&text).unwrap();
    assert_eq!(&bytes[..3], &[0x00, 0xff, 0xab]);
    assert_eq!(hex(&bytes), text.to_lowercase());
}

#[test]
fn white_space_around_an_address_is_ignored() {
    let inner = "12".repeat(32);
    let padded = format!(" \t\r\n\u{a0}\u{3000}{inner}\u{2029}\u{1680} \n");
    assert_eq!(parse_hex_address(&padded).unwrap(), vec![0x12; 32]);
    assert_eq!(
        parse_hex_address(" \n\t ").unwrap_err().message(),
        "expected 64 hex characters, got 0"
    );
    // A zero-width space is not white space.
    assert!(parse_hex_address(&format!("\u{200b}{inner}")).is_err());
}

#[test]
fn a_wrong_length_is_counted_in_bytes() {
    assert_eq!(
        parse_hex_address("abcd").unwrap_err().message(),
        "expected 64 hex characters, got 4"
    );
    assert_eq!(
        parse_hex_address(&"é".repeat(64)).unwrap_err().message(),
        "expected 64 hex characters, got 128"
    );
    assert_eq!(
        parse_hex_address(&"a".repeat(1007)).unwrap_err().message(),
        "expected 64 hex characters, got 1007"
    );
}

#[test]
fn a_character_that_is_no_digit_is_named() {
    for text in ["zz".repeat(32), "é".repeat(32), "0x".to_string() + &"00".repeat(31)] {
        assert_eq!(
            parse_hex_address(&text).unwrap_err().message(),
            "address contains a non-hex character"
        );
    }
}

#[test]
fn digits_have_their_values() {
    for (i, digit) in b"0123456789abcdef".iter().enumerate() {
        assert_eq!(hex_digit(*digit).unwrap() as usize, i);
        assert_eq!(hex_digit(digit.to_ascii_uppercase()).unwrap() as usize, i);
    }
    for byte in [b'/', b':', b'@', b'G', b'`', b'g', 0, 255] {
        assert_eq!(
            hex_digit(byte).unwrap_err().message(),
            "address contains a non-hex character"
        );
    }
}

#[test]
fn numbers_are_written_in_decimal() {
    for n in [0usize, 7, 9, 10, 99, 100, 4096, 65535, usize::MAX] {
        assert_eq!(decimal(n), format!("{n}"));
    }
}

#[test]
fn an_address_is_thirty_two_bytes() {
    let bytes: Vec<u8> = (0..32).collect();
    assert_eq!(parse_address(&bytes).unwrap().to_vec(), bytes);
    assert_eq!(parse_address(&bytes[..31]).unwrap_err().message(), "address must be 32 bytes");
    assert_eq!(parse_address(&[0; 33]).unwrap_err().message(), "address must be 32 bytes");
}

#[test]
fn content_addresses_are_blake3() {
    let empty = "af1349b9f5f9a1a6a0404dea36dcc9499bcb25c9adc112b7cc9a93cae41f3262";
    assert_eq!(hex(&content_address(&[])), empty);
    assert_eq!(hex(&address_of(&[])), empty);
    let bytes = b"some content";
    assert_eq!(content_address(bytes), address_of(bytes).to_vec());
    assert_eq!(content_address(bytes), blake3::hash(bytes).as_bytes().to_vec());
}
