use std::any::{Any, TypeId};

use transmitic_core::base64::{decode, encode, InvalidBase64String, TABLE, TABLE_REVERSE};


fn is_invalid_base64_string_error<T: ?Sized + Any>(_s: &T) -> bool {
    TypeId::of::<InvalidBase64String>() == TypeId::of::<T>()
}

#[test]
fn test_1_char() {
    let input = "f".as_bytes();

    let encode_result = encode(input);
    assert_eq!(encode_result, "Zg==");

    let decode_result = decode(&encode_result).unwrap();
    assert_eq!(decode_result, input);
}

#[test]
fn test_2_chars() {
    let input = "fo".as_bytes();

    let encode_result = encode(input);
    assert_eq!(encode_result, "Zm8=");

    let decode_result = decode(&encode_result).unwrap();
    assert_eq!(decode_result, input);
}

#[test]
fn test_3_chars() {
    let input = "foo".as_bytes();

    let encode_result = encode(input);
    assert_eq!(encode_result, "Zm9v");

    let decode_result = decode(&encode_result).unwrap();
    assert_eq!(decode_result, input);
}

#[test]
fn test_4_chars() {
    let input = "foob".as_bytes();

    let encode_result = encode(input);
    assert_eq!(encode_result, "Zm9vYg==");

    let decode_result = decode(&encode_result).unwrap();
    assert_eq!(decode_result, input);
}

#[test]
fn test_5_chars() {
    let input = "fooba".as_bytes();

    let encode_result = encode(input);
    assert_eq!(encode_result, "Zm9vYmE=");

    let decode_result = decode(&encode_result).unwrap();
    assert_eq!(decode_result, input);
}

#[test]
fn test_6_chars() {
    let input = "foobar".as_bytes();

    let encode_result = encode(input);
    assert_eq!(encode_result, "Zm9vYmFy");

    let decode_result = decode(&encode_result).unwrap();
    assert_eq!(decode_result, input);
}

#[test]
fn test_rust() {
    let input = "rust".as_bytes();

    let encode_result = encode(input);
    assert_eq!(encode_result, "cnVzdA==");

    let decode_result = decode(&encode_result).unwrap();
    assert_eq!(decode_result, input);
}

#[test]
fn test_1_char_is_padding() {
    let input = "=".as_bytes();

    let encode_result = encode(input);
    assert_eq!(encode_result, "PQ==");

    let decode_result = decode(&encode_result).unwrap();
    assert_eq!(decode_result, input);
}

#[test]
fn test_2_chars_is_padding() {
    let input = "==".as_bytes();

    let encode_result = encode(input);
    assert_eq!(encode_result, "PT0=");

    let decode_result = decode(&encode_result).unwrap();
    assert_eq!(decode_result, input);
}

#[test]
fn test_empty_string() {
    let input = "".as_bytes();

    let encode_result = encode(input);
    assert_eq!(encode_result, "");

    let decode_result = decode(&encode_result).unwrap();
    assert_eq!(decode_result, input);
}

#[test]
fn test_zero_byte() {
    let input = &0b0u8.to_be_bytes();

    let encode_result = encode(input);
    assert_eq!(encode_result, "AA==");

    let decode_result = decode(&encode_result).unwrap();
    assert_eq!(decode_result, input);
}

#[test]
fn test_long_string() {
    let input =
        "APokjfophrvuwh832749832Bblapfr][';;.vfheuUIOH]=32904-iJOHJDFOhgnfjgiuh82347^%^&s"
            .as_bytes();

    let encode_result = encode(input);
    assert_eq!(encode_result, "QVBva2pmb3BocnZ1d2g4MzI3NDk4MzJCYmxhcGZyXVsnOzsudmZoZXVVSU9IXT0zMjkwNC1pSk9ISkRGT2hnbmZqZ2l1aDgyMzQ3XiVeJnM=");

    let decode_result = decode(&encode_result).unwrap();
    assert_eq!(decode_result, input)
}

#[test]
fn test_decode_missing_2_padding() {
    let input = "a".as_bytes();
    let decode_result = decode("YQ").unwrap();
    assert_eq!(decode_result, input);

    let decode_result_padding = decode("YQ==").unwrap();
    assert_eq!(decode_result, decode_result_padding);
}

#[test]
fn test_decode_missing_1_padding() {
    let input = "ab".as_bytes();
    let decode_result = decode("YWI").unwrap();
    assert_eq!(decode_result, input);

    let decode_result_padding = decode("YWI=").unwrap();
    assert_eq!(decode_result, decode_result_padding);
}

#[test]
fn test_decode_invalid_base64_string_1_char() {
    let decode_result = decode("b").unwrap_err();
    assert!(is_invalid_base64_string_error(&decode_result));
    assert_eq!(decode_result.index, 0);
    assert_eq!(decode_result.invalid_byte, None);
}

#[test]
fn test_decode_invalid_base64_string_long() {
    let decode_result = decode("cnVzdGFj@@@@").unwrap_err();
    assert!(is_invalid_base64_string_error(&decode_result));
    assert_eq!(decode_result.index, 8);
    assert_eq!(decode_result.invalid_byte.unwrap(), b'@');
}

#[test]
fn test_decode_all_base64_chars() {
    let all_chars =
        "1234567890qwertyuiopasdfghjklzxcvbnmQWERTYUIOPASDFGHJKLZXCVBNM+/".to_string();

    let decode_result = decode(&all_chars).unwrap();
    assert_eq!(decode_result, b"\xd7m\xf8\xe7\xae\xfc\xf7J\xb0z\xbbr\xba*)j\xc7_\x82\x18\xe4\x97<\\\xbd\xb9\xe6Aa\x11M\x85\x088\xf0\x12\x0cQ\x87$\xa2\xd9\\%A4\xcf\xbf");

    let encode_result = encode(&decode_result);
    assert_eq!(all_chars, encode_result);
}

#[test]
fn test_decode_padding_in_the_middle_long() {
    let decode_result = decode("SSBhbSBhIHJ1c3RhY2Vhbi=u3c=").unwrap_err();
    assert!(is_invalid_base64_string_error(&decode_result));
    assert_eq!(decode_result.index, 22);
    assert_eq!(decode_result.invalid_byte.unwrap(), b'=');
}

#[test]
fn test_decode_1_padding_char() {
    let decode_result = decode("=").unwrap_err();
    assert!(is_invalid_base64_string_error(&decode_result));
    assert_eq!(decode_result.index, 0);
}

#[test]
fn test_decode_2_padding_chars() {
    let decode_result = decode("==").unwrap_err();
    assert!(is_invalid_base64_string_error(&decode_result));
    assert_eq!(decode_result.index, 0);
}

#[test]
fn test_decode_3_padding_chars() {
    let decode_result = decode("===").unwrap_err();
    assert!(is_invalid_base64_string_error(&decode_result));
    assert_eq!(decode_result.index, 0);
}

#[test]
fn test_decode_1_char_with_2_padding() {
    let decode_result = decode("a==").unwrap_err();
    assert!(is_invalid_base64_string_error(&decode_result));
    assert_eq!(decode_result.index, 0);
}

#[test]
fn test_decode_padding_index_5() {
    let decode_result = decode("Zm9vY===").unwrap_err();
    assert!(is_invalid_base64_string_error(&decode_result));
    assert_eq!(decode_result.index, 5);
}

#[test]
fn test_decode_padding_index_4() {
    let decode_result = decode("Zm9v====").unwrap_err();
    assert!(is_invalid_base64_string_error(&decode_result));
    assert_eq!(decode_result.index, 4);
}

#[test]
fn test_decode_padding_index_3() {
    let decode_result = decode("Zm9=====").unwrap_err();
    assert!(is_invalid_base64_string_error(&decode_result));
    assert_eq!(decode_result.index, 3);
}

#[test]
fn test_decode_padding_index_2() {
    let decode_result = decode("Zm======").unwrap_err();
    assert!(is_invalid_base64_string_error(&decode_result));
    assert_eq!(decode_result.index, 2);
}

#[test]
fn test_decode_padding_index_1() {
    let decode_result = decode("Z=======").unwrap_err();
    assert!(is_invalid_base64_string_error(&decode_result));
    assert_eq!(decode_result.index, 1);
}

#[test]
fn test_decode_padding_index_0() {
    let decode_result = decode("========").unwrap_err();
    assert!(is_invalid_base64_string_error(&decode_result));
    assert_eq!(decode_result.index, 0);
}

#[test]
fn test_table_in_table_rev() {
    for (i, c) in TABLE.into_iter().enumerate() {
        assert_eq!(TABLE_REVERSE[c as usize], i as u8);
    }
}

#[test]
fn it_works() {
    assert_eq!(2 + 2, 4);
}

#[test]
fn encoding_has_four_characters_for_every_three_bytes() {
    for n in 0..40usize {
        let bytes: Vec<u8> = (0..n).map(|i| (i * 37 % 256) as u8).collect();
        let text = encode(&bytes);
        assert_eq!(text.len(), (n + 2) / 3 * 4);
        assert_eq!(decode(&text).unwrap(), bytes);
        assert_eq!(decode(text.trim_end_matches('=')).unwrap(), bytes);
    }
}

#[test]
fn different_bytes_have_different_encodings() {
    assert_ne!(encode(&[1, 2]), encode(&[1, 2, 0]));
    assert_ne!(encode(&[0]), encode(&[1]));
}

#[test]
fn errors_say_what_is_wrong() {
    assert_eq!(
        decode("b").unwrap_err().message(),
        "Base64 string is invalid length. Must be empty or at least 2 characters, that are not only padding characters."
    );
    assert_eq!(
        decode("Zm9vY===").unwrap_err().message(),
        "Base64 string contains padding character that is not at the end of the string. '=' at index '5'"
    );
    assert_eq!(
        decode("cnVzdGFj@@@@").unwrap_err().message(),
        "Base64 string contains character that is not valid base64. '0x40'/'@' at index '8'"
    );
    let error = decode("ab\u{7f}d").unwrap_err();
    assert_eq!(error.invalid_byte, Some(0x7f));
    assert_eq!(error.index, 2);
    let error = decode("ab\u{e9}d").unwrap_err();
    assert_eq!(error.invalid_byte, Some(0xc3));
    assert_eq!(error.index, 2);
}

#[test]
fn padding_ends_the_text() {
    let error = decode("Zm=v").unwrap_err();
    assert_eq!((error.invalid_byte, error.index), (Some(b'='), 2));
    assert_eq!(
        error.message(),
        "Base64 string contains padding character that is not at the end of the string. '=' at index '2'"
    );
    let error = decode("Zm9vZm=v").unwrap_err();
    assert_eq!((error.invalid_byte, error.index), (Some(b'='), 6));
    assert_eq!(decode("Zm=").unwrap(), b"f");
}

#[test]
fn lone_last_character_is_refused() {
    let error = decode("Zm9vY").unwrap_err();
    assert_eq!((error.invalid_byte, error.index), (None, 0));
    let error = decode("Zm9v@").unwrap_err();
    assert_eq!((error.invalid_byte, error.index), (Some(b'@'), 4));
}

#[test]
fn left_over_bits_do_not_count() {
    for text in ["Zg", "Zh", "Zv", "Zg==", "Zh=="] {
        assert_eq!(decode(text).unwrap(), b"f");
    }
    for text in ["Zm8", "Zm9", "Zm8=", "Zm9="] {
        assert_eq!(decode(text).unwrap(), b"fo", "{}", text);
    }
}
