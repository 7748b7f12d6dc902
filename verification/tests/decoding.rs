use rand::{thread_rng, Rng};

use base64::{
    Config, FromBase64, FromBase64Error, InvalidBase64Byte, InvalidBase64Length, Newline,
    ToBase64, MIME, STANDARD, URL_SAFE,
};

#[test]
fn test_from_base64_basic() {
    assert_eq!("".from_base64().unwrap(), b"");
    assert_eq!("Zg==".from_base64().unwrap(), b"f");
    assert_eq!("Zm8=".from_base64().unwrap(), b"fo");
    assert_eq!("Zm9v".from_base64().unwrap(), b"foo");
    assert_eq!("Zm9vYg==".from_base64().unwrap(), b"foob");
    assert_eq!("Zm9vYmE=".from_base64().unwrap(), b"fooba");
    assert_eq!("Zm9vYmFy".from_base64().unwrap(), b"foobar");
}

#[test]
fn test_from_base64_bytes() {
    assert_eq!(b"Zm9vYmFy".from_base64().unwrap(), b"foobar");
}

#[test]
fn test_from_base64_newlines() {
    assert_eq!("Zm9v\r\nYmFy".from_base64().unwrap(), b"foobar");
    assert_eq!("Zm9vYg==\r\n".from_base64().unwrap(), b"foob");
    assert_eq!("Zm9v\nYmFy".from_base64().unwrap(), b"foobar");
    assert_eq!("Zm9vYg==\n".from_base64().unwrap(), b"foob");
}

#[test]
fn test_from_base64_urlsafe() {
    assert_eq!("-_8".from_base64().unwrap(), "+/8=".from_base64().unwrap());
}

#[test]
fn test_from_base64_invalid_char() {
    assert!("Zm$=".from_base64().is_err());
    assert!("Zg==$".from_base64().is_err());
}

#[test]
fn test_from_base64_invalid_padding() {
    assert!("Z===".from_base64().is_err());
}

#[test]
fn test_base64_random() {
    for _ in 0..1000 {
        let times = thread_rng().gen_range(1, 100);
        let v = thread_rng().gen_iter::<u8>().take(times).collect::<Vec<_>>();
        assert_eq!(v.to_base64(STANDARD()).from_base64().unwrap(), v);
    }
}

#[test]
fn round_trip_on_generated_bytes() {
    let mut state: u64 = 0x2545_f491_4f6c_dd1d;
    let mut next = move || {
        state ^= state << 13;
        state ^= state >> 7;
        state ^= state << 17;
        state
    };
    for _ in 0..1000 {
        let times = 1 + (next() % 99) as usize;
        let v: Vec<u8> = (0..times).map(|_| (next() >> 24) as u8).collect();
        assert_eq!(v.to_base64(STANDARD()).from_base64().unwrap(), v);
        assert_eq!(v.to_base64(MIME()).from_base64().unwrap(), v);
        assert_eq!(v.to_base64(URL_SAFE()).from_base64().unwrap(), v);
    }
}

#[test]
fn invalid_byte_carries_value_and_position() {
    assert_eq!("Zm$=".from_base64(), Err(InvalidBase64Byte(b'$', 2)));
    assert_eq!("Zg==$".from_base64(), Err(InvalidBase64Byte(b'$', 4)));
    assert_eq!("Zm9v\r\n Ym".from_base64(), Err(InvalidBase64Byte(b' ', 6)));
    // The first offending byte is the one reported.
    assert_eq!("Z!m#".from_base64(), Err(InvalidBase64Byte(b'!', 1)));
    // Data after the padding has begun is invalid.
    assert_eq!("Zg==Zg==".from_base64(), Err(InvalidBase64Byte(b'Z', 4)));
    assert_eq!([0x80u8].from_base64(), Err(InvalidBase64Byte(0x80, 0)));
}

#[test]
fn invalid_length_is_one_leftover_value() {
    assert_eq!("Z===".from_base64(), Err(InvalidBase64Length));
    assert_eq!("Z".from_base64(), Err(InvalidBase64Length));
    assert_eq!("Zm9vY".from_base64(), Err(InvalidBase64Length));
    assert_eq!("Zm9v\nY\n".from_base64(), Err(InvalidBase64Length));
}

#[test]
fn invalid_byte_wins_over_invalid_length() {
    assert_eq!("Z=*".from_base64(), Err(InvalidBase64Byte(b'*', 2)));
}

#[test]
fn padding_is_optional_on_decode() {
    assert_eq!("Zg".from_base64().unwrap(), b"f");
    assert_eq!("Zm8".from_base64().unwrap(), b"fo");
    assert_eq!("Zg=".from_base64().unwrap(), b"f");
    assert_eq!("Zm9v====".from_base64().unwrap(), b"foo");
    assert_eq!("=".from_base64().unwrap(), b"");
    assert_eq!("\r\n".from_base64().unwrap(), b"");
}

#[test]
fn decode_exact_bytes() {
    assert_eq!("+/8=".from_base64().unwrap(), vec![251u8, 255]);
    assert_eq!("-_8".from_base64().unwrap(), vec![251u8, 255]);
    assert_eq!("AAEC".from_base64().unwrap(), vec![0u8, 1, 2]);
    assert_eq!("////".from_base64().unwrap(), vec![255u8, 255, 255]);
    assert_eq!("_-_-".from_base64().unwrap(), "/+/+".from_base64().unwrap());
}

#[test]
fn decode_tolerates_line_breaks_anywhere() {
    assert_eq!("Zm9v\r\nYmFy".from_base64(), "Zm9vYmFy".from_base64());
    assert_eq!("Z\nm\r9\n\nv".from_base64().unwrap(), b"foo");
}

#[test]
fn round_trip_under_every_kind_of_config() {
    let data: Vec<u8> = (0..=255u8).chain(0..=200u8).collect();
    let newlines = [Newline::LF, Newline::CRLF];
    let lengths = [None, Some(1), Some(3), Some(4), Some(5), Some(76), Some(1000)];
    for take in [0usize, 1, 2, 3, 4, 5, 6, 56, 57, 58, 59, 255, 256, 457] {
        let v = &data[..take];
        for base in [STANDARD(), URL_SAFE(), MIME()] {
            for pad in [false, true] {
                for newline in newlines {
                    for line_length in lengths {
                        let cfg = Config { char_set: base.char_set, newline, pad, line_length };
                        let text = v.to_base64(cfg);
                        assert_eq!(text.from_base64().unwrap(), v);
                        assert_eq!(text.as_bytes().from_base64().unwrap(), v);
                    }
                }
            }
        }
    }
}

#[test]
fn error_values_compare_and_copy() {
    let e: FromBase64Error = InvalidBase64Byte(36, 2);
    let f = e;
    assert_eq!(e, f);
    assert_ne!(e, InvalidBase64Length);
}

#[test]
fn error_text_names_byte_and_position() {
    assert_eq!(InvalidBase64Byte(36, 2).to_string(), "Invalid character '36' at position 2");
    assert_eq!(InvalidBase64Byte(0, 0).to_string(), "Invalid character '0' at position 0");
    assert_eq!(
        InvalidBase64Byte(255, 1234567).to_string(),
        "Invalid character '255' at position 1234567"
    );
    assert_eq!(InvalidBase64Length.to_string(), "Invalid length");
    assert_eq!("Zm$=".from_base64().unwrap_err().to_string(), "Invalid character '36' at position 2");
}

#[test]
fn error_description_names_the_kind() {
    assert_eq!(InvalidBase64Byte(36, 2).description(), "invalid character");
    assert_eq!(InvalidBase64Length.description(), "invalid length");
}

#[test]
fn mixed_alphabets_decode_alike() {
    assert_eq!("+_8=".from_base64().unwrap(), vec![251u8, 255]);
    assert_eq!("-/8".from_base64(), "+/8=".from_base64());
    let v: Vec<u8> = (0..=255u8).rev().collect();
    assert_eq!(
        v.to_base64(URL_SAFE()).from_base64(),
        v.to_base64(MIME()).from_base64()
    );
}
