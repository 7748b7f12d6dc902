use base64::encode::encoded_size;
use base64::{Config, Newline, ToBase64, MIME, STANDARD, URL_SAFE};

#[test]
fn test_to_base64_basic() {
    assert_eq!("".as_bytes().to_base64(STANDARD()), "");
    assert_eq!("f".as_bytes().to_base64(STANDARD()), "Zg==");
    assert_eq!("fo".as_bytes().to_base64(STANDARD()), "Zm8=");
    assert_eq!("foo".as_bytes().to_base64(STANDARD()), "Zm9v");
    assert_eq!("foob".as_bytes().to_base64(STANDARD()), "Zm9vYg==");
    assert_eq!("fooba".as_bytes().to_base64(STANDARD()), "Zm9vYmE=");
    assert_eq!("foobar".as_bytes().to_base64(STANDARD()), "Zm9vYmFy");
}

#[test]
fn test_to_base64_crlf_line_break() {
    assert!(![08u8; 1000]
        .to_base64(Config { line_length: None, ..STANDARD() })
        .contains("\r\n"));
    assert_eq!(
        b"foobar".to_base64(Config { line_length: Some(4), ..STANDARD() }),
        "Zm9v\r\nYmFy"
    );
}

#[test]
fn test_to_base64_lf_line_break() {
    assert!(![08u8; 1000]
        .to_base64(Config { line_length: None, newline: Newline::LF, ..STANDARD() })
        .contains("\n"));
    assert_eq!(
        b"foobar".to_base64(Config { line_length: Some(4), newline: Newline::LF, ..STANDARD() }),
        "Zm9v\nYmFy"
    );
}

#[test]
fn test_to_base64_padding() {
    assert_eq!("f".as_bytes().to_base64(Config { pad: false, ..STANDARD() }), "Zg");
    assert_eq!("fo".as_bytes().to_base64(Config { pad: false, ..STANDARD() }), "Zm8");
}

#[test]
fn test_to_base64_url_safe() {
    assert_eq!([251u8, 255].to_base64(URL_SAFE()), "-_8");
    assert_eq!([251u8, 255].to_base64(STANDARD()), "+/8=");
}

#[test]
fn presets_have_their_documented_fields() {
    let s = STANDARD();
    assert!(s.pad && s.line_length.is_none());
    assert_eq!(s.newline, Newline::CRLF);
    assert_eq!(s.char_set, base64::Standard);
    let u = URL_SAFE();
    assert!(!u.pad && u.line_length.is_none());
    assert_eq!(u.newline, Newline::CRLF);
    assert_eq!(u.char_set, base64::UrlSafe);
    let m = MIME();
    assert!(m.pad);
    assert_eq!(m.line_length, Some(76));
    assert_eq!(m.newline, Newline::CRLF);
    assert_eq!(m.char_set, base64::Standard);
}

#[test]
fn empty_input_gives_empty_text_under_every_config() {
    let empty: [u8; 0] = [];
    assert_eq!(empty.to_base64(STANDARD()), "");
    assert_eq!(empty.to_base64(URL_SAFE()), "");
    assert_eq!(empty.to_base64(MIME()), "");
    assert_eq!(empty.to_base64(Config { line_length: Some(1), ..STANDARD() }), "");
    assert_eq!(
        empty.to_base64(Config { line_length: Some(4), pad: false, newline: Newline::LF, ..URL_SAFE() }),
        ""
    );
}

#[test]
fn every_value_maps_to_its_alphabet_character() {
    // 0x00..0x3f as consecutive 6-bit groups.
    let mut bytes: Vec<u8> = Vec::new();
    let mut v: u32 = 0;
    while v < 64 {
        let n = (v << 18) | ((v + 1) << 12) | ((v + 2) << 6) | (v + 3);
        bytes.push((n >> 16) as u8);
        bytes.push((n >> 8) as u8);
        bytes.push(n as u8);
        v += 4;
    }
    assert_eq!(
        bytes.to_base64(STANDARD()),
        "ABCDEFGHIJKLMNOPQRSTUVWXYZabcdefghijklmnopqrstuvwxyz0123456789+/"
    );
    assert_eq!(
        bytes.to_base64(URL_SAFE()),
        "ABCDEFGHIJKLMNOPQRSTUVWXYZabcdefghijklmnopqrstuvwxyz0123456789-_"
    );
}

#[test]
fn wrap_lands_on_padding_boundary() {
    // Four data characters fill the line; the padded tail goes to the next.
    assert_eq!(
        b"foob".to_base64(Config { line_length: Some(4), ..STANDARD() }),
        "Zm9v\r\nYg=="
    );
    assert_eq!(
        b"fooba".to_base64(Config { line_length: Some(4), newline: Newline::LF, ..STANDARD() }),
        "Zm9v\nYmE="
    );
    // No tail: no trailing line break.
    assert_eq!(b"foo".to_base64(Config { line_length: Some(4), ..STANDARD() }), "Zm9v");
    // A tail alone never wraps before its padding.
    assert_eq!(b"f".to_base64(Config { line_length: Some(2), ..STANDARD() }), "Zg==");
    // Unpadded tail after a full line.
    assert_eq!(
        b"foob".to_base64(Config { line_length: Some(4), pad: false, ..STANDARD() }),
        "Zm9v\r\nYg"
    );
}

#[test]
fn wrap_counts_whole_groups() {
    // A line is full once it holds at least the configured length.
    assert_eq!(
        b"foobarfoo".to_base64(Config { line_length: Some(5), newline: Newline::LF, ..STANDARD() }),
        "Zm9vYmFy\nZm9v"
    );
    assert_eq!(
        b"foobar".to_base64(Config { line_length: Some(1), newline: Newline::LF, ..STANDARD() }),
        "Zm9v\nYmFy"
    );
    assert_eq!(
        b"foobar".to_base64(Config { line_length: Some(8), ..STANDARD() }),
        "Zm9vYmFy"
    );
}

#[test]
fn mime_wraps_at_76() {
    let text = [0u8; 58].to_base64(MIME());
    let lines: Vec<&str> = text.split("\r\n").collect();
    assert_eq!(lines.len(), 2);
    assert_eq!(lines[0].len(), 76);
    assert_eq!(lines[0], "A".repeat(76));
    assert_eq!(lines[1], "AA==");
    assert_eq!([0u8; 57].to_base64(MIME()), "A".repeat(76));
}

#[test]
fn output_stays_within_alphabet_padding_and_newlines() {
    let bytes: Vec<u8> = (0..=255u8).collect();
    let std_text = bytes.to_base64(Config { line_length: Some(16), ..STANDARD() });
    for c in std_text.bytes() {
        assert!(c.is_ascii_alphanumeric() || c == b'+' || c == b'/' || c == b'=' || c == b'\r' || c == b'\n');
    }
    let url_text = bytes.to_base64(Config { line_length: Some(16), newline: Newline::LF, ..URL_SAFE() });
    for c in url_text.bytes() {
        assert!(c.is_ascii_alphanumeric() || c == b'-' || c == b'_' || c == b'\n');
    }
}

#[test]
fn wrapping_adds_line_breaks_only() {
    let bytes: Vec<u8> = (0..200u8).collect();
    for n in [1usize, 2, 4, 7, 8, 64, 76, 300] {
        for newline in [Newline::LF, Newline::CRLF] {
            for pad in [false, true] {
                let cfg = Config { line_length: Some(n), newline, pad, ..STANDARD() };
                let wrapped = bytes.to_base64(cfg);
                let plain = bytes.to_base64(Config { line_length: None, ..cfg });
                let stripped: String = wrapped.chars().filter(|c| *c != '\r' && *c != '\n').collect();
                assert_eq!(stripped, plain);
                let step = (n + 3) / 4 * 4;
                let sep = if newline == Newline::LF { "\n" } else { "\r\n" };
                let lines: Vec<&str> = wrapped.split(sep).collect();
                for line in &lines[..lines.len() - 1] {
                    assert_eq!(line.len(), step);
                }
                assert!(lines[lines.len() - 1].len() <= step);
                assert!(!lines[lines.len() - 1].is_empty());
            }
        }
    }
}

#[test]
fn encoded_size_is_the_length_of_the_text() {
    assert_eq!(encoded_size(0, STANDARD()), Some(0));
    assert_eq!(encoded_size(0, MIME()), Some(0));
    assert_eq!(encoded_size(1, STANDARD()), Some(4));
    assert_eq!(encoded_size(2, STANDARD()), Some(4));
    assert_eq!(encoded_size(3, STANDARD()), Some(4));
    assert_eq!(encoded_size(4, STANDARD()), Some(8));
    assert_eq!(encoded_size(1, URL_SAFE()), Some(2));
    assert_eq!(encoded_size(2, URL_SAFE()), Some(3));
    assert_eq!(encoded_size(6, Config { line_length: Some(4), ..STANDARD() }), Some(10));
    assert_eq!(
        encoded_size(6, Config { line_length: Some(4), newline: Newline::LF, ..STANDARD() }),
        Some(9)
    );
    assert_eq!(encoded_size(57, MIME()), Some(76));
    assert_eq!(encoded_size(58, MIME()), Some(82));
    assert_eq!(encoded_size(usize::MAX, STANDARD()), None);
    let bytes: Vec<u8> = (0..=255u8).collect();
    for take in 0..bytes.len() {
        for n in [1usize, 3, 4, 5, 8, 76] {
            for pad in [false, true] {
                for newline in [Newline::LF, Newline::CRLF] {
                    let cfg = Config { line_length: Some(n), pad, newline, ..URL_SAFE() };
                    assert_eq!(Some(bytes[..take].to_base64(cfg).len()), encoded_size(take, cfg));
                }
            }
        }
    }
}
