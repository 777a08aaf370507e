use url::{from_hex, percent_decode, percent_encode, percent_encode_byte, to_hex_upper, utf8_percent_encode};

/// Keeps ASCII letters, digits and `-._~`; escapes every other byte.
fn escape_set() -> Vec<String> {
    (0..256u32)
        .map(|b| {
            let c = b as u8;
            if c.is_ascii_alphanumeric() || c == b'-' || c == b'.' || c == b'_' || c == b'~' {
                (c as char).to_string()
            } else {
                let mut s = String::new();
                percent_encode_byte(c, &mut s);
                s
            }
        })
        .collect()
}

#[test]
fn from_hex_values() {
    assert_eq!(from_hex(b'0'), Some(0));
    assert_eq!(from_hex(b'9'), Some(9));
    assert_eq!(from_hex(b'a'), Some(10));
    assert_eq!(from_hex(b'F'), Some(15));
    assert_eq!(from_hex(b'g'), None);
    assert_eq!(from_hex(b'/'), None);
    assert_eq!(from_hex(b':'), None);
}

#[test]
fn to_hex_upper_values() {
    assert_eq!(to_hex_upper(0), b'0');
    assert_eq!(to_hex_upper(9), b'9');
    assert_eq!(to_hex_upper(10), b'A');
    assert_eq!(to_hex_upper(15), b'F');
}

#[test]
fn hex_digit_round_trip() {
    for v in 0..16u8 {
        assert_eq!(from_hex(to_hex_upper(v)), Some(v));
    }
}

#[test]
fn percent_encode_byte_values() {
    let mut s = String::from("x");
    percent_encode_byte(0x20, &mut s);
    percent_encode_byte(0xab, &mut s);
    percent_encode_byte(0x0f, &mut s);
    assert_eq!(s, "x%20%AB%0F");
}

#[test]
fn percent_decode_values() {
    assert_eq!(percent_decode(b"%41%42c"), b"ABc".to_vec());
    assert_eq!(percent_decode(b"%4"), b"%4".to_vec());
    assert_eq!(percent_decode(b"%%41"), b"%A".to_vec());
    assert_eq!(percent_decode(b"%g1"), b"%g1".to_vec());
    assert_eq!(percent_decode(b"a%2"), b"a%2".to_vec());
    assert_eq!(percent_decode(b"%ff%FF"), vec![0xff, 0xff]);
    assert_eq!(percent_decode(b""), Vec::<u8>::new());
}

#[test]
fn percent_encode_values() {
    let set = escape_set();
    let set: Vec<&str> = set.iter().map(|s| s.as_str()).collect();
    let mut out = String::from(">");
    percent_encode(b"a b/~", &set, &mut out);
    assert_eq!(out, ">a%20b%2F~");
}

#[test]
fn utf8_percent_encode_values() {
    let set = escape_set();
    let set: Vec<&str> = set.iter().map(|s| s.as_str()).collect();
    let mut out = String::new();
    utf8_percent_encode("\u{e9}t\u{e9}", &set, &mut out);
    assert_eq!(out, "%C3%A9t%C3%A9");
}

#[test]
fn percent_escape_decodes_to_the_byte() {
    for b in 0..=255u8 {
        let mut s = String::new();
        percent_encode_byte(b, &mut s);
        assert_eq!(percent_decode(s.as_bytes()), vec![b]);
    }
}

#[test]
fn percent_encode_then_decode_gives_the_bytes_back() {
    let set = escape_set();
    let set: Vec<&str> = set.iter().map(|s| s.as_str()).collect();
    let inputs: [&[u8]; 4] = [b"", b"hello world", b"100%", &[0, 1, 0x7f, 0x80, 0xff, b'%', b'4', b'1']];
    for input in inputs.iter() {
        let mut out = String::new();
        percent_encode(input, &set, &mut out);
        assert_eq!(percent_decode(out.as_bytes()), input.to_vec());
    }
}
