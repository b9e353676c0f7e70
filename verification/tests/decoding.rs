use magic_mail::smtp::transfer::{base64_decode, decode_quoted_printable, hex_val};

#[test]
fn hex_val_reads_digits_in_both_cases() {
    assert_eq!(hex_val(b'0'), Some(0));
    assert_eq!(hex_val(b'9'), Some(9));
    assert_eq!(hex_val(b'a'), Some(10));
    assert_eq!(hex_val(b'F'), Some(15));
    assert_eq!(hex_val(b'g'), None);
    assert_eq!(hex_val(b'='), None);
}

#[test]
fn base64_decodes_full_groups() {
    assert_eq!(base64_decode("aGVsbG8gd29ybGQ="), Some(b"hello world".to_vec()));
    assert_eq!(base64_decode("TWFu"), Some(b"Man".to_vec()));
}

#[test]
fn base64_skips_padding_and_whitespace() {
    assert_eq!(base64_decode("aGVsbG 8gd\r\n29ybGQ="), Some(b"hello world".to_vec()));
    assert_eq!(base64_decode("TW\tE=\n"), Some(b"Ma".to_vec()));
}

#[test]
fn base64_partial_groups_give_whole_bytes() {
    assert_eq!(base64_decode("TQ"), Some(b"M".to_vec()));
    assert_eq!(base64_decode("TWE"), Some(b"Ma".to_vec()));
    assert_eq!(base64_decode("T"), Some(Vec::new()));
    assert_eq!(base64_decode(""), Some(Vec::new()));
}

#[test]
fn base64_rejects_symbols_off_the_alphabet() {
    assert_eq!(base64_decode("aGV*bG8"), None);
    assert_eq!(base64_decode("é"), None);
}

#[test]
fn base64_decoded_length_is_six_bits_per_symbol() {
    let decoded = base64_decode("QUJDREVGR0hJSktM").unwrap();
    assert_eq!(decoded.len(), 16 * 6 / 8);
    assert_eq!(decoded, b"ABCDEFGHIJKL".to_vec());
}

#[test]
fn quoted_printable_decodes_escapes() {
    assert_eq!(decode_quoted_printable("Euro: =E2=82=AC"), "Euro: \u{20AC}".as_bytes().to_vec());
    assert_eq!(decode_quoted_printable("a=3db"), b"a=b".to_vec());
}

#[test]
fn quoted_printable_removes_soft_breaks() {
    assert_eq!(decode_quoted_printable("long=\nline"), b"longline".to_vec());
    assert_eq!(decode_quoted_printable("long=\r\nline"), b"longline".to_vec());
}

#[test]
fn quoted_printable_drops_stray_equals() {
    assert_eq!(decode_quoted_printable("a=zzb"), b"azzb".to_vec());
    assert_eq!(decode_quoted_printable("end="), b"end".to_vec());
    assert_eq!(decode_quoted_printable("=4"), b"4".to_vec());
}

#[test]
fn quoted_printable_plain_text_is_unchanged() {
    let text = "plain text, no escapes: \u{e9}t\u{e9}";
    assert_eq!(decode_quoted_printable(text), text.as_bytes().to_vec());
}

fn escape_all(bs: &[u8], upper: bool) -> String {
    bs.iter()
        .map(|b| if upper { format!("={:02X}", b) } else { format!("={:02x}", b) })
        .collect()
}

#[test]
fn quoted_printable_escapes_round_trip() {
    let bytes: Vec<u8> = (0u8..=255).collect();
    assert_eq!(decode_quoted_printable(&escape_all(&bytes, true)), bytes);
    assert_eq!(decode_quoted_printable(&escape_all(&bytes, false)), bytes);
}

#[test]
fn quoted_printable_soft_break_splits_decoding() {
    for (a, c) in [("ab=", "=41x"), ("=4", "cd"), ("x=\r", ""), ("", "=3D")] {
        let mut joined = decode_quoted_printable(a);
        joined.extend(decode_quoted_printable(c));
        assert_eq!(decode_quoted_printable(&format!("{}=\r\n{}", a, c)), joined);
        assert_eq!(decode_quoted_printable(&format!("{}=\n{}", a, c)), joined);
    }
}

#[test]
fn base64_standard_encoding_round_trips() {
    let bytes: Vec<u8> = (0u8..=255).rev().collect();
    const ALPHABET: &[u8] = b"ABCDEFGHIJKLMNOPQRSTUVWXYZabcdefghijklmnopqrstuvwxyz0123456789+/";
    let mut enc = String::new();
    for chunk in bytes.chunks(3) {
        let b0 = chunk[0] as u32;
        let b1 = *chunk.get(1).unwrap_or(&0) as u32;
        let b2 = *chunk.get(2).unwrap_or(&0) as u32;
        let n = (b0 << 16) | (b1 << 8) | b2;
        let symbols = chunk.len() + 1;
        for k in 0..4 {
            if k < symbols {
                enc.push(ALPHABET[((n >> (18 - 6 * k)) & 63) as usize] as char);
            } else {
                enc.push('=');
            }
        }
    }
    assert_eq!(base64_decode(&enc), Some(bytes.clone()));
    let wrapped: String = enc
        .as_bytes()
        .chunks(76)
        .map(|l| format!("{}\r\n", std::str::from_utf8(l).unwrap()))
        .collect();
    assert_eq!(base64_decode(&wrapped), Some(bytes.clone()));
    assert_eq!(base64_decode(enc.trim_end_matches('=')), Some(bytes));
}

#[test]
fn base64_ignores_padding_and_space_anywhere() {
    assert_eq!(base64_decode("SG=Vs\tb G8"), base64_decode("SGVsbG8"));
    assert_eq!(base64_decode("=S=G=V=s=b=G=8="), Some(b"Hello".to_vec()));
}
