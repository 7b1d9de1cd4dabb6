use ef80escape::bytes_to_str;
use ef80escape::need_escape;
use ef80escape::str_to_bytes;

#[test]
fn encode_ascii_unchanged() {
    assert_eq!(bytes_to_str(b"abc").as_slice(), b"abc");
    assert_eq!(bytes_to_str(b"").as_slice(), b"");
}

#[test]
fn encode_well_formed_text_unchanged() {
    assert_eq!(bytes_to_str("汉字".as_bytes()).as_slice(), "汉字".as_bytes());
    assert_eq!(bytes_to_str("🤦🏼‍♂️".as_bytes()).as_slice(), "🤦🏼‍♂️".as_bytes());
}

#[test]
fn encode_single_invalid_byte() {
    assert_eq!(bytes_to_str(b"\xff").as_slice(), "\u{efff}".as_bytes());
}

#[test]
fn encode_escapes_band_codepoint() {
    assert_eq!(
        bytes_to_str("\u{efff}".as_bytes()).as_slice(),
        "\u{ef00}\u{efff}".as_bytes()
    );
}

#[test]
fn encode_escapes_marker_codepoint() {
    assert_eq!(
        bytes_to_str("\u{ef00}".as_bytes()).as_slice(),
        "\u{ef00}\u{ef00}".as_bytes()
    );
}

#[test]
fn decode_band_pair() {
    assert_eq!(
        str_to_bytes("\u{ef80}\u{efff}".as_bytes()).as_slice(),
        &[0x80u8, 0xff]
    );
}

#[test]
fn decode_mixed_marker_text_band() {
    assert_eq!(
        str_to_bytes("\u{ef00}abc\u{efff}".as_bytes()).as_slice(),
        b"abc\xff"
    );
}

#[test]
fn band_round_trip_all_byte_values() {
    for v in 0x80u32..=0xff {
        let c = char::from_u32(0xef80 + (v - 0x80)).unwrap();
        let text = c.to_string();
        assert_eq!(str_to_bytes(text.as_bytes()).as_slice(), &[v as u8]);
        assert_eq!(bytes_to_str(&[v as u8]).as_slice(), text.as_bytes());
    }
}

#[test]
fn unescape_every_reserved_unit() {
    let mut codepoints: Vec<u32> = vec![0xef00];
    for cp in 0xef80u32..=0xefff {
        codepoints.push(cp);
    }
    for cp in codepoints {
        let c = char::from_u32(cp).unwrap();
        let mut text = String::from("\u{ef00}");
        text.push(c);
        assert_eq!(
            str_to_bytes(text.as_bytes()).as_slice(),
            c.to_string().as_bytes()
        );
    }
}

#[test]
fn dangling_marker_before_text_is_dropped() {
    assert_eq!(str_to_bytes("\u{ef00}abc".as_bytes()).as_slice(), b"abc");
}

#[test]
fn dangling_marker_at_end_is_dropped() {
    assert_eq!(str_to_bytes("\u{ef00}".as_bytes()).as_slice(), b"");
}

#[test]
fn marker_before_unreserved_codepoint_is_dropped() {
    // U+EE05 starts with the marker lead byte but is not a reserved unit.
    assert_eq!(
        str_to_bytes("\u{ef00}\u{ee05}".as_bytes()).as_slice(),
        "\u{ee05}".as_bytes()
    );
}

#[test]
fn decode_passes_truncated_lead_through() {
    assert_eq!(str_to_bytes(&[0xee]).as_slice(), &[0xee]);
    assert_eq!(str_to_bytes(&[0xee, 0xbe]).as_slice(), &[0xee, 0xbe]);
    assert_eq!(str_to_bytes(&[0xee, 0xbc, 0x80, 0xee]).as_slice(), &[0xee]);
}

#[test]
fn encoded_output_is_well_formed_utf8() {
    let inputs: Vec<Vec<u8>> = vec![
        vec![],
        vec![0xff, 0xfe, 0x00],
        vec![0xee, 0xbe, 0x80],
        vec![0xee, 0xbc, 0x80],
        vec![0xee],
        vec![0xc2],
        vec![0xe0, 0xa0],
        vec![0x61, 0xc2, 0x80, 0xf4, 0x8f, 0xbf, 0xbf, 0x90],
    ];
    for data in inputs {
        let encoded = bytes_to_str(&data);
        assert!(String::from_utf8(encoded).is_ok());
    }
}

#[test]
fn need_escape_truth_table() {
    assert!(need_escape(0xbc, 0x80));
    assert!(need_escape(0xbe, 0x80));
    assert!(need_escape(0xbe, 0xbf));
    assert!(need_escape(0xbf, 0x80));
    assert!(need_escape(0xbf, 0xbf));
    assert!(!need_escape(0xbc, 0x81));
    assert!(!need_escape(0xbd, 0x80));
    assert!(!need_escape(0xbe, 0x7f));
    assert!(!need_escape(0xbe, 0xc0));
    assert!(!need_escape(0xbf, 0xc0));
    assert!(!need_escape(0x80, 0x80));
}
