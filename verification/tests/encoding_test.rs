use notepad_pro_core::files::encoding::{
    bom_bytes, decode, detect_encoding, encode, encoding_for_label, offered_encodings, EncodingInfo, FULL_CONFIDENCE_BITS,
};

#[test]
fn detects_a_utf8_bom() {
    let info = detect_encoding(b"\xEF\xBB\xBFhello");
    assert_eq!(info.label, "utf-8");
    assert!(info.has_bom);
    assert_eq!(info.bom_len, 3);
    assert!(info.is_utf8());
}

#[test]
fn detects_utf16_boms_in_both_orders() {
    let le = detect_encoding(&[0xFF, 0xFE, b'a', 0x00]);
    assert_eq!(le.label, "utf-16le");
    assert_eq!(le.bom_len, 2);
    let be = detect_encoding(&[0xFE, 0xFF, 0x00, b'a']);
    assert_eq!(be.label, "utf-16be");
}

#[test]
fn utf32_bom_wins_over_the_utf16_prefix() {
    let info = detect_encoding(&[0xFF, 0xFE, 0x00, 0x00, b'a', 0, 0, 0]);
    assert_eq!(info.label, "utf-32le");
    assert_eq!(info.bom_len, 4);
}

#[test]
fn plain_ascii_is_utf8_without_a_bom() {
    let info = detect_encoding(b"hello world");
    assert_eq!(info.label, "utf-8");
    assert!(!info.has_bom);
    assert_eq!(info.bom_len, 0);
    assert_eq!(f32::from_bits(info.confidence_bits), 1.0);
}

#[test]
fn multibyte_utf8_is_recognised() {
    let info = detect_encoding("héllo wörld".as_bytes());
    assert_eq!(info.label, "utf-8");
}

#[test]
fn empty_input_is_utf8() {
    let info = detect_encoding(b"");
    assert_eq!(info.label, "utf-8");
    assert!(!info.has_bom);
}

#[test]
fn latin1_bytes_fall_back_to_a_single_byte_encoding() {
    let raw = b"Caf\xe9 au lait, tr\xe8s bien";
    let info = detect_encoding(raw);
    assert_ne!(info.label, "utf-8");
    assert!(encoding_rs::Encoding::for_label(info.label.as_bytes()).is_some());
}

#[test]
fn decode_skips_the_bom() {
    let raw = b"\xEF\xBB\xBFhello";
    let info = detect_encoding(raw);
    assert_eq!(decode(raw, &info), "hello");
}

#[test]
fn decode_handles_utf16le() {
    let raw = [0xFF, 0xFE, b'h', 0x00, b'i', 0x00];
    let info = detect_encoding(&raw);
    assert_eq!(decode(&raw, &info), "hi");
}

#[test]
fn decode_replaces_invalid_bytes_instead_of_failing() {
    let info = EncodingInfo {
        label: "utf-8".into(),
        has_bom: false,
        bom_len: 0,
        confidence_bits: FULL_CONFIDENCE_BITS,
    };
    let out = decode(&[0xFF, 0xFE, 0xFD], &info);
    assert!(out.contains('\u{FFFD}'));
}

#[test]
fn every_offered_encoding_resolves() {
    for label in offered_encodings() {
        assert!(
            encoding_rs::Encoding::for_label(label.as_bytes()).is_some(),
            "{label} did not resolve"
        );
    }
}

#[test]
fn bom_bytes_follow_the_resolved_encoding() {
    assert_eq!(bom_bytes("utf-8"), vec![0xEF, 0xBB, 0xBF]);
    assert_eq!(bom_bytes("UTF-16LE"), vec![0xFF, 0xFE]);
    assert_eq!(bom_bytes("utf-16be"), vec![0xFE, 0xFF]);
    assert_eq!(bom_bytes("windows-1252"), Vec::<u8>::new());
    assert_eq!(bom_bytes("definitely-not-real"), vec![0xEF, 0xBB, 0xBF], "unknown labels are UTF-8");
}

#[test]
fn a_bom_longer_than_the_input_is_clamped() {
    let info = EncodingInfo {
        label: "utf-8".into(),
        has_bom: true,
        bom_len: 9,
        confidence_bits: FULL_CONFIDENCE_BITS,
    };
    assert_eq!(decode(b"ab", &info), "");
}

#[test]
fn encode_roundtrips_utf8() {
    let bytes = encode("hello", "utf-8", false);
    assert_eq!(bytes, b"hello");
    assert_eq!(decode(&bytes, &detect_encoding(&bytes)), "hello");
}

#[test]
fn encode_can_prepend_a_utf8_bom() {
    let bytes = encode("hello", "utf-8", true);
    assert!(bytes.starts_with(&[0xEF, 0xBB, 0xBF]));
    assert_eq!(decode(&bytes, &detect_encoding(&bytes)), "hello");
}

#[test]
fn encode_utf16_roundtrips() {
    let bytes = encode("héllo", "utf-16le", true);
    let info = detect_encoding(&bytes);
    assert_eq!(info.label, "utf-16le");
    assert_eq!(decode(&bytes, &info), "héllo");
}

#[test]
fn encode_utf16le_is_real_utf16_even_for_ascii_input() {
    let bytes = encode("A", "UTF-16LE", true);
    assert_eq!(bytes, vec![0xFF, 0xFE, 0x41, 0x00]);
}

#[test]
fn utf16_is_never_double_prefixed_with_a_bom() {
    let bytes = encode("hi", "utf-16le", true);
    assert!(bytes.starts_with(&[0xFF, 0xFE]));
    assert!(!bytes[2..].starts_with(&[0xFF, 0xFE]));
}

#[test]
fn latin1_encode_roundtrips() {
    let bytes = encode("Café", "windows-1252", false);
    assert!(bytes.contains(&0xE9));
    let info = EncodingInfo {
        label: "windows-1252".into(),
        has_bom: false,
        bom_len: 0,
        confidence_bits: FULL_CONFIDENCE_BITS,
    };
    assert_eq!(decode(&bytes, &info), "Café");
}

#[test]
fn encode_utf8_without_bom_by_default_choice() {
    let out = encode("hi", "UTF-8", false);
    assert_eq!(out, b"hi");
}

#[test]
fn encode_utf8_with_bom_writes_one_bom() {
    let out = encode("hi", "UTF-8", true);
    assert_eq!(&out[..3], &[0xef, 0xbb, 0xbf]);
    assert_eq!(&out[3..], b"hi");
}

#[test]
fn encode_utf16le_writes_single_bom() {
    let out = encode("A", "UTF-16LE", true);
    assert_eq!(&out[..2], &[0xff, 0xfe]);
    assert_eq!(out.len(), 4);
}

#[test]
fn detect_encoding_finds_utf16le() {
    let raw = encode("hello", "UTF-16LE", true);
    let info = detect_encoding(&raw);
    assert!(!info.is_utf8());
}

#[test]
fn decode_roundtrips_utf16() {
    let raw = encode("hello", "UTF-16LE", true);
    let info = detect_encoding(&raw);
    let text = decode(&raw, &info);
    assert_eq!(text, "hello");
}

#[test]
fn utf16be_writes_the_high_byte_first_and_surrogate_pairs() {
    assert_eq!(encode("A", "utf-16be", false), vec![0x00, 0x41]);
    // U+1F600 is the surrogate pair D83D DE00.
    assert_eq!(encode("\u{1F600}", "utf-16le", false), vec![0x3D, 0xD8, 0x00, 0xDE]);
    assert_eq!(encode("\u{1F600}", "utf-16be", true), vec![0xFE, 0xFF, 0xD8, 0x3D, 0xDE, 0x00]);
}

#[test]
fn unmappable_characters_become_numeric_references() {
    assert_eq!(encode("\u{263A}", "windows-1252", false), b"&#9786;");
}

#[test]
fn unknown_labels_fall_back_to_utf8() {
    assert_eq!(encoding_for_label("definitely-not-real"), "UTF-8");
    assert_eq!(encoding_for_label("latin1"), "windows-1252");
    assert_eq!(encoding_for_label("utf-16le"), "UTF-16LE");
}

#[test]
fn an_escape_byte_with_only_nbsp_high_bytes_reads_as_windows_1252() {
    let info = detect_encoding(&[0x1B, 0xA0]);
    assert_eq!(info.label, "windows-1252");
    assert!(!info.has_bom);
    assert_eq!(info.confidence_bits, 0);
}

#[test]
fn unknown_labels_decode_and_encode_as_utf8() {
    let info = EncodingInfo {
        label: "no-such-charset".into(),
        has_bom: false,
        bom_len: 0,
        confidence_bits: FULL_CONFIDENCE_BITS,
    };
    assert_eq!(decode("h\u{e9}".as_bytes(), &info), "h\u{e9}");
    assert_eq!(encode("h\u{e9}", "no-such-charset", true), vec![0xEF, 0xBB, 0xBF, b'h', 0xC3, 0xA9]);
}
