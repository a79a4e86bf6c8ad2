use editor_host::encoding_ops::{
    convert_encoding, decode, detect_encoding, encode, line_ending_of, sniff_encoding, strip_bom,
    MAX_ENCODING_BYTES, SNIFF_SAMPLE_BYTES,
};
use editor_host::utf16::{decode_units, encode_units, read_units, write_units};

#[test]
fn sniff_bom_variants() {
    assert_eq!(sniff_encoding(&[0xEF, 0xBB, 0xBF, b'h']), ("UTF-8", true));
    assert_eq!(sniff_encoding(&[0xFF, 0xFE, b'h', 0]), ("UTF-16LE", true));
    assert_eq!(sniff_encoding(&[0xFE, 0xFF, 0, b'h']), ("UTF-16BE", true));
}

#[test]
fn sniff_plain_utf8_and_latin1() {
    assert_eq!(sniff_encoding("hello".as_bytes()), ("UTF-8", false));
    // 0xE9 alone is invalid UTF-8, few NULs: Latin-1.
    assert_eq!(
        sniff_encoding(&[b'c', b'a', b'f', 0xE9]),
        ("Latin-1", false)
    );
}

#[test]
fn sniff_utf16_without_bom() {
    // "hi" in UTF-16LE without BOM: 68 00 69 00, zeros on odd offsets.
    let le = [b'h', 0, b'i', 0];
    assert_eq!(sniff_encoding(&le), ("UTF-16LE", false));
    // UTF-16BE: 00 68 00 69, zeros on even offsets.
    let be = [0, b'h', 0, b'i'];
    assert_eq!(sniff_encoding(&be), ("UTF-16BE", false));
}

#[test]
fn decode_encode_roundtrips() {
    // Latin-1 é (0xE9) decodes to U+00E9, re-encodes to the same byte.
    assert_eq!(decode(&[0xE9], "Latin-1", false), "é");
    assert_eq!(encode("é", "latin1").unwrap(), vec![0xE9]);

    // UTF-16LE with BOM decodes to "hi".
    let le = [0xFF, 0xFE, b'h', 0, b'i', 0];
    assert_eq!(decode(&le, "UTF-16LE", true), "hi");

    // Encode to UTF-16LE prefixes a BOM and lays out little-endian units.
    assert_eq!(encode("hi", "utf-16le").unwrap(), le);

    // UTF-8 target is BOM-free.
    assert_eq!(encode("hi", "utf-8").unwrap(), b"hi".to_vec());
}

#[test]
fn convert_latin1_file_to_utf8() {
    // "café\n" in Latin-1: 0xE9 for é.
    let file = vec![b'c', b'a', b'f', 0xE9, b'\n'];

    let info = detect_encoding(Ok(5), Ok(file.clone())).unwrap();
    assert_eq!(info.encoding, "Latin-1");

    let (r, write) = convert_encoding(Ok(5), Ok(file), "utf-8", Some(true)).unwrap();
    assert_eq!(r.from, "Latin-1");
    assert!(r.applied && r.differs);
    // Now valid UTF-8 with the two-byte é.
    let file = write.unwrap();
    assert_eq!(String::from_utf8(file.clone()).unwrap(), "café\n");

    let info2 = detect_encoding(Ok(6), Ok(file)).unwrap();
    assert_eq!(info2.encoding, "UTF-8");
    assert!(info2.valid_utf8);
    assert_eq!(info2.line_ending, "LF");
}

#[test]
fn sniffing_looks_at_a_sample() {
    assert_eq!(sniff_encoding(&[]), ("UTF-8", false));
    assert_eq!(sniff_encoding(&[0xEF, 0xBB]), ("Latin-1", false));
    // A tie goes to the little end.
    assert_eq!(sniff_encoding(&[0, 0]), ("UTF-16LE", false));
    assert_eq!(sniff_encoding(&[0]), ("UTF-16BE", false));
    // A NUL behind the sample is not seen.
    let mut late = vec![b'a'; SNIFF_SAMPLE_BYTES + 1];
    late[SNIFF_SAMPLE_BYTES] = 0;
    assert_eq!(sniff_encoding(&late), ("UTF-8", false));
    late[SNIFF_SAMPLE_BYTES - 1] = 0;
    assert_eq!(sniff_encoding(&late), ("UTF-16LE", false));
    late[SNIFF_SAMPLE_BYTES - 1] = b'a';
    late[SNIFF_SAMPLE_BYTES - 2] = 0;
    assert_eq!(sniff_encoding(&late), ("UTF-16BE", false));
}

#[test]
fn line_endings_are_told_apart() {
    assert_eq!(line_ending_of(""), "none");
    assert_eq!(line_ending_of("a\rb"), "none");
    assert_eq!(line_ending_of("a\nb"), "LF");
    assert_eq!(line_ending_of("\n"), "LF");
    assert_eq!(line_ending_of("a\r\nb"), "CRLF");
    assert_eq!(line_ending_of("a\r\r\nb"), "CRLF");
    assert_eq!(line_ending_of("a\r\nb\n"), "Mixed");
    assert_eq!(line_ending_of("a\r\n\n"), "Mixed");
}

#[test]
fn marks_are_stripped_by_encoding() {
    let bytes = [1, 2, 3, 4];
    assert_eq!(strip_bom(&bytes, "UTF-8", false), &[1, 2, 3, 4]);
    assert_eq!(strip_bom(&bytes, "UTF-8", true), &[4]);
    assert_eq!(strip_bom(&bytes, "UTF-16LE", true), &[3, 4]);
    assert_eq!(strip_bom(&bytes, "UTF-16BE", true), &[3, 4]);
    assert_eq!(strip_bom(&bytes, "Latin-1", true), &[1, 2, 3, 4]);
    let empty: &[u8] = &[];
    assert_eq!(strip_bom(&bytes[..2], "UTF-8", true), empty);
    assert_eq!(strip_bom(&bytes[..1], "UTF-16LE", true), empty);
}

#[test]
fn utf16_agrees_with_the_standard_library() {
    let text = "a\u{7f}é€\u{ffff}\u{10000}😀\u{10ffff}";
    let units: Vec<u16> = text.encode_utf16().collect();
    assert_eq!(encode_units(text), units);
    assert_eq!(decode_units(&units), text);

    // Surrogates without a partner, in all positions.
    let odd = vec![0xD800, 0x61, 0xDC00, 0xD83D, 0xD83D, 0xDE00, 0xDBFF];
    assert_eq!(decode_units(&odd), String::from_utf16_lossy(&odd));
    assert_eq!(decode_units(&odd), "\u{fffd}a\u{fffd}\u{fffd}😀\u{fffd}");
}

#[test]
fn units_and_bytes_in_both_orders() {
    let units = vec![0x0102, 0xFFFE];
    let mut out = vec![9];
    write_units(&units, false, &mut out);
    assert_eq!(out, vec![9, 0x02, 0x01, 0xFE, 0xFF]);
    assert_eq!(read_units(&out[1..], false), units);
    let mut out = Vec::new();
    write_units(&units, true, &mut out);
    assert_eq!(out, vec![0x01, 0x02, 0xFF, 0xFE]);
    assert_eq!(read_units(&out, true), units);
    // A last byte without a partner is left out.
    assert_eq!(read_units(&[1, 2, 3], true), vec![0x0102]);
}

#[test]
fn every_encoding_is_read_back() {
    let text = "Grüße, 世界 😀\r\n";
    for (target, label) in [("utf-16le", "UTF-16LE"), ("utf-16be", "UTF-16BE")] {
        let bytes = encode(text, target).unwrap();
        assert_eq!(sniff_encoding(&bytes), (label, true));
        assert_eq!(decode(&bytes, label, true), text);
    }
    let bytes = encode(text, "utf-8").unwrap();
    assert_eq!(sniff_encoding(&bytes), ("UTF-8", false));
    assert_eq!(decode(&bytes, "UTF-8", false), text);
    let all: Vec<u8> = (0..=255).collect();
    let latin = decode(&all, "Latin-1", false);
    assert_eq!(latin.chars().map(|c| c as u32).collect::<Vec<_>>(), (0..=255).collect::<Vec<_>>());
    assert_eq!(encode(&latin, "latin1").unwrap(), all);
}

#[test]
fn decoding_never_fails() {
    assert_eq!(decode(&[0xFF, b'a'], "UTF-8", false), "\u{fffd}a");
    assert_eq!(decode(&[b'a'], "no such name", false), "a");
    assert_eq!(decode(&[0xEF, 0xBB, 0xBF, b'a'], "UTF-8", true), "a");
    assert_eq!(decode(&[0, b'h', 0], "UTF-16BE", false), "h");
}

#[test]
fn latin1_lacks_most_characters() {
    assert_eq!(encode("aé€ÿ", "latin1").unwrap(), vec![b'a', 0xE9, b'?', 0xFF]);
}

#[test]
fn unknown_targets_are_refused() {
    assert_eq!(encode("a", "UTF-8"), Err("unknown target encoding: UTF-8".to_string()));
    let err = convert_encoding(Ok(1), Ok(vec![b'a']), " EBCDIC ", None).err().unwrap();
    assert_eq!(err, "unknown target encoding: ebcdic");
}

#[test]
fn targets_are_trimmed_and_lowered() {
    let (r, write) = convert_encoding(Ok(2), Ok(b"hi".to_vec()), "\tUTF-16LE\n", Some(true)).unwrap();
    assert_eq!(r.to, "utf-16le");
    assert_eq!((r.bytes_before, r.bytes_after), (2, 6));
    assert_eq!(write.unwrap(), vec![0xFF, 0xFE, b'h', 0, b'i', 0]);
}

#[test]
fn conversion_is_a_look_unless_asked() {
    for apply in [None, Some(false)] {
        let (r, write) = convert_encoding(Ok(2), Ok(b"hi".to_vec()), "utf-16be", apply).unwrap();
        assert!(r.differs && !r.applied && write.is_none());
    }
    // Nothing is written where nothing changes.
    let (r, write) = convert_encoding(Ok(2), Ok(b"hi".to_vec()), "utf-8", Some(true)).unwrap();
    assert!(!r.differs && !r.applied && write.is_none());
}

#[test]
fn converting_twice_changes_nothing_more() {
    for target in ["utf-8", "utf-16le", "utf-16be", "latin1"] {
        let file = vec![b'c', b'a', b'f', 0xE9, b'\n'];
        let once = match convert_encoding(Ok(5), Ok(file.clone()), target, Some(true)).unwrap() {
            (_, Some(out)) => out,
            (_, None) => file,
        };
        let (r, _) = convert_encoding(Ok(5), Ok(once), target, Some(true)).unwrap();
        assert!(!r.differs, "{target}");
    }
    // Unless the text begins with the character of the byte-order mark.
    let (_, write) = convert_encoding(
        Ok(6),
        Ok(vec![0xFF, 0xFE, 0xFF, 0xFE, b'a', 0]),
        "utf-8",
        Some(true),
    )
    .unwrap();
    let once = write.unwrap();
    assert_eq!(once, "\u{feff}a".as_bytes());
    let (r, _) = convert_encoding(Ok(4), Ok(once), "utf-8", None).unwrap();
    assert!(r.differs);
}

#[test]
fn files_that_are_not_looked_at() {
    let too_large = Ok(MAX_ENCODING_BYTES + 1);
    assert_eq!(
        detect_encoding(too_large.clone(), Ok(vec![])).err().unwrap(),
        "file too large"
    );
    assert_eq!(
        convert_encoding(too_large, Ok(vec![]), "nonsense", None).err().unwrap(),
        "file too large"
    );
    assert!(detect_encoding(Ok(MAX_ENCODING_BYTES), Ok(vec![])).is_ok());
    assert_eq!(
        detect_encoding(Err("no entry".into()), Err("unread".into())).err().unwrap(),
        "no entry"
    );
    assert_eq!(
        convert_encoding(Ok(1), Err("unread".into()), "nonsense", None).err().unwrap(),
        "unread"
    );
}

#[test]
fn detection_reports_everything() {
    let info = detect_encoding(Ok(99), Ok(vec![0xEF, 0xBB, 0xBF, b'a', b'\r', b'\n'])).unwrap();
    assert_eq!(info.encoding, "UTF-8");
    assert!(info.bom && info.valid_utf8);
    assert_eq!(info.line_ending, "CRLF");
    assert_eq!(info.bytes, 99);
    let info = detect_encoding(Ok(4), Ok(vec![0xFF, 0xFE, 0x0A, 0x00])).unwrap();
    assert_eq!((info.encoding.as_str(), info.bom), ("UTF-16LE", true));
    assert_eq!(info.line_ending, "LF");
    assert!(info.valid_utf8);
    let info = detect_encoding(Ok(2), Ok(vec![0xE9, b'a'])).unwrap();
    assert!(!info.valid_utf8 && !info.bom);
    assert_eq!(info.line_ending, "none");
}
