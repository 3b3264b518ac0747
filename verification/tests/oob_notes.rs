use base64::Engine;
use paper_ecash::models::note::NoteStatus;
use paper_ecash::models::oob_notes::{
    parse_csv_notes, parse_oob_notes, read_bigsize, read_bytes, read_vec_bytes, OobNotesError,
};

const NONCE_1: &str = "0279be667ef9dcbbac55a06295ce870b07029bfcdb2dce28d959f2815b16f81798";
const NONCE_2: &str = "02c6047f9441ed7d6d3045406e95c07cd85c778e4b8cef3ca7abac09b95c709ee5";

/// Two parts: a federation id prefix, then two notes of 1024 msat whose
/// spend keys are 1 and 2.
fn sample_bytes() -> Vec<u8> {
    let mut notes = vec![1u8, 0xFD, 0x04, 0x00, 2];
    for k in [1u8, 2u8] {
        notes.extend([0u8; 48]);
        let mut key = [0u8; 32];
        key[31] = k;
        notes.extend(key);
    }
    let mut b = vec![2u8, 1, 4, 0xde, 0xad, 0xbe, 0xef, 0];
    b.extend([0xFD, 0x00, notes.len() as u8]);
    b.extend(notes);
    b
}

fn decode_message(r: Result<paper_ecash::models::oob_notes::ParsedNoteSet, OobNotesError>) -> String {
    match r {
        Err(OobNotesError::DecodeError(m)) => m,
        other => panic!("expected a decode error, got {:?}", other),
    }
}

#[test]
fn test_parse_empty_input() {
    let result = parse_oob_notes("");
    assert!(result.is_err());
}

#[test]
fn test_parse_invalid_input() {
    let result = parse_oob_notes("not-valid-ecash");
    assert!(result.is_err());
}

#[test]
fn test_bigsize_decode() {
    // Test single byte values
    let data = [0x00, 0x7F, 0xFC];
    let mut pos = 0;
    assert_eq!(read_bigsize(&data, &mut pos).unwrap(), 0);
    assert_eq!(read_bigsize(&data, &mut pos).unwrap(), 0x7F);
    assert_eq!(read_bigsize(&data, &mut pos).unwrap(), 0xFC);

    // Test 2-byte value (big-endian: 0x0100 = 256)
    let data = [0xFD, 0x01, 0x00];
    let mut pos = 0;
    assert_eq!(read_bigsize(&data, &mut pos).unwrap(), 256);

    // Test 4-byte value (big-endian: 0x00100000 = 1048576)
    let data = [0xFE, 0x00, 0x10, 0x00, 0x00];
    let mut pos = 0;
    assert_eq!(read_bigsize(&data, &mut pos).unwrap(), 1048576);
}

#[test]
fn bigsize_eight_bytes_and_positions() {
    let data = [0xFF, 0, 0, 0, 1, 0, 0, 0, 2, 7];
    let mut pos = 0;
    assert_eq!(read_bigsize(&data, &mut pos).unwrap(), 0x1_0000_0002);
    assert_eq!(pos, 9);
    assert_eq!(read_bigsize(&data, &mut pos).unwrap(), 7);
    assert_eq!(pos, 10);
}

#[test]
fn bigsize_errors_name_what_is_missing() {
    let mut pos = 0;
    let e = read_bigsize(&[], &mut pos).unwrap_err();
    assert!(matches!(e, OobNotesError::DecodeError(ref m) if m == "Unexpected end of data reading BigSize"));
    assert_eq!(pos, 0);
    let mut pos = 0;
    let e = read_bigsize(&[0xFD, 1], &mut pos).unwrap_err();
    assert!(matches!(e, OobNotesError::DecodeError(ref m) if m == "Unexpected end of data reading u16"));
    assert_eq!(pos, 1);
    let mut pos = 0;
    let e = read_bigsize(&[0xFE, 1, 2, 3], &mut pos).unwrap_err();
    assert!(matches!(e, OobNotesError::DecodeError(ref m) if m == "Unexpected end of data reading u32"));
    let mut pos = 0;
    let e = read_bigsize(&[0xFF, 1, 2, 3, 4, 5, 6, 7], &mut pos).unwrap_err();
    assert!(matches!(e, OobNotesError::DecodeError(ref m) if m == "Unexpected end of data reading u64"));
}

#[test]
fn read_bytes_and_vec_bytes() {
    let data = [3u8, 10, 11, 12, 13];
    let mut pos = 0;
    assert_eq!(read_vec_bytes(&data, &mut pos).unwrap(), vec![10, 11, 12]);
    assert_eq!(pos, 4);
    let e = read_bytes(&data, &mut pos, 5).unwrap_err();
    assert!(matches!(e, OobNotesError::DecodeError(ref m)
        if m == "Unexpected end of data reading 5 bytes at position 4"));
    assert_eq!(pos, 4);
    assert_eq!(read_bytes(&data, &mut pos, 1).unwrap(), vec![13]);
    assert_eq!(pos, 5);
}

#[test]
fn parses_base64_ecash() {
    let text = base64::engine::general_purpose::URL_SAFE_NO_PAD.encode(sample_bytes());
    let parsed = parse_oob_notes(&text).unwrap();
    assert_eq!(parsed.federation_id, "deadbeef");
    assert_eq!(parsed.notes.len(), 2);
    assert_eq!(parsed.notes[0].nonce, NONCE_1);
    assert_eq!(parsed.notes[1].nonce, NONCE_2);
    for n in &parsed.notes {
        assert_eq!(n.amount_msat, 1024);
        assert!(matches!(n.status, NoteStatus::Unspent));
        assert_eq!(n.last_checked, None);
        assert_eq!(n.index, 0);
        assert_eq!(n.paper_note_id, parsed.notes[0].paper_note_id);
    }
}

#[test]
fn parses_padded_standard_base64_with_whitespace() {
    let text = base64::engine::general_purpose::STANDARD.encode(sample_bytes());
    let spaced = format!("  {}\n{} \t", &text[..10], &text[10..]);
    let parsed = parse_oob_notes(&spaced).unwrap();
    assert_eq!(parsed.notes.len(), 2);
    assert_eq!(parsed.federation_id, "deadbeef");
}

#[test]
fn parses_bech32m_ecash() {
    let hrp = bech32::Hrp::parse("fedimint").unwrap();
    let text = bech32::encode::<bech32::Bech32m>(hrp, &sample_bytes()).unwrap();
    assert!(text.starts_with("fedimint1"));
    let parsed = parse_oob_notes(&text).unwrap();
    assert_eq!(parsed.federation_id, "deadbeef");
    assert_eq!(parsed.notes[1].nonce, NONCE_2);
    // The prefix is recognized in any ASCII case, but the part must read
    // "fedimint" exactly.
    let parsed = parse_oob_notes(&text.to_uppercase());
    assert_eq!(decode_message(parsed), "Invalid HRP, expected 'fedimint'");
}

#[test]
fn bech32_with_bad_checksum_is_rejected() {
    let hrp = bech32::Hrp::parse("fedimint").unwrap();
    let mut text = bech32::encode::<bech32::Bech32m>(hrp, &sample_bytes()).unwrap();
    let last = text.pop().unwrap();
    text.push(if last == 'q' { 'p' } else { 'q' });
    let msg = decode_message(parse_oob_notes(&text));
    assert!(msg.starts_with("Invalid bech32: "));
}

#[test]
fn bech32_with_other_hrp_is_rejected() {
    // The text starts with "fedimint1" but its human-readable part is longer.
    let hrp = bech32::Hrp::parse("fedimint1x").unwrap();
    let text = bech32::encode::<bech32::Bech32m>(hrp, &sample_bytes()).unwrap();
    let msg = decode_message(parse_oob_notes(&text));
    assert_eq!(msg, "Invalid HRP, expected 'fedimint'");
}

#[test]
fn empty_input_message() {
    assert_eq!(decode_message(parse_oob_notes(" \n\t ")), "Empty input");
}

#[test]
fn invalid_base64_message() {
    assert_eq!(decode_message(parse_oob_notes("!!!!")), "Invalid base64 encoding");
}

#[test]
fn no_notes_is_its_own_error() {
    // One part: a federation id prefix only.
    let bytes = vec![1u8, 1, 4, 1, 2, 3, 4];
    let text = base64::engine::general_purpose::URL_SAFE_NO_PAD.encode(bytes);
    assert!(matches!(parse_oob_notes(&text), Err(OobNotesError::NoNotes)));
}

#[test]
fn unknown_parts_are_skipped_and_federation_defaults() {
    // An unknown variant 9 with 3 bytes of data, then notes.
    let full = sample_bytes();
    // Drop the federation id part: keep the notes part only.
    let notes_part = &full[8..];
    let mut bytes = vec![2u8, 9, 3, 7, 7, 7, 0];
    bytes.extend_from_slice(notes_part);
    let text = base64::engine::general_purpose::URL_SAFE_NO_PAD.encode(bytes);
    let parsed = parse_oob_notes(&text).unwrap();
    assert_eq!(parsed.federation_id, "unknown");
    assert_eq!(parsed.notes.len(), 2);
}

#[test]
fn part_length_past_the_end_is_reported() {
    let bytes = vec![1u8, 0, 50, 1];
    let text = base64::engine::general_purpose::URL_SAFE_NO_PAD.encode(bytes);
    let msg = decode_message(parse_oob_notes(&text));
    assert_eq!(msg, "Variant data length 50 exceeds remaining data at position 3");
}

#[test]
fn invalid_spend_key_is_reported() {
    let mut notes = vec![1u8, 5, 1];
    notes.extend([0u8; 48]);
    notes.extend([0u8; 32]); // zero is not a valid secret key
    let mut bytes = vec![1u8, 0, notes.len() as u8];
    bytes.extend(notes);
    let text = base64::engine::general_purpose::URL_SAFE_NO_PAD.encode(bytes);
    let msg = decode_message(parse_oob_notes(&text));
    assert!(msg.starts_with("Invalid spend_key: "));
}

#[test]
fn csv_lines_are_parsed_one_by_one() {
    let a = base64::engine::general_purpose::URL_SAFE_NO_PAD.encode(sample_bytes());
    let content = format!("# exported notes\n{}\r\n\n   \n  {}  \n!!!!\n", a, a);
    let results = parse_csv_notes(&content);
    assert_eq!(results.len(), 3);
    let first = results[0].as_ref().unwrap();
    let second = results[1].as_ref().unwrap();
    assert_eq!(first.notes.len(), 2);
    assert_eq!(second.federation_id, "deadbeef");
    assert!(results[2].is_err());
}

#[test]
fn csv_without_entries_is_empty() {
    assert!(parse_csv_notes("").is_empty());
    assert!(parse_csv_notes("# only a comment\n\n").is_empty());
}

#[test]
fn huge_vec_length_is_an_error_not_a_wrap() {
    // A length of 2^32 + 2, followed by only two bytes.
    let data = [0xFFu8, 0, 0, 0, 1, 0, 0, 0, 2, 10, 11];
    let mut pos = 0;
    let e = read_vec_bytes(&data, &mut pos).unwrap_err();
    assert!(matches!(e, OobNotesError::DecodeError(ref m)
        if m == "Unexpected end of data reading 4294967298 bytes at position 9"));
}

#[test]
fn huge_part_length_is_reported() {
    // A part whose length is 2^32 + 1, with one byte of data.
    let bytes = vec![1u8, 1, 0xFF, 0, 0, 0, 1, 0, 0, 0, 1, 7];
    let text = base64::engine::general_purpose::URL_SAFE_NO_PAD.encode(bytes);
    let msg = decode_message(parse_oob_notes(&text));
    assert_eq!(msg, "Variant data length 4294967297 exceeds remaining data at position 11");
}

#[test]
fn part_body_stays_within_its_length() {
    // A federation id prefix part that announces 2 bytes of data but needs 4;
    // the next part's bytes are not read in its place.
    let full = sample_bytes();
    let mut bytes = vec![2u8, 1, 2, 0xde, 0xad];
    bytes.extend_from_slice(&full[8..]);
    let text = base64::engine::general_purpose::URL_SAFE_NO_PAD.encode(bytes);
    let msg = decode_message(parse_oob_notes(&text));
    assert_eq!(msg, "Unexpected end of data reading 4 bytes at position 3");
}

#[test]
fn encodings_and_whitespace_do_not_matter() {
    let bytes = sample_bytes();
    let hrp = bech32::Hrp::parse("fedimint").unwrap();
    let bech = bech32::encode::<bech32::Bech32m>(hrp, &bytes).unwrap();
    let b64 = base64::engine::general_purpose::STANDARD_NO_PAD.encode(&bytes);
    let spaced_bech = format!(" {}\n\t{} ", &bech[..12], &bech[12..]);
    let spaced_b64 = format!("{} {}\r\n", &b64[..5], &b64[5..]);
    let results = [
        parse_oob_notes(&bech).unwrap(),
        parse_oob_notes(&b64).unwrap(),
        parse_oob_notes(&spaced_bech).unwrap(),
        parse_oob_notes(&spaced_b64).unwrap(),
    ];
    for r in &results {
        assert_eq!(r.federation_id, results[0].federation_id);
        assert_eq!(r.notes.len(), results[0].notes.len());
        for (a, b) in r.notes.iter().zip(results[0].notes.iter()) {
            assert_eq!(a.nonce, b.nonce);
            assert_eq!(a.amount_msat, b.amount_msat);
        }
    }
    // Errors agree as well.
    let broken = &bytes[..bytes.len() - 1];
    let bech_err = bech32::encode::<bech32::Bech32m>(hrp, broken).unwrap();
    let b64_err = base64::engine::general_purpose::URL_SAFE.encode(broken);
    assert_eq!(
        decode_message(parse_oob_notes(&bech_err)),
        decode_message(parse_oob_notes(&format!(" {} ", b64_err)))
    );
}
