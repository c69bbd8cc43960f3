use pattern_scanner::{Error, Pattern};

fn invalid(msg: &str) -> Error {
    Error::InvalidPattern(msg.to_string())
}

#[test]
fn ida_pattern_from_readme() {
    let p = Pattern::from_ida("48 8B 05 ? ? ? ? 48 85 C0").unwrap();
    assert_eq!(p.len(), 10);
    assert!(!p.is_empty());
    assert_eq!(p.as_str(), "48 8B 05 ? ? ? ? 48 85 C0");
    let data = [0x48, 0x8B, 0x05, 1, 2, 3, 4, 0x48, 0x85, 0xC0];
    assert!(p.matches(&data, 0));
    let other = [0x48, 0x8B, 0x06, 1, 2, 3, 4, 0x48, 0x85, 0xC0];
    assert!(!p.matches(&other, 0));
}

#[test]
fn ida_double_question_mark_is_wildcard() {
    let p = Pattern::from_ida("?? 90 ??").unwrap();
    assert_eq!(p.len(), 3);
    assert!(p.matches(&[7, 0x90, 9], 0));
    assert!(!p.matches(&[7, 0x91, 9], 0));
    assert_eq!(p.first_byte(), Some(0x90));
}

#[test]
fn ida_lower_case_plus_sign_and_leading_zeros() {
    let p = Pattern::from_ida("8b +1f 00ff").unwrap();
    assert!(p.matches(&[0x8B, 0x1F, 0xFF], 0));
    assert_eq!(p.len(), 3);
}

#[test]
fn ida_any_white_space_separates_words() {
    let p = Pattern::from_ida("\t 48\n\n8B\u{3000}05  ").unwrap();
    assert_eq!(p.len(), 3);
    assert!(p.matches(&[0x48, 0x8B, 0x05], 0));
    assert_eq!(p.as_str(), "\t 48\n\n8B\u{3000}05  ");
}

#[test]
fn ida_bad_word_is_reported() {
    assert_eq!(Pattern::from_ida("48 GG 05").unwrap_err(), invalid("bu ne hex mi: GG"));
    assert_eq!(Pattern::from_ida("48 ??? 05").unwrap_err(), invalid("bu ne hex mi: ???"));
    assert_eq!(Pattern::from_ida("100").unwrap_err(), invalid("bu ne hex mi: 100"));
    assert_eq!(Pattern::from_ida("+").unwrap_err(), invalid("bu ne hex mi: +"));
    assert_eq!(Pattern::from_ida("-1").unwrap_err(), invalid("bu ne hex mi: -1"));
    assert_eq!(Pattern::from_ida("0x48").unwrap_err(), invalid("bu ne hex mi: 0x48"));
}

#[test]
fn ida_first_bad_word_wins() {
    assert_eq!(Pattern::from_ida("ZZ YY").unwrap_err(), invalid("bu ne hex mi: ZZ"));
}

#[test]
fn ida_empty_text_is_rejected() {
    assert_eq!(Pattern::from_ida("").unwrap_err(), invalid("bos pattern mi olur amk"));
    assert_eq!(Pattern::from_ida(" \t\n ").unwrap_err(), invalid("bos pattern mi olur amk"));
}

#[test]
fn code_pattern_from_readme() {
    let p = Pattern::from_code(b"\x48\x8B\x05\x00\x00\x00\x00\x48\x85\xC0", "xxx????xxx").unwrap();
    assert_eq!(p.len(), 10);
    assert_eq!(p.as_str(), "code-style (10 bytes)");
    let data = [0x48, 0x8B, 0x05, 9, 9, 9, 9, 0x48, 0x85, 0xC0];
    assert!(p.matches(&data, 0));
}

#[test]
fn code_and_ida_styles_describe_the_same_pattern() {
    let a = Pattern::from_ida("48 8B 05 ? ? ? ? 48 85 C0").unwrap();
    let b = Pattern::from_code(b"\x48\x8B\x05\x00\x00\x00\x00\x48\x85\xC0", "xxx????xxx").unwrap();
    let samples: [[u8; 10]; 3] = [
        [0x48, 0x8B, 0x05, 1, 2, 3, 4, 0x48, 0x85, 0xC0],
        [0x48, 0x8B, 0x05, 0, 0, 0, 0, 0x48, 0x85, 0xC1],
        [0x49, 0x8B, 0x05, 0, 0, 0, 0, 0x48, 0x85, 0xC0],
    ];
    for s in samples.iter() {
        assert_eq!(a.matches(s, 0), b.matches(s, 0));
    }
    assert_eq!(a.first_byte(), b.first_byte());
}

#[test]
fn code_mask_length_is_counted_in_bytes() {
    assert_eq!(
        Pattern::from_code(&[1, 2, 3], "xx").unwrap_err(),
        invalid("bytes ile mask uyusmuyor")
    );
    // "é" is two bytes of UTF-8 but one character: the lengths agree, and the
    // pattern has one position.
    let p = Pattern::from_code(&[1, 2], "\u{e9}").unwrap();
    assert_eq!(p.len(), 1);
    assert!(p.matches(&[200], 0));
}

#[test]
fn code_only_lower_case_x_fixes_a_byte() {
    let p = Pattern::from_code(&[1, 2, 3], "xX?").unwrap();
    assert!(p.matches(&[1, 99, 98], 0));
    assert!(!p.matches(&[2, 99, 98], 0));
}

#[test]
fn full_mask_is_exact_pattern() {
    let a = Pattern::from_code(&[5, 6, 7], "xxx").unwrap();
    let b = Pattern::from_bytes(&[5, 6, 7]);
    for s in [[5u8, 6, 7], [5, 6, 8], [0, 6, 7]].iter() {
        assert_eq!(a.matches(s, 0), b.matches(s, 0));
    }
}

#[test]
fn raw_pattern_text_and_matching() {
    let p = Pattern::from_bytes(&[0x48, 0x8B, 0x05]);
    assert_eq!(p.as_str(), "raw (3 bytes)");
    assert_eq!(p.len(), 3);
    assert!(p.matches(&[0, 0x48, 0x8B, 0x05], 1));
    assert!(!p.matches(&[0, 0x48, 0x8B, 0x06], 1));
    let empty = Pattern::from_bytes(&[]);
    assert!(empty.is_empty());
    assert_eq!(empty.as_str(), "raw (0 bytes)");
    assert!(empty.matches(&[1, 2], 2));
    assert!(!empty.matches(&[1, 2], 3));
}

#[test]
fn raw_pattern_text_counts_many_bytes() {
    let bytes = vec![0u8; 1234];
    assert_eq!(Pattern::from_bytes(&bytes).as_str(), "raw (1234 bytes)");
}

#[test]
fn pattern_does_not_match_past_the_end() {
    let p = Pattern::from_ida("01 02").unwrap();
    assert!(p.matches(&[9, 1, 2], 1));
    assert!(!p.matches(&[9, 1, 2], 2));
    assert!(!p.matches(&[9, 1, 2], 100));
}

#[test]
fn wildcards_match_where_they_fit() {
    let p = Pattern::from_ida("? ? ?").unwrap();
    assert!(p.matches(&[1, 2, 3], 0));
    assert!(!p.matches(&[1, 2], 0));
    assert_eq!(p.first_byte(), None);
}

#[test]
fn first_byte_skips_wildcards() {
    let p = Pattern::from_ida("? ? 48 8B").unwrap();
    assert_eq!(p.first_byte(), Some(0x48));
}

#[test]
fn clone_keeps_positions_and_text() {
    let p = Pattern::from_ida("48 ? 05").unwrap();
    let c = p.clone();
    assert_eq!(c.as_str(), p.as_str());
    assert_eq!(c.len(), p.len());
    assert!(c.matches(&[0x48, 0, 0x05], 0));
    let q = Pattern::from_bytes(&[1, 2]);
    assert_eq!(q.clone().as_str(), "raw (2 bytes)");
}

#[test]
fn ida_text_of_a_code_pattern_parses_back() {
    let code = Pattern::from_code(&[0x0A, 0xFF, 0x00, 0x3C], "x?xx").unwrap();
    let ida = Pattern::from_ida("0A ? 00 3C").unwrap();
    assert_eq!(code.len(), ida.len());
    assert_eq!(code.first_byte(), ida.first_byte());
    for s in [[0x0Au8, 1, 0, 0x3C], [0x0A, 0xFF, 0, 0x3C], [0x0B, 0xFF, 0, 0x3C]].iter() {
        assert_eq!(code.matches(s, 0), ida.matches(s, 0));
    }
}

#[test]
fn matching_shifts_and_survives_appended_bytes() {
    let p = Pattern::from_ida("01 ? 03").unwrap();
    let data = [9, 9, 1, 2, 3];
    assert_eq!(p.matches(&data, 2), p.matches(&data[2..], 0));
    let longer = [9, 9, 1, 2, 3, 7, 7];
    assert!(p.matches(&longer, 2));
}

#[test]
fn first_byte_of_each_constructor() {
    assert_eq!(Pattern::from_bytes(&[7, 8]).first_byte(), Some(7));
    assert_eq!(Pattern::from_bytes(&[]).first_byte(), None);
    assert_eq!(Pattern::from_code(&[1, 2, 3], "??x").unwrap().first_byte(), Some(3));
    assert_eq!(Pattern::from_code(&[1, 2], "??").unwrap().first_byte(), None);
}
