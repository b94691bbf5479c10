use geckodoodad::address::HexAddress;
use geckodoodad::gecko::{gecko_slices_ok_exec, GeckoCode, ReadError};

fn strings(v: &[&str]) -> Vec<String> {
    v.iter().map(|s| s.to_string()).collect()
}

#[test]
fn reads_a_full_code() {
    let text = "$Infinite Jumps [Achilles, Dan Salvato]\n*Lets you jump forever.\n*Second line\nC2000000 00000001\n04123456 0000ABCD\nnot a code line\n";
    let g = GeckoCode::from_str(text).unwrap();
    assert_eq!(g.header, "Infinite Jumps [Achilles, Dan Salvato]");
    assert_eq!(g.version, "");
    assert_eq!(g.authors, Some(strings(&["Achilles", "Dan Salvato"])));
    assert_eq!(g.description, Some(strings(&["Lets you jump forever.", "Second line"])));
    assert_eq!(g.hex_lines, strings(&["C2000000 00000001", "04123456 0000ABCD"]));
    assert_eq!(
        g.hex_words,
        strings(&["C2000000", "00000001", "04123456", "0000ABCD"])
    );
    assert_eq!(
        g.addresses,
        Some(strings(&["0x00000000", "0x00000001", "0x00123456", "0x0000ABCD"]))
    );
    assert!(!g.deprecated);
    assert_eq!(g.categories, Some(Vec::new()));
}

#[test]
fn odd_opcodes_reach_into_the_opcode() {
    let g = GeckoCode::from_str("$Code\n05123456 2B00FFFF\n").unwrap();
    assert_eq!(g.addresses, Some(strings(&["0x01123456", "0x0100FFFF"])));
}

#[test]
fn words_are_upper_cased_and_checked() {
    // a lower-case word, a word with a placeholder, a word that is too short
    let g = GeckoCode::from_str("$Code\nc2abcdef 0000000? 1234 a7000010\n").unwrap();
    assert_eq!(g.hex_words, strings(&["C2ABCDEF", "0000000?", "A7000010"]));
    assert_eq!(g.addresses, Some(strings(&["0x00ABCDEF", "0x01000010"])));
}

#[test]
fn opcodes_outside_the_table_name_no_address() {
    let g = GeckoCode::from_str("$Code\n0A000000 40000000\n").unwrap();
    assert_eq!(g.hex_words, strings(&["0A000000", "40000000"]));
    assert_eq!(g.addresses, Some(Vec::new()));
}

#[test]
fn code_line_may_omit_the_space() {
    let g = GeckoCode::from_str("$Code\n0400000000000001\n").unwrap();
    assert_eq!(g.hex_lines, strings(&["0400000000000001"]));
    // the line is one word of sixteen characters, so it is no code word
    assert_eq!(g.hex_words, Vec::<String>::new());
}

#[test]
fn code_line_must_start_at_the_line_start() {
    assert!(GeckoCode::from_str("$Code\n 04000000 00000001\n").is_none());
}

#[test]
fn no_header_no_code() {
    assert!(GeckoCode::from_str("Code\n04000000 00000001\n").is_none());
    assert!(GeckoCode::from_str("").is_none());
}

#[test]
fn empty_header_no_code() {
    assert!(GeckoCode::from_str("$   \n04000000 00000001\n").is_none());
}

#[test]
fn no_code_line_no_code() {
    assert!(GeckoCode::from_str("$Code\n*only a description\n").is_none());
}

#[test]
fn carriage_returns_are_line_ends() {
    let g = GeckoCode::from_str("$Code [A]\r\n*desc\r\n04000000 00000001\r\n").unwrap();
    assert_eq!(g.header, "Code [A]");
    assert_eq!(g.description, Some(strings(&["desc"])));
    assert_eq!(g.hex_lines, strings(&["04000000 00000001"]));
}

#[test]
fn authors_come_from_the_first_nonempty_brackets() {
    let g = GeckoCode::from_str("$Name [] x [ One ,,Two] [Three]\n04000000 00000000\n").unwrap();
    assert_eq!(g.authors, Some(strings(&["One", "", "Two"])));
    let g = GeckoCode::from_str("$Name without authors\n04000000 00000000\n").unwrap();
    assert_eq!(g.authors, None);
    let g = GeckoCode::from_str("$Name [[a]b]\n04000000 00000000\n").unwrap();
    assert_eq!(g.authors, Some(strings(&["[a"])));
}

#[test]
fn unicode_digits_are_digits() {
    // Arabic-Indic digits: two bytes each, so the opcode slice falls on a boundary
    let text = "$Code\n\u{664}\u{660}\u{660}\u{660}\u{660}\u{660}\u{660}\u{660} 00000000\n";
    assert!(gecko_slices_ok_exec(text));
    let g = GeckoCode::from_str(text).unwrap();
    assert_eq!(g.hex_words.len(), 2);
    assert_eq!(g.addresses, Some(strings(&["0x00000000"])));
}

#[test]
fn opcode_slicing_off_a_boundary_is_detected() {
    // Devanagari digits: three bytes each
    let text = "$Code\n\u{967}\u{968}\u{969}\u{96a}\u{96b}\u{96c}\u{96d}\u{96e} 00000000\n";
    assert!(!gecko_slices_ok_exec(text));
    assert!(gecko_slices_ok_exec("$Code\n04000000 00000001\n"));
    assert!(gecko_slices_ok_exec("no header\n\u{967}\u{968}\u{969}\u{96a}\u{96b}\u{96c}\u{96d}\u{96e} 00000000\n"));
}

#[test]
fn parsed_code_shape() {
    let g = GeckoCode::from_str("$C\n04000010 C3FFFFFF\n*x\n28001234 ????????\n").unwrap();
    assert!(!g.header.is_empty());
    assert!(!g.hex_lines.is_empty());
    assert!(g.hex_words.iter().all(|w| w.chars().count() == 8));
    for a in g.addresses.unwrap() {
        assert_eq!(a.len(), 10);
        assert!(a.starts_with("0x"));
    }
}

#[test]
fn hex_addresses() {
    assert_eq!(
        HexAddress::new("80aBcD"),
        Some(HexAddress::Address("80aBcD".to_string()))
    );
    assert_eq!(HexAddress::new("80ABC"), None);
    assert_eq!(HexAddress::new("80ABCDE"), None);
    assert_eq!(HexAddress::new("80ABCG"), None);
    assert_eq!(
        HexAddress::new("\u{661}2345F"),
        Some(HexAddress::Address("\u{661}2345F".to_string()))
    );
}

#[test]
fn checked_reading() {
    let bad = "$Code\n\u{967}\u{968}\u{969}\u{96a}\u{96b}\u{96c}\u{96d}\u{96e} 00000000\n";
    assert_eq!(GeckoCode::try_from_str(bad), Err(ReadError::OpcodeOffBoundary));
    let good = GeckoCode::try_from_str("$Code\n04000000 00000001\n").unwrap().unwrap();
    assert_eq!(good.header, "Code");
    assert_eq!(GeckoCode::try_from_str("no header"), Ok(None));
}

#[test]
fn indented_lines_hold_no_code() {
    assert_eq!(GeckoCode::from_str("$Name\n  04000000 00000001\n\t*desc\n"), None);
    assert_eq!(GeckoCode::from_str("$Name\n\u{3000}04000000 00000001\n\n"), None);
    assert!(GeckoCode::from_str("$Name\n04000000 00000001\n").is_some());
}

#[test]
fn crlf_line_breaks_read_alike() {
    let s = "$Name [A]\n*about\n04000000 00000001\n\nC2000000 00000002\n";
    let crlf = s.replace("\n", "\r\n");
    let a = GeckoCode::from_str(s);
    assert!(a.is_some());
    assert_eq!(GeckoCode::from_str(&crlf), a);
}
