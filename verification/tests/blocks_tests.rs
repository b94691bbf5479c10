use geckodoodad::blocks::{
    blocks_slice_ok_exec, try_extract_and_destructure_gecko_codes, extract_and_destructure_gecko_codes, extract_whole_gecko_codes,
    filter_duplicate_blocks, split_code_blocks,
};

#[test]
fn whole_codes_skip_text_before_the_first_code() {
    let page = "Some intro text\r\n$Code One [A]\r\n04000000 00000001\r\n&lt;/pre&gt;\r\ntrailing\r\n$Code Two &amp; more\r\nC2000000 00000002\r\n";
    assert_eq!(
        extract_whole_gecko_codes(page),
        "$Code One [A]\n04000000 00000001\n\n$Code Two & more\nC2000000 00000002\n\n"
    );
}

#[test]
fn whole_codes_keep_a_page_that_starts_with_a_code() {
    let page = "$A\n04000000 00000000\n$B\n04000000 00000001\n";
    assert_eq!(
        extract_whole_gecko_codes(page),
        "$A\n04000000 00000000\n\n$B\n04000000 00000001\n\n"
    );
}

#[test]
fn whole_codes_drop_blank_blocks() {
    assert_eq!(extract_whole_gecko_codes("intro\n$   \n$A\n"), "$A\n\n");
    assert_eq!(extract_whole_gecko_codes(""), "");
}

#[test]
fn entities_are_decoded_in_order() {
    let page = "$&lt;&gt;&quot;&apos;&cent;&pound;&yen;&euro;&copy;&reg; &amp;lt;\n";
    assert_eq!(
        extract_whole_gecko_codes(page),
        "$<>\"'\u{a2}\u{a3}\u{a5}\u{20ac}\u{a9}\u{ae} <\n\n"
    );
    let page = "$A\n&lt;/div&gt;\nB\n";
    assert_eq!(extract_whole_gecko_codes(page), "$AB\n\n");
}

#[test]
fn repeated_blocks_are_filtered() {
    let whole = "$A\n04000000 00000000\n\n$A\n04000000 00000000\n\n$B\n04000000 00000001\n\n";
    assert_eq!(
        filter_duplicate_blocks(whole),
        "$A\n04000000 00000000\n\n$B\n04000000 00000001"
    );
}

#[test]
fn filtering_is_stable_on_filtered_text() {
    let whole = "$A\n1\n\n$B\n2\n\n$A\n1\n\n";
    let once = filter_duplicate_blocks(whole);
    assert_eq!(once, "$A\n1\n\n$B\n2");
    assert_eq!(filter_duplicate_blocks(&once), once);
}

#[test]
fn filtering_empty_text() {
    assert_eq!(filter_duplicate_blocks(""), "$");
}

#[test]
fn code_blocks_get_their_dollar_back() {
    assert_eq!(
        split_code_blocks("$A\n1\n$B\n2"),
        vec!["$A\n1".to_string(), "$B\n2".to_string()]
    );
    assert_eq!(split_code_blocks(""), vec!["".to_string()]);
}

#[test]
fn destructuring_reads_every_block() {
    let input = "$A\n04000000 00000001\n$B\n*no code\n$C\nC2000000 00000000";
    assert!(blocks_slice_ok_exec(input));
    let codes = extract_and_destructure_gecko_codes(input);
    assert_eq!(codes.len(), 2);
    assert_eq!(codes[0].header, "A");
    assert_eq!(codes[1].header, "C");
    assert_eq!(
        codes[1].addresses,
        Some(vec!["0x00000000".to_string(), "0x00000000".to_string()])
    );
}

#[test]
fn slicing_check_covers_every_block() {
    let input = "$A\n04000000 00000001\n$B\n\u{967}\u{968}\u{969}\u{96a}\u{96b}\u{96c}\u{96d}\u{96e} 00000000";
    assert!(!blocks_slice_ok_exec(input));
}

#[test]
fn checked_destructuring() {
    let bad = "$A\n04000000 00000001\n$B\n\u{967}\u{968}\u{969}\u{96a}\u{96b}\u{96c}\u{96d}\u{96e} 00000000";
    assert!(try_extract_and_destructure_gecko_codes(bad).is_err());
    let good = try_extract_and_destructure_gecko_codes("$A\n04000000 00000001\n$B\nno code").unwrap();
    assert_eq!(good.len(), 1);
    assert_eq!(good[0].hex_words, vec!["04000000".to_string(), "00000001".to_string()]);
}

#[test]
fn filtered_text_splits_into_kept_blocks() {
    let whole = "$A\n1\n\n$B\n2\n\n$A\n1\n\n";
    let filtered = filter_duplicate_blocks(whole);
    assert_eq!(
        split_code_blocks(&filtered),
        vec!["$A\n1\n".to_string(), "$B\n2".to_string()]
    );
    assert_eq!(split_code_blocks(&filter_duplicate_blocks("")), vec!["$".to_string()]);
}

#[test]
fn crlf_pages_extract_alike() {
    let page = "intro\n$A [x]\n04000000 00000001\n\n\n$B\nC2000000 00000002\n";
    let crlf = page.replace("\n", "\r\n");
    assert_eq!(extract_whole_gecko_codes(&crlf), extract_whole_gecko_codes(page));
}

#[test]
fn text_before_the_first_block_is_ignored() {
    let y = "A\n04000000 00000001\n$B\n04000000 00000002\n";
    let with_intro = format!("intro text\nmore intro{}{}", "\n$", y);
    let alone = format!("${}", y);
    assert_eq!(extract_whole_gecko_codes(&with_intro), extract_whole_gecko_codes(&alone));
    let blank_intro = format!("  \t{}{}", "\n$", y);
    assert_eq!(extract_whole_gecko_codes(&blank_intro), extract_whole_gecko_codes(&alone));
}

#[test]
fn joined_texts_read_as_both() {
    let x = "$A\n04000000 00000001\n$B\n04000000 00000002";
    let y = "$C\nC2000000 00000003\n";
    let joined = format!("{}\n{}", x, y);
    let mut both = extract_and_destructure_gecko_codes(x);
    both.extend(extract_and_destructure_gecko_codes(y));
    assert_eq!(both.len(), 3);
    assert_eq!(extract_and_destructure_gecko_codes(&joined), both);
}

#[test]
fn filtered_codes_extract_to_themselves() {
    let page = "$A\n04000000 00000001\n$B\n04000000 00000002\n$A\n04000000 00000001\n";
    let filtered = filter_duplicate_blocks(&extract_whole_gecko_codes(page));
    assert_eq!(filtered, "$A\n04000000 00000001\n\n$B\n04000000 00000002");
    let again = extract_whole_gecko_codes(&filtered);
    assert_eq!(again, format!("{}\n\n", filtered));
    assert_eq!(filter_duplicate_blocks(&again), filtered);
    assert_eq!(extract_whole_gecko_codes("$"), "");
    assert_eq!(filter_duplicate_blocks(""), "$");
}

#[test]
fn filtered_codes_read_each_kept_block_once() {
    let page = "$A\n04000000 00000001\n$B\n04000000 00000002\n$A\n04000000 00000001\n";
    let filtered = filter_duplicate_blocks(&extract_whole_gecko_codes(page));
    let codes = extract_and_destructure_gecko_codes(&filtered);
    let a = geckodoodad::gecko::GeckoCode::from_str("$A\n04000000 00000001").unwrap();
    let b = geckodoodad::gecko::GeckoCode::from_str("$B\n04000000 00000002").unwrap();
    assert_eq!(codes, vec![a, b]);
}

#[test]
fn destructuring_twice_gives_the_same_codes() {
    let input = "$A\n04000000 00000001\n$B\n04000000 00000002\n$C\nC2000000 00000003\n";
    let first = extract_and_destructure_gecko_codes(input);
    assert_eq!(first.len(), 3);
    assert_eq!(extract_and_destructure_gecko_codes(input), first);
    assert_eq!(try_extract_and_destructure_gecko_codes(input), Ok(first));
}

#[test]
fn extraction_settles_after_one_round() {
    let pages = [
        "intro\n$A [x]\n04000000 00000001\n\n$B\nC2000000 00000002\n$A [x]\n04000000 00000001\n",
        "\n\n $A\n04000000 00000001\n",
        "no codes here\n",
        "$A\n\n04000000 00000001\n\n$\n$B\n04000000 00000002",
    ];
    for page in pages {
        let filtered = filter_duplicate_blocks(&extract_whole_gecko_codes(page));
        let again = extract_whole_gecko_codes(&filtered);
        if filtered == "$" {
            assert_eq!(again, "");
        } else {
            assert_eq!(again, format!("{}\n\n", filtered));
        }
        assert_eq!(filter_duplicate_blocks(&again), filtered);
    }
}
