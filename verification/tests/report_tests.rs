use geckodoodad::duplicates::duplicate_addresses;
use geckodoodad::gecko::GeckoCode;
use geckodoodad::report::{
    group_by_code_headers, parse_duplicate_addresses_md, render_consolidated_report,
    render_duplicates_report,
};

fn strings(v: &[&str]) -> Vec<String> {
    v.iter().map(|s| s.to_string()).collect()
}

fn sample_codes() -> Vec<GeckoCode> {
    vec![
        GeckoCode::from_str("$A\n04000001 04000002\n").unwrap(),
        GeckoCode::from_str("$B\n04000002 04000003\n").unwrap(),
        GeckoCode::from_str("$A\n04000003 04000001\n").unwrap(),
        GeckoCode::from_str("$Solo\n04000009 04000009\n").unwrap(),
    ]
}

#[test]
fn shared_addresses_are_listed_sorted() {
    let entries = duplicate_addresses(&sample_codes());
    assert_eq!(
        entries,
        vec![
            ("0x00000002".to_string(), strings(&["A", "B"])),
            ("0x00000003".to_string(), strings(&["A", "B"])),
        ]
    );
}

#[test]
fn no_codes_no_duplicates() {
    assert!(duplicate_addresses(&Vec::new()).is_empty());
}

#[test]
fn duplicates_report_text() {
    let entries = duplicate_addresses(&sample_codes());
    assert_eq!(
        render_duplicates_report(&entries),
        "## Duplicate address: 0x00000002\n- Found in code: A\n- Found in code: B\n\n## Duplicate address: 0x00000003\n- Found in code: A\n- Found in code: B\n\n"
    );
}

#[test]
fn duplicates_report_reads_back() {
    let entries = duplicate_addresses(&sample_codes());
    let text = render_duplicates_report(&entries);
    assert_eq!(parse_duplicate_addresses_md(&text), entries);
}

#[test]
fn report_reading_follows_the_prefixes() {
    let text = "- Found in code: Early\n## Duplicate address:X\n- Found in code:Y\n- Found in code: Z\n## Duplicate address: ## Duplicate address: W\n- Found in code: V\r\n";
    assert_eq!(
        parse_duplicate_addresses_md(text),
        vec![
            ("".to_string(), strings(&["Early"])),
            ("## Duplicate address:X".to_string(), strings(&["- Found in code:Y", "Z"])),
            ("W".to_string(), strings(&["V"])),
        ]
    );
}

#[test]
fn grouping_by_sorted_codes() {
    let map = vec![
        ("a1".to_string(), strings(&["B", "A"])),
        ("a2".to_string(), strings(&["A", "B"])),
        ("a3".to_string(), strings(&["C"])),
    ];
    assert_eq!(
        group_by_code_headers(map),
        vec![
            (strings(&["A", "B"]), strings(&["a1", "a2"])),
            (strings(&["C"]), strings(&["a3"])),
        ]
    );
}

#[test]
fn sorting_keeps_repeated_codes() {
    let map = vec![("a".to_string(), strings(&["b", "a", "b", "\u{e9}", "Z"]))];
    assert_eq!(
        group_by_code_headers(map),
        vec![(strings(&["Z", "a", "b", "b", "\u{e9}"]), strings(&["a"]))]
    );
}

#[test]
fn consolidated_report_text() {
    let groups = vec![
        (strings(&["A", "B"]), strings(&["0x00000002", "0x00000003"])),
        (strings(&["C"]), strings(&["0x00000004"])),
    ];
    assert_eq!(
        render_consolidated_report(&groups),
        "## Codes:\n- A\n- B\n### Shared addresses:\n- 0x00000002\n- 0x00000003\n\n## Codes:\n- C\n### Shared addresses:\n- 0x00000004\n\n"
    );
}

#[test]
fn report_reading_lists_each_address_once() {
    let text = "## Duplicate address: 0x1\n- Found in code: A\n## Duplicate address: 0x2\n- Found in code: B\n## Duplicate address: 0x1\n- Found in code: C\n";
    assert_eq!(
        parse_duplicate_addresses_md(text),
        vec![
            ("0x1".to_string(), strings(&["A", "C"])),
            ("0x2".to_string(), strings(&["B"])),
        ]
    );
}

#[test]
fn grouping_ignores_the_order_of_codes() {
    let m1 = vec![
        ("a1".to_string(), strings(&["C", "A", "B"])),
        ("a2".to_string(), strings(&["D"])),
    ];
    let m2 = vec![
        ("a1".to_string(), strings(&["B", "C", "A"])),
        ("a2".to_string(), strings(&["D"])),
    ];
    assert_eq!(group_by_code_headers(m1), group_by_code_headers(m2));
}

#[test]
fn grouping_ignores_the_order_of_addresses() {
    let m1 = vec![
        ("a1".to_string(), strings(&["A", "B"])),
        ("a2".to_string(), strings(&["C"])),
        ("a3".to_string(), strings(&["B", "A"])),
    ];
    let m2 = vec![
        ("a3".to_string(), strings(&["A", "B"])),
        ("a2".to_string(), strings(&["C"])),
        ("a1".to_string(), strings(&["B", "A"])),
    ];
    let mut g1 = group_by_code_headers(m1);
    let mut g2 = group_by_code_headers(m2);
    assert_eq!(g1, vec![(strings(&["A", "B"]), strings(&["a1", "a3"])), (strings(&["C"]), strings(&["a2"]))]);
    for g in [&mut g1, &mut g2] {
        for (_, addresses) in g.iter_mut() {
            addresses.sort();
        }
        g.sort();
    }
    assert_eq!(g1, g2);
}
