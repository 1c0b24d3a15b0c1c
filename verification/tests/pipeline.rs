use qr_decoder::enrich::{enrich_barcodes_with_dates, enrich_records, BarcodeData, ScanResult};
use qr_decoder::grammar::{is_date_text, is_pagopa_text, page_index_of, pagopa_qr_code_from_payload};
use qr_decoder::markup::{parse_markup_blocks, RawBlock, RawElement};
use qr_decoder::pages::{
    collect_items_for_root, extract_dates_and_codes_from_html, process_pages, DateCodePair, Kind,
};
use qr_decoder::rank::{rank_items, Item};
use qr_decoder::style::Score;
use qr_decoder::text::clean_text;

fn element(texts: &[&str], styles: &[&str]) -> RawElement {
    RawElement {
        texts: texts.iter().map(|t| t.to_string()).collect(),
        styles: styles.iter().map(|s| s.to_string()).collect(),
    }
}

fn block(id: &str, elements: Vec<RawElement>) -> RawBlock {
    RawBlock { id: id.to_string(), elements }
}

// Whitespace stripping removes every space, tab and newline and keeps the
// rest in order.
#[test]
fn strip_removes_all_whitespace() {
    assert_eq!(clean_text(" a b\tc\nd "), "abcd");
    assert_eq!(clean_text("0 1\t2\n3\r4"), "01234");
    assert_eq!(clean_text("\t\n \r"), "");
    assert_eq!(clean_text("already-clean"), "already-clean");
}

#[test]
fn date_grammar_accepts_strict_form_only() {
    assert!(is_date_text("01/03/2024"));
    assert!(!is_date_text("1/3/2024"));
    assert!(!is_date_text("01/03/2024 "));
    assert!(!is_date_text("ab/03/2024"));
    assert!(!is_date_text(" 01/03/2024"));
    assert!(!is_date_text("01-03-2024"));
}

#[test]
fn payment_code_grammar_accepts_plain_and_grouped() {
    assert!(is_pagopa_text("301234567890123456"));
    assert!(is_pagopa_text("3012 3456 7890 1234 56"));
    assert!(is_pagopa_text("171234567890123456"));
    assert!(is_pagopa_text("3012 345678901234 56"));
}

#[test]
fn payment_code_grammar_rejects_bad_spacing_and_prefixes() {
    assert!(!is_pagopa_text("3012  3456 7890 1234 56"));
    assert!(!is_pagopa_text("201234567890123456"));
    assert!(!is_pagopa_text("30123456789012345"));
    assert!(!is_pagopa_text("3012345678901234567"));
    assert!(!is_pagopa_text("30 12 3456 7890 1234 56"));
    assert!(!is_pagopa_text(" 301234567890123456"));
}

#[test]
fn page_identifiers_need_the_page_prefix_and_digits() {
    assert_eq!(page_index_of("page1"), Some(1));
    assert_eq!(page_index_of("page007"), Some(7));
    assert_eq!(page_index_of("page"), None);
    assert_eq!(page_index_of("xpage1"), None);
    assert_eq!(page_index_of("page1x"), None);
    assert_eq!(page_index_of("page99999999999999999999"), None);
}

// Deduplication keeps the minimum-score occurrence of a value.
#[test]
fn dedup_keeps_best_scored_duplicate() {
    let items = vec![
        Item { val: "301122334455667788".to_string(), score: Score::Finite(144) },
        Item { val: "301122334455667788".to_string(), score: Score::Finite(25) },
    ];
    let ranked = rank_items(items);
    assert_eq!(ranked.len(), 1);
    assert_eq!(ranked[0].val, "301122334455667788");
    assert_eq!(ranked[0].score, Score::Finite(25));
}

#[test]
fn ranking_orders_by_score_with_infinite_last() {
    let items = vec![
        Item { val: "a1".to_string(), score: Score::Infinite },
        Item { val: "b2".to_string(), score: Score::Finite(100) },
        Item { val: "c3".to_string(), score: Score::Finite(9) },
    ];
    let ranked = rank_items(items);
    assert_eq!(ranked.len(), 3);
    assert_eq!(ranked[0].val, "c3");
    assert_eq!(ranked[1].val, "b2");
    assert_eq!(ranked[2].val, "a1");
}

// A candidate element scores by the nearest ancestor declaring each axis.
#[test]
fn candidates_score_from_nearest_styles() {
    let elements = vec![
        element(&["01/03/2024"], &["top:3;left:4"]),
        element(&["02/03/2024"], &["", "top: 6 ; LEFT: 8px"]),
        element(&["03/03/2024"], &["color: red"]),
    ];
    let ranked = collect_items_for_root(&elements, Kind::Date);
    assert_eq!(ranked.len(), 3);
    assert_eq!(ranked[0].val, "01/03/2024");
    assert_eq!(ranked[0].score, Score::Finite(25_000_000_000_000));
    assert_eq!(ranked[1].val, "02/03/2024");
    assert_eq!(ranked[1].score, Score::Finite(100_000_000_000_000));
    assert_eq!(ranked[2].val, "03/03/2024");
    assert_eq!(ranked[2].score, Score::Infinite);
}

#[test]
fn grouped_code_is_stored_stripped() {
    let elements = vec![element(&["3011 2233 4455 6677 88"], &["top:1;left:1"])];
    let ranked = collect_items_for_root(&elements, Kind::PagoPa);
    assert_eq!(ranked.len(), 1);
    assert_eq!(ranked[0].val, "301122334455667788");
}

#[test]
fn joined_text_is_classified_before_stripping() {
    // the grammar sees the raw joined text, so a date split over two text
    // nodes does not match
    let elements = vec![element(&["01/03/", "2024"], &["top:1;left:1"])];
    assert_eq!(collect_items_for_root(&elements, Kind::Date).len(), 0);
}

// A page missing either kind contributes zero pairs; otherwise pairs are
// zipped by rank up to the shorter list.
#[test]
fn page_without_codes_contributes_no_pairs() {
    let blocks = vec![block(
        "page1",
        vec![
            element(&["01/03/2024"], &["top:1;left:1"]),
            element(&["02/03/2024"], &["top:2;left:2"]),
        ],
    )];
    assert_eq!(process_pages(&blocks).len(), 0);
}

#[test]
fn page_with_two_dates_one_code_contributes_one_pair() {
    let blocks = vec![block(
        "page1",
        vec![
            element(&["01/03/2024"], &["top:1;left:1"]),
            element(&["02/03/2024"], &["top:2;left:2"]),
            element(&["301122334455667788"], &["top:3;left:3"]),
        ],
    )];
    let pairs = process_pages(&blocks);
    assert_eq!(pairs.len(), 1);
    assert_eq!(pairs[0].0, "01/03/2024");
    assert_eq!(pairs[0].1, "301122334455667788");
}

#[test]
fn pages_are_ordered_by_numeric_suffix_not_document_order() {
    let blocks = vec![
        block(
            "page2",
            vec![
                element(&["02/02/2022"], &["top:1;left:1"]),
                element(&["301122334455667788"], &["top:1;left:2"]),
            ],
        ),
        block(
            "page1",
            vec![
                element(&["01/01/2021"], &["top:1;left:1"]),
                element(&["111122334455667788"], &["top:1;left:2"]),
            ],
        ),
        block("chapter3", vec![element(&["03/03/2023"], &["top:1;left:1"])]),
    ];
    let pairs = process_pages(&blocks);
    assert_eq!(pairs.len(), 2);
    assert_eq!(pairs[0].0, "01/01/2021");
    assert_eq!(pairs[1].0, "02/02/2022");
}

#[test]
fn extract_code_prefixed_form() {
    assert_eq!(
        pagopa_qr_code_from_payload("PAGOPA|002|301122334455667788|12345678901|1"),
        Some("301122334455667788".to_string())
    );
    assert_eq!(pagopa_qr_code_from_payload("unrelated text"), None);
}

#[test]
fn extract_code_rejects_near_misses() {
    // 10 digits in the middle group instead of 11
    assert_eq!(pagopa_qr_code_from_payload("PAGOPA|002|301122334455667788|1234567890|1"), None);
    // missing trailing digits
    assert_eq!(pagopa_qr_code_from_payload("PAGOPA|002|301122334455667788|12345678901|"), None);
    assert_eq!(pagopa_qr_code_from_payload(""), None);
}

#[test]
fn extract_code_structural_form() {
    let mut payload = String::new();
    payload.push_str("codfase=NBPA;18");
    payload.push_str("301122334455667788");
    payload.push_str("12");
    payload.push_str("112233445566");
    payload.push_str("10");
    payload.push_str("1122334455");
    payload.push_str("38961P1");
    payload.push_str("12345678901");
    payload.push_str("ABC DEF 09 GHI 1");
    payload.push_str(&"x".repeat(162));
    payload.push('A');
    assert_eq!(payload.chars().count(), 256);
    assert_eq!(
        pagopa_qr_code_from_payload(&payload),
        Some("301122334455667788".to_string())
    );
    // the terminal literal must be present
    let mut bad = payload.clone();
    bad.pop();
    bad.push('B');
    assert_eq!(pagopa_qr_code_from_payload(&bad), None);
}

fn one_page_html() -> String {
    "<html><body><div id=\"page1\"><p style=\"top:10;left:5\">01/03/2024</p><p style=\"top:12;left:4\">3011 2233 4455 6677 88</p></div></body></html>".to_string()
}

// End-to-end: markup conversion, pairing, date normalization, enrichment.
#[test]
fn end_to_end_single_page_pair_and_enrichment() {
    let html = one_page_html();
    let pairs = extract_dates_and_codes_from_html(&html);
    assert_eq!(pairs.len(), 1);
    assert_eq!(pairs[0].date, "2024-03-01T00:00:00+00:00");
    assert_eq!(pairs[0].code, "301122334455667788");

    let mut barcodes = vec![BarcodeData {
        symbology: "QR_CODE".to_string(),
        data: "PAGOPA|002|301122334455667788|12345678901|1".to_string(),
        date: None,
    }];
    enrich_records(&html, &mut barcodes);
    assert_eq!(barcodes.len(), 1);
    assert_eq!(barcodes[0].date, Some("2024-03-01T00:00:00+00:00".to_string()));
    assert_eq!(barcodes[0].symbology, "QR_CODE");
}

#[test]
fn unmatched_barcode_stays_undated() {
    let html = one_page_html();
    let mut barcodes = vec![
        BarcodeData {
            symbology: "EAN_13".to_string(),
            data: "4006381333931".to_string(),
            date: None,
        },
        BarcodeData {
            symbology: "QR_CODE".to_string(),
            data: "PAGOPA|002|999999999999999999|12345678901|1".to_string(),
            date: None,
        },
    ];
    enrich_records(&html, &mut barcodes);
    assert_eq!(barcodes[0].date, None);
    assert_eq!(barcodes[1].date, None);
}

// Running enrichment twice on the same inputs yields identical output.
#[test]
fn enrichment_is_deterministic() {
    let html = one_page_html();
    let make = || {
        vec![
            BarcodeData {
                symbology: "QR_CODE".to_string(),
                data: "PAGOPA|002|301122334455667788|12345678901|1".to_string(),
                date: None,
            },
            BarcodeData {
                symbology: "EAN_13".to_string(),
                data: "4006381333931".to_string(),
                date: None,
            },
        ]
    };
    let mut first = make();
    let mut second = make();
    enrich_records(&html, &mut first);
    enrich_records(&html, &mut second);
    assert_eq!(first, second);
    // and enriching an already-enriched list changes nothing
    let mut again = first.clone();
    enrich_records(&html, &mut again);
    assert_eq!(again, first);
}

#[test]
fn later_pair_with_same_code_wins() {
    let pairs = vec![
        DateCodePair {
            date: "2024-01-01T00:00:00+00:00".to_string(),
            code: "301122334455667788".to_string(),
        },
        DateCodePair {
            date: "2024-02-02T00:00:00+00:00".to_string(),
            code: "301122334455667788".to_string(),
        },
    ];
    let mut barcodes = vec![BarcodeData {
        symbology: "QR_CODE".to_string(),
        data: "PAGOPA|002|301122334455667788|12345678901|1".to_string(),
        date: None,
    }];
    enrich_barcodes_with_dates(&mut barcodes, &pairs);
    assert_eq!(barcodes[0].date, Some("2024-02-02T00:00:00+00:00".to_string()));
}

#[test]
fn invalid_calendar_dates_drop_their_pair() {
    let html = "<html><body><div id=\"page1\"><p style=\"top:1;left:1\">32/01/2024</p><p style=\"top:2;left:2\">301122334455667788</p></div></body></html>";
    assert_eq!(extract_dates_and_codes_from_html(html).len(), 0);
}

#[test]
fn leap_year_dates_are_validated() {
    let html_good = "<html><body><div id=\"page1\"><p style=\"top:1;left:1\">29/02/2024</p><p style=\"top:2;left:2\">301122334455667788</p></div></body></html>";
    let pairs = extract_dates_and_codes_from_html(html_good);
    assert_eq!(pairs.len(), 1);
    assert_eq!(pairs[0].date, "2024-02-29T00:00:00+00:00");

    let html_bad = "<html><body><div id=\"page1\"><p style=\"top:1;left:1\">29/02/2023</p><p style=\"top:2;left:2\">301122334455667788</p></div></body></html>";
    assert_eq!(extract_dates_and_codes_from_html(html_bad).len(), 0);
}

#[test]
fn markup_parsing_yields_positioned_blocks() {
    let html = one_page_html();
    let blocks = parse_markup_blocks(&html);
    let page: Vec<&RawBlock> = blocks.iter().filter(|b| b.id == "page1").collect();
    assert_eq!(page.len(), 1);
    assert_eq!(page[0].elements.len(), 2);
    assert_eq!(page[0].elements[0].texts.join(" ").trim(), "01/03/2024");
    assert!(page[0].elements[0].styles[0].contains("top:10"));
}

#[test]
fn empty_markup_yields_no_pairs() {
    assert_eq!(extract_dates_and_codes_from_html("").len(), 0);
    assert_eq!(extract_dates_and_codes_from_html("<p>hello</p>").len(), 0);
}

#[test]
fn scan_result_carries_barcodes() {
    let r = ScanResult {
        barcodes: vec![BarcodeData {
            symbology: "QR_CODE".to_string(),
            data: "x".to_string(),
            date: None,
        }],
    };
    assert_eq!(r.barcodes.len(), 1);
}
