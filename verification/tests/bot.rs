use utc_telegram_bot::bot::{chat_reply, inline_query_matches, parse_message, photo_url, text_reply};
use utc_telegram_bot::converter::TransformList;
use utc_telegram_bot::manifest::{ImageManifest, Manifest};

fn table() -> String {
    let mut t = String::from("Upper\t");
    for code in 33u32..=126 {
        t.push(char::from_u32(code).unwrap().to_ascii_uppercase());
    }
    t.push('\n');
    t.push_str("Spaced\t");
    for code in 33u32..=126 {
        t.push(char::from_u32(code).unwrap());
    }
    t.push('\n');
    t
}

#[test]
fn parse_message_splits_name_and_text() {
    assert_eq!(
        parse_message("upper hello world"),
        (Some("upper".to_string()), Some("hello world".to_string()))
    );
    assert_eq!(
        parse_message("upper \t\n  hi "),
        (Some("upper".to_string()), Some("hi ".to_string()))
    );
}

#[test]
fn parse_message_needs_both_parts() {
    assert_eq!(parse_message("upper"), (None, None));
    assert_eq!(parse_message("upper   "), (None, None));
    assert_eq!(parse_message(""), (None, None));
}

#[test]
fn parse_message_empty_name() {
    assert_eq!(parse_message(" x"), (Some(String::new()), Some("x".to_string())));
}

#[test]
fn parse_message_only_ascii_whitespace_separates() {
    // U+3000 is not ASCII whitespace
    assert_eq!(parse_message("a\u{3000}b"), (None, None));
    assert_eq!(parse_message("é ü"), (Some("é".to_string()), Some("ü".to_string())));
}

#[test]
fn inline_query_empty_request() {
    let list = TransformList::new(&table());
    let (m, empty) = inline_query_matches(&list, "");
    assert!(empty);
    assert!(m.is_empty());
}

#[test]
fn inline_query_fuzzy_name() {
    let list = TransformList::new(&table());
    let (m, empty) = inline_query_matches(&list, "upp hi");
    assert!(!empty);
    assert_eq!(m.len(), 1);
    assert_eq!(m[0].transform.short_name, "upper");
    assert_eq!(m[0].result, "HI");
}

#[test]
fn inline_query_no_name_match_uses_all() {
    let list = TransformList::new(&table());
    let (m, empty) = inline_query_matches(&list, "zzz hi");
    assert!(!empty);
    assert_eq!(m.len(), 2);
    assert_eq!(m[0].result, "ZZZ HI");
    assert_eq!(m[1].result, "zzz hi");
}

#[test]
fn inline_query_single_word_uses_all() {
    let list = TransformList::new(&table());
    let (m, empty) = inline_query_matches(&list, "hi");
    assert!(!empty);
    assert_eq!(m.len(), 2);
    assert_eq!(m[0].score, 0);
    assert_eq!(m[1].score, 1);
    assert_eq!(m[0].result, "HI");
}

#[test]
fn photo_url_without_manifest_entry() {
    let manifest = Manifest::default();
    assert_eq!(photo_url("http://x/images/", &manifest, "upper"), "http://x/images/upper.jpg");
}

#[test]
fn photo_url_with_hash() {
    let mut manifest = Manifest::default();
    manifest.insert("upper.jpg".to_string(), ImageManifest { hash: "0123456789abcdef".to_string() });
    assert_eq!(photo_url("u/", &manifest, "upper"), "u/upper.jpg?0123456789ab");
    manifest.insert("short.jpg".to_string(), ImageManifest { hash: "abc".to_string() });
    assert_eq!(photo_url("u/", &manifest, "short"), "u/short.jpg?abc");
}

#[test]
fn chat_reply_to_start() {
    assert_eq!(
        chat_reply("/start"),
        Some("Hello! I'm @unicode_text_converter_bot. To send messages using my various unicode alphabets, add me to the target chat and use the @unicode_text_converter_bot query to choose the script you want.".to_string())
    );
    assert_eq!(chat_reply("/start "), None);
    assert_eq!(chat_reply("hello"), None);
}

#[test]
fn text_reply_cases() {
    let list = TransformList::new(&table());
    assert_eq!(text_reply(&list, "upper hello *you*"), "hello YOU");
    assert_eq!(text_reply(&list, "nope hello"), "the transform `nope` doesn't exist");
    assert_eq!(text_reply(&list, "upper"), "Usage: transform_name message");
}
