use utc_telegram_bot::converter::{
    CharMap, MapTransform, Spread, Transform, TransformEntry, TransformError, TransformKind,
    TransformList,
};

/// One table line: `name`, a tab, then the image of each of `!`..`~`.
fn table_line(name: &str, f: impl Fn(char) -> char) -> String {
    let mut line = String::from(name);
    line.push('\t');
    for code in 33u32..=126 {
        line.push(f(char::from_u32(code).unwrap()));
    }
    line.push('\n');
    line
}

fn circled(c: char) -> char {
    if c.is_ascii_uppercase() {
        char::from_u32(0x24B6 + (c as u32 - 'A' as u32)).unwrap()
    } else if c.is_ascii_lowercase() {
        char::from_u32(0x24D0 + (c as u32 - 'a' as u32)).unwrap()
    } else {
        c
    }
}

fn upper(c: char) -> char {
    c.to_ascii_uppercase()
}

fn sample_table() -> String {
    let mut t = String::new();
    t.push_str(&table_line("Circled", circled));
    t.push_str(&table_line("# Commented out", upper));
    t.push_str(&table_line("Upper (test) pseudoalphabet", upper));
    t
}

#[test]
fn transform_list_init() {
    println!("{:?}", TransformList::new(&sample_table()));
}

#[test]
fn transform_list_transform_string_circled() {
    assert_eq!(
        Ok("Ⓗⓔⓛⓛⓞ, ⓦⓞⓡⓛⓓ!".to_owned()),
        TransformList::new(&sample_table()).transform_string("circled", "Hello, world!")
    );
}

#[test]
fn char_map_new_maps_to_nul() {
    let m = CharMap::new();
    assert_eq!(m.map_chr('a'), "\0");
    assert_eq!(m.map_chr('!'), "\0");
    assert_eq!(m.map_chr('~'), "\0");
    assert!(!m.insert_nonbreak);
}

#[test]
fn char_map_keeps_characters_without_slot() {
    let m = CharMap::new();
    assert_eq!(m.map_chr(' '), " ");
    assert_eq!(m.map_chr('\u{7f}'), "\u{7f}");
    assert_eq!(m.map_chr('é'), "é");
    assert_eq!(m.map_chr('\n'), "\n");
}

#[test]
fn char_map_set_idx_and_map() {
    let mut m = CharMap::new();
    m.set_idx(0, 'X'); // '!'
    m.set_idx(93, 'Y'); // '~'
    m.set_idx('a' as usize - 33, 'ⓐ');
    assert_eq!(m.map_chr('!'), "X");
    assert_eq!(m.map_chr('~'), "Y");
    assert_eq!(m.map_chr('a'), "ⓐ");
    assert_eq!(m.map_string("a! b~"), "ⓐX \0Y");
}

#[test]
fn char_map_nonbreak_only_when_changed() {
    let mut m = CharMap::new();
    m.set_idx('a' as usize - 33, '🇦');
    m.set_idx('b' as usize - 33, 'b');
    m.set_nonbreak(true);
    assert!(m.insert_nonbreak);
    assert_eq!(m.map_chr('a'), "🇦\u{00A0}");
    assert_eq!(m.map_chr('b'), "b");
    assert_eq!(m.map_chr(' '), " ");
}

#[test]
fn char_map_string_empty() {
    assert_eq!(CharMap::new().map_string(""), "");
}

fn upper_map() -> MapTransform {
    let mut m = CharMap::new();
    for code in 33u32..=126 {
        let c = char::from_u32(code).unwrap();
        m.set_idx(code as usize - 33, c.to_ascii_uppercase());
    }
    MapTransform::new(m)
}

#[test]
fn map_string_without_stars_transforms_everything() {
    assert_eq!(upper_map().map_string("hello, world"), "HELLO, WORLD");
}

#[test]
fn map_string_transforms_only_starred_range() {
    assert_eq!(upper_map().map_string("say *hello* now"), "say HELLO now");
}

#[test]
fn map_string_several_ranges() {
    assert_eq!(upper_map().map_string("*a* b *c d* e"), "A b C D e");
}

#[test]
fn map_string_star_before_space_opens_nothing() {
    // a star followed by whitespace does not open a range
    assert_eq!(upper_map().map_string("a * b"), "A * B");
}

#[test]
fn map_string_star_after_space_does_not_close() {
    // "*ab *" never closes: no range at all, everything transformed
    assert_eq!(upper_map().map_string("*ab *"), "*AB *");
    // the closing star must follow a non-whitespace character
    assert_eq!(upper_map().map_string("*ab *c* d"), "AB *C d");
}

#[test]
fn map_string_unclosed_after_a_range_is_kept() {
    assert_eq!(upper_map().map_string("*ab* *cd"), "AB *cd");
}

#[test]
fn map_string_double_star() {
    // the second star starts the range and is transformed as its first character
    assert_eq!(upper_map().map_string("**a*"), "*A");
}

#[test]
fn map_string_unicode_whitespace_blocks_closing() {
    // U+3000 is whitespace: it prevents the star from closing
    assert_eq!(upper_map().map_string("*a\u{3000}*"), "*A\u{3000}*");
    // U+200B is not whitespace
    assert_eq!(upper_map().map_string("*a\u{200B}*b"), "A\u{200B}b");
}

#[test]
fn map_string_multibyte_around_range() {
    assert_eq!(upper_map().map_string("é*ab*ü"), "éABü");
}

#[test]
fn spread_adds_spaces() {
    let s = Spread::new();
    assert_eq!(s.map_string("ab"), "a b ");
    assert_eq!(s.map_string("x *ab* y"), "x a b  y");
    assert_eq!(s.map_string(""), "");
}

#[test]
fn transform_entry_names() {
    let e = TransformEntry::new(3, "Circled (neg) pseudoalphabet", TransformKind::Spread(Spread::new()));
    assert_eq!(e.full_name, "Circled (neg) pseudoalphabet");
    assert_eq!(e.name, "Circled neg");
    assert_eq!(e.short_name, "circled_neg");
    assert_eq!(e.idx, 3);
}

#[test]
fn transform_entry_snake_case() {
    let e = TransformEntry::new(0, "Small Caps", TransformKind::Spread(Spread::new()));
    assert_eq!(e.short_name, "small_caps");
    let e = TransformEntry::new(0, "MathBold", TransformKind::Spread(Spread::new()));
    assert_eq!(e.short_name, "math_bold");
}

#[test]
fn transform_kind_applies_its_transform() {
    let k = TransformKind::Spread(Spread::new());
    assert_eq!(k.map_string("ab"), "a b ");
    let k = TransformKind::CharMap(upper_map());
    assert_eq!(k.map_string("ab *c*"), "ab C");
}

#[test]
fn transform_list_names_and_comments() {
    let list = TransformList::new(&sample_table());
    let names: Vec<String> = list.transforms().iter().map(|e| e.short_name.clone()).collect();
    assert_eq!(names, vec!["circled".to_string(), "upper_test".to_string()]);
    let idxs: Vec<usize> = list.transforms().iter().map(|e| e.idx).collect();
    assert_eq!(idxs, vec![0, 2]);
    assert_eq!(list.transforms()[1].name, "Upper test");
    assert_eq!(list.transforms()[1].full_name, "Upper (test) pseudoalphabet");
}

#[test]
fn transform_list_unknown_transform() {
    let list = TransformList::new(&sample_table());
    let err = list.transform_string("nope", "x").unwrap_err();
    assert_eq!(err, TransformError::TransformNotFound("nope".to_string()));
    assert_eq!(err.message(), "the transform `nope` doesn't exist");
}

#[test]
fn transform_list_later_line_replaces_earlier() {
    let mut t = table_line("Upper", upper);
    t.push_str(&table_line("Upper", |c| c));
    let list = TransformList::new(&t);
    assert_eq!(list.transforms().len(), 1);
    assert_eq!(list.transforms()[0].idx, 1);
    assert_eq!(list.transform_string("upper", "ab").unwrap(), "ab");
}

#[test]
fn transform_list_regional_adds_nonbreak() {
    let t = table_line("Regional Indicator", |c| if c == 'a' { '🇦' } else { c });
    let list = TransformList::new(&t);
    assert_eq!(list.transform_string("regional_indicator", "ab").unwrap(), "🇦\u{00A0}b");
}

#[test]
fn transform_list_ignores_cr_and_unfinished_line() {
    let mut t = String::from("Upper\t");
    t.push('\r');
    for code in 33u32..=126 {
        t.push(char::from_u32(code).unwrap().to_ascii_uppercase());
    }
    t.push_str("\r\n");
    t.push_str("Lower\tabc");
    let list = TransformList::new(&t);
    assert_eq!(list.transforms().len(), 1);
    assert_eq!(list.transform_string("upper", "ok").unwrap(), "OK");
    assert!(list.transform_string("lower", "ok").is_err());
}

#[test]
fn transform_list_short_line_leaves_nul() {
    let list = TransformList::new("Short\tAB\n");
    assert_eq!(list.transform_string("short", "!\"#").unwrap(), "AB\0");
}

#[test]
fn transform_list_fits() {
    assert!(TransformList::fits(&sample_table()));
    assert!(TransformList::fits("no tab at all\n"));
    let mut long = String::from("Long\t");
    for _ in 0..95 {
        long.push('x');
    }
    assert!(!TransformList::fits(&long));
    long.push('\n');
    assert!(!TransformList::fits(&long));
    let mut ok = String::from("Ok\t");
    for _ in 0..94 {
        ok.push('x');
    }
    ok.push_str("\r\r\n");
    assert!(TransformList::fits(&ok));
}

#[test]
fn get_all_matches_in_table_order() {
    let list = TransformList::new(&sample_table());
    let all = list.get_all_matches("ab");
    assert_eq!(all.len(), 2);
    assert_eq!(all[0].transform.short_name, "circled");
    assert_eq!(all[0].score, 0);
    assert_eq!(all[0].result, "ⓐⓑ");
    assert_eq!(all[1].transform.short_name, "upper_test");
    assert_eq!(all[1].score, 2);
    assert_eq!(all[1].result, "AB");
}

#[test]
fn get_fuzzy_matches_filters_and_sorts() {
    let list = TransformList::new(&sample_table());
    let m = list.get_fuzzy_matches("circ", "ab");
    assert_eq!(m.len(), 1);
    assert_eq!(m[0].transform.short_name, "circled");
    assert_eq!(m[0].result, "ⓐⓑ");
    assert!(m[0].score > 0);
    assert!(list.get_fuzzy_matches("zzz", "ab").is_empty());
    let both = list.get_fuzzy_matches("e", "ab");
    assert_eq!(both.len(), 2);
    for w in both.windows(2) {
        assert!(w[0].score < w[1].score || (w[0].score == w[1].score && w[0].transform.idx < w[1].transform.idx));
    }
}

#[test]
fn transform_entry_short_name_has_no_ascii_uppercase() {
    let e = TransformEntry::new(0, "XMLHttp Request (Bold)", TransformKind::Spread(Spread::new()));
    assert_eq!(e.short_name, "xml_http_request_bold");
    assert!(!e.short_name.chars().any(|c| c.is_ascii_uppercase()));
}

#[test]
fn get_fuzzy_matches_at_most_one_per_transform() {
    let list = TransformList::new(&sample_table());
    for pattern in ["", "c", "e", "t", "circled", "zzz"] {
        assert!(list.get_fuzzy_matches(pattern, "ab").len() <= list.transforms().len());
    }
}
