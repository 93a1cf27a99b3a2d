use readerlib::text::{chars_of, copy_range, is_white_space, push_str, string_from, trim_range};
use readerlib::xml::XML;

#[test]
fn white_space_is_unicode_white_space() {
    for c in [' ', '\t', '\n', '\r', '\u{b}', '\u{c}', '\u{85}', '\u{a0}', '\u{2003}', '\u{3000}'] {
        assert!(is_white_space(c), "{:?}", c);
    }
    for c in ['a', '<', '\u{200b}', '\u{1}'] {
        assert!(!is_white_space(c), "{:?}", c);
    }
}

#[test]
fn chars_and_strings_round_trip() {
    let cs = chars_of("hé<llo");
    assert_eq!(cs, vec!['h', 'é', '<', 'l', 'l', 'o']);
    assert_eq!(string_from(&cs, 1, 4), "é<l");
    assert_eq!(copy_range(&cs, 2, 2), Vec::<char>::new());
}

#[test]
fn push_str_appends() {
    let mut s = String::from("ab");
    push_str(&mut s, "cd");
    assert_eq!(s, "abcd");
}

#[test]
fn trim_range_drops_both_ends() {
    let cs = chars_of("  x y \u{a0}");
    let (a, b) = trim_range(&cs, 0, cs.len());
    assert_eq!(string_from(&cs, a, b), "x y");
    let blank = chars_of(" \t ");
    let (a, b) = trim_range(&blank, 0, blank.len());
    assert_eq!(a, b);
}

#[test]
fn text_content_is_trimmed_of_unicode_space() {
    let doc = XML::from_text("<a>\u{a0}x\u{3000}</a>");
    let texts: Vec<String> = doc.get_div("a").unwrap().get_content().iter().map(|c| c.get_text()).collect();
    assert_eq!(texts, vec![String::from("x")]);
}
