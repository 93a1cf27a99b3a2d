use readerlib::scanner::XMLInStream;
use readerlib::xml::{XMLComponent, XMLDiv, XMLError, XML};

fn stream(s: &str) -> XMLInStream {
    XMLInStream::new(s.chars().collect())
}

fn text(v: Vec<char>) -> String {
    v.into_iter().collect()
}

fn only_element(doc: &XML, name: &str) -> Vec<String> {
    let div = doc.get_div(name).expect("element present");
    div.get_all_children()
        .iter()
        .map(|c| match c {
            XMLComponent::Div(d) => format!("<{}>", d.get_name()),
            XMLComponent::Content(t) => t.get_text(),
            XMLComponent::Empty => String::from("-"),
        })
        .collect()
}

#[test]
fn scanner_read_until_consumes_delimiter() {
    let mut s = stream("abc>def");
    assert_eq!(text(s.read_until('>')), "abc");
    assert_eq!(text(s.read_to_end()), "def");
    assert!(!s.is_done());
}

#[test]
fn scanner_read_until_without_delimiter_reads_all() {
    let mut s = stream("abc");
    assert_eq!(text(s.read_until('>')), "abc");
    assert!(s.is_done());
    assert_eq!(text(s.read_until('>')), "");
}

#[test]
fn scanner_skip_to_and_peek() {
    let mut s = stream("xx<yy");
    s.skip_to('<');
    assert_eq!(text(s.read_to_end()), "yy");
    assert_eq!(text(s.read_to_end()), "yy");
    s.skip_to('<');
    assert!(s.is_done());
}

#[test]
fn self_closing_element_has_attribute_and_no_children() {
    let doc = XML::from_text("<x a=\"1\"/>");
    let x = doc.get_div("x").expect("x");
    assert_eq!(x.get_name(), "x");
    assert_eq!(x.get_attr("a"), Some(String::from("1")));
    assert!(x.get_all_children().is_empty());
}

#[test]
fn nested_elements_keep_text() {
    let doc = XML::from_text("<a><b>text</b></a>");
    assert_eq!(only_element(&doc, "a"), vec![String::from("<b>")]);
    let b = doc.get_div("a").unwrap().get_div("b").expect("b");
    let contents: Vec<String> = b.get_content().iter().map(|c| c.get_text()).collect();
    assert_eq!(contents, vec![String::from("text")]);
    assert_eq!(b.get_all_children().len(), 1);
}

#[test]
fn white_space_between_tags_is_dropped() {
    let doc = XML::from_text("<a>\n   <b> keep  this </b>\r\n  </a>");
    assert_eq!(only_element(&doc, "a"), vec![String::from("<b>")]);
    let b = doc.get_div("a").unwrap().get_div("b").unwrap();
    assert_eq!(only_element_of(b), vec![String::from("keep  this")]);
}

fn only_element_of(d: &XMLDiv) -> Vec<String> {
    d.get_content().iter().map(|c| c.get_text()).collect()
}

#[test]
fn attribute_token_quotes_are_stripped() {
    let doc = XML::from_text("<item id=\"ch01\" href=\"a&amp;b.xhtml\"/>");
    let item = doc.get_div("item").unwrap();
    assert_eq!(item.get_attr("id"), Some(String::from("ch01")));
    assert_eq!(item.get_attr("href"), Some(String::from("a&amp;b.xhtml")));
    assert_eq!(item.get_attr("missing"), None);
}

#[test]
fn attribute_without_value_is_empty() {
    let doc = XML::from_text("<input checked/>");
    assert_eq!(doc.get_div("input").unwrap().get_attr("checked"), Some(String::new()));
}

#[test]
fn duplicate_attribute_last_wins() {
    let doc = XML::from_text("<x a=\"1\" a=\"2\"/>");
    assert_eq!(doc.get_div("x").unwrap().get_attr("a"), Some(String::from("2")));
}

#[test]
fn processing_instruction_is_self_closing() {
    let doc = XML::from_text("<?xml version=\"1.0\"?><root>t</root>");
    let pi = doc.get_div("xml").expect("pi");
    assert_eq!(pi.get_attr("version"), Some(String::from("1.0")));
    assert!(pi.get_all_children().is_empty());
    assert_eq!(only_element_of(doc.get_div("root").unwrap()), vec![String::from("t")]);
}

#[test]
fn header_and_body_slots() {
    let doc = XML::from_text("<header>h</header><body>b</body><other>o</other>");
    assert_eq!(only_element_of(doc.get_div("header").unwrap()), vec![String::from("h")]);
    assert_eq!(only_element_of(doc.get_div("body").unwrap()), vec![String::from("b")]);
    assert_eq!(only_element_of(doc.get_div("other").unwrap()), vec![String::from("o")]);
    assert!(doc.get_div("missing").is_none());
}

#[test]
fn repeated_top_level_name_last_wins() {
    let doc = XML::from_text("<p>one</p><p>two</p>");
    assert_eq!(only_element_of(doc.get_div("p").unwrap()), vec![String::from("two")]);
}

#[test]
fn first_matching_child_wins() {
    let doc = XML::from_text("<a><b>1</b><b>2</b></a>");
    let b = doc.get_div("a").unwrap().get_div("b").unwrap();
    assert_eq!(only_element_of(b), vec![String::from("1")]);
}

#[test]
fn comments_end_the_current_element() {
    let doc = XML::from_text("<a>x<!-- note --><b/></a>");
    assert_eq!(only_element(&doc, "a"), vec![String::from("x")]);
}

#[test]
fn mixed_children_keep_order() {
    let doc = XML::from_text("<a>one<b/>two<c/></a>");
    assert_eq!(
        only_element(&doc, "a"),
        vec![String::from("one"), String::from("<b>"), String::from("two"), String::from("<c>")]
    );
}

#[test]
fn empty_input_gives_empty_document() {
    let doc = XML::from_text("");
    assert!(doc.get_div("header").is_none());
    assert!(doc.get_div("body").is_none());
    assert!(doc.get_div("a").is_none());
}

#[test]
fn read_div_on_closing_tag_gives_none() {
    let mut s = stream("/a>rest");
    assert!(s.read_div().is_none());
    assert_eq!(text(s.read_to_end()), "rest");
}

#[test]
fn read_div_reads_one_element() {
    let mut s = stream("a k=\"v\">in</a>after");
    let d = s.read_div().expect("a");
    assert_eq!(d.get_name(), "a");
    assert_eq!(d.get_attr("k"), Some(String::from("v")));
    assert_eq!(only_element_of(&d), vec![String::from("in")]);
    assert_eq!(text(s.read_to_end()), "after");
}

#[test]
fn new_div_is_bare() {
    let d = XMLDiv::new("n");
    assert_eq!(d.get_name(), "n");
    assert!(d.get_all_children().is_empty());
    assert_eq!(d.get_attr("x"), None);
}

#[test]
fn error_keeps_message() {
    let e = XMLError::new("bad");
    assert_eq!(e.get_msg(), "bad");
}
