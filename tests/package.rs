use readerlib::book::{Book, BookItem, Section};
use readerlib::constr::{
    construct_from_members, verify_mimetype, Construction, CONTAINER_ERR, ROOTFILE_ERR,
};
use readerlib::xml::XML;

const CONTAINER: &str = "<?xml version=\"1.0\"?>\n<container version=\"1.0\">\n  <rootfiles>\n    <rootfile full-path=\"OEBPS/content.opf\" media-type=\"application/oebps-package+xml\"/>\n  </rootfiles>\n</container>";

const PACKAGE: &str = "<?xml version=\"1.0\"?>\n<package version=\"2.0\">\n  <metadata></metadata>\n  <manifest>\n    <item href=\"ch1.xhtml\" id=\"c1\" media-type=\"application/xhtml+xml\"/>\n  </manifest>\n</package>";

fn member(name: &str, content: &str) -> (String, Vec<u8>) {
    (name.to_string(), content.as_bytes().to_vec())
}

fn classify(markup: &str) -> BookItem {
    let doc = XML::from_text(markup);
    BookItem::from_div(doc.get_div("item").or(doc.get_div("other")).unwrap())
}

fn kind(i: &BookItem) -> &'static str {
    match i {
        BookItem::XHTML(_, _) => "xhtml",
        BookItem::JPEG(_, _) => "jpeg",
        BookItem::CSS(_, _) => "css",
        BookItem::UNKNOWN(_, _) => "unknown",
        BookItem::NAI => "nai",
    }
}

#[test]
fn marker_accepts_exact_value() {
    assert!(verify_mimetype(b"application/epub+zip".to_vec()));
}

#[test]
fn marker_rejects_other_values() {
    assert!(!verify_mimetype(Vec::new()));
    assert!(!verify_mimetype(b"text/plain".to_vec()));
    assert!(!verify_mimetype(b"application/epub+zi".to_vec()));
    assert!(!verify_mimetype(b"application/epub+zip\n".to_vec()));
    assert!(!verify_mimetype(b"Application/epub+zip".to_vec()));
}

#[test]
fn marker_rejects_invalid_utf8() {
    assert!(!verify_mimetype(vec![0xff, 0xfe, 0x61]));
}

#[test]
fn classify_known_media_types() {
    let x = classify("<item href=\"a.xhtml\" id=\"a\" media-type=\"application/xhtml+xml\"/>");
    assert_eq!(kind(&x), "xhtml");
    assert_eq!(x.get_href(), "a.xhtml");
    assert_eq!(x.get_id(), "a");
    let j = classify("<item href=\"p.jpg\" id=\"p\" media-type=\"image/jpeg\"/>");
    assert_eq!(kind(&j), "jpeg");
    assert_eq!(j.get_href(), "p.jpg");
    let c = classify("<item href=\"s.css\" id=\"s\" media-type=\"text/css\"/>");
    assert_eq!(kind(&c), "css");
    assert_eq!(c.get_id(), "s");
}

#[test]
fn classify_unlisted_media_type_is_unknown() {
    let u = classify("<item href=\"f.ttf\" id=\"f\" media-type=\"font/ttf\"/>");
    assert_eq!(kind(&u), "unknown");
    assert_eq!(u.get_href(), "f.ttf");
    assert_eq!(u.get_id(), "f");
}

#[test]
fn classify_missing_or_empty_media_type_is_no_item() {
    assert_eq!(kind(&classify("<item href=\"a\" id=\"b\"/>")), "nai");
    assert_eq!(kind(&classify("<item href=\"a\" id=\"b\" media-type=\"\"/>")), "nai");
}

#[test]
fn classify_other_element_is_no_item() {
    let n = classify("<other href=\"a\" id=\"b\" media-type=\"text/css\"/>");
    assert_eq!(kind(&n), "nai");
    assert_eq!(n.get_href(), "");
    assert_eq!(n.get_id(), "");
}

#[test]
fn classify_missing_href_and_id_are_empty() {
    let x = classify("<item media-type=\"text/css\"/>");
    assert_eq!(kind(&x), "css");
    assert_eq!(x.get_href(), "");
    assert_eq!(x.get_id(), "");
}

#[test]
fn classify_twice_gives_same_descriptor() {
    let doc = XML::from_text("<item href=\"h\" id=\"i\" media-type=\"image/jpeg\"/>");
    let d = doc.get_div("item").unwrap();
    let a = BookItem::from_div(d);
    let b = BookItem::from_div(d);
    assert_eq!(kind(&a), kind(&b));
    assert_eq!(a.get_href(), b.get_href());
    assert_eq!(a.get_id(), b.get_id());
}

#[test]
fn construct_end_to_end() {
    let members = vec![
        member("mimetype", "application/epub+zip"),
        member("META-INF/container.xml", CONTAINER),
        member("OEBPS/content.opf", PACKAGE),
        member("OEBPS/ch1.xhtml", "<html/>"),
    ];
    let book = construct_from_members("book.epub", members).ok().unwrap().unwrap();
    assert_eq!(book.filepath, "book.epub");
    assert_eq!(book.manifest.len(), 1);
    assert_eq!(kind(&book.manifest[0]), "xhtml");
    assert_eq!(book.manifest[0].get_href(), "ch1.xhtml");
    assert_eq!(book.manifest[0].get_id(), "c1");
    assert!(book.sections.is_empty());
}

#[test]
fn construct_wrong_marker_gives_none() {
    let members = vec![
        member("mimetype", "text/plain"),
        member("META-INF/container.xml", CONTAINER),
        member("OEBPS/content.opf", PACKAGE),
    ];
    assert!(construct_from_members("book.epub", members).ok().unwrap().is_none());
}

#[test]
fn construct_missing_rootfile_reports_container_error() {
    let container = "<container><rootfiles></rootfiles></container>";
    let members = vec![
        member("mimetype", "application/epub+zip"),
        member("META-INF/container.xml", container),
        member("OEBPS/content.opf", PACKAGE),
    ];
    match construct_from_members("book.epub", members) {
        Err(e) => assert_eq!(e.get_msg(), CONTAINER_ERR),
        Ok(_) => panic!("expected an error"),
    }
}

#[test]
fn construct_missing_manifest_reports_rootfile_error() {
    let members = vec![
        member("mimetype", "application/epub+zip"),
        member("META-INF/container.xml", CONTAINER),
        member("OEBPS/content.opf", "<package><metadata/></package>"),
    ];
    match construct_from_members("book.epub", members) {
        Err(e) => assert_eq!(e.get_msg(), ROOTFILE_ERR),
        Ok(_) => panic!("expected an error"),
    }
}

#[test]
fn construct_rootfile_before_container_is_ignored() {
    let members = vec![
        member("OEBPS/content.opf", PACKAGE),
        member("mimetype", "application/epub+zip"),
        member("META-INF/container.xml", CONTAINER),
    ];
    let book = construct_from_members("b", members).ok().unwrap().unwrap();
    assert!(book.manifest.is_empty());
}

#[test]
fn construction_wants_only_its_members() {
    let mut c = Construction::new("b");
    assert!(c.wants("mimetype"));
    assert!(c.wants("META-INF/container.xml"));
    assert!(!c.wants("OEBPS/content.opf"));
    assert_eq!(c.feed("META-INF/container.xml", CONTAINER.as_bytes().to_vec()).ok(), Some(true));
    assert!(c.wants("OEBPS/content.opf"));
    assert!(!c.wants("OEBPS/ch1.xhtml"));
}

#[test]
fn manifest_keeps_every_element_child() {
    let package = "<package><manifest>\n<item href=\"a\" id=\"1\" media-type=\"text/css\"/>text<note/><item href=\"b\" id=\"2\" media-type=\"font/otf\"/></manifest></package>";
    let members = vec![
        member("META-INF/container.xml", CONTAINER),
        member("OEBPS/content.opf", package),
    ];
    let book = construct_from_members("b", members).ok().unwrap().unwrap();
    let kinds: Vec<&str> = book.manifest.iter().map(kind).collect();
    assert_eq!(kinds, vec!["css", "nai", "unknown"]);
}

#[test]
fn nice_lists_each_resource() {
    let mut book = Book::new("b");
    book.manifest.push(BookItem::XHTML(String::from("c.xhtml"), String::from("c")));
    book.manifest.push(BookItem::JPEG(String::from("p.jpg"), String::from("p")));
    book.manifest.push(BookItem::CSS(String::from("s.css"), String::from("s")));
    book.manifest.push(BookItem::UNKNOWN(String::from("f.ttf"), String::from("f")));
    book.manifest.push(BookItem::NAI);
    assert_eq!(
        book.nice(),
        "manifest: [\n\tHTML: c.xhtml c\n\tJPEG: p.jpg p\n\tCSS : s.css s\n\tUNKN: f.ttf f\n\tNon-item\n]"
    );
}

#[test]
fn nice_of_empty_book() {
    assert_eq!(Book::new("b").nice(), "manifest: [\n]");
}

#[test]
fn section_keeps_its_resource() {
    let item = BookItem::CSS(String::from("s.css"), String::from("s"));
    let s = Section::new(&item);
    assert_eq!(s.get_item().get_href(), "s.css");
    assert_eq!(s.get_item().get_id(), "s");
}

#[test]
fn from_conversion_classifies() {
    let doc = XML::from_text("<item href=\"p.jpg\" id=\"p\" media-type=\"image/jpeg\"/>");
    let item = BookItem::from(doc.get_div("item").unwrap());
    assert_eq!(kind(&item), "jpeg");
    assert_eq!(item.get_href(), "p.jpg");
    assert_eq!(item.get_id(), "p");
}

#[test]
fn new_section_has_no_contents() {
    let s = Section::new(&BookItem::NAI);
    assert!(s.contents.is_empty());
    assert_eq!(s.get_item().get_href(), "");
}
