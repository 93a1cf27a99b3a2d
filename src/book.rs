//! The book: its resources, classified by media type, and its sections.

use vstd::prelude::*;

use crate::text::push_str;
use crate::xml::{attr_lookup, ElementModel, XMLDiv};

verus! {

/// Something that a section holds and can load.
pub trait Element {
    fn load(&self);
}

/// A resource of the package, with its reference path (`href`) and identifier (`id`).
pub enum BookItem {
    XHTML(String, String),
    JPEG(String, String),
    CSS(String, String),
    UNKNOWN(String, String),
    NAI,
}

/// A resource as plain values.
pub enum ItemModel {
    Xhtml(Seq<char>, Seq<char>),
    Jpeg(Seq<char>, Seq<char>),
    Css(Seq<char>, Seq<char>),
    Unknown(Seq<char>, Seq<char>),
    Nai,
}

impl View for BookItem {
    type V = ItemModel;

    open spec fn view(&self) -> ItemModel {
        match self {
            BookItem::XHTML(h, i) => ItemModel::Xhtml(h@, i@),
            BookItem::JPEG(h, i) => ItemModel::Jpeg(h@, i@),
            BookItem::CSS(h, i) => ItemModel::Css(h@, i@),
            BookItem::UNKNOWN(h, i) => ItemModel::Unknown(h@, i@),
            BookItem::NAI => ItemModel::Nai,
        }
    }
}

/// The reference path of a resource; empty for a non-item.
pub open spec fn href_of(m: ItemModel) -> Seq<char> {
    match m {
        ItemModel::Xhtml(h, _) => h,
        ItemModel::Jpeg(h, _) => h,
        ItemModel::Css(h, _) => h,
        ItemModel::Unknown(h, _) => h,
        ItemModel::Nai => Seq::empty(),
    }
}

/// The identifier of a resource; empty for a non-item.
pub open spec fn id_of(m: ItemModel) -> Seq<char> {
    match m {
        ItemModel::Xhtml(_, i) => i,
        ItemModel::Jpeg(_, i) => i,
        ItemModel::Css(_, i) => i,
        ItemModel::Unknown(_, i) => i,
        ItemModel::Nai => Seq::empty(),
    }
}

/// The value of attribute `k` of `e`, or the empty sequence where it has none.
pub open spec fn attr_or_empty(e: ElementModel, k: Seq<char>) -> Seq<char> {
    match attr_lookup(e.attrs, k) {
        Some(v) => v,
        None => Seq::empty(),
    }
}

/// The resource that a manifest entry stands for: an element other than `item`
/// is no item; otherwise its `media-type` decides the kind, an empty or missing
/// one giving no item and an unlisted one an unknown resource.
pub open spec fn classify(e: ElementModel) -> ItemModel {
    let href = attr_or_empty(e, "href"@);
    let id = attr_or_empty(e, "id"@);
    let mt = attr_or_empty(e, "media-type"@);
    if e.name != "item"@ {
        ItemModel::Nai
    } else if mt == "application/xhtml+xml"@ {
        ItemModel::Xhtml(href, id)
    } else if mt == "image/jpeg"@ {
        ItemModel::Jpeg(href, id)
    } else if mt == "text/css"@ {
        ItemModel::Css(href, id)
    } else if mt.len() == 0 {
        ItemModel::Nai
    } else {
        ItemModel::Unknown(href, id)
    }
}

/// Classification depends on nothing but the element: the kind of resource is
/// decided by the element's name and its `media-type` attribute alone, and the
/// reference path and identifier by its `href` and `id` attributes.
pub proof fn lemma_classify_depends_on_name_and_media_type(e1: ElementModel, e2: ElementModel)
    requires
        e1.name == e2.name,
        attr_lookup(e1.attrs, "media-type"@) == attr_lookup(e2.attrs, "media-type"@),
    ensures
        classify(e1) is Nai <==> classify(e2) is Nai,
        classify(e1) is Xhtml <==> classify(e2) is Xhtml,
        classify(e1) is Jpeg <==> classify(e2) is Jpeg,
        classify(e1) is Css <==> classify(e2) is Css,
        classify(e1) is Unknown <==> classify(e2) is Unknown,
        attr_lookup(e1.attrs, "href"@) == attr_lookup(e2.attrs, "href"@) && attr_lookup(
            e1.attrs,
            "id"@,
        ) == attr_lookup(e2.attrs, "id"@) ==> classify(e1) == classify(e2),
{
}

fn attr_or_empty_of(div: &XMLDiv, k: &str) -> (r: String)
    ensures
        r@ == attr_or_empty(div.model(), k@),
{
    match div.get_attr(k) {
        Some(v) => v,
        None => String::new(),
    }
}

impl BookItem {
    /// The reference path; empty for a non-item.
    pub fn get_href(&self) -> (r: &str)
        ensures
            r@ == href_of(self@),
    {
        match self {
            BookItem::XHTML(href, _) => href.as_str(),
            BookItem::JPEG(href, _) => href.as_str(),
            BookItem::CSS(href, _) => href.as_str(),
            BookItem::UNKNOWN(href, _) => href.as_str(),
            BookItem::NAI => {
                let r = "";
                proof {
                    reveal_strlit("");
                }
                r
            },
        }
    }

    /// The identifier; empty for a non-item.
    pub fn get_id(&self) -> (r: &str)
        ensures
            r@ == id_of(self@),
    {
        match self {
            BookItem::XHTML(_, id) => id.as_str(),
            BookItem::JPEG(_, id) => id.as_str(),
            BookItem::CSS(_, id) => id.as_str(),
            BookItem::UNKNOWN(_, id) => id.as_str(),
            BookItem::NAI => {
                let r = "";
                proof {
                    reveal_strlit("");
                }
                r
            },
        }
    }

    /// Classifies a manifest entry by its name and `media-type` attribute.
    pub fn from_div(value: &XMLDiv) -> (r: Self)
        ensures
            r@ == classify(value.model()),
    {
        let item = "item".to_owned();
        if value.get_name() != item {
            return BookItem::NAI;
        }
        let href = attr_or_empty_of(value, "href");
        let id = attr_or_empty_of(value, "id");
        let mt = attr_or_empty_of(value, "media-type");
        if mt == "application/xhtml+xml".to_owned() {
            BookItem::XHTML(href, id)
        } else if mt == "image/jpeg".to_owned() {
            BookItem::JPEG(href, id)
        } else if mt == "text/css".to_owned() {
            BookItem::CSS(href, id)
        } else if mt.as_str().unicode_len() == 0 {
            BookItem::NAI
        } else {
            BookItem::UNKNOWN(href, id)
        }
    }

    /// A copy of this resource.
    pub fn copy(&self) -> (r: Self)
        ensures
            r@ == self@,
    {
        match self {
            BookItem::XHTML(h, i) => BookItem::XHTML(h.clone(), i.clone()),
            BookItem::JPEG(h, i) => BookItem::JPEG(h.clone(), i.clone()),
            BookItem::CSS(h, i) => BookItem::CSS(h.clone(), i.clone()),
            BookItem::UNKNOWN(h, i) => BookItem::UNKNOWN(h.clone(), i.clone()),
            BookItem::NAI => BookItem::NAI,
        }
    }
}

/// Classifies a manifest entry, as `BookItem::from_div` does; the contract of
/// the classification is stated there.
impl<'a> From<&'a XMLDiv> for BookItem {
    fn from(value: &'a XMLDiv) -> (r: Self) {
        BookItem::from_div(value)
    }
}

impl<'a> vstd::std_specs::convert::FromSpecImpl<&'a XMLDiv> for BookItem {
    open spec fn obeys_from_spec() -> bool {
        false
    }

    open spec fn from_spec(_v: &'a XMLDiv) -> Self {
        BookItem::NAI
    }
}

/// One section of the book, made from one resource.
pub struct Section {
    item: BookItem,
    pub contents: Vec<Box<dyn Element>>,
}

impl Section {
    /// A section for resource `file`.
    pub fn new(file: &BookItem) -> (r: Self)
        ensures
            r.item()@ == file@,
            r.content_count() == 0,
    {
        Section { item: file.copy(), contents: Vec::new() }
    }

    /// How many contents it holds.
    pub closed spec fn content_count(&self) -> nat {
        self.contents@.len()
    }

    /// The resource it is made from.
    pub closed spec fn item(&self) -> BookItem {
        self.item
    }

    /// The resource it is made from.
    pub fn get_item(&self) -> (r: &BookItem)
        ensures
            *r == self.item(),
    {
        &self.item
    }
}

/// A whole book: where it was read from, its sections and its manifest.
pub struct Book {
    pub filepath: String,
    pub sections: Vec<Section>,
    pub manifest: Vec<BookItem>,
}

/// The line that describes one resource.
pub open spec fn item_line(m: ItemModel) -> Seq<char> {
    match m {
        ItemModel::Xhtml(h, i) => "\tHTML: "@ + h + " "@ + i + "\n"@,
        ItemModel::Jpeg(h, i) => "\tJPEG: "@ + h + " "@ + i + "\n"@,
        ItemModel::Css(h, i) => "\tCSS : "@ + h + " "@ + i + "\n"@,
        ItemModel::Unknown(h, i) => "\tUNKN: "@ + h + " "@ + i + "\n"@,
        ItemModel::Nai => "\tNon-item\n"@,
    }
}

/// The lines that describe `items`, in order.
pub open spec fn item_lines(items: Seq<ItemModel>) -> Seq<char>
    decreases items.len(),
{
    if items.len() == 0 {
        Seq::empty()
    } else {
        item_lines(items.drop_last()) + item_line(items.last())
    }
}

/// The manifest as text.
pub open spec fn manifest_text(items: Seq<ItemModel>) -> Seq<char> {
    "manifest: [\n"@ + item_lines(items) + "]"@
}

impl Book {
    /// An empty book read from `filepath`.
    pub fn new(filepath: &str) -> (r: Self)
        ensures
            r.filepath@ == filepath@,
            r.sections@.len() == 0,
            r.manifest@.len() == 0,
    {
        Book { filepath: filepath.to_owned(), sections: Vec::new(), manifest: Vec::new() }
    }

    /// The manifest as a list, one line per resource.
    pub fn nice(&self) -> (r: String)
        ensures
            r@ == manifest_text(self.manifest@.map_values(|i: BookItem| i@)),
    {
        let ghost items = self.manifest@.map_values(|i: BookItem| i@);
        let mut output = String::new();
        push_str(&mut output, "manifest: [\n");
        let mut k: usize = 0;
        while k < self.manifest.len()
            invariant
                k <= self.manifest@.len(),
                items == self.manifest@.map_values(|i: BookItem| i@),
                output@ == "manifest: [\n"@ + item_lines(items.subrange(0, k as int)),
            decreases self.manifest@.len() - k,
        {
            let ghost before_k = output@;
            match &self.manifest[k] {
                BookItem::XHTML(href, id) => {
                    push_str(&mut output, "\tHTML: ");
                    push_str(&mut output, href.as_str());
                    push_str(&mut output, " ");
                    push_str(&mut output, id.as_str());
                    push_str(&mut output, "\n");
                },
                BookItem::JPEG(href, id) => {
                    push_str(&mut output, "\tJPEG: ");
                    push_str(&mut output, href.as_str());
                    push_str(&mut output, " ");
                    push_str(&mut output, id.as_str());
                    push_str(&mut output, "\n");
                },
                BookItem::CSS(href, id) => {
                    push_str(&mut output, "\tCSS : ");
                    push_str(&mut output, href.as_str());
                    push_str(&mut output, " ");
                    push_str(&mut output, id.as_str());
                    push_str(&mut output, "\n");
                },
                BookItem::UNKNOWN(href, id) => {
                    push_str(&mut output, "\tUNKN: ");
                    push_str(&mut output, href.as_str());
                    push_str(&mut output, " ");
                    push_str(&mut output, id.as_str());
                    push_str(&mut output, "\n");
                },
                BookItem::NAI => {
                    push_str(&mut output, "\tNon-item\n");
                },
            }
            assert(items.subrange(0, k + 1).drop_last() =~= items.subrange(0, k as int));
            assert(output@ =~= before_k + item_line(items[k as int]));
            k = k + 1;
        }
        assert(items.subrange(0, k as int) =~= items);
        push_str(&mut output, "]");
        output
    }
}

} // verus!
