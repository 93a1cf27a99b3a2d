//! Building a book from the members of its archive: the marker member is
//! checked, the container names the package member, and the package's manifest
//! becomes the book's list of resources.

use vstd::prelude::*;
use vstd::utf8::{decode_utf8, valid_utf8};

use crate::book::{classify, Book, BookItem, ItemModel};
use crate::xml::{
    attr_lookup, child_named, doc_lookup, parse_document, DocModel, ElementModel, NodeModel,
    XMLComponent, XMLDiv,
    XMLError, XML,
};

verus! {

/// The name of the marker member.
pub const MIMETYPE_PATH: &'static str = "mimetype";

/// The path of the container member.
pub const CONTAINER_PATH: &'static str = "META-INF/container.xml";

/// What the marker member must hold.
pub const EPUB_MIMETYPE: &'static str = "application/epub+zip";

/// The message of a container that does not name the package member.
pub const CONTAINER_ERR: &'static str = "Poorly constructed container, cannot read book!";

/// The message of a package member without a manifest.
pub const ROOTFILE_ERR: &'static str = "Poorly constructed rootfile, cannot read manifest!";

/// Relies on `String::from_utf8`: it succeeds exactly on valid UTF-8 and then
/// holds the decoded characters.
#[verifier::external_body]
fn decode_bytes(bytes: Vec<u8>) -> (r: Option<String>)
    ensures
        r is Some <==> valid_utf8(bytes@),
        r matches Some(s) ==> s@ == decode_utf8(bytes@),
{
    String::from_utf8(bytes).ok()
}

/// The text that `b` holds; empty where it is not valid UTF-8.
pub open spec fn decoded(b: Seq<u8>) -> Seq<char> {
    if valid_utf8(b) {
        decode_utf8(b)
    } else {
        Seq::empty()
    }
}

/// Whether marker content `b` is the package media type.
pub open spec fn marker_ok(b: Seq<u8>) -> bool {
    valid_utf8(b) && decode_utf8(b) == EPUB_MIMETYPE@
}

/// Whether `bytes`, read as UTF-8, are exactly the package media type; bytes that
/// are not UTF-8 never are.
pub fn verify_mimetype(bytes: Vec<u8>) -> (r: bool)
    ensures
        r == marker_ok(bytes@),
{
    let expected = EPUB_MIMETYPE.to_owned();
    match decode_bytes(bytes) {
        Some(content) => content == expected,
        None => false,
    }
}

fn decode_text(bytes: Vec<u8>) -> (r: String)
    ensures
        r@ == decoded(bytes@),
{
    match decode_bytes(bytes) {
        Some(s) => s,
        None => String::new(),
    }
}

/// The package path that a container document names: the `full-path` of
/// `container` / `rootfiles` / `rootfile`.
pub open spec fn rootfile_path(doc: DocModel) -> Option<Seq<char>> {
    match doc_lookup(doc, "container"@) {
        Some(c) => match child_named(c.children, "rootfiles"@) {
            Some(rs) => match child_named(rs.children, "rootfile"@) {
                Some(r) => attr_lookup(r.attrs, "full-path"@),
                None => None,
            },
            None => None,
        },
        None => None,
    }
}

/// The manifest element of a package document: `package` / `manifest`.
pub open spec fn manifest_of(doc: DocModel) -> Option<ElementModel> {
    match doc_lookup(doc, "package"@) {
        Some(p) => child_named(p.children, "manifest"@),
        None => None,
    }
}

/// The resources that the element children of a manifest stand for, in order;
/// text children are passed over.
pub open spec fn manifest_items(children: Seq<NodeModel>) -> Seq<ItemModel>
    decreases children.len(),
{
    if children.len() == 0 {
        Seq::empty()
    } else {
        let rest = manifest_items(children.drop_last());
        match children.last() {
            NodeModel::Element(e) => rest.push(classify(e)),
            _ => rest,
        }
    }
}

/// The state of a construction: the resources found so far, and the package
/// path once the container has named it.
pub struct PipelineModel {
    pub manifest: Seq<ItemModel>,
    pub rootfile: Option<Seq<char>>,
}

/// What one member does to a construction.
pub enum StepModel {
    Next(PipelineModel),
    NotAPackage,
    Fatal(Seq<char>),
}

/// The effect of member `name` with content `bytes` on state `st`: the marker
/// member must hold the package media type; the container member names the
/// package member; the package member's manifest adds its resources; any other
/// member changes nothing.
pub open spec fn step(st: PipelineModel, name: Seq<char>, bytes: Seq<u8>) -> StepModel {
    if name == MIMETYPE_PATH@ {
        if marker_ok(bytes) {
            StepModel::Next(st)
        } else {
            StepModel::NotAPackage
        }
    } else if name == CONTAINER_PATH@ {
        match rootfile_path(parse_document(decoded(bytes))) {
            Some(p) => StepModel::Next(PipelineModel { rootfile: Some(p), ..st }),
            None => StepModel::Fatal(CONTAINER_ERR@),
        }
    } else if st.rootfile == Some(name) {
        match manifest_of(parse_document(decoded(bytes))) {
            Some(m) => StepModel::Next(
                PipelineModel { manifest: st.manifest + manifest_items(m.children), ..st },
            ),
            None => StepModel::Fatal(ROOTFILE_ERR@),
        }
    } else {
        StepModel::Next(st)
    }
}

/// The outcome of members `ms`, in order, on state `st`: the state after all of
/// them, or the first member that ends the construction.
pub open spec fn run(st: PipelineModel, ms: Seq<(Seq<char>, Seq<u8>)>) -> StepModel
    decreases ms.len(),
{
    if ms.len() == 0 {
        StepModel::Next(st)
    } else {
        match step(st, ms[0].0, ms[0].1) {
            StepModel::Next(st2) => run(st2, ms.drop_first()),
            other => other,
        }
    }
}

/// A construction in progress over the members of one archive.
pub struct Construction {
    book: Book,
    rootfile: Option<String>,
}

impl Construction {
    /// Its state.
    pub closed spec fn model(&self) -> PipelineModel {
        PipelineModel {
            manifest: self.book.manifest@.map_values(|i: BookItem| i@),
            rootfile: match self.rootfile {
                Some(p) => Some(p@),
                None => None,
            },
        }
    }

    /// The book that it builds.
    pub closed spec fn book(&self) -> &Book {
        &self.book
    }

    /// A construction for the archive at `filepath`, with nothing read yet.
    pub fn new(filepath: &str) -> (r: Self)
        ensures
            r.model() == (PipelineModel { manifest: Seq::empty(), rootfile: None }),
            r.book().filepath@ == filepath@,
            r.book().sections@.len() == 0,
    {
        let r = Construction { book: Book::new(filepath), rootfile: None };
        assert(r.model().manifest =~= Seq::<ItemModel>::empty());
        r
    }

    /// Whether the member `name` is read by the construction at this point.
    pub fn wants(&self, name: &str) -> (r: bool)
        ensures
            r == (name@ == MIMETYPE_PATH@ || name@ == CONTAINER_PATH@ || self.model().rootfile
                == Some(name@)),
    {
        let n = name.to_owned();
        if n == MIMETYPE_PATH.to_owned() || n == CONTAINER_PATH.to_owned() {
            return true;
        }
        match &self.rootfile {
            Some(p) => *p == n,
            None => false,
        }
    }

    fn add_manifest(&mut self, m: &XMLDiv)
        ensures
            final(self).model() == (PipelineModel {
                manifest: old(self).model().manifest + manifest_items(m.model().children),
                ..old(self).model()
            }),
            final(self).book().filepath == old(self).book().filepath,
            final(self).book().sections@.len() == old(self).book().sections@.len(),
    {
        let children = m.get_all_children();
        let ghost cm = m.model().children;
        let ghost m0 = old(self).model().manifest;
        let mut i: usize = 0;
        assert(cm.subrange(0, 0) =~= Seq::<NodeModel>::empty());
        assert(m0 + manifest_items(Seq::empty()) =~= m0);
        while i < children.len()
            invariant
                i <= children@.len(),
                children@.map_values(|c: XMLComponent| c.model()) == cm,
                self.model().manifest == m0 + manifest_items(cm.subrange(0, i as int)),
                self.model().rootfile == old(self).model().rootfile,
                self.book.filepath == old(self).book.filepath,
                self.book.sections@.len() == old(self).book.sections@.len(),
            decreases children@.len() - i,
        {
            assert(cm[i as int] == children@[i as int].model());
            proof {
                children@[i as int].lemma_model();
            }
            assert(cm.subrange(0, i + 1).drop_last() =~= cm.subrange(0, i as int));
            let ghost before_i = self.model().manifest;
            if let XMLComponent::Div(div) = &children[i] {
                let bi = BookItem::from_div(div);
                self.book.manifest.push(bi);
                assert(self.model().manifest =~= before_i.push(classify(div.model())));
            }
            assert(self.model().manifest =~= m0 + manifest_items(cm.subrange(0, i + 1)));
            i = i + 1;
        }
        assert(cm.subrange(0, i as int) =~= cm);
    }

    /// Reads member `name` with content `bytes`. Gives `Ok(true)` to go on,
    /// `Ok(false)` where the marker shows that the archive is not a package, and
    /// an error where the container or the package is malformed.
    pub fn feed(&mut self, name: &str, bytes: Vec<u8>) -> (r: Result<bool, XMLError>)
        ensures
            final(self).book().filepath == old(self).book().filepath,
            final(self).book().sections@.len() == old(self).book().sections@.len(),
            match step(old(self).model(), name@, bytes@) {
                StepModel::Next(st) => r == Ok::<bool, XMLError>(true) && final(self).model() == st,
                StepModel::NotAPackage => r == Ok::<bool, XMLError>(false),
                StepModel::Fatal(msg) => r matches Err(e) && e.message() == msg,
            },
    {
        let ghost b = bytes@;
        let n = name.to_owned();
        if n == MIMETYPE_PATH.to_owned() {
            return Ok(verify_mimetype(bytes));
        }
        if n == CONTAINER_PATH.to_owned() {
            let text = decode_text(bytes);
            let container = XML::from_text(text.as_str());
            let rf = match container.get_div("container") {
                Some(c) => match c.get_div("rootfiles") {
                    Some(rs) => match rs.get_div("rootfile") {
                        Some(r) => r.get_attr("full-path"),
                        None => None,
                    },
                    None => None,
                },
                None => None,
            };
            return match rf {
                Some(p) => {
                    self.rootfile = Some(p);
                    Ok(true)
                },
                None => Err(XMLError::new(CONTAINER_ERR)),
            };
        }
        let is_rootfile = match &self.rootfile {
            Some(p) => *p == n,
            None => false,
        };
        if is_rootfile {
            let text = decode_text(bytes);
            let rootfile = XML::from_text(text.as_str());
            let manifest = match rootfile.get_div("package") {
                Some(p) => p.get_div("manifest"),
                None => None,
            };
            return match manifest {
                Some(m) => {
                    self.add_manifest(m);
                    Ok(true)
                },
                None => Err(XMLError::new(ROOTFILE_ERR)),
            };
        }
        Ok(true)
    }

    /// The book built so far.
    pub fn finish(self) -> (r: Book)
        ensures
            r == *self.book(),
            r.manifest@.map_values(|i: BookItem| i@) == self.model().manifest,
    {
        self.book
    }
}

/// Builds the book of the archive at `filepath` from its members `(name,
/// content)`, in archive order: `Ok(None)` where the marker member shows that it
/// is not a package, an error where the container or the package is malformed,
/// otherwise the book with the resources of the package's manifest.
pub fn construct_from_members(filepath: &str, members: Vec<(String, Vec<u8>)>) -> (r: Result<
    Option<Book>,
    XMLError,
>)
    ensures
        match run(
            PipelineModel { manifest: Seq::empty(), rootfile: None },
            members@.map_values(|m: (String, Vec<u8>)| (m.0@, m.1@)),
        ) {
            StepModel::Next(st) => r matches Ok(Some(book)) && book.manifest@.map_values(
                |i: BookItem| i@,
            ) == st.manifest && book.filepath@ == filepath@ && book.sections@.len() == 0,
            StepModel::NotAPackage => r matches Ok(None),
            StepModel::Fatal(msg) => r matches Err(e) && e.message() == msg,
        },
{
    let ghost ms = members@.map_values(|m: (String, Vec<u8>)| (m.0@, m.1@));
    let mut c = Construction::new(filepath);
    let mut pending = members;
    let ghost total = run(c.model(), ms);
    while pending.len() > 0
        invariant
            run(c.model(), pending@.map_values(|m: (String, Vec<u8>)| (m.0@, m.1@))) == total,
            ms == members@.map_values(|m: (String, Vec<u8>)| (m.0@, m.1@)),
            total == run(PipelineModel { manifest: Seq::empty(), rootfile: None }, ms),
            c.book().filepath@ == filepath@,
            c.book().sections@.len() == 0,
        decreases pending@.len(),
    {
        let ghost rest = pending@.map_values(|m: (String, Vec<u8>)| (m.0@, m.1@));
        let (name, bytes) = pending.remove(0);
        assert(rest[0] == (name@, bytes@));
        assert(rest.drop_first() =~= pending@.map_values(|m: (String, Vec<u8>)| (m.0@, m.1@)));
        let ghost c0 = c.model();
        let ghost b = bytes@;
        match c.feed(name.as_str(), bytes) {
            Ok(true) => {},
            Ok(false) => {
                assert(step(c0, name@, b) is NotAPackage);
                assert(run(c0, rest) == StepModel::NotAPackage);
                return Ok(None);
            },
            Err(e) => {
                assert(run(c0, rest) == step(c0, name@, b));
                return Err(e);
            },
        }
    }
    Ok(Some(c.finish()))
}

} // verus!
