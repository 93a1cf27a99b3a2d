//! The markup document model and its parser.

use vstd::prelude::*;

use crate::scanner::{after, before, index_of, lemma_index_of, lemma_index_of_bounds, XMLInStream};
use crate::text::{
    chars_of, copy_range, is_white_space, spec_is_white_space, string_from, trim, trim_end, trim_range,
    trim_start,
};

verus! {

broadcast use vstd::std_specs::vec::group_vec_axioms;

/// An attribute as (name, value).
pub type Attr = (String, String);

/// An attribute as a pair of character sequences.
pub type AttrModel = (Seq<char>, Seq<char>);

/// A parsed element: its name, its attributes (names unique, in order of first
/// appearance) and its children in document order.
pub struct ElementModel {
    pub name: Seq<char>,
    pub attrs: Seq<AttrModel>,
    pub children: Seq<NodeModel>,
}

/// A child of an element.
pub enum NodeModel {
    Element(ElementModel),
    Text(Seq<char>),
    Empty,
}

/// A parsed document: the `header` and `body` slots and the other top-level
/// elements (names unique; a later element replaces an earlier one of its name).
pub struct DocModel {
    pub header: Option<ElementModel>,
    pub body: Option<ElementModel>,
    pub other: Seq<ElementModel>,
}

/// The position of the first attribute named `k`, or `a.len()`.
pub open spec fn attr_index(a: Seq<AttrModel>, k: Seq<char>) -> int
    decreases a.len(),
{
    if a.len() == 0 {
        0
    } else if a[0].0 == k {
        0
    } else {
        1 + attr_index(a.drop_first(), k)
    }
}

/// The value of the attribute named `k`.
pub open spec fn attr_lookup(a: Seq<AttrModel>, k: Seq<char>) -> Option<Seq<char>> {
    if attr_index(a, k) < a.len() {
        Some(a[attr_index(a, k)].1)
    } else {
        None
    }
}

/// `a` with attribute `kv` set: an attribute of that name has its value replaced,
/// otherwise `kv` is added at the end.
pub open spec fn attr_insert(a: Seq<AttrModel>, kv: AttrModel) -> Seq<AttrModel> {
    if attr_index(a, kv.0) < a.len() {
        a.update(attr_index(a, kv.0), kv)
    } else {
        a.push(kv)
    }
}

/// `attr_index` is the first position whose name is `k`, or the length.
pub proof fn lemma_attr_index(a: Seq<AttrModel>, k: Seq<char>, i: int)
    requires
        0 <= i <= a.len(),
        forall|j: int| 0 <= j < i ==> a[j].0 != k,
        i == a.len() || a[i].0 == k,
    ensures
        attr_index(a, k) == i,
    decreases a.len(),
{
    if a.len() > 0 && a[0].0 != k {
        lemma_attr_index(a.drop_first(), k, i - 1);
    }
}

/// The position of the first element named `k` in `a`, or `a.len()`.
pub open spec fn elem_index(a: Seq<ElementModel>, k: Seq<char>) -> int
    decreases a.len(),
{
    if a.len() == 0 {
        0
    } else if a[0].name == k {
        0
    } else {
        1 + elem_index(a.drop_first(), k)
    }
}

/// `elem_index` is the first position whose name is `k`, or the length.
pub proof fn lemma_elem_index(a: Seq<ElementModel>, k: Seq<char>, i: int)
    requires
        0 <= i <= a.len(),
        forall|j: int| 0 <= j < i ==> a[j].name != k,
        i == a.len() || a[i].name == k,
    ensures
        elem_index(a, k) == i,
    decreases a.len(),
{
    if a.len() > 0 && a[0].name != k {
        lemma_elem_index(a.drop_first(), k, i - 1);
    }
}

/// The first child element of `children` named `k`.
pub open spec fn child_named(children: Seq<NodeModel>, k: Seq<char>) -> Option<ElementModel>
    decreases children.len(),
{
    if children.len() == 0 {
        None
    } else {
        match children[0] {
            NodeModel::Element(e) => if e.name == k {
                Some(e)
            } else {
                child_named(children.drop_first(), k)
            },
            _ => child_named(children.drop_first(), k),
        }
    }
}

/// The text children of `children`, in order.
pub open spec fn texts_of(children: Seq<NodeModel>) -> Seq<Seq<char>>
    decreases children.len(),
{
    if children.len() == 0 {
        Seq::empty()
    } else {
        let rest = texts_of(children.drop_last());
        match children.last() {
            NodeModel::Text(t) => rest.push(t),
            _ => rest,
        }
    }
}

/// An error met while reading markup or a package built of it.
pub struct XMLError {
    msg: String,
}

impl XMLError {
    /// An error with message `str`.
    pub fn new(str: &str) -> (r: Self)
        ensures
            r.message() == str@,
    {
        XMLError { msg: str.to_owned() }
    }

    /// The message.
    pub closed spec fn message(&self) -> Seq<char> {
        self.msg@
    }

    /// The message, as a string.
    pub fn get_msg(&self) -> (r: String)
        ensures
            r@ == self.message(),
    {
        self.msg.clone()
    }
}

/// A run of text between element boundaries.
pub struct XMLContent {
    cont: String,
}

impl XMLContent {
    /// Text content holding `cont`.
    pub fn new(cont: &str) -> (r: Self)
        ensures
            r.text() == cont@,
    {
        XMLContent { cont: cont.to_owned() }
    }

    /// Its text.
    pub closed spec fn text(&self) -> Seq<char> {
        self.cont@
    }

    /// Its text, as a string.
    pub fn get_text(&self) -> (r: String)
        ensures
            r@ == self.text(),
    {
        self.cont.clone()
    }
}

/// A child of an element.
pub enum XMLComponent {
    Div(XMLDiv),
    Content(XMLContent),
    Empty,
}

/// An element: a name, attributes, and children.
pub struct XMLDiv {
    name: String,
    children: Vec<XMLComponent>,
    attributes: Vec<Attr>,
}

impl XMLComponent {
    /// A child stands for an element, a text, or nothing, as its variant says.
    pub proof fn lemma_model(&self)
        ensures
            match self {
                XMLComponent::Div(d) => self.model() == NodeModel::Element(d.model()),
                XMLComponent::Content(c) => self.model() == NodeModel::Text(c.text()),
                XMLComponent::Empty => self.model() == NodeModel::Empty,
            },
    {
    }

    /// The node that this child stands for.
    pub closed spec fn model(&self) -> NodeModel
        decreases self,
    {
        match self {
            XMLComponent::Div(d) => NodeModel::Element(d.model()),
            XMLComponent::Content(c) => NodeModel::Text(c.text()),
            XMLComponent::Empty => NodeModel::Empty,
        }
    }
}

impl XMLDiv {
    /// The element that this value stands for.
    pub closed spec fn model(&self) -> ElementModel
        decreases self,
    {
        ElementModel {
            name: self.name@,
            attrs: self.attributes@.map_values(|a: Attr| (a.0@, a.1@)),
            children: Seq::new(
                self.children@.len(),
                |i: int|
                    {
                        if 0 <= i < self.children@.len() {
                            self.children[i].model()
                        } else {
                            NodeModel::Empty
                        }
                    },
            ),
        }
    }
}

impl XMLDiv {
    /// An element named `name`, with no attributes and no children.
    pub fn new(name: &str) -> (r: Self)
        ensures
            r.model() == (ElementModel { name: name@, attrs: Seq::empty(), children: Seq::empty() }),
    {
        let r = XMLDiv { name: name.to_owned(), children: Vec::new(), attributes: Vec::new() };
        assert(r.model().attrs =~= Seq::empty());
        assert(r.model().children =~= Seq::empty());
        r
    }

    pub(crate) fn from_name(name: String) -> (r: Self)
        ensures
            r.model() == (ElementModel { name: name@, attrs: Seq::empty(), children: Seq::empty() }),
    {
        let r = XMLDiv { name, children: Vec::new(), attributes: Vec::new() };
        assert(r.model().attrs =~= Seq::empty());
        assert(r.model().children =~= Seq::empty());
        r
    }

    proof fn lemma_name(&self)
        ensures
            self.model().name == self.name@,
    {
    }

    proof fn lemma_children_model(&self)
        ensures
            self.model().children.len() == self.children@.len(),
            forall|i: int|
                0 <= i < self.children@.len() ==> #[trigger] self.model().children[i]
                    == self.children@[i].model(),
    {
    }

    /// The text children, in order.
    pub fn get_content(&self) -> (r: Vec<&XMLContent>)
        ensures
            r@.map_values(|c: &XMLContent| c.text()) == texts_of(self.model().children),
    {
        proof {
            self.lemma_children_model();
        }
        let mut contents: Vec<&XMLContent> = Vec::new();
        let mut i: usize = 0;
        while i < self.children.len()
            invariant
                i <= self.children@.len(),
                self.model().children.len() == self.children@.len(),
                forall|j: int|
                    0 <= j < self.children@.len() ==> #[trigger] self.model().children[j]
                        == self.children@[j].model(),
                contents@.map_values(|c: &XMLContent| c.text()) == texts_of(
                    self.model().children.subrange(0, i as int),
                ),
            decreases self.children@.len() - i,
        {
            let ghost pre = self.model().children.subrange(0, i + 1);
            assert(pre.drop_last() =~= self.model().children.subrange(0, i as int));
            if let XMLComponent::Content(cont) = &self.children[i] {
                contents.push(cont);
            }
            assert(contents@.map_values(|c: &XMLContent| c.text()) =~= texts_of(pre));
            i = i + 1;
        }
        assert(self.model().children.subrange(0, i as int) =~= self.model().children);
        contents
    }

    /// All children, elements and text alike, in order.
    pub fn get_all_children(&self) -> (r: &[XMLComponent])
        ensures
            r@.map_values(|c: XMLComponent| c.model()) == self.model().children,
    {
        proof {
            self.lemma_children_model();
        }
        let r = self.children.as_slice();
        assert(r@.map_values(|c: XMLComponent| c.model()) =~= self.model().children);
        r
    }

    /// The value of the attribute named `name`.
    pub fn get_attr(&self, name: &str) -> (r: Option<String>)
        ensures
            r matches Some(v) ==> attr_lookup(self.model().attrs, name@) == Some(v@),
            r is None ==> attr_lookup(self.model().attrs, name@) is None,
    {
        let key = name.to_owned();
        let ghost a = self.model().attrs;
        let mut i: usize = 0;
        while i < self.attributes.len()
            invariant
                i <= self.attributes@.len(),
                a == self.model().attrs,
                a.len() == self.attributes@.len(),
                key@ == name@,
                forall|j: int| 0 <= j < i ==> a[j].0 != name@,
            decreases self.attributes@.len() - i,
        {
            assert(a[i as int] == (self.attributes@[i as int].0@, self.attributes@[i as int].1@));
            if self.attributes[i].0 == key {
                proof {
                    lemma_attr_index(a, name@, i as int);
                }
                return Some(self.attributes[i].1.clone());
            }
            i = i + 1;
        }
        proof {
            lemma_attr_index(a, name@, i as int);
        }
        None
    }

    /// The name.
    pub fn get_name(&self) -> (r: String)
        ensures
            r@ == self.model().name,
    {
        self.name.clone()
    }

    /// The first child element named `name`.
    pub fn get_div(&self, name: &str) -> (r: Option<&XMLDiv>)
        ensures
            r matches Some(d) ==> child_named(self.model().children, name@) == Some(d.model()),
            r is None ==> child_named(self.model().children, name@) is None,
    {
        proof {
            self.lemma_children_model();
        }
        let key = name.to_owned();
        let ghost c = self.model().children;
        assert(c.subrange(0, c.len() as int) =~= c);
        let mut i: usize = 0;
        while i < self.children.len()
            invariant
                i <= self.children@.len(),
                c == self.model().children,
                c.len() == self.children@.len(),
                forall|j: int| 0 <= j < self.children@.len() ==> #[trigger] c[j] == self.children@[j].model(),
                key@ == name@,
                child_named(c, name@) == child_named(c.subrange(i as int, c.len() as int), name@),
            decreases self.children@.len() - i,
        {
            assert(c.subrange(i as int, c.len() as int).drop_first() =~= c.subrange(i + 1, c.len() as int));
            assert(c.subrange(i as int, c.len() as int)[0] == c[i as int]);
            if let XMLComponent::Div(child) = &self.children[i] {
                if child.name == key {
                    return Some(child);
                }
            }
            i = i + 1;
        }
        None
    }

    fn add_div(&mut self, div: XMLDiv)
        ensures
            final(self).model() == (ElementModel {
                children: old(self).model().children.push(NodeModel::Element(div.model())),
                ..old(self).model()
            }),
    {
        self.children.push(XMLComponent::Div(div));
        proof {
            self.lemma_children_model();
            old(self).lemma_children_model();
        }
        assert(self.model().children =~= old(self).model().children.push(NodeModel::Element(div.model())));
        assert(self.model().attrs =~= old(self).model().attrs);
    }

    fn add_content(&mut self, cont: XMLContent)
        ensures
            final(self).model() == (ElementModel {
                children: old(self).model().children.push(NodeModel::Text(cont.text())),
                ..old(self).model()
            }),
    {
        self.children.push(XMLComponent::Content(cont));
        proof {
            self.lemma_children_model();
            old(self).lemma_children_model();
        }
        assert(self.model().children =~= old(self).model().children.push(NodeModel::Text(cont.text())));
        assert(self.model().attrs =~= old(self).model().attrs);
    }

    fn add_attr(&mut self, attr: Attr)
        ensures
            final(self).model() == (ElementModel {
                attrs: attr_insert(old(self).model().attrs, (attr.0@, attr.1@)),
                ..old(self).model()
            }),
    {
        let ghost a = old(self).model().attrs;
        let mut i: usize = 0;
        while i < self.attributes.len()
            invariant
                i <= self.attributes@.len(),
                *self == *old(self),
                a == self.model().attrs,
                a.len() == self.attributes@.len(),
                forall|j: int| 0 <= j < i ==> a[j].0 != attr.0@,
            decreases self.attributes@.len() - i,
        {
            assert(a[i as int] == (self.attributes@[i as int].0@, self.attributes@[i as int].1@));
            if self.attributes[i].0 == attr.0 {
                proof {
                    lemma_attr_index(a, attr.0@, i as int);
                }
                self.attributes.set(i, attr);
                proof {
                    self.lemma_children_model();
                    old(self).lemma_children_model();
                }
                assert(self.model().attrs =~= attr_insert(a, (attr.0@, attr.1@)));
                assert(self.model().children =~= old(self).model().children);
                return;
            }
            i = i + 1;
        }
        proof {
            lemma_attr_index(a, attr.0@, i as int);
        }
        self.attributes.push(attr);
        proof {
            self.lemma_children_model();
            old(self).lemma_children_model();
        }
        assert(self.model().attrs =~= attr_insert(a, (attr.0@, attr.1@)));
        assert(self.model().children =~= old(self).model().children);
    }
}

/// `s` without its first and last characters.
pub open spec fn strip_enclosing(s: Seq<char>) -> Seq<char> {
    if s.len() >= 2 {
        s.subrange(1, s.len() - 1)
    } else {
        Seq::empty()
    }
}

/// `s` without a final `/`.
pub open spec fn strip_last_slash(s: Seq<char>) -> Seq<char> {
    if s.len() > 0 && s.last() == '/' {
        s.drop_last()
    } else {
        s
    }
}

/// The length of the run of non-white-space characters that starts `s`.
pub open spec fn word_len(s: Seq<char>) -> int
    decreases s.len(),
{
    if s.len() == 0 || spec_is_white_space(s[0]) {
        0
    } else {
        1 + word_len(s.drop_first())
    }
}

/// `word_len` is the first position of white space, or the length.
pub proof fn lemma_word_len(s: Seq<char>, k: int)
    requires
        0 <= k <= s.len(),
        forall|j: int| 0 <= j < k ==> !spec_is_white_space(s[j]),
        k == s.len() || spec_is_white_space(s[k]),
    ensures
        word_len(s) == k,
    decreases s.len(),
{
    if s.len() > 0 && !spec_is_white_space(s[0]) {
        lemma_word_len(s.drop_first(), k - 1);
    }
}

/// The white-space separated words of `s`, as `str::split_whitespace` gives them.
pub open spec fn tokens(s: Seq<char>) -> Seq<Seq<char>>
    decreases s.len(),
{
    if s.len() == 0 {
        Seq::empty()
    } else if spec_is_white_space(s[0]) {
        tokens(s.drop_first())
    } else if word_len(s) > 0 && word_len(s) <= s.len() {
        seq![s.take(word_len(s))] + tokens(s.skip(word_len(s)))
    } else {
        seq![s]
    }
}

/// The attribute that a word of a tag header stands for: `name="value"` gives
/// `name` and the value without its enclosing quotes; a word without `=` gives
/// itself with an empty value.
pub open spec fn attr_of_token(t: Seq<char>) -> AttrModel {
    if index_of(t, '=') < t.len() {
        (t.take(index_of(t, '=')), strip_enclosing(t.skip(index_of(t, '=') + 1)))
    } else {
        (t, Seq::empty())
    }
}

/// `a` with the attribute of each word of `ts` set in turn.
pub open spec fn add_tokens(a: Seq<AttrModel>, ts: Seq<Seq<char>>) -> Seq<AttrModel>
    decreases ts.len(),
{
    if ts.len() == 0 {
        a
    } else {
        add_tokens(attr_insert(a, attr_of_token(ts[0])), ts.drop_first())
    }
}

/// A tag header with its markers taken off, and whether it closes itself: a
/// header that starts with `?` loses its first and last characters, one that
/// ends with `/` loses that.
pub open spec fn header_body(h: Seq<char>) -> (Seq<char>, bool) {
    let h1 = if h.len() > 0 && h[0] == '?' {
        strip_enclosing(h)
    } else {
        h
    };
    let single = (h.len() > 0 && h[0] == '?') || (h1.len() > 0 && h1.last() == '/');
    (strip_last_slash(h1), single)
}

/// The element, with no children, that a tag header body names: the name runs
/// to the first space, the attributes follow.
pub open spec fn header_element(hb: Seq<char>) -> ElementModel {
    ElementModel {
        name: before(hb, ' '),
        attrs: add_tokens(Seq::empty(), tokens(after(hb, ' '))),
        children: Seq::empty(),
    }
}

/// Whether a tag header ends the current element rather than opening one: it is
/// empty, a closing tag, or a declaration or comment.
pub open spec fn is_end_header(h: Seq<char>) -> bool {
    h.len() == 0 || h[0] == '/' || h[0] == '!'
}

/// Reads one element from `s`, which starts just after its `<`: the element, if
/// the header opens one, and what is left of `s`.
pub open spec fn parse_div(s: Seq<char>) -> (Option<ElementModel>, Seq<char>)
    decreases s.len(), 0int,
{
    let h = before(s, '>');
    let r = after(s, '>');
    if is_end_header(h) {
        (None, r)
    } else {
        let e = header_element(header_body(h).0);
        if header_body(h).1 {
            (Some(e), r)
        } else if r.len() < s.len() {
            let (kids, rest) = parse_children(r);
            (Some(ElementModel { children: kids, ..e }), rest)
        } else {
            (Some(e), r)
        }
    }
}

/// Reads the children of an element from `s`, up to the header that ends it:
/// the children, and what is left of `s` after that header.
pub open spec fn parse_children(s: Seq<char>) -> (Seq<NodeModel>, Seq<char>)
    decreases s.len(), 1int,
{
    let t = trim(before(s, '<'));
    let lead = if t.len() > 0 {
        seq![NodeModel::Text(t)]
    } else {
        Seq::empty()
    };
    let s1 = after(s, '<');
    if s1.len() <= s.len() {
        match parse_div(s1) {
            (None, s2) => (lead, s2),
            (Some(e), s2) => if s2.len() < s.len() {
                let (kids, rest) = parse_children(s2);
                (lead.push(NodeModel::Element(e)) + kids, rest)
            } else {
                (lead.push(NodeModel::Element(e)), s2)
            },
        }
    } else {
        (lead, s1)
    }
}

/// Whether `c` never occurs in `s`.
pub open spec fn lacks(s: Seq<char>, c: char) -> bool {
    forall|j: int| 0 <= j < s.len() ==> s[j] != c
}

/// Whether `s` holds no white space.
pub open spec fn no_white_space(s: Seq<char>) -> bool {
    forall|j: int| 0 <= j < s.len() ==> !spec_is_white_space(s[j])
}

/// Splitting `p + [c] + q` at its first `c`, for `p` without `c`, gives `p` and `q`.
pub proof fn lemma_split_first(p: Seq<char>, c: char, q: Seq<char>)
    requires
        lacks(p, c),
    ensures
        before(p + seq![c] + q, c) == p,
        after(p + seq![c] + q, c) == q,
{
    let s = p + seq![c] + q;
    assert forall|j: int| 0 <= j < p.len() implies s[j] != c by {
        assert(s[j] == p[j]);
    }
    assert(s[p.len() as int] == c);
    lemma_index_of(s, c, p.len() as int);
    assert(s.take(p.len() as int) =~= p);
    assert(s.skip(p.len() as int + 1) =~= q);
}

/// An attribute word `name="value"` gives attribute `name` with value `value`:
/// the quotes are taken off and nothing else is changed. The name holds no `=`.
pub proof fn lemma_attribute_round_trip(n: Seq<char>, v: Seq<char>)
    requires
        lacks(n, '='),
    ensures
        attr_of_token(n + seq!['=', '"'] + v + seq!['"']) == (n, v),
{
    let t = n + seq!['=', '"'] + v + seq!['"'];
    let q = seq!['"'] + v + seq!['"'];
    assert(t =~= n + seq!['='] + q);
    lemma_split_first(n, '=', q);
    lemma_index_of_bounds(t, '=');
    assert(index_of(t, '=') == n.len()) by {
        assert(t.take(index_of(t, '=')) == n);
    }
    assert(t.skip(n.len() as int + 1) =~= q);
    assert(strip_enclosing(q) =~= v);
}

/// A word without white space is the only word of itself.
proof fn lemma_single_token(t: Seq<char>)
    requires
        t.len() > 0,
        no_white_space(t),
    ensures
        tokens(t) == seq![t],
{
    lemma_word_len(t, t.len() as int);
    assert(t.take(t.len() as int) =~= t);
    assert(t.skip(t.len() as int) =~= Seq::<char>::empty());
    assert(tokens(Seq::<char>::empty()) == Seq::<Seq<char>>::empty());
    assert(seq![t] + Seq::<Seq<char>>::empty() =~= seq![t]);
}

/// Whether `n` can name an element in a tag header: it is not empty, does not
/// start as a closing tag, a declaration or an instruction does, does not end
/// with `/`, and holds no space or `>`.
pub open spec fn is_plain_name(n: Seq<char>) -> bool {
    &&& n.len() > 0
    &&& n[0] != '/'
    &&& n[0] != '!'
    &&& n[0] != '?'
    &&& n.last() != '/'
    &&& lacks(n, ' ')
    &&& lacks(n, '>')
}

/// A self-closing header `<n a="v"/>` gives an element named `n`, with the one
/// attribute `a` of value `v` and no children, and leaves what follows it.
/// The attribute name holds no `=`, and neither it nor the value holds white
/// space or `>`.
pub proof fn lemma_self_closing_element(
    n: Seq<char>,
    a: Seq<char>,
    v: Seq<char>,
    rest: Seq<char>,
)
    requires
        is_plain_name(n),
        a.len() > 0,
        lacks(a, '='),
        no_white_space(a),
        no_white_space(v),
        lacks(a, '>'),
        lacks(v, '>'),
    ensures
        parse_div(n + seq![' '] + a + seq!['=', '"'] + v + seq!['"', '/', '>'] + rest) == (
        Some(ElementModel { name: n, attrs: seq![(a, v)], children: Seq::empty() }),
        rest,
    ),
{
    let t = a + seq!['=', '"'] + v + seq!['"'];
    let hb = n + seq![' '] + t;
    let h = hb + seq!['/'];
    let s = n + seq![' '] + a + seq!['=', '"'] + v + seq!['"', '/', '>'] + rest;
    assert(s =~= h + seq!['>'] + rest);
    assert(lacks(h, '>')) by {
        assert forall|j: int| 0 <= j < h.len() implies h[j] != '>' by {
            if j < n.len() {
                assert(h[j] == n[j]);
            } else if n.len() < j < n.len() + 1 + a.len() {
                assert(h[j] == a[j - n.len() - 1]);
            } else if n.len() + 3 + a.len() <= j < n.len() + 3 + a.len() + v.len() {
                assert(h[j] == v[j - n.len() - 3 - a.len()]);
            }
        }
    }
    lemma_split_first(h, '>', rest);
    assert(h[0] == n[0]);
    assert(h.last() == '/');
    assert(h.drop_last() =~= hb);
    assert(header_body(h) == (hb, true));
    lemma_split_first(n, ' ', t);
    assert(no_white_space(t)) by {
        assert forall|j: int| 0 <= j < t.len() implies !spec_is_white_space(t[j]) by {
            if j < a.len() {
                assert(t[j] == a[j]);
            } else if a.len() + 2 <= j < a.len() + 2 + v.len() {
                assert(t[j] == v[j - a.len() - 2]);
            }
        }
    }
    lemma_single_token(t);
    lemma_attribute_round_trip(a, v);
    assert(seq![t].drop_first() =~= Seq::<Seq<char>>::empty());
    lemma_attr_index(Seq::<AttrModel>::empty(), a, 0);
    assert(attr_insert(Seq::empty(), (a, v)) =~= seq![(a, v)]);
    assert(add_tokens(Seq::empty(), seq![t]) == add_tokens(seq![(a, v)], Seq::empty()));
}

/// A sequence without `c` has all of itself before `c` and nothing after.
proof fn lemma_no_split(p: Seq<char>, c: char)
    requires
        lacks(p, c),
    ensures
        before(p, c) == p,
        after(p, c) == Seq::<char>::empty(),
{
    lemma_index_of(p, c, p.len() as int);
    assert(p.take(p.len() as int) =~= p);
}

/// The header of a plain name opens an element of that name with no attributes.
proof fn lemma_plain_header(n: Seq<char>)
    requires
        is_plain_name(n),
    ensures
        !is_end_header(n),
        header_body(n) == (n, false),
        header_element(n) == (ElementModel { name: n, attrs: Seq::empty(), children: Seq::empty() }),
{
    lemma_no_split(n, ' ');
    assert(tokens(Seq::<char>::empty()) == Seq::<Seq<char>>::empty());
}

/// A closing tag `</n>` ends the current element and leaves what follows it.
proof fn lemma_closing_tag(n: Seq<char>, rest: Seq<char>)
    requires
        is_plain_name(n),
    ensures
        parse_div(seq!['/'] + n + seq!['>'] + rest) == (None::<ElementModel>, rest),
        parse_children(seq!['<', '/'] + n + seq!['>'] + rest) == (Seq::<NodeModel>::empty(), rest),
{
    let h = seq!['/'] + n;
    assert(lacks(h, '>')) by {
        assert forall|j: int| 0 <= j < h.len() implies h[j] != '>' by {
            if j > 0 {
                assert(h[j] == n[j - 1]);
            }
        }
    }
    assert(seq!['/'] + n + seq!['>'] + rest =~= h + seq!['>'] + rest);
    lemma_split_first(h, '>', rest);
    let s1 = seq!['/'] + n + seq!['>'] + rest;
    let r = seq!['<', '/'] + n + seq!['>'] + rest;
    assert(r =~= Seq::<char>::empty() + seq!['<'] + s1);
    lemma_split_first(Seq::<char>::empty(), '<', s1);
    assert(before(r, '<') == Seq::<char>::empty());
    assert(after(r, '<') == s1);
    assert(trim_start(Seq::<char>::empty()) == Seq::<char>::empty());
    assert(trim_end(Seq::<char>::empty()) == Seq::<char>::empty());
    assert(parse_div(s1) == (None::<ElementModel>, rest));
}

/// Nested markup `<a><b>t</b></a>` gives an element `a` whose one child is an
/// element `b`, whose one child is the text `t`, and leaves what follows. The
/// text is not empty, holds no `<`, and has no white space at either end.
pub proof fn lemma_nested_elements(a: Seq<char>, b: Seq<char>, t: Seq<char>, rest: Seq<char>)
    requires
        is_plain_name(a),
        is_plain_name(b),
        t.len() > 0,
        lacks(t, '<'),
        trim(t) == t,
    ensures
        parse_div(
            a + seq!['>', '<'] + b + seq!['>'] + t + seq!['<', '/'] + b + seq!['>', '<', '/'] + a
                + seq!['>'] + rest,
        ) == (
        Some(
            ElementModel {
                name: a,
                attrs: Seq::empty(),
                children: seq![
                    NodeModel::Element(
                        ElementModel { name: b, attrs: Seq::empty(), children: seq![NodeModel::Text(t)] },
                    ),
                ],
            },
        ),
        rest,
    ),
{
    let ra = seq!['<', '/'] + a + seq!['>'] + rest;
    let rb = seq!['<', '/'] + b + seq!['>'] + ra;
    let r2 = t + rb;
    let s1b = b + seq!['>'] + r2;
    let r1 = seq!['<'] + s1b;
    let s = a + seq!['>'] + r1;
    let eb = ElementModel { name: b, attrs: Seq::empty(), children: seq![NodeModel::Text(t)] };
    let ea = ElementModel { name: a, attrs: Seq::empty(), children: seq![NodeModel::Element(eb)] };
    lemma_plain_header(a);
    lemma_plain_header(b);
    lemma_closing_tag(a, rest);
    lemma_closing_tag(b, ra);
    assert(seq!['<', '/'] + b + seq!['>'] + ra =~= seq!['<'] + (seq!['/'] + b + seq!['>'] + ra));
    // the children of b
    assert(r2 =~= t + seq!['<'] + (seq!['/'] + b + seq!['>'] + ra));
    lemma_split_first(t, '<', seq!['/'] + b + seq!['>'] + ra);
    assert(parse_div(seq!['/'] + b + seq!['>'] + ra) == (None::<ElementModel>, ra));
    assert(parse_children(r2) == (seq![NodeModel::Text(t)], ra));
    // the element b
    lemma_split_first(b, '>', r2);
    assert(parse_div(s1b) == (Some(eb), ra));
    // the children of a
    assert(r1 =~= Seq::<char>::empty() + seq!['<'] + s1b);
    lemma_split_first(Seq::<char>::empty(), '<', s1b);
    assert(trim(Seq::<char>::empty()) == Seq::<char>::empty());
    assert(parse_children(ra) == (Seq::<NodeModel>::empty(), rest));
    assert(Seq::<NodeModel>::empty().push(NodeModel::Element(eb)) + Seq::<NodeModel>::empty()
        =~= seq![NodeModel::Element(eb)]);
    assert(parse_children(r1) == (seq![NodeModel::Element(eb)], rest));
    // the element a
    lemma_split_first(a, '>', r1);
    assert(s =~= a + seq!['>', '<'] + b + seq!['>'] + t + seq!['<', '/'] + b + seq!['>', '<', '/']
        + a + seq!['>'] + rest);
    assert(parse_div(s) == (Some(ea), rest));
}

/// The element that an optional value stands for.
pub open spec fn opt_model(d: Option<XMLDiv>) -> Option<ElementModel> {
    match d {
        Some(d) => Some(d.model()),
        None => None,
    }
}

proof fn lemma_after_shorter(s: Seq<char>, c: char)
    ensures
        after(s, c).len() <= s.len(),
        s.len() > 0 ==> after(s, c).len() < s.len(),
        before(s, c).len() > 0 ==> after(s, c).len() < s.len(),
{
    lemma_index_of_bounds(s, c);
}

/// The element of a tag header body, with no children.
fn element_of_header(hb: Vec<char>) -> (r: XMLDiv)
    ensures
        r.model() == header_element(hb@),
{
    let mut hs = XMLInStream::new(hb);
    let name = hs.read_until(' ');
    let attrs = hs.read_to_end();
    let mut div = XMLDiv::from_name(string_from(&name, 0, name.len()));
    let n = attrs.len();
    let mut i: usize = 0;
    assert(attrs@.subrange(0, n as int) =~= attrs@);
    while i < n
        invariant
            i <= n == attrs@.len(),
            attrs@ == after(hb@, ' '),
            div.model().name == before(hb@, ' '),
            div.model().children == Seq::<NodeModel>::empty(),
            add_tokens(div.model().attrs, tokens(attrs@.subrange(i as int, n as int))) == add_tokens(
                Seq::empty(),
                tokens(attrs@),
            ),
        decreases n - i,
    {
        let ghost rest = attrs@.subrange(i as int, n as int);
        if is_white_space(attrs[i]) {
            assert(rest.drop_first() =~= attrs@.subrange(i + 1, n as int));
            i = i + 1;
        } else {
            let mut k: usize = i;
            while k < n && !is_white_space(attrs[k])
                invariant
                    i <= k <= n == attrs@.len(),
                    forall|j: int| i <= j < k ==> !spec_is_white_space(attrs@[j]),
                decreases n - k,
            {
                k = k + 1;
            }
            proof {
                lemma_word_len(rest, k - i);
            }
            let ghost tok = attrs@.subrange(i as int, k as int);
            assert(rest.take(k - i) =~= tok);
            assert(rest.skip(k - i) =~= attrs@.subrange(k as int, n as int));
            let mut j: usize = i;
            while j < k && attrs[j] != '='
                invariant
                    i <= j <= k <= n == attrs@.len(),
                    forall|m: int| i <= m < j ==> attrs@[m] != '=',
                decreases k - j,
            {
                j = j + 1;
            }
            proof {
                lemma_index_of(tok, '=', j - i);
            }
            let attr = if j < k {
                let an = string_from(&attrs, i, j);
                let av = if k - (j + 1) >= 2 {
                    string_from(&attrs, j + 2, k - 1)
                } else {
                    String::new()
                };
                assert(tok.take(j - i) =~= an@);
                assert(strip_enclosing(tok.skip(j - i + 1)) =~= av@);
                (an, av)
            } else {
                (string_from(&attrs, i, k), String::new())
            };
            assert(attr_of_token(tok) == (attr.0@, attr.1@));
            let ghost ts = tokens(rest);
            assert(ts[0] == tok);
            assert(ts.drop_first() =~= tokens(attrs@.subrange(k as int, n as int)));
            div.add_attr(attr);
            i = k;
        }
    }
    assert(attrs@.subrange(n as int, n as int) =~= Seq::<char>::empty());
    div
}

impl XMLInStream {
    /// Reads one element, the cursor standing just after its `<`. Gives `None` at
    /// the end of the input and at a header that ends the current element (a
    /// closing tag, a declaration or a comment), having read that header.
    pub fn read_div(&mut self) -> (r: Option<XMLDiv>)
        ensures
            opt_model(r) == parse_div(old(self)@).0,
            final(self)@ == parse_div(old(self)@).1,
            final(self)@.len() <= old(self)@.len(),
            r is Some ==> final(self)@.len() < old(self)@.len(),
        decreases old(self)@.len(),
    {
        let ghost s = self@;
        let mut headers = self.read_until('>');
        proof {
            lemma_after_shorter(s, '>');
        }
        if headers.len() == 0 {
            return None;
        }
        if headers[0] == '/' || headers[0] == '!' {
            return None;
        }
        let ghost h = headers@;
        let mut single = false;
        if headers[0] == '?' {
            let n = headers.len();
            headers = if n >= 2 {
                copy_range(&headers, 1, n - 1)
            } else {
                Vec::new()
            };
            assert(headers@ =~= strip_enclosing(h));
            single = true;
        }
        let ghost h1 = headers@;
        if headers.len() > 0 && headers[headers.len() - 1] == '/' {
            let n = headers.len();
            headers = copy_range(&headers, 0, n - 1);
            assert(headers@ =~= h1.drop_last());
            single = true;
        }
        assert(headers@ == header_body(h).0);
        assert(single == header_body(h).1);
        let mut div = element_of_header(headers);
        if single {
            return Some(div);
        }
        let ghost r0 = self@;
        let ghost e0 = div.model();
        loop
            invariant_except_break
                div.model().children + parse_children(self@).0 == parse_children(r0).0,
                parse_children(self@).1 == parse_children(r0).1,
            invariant
                s == old(self)@,
                r0 == after(s, '>'),
                r0.len() < s.len(),
                self@.len() <= r0.len(),
                div.model().name == e0.name,
                div.model().attrs == e0.attrs,
            ensures
                div.model().children == parse_children(r0).0,
                self@ == parse_children(r0).1,
                self@.len() <= r0.len(),
            decreases self@.len(),
        {
            let ghost cur = self@;
            let contents = self.read_until('<');
            proof {
                lemma_after_shorter(cur, '<');
            }
            let ghost kids0 = div.model().children;
            let (a, b) = trim_range(&contents, 0, contents.len());
            assert(contents@.subrange(0, contents@.len() as int) =~= contents@);
            if a < b {
                div.add_content(XMLContent { cont: string_from(&contents, a, b) });
            }
            let ghost lead = if trim(before(cur, '<')).len() > 0 {
                seq![NodeModel::Text(trim(before(cur, '<')))]
            } else {
                Seq::empty()
            };
            assert(div.model().children =~= kids0 + lead);
            let cur_div = self.read_div();
            match cur_div {
                None => {
                    assert(div.model().children =~= parse_children(r0).0);
                    break;
                },
                Some(d) => {
                    let ghost kids1 = div.model().children;
                    div.add_div(d);
                    assert(div.model().children =~= kids1.push(NodeModel::Element(d.model())));
                    assert(div.model().children + parse_children(self@).0 =~= kids0 + (lead.push(
                        NodeModel::Element(d.model()),
                    ) + parse_children(self@).0));
                },
            }
        }
        assert(div.model() == (ElementModel { children: parse_children(r0).0, ..e0 }));
        Some(div)
    }
}

/// A document with no elements.
pub open spec fn empty_doc() -> DocModel {
    DocModel { header: None, body: None, other: Seq::empty() }
}

/// `d` with top-level element `e` put in its place: the `body` or `header`
/// slot by name, otherwise replacing an element of the same name or added.
pub open spec fn place(d: DocModel, e: ElementModel) -> DocModel {
    if e.name == "body"@ {
        DocModel { body: Some(e), ..d }
    } else if e.name == "header"@ {
        DocModel { header: Some(e), ..d }
    } else if elem_index(d.other, e.name) < d.other.len() {
        DocModel { other: d.other.update(elem_index(d.other, e.name), e), ..d }
    } else {
        DocModel { other: d.other.push(e), ..d }
    }
}

/// The top-level element of `d` named `name`.
pub open spec fn doc_lookup(d: DocModel, name: Seq<char>) -> Option<ElementModel> {
    if name == "header"@ {
        d.header
    } else if name == "body"@ {
        d.body
    } else if elem_index(d.other, name) < d.other.len() {
        Some(d.other[elem_index(d.other, name)])
    } else {
        None
    }
}

/// `d` with each top-level element of `s` placed in turn: the text up to each
/// `<` is skipped, and an element read from there.
pub open spec fn parse_from(d: DocModel, s: Seq<char>) -> DocModel
    decreases s.len(),
{
    if s.len() == 0 {
        d
    } else {
        let s1 = after(s, '<');
        let d2 = match parse_div(s1).0 {
            Some(e) => place(d, e),
            None => d,
        };
        if parse_div(s1).1.len() < s.len() {
            parse_from(d2, parse_div(s1).1)
        } else {
            d2
        }
    }
}

/// Whether `c` ends a line.
pub open spec fn is_line_break(c: char) -> bool {
    c == '\n' || c == '\r'
}

/// `s` without its line breaks.
pub open spec fn remove_line_breaks(s: Seq<char>) -> Seq<char>
    decreases s.len(),
{
    if s.len() == 0 {
        s
    } else if is_line_break(s.last()) {
        remove_line_breaks(s.drop_last())
    } else {
        remove_line_breaks(s.drop_last()).push(s.last())
    }
}

/// The document that `text` holds: its line breaks are removed, then its
/// top-level elements are read in order.
pub open spec fn parse_document(text: Seq<char>) -> DocModel {
    parse_from(empty_doc(), remove_line_breaks(text))
}

/// A parsed document: the `header` and `body` elements, and the other top-level
/// elements by name.
pub struct XML {
    header: Option<XMLDiv>,
    body: Option<XMLDiv>,
    other: Vec<XMLDiv>,
}

impl XML {
    /// The document that this value stands for.
    pub closed spec fn model(&self) -> DocModel {
        DocModel {
            header: opt_model(self.header),
            body: opt_model(self.body),
            other: self.other@.map_values(|d: XMLDiv| d.model()),
        }
    }

    fn new() -> (r: Self)
        ensures
            r.model() == empty_doc(),
    {
        let r = XML { header: None, body: None, other: Vec::new() };
        assert(r.model().other =~= Seq::<ElementModel>::empty());
        r
    }

    fn set_body(&mut self, body: XMLDiv)
        ensures
            final(self).model() == (DocModel { body: Some(body.model()), ..old(self).model() }),
    {
        self.body = Some(body);
    }

    fn set_head(&mut self, head: XMLDiv)
        ensures
            final(self).model() == (DocModel { header: Some(head.model()), ..old(self).model() }),
    {
        self.header = Some(head);
    }

    fn add_div(&mut self, div: XMLDiv)
        ensures
            final(self).model() == (DocModel {
                other: if elem_index(old(self).model().other, div.model().name) < old(
                    self,
                ).model().other.len() {
                    old(self).model().other.update(
                        elem_index(old(self).model().other, div.model().name),
                        div.model(),
                    )
                } else {
                    old(self).model().other.push(div.model())
                },
                ..old(self).model()
            }),
    {
        let ghost o = old(self).model().other;
        let ghost dm = div.model();
        let mut i: usize = 0;
        while i < self.other.len()
            invariant
                i <= self.other@.len(),
                *self == *old(self),
                o == self.model().other,
                o.len() == self.other@.len(),
                dm == div.model(),
                forall|j: int| 0 <= j < i ==> o[j].name != dm.name,
            decreases self.other@.len() - i,
        {
            assert(o[i as int] == self.other@[i as int].model());
            proof {
                self.other@[i as int].lemma_name();
                div.lemma_name();
            }
            if self.other[i].name == div.name {
                proof {
                    lemma_elem_index(o, dm.name, i as int);
                }
                self.other.set(i, div);
                assert(self.model().other =~= o.update(i as int, dm));
                return;
            }
            i = i + 1;
        }
        proof {
            lemma_elem_index(o, dm.name, i as int);
        }
        self.other.push(div);
        assert(self.model().other =~= o.push(dm));
    }

    fn place_div(&mut self, div: XMLDiv)
        ensures
            final(self).model() == place(old(self).model(), div.model()),
    {
        let body = "body".to_owned();
        let header = "header".to_owned();
        proof {
            div.lemma_name();
        }
        if div.name == body {
            self.set_body(div);
        } else if div.name == header {
            self.set_head(div);
        } else {
            self.add_div(div);
        }
    }

    /// The top-level element named `name`.
    pub fn get_div(&self, name: &str) -> (r: Option<&XMLDiv>)
        ensures
            r matches Some(d) ==> doc_lookup(self.model(), name@) == Some(d.model()),
            r is None ==> doc_lookup(self.model(), name@) is None,
    {
        let key = name.to_owned();
        let header = "header".to_owned();
        let body = "body".to_owned();
        if key == header {
            return self.header.as_ref();
        }
        if key == body {
            return self.body.as_ref();
        }
        let ghost o = self.model().other;
        let mut i: usize = 0;
        while i < self.other.len()
            invariant
                i <= self.other@.len(),
                o == self.model().other,
                o.len() == self.other@.len(),
                key@ == name@,
                name@ != "header"@,
                name@ != "body"@,
                forall|j: int| 0 <= j < i ==> o[j].name != name@,
            decreases self.other@.len() - i,
        {
            assert(o[i as int] == self.other@[i as int].model());
            proof {
                self.other@[i as int].lemma_name();
            }
            if self.other[i].name == key {
                proof {
                    lemma_elem_index(o, name@, i as int);
                }
                return Some(&self.other[i]);
            }
            i = i + 1;
        }
        proof {
            lemma_elem_index(o, name@, i as int);
        }
        None
    }

    /// Parses the document that `text` holds.
    pub fn from_text(text: &str) -> (r: Self)
        ensures
            r.model() == parse_document(text@),
    {
        let raw = chars_of(text);
        let mut cleaned: Vec<char> = Vec::new();
        let mut i: usize = 0;
        while i < raw.len()
            invariant
                i <= raw@.len(),
                raw@ == text@,
                cleaned@ == remove_line_breaks(raw@.subrange(0, i as int)),
            decreases raw@.len() - i,
        {
            assert(raw@.subrange(0, i + 1).drop_last() =~= raw@.subrange(0, i as int));
            if raw[i] != '\n' && raw[i] != '\r' {
                cleaned.push(raw[i]);
            }
            i = i + 1;
        }
        assert(raw@.subrange(0, i as int) =~= raw@);
        let mut stream = XMLInStream::new(cleaned);
        let mut document = XML::new();
        while !stream.is_done()
            invariant
                parse_from(document.model(), stream@) == parse_document(text@),
            decreases stream@.len(),
        {
            let ghost s = stream@;
            stream.skip_to('<');
            proof {
                lemma_after_shorter(s, '<');
            }
            if let Some(div) = stream.read_div() {
                document.place_div(div);
            }
        }
        document
    }
}

} // verus!
