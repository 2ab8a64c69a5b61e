//! The engine's minimal HTML reader: the input is cut at each `<`; a piece
//! with `>` is a tag followed by text, `</..>` closes the innermost open
//! element, `<style>` takes everything up to `</style`, and text is added with
//! its whitespace collapsed.
use vstd::prelude::*;
use crate::text::{
    str_chars, chars_to_string, chars_eq_lit, collapse_ws, collapse_whitespace, trimmed, trim_slice,
    words, words_of, chars_view, slice_chars,
};
use crate::hb_html::tokenizer::{find_char_from, string_pairs_view};
use crate::hb_html::tree_builder::{map_from, attrs_to_map};
use crate::hb_core::error::EngineError;
use vstd::string::StringSliceAdditionalSpecFns;

verus! {

#[derive(Clone, Copy, Debug, PartialEq, Eq, PartialOrd, Ord, Structural)]
pub struct NodeId(pub u32);

#[derive(Debug, Clone, PartialEq, Eq, PartialOrd, Ord)]
pub enum TagName {
    Html,
    Head,
    Body,
    Div,
    P,
    Span,
    Link,
    Style,
    Unknown(String),
}

pub enum TagView {
    Html,
    Head,
    Body,
    Div,
    P,
    Span,
    Link,
    Style,
    Unknown(Seq<char>),
}

impl View for TagName {
    type V = TagView;

    open spec fn view(&self) -> TagView {
        match self {
            TagName::Html => TagView::Html,
            TagName::Head => TagView::Head,
            TagName::Body => TagView::Body,
            TagName::Div => TagView::Div,
            TagName::P => TagView::P,
            TagName::Span => TagView::Span,
            TagName::Link => TagView::Link,
            TagName::Style => TagView::Style,
            TagName::Unknown(s) => TagView::Unknown(s@),
        }
    }
}

/// An element's tag and attributes; `attrs` is kept sorted by name with each
/// name once, as a `BTreeMap` holds it.
#[derive(Debug, Clone)]
pub struct ElementData {
    pub tag: TagName,
    pub attrs: Vec<(String, String)>,
}

#[derive(Debug, Clone)]
pub enum NodeKind {
    Document,
    Element(ElementData),
    Text(String),
    Style(String),
    Script { _raw: String },
}

pub enum KindView {
    Document,
    Element { tag: TagView, attrs: Seq<(Seq<char>, Seq<char>)> },
    Text(Seq<char>),
    Style(Seq<char>),
    Script(Seq<char>),
}

impl View for NodeKind {
    type V = KindView;

    open spec fn view(&self) -> KindView {
        match self {
            NodeKind::Document => KindView::Document,
            NodeKind::Element(ed) => KindView::Element {
                tag: ed.tag@,
                attrs: string_pairs_view(ed.attrs@),
            },
            NodeKind::Text(s) => KindView::Text(s@),
            NodeKind::Style(s) => KindView::Style(s@),
            NodeKind::Script { _raw } => KindView::Script(_raw@),
        }
    }
}

#[derive(Debug, Clone)]
pub struct Node {
    pub id: NodeId,
    pub parent: Option<NodeId>,
    pub children: Vec<NodeId>,
    pub kind: NodeKind,
}

pub struct NodeView {
    pub id: NodeId,
    pub parent: Option<NodeId>,
    pub children: Seq<NodeId>,
    pub kind: KindView,
}

impl View for Node {
    type V = NodeView;

    open spec fn view(&self) -> NodeView {
        NodeView { id: self.id, parent: self.parent, children: self.children@, kind: self.kind@ }
    }
}

#[derive(Debug, Clone)]
pub struct Dom {
    pub nodes: Vec<Node>,
    pub root: NodeId,
}

pub open spec fn nodes_view(v: Seq<Node>) -> Seq<NodeView> {
    v.map_values(|n: Node| n@)
}

impl View for Dom {
    type V = Seq<NodeView>;

    open spec fn view(&self) -> Seq<NodeView> {
        nodes_view(self.nodes@)
    }
}

pub open spec fn document_view() -> Seq<NodeView> {
    seq![NodeView { id: NodeId(0), parent: None, children: Seq::empty(), kind: KindView::Document }]
}

/// The document after appending a node of the given kind: the new node takes
/// the next id and names `parent`; `parent`, when it exists (counting the new
/// node), lists it as its last child.
pub open spec fn append_spec(d: Seq<NodeView>, parent: NodeId, kind: KindView) -> Seq<NodeView> {
    let id = NodeId(d.len() as u32);
    let e = d.push(NodeView { id, parent: Some(parent), children: Seq::empty(), kind });
    if (parent.0 as int) < e.len() {
        let p = e[parent.0 as int];
        e.update(parent.0 as int, NodeView { children: p.children.push(id), ..p })
    } else {
        e
    }
}

/// Every node sits at the index of its id, and every child listed by a node
/// comes after it in the document.
pub open spec fn forest_ok(d: Seq<NodeView>) -> bool {
    &&& d.len() >= 1
    &&& forall|i: int| 0 <= i < d.len() ==> (#[trigger] d[i]).id.0 == i
    &&& forall|i: int, k: int|
        0 <= i < d.len() && 0 <= k < (#[trigger] d[i]).children.len() ==> i < (
        #[trigger] d[i].children[k]).0 < d.len()
}

/// Appending under an existing node keeps the shape.
pub proof fn lemma_append_keeps_forest(d: Seq<NodeView>, parent: NodeId, kind: KindView)
    requires
        forest_ok(d),
        parent.0 < d.len(),
        d.len() < u32::MAX,
    ensures
        forest_ok(append_spec(d, parent, kind)),
        append_spec(d, parent, kind).len() == d.len() + 1,
{
    let e = append_spec(d, parent, kind);
    assert forall|i: int, k: int|
        0 <= i < e.len() && 0 <= k < (#[trigger] e[i]).children.len() implies i < (
    #[trigger] e[i].children[k]).0 < e.len() by {
        if i < d.len() && !(i == parent.0 && k == d[i].children.len()) {
            assert(e[i].children[k] == d[i].children[k]);
        }
    }
}

impl Dom {
    pub fn new_document() -> (r: Self)
        ensures
            r@ == document_view(),
            r.root == NodeId(0),
    {
        let root = Node {
            id: NodeId(0),
            parent: None,
            children: Vec::new(),
            kind: NodeKind::Document,
        };
        let r = Dom { nodes: vec![root], root: NodeId(0) };
        assert(r@ =~= document_view());
        r
    }

    pub fn append_child(&mut self, parent: NodeId, kind: NodeKind) -> (r: NodeId)
        ensures
            final(self)@ == append_spec(old(self)@, parent, kind@),
            final(self).root == old(self).root,
            r == NodeId(old(self)@.len() as u32),
    {
        let ghost d = self@;
        let ghost kv = kind@;
        let id = NodeId(self.nodes.len() as u32);
        self.nodes.push(Node { id, parent: Some(parent), children: Vec::new(), kind });
        let pi = parent.0 as usize;
        if pi < self.nodes.len() {
            let mut p = self.nodes[pi].clone_node();
            p.children.push(id);
            self.nodes.set(pi, p);
        }
        assert(self@ =~= append_spec(d, parent, kv));
        id
    }
}

impl Node {
    fn clone_node(&self) -> (r: Node)
        ensures
            r@ == self@,
    {
        let mut children: Vec<NodeId> = Vec::new();
        let mut k: usize = 0;
        while k < self.children.len()
            invariant
                k <= self.children@.len(),
                children@ =~= self.children@.take(k as int),
            decreases self.children.len() - k,
        {
            children.push(self.children[k]);
            assert(self.children@.take(k + 1) =~= self.children@.take(k as int).push(
                self.children@[k as int],
            ));
            k = k + 1;
        }
        assert(self.children@.take(self.children@.len() as int) =~= self.children@);
        Node { id: self.id, parent: self.parent, children, kind: self.kind.clone_kind() }
    }
}

impl NodeKind {
    fn clone_kind(&self) -> (r: NodeKind)
        ensures
            r@ == self@,
    {
        match self {
            NodeKind::Document => NodeKind::Document,
            NodeKind::Element(ed) => NodeKind::Element(
                ElementData { tag: ed.tag.clone_tag(), attrs: clone_pairs(&ed.attrs) },
            ),
            NodeKind::Text(s) => NodeKind::Text(s.clone()),
            NodeKind::Style(s) => NodeKind::Style(s.clone()),
            NodeKind::Script { _raw } => NodeKind::Script { _raw: _raw.clone() },
        }
    }
}

impl TagName {
    fn clone_tag(&self) -> (r: TagName)
        ensures
            r@ == self@,
    {
        match self {
            TagName::Html => TagName::Html,
            TagName::Head => TagName::Head,
            TagName::Body => TagName::Body,
            TagName::Div => TagName::Div,
            TagName::P => TagName::P,
            TagName::Span => TagName::Span,
            TagName::Link => TagName::Link,
            TagName::Style => TagName::Style,
            TagName::Unknown(s) => TagName::Unknown(s.clone()),
        }
    }
}

fn clone_pairs(v: &Vec<(String, String)>) -> (r: Vec<(String, String)>)
    ensures
        string_pairs_view(r@) == string_pairs_view(v@),
{
    let mut r: Vec<(String, String)> = Vec::new();
    let mut k: usize = 0;
    while k < v.len()
        invariant
            k <= v@.len(),
            string_pairs_view(r@) =~= string_pairs_view(v@).take(k as int),
        decreases v.len() - k,
    {
        r.push((v[k].0.clone(), v[k].1.clone()));
        assert(string_pairs_view(v@).take(k + 1) =~= string_pairs_view(v@).take(k as int).push(
            (v@[k as int].0@, v@[k as int].1@),
        ));
        k = k + 1;
    }
    assert(string_pairs_view(v@).take(v@.len() as int) =~= string_pairs_view(v@));
    r
}

// ---------------------------------------------------------------------------
// Names and attributes.
// ---------------------------------------------------------------------------
/// `str::to_lowercase`: the Unicode lowercase mapping of a text.
pub uninterp spec fn lowercase_spec(s: Seq<char>) -> Seq<char>;

/// Calls `str::to_lowercase`; the claim is only that the result is the named
/// lowercase mapping of `s`.
#[verifier::external_body]
fn to_lowercase(s: &str) -> (r: String)
    ensures
        r@ == lowercase_spec(s@),
{
    s.to_lowercase()
}

pub(crate) fn lowercase_chars(v: &Vec<char>) -> (r: Vec<char>)
    ensures
        r@ == lowercase_spec(v@),
{
    let s = chars_to_string(v);
    let l = to_lowercase(s.as_str());
    str_chars(l.as_str())
}

pub open spec fn canon_tag_spec(name: Seq<char>) -> TagView {
    if name =~= seq!['h', 't', 'm', 'l'] {
        TagView::Html
    } else if name =~= seq!['h', 'e', 'a', 'd'] {
        TagView::Head
    } else if name =~= seq!['b', 'o', 'd', 'y'] {
        TagView::Body
    } else if name =~= seq!['d', 'i', 'v'] {
        TagView::Div
    } else if name =~= seq!['p'] {
        TagView::P
    } else if name =~= seq!['s', 'p', 'a', 'n'] {
        TagView::Span
    } else if name =~= seq!['s', 't', 'y', 'l', 'e'] {
        TagView::Style
    } else if name =~= seq!['l', 'i', 'n', 'k'] {
        TagView::Link
    } else {
        TagView::Unknown(name)
    }
}

fn canon_tag(name: &Vec<char>) -> (r: TagName)
    ensures
        r@ == canon_tag_spec(name@),
{
    if chars_eq_lit(name, &['h', 't', 'm', 'l']) {
        TagName::Html
    } else if chars_eq_lit(name, &['h', 'e', 'a', 'd']) {
        TagName::Head
    } else if chars_eq_lit(name, &['b', 'o', 'd', 'y']) {
        TagName::Body
    } else if chars_eq_lit(name, &['d', 'i', 'v']) {
        TagName::Div
    } else if chars_eq_lit(name, &['p']) {
        TagName::P
    } else if chars_eq_lit(name, &['s', 'p', 'a', 'n']) {
        TagName::Span
    } else if chars_eq_lit(name, &['s', 't', 'y', 'l', 'e']) {
        TagName::Style
    } else if chars_eq_lit(name, &['l', 'i', 'n', 'k']) {
        TagName::Link
    } else {
        TagName::Unknown(chars_to_string(name))
    }
}

/// The end tags that close the innermost open element.
pub open spec fn is_closable(name: Seq<char>) -> bool {
    ||| name =~= seq!['d', 'i', 'v']
    ||| name =~= seq!['p']
    ||| name =~= seq!['s', 'p', 'a', 'n']
    ||| name =~= seq!['b', 'o', 'd', 'y']
    ||| name =~= seq!['h', 'e', 'a', 'd']
    ||| name =~= seq!['h', 't', 'm', 'l']
    ||| name =~= seq!['s', 't', 'y', 'l', 'e']
    ||| name =~= seq!['l', 'i', 'n', 'k']
}

fn closable(name: &Vec<char>) -> (r: bool)
    ensures
        r == is_closable(name@),
{
    chars_eq_lit(name, &['d', 'i', 'v']) || chars_eq_lit(name, &['p']) || chars_eq_lit(
        name,
        &['s', 'p', 'a', 'n'],
    ) || chars_eq_lit(name, &['b', 'o', 'd', 'y']) || chars_eq_lit(name, &['h', 'e', 'a', 'd'])
        || chars_eq_lit(name, &['h', 't', 'm', 'l']) || chars_eq_lit(
        name,
        &['s', 't', 'y', 'l', 'e'],
    ) || chars_eq_lit(name, &['l', 'i', 'n', 'k'])
}

/// First index at or after `i` that is not `/`.
pub open spec fn skip_slashes(s: Seq<char>, i: int) -> int
    decreases s.len() - i,
{
    if i < 0 || i >= s.len() {
        i
    } else if s[i] == '/' {
        skip_slashes(s, i + 1)
    } else {
        i
    }
}

/// One past the last index before `j`, and not before `lo`, that is not `/`.
pub open spec fn drop_slashes_end(s: Seq<char>, lo: int, j: int) -> int
    decreases j - lo,
{
    if j <= lo {
        lo
    } else if s[j - 1] == '/' {
        drop_slashes_end(s, lo, j - 1)
    } else {
        j
    }
}

/// `trim_start_matches('/')`.
pub open spec fn trim_start_slash(s: Seq<char>) -> Seq<char> {
    s.subrange(skip_slashes(s, 0), s.len() as int)
}

/// `trim_matches('/')`.
pub open spec fn trim_slash(s: Seq<char>) -> Seq<char> {
    let a = skip_slashes(s, 0);
    s.subrange(a, drop_slashes_end(s, a, s.len() as int))
}

fn skip_slashes_exec(v: &Vec<char>, start: usize) -> (r: usize)
    requires
        start <= v@.len(),
    ensures
        r == skip_slashes(v@, start as int),
        start <= r <= v@.len(),
{
    let mut k: usize = start;
    while k < v.len() && v[k] == '/'
        invariant
            start <= k <= v@.len(),
            skip_slashes(v@, k as int) == skip_slashes(v@, start as int),
        decreases v.len() - k,
    {
        k = k + 1;
    }
    k
}

fn trim_start_slash_exec(v: &Vec<char>) -> (r: Vec<char>)
    ensures
        r@ == trim_start_slash(v@),
{
    let a = skip_slashes_exec(v, 0);
    slice_chars(v, a, v.len())
}

fn trim_slash_exec(v: &Vec<char>) -> (r: Vec<char>)
    ensures
        r@ == trim_slash(v@),
{
    let a = skip_slashes_exec(v, 0);
    let mut j: usize = v.len();
    while j > a && v[j - 1] == '/'
        invariant
            a <= j <= v@.len(),
            a == skip_slashes(v@, 0),
            drop_slashes_end(v@, a as int, j as int) == drop_slashes_end(
                v@,
                a as int,
                v@.len() as int,
            ),
        decreases j - a,
    {
        j = j - 1;
    }
    slice_chars(v, a, j)
}

/// An attribute value without one pair of enclosing `"` or `'` quotes.
pub open spec fn unquote(v: Seq<char>) -> Seq<char> {
    if v.len() >= 2 && ((v[0] == '"' && v.last() == '"') || (v[0] == '\'' && v.last() == '\'')) {
        v.subrange(1, v.len() - 1)
    } else {
        v
    }
}

/// An attribute written `k=v` (or `k` alone): the name trimmed, stripped of
/// `/` and lowercased; the value trimmed and unquoted.
pub open spec fn attr_of_part(p: Seq<char>) -> (Seq<char>, Seq<char>) {
    let eq = find_char_from(p, 0, '=');
    let k0 = p.subrange(0, eq);
    let v0 = if eq < p.len() {
        p.subrange(eq + 1, p.len() as int)
    } else {
        Seq::empty()
    };
    (lowercase_spec(trim_slash(trimmed(k0))), unquote(trimmed(v0)))
}

/// The attributes of the parts, in order, those with an empty name left out.
pub open spec fn attr_list(parts: Seq<Seq<char>>) -> Seq<(Seq<char>, Seq<char>)>
    decreases parts.len(),
{
    if parts.len() == 0 {
        Seq::empty()
    } else {
        let a = attr_of_part(parts.last());
        let init = attr_list(parts.drop_last());
        if a.0.len() > 0 {
            init.push(a)
        } else {
            init
        }
    }
}

/// Some part ends with `/`.
pub open spec fn any_slash_end(parts: Seq<Seq<char>>) -> bool {
    exists|k: int| 0 <= k < parts.len() && parts[k].len() > 0 && parts[k].last() == '/'
}

/// A tag's inside: its name (the first word, `div` when there is none,
/// stripped of `/` and lowercased), its attributes as a sorted map, and
/// whether it closes itself.
pub open spec fn parse_tag_spec(src: Seq<char>) -> (Seq<char>, Seq<(Seq<char>, Seq<char>)>, bool) {
    let t = trimmed(src);
    let ws = words(t);
    let first = if ws.len() > 0 {
        ws[0]
    } else {
        seq!['d', 'i', 'v']
    };
    let rest = if ws.len() > 0 {
        ws.drop_first()
    } else {
        Seq::empty()
    };
    (
        lowercase_spec(trim_slash(first)),
        map_from(attr_list(rest)),
        (t.len() > 0 && t.last() == '/') || any_slash_end(rest),
    )
}

fn attr_of(p: &Vec<char>) -> (r: (Vec<char>, Vec<char>))
    ensures
        (r.0@, r.1@) == attr_of_part(p@),
{
    let mut eq: usize = 0;
    while eq < p.len() && p[eq] != '='
        invariant
            eq <= p@.len(),
            find_char_from(p@, eq as int, '=') == find_char_from(p@, 0, '='),
        decreases p.len() - eq,
    {
        eq = eq + 1;
    }
    let k0 = trim_slice(p, 0, eq);
    let v1 = if eq < p.len() {
        trim_slice(p, eq + 1, p.len())
    } else {
        let e: Vec<char> = Vec::new();
        proof {
            assert(trimmed(Seq::<char>::empty()) =~= Seq::<char>::empty()) by {
                reveal_with_fuel(crate::text::skip_ws_from, 1);
            }
        }
        e
    };
    let k = lowercase_chars(&trim_slash_exec(&k0));
    let n = v1.len();
    let quoted = n >= 2 && ((v1[0] == '"' && v1[n - 1] == '"') || (v1[0] == '\'' && v1[n - 1] == '\''));
    let v = if quoted {
        slice_chars(&v1, 1, n - 1)
    } else {
        v1
    };
    (k, v)
}

fn parse_tag(src: &Vec<char>, a: usize, b: usize) -> (r: (Vec<char>, Vec<(String, String)>, bool))
    requires
        a <= b <= src@.len(),
    ensures
        ({
            let (n, m, sc) = parse_tag_spec(src@.subrange(a as int, b as int));
            r.0@ == n && string_pairs_view(r.1@) == m && r.2 == sc
        }),
{
    let t = trim_slice(src, a, b);
    let ws = words_of(&t);
    let ghost wv = chars_view(ws@);
    let first: Vec<char> = if ws.len() > 0 {
        slice_chars(&ws[0], 0, ws[0].len())
    } else {
        vec!['d', 'i', 'v']
    };
    proof {
        if ws.len() > 0 {
            assert(first@ =~= wv[0]);
        } else {
            assert(first@ =~= seq!['d', 'i', 'v']);
        }
    }
    let name = lowercase_chars(&trim_slash_exec(&first));
    let mut list: Vec<(String, String)> = Vec::new();
    let mut sc = t.len() > 0 && t[t.len() - 1] == '/';
    let ghost rest = if wv.len() > 0 {
        wv.drop_first()
    } else {
        Seq::<Seq<char>>::empty()
    };
    let mut k: usize = 1;
    while k < ws.len()
        invariant
            1 <= k,
            ws.len() > 0 ==> k <= ws@.len(),
            ws.len() == 0 ==> k == 1,
            wv == chars_view(ws@),
            rest == (if wv.len() > 0 {
                wv.drop_first()
            } else {
                Seq::<Seq<char>>::empty()
            }),
            string_pairs_view(list@) == attr_list(rest.take(k - 1)),
            sc == ((t@.len() > 0 && t@.last() == '/') || any_slash_end(rest.take(k - 1))),
        decreases ws.len() - k,
    {
        let part = &ws[k];
        assert(rest[k - 1] == part@);
        assert(rest.take(k as int).drop_last() =~= rest.take(k - 1));
        let (kk, vv) = attr_of(part);
        if kk.len() > 0 {
            let ks = chars_to_string(&kk);
            let vs = chars_to_string(&vv);
            list.push((ks, vs));
            assert(string_pairs_view(list@) =~= string_pairs_view(list@.drop_last()).push((kk@, vv@)));
        }
        if part.len() > 0 && part[part.len() - 1] == '/' {
            sc = true;
        }
        proof {
            let r1 = rest.take(k as int);
            if any_slash_end(r1) {
                let m = choose|m: int| 0 <= m < r1.len() && r1[m].len() > 0 && r1[m].last() == '/';
                if m < k - 1 {
                    assert(rest.take(k - 1)[m] == r1[m]);
                }
            }
            let r0 = rest.take(k - 1);
            if any_slash_end(r0) {
                let m = choose|m: int| 0 <= m < r0.len() && r0[m].len() > 0 && r0[m].last() == '/';
                assert(r1[m] == r0[m]);
            }
            if part@.len() > 0 && part@.last() == '/' {
                assert(r1[k - 1] == part@);
            }
        }
        k = k + 1;
    }
    proof {
        assert(rest.take(k - 1) =~= rest);
    }
    let attrs = attrs_to_map(list);
    (name, attrs, sc)
}

// ---------------------------------------------------------------------------
// Style element contents.
// ---------------------------------------------------------------------------
pub open spec fn occurs_at(h: Seq<u8>, n: Seq<u8>, i: int) -> bool {
    0 <= i && i + n.len() <= h.len() && h.subrange(i, i + n.len()) == n
}

/// `str::find` on bytes: the first index at or after `i` where `n` (not
/// empty) occurs.
pub open spec fn find_bytes_from(h: Seq<u8>, n: Seq<u8>, i: int) -> Option<int>
    decreases h.len() - i,
{
    if i < 0 || i >= h.len() || i + n.len() > h.len() {
        None
    } else if occurs_at(h, n, i) {
        Some(i)
    } else {
        find_bytes_from(h, n, i + 1)
    }
}

fn find_bytes(h: &[u8], n: &[u8]) -> (r: Option<usize>)
    requires
        n@.len() > 0,
    ensures
        match r {
            Some(i) => find_bytes_from(h@, n@, 0) == Some(i as int),
            None => find_bytes_from(h@, n@, 0) is None,
        },
{
    if n.len() > h.len() {
        return None;
    }
    let mut i: usize = 0;
    while i <= h.len() - n.len()
        invariant
            n@.len() > 0,
            n@.len() <= h@.len(),
            i <= h@.len() - n@.len() + 1,
            find_bytes_from(h@, n@, i as int) == find_bytes_from(h@, n@, 0),
        decreases h.len() - n.len() + 1 - i,
    {
        let mut k: usize = 0;
        let mut same = true;
        while k < n.len()
            invariant
                i + n@.len() <= h@.len(),
                k <= n@.len(),
                same == forall|m: int| 0 <= m < k ==> h@[i + m] == n@[m],
            decreases n.len() - k,
        {
            assert(i + k < h.len());
            let idx: usize = i + k;
            if h[idx] != n[k] {
                same = false;
            }
            k = k + 1;
        }
        if same {
            assert(h@.subrange(i as int, i + n@.len()) =~= n@);
            return Some(i);
        }
        assert(!occurs_at(h@, n@, i as int)) by {
            let m = choose|m: int| 0 <= m < n@.len() && h@[i + m] != n@[m];
            assert(h@.subrange(i as int, i + n@.len())[m] != n@[m]);
        }
        i = i + 1;
    }
    None
}

/// The bytes of `</style`.
pub open spec fn style_end_needle() -> Seq<u8> {
    seq![0x3Cu8, 0x2F, 0x73, 0x74, 0x79, 0x6C, 0x65]
}

/// The text of a `<style>` element and what follows it: the split is at the
/// first `</style` found in the lowercased text, taken as a byte offset into
/// the unlowered text, and what follows starts after the next `>`. `None` when
/// that offset is not a character boundary of the unlowered text (the split
/// would panic); the whole text when there is no `</style`.
pub open spec fn split_end_spec(src: Seq<char>) -> Option<(Seq<char>, Seq<char>)> {
    let bytes = vstd::utf8::encode_utf8(src);
    let low = vstd::utf8::encode_utf8(lowercase_spec(src));
    match find_bytes_from(low, style_end_needle(), 0) {
        None => Some((src, Seq::empty())),
        Some(i) => if !vstd::utf8::is_char_boundary(bytes, i) {
            None
        } else {
            let left = vstd::utf8::decode_utf8(bytes.subrange(0, i));
            let right = vstd::utf8::decode_utf8(bytes.subrange(i, bytes.len() as int));
            let j = find_char_from(right, 0, '>');
            Some(
                (
                    left,
                    if j < right.len() {
                        right.subrange(j + 1, right.len() as int)
                    } else {
                        Seq::empty()
                    },
                ),
            )
        },
    }
}

fn split_until_end(src: &Vec<char>) -> (r: Option<(Vec<char>, Vec<char>)>)
    ensures
        match split_end_spec(src@) {
            None => r is None,
            Some((l, rest)) => r matches Some(p) && p.0@ == l && p.1@ == rest,
        },
{
    broadcast use vstd::utf8::encode_utf8_decode_utf8;

    let s = chars_to_string(src);
    let lowered = to_lowercase(s.as_str());
    let lb = lowered.as_str().as_bytes();
    assert(lb@ == vstd::utf8::encode_utf8(lowercase_spec(src@)));
    let needle: Vec<u8> = vec![0x3C, 0x2F, 0x73, 0x74, 0x79, 0x6C, 0x65];
    assert(needle@ =~= style_end_needle());
    match find_bytes(lb, needle.as_slice()) {
        None => Some((slice_chars(src, 0, src.len()), Vec::new())),
        Some(i) => {
            let ss = s.as_str();
            assert(ss.spec_bytes() == vstd::utf8::encode_utf8(src@));
            if !ss.is_char_boundary(i) {
                return None;
            }
            let (left, right) = ss.split_at(i);
            assert(vstd::utf8::decode_utf8(vstd::utf8::encode_utf8(left@)) == left@);
            assert(vstd::utf8::decode_utf8(vstd::utf8::encode_utf8(right@)) == right@);
            let lc = str_chars(left);
            let rc = str_chars(right);
            let mut j: usize = 0;
            while j < rc.len() && rc[j] != '>'
                invariant
                    j <= rc@.len(),
                    find_char_from(rc@, j as int, '>') == find_char_from(rc@, 0, '>'),
                decreases rc.len() - j,
            {
                j = j + 1;
            }
            let rest = if j < rc.len() {
                slice_chars(&rc, j + 1, rc.len())
            } else {
                Vec::new()
            };
            Some((lc, rest))
        },
    }
}

// ---------------------------------------------------------------------------
// Reading a document.
// ---------------------------------------------------------------------------
/// The document so far and the stack of open elements (the innermost last).
pub struct MinState {
    pub dom: Seq<NodeView>,
    pub stack: Seq<NodeId>,
}

pub open spec fn min_state(dom: Seq<NodeView>, stack: Seq<NodeId>) -> MinState {
    MinState { dom, stack }
}

/// Adds text, its whitespace collapsed, as the last child of `parent`,
/// unless nothing is left of it.
pub open spec fn push_text_spec(d: Seq<NodeView>, parent: NodeId, t: Seq<char>) -> Seq<NodeView> {
    if collapse_ws(t).len() > 0 {
        append_spec(d, parent, KindView::Text(collapse_ws(t)))
    } else {
        d
    }
}

/// Text read after a tag: trimmed, and added to the innermost open element
/// when something is left.
pub open spec fn with_text(st: MinState, t: Seq<char>) -> MinState {
    let tt = trimmed(t);
    if tt.len() > 0 {
        min_state(push_text_spec(st.dom, st.stack.last(), tt), st.stack)
    } else {
        st
    }
}

/// An end tag closes the innermost open element (never the last one left)
/// when it names one of the known elements.
pub open spec fn close_step(inside: Seq<char>, tail: Seq<char>, st: MinState) -> MinState {
    let name = lowercase_spec(trimmed(trim_start_slash(inside)));
    let stack = if is_closable(name) && st.stack.len() > 1 {
        st.stack.drop_last()
    } else {
        st.stack
    };
    with_text(min_state(st.dom, stack), tail)
}

/// An end tag naming `div`, `p`, `span`, `body`, `head`, `html`, `style` or
/// `link` (in any case) closes the innermost open element, unless it is the
/// last one left; any other end tag closes nothing. Either way the text after
/// it goes to the element innermost afterwards.
pub proof fn lemma_end_tags_close(inside: Seq<char>, tail: Seq<char>, st: MinState)
    ensures
        ({
            let name = lowercase_spec(trimmed(trim_start_slash(inside)));
            let known = name == seq!['d', 'i', 'v'] || name == seq!['p'] || name == seq![
                's',
                'p',
                'a',
                'n',
            ] || name == seq!['b', 'o', 'd', 'y'] || name == seq!['h', 'e', 'a', 'd'] || name
                == seq!['h', 't', 'm', 'l'] || name == seq!['s', 't', 'y', 'l', 'e'] || name
                == seq!['l', 'i', 'n', 'k'];
            let r = close_step(inside, tail, st);
            &&& r.stack == (if known && st.stack.len() > 1 {
                st.stack.drop_last()
            } else {
                st.stack
            })
            &&& r == with_text(min_state(st.dom, r.stack), tail)
        }),
{
    let name = lowercase_spec(trimmed(trim_start_slash(inside)));
    if name == seq!['d', 'i', 'v'] {
        assert(is_closable(name));
    }
    if name == seq!['p'] {
        assert(is_closable(name));
    }
    if name == seq!['s', 'p', 'a', 'n'] {
        assert(is_closable(name));
    }
    if name == seq!['b', 'o', 'd', 'y'] {
        assert(is_closable(name));
    }
    if name == seq!['h', 'e', 'a', 'd'] {
        assert(is_closable(name));
    }
    if name == seq!['h', 't', 'm', 'l'] {
        assert(is_closable(name));
    }
    if name == seq!['s', 't', 'y', 'l', 'e'] {
        assert(is_closable(name));
    }
    if name == seq!['l', 'i', 'n', 'k'] {
        assert(is_closable(name));
    }
}

/// A start tag adds its element to the innermost open one: `<style>` takes
/// its text up to `</style`; `<link>` and self-closing tags stay closed; any
/// other element becomes the innermost open one.
pub open spec fn open_step(inside: Seq<char>, tail: Seq<char>, st: MinState) -> Option<MinState> {
    let (name, attrs, sc) = parse_tag_spec(inside);
    let tag = canon_tag_spec(name);
    let top = st.stack.last();
    let id = NodeId(st.dom.len() as u32);
    match tag {
        TagView::Style => match split_end_spec(tail) {
            None => None,
            Some((style_text, rest)) => Some(
                with_text(
                    min_state(append_spec(st.dom, top, KindView::Style(style_text)), st.stack),
                    rest,
                ),
            ),
        },
        TagView::Link => Some(
            with_text(
                min_state(
                    append_spec(st.dom, top, KindView::Element { tag: TagView::Link, attrs }),
                    st.stack,
                ),
                tail,
            ),
        ),
        _ => {
            let d1 = append_spec(st.dom, top, KindView::Element { tag, attrs });
            let stack = if sc {
                st.stack
            } else {
                st.stack.push(id)
            };
            Some(with_text(min_state(d1, stack), tail))
        },
    }
}

/// One piece of the input between two `<`.
pub open spec fn chunk_step(c: Seq<char>, st: MinState) -> Option<MinState> {
    if c.len() == 0 {
        Some(st)
    } else {
        let p = find_char_from(c, 0, '>');
        if p < c.len() {
            let inside = c.subrange(0, p);
            let tail = c.subrange(p + 1, c.len() as int);
            if inside.len() > 0 && inside[0] == '/' {
                Some(close_step(inside, tail, st))
            } else {
                open_step(inside, tail, st)
            }
        } else {
            Some(with_text(st, c))
        }
    }
}

/// The pieces from index `i` on (`None` when the reader would panic).
pub open spec fn html_min_from(src: Seq<char>, i: int, st: MinState) -> Option<MinState>
    decreases src.len() - i,
{
    if i < 0 || i > src.len() {
        None
    } else {
        let e = find_char_from(src, i, '<');
        match chunk_step(src.subrange(i, e), st) {
            None => None,
            Some(s2) => if e >= src.len() {
                Some(s2)
            } else {
                proof {
                    crate::hb_html::tokenizer::lemma_find_char_bounds(src, i, '<');
                }
                html_min_from(src, e + 1, s2)
            },
        }
    }
}

pub open spec fn empty_element(tag: TagView) -> KindView {
    KindView::Element { tag, attrs: Seq::empty() }
}

/// The document before any input: `html` holding `head` and `body`, with
/// `body` open.
pub open spec fn initial_min_state() -> MinState {
    let d1 = append_spec(document_view(), NodeId(0), empty_element(TagView::Html));
    let d2 = append_spec(d1, NodeId(1), empty_element(TagView::Head));
    let d3 = append_spec(d2, NodeId(1), empty_element(TagView::Body));
    min_state(d3, seq![NodeId(3)])
}

/// The document read from `src`, or `None` when reading would panic (a
/// `</style` found in the lowercased text at an offset that is not a
/// character boundary of the unlowered text).
pub open spec fn html_min_spec(src: Seq<char>) -> Option<Seq<NodeView>> {
    match html_min_from(src, 0, initial_min_state()) {
        Some(st) => Some(st.dom),
        None => None,
    }
}

/// Inputs short enough that node ids fit in `u32`.
pub open spec fn min_input_ok(src: Seq<char>) -> bool {
    src.len() < 0xFFFF_FFF0
}

/// The stack names existing nodes and is never empty.
pub open spec fn stack_ok(dom: Seq<NodeView>, stack: Seq<NodeId>) -> bool {
    &&& stack.len() > 0
    &&& forall|k: int| 0 <= k < stack.len() ==> (#[trigger] stack[k]).0 < dom.len()
}

fn push_text(dom: &mut Dom, parent: NodeId, t: &Vec<char>)
    requires
        old(dom)@.len() < u32::MAX,
        forest_ok(old(dom)@),
        parent.0 < old(dom)@.len(),
    ensures
        forest_ok(final(dom)@),
        final(dom)@ == push_text_spec(old(dom)@, parent, t@),
        final(dom).root == old(dom).root,
        final(dom)@.len() <= old(dom)@.len() + 1,
{
    let collapsed = collapse_whitespace(t, 0, t.len());
    assert(t@.subrange(0, t@.len() as int) =~= t@);
    if collapsed.len() > 0 {
        let s = chars_to_string(&collapsed);
        proof {
            lemma_append_keeps_forest(dom@, parent, KindView::Text(s@));
        }
        dom.append_child(parent, NodeKind::Text(s));
    }
}

/// Text after a tag, given as `v[a..b]`.
fn text_after(v: &Vec<char>, a: usize, b: usize, dom: &mut Dom, stack: &Vec<NodeId>)
    requires
        a <= b <= v@.len(),
        stack_ok(old(dom)@, stack@),
        old(dom)@.len() < u32::MAX,
        forest_ok(old(dom)@),
    ensures
        forest_ok(final(dom)@),
        min_state(final(dom)@, stack@) == with_text(
            min_state(old(dom)@, stack@),
            v@.subrange(a as int, b as int),
        ),
        final(dom).root == old(dom).root,
        final(dom)@.len() <= old(dom)@.len() + 1,
        stack_ok(final(dom)@, stack@),
{
    let t = trim_slice(v, a, b);
    if t.len() > 0 {
        let top = stack[stack.len() - 1];
        push_text(dom, top, &t);
    }
    assert forall|k: int| 0 <= k < stack@.len() implies (#[trigger] stack@[k]).0 < dom@.len() by {
        assert(stack@[k].0 < old(dom)@.len());
    }
}

pub proof fn lemma_find_char_at(s: Seq<char>, i: int, p: int, stop: char)
    requires
        0 <= i <= p <= s.len(),
        forall|m: int| i <= m < p ==> s[m] != stop,
        p == s.len() || s[p] == stop,
    ensures
        find_char_from(s, i, stop) == p,
    decreases p - i,
{
    if i < p {
        lemma_find_char_at(s, i + 1, p, stop);
    }
}

fn process_chunk(v: &Vec<char>, a: usize, b: usize, dom: &mut Dom, stack: &mut Vec<NodeId>) -> (ok:
    bool)
    requires
        a <= b <= v@.len(),
        stack_ok(old(dom)@, old(stack)@),
        old(dom)@.len() + 2 < u32::MAX,
        forest_ok(old(dom)@),
    ensures
        forest_ok(final(dom)@),
        match chunk_step(v@.subrange(a as int, b as int), min_state(old(dom)@, old(stack)@)) {
            None => !ok,
            Some(st) => ok && final(dom)@ == st.dom && final(stack)@ == st.stack,
        },
        ok ==> stack_ok(final(dom)@, final(stack)@),
        final(dom)@.len() <= old(dom)@.len() + 2,
        final(dom).root == old(dom).root,
{
    let ghost c = v@.subrange(a as int, b as int);
    if a == b {
        return true;
    }
    let mut p: usize = a;
    while p < b && v[p] != '>'
        invariant
            a <= p <= b <= v@.len(),
            forall|m: int| a <= m < p ==> v@[m] != '>',
        decreases b - p,
    {
        p = p + 1;
    }
    proof {
        assert forall|m: int| 0 <= m < p - a implies c[m] != '>' by {
            assert(c[m] == v@[a + m]);
        }
        lemma_find_char_at(c, 0, p - a, '>');
    }
    if p < b {
        let ghost inside = c.subrange(0, p - a);
        let ghost tail = c.subrange(p - a + 1, c.len() as int);
        assert(inside =~= v@.subrange(a as int, p as int));
        assert(tail =~= v@.subrange(p + 1, b as int));
        if p > a && v[a] == '/' {
            let ins = slice_chars(v, a, p);
            let ts = trim_start_slash_exec(&ins);
            let tt = trim_slice(&ts, 0, ts.len());
            assert(ts@.subrange(0, ts@.len() as int) =~= ts@);
            let name = lowercase_chars(&tt);
            if closable(&name) && stack.len() > 1 {
                stack.pop();
                assert forall|k: int| 0 <= k < stack@.len() implies (#[trigger] stack@[k]).0 < dom@.len() by {
                    assert(stack@[k] == old(stack)@[k]);
                }
            }
            text_after(v, p + 1, b, dom, stack);
            true
        } else {
            let (name, attrs, sc) = parse_tag(v, a, p);
            let tag = canon_tag(&name);
            let top = stack[stack.len() - 1];
            match tag {
                TagName::Style => {
                    let tl = slice_chars(v, p + 1, b);
                    match split_until_end(&tl) {
                        None => false,
                        Some((style_text, rest)) => {
                            let st = chars_to_string(&style_text);
                            proof {
                                lemma_append_keeps_forest(dom@, top, KindView::Style(st@));
                            }
                            dom.append_child(top, NodeKind::Style(st));
                            assert forall|k: int| 0 <= k < stack@.len() implies (#[trigger] stack@[k]).0
                                < dom@.len() by {
                                assert(stack@[k].0 < old(dom)@.len());
                            }
                            text_after(&rest, 0, rest.len(), dom, stack);
                            assert(rest@.subrange(0, rest@.len() as int) =~= rest@);
                            true
                        },
                    }
                },
                TagName::Link => {
                    let kind = NodeKind::Element(ElementData { tag: TagName::Link, attrs });
                    proof {
                        lemma_append_keeps_forest(dom@, top, kind@);
                    }
                    dom.append_child(top, kind);
                    assert forall|k: int| 0 <= k < stack@.len() implies (#[trigger] stack@[k]).0
                        < dom@.len() by {
                        assert(stack@[k].0 < old(dom)@.len());
                    }
                    text_after(v, p + 1, b, dom, stack);
                    true
                },
                other => {
                    let kind = NodeKind::Element(ElementData { tag: other, attrs });
                    proof {
                        lemma_append_keeps_forest(dom@, top, kind@);
                    }
                    let id = dom.append_child(top, kind);
                    if !sc {
                        stack.push(id);
                    }
                    assert forall|k: int| 0 <= k < stack@.len() implies (#[trigger] stack@[k]).0
                        < dom@.len() by {
                        if k < old(stack)@.len() {
                            assert(stack@[k] == old(stack)@[k]);
                            assert(stack@[k].0 < old(dom)@.len());
                        }
                    }
                    text_after(v, p + 1, b, dom, stack);
                    true
                },
            }
        }
    } else {
        text_after(v, a, b, dom, stack);
        true
    }
}

fn read_html_min(input: &str) -> (r: Option<Dom>)
    requires
        min_input_ok(input@),
    ensures
        match html_min_spec(input@) {
            None => r is None,
            Some(d) => r matches Some(dom) && dom@ == d && dom.root == NodeId(0) && forest_ok(d),
        },
{
    let v = str_chars(input);
    let mut dom = Dom::new_document();
    proof {
        lemma_append_keeps_forest(dom@, NodeId(0), empty_element(TagView::Html));
        let d1 = append_spec(dom@, NodeId(0), empty_element(TagView::Html));
        lemma_append_keeps_forest(d1, NodeId(1), empty_element(TagView::Head));
        let d2 = append_spec(d1, NodeId(1), empty_element(TagView::Head));
        lemma_append_keeps_forest(d2, NodeId(1), empty_element(TagView::Body));
        assert(string_pairs_view(Seq::<(String, String)>::empty()) =~= Seq::empty());
    }
    let html_id = dom.append_child(
        NodeId(0),
        NodeKind::Element(ElementData { tag: TagName::Html, attrs: Vec::new() }),
    );
    let head_id = dom.append_child(
        html_id,
        NodeKind::Element(ElementData { tag: TagName::Head, attrs: Vec::new() }),
    );
    let body_id = dom.append_child(
        html_id,
        NodeKind::Element(ElementData { tag: TagName::Body, attrs: Vec::new() }),
    );
    let mut stack: Vec<NodeId> = Vec::new();
    stack.push(body_id);
    proof {
        assert(string_pairs_view(Seq::<(String, String)>::empty()) =~= Seq::empty());
        assert(stack@ =~= seq![NodeId(3)]);
    }
    let mut i: usize = 0;
    loop
        invariant
            i <= v@.len(),
            v@ == input@,
            min_input_ok(v@),
            html_min_from(v@, 0, initial_min_state()) == html_min_from(
                v@,
                i as int,
                min_state(dom@, stack@),
            ),
            stack_ok(dom@, stack@),
            dom@.len() <= 4 + i,
            dom.root == NodeId(0),
            forest_ok(dom@),
        decreases v@.len() - i,
    {
        let mut e: usize = i;
        while e < v.len() && v[e] != '<'
            invariant
                i <= e <= v@.len(),
                find_char_from(v@, e as int, '<') == find_char_from(v@, i as int, '<'),
            decreases v.len() - e,
        {
            e = e + 1;
        }
        let ghost st0 = min_state(dom@, stack@);
        proof {
            lemma_chunk_growth(v@.subrange(i as int, e as int), st0);
        }
        if !process_chunk(&v, i, e, &mut dom, &mut stack) {
            return None;
        }
        if e >= v.len() {
            return Some(dom);
        }
        i = e + 1;
    }
}

/// Whether reading `input` completes (it panics on a `</style` found in the
/// lowercased text at an offset that is not a character boundary).
pub fn html_min_reads(input: &str) -> (r: bool)
    requires
        min_input_ok(input@),
    ensures
        r == html_min_spec(input@) is Some,
{
    match read_html_min(input) {
        Some(_) => true,
        None => false,
    }
}

/// Reads a document: `html` with `head` and `body`, the input's elements and
/// text under `body` as its tags open and close them.
pub fn parse_html_min(input: &str) -> (r: Result<Dom, EngineError>)
    requires
        min_input_ok(input@),
        html_min_spec(input@) is Some,
    ensures
        r matches Ok(d) && d@ == html_min_spec(input@)->0 && d.root == NodeId(0) && forest_ok(d@)
            && html_skeleton(d@),
{
    proof {
        lemma_html_min_skeleton(input@);
    }
    match read_html_min(input) {
        Some(d) => Ok(d),
        None => Err(EngineError::HtmlParse(String::new())),
    }
}

/// Reads a document where reading completes, and says `None` where it would
/// panic.
pub fn try_parse_html_min(input: &str) -> (r: Option<Result<Dom, EngineError>>)
    requires
        min_input_ok(input@),
    ensures
        match html_min_spec(input@) {
            None => r is None,
            Some(d) => r matches Some(Ok(dom)) && dom@ == d && dom.root == NodeId(0) && forest_ok(d)
                && html_skeleton(d),
        },
{
    if html_min_reads(input) {
        Some(parse_html_min(input))
    } else {
        None
    }
}

// ---------------------------------------------------------------------------
// How many nodes a piece of input can add.
// ---------------------------------------------------------------------------
proof fn lemma_text_growth(st: MinState, t: Seq<char>)
    ensures
        with_text(st, t).dom.len() <= st.dom.len() + (if t.len() > 0 { 1int } else { 0int }),
        with_text(st, t).dom.len() >= st.dom.len(),
{
    if t.len() == 0 {
        assert(trimmed(t).len() == 0);
    }
}

proof fn lemma_split_empty(t: Seq<char>)
    requires
        t.len() == 0,
    ensures
        split_end_spec(t) matches Some((l, rest)) ==> rest.len() == 0,
{
    let bytes = vstd::utf8::encode_utf8(t);
    assert(bytes.len() == 0);
    assert(vstd::utf8::valid_utf8(bytes));
    let low = vstd::utf8::encode_utf8(lowercase_spec(t));
    match find_bytes_from(low, style_end_needle(), 0) {
        None => {},
        Some(i) => {
            if vstd::utf8::is_char_boundary(bytes, i) {
                assert(i == 0);
                assert(bytes.subrange(i, bytes.len() as int) =~= Seq::<u8>::empty());
                let right = vstd::utf8::decode_utf8(bytes.subrange(i, bytes.len() as int));
                assert(right.len() == 0);
            }
        },
    }
}

/// A piece of input adds at most as many nodes as it has chars.
proof fn lemma_chunk_growth(c: Seq<char>, st: MinState)
    ensures
        chunk_step(c, st) matches Some(s2) ==> s2.dom.len() <= st.dom.len() + c.len(),
{
    if c.len() > 0 {
        crate::hb_html::tokenizer::lemma_find_char_bounds(c, 0, '>');
        let p = find_char_from(c, 0, '>');
        if p < c.len() {
            let inside = c.subrange(0, p);
            let tail = c.subrange(p + 1, c.len() as int);
            if inside.len() > 0 && inside[0] == '/' {
                let name = lowercase_spec(trimmed(trim_start_slash(inside)));
                let stack = if is_closable(name) && st.stack.len() > 1 {
                    st.stack.drop_last()
                } else {
                    st.stack
                };
                lemma_text_growth(min_state(st.dom, stack), tail);
            } else {
                let (name, attrs, sc) = parse_tag_spec(inside);
                let tag = canon_tag_spec(name);
                let top = st.stack.last();
                match tag {
                    TagView::Style => match split_end_spec(tail) {
                        None => {},
                        Some((style_text, rest)) => {
                            if tail.len() == 0 {
                                lemma_split_empty(tail);
                            }
                            lemma_text_growth(
                                min_state(append_spec(st.dom, top, KindView::Style(style_text)), st.stack),
                                rest,
                            );
                        },
                    },
                    TagView::Link => {
                        let kv = KindView::Element { tag: TagView::Link, attrs };
                        lemma_text_growth(min_state(append_spec(st.dom, top, kv), st.stack), tail);
                    },
                    _ => {
                        let kv = KindView::Element { tag, attrs };
                        let d1 = append_spec(st.dom, top, kv);
                        let id = NodeId(st.dom.len() as u32);
                        let stack = if sc {
                            st.stack
                        } else {
                            st.stack.push(id)
                        };
                        lemma_text_growth(min_state(d1, stack), tail);
                    },
                }
            }
        } else {
            lemma_text_growth(st, c);
        }
    }
}

// ---------------------------------------------------------------------------
// The fixed html/head/body skeleton.
// ---------------------------------------------------------------------------
/// A read document: node 0 the document holding only `html` (node 1), which
/// holds `head` (node 2, always empty) and `body` (node 3); every later node
/// hangs below `body` or a later node, listed once by its parent, and every
/// child list is in increasing order.
pub open spec fn html_skeleton(d: Seq<NodeView>) -> bool {
    &&& d.len() >= 4
    &&& d[0] == NodeView { id: NodeId(0), parent: None, children: seq![NodeId(1)], kind: KindView::Document }
    &&& d[1] == NodeView {
        id: NodeId(1),
        parent: Some(NodeId(0)),
        children: seq![NodeId(2), NodeId(3)],
        kind: empty_element(TagView::Html),
    }
    &&& d[2] == NodeView {
        id: NodeId(2),
        parent: Some(NodeId(1)),
        children: Seq::empty(),
        kind: empty_element(TagView::Head),
    }
    &&& d[3].id == NodeId(3) && d[3].parent == Some(NodeId(1)) && d[3].kind == empty_element(TagView::Body)
    &&& forall|i: int|
        4 <= i < d.len() ==> ((#[trigger] d[i]).parent matches Some(p) && 3 <= p.0 < i
            && d[p.0 as int].children.contains(NodeId(i as u32)))
    &&& forall|i: int, k1: int, k2: int|
        0 <= i < d.len() && 0 <= k1 < k2 < (#[trigger] d[i]).children.len() ==> (
        #[trigger] d[i].children[k1]).0 < (#[trigger] d[i].children[k2]).0
}

spec fn children_below(d: Seq<NodeView>) -> bool {
    forall|i: int, k: int|
        0 <= i < d.len() && 0 <= k < (#[trigger] d[i]).children.len() ==> (
        #[trigger] d[i].children[k]).0 < d.len()
}

spec fn skel_state(st: MinState) -> bool {
    &&& html_skeleton(st.dom)
    &&& children_below(st.dom)
    &&& st.stack.len() > 0
    &&& forall|k: int| 0 <= k < st.stack.len() ==> 3 <= (#[trigger] st.stack[k]).0 < st.dom.len()
}

proof fn lemma_skel_append(d: Seq<NodeView>, parent: NodeId, kind: KindView)
    requires
        html_skeleton(d),
        children_below(d),
        3 <= parent.0 < d.len(),
        d.len() + 1 < 0x1_0000_0000,
    ensures
        html_skeleton(append_spec(d, parent, kind)),
        children_below(append_spec(d, parent, kind)),
        append_spec(d, parent, kind).len() == d.len() + 1,
{
    let e = append_spec(d, parent, kind);
    let n = d.len() as int;
    assert(e.len() == n + 1);
    assert(e[0] == d[0] && e[1] == d[1] && e[2] == d[2]);
    assert(e[3].id == d[3].id && e[3].parent == d[3].parent && e[3].kind == d[3].kind);
    assert forall|i: int| 4 <= i < e.len() implies ((#[trigger] e[i]).parent matches Some(p) && 3 <= p.0
        < i && e[p.0 as int].children.contains(NodeId(i as u32))) by {
        if i < n {
            let p = d[i].parent->0;
            assert(d[p.0 as int].children.contains(NodeId(i as u32)));
            let k = choose|k: int| 0 <= k < d[p.0 as int].children.len() && d[p.0 as int].children[k] == NodeId(i as u32);
            assert(e[p.0 as int].children[k] == NodeId(i as u32));
        } else {
            assert(e[parent.0 as int].children.last() == NodeId(i as u32));
        }
    }
    assert forall|i: int, k1: int, k2: int|
        0 <= i < e.len() && 0 <= k1 < k2 < (#[trigger] e[i]).children.len() implies (
    #[trigger] e[i].children[k1]).0 < (#[trigger] e[i].children[k2]).0 by {
        if i == parent.0 && k2 == d[i].children.len() {
            assert(e[i].children[k1] == d[i].children[k1]);
        } else if i < n {
            assert(e[i].children[k1] == d[i].children[k1]);
            assert(e[i].children[k2] == d[i].children[k2]);
        }
    }
    assert forall|i: int, k: int| 0 <= i < e.len() && 0 <= k < (#[trigger] e[i]).children.len() implies (
    #[trigger] e[i].children[k]).0 < e.len() by {
        if i < n && !(i == parent.0 && k == d[i].children.len()) {
            assert(e[i].children[k] == d[i].children[k]);
        }
    }
}

proof fn lemma_skel_text(st: MinState, t: Seq<char>)
    requires
        skel_state(st),
        st.dom.len() + 1 < 0x1_0000_0000,
    ensures
        skel_state(with_text(st, t)),
        with_text(st, t).dom.len() <= st.dom.len() + 1,
        with_text(st, t).stack == st.stack,
{
    let tt = trimmed(t);
    if tt.len() > 0 && collapse_ws(tt).len() > 0 {
        lemma_skel_append(st.dom, st.stack.last(), KindView::Text(collapse_ws(tt)));
    }
}

proof fn lemma_skel_chunk(c: Seq<char>, st: MinState)
    requires
        skel_state(st),
        st.dom.len() + 2 < 0x1_0000_0000,
    ensures
        chunk_step(c, st) matches Some(s2) ==> skel_state(s2) && s2.dom.len() <= st.dom.len() + 2,
{
    if c.len() > 0 {
        let p = find_char_from(c, 0, '>');
        if p < c.len() {
            let inside = c.subrange(0, p);
            let tail = c.subrange(p + 1, c.len() as int);
            if inside.len() > 0 && inside[0] == '/' {
                let name = lowercase_spec(trimmed(trim_start_slash(inside)));
                let stack = if is_closable(name) && st.stack.len() > 1 {
                    st.stack.drop_last()
                } else {
                    st.stack
                };
                let m = min_state(st.dom, stack);
                assert(skel_state(m));
                lemma_skel_text(m, tail);
            } else {
                let (name, attrs, sc) = parse_tag_spec(inside);
                let tag = canon_tag_spec(name);
                let top = st.stack.last();
                match tag {
                    TagView::Style => match split_end_spec(tail) {
                        None => {},
                        Some((style_text, rest)) => {
                            lemma_skel_append(st.dom, top, KindView::Style(style_text));
                            lemma_skel_text(min_state(append_spec(st.dom, top, KindView::Style(style_text)), st.stack), rest);
                        },
                    },
                    TagView::Link => {
                        let kv = KindView::Element { tag: TagView::Link, attrs };
                        lemma_skel_append(st.dom, top, kv);
                        lemma_skel_text(min_state(append_spec(st.dom, top, kv), st.stack), tail);
                    },
                    _ => {
                        let kv = KindView::Element { tag, attrs };
                        let d1 = append_spec(st.dom, top, kv);
                        lemma_skel_append(st.dom, top, kv);
                        let id = NodeId(st.dom.len() as u32);
                        let stack = if sc {
                            st.stack
                        } else {
                            st.stack.push(id)
                        };
                        assert(skel_state(min_state(d1, stack)));
                        lemma_skel_text(min_state(d1, stack), tail);
                    },
                }
            }
        } else {
            lemma_skel_text(st, c);
        }
    }
}

proof fn lemma_skel_from(src: Seq<char>, i: int, st: MinState)
    requires
        skel_state(st),
        0 <= i,
        st.dom.len() <= 4 + i,
        src.len() + 6 < 0x1_0000_0000,
    ensures
        html_min_from(src, i, st) matches Some(s2) ==> skel_state(s2),
    decreases src.len() - i,
{
    if i <= src.len() {
        crate::hb_html::tokenizer::lemma_find_char_bounds(src, i, '<');
        let e = find_char_from(src, i, '<');
        lemma_skel_chunk(src.subrange(i, e), st);
        lemma_chunk_growth(src.subrange(i, e), st);
        match chunk_step(src.subrange(i, e), st) {
            None => {},
            Some(s2) => {
                if e < src.len() {
                    lemma_skel_from(src, e + 1, s2);
                }
            },
        }
    }
}

/// Whatever the input, a read document starts with the same skeleton:
/// the document, `html`, an empty `head` and `body`, in that order, and
/// everything read hangs below `body`.
pub proof fn lemma_html_min_skeleton(src: Seq<char>)
    requires
        min_input_ok(src),
    ensures
        html_min_spec(src) matches Some(d) ==> html_skeleton(d),
{
    let st = initial_min_state();
    let d1 = append_spec(document_view(), NodeId(0), empty_element(TagView::Html));
    let d2 = append_spec(d1, NodeId(1), empty_element(TagView::Head));
    let d3 = append_spec(d2, NodeId(1), empty_element(TagView::Body));
    assert(d3[0] =~= NodeView { id: NodeId(0), parent: None, children: seq![NodeId(1)], kind: KindView::Document });
    assert(d3[0].children =~= seq![NodeId(1)]);
    assert(d3[1].children =~= seq![NodeId(2), NodeId(3)]);
    assert(d3[2].children =~= Seq::<NodeId>::empty());
    assert(d3[3].children =~= Seq::<NodeId>::empty());
    assert(skel_state(st));
    lemma_skel_from(src, 0, st);
}

} // verus!
