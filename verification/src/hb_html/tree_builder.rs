//! Builds a document tree from the token stream: a stack of open elements,
//! void elements, and metadata elements placed at the top until `head` has
//! been seen. No `html`, `head` or `body` element is implied: the document
//! node stands in their place, so the first element is the first written.
use vstd::prelude::*;
use crate::text::{str_chars, chars_eq_lit};
use crate::hb_html::tokenizer::{
    Token, TokenView, Tokenizer, next_spec, seq_lt, string_pairs_view, chars_lt, lemma_next_advances,
};

verus! {

#[derive(Clone, Copy, Debug, PartialEq, Eq, PartialOrd, Ord, Hash, Structural)]
pub struct NodeId(pub u32);

#[derive(Debug, Clone, PartialEq, Eq, PartialOrd, Ord)]
pub enum TagName {
    Html,
    Head,
    Body,
    Div,
    P,
    Span,
    Link,
    Style,
    Meta,
    Br,
    Hr,
    Img,
    Unknown(String),
}

pub enum TagView {
    Html,
    Head,
    Body,
    Div,
    P,
    Span,
    Link,
    Style,
    Meta,
    Br,
    Hr,
    Img,
    Unknown(Seq<char>),
}

impl View for TagName {
    type V = TagView;

    open spec fn view(&self) -> TagView {
        match self {
            TagName::Html => TagView::Html,
            TagName::Head => TagView::Head,
            TagName::Body => TagView::Body,
            TagName::Div => TagView::Div,
            TagName::P => TagView::P,
            TagName::Span => TagView::Span,
            TagName::Link => TagView::Link,
            TagName::Style => TagView::Style,
            TagName::Meta => TagView::Meta,
            TagName::Br => TagView::Br,
            TagName::Hr => TagView::Hr,
            TagName::Img => TagView::Img,
            TagName::Unknown(s) => TagView::Unknown(s@),
        }
    }
}

/// An element's tag and attributes; `attrs` is an association list kept
/// sorted by name with each name once, which is how a `BTreeMap` holds it.
#[derive(Debug, Clone)]
pub struct ElementData {
    pub tag: TagName,
    pub attrs: Vec<(String, String)>,
}

#[derive(Debug, Clone)]
pub enum NodeKind {
    Document,
    Element(ElementData),
    Text(String),
}

pub enum KindView {
    Document,
    Element { tag: TagView, attrs: Seq<(Seq<char>, Seq<char>)> },
    Text(Seq<char>),
}

impl View for NodeKind {
    type V = KindView;

    open spec fn view(&self) -> KindView {
        match self {
            NodeKind::Document => KindView::Document,
            NodeKind::Element(ed) => KindView::Element {
                tag: ed.tag@,
                attrs: string_pairs_view(ed.attrs@),
            },
            NodeKind::Text(s) => KindView::Text(s@),
        }
    }
}

#[derive(Debug, Clone)]
pub struct Node {
    pub id: NodeId,
    pub parent: Option<NodeId>,
    pub children: Vec<NodeId>,
    pub kind: NodeKind,
}

pub struct NodeView {
    pub id: NodeId,
    pub parent: Option<NodeId>,
    pub children: Seq<NodeId>,
    pub kind: KindView,
}

impl View for Node {
    type V = NodeView;

    open spec fn view(&self) -> NodeView {
        NodeView { id: self.id, parent: self.parent, children: self.children@, kind: self.kind@ }
    }
}

#[derive(Debug, Clone)]
pub struct Dom {
    pub nodes: Vec<Node>,
    pub root: NodeId,
}

pub open spec fn nodes_view(v: Seq<Node>) -> Seq<NodeView> {
    v.map_values(|n: Node| n@)
}

impl View for Dom {
    type V = Seq<NodeView>;

    open spec fn view(&self) -> Seq<NodeView> {
        nodes_view(self.nodes@)
    }
}

// ---------------------------------------------------------------------------
// The tree shape.
// ---------------------------------------------------------------------------
/// Each node sits at the index of its id; node 0 is the document and has no
/// parent; every other node's parent comes before it and lists it among its
/// children; every child listed by a node comes after it and names it as its
/// parent; children are listed in increasing order.
pub open spec fn parent_index(n: NodeView) -> int {
    match n.parent {
        Some(p) => p.0 as int,
        None => -1,
    }
}

/// Node `i` (viewed as `n`) has a parent before it that lists it as a child.
pub open spec fn parent_ok(d: Seq<NodeView>, i: int, n: NodeView) -> bool {
    &&& n.parent is Some
    &&& parent_index(n) < i
    &&& d[parent_index(n)].children.contains(NodeId(i as u32))
}

pub open spec fn tree_wf(d: Seq<NodeView>) -> bool {
    &&& d.len() >= 1
    &&& d.len() <= u32::MAX
    &&& d[0].parent is None
    &&& d[0].kind is Document
    &&& forall|i: int| 0 <= i < d.len() ==> (#[trigger] d[i]).id.0 == i
    &&& forall|i: int|
        1 <= i < d.len() ==> parent_ok(d, i, #[trigger] d[i])
    &&& forall|i: int, k: int|
        0 <= i < d.len() && 0 <= k < (#[trigger] d[i]).children.len() ==> {
            let c = #[trigger] d[i].children[k];
            &&& i < c.0 < d.len()
            &&& d[c.0 as int].parent == Some(NodeId(i as u32))
        }
    &&& forall|i: int, k1: int, k2: int|
        0 <= i < d.len() && 0 <= k1 < k2 < (#[trigger] d[i]).children.len() ==> (
        #[trigger] d[i].children[k1]).0 < (#[trigger] d[i].children[k2]).0
}

pub open spec fn new_node(id: int, parent: NodeId, kind: KindView) -> NodeView {
    NodeView { id: NodeId(id as u32), parent: Some(parent), children: Seq::empty(), kind }
}

/// The tree after appending a node of the given kind as the last child of `parent`.
pub open spec fn append_spec(d: Seq<NodeView>, parent: NodeId, kind: KindView) -> Seq<NodeView> {
    let id = d.len() as int;
    let p = d[parent.0 as int];
    d.update(
        parent.0 as int,
        NodeView { children: p.children.push(NodeId(id as u32)), ..p },
    ).push(new_node(id, parent, kind))
}

pub proof fn lemma_append_keeps_tree(d: Seq<NodeView>, parent: NodeId, kind: KindView)
    requires
        tree_wf(d),
        parent.0 < d.len(),
        d.len() < u32::MAX,
    ensures
        tree_wf(append_spec(d, parent, kind)),
        append_spec(d, parent, kind).len() == d.len() + 1,
{
    let e = append_spec(d, parent, kind);
    let id = d.len() as int;
    assert forall|i: int| 1 <= i < e.len() implies parent_ok(e, i, #[trigger] e[i]) by {
        if i < id {
            let p = d[i].parent->0;
            if p == parent {
                let q = e[p.0 as int].children;
                let k = choose|k: int| 0 <= k < d[p.0 as int].children.len() && d[p.0 as int].children[k] == NodeId(i as u32);
                assert(q[k] == NodeId(i as u32));
            } else {
                let k = choose|k: int| 0 <= k < d[p.0 as int].children.len() && d[p.0 as int].children[k] == NodeId(i as u32);
                assert(e[p.0 as int].children[k] == NodeId(i as u32));
            }
        } else {
            assert(e[parent.0 as int].children.last() == NodeId(i as u32));
        }
    }
    assert forall|i: int, k: int|
        0 <= i < e.len() && 0 <= k < (#[trigger] e[i]).children.len() implies {
        let c = #[trigger] e[i].children[k];
        &&& i < c.0 < e.len()
        &&& e[c.0 as int].parent == Some(NodeId(i as u32))
    } by {
        if i == parent.0 && k == d[i].children.len() {
        } else {
            let c = d[i].children[k];
            assert(e[i].children[k] == c);
        }
    }
    assert forall|i: int, k1: int, k2: int|
        0 <= i < e.len() && 0 <= k1 < k2 < (#[trigger] e[i]).children.len() implies (
    #[trigger] e[i].children[k1]).0 < (#[trigger] e[i].children[k2]).0 by {
        if i == parent.0 && k2 == d[i].children.len() {
            let c = d[i].children[k1];
            assert(e[i].children[k1] == c);
        } else {
            assert(e[i].children[k1] == d[i].children[k1]);
            assert(e[i].children[k2] == d[i].children[k2]);
        }
    }
}

impl Dom {
    fn new_document() -> (r: Self)
        ensures
            r@ =~= seq![
                NodeView {
                    id: NodeId(0),
                    parent: None,
                    children: Seq::empty(),
                    kind: KindView::Document,
                },
            ],
            r.root == NodeId(0),
    {
        let root = Node {
            id: NodeId(0),
            parent: None,
            children: Vec::new(),
            kind: NodeKind::Document,
        };
        Dom { nodes: vec![root], root: NodeId(0) }
    }

    fn append_child(&mut self, parent: NodeId, kind: NodeKind) -> (r: NodeId)
        requires
            (parent.0 as int) < old(self).nodes@.len() < u32::MAX,
        ensures
            final(self)@ == append_spec(old(self)@, parent, kind@),
            final(self).root == old(self).root,
            r.0 == old(self).nodes@.len(),
    {
        let ghost d = self@;
        let ghost kv = kind@;
        let id = NodeId(self.nodes.len() as u32);
        self.nodes.push(Node { id, parent: Some(parent), children: Vec::new(), kind });
        let pi = parent.0 as usize;
        let mut p = self.nodes[pi].clone_node();
        p.children.push(id);
        self.nodes.set(pi, p);
        assert(self@ =~= append_spec(d, parent, kv));
        id
    }
}

impl Node {
    fn clone_node(&self) -> (r: Node)
        ensures
            r@ == self@,
    {
        let mut children: Vec<NodeId> = Vec::new();
        let mut k: usize = 0;
        while k < self.children.len()
            invariant
                k <= self.children@.len(),
                children@ =~= self.children@.take(k as int),
            decreases self.children.len() - k,
        {
            children.push(self.children[k]);
            assert(self.children@.take(k + 1) =~= self.children@.take(k as int).push(
                self.children@[k as int],
            ));
            k = k + 1;
        }
        assert(self.children@.take(self.children@.len() as int) =~= self.children@);
        Node { id: self.id, parent: self.parent, children, kind: self.kind.clone_kind() }
    }
}

impl NodeKind {
    fn clone_kind(&self) -> (r: NodeKind)
        ensures
            r@ == self@,
    {
        match self {
            NodeKind::Document => NodeKind::Document,
            NodeKind::Element(ed) => NodeKind::Element(
                ElementData { tag: ed.tag.clone_tag(), attrs: clone_pairs(&ed.attrs) },
            ),
            NodeKind::Text(s) => NodeKind::Text(s.clone()),
        }
    }
}

impl TagName {
    fn clone_tag(&self) -> (r: TagName)
        ensures
            r@ == self@,
    {
        match self {
            TagName::Html => TagName::Html,
            TagName::Head => TagName::Head,
            TagName::Body => TagName::Body,
            TagName::Div => TagName::Div,
            TagName::P => TagName::P,
            TagName::Span => TagName::Span,
            TagName::Link => TagName::Link,
            TagName::Style => TagName::Style,
            TagName::Meta => TagName::Meta,
            TagName::Br => TagName::Br,
            TagName::Hr => TagName::Hr,
            TagName::Img => TagName::Img,
            TagName::Unknown(s) => TagName::Unknown(s.clone()),
        }
    }
}

fn clone_pairs(v: &Vec<(String, String)>) -> (r: Vec<(String, String)>)
    ensures
        string_pairs_view(r@) == string_pairs_view(v@),
{
    let mut r: Vec<(String, String)> = Vec::new();
    let mut k: usize = 0;
    while k < v.len()
        invariant
            k <= v@.len(),
            string_pairs_view(r@) =~= string_pairs_view(v@).take(k as int),
        decreases v.len() - k,
    {
        r.push((v[k].0.clone(), v[k].1.clone()));
        assert(string_pairs_view(v@).take(k + 1) =~= string_pairs_view(v@).take(k as int).push(
            (v@[k as int].0@, v@[k as int].1@),
        ));
        k = k + 1;
    }
    assert(string_pairs_view(v@).take(v@.len() as int) =~= string_pairs_view(v@));
    r
}

// ---------------------------------------------------------------------------
// Tag names.
// ---------------------------------------------------------------------------
pub open spec fn canon_tag_spec(name: Seq<char>) -> TagView {
    if name =~= seq!['h', 't', 'm', 'l'] {
        TagView::Html
    } else if name =~= seq!['h', 'e', 'a', 'd'] {
        TagView::Head
    } else if name =~= seq!['b', 'o', 'd', 'y'] {
        TagView::Body
    } else if name =~= seq!['d', 'i', 'v'] {
        TagView::Div
    } else if name =~= seq!['p'] {
        TagView::P
    } else if name =~= seq!['s', 'p', 'a', 'n'] {
        TagView::Span
    } else if name =~= seq!['l', 'i', 'n', 'k'] {
        TagView::Link
    } else if name =~= seq!['s', 't', 'y', 'l', 'e'] {
        TagView::Style
    } else if name =~= seq!['m', 'e', 't', 'a'] {
        TagView::Meta
    } else if name =~= seq!['b', 'r'] {
        TagView::Br
    } else if name =~= seq!['h', 'r'] {
        TagView::Hr
    } else if name =~= seq!['i', 'm', 'g'] {
        TagView::Img
    } else {
        TagView::Unknown(name)
    }
}

fn canon_tag(name: &str) -> (r: TagName)
    ensures
        r@ == canon_tag_spec(name@),
{
    let v = str_chars(name);
    if chars_eq_lit(&v, &['h', 't', 'm', 'l']) {
        TagName::Html
    } else if chars_eq_lit(&v, &['h', 'e', 'a', 'd']) {
        TagName::Head
    } else if chars_eq_lit(&v, &['b', 'o', 'd', 'y']) {
        TagName::Body
    } else if chars_eq_lit(&v, &['d', 'i', 'v']) {
        TagName::Div
    } else if chars_eq_lit(&v, &['p']) {
        TagName::P
    } else if chars_eq_lit(&v, &['s', 'p', 'a', 'n']) {
        TagName::Span
    } else if chars_eq_lit(&v, &['l', 'i', 'n', 'k']) {
        TagName::Link
    } else if chars_eq_lit(&v, &['s', 't', 'y', 'l', 'e']) {
        TagName::Style
    } else if chars_eq_lit(&v, &['m', 'e', 't', 'a']) {
        TagName::Meta
    } else if chars_eq_lit(&v, &['b', 'r']) {
        TagName::Br
    } else if chars_eq_lit(&v, &['h', 'r']) {
        TagName::Hr
    } else if chars_eq_lit(&v, &['i', 'm', 'g']) {
        TagName::Img
    } else {
        TagName::Unknown(String::from_str(name))
    }
}

pub open spec fn is_void_spec(t: TagView) -> bool {
    t is Br || t is Hr || t is Img || t is Meta || t is Link
}

fn is_void(tag: &TagName) -> (r: bool)
    ensures
        r == is_void_spec(tag@),
{
    match tag {
        TagName::Br | TagName::Hr | TagName::Img | TagName::Meta | TagName::Link => true,
        _ => false,
    }
}

fn tag_eq(a: &TagName, b: &TagName) -> (r: bool)
    ensures
        r == (a@ == b@),
{
    match (a, b) {
        (TagName::Html, TagName::Html) => true,
        (TagName::Head, TagName::Head) => true,
        (TagName::Body, TagName::Body) => true,
        (TagName::Div, TagName::Div) => true,
        (TagName::P, TagName::P) => true,
        (TagName::Span, TagName::Span) => true,
        (TagName::Link, TagName::Link) => true,
        (TagName::Style, TagName::Style) => true,
        (TagName::Meta, TagName::Meta) => true,
        (TagName::Br, TagName::Br) => true,
        (TagName::Hr, TagName::Hr) => true,
        (TagName::Img, TagName::Img) => true,
        (TagName::Unknown(x), TagName::Unknown(y)) => x.eq(y),
        _ => false,
    }
}

// ---------------------------------------------------------------------------
// Attribute maps: association lists sorted by name, one entry per name.
// ---------------------------------------------------------------------------
/// First position from `j` whose name is not less than `k`.
pub open spec fn key_pos(m: Seq<(Seq<char>, Seq<char>)>, k: Seq<char>, j: int) -> int
    decreases m.len() - j,
{
    if j < 0 || j >= m.len() {
        m.len() as int
    } else if seq_lt(m[j].0, k) {
        key_pos(m, k, j + 1)
    } else {
        j
    }
}

/// `BTreeMap::insert`: replaces the value of an existing name, else adds the
/// entry in name order.
pub open spec fn map_insert(m: Seq<(Seq<char>, Seq<char>)>, k: Seq<char>, v: Seq<char>) -> Seq<
    (Seq<char>, Seq<char>),
> {
    let p = key_pos(m, k, 0);
    if p < m.len() && m[p].0 == k {
        m.update(p, (k, v))
    } else {
        m.insert(p, (k, v))
    }
}

/// The map built by inserting the pairs in order (a later value for a name wins).
pub open spec fn map_from(s: Seq<(Seq<char>, Seq<char>)>) -> Seq<(Seq<char>, Seq<char>)>
    decreases s.len(),
{
    if s.len() == 0 {
        s
    } else {
        map_insert(map_from(s.drop_last()), s.last().0, s.last().1)
    }
}

/// The value of the first attribute named `k` (names are unique in the maps
/// built here).
pub open spec fn attr_lookup(attrs: Seq<(Seq<char>, Seq<char>)>, k: Seq<char>) -> Option<Seq<char>>
    decreases attrs.len(),
{
    if attrs.len() == 0 {
        None
    } else if attrs[0].0 == k {
        Some(attrs[0].1)
    } else {
        attr_lookup(attrs.drop_first(), k)
    }
}

/// Names strictly increasing: each name once, in order.
pub open spec fn strictly_sorted(m: Seq<(Seq<char>, Seq<char>)>) -> bool {
    forall|i: int, j: int| 0 <= i < j < m.len() ==> seq_lt(#[trigger] m[i].0, #[trigger] m[j].0)
}

/// The value given to name `k` last among the pairs.
pub open spec fn last_value(s: Seq<(Seq<char>, Seq<char>)>, k: Seq<char>) -> Option<Seq<char>>
    decreases s.len(),
{
    if s.len() == 0 {
        None
    } else if s.last().0 == k {
        Some(s.last().1)
    } else {
        last_value(s.drop_last(), k)
    }
}

pub proof fn lemma_seq_lt_irrefl(a: Seq<char>)
    ensures
        !seq_lt(a, a),
    decreases a.len(),
{
    if a.len() > 0 {
        lemma_seq_lt_irrefl(a.drop_first());
    }
}

pub proof fn lemma_seq_lt_trans(a: Seq<char>, b: Seq<char>, c: Seq<char>)
    requires
        seq_lt(a, b),
        seq_lt(b, c),
    ensures
        seq_lt(a, c),
    decreases a.len(),
{
    if a.len() > 0 && b.len() > 0 && c.len() > 0 && a[0] == b[0] && b[0] == c[0] {
        lemma_seq_lt_trans(a.drop_first(), b.drop_first(), c.drop_first());
    }
}

pub proof fn lemma_seq_lt_total(a: Seq<char>, b: Seq<char>)
    requires
        a != b,
    ensures
        seq_lt(a, b) || seq_lt(b, a),
    decreases a.len(),
{
    if a.len() > 0 && b.len() > 0 && a[0] == b[0] {
        if a.drop_first() == b.drop_first() {
            assert(a =~= seq![a[0]] + a.drop_first());
            assert(b =~= seq![b[0]] + b.drop_first());
            assert(false);
        } else {
            lemma_seq_lt_total(a.drop_first(), b.drop_first());
        }
    } else if a.len() == 0 && b.len() == 0 {
        assert(a =~= b);
    } else if a.len() > 0 && b.len() > 0 {
        let x = a[0] as u32;
        let y = b[0] as u32;
        vstd::utf8::char_u32_cast(a[0], x);
        vstd::utf8::char_u32_cast(b[0], y);
        assert(x != y);
    }
}

proof fn lemma_key_pos_facts(m: Seq<(Seq<char>, Seq<char>)>, k: Seq<char>, j: int)
    requires
        0 <= j <= m.len(),
        forall|i: int| 0 <= i < j ==> seq_lt(#[trigger] m[i].0, k),
    ensures
        forall|i: int| 0 <= i < key_pos(m, k, j) ==> seq_lt(#[trigger] m[i].0, k),
        key_pos(m, k, j) < m.len() ==> !seq_lt(m[key_pos(m, k, j)].0, k),
        j <= key_pos(m, k, j) <= m.len(),
    decreases m.len() - j,
{
    if j < m.len() && seq_lt(m[j].0, k) {
        lemma_key_pos_facts(m, k, j + 1);
    }
}

proof fn lemma_lookup_at(m: Seq<(Seq<char>, Seq<char>)>, i: int)
    requires
        strictly_sorted(m),
        0 <= i < m.len(),
    ensures
        attr_lookup(m, m[i].0) == Some(m[i].1),
    decreases m.len(),
{
    if i > 0 {
        assert(seq_lt(m[0].0, m[i].0));
        lemma_seq_lt_irrefl(m[i].0);
        let t = m.drop_first();
        assert(t[i - 1] == m[i]);
        assert(strictly_sorted(t)) by {
            assert forall|a: int, b: int| 0 <= a < b < t.len() implies seq_lt(#[trigger] t[a].0, #[trigger] t[b].0) by {
                assert(t[a] == m[a + 1] && t[b] == m[b + 1]);
            }
        }
        lemma_lookup_at(t, i - 1);
    }
}

proof fn lemma_lookup_none(m: Seq<(Seq<char>, Seq<char>)>, k: Seq<char>)
    requires
        forall|i: int| 0 <= i < m.len() ==> (#[trigger] m[i]).0 != k,
    ensures
        attr_lookup(m, k) is None,
    decreases m.len(),
{
    if m.len() > 0 {
        let t = m.drop_first();
        assert forall|i: int| 0 <= i < t.len() implies (#[trigger] t[i]).0 != k by {
            assert(t[i] == m[i + 1]);
        }
        lemma_lookup_none(t, k);
    }
}

/// What a lookup finds in a map with distinct names: the entry with that name.
proof fn lemma_lookup(m: Seq<(Seq<char>, Seq<char>)>, k: Seq<char>)
    requires
        strictly_sorted(m),
    ensures
        (exists|i: int| 0 <= i < m.len() && m[i].0 == k) || attr_lookup(m, k) is None,
        forall|i: int| 0 <= i < m.len() && m[i].0 == k ==> attr_lookup(m, k) == Some(#[trigger] m[i].1),
{
    assert forall|i: int| 0 <= i < m.len() && m[i].0 == k implies attr_lookup(m, k) == Some(#[trigger] m[i].1) by {
        lemma_lookup_at(m, i);
    }
    if !(exists|i: int| 0 <= i < m.len() && m[i].0 == k) {
        assert forall|i: int| 0 <= i < m.len() implies (#[trigger] m[i]).0 != k by {}
        lemma_lookup_none(m, k);
    }
}

/// Inserting keeps the names strictly increasing; afterwards `k` has the
/// value `v` and every other name keeps its value.
pub proof fn lemma_map_insert(m: Seq<(Seq<char>, Seq<char>)>, k: Seq<char>, v: Seq<char>)
    requires
        strictly_sorted(m),
    ensures
        strictly_sorted(map_insert(m, k, v)),
        forall|k2: Seq<char>| #[trigger] attr_lookup(map_insert(m, k, v), k2) == (if k2 == k {
            Some(v)
        } else {
            attr_lookup(m, k2)
        }),
{
    let p = key_pos(m, k, 0);
    lemma_key_pos_facts(m, k, 0);
    let r = map_insert(m, k, v);
    if p < m.len() && m[p].0 == k {
        assert(r == m.update(p, (k, v)));
        assert(strictly_sorted(r)) by {
            assert forall|a: int, b: int| 0 <= a < b < r.len() implies seq_lt(#[trigger] r[a].0, #[trigger] r[b].0) by {
                assert(r[a].0 == m[a].0 && r[b].0 == m[b].0);
            }
        }
        assert forall|k2: Seq<char>| #[trigger] attr_lookup(r, k2) == (if k2 == k {
            Some(v)
        } else {
            attr_lookup(m, k2)
        }) by {
            lemma_lookup(r, k2);
            lemma_lookup(m, k2);
            if k2 == k {
                assert(r[p].0 == k);
                assert(attr_lookup(r, k2) == Some(r[p].1));
            } else {
                if exists|i: int| 0 <= i < m.len() && m[i].0 == k2 {
                    let i = choose|i: int| 0 <= i < m.len() && m[i].0 == k2;
                    assert(r[i] == m[i]);
                    assert(attr_lookup(r, k2) == Some(r[i].1));
                    assert(attr_lookup(m, k2) == Some(m[i].1));
                }
                if exists|i: int| 0 <= i < r.len() && r[i].0 == k2 {
                    let i = choose|i: int| 0 <= i < r.len() && r[i].0 == k2;
                    assert(r[i] == m[i]);
                    assert(attr_lookup(r, k2) == Some(r[i].1));
                    assert(attr_lookup(m, k2) == Some(m[i].1));
                }
            }
        }
    } else {
        assert(r == m.insert(p, (k, v)));
        if p < m.len() {
            lemma_seq_lt_total(m[p].0, k);
        }
        assert(strictly_sorted(r)) by {
            assert forall|a: int, b: int| 0 <= a < b < r.len() implies seq_lt(#[trigger] r[a].0, #[trigger] r[b].0) by {
                if b < p {
                    assert(r[a] == m[a] && r[b] == m[b]);
                } else if b == p {
                    assert(r[a] == m[a]);
                } else if a < p {
                    assert(r[a] == m[a] && r[b] == m[b - 1]);
                    lemma_seq_lt_trans(m[a].0, k, m[p].0);
                    if b - 1 > p {
                        lemma_seq_lt_trans(m[a].0, m[p].0, m[b - 1].0);
                    }
                } else if a == p {
                    assert(r[b] == m[b - 1]);
                    if b - 1 > p {
                        lemma_seq_lt_trans(k, m[p].0, m[b - 1].0);
                    }
                } else {
                    assert(r[a] == m[a - 1] && r[b] == m[b - 1]);
                }
            }
        }
        assert forall|k2: Seq<char>| #[trigger] attr_lookup(r, k2) == (if k2 == k {
            Some(v)
        } else {
            attr_lookup(m, k2)
        }) by {
            lemma_lookup(r, k2);
            lemma_lookup(m, k2);
            if k2 == k {
                assert(r[p] == (k, v));
                assert(attr_lookup(r, k2) == Some(r[p].1));
            } else {
                if exists|i: int| 0 <= i < m.len() && m[i].0 == k2 {
                    let i = choose|i: int| 0 <= i < m.len() && m[i].0 == k2;
                    assert(attr_lookup(m, k2) == Some(m[i].1));
                    if i < p {
                        assert(r[i] == m[i]);
                        assert(attr_lookup(r, k2) == Some(r[i].1));
                    } else {
                        assert(r[i + 1] == m[i]);
                        assert(attr_lookup(r, k2) == Some(r[i + 1].1));
                    }
                }
                if exists|i: int| 0 <= i < r.len() && r[i].0 == k2 {
                    let i = choose|i: int| 0 <= i < r.len() && r[i].0 == k2;
                    assert(attr_lookup(r, k2) == Some(r[i].1));
                    if i < p {
                        assert(r[i] == m[i]);
                        assert(attr_lookup(m, k2) == Some(m[i].1));
                    } else {
                        assert(i != p);
                        assert(r[i] == m[i - 1]);
                        assert(attr_lookup(m, k2) == Some(m[i - 1].1));
                    }
                }
            }
        }
    }
}

/// Attributes become a map: names strictly increasing, each with the value
/// written last for it.
pub proof fn lemma_map_from(s: Seq<(Seq<char>, Seq<char>)>)
    ensures
        strictly_sorted(map_from(s)),
        forall|k: Seq<char>| #[trigger] attr_lookup(map_from(s), k) == last_value(s, k),
    decreases s.len(),
{
    if s.len() > 0 {
        lemma_map_from(s.drop_last());
        lemma_map_insert(map_from(s.drop_last()), s.last().0, s.last().1);
        assert forall|k: Seq<char>| #[trigger] attr_lookup(map_from(s), k) == last_value(s, k) by {
            assert(attr_lookup(map_from(s.drop_last()), k) == last_value(s.drop_last(), k));
        }
    }
}

pub proof fn lemma_key_pos_bounds(m: Seq<(Seq<char>, Seq<char>)>, k: Seq<char>, j: int)
    requires
        0 <= j <= m.len(),
    ensures
        j <= key_pos(m, k, j) <= m.len(),
    decreases m.len() - j,
{
    if j < m.len() && seq_lt(m[j].0, k) {
        lemma_key_pos_bounds(m, k, j + 1);
    }
}

fn string_lt(a: &String, b: &String) -> (r: bool)
    ensures
        r == seq_lt(a@, b@),
{
    let x = str_chars(a.as_str());
    let y = str_chars(b.as_str());
    chars_lt(&x, &y)
}

pub(crate) fn attrs_to_map(attrs: Vec<(String, String)>) -> (r: Vec<(String, String)>)
    ensures
        string_pairs_view(r@) == map_from(string_pairs_view(attrs@)),
{
    let ghost sv = string_pairs_view(attrs@);
    let mut map: Vec<(String, String)> = Vec::new();
    let mut src = attrs;
    let mut rest: Vec<(String, String)> = Vec::new();
    let n: usize = src.len();
    while src.len() > 0
        invariant
            sv.len() == n,
            src@.len() + rest@.len() == n,
            string_pairs_view(src@) =~= sv.take(src@.len() as int),
            forall|m: int| 0 <= m < rest@.len() ==> (rest@[m].0@, rest@[m].1@) == sv[n - 1 - m],
        decreases src.len(),
    {
        let ghost old_src = src@;
        let x = src.pop().unwrap();
        proof {
            assert(string_pairs_view(src@) =~= sv.take(src@.len() as int));
            assert(string_pairs_view(old_src)[src@.len() as int] == (x.0@, x.1@));
        }
        rest.push(x);
    }
    let mut done: usize = 0;
    assert(string_pairs_view(map@) =~= map_from(sv.take(0)));
    while rest.len() > 0
        invariant
            sv.len() == n,
            done + rest@.len() == n,
            forall|m: int| 0 <= m < rest@.len() ==> (rest@[m].0@, rest@[m].1@) == sv[n - 1 - m],
            string_pairs_view(map@) == map_from(sv.take(done as int)),
        decreases rest.len(),
    {
        let (k, v) = rest.pop().unwrap();
        let ghost kv = (k@, v@);
        assert(kv == sv[done as int]);
        let ghost before = string_pairs_view(map@);
        let mut p: usize = 0;
        while p < map.len() && string_lt(&map[p].0, &k)
            invariant
                p <= map@.len(),
                kv.0 == k@,
                before == string_pairs_view(map@),
                key_pos(before, kv.0, p as int) == key_pos(before, kv.0, 0),
            decreases map.len() - p,
        {
            assert(before[p as int].0 == map@[p as int].0@);
            p = p + 1;
        }
        proof {
            lemma_key_pos_bounds(before, kv.0, 0);
        }
        if p < map.len() && map[p].0 == k {
            map.set(p, (k, v));
            assert(string_pairs_view(map@) =~= before.update(p as int, kv));
        } else {
            assert(p < map.len() ==> before[p as int].0 != kv.0);
            map.insert(p, (k, v));
            assert(string_pairs_view(map@) =~= before.insert(p as int, kv));
        }
        proof {
            let t = sv.take(done + 1);
            assert(t.drop_last() =~= sv.take(done as int));
            assert(t.last() == kv);
        }
        done = done + 1;
    }
    assert(sv.take(n as int) =~= sv);
    map
}

// ---------------------------------------------------------------------------
// The stack of open elements.
// ---------------------------------------------------------------------------
#[derive(Debug, Clone)]
struct OpenElements(Vec<NodeId>);

/// Pops entries up to and including the topmost one that satisfies `p`
/// (all of them when none does).
pub open spec fn pop_until_spec(open: Seq<NodeId>, p: spec_fn(NodeId) -> bool) -> Seq<NodeId>
    decreases open.len(),
{
    if open.len() == 0 {
        open
    } else if p(open.last()) {
        open.drop_last()
    } else {
        pop_until_spec(open.drop_last(), p)
    }
}

pub proof fn lemma_pop_until_prefix(open: Seq<NodeId>, p: spec_fn(NodeId) -> bool)
    ensures
        pop_until_spec(open, p).len() <= open.len(),
        pop_until_spec(open, p) =~= open.take(pop_until_spec(open, p).len() as int),
    decreases open.len(),
{
    if open.len() > 0 && !p(open.last()) {
        lemma_pop_until_prefix(open.drop_last(), p);
        let r = pop_until_spec(open.drop_last(), p);
        assert(open.drop_last().take(r.len() as int) =~= open.take(r.len() as int));
    }
}

impl OpenElements {
    fn new() -> (r: Self)
        ensures
            r.0@ == Seq::<NodeId>::empty(),
    {
        OpenElements(Vec::new())
    }

    fn push(&mut self, id: NodeId)
        ensures
            final(self).0@ == old(self).0@.push(id),
    {
        self.0.push(id)
    }

    /// Pops entries up to and including the topmost `id`.
    fn pop_until_id(&mut self, id: NodeId)
        ensures
            final(self).0@ == pop_until_spec(old(self).0@, |x: NodeId| x == id),
    {
        let ghost s0 = self.0@;
        loop
            invariant_except_break
                pop_until_spec(self.0@, |x: NodeId| x == id) == pop_until_spec(s0, |x: NodeId| x == id),
            ensures
                self.0@ == pop_until_spec(s0, |x: NodeId| x == id),
            decreases self.0@.len(),
        {
            match self.current() {
                Some(top) => {
                    let ghost before = self.0@;
                    if top == id {
                        self.0.pop();
                        
                        assert(self.0@ =~= before.drop_last());
                        break ;
                    }
                    self.0.pop();
                    
                    assert(self.0@ =~= before.drop_last());
                },
                None => {
                    break ;
                },
            }
        }
    }

    /// Pops entries up to and including the topmost element with tag `want`.
    fn pop_until_tag(&mut self, dom: &Dom, want: &TagName)
        ensures
            final(self).0@ == pop_until_spec(
                old(self).0@,
                |x: NodeId| is_open_element_with(dom@, x, want@),
            ),
    {
        let ghost s0 = self.0@;
        loop
            invariant_except_break
                pop_until_spec(self.0@, |x: NodeId| is_open_element_with(dom@, x, want@)) == pop_until_spec(s0, |x: NodeId| is_open_element_with(dom@, x, want@)),
            ensures
                self.0@ == pop_until_spec(s0, |x: NodeId| is_open_element_with(dom@, x, want@)),
            decreases self.0@.len(),
        {
            match self.current() {
                Some(top) => {
                    let ghost before = self.0@;
                    if node_has_tag(dom, top, want) {
                        self.0.pop();
                        
                        assert(self.0@ =~= before.drop_last());
                        break ;
                    }
                    self.0.pop();
                    
                    assert(self.0@ =~= before.drop_last());
                },
                None => {
                    break ;
                },
            }
        }
    }

    fn current(&self) -> (r: Option<NodeId>)
        ensures
            r == (if self.0@.len() > 0 {
                Some(self.0@.last())
            } else {
                None::<NodeId>
            }),
    {
        if self.0.len() > 0 {
            Some(self.0[self.0.len() - 1])
        } else {
            None
        }
    }

    fn is_empty(&self) -> (r: bool)
        ensures
            r == (self.0@.len() == 0),
    {
        self.0.len() == 0
    }
}

fn node_has_tag(dom: &Dom, id: NodeId, want: &TagName) -> (r: bool)
    ensures
        r == is_open_element_with(dom@, id, want@),
{
    let idx: usize = id.0 as usize;
    if idx >= dom.nodes.len() {
        return false;
    }
    match &dom.nodes[idx].kind {
        NodeKind::Element(ed) => tag_eq(&ed.tag, want),
        _ => false,
    }
}

// ---------------------------------------------------------------------------
// Tree construction.
// ---------------------------------------------------------------------------
/// The builder's state between tokens.
pub struct BuildState {
    pub dom: Seq<NodeView>,
    pub open: Seq<NodeId>,
    pub in_head: bool,
    pub seen_html: bool,
}

/// The document node, which also stands where `html`, `head` and `body`
/// elements are implied: no such elements are made for the writer.
pub open spec fn document_node() -> NodeId {
    NodeId(0)
}

pub open spec fn element(tag: TagView) -> KindView {
    KindView::Element { tag, attrs: Seq::empty() }
}

pub open spec fn document_only() -> Seq<NodeView> {
    seq![NodeView { id: NodeId(0), parent: None, children: Seq::empty(), kind: KindView::Document }]
}

/// The bare document, itself the open node.
pub open spec fn initial_build() -> BuildState {
    BuildState { dom: document_only(), open: seq![document_node()], in_head: false, seen_html: false }
}

/// `x` names an element of `d` with the given tag (the test an end tag makes
/// on the open elements, which always name nodes of the tree).
pub open spec fn is_open_element_with(d: Seq<NodeView>, x: NodeId, tag: TagView) -> bool {
    &&& x.0 < d.len()
    &&& d[x.0 as int].kind matches KindView::Element { tag: t, .. }
    &&& t == tag
}

/// The effect of one token on the builder.
pub open spec fn build_step(st: BuildState, tok: TokenView) -> BuildState {
    match tok {
        TokenView::Character(text) => {
            if st.open.len() > 0 && text.len() > 0 {
                BuildState { dom: append_spec(st.dom, st.open.last(), KindView::Text(text)), ..st }
            } else {
                st
            }
        },
        TokenView::StartTag { name, attrs, self_closing } => {
            let tag = canon_tag_spec(name);
            let parent = if tag is Head {
                document_node()
            } else if (tag is Meta || tag is Link || tag is Style) && !st.in_head {
                document_node()
            } else if st.open.len() > 0 {
                st.open.last()
            } else {
                document_node()
            };
            let id = NodeId(st.dom.len() as u32);
            let dom = append_spec(
                st.dom,
                parent,
                KindView::Element { tag, attrs: map_from(attrs) },
            );
            let open = if !self_closing && !is_void_spec(tag) {
                st.open.push(
                    if tag is Head {
                        document_node()
                    } else {
                        id
                    },
                )
            } else {
                st.open
            };
            BuildState {
                dom,
                open,
                in_head: st.in_head || tag is Head,
                seen_html: st.seen_html || tag is Html,
            }
        },
        TokenView::EndTag { name } => {
            let tag = canon_tag_spec(name);
            if tag is Head {
                BuildState {
                    open: pop_until_spec(st.open, |x: NodeId| x == document_node()),
                    in_head: false,
                    ..st
                }
            } else if tag is Body {
                BuildState { open: pop_until_spec(st.open, |x: NodeId| x == document_node()), ..st }
            } else if tag is Html && st.seen_html {
                BuildState { open: Seq::empty(), ..st }
            } else {
                BuildState {
                    open: pop_until_spec(st.open, |x: NodeId| is_open_element_with(st.dom, x, tag)),
                    ..st
                }
            }
        },
        _ => st,
    }
}

/// The builder state after the tokens from position `i` up to `EOF`.
pub open spec fn build_from(s: Seq<char>, i: int, st: BuildState) -> BuildState
    decreases s.len() - i,
{
    if i < 0 || i > s.len() {
        st
    } else {
        let (tok, j) = next_spec(s, i);
        if tok is EOF {
            st
        } else {
            proof {
                lemma_next_advances(s, i);
            }
            build_from(s, j, build_step(st, tok))
        }
    }
}

/// The tree `parse_to_dom` builds from the chars `s`.
pub open spec fn parse_spec(s: Seq<char>) -> Seq<NodeView> {
    build_from(s, 0, initial_build()).dom
}

/// Every element's attributes have strictly increasing names.
pub open spec fn attrs_sorted(d: Seq<NodeView>) -> bool {
    forall|i: int|
        0 <= i < d.len() ==> ((#[trigger] d[i]).kind matches KindView::Element { attrs, .. }
            ==> strictly_sorted(attrs))
}

/// Appending a node whose attributes (if any) are sorted keeps them all sorted.
pub proof fn lemma_append_keeps_sorted(d: Seq<NodeView>, parent: NodeId, kind: KindView)
    requires
        attrs_sorted(d),
        kind matches KindView::Element { attrs, .. } ==> strictly_sorted(attrs),
        parent.0 < d.len(),
    ensures
        attrs_sorted(append_spec(d, parent, kind)),
{
    let e = append_spec(d, parent, kind);
    assert forall|i: int| 0 <= i < e.len() implies ((#[trigger] e[i]).kind matches KindView::Element {
        attrs,
        ..
    } ==> strictly_sorted(attrs)) by {
        if i < d.len() {
            assert(e[i].kind == d[i].kind);
        }
    }
}

/// Text nodes have no children.
pub open spec fn text_leaves(d: Seq<NodeView>) -> bool {
    forall|i: int| 0 <= i < d.len() && (#[trigger] d[i]).kind is Text ==> d[i].children.len() == 0
}

/// Appending under a node that is not text keeps text nodes childless.
pub proof fn lemma_append_keeps_leaves(d: Seq<NodeView>, parent: NodeId, kind: KindView)
    requires
        text_leaves(d),
        parent.0 < d.len(),
        !(d[parent.0 as int].kind is Text),
    ensures
        text_leaves(append_spec(d, parent, kind)),
{
    let e = append_spec(d, parent, kind);
    assert forall|i: int| 0 <= i < e.len() && (#[trigger] e[i]).kind is Text implies e[i].children.len()
        == 0 by {
        if i < d.len() && i != parent.0 {
            assert(e[i] == d[i]);
        }
    }
}

/// `n` is a `br`, `hr`, `img`, `meta` or `link` element.
pub open spec fn is_empty_element_kind(n: NodeView) -> bool {
    match n.kind {
        KindView::Element { tag, .. } => tag is Br || tag is Hr || tag is Img || tag is Meta
            || tag is Link,
        _ => false,
    }
}

/// The void elements `br`, `hr`, `img`, `meta` and `link` have no children.
pub open spec fn void_leaves(d: Seq<NodeView>) -> bool {
    forall|i: int| 0 <= i < d.len() && is_empty_element_kind(#[trigger] d[i]) ==> d[i].children.len() == 0
}

/// Appending under a node that is not a void element keeps void elements
/// childless.
pub proof fn lemma_append_keeps_void_leaves(d: Seq<NodeView>, parent: NodeId, kind: KindView)
    requires
        void_leaves(d),
        parent.0 < d.len(),
        !is_empty_element_kind(d[parent.0 as int]),
    ensures
        void_leaves(append_spec(d, parent, kind)),
{
    let e = append_spec(d, parent, kind);
    assert forall|i: int| 0 <= i < e.len() && is_empty_element_kind(#[trigger] e[i]) implies e[i].children.len()
        == 0 by {
        if i < d.len() && i != parent.0 {
            assert(e[i] == d[i]);
        }
    }
}

/// The builder's invariant: a well-formed tree whose text nodes and void
/// elements are leaves, and open entries that name nodes of it that are
/// neither text nor void elements.
pub open spec fn state_wf(st: BuildState) -> bool {
    &&& tree_wf(st.dom)
    &&& attrs_sorted(st.dom)
    &&& text_leaves(st.dom)
    &&& void_leaves(st.dom)
    &&& forall|k: int| 0 <= k < st.open.len() ==> !is_empty_element_kind(st.dom[(#[trigger] st.open[k]).0 as int])
    &&& forall|k: int| 0 <= k < st.open.len() ==> (#[trigger] st.open[k]).0 < st.dom.len()
    &&& forall|k: int| 0 <= k < st.open.len() ==> !(st.dom[(#[trigger] st.open[k]).0 as int].kind is Text)
}

spec fn state_of(dom: &Dom, open: &OpenElements, in_head: bool, seen_html: bool) -> BuildState {
    BuildState { dom: dom@, open: open.0@, in_head, seen_html }
}

/// Most nodes a source of `n` chars can produce.
pub open spec fn max_nodes(n: int) -> int {
    n + 1
}

pub open spec fn max_source_len() -> int {
    0xFFFF_0000
}

/// The document tree of `html`: node 0 is the document; every element and
/// non-empty text is appended under the innermost open element (or the
/// document), each element's attributes sorted by name with the last value
/// of a repeated name; text nodes and the void elements `br`, `hr`, `img`,
/// `meta` and `link` are leaves.
pub fn parse_to_dom(html: &str) -> (r: Dom)
    requires
        html@.len() < max_source_len(),
    ensures
        r@ == parse_spec(html@),
        r.root == NodeId(0),
        tree_wf(r@),
        attrs_sorted(r@),
        text_leaves(r@),
        void_leaves(r@),
{
    let mut dom = Dom::new_document();
    proof {
        assert(dom@ =~= document_only());
    }
    let doc_id = dom.root;
    proof {
        assert(tree_wf(document_only()));
    }

    let mut open = OpenElements::new();
    open.push(doc_id);

    let mut in_head = false;
    let mut seen_html = false;

    let mut tk = Tokenizer::new(html);
    let ghost s = html@;
    proof {
        assert(open.0@ =~= seq![document_node()]);
    }
    loop
        invariant_except_break
            tk.wf(),
            tk.source() == s,
            s.len() < max_source_len(),
            doc_id == document_node(),
            dom.root == NodeId(0),
            state_wf(state_of(&dom, &open, in_head, seen_html)),
            dom@.len() <= max_nodes(tk.position()),
            build_from(s, tk.position(), state_of(&dom, &open, in_head, seen_html))
                == build_from(s, 0, initial_build()),
        ensures
            dom.root == NodeId(0),
            state_wf(state_of(&dom, &open, in_head, seen_html)),
            state_of(&dom, &open, in_head, seen_html) == build_from(
                s,
                0,
                initial_build(),
            ),
        decreases s.len() - tk.position(),
    {
        let ghost st = state_of(&dom, &open, in_head, seen_html);
        let ghost pos = tk.position();
        proof {
            tk.lemma_wf();
            lemma_next_advances(s, pos);
        }
        let tok = tk.next();
        let ghost tv = tok@;
        match tok {
            Token::EOF => {
                break ;
            },
            Token::Doctype { .. } => {},
            Token::Comment(_) => {},
            Token::Character(text) => {
                if let Some(parent) = open.current() {
                    if !text.as_str().is_empty() {
                        let ghost kv = KindView::Text(text@);
                        dom.append_child(parent, NodeKind::Text(text));
                        proof {
                            lemma_append_keeps_tree(st.dom, parent, kv);
                            lemma_append_keeps_sorted(st.dom, parent, kv);
                            lemma_append_keeps_leaves(st.dom, parent, kv);
                            lemma_append_keeps_void_leaves(st.dom, parent, kv);
                        }
                    }
                }
            },
            Token::StartTag { name, attrs, self_closing } => {
                let tag = canon_tag(name.as_str());
                let parent = if matches!(tag, TagName::Head) {
                    in_head = true;
                    doc_id
                } else if matches!(tag, TagName::Meta | TagName::Link | TagName::Style) && !in_head {
                    doc_id
                } else {
                    match open.current() {
                        Some(c) => c,
                        None => doc_id,
                    }
                };
                let map = attrs_to_map(attrs);
                let void = is_void(&tag);
                let is_head = matches!(tag, TagName::Head);
                let is_html = matches!(tag, TagName::Html);
                let ghost kv = KindView::Element { tag: tag@, attrs: string_pairs_view(map@) };
                let id = dom.append_child(parent, NodeKind::Element(ElementData { tag, attrs: map }));
                proof {
                    lemma_append_keeps_tree(st.dom, parent, kv);
                    lemma_map_from(string_pairs_view(attrs@));
                    lemma_append_keeps_sorted(st.dom, parent, kv);
                    lemma_append_keeps_leaves(st.dom, parent, kv);
                    lemma_append_keeps_void_leaves(st.dom, parent, kv);
                }
                if !self_closing && !void {
                    if is_head {
                        open.push(doc_id);
                    } else {
                        open.push(id);
                    }
                }
                if is_html {
                    seen_html = true;
                }
            },
            Token::EndTag { name } => {
                let tag = canon_tag(name.as_str());
                match tag {
                    TagName::Head => {
                        in_head = false;
                        open.pop_until_id(doc_id);
                    },
                    TagName::Body => {
                        open.pop_until_id(doc_id);
                    },
                    TagName::Html if seen_html => {
                        while !open.is_empty()
                            invariant
                                true,
                            decreases open.0@.len(),
                        {
                            open.0.pop();
                        }
                        assert(open.0@ =~= Seq::<NodeId>::empty());
                    },
                    _ => {
                        open.pop_until_tag(&dom, &tag);
                    },
                }
                proof {
                    lemma_pop_until_prefix(st.open, |x: NodeId| x == document_node());
                    lemma_pop_until_prefix(st.open, |x: NodeId| is_open_element_with(st.dom, x, canon_tag_spec(name@)));
                }
            },
        }
        proof {
            assert(state_of(&dom, &open, in_head, seen_html) == build_step(st, tv));
        }
    }
    dom
}

} // verus!
