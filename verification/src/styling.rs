//! Styling a parsed HTML document: the document seen through the cascade's
//! `DomAccessor`, and the author style sheet gathered from `<style>` elements.
use vstd::prelude::*;
use crate::text::{is_whitespace, str_chars, chars_to_string, words, words_state};
use crate::hb_html::tree_builder::{
    Dom, NodeId, NodeKind, NodeView, KindView, TagName, TagView, tree_wf, attr_lookup,
};
use crate::hb_html::tokenizer::string_pairs_view;
use crate::hb_css::selectors::{DomMatch, opt_string_view, strings_view};
use crate::hb_css::cascade::{
    DomAccessor, StyleView, node_style, styles_from, styles_under, first_occurrences,
    lemma_first_occurrences, lemma_styles_consistent,
};
use crate::hb_css::parser::{Stylesheet, try_parse_css, parse_css_spec, RuleView};

verus! {

// ---------------------------------------------------------------------------
// Attributes and class lists.
// ---------------------------------------------------------------------------
fn split_words(s: &String) -> (r: Vec<String>)
    ensures
        strings_view(r@) == words(s@),
{
    let v = str_chars(s.as_str());
    let mut out: Vec<String> = Vec::new();
    let mut cur: Vec<char> = Vec::new();
    let mut k: usize = 0;
    while k < v.len()
        invariant
            k <= v@.len(),
            v@ == s@,
            (strings_view(out@), cur@) == words_state(v@.take(k as int)),
        decreases v.len() - k,
    {
        assert(v@.take(k + 1).drop_last() =~= v@.take(k as int));
        let c = v[k];
        if is_whitespace(c) {
            if cur.len() > 0 {
                let w = chars_to_string(&cur);
                out.push(w);
                assert(strings_view(out@) =~= strings_view(out@.drop_last()).push(w@));
                cur = Vec::new();
            }
        } else {
            cur.push(c);
        }
        k = k + 1;
    }
    assert(v@.take(v@.len() as int) =~= v@);
    if cur.len() > 0 {
        let w = chars_to_string(&cur);
        out.push(w);
        assert(strings_view(out@) =~= strings_view(out@.drop_last()).push(w@));
    }
    out
}

pub(crate) fn lookup_attr(attrs: &Vec<(String, String)>, key: &[char]) -> (r: Option<String>)
    ensures
        opt_string_view(r) == attr_lookup(string_pairs_view(attrs@), key@),
{
    let ghost sv = string_pairs_view(attrs@);
    assert(sv.skip(0) =~= sv);
    let mut k: usize = 0;
    while k < attrs.len()
        invariant
            k <= attrs@.len(),
            sv == string_pairs_view(attrs@),
            attr_lookup(sv, key@) == attr_lookup(sv.skip(k as int), key@),
        decreases attrs.len() - k,
    {
        let name = str_chars(attrs[k].0.as_str());
        assert(sv.skip(k as int)[0] == sv[k as int]);
        assert(sv.skip(k as int).drop_first() =~= sv.skip(k + 1));
        if crate::text::chars_eq_lit(&name, key) {
            return Some(attrs[k].1.clone());
        }
        k = k + 1;
    }
    None
}

pub open spec fn id_word() -> Seq<char> {
    seq!['i', 'd']
}

pub open spec fn class_word() -> Seq<char> {
    seq!['c', 'l', 'a', 's', 's']
}

pub open spec fn style_word() -> Seq<char> {
    seq!['s', 't', 'y', 'l', 'e']
}

/// The name the cascade matches for a tag; unknown tags match as `div`.
pub open spec fn tag_text(t: TagView) -> Seq<char> {
    match t {
        TagView::Html => seq!['h', 't', 'm', 'l'],
        TagView::Head => seq!['h', 'e', 'a', 'd'],
        TagView::Body => seq!['b', 'o', 'd', 'y'],
        TagView::Div => seq!['d', 'i', 'v'],
        TagView::P => seq!['p'],
        TagView::Span => seq!['s', 'p', 'a', 'n'],
        TagView::Link => seq!['l', 'i', 'n', 'k'],
        TagView::Style => seq!['s', 't', 'y', 'l', 'e'],
        TagView::Meta => seq!['m', 'e', 't', 'a'],
        TagView::Br => seq!['b', 'r'],
        TagView::Hr => seq!['h', 'r'],
        TagView::Img => seq!['i', 'm', 'g'],
        TagView::Unknown(_) => seq!['d', 'i', 'v'],
    }
}

fn tag_string(t: &TagName) -> (r: String)
    ensures
        r@ == tag_text(t@),
{
    let v: Vec<char> = match t {
        TagName::Html => vec!['h', 't', 'm', 'l'],
        TagName::Head => vec!['h', 'e', 'a', 'd'],
        TagName::Body => vec!['b', 'o', 'd', 'y'],
        TagName::Div => vec!['d', 'i', 'v'],
        TagName::P => vec!['p'],
        TagName::Span => vec!['s', 'p', 'a', 'n'],
        TagName::Link => vec!['l', 'i', 'n', 'k'],
        TagName::Style => vec!['s', 't', 'y', 'l', 'e'],
        TagName::Meta => vec!['m', 'e', 't', 'a'],
        TagName::Br => vec!['b', 'r'],
        TagName::Hr => vec!['h', 'r'],
        TagName::Img => vec!['i', 'm', 'g'],
        TagName::Unknown(_) => vec!['d', 'i', 'v'],
    };
    proof {
        assert(v@ =~= tag_text(t@));
    }
    chars_to_string(&v)
}

// ---------------------------------------------------------------------------
// The document as the cascade sees it.
// ---------------------------------------------------------------------------
/// A document built by the tree builder, seen by the cascade.
pub struct CssDomAdapter<'a> {
    dom: &'a Dom,
}

impl<'a> CssDomAdapter<'a> {
    #[verifier::type_invariant]
    spec fn inv(self) -> bool {
        &&& tree_wf(self.dom@)
        &&& self.dom.root == NodeId(0)
    }

    pub closed spec fn doc(self) -> Seq<NodeView> {
        self.dom@
    }

    pub fn new(dom: &'a Dom) -> (r: Self)
        requires
            tree_wf(dom@),
            dom.root == NodeId(0),
        ensures
            r.doc() == dom@,
    {
        CssDomAdapter { dom }
    }
}

pub open spec fn element_attr(n: NodeView, k: Seq<char>) -> Option<Seq<char>> {
    match n.kind {
        KindView::Element { attrs, .. } => attr_lookup(attrs, k),
        _ => None,
    }
}

impl<'a> DomMatch for CssDomAdapter<'a> {
    type NodeId = NodeId;

    open spec fn has_node(&self, n: NodeId) -> bool {
        n.0 < self.doc().len()
    }

    open spec fn parent_of(&self, n: NodeId) -> Option<NodeId> {
        self.doc()[n.0 as int].parent
    }

    open spec fn depth_of(&self, n: NodeId) -> nat {
        n.0 as nat
    }

    open spec fn element_of(&self, n: NodeId) -> bool {
        self.doc()[n.0 as int].kind is Element
    }

    open spec fn tag_of(&self, n: NodeId) -> Option<Seq<char>> {
        match self.doc()[n.0 as int].kind {
            KindView::Element { tag, .. } => Some(tag_text(tag)),
            _ => None,
        }
    }

    open spec fn id_of(&self, n: NodeId) -> Option<Seq<char>> {
        element_attr(self.doc()[n.0 as int], id_word())
    }

    open spec fn classes_of(&self, n: NodeId) -> Seq<Seq<char>> {
        match element_attr(self.doc()[n.0 as int], class_word()) {
            Some(c) => words(c),
            None => Seq::empty(),
        }
    }

    fn parent(&self, n: NodeId) -> (r: Option<NodeId>) {
        proof {
            use_type_invariant(self);
        }
        let r = self.dom.nodes[n.0 as usize].parent;
        proof {
            assert(self.dom@[n.0 as int] == self.dom.nodes@[n.0 as int]@);
            if n.0 >= 1 {
                assert(crate::hb_html::tree_builder::parent_ok(
                    self.dom@,
                    n.0 as int,
                    self.dom@[n.0 as int],
                ));
            }
        }
        r
    }

    fn is_element(&self, n: NodeId) -> (r: bool) {
        assert(self.dom@[n.0 as int] == self.dom.nodes@[n.0 as int]@);
        match &self.dom.nodes[n.0 as usize].kind {
            NodeKind::Element(_) => true,
            _ => false,
        }
    }

    fn tag_name(&self, n: NodeId) -> (r: Option<String>) {
        assert(self.dom@[n.0 as int] == self.dom.nodes@[n.0 as int]@);
        match &self.dom.nodes[n.0 as usize].kind {
            NodeKind::Element(ed) => Some(tag_string(&ed.tag)),
            _ => None,
        }
    }

    fn id(&self, n: NodeId) -> (r: Option<String>) {
        assert(self.dom@[n.0 as int] == self.dom.nodes@[n.0 as int]@);
        match &self.dom.nodes[n.0 as usize].kind {
            NodeKind::Element(ed) => {
                proof {
                    assert(seq!['i', 'd'] =~= id_word());
                }
                lookup_attr(&ed.attrs, &['i', 'd'])
            },
            _ => None,
        }
    }

    fn classes(&self, n: NodeId) -> (r: Vec<String>) {
        assert(self.dom@[n.0 as int] == self.dom.nodes@[n.0 as int]@);
        match &self.dom.nodes[n.0 as usize].kind {
            NodeKind::Element(ed) => {
                proof {
                    assert(seq!['c', 'l', 'a', 's', 's'] =~= class_word());
                }
                match lookup_attr(&ed.attrs, &['c', 'l', 'a', 's', 's']) {
                    Some(cls) => split_words(&cls),
                    None => Vec::new(),
                }
            },
            _ => Vec::new(),
        }
    }
}

impl<'a> DomAccessor for CssDomAdapter<'a> {
    open spec fn root_node(&self) -> NodeId {
        NodeId(0)
    }

    open spec fn children_of(&self, n: NodeId) -> Seq<NodeId> {
        self.doc()[n.0 as int].children
    }

    open spec fn height_of(&self, n: NodeId) -> nat {
        (self.doc().len() - n.0) as nat
    }

    open spec fn inline_of(&self, n: NodeId) -> Option<Seq<char>> {
        element_attr(self.doc()[n.0 as int], style_word())
    }

    fn same_node(&self, a: NodeId, b: NodeId) -> (r: bool) {
        a.0 == b.0
    }

    fn root(&self) -> (r: NodeId) {
        proof {
            use_type_invariant(self);
        }
        self.dom.root
    }

    fn children(&self, n: NodeId) -> (r: Vec<NodeId>) {
        proof {
            use_type_invariant(self);
        }
        let ghost d = self.dom@;
        assert(d[n.0 as int] == self.dom.nodes@[n.0 as int]@);
        let cs = &self.dom.nodes[n.0 as usize].children;
        let mut out: Vec<NodeId> = Vec::new();
        let mut k: usize = 0;
        while k < cs.len()
            invariant
                k <= cs@.len(),
                out@ == cs@.take(k as int),
            decreases cs.len() - k,
        {
            out.push(cs[k]);
            k = k + 1;
            assert(out@ =~= cs@.take(k as int));
        }
        assert(out@ =~= cs@);
        assert forall|m: int| 0 <= m < out@.len() implies self.has_node(#[trigger] out@[m])
            && self.height_of(out@[m]) < self.height_of(n) by {
            assert(d[n.0 as int].children[m] == out@[m]);
        }
        out
    }

    fn inline_style(&self, n: NodeId) -> (r: Option<String>) {
        assert(self.dom@[n.0 as int] == self.dom.nodes@[n.0 as int]@);
        match &self.dom.nodes[n.0 as usize].kind {
            NodeKind::Element(ed) => {
                proof {
                    assert(seq!['s', 't', 'y', 'l', 'e'] =~= style_word());
                }
                lookup_attr(&ed.attrs, &['s', 't', 'y', 'l', 'e'])
            },
            _ => None,
        }
    }
}

// ---------------------------------------------------------------------------
// The author style sheet.
// ---------------------------------------------------------------------------
/// The text children among `cs`, each followed by a newline.
pub open spec fn text_children(d: Seq<NodeView>, cs: Seq<NodeId>) -> Seq<char>
    decreases cs.len(),
{
    if cs.len() == 0 {
        Seq::empty()
    } else {
        let t = match d[cs.last().0 as int].kind {
            KindView::Text(t) => t.push('\n'),
            _ => Seq::empty(),
        };
        text_children(d, cs.drop_last()) + t
    }
}

/// What the `<style>` elements among the first `k` nodes contribute.
pub open spec fn css_upto(d: Seq<NodeView>, k: int) -> Seq<char>
    decreases k,
{
    if k <= 0 {
        Seq::empty()
    } else {
        let n = d[k - 1];
        let own = match n.kind {
            KindView::Element { tag: TagView::Style, .. } => text_children(d, n.children),
            _ => Seq::empty(),
        };
        css_upto(d, k - 1) + own
    }
}

/// The author style sheet's source: the text of every `<style>` element in
/// document order, each text child followed by a newline.
pub open spec fn author_css_spec(d: Seq<NodeView>) -> Seq<char> {
    css_upto(d, d.len() as int)
}

pub open spec fn is_style_element(n: NodeView) -> bool {
    n.kind matches KindView::Element { tag: TagView::Style, .. }
}

/// Every child listed by a `<style>` element names a node of `d` (the only
/// child lists the author style sheet is read from).
pub open spec fn style_children_valid(d: Seq<NodeView>) -> bool {
    forall|i: int, k: int|
        0 <= i < d.len() && is_style_element(#[trigger] d[i]) && 0 <= k < d[i].children.len() ==> (
        #[trigger] d[i].children[k]).0 < d.len()
}

/// The source of the author style sheet.
pub fn author_css_text(dom: &Dom) -> (r: String)
    requires
        style_children_valid(dom@),
    ensures
        r@ == author_css_spec(dom@),
{
    let ghost d = dom@;
    let mut acc: Vec<char> = Vec::new();
    let mut k: usize = 0;
    while k < dom.nodes.len()
        invariant
            k <= d.len(),
            d == dom@,
            d.len() == dom.nodes@.len(),
            style_children_valid(d),
            acc@ == css_upto(d, k as int),
        decreases dom.nodes.len() - k,
    {
        let node = &dom.nodes[k];
        assert(d[k as int] == node@);
        match &node.kind {
            NodeKind::Element(ed) => {
                match &ed.tag {
                    TagName::Style => {
                        let ghost acc0 = acc@;
                        let mut m: usize = 0;
                        while m < node.children.len()
                            invariant
                                m <= node.children@.len(),
                                k < d.len(),
                                d == dom@,
                                d.len() == dom.nodes@.len(),
                                style_children_valid(d),
                                d[k as int] == node@,
                                is_style_element(node@),
                                acc@ == acc0 + text_children(d, node.children@.take(m as int)),
                            decreases node.children.len() - m,
                        {
                            let c = node.children[m];
                            assert(d[k as int].children[m as int] == c);
                            assert(node.children@.take(m + 1).drop_last() =~= node.children@.take(m as int));
                            let child = &dom.nodes[c.0 as usize];
                            assert(d[c.0 as int] == child@);
                            match &child.kind {
                                NodeKind::Text(t) => {
                                    let tv = str_chars(t.as_str());
                                    let mut j: usize = 0;
                                    let ghost acc1 = acc@;
                                    while j < tv.len()
                                        invariant
                                            j <= tv@.len(),
                                            acc@ == acc1 + tv@.take(j as int),
                                        decreases tv.len() - j,
                                    {
                                        acc.push(tv[j]);
                                        j = j + 1;
                                        assert(acc@ =~= acc1 + tv@.take(j as int));
                                    }
                                    acc.push('\n');
                                    assert(tv@.take(tv@.len() as int) =~= tv@);
                                    assert(acc@ =~= acc0 + text_children(d, node.children@.take(m + 1)));
                                },
                                _ => {
                                    assert(acc@ =~= acc0 + text_children(d, node.children@.take(m + 1)));
                                },
                            }
                            m = m + 1;
                        }
                        assert(node.children@.take(node.children@.len() as int) =~= node.children@);
                    },
                    _ => {},
                }
            },
            _ => {},
        }
        k = k + 1;
        assert(acc@ =~= css_upto(d, k as int));
    }
    chars_to_string(&acc)
}

/// Reads the author style sheet of a document; `None` exactly when reading
/// it would never end (see `try_parse_css`).
pub fn collect_author_css(dom: &Dom) -> (r: Option<Stylesheet>)
    requires
        style_children_valid(dom@),
        vstd::utf8::encode_utf8(author_css_spec(dom@)).len() < u32::MAX,
    ensures
        match parse_css_spec(author_css_spec(dom@)) {
            Some(rs) => r matches Some(ss) && ss@ == rs,
            None => r is None,
        },
{
    let css = author_css_text(dom);
    try_parse_css(css.as_str())
}

// ---------------------------------------------------------------------------
// Every node of a document is styled.
// ---------------------------------------------------------------------------
/// Every entry of `small` is also an entry of `big`.
pub open spec fn covers(big: Seq<(NodeId, StyleView)>, small: Seq<(NodeId, StyleView)>) -> bool {
    forall|k: int| 0 <= k < small.len() ==> #[trigger] big.contains(small[k])
}

proof fn lemma_covers_trans(
    a: Seq<(NodeId, StyleView)>,
    b: Seq<(NodeId, StyleView)>,
    c: Seq<(NodeId, StyleView)>,
)
    requires
        covers(a, b),
        covers(b, c),
    ensures
        covers(a, c),
{
    assert forall|k: int| 0 <= k < c.len() implies #[trigger] a.contains(c[k]) by {
        assert(b.contains(c[k]));
        let k2 = choose|k2: int| 0 <= k2 < b.len() && b[k2] == c[k];
        assert(a.contains(b[k2]));
    }
}

proof fn lemma_under_covers(
    a: &CssDomAdapter,
    rules: Seq<RuleView>,
    cs: Seq<NodeId>,
    h: nat,
    i: int,
)
    requires
        0 <= i < cs.len(),
        a.height_of(cs[i]) < h,
    ensures
        covers(styles_under(a, rules, cs, h), styles_from(a, rules, cs[i])),
    decreases cs.len(),
{
    let before = styles_under(a, rules, cs.drop_last(), h);
    let whole = styles_under(a, rules, cs, h);
    if i == cs.len() - 1 {
        let more = styles_from(a, rules, cs.last());
        assert(whole == before + more);
        assert forall|k: int| 0 <= k < more.len() implies #[trigger] whole.contains(more[k]) by {
            assert(whole[before.len() + k] == more[k]);
        }
    } else {
        lemma_under_covers(a, rules, cs.drop_last(), h, i);
        assert(cs.drop_last()[i] == cs[i]);
        let small = styles_from(a, rules, cs[i]);
        assert forall|k: int| 0 <= k < small.len() implies #[trigger] whole.contains(small[k]) by {
            assert(before.contains(small[k]));
            let k2 = choose|k2: int| 0 <= k2 < before.len() && before[k2] == small[k];
            if a.height_of(cs.last()) < h {
                assert(whole == before + styles_from(a, rules, cs.last()));
                assert(whole[k2] == before[k2]);
            } else {
                assert(whole == before);
            }
            assert(whole[k2] == small[k]);
        }
    }
}

proof fn lemma_reaches(a: &CssDomAdapter, rules: Seq<RuleView>, j: int)
    requires
        tree_wf(a.doc()),
        0 <= j < a.doc().len(),
    ensures
        covers(styles_from(a, rules, NodeId(0)), styles_from(a, rules, NodeId(j as u32))),
    decreases j,
{
    let d = a.doc();
    let root = styles_from(a, rules, NodeId(0));
    if j == 0 {
        assert forall|k: int| 0 <= k < root.len() implies #[trigger] root.contains(root[k]) by {}
    } else {
        assert(crate::hb_html::tree_builder::parent_ok(d, j, d[j]));
        let p = crate::hb_html::tree_builder::parent_index(d[j]);
        lemma_reaches(a, rules, p);
        let pid = NodeId(p as u32);
        let cs = a.children_of(pid);
        assert(cs.contains(NodeId(j as u32)));
        let i = choose|i: int| 0 <= i < cs.len() && cs[i] == NodeId(j as u32);
        assert(a.height_of(cs[i]) < a.height_of(pid));
        lemma_under_covers(a, rules, cs, a.height_of(pid), i);
        let from_p = styles_from(a, rules, pid);
        let under = styles_under(a, rules, cs, a.height_of(pid));
        assert(from_p == seq![(pid, node_style(a, rules, pid))] + under);
        assert forall|k: int| 0 <= k < under.len() implies #[trigger] from_p.contains(under[k]) by {
            assert(from_p[k + 1] == under[k]);
        }
        lemma_covers_trans(from_p, under, styles_from(a, rules, NodeId(j as u32)));
        lemma_covers_trans(root, from_p, styles_from(a, rules, NodeId(j as u32)));
    }
}

/// Styling a document built by the tree builder reaches all of it: every
/// node is listed (once, as for any document), with its own computed style.
pub proof fn lemma_every_node_styled(a: &CssDomAdapter, rules: Seq<RuleView>, j: int)
    requires
        tree_wf(a.doc()),
        0 <= j < a.doc().len(),
    ensures
        first_occurrences(styles_from(a, rules, NodeId(0))).contains(
            (NodeId(j as u32), node_style(a, rules, NodeId(j as u32))),
        ),
{
    lemma_reaches(a, rules, j);
    let own = styles_from(a, rules, NodeId(j as u32));
    let all = styles_from(a, rules, NodeId(0));
    let x = (NodeId(j as u32), node_style(a, rules, NodeId(j as u32)));
    assert(own[0] == x);
    assert(all.contains(own[0]));
    let k = choose|k: int| 0 <= k < all.len() && all[k] == x;
    lemma_first_occurrences(all);
    lemma_styles_consistent(a, rules, NodeId(0));
    let f = first_occurrences(all);
    let m = choose|m: int| 0 <= m < f.len() && (#[trigger] f[m]).0 == (#[trigger] all[k]).0;
    assert(all.contains(f[m]));
    let q = choose|q: int| 0 <= q < all.len() && all[q] == f[m];
    assert(all[q].1 == node_style(a, rules, all[q].0));
    assert(f[m] == x);
}

} // verus!
