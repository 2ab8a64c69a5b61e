//! Styles read from each element's inline `style` attribute, as a tree that
//! follows the document.
use vstd::prelude::*;
use vstd::string::StringSliceAdditionalSpecFns;
use crate::text::{str_chars, chars_to_string, slice_chars, trimmed, trim_slice};
use crate::hb_html::tokenizer::{find_char_from, string_pairs_view};
use crate::hb_css::parser::Px;
use crate::hb_core::dom_types::{Dom, NodeId, NodeKind, NodeView, KindView, forest_ok, lowercase_spec};
use crate::hb_core::float_text::{f32_lit, clamp_font_text, font_size_text};
use crate::hb_html::tree_builder::attr_lookup;

verus! {

#[derive(Debug, Clone, Copy, PartialEq, Eq, Structural)]
pub enum Display {
    Block,
    Inline,
    Hidden,
}

/// A node's style; the font size is the text of an `f32` in CSS pixels.
#[derive(Debug, Clone)]
pub struct Style {
    pub display: Display,
    pub color: Option<[u8; 4]>,
    pub background: Option<[u8; 4]>,
    pub font_size: Px,
}

pub struct StyleView {
    pub display: Display,
    pub color: Option<Seq<u8>>,
    pub background: Option<Seq<u8>>,
    pub font_size: Seq<char>,
}

pub open spec fn rgba_view(o: Option<[u8; 4]>) -> Option<Seq<u8>> {
    match o {
        Some(a) => Some(a@),
        None => None,
    }
}

impl View for Style {
    type V = StyleView;

    open spec fn view(&self) -> StyleView {
        StyleView {
            display: self.display,
            color: rgba_view(self.color),
            background: rgba_view(self.background),
            font_size: self.font_size.text@,
        }
    }
}

/// Block display, no colors, 16px.
pub open spec fn default_style() -> StyleView {
    StyleView { display: Display::Block, color: None, background: None, font_size: seq!['1', '6'] }
}

impl Default for Style {
    fn default() -> (r: Self)
        ensures
            r@ == default_style(),
    {
        Style {
            display: Display::Block,
            color: None,
            background: None,
            font_size: Px { text: chars_to_string(&vec!['1', '6']) },
        }
    }
}

// ---------------------------------------------------------------------------
// Colors.
// ---------------------------------------------------------------------------
pub open spec fn hex_val(b: u8) -> Option<u8> {
    if 0x30 <= b <= 0x39 {
        Some((b - 0x30) as u8)
    } else if 0x61 <= b <= 0x66 {
        Some((b - 0x61 + 10) as u8)
    } else if 0x41 <= b <= 0x46 {
        Some((b - 0x41 + 10) as u8)
    } else {
        None
    }
}

/// `u8::from_str_radix(s, 16)` for a two-byte `s`: an optional `+` and hex
/// digits.
pub open spec fn radix16_pair(x: u8, y: u8) -> Option<u8> {
    if x == 0x2B {
        hex_val(y)
    } else {
        match (hex_val(x), hex_val(y)) {
            (Some(a), Some(b)) => Some((16 * a + b) as u8),
            _ => None,
        }
    }
}

/// A `#rrggbb` color: `None` when reading it would panic (slicing the six
/// bytes after `#` in two-byte steps at an offset inside a character);
/// otherwise the color, or nothing when the text is not one.
pub open spec fn parse_color_spec(v: Seq<char>) -> Option<Option<Seq<u8>>> {
    let vv = trimmed(v);
    if vv.len() > 0 && vv[0] == '#' {
        let hb = vstd::utf8::encode_utf8(vv.subrange(1, vv.len() as int));
        if hb.len() != 6 {
            Some(None)
        } else if !vstd::utf8::is_char_boundary(hb, 2) {
            None
        } else {
            match radix16_pair(hb[0], hb[1]) {
                None => Some(None),
                Some(r) => if !vstd::utf8::is_char_boundary(hb, 4) {
                    None
                } else {
                    match (radix16_pair(hb[2], hb[3]), radix16_pair(hb[4], hb[5])) {
                        (Some(g), Some(b)) => Some(Some(seq![r, g, b, 255u8])),
                        _ => Some(None),
                    }
                },
            }
        }
    } else {
        Some(None)
    }
}

fn hex_digit(b: u8) -> (r: Option<u8>)
    ensures
        r == hex_val(b),
{
    if 0x30 <= b && b <= 0x39 {
        Some(b - 0x30)
    } else if 0x61 <= b && b <= 0x66 {
        Some(b - 0x61 + 10)
    } else if 0x41 <= b && b <= 0x46 {
        Some(b - 0x41 + 10)
    } else {
        None
    }
}

fn radix16(x: u8, y: u8) -> (r: Option<u8>)
    ensures
        r == radix16_pair(x, y),
{
    if x == 0x2B {
        hex_digit(y)
    } else {
        match (hex_digit(x), hex_digit(y)) {
            (Some(a), Some(b)) => Some(16 * a + b),
            _ => None,
        }
    }
}

fn parse_color(v: &Vec<char>) -> (r: Option<Option<[u8; 4]>>)
    ensures
        match parse_color_spec(v@) {
            None => r is None,
            Some(c) => r matches Some(x) && rgba_view(x) == c,
        },
{
    let vv = trim_slice(v, 0, v.len());
    assert(v@.subrange(0, v@.len() as int) =~= v@);
    if vv.len() > 0 && vv[0] == '#' {
        let hex = chars_to_string(&slice_chars(&vv, 1, vv.len()));
        let hs = hex.as_str();
        let hb = hs.as_bytes();
        assert(hb@ == vstd::utf8::encode_utf8(vv@.subrange(1, vv@.len() as int)));
        if hb.len() != 6 {
            return Some(None);
        }
        if !hs.is_char_boundary(2) {
            return None;
        }
        match radix16(hb[0], hb[1]) {
            None => Some(None),
            Some(r) => {
                if !hs.is_char_boundary(4) {
                    return None;
                }
                match (radix16(hb[2], hb[3]), radix16(hb[4], hb[5])) {
                    (Some(g), Some(b)) => {
                        let c: [u8; 4] = [r, g, b, 255];
                        assert(c@ =~= seq![r, g, b, 255u8]);
                        Some(Some(c))
                    },
                    _ => Some(None),
                }
            },
        }
    } else {
        Some(None)
    }
}

// ---------------------------------------------------------------------------
// Declarations of the `style` attribute.
// ---------------------------------------------------------------------------
pub open spec fn with_display(st: StyleView, d: Display) -> StyleView {
    StyleView { display: d, color: st.color, background: st.background, font_size: st.font_size }
}

pub open spec fn with_color(st: StyleView, c: Option<Seq<u8>>) -> StyleView {
    StyleView { display: st.display, color: c, background: st.background, font_size: st.font_size }
}

pub open spec fn with_background(st: StyleView, c: Option<Seq<u8>>) -> StyleView {
    StyleView { display: st.display, color: st.color, background: c, font_size: st.font_size }
}

pub open spec fn with_font_size(st: StyleView, t: Seq<char>) -> StyleView {
    StyleView { display: st.display, color: st.color, background: st.background, font_size: t }
}

/// `none` and `inline` name themselves (exactly); anything else is block.
pub open spec fn display_value(v: Seq<char>) -> Display {
    if v == seq!['n', 'o', 'n', 'e'] {
        Display::Hidden
    } else if v == seq!['i', 'n', 'l', 'i', 'n', 'e'] {
        Display::Inline
    } else {
        Display::Block
    }
}

pub open spec fn ends_with_px(v: Seq<char>) -> bool {
    v.len() >= 2 && v[v.len() - 2] == 'p' && v[v.len() - 1] == 'x'
}

/// One declaration `name: value` (the name trimmed and lowercased, the value
/// trimmed): `display`, `color`, `background`/`background-color` and
/// `font-size` (a number of `px`, clamped to 8..64; kept as it was when the
/// number does not read) change the style; other names change nothing.
/// `None` when reading a color would panic.
pub open spec fn decl_effect(d: Seq<char>, st: StyleView) -> Option<StyleView> {
    let colon = find_char_from(d, 0, ':');
    let k = lowercase_spec(trimmed(d.subrange(0, colon)));
    let v = if colon < d.len() {
        trimmed(d.subrange(colon + 1, d.len() as int))
    } else {
        Seq::empty()
    };
    if k == seq!['d', 'i', 's', 'p', 'l', 'a', 'y'] {
        Some(with_display(st, display_value(v)))
    } else if k == seq!['c', 'o', 'l', 'o', 'r'] {
        match parse_color_spec(v) {
            None => None,
            Some(c) => Some(with_color(st, c)),
        }
    } else if k == seq!['b', 'a', 'c', 'k', 'g', 'r', 'o', 'u', 'n', 'd'] || k == seq![
        'b',
        'a',
        'c',
        'k',
        'g',
        'r',
        'o',
        'u',
        'n',
        'd',
        '-',
        'c',
        'o',
        'l',
        'o',
        'r',
    ] {
        match parse_color_spec(v) {
            None => None,
            Some(c) => Some(with_background(st, c)),
        }
    } else if k == seq!['f', 'o', 'n', 't', '-', 's', 'i', 'z', 'e'] && ends_with_px(v) {
        let px = trimmed(v.subrange(0, v.len() - 2));
        match f32_lit(px) {
            Some(lit) => Some(with_font_size(st, clamp_font_text(px, lit))),
            None => Some(st),
        }
    } else {
        Some(st)
    }
}

/// The declarations separated by `;` from index `i` on.
pub open spec fn decls_from(s: Seq<char>, i: int, st: StyleView) -> Option<StyleView>
    decreases s.len() - i,
{
    if i < 0 || i > s.len() {
        None
    } else {
        let e = find_char_from(s, i, ';');
        match decl_effect(s.subrange(i, e), st) {
            None => None,
            Some(st2) => if e >= s.len() {
                Some(st2)
            } else {
                proof {
                    crate::hb_html::tokenizer::lemma_find_char_bounds(s, i, ';');
                }
                decls_from(s, e + 1, st2)
            },
        }
    }
}

pub open spec fn style_word() -> Seq<char> {
    seq!['s', 't', 'y', 'l', 'e']
}

/// The style an element's attributes give: its `style` attribute's
/// declarations in order, from the defaults.
pub open spec fn style_attrs_spec(attrs: Seq<(Seq<char>, Seq<char>)>) -> Option<StyleView> {
    match attr_lookup(attrs, style_word()) {
        None => Some(default_style()),
        Some(s) => decls_from(s, 0, default_style()),
    }
}

fn apply_decl(v: &Vec<char>, a: usize, b: usize, st: &mut Style) -> (ok: bool)
    requires
        a <= b <= v@.len(),
    ensures
        match decl_effect(v@.subrange(a as int, b as int), old(st)@) {
            None => !ok,
            Some(s2) => ok && final(st)@ == s2,
        },
{
    let ghost d = v@.subrange(a as int, b as int);
    let mut colon: usize = a;
    while colon < b && v[colon] != ':'
        invariant
            a <= colon <= b <= v@.len(),
            forall|m: int| a <= m < colon ==> v@[m] != ':',
        decreases b - colon,
    {
        colon = colon + 1;
    }
    proof {
        assert forall|m: int| 0 <= m < colon - a implies d[m] != ':' by {
            assert(d[m] == v@[a + m]);
        }
        crate::hb_core::dom_types::lemma_find_char_at(d, 0, colon - a, ':');
        assert(d.subrange(0, colon - a) =~= v@.subrange(a as int, colon as int));
        if colon < b {
            assert(d.subrange(colon - a + 1, d.len() as int) =~= v@.subrange(colon + 1, b as int));
        }
    }
    let kt = trim_slice(v, a, colon);
    let k = crate::hb_core::dom_types::lowercase_chars(&kt);
    let val: Vec<char> = if colon < b {
        trim_slice(v, colon + 1, b)
    } else {
        Vec::new()
    };
    if crate::text::chars_eq_lit(&k, &['d', 'i', 's', 'p', 'l', 'a', 'y']) {
        st.display = if crate::text::chars_eq_lit(&val, &['n', 'o', 'n', 'e']) {
            Display::Hidden
        } else if crate::text::chars_eq_lit(&val, &['i', 'n', 'l', 'i', 'n', 'e']) {
            Display::Inline
        } else {
            Display::Block
        };
        true
    } else if crate::text::chars_eq_lit(&k, &['c', 'o', 'l', 'o', 'r']) {
        match parse_color(&val) {
            None => false,
            Some(c) => {
                st.color = c;
                true
            },
        }
    } else if crate::text::chars_eq_lit(&k, &['b', 'a', 'c', 'k', 'g', 'r', 'o', 'u', 'n', 'd'])
        || crate::text::chars_eq_lit(
        &k,
        &['b', 'a', 'c', 'k', 'g', 'r', 'o', 'u', 'n', 'd', '-', 'c', 'o', 'l', 'o', 'r'],
    ) {
        match parse_color(&val) {
            None => false,
            Some(c) => {
                st.background = c;
                true
            },
        }
    } else if crate::text::chars_eq_lit(&k, &['f', 'o', 'n', 't', '-', 's', 'i', 'z', 'e'])
        && val.len() >= 2 && val[val.len() - 2] == 'p' && val[val.len() - 1] == 'x' {
        let px = trim_slice(&val, 0, val.len() - 2);
        match font_size_text(&px) {
            Some(t) => {
                st.font_size = Px { text: chars_to_string(&t) };
                true
            },
            None => true,
        }
    } else {
        true
    }
}

fn style_from_attrs(attrs: &Vec<(String, String)>) -> (r: Option<Style>)
    ensures
        match style_attrs_spec(string_pairs_view(attrs@)) {
            None => r is None,
            Some(sv) => r matches Some(s) && s@ == sv,
        },
{
    let mut s = Style::default();
    proof {
        assert(seq!['s', 't', 'y', 'l', 'e'] =~= style_word());
    }
    let inline = match crate::styling::lookup_attr(attrs, &['s', 't', 'y', 'l', 'e']) {
        None => {
            return Some(s);
        },
        Some(x) => x,
    };
    let v = str_chars(inline.as_str());
    assert(attr_lookup(string_pairs_view(attrs@), style_word()) == Some(v@));
    let mut i: usize = 0;
    loop
        invariant
            i <= v@.len(),
            style_attrs_spec(string_pairs_view(attrs@)) == decls_from(v@, 0, default_style()),
            decls_from(v@, 0, default_style()) == decls_from(v@, i as int, s@),
        decreases v@.len() - i,
    {
        let mut e: usize = i;
        while e < v.len() && v[e] != ';'
            invariant
                i <= e <= v@.len(),
                crate::hb_html::tokenizer::find_char_from(v@, e as int, ';')
                    == crate::hb_html::tokenizer::find_char_from(v@, i as int, ';'),
            decreases v.len() - e,
        {
            e = e + 1;
        }
        if !apply_decl(&v, i, e, &mut s) {
            return None;
        }
        if e >= v.len() {
            return Some(s);
        }
        i = e + 1;
    }
}

// ---------------------------------------------------------------------------
// The styled tree.
// ---------------------------------------------------------------------------
#[derive(Debug)]
pub struct StyledNode {
    pub node: NodeId,
    pub style: Style,
    pub children: Vec<StyledNode>,
}

pub struct StyledView {
    pub node: NodeId,
    pub style: StyleView,
    pub children: Seq<StyledView>,
}

pub open spec fn leaf_view(n: NodeId) -> StyledView {
    StyledView { node: n, style: default_style(), children: Seq::empty() }
}

/// The view of a styled tree: the node, its style's view, the children's views.
pub open spec fn styled_view(n: StyledNode) -> StyledView
    decreases n,
{
    StyledView {
        node: n.node,
        style: n.style@,
        children: Seq::new(
            n.children@.len(),
            |i: int|
                {
                    if 0 <= i < n.children@.len() {
                        proof {
                            assert(decreases_to!(n => n.children@[i]));
                        }
                        styled_view(n.children@[i])
                    } else {
                        leaf_view(n.node)
                    }
                },
        ),
    }
}

impl View for StyledNode {
    type V = StyledView;

    open spec fn view(&self) -> StyledView {
        styled_view(*self)
    }
}

/// The style of one node: an element's from its attributes (`None` when
/// reading it would panic), the defaults for any other node.
pub open spec fn node_style_spec(n: NodeView) -> Option<StyleView> {
    match n.kind {
        KindView::Element { attrs, .. } => style_attrs_spec(attrs),
        _ => Some(default_style()),
    }
}

pub open spec fn style_or_default(o: Option<StyleView>) -> StyleView {
    match o {
        Some(s) => s,
        None => default_style(),
    }
}

/// Every child index names a node of `d`, and `rank` falls from each node
/// to each of its children.
pub open spec fn ranked_by(d: Seq<NodeView>, rank: spec_fn(int) -> nat) -> bool {
    forall|i: int, k: int|
        0 <= i < d.len() && 0 <= k < (#[trigger] d[i]).children.len() ==> {
            let c = (#[trigger] d[i].children[k]).0 as int;
            &&& c < d.len()
            &&& rank(c) < rank(i)
        }
}

/// The child lists of `d` name nodes of `d` and never lead back to a node
/// already passed: some rank falls along every child link.
pub open spec fn acyclic_tree(d: Seq<NodeView>) -> bool {
    exists|rank: spec_fn(int) -> nat| ranked_by(d, rank)
}

/// A document whose children all come after their parents (as the reader
/// builds it) is an acyclic tree.
pub proof fn lemma_forest_acyclic(d: Seq<NodeView>)
    requires
        forest_ok(d),
    ensures
        acyclic_tree(d),
{
    let rank = |i: int| (d.len() - i) as nat;
    assert(ranked_by(d, rank));
}

/// A rank that falls along the child links, where there is one.
pub open spec fn tree_rank(d: Seq<NodeView>) -> spec_fn(int) -> nat {
    choose|rank: spec_fn(int) -> nat| ranked_by(d, rank)
}

/// Whether child `c` of the node at index `parent` is followed: it names a
/// node and lies below its parent in the tree's rank (always so in an
/// acyclic tree).
pub open spec fn followed(d: Seq<NodeView>, parent: int, c: NodeId) -> bool {
    c.0 < d.len() && tree_rank(d)(c.0 as int) < tree_rank(d)(parent)
}

/// The styled tree under node `id`: its style, then the trees under its
/// children in order.
pub open spec fn styled_spec(d: Seq<NodeView>, id: NodeId) -> StyledView
    decreases tree_rank(d)(id.0 as int), 1nat, 0nat,
{
    StyledView {
        node: id,
        style: style_or_default(node_style_spec(d[id.0 as int])),
        children: styled_list(d, d[id.0 as int].children, id.0 as int),
    }
}

/// The trees under `cs`, children of a node at index `bound`.
pub open spec fn styled_list(d: Seq<NodeView>, cs: Seq<NodeId>, bound: int) -> Seq<StyledView>
    decreases tree_rank(d)(bound), 0nat, cs.len(),
{
    if cs.len() == 0 {
        Seq::empty()
    } else {
        let init = styled_list(d, cs.drop_last(), bound);
        let c = cs.last();
        if followed(d, bound, c) {
            init.push(styled_spec(d, c))
        } else {
            init.push(leaf_view(c))
        }
    }
}

/// Reading every style under node `id` completes.
pub open spec fn styles_read(d: Seq<NodeView>, id: NodeId) -> bool
    decreases tree_rank(d)(id.0 as int), 1nat, 0nat,
{
    &&& node_style_spec(d[id.0 as int]) is Some
    &&& styles_read_list(d, d[id.0 as int].children, id.0 as int)
}

pub open spec fn styles_read_list(d: Seq<NodeView>, cs: Seq<NodeId>, bound: int) -> bool
    decreases tree_rank(d)(bound), 0nat, cs.len(),
{
    if cs.len() == 0 {
        true
    } else {
        let c = cs.last();
        &&& styles_read_list(d, cs.drop_last(), bound)
        &&& (followed(d, bound, c) ==> styles_read(d, c))
    }
}

pub open spec fn kids_view(v: Seq<StyledNode>) -> Seq<StyledView> {
    Seq::new(v.len(), |i: int| v[i]@)
}

proof fn lemma_read_list_prefix(d: Seq<NodeView>, cs: Seq<NodeId>, bound: int, j: int)
    requires
        0 <= j <= cs.len(),
        styles_read_list(d, cs, bound),
    ensures
        styles_read_list(d, cs.take(j), bound),
    decreases cs.len(),
{
    if j == cs.len() {
        assert(cs.take(j) =~= cs);
    } else {
        lemma_read_list_prefix(d, cs.drop_last(), bound, j);
        assert(cs.drop_last().take(j) =~= cs.take(j));
    }
}

fn build(dom: &Dom, id: NodeId) -> (r: Option<StyledNode>)
    requires
        acyclic_tree(dom@),
        id.0 < dom@.len(),
    ensures
        match r {
            Some(t) => styles_read(dom@, id) && t@ == styled_spec(dom@, id),
            None => !styles_read(dom@, id),
        },
    decreases tree_rank(dom@)(id.0 as int),
{
    proof {
        let rank = choose|rank: spec_fn(int) -> nat| ranked_by(dom@, rank);
        assert(ranked_by(dom@, rank));
    }
    let node = &dom.nodes[id.0 as usize];
    assert(dom@[id.0 as int] == node@);
    let style = match &node.kind {
        NodeKind::Element(ed) => match style_from_attrs(&ed.attrs) {
            Some(s) => s,
            None => {
                return None;
            },
        },
        _ => Style::default(),
    };
    let ghost cs = node.children@;
    let mut kids: Vec<StyledNode> = Vec::new();
    let mut k: usize = 0;
    while k < node.children.len()
        invariant
            k <= cs.len(),
            cs == node.children@,
            cs == dom@[id.0 as int].children,
            acyclic_tree(dom@),
            ranked_by(dom@, tree_rank(dom@)),
            id.0 < dom@.len(),
            kids_view(kids@) == styled_list(dom@, cs.take(k as int), id.0 as int),
            styles_read_list(dom@, cs.take(k as int), id.0 as int),
        decreases node.children.len() - k,
    {
        let c = node.children[k];
        assert(cs.take(k + 1).drop_last() =~= cs.take(k as int));
        assert(cs.take(k + 1).last() == c);
        assert(cs[k as int] == c);
        assert(followed(dom@, id.0 as int, c));
        match build(dom, c) {
            None => {
                proof {
                    if styles_read_list(dom@, cs, id.0 as int) {
                        lemma_read_list_prefix(dom@, cs, id.0 as int, k + 1);
                    }
                }
                return None;
            },
            Some(t) => {
                kids.push(t);
                assert(kids_view(kids@) =~= styled_list(dom@, cs.take(k + 1), id.0 as int));
            },
        }
        k = k + 1;
    }
    assert(cs.take(cs.len() as int) =~= cs);
    let ghost kv = kids@;
    let r = StyledNode { node: id, style, children: kids };
    assert(r.children@ == kv);
    assert(r@.children.len() == kv.len());
    assert forall|i: int| 0 <= i < kv.len() implies r@.children[i] == kids_view(kv)[i] by {
        assert(r.children@[i] == kv[i]);
    }
    assert(r@.children =~= kids_view(kv));
    Some(r)
}

/// Whether reading the styles of the whole tree completes (reading a color
/// such as `#a\u{e9}123`, whose six bytes are sliced inside a character,
/// panics).
pub fn style_tree_reads(dom: &Dom) -> (r: bool)
    requires
        acyclic_tree(dom@),
        dom.root.0 < dom@.len(),
    ensures
        r == styles_read(dom@, dom.root),
{
    match build(dom, dom.root) {
        Some(_) => true,
        None => false,
    }
}

/// The styled tree of a document: every node under the root with the style
/// of its inline `style` attribute (the defaults for other nodes).
pub fn style_tree(dom: &Dom) -> (r: StyledNode)
    requires
        acyclic_tree(dom@),
        dom.root.0 < dom@.len(),
        styles_read(dom@, dom.root),
    ensures
        r@ == styled_spec(dom@, dom.root),
{
    match build(dom, dom.root) {
        Some(t) => t,
        None => StyledNode { node: dom.root, style: Style::default(), children: Vec::new() },
    }
}

/// The styled tree where reading every style completes, else `None`.
pub fn try_style_tree(dom: &Dom) -> (r: Option<StyledNode>)
    requires
        acyclic_tree(dom@),
        dom.root.0 < dom@.len(),
    ensures
        if styles_read(dom@, dom.root) {
            r matches Some(t) && t@ == styled_spec(dom@, dom.root)
        } else {
            r is None
        },
{
    if style_tree_reads(dom) {
        Some(style_tree(dom))
    } else {
        None
    }
}

} // verus!
