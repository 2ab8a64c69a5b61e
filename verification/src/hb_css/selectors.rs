//! Selectors: compound selectors (`tag#id.class`) joined by descendant or
//! child combinators, their specificity, and matching against a document.
use vstd::prelude::*;
use crate::text::{is_ws, is_whitespace, lower_char, to_lower_char, str_chars, chars_to_string, trim_range, trim_indices, slice_chars};
use crate::hb_html::tokenizer::find_char_from;

verus! {

#[derive(Debug, Clone, Copy, PartialEq, Eq, Structural)]
pub struct Specificity(pub u32, pub u32, pub u32);

#[derive(Debug, Clone, Copy, PartialEq, Eq, Structural)]
pub enum Combinator {
    Descendant,
    Child,
}

/// `tag`, `id` and a set of classes (kept sorted, each once).
#[derive(Debug, Clone, PartialEq, Eq)]
pub struct SimpleSelector {
    pub tag: Option<String>,
    pub id: Option<String>,
    pub classes: Vec<String>,
}

#[derive(Debug, Clone, PartialEq, Eq)]
pub struct SelectorPart {
    pub comb: Option<Combinator>,
    pub simple: SimpleSelector,
}

/// The compounds of a selector, rightmost first.
#[derive(Debug, Clone, PartialEq, Eq)]
pub struct Selector {
    pub parts: Vec<SelectorPart>,
}

pub struct SimpleView {
    pub tag: Option<Seq<char>>,
    pub id: Option<Seq<char>>,
    pub classes: Seq<Seq<char>>,
}

pub struct PartView {
    pub comb: Option<Combinator>,
    pub simple: SimpleView,
}

pub open spec fn opt_string_view(o: Option<String>) -> Option<Seq<char>> {
    match o {
        Some(s) => Some(s@),
        None => None,
    }
}

pub open spec fn strings_view(v: Seq<String>) -> Seq<Seq<char>> {
    v.map_values(|s: String| s@)
}

impl View for SimpleSelector {
    type V = SimpleView;

    open spec fn view(&self) -> SimpleView {
        SimpleView {
            tag: opt_string_view(self.tag),
            id: opt_string_view(self.id),
            classes: strings_view(self.classes@),
        }
    }
}

impl View for SelectorPart {
    type V = PartView;

    open spec fn view(&self) -> PartView {
        PartView { comb: self.comb, simple: self.simple@ }
    }
}

pub open spec fn parts_view(v: Seq<SelectorPart>) -> Seq<PartView> {
    v.map_values(|p: SelectorPart| p@)
}

impl View for Selector {
    type V = Seq<PartView>;

    open spec fn view(&self) -> Seq<PartView> {
        parts_view(self.parts@)
    }
}

pub open spec fn selectors_view(v: Seq<Selector>) -> Seq<Seq<PartView>> {
    v.map_values(|s: Selector| s@)
}

// ---------------------------------------------------------------------------
// Specificity.
// ---------------------------------------------------------------------------
/// `(ids, classes, tags)` of one compound; the class count is taken as a `u32`.
pub open spec fn simple_specificity(s: SimpleView) -> Specificity {
    Specificity(
        if s.id is Some {
            1
        } else {
            0
        },
        s.classes.len() as u32,
        if s.tag is Some {
            1
        } else {
            0
        },
    )
}

/// Component-wise sums of the compounds' specificities, as integers.
pub open spec fn specificity_sum(parts: Seq<PartView>) -> (int, int, int)
    decreases parts.len(),
{
    if parts.len() == 0 {
        (0, 0, 0)
    } else {
        let (a, b, c) = specificity_sum(parts.drop_last());
        let s = simple_specificity(parts.last().simple);
        (a + s.0, b + s.1, c + s.2)
    }
}

pub open spec fn specificity_fits(parts: Seq<PartView>) -> bool {
    let (a, b, c) = specificity_sum(parts);
    a <= u32::MAX && b <= u32::MAX && c <= u32::MAX
}

pub proof fn lemma_specificity_sum_monotone(parts: Seq<PartView>, k: int)
    requires
        0 <= k <= parts.len(),
    ensures
        ({
            let (a, b, c) = specificity_sum(parts.take(k));
            let (a2, b2, c2) = specificity_sum(parts);
            0 <= a <= a2 && 0 <= b <= b2 && 0 <= c <= c2
        }),
    decreases parts.len() - k,
{
    if k < parts.len() {
        lemma_specificity_sum_monotone(parts, k + 1);
        lemma_specificity_sum_nonneg(parts.take(k));
        assert(parts.take(k + 1).drop_last() =~= parts.take(k));
        assert(parts.take(k + 1).len() > 0);
    } else {
        assert(parts.take(k) =~= parts);
        lemma_specificity_sum_nonneg(parts);
    }
}

pub proof fn lemma_specificity_sum_nonneg(parts: Seq<PartView>)
    ensures
        specificity_sum(parts).0 >= 0 && specificity_sum(parts).1 >= 0 && specificity_sum(
            parts,
        ).2 >= 0,
    decreases parts.len(),
{
    if parts.len() > 0 {
        lemma_specificity_sum_nonneg(parts.drop_last());
    }
}

impl SimpleSelector {
    pub fn specificity(&self) -> (r: Specificity)
        ensures
            r == simple_specificity(self@),
    {
        let a: u32 = if self.id.is_some() {
            1
        } else {
            0
        };
        let b: u32 = self.classes.len() as u32;
        let c: u32 = if self.tag.is_some() {
            1
        } else {
            0
        };
        Specificity(a, b, c)
    }
}

impl Selector {
    /// The sum of the compounds' specificities.
    pub fn specificity(&self) -> (r: Specificity)
        requires
            specificity_fits(self@),
        ensures
            (r.0 as int, r.1 as int, r.2 as int) == specificity_sum(self@),
    {
        let mut acc = Specificity(0, 0, 0);
        let mut k: usize = 0;
        while k < self.parts.len()
            invariant
                k <= self@.len(),
                self@.len() == self.parts@.len(),
                specificity_fits(self@),
                (acc.0 as int, acc.1 as int, acc.2 as int) == specificity_sum(self@.take(k as int)),
            decreases self.parts.len() - k,
        {
            proof {
                lemma_specificity_sum_monotone(self@, k + 1);
                assert(self@.take(k + 1).drop_last() =~= self@.take(k as int));
            }
            let s = self.parts[k].simple.specificity();
            acc = Specificity(acc.0 + s.0, acc.1 + s.1, acc.2 + s.2);
            k = k + 1;
        }
        assert(self@.take(self@.len() as int) =~= self@);
        acc
    }
}

// ---------------------------------------------------------------------------
// Parsing.
// ---------------------------------------------------------------------------
/// Mode of the compound scanner: reading the tag, an id, or a class.
pub enum Mode {
    Tag,
    Id,
    Class,
}

/// State of the compound scanner after a prefix: tag found so far, buffer,
/// and mode.
pub open spec fn simple_state(cs: Seq<char>) -> (Option<Seq<char>>, Seq<char>, Mode)
    decreases cs.len(),
{
    if cs.len() == 0 {
        (None, Seq::empty(), Mode::Tag)
    } else {
        let (tag, buf, mode) = simple_state(cs.drop_last());
        let ch = cs.last();
        if ch == '#' || ch == '.' {
            (
                if buf.len() > 0 && tag is None {
                    Some(buf)
                } else {
                    tag
                },
                Seq::empty(),
                if ch == '#' {
                    Mode::Id
                } else {
                    Mode::Class
                },
            )
        } else {
            (tag, buf.push(lower_char(ch)), mode)
        }
    }
}

/// A compound such as `div`, `#app`, `.wrap` or `div.wrap`: a leading `*` is
/// dropped; text before the first `#` or `.` is the tag; what follows the
/// last `#` or `.` is the id or the class; text between markers is dropped.
pub open spec fn parse_simple_spec(chunk: Seq<char>) -> SimpleView {
    let cs = if chunk.len() > 0 && chunk[0] == '*' {
        chunk.drop_first()
    } else {
        chunk
    };
    let (tag, buf, mode) = simple_state(cs);
    match mode {
        Mode::Id => SimpleView {
            tag,
            id: if buf.len() > 0 {
                Some(buf)
            } else {
                None
            },
            classes: Seq::empty(),
        },
        Mode::Class => SimpleView {
            tag,
            id: None,
            classes: if buf.len() > 0 {
                seq![buf]
            } else {
                Seq::empty()
            },
        },
        Mode::Tag => SimpleView {
            tag: if buf.len() > 0 {
                Some(buf)
            } else {
                tag
            },
            id: None,
            classes: Seq::empty(),
        },
    }
}

fn parse_simple(chunk: &Vec<char>) -> (r: SimpleSelector)
    ensures
        r@ == parse_simple_spec(chunk@),
{
    let ghost cs = if chunk@.len() > 0 && chunk@[0] == '*' {
        chunk@.drop_first()
    } else {
        chunk@
    };
    let mut tag: Option<Vec<char>> = None;
    let mut buf: Vec<char> = Vec::new();
    let mut mode: u8 = 0;
    let start: usize = if chunk.len() > 0 && chunk[0] == '*' {
        1
    } else {
        0
    };
    let mut k: usize = start;
    while k < chunk.len()
        invariant
            start <= k <= chunk@.len(),
            cs == chunk@.subrange(start as int, chunk@.len() as int),
            ({
                let (t, b, m) = simple_state(cs.take(k - start));
                &&& match tag {
                    Some(v) => t == Some(v@),
                    None => t is None,
                }
                &&& b == buf@
                &&& m == (if mode == 0 {
                    Mode::Tag
                } else if mode == 1 {
                    Mode::Id
                } else {
                    Mode::Class
                })
            }),
            mode <= 2,
        decreases chunk.len() - k,
    {
        let ch = chunk[k];
        proof {
            assert(cs.take(k + 1 - start).drop_last() =~= cs.take(k - start));
            assert(cs.take(k + 1 - start).last() == ch);
        }
        if ch == '#' || ch == '.' {
            if buf.len() > 0 && tag.is_none() {
                tag = Some(buf);
            }
            buf = Vec::new();
            mode = if ch == '#' {
                1
            } else {
                2
            };
        } else {
            buf.push(to_lower_char(ch));
        }
        k = k + 1;
    }
    assert(cs.take(chunk@.len() - start) =~= cs);
    let ghost fin = simple_state(cs);
    let tag_s: Option<String> = match tag {
        Some(v) => Some(chars_to_string(&v)),
        None => None,
    };
    assert(opt_string_view(tag_s) == fin.0);
    assert(buf@ == fin.1);
    assert(parse_simple_spec(chunk@) == (match fin.2 {
        Mode::Id => SimpleView {
            tag: fin.0,
            id: if fin.1.len() > 0 { Some(fin.1) } else { None },
            classes: Seq::empty(),
        },
        Mode::Class => SimpleView {
            tag: fin.0,
            id: None,
            classes: if fin.1.len() > 0 { seq![fin.1] } else { Seq::empty() },
        },
        Mode::Tag => SimpleView {
            tag: if fin.1.len() > 0 { Some(fin.1) } else { fin.0 },
            id: None,
            classes: Seq::empty(),
        },
    }));
    assert(strings_view(Seq::<String>::empty()) =~= Seq::<Seq<char>>::empty());
    if mode == 1 {
        let id = if buf.len() > 0 {
            Some(chars_to_string(&buf))
        } else {
            None
        };
        SimpleSelector { tag: tag_s, id, classes: Vec::new() }
    } else if mode == 2 {
        let mut classes: Vec<String> = Vec::new();
        if buf.len() > 0 {
            classes.push(chars_to_string(&buf));
        }
        assert(strings_view(classes@) =~= (if buf@.len() > 0 {
            seq![buf@]
        } else {
            Seq::empty()
        }));
        SimpleSelector { tag: tag_s, id: None, classes }
    } else {
        let t = if buf.len() > 0 {
            Some(chars_to_string(&buf))
        } else {
            tag_s
        };
        assert(strings_view(Seq::<String>::empty()) =~= Seq::<Seq<char>>::empty());
        SimpleSelector { tag: t, id: None, classes: Vec::new() }
    }
}

/// State of the selector scanner after a prefix of its chars: compounds
/// found (leftmost first), the word being read, and whether a `>` came
/// since the last compound.
pub open spec fn selector_state(cs: Seq<char>) -> (Seq<PartView>, Seq<char>, bool)
    decreases cs.len(),
{
    if cs.len() == 0 {
        (Seq::empty(), Seq::empty(), false)
    } else {
        let (parts, word, gt) = selector_state(cs.drop_last());
        let c = cs.last();
        if is_ws(c) || c == '>' {
            let (parts2, gt2) = end_word(parts, word, gt);
            (parts2, Seq::empty(), gt2 || c == '>')
        } else {
            (parts, word.push(c), gt)
        }
    }
}

/// Closes the word being read: a non-empty word becomes a compound, tied by
/// a child combinator when a `>` preceded it.
pub open spec fn end_word(parts: Seq<PartView>, word: Seq<char>, gt: bool) -> (Seq<PartView>, bool) {
    if word.len() == 0 {
        (parts, gt)
    } else {
        (
            parts.push(
                PartView {
                    comb: if gt {
                        Some(Combinator::Child)
                    } else {
                        None
                    },
                    simple: parse_simple_spec(word),
                },
            ),
            false,
        )
    }
}

/// A complex selector read from `cs`, where each char stands for one byte of
/// the selector's UTF-8 text: the words between whitespace and `>` are the
/// compounds; a compound preceded by `>` carries the child combinator
/// (others carry none); the compounds are listed rightmost first.
pub open spec fn parse_selector_spec(cs: Seq<char>) -> Seq<PartView> {
    let (parts, word, gt) = selector_state(cs);
    end_word(parts, word, gt).0.reverse()
}

/// The bytes of `s`'s UTF-8 encoding, each read as a char.
pub open spec fn byte_chars(s: Seq<char>) -> Seq<char> {
    vstd::utf8::encode_utf8(s).map_values(|b: u8| b as char)
}

fn utf8_byte_chars(s: &Vec<char>) -> (r: Vec<char>)
    ensures
        r@ == byte_chars(s@),
{
    let st = chars_to_string(s);
    let bytes = st.as_str().as_bytes();
    let mut r: Vec<char> = Vec::new();
    let mut k: usize = 0;
    while k < bytes.len()
        invariant
            k <= bytes@.len(),
            bytes@ == vstd::utf8::encode_utf8(s@),
            r@ =~= bytes@.take(k as int).map_values(|b: u8| b as char),
        decreases bytes.len() - k,
    {
        r.push(bytes[k] as char);
        assert(bytes@.take(k + 1) =~= bytes@.take(k as int).push(bytes@[k as int]));
        k = k + 1;
    }
    assert(bytes@.take(bytes@.len() as int) =~= bytes@);
    r
}

fn push_word(parts: &mut Vec<SelectorPart>, word: &Vec<char>, gt: bool) -> (r: bool)
    ensures
        (parts_view(final(parts)@), r) == end_word(parts_view(old(parts)@), word@, gt),
{
    if word.len() == 0 {
        return gt;
    }
    let simple = parse_simple(word);
    let comb = if gt {
        Some(Combinator::Child)
    } else {
        None
    };
    let ghost pv = PartView { comb, simple: simple@ };
    parts.push(SelectorPart { comb, simple });
    assert(parts_view(parts@) =~= parts_view(old(parts)@).push(pv));
    false
}

/// Parses one complex selector from its text.
fn parse_selector(s: &Vec<char>) -> (r: Selector)
    ensures
        r@ == parse_selector_spec(byte_chars(s@)),
{
    let cs = utf8_byte_chars(s);
    let mut parts: Vec<SelectorPart> = Vec::new();
    let mut word: Vec<char> = Vec::new();
    let mut gt = false;
    let mut k: usize = 0;
    assert(parts_view(parts@) =~= Seq::empty());
    while k < cs.len()
        invariant
            k <= cs@.len(),
            (parts_view(parts@), word@, gt) == selector_state(cs@.take(k as int)),
        decreases cs.len() - k,
    {
        let c = cs[k];
        proof {
            assert(cs@.take(k + 1).drop_last() =~= cs@.take(k as int));
            assert(cs@.take(k + 1).last() == c);
        }
        if is_whitespace(c) || c == '>' {
            gt = push_word(&mut parts, &word, gt);
            word = Vec::new();
            gt = gt || c == '>';
        } else {
            word.push(c);
        }
        k = k + 1;
    }
    assert(cs@.take(cs@.len() as int) =~= cs@);
    push_word(&mut parts, &word, gt);
    let ghost fwd = parts_view(parts@);
    let mut rev: Vec<SelectorPart> = Vec::new();
    while parts.len() > 0
        invariant
            parts_view(parts@) =~= fwd.take(parts@.len() as int),
            parts_view(rev@) =~= fwd.skip(parts@.len() as int).reverse(),
            parts@.len() <= fwd.len(),
        decreases parts.len(),
    {
        let ghost before = parts@.len();
        let ghost oldp = parts@;
        let p = parts.pop().unwrap();
        proof {
            assert(parts_view(parts@) =~= fwd.take(parts@.len() as int));
            assert(p == oldp[before - 1]);
            assert(parts_view(oldp)[before - 1] == fwd[before - 1]);
        }
        rev.push(p);
        assert(fwd.skip(parts@.len() as int).reverse() =~= fwd.skip(before as int).reverse().push(fwd[parts@.len() as int]));
    }
    assert(fwd.skip(0) =~= fwd);
    Selector { parts: rev }
}

/// Selectors read from the text `s[i..]`: pieces between commas, trimmed;
/// empty pieces are skipped.
pub open spec fn selector_list_from(s: Seq<char>, i: int) -> Seq<Seq<PartView>>
    decreases s.len() - i,
{
    if i < 0 || i > s.len() {
        Seq::empty()
    } else {
        let k = find_char_from(s, i, ',');
        let (a, b) = trim_range(s, i, k);
        let here = if a < b {
            seq![parse_selector_spec(byte_chars(s.subrange(a, b)))]
        } else {
            Seq::empty()
        };
        if k < s.len() {
            proof {
                crate::hb_html::tokenizer::lemma_find_char_bounds(s, i, ',');
            }
            here + selector_list_from(s, k + 1)
        } else {
            here
        }
    }
}

pub open spec fn parse_selector_list_spec(src: Seq<char>) -> Seq<Seq<PartView>> {
    selector_list_from(src, 0)
}

pub fn parse_selector_list(src: &str) -> (r: Vec<Selector>)
    ensures
        selectors_view(r@) == parse_selector_list_spec(src@),
{
    let s = str_chars(src);
    let mut out: Vec<Selector> = Vec::new();
    let mut i: usize = 0;
    assert(selectors_view(out@) =~= Seq::empty());
    loop
        invariant_except_break
            i <= s@.len(),
            selectors_view(out@) + selector_list_from(s@, i as int) == selector_list_from(s@, 0),
        ensures
            selectors_view(out@) == selector_list_from(s@, 0),
        decreases s@.len() - i,
    {
        let mut k: usize = i;
        while k < s.len() && s[k] != ','
            invariant
                i <= k <= s@.len(),
                find_char_from(s@, k as int, ',') == find_char_from(s@, i as int, ','),
            decreases s.len() - k,
        {
            k = k + 1;
        }
        let (a, b) = trim_indices(&s, i, k);
        let ghost before = selectors_view(out@);
        if a < b {
            let piece = slice_chars(&s, a, b);
            let sel = parse_selector(&piece);
            out.push(sel);
        }
        let ghost here = if a < b {
            seq![parse_selector_spec(byte_chars(s@.subrange(a as int, b as int)))]
        } else {
            Seq::<Seq<PartView>>::empty()
        };
        assert(selectors_view(out@) =~= before + here);
        if k >= s.len() {
            assert(selector_list_from(s@, i as int) == here);
            break ;
        }
        assert(selector_list_from(s@, i as int) == here + selector_list_from(s@, k + 1));
        assert(before + (here + selector_list_from(s@, k + 1)) =~= (before + here) + selector_list_from(s@, k + 1));
        i = k + 1;
    }
    out
}

// ---------------------------------------------------------------------------
// Matching.
// ---------------------------------------------------------------------------
/// What selector matching reads of a document. Each method is described by a
/// spec function; `parent` also reports a measure that decreases towards the
/// root, so that walking up the ancestors ends.
pub trait DomMatch {
    type NodeId: Copy + Ord;

    /// `n` names a node of this document.
    spec fn has_node(&self, n: Self::NodeId) -> bool;

    spec fn parent_of(&self, n: Self::NodeId) -> Option<Self::NodeId>;

    /// Distance-like measure: a parent's is below its child's.
    spec fn depth_of(&self, n: Self::NodeId) -> nat;

    spec fn element_of(&self, n: Self::NodeId) -> bool;

    spec fn tag_of(&self, n: Self::NodeId) -> Option<Seq<char>>;

    spec fn id_of(&self, n: Self::NodeId) -> Option<Seq<char>>;

    spec fn classes_of(&self, n: Self::NodeId) -> Seq<Seq<char>>;

    fn parent(&self, n: Self::NodeId) -> (r: Option<Self::NodeId>)
        requires
            self.has_node(n),
        ensures
            r == self.parent_of(n),
            r matches Some(p) ==> self.has_node(p) && self.depth_of(p) < self.depth_of(n),
    ;

    fn is_element(&self, n: Self::NodeId) -> (r: bool)
        requires
            self.has_node(n),
        ensures
            r == self.element_of(n),
    ;

    fn tag_name(&self, n: Self::NodeId) -> (r: Option<String>)
        requires
            self.has_node(n),
        ensures
            opt_string_view(r) == self.tag_of(n),
    ;

    fn id(&self, n: Self::NodeId) -> (r: Option<String>)
        requires
            self.has_node(n),
        ensures
            opt_string_view(r) == self.id_of(n),
    ;

    fn classes(&self, n: Self::NodeId) -> (r: Vec<String>)
        requires
            self.has_node(n),
        ensures
            strings_view(r@) == self.classes_of(n),
    ;
}

/// `n` is an element with the compound's tag and id and every one of its classes.
pub open spec fn simple_matches<D: DomMatch>(dom: &D, s: SimpleView, n: D::NodeId) -> bool {
    &&& dom.element_of(n)
    &&& (s.tag matches Some(t) ==> dom.tag_of(n) == Some(t))
    &&& (s.id matches Some(i) ==> dom.id_of(n) == Some(i))
    &&& forall|k: int| 0 <= k < s.classes.len() ==> dom.classes_of(n).contains(#[trigger] s.classes[k])
}

/// The nearest proper ancestor of `n` that the compound matches.
pub open spec fn nearest_ancestor<D: DomMatch>(dom: &D, s: SimpleView, n: D::NodeId) -> Option<D::NodeId>
    decreases dom.depth_of(n),
{
    match dom.parent_of(n) {
        Some(p) => {
            if dom.depth_of(p) < dom.depth_of(n) {
                if simple_matches(dom, s, p) {
                    Some(p)
                } else {
                    nearest_ancestor(dom, s, p)
                }
            } else {
                None
            }
        },
        None => None,
    }
}

/// The compounds `parts[k..]` match going up from `cur`: a child combinator
/// asks the parent to match; otherwise the nearest matching ancestor is taken.
pub open spec fn match_from<D: DomMatch>(dom: &D, parts: Seq<PartView>, k: int, cur: D::NodeId) -> bool
    decreases parts.len() - k,
{
    if k < 0 || k >= parts.len() {
        true
    } else {
        let part = parts[k];
        if part.comb == Some(Combinator::Child) {
            match dom.parent_of(cur) {
                Some(p) => simple_matches(dom, part.simple, p) && match_from(dom, parts, k + 1, p),
                None => false,
            }
        } else {
            match nearest_ancestor(dom, part.simple, cur) {
                Some(a) => match_from(dom, parts, k + 1, a),
                None => false,
            }
        }
    }
}

/// The `k`-th ancestor of `n` along parent links (each of which goes up),
/// `n` itself for `k == 0`.
pub open spec fn ancestor<D: DomMatch>(dom: &D, n: D::NodeId, k: nat) -> Option<D::NodeId>
    decreases k,
{
    if k == 0 {
        Some(n)
    } else {
        match dom.parent_of(n) {
            Some(p) => if dom.depth_of(p) < dom.depth_of(n) {
                ancestor(dom, p, (k - 1) as nat)
            } else {
                None
            },
            None => None,
        }
    }
}

/// The `k`-th ancestor of `n` exists, is a proper one, and the compound
/// matches it.
pub open spec fn ancestor_matches<D: DomMatch>(dom: &D, s: SimpleView, n: D::NodeId, k: nat) -> bool {
    k >= 1 && (ancestor(dom, n, k) matches Some(a) && simple_matches(dom, s, a))
}

/// The search up from `n` finds a matching ancestor exactly when one exists,
/// and what it finds is the nearest one.
pub proof fn lemma_nearest_ancestor<D: DomMatch>(dom: &D, s: SimpleView, n: D::NodeId)
    ensures
        nearest_ancestor(dom, s, n) is Some <==> exists|k: nat| #[trigger] ancestor_matches(dom, s, n, k),
        nearest_ancestor(dom, s, n) matches Some(a) ==> exists|k: nat|
            #[trigger] ancestor_matches(dom, s, n, k) && ancestor(dom, n, k) == Some(a) && forall|j: nat|
                1 <= j < k ==> !#[trigger] ancestor_matches(dom, s, n, j),
    decreases dom.depth_of(n),
{
    match dom.parent_of(n) {
        Some(p) => {
            if dom.depth_of(p) < dom.depth_of(n) {
                assert(ancestor(dom, n, 1) == ancestor(dom, p, 0));
                assert forall|k: nat| k >= 1 implies #[trigger] ancestor(dom, n, k) == ancestor(dom, p, (k - 1) as nat) by {}
                if simple_matches(dom, s, p) {
                    assert(ancestor_matches(dom, s, n, 1));
                } else {
                    lemma_nearest_ancestor(dom, s, p);
                    assert forall|k: nat| #[trigger] ancestor_matches(dom, s, n, k) implies k >= 2
                        && ancestor_matches(dom, s, p, (k - 1) as nat) by {
                        assert(ancestor(dom, n, k) == ancestor(dom, p, (k - 1) as nat));
                    }
                    if exists|k: nat| #[trigger] ancestor_matches(dom, s, p, k) {
                        let k = choose|k: nat| #[trigger] ancestor_matches(dom, s, p, k);
                        assert(ancestor(dom, n, k + 1) == ancestor(dom, p, k));
                        assert(ancestor_matches(dom, s, n, k + 1));
                    }
                    if let Some(a) = nearest_ancestor(dom, s, p) {
                        let k = choose|k: nat|
                            #[trigger] ancestor_matches(dom, s, p, k) && ancestor(dom, p, k) == Some(a)
                                && forall|j: nat| 1 <= j < k ==> !#[trigger] ancestor_matches(dom, s, p, j);
                        assert(ancestor(dom, n, k + 1) == ancestor(dom, p, k));
                        assert(ancestor_matches(dom, s, n, k + 1));
                        assert forall|j: nat| 1 <= j < k + 1 implies !#[trigger] ancestor_matches(dom, s, n, j) by {
                            if j >= 2 {
                                assert(ancestor(dom, n, j) == ancestor(dom, p, (j - 1) as nat));
                                assert(!ancestor_matches(dom, s, p, (j - 1) as nat));
                            } else {
                                assert(ancestor(dom, n, 1) == Some(p));
                            }
                        }
                    }
                }
            } else {
                assert forall|k: nat| !#[trigger] ancestor_matches(dom, s, n, k) by {}
            }
        },
        None => {
            assert forall|k: nat| !#[trigger] ancestor_matches(dom, s, n, k) by {}
        },
    }
}

/// A selector of two compounds `A B` joined by whitespace matches a node
/// exactly when `B` matches it and `A` matches some proper ancestor of it,
/// however far up; joined by `>`, only the parent counts.
pub proof fn lemma_two_compound_selector<D: DomMatch>(dom: &D, sel: Seq<PartView>, n: D::NodeId)
    requires
        sel.len() == 2,
    ensures
        sel[1].comb != Some(Combinator::Child) ==> (matches_selector_spec(sel, dom, n) <==> simple_matches(
            dom,
            sel[0].simple,
            n,
        ) && exists|k: nat| #[trigger] ancestor_matches(dom, sel[1].simple, n, k)),
        sel[1].comb == Some(Combinator::Child) ==> (matches_selector_spec(sel, dom, n) <==> simple_matches(
            dom,
            sel[0].simple,
            n,
        ) && (dom.parent_of(n) matches Some(p) && simple_matches(dom, sel[1].simple, p))),
{
    lemma_nearest_ancestor(dom, sel[1].simple, n);
    match dom.parent_of(n) {
        Some(p) => {
            if dom.depth_of(p) < dom.depth_of(n) {
                assert(ancestor(dom, p, 0) == Some(p));
                assert(ancestor(dom, n, 1) == Some(p));
            } else {
                assert(ancestor(dom, n, 1) is None);
            }
        },
        None => {
            assert(ancestor(dom, n, 1) is None);
        },
    }
    assert(match_from(dom, sel, 2, n));
    if let Some(p) = dom.parent_of(n) {
        assert(match_from(dom, sel, 2, p));
    }
    if let Some(a) = nearest_ancestor(dom, sel[1].simple, n) {
        assert(match_from(dom, sel, 2, a));
    }
}

/// The search for the nearest matching ancestor, resumed at `p`.
pub open spec fn search_from<D: DomMatch>(dom: &D, s: SimpleView, p: Option<D::NodeId>) -> Option<D::NodeId> {
    match p {
        Some(pp) => if simple_matches(dom, s, pp) {
            Some(pp)
        } else {
            nearest_ancestor(dom, s, pp)
        },
        None => None,
    }
}

pub open spec fn matches_selector_spec<D: DomMatch>(sel: Seq<PartView>, dom: &D, n: D::NodeId) -> bool {
    &&& sel.len() > 0
    &&& simple_matches(dom, sel[0].simple, n)
    &&& match_from(dom, sel, 1, n)
}

fn string_in(v: &Vec<String>, x: &String) -> (r: bool)
    ensures
        r == strings_view(v@).contains(x@),
{
    let mut k: usize = 0;
    while k < v.len()
        invariant
            k <= v@.len(),
            forall|m: int| 0 <= m < k ==> v@[m]@ != x@,
        decreases v.len() - k,
    {
        if v[k].eq(x) {
            assert(strings_view(v@)[k as int] == x@);
            return true;
        }
        k = k + 1;
    }
    assert(!strings_view(v@).contains(x@)) by {
        if strings_view(v@).contains(x@) {
            let m = choose|m: int| 0 <= m < strings_view(v@).len() && strings_view(v@)[m] == x@;
            assert(v@[m]@ == x@);
        }
    }
    false
}

fn opt_string_eq(a: &Option<String>, b: &String) -> (r: bool)
    ensures
        r == (opt_string_view(*a) == Some(b@)),
{
    match a {
        Some(x) => x.eq(b),
        None => false,
    }
}

fn matches_simple<D: DomMatch>(s: &SimpleSelector, dom: &D, n: D::NodeId) -> (r: bool)
    requires
        dom.has_node(n),
    ensures
        r == simple_matches(dom, s@, n),
{
    if !dom.is_element(n) {
        return false;
    }
    if let Some(t) = &s.tag {
        let tn = dom.tag_name(n);
        if !opt_string_eq(&tn, t) {
            return false;
        }
    }
    if let Some(want_id) = &s.id {
        let got = dom.id(n);
        if !opt_string_eq(&got, want_id) {
            return false;
        }
    }
    if s.classes.len() > 0 {
        let set = dom.classes(n);
        let mut k: usize = 0;
        while k < s.classes.len()
            invariant
                k <= s.classes@.len(),
                strings_view(set@) == dom.classes_of(n),
                forall|m: int| 0 <= m < k ==> dom.classes_of(n).contains(#[trigger] s@.classes[m]),
            decreases s.classes.len() - k,
        {
            if !string_in(&set, &s.classes[k]) {
                assert(s@.classes[k as int] == s.classes@[k as int]@);
                assert(!dom.classes_of(n).contains(s@.classes[k as int]));
                return false;
            }
            k = k + 1;
        }
    }
    true
}

pub fn matches_selector<D: DomMatch>(sel: &Selector, dom: &D, n: D::NodeId) -> (r: bool)
    requires
        dom.has_node(n),
    ensures
        r == matches_selector_spec(sel@, dom, n),
{
    if sel.parts.len() == 0 {
        return false;
    }
    if !matches_simple(&sel.parts[0].simple, dom, n) {
        return false;
    }
    let ghost parts = sel@;
    let mut current = n;
    let mut k: usize = 1;
    while k < sel.parts.len()
        invariant
            1 <= k <= sel.parts@.len(),
            parts == sel@,
            parts.len() == sel.parts@.len(),
            dom.has_node(current),
            match_from(dom, parts, k as int, current) == match_from(dom, parts, 1, n),
        decreases sel.parts.len() - k,
    {
        let part = &sel.parts[k];
        assert(part@ == parts[k as int]);
        let is_child = match part.comb {
            Some(Combinator::Child) => true,
            _ => false,
        };
        if is_child {
            match dom.parent(current) {
                Some(p) => {
                    if matches_simple(&part.simple, dom, p) {
                        current = p;
                    } else {
                        return false;
                    }
                },
                None => {
                    return false;
                },
            }
        } else {
            let ghost target = nearest_ancestor(dom, part.simple@, current);
            let mut found = false;
            let mut p = dom.parent(current);
            loop
                invariant_except_break
                    !found,
                    p matches Some(pp) ==> dom.has_node(pp),
                    search_from(dom, part.simple@, p) == target,
                ensures
                    found ==> dom.has_node(current) && target == Some(current),
                    !found ==> target is None,
                decreases match p {
                    Some(pp) => dom.depth_of(pp) + 1,
                    None => 0,
                },
            {
                match p {
                    Some(pp) => {
                        if matches_simple(&part.simple, dom, pp) {
                            found = true;
                            current = pp;
                            break ;
                        }
                        p = dom.parent(pp);
                    },
                    None => {
                        break ;
                    },
                }
            }
            if !found {
                return false;
            }
        }
        k = k + 1;
    }
    true
}

} // verus!
