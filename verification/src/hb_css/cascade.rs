//! The cascade: for every element, the winning value of each supported
//! property among the matching rules (by specificity, then source order),
//! with the inline `style` attribute above all rules.
use vstd::prelude::*;
use crate::text::lower_seq;
use crate::hb_css::parser::{
    Color, Px, Value, ValueView, Declaration, DeclView, Stylesheet, RuleView, decls_view,
    parse_inline_decls, parse_inline_spec,
};
use crate::hb_css::selectors::{
    Selector, DomMatch, Specificity, PartView, matches_selector, matches_selector_spec, specificity_sum,
    specificity_fits, opt_string_view, strings_view,
};

verus! {

#[derive(Debug, Clone, Copy, PartialEq, Eq, Structural)]
pub enum Display {
    Block,
    Inline,
    Hidden,
}

#[derive(Debug, Clone)]
pub struct ComputedStyle {
    pub display: Display,
    pub color: Option<[u8; 4]>,
    pub background: Option<[u8; 4]>,
    pub font_size: Px,
}

pub struct StyleView {
    pub display: Display,
    pub color: Option<Seq<u8>>,
    pub background: Option<Seq<u8>>,
    pub font_size: Seq<char>,
}

pub open spec fn opt_rgba_view(o: Option<[u8; 4]>) -> Option<Seq<u8>> {
    match o {
        Some(a) => Some(a@),
        None => None,
    }
}

impl View for ComputedStyle {
    type V = StyleView;

    open spec fn view(&self) -> StyleView {
        StyleView {
            display: self.display,
            color: opt_rgba_view(self.color),
            background: opt_rgba_view(self.background),
            font_size: self.font_size.text@,
        }
    }
}

pub open spec fn default_style_view() -> StyleView {
    StyleView {
        display: Display::Block,
        color: Some(seq![0x22u8, 0x22u8, 0x22u8, 0xFFu8]),
        background: None,
        font_size: seq!['1', '6'],
    }
}

/// The user-agent defaults: block display, color `#222222`, no background, 16px.
pub fn default_user_agent_style() -> (r: ComputedStyle)
    ensures
        r@ == default_style_view(),
{
    let c: [u8; 4] = [0x22, 0x22, 0x22, 0xFF];
    assert(c@ =~= seq![0x22u8, 0x22u8, 0x22u8, 0xFFu8]);
    let fs = crate::text::chars_to_string(&vec!['1', '6']);
    ComputedStyle {
        display: Display::Block,
        color: Some(c),
        background: None,
        font_size: Px { text: fs },
    }
}

impl Default for ComputedStyle {
    fn default() -> (r: Self)
        ensures
            r@ == default_style_view(),
    {
        default_user_agent_style()
    }
}

// ---------------------------------------------------------------------------
// Pixel values: a decimal numeral compared exactly with whole numbers.
// ---------------------------------------------------------------------------
pub open spec fn is_digit_c(c: char) -> bool {
    '0' <= c && c <= '9'
}

/// End of the run of decimal digits from `i`.
pub open spec fn digits_end(t: Seq<char>, i: int) -> int
    decreases t.len() - i,
{
    if i < 0 || i >= t.len() {
        i
    } else if is_digit_c(t[i]) {
        digits_end(t, i + 1)
    } else {
        i
    }
}

pub open spec fn digits_value(d: Seq<char>) -> nat
    decreases d.len(),
{
    if d.len() == 0 {
        0
    } else {
        digits_value(d.drop_last()) * 10 + ((d.last() as u32) - ('0' as u32)) as nat
    }
}

/// A numeral `-?I(.F)?`: whether it is negative, the whole part's value, and
/// whether the fraction has a non-zero digit.
pub open spec fn numeral(t: Seq<char>) -> (bool, nat, bool) {
    let neg = t.len() > 0 && t[0] == '-';
    let b = if neg {
        1int
    } else {
        0int
    };
    let e = digits_end(t, b);
    let whole = digits_value(t.subrange(b, e));
    let frac_nonzero = e < t.len() && t[e] == '.' && exists|k: int|
        e + 1 <= k < digits_end(t, e + 1) && t[k] != '0';
    (neg, whole, frac_nonzero)
}

pub open spec fn nat_digits(n: nat) -> Seq<char>
    decreases n,
{
    if n < 10 {
        seq![((n + 0x30) as u32) as char]
    } else {
        nat_digits(n / 10).push((((n % 10) + 0x30) as u32) as char)
    }
}

/// `px.max(lo).min(hi)` on the numeral: below `lo` gives `lo`, above `hi`
/// gives `hi`, otherwise the numeral is kept as written.
pub open spec fn clamp_px_spec(t: Seq<char>, lo: nat, hi: nat) -> Seq<char> {
    let (neg, whole, frac) = numeral(t);
    if neg || whole < lo {
        nat_digits(lo)
    } else if whole > hi || (whole == hi && frac) {
        nat_digits(hi)
    } else {
        t
    }
}

fn small_digits(n: u32) -> (r: Vec<char>)
    requires
        n < 1000,
    ensures
        r@ == nat_digits(n as nat),
    decreases n,
{
    if n < 10 {
        let c = ((n + 0x30) as u8) as char;
        assert(c == ((n + 0x30) as u32) as char);
        vec![c]
    } else {
        let mut v = small_digits(n / 10);
        let c = (((n % 10) + 0x30) as u8) as char;
        assert(c == (((n % 10) + 0x30) as u32) as char);
        v.push(c);
        v
    }
}

/// Clamps a pixel value to `[lo, hi]`, comparing the numeral exactly.
pub fn clamp_px(px: &Px, lo: u32, hi: u32) -> (r: Px)
    requires
        0 < lo <= hi < 1000,
    ensures
        r.text@ == clamp_px_spec(px.text@, lo as nat, hi as nat),
{
    let t = crate::text::str_chars(px.text.as_str());
    let neg = t.len() > 0 && t[0] == '-';
    let b: usize = if neg {
        1
    } else {
        0
    };
    let mut e: usize = b;
    // The whole part, capped at 1000.
    let mut whole: u32 = 0;
    while e < t.len() && '0' <= t[e] && t[e] <= '9'
        invariant
            b <= e <= t@.len(),
            digits_end(t@, e as int) == digits_end(t@, b as int),
            whole == (if digits_value(t@.subrange(b as int, e as int)) < 1000 {
                digits_value(t@.subrange(b as int, e as int))
            } else {
                1000
            }),
        decreases t.len() - e,
    {
        let d = (t[e] as u32) - ('0' as u32);
        assert(t@.subrange(b as int, e + 1).drop_last() =~= t@.subrange(b as int, e as int));
        whole = if whole >= 100 {
            1000
        } else if whole * 10 + d >= 1000 {
            1000
        } else {
            whole * 10 + d
        };
        e = e + 1;
    }
    let mut frac = false;
    if e < t.len() && t[e] == '.' {
        let mut k: usize = e + 1;
        while k < t.len() && '0' <= t[k] && t[k] <= '9'
            invariant
                e + 1 <= k <= t@.len(),
                digits_end(t@, k as int) == digits_end(t@, e + 1),
                frac == exists|m: int| e + 1 <= m < k && t@[m] != '0',
            decreases t.len() - k,
        {
            if t[k] != '0' {
                frac = true;
            }
            k = k + 1;
        }
    }
    let ghost num = numeral(t@);
    assert(neg == num.0);
    assert(whole == (if num.1 < 1000 { num.1 } else { 1000 }));
    assert(frac == num.2);
    if neg || whole < lo {
        Px { text: crate::text::chars_to_string(&small_digits(lo)) }
    } else if whole > hi || (whole == hi && frac) {
        Px { text: crate::text::chars_to_string(&small_digits(hi)) }
    } else {
        Px { text: px.text.clone() }
    }
}

// ---------------------------------------------------------------------------
// Ranks: which of two declarations for one property wins.
// ---------------------------------------------------------------------------
/// The rank of a declaration: the specificity of the selector it came
/// through, then the place of its rule in the sheet.
#[derive(Debug, Clone, Copy, PartialEq, Eq, Structural)]
pub struct Rank {
    pub spec: Specificity,
    pub order: u32,
}

/// `a` is at most `b`, comparing ids, then classes, then tags.
pub open spec fn specificity_le(a: Specificity, b: Specificity) -> bool {
    ||| a.0 < b.0
    ||| a.0 == b.0 && a.1 < b.1
    ||| a.0 == b.0 && a.1 == b.1 && a.2 <= b.2
}

/// `a` is at most `b`: by specificity, then by source order.
pub open spec fn rank_le(a: Rank, b: Rank) -> bool {
    &&& specificity_le(a.spec, b.spec)
    &&& (a.spec == b.spec ==> a.order <= b.order)
}

/// A declaration of rank `newr` replaces one of rank `old`.
pub open spec fn improves(newr: Rank, old: Option<Rank>) -> bool {
    match old {
        None => true,
        Some(o) => rank_le(o, newr),
    }
}

/// Whether a declaration of rank `newr` replaces the one of rank `old`: it
/// does when there is none yet, or when `old` is not above it (so that on a
/// tie the later declaration wins).
pub fn better(newr: Rank, old: Option<Rank>) -> (r: bool)
    ensures
        r == improves(newr, old),
{
    match old {
        None => true,
        Some(o) => {
            if newr.spec.0 != o.spec.0 {
                return newr.spec.0 > o.spec.0;
            }
            if newr.spec.1 != o.spec.1 {
                return newr.spec.1 > o.spec.1;
            }
            if newr.spec.2 != o.spec.2 {
                return newr.spec.2 > o.spec.2;
            }
            newr.order >= o.order
        },
    }
}

pub open spec fn max_of(a: Specificity, b: Specificity) -> Specificity {
    if specificity_le(b, a) {
        a
    } else {
        b
    }
}

/// The larger of two specificities (the first on a tie).
pub fn max_spec(a: Specificity, b: Specificity) -> (r: Specificity)
    ensures
        r == max_of(a, b),
{
    if a.0 != b.0 {
        return if a.0 > b.0 {
            a
        } else {
            b
        };
    }
    if a.1 != b.1 {
        return if a.1 > b.1 {
            a
        } else {
            b
        };
    }
    if a.2 != b.2 {
        return if a.2 > b.2 {
            a
        } else {
            b
        };
    }
    a
}

// ---------------------------------------------------------------------------
// The state of the cascade on one element.
// ---------------------------------------------------------------------------
/// The style so far and, for each property, the rank of the declaration
/// that set it.
pub struct CascadeView {
    pub style: StyleView,
    pub r_color: Option<Rank>,
    pub r_bg: Option<Rank>,
    pub r_fs: Option<Rank>,
    pub r_disp: Option<Rank>,
}

pub open spec fn initial_cascade() -> CascadeView {
    CascadeView {
        style: default_style_view(),
        r_color: None,
        r_bg: None,
        r_fs: None,
        r_disp: None,
    }
}

/// The property name, compared without regard to ASCII case.
pub open spec fn name_is(name: Seq<char>, lit: Seq<char>) -> bool {
    lower_seq(name) == lit
}

pub open spec fn color_word() -> Seq<char> {
    seq!['c', 'o', 'l', 'o', 'r']
}

pub open spec fn background_word() -> Seq<char> {
    seq!['b', 'a', 'c', 'k', 'g', 'r', 'o', 'u', 'n', 'd']
}

pub open spec fn background_color_word() -> Seq<char> {
    background_word() + seq!['-'] + color_word()
}

pub open spec fn font_size_word() -> Seq<char> {
    seq!['f', 'o', 'n', 't', '-', 's', 'i', 'z', 'e']
}

pub open spec fn display_word() -> Seq<char> {
    seq!['d', 'i', 's', 'p', 'l', 'a', 'y']
}

/// `none` and `inline` name themselves; every other keyword means block.
pub open spec fn display_of(id: Seq<char>) -> Display {
    if id == seq!['n', 'o', 'n', 'e'] {
        Display::Hidden
    } else if id == seq!['i', 'n', 'l', 'i', 'n', 'e'] {
        Display::Inline
    } else {
        Display::Block
    }
}

pub open spec fn rgba_of(c: Color) -> Seq<u8> {
    seq![c.0, c.1, c.2, c.3]
}

pub open spec fn with_color(st: CascadeView, c: Seq<u8>, rank: Rank) -> CascadeView {
    CascadeView {
        style: StyleView {
            display: st.style.display,
            color: Some(c),
            background: st.style.background,
            font_size: st.style.font_size,
        },
        r_color: Some(rank),
        r_bg: st.r_bg,
        r_fs: st.r_fs,
        r_disp: st.r_disp,
    }
}

pub open spec fn with_background(st: CascadeView, c: Seq<u8>, rank: Rank) -> CascadeView {
    CascadeView {
        style: StyleView {
            display: st.style.display,
            color: st.style.color,
            background: Some(c),
            font_size: st.style.font_size,
        },
        r_color: st.r_color,
        r_bg: Some(rank),
        r_fs: st.r_fs,
        r_disp: st.r_disp,
    }
}

pub open spec fn with_font_size(st: CascadeView, t: Seq<char>, rank: Rank) -> CascadeView {
    CascadeView {
        style: StyleView {
            display: st.style.display,
            color: st.style.color,
            background: st.style.background,
            font_size: t,
        },
        r_color: st.r_color,
        r_bg: st.r_bg,
        r_fs: Some(rank),
        r_disp: st.r_disp,
    }
}

pub open spec fn with_display(st: CascadeView, d: Display, rank: Rank) -> CascadeView {
    CascadeView {
        style: StyleView {
            display: d,
            color: st.style.color,
            background: st.style.background,
            font_size: st.style.font_size,
        },
        r_color: st.r_color,
        r_bg: st.r_bg,
        r_fs: st.r_fs,
        r_disp: Some(rank),
    }
}

/// One declaration of the given rank offered to the cascade: a supported
/// property takes its value when the rank is not below the one that set it
/// (font sizes clamped to 8..96 px); anything else changes nothing.
pub open spec fn apply_decl_spec(d: DeclView, rank: Rank, st: CascadeView) -> CascadeView {
    match d.value {
        ValueView::Color(c) => {
            if name_is(d.name, color_word()) {
                if improves(rank, st.r_color) {
                    with_color(st, rgba_of(c), rank)
                } else {
                    st
                }
            } else if name_is(d.name, background_word()) || name_is(d.name, background_color_word()) {
                if improves(rank, st.r_bg) {
                    with_background(st, rgba_of(c), rank)
                } else {
                    st
                }
            } else {
                st
            }
        },
        ValueView::LengthPx(t) => {
            if name_is(d.name, font_size_word()) && improves(rank, st.r_fs) {
                with_font_size(st, clamp_px_spec(t, 8, 96), rank)
            } else {
                st
            }
        },
        ValueView::Ident(id) => {
            if name_is(d.name, display_word()) && improves(rank, st.r_disp) {
                with_display(st, display_of(id), rank)
            } else {
                st
            }
        },
    }
}

/// A winning `display` declaration sets the display its keyword names:
/// `inline` gives inline, `none` hides the node, and every other keyword
/// gives block; the other properties and their ranks are left alone.
pub proof fn lemma_display_keywords(name: Seq<char>, id: Seq<char>, rank: Rank, st: CascadeView)
    requires
        lower_seq(name) == seq!['d', 'i', 's', 'p', 'l', 'a', 'y'],
        improves(rank, st.r_disp),
    ensures
        ({
            let r = apply_decl_spec(DeclView { name, value: ValueView::Ident(id) }, rank, st);
            &&& r.style.display == (if id == seq!['i', 'n', 'l', 'i', 'n', 'e'] {
                Display::Inline
            } else if id == seq!['n', 'o', 'n', 'e'] {
                Display::Hidden
            } else {
                Display::Block
            })
            &&& r.style.color == st.style.color
            &&& r.style.background == st.style.background
            &&& r.style.font_size == st.style.font_size
            &&& r.r_disp == Some(rank)
        }),
{
}

/// The declarations offered in order, all with one rank.
pub open spec fn apply_decls_spec(ds: Seq<DeclView>, rank: Rank, st: CascadeView) -> CascadeView
    decreases ds.len(),
{
    if ds.len() == 0 {
        st
    } else {
        apply_decl_spec(ds.last(), rank, apply_decls_spec(ds.drop_last(), rank, st))
    }
}

/// The specificity of a selector, each part counted.
pub open spec fn selector_specificity(parts: Seq<PartView>) -> Specificity {
    let (a, b, c) = specificity_sum(parts);
    Specificity(a as u32, b as u32, c as u32)
}

/// The highest specificity among the selectors of a rule that match `n`.
pub open spec fn best_match<D: DomMatch>(sels: Seq<Seq<PartView>>, dom: &D, n: D::NodeId) -> Option<
    Specificity,
>
    decreases sels.len(),
{
    if sels.len() == 0 {
        None
    } else {
        let prev = best_match(sels.drop_last(), dom, n);
        if matches_selector_spec(sels.last(), dom, n) {
            let s = selector_specificity(sels.last());
            match prev {
                None => Some(s),
                Some(p) => Some(max_of(p, s)),
            }
        } else {
            prev
        }
    }
}

/// The rules in sheet order: each rule with a selector that matches `n`
/// offers its declarations with the best such specificity and its order.
pub open spec fn apply_rules_spec<D: DomMatch>(
    rules: Seq<RuleView>,
    dom: &D,
    n: D::NodeId,
    st: CascadeView,
) -> CascadeView
    decreases rules.len(),
{
    if rules.len() == 0 {
        st
    } else {
        let st1 = apply_rules_spec(rules.drop_last(), dom, n, st);
        let r = rules.last();
        match best_match(r.selectors, dom, n) {
            Some(sp) => apply_decls_spec(r.declarations, Rank { spec: sp, order: r.source_order }, st1),
            None => st1,
        }
    }
}

/// The rank of inline declarations: above every rule.
pub open spec fn inline_rank() -> Rank {
    Rank { spec: Specificity(1_000_000, 1_000_000, 1_000_000), order: u32::MAX }
}

/// Every selector of the sheet has a specificity that fits in `u32`.
pub open spec fn sheet_fits(rules: Seq<RuleView>) -> bool {
    forall|i: int, j: int|
        0 <= i < rules.len() && 0 <= j < rules[i].selectors.len() ==> specificity_fits(
            #[trigger] rules[i].selectors[j],
        )
}

// ---------------------------------------------------------------------------
// Applying declarations.
// ---------------------------------------------------------------------------
/// `v`, with ASCII letters lowered, equals `lit`.
pub(crate) fn lower_eq_lit(v: &Vec<char>, lit: &[char]) -> (r: bool)
    ensures
        r == (lower_seq(v@) == lit@),
{
    if v.len() != lit.len() {
        assert(lower_seq(v@).len() != lit@.len());
        return false;
    }
    let mut k: usize = 0;
    while k < v.len()
        invariant
            v@.len() == lit@.len(),
            k <= v@.len(),
            forall|m: int| 0 <= m < k ==> crate::text::lower_char(v@[m]) == lit@[m],
        decreases v.len() - k,
    {
        if crate::text::to_lower_char(v[k]) != lit[k] {
            assert(lower_seq(v@)[k as int] != lit@[k as int]);
            return false;
        }
        k = k + 1;
    }
    assert(lower_seq(v@) =~= lit@);
    true
}

fn display_value(id: &String) -> (r: Display)
    ensures
        r == display_of(id@),
{
    let v = crate::text::str_chars(id.as_str());
    if crate::text::chars_eq_lit(&v, &['n', 'o', 'n', 'e']) {
        Display::Hidden
    } else if crate::text::chars_eq_lit(&v, &['i', 'n', 'l', 'i', 'n', 'e']) {
        Display::Inline
    } else {
        Display::Block
    }
}

struct CascadeState {
    style: ComputedStyle,
    r_color: Option<Rank>,
    r_bg: Option<Rank>,
    r_fs: Option<Rank>,
    r_disp: Option<Rank>,
}

impl View for CascadeState {
    type V = CascadeView;

    closed spec fn view(&self) -> CascadeView {
        CascadeView {
            style: self.style@,
            r_color: self.r_color,
            r_bg: self.r_bg,
            r_fs: self.r_fs,
            r_disp: self.r_disp,
        }
    }
}

fn apply_decl(decl: &Declaration, rank: Rank, st: &mut CascadeState)
    ensures
        final(st)@ == apply_decl_spec(decl@, rank, old(st)@),
{
    let name = crate::text::str_chars(decl.name.as_str());
    proof {
        assert(seq!['c', 'o', 'l', 'o', 'r'] =~= color_word());
        assert(seq!['b', 'a', 'c', 'k', 'g', 'r', 'o', 'u', 'n', 'd'] =~= background_word());
        assert(seq!['b', 'a', 'c', 'k', 'g', 'r', 'o', 'u', 'n', 'd', '-', 'c', 'o', 'l', 'o', 'r']
            =~= background_color_word());
    }
    match &decl.value {
        Value::Color(c) => {
            if lower_eq_lit(&name, &['c', 'o', 'l', 'o', 'r']) {
                if better(rank, st.r_color) {
                    st.style.color = Some(c.to_rgba());
                    st.r_color = Some(rank);
                }
            } else if lower_eq_lit(&name, &['b', 'a', 'c', 'k', 'g', 'r', 'o', 'u', 'n', 'd'])
                || lower_eq_lit(
                &name,
                &['b', 'a', 'c', 'k', 'g', 'r', 'o', 'u', 'n', 'd', '-', 'c', 'o', 'l', 'o', 'r'],
            ) {
                if better(rank, st.r_bg) {
                    st.style.background = Some(c.to_rgba());
                    st.r_bg = Some(rank);
                }
            }
        },
        Value::LengthPx(px) => {
            if lower_eq_lit(&name, &['f', 'o', 'n', 't', '-', 's', 'i', 'z', 'e']) {
                let clamped = clamp_px(px, 8, 96);
                if better(rank, st.r_fs) {
                    st.style.font_size = clamped;
                    st.r_fs = Some(rank);
                }
            }
        },
        Value::Ident(id) => {
            if lower_eq_lit(&name, &['d', 'i', 's', 'p', 'l', 'a', 'y']) {
                let val = display_value(id);
                if better(rank, st.r_disp) {
                    st.style.display = val;
                    st.r_disp = Some(rank);
                }
            }
        },
    }
}

fn apply_decl_list(decls: &Vec<Declaration>, rank: Rank, st: &mut CascadeState)
    ensures
        final(st)@ == apply_decls_spec(decls_view(decls@), rank, old(st)@),
{
    let ghost ds = decls_view(decls@);
    let ghost st0 = st@;
    let mut k: usize = 0;
    while k < decls.len()
        invariant
            k <= decls@.len(),
            ds == decls_view(decls@),
            st@ == apply_decls_spec(ds.take(k as int), rank, st0),
        decreases decls.len() - k,
    {
        assert(ds.take(k + 1).drop_last() =~= ds.take(k as int));
        apply_decl(&decls[k], rank, st);
        k = k + 1;
    }
    assert(ds.take(decls@.len() as int) =~= ds);
}

// ---------------------------------------------------------------------------
// Documents the cascade walks.
// ---------------------------------------------------------------------------
/// A document the cascade can walk: selector matching plus the root, the
/// children of each node, and each element's inline `style` attribute.
pub trait DomAccessor: DomMatch {
    spec fn root_node(&self) -> Self::NodeId;

    spec fn children_of(&self, n: Self::NodeId) -> Seq<Self::NodeId>;

    /// Height-like measure: each child's is below its parent's.
    spec fn height_of(&self, n: Self::NodeId) -> nat;

    spec fn inline_of(&self, n: Self::NodeId) -> Option<Seq<char>>;

    fn root(&self) -> (r: Self::NodeId)
        ensures
            r == self.root_node(),
            self.has_node(r),
    ;

    fn children(&self, n: Self::NodeId) -> (r: Vec<Self::NodeId>)
        requires
            self.has_node(n),
        ensures
            r@ == self.children_of(n),
            forall|k: int|
                0 <= k < r@.len() ==> self.has_node(#[trigger] r@[k]) && self.height_of(r@[k])
                    < self.height_of(n),
    ;

    fn inline_style(&self, n: Self::NodeId) -> (r: Option<String>)
        requires
            self.has_node(n),
        ensures
            opt_string_view(r) == self.inline_of(n),
    ;

    /// Whether `a` and `b` name the same node.
    fn same_node(&self, a: Self::NodeId, b: Self::NodeId) -> (r: bool)
        ensures
            r == (a == b),
    ;
}

/// The computed style of `n`: the defaults for a non-element; for an element,
/// the rules in sheet order, then its inline declarations.
pub open spec fn node_style<D: DomAccessor>(dom: &D, rules: Seq<RuleView>, n: D::NodeId) -> StyleView {
    if !dom.element_of(n) {
        default_style_view()
    } else {
        let st = apply_rules_spec(rules, dom, n, initial_cascade());
        let st2 = match dom.inline_of(n) {
            Some(src) => apply_decls_spec(parse_inline_spec(src), inline_rank(), st),
            None => st,
        };
        st2.style
    }
}

/// `n` and its style, then the styles under each child in turn (document order).
pub open spec fn styles_from<D: DomAccessor>(dom: &D, rules: Seq<RuleView>, n: D::NodeId) -> Seq<
    (D::NodeId, StyleView),
>
    decreases dom.height_of(n), 1nat, 0nat,
{
    seq![(n, node_style(dom, rules, n))] + styles_under(dom, rules, dom.children_of(n), dom.height_of(n))
}

/// The styles under each of `cs` in turn, for children below height `h`.
pub open spec fn styles_under<D: DomAccessor>(
    dom: &D,
    rules: Seq<RuleView>,
    cs: Seq<D::NodeId>,
    h: nat,
) -> Seq<(D::NodeId, StyleView)>
    decreases h, 0nat, cs.len(),
{
    if cs.len() == 0 {
        Seq::empty()
    } else {
        let before = styles_under(dom, rules, cs.drop_last(), h);
        if dom.height_of(cs.last()) < h {
            before + styles_from(dom, rules, cs.last())
        } else {
            before
        }
    }
}

pub open spec fn styles_view<N>(v: Seq<(N, ComputedStyle)>) -> Seq<(N, StyleView)> {
    v.map_values(|p: (N, ComputedStyle)| (p.0, p.1@))
}

/// Whether every selector of the sheet has a specificity that fits in `u32`.
pub fn specificities_fit(sheet: &Stylesheet) -> (r: bool)
    ensures
        r == sheet_fits(sheet@),
{
    let ghost rules = sheet@;
    let mut i: usize = 0;
    while i < sheet.rules.len()
        invariant
            i <= sheet.rules@.len(),
            rules == sheet@,
            rules.len() == sheet.rules@.len(),
            forall|a: int, b: int|
                0 <= a < i && 0 <= b < rules[a].selectors.len() ==> specificity_fits(
                    #[trigger] rules[a].selectors[b],
                ),
        decreases sheet.rules.len() - i,
    {
        let rule = &sheet.rules[i];
        assert(rules[i as int] == rule@);
        let mut j: usize = 0;
        while j < rule.selectors.len()
            invariant
                j <= rule.selectors@.len(),
                i < rules.len(),
                rules == sheet@,
                rules[i as int] == rule@,
                rule@.selectors.len() == rule.selectors@.len(),
                forall|b: int| 0 <= b < j ==> specificity_fits(#[trigger] rule@.selectors[b]),
            decreases rule.selectors.len() - j,
        {
            assert(rule@.selectors[j as int] == rule.selectors@[j as int]@);
            if !selector_fits(&rule.selectors[j]) {
                assert(!specificity_fits(rules[i as int].selectors[j as int]));
                return false;
            }
            j = j + 1;
        }
        i = i + 1;
    }
    true
}

/// Whether the specificity of `sel` fits in `u32`.
fn selector_fits(sel: &Selector) -> (r: bool)
    ensures
        r == specificity_fits(sel@),
{
    let mut a: u64 = 0;
    let mut b: u64 = 0;
    let mut c: u64 = 0;
    let mut k: usize = 0;
    while k < sel.parts.len()
        invariant
            k <= sel@.len(),
            sel@.len() == sel.parts@.len(),
            (a as int, b as int, c as int) == specificity_sum(sel@.take(k as int)),
            a <= u32::MAX && b <= u32::MAX && c <= u32::MAX,
        decreases sel.parts.len() - k,
    {
        assert(sel@.take(k + 1).drop_last() =~= sel@.take(k as int));
        assert(sel@[k as int] == sel.parts@[k as int]@);
        let s = sel.parts[k].simple.specificity();
        a = a + s.0 as u64;
        b = b + s.1 as u64;
        c = c + s.2 as u64;
        if a > 0xFFFF_FFFF || b > 0xFFFF_FFFF || c > 0xFFFF_FFFF {
            proof {
                crate::hb_css::selectors::lemma_specificity_sum_monotone(sel@, k + 1);
            }
            return false;
        }
        k = k + 1;
    }
    assert(sel@.take(sel@.len() as int) =~= sel@);
    true
}

// ---------------------------------------------------------------------------
// Computing styles.
// ---------------------------------------------------------------------------
fn element_style<D: DomAccessor>(dom: &D, sheet: &Stylesheet, n: D::NodeId) -> (r: ComputedStyle)
    requires
        dom.has_node(n),
        dom.element_of(n),
        sheet_fits(sheet@),
    ensures
        r@ == node_style(dom, sheet@, n),
{
    let mut st = CascadeState {
        style: default_user_agent_style(),
        r_color: None,
        r_bg: None,
        r_fs: None,
        r_disp: None,
    };
    let ghost rules = sheet@;
    let mut i: usize = 0;
    while i < sheet.rules.len()
        invariant
            i <= rules.len(),
            rules == sheet@,
            rules.len() == sheet.rules@.len(),
            sheet_fits(rules),
            dom.has_node(n),
            st@ == apply_rules_spec(rules.take(i as int), dom, n, initial_cascade()),
        decreases sheet.rules.len() - i,
    {
        let rule = &sheet.rules[i];
        assert(rules[i as int] == rule@);
        assert(rules.take(i + 1).drop_last() =~= rules.take(i as int));
        if rule.selectors.len() > 0 {
            let mut best: Option<Specificity> = None;
            let mut j: usize = 0;
            while j < rule.selectors.len()
                invariant
                    j <= rule.selectors@.len(),
                    rule@.selectors.len() == rule.selectors@.len(),
                    i < rules.len(),
                    rules[i as int] == rule@,
                    sheet_fits(rules),
                    dom.has_node(n),
                    best == best_match(rule@.selectors.take(j as int), dom, n),
                decreases rule.selectors.len() - j,
            {
                let sel = &rule.selectors[j];
                assert(rule@.selectors[j as int] == sel@);
                assert(rule@.selectors.take(j + 1).drop_last() =~= rule@.selectors.take(j as int));
                assert(specificity_fits(rules[i as int].selectors[j as int]));
                if matches_selector(sel, dom, n) {
                    let s = sel.specificity();
                    assert(s == selector_specificity(sel@));
                    best = Some(
                        match best {
                            None => s,
                            Some(prev) => max_spec(prev, s),
                        },
                    );
                }
                j = j + 1;
            }
            assert(rule@.selectors.take(rule.selectors@.len() as int) =~= rule@.selectors);
            if let Some(spec) = best {
                let rank = Rank { spec, order: rule.source_order };
                apply_decl_list(&rule.declarations, rank, &mut st);
            }
        }
        i = i + 1;
    }
    assert(rules.take(rules.len() as int) =~= rules);
    match dom.inline_style(n) {
        Some(style_attr) => {
            let decls = parse_inline_decls(style_attr.as_str());
            let rank = Rank { spec: Specificity(1_000_000, 1_000_000, 1_000_000), order: u32::MAX };
            apply_decl_list(&decls, rank, &mut st);
        },
        None => {},
    }
    st.style
}

fn compute_rec<D: DomAccessor>(
    dom: &D,
    sheet: &Stylesheet,
    n: D::NodeId,
    out: &mut Vec<(D::NodeId, ComputedStyle)>,
)
    requires
        dom.has_node(n),
        sheet_fits(sheet@),
    ensures
        styles_view(final(out)@) == styles_view(old(out)@) + styles_from(dom, sheet@, n),
    decreases dom.height_of(n),
{
    let style = if !dom.is_element(n) {
        default_user_agent_style()
    } else {
        element_style(dom, sheet, n)
    };
    let ghost before = styles_view(out@);
    out.push((n, style));
    let ghost base = before + seq![(n, node_style(dom, sheet@, n))];
    assert(styles_view(out@) =~= base);
    let cs = dom.children(n);
    let mut k: usize = 0;
    while k < cs.len()
        invariant
            k <= cs@.len(),
            cs@ == dom.children_of(n),
            forall|m: int|
                0 <= m < cs@.len() ==> dom.has_node(#[trigger] cs@[m]) && dom.height_of(cs@[m])
                    < dom.height_of(n),
            sheet_fits(sheet@),
            styles_view(out@) == base + styles_under(dom, sheet@, cs@.take(k as int), dom.height_of(n)),
        decreases cs.len() - k,
    {
        assert(cs@.take(k + 1).drop_last() =~= cs@.take(k as int));
        assert(cs@.take(k + 1).last() == cs@[k as int]);
        let ghost prev = styles_view(out@);
        compute_rec(dom, sheet, cs[k], out);
        assert(styles_view(out@) =~= base + styles_under(
            dom,
            sheet@,
            cs@.take(k + 1),
            dom.height_of(n),
        ));
        k = k + 1;
    }
    assert(cs@.take(cs@.len() as int) =~= cs@);
    assert(styles_view(out@) =~= before + styles_from(dom, sheet@, n));
}

/// Whether entry `k` of `s` is the first one for its node.
pub open spec fn first_for_node<N, S>(s: Seq<(N, S)>, k: int) -> bool {
    forall|j: int| 0 <= j < k ==> s[j].0 != s[k].0
}

/// `s` with every entry after the first one for its node dropped.
pub open spec fn first_occurrences<N, S>(s: Seq<(N, S)>) -> Seq<(N, S)>
    decreases s.len(),
{
    if s.len() == 0 {
        Seq::empty()
    } else {
        let init = first_occurrences(s.drop_last());
        if first_for_node(s, s.len() - 1) {
            init.push(s.last())
        } else {
            init
        }
    }
}

/// No two entries of `s` are for the same node.
pub open spec fn nodes_distinct<N, S>(s: Seq<(N, S)>) -> bool {
    forall|i: int, j: int| 0 <= i < j < s.len() ==> s[i].0 != s[j].0
}

/// Each entry kept is an entry of `s`, each node of `s` keeps an entry,
/// and no node keeps two.
pub proof fn lemma_first_occurrences<N, S>(s: Seq<(N, S)>)
    ensures
        nodes_distinct(first_occurrences(s)),
        forall|m: int| 0 <= m < first_occurrences(s).len() ==> s.contains(#[trigger] first_occurrences(s)[m]),
        forall|k: int|
            0 <= k < s.len() ==> exists|m: int|
                0 <= m < first_occurrences(s).len() && (#[trigger] first_occurrences(s)[m]).0 == (
                #[trigger] s[k]).0,
    decreases s.len(),
{
    if s.len() > 0 {
        let p = s.drop_last();
        lemma_first_occurrences(p);
        let init = first_occurrences(p);
        let f = first_occurrences(s);
        assert forall|m: int| 0 <= m < init.len() implies s.contains(#[trigger] init[m]) by {
            assert(p.contains(init[m]));
            let j = choose|j: int| 0 <= j < p.len() && p[j] == init[m];
            assert(s[j] == init[m]);
        }
        if first_for_node(s, s.len() - 1) {
            assert forall|i: int, j: int| 0 <= i < j < f.len() implies f[i].0 != f[j].0 by {
                if j == init.len() {
                    assert(s.contains(init[i]));
                    let q = choose|q: int| 0 <= q < s.len() && s[q] == init[i];
                    assert(p.contains(init[i]));
                    let q2 = choose|q2: int| 0 <= q2 < p.len() && p[q2] == init[i];
                    assert(s[q2] == init[i]);
                    assert(q2 < s.len() - 1);
                } else {
                    assert(f[i] == init[i] && f[j] == init[j]);
                }
            }
            assert forall|m: int| 0 <= m < f.len() implies s.contains(#[trigger] f[m]) by {
                if m < init.len() {
                    assert(f[m] == init[m]);
                } else {
                    assert(s[s.len() - 1] == f[m]);
                }
            }
            assert forall|k: int| 0 <= k < s.len() implies exists|m: int|
                0 <= m < f.len() && (#[trigger] f[m]).0 == (#[trigger] s[k]).0 by {
                if k == s.len() - 1 {
                    assert(f[init.len() as int] == s[k]);
                } else {
                    assert(p[k] == s[k]);
                    let m = choose|m: int| 0 <= m < init.len() && (#[trigger] init[m]).0 == (#[trigger] p[k]).0;
                    assert(f[m] == init[m]);
                }
            }
        } else {
            assert(f == init);
            assert forall|k: int| 0 <= k < s.len() implies exists|m: int|
                0 <= m < f.len() && (#[trigger] f[m]).0 == (#[trigger] s[k]).0 by {
                if k == s.len() - 1 {
                    let j = choose|j: int| 0 <= j < s.len() - 1 && (#[trigger] s[j]).0 == s[s.len() - 1].0;
                    assert(p[j] == s[j]);
                    let m = choose|m: int| 0 <= m < init.len() && (#[trigger] init[m]).0 == (#[trigger] p[j]).0;
                } else {
                    assert(p[k] == s[k]);
                    let m = choose|m: int| 0 <= m < init.len() && (#[trigger] init[m]).0 == (#[trigger] p[k]).0;
                }
            }
        }
    }
}

fn copy_style(s: &ComputedStyle) -> (r: ComputedStyle)
    ensures
        r@ == s@,
{
    ComputedStyle {
        display: s.display,
        color: s.color,
        background: s.background,
        font_size: Px { text: s.font_size.text.clone() },
    }
}

/// Whether entry `i` of `out` is for a node an earlier entry is for.
fn listed_before<D: DomAccessor>(dom: &D, out: &Vec<(D::NodeId, ComputedStyle)>, i: usize) -> (r: bool)
    requires
        i < out@.len(),
    ensures
        r == !first_for_node(styles_view(out@), i as int),
{
    let ghost v = styles_view(out@);
    let mut seen = false;
    let mut j: usize = 0;
    while j < i
        invariant
            j <= i < out@.len(),
            v == styles_view(out@),
            seen == exists|m: int| 0 <= m < j && v[m].0 == v[i as int].0,
        decreases i - j,
    {
        assert(v[j as int].0 == out@[j as int].0);
        assert(v[i as int].0 == out@[i as int].0);
        if dom.same_node(out[j].0, out[i].0) {
            seen = true;
        }
        j = j + 1;
    }
    seen
}

/// The entries of `out`, keeping only the first one for each node.
fn keep_first_per_node<D: DomAccessor>(dom: &D, out: &Vec<(D::NodeId, ComputedStyle)>) -> (r: Vec<
    (D::NodeId, ComputedStyle),
>)
    ensures
        styles_view(r@) == first_occurrences(styles_view(out@)),
{
    let ghost all = styles_view(out@);
    let mut res: Vec<(D::NodeId, ComputedStyle)> = Vec::new();
    let mut i: usize = 0;
    assert(all.take(0) =~= Seq::<(D::NodeId, StyleView)>::empty());
    assert(styles_view(res@) =~= Seq::<(D::NodeId, StyleView)>::empty());
    while i < out.len()
        invariant
            i <= out@.len(),
            all == styles_view(out@),
            styles_view(res@) == first_occurrences(all.take(i as int)),
        decreases out.len() - i,
    {
        let seen = listed_before(dom, out, i);
        let ghost t = all.take(i + 1);
        assert(t.drop_last() =~= all.take(i as int));
        assert(first_for_node(t, i as int) == first_for_node(all, i as int)) by {
            assert forall|j: int| 0 <= j <= i implies t[j] == all[j] by {}
        }
        if !seen {
            let st = copy_style(&out[i].1);
            res.push((out[i].0, st));
            assert(styles_view(res@) =~= first_occurrences(t));
        } else {
            assert(first_occurrences(t) == first_occurrences(all.take(i as int)));
        }
        i = i + 1;
    }
    assert(all.take(out@.len() as int) =~= all);
    res
}

/// The computed style of every node reached from the root, once per node,
/// in the order the walk from the root first reaches them.
pub fn compute_styles_for_tree<D: DomAccessor>(dom: &D, sheet: &Stylesheet) -> (r: Vec<
    (D::NodeId, ComputedStyle),
>)
    requires
        sheet_fits(sheet@),
    ensures
        styles_view(r@) == first_occurrences(styles_from(dom, sheet@, dom.root_node())),
        nodes_distinct(r@),
{
    let mut out: Vec<(D::NodeId, ComputedStyle)> = Vec::new();
    let root = dom.root();
    compute_rec(dom, sheet, root, &mut out);
    assert(styles_view(Seq::<(D::NodeId, ComputedStyle)>::empty()) =~= Seq::empty());
    let res = keep_first_per_node(dom, &out);
    proof {
        let f = first_occurrences(styles_view(out@));
        lemma_first_occurrences(styles_view(out@));
        assert forall|a: int, b: int| 0 <= a < b < res@.len() implies res@[a].0 != res@[b].0 by {
            assert(styles_view(res@)[a].0 == res@[a].0);
            assert(styles_view(res@)[b].0 == res@[b].0);
            assert(f[a].0 != f[b].0);
        }
    }
    res
}

// ---------------------------------------------------------------------------
// Laws of the cascade.
// ---------------------------------------------------------------------------
/// Every property's rank is at most `top`.
pub open spec fn ranks_below(st: CascadeView, top: Rank) -> bool {
    &&& (st.r_color matches Some(r) ==> rank_le(r, top))
    &&& (st.r_bg matches Some(r) ==> rank_le(r, top))
    &&& (st.r_fs matches Some(r) ==> rank_le(r, top))
    &&& (st.r_disp matches Some(r) ==> rank_le(r, top))
}

/// The color of the last `color` declaration among `ds`.
pub open spec fn last_color(ds: Seq<DeclView>) -> Option<Color>
    decreases ds.len(),
{
    if ds.len() == 0 {
        None
    } else {
        match ds.last().value {
            ValueView::Color(c) => if name_is(ds.last().name, color_word()) {
                Some(c)
            } else {
                last_color(ds.drop_last())
            },
            _ => last_color(ds.drop_last()),
        }
    }
}

/// The pixel numeral of the last `font-size` declaration among `ds`.
pub open spec fn last_font_size(ds: Seq<DeclView>) -> Option<Seq<char>>
    decreases ds.len(),
{
    if ds.len() == 0 {
        None
    } else {
        match ds.last().value {
            ValueView::LengthPx(t) => if name_is(ds.last().name, font_size_word()) {
                Some(t)
            } else {
                last_font_size(ds.drop_last())
            },
            _ => last_font_size(ds.drop_last()),
        }
    }
}

/// The keyword of the last `display` declaration among `ds`.
pub open spec fn last_display(ds: Seq<DeclView>) -> Option<Seq<char>>
    decreases ds.len(),
{
    if ds.len() == 0 {
        None
    } else {
        match ds.last().value {
            ValueView::Ident(t) => if name_is(ds.last().name, display_word()) {
                Some(t)
            } else {
                last_display(ds.drop_last())
            },
            _ => last_display(ds.drop_last()),
        }
    }
}

/// Declarations offered with a rank that no earlier one exceeds always take
/// effect: each property they declare ends with the value of its last
/// declaration among them, and the others keep theirs.
pub proof fn lemma_top_rank_decls(ds: Seq<DeclView>, rank: Rank, st: CascadeView)
    requires
        ranks_below(st, rank),
    ensures
        ranks_below(apply_decls_spec(ds, rank, st), rank),
        apply_decls_spec(ds, rank, st).style.color == match last_color(ds) {
            Some(c) => Some(rgba_of(c)),
            None => st.style.color,
        },
        apply_decls_spec(ds, rank, st).style.font_size == match last_font_size(ds) {
            Some(t) => clamp_px_spec(t, 8, 96),
            None => st.style.font_size,
        },
        apply_decls_spec(ds, rank, st).style.display == match last_display(ds) {
            Some(t) => display_of(t),
            None => st.style.display,
        },
    decreases ds.len(),
{
    if ds.len() > 0 {
        lemma_top_rank_decls(ds.drop_last(), rank, st);
    }
}

/// Offering declarations of rank at most `top` keeps every rank at most `top`.
pub proof fn lemma_decls_stay_below(ds: Seq<DeclView>, rank: Rank, st: CascadeView, top: Rank)
    requires
        ranks_below(st, top),
        rank_le(rank, top),
    ensures
        ranks_below(apply_decls_spec(ds, rank, st), top),
    decreases ds.len(),
{
    if ds.len() > 0 {
        lemma_decls_stay_below(ds.drop_last(), rank, st, top);
    }
}

/// Every selector of the sheet is at most as specific as the inline rank.
pub open spec fn rules_below_inline(rules: Seq<RuleView>) -> bool {
    forall|i: int, j: int|
        0 <= i < rules.len() && 0 <= j < rules[i].selectors.len() ==> specificity_le(
            selector_specificity(#[trigger] rules[i].selectors[j]),
            inline_rank().spec,
        )
}

proof fn lemma_best_match_below<D: DomMatch>(
    sels: Seq<Seq<PartView>>,
    dom: &D,
    n: D::NodeId,
    bound: Specificity,
)
    requires
        forall|j: int| 0 <= j < sels.len() ==> specificity_le(selector_specificity(#[trigger] sels[j]), bound),
    ensures
        best_match(sels, dom, n) matches Some(s) ==> specificity_le(s, bound),
    decreases sels.len(),
{
    if sels.len() > 0 {
        assert forall|j: int| 0 <= j < sels.drop_last().len() implies specificity_le(
            selector_specificity(#[trigger] sels.drop_last()[j]),
            bound,
        ) by {
            assert(sels.drop_last()[j] == sels[j]);
        }
        lemma_best_match_below(sels.drop_last(), dom, n, bound);
        assert(specificity_le(selector_specificity(sels[sels.len() - 1]), bound));
    }
}

proof fn lemma_rules_stay_below<D: DomMatch>(
    rules: Seq<RuleView>,
    dom: &D,
    n: D::NodeId,
    st: CascadeView,
)
    requires
        rules_below_inline(rules),
        ranks_below(st, inline_rank()),
    ensures
        ranks_below(apply_rules_spec(rules, dom, n, st), inline_rank()),
    decreases rules.len(),
{
    if rules.len() > 0 {
        let init = rules.drop_last();
        assert forall|i: int, j: int|
            0 <= i < init.len() && 0 <= j < init[i].selectors.len() implies specificity_le(
            selector_specificity(#[trigger] init[i].selectors[j]),
            inline_rank().spec,
        ) by {
            assert(init[i] == rules[i]);
        }
        lemma_rules_stay_below(init, dom, n, st);
        let r = rules.last();
        let k = rules.len() - 1;
        assert forall|j: int| 0 <= j < r.selectors.len() implies specificity_le(
            selector_specificity(#[trigger] r.selectors[j]),
            inline_rank().spec,
        ) by {
            assert(rules[k].selectors[j] == r.selectors[j]);
        }
        lemma_best_match_below(r.selectors, dom, n, inline_rank().spec);
        let st1 = apply_rules_spec(init, dom, n, st);
        match best_match(r.selectors, dom, n) {
            Some(sp) => {
                lemma_decls_stay_below(
                    r.declarations,
                    Rank { spec: sp, order: r.source_order },
                    st1,
                    inline_rank(),
                );
            },
            None => {},
        }
    }
}

/// The inline `style` attribute beats every rule of the sheet: on an element
/// whose inline style declares `color`, `font-size` or `display`, the computed
/// value is that of the last such inline declaration (for sheets whose
/// selectors are not more specific than the inline rank).
pub proof fn lemma_inline_wins<D: DomAccessor>(dom: &D, rules: Seq<RuleView>, n: D::NodeId, src: Seq<char>)
    requires
        dom.element_of(n),
        dom.inline_of(n) == Some(src),
        rules_below_inline(rules),
    ensures
        last_color(parse_inline_spec(src)) matches Some(c) ==> node_style(dom, rules, n).color == Some(
            rgba_of(c),
        ),
        last_font_size(parse_inline_spec(src)) matches Some(t) ==> node_style(dom, rules, n).font_size
            == clamp_px_spec(t, 8, 96),
        last_display(parse_inline_spec(src)) matches Some(t) ==> node_style(dom, rules, n).display
            == display_of(t),
{
    lemma_rules_stay_below(rules, dom, n, initial_cascade());
    let st = apply_rules_spec(rules, dom, n, initial_cascade());
    lemma_top_rank_decls(parse_inline_spec(src), inline_rank(), st);
}

/// Ranks compare by specificity first: a strictly more specific declaration
/// wins whatever the source order, and a less specific one never replaces it.
pub proof fn lemma_specificity_first(a: Rank, b: Rank)
    requires
        specificity_le(a.spec, b.spec),
        a.spec != b.spec,
    ensures
        improves(b, Some(a)),
        !improves(a, Some(b)),
{
}

/// On equal specificity the later declaration (by source order) wins, and a
/// declaration replaces an equal-ranked one.
pub proof fn lemma_later_wins_on_tie(a: Rank, b: Rank)
    requires
        a.spec == b.spec,
        a.order <= b.order,
    ensures
        improves(b, Some(a)),
{
}

/// Ranks are totally ordered: of any two, one is at most the other.
pub proof fn lemma_rank_total(a: Rank, b: Rank)
    ensures
        rank_le(a, b) || rank_le(b, a),
{
}

/// Every entry of the styles listed from `n` pairs a node with its own
/// computed style (a node met twice is listed with the same style).
pub proof fn lemma_styles_consistent<D: DomAccessor>(dom: &D, rules: Seq<RuleView>, n: D::NodeId)
    ensures
        forall|k: int|
            0 <= k < styles_from(dom, rules, n).len() ==> (#[trigger] styles_from(dom, rules, n)[k]).1
                == node_style(dom, rules, styles_from(dom, rules, n)[k].0),
    decreases dom.height_of(n), 1nat, 0nat,
{
    let cs = dom.children_of(n);
    let h = dom.height_of(n);
    lemma_under_consistent(dom, rules, cs, h);
    let head = seq![(n, node_style(dom, rules, n))];
    let tail = styles_under(dom, rules, cs, h);
    assert forall|k: int| 0 <= k < (head + tail).len() implies (#[trigger] (head + tail)[k]).1
        == node_style(dom, rules, (head + tail)[k].0) by {
        if k >= 1 {
            assert((head + tail)[k] == tail[k - 1]);
        }
    }
}

proof fn lemma_under_consistent<D: DomAccessor>(dom: &D, rules: Seq<RuleView>, cs: Seq<D::NodeId>, h: nat)
    ensures
        forall|k: int|
            0 <= k < styles_under(dom, rules, cs, h).len() ==> (#[trigger] styles_under(
                dom,
                rules,
                cs,
                h,
            )[k]).1 == node_style(dom, rules, styles_under(dom, rules, cs, h)[k].0),
    decreases h, 0nat, cs.len(),
{
    if cs.len() > 0 {
        lemma_under_consistent(dom, rules, cs.drop_last(), h);
        let before = styles_under(dom, rules, cs.drop_last(), h);
        if dom.height_of(cs.last()) < h {
            lemma_styles_consistent(dom, rules, cs.last());
            let more = styles_from(dom, rules, cs.last());
            assert forall|k: int| 0 <= k < (before + more).len() implies (#[trigger] (before
                + more)[k]).1 == node_style(dom, rules, (before + more)[k].0) by {
                if k >= before.len() {
                    assert((before + more)[k] == more[k - before.len()]);
                } else {
                    assert((before + more)[k] == before[k]);
                }
            }
        }
    }
}

} // verus!
