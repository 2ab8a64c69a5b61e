//! The CSS scanner: style sheets (selector lists with declaration blocks)
//! and inline declaration lists, read byte by byte with `/* */` comments
//! skipped as whitespace.
use vstd::prelude::*;
use crate::text::{lower_char, chars_to_string};
use crate::hb_css::selectors::{Selector, PartView, parse_selector_list, parse_selector_list_spec, selectors_view};

verus! {

#[derive(Debug, Clone, Copy, PartialEq, Eq, Structural)]
pub struct Color(pub u8, pub u8, pub u8, pub u8);

impl Color {
    pub fn rgba(r: u8, g: u8, b: u8, a: u8) -> (c: Self)
        ensures
            c == Color(r, g, b, a),
    {
        Color(r, g, b, a)
    }

    pub fn to_rgba(self) -> (r: [u8; 4])
        ensures
            r@ == seq![self.0, self.1, self.2, self.3],
    {
        [self.0, self.1, self.2, self.3]
    }
}

/// A length in CSS pixels, kept as the decimal numeral it was written with;
/// the numeral is a valid `f32` literal (see `is_float_literal`).
#[derive(Debug, Clone, PartialEq, Eq)]
pub struct Px {
    pub text: String,
}

#[derive(Debug, Clone, PartialEq, Eq)]
pub enum Value {
    Color(Color),
    LengthPx(Px),
    Ident(String),
}

pub enum ValueView {
    Color(Color),
    LengthPx(Seq<char>),
    Ident(Seq<char>),
}

impl View for Value {
    type V = ValueView;

    open spec fn view(&self) -> ValueView {
        match self {
            Value::Color(c) => ValueView::Color(*c),
            Value::LengthPx(p) => ValueView::LengthPx(p.text@),
            Value::Ident(s) => ValueView::Ident(s@),
        }
    }
}

#[derive(Debug, Clone, PartialEq, Eq)]
pub struct Declaration {
    pub name: String,
    pub value: Value,
}

pub struct DeclView {
    pub name: Seq<char>,
    pub value: ValueView,
}

impl View for Declaration {
    type V = DeclView;

    open spec fn view(&self) -> DeclView {
        DeclView { name: self.name@, value: self.value@ }
    }
}

pub open spec fn decls_view(v: Seq<Declaration>) -> Seq<DeclView> {
    v.map_values(|d: Declaration| d@)
}

#[derive(Debug, Clone, PartialEq, Eq)]
pub struct Rule {
    pub selectors: Vec<Selector>,
    pub declarations: Vec<Declaration>,
    pub source_order: u32,
}

pub struct RuleView {
    pub selectors: Seq<Seq<PartView>>,
    pub declarations: Seq<DeclView>,
    pub source_order: u32,
}

impl View for Rule {
    type V = RuleView;

    open spec fn view(&self) -> RuleView {
        RuleView {
            selectors: selectors_view(self.selectors@),
            declarations: decls_view(self.declarations@),
            source_order: self.source_order,
        }
    }
}

pub open spec fn rules_view(v: Seq<Rule>) -> Seq<RuleView> {
    v.map_values(|r: Rule| r@)
}

#[derive(Debug, Clone, PartialEq, Eq)]
pub struct Stylesheet {
    pub rules: Vec<Rule>,
}

impl View for Stylesheet {
    type V = Seq<RuleView>;

    open spec fn view(&self) -> Seq<RuleView> {
        rules_view(self.rules@)
    }
}

#[derive(Debug)]
pub enum ParseError {
    Eof,
    Invalid(String),
}

impl ParseError {
    /// The error's description.
    pub fn message(&self) -> (r: String)
        ensures
            r@ == (match self {
                ParseError::Eof => "unexpected EOF"@,
                ParseError::Invalid(s) => "invalid token near "@ + s@,
            }),
    {
        match self {
            ParseError::Eof => String::from_str("unexpected EOF"),
            ParseError::Invalid(s) => {
                let mut m = String::from_str("invalid token near ");
                m.append(s.as_str());
                m
            },
        }
    }
}

// ---------------------------------------------------------------------------
// Bytes.
// ---------------------------------------------------------------------------
/// `u8::is_ascii_whitespace`: space, tab, line feed, form feed, carriage return.
pub open spec fn is_css_ws(b: u8) -> bool {
    b == 0x20 || b == 0x09 || b == 0x0A || b == 0x0C || b == 0x0D
}

pub open spec fn is_digit_b(b: u8) -> bool {
    0x30 <= b <= 0x39
}

pub open spec fn is_alpha_b(b: u8) -> bool {
    (0x41 <= b <= 0x5A) || (0x61 <= b <= 0x7A)
}

pub open spec fn is_hex_b(b: u8) -> bool {
    is_digit_b(b) || (0x41 <= b <= 0x46) || (0x61 <= b <= 0x66)
}

/// The byte classes the scanner reads runs of.
#[derive(Clone, Copy)]
pub enum ByteClass {
    /// Letters, digits, `-` and `_`.
    Ident,
    /// Hexadecimal digits.
    Hex,
    /// Letters.
    Alpha,
    /// Digits, `.` and `-`.
    Number,
}

pub open spec fn in_class(c: ByteClass, b: u8) -> bool {
    match c {
        ByteClass::Ident => is_digit_b(b) || is_alpha_b(b) || b == 0x2D || b == 0x5F,
        ByteClass::Hex => is_hex_b(b),
        ByteClass::Alpha => is_alpha_b(b),
        ByteClass::Number => is_digit_b(b) || b == 0x2E || b == 0x2D,
    }
}

fn class_has(c: ByteClass, b: u8) -> (r: bool)
    ensures
        r == in_class(c, b),
{
    let digit = 0x30 <= b && b <= 0x39;
    let alpha = (0x41 <= b && b <= 0x5A) || (0x61 <= b && b <= 0x7A);
    match c {
        ByteClass::Ident => digit || alpha || b == 0x2D || b == 0x5F,
        ByteClass::Hex => digit || (0x41 <= b && b <= 0x46) || (0x61 <= b && b <= 0x66),
        ByteClass::Alpha => alpha,
        ByteClass::Number => digit || b == 0x2E || b == 0x2D,
    }
}

/// End of the run of bytes of class `c` that starts at `i`.
pub open spec fn run_end(s: Seq<u8>, i: int, c: ByteClass) -> int
    decreases s.len() - i,
{
    if i < 0 || i >= s.len() {
        i
    } else if in_class(c, s[i]) {
        run_end(s, i + 1, c)
    } else {
        i
    }
}

pub proof fn lemma_run_end_bounds(s: Seq<u8>, i: int, c: ByteClass)
    requires
        0 <= i <= s.len(),
    ensures
        i <= run_end(s, i, c) <= s.len(),
    decreases s.len() - i,
{
    if i < s.len() && in_class(c, s[i]) {
        lemma_run_end_bounds(s, i + 1, c);
    }
}

/// The chars of ASCII bytes, lower-cased.
pub open spec fn lower_ascii(t: Seq<u8>) -> Seq<char> {
    t.map_values(|b: u8| lower_char(b as char))
}

pub open spec fn ascii_chars(t: Seq<u8>) -> Seq<char> {
    t.map_values(|b: u8| b as char)
}

pub open spec fn starts_b(s: Seq<u8>, i: int, pat: Seq<u8>) -> bool {
    0 <= i && i + pat.len() <= s.len() && s.subrange(i, i + pat.len()) =~= pat
}

pub open spec fn comment_end() -> Seq<u8> {
    seq![0x2Au8, 0x2Fu8]
}

pub open spec fn comment_start() -> Seq<u8> {
    seq![0x2Fu8, 0x2Au8]
}

/// First `*/` at or after `j`.
pub open spec fn find_comment_end(s: Seq<u8>, j: int) -> Option<int>
    decreases s.len() - j,
{
    if j < 0 || j >= s.len() {
        None
    } else if starts_b(s, j, comment_end()) {
        Some(j)
    } else {
        find_comment_end(s, j + 1)
    }
}

pub proof fn lemma_find_comment_end_bounds(s: Seq<u8>, j: int)
    requires
        0 <= j <= s.len(),
    ensures
        find_comment_end(s, j) matches Some(e) ==> j <= e && e + 2 <= s.len(),
    decreases s.len() - j,
{
    if j < s.len() && !starts_b(s, j, comment_end()) {
        lemma_find_comment_end_bounds(s, j + 1);
    }
}

/// Position after whitespace and comments from `i` (an unclosed comment runs to the end).
pub open spec fn css_skip(s: Seq<u8>, i: int) -> int
    decreases s.len() - i,
{
    if i < 0 || i >= s.len() {
        i
    } else if is_css_ws(s[i]) {
        css_skip(s, i + 1)
    } else if starts_b(s, i, comment_start()) {
        match find_comment_end(s, i + 2) {
            Some(e) => {
                proof {
                    lemma_find_comment_end_bounds(s, i + 2);
                }
                css_skip(s, e + 2)
            },
            None => s.len() as int,
        }
    } else {
        i
    }
}

pub proof fn lemma_css_skip_bounds(s: Seq<u8>, i: int)
    requires
        0 <= i <= s.len(),
    ensures
        i <= css_skip(s, i) <= s.len(),
    decreases s.len() - i,
{
    if i < s.len() {
        if is_css_ws(s[i]) {
            lemma_css_skip_bounds(s, i + 1);
        } else if starts_b(s, i, comment_start()) {
            lemma_find_comment_end_bounds(s, i + 2);
            if let Some(e) = find_comment_end(s, i + 2) {
                lemma_css_skip_bounds(s, e + 2);
            }
        }
    }
}

/// First position at or after `i` holding byte `b`, or the end.
pub open spec fn find_byte(s: Seq<u8>, i: int, b: u8) -> int
    decreases s.len() - i,
{
    if i < 0 || i >= s.len() {
        i
    } else if s[i] == b {
        i
    } else {
        find_byte(s, i + 1, b)
    }
}

pub proof fn lemma_find_byte_bounds(s: Seq<u8>, i: int, b: u8)
    requires
        0 <= i <= s.len(),
    ensures
        i <= find_byte(s, i, b) <= s.len(),
        find_byte(s, i, b) < s.len() ==> s[find_byte(s, i, b)] == b,
    decreases s.len() - i,
{
    if i < s.len() && s[i] != b {
        lemma_find_byte_bounds(s, i + 1, b);
    }
}

// ---------------------------------------------------------------------------
// Values.
// ---------------------------------------------------------------------------
pub open spec fn hex_digit_value(b: u8) -> int {
    if is_digit_b(b) {
        b - 0x30
    } else if 0x61 <= b <= 0x66 {
        b - 0x61 + 10
    } else {
        b - 0x41 + 10
    }
}

/// Hex digits read as their base-16 values: `0`–`9` as 0–9, and `a`–`f` and
/// `A`–`F` alike as 10–15; so a pair of digits is the same byte in either
/// case.
pub proof fn lemma_hex_digit_values()
    ensures
        forall|b: u8| 0x30 <= b <= 0x39 ==> #[trigger] hex_digit_value(b) == b - 0x30,
        forall|b: u8| 0x61 <= b <= 0x66 ==> #[trigger] hex_digit_value(b) == b - 0x61 + 10,
        forall|b: u8| 0x41 <= b <= 0x46 ==> #[trigger] hex_digit_value(b) == b - 0x41 + 10,
        forall|b: u8|
            0x41 <= b <= 0x46 ==> #[trigger] hex_digit_value(b) == hex_digit_value((b + 0x20) as u8),
        forall|b: u8| is_hex_b(b) ==> 0 <= #[trigger] hex_digit_value(b) < 16,
        forall|a: u8, b: u8|
            0x41 <= a <= 0x46 && 0x41 <= b <= 0x46 ==> #[trigger] hex_pair(a, b) == hex_pair(
                (a + 0x20) as u8,
                (b + 0x20) as u8,
            ) && hex_pair(a, b) == 16 * (a - 0x41 + 10) + (b - 0x41 + 10),
{
}

/// The byte written by two hex digits.
pub open spec fn hex_pair(a: u8, b: u8) -> u8 {
    (16 * hex_digit_value(a) + hex_digit_value(b)) as u8
}

/// `t` without a leading `-`.
pub open spec fn float_body(t: Seq<u8>) -> Seq<u8> {
    if t.len() > 0 && t[0] == 0x2D {
        t.drop_first()
    } else {
        t
    }
}

/// `t` parses as an `f32` literal: an optional `-`, then digits with at most
/// one `.` and at least one digit.
pub open spec fn is_float_literal(t: Seq<u8>) -> bool {
    let body = float_body(t);
    &&& forall|k: int| 0 <= k < body.len() ==> body[k] != 0x2D
    &&& forall|k1: int, k2: int| 0 <= k1 < k2 < body.len() ==> !(body[k1] == 0x2E && body[k2] == 0x2E)
    &&& exists|k: int| 0 <= k < body.len() && is_digit_b(body[k])
}

pub open spec fn px_word() -> Seq<char> {
    seq!['p', 'x']
}

/// The value that starts at `i`, and where it ends: `#` with exactly six hex
/// digits is a color (other hex runs are dropped); a number run followed by
/// `px` that forms a valid literal is a length; anything else is an
/// identifier made of the number run (if any) and the identifier bytes that follow.
#[verifier::opaque]
pub open spec fn read_value_spec(s: Seq<u8>, i: int) -> (ValueView, int) {
    let has_hash = 0 <= i < s.len() && s[i] == 0x23;
    let h = run_end(s, i + 1, ByteClass::Hex);
    if has_hash && h - (i + 1) == 6 {
        (
            ValueView::Color(
                Color(
                    hex_pair(s[i + 1], s[i + 2]),
                    hex_pair(s[i + 3], s[i + 4]),
                    hex_pair(s[i + 5], s[i + 6]),
                    255,
                ),
            ),
            h,
        )
    } else {
        let i1 = if has_hash {
            h
        } else {
            i
        };
        let t = run_end(s, i1, ByteClass::Number);
        let tmp = s.subrange(i1, t);
        if tmp.len() > 0 {
            let a = run_end(s, t, ByteClass::Alpha);
            if lower_ascii(s.subrange(t, a)) == px_word() && is_float_literal(tmp) {
                (ValueView::LengthPx(ascii_chars(tmp)), a)
            } else {
                let e = run_end(s, a, ByteClass::Ident);
                (ValueView::Ident(ascii_chars(tmp) + lower_ascii(s.subrange(a, e))), e)
            }
        } else {
            let e = run_end(s, t, ByteClass::Ident);
            (ValueView::Ident(lower_ascii(s.subrange(t, e))), e)
        }
    }
}

pub proof fn lemma_read_value_bounds(s: Seq<u8>, i: int)
    requires
        0 <= i <= s.len(),
    ensures
        i <= read_value_spec(s, i).1 <= s.len(),
{
    reveal(read_value_spec);
    let has_hash = 0 <= i < s.len() && s[i] == 0x23;
    if has_hash {
        lemma_run_end_bounds(s, i + 1, ByteClass::Hex);
    }
    let h = run_end(s, i + 1, ByteClass::Hex);
    let i1 = if has_hash {
        h
    } else {
        i
    };
    lemma_run_end_bounds(s, i1, ByteClass::Number);
    let t = run_end(s, i1, ByteClass::Number);
    lemma_run_end_bounds(s, t, ByteClass::Alpha);
    let a = run_end(s, t, ByteClass::Alpha);
    lemma_run_end_bounds(s, a, ByteClass::Ident);
    lemma_run_end_bounds(s, t, ByteClass::Ident);
}

// ---------------------------------------------------------------------------
// Declarations and rules.
// ---------------------------------------------------------------------------
/// One declaration read at `j`: name, optional `:`, value, optional `;`;
/// gives the declaration and where the next one starts.
#[verifier::opaque]
pub open spec fn decl_at(s: Seq<u8>, j: int) -> (DeclView, int) {
    let n = run_end(s, j, ByteClass::Ident);
    let name = lower_ascii(s.subrange(j, n));
    let k = css_skip(s, n);
    let k2 = if k < s.len() && s[k] == 0x3A {
        k + 1
    } else {
        k
    };
    let (value, ve) = read_value_spec(s, css_skip(s, k2));
    let m = css_skip(s, ve);
    let m2 = if m < s.len() && s[m] == 0x3B {
        m + 1
    } else {
        m
    };
    (DeclView { name, value }, m2)
}

pub proof fn lemma_decl_at_bounds(s: Seq<u8>, j: int)
    requires
        0 <= j <= s.len(),
    ensures
        j <= decl_at(s, j).1 <= s.len(),
{
    reveal(decl_at);
    lemma_run_end_bounds(s, j, ByteClass::Ident);
    let n = run_end(s, j, ByteClass::Ident);
    lemma_css_skip_bounds(s, n);
    let k = css_skip(s, n);
    let k2 = if k < s.len() && s[k] == 0x3A {
        k + 1
    } else {
        k
    };
    lemma_css_skip_bounds(s, k2);
    lemma_read_value_bounds(s, css_skip(s, k2));
    let ve = read_value_spec(s, css_skip(s, k2)).1;
    lemma_css_skip_bounds(s, ve);
}

/// The declarations of a block read from `i` (appended to `acc`) up to `}` or
/// the end, and where reading stopped; `None` when the reader stops making
/// progress, where reading would go on forever.
pub open spec fn block_spec(s: Seq<u8>, i: int, acc: Seq<DeclView>) -> Option<(Seq<DeclView>, int)>
    decreases s.len() - i,
{
    if i < 0 || i > s.len() {
        None
    } else {
        let j = css_skip(s, i);
        if j >= s.len() || s[j] == 0x7D {
            Some((acc, j))
        } else {
            let (d, m2) = decl_at(s, j);
            proof {
                lemma_css_skip_bounds(s, i);
                lemma_decl_at_bounds(s, j);
            }
            if m2 <= i {
                None
            } else {
                block_spec(s, m2, acc.push(d))
            }
        }
    }
}

/// An inline declaration list read from `i` (appended to `acc`); reading
/// stops at the end or at a name that is not followed by `:`.
pub open spec fn decl_list_spec(s: Seq<u8>, i: int, acc: Seq<DeclView>) -> Seq<DeclView>
    decreases s.len() - i,
{
    if i < 0 || i > s.len() {
        acc
    } else {
        let j = css_skip(s, i);
        if j >= s.len() {
            acc
        } else {
            let n = run_end(s, j, ByteClass::Ident);
            let k = css_skip(s, n);
            if k < s.len() && s[k] == 0x3A {
                let (d, m2) = decl_at(s, j);
                proof {
                    lemma_css_skip_bounds(s, i);
                    lemma_run_end_bounds(s, j, ByteClass::Ident);
                    lemma_css_skip_bounds(s, n);
                    lemma_decl_at_bounds(s, j);
                }
                if m2 <= i {
                    acc
                } else {
                    decl_list_spec(s, m2, acc.push(d))
                }
            } else {
                acc
            }
        }
    }
}

pub proof fn lemma_block_bounds(s: Seq<u8>, i: int, acc: Seq<DeclView>)
    ensures
        block_spec(s, i, acc) matches Some((_, d)) ==> i <= d <= s.len(),
    decreases s.len() - i,
{
    if 0 <= i <= s.len() {
        lemma_css_skip_bounds(s, i);
        let j = css_skip(s, i);
        if !(j >= s.len() || s[j] == 0x7D) {
            let (d, m2) = decl_at(s, j);
            lemma_decl_at_bounds(s, j);
            if m2 > i {
                lemma_block_bounds(s, m2, acc.push(d));
            }
        }
    }
}

/// Text of a byte slice with invalid UTF-8 replaced (`String::from_utf8_lossy`).
pub uninterp spec fn utf8_lossy_spec(b: Seq<u8>) -> Seq<char>;

/// `String::from_utf8_lossy`: valid UTF-8 decodes as is; the result is named
/// by `utf8_lossy_spec` for every input.
#[verifier::external_body]
fn utf8_lossy(b: &[u8]) -> (r: String)
    ensures
        r@ == utf8_lossy_spec(b@),
        vstd::utf8::valid_utf8(b@) ==> r@ == vstd::utf8::decode_utf8(b@),
{
    String::from_utf8_lossy(b).to_string()
}

/// One rule read at `j` (after whitespace): the selector text up to `{`,
/// an optional `{`, a declaration block, an optional `}`; gives the
/// selectors, the declarations and where the next rule starts. `None` when
/// the block never ends.
#[verifier::opaque]
pub open spec fn rule_at(s: Seq<u8>, j: int) -> Option<(Seq<Seq<PartView>>, Seq<DeclView>, int)> {
    let b = find_byte(s, j, 0x7B);
    let sels = parse_selector_list_spec(utf8_lossy_spec(s.subrange(j, b)));
    let c = css_skip(s, b);
    let c2 = if c < s.len() && s[c] == 0x7B {
        c + 1
    } else {
        c
    };
    match block_spec(s, c2, Seq::empty()) {
        None => None,
        Some((decls, d)) => {
            let e = css_skip(s, d);
            let e2 = if e < s.len() && s[e] == 0x7D {
                e + 1
            } else {
                e
            };
            Some((sels, decls, e2))
        },
    }
}

pub proof fn lemma_rule_at_bounds(s: Seq<u8>, j: int)
    requires
        0 <= j < s.len(),
    ensures
        rule_at(s, j) matches Some((_, _, e)) ==> j < e <= s.len(),
{
    reveal(rule_at);
    lemma_find_byte_bounds(s, j, 0x7B);
    let b = find_byte(s, j, 0x7B);
    lemma_css_skip_bounds(s, b);
    if b == j {
        assert(s[j] == 0x7B);
        assert(css_skip(s, j) == j);
    }
    let c = css_skip(s, b);
    let c2 = if c < s.len() && s[c] == 0x7B {
        c + 1
    } else {
        c
    };
    lemma_block_bounds(s, c2, Seq::empty());
    if let Some((decls, d)) = block_spec(s, c2, Seq::empty()) {
        lemma_css_skip_bounds(s, d);
    }
}

/// The rules read from `i` on (appended to `rules`, numbered from
/// `order + 1`); `None` when a block never ends.
pub open spec fn rules_spec(s: Seq<u8>, i: int, order: int, rules: Seq<RuleView>) -> Option<Seq<RuleView>>
    decreases s.len() - i,
{
    if i < 0 || i > s.len() {
        None
    } else {
        let j = css_skip(s, i);
        if j >= s.len() {
            Some(rules)
        } else {
            match rule_at(s, j) {
                None => None,
                Some((sels, decls, e2)) => {
                    proof {
                        lemma_css_skip_bounds(s, i);
                        lemma_rule_at_bounds(s, j);
                    }
                    rules_spec(
                        s,
                        e2,
                        order + 1,
                        rules.push(
                            RuleView {
                                selectors: sels,
                                declarations: decls,
                                source_order: (order + 1) as u32,
                            },
                        ),
                    )
                },
            }
        }
    }
}

proof fn lemma_rules_spec_numbered(s: Seq<u8>, i: int, order: int, rules: Seq<RuleView>)
    requires
        0 <= i <= s.len(),
        s.len() < u32::MAX,
        rules.len() == order,
        order <= i,
        forall|k: int| 0 <= k < rules.len() ==> (#[trigger] rules[k]).source_order == k + 1,
    ensures
        rules_spec(s, i, order, rules) matches Some(rs) ==> forall|k: int|
            0 <= k < rs.len() ==> (#[trigger] rs[k]).source_order == k + 1,
    decreases s.len() - i,
{
    let j = css_skip(s, i);
    lemma_css_skip_bounds(s, i);
    if j < s.len() {
        lemma_rule_at_bounds(s, j);
        match rule_at(s, j) {
            None => {},
            Some((sels, decls, e2)) => {
                let r2 = rules.push(
                    RuleView { selectors: sels, declarations: decls, source_order: (order + 1) as u32 },
                );
                assert forall|k: int| 0 <= k < r2.len() implies (#[trigger] r2[k]).source_order == k + 1 by {
                    if k < rules.len() {
                        assert(r2[k] == rules[k]);
                    }
                }
                lemma_rules_spec_numbered(s, e2, order + 1, r2);
            },
        }
    }
}

/// Rules are numbered by their place in the sheet: the `k`-th rule read
/// (from zero) has source order `k + 1`, so a later rule ranks above an
/// earlier one of equal specificity.
pub proof fn lemma_rules_numbered(src: Seq<char>)
    requires
        vstd::utf8::encode_utf8(src).len() < u32::MAX,
    ensures
        parse_css_spec(src) matches Some(rs) ==> forall|k: int|
            0 <= k < rs.len() ==> (#[trigger] rs[k]).source_order == k + 1,
{
    lemma_rules_spec_numbered(vstd::utf8::encode_utf8(src), 0, 0, Seq::empty());
}

/// The style sheet read from `src`; `None` when reading never ends.
pub open spec fn parse_css_spec(src: Seq<char>) -> Option<Seq<RuleView>> {
    rules_spec(vstd::utf8::encode_utf8(src), 0, 0, Seq::empty())
}

pub open spec fn parse_inline_spec(src: Seq<char>) -> Seq<DeclView> {
    decl_list_spec(vstd::utf8::encode_utf8(src), 0, Seq::empty())
}

// ---------------------------------------------------------------------------
// The scanner.
// ---------------------------------------------------------------------------
struct Parser {
    s: Vec<u8>,
    i: usize,
    order: u32,
}

impl Parser {
    fn new(src: &str) -> (r: Self)
        ensures
            r.s@ == vstd::utf8::encode_utf8(src@),
            r.i == 0,
            r.order == 0,
            r.wf(),
    {
        let b = src.as_bytes();
        let mut s: Vec<u8> = Vec::new();
        let mut k: usize = 0;
        while k < b.len()
            invariant
                k <= b@.len(),
                s@ =~= b@.take(k as int),
            decreases b.len() - k,
        {
            s.push(b[k]);
            assert(b@.take(k + 1) =~= b@.take(k as int).push(b@[k as int]));
            k = k + 1;
        }
        assert(b@.take(b@.len() as int) =~= b@);
        let _n = s.len();
        Parser { s, i: 0, order: 0 }
    }

    spec fn wf(&self) -> bool {
        self.i <= self.s@.len() <= usize::MAX
    }

    fn eof(&self) -> (r: bool)
        ensures
            r == (self.i >= self.s@.len()),
    {
        self.i >= self.s.len()
    }

    fn cur(&self) -> (r: Option<u8>)
        ensures
            r == (if self.i < self.s@.len() {
                Some(self.s@[self.i as int])
            } else {
                None::<u8>
            }),
    {
        if self.i < self.s.len() {
            Some(self.s[self.i])
        } else {
            None
        }
    }

    fn bump(&mut self) -> (r: Option<u8>)
        requires
            old(self).wf(),
        ensures
            final(self).wf(),
            final(self).s@ == old(self).s@,
            final(self).order == old(self).order,
            r == (if old(self).i < old(self).s@.len() {
                Some(old(self).s@[old(self).i as int])
            } else {
                None::<u8>
            }),
            final(self).i == (if old(self).i < old(self).s@.len() {
                old(self).i + 1
            } else {
                old(self).i as int
            }),
    {
        let c = self.cur()?;
        self.i = self.i + 1;
        Some(c)
    }

    fn starts_with(&self, pat: &[u8]) -> (r: bool)
        ensures
            r == starts_b(self.s@, self.i as int, pat@),
    {
        if self.i > self.s.len() || pat.len() > self.s.len() - self.i {
            return false;
        }
        let mut k: usize = 0;
        while k < pat.len()
            invariant
                self.i + pat@.len() <= self.s@.len(),
                pat@.len() == pat.len(),
                self.s@.len() == self.s.len(),
                k <= pat@.len(),
                forall|m: int| 0 <= m < k ==> self.s@[self.i + m] == pat@[m],
            decreases pat.len() - k,
        {
            if self.s[self.i + k] != pat[k] {
                assert(self.s@.subrange(self.i as int, self.i + pat@.len())[k as int] != pat@[k as int]);
                return false;
            }
            k = k + 1;
        }
        assert(self.s@.subrange(self.i as int, self.i + pat@.len()) =~= pat@);
        true
    }

    fn skip_ws(&mut self)
        requires
            old(self).wf(),
        ensures
            final(self).wf(),
            final(self).s@ == old(self).s@,
            final(self).order == old(self).order,
            final(self).i == css_skip(old(self).s@, old(self).i as int),
    {
        let ghost s = self.s@;
        let ghost i0 = self.i as int;
        loop
            invariant_except_break
                self.wf(),
                self.s@ == s,
                self.order == old(self).order,
                css_skip(s, self.i as int) == css_skip(s, i0),
            ensures
                self.wf(),
                self.s@ == s,
                self.order == old(self).order,
                self.i == css_skip(s, i0),
            decreases s.len() - self.i,
        {
            match self.cur() {
                Some(c) => {
                    if c == 0x20 || c == 0x09 || c == 0x0A || c == 0x0C || c == 0x0D {
                        self.i = self.i + 1;
                    } else if self.starts_with(&[0x2F, 0x2A]) {
                        assert(seq![0x2Fu8, 0x2Au8] =~= comment_start());
                        let ghost at = self.i as int;
                        self.i = self.i + 2;
                        while !self.eof() && !self.starts_with(&[0x2A, 0x2F])
                            invariant
                                self.wf(),
                                self.s@ == s,
                                self.order == old(self).order,
                                at + 2 <= self.i,
                                find_comment_end(s, self.i as int) == find_comment_end(s, at + 2),
                            decreases s.len() - self.i,
                        {
                            assert(seq![0x2Au8, 0x2Fu8] =~= comment_end());
                            self.i = self.i + 1;
                        }
                        assert(seq![0x2Au8, 0x2Fu8] =~= comment_end());
                        if self.starts_with(&[0x2A, 0x2F]) {
                            self.i = self.i + 2;
                        }
                    } else {
                        assert(seq![0x2Fu8, 0x2Au8] =~= comment_start());
                        break ;
                    }
                },
                None => {
                    break ;
                },
            }
        }
    }

    /// Reads the run of bytes of class `c`, lower-cased.
    fn read_while(&mut self, c: ByteClass) -> (r: Vec<char>)
        requires
            old(self).wf(),
        ensures
            final(self).wf(),
            final(self).s@ == old(self).s@,
            final(self).order == old(self).order,
            final(self).i == run_end(old(self).s@, old(self).i as int, c),
            r@ == lower_ascii(old(self).s@.subrange(old(self).i as int, final(self).i as int)),
    {
        let ghost s = self.s@;
        let start = self.i;
        let mut out: Vec<char> = Vec::new();
        while self.i < self.s.len() && class_has(c, self.s[self.i])
            invariant
                self.wf(),
                self.s@ == s,
                self.order == old(self).order,
                start <= self.i,
                run_end(s, self.i as int, c) == run_end(s, start as int, c),
                out@ == lower_ascii(s.subrange(start as int, self.i as int)),
            decreases s.len() - self.i,
        {
            let b = self.s[self.i];
            let ch = crate::text::to_lower_char(b as char);
            out.push(ch);
            assert(lower_ascii(s.subrange(start as int, self.i + 1)) =~= lower_ascii(
                s.subrange(start as int, self.i as int),
            ).push(lower_char(b as char)));
            self.i = self.i + 1;
        }
        out
    }

    fn read_ident(&mut self) -> (r: Vec<char>)
        requires
            old(self).wf(),
        ensures
            final(self).wf(),
            final(self).s@ == old(self).s@,
            final(self).order == old(self).order,
            final(self).i == run_end(old(self).s@, old(self).i as int, ByteClass::Ident),
            r@ == lower_ascii(old(self).s@.subrange(old(self).i as int, final(self).i as int)),
    {
        self.read_while(ByteClass::Ident)
    }

    fn expect_byte(&mut self, b: u8)
        requires
            old(self).wf(),
        ensures
            final(self).wf(),
            final(self).s@ == old(self).s@,
            final(self).order == old(self).order,
            ({
                let k = css_skip(old(self).s@, old(self).i as int);
                final(self).i == if k < old(self).s@.len() && old(self).s@[k] == b {
                    k + 1
                } else {
                    k
                }
            }),
    {
        self.skip_ws();
        if self.cur() == Some(b) {
            self.i = self.i + 1;
        }
    }

    fn read_until_byte(&mut self, byte: u8) -> (r: String)
        requires
            old(self).wf(),
        ensures
            final(self).wf(),
            final(self).s@ == old(self).s@,
            final(self).order == old(self).order,
            final(self).i == find_byte(old(self).s@, old(self).i as int, byte),
            r@ == utf8_lossy_spec(old(self).s@.subrange(old(self).i as int, final(self).i as int)),
    {
        let ghost s = self.s@;
        let start = self.i;
        while self.i < self.s.len() && self.s[self.i] != byte
            invariant
                self.wf(),
                self.s@ == s,
                self.order == old(self).order,
                start <= self.i,
                find_byte(s, self.i as int, byte) == find_byte(s, start as int, byte),
            decreases s.len() - self.i,
        {
            self.i = self.i + 1;
        }
        let slice = crate::text::slice_bytes(&self.s, start, self.i);
        utf8_lossy(slice.as_slice())
    }
}

fn hex_val(b: u8) -> (r: u8)
    requires
        is_hex_b(b),
    ensures
        r as int == hex_digit_value(b),
        r < 16,
{
    if 0x30 <= b && b <= 0x39 {
        b - 0x30
    } else if 0x61 <= b && b <= 0x66 {
        b - 0x61 + 10
    } else {
        b - 0x41 + 10
    }
}

fn hex_byte(a: u8, b: u8) -> (r: u8)
    requires
        is_hex_b(a),
        is_hex_b(b),
    ensures
        r == hex_pair(a, b),
{
    let x = hex_val(a);
    let y = hex_val(b);
    16 * x + y
}

fn float_literal_ok(s: &Vec<u8>, a: usize, b: usize) -> (r: bool)
    requires
        a <= b <= s@.len(),
    ensures
        r == is_float_literal(s@.subrange(a as int, b as int)),
{
    let ghost t = s@.subrange(a as int, b as int);
    let start: usize = if a < b && s[a] == 0x2D {
        a + 1
    } else {
        a
    };
    let ghost body = float_body(t);
    assert(t.len() > 0 ==> t[0] == s@[a as int]);
    assert(body =~= s@.subrange(start as int, b as int));
    let mut k: usize = start;
    let mut dots: usize = 0;
    let mut digit = false;
    while k < b
        invariant
            start <= k <= b <= s@.len(),
            body == s@.subrange(start as int, b as int),
            body == float_body(t),
            t == s@.subrange(a as int, b as int),
            forall|m: int| 0 <= m < k - start ==> body[m] != 0x2D,
            dots <= 1,
            dots == 0 ==> forall|m: int| 0 <= m < k - start ==> body[m] != 0x2E,
            forall|m1: int, m2: int| 0 <= m1 < m2 < k - start ==> !(body[m1] == 0x2E && body[m2] == 0x2E),
            dots == 1 ==> exists|m: int| 0 <= m < k - start && body[m] == 0x2E,
            digit == exists|m: int| 0 <= m < k - start && is_digit_b(body[m]),
        decreases b - k,
    {
        let c = s[k];
        assert(body[k - start] == c);
        if c == 0x2D {
            assert(float_body(t)[k - start] == 0x2D);
            assert(!is_float_literal(t));
            return false;
        }
        if c == 0x2E {
            if dots == 1 {
                let ghost m1 = choose|m: int| 0 <= m < k - start && body[m] == 0x2E;
                assert(float_body(t)[m1] == 0x2E && float_body(t)[k - start] == 0x2E);
                assert(!is_float_literal(t));
                return false;
            }
            dots = 1;
        }
        if 0x30 <= c && c <= 0x39 {
            digit = true;
        }
        k = k + 1;
    }
    assert(digit == is_float_literal(t));
    digit
}

fn ascii_string(s: &Vec<u8>, a: usize, b: usize) -> (r: Vec<char>)
    requires
        a <= b <= s@.len(),
    ensures
        r@ == ascii_chars(s@.subrange(a as int, b as int)),
{
    let mut r: Vec<char> = Vec::new();
    let mut k: usize = a;
    while k < b
        invariant
            a <= k <= b <= s@.len(),
            r@ == ascii_chars(s@.subrange(a as int, k as int)),
        decreases b - k,
    {
        r.push(s[k] as char);
        assert(ascii_chars(s@.subrange(a as int, k + 1)) =~= ascii_chars(
            s@.subrange(a as int, k as int),
        ).push(s@[k as int] as char));
        k = k + 1;
    }
    r
}

impl Parser {
    fn read_value(&mut self) -> (r: Value)
        requires
            old(self).wf(),
        ensures
            final(self).wf(),
            final(self).s@ == old(self).s@,
            final(self).order == old(self).order,
            (r@, final(self).i as int) == read_value_spec(old(self).s@, old(self).i as int),
    {
        reveal(read_value_spec);
        let ghost s = self.s@;
        let start = self.i;
        let has_hash = self.cur() == Some(0x23u8);
        if has_hash {
            self.i = self.i + 1;
            let hex = self.read_while(ByteClass::Hex);
            proof {
                lemma_run_end_bounds(s, start + 1, ByteClass::Hex);
                assert(hex@.len() == self.i - (start + 1));
            }
            if hex.len() == 6 {
                proof {
                    assert forall|m: int| start + 1 <= m < start + 7 implies is_hex_b(s[m]) by {
                        lemma_run_prefix_in_class(s, start + 1, ByteClass::Hex, m);
                    }
                }
                let r = hex_byte(self.s[start + 1], self.s[start + 2]);
                let g = hex_byte(self.s[start + 3], self.s[start + 4]);
                let b = hex_byte(self.s[start + 5], self.s[start + 6]);
                return Value::Color(Color(r, g, b, 255));
            }
        }
        let i1 = self.i;
        while self.i < self.s.len() && class_has(ByteClass::Number, self.s[self.i])
            invariant
                self.wf(),
                self.s@ == s,
                self.order == old(self).order,
                i1 <= self.i,
                run_end(s, self.i as int, ByteClass::Number) == run_end(s, i1 as int, ByteClass::Number),
            decreases s.len() - self.i,
        {
            self.i = self.i + 1;
        }
        let t = self.i;
        if t > i1 {
            let word = self.read_while(ByteClass::Alpha);
            if crate::text::chars_eq_lit(&word, &['p', 'x']) && float_literal_ok(&self.s, i1, t) {
                assert(seq!['p', 'x'] =~= px_word());
                let text = ascii_string(&self.s, i1, t);
                return Value::LengthPx(Px { text: chars_to_string(&text) });
            }
            assert(seq!['p', 'x'] =~= px_word());
            let mut ident = ascii_string(&self.s, i1, t);
            let rest = self.read_ident();
            let ghost before = ident@;
            ident.append(&mut rest.clone());
            assert(ident@ =~= before + rest@);
            Value::Ident(chars_to_string(&ident))
        } else {
            let ident = self.read_ident();
            Value::Ident(chars_to_string(&ident))
        }
    }

    /// One declaration: name, optional `:`, value, optional `;`.
    fn read_decl(&mut self) -> (r: Declaration)
        requires
            old(self).wf(),
        ensures
            final(self).wf(),
            final(self).s@ == old(self).s@,
            final(self).order == old(self).order,
            (r@, final(self).i as int) == decl_at(old(self).s@, old(self).i as int),
    {
        reveal(decl_at);
        let name = self.read_ident();
        self.skip_ws();
        if self.cur() == Some(0x3Au8) {
            self.i = self.i + 1;
        }
        self.skip_ws();
        let value = self.read_value();
        self.skip_ws();
        if self.cur() == Some(0x3Bu8) {
            self.i = self.i + 1;
        }
        Declaration { name: chars_to_string(&name), value }
    }

    /// The declarations of a block; `None` where the reader would go on forever.
    fn parse_declaration_block(&mut self) -> (r: Option<Vec<Declaration>>)
        requires
            old(self).wf(),
        ensures
            final(self).wf(),
            final(self).s@ == old(self).s@,
            final(self).order == old(self).order,
            match block_spec(old(self).s@, old(self).i as int, Seq::empty()) {
                Some((ds, e)) => r matches Some(v) && decls_view(v@) == ds && final(self).i == e,
                None => r is None,
            },
    {
        let ghost s = self.s@;
        let ghost i0 = self.i as int;
        let mut decls: Vec<Declaration> = Vec::new();
        assert(decls_view(decls@) =~= Seq::empty());
        loop
            invariant
                self.wf(),
                self.s@ == s,
                s == old(self).s@,
                i0 == old(self).i,
                self.order == old(self).order,
                block_spec(s, self.i as int, decls_view(decls@)) == block_spec(s, i0, Seq::empty()),
            decreases s.len() - self.i,
        {
            let start_pos: usize = self.i;
            let ghost before = start_pos as int;
            let ghost acc = decls_view(decls@);
            self.skip_ws();
            proof {
                lemma_css_skip_bounds(s, before);
            }
            if self.eof() || self.cur() == Some(0x7Du8) {
                assert(block_spec(s, before, acc) == Some((acc, self.i as int)));
                return Some(decls);
            }
            let d = self.read_decl();
            proof {
                lemma_decl_at_bounds(s, css_skip(s, before));
            }
            if self.i <= start_pos {
                return None;
            }
            let ghost dv = d@;
            decls.push(d);
            assert(decls_view(decls@) =~= acc.push(dv));
        }
    }

    fn parse_declaration_list(&mut self) -> (r: Vec<Declaration>)
        requires
            old(self).wf(),
        ensures
            decls_view(r@) == decl_list_spec(old(self).s@, old(self).i as int, Seq::empty()),
    {
        let ghost s = self.s@;
        let ghost i0 = self.i as int;
        let mut decls: Vec<Declaration> = Vec::new();
        assert(decls_view(decls@) =~= Seq::empty());
        loop
            invariant
                self.wf(),
                self.s@ == s,
                s == old(self).s@,
                i0 == old(self).i,
                decl_list_spec(s, self.i as int, decls_view(decls@)) == decl_list_spec(
                    s,
                    i0,
                    Seq::empty(),
                ),
            decreases s.len() - self.i,
        {
            let start_pos: usize = self.i;
            let ghost before = start_pos as int;
            let ghost acc = decls_view(decls@);
            self.skip_ws();
            let ghost j = self.i as int;
            proof {
                lemma_css_skip_bounds(s, before);
            }
            if self.eof() {
                assert(decl_list_spec(s, before, acc) == acc);
                return decls;
            }
            let name = self.read_ident();
            self.skip_ws();
            if self.cur() == Some(0x3Au8) {
                self.i = self.i + 1;
            } else {
                assert(decl_list_spec(s, before, acc) == acc);
                return decls;
            }
            self.skip_ws();
            let value = self.read_value();
            self.skip_ws();
            if self.cur() == Some(0x3Bu8) {
                self.i = self.i + 1;
            }
            if self.i <= start_pos {
                reveal(decl_at);
                assert(decl_list_spec(s, before, acc) == acc);
                return decls;
            }
            let d = Declaration { name: chars_to_string(&name), value };
            proof {
                lemma_decl_at_bounds(s, j);
                lemma_run_end_bounds(s, j, ByteClass::Ident);
                lemma_css_skip_bounds(s, run_end(s, j, ByteClass::Ident));
                reveal(decl_at);
                assert((d@, self.i as int) == decl_at(s, j));
            }
            let ghost dv = d@;
            decls.push(d);
            assert(decls_view(decls@) =~= acc.push(dv));
        }
    }

    /// One rule at the current position (after whitespace).
    fn parse_rule(&mut self) -> (r: Option<(Vec<Selector>, Vec<Declaration>)>)
        requires
            old(self).wf(),
            old(self).i < old(self).s@.len(),
        ensures
            final(self).wf(),
            final(self).s@ == old(self).s@,
            final(self).order == old(self).order,
            match rule_at(old(self).s@, old(self).i as int) {
                Some((sels, ds, e)) => r matches Some((v, d)) && selectors_view(v@) == sels
                    && decls_view(d@) == ds && final(self).i == e,
                None => r is None,
            },
    {
        reveal(rule_at);
        let ghost s = self.s@;
        let ghost j = self.i as int;
        let sel_src = self.read_until_byte(0x7B);
        proof {
            lemma_find_byte_bounds(s, j, 0x7B);
        }
        let selectors = parse_selector_list(sel_src.as_str());
        self.expect_byte(0x7B);
        let decls = match self.parse_declaration_block() {
            Some(d) => d,
            None => {
                return None;
            },
        };
        self.expect_byte(0x7D);
        Some((selectors, decls))
    }

    /// The rules of a style sheet; `None` where the reader would go on forever.
    fn parse_stylesheet(&mut self) -> (r: Option<Stylesheet>)
        requires
            old(self).wf(),
            old(self).i == 0,
            old(self).order == 0,
            old(self).s@.len() < u32::MAX,
        ensures
            match rules_spec(old(self).s@, 0, 0, Seq::empty()) {
                Some(rs) => r matches Some(ss) && ss@ == rs,
                None => r is None,
            },
    {
        let ghost s = self.s@;
        let mut rules: Vec<Rule> = Vec::new();
        assert(rules_view(rules@) =~= Seq::empty());
        loop
            invariant_except_break
                self.wf(),
                self.s@ == s,
                s == old(self).s@,
                s.len() < u32::MAX,
                self.order <= self.i,
                rules_spec(s, self.i as int, self.order as int, rules_view(rules@)) == rules_spec(
                    s,
                    0,
                    0,
                    Seq::empty(),
                ),
            ensures
                s == old(self).s@,
                rules_spec(s, 0, 0, Seq::empty()) == Some(rules_view(rules@)),
            decreases s.len() - self.i,
        {
            if self.eof() {
                assert(rules_spec(s, self.i as int, self.order as int, rules_view(rules@)) == Some(
                    rules_view(rules@),
                ));
                break ;
            }
            let ghost before = self.i as int;
            let ghost acc = rules_view(rules@);
            self.skip_ws();
            proof {
                lemma_css_skip_bounds(s, before);
            }
            if self.eof() {
                assert(rules_spec(s, before, self.order as int, acc) == Some(acc));
                break ;
            }
            let ghost j = self.i as int;
            proof {
                lemma_rule_at_bounds(s, j);
            }
            let (selectors, declarations) = match self.parse_rule() {
                Some(x) => x,
                None => {
                    assert(rules_spec(s, before, self.order as int, acc) is None);
                    return None;
                },
            };
            self.order = self.order + 1;
            let rule = Rule { selectors, declarations, source_order: self.order };
            let ghost rv = rule@;
            rules.push(rule);
            assert(rules_view(rules@) =~= acc.push(rv));
        }
        Some(Stylesheet { rules })
    }
}

proof fn lemma_run_prefix_in_class(s: Seq<u8>, i: int, c: ByteClass, m: int)
    requires
        0 <= i <= m < run_end(s, i, c),
    ensures
        in_class(c, s[m]),
    decreases m - i,
{
    if m > i {
        lemma_run_prefix_in_class(s, i + 1, c, m);
    }
}

/// Reads a style sheet; `None` exactly when the reader never ends (a
/// declaration block where a declaration consumes nothing).
pub fn try_parse_css(input: &str) -> (r: Option<Stylesheet>)
    requires
        vstd::utf8::encode_utf8(input@).len() < u32::MAX,
    ensures
        match parse_css_spec(input@) {
            Some(rs) => r matches Some(ss) && ss@ == rs,
            None => r is None,
        },
{
    let mut p = Parser::new(input);
    p.parse_stylesheet()
}

/// Reads a style sheet (for sources on which reading ends).
pub fn parse_css(input: &str) -> (r: Stylesheet)
    requires
        vstd::utf8::encode_utf8(input@).len() < u32::MAX,
        parse_css_spec(input@) is Some,
    ensures
        r@ == parse_css_spec(input@)->0,
{
    match try_parse_css(input) {
        Some(ss) => ss,
        None => Stylesheet { rules: Vec::new() },
    }
}

/// Reads the declarations of an inline `style` attribute.
pub fn parse_inline_decls(input: &str) -> (r: Vec<Declaration>)
    ensures
        decls_view(r@) == parse_inline_spec(input@),
{
    let mut p = Parser::new(input);
    p.parse_declaration_list()
}

} // verus!
