//! A small HTML tokenizer: text runs (with whitespace collapsed), comments,
//! doctypes, end tags and start tags with their attributes.
use vstd::prelude::*;
use crate::text::{is_ws, is_ascii_alnum_char, ascii_alnum_char, lower_char, to_lower_char, lower_seq, collapse_ws, collapse_whitespace, skip_ws_from, lemma_skip_ws_bounds, starts_at, starts_with_at, slice_chars, str_chars, chars_to_string, is_whitespace};

verus! {

#[derive(Debug, Clone, PartialEq, Eq)]
pub enum Token {
    Doctype { name: String },
    StartTag { name: String, attrs: Vec<(String, String)>, self_closing: bool },
    EndTag { name: String },
    Comment(String),
    Character(String),
    EOF,
}

/// A token with its strings seen as char sequences.
pub enum TokenView {
    Doctype { name: Seq<char> },
    StartTag { name: Seq<char>, attrs: Seq<(Seq<char>, Seq<char>)>, self_closing: bool },
    EndTag { name: Seq<char> },
    Comment(Seq<char>),
    Character(Seq<char>),
    EOF,
}

pub open spec fn string_pairs_view(v: Seq<(String, String)>) -> Seq<(Seq<char>, Seq<char>)> {
    v.map_values(|p: (String, String)| (p.0@, p.1@))
}

pub open spec fn char_pairs_view(v: Seq<(Vec<char>, Vec<char>)>) -> Seq<(Seq<char>, Seq<char>)> {
    v.map_values(|p: (Vec<char>, Vec<char>)| (p.0@, p.1@))
}

impl View for Token {
    type V = TokenView;

    open spec fn view(&self) -> TokenView {
        match self {
            Token::Doctype { name } => TokenView::Doctype { name: name@ },
            Token::StartTag { name, attrs, self_closing } => TokenView::StartTag {
                name: name@,
                attrs: string_pairs_view(attrs@),
                self_closing: *self_closing,
            },
            Token::EndTag { name } => TokenView::EndTag { name: name@ },
            Token::Comment(s) => TokenView::Comment(s@),
            Token::Character(s) => TokenView::Character(s@),
            Token::EOF => TokenView::EOF,
        }
    }
}

#[derive(Debug)]
pub enum TokenizeError {
    Eof,
}

impl TokenizeError {
    /// The error's description.
    pub fn message(&self) -> (r: String)
        ensures
            r@ == "unexpected end of input"@,
    {
        String::from_str("unexpected end of input")
    }
}

// ---------------------------------------------------------------------------
// The scanning functions, over the chars `s` of the source and a position `i`.
// ---------------------------------------------------------------------------
pub open spec fn is_name_char(c: char) -> bool {
    is_ascii_alnum_char(c) || c == '-' || c == '_' || c == ':'
}

/// First index at or after `i` holding `stop`, or `s.len()`.
pub open spec fn find_char_from(s: Seq<char>, i: int, stop: char) -> int
    decreases s.len() - i,
{
    if i < 0 || i >= s.len() {
        i
    } else if s[i] == stop {
        i
    } else {
        find_char_from(s, i + 1, stop)
    }
}

/// End of the run of name chars that starts at `i`.
pub open spec fn name_end_from(s: Seq<char>, i: int) -> int
    decreases s.len() - i,
{
    if i < 0 || i >= s.len() {
        i
    } else if is_name_char(s[i]) {
        name_end_from(s, i + 1)
    } else {
        i
    }
}

/// End of an unquoted attribute value that starts at `i`.
pub open spec fn unquoted_end_from(s: Seq<char>, i: int) -> int
    decreases s.len() - i,
{
    if i < 0 || i >= s.len() {
        i
    } else if is_ws(s[i]) || s[i] == '>' || s[i] == '/' {
        i
    } else {
        unquoted_end_from(s, i + 1)
    }
}

/// First index at or after `i` where `pat` occurs.
pub open spec fn find_seq_from(s: Seq<char>, i: int, pat: Seq<char>) -> Option<int>
    decreases s.len() - i,
{
    if i < 0 || i >= s.len() {
        None
    } else if starts_at(s, i, pat) {
        Some(i)
    } else {
        find_seq_from(s, i + 1, pat)
    }
}

pub proof fn lemma_find_char_bounds(s: Seq<char>, i: int, stop: char)
    requires
        0 <= i <= s.len(),
    ensures
        i <= find_char_from(s, i, stop) <= s.len(),
        find_char_from(s, i, stop) < s.len() ==> s[find_char_from(s, i, stop)] == stop,
        forall|k: int| i <= k < find_char_from(s, i, stop) ==> s[k] != stop,
    decreases s.len() - i,
{
    if i < s.len() && s[i] != stop {
        lemma_find_char_bounds(s, i + 1, stop);
    }
}

pub proof fn lemma_name_end_bounds(s: Seq<char>, i: int)
    requires
        0 <= i <= s.len(),
    ensures
        i <= name_end_from(s, i) <= s.len(),
    decreases s.len() - i,
{
    if i < s.len() && is_name_char(s[i]) {
        lemma_name_end_bounds(s, i + 1);
    }
}

pub proof fn lemma_unquoted_end_bounds(s: Seq<char>, i: int)
    requires
        0 <= i <= s.len(),
    ensures
        i <= unquoted_end_from(s, i) <= s.len(),
    decreases s.len() - i,
{
    if i < s.len() && !(is_ws(s[i]) || s[i] == '>' || s[i] == '/') {
        lemma_unquoted_end_bounds(s, i + 1);
    }
}

pub proof fn lemma_find_seq_bounds(s: Seq<char>, i: int, pat: Seq<char>)
    requires
        0 <= i <= s.len(),
    ensures
        find_seq_from(s, i, pat) matches Some(e) ==> i <= e && starts_at(s, e, pat),
    decreases s.len() - i,
{
    if i < s.len() && !starts_at(s, i, pat) {
        lemma_find_seq_bounds(s, i + 1, pat);
    }
}

/// A name read at `i`: the run of name chars, lower-cased, and where it ends.
pub open spec fn read_name_spec(s: Seq<char>, i: int) -> (Seq<char>, int) {
    let e = name_end_from(s, i);
    (lower_seq(s.subrange(i, e)), e)
}

/// An attribute value read at `i`: quoted with `"` or `'` (the closing quote,
/// when present, is consumed), or unquoted up to whitespace, `>` or `/`.
pub open spec fn attr_value_spec(s: Seq<char>, i: int) -> (Seq<char>, int) {
    let j = skip_ws_from(s, i);
    if j >= s.len() {
        (Seq::empty(), j)
    } else if s[j] == '"' || s[j] == '\'' {
        let k = find_char_from(s, j + 1, s[j]);
        (s.subrange(j + 1, k), if k < s.len() {
            k + 1
        } else {
            k
        })
    } else {
        let k = unquoted_end_from(s, j);
        (s.subrange(j, k), k)
    }
}

pub proof fn lemma_attr_value_bounds(s: Seq<char>, i: int)
    requires
        0 <= i <= s.len(),
    ensures
        i <= attr_value_spec(s, i).1 <= s.len(),
{
    lemma_skip_ws_bounds(s, i);
    let j = skip_ws_from(s, i);
    if j < s.len() {
        if s[j] == '"' || s[j] == '\'' {
            lemma_find_char_bounds(s, j + 1, s[j]);
        } else {
            lemma_unquoted_end_bounds(s, j);
        }
    }
}

pub open spec fn slash_gt() -> Seq<char> {
    seq!['/', '>']
}

/// The attributes of a start tag read from `i` on, appended to `acc` in source
/// order; also where the tag ends and whether it closed with `/>`.
pub open spec fn attrs_spec(s: Seq<char>, i: int, acc: Seq<(Seq<char>, Seq<char>)>) -> (
    Seq<(Seq<char>, Seq<char>)>,
    int,
    bool,
)
    decreases s.len() - i,
{
    if i < 0 || i > s.len() {
        (acc, i, false)
    } else {
        let j = skip_ws_from(s, i);
        if j >= s.len() {
            (acc, j, false)
        } else if starts_at(s, j, slash_gt()) {
            (acc, j + 2, true)
        } else if s[j] == '>' {
            (acc, j + 1, false)
        } else {
            let (name, n) = read_name_spec(s, j);
            if name.len() == 0 {
                proof {
                    lemma_skip_ws_bounds(s, i);
                }
                attrs_spec(s, j + 1, acc)
            } else {
                let k = skip_ws_from(s, n);
                let ve = if k < s.len() && s[k] == '=' {
                    attr_value_spec(s, skip_ws_from(s, k + 1))
                } else {
                    (Seq::empty(), k)
                };
                proof {
                    lemma_skip_ws_bounds(s, i);
                    lemma_name_end_bounds(s, j);
                    lemma_skip_ws_bounds(s, n);
                    if k < s.len() && s[k] == '=' {
                        lemma_skip_ws_bounds(s, k + 1);
                        lemma_attr_value_bounds(s, skip_ws_from(s, k + 1));
                    }
                }
                attrs_spec(s, ve.1, acc.push((name, ve.0)))
            }
        }
    }
}

// ---------------------------------------------------------------------------
// Stable ordering of attributes by name.
// ---------------------------------------------------------------------------
/// Lexicographic order of char sequences by code point, which is the order
/// of `String` (UTF-8 preserves code point order).
pub open spec fn seq_lt(a: Seq<char>, b: Seq<char>) -> bool
    decreases a.len(),
{
    if a.len() == 0 {
        b.len() > 0
    } else if b.len() == 0 {
        false
    } else if a[0] != b[0] {
        (a[0] as u32) < (b[0] as u32)
    } else {
        seq_lt(a.drop_first(), b.drop_first())
    }
}

/// Position at which `key` is inserted into `s` after every entry whose key
/// is not greater: the first entry from `k` on with a greater key.
pub open spec fn first_greater(s: Seq<(Seq<char>, Seq<char>)>, key: Seq<char>, k: int) -> int
    decreases s.len() - k,
{
    if k < 0 || k >= s.len() {
        s.len() as int
    } else if seq_lt(key, s[k].0) {
        k
    } else {
        first_greater(s, key, k + 1)
    }
}

pub open spec fn insert_sorted(s: Seq<(Seq<char>, Seq<char>)>, x: (Seq<char>, Seq<char>)) -> Seq<
    (Seq<char>, Seq<char>),
> {
    s.insert(first_greater(s, x.0, 0), x)
}

/// Stable sort by key (`sort_by(|a, b| a.0.cmp(&b.0))`).
pub open spec fn stable_sort(s: Seq<(Seq<char>, Seq<char>)>) -> Seq<(Seq<char>, Seq<char>)>
    decreases s.len(),
{
    if s.len() == 0 {
        s
    } else {
        insert_sorted(stable_sort(s.drop_last()), s.last())
    }
}

pub proof fn lemma_first_greater_bounds(s: Seq<(Seq<char>, Seq<char>)>, key: Seq<char>, k: int)
    requires
        0 <= k <= s.len(),
    ensures
        k <= first_greater(s, key, k) <= s.len(),
    decreases s.len() - k,
{
    if k < s.len() && !seq_lt(key, s[k].0) {
        lemma_first_greater_bounds(s, key, k + 1);
    }
}

pub proof fn lemma_stable_sort_len(s: Seq<(Seq<char>, Seq<char>)>)
    ensures
        stable_sort(s).len() == s.len(),
    decreases s.len(),
{
    if s.len() > 0 {
        lemma_stable_sort_len(s.drop_last());
        lemma_first_greater_bounds(stable_sort(s.drop_last()), s.last().0, 0);
    }
}

pub fn chars_lt(a: &Vec<char>, b: &Vec<char>) -> (r: bool)
    ensures
        r == seq_lt(a@, b@),
{
    let mut k: usize = 0;
    assert(a@.skip(0) =~= a@);
    assert(b@.skip(0) =~= b@);
    while k < a.len() && k < b.len() && a[k] == b[k]
        invariant
            k <= a@.len(),
            k <= b@.len(),
            seq_lt(a@.skip(k as int), b@.skip(k as int)) == seq_lt(a@, b@),
        decreases a.len() - k,
    {
        proof {
            let x = a@.skip(k as int);
            let y = b@.skip(k as int);
            assert(x.drop_first() =~= a@.skip(k + 1));
            assert(y.drop_first() =~= b@.skip(k + 1));
        }
        k = k + 1;
    }
    proof {
        let x = a@.skip(k as int);
        let y = b@.skip(k as int);
        if k < a.len() && k < b.len() {
            assert(x[0] == a@[k as int]);
            assert(y[0] == b@[k as int]);
        }
    }
    if k == a.len() {
        k < b.len()
    } else if k == b.len() {
        false
    } else {
        (a[k] as u32) < (b[k] as u32)
    }
}

fn sort_attrs(v: Vec<(Vec<char>, Vec<char>)>) -> (r: Vec<(Vec<char>, Vec<char>)>)
    ensures
        char_pairs_view(r@) == stable_sort(char_pairs_view(v@)),
{
    let mut r: Vec<(Vec<char>, Vec<char>)> = Vec::new();
    let mut src = v;
    let ghost orig = char_pairs_view(src@);
    let mut done: usize = 0;
    // Entries are taken from the front of what is left; track the consumed prefix.
    let n: usize = src.len();
    let mut rest: Vec<(Vec<char>, Vec<char>)> = Vec::new();
    // Move into `rest` in reverse so that `pop` yields source order.
    while src.len() > 0
        invariant
            orig.len() == n,
            src@.len() + rest@.len() == n,
            char_pairs_view(src@) =~= orig.take(src@.len() as int),
            forall|m: int|
                0 <= m < rest@.len() ==> (rest@[m].0@, rest@[m].1@) == orig[n - 1 - m],
        decreases src.len(),
    {
        let ghost old_src = src@;
        let x = src.pop().unwrap();
        proof {
            assert(char_pairs_view(src@) =~= orig.take(src@.len() as int));
            assert(char_pairs_view(old_src)[src@.len() as int] == (x.0@, x.1@));
        }
        rest.push(x);
    }
    while rest.len() > 0
        invariant
            orig.len() == n,
            done + rest@.len() == n,
            forall|m: int|
                0 <= m < rest@.len() ==> (rest@[m].0@, rest@[m].1@) == orig[n - 1 - m],
            char_pairs_view(r@) == stable_sort(orig.take(done as int)),
        decreases rest.len(),
    {
        let x = rest.pop().unwrap();
        let ghost xv = (x.0@, x.1@);
        assert(xv == orig[done as int]);
        let ghost before = char_pairs_view(r@);
        let mut p: usize = 0;
        while p < r.len() && !chars_lt(&x.0, &r[p].0)
            invariant
                p <= r@.len(),
                xv.0 == x.0@,
                before == char_pairs_view(r@),
                first_greater(before, xv.0, p as int) == first_greater(before, xv.0, 0),
            decreases r.len() - p,
        {
            assert(before[p as int].0 == r@[p as int].0@);
            assert(!seq_lt(xv.0, before[p as int].0));
            assert(first_greater(before, xv.0, p as int) == first_greater(before, xv.0, p + 1));
            p = p + 1;
        }
        proof {
            lemma_first_greater_bounds(before, xv.0, 0);
        }
        r.insert(p, x);
        proof {
            let t = orig.take(done + 1);
            assert(t.drop_last() =~= orig.take(done as int));
            assert(t.last() == xv);
            assert(char_pairs_view(r@) =~= before.insert(p as int, xv));
        }
        done = done + 1;
    }
    assert(orig.take(n as int) =~= orig);
    r
}

fn to_string_pairs(v: &Vec<(Vec<char>, Vec<char>)>) -> (r: Vec<(String, String)>)
    ensures
        string_pairs_view(r@) == char_pairs_view(v@),
{
    let mut r: Vec<(String, String)> = Vec::new();
    let mut k: usize = 0;
    while k < v.len()
        invariant
            k <= v@.len(),
            string_pairs_view(r@) =~= char_pairs_view(v@).take(k as int),
        decreases v.len() - k,
    {
        let a = chars_to_string(&v[k].0);
        let b = chars_to_string(&v[k].1);
        r.push((a, b));
        proof {
            assert(char_pairs_view(v@).take(k + 1) =~= char_pairs_view(v@).take(k as int).push(
                (v@[k as int].0@, v@[k as int].1@),
            ));
        }
        k = k + 1;
    }
    assert(char_pairs_view(v@).take(v@.len() as int) =~= char_pairs_view(v@));
    r
}

// ---------------------------------------------------------------------------
// Whole tokens.
// ---------------------------------------------------------------------------
pub open spec fn comment_open() -> Seq<char> {
    seq!['<', '!', '-', '-']
}

pub open spec fn comment_close() -> Seq<char> {
    seq!['-', '-', '>']
}

pub open spec fn doctype_upper() -> Seq<char> {
    seq!['<', '!', 'D', 'O', 'C', 'T', 'Y', 'P', 'E']
}

pub open spec fn doctype_lower() -> Seq<char> {
    seq!['<', '!', 'd', 'o', 'c', 't', 'y', 'p', 'e']
}

pub open spec fn end_tag_open() -> Seq<char> {
    seq!['<', '/']
}

/// Position just past the first `>` at or after `i` (or the end).
pub open spec fn past_gt(s: Seq<char>, i: int) -> int {
    let g = find_char_from(s, i, '>');
    if g < s.len() {
        g + 1
    } else {
        g
    }
}

/// The token that starts at position `i` of `s`, and where the next one
/// starts. Text is collapsed; text made only of whitespace is skipped.
pub open spec fn next_spec(s: Seq<char>, i: int) -> (TokenView, int)
    decreases s.len() - i,
{
    if i < 0 || i >= s.len() {
        (TokenView::EOF, i)
    } else {
        let t = find_char_from(s, i, '<');
        proof {
            lemma_find_char_bounds(s, i, '<');
        }
        if t > i {
            let c = collapse_ws(s.subrange(i, t));
            if c.len() == 0 {
                next_spec(s, t)
            } else {
                (TokenView::Character(c), t)
            }
        } else if starts_at(s, i, comment_open()) {
            match find_seq_from(s, i + 4, comment_close()) {
                Some(e) => (TokenView::Comment(s.subrange(i + 4, e)), e + 3),
                None => (TokenView::Comment(s.subrange(i + 4, s.len() as int)), s.len() as int),
            }
        } else if starts_at(s, i, doctype_upper()) || starts_at(s, i, doctype_lower()) {
            let (name, n) = read_name_spec(s, skip_ws_from(s, i + 9));
            (TokenView::Doctype { name }, past_gt(s, n))
        } else if starts_at(s, i, end_tag_open()) {
            let (name, n) = read_name_spec(s, i + 2);
            (TokenView::EndTag { name }, past_gt(s, n))
        } else if s[i] == '<' {
            let (name, n) = read_name_spec(s, i + 1);
            let (attrs, e, sc) = attrs_spec(s, n, Seq::empty());
            (TokenView::StartTag { name, attrs: stable_sort(attrs), self_closing: sc }, e)
        } else {
            next_spec(s, i + 1)
        }
    }
}

pub struct Tokenizer {
    src: Vec<char>,
    i: usize,
    len: usize,
}

impl Tokenizer {
    /// The chars of the source.
    pub closed spec fn source(&self) -> Seq<char> {
        self.src@
    }

    /// How many chars have been consumed.
    pub closed spec fn position(&self) -> int {
        self.i as int
    }

    pub closed spec fn wf(&self) -> bool {
        self.len == self.src@.len() && self.i <= self.len
    }

    pub proof fn lemma_wf(&self)
        requires
            self.wf(),
        ensures
            0 <= self.position() <= self.source().len(),
    {
    }

    pub fn new(src: &str) -> (r: Self)
        ensures
            r.wf(),
            r.source() == src@,
            r.position() == 0,
    {
        let v = str_chars(src);
        let len = v.len();
        Tokenizer { src: v, i: 0, len }
    }

    fn peek(&self) -> (r: Option<char>)
        requires
            self.wf(),
        ensures
            r == (if self.i < self.len {
                Some(self.src@[self.i as int])
            } else {
                None::<char>
            }),
    {
        if self.i < self.len {
            Some(self.src[self.i])
        } else {
            None
        }
    }

    fn next_char(&mut self) -> (r: Option<char>)
        requires
            old(self).wf(),
        ensures
            final(self).wf(),
            final(self).src@ == old(self).src@,
            old(self).i < old(self).len ==> r == Some(old(self).src@[old(self).i as int])
                && final(self).i == old(self).i + 1,
            old(self).i >= old(self).len ==> r is None && final(self).i == old(self).i,
    {
        if self.i >= self.len {
            return None;
        }
        let c = self.src[self.i];
        self.i = self.i + 1;
        Some(c)
    }

    fn starts_with_from(&self, pat: &[char]) -> (r: bool)
        requires
            self.wf(),
        ensures
            r == starts_at(self.src@, self.i as int, pat@),
    {
        starts_with_at(&self.src, self.i, pat)
    }

    fn bump_str(&mut self, pat: &[char]) -> (r: bool)
        requires
            old(self).wf(),
        ensures
            final(self).wf(),
            final(self).src@ == old(self).src@,
            r == starts_at(old(self).src@, old(self).i as int, pat@),
            r ==> final(self).i == old(self).i + pat@.len(),
            !r ==> final(self).i == old(self).i,
    {
        if self.starts_with_from(pat) {
            self.i = self.i + pat.len();
            true
        } else {
            false
        }
    }

    fn skip_ws(&mut self)
        requires
            old(self).wf(),
        ensures
            final(self).wf(),
            final(self).src@ == old(self).src@,
            final(self).i == skip_ws_from(old(self).src@, old(self).i as int),
    {
        let ghost s = self.src@;
        let ghost i0 = self.i as int;
        while self.i < self.len && is_whitespace(self.src[self.i])
            invariant
                self.wf(),
                self.src@ == s,
                i0 <= self.i,
                skip_ws_from(s, self.i as int) == skip_ws_from(s, i0),
            decreases self.len - self.i,
        {
            self.i = self.i + 1;
        }
    }

    fn read_until(&mut self, stop: char) -> (r: Vec<char>)
        requires
            old(self).wf(),
        ensures
            final(self).wf(),
            final(self).src@ == old(self).src@,
            final(self).i == find_char_from(old(self).src@, old(self).i as int, stop),
            r@ == old(self).src@.subrange(old(self).i as int, final(self).i as int),
    {
        let ghost s = self.src@;
        let start = self.i;
        let mut out: Vec<char> = Vec::new();
        while self.i < self.len && self.src[self.i] != stop
            invariant
                self.wf(),
                self.src@ == s,
                start <= self.i,
                find_char_from(s, self.i as int, stop) == find_char_from(s, start as int, stop),
                out@ == s.subrange(start as int, self.i as int),
            decreases self.len - self.i,
        {
            out.push(self.src[self.i]);
            proof {
                assert(s.subrange(start as int, self.i + 1) =~= s.subrange(
                    start as int,
                    self.i as int,
                ).push(s[self.i as int]));
            }
            self.i = self.i + 1;
        }
        out
    }

    fn read_name(&mut self) -> (r: Vec<char>)
        requires
            old(self).wf(),
        ensures
            final(self).wf(),
            final(self).src@ == old(self).src@,
            (r@, final(self).i as int) == read_name_spec(old(self).src@, old(self).i as int),
    {
        let ghost s = self.src@;
        let start = self.i;
        let mut out: Vec<char> = Vec::new();
        while self.i < self.len && (ascii_alnum_char(self.src[self.i]) || self.src[self.i] == '-'
            || self.src[self.i] == '_' || self.src[self.i] == ':')
            invariant
                self.wf(),
                self.src@ == s,
                start <= self.i,
                name_end_from(s, self.i as int) == name_end_from(s, start as int),
                out@ == lower_seq(s.subrange(start as int, self.i as int)),
            decreases self.len - self.i,
        {
            let c = to_lower_char(self.src[self.i]);
            out.push(c);
            proof {
                assert(lower_seq(s.subrange(start as int, self.i + 1)) =~= lower_seq(
                    s.subrange(start as int, self.i as int),
                ).push(lower_char(s[self.i as int])));
            }
            self.i = self.i + 1;
        }
        out
    }

    fn read_attr_value(&mut self) -> (r: Vec<char>)
        requires
            old(self).wf(),
        ensures
            final(self).wf(),
            final(self).src@ == old(self).src@,
            (r@, final(self).i as int) == attr_value_spec(old(self).src@, old(self).i as int),
    {
        let ghost s = self.src@;
        self.skip_ws();
        match self.peek() {
            Some(q) => {
                if q == '"' || q == '\'' {
                    self.next_char();
                    let v = self.read_until(q);
                    let _ = self.next_char();
                    v
                } else {
                    let start = self.i;
                    let mut out: Vec<char> = Vec::new();
                    while self.i < self.len && !(is_whitespace(self.src[self.i]) || self.src[self.i]
                        == '>' || self.src[self.i] == '/')
                        invariant
                            self.wf(),
                            self.src@ == s,
                            start <= self.i,
                            unquoted_end_from(s, self.i as int) == unquoted_end_from(
                                s,
                                start as int,
                            ),
                            out@ == s.subrange(start as int, self.i as int),
                        decreases self.len - self.i,
                    {
                        out.push(self.src[self.i]);
                        proof {
                            assert(s.subrange(start as int, self.i + 1) =~= s.subrange(
                                start as int,
                                self.i as int,
                            ).push(s[self.i as int]));
                        }
                        self.i = self.i + 1;
                    }
                    out
                }
            },
            None => Vec::new(),
        }
    }

    fn read_attributes(&mut self) -> (r: (Vec<(Vec<char>, Vec<char>)>, bool))
        requires
            old(self).wf(),
        ensures
            final(self).wf(),
            final(self).src@ == old(self).src@,
            ({
                let (a, e, sc) = attrs_spec(old(self).src@, old(self).i as int, Seq::empty());
                &&& char_pairs_view(r.0@) == stable_sort(a)
                &&& final(self).i == e
                &&& r.1 == sc
            }),
    {
        let ghost s = self.src@;
        let ghost i0 = self.i as int;
        let mut attrs: Vec<(Vec<char>, Vec<char>)> = Vec::new();
        let mut self_closing = false;
        assert(char_pairs_view(attrs@) =~= Seq::empty());
        loop
            invariant_except_break
                self.wf(),
                self.src@ == s,
                !self_closing,
                attrs_spec(s, self.i as int, char_pairs_view(attrs@)) == attrs_spec(
                    s,
                    i0,
                    Seq::empty(),
                ),
            ensures
                self.wf(),
                self.src@ == s,
                attrs_spec(s, i0, Seq::empty()) == (
                    char_pairs_view(attrs@),
                    self.i as int,
                    self_closing,
                ),
            decreases self.len - self.i,
        {
            let ghost before = self.i as int;
            self.skip_ws();
            proof {
                lemma_skip_ws_bounds(s, before);
            }
            let ghost j = self.i as int;
            let ghost acc = char_pairs_view(attrs@);
            assert(seq!['/', '>'] =~= slash_gt());
            if self.peek().is_none() {
                assert(attrs_spec(s, before, acc) == (acc, self.i as int, false));
                break ;
            }
            if self.starts_with_from(&['/', '>']) {
                self.i = self.i + 2;
                self_closing = true;
                break ;
            }
            if self.starts_with_from(&['>']) {
                self.i = self.i + 1;
                break ;
            }
            assert(s[j] != '>') by {
                if s[j] == '>' {
                    assert(s.subrange(j, j + 1) =~= seq!['>']);
                }
            }
            let name = self.read_name();
            proof {
                lemma_name_end_bounds(s, j);
            }
            if name.len() == 0 {
                let _ = self.next_char();
                assert(attrs_spec(s, before, acc) == attrs_spec(s, j + 1, acc));
                continue ;
            }
            let ghost n = self.i as int;
            self.skip_ws();
            proof {
                lemma_skip_ws_bounds(s, n);
            }
            let ghost k = self.i as int;
            let value = if self.bump_str(&['=']) {
                assert(s[k] == '=') by {
                    assert(s.subrange(k, k + 1)[0] == '=');
                }
                proof {
                    lemma_skip_ws_bounds(s, self.i as int);
                }
                self.skip_ws();
                proof {
                    lemma_attr_value_bounds(s, self.i as int);
                }
                self.read_attr_value()
            } else {
                assert(!(k < s.len() && s[k] == '=')) by {
                    if k < s.len() && s[k] == '=' {
                        assert(s.subrange(k, k + 1) =~= seq!['=']);
                    }
                }
                Vec::new()
            };
            let ghost pv = (name@, value@);
            attrs.push((name, value));
            proof {
                assert(char_pairs_view(attrs@) =~= acc.push(pv));
                assert(attrs_spec(s, before, acc) == attrs_spec(s, self.i as int, acc.push(pv)));
            }
        }
        let sorted = sort_attrs(attrs);
        (sorted, self_closing)
    }

    fn emit_text(&mut self) -> (r: Option<Token>)
        requires
            old(self).wf(),
            old(self).i < old(self).len,
        ensures
            final(self).wf(),
            final(self).src@ == old(self).src@,
            ({
                let s = old(self).src@;
                let i = old(self).i as int;
                let t = find_char_from(s, i, '<');
                if t > i {
                    r matches Some(tok) && (tok@, final(self).i as int) == next_spec(s, i)
                } else {
                    r is None && final(self).i == old(self).i
                }
            }),
        decreases old(self).source().len() - old(self).position(), 0nat,
    {
        let ghost s = self.src@;
        let start = self.i;
        while self.i < self.len && self.src[self.i] != '<'
            invariant
                self.wf(),
                self.src@ == s,
                start <= self.i,
                find_char_from(s, self.i as int, '<') == find_char_from(s, start as int, '<'),
            decreases self.len - self.i,
        {
            self.i = self.i + 1;
        }
        if self.i > start {
            let collapsed = collapse_whitespace(&self.src, start, self.i);
            if collapsed.len() == 0 {
                return Some(self.next());
            }
            return Some(Token::Character(chars_to_string(&collapsed)));
        }
        None
    }

    /// The next token; `EOF` once the source is exhausted.
    pub fn next(&mut self) -> (r: Token)
        requires
            old(self).wf(),
        ensures
            final(self).wf(),
            final(self).source() == old(self).source(),
            (r@, final(self).position()) == next_spec(old(self).source(), old(self).position()),
            r@ is EOF ==> final(self).position() == final(self).source().len(),
            old(self).position() == old(self).source().len() ==> r@ is EOF && final(self).position()
                == old(self).position(),
        decreases old(self).source().len() - old(self).position(), 1nat,
    {
        proof {
            if next_spec(self.src@, self.i as int).0 is EOF {
                lemma_eof_at_end(self.src@, self.i as int);
            }
        }
        let ghost s = self.src@;
        let ghost i0 = self.i as int;
        if self.i >= self.len {
            return Token::EOF;
        }
        proof {
            lemma_find_char_bounds(s, i0, '<');
        }
        if let Some(tok) = self.emit_text() {
            return tok;
        }
        if self.bump_str(&['<', '!', '-', '-']) {
            assert(seq!['<', '!', '-', '-'] =~= comment_open());
            let start = self.i;
            let mut k = start;
            let mut found = false;
            while k < self.len && !found
                invariant
                    self.wf(),
                    self.src@ == s,
                    start == i0 + 4,
                    start <= k <= self.len,
                    !found ==> find_seq_from(s, k as int, comment_close()) == find_seq_from(
                        s,
                        start as int,
                        comment_close(),
                    ),
                    found ==> k < self.len && find_seq_from(s, start as int, comment_close())
                        == Some(k as int),
                decreases self.len - k, if found {
                    0int
                } else {
                    1int
                },
            {
                if starts_with_at(&self.src, k, &['-', '-', '>']) {
                    assert(seq!['-', '-', '>'] =~= comment_close());
                    found = true;
                } else {
                    k = k + 1;
                }
            }
            if found {
                proof {
                    lemma_find_seq_bounds(s, start as int, comment_close());
                }
                let c = slice_chars(&self.src, start, k);
                self.i = k + 3;
                return Token::Comment(chars_to_string(&c));
            } else {
                let c = slice_chars(&self.src, start, self.len);
                self.i = self.len;
                return Token::Comment(chars_to_string(&c));
            }
        }
        if self.bump_str(&['<', '!', 'D', 'O', 'C', 'T', 'Y', 'P', 'E']) || self.bump_str(
            &['<', '!', 'd', 'o', 'c', 't', 'y', 'p', 'e'],
        ) {
            assert(seq!['<', '!', 'D', 'O', 'C', 'T', 'Y', 'P', 'E'] =~= doctype_upper());
            assert(seq!['<', '!', 'd', 'o', 'c', 't', 'y', 'p', 'e'] =~= doctype_lower());
            self.skip_ws();
            let name = self.read_name();
            self.skip_past_gt();
            return Token::Doctype { name: chars_to_string(&name) };
        }
        assert(seq!['<', '!', 'D', 'O', 'C', 'T', 'Y', 'P', 'E'] =~= doctype_upper());
        assert(seq!['<', '!', 'd', 'o', 'c', 't', 'y', 'p', 'e'] =~= doctype_lower());
        if self.bump_str(&['<', '/']) {
            assert(seq!['<', '/'] =~= end_tag_open());
            let name = self.read_name();
            self.skip_past_gt();
            return Token::EndTag { name: chars_to_string(&name) };
        }
        assert(seq!['<', '/'] =~= end_tag_open());
        if self.bump_str(&['<']) {
            let name = self.read_name();
            let (attrs, self_closing) = self.read_attributes();
            let attrs = to_string_pairs(&attrs);
            return Token::StartTag { name: chars_to_string(&name), attrs, self_closing };
        }
        let _ = self.next_char();
        self.next()
    }

    /// Consumes chars up to and including the next `>`.
    fn skip_past_gt(&mut self)
        requires
            old(self).wf(),
        ensures
            final(self).wf(),
            final(self).src@ == old(self).src@,
            final(self).i == past_gt(old(self).src@, old(self).i as int),
    {
        let ghost s = self.src@;
        let ghost i0 = self.i as int;
        loop
            invariant_except_break
                self.wf(),
                self.src@ == s,
                i0 <= self.i,
                find_char_from(s, self.i as int, '>') == find_char_from(s, i0, '>'),
            ensures
                self.wf(),
                self.src@ == s,
                self.i == past_gt(s, i0),
            decreases self.len - self.i,
        {
            match self.next_char() {
                Some(c) => {
                    if c == '>' {
                        break ;
                    }
                },
                None => {
                    break ;
                },
            }
        }
    }
}

} // verus!

verus! {

pub proof fn lemma_attrs_bounds(s: Seq<char>, i: int, acc: Seq<(Seq<char>, Seq<char>)>)
    requires
        0 <= i <= s.len(),
    ensures
        i <= attrs_spec(s, i, acc).1 <= s.len(),
    decreases s.len() - i,
{
    lemma_skip_ws_bounds(s, i);
    let j = skip_ws_from(s, i);
    if j < s.len() && !starts_at(s, j, slash_gt()) && s[j] != '>' {
        let (name, n) = read_name_spec(s, j);
        lemma_name_end_bounds(s, j);
        if name.len() == 0 {
            lemma_attrs_bounds(s, j + 1, acc);
        } else {
            let k = skip_ws_from(s, n);
            lemma_skip_ws_bounds(s, n);
            let ve = if k < s.len() && s[k] == '=' {
                attr_value_spec(s, skip_ws_from(s, k + 1))
            } else {
                (Seq::empty(), k)
            };
            if k < s.len() && s[k] == '=' {
                lemma_skip_ws_bounds(s, k + 1);
                lemma_attr_value_bounds(s, skip_ws_from(s, k + 1));
            }
            lemma_attrs_bounds(s, ve.1, acc.push((name, ve.0)));
        }
    }
}

/// Every token but `EOF` consumes at least one char; positions stay within the source.
pub proof fn lemma_next_advances(s: Seq<char>, i: int)
    requires
        0 <= i <= s.len(),
    ensures
        i <= next_spec(s, i).1 <= s.len(),
        !(next_spec(s, i).0 is EOF) ==> i < next_spec(s, i).1,
    decreases s.len() - i,
{
    if i < s.len() {
        let t = find_char_from(s, i, '<');
        lemma_find_char_bounds(s, i, '<');
        if t > i {
            let c = collapse_ws(s.subrange(i, t));
            if c.len() == 0 {
                lemma_next_advances(s, t);
            }
        } else if starts_at(s, i, comment_open()) {
            lemma_find_seq_bounds(s, i + 4, comment_close());
        } else if starts_at(s, i, doctype_upper()) || starts_at(s, i, doctype_lower()) {
            lemma_skip_ws_bounds(s, i + 9);
            let k = skip_ws_from(s, i + 9);
            lemma_name_end_bounds(s, k);
            lemma_find_char_bounds(s, name_end_from(s, k), '>');
        } else if starts_at(s, i, end_tag_open()) {
            lemma_name_end_bounds(s, i + 2);
            lemma_find_char_bounds(s, name_end_from(s, i + 2), '>');
        } else if s[i] == '<' {
            lemma_name_end_bounds(s, i + 1);
            lemma_attrs_bounds(s, name_end_from(s, i + 1), Seq::empty());
        } else {
            lemma_next_advances(s, i + 1);
        }
    }
}

/// An end of input is only reported at the end of the input.
pub proof fn lemma_eof_at_end(s: Seq<char>, i: int)
    requires
        0 <= i <= s.len(),
        next_spec(s, i).0 is EOF,
    ensures
        next_spec(s, i).1 == s.len(),
    decreases s.len() - i,
{
    if i < s.len() {
        let t = find_char_from(s, i, '<');
        lemma_find_char_bounds(s, i, '<');
        if t > i {
            lemma_eof_at_end(s, t);
        } else if !starts_at(s, i, comment_open()) && !starts_at(s, i, doctype_upper())
            && !starts_at(s, i, doctype_lower()) && !starts_at(s, i, end_tag_open()) && s[i] != '<' {
            lemma_eof_at_end(s, i + 1);
        }
    }
}

/// Once the tokenizer has reported the end of input, every later token is
/// the end of input again, and the position stays put.
pub proof fn lemma_eof_stays(s: Seq<char>, i: int)
    requires
        0 <= i <= s.len(),
        next_spec(s, i).0 is EOF,
    ensures
        next_spec(s, next_spec(s, i).1) == (TokenView::EOF, next_spec(s, i).1),
{
    lemma_eof_at_end(s, i);
}

} // verus!
