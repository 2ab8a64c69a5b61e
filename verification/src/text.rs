//! Character classes and small string algorithms shared by the HTML and CSS
//! front ends. Strings are handled as sequences of `char` (or of bytes for the
//! CSS scanner); conversions to and from `String` live at the edges.
use vstd::prelude::*;

verus! {

/// The Unicode `White_Space` property, which `char::is_whitespace` tests.
pub open spec fn is_ws(c: char) -> bool {
    let u: u32 = c as u32;
    ||| (0x09 <= u && u <= 0x0D)
    ||| u == 0x20
    ||| u == 0x85
    ||| u == 0xA0
    ||| u == 0x1680
    ||| (0x2000 <= u && u <= 0x200A)
    ||| u == 0x2028
    ||| u == 0x2029
    ||| u == 0x202F
    ||| u == 0x205F
    ||| u == 0x3000
}

pub fn is_whitespace(c: char) -> (r: bool)
    ensures
        r == is_ws(c),
{
    let u: u32 = c as u32;
    (0x09 <= u && u <= 0x0D) || u == 0x20 || u == 0x85 || u == 0xA0 || u == 0x1680 || (0x2000
        <= u && u <= 0x200A) || u == 0x2028 || u == 0x2029 || u == 0x202F || u == 0x205F || u
        == 0x3000
}

pub open spec fn is_ascii_alnum_char(c: char) -> bool {
    ('0' <= c && c <= '9') || ('a' <= c && c <= 'z') || ('A' <= c && c <= 'Z')
}

pub fn ascii_alnum_char(c: char) -> (r: bool)
    ensures
        r == is_ascii_alnum_char(c),
{
    ('0' <= c && c <= '9') || ('a' <= c && c <= 'z') || ('A' <= c && c <= 'Z')
}

/// `char::to_ascii_lowercase`.
pub open spec fn lower_char(c: char) -> char {
    if 'A' <= c && c <= 'Z' {
        ((c as u32) + 32) as char
    } else {
        c
    }
}

pub fn to_lower_char(c: char) -> (r: char)
    ensures
        r == lower_char(c),
{
    if 'A' <= c && c <= 'Z' {
        let u: u8 = (c as u32) as u8;
        assert(u == c as u32);
        let l = (u + 32) as char;
        assert(l as u32 == c as u32 + 32);
        l
    } else {
        c
    }
}

pub open spec fn lower_seq(s: Seq<char>) -> Seq<char> {
    s.map_values(|c: char| lower_char(c))
}

/// State of whitespace collapsing after a prefix: the text produced so far and
/// whether a separating space is owed before the next word.
pub open spec fn collapse_state(s: Seq<char>) -> (Seq<char>, bool)
    decreases s.len(),
{
    if s.len() == 0 {
        (Seq::empty(), false)
    } else {
        let (acc, pending) = collapse_state(s.drop_last());
        let c = s.last();
        if is_ws(c) {
            (acc, acc.len() > 0)
        } else {
            ((if pending {
                acc.push(' ')
            } else {
                acc
            }).push(c), false)
        }
    }
}

/// The words of `s` (maximal runs of non-whitespace) joined by single spaces:
/// `s.split_whitespace().collect::<Vec<_>>().join(" ")`.
pub open spec fn collapse_ws(s: Seq<char>) -> Seq<char> {
    collapse_state(s).0
}

pub fn collapse_whitespace(s: &Vec<char>, start: usize, end: usize) -> (r: Vec<char>)
    requires
        start <= end <= s@.len(),
    ensures
        r@ == collapse_ws(s@.subrange(start as int, end as int)),
{
    let mut acc: Vec<char> = Vec::new();
    let mut pending = false;
    let mut k: usize = start;
    while k < end
        invariant
            start <= k <= end <= s@.len(),
            (acc@, pending) == collapse_state(s@.subrange(start as int, k as int)),
        decreases end - k,
    {
        let c = s[k];
        proof {
            let t = s@.subrange(start as int, k + 1);
            assert(t.drop_last() =~= s@.subrange(start as int, k as int));
            assert(t.last() == c);
        }
        if is_whitespace(c) {
            pending = acc.len() > 0;
        } else {
            if pending {
                acc.push(' ');
            }
            acc.push(c);
            pending = false;
        }
        k = k + 1;
    }
    acc
}

/// Index of the first non-whitespace char at or after `i` (or `s.len()`).
pub open spec fn skip_ws_from(s: Seq<char>, i: int) -> int
    decreases s.len() - i,
{
    if i < 0 || i >= s.len() {
        i
    } else if is_ws(s[i]) {
        skip_ws_from(s, i + 1)
    } else {
        i
    }
}

/// One past the last non-whitespace char before `j` (or `lo` when there is none).
pub open spec fn trim_end_to(s: Seq<char>, lo: int, j: int) -> int
    decreases j - lo,
{
    if j <= lo {
        lo
    } else if is_ws(s[j - 1]) {
        trim_end_to(s, lo, j - 1)
    } else {
        j
    }
}

pub proof fn lemma_skip_ws_bounds(s: Seq<char>, i: int)
    requires
        0 <= i <= s.len(),
    ensures
        i <= skip_ws_from(s, i) <= s.len(),
        skip_ws_from(s, i) < s.len() ==> !is_ws(s[skip_ws_from(s, i)]),
    decreases s.len() - i,
{
    if i < s.len() && is_ws(s[i]) {
        lemma_skip_ws_bounds(s, i + 1);
    }
}

pub proof fn lemma_trim_end_bounds(s: Seq<char>, lo: int, j: int)
    requires
        0 <= lo <= j <= s.len(),
    ensures
        lo <= trim_end_to(s, lo, j) <= j,
    decreases j - lo,
{
    if j > lo && is_ws(s[j - 1]) {
        lemma_trim_end_bounds(s, lo, j - 1);
    }
}

/// `str::trim` on `s[start..end]`, as a pair of indices into `s`.
pub open spec fn trim_range(s: Seq<char>, start: int, end: int) -> (int, int) {
    let a = skip_ws_from(s.subrange(0, end), start);
    (a, trim_end_to(s, a, end))
}

pub fn skip_ws_index(s: &Vec<char>, start: usize, end: usize) -> (r: usize)
    requires
        start <= end <= s@.len(),
    ensures
        r == skip_ws_from(s@.subrange(0, end as int), start as int),
        start <= r <= end,
{
    let ghost t = s@.subrange(0, end as int);
    let mut k: usize = start;
    while k < end && is_whitespace(s[k])
        invariant
            start <= k <= end <= s@.len(),
            t == s@.subrange(0, end as int),
            skip_ws_from(t, k as int) == skip_ws_from(t, start as int),
        decreases end - k,
    {
        assert(t[k as int] == s@[k as int]);
        k = k + 1;
    }
    k
}

pub fn trim_indices(s: &Vec<char>, start: usize, end: usize) -> (r: (usize, usize))
    requires
        start <= end <= s@.len(),
    ensures
        (r.0 as int, r.1 as int) == trim_range(s@, start as int, end as int),
        start <= r.0 <= r.1 <= end,
{
    let a: usize = skip_ws_index(s, start, end);
    let mut j: usize = end;
    while j > a && is_whitespace(s[j - 1])
        invariant
            a <= j <= end <= s@.len(),
            trim_end_to(s@, a as int, j as int) == trim_end_to(s@, a as int, end as int),
        decreases j - a,
    {
        j = j - 1;
    }
    (a, j)
}

/// `s[i..]` begins with `pat`.
pub open spec fn starts_at(s: Seq<char>, i: int, pat: Seq<char>) -> bool {
    0 <= i && i + pat.len() <= s.len() && s.subrange(i, i + pat.len()) =~= pat
}

pub fn starts_with_at(s: &Vec<char>, i: usize, pat: &[char]) -> (r: bool)
    ensures
        r == starts_at(s@, i as int, pat@),
{
    if i > s.len() || pat.len() > s.len() - i {
        return false;
    }
    let mut k: usize = 0;
    while k < pat.len()
        invariant
            i + pat@.len() <= s@.len(),
            pat@.len() == pat.len(),
            s@.len() == s.len(),
            0 <= k <= pat@.len(),
            forall|m: int| 0 <= m < k ==> s@[i + m] == pat@[m],
        decreases pat.len() - k,
    {
        if s[i + k] != pat[k] {
            assert(s@.subrange(i as int, i + pat@.len())[k as int] != pat@[k as int]);
            return false;
        }
        k = k + 1;
    }
    assert(s@.subrange(i as int, i + pat@.len()) =~= pat@);
    true
}

/// Copies `s[start..end]` into a new vector.
pub fn slice_chars(s: &Vec<char>, start: usize, end: usize) -> (r: Vec<char>)
    requires
        start <= end <= s@.len(),
    ensures
        r@ == s@.subrange(start as int, end as int),
{
    let mut r: Vec<char> = Vec::new();
    let mut k: usize = start;
    while k < end
        invariant
            start <= k <= end <= s@.len(),
            r@ == s@.subrange(start as int, k as int),
        decreases end - k,
    {
        r.push(s[k]);
        proof {
            assert(s@.subrange(start as int, k + 1) =~= s@.subrange(start as int, k as int).push(
                s@[k as int],
            ));
        }
        k = k + 1;
    }
    r
}

/// The chars of a string slice.
pub fn str_chars(s: &str) -> (r: Vec<char>)
    ensures
        r@ == s@,
{
    broadcast use vstd::string::group_string_axioms;
    let mut r: Vec<char> = Vec::new();
    for c in it: s.chars()
        invariant
            it.seq() == s@,
            r@ == it.seq().take(it.index() as int),
    {
        r.push(c);
    }
    r
}

/// Collects the characters into a `String` (`Iterator::collect` of std);
/// the claim is that the string holds exactly the characters of `v`.
#[verifier::external_body]
pub(crate) fn chars_to_string(v: &Vec<char>) -> (s: String)
    ensures
        s@ == v@,
{
    v.iter().collect()
}

} // verus!

verus! {

pub fn chars_eq_lit(v: &Vec<char>, lit: &[char]) -> (r: bool)
    ensures
        r == (v@ =~= lit@),
{
    if v.len() != lit.len() {
        return false;
    }
    let mut k: usize = 0;
    while k < v.len()
        invariant
            v@.len() == lit@.len(),
            k <= v@.len(),
            forall|m: int| 0 <= m < k ==> v@[m] == lit@[m],
        decreases v.len() - k,
    {
        if v[k] != lit[k] {
            return false;
        }
        k = k + 1;
    }
    assert(v@ =~= lit@);
    true
}

} // verus!

verus! {

/// Copies `s[start..end]` into a new vector.
pub fn slice_bytes(s: &Vec<u8>, start: usize, end: usize) -> (r: Vec<u8>)
    requires
        start <= end <= s@.len(),
    ensures
        r@ == s@.subrange(start as int, end as int),
{
    let mut r: Vec<u8> = Vec::new();
    let mut k: usize = start;
    while k < end
        invariant
            start <= k <= end <= s@.len(),
            r@ == s@.subrange(start as int, k as int),
        decreases end - k,
    {
        r.push(s[k]);
        assert(s@.subrange(start as int, k + 1) =~= s@.subrange(start as int, k as int).push(
            s@[k as int],
        ));
        k = k + 1;
    }
    r
}

/// Words of `s` so far and the word being read, split at whitespace.
pub open spec fn words_state(s: Seq<char>) -> (Seq<Seq<char>>, Seq<char>)
    decreases s.len(),
{
    if s.len() == 0 {
        (Seq::empty(), Seq::empty())
    } else {
        let (ws, cur) = words_state(s.drop_last());
        if is_ws(s.last()) {
            if cur.len() > 0 {
                (ws.push(cur), Seq::empty())
            } else {
                (ws, Seq::empty())
            }
        } else {
            (ws, cur.push(s.last()))
        }
    }
}

/// `str::split_whitespace`: the maximal runs of non-whitespace characters.
pub open spec fn words(s: Seq<char>) -> Seq<Seq<char>> {
    let (ws, cur) = words_state(s);
    if cur.len() > 0 {
        ws.push(cur)
    } else {
        ws
    }
}

pub open spec fn chars_view(v: Seq<Vec<char>>) -> Seq<Seq<char>> {
    v.map_values(|w: Vec<char>| w@)
}

/// The words of `v`, split at whitespace.
pub fn words_of(v: &Vec<char>) -> (r: Vec<Vec<char>>)
    ensures
        chars_view(r@) == words(v@),
{
    let mut out: Vec<Vec<char>> = Vec::new();
    let mut cur: Vec<char> = Vec::new();
    let mut k: usize = 0;
    while k < v.len()
        invariant
            k <= v@.len(),
            (chars_view(out@), cur@) == words_state(v@.take(k as int)),
        decreases v.len() - k,
    {
        assert(v@.take(k + 1).drop_last() =~= v@.take(k as int));
        let c = v[k];
        if is_whitespace(c) {
            if cur.len() > 0 {
                let ghost w = cur@;
                out.push(cur);
                assert(chars_view(out@) =~= chars_view(out@.drop_last()).push(w));
                cur = Vec::new();
            }
        } else {
            cur.push(c);
        }
        k = k + 1;
    }
    assert(v@.take(v@.len() as int) =~= v@);
    if cur.len() > 0 {
        let ghost w = cur@;
        out.push(cur);
        assert(chars_view(out@) =~= chars_view(out@.drop_last()).push(w));
    }
    out
}

/// `str::trim`: `s` without leading and trailing whitespace.
pub open spec fn trimmed(s: Seq<char>) -> Seq<char> {
    let (a, b) = trim_range(s, 0, s.len() as int);
    s.subrange(a, b)
}

/// `s[start..end]`, trimmed.
pub fn trim_slice(s: &Vec<char>, start: usize, end: usize) -> (r: Vec<char>)
    requires
        start <= end <= s@.len(),
    ensures
        r@ == trimmed(s@.subrange(start as int, end as int)),
{
    let ghost t = s@.subrange(start as int, end as int);
    let (a, b) = trim_indices(s, start, end);
    proof {
        lemma_trim_shift(s@, start as int, end as int);
    }
    slice_chars(s, a, b)
}

/// Trimming a slice in place agrees with trimming the slice on its own.
pub proof fn lemma_trim_shift(s: Seq<char>, start: int, end: int)
    requires
        0 <= start <= end <= s.len(),
    ensures
        ({
            let t = s.subrange(start, end);
            let (a, b) = trim_range(s, start, end);
            let (a2, b2) = trim_range(t, 0, t.len() as int);
            a == a2 + start && b == b2 + start
        }),
{
    let t = s.subrange(start, end);
    assert(s.subrange(0, end).subrange(start, end) =~= t);
    lemma_skip_shift(s.subrange(0, end), t, start, start);
    let a = skip_ws_from(s.subrange(0, end), start);
    lemma_skip_ws_bounds(s.subrange(0, end), start);
    lemma_trim_end_shift(s, t, start, a, end);
}

proof fn lemma_skip_shift(s: Seq<char>, t: Seq<char>, start: int, i: int)
    requires
        0 <= start <= i <= s.len(),
        t == s.subrange(start, s.len() as int),
    ensures
        skip_ws_from(s, i) == skip_ws_from(t.subrange(0, t.len() as int), i - start) + start,
    decreases s.len() - i,
{
    assert(t.subrange(0, t.len() as int) =~= t);
    if i < s.len() {
        assert(t[i - start] == s[i]);
        if is_ws(s[i]) {
            lemma_skip_shift(s, t, start, i + 1);
        }
    }
}

proof fn lemma_trim_end_shift(s: Seq<char>, t: Seq<char>, start: int, lo: int, j: int)
    requires
        0 <= start <= lo <= j <= s.len(),
        t.len() >= j - start,
        forall|m: int| start <= m < j ==> t[m - start] == s[m],
    ensures
        trim_end_to(s, lo, j) == trim_end_to(t, lo - start, j - start) + start,
    decreases j - lo,
{
    if j > lo {
        assert(t[j - 1 - start] == s[j - 1]);
        if is_ws(s[j - 1]) {
            lemma_trim_end_shift(s, t, start, lo, j - 1);
        }
    }
}

} // verus!
