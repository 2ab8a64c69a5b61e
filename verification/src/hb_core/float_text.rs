//! Font sizes written as `f32` literals: which texts `str::parse::<f32>`
//! accepts (the grammar its documentation gives), and the value of
//! `n.max(8).min(64)` for the number `n` a text denotes, kept as a text
//! that denotes the same `f32`.
use vstd::prelude::*;
use vstd::arithmetic::power::pow;
use crate::text::{lower_seq, slice_chars};
use crate::hb_css::cascade::{digits_end, digits_value, is_digit_c, lower_eq_lit};

verus! {

/// A literal of the `f32` grammar.
pub enum FloatLit {
    Inf { neg: bool },
    Nan,
    /// The digits of the integer and fraction parts together, the number of
    /// fraction digits, and the exponent.
    Num { neg: bool, digits: Seq<char>, frac_len: nat, exp: int },
}

pub open spec fn sign_len(s: Seq<char>) -> int {
    if s.len() > 0 && (s[0] == '+' || s[0] == '-') {
        1
    } else {
        0
    }
}

pub open spec fn inf_word() -> Seq<char> {
    seq!['i', 'n', 'f']
}

pub open spec fn infinity_word() -> Seq<char> {
    seq!['i', 'n', 'f', 'i', 'n', 'i', 't', 'y']
}

pub open spec fn nan_word() -> Seq<char> {
    seq!['n', 'a', 'n']
}

/// The number part of the grammar: `(D+ | D+ '.' D* | D* '.' D+)
/// ([eE] [+-]? D+)?`, read as its digits, its count of fraction digits and
/// its exponent.
pub open spec fn num_lit(b: Seq<char>) -> Option<(Seq<char>, nat, int)> {
    let i1 = digits_end(b, 0);
    let dot = i1 < b.len() && b[i1] == '.';
    let fs = if dot {
        i1 + 1
    } else {
        i1
    };
    let p = if dot {
        digits_end(b, i1 + 1)
    } else {
        i1
    };
    let digits = b.subrange(0, i1) + b.subrange(fs, p);
    let frac_len = (p - fs) as nat;
    if digits.len() == 0 {
        None
    } else if p == b.len() {
        Some((digits, frac_len, 0))
    } else if b[p] == 'e' || b[p] == 'E' {
        let q = p + 1;
        let es = if q < b.len() && (b[q] == '+' || b[q] == '-') {
            1int
        } else {
            0int
        };
        let eneg = es == 1 && b[q] == '-';
        let e_end = digits_end(b, q + es);
        if e_end == q + es || e_end != b.len() {
            None
        } else {
            let ev = digits_value(b.subrange(q + es, e_end)) as int;
            Some((digits, frac_len, if eneg { -ev } else { ev }))
        }
    } else {
        None
    }
}

/// The exponent of a number part.
pub open spec fn num_exp(b: Seq<char>) -> int {
    match num_lit(b) {
        Some((_, _, e)) => e,
        None => 0,
    }
}

/// `s` read by the grammar of `f32`'s `FromStr`, ASCII case ignored:
/// `[+-]? (inf | infinity | nan | Number)`.
pub open spec fn f32_lit(s: Seq<char>) -> Option<FloatLit> {
    let sl = sign_len(s);
    let neg = sl == 1 && s[0] == '-';
    let b = s.subrange(sl, s.len() as int);
    let lb = lower_seq(b);
    if lb == inf_word() || lb == infinity_word() {
        Some(FloatLit::Inf { neg })
    } else if lb == nan_word() {
        Some(FloatLit::Nan)
    } else {
        match num_lit(b) {
            None => None,
            Some((digits, frac_len, exp)) => Some(FloatLit::Num { neg, digits, frac_len, exp }),
        }
    }
}

/// `d · 10^k < c`.
pub open spec fn scaled_below(d: nat, k: int, c: nat) -> bool {
    if k >= 0 {
        d * pow(10, k as nat) < c
    } else {
        d < c * pow(10, (-k) as nat)
    }
}

/// `d · 10^k > c`.
pub open spec fn scaled_above(d: nat, k: int, c: nat) -> bool {
    if k >= 0 {
        d * pow(10, k as nat) > c
    } else {
        d > c * pow(10, (-k) as nat)
    }
}

pub open spec fn eight_text() -> Seq<char> {
    seq!['8']
}

pub open spec fn sixty_four_text() -> Seq<char> {
    seq!['6', '4']
}

/// `n.max(8).min(64)` for the number `t` denotes: `8` for NaN and for
/// numbers below 8, `64` above 64, otherwise `t` itself (its `f32` is then
/// within the range, as 8 and 64 are exact `f32`s).
pub open spec fn clamp_font_text(t: Seq<char>, lit: FloatLit) -> Seq<char> {
    match lit {
        FloatLit::Nan => eight_text(),
        FloatLit::Inf { neg } => if neg {
            eight_text()
        } else {
            sixty_four_text()
        },
        FloatLit::Num { neg, digits, frac_len, exp } => {
            let d = digits_value(digits);
            let k = exp - frac_len;
            if neg || scaled_below(d, k, 8) {
                eight_text()
            } else if scaled_above(d, k, 64) {
                sixty_four_text()
            } else {
                t
            }
        },
    }
}

// ---------------------------------------------------------------------------
// Digit strings.
// ---------------------------------------------------------------------------
pub open spec fn all_digits(s: Seq<char>) -> bool {
    forall|k: int| 0 <= k < s.len() ==> is_digit_c(#[trigger] s[k])
}

pub proof fn lemma_value_concat(a: Seq<char>, b: Seq<char>)
    ensures
        digits_value(a + b) == digits_value(a) * pow(10, b.len()) + digits_value(b),
    decreases b.len(),
{
    if b.len() == 0 {
        assert(a + b =~= a);
        assert(pow(10, 0) == 1) by {
            reveal_with_fuel(pow, 1);
        }
    } else {
        let b1 = b.drop_last();
        assert((a + b).drop_last() =~= a + b1);
        assert((a + b).last() == b.last());
        lemma_value_concat(a, b1);
        let va = digits_value(a);
        let p1 = pow(10, b1.len());
        assert(pow(10, b.len()) == 10 * p1) by {
            reveal_with_fuel(pow, 1);
        }
        assert((va * p1 + digits_value(b1)) * 10 == va * (10 * p1) + digits_value(b1) * 10)
            by (nonlinear_arith);
    }
}

pub proof fn lemma_value_below_pow(s: Seq<char>)
    requires
        all_digits(s),
    ensures
        digits_value(s) < pow(10, s.len()),
    decreases s.len(),
{
    reveal_with_fuel(pow, 1);
    if s.len() > 0 {
        let s1 = s.drop_last();
        assert(is_digit_c(s[s.len() - 1]));
        assert forall|k: int| 0 <= k < s1.len() implies is_digit_c(#[trigger] s1[k]) by {
            assert(s1[k] == s[k]);
        }
        lemma_value_below_pow(s1);
        let d = ((s.last() as u32) - ('0' as u32)) as nat;
        assert(d <= 9);
        let p1 = pow(10, s1.len());
        assert(digits_value(s1) * 10 + d < 10 * p1) by (nonlinear_arith)
            requires
                digits_value(s1) < p1,
                d <= 9,
        ;
    }
}

pub proof fn lemma_value_at_least(s: Seq<char>)
    requires
        all_digits(s),
        s.len() >= 1,
        s[0] != '0',
    ensures
        digits_value(s) >= pow(10, (s.len() - 1) as nat),
    decreases s.len(),
{
    reveal_with_fuel(pow, 1);
    if s.len() == 1 {
        assert(is_digit_c(s[0]));
        assert(s.drop_last().len() == 0);
    } else {
        let s1 = s.drop_last();
        assert forall|k: int| 0 <= k < s1.len() implies is_digit_c(#[trigger] s1[k]) by {
            assert(s1[k] == s[k]);
        }
        assert(s1[0] == s[0]);
        lemma_value_at_least(s1);
        let p1 = pow(10, (s1.len() - 1) as nat);
        assert(pow(10, (s.len() - 1) as nat) == 10 * p1);
        assert(digits_value(s1) * 10 >= 10 * p1) by (nonlinear_arith)
            requires
                digits_value(s1) >= p1,
        ;
    }
}

pub proof fn lemma_value_zero(s: Seq<char>)
    requires
        all_digits(s),
    ensures
        (digits_value(s) == 0) == (forall|k: int| 0 <= k < s.len() ==> s[k] == '0'),
    decreases s.len(),
{
    if s.len() > 0 {
        let s1 = s.drop_last();
        assert forall|k: int| 0 <= k < s1.len() implies is_digit_c(#[trigger] s1[k]) by {
            assert(s1[k] == s[k]);
        }
        lemma_value_zero(s1);
        assert(is_digit_c(s[s.len() - 1]));
        if forall|k: int| 0 <= k < s.len() ==> s[k] == '0' {
            assert forall|k: int| 0 <= k < s1.len() implies s1[k] == '0' by {
                assert(s1[k] == s[k]);
            }
        }
        if digits_value(s) == 0 {
            assert forall|k: int| 0 <= k < s.len() implies s[k] == '0' by {
                if k < s1.len() {
                    assert(s1[k] == s[k]);
                }
            }
        }
    }
}

pub proof fn lemma_digits_end(s: Seq<char>, i: int)
    requires
        0 <= i <= s.len(),
    ensures
        i <= digits_end(s, i) <= s.len(),
        forall|k: int| i <= k < digits_end(s, i) ==> is_digit_c(#[trigger] s[k]),
        digits_end(s, i) < s.len() ==> !is_digit_c(s[digits_end(s, i)]),
    decreases s.len() - i,
{
    if i < s.len() && is_digit_c(s[i]) {
        lemma_digits_end(s, i + 1);
    }
}

/// Leading zeros do not count.
pub proof fn lemma_leading_zeros(z: Seq<char>, sig: Seq<char>)
    requires
        forall|k: int| 0 <= k < z.len() ==> z[k] == '0',
    ensures
        digits_value(z + sig) == digits_value(sig),
{
    assert(all_digits(z));
    lemma_value_zero(z);
    lemma_value_concat(z, sig);
}

/// With `m` significant digits, a number below one stays below eight.
pub proof fn lemma_small_magnitude(sig: Seq<char>, k: int)
    requires
        all_digits(sig),
        sig.len() + k <= 0,
    ensures
        scaled_below(digits_value(sig), k, 8),
{
    lemma_value_below_pow(sig);
    vstd::arithmetic::power::lemma_pow_increases(10, sig.len(), (-k) as nat);
    let p = pow(10, (-k) as nat);
    assert(digits_value(sig) < 8 * p) by (nonlinear_arith)
        requires
            digits_value(sig) < p,
            p >= 0,
    ;
}

/// A number of magnitude at least a hundred is above sixty-four.
pub proof fn lemma_large_magnitude(sig: Seq<char>, k: int)
    requires
        all_digits(sig),
        sig.len() >= 1,
        sig[0] != '0',
        sig.len() + k >= 3,
    ensures
        scaled_above(digits_value(sig), k, 64),
        !scaled_below(digits_value(sig), k, 8),
{
    let m = sig.len();
    let d = digits_value(sig);
    lemma_value_at_least(sig);
    vstd::arithmetic::power::lemma_pow_increases(10, 2, (m - 1 + k) as nat);
    assert(pow(10, 2) == 100) by {
        reveal_with_fuel(pow, 3);
    }
    if k >= 0 {
        vstd::arithmetic::power::lemma_pow_adds(10, (m - 1) as nat, k as nat);
        let a = pow(10, (m - 1) as nat);
        let b = pow(10, k as nat);
        vstd::arithmetic::power::lemma_pow_positive(10, k as nat);
        assert(d * b >= a * b) by (nonlinear_arith)
            requires
                d >= a,
                b > 0,
        ;
    } else {
        vstd::arithmetic::power::lemma_pow_adds(10, (m - 1 + k) as nat, (-k) as nat);
        let a = pow(10, (m - 1 + k) as nat);
        let b = pow(10, (-k) as nat);
        vstd::arithmetic::power::lemma_pow_positive(10, (-k) as nat);
        assert(a * b > 64 * b) by (nonlinear_arith)
            requires
                a >= 100,
                b > 0,
        ;
    }
}

/// With one or two digits before the point: the number is below eight
/// exactly when its integer part is, and above sixty-four exactly when its
/// integer part is, or is sixty-four with a non-zero fraction.
pub proof fn lemma_split_magnitude(sig: Seq<char>, q: int)
    requires
        all_digits(sig),
        0 <= q <= sig.len(),
    ensures
        ({
            let hi = digits_value(sig.subrange(0, q));
            let lo = sig.subrange(q, sig.len() as int);
            let k = q - sig.len();
            &&& scaled_below(digits_value(sig), k, 8) == (hi < 8)
            &&& scaled_above(digits_value(sig), k, 64) == (hi > 64 || (hi == 64 && exists|j: int|
                0 <= j < lo.len() && lo[j] != '0'))
        }),
{
    let h = sig.subrange(0, q);
    let lo = sig.subrange(q, sig.len() as int);
    assert(sig =~= h + lo);
    lemma_value_concat(h, lo);
    assert(all_digits(lo)) by {
        assert forall|k: int| 0 <= k < lo.len() implies is_digit_c(#[trigger] lo[k]) by {
            assert(lo[k] == sig[q + k]);
        }
    }
    lemma_value_below_pow(lo);
    lemma_value_zero(lo);
    let hi = digits_value(h);
    let r = digits_value(lo);
    let p = pow(10, lo.len());
    vstd::arithmetic::power::lemma_pow_positive(10, lo.len());
    if q - sig.len() >= 0 {
        assert(lo.len() == 0);
        assert(p == 1) by {
            reveal_with_fuel(pow, 1);
        }
        assert(r == 0);
        assert(sig.len() - q == 0);
        assert(pow(10, 0) == 1) by {
            reveal_with_fuel(pow, 1);
        }
    } else {
        assert(((-(q - sig.len())) as nat) == lo.len());
        assert((hi * p + r < 8 * p) == (hi < 8)) by (nonlinear_arith)
            requires
                0 <= r < p,
                hi >= 0,
        ;
        assert((hi * p + r > 64 * p) == (hi > 64 || (hi == 64 && r > 0))) by (nonlinear_arith)
            requires
                0 <= r < p,
                hi >= 0,
        ;
    }
}

// ---------------------------------------------------------------------------
// Reading a font size.
// ---------------------------------------------------------------------------
/// Beyond any exponent that a text of a possible length can be offset by.
pub const EXP_CAP: u128 = 1_000_000_000_000_000_000_000_000_000_000;

fn digit_run_end(b: &Vec<char>, i: usize) -> (r: usize)
    requires
        i <= b@.len(),
    ensures
        r == digits_end(b@, i as int),
        i <= r <= b@.len(),
{
    proof {
        lemma_digits_end(b@, i as int);
    }
    let mut k: usize = i;
    while k < b.len() && '0' <= b[k] && b[k] <= '9'
        invariant
            i <= k <= b@.len(),
            digits_end(b@, k as int) == digits_end(b@, i as int),
        decreases b.len() - k,
    {
        k = k + 1;
    }
    k
}

/// The value of the digits `b[a..e]`, capped at `EXP_CAP`.
fn capped_value(b: &Vec<char>, a: usize, e: usize) -> (r: u128)
    requires
        a <= e <= b@.len(),
        forall|k: int| a <= k < e ==> is_digit_c(#[trigger] b@[k]),
    ensures
        r == (if digits_value(b@.subrange(a as int, e as int)) < EXP_CAP {
            digits_value(b@.subrange(a as int, e as int))
        } else {
            EXP_CAP as nat
        }),
{
    let mut v: u128 = 0;
    let mut k: usize = a;
    while k < e
        invariant
            a <= k <= e <= b@.len(),
            forall|m: int| a <= m < e ==> is_digit_c(#[trigger] b@[m]),
            v == (if digits_value(b@.subrange(a as int, k as int)) < EXP_CAP {
                digits_value(b@.subrange(a as int, k as int))
            } else {
                EXP_CAP as nat
            }),
        decreases e - k,
    {
        assert(b@.subrange(a as int, k + 1).drop_last() =~= b@.subrange(a as int, k as int));
        assert(is_digit_c(b@[k as int]));
        let d = (b[k] as u32 - '0' as u32) as u128;
        v = if v >= EXP_CAP / 10 {
            EXP_CAP
        } else if v * 10 + d >= EXP_CAP {
            EXP_CAP
        } else {
            v * 10 + d
        };
        k = k + 1;
    }
    v
}

fn concat_chars(a: &Vec<char>, b: &Vec<char>) -> (r: Vec<char>)
    ensures
        r@ == a@ + b@,
{
    let mut r = slice_chars(a, 0, a.len());
    let mut k: usize = 0;
    while k < b.len()
        invariant
            k <= b@.len(),
            r@ == a@ + b@.take(k as int),
        decreases b.len() - k,
    {
        r.push(b[k]);
        k = k + 1;
        assert(r@ =~= a@ + b@.take(k as int));
    }
    assert(b@.take(b@.len() as int) =~= b@);
    r
}

/// The clamped size for a non-negative number: `digits` (all decimal
/// digits) times ten to the power `exp - frac_len`.
pub open spec fn clamp_num_spec(digits: Seq<char>, frac_len: nat, exp: int, t: Seq<char>) -> Seq<char> {
    let d = digits_value(digits);
    let k = exp - frac_len;
    if scaled_below(d, k, 8) {
        eight_text()
    } else if scaled_above(d, k, 64) {
        sixty_four_text()
    } else {
        t
    }
}

/// The exponent as read: exact below the cap, and at least the cap beyond it.
pub open spec fn exp_capped_ok(exp_neg: bool, exp_cap: u128, exp: int) -> bool {
    &&& exp_cap <= EXP_CAP
    &&& exp_cap < EXP_CAP ==> exp == (if exp_neg {
        -(exp_cap as int)
    } else {
        exp_cap as int
    })
    &&& exp_cap == EXP_CAP ==> (if exp_neg {
        exp <= -(EXP_CAP as int)
    } else {
        exp >= EXP_CAP as int
    })
}

fn two_digit_value(sig: &Vec<char>, q: usize) -> (r: u32)
    requires
        1 <= q <= 2,
        q <= sig@.len(),
        all_digits(sig@),
    ensures
        r == digits_value(sig@.subrange(0, q as int)),
        r < 100,
{
    assert(is_digit_c(sig@[0]));
    let ghost s1 = sig@.subrange(0, 1);
    assert(s1.drop_last() =~= Seq::<char>::empty());
    assert(digits_value(Seq::<char>::empty()) == 0);
    assert(s1.last() == sig@[0]);
    let a = sig[0] as u32 - '0' as u32;
    assert(a == digits_value(s1));
    if q == 1 {
        a
    } else {
        assert(is_digit_c(sig@[1]));
        let ghost s2 = sig@.subrange(0, 2);
        assert(s2.drop_last() =~= s1);
        assert(s2.last() == sig@[1]);
        a * 10 + (sig[1] as u32 - '0' as u32)
    }
}

fn clamp_num(ds: &Vec<char>, f: usize, exp_neg: bool, exp_cap: u128, t: &Vec<char>, Ghost(exp): Ghost<int>) -> (r: Vec<char>)
    requires
        all_digits(ds@),
        f <= ds@.len(),
        exp_capped_ok(exp_neg, exp_cap, exp),
    ensures
        r@ == clamp_num_spec(ds@, f as nat, exp, t@),
{
    let eight: Vec<char> = vec!['8'];
    let sixty_four: Vec<char> = vec!['6', '4'];
    assert(eight@ =~= eight_text());
    assert(sixty_four@ =~= sixty_four_text());
    let mut z: usize = 0;
    while z < ds.len() && ds[z] == '0'
        invariant
            z <= ds@.len(),
            forall|k: int| 0 <= k < z ==> ds@[k] == '0',
        decreases ds.len() - z,
    {
        z = z + 1;
    }
    let sig = slice_chars(ds, z, ds.len());
    let m = sig.len();
    proof {
        assert(ds@ =~= ds@.subrange(0, z as int) + sig@);
        lemma_leading_zeros(ds@.subrange(0, z as int), sig@);
        assert(all_digits(sig@)) by {
            assert forall|k: int| 0 <= k < sig@.len() implies is_digit_c(#[trigger] sig@[k]) by {
                assert(sig@[k] == ds@[z + k]);
            }
        }
    }
    let ghost k_exact = exp - f;
    if m == 0 {
        proof {
            lemma_value_zero(ds@);
            if k_exact < 0 {
                vstd::arithmetic::power::lemma_pow_positive(10, (-k_exact) as nat);
            }
        }
        return eight;
    }
    assert(sig@[0] != '0');
    let fi: i128 = f as i128;
    let e_signed: i128 = if exp_neg {
        -(exp_cap as i128)
    } else {
        exp_cap as i128
    };
    let kk: i128 = e_signed - fi;
    let qq: i128 = m as i128 + kk;
    if qq <= 0 {
        proof {
            assert(m + k_exact <= 0);
            lemma_small_magnitude(sig@, k_exact);
        }
        return eight;
    }
    if qq >= 3 {
        proof {
            assert(m + k_exact >= 3);
            lemma_large_magnitude(sig@, k_exact);
        }
        return sixty_four;
    }
    assert(exp_cap < EXP_CAP);
    assert(kk == k_exact);
    let keep = slice_chars(t, 0, t.len());
    assert(keep@ =~= t@);
    if kk >= 0 {
        // At most two digits, times one or ten.
        assert(m <= 2);
        let v = two_digit_value(&sig, m);
        assert(sig@.subrange(0, m as int) =~= sig@);
        let scaled: u32 = if kk == 1 {
            v * 10
        } else {
            v
        };
        proof {
            reveal_with_fuel(pow, 2);
        }
        if scaled < 8 {
            return eight;
        } else if scaled > 64 {
            return sixty_four;
        } else {
            return keep;
        }
    }
    // The integer part is the first one or two significant digits.
    let qn: usize = qq as usize;
    let hi = two_digit_value(&sig, qn);
    proof {
        lemma_split_magnitude(sig@, qn as int);
    }
    let mut rest_nz = false;
    let mut j: usize = qn;
    while j < m
        invariant
            qn <= j <= m,
            m == sig@.len(),
            rest_nz == exists|x: int| qn <= x < j && sig@[x] != '0',
        decreases m - j,
    {
        if sig[j] != '0' {
            rest_nz = true;
        }
        j = j + 1;
    }
    proof {
        let lo = sig@.subrange(qn as int, m as int);
        if rest_nz {
            let x = choose|x: int| qn <= x < m && sig@[x] != '0';
            assert(lo[x - qn] != '0');
        }
        if exists|y: int| 0 <= y < lo.len() && lo[y] != '0' {
            let y = choose|y: int| 0 <= y < lo.len() && lo[y] != '0';
            assert(sig@[qn + y] != '0');
        }
    }
    if hi < 8 {
        eight
    } else if hi > 64 || (hi == 64 && rest_nz) {
        sixty_four
    } else {
        keep
    }
}

fn read_number(b: &Vec<char>) -> (r: Option<(Vec<char>, usize, bool, u128)>)
    ensures
        match num_lit(b@) {
            None => r is None,
            Some((d, fl, e)) => r matches Some(x) && x.0@ == d && x.1 == fl && exp_capped_ok(
                x.2,
                x.3,
                e,
            ) && all_digits(d) && d.len() <= b@.len() && fl <= d.len(),
        },
{
    let bl = b.len();
    let i1 = digit_run_end(b, 0);
    proof {
        lemma_digits_end(b@, 0);
    }
    let dot = i1 < bl && b[i1] == '.';
    let fs: usize = if dot {
        i1 + 1
    } else {
        i1
    };
    let p: usize = if dot {
        digit_run_end(b, i1 + 1)
    } else {
        i1
    };
    proof {
        if dot {
            lemma_digits_end(b@, i1 + 1);
        }
    }
    if i1 == 0 && p == fs {
        return None;
    }
    let mut exp_neg = false;
    let mut exp_cap: u128 = 0;
    let ghost mut exp_exact: int = 0;
    if p < bl {
        if b[p] != 'e' && b[p] != 'E' {
            return None;
        }
        let q = p + 1;
        let es: usize = if q < bl && (b[q] == '+' || b[q] == '-') {
            1
        } else {
            0
        };
        exp_neg = es == 1 && b[q] == '-';
        let e_end = digit_run_end(b, q + es);
        proof {
            lemma_digits_end(b@, q + es);
        }
        if e_end == q + es || e_end != bl {
            return None;
        }
        exp_cap = capped_value(b, q + es, e_end);
        proof {
            let ev = digits_value(b@.subrange(q + es, e_end as int)) as int;
            exp_exact = if exp_neg {
                -ev
            } else {
                ev
            };
        }
    }
    let int_part = slice_chars(b, 0, i1);
    let frac_part = slice_chars(b, fs, p);
    let ds = concat_chars(&int_part, &frac_part);
    assert(all_digits(ds@)) by {
        assert forall|k: int| 0 <= k < ds@.len() implies is_digit_c(#[trigger] ds@[k]) by {
            if k < i1 {
                assert(ds@[k] == b@[k]);
            } else {
                assert(ds@[k] == b@[fs + (k - i1)]);
            }
        }
    }
    Some((ds, p - fs, exp_neg, exp_cap))
}

/// The clamped font size a text gives, `None` when `f32` refuses the text.
pub fn font_size_text(t: &Vec<char>) -> (r: Option<Vec<char>>)
    ensures
        match f32_lit(t@) {
            None => r is None,
            Some(lit) => r matches Some(x) && x@ == clamp_font_text(t@, lit),
        },
{
    let n = t.len();
    let sl: usize = if n > 0 && (t[0] == '+' || t[0] == '-') {
        1
    } else {
        0
    };
    let neg = sl == 1 && t[0] == '-';
    let b = slice_chars(t, sl, n);
    let eight: Vec<char> = vec!['8'];
    let sixty_four: Vec<char> = vec!['6', '4'];
    assert(eight@ =~= eight_text());
    assert(sixty_four@ =~= sixty_four_text());
    proof {
        assert(seq!['i', 'n', 'f'] =~= inf_word());
        assert(seq!['i', 'n', 'f', 'i', 'n', 'i', 't', 'y'] =~= infinity_word());
        assert(seq!['n', 'a', 'n'] =~= nan_word());
    }
    if lower_eq_lit(&b, &['i', 'n', 'f']) || lower_eq_lit(&b, &['i', 'n', 'f', 'i', 'n', 'i', 't', 'y']) {
        return Some(
            if neg {
                eight
            } else {
                sixty_four
            },
        );
    }
    if lower_eq_lit(&b, &['n', 'a', 'n']) {
        return Some(eight);
    }
    match read_number(&b) {
        None => None,
        Some((ds, fl, exp_neg, exp_cap)) => {
            let ghost e = num_exp(b@);
            if neg {
                Some(eight)
            } else {
                Some(clamp_num(&ds, fl, exp_neg, exp_cap, t, Ghost(e)))
            }
        },
    }
}

} // verus!
