//! The dice-notation grammar: comparison suffix, validation and splitting into signed terms.
use vstd::prelude::*;
use crate::text::{all_digits, find_char, find_from, lemma_find_from};

verus! {

pub open spec fn is_sign(c: char) -> bool {
    c == '+' || c == '-'
}

pub open spec fn is_comparison(c: char) -> bool {
    c == '<' || c == '>' || c == '='
}

/// Start of the comparison suffix of `s` (searching from `i`): the first `<`, `>` or `=`
/// that does not directly follow a `!` (there it is an explosion condition), or `s.len()`.
pub open spec fn comparison_from(s: Seq<char>, i: int) -> int
    decreases s.len() - i,
{
    if i >= s.len() {
        s.len() as int
    } else if is_comparison(s[i]) && (i == 0 || s[i - 1] != '!') {
        i
    } else {
        comparison_from(s, i + 1)
    }
}

proof fn lemma_comparison_from(s: Seq<char>, i: int)
    requires
        0 <= i <= s.len(),
    ensures
        i <= comparison_from(s, i) <= s.len(),
    decreases s.len() - i,
{
    if i < s.len() && !(is_comparison(s[i]) && (i == 0 || s[i - 1] != '!')) {
        lemma_comparison_from(s, i + 1);
    }
}

/// The part of a normalized expression that is evaluated: everything before its comparison suffix.
pub open spec fn dice_part(s: Seq<char>) -> Seq<char> {
    s.take(comparison_from(s, 0))
}

/// Length of `dice_part(s)`.
pub fn comparison_start(s: &[char]) -> (r: usize)
    ensures
        r == comparison_from(s@, 0),
        r <= s@.len(),
{
    proof {
        lemma_comparison_from(s@, 0);
    }
    let mut i: usize = 0;
    while i < s.len() && !((s[i] == '<' || s[i] == '>' || s[i] == '=') && (i == 0 || s[i - 1] != '!'))
        invariant
            i <= s@.len(),
            comparison_from(s@, 0) == comparison_from(s@, i as int),
        decreases s.len() - i,
    {
        i = i + 1;
    }
    i
}

/// First index at or after `i` holding a sign, or `s.len()`.
pub open spec fn sign_from(s: Seq<char>, i: int) -> int
    decreases s.len() - i,
{
    if i >= s.len() {
        s.len() as int
    } else if is_sign(s[i]) {
        i
    } else {
        sign_from(s, i + 1)
    }
}

proof fn lemma_sign_from(s: Seq<char>, i: int)
    requires
        0 <= i <= s.len(),
    ensures
        i <= sign_from(s, i) <= s.len(),
        sign_from(s, i) < s.len() ==> is_sign(s[sign_from(s, i)]),
        forall|j: int| i <= j < sign_from(s, i) ==> !is_sign(s[j]),
    decreases s.len() - i,
{
    if i < s.len() && !is_sign(s[i]) {
        lemma_sign_from(s, i + 1);
    }
}

/// The signed terms of `s` from position `p`: maximal runs that start at a sign (or at `p`)
/// and end before the next sign.
pub open spec fn terms_from(s: Seq<char>, p: int) -> Seq<Seq<char>>
    decreases s.len() - p,
{
    if p < 0 || p >= s.len() {
        Seq::empty()
    } else {
        let e = sign_from(s, p + 1);
        if e <= p || e > s.len() {
            Seq::empty()
        } else {
            seq![s.subrange(p, e)] + terms_from(s, e)
        }
    }
}

pub open spec fn terms(s: Seq<char>) -> Seq<Seq<char>> {
    terms_from(s, 0)
}

/// A term without its leading sign, if it has one.
pub open spec fn unsigned(t: Seq<char>) -> Seq<char> {
    if t.len() > 0 && is_sign(t[0]) {
        t.drop_first()
    } else {
        t
    }
}

pub open spec fn is_number(s: Seq<char>) -> bool {
    s.len() > 0 && all_digits(s)
}

/// `('<' | '=') digits`, or nothing.
pub open spec fn valid_condition(c: Seq<char>) -> bool {
    c.len() == 0 || ((c[0] == '<' || c[0] == '=') && is_number(c.drop_first()))
}

/// `sides ['!' condition]`.
pub open spec fn valid_sides(r: Seq<char>) -> bool {
    let j = find_from(r, '!', 0);
    is_number(r.take(j)) && (j == r.len() || valid_condition(r.skip(j + 1)))
}

/// `[count] 'd' sides ['!' condition]`.
pub open spec fn valid_dice(b: Seq<char>) -> bool {
    let k = find_from(b, 'd', 0);
    k < b.len() && all_digits(b.take(k)) && valid_sides(b.skip(k + 1))
}

pub open spec fn valid_term(t: Seq<char>) -> bool {
    is_number(unsigned(t)) || valid_dice(unsigned(t))
}

/// Whether `s` is a sum of signed terms, each a constant or a die group.
pub open spec fn valid_expression(s: Seq<char>) -> bool {
    s.len() > 0 && forall|i: int| 0 <= i < terms(s).len() ==> valid_term(#[trigger] terms(s)[i])
}

fn is_number_at(s: &[char], lo: usize, hi: usize) -> (r: bool)
    requires
        lo <= hi <= s@.len(),
    ensures
        r == is_number(s@.subrange(lo as int, hi as int)),
{
    if lo == hi {
        return false;
    }
    let mut i: usize = lo;
    while i < hi
        invariant
            lo <= i <= hi <= s@.len(),
            forall|j: int| lo <= j < i ==> '0' <= #[trigger] s@[j] && s@[j] <= '9',
        decreases hi - i,
    {
        if !('0' <= s[i] && s[i] <= '9') {
            assert(s@.subrange(lo as int, hi as int)[i - lo] == s@[i as int]);
            return false;
        }
        i = i + 1;
    }
    assert forall|j: int| 0 <= j < hi - lo implies '0' <= #[trigger] s@.subrange(lo as int, hi as int)[j]
        && s@.subrange(lo as int, hi as int)[j] <= '9' by {
        assert(s@.subrange(lo as int, hi as int)[j] == s@[lo + j]);
    }
    true
}

/// Checks `s[lo..hi]` against `valid_term`.
fn check_term(s: &[char], lo: usize, hi: usize) -> (r: bool)
    requires
        lo <= hi <= s@.len(),
    ensures
        r == valid_term(s@.subrange(lo as int, hi as int)),
{
    let ghost t = s@.subrange(lo as int, hi as int);
    let b0: usize = if lo < hi && (s[lo] == '+' || s[lo] == '-') { lo + 1 } else { lo };
    let ghost b = s@.subrange(b0 as int, hi as int);
    assert(unsigned(t) =~= b);
    if is_number_at(s, b0, hi) {
        return true;
    }
    let k = find_char(s, 'd', b0);
    proof {
        lemma_find_from(s@, 'd', b0 as int);
        lemma_find_from(b, 'd', 0);
        lemma_find_eq(s@, b0 as int, hi as int, 'd');
    }
    if k >= hi {
        return false;
    }
    assert(b.take(k - b0) =~= s@.subrange(b0 as int, k as int));
    if k > b0 && !is_number_at(s, b0, k) {
        return false;
    }
    let ghost r = s@.subrange(k + 1, hi as int);
    assert(b.skip(k - b0 + 1) =~= r);
    let j = find_char(s, '!', k + 1);
    proof {
        lemma_find_from(s@, '!', k + 1);
        lemma_find_from(r, '!', 0);
        lemma_find_eq(s@, k + 1, hi as int, '!');
    }
    let jj: usize = if j < hi { j } else { hi };
    assert(r.take(jj - (k + 1)) =~= s@.subrange(k + 1, jj as int));
    if !is_number_at(s, k + 1, jj) {
        return false;
    }
    if jj == hi {
        return true;
    }
    let ghost c = s@.subrange(jj + 1, hi as int);
    assert(r.skip(jj - (k + 1) + 1) =~= c);
    if jj + 1 == hi {
        return true;
    }
    assert(c.drop_first() =~= s@.subrange(jj + 2, hi as int));
    (s[jj + 1] == '<' || s[jj + 1] == '=') && is_number_at(s, jj + 2, hi)
}

/// Searching a window of `s` finds what searching the whole of `s` from the window's start finds,
/// when that lies inside the window.
pub proof fn lemma_find_eq(s: Seq<char>, lo: int, hi: int, c: char)
    requires
        0 <= lo <= hi <= s.len(),
    ensures
        ({
            let w = s.subrange(lo, hi);
            let f = find_from(s, c, lo);
            &&& f < hi ==> find_from(w, c, 0) == f - lo
            &&& f >= hi ==> find_from(w, c, 0) == w.len()
        }),
{
    let w = s.subrange(lo, hi);
    lemma_find_from(s, c, lo);
    lemma_find_from(w, c, 0);
    let f = find_from(s, c, lo);
    let g = find_from(w, c, 0);
    if g < w.len() && lo + g < f {
        assert(s[lo + g] == w[g]);
    }
    if f < hi && f - lo < g {
        assert(w[f - lo] == s[f]);
    }
}

/// Splits `s` into its signed terms, as `[start, end)` positions.
pub fn split_terms(s: &[char]) -> (r: Vec<(usize, usize)>)
    ensures
        r@.len() == terms(s@).len(),
        forall|i: int| 0 <= i < r@.len() ==> {
            &&& (#[trigger] r@[i]).0 <= r@[i].1 <= s@.len()
            &&& s@.subrange(r@[i].0 as int, r@[i].1 as int) == terms(s@)[i]
        },
{
    let mut r: Vec<(usize, usize)> = Vec::new();
    let mut p: usize = 0;
    while p < s.len()
        invariant
            p <= s@.len(),
            terms(s@) == Seq::new(r@.len(), |i: int| s@.subrange(r@[i].0 as int, r@[i].1 as int))
                + terms_from(s@, p as int),
            forall|i: int| 0 <= i < r@.len() ==> (#[trigger] r@[i]).0 <= r@[i].1 <= s@.len(),
        decreases s.len() - p,
    {
        let mut e: usize = p + 1;
        while e < s.len() && !(s[e] == '+' || s[e] == '-')
            invariant
                p < e <= s@.len(),
                sign_from(s@, p + 1) == sign_from(s@, e as int),
            decreases s.len() - e,
        {
            e = e + 1;
        }
        proof {
            lemma_sign_from(s@, p + 1);
        }
        let ghost before = Seq::new(r@.len(), |i: int| s@.subrange(r@[i].0 as int, r@[i].1 as int));
        r.push((p, e));
        let ghost after = Seq::new(r@.len(), |i: int| s@.subrange(r@[i].0 as int, r@[i].1 as int));
        assert(after =~= before.push(s@.subrange(p as int, e as int)));
        assert(before + terms_from(s@, p as int) =~= after + terms_from(s@, e as int));
        p = e;
    }
    assert(terms_from(s@, p as int) =~= Seq::<Seq<char>>::empty());
    let ghost fin = Seq::new(r@.len(), |i: int| s@.subrange(r@[i].0 as int, r@[i].1 as int));
    assert(terms(s@) =~= fin);
    r
}

/// Checks `s` against `valid_expression`.
pub fn check_expression(s: &[char]) -> (r: bool)
    ensures
        r == valid_expression(s@),
{
    if s.len() == 0 {
        return false;
    }
    let spans = split_terms(s);
    let mut i: usize = 0;
    while i < spans.len()
        invariant
            i <= spans@.len(),
            spans@.len() == terms(s@).len(),
            forall|k: int| 0 <= k < spans@.len() ==> {
                &&& (#[trigger] spans@[k]).0 <= spans@[k].1 <= s@.len()
                &&& s@.subrange(spans@[k].0 as int, spans@[k].1 as int) == terms(s@)[k]
            },
            forall|k: int| 0 <= k < i ==> valid_term(#[trigger] terms(s@)[k]),
        decreases spans.len() - i,
    {
        let (lo, hi) = spans[i];
        if !check_term(s, lo, hi) {
            return false;
        }
        i = i + 1;
    }
    true
}

/// Joining the terms of an expression back together gives the expression itself.
pub proof fn lemma_terms_rejoin(s: Seq<char>)
    ensures
        terms(s).flatten() == s,
{
    lemma_terms_from_rejoin(s, 0);
    assert(s.skip(0) =~= s);
}

proof fn lemma_terms_from_rejoin(s: Seq<char>, p: int)
    requires
        0 <= p <= s.len(),
    ensures
        terms_from(s, p).flatten() == s.skip(p),
    decreases s.len() - p,
{
    if p >= s.len() {
        assert(s.skip(p) =~= Seq::<char>::empty());
    } else {
        let e = sign_from(s, p + 1);
        lemma_sign_from(s, p + 1);
        lemma_terms_from_rejoin(s, e);
        let ts = terms_from(s, p);
        assert(ts.drop_first() =~= terms_from(s, e));
        assert(s.skip(p) =~= s.subrange(p, e) + s.skip(e));
    }
}

/// Every term after the first starts with its sign, and no term holds a sign past its first character.
pub proof fn lemma_terms_signed(s: Seq<char>, i: int)
    requires
        0 <= i < terms(s).len(),
    ensures
        terms(s)[i].len() > 0,
        i > 0 ==> is_sign(terms(s)[i][0]),
        forall|j: int| 1 <= j < terms(s)[i].len() ==> !is_sign(#[trigger] terms(s)[i][j]),
{
    lemma_terms_from_signed(s, 0, i);
}

proof fn lemma_terms_from_signed(s: Seq<char>, p: int, i: int)
    requires
        0 <= p <= s.len(),
        p == 0 || p == s.len() || is_sign(s[p]),
        0 <= i < terms_from(s, p).len(),
    ensures
        terms_from(s, p)[i].len() > 0,
        (i > 0 || p > 0) ==> is_sign(terms_from(s, p)[i][0]),
        forall|j: int| 1 <= j < terms_from(s, p)[i].len() ==> !is_sign(#[trigger] terms_from(s, p)[i][j]),
    decreases s.len() - p,
{
    let e = sign_from(s, p + 1);
    lemma_sign_from(s, p + 1);
    let t = s.subrange(p, e);
    if i == 0 {
        assert forall|j: int| 1 <= j < t.len() implies !is_sign(#[trigger] t[j]) by {
            assert(t[j] == s[p + j]);
        }
    } else {
        assert(e < s.len() ==> is_sign(s[e]));
        lemma_terms_from_signed(s, e, i - 1);
    }
}

} // verus!
