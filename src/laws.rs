//! Properties that relate the evaluation's parts: constant sums, parsed explosion rules.
use vstd::prelude::*;
use crate::dice::{fires, is_roll_record, lemma_no_explosion, lemma_single_die, Explosion, EXPLOSION_BUDGET};
use crate::engine::{
    add_body, add_term, count_of, is_group, is_negative, record_text, rollable, rule_of, sign_text,
    sides_text, sum_of, tally, Tally,
};
use crate::notation::{is_sign, lemma_terms_rejoin, lemma_terms_signed, terms, unsigned, valid_expression};
use crate::text::digits_value;

verus! {

/// The signed value of a constant term.
pub open spec fn constant_value(t: Seq<char>) -> int {
    if is_negative(t) {
        -digits_value(unsigned(t))
    } else {
        digits_value(unsigned(t)) as int
    }
}

/// The sum of the first `n` terms of `ts`, all constants.
pub open spec fn constant_sum(ts: Seq<Seq<char>>, n: nat) -> int
    decreases n,
{
    if n == 0 {
        0
    } else {
        constant_sum(ts, (n - 1) as nat) + constant_value(ts[n - 1])
    }
}

/// `s` without a leading `+`.
pub open spec fn without_plus(s: Seq<char>) -> Seq<char> {
    if s.len() > 0 && s[0] == '+' {
        s.drop_first()
    } else {
        s
    }
}

/// An expression of constants only adds up to the sum of its signed terms, and its breakdown
/// is the expression itself, without a leading `+`.
pub proof fn lemma_constant_expression(d: Seq<char>, recs: Seq<Seq<u128>>)
    requires
        valid_expression(d),
        forall|i: int| 0 <= i < terms(d).len() ==> !is_group(unsigned(#[trigger] terms(d)[i])),
        forall|i: int| 0 <= i < terms(d).len() ==> digits_value(unsigned(#[trigger] terms(d)[i])) <= i128::MAX,
        forall|n: nat| n <= terms(d).len() ==> i128::MIN <= #[trigger] constant_sum(terms(d), n) <= i128::MAX,
    ensures
        tally(terms(d), recs, terms(d).len()) == (Tally::Running {
            total: constant_sum(terms(d), terms(d).len()),
            shown: without_plus(d),
        }),
{
    let ts = terms(d);
    lemma_constants_prefix(d, recs, ts.len());
    lemma_terms_rejoin(d);
    ts.take(ts.len() as int).lemma_flatten_and_flatten_alt_are_equivalent();
    assert(ts.take(ts.len() as int) =~= ts);
    if ts.len() == 0 {
        assert(ts.flatten() =~= Seq::<char>::empty());
    }
    if ts.len() > 0 {
        lemma_terms_signed(d, 0);
        lemma_first_char(ts);
    }
}

proof fn lemma_first_char(ts: Seq<Seq<char>>)
    requires
        ts.len() > 0,
        ts[0].len() > 0,
    ensures
        ts.flatten().len() > 0,
        ts.flatten()[0] == ts[0][0],
{
}

proof fn lemma_constants_prefix(d: Seq<char>, recs: Seq<Seq<u128>>, n: nat)
    requires
        valid_expression(d),
        n <= terms(d).len(),
        forall|i: int| 0 <= i < terms(d).len() ==> !is_group(unsigned(#[trigger] terms(d)[i])),
        forall|i: int| 0 <= i < terms(d).len() ==> digits_value(unsigned(#[trigger] terms(d)[i])) <= i128::MAX,
        forall|m: nat| m <= terms(d).len() ==> i128::MIN <= #[trigger] constant_sum(terms(d), m) <= i128::MAX,
    ensures
        tally(terms(d), recs, n) == (Tally::Running {
            total: constant_sum(terms(d), n),
            shown: if n > 0 && terms(d)[0][0] == '+' {
                terms(d).take(n as int).flatten_alt().drop_first()
            } else {
                terms(d).take(n as int).flatten_alt()
            },
        }),
    decreases n,
{
    let ts = terms(d);
    if n > 0 {
        lemma_constants_prefix(d, recs, (n - 1) as nat);
        assert(ts.take(n as int).drop_last() =~= ts.take(n - 1));
        let t = ts[n - 1];
        lemma_terms_signed(d, n - 1);
        assert(constant_sum(ts, n) == constant_sum(ts, (n - 1) as nat) + constant_value(t));
        assert(constant_sum(ts, (n - 1) as nat) <= i128::MAX);
        assert(i128::MIN <= constant_sum(ts, n) <= i128::MAX);
        assert(!is_group(unsigned(t)));
        assert(digits_value(unsigned(t)) <= i128::MAX);
        assert(ts.take(n as int).last() == t);
        assert(ts.take(n as int).flatten_alt() == ts.take(n - 1).flatten_alt() + t);
        assert(tally(ts, recs, n) == add_term(tally(ts, recs, (n - 1) as nat), t, n == 1, recs[n - 1]));
        let prev = ts.take(n - 1).flatten_alt();
        let cur = ts.take(n as int).flatten_alt();
        let total = constant_sum(ts, (n - 1) as nat);
        let prev_shown = if n - 1 > 0 && ts[0][0] == '+' { prev.drop_first() } else { prev };
        assert(tally(ts, recs, (n - 1) as nat) == (Tally::Running { total, shown: prev_shown }));
        let next = add_body(total, prev_shown, unsigned(t), is_negative(t), n == 1, recs[n - 1]);
        assert(next == (Tally::Running {
            total: constant_sum(ts, n),
            shown: prev_shown + sign_text(n == 1, is_negative(t)) + unsigned(t),
        }));
        if n == 1 {
            assert(prev =~= Seq::<char>::empty());
            assert(t == ts[0]);
            if t[0] == '+' {
                assert(prev_shown + sign_text(true, false) + unsigned(t) =~= cur.drop_first());
            } else if t[0] == '-' {
                assert(prev_shown + sign_text(true, true) + unsigned(t) =~= cur);
            } else {
                assert(prev_shown + sign_text(true, false) + unsigned(t) =~= cur);
            }
        } else {
            assert(is_sign(t[0]));
            assert(sign_text(false, is_negative(t)) + unsigned(t) =~= t);
            if ts[0][0] == '+' {
                lemma_flatten_alt_starts(ts, (n - 1) as nat);
                assert(prev.drop_first() + sign_text(false, is_negative(t)) + unsigned(t) =~= cur.drop_first());
            } else {
                assert(prev + sign_text(false, is_negative(t)) + unsigned(t) =~= cur);
            }
        }
    }
}

proof fn lemma_flatten_alt_starts(ts: Seq<Seq<char>>, n: nat)
    requires
        1 <= n <= ts.len(),
        ts[0].len() > 0,
    ensures
        ts.take(n as int).flatten_alt().len() > 0,
    decreases n,
{
    if n > 1 {
        assert(ts.take(n as int).drop_last() =~= ts.take(n - 1));
        lemma_flatten_alt_starts(ts, (n - 1) as nat);
    } else {
        assert(ts.take(1).drop_last() =~= Seq::<Seq<char>>::empty());
    }
}

/// A die that explodes below `t` was rerolled exactly while the latest value was below `t`:
/// every value but the last is below `t`, and the last is not, unless the budget ran out.
pub proof fn lemma_explodes_below(rs: Seq<u128>, sides: u128, t: u128)
    requires
        is_roll_record(rs, 1, sides, Explosion::Below(t)),
    ensures
        forall|i: int| 0 <= i < rs.len() - 1 ==> #[trigger] rs[i] < t,
        rs.len() < 1 + EXPLOSION_BUDGET ==> rs.last() >= t,
{
    lemma_single_die(rs, sides, Explosion::Below(t));
    assert forall|i: int| 0 <= i < rs.len() - 1 implies #[trigger] rs[i] < t by {
        assert(fires(Explosion::Below(t), sides, rs[i]));
    }
}

/// A die that explodes on `t` was rerolled exactly while the latest value was `t`:
/// every value but the last equals `t`, and the last does not, unless the budget ran out.
pub proof fn lemma_explodes_on_equal(rs: Seq<u128>, sides: u128, t: u128)
    requires
        is_roll_record(rs, 1, sides, Explosion::Equal(t)),
    ensures
        forall|i: int| 0 <= i < rs.len() - 1 ==> #[trigger] rs[i] == t,
        rs.len() < 1 + EXPLOSION_BUDGET ==> rs.last() != t,
{
    lemma_single_die(rs, sides, Explosion::Equal(t));
    assert forall|i: int| 0 <= i < rs.len() - 1 implies #[trigger] rs[i] == t by {
        assert(fires(Explosion::Equal(t), sides, rs[i]));
    }
}

/// A die group without explosion shows exactly `count` values, each a face of the die, and
/// adds their sum (with the term's sign) to the running total.
pub proof fn lemma_plain_group(
    total: int,
    shown: Seq<char>,
    b: Seq<char>,
    neg: bool,
    first: bool,
    rs: Seq<u128>,
)
    requires
        rollable(b),
        rule_of(b, digits_value(sides_text(b)) as u128) == Explosion::Never,
        is_roll_record(rs, count_of(b), digits_value(sides_text(b)) as u128, Explosion::Never),
        sum_of(rs) <= i128::MAX,
        i128::MIN <= total + (if neg { -sum_of(rs) } else { sum_of(rs) }) <= i128::MAX,
    ensures
        rs.len() == count_of(b),
        forall|i: int| 0 <= i < rs.len() ==> 1 <= #[trigger] rs[i] <= digits_value(sides_text(b)),
        add_body(total, shown, b, neg, first, rs) == (Tally::Running {
            total: total + (if neg { -sum_of(rs) } else { sum_of(rs) }),
            shown: shown + sign_text(first, neg) + record_text(rs),
        }),
{
    lemma_no_explosion(rs, count_of(b), digits_value(sides_text(b)) as u128);
}

} // verus!
