//! Evaluating a dice command: comment, normalization, validation, terms, total and rendering.
use vstd::prelude::*;
use vstd::string::StringExecFns;
use crate::dice::{is_roll_record, roll_group, scripted_roll, start, Dice, Explosion};
use crate::notation::{
    check_expression, comparison_start, dice_part, is_number, lemma_find_eq, split_terms, terms,
    unsigned, valid_dice, valid_expression, valid_term,
};
use crate::text::{
    chars_of, decimal, digits_value, find_char, find_from, is_digit, lemma_find_from,
    parse_digits, push_decimal, push_signed_decimal, push_str, signed_decimal, strip_spaces, to_text,
    trim, trimmed, without_spaces,
};

verus! {

pub open spec fn empty_reply() -> Seq<char> {
    "Roll can not be empty!"@
}

pub open spec fn help_reply() -> Seq<char> {
    "/r [numOfDice]d[numSidesOfDice]"@
}

pub open spec fn invalid_reply() -> Seq<char> {
    "Invalid character in command, accepted characters: [0-9],[+-!^],[d]"@
}

pub open spec fn too_many_dice() -> Seq<char> {
    "Too many dice to count..."@
}

pub open spec fn too_many_sides() -> Seq<char> {
    "Too many sides to count..."@
}

pub open spec fn no_sides() -> Seq<char> {
    "A die needs at least one side..."@
}

pub open spec fn number_too_big() -> Seq<char> {
    "Error number too big..."@
}

pub open spec fn total_too_big() -> Seq<char> {
    "Total too big to count..."@
}

/// Position of the `d` of a die group's body (its length for a constant).
pub open spec fn d_at(b: Seq<char>) -> int {
    find_from(b, 'd', 0)
}

pub open spec fn is_group(b: Seq<char>) -> bool {
    d_at(b) < b.len()
}

pub open spec fn count_text(b: Seq<char>) -> Seq<char> {
    b.take(d_at(b))
}

/// What follows the `d`: sides and explosion.
pub open spec fn after_d(b: Seq<char>) -> Seq<char> {
    b.skip(d_at(b) + 1)
}

pub open spec fn bang_at(b: Seq<char>) -> int {
    find_from(after_d(b), '!', 0)
}

pub open spec fn sides_text(b: Seq<char>) -> Seq<char> {
    after_d(b).take(bang_at(b))
}

pub open spec fn count_of(b: Seq<char>) -> nat {
    if count_text(b).len() == 0 {
        1
    } else {
        digits_value(count_text(b))
    }
}

/// The explosion rule of a die group's body, for dice of `sides` sides.
pub open spec fn rule_of(b: Seq<char>, sides: u128) -> Explosion {
    let r = after_d(b);
    let j = bang_at(b);
    if j >= r.len() {
        Explosion::Never
    } else if j + 1 == r.len() {
        Explosion::OnMax
    } else {
        let v = digits_value(r.skip(j + 2));
        if r[j + 1] == '<' {
            Explosion::Below(if v <= u128::MAX { v as u128 } else { 1 })
        } else if r[j + 1] == '=' {
            Explosion::Equal(if v <= u128::MAX { v as u128 } else { sides })
        } else {
            Explosion::Never
        }
    }
}

/// A die group that can be rolled: its count and sides fit and it has at least one side.
pub open spec fn rollable(b: Seq<char>) -> bool {
    is_group(b) && count_of(b) <= u128::MAX && digits_value(sides_text(b)) <= u128::MAX
        && digits_value(sides_text(b)) >= 1
}

pub open spec fn is_negative(t: Seq<char>) -> bool {
    t.len() > 0 && t[0] == '-'
}

/// The sign shown before a term: none for a positive first term.
pub open spec fn sign_text(first: bool, negative: bool) -> Seq<char> {
    if negative {
        seq!['-']
    } else if first {
        Seq::empty()
    } else {
        seq!['+']
    }
}

pub open spec fn sum_of(rs: Seq<u128>) -> int
    decreases rs.len(),
{
    if rs.len() == 0 {
        0
    } else {
        sum_of(rs.drop_last()) + rs.last()
    }
}

/// The values of a roll record joined by `+`.
pub open spec fn joined(rs: Seq<u128>) -> Seq<char>
    decreases rs.len(),
{
    if rs.len() == 0 {
        Seq::empty()
    } else if rs.len() == 1 {
        decimal(rs[0] as nat)
    } else {
        joined(rs.drop_last()) + seq!['+'] + decimal(rs.last() as nat)
    }
}

/// A group's roll record as shown: `(r1+...+rn)`, or `0` when no die was rolled.
pub open spec fn record_text(rs: Seq<u128>) -> Seq<char> {
    if rs.len() == 0 {
        seq!['0']
    } else {
        seq!['('] + joined(rs) + seq![')']
    }
}

/// A running evaluation: failed with a message, or a total and the breakdown so far.
pub ghost enum Tally {
    Failed(Seq<char>),
    Running { total: int, shown: Seq<char> },
}

pub open spec fn fits_i128(v: int) -> bool {
    i128::MIN <= v <= i128::MAX
}

/// Adds a term with body `b` (its sign removed) to a running `total` and breakdown `shown`;
/// `rs` is the term's roll record when it is a die group.
pub open spec fn add_body(total: int, shown: Seq<char>, b: Seq<char>, neg: bool, first: bool, rs: Seq<u128>) -> Tally {
    if is_group(b) {
        if count_of(b) > u128::MAX {
            Tally::Failed(too_many_dice())
        } else if digits_value(sides_text(b)) > u128::MAX {
            Tally::Failed(too_many_sides())
        } else if digits_value(sides_text(b)) == 0 {
            Tally::Failed(no_sides())
        } else {
            let s = sum_of(rs);
            let v = if neg { -s } else { s };
            if s > i128::MAX || !fits_i128(total + v) {
                Tally::Failed(total_too_big())
            } else {
                Tally::Running {
                    total: total + v,
                    shown: shown + sign_text(first, neg) + record_text(rs),
                }
            }
        }
    } else {
        let c = digits_value(b);
        let v = if neg { -c } else { c as int };
        if c > i128::MAX {
            Tally::Failed(number_too_big())
        } else if !fits_i128(total + v) {
            Tally::Failed(total_too_big())
        } else {
            Tally::Running { total: total + v, shown: shown + sign_text(first, neg) + b }
        }
    }
}

/// Adds term `t` to `acc`; `rs` is the term's roll record when it is a die group.
pub open spec fn add_term(acc: Tally, t: Seq<char>, first: bool, rs: Seq<u128>) -> Tally {
    match acc {
        Tally::Failed(m) => Tally::Failed(m),
        Tally::Running { total, shown } => add_body(total, shown, unsigned(t), is_negative(t), first, rs),
    }
}

/// The tally of the first `n` terms of `ts`, with `recs[i]` the roll record of term `i`.
pub open spec fn tally(ts: Seq<Seq<char>>, recs: Seq<Seq<u128>>, n: nat) -> Tally
    decreases n,
{
    if n == 0 {
        Tally::Running { total: 0, shown: Seq::empty() }
    } else {
        add_term(tally(ts, recs, (n - 1) as nat), ts[n - 1], n == 1, recs[n - 1])
    }
}

/// Every die group reached before a failure shows a genuine roll of its dice.
pub open spec fn records_fit(ts: Seq<Seq<char>>, recs: Seq<Seq<u128>>, n: nat) -> bool {
    forall|i: int|
        0 <= i < n && tally(ts, recs, i as nat) is Running && rollable(unsigned(ts[i]))
            ==> is_roll_record(
            #[trigger] recs[i],
            count_of(unsigned(ts[i])),
            digits_value(sides_text(unsigned(ts[i]))) as u128,
            rule_of(unsigned(ts[i]), digits_value(sides_text(unsigned(ts[i]))) as u128),
        )
}

/// What a fixed source with `script` at `pos` rolls for a term with body `b`, and the position
/// it is left at: nothing unless the term is a die group that can be rolled.
pub open spec fn term_draws(script: Seq<u128>, pos: nat, b: Seq<char>) -> (Seq<u128>, nat) {
    if rollable(b) {
        let sides = digits_value(sides_text(b)) as u128;
        scripted_roll(script, pos, start(count_of(b)), rule_of(b, sides), sides)
    } else {
        (Seq::empty(), pos)
    }
}

/// The roll records of the first `n` terms of `ts` under a fixed source with `script` at `pos`,
/// and the position it is left at; terms after a failure roll nothing.
pub open spec fn scripted_records(ts: Seq<Seq<char>>, script: Seq<u128>, pos: nat, n: nat) -> (
    Seq<Seq<u128>>,
    nat,
)
    decreases n,
{
    if n == 0 {
        (Seq::empty(), pos)
    } else {
        let prev = scripted_records(ts, script, pos, (n - 1) as nat);
        if tally(ts, prev.0, (n - 1) as nat) is Failed {
            (prev.0.push(Seq::empty()), prev.1)
        } else {
            let d = term_draws(script, prev.1, unsigned(ts[n - 1]));
            (prev.0.push(d.0), d.1)
        }
    }
}

/// The command text before its comment.
pub open spec fn before_comment(s: Seq<char>) -> Seq<char> {
    s.take(find_from(s, '#', 0))
}

/// The comment: what follows the first `#`, trimmed; empty without a `#`.
pub open spec fn comment_of(s: Seq<char>) -> Seq<char> {
    let h = find_from(s, '#', 0);
    if h < s.len() {
        trimmed(s.skip(h + 1))
    } else {
        Seq::empty()
    }
}

/// The normalized expression: the text before the comment, without whitespace.
pub open spec fn normalized(s: Seq<char>) -> Seq<char> {
    without_spaces(before_comment(s))
}

pub open spec fn starts_with_help(e: Seq<char>) -> bool {
    e.len() >= 4 && e.take(4) == "help"@
}

/// The final line: `` `expression` comment = breakdown = total ``.
pub open spec fn rendered(e: Seq<char>, comment: Seq<char>, shown: Seq<char>, total: int) -> Seq<
    char,
> {
    seq!['`'] + e + "` "@ + comment + " = "@ + shown + " = "@ + signed_decimal(total)
}

/// The reply to command text `s` from a fixed source with `script` at `pos`.
pub open spec fn scripted_reply(s: Seq<char>, script: Seq<u128>, pos: nat) -> Seq<char> {
    let ts = terms(dice_part(normalized(s)));
    reply(s, scripted_records(ts, script, pos, ts.len()).0)
}

/// The reply to command text `s` when its die groups rolled `recs`.
pub open spec fn reply(s: Seq<char>, recs: Seq<Seq<u128>>) -> Seq<char> {
    let e = normalized(s);
    let d = dice_part(e);
    if e.len() == 0 {
        empty_reply()
    } else if starts_with_help(e) {
        help_reply()
    } else if !valid_expression(d) {
        invalid_reply()
    } else {
        match tally(terms(d), recs, terms(d).len()) {
            Tally::Failed(m) => m,
            Tally::Running { total, shown } => rendered(e, comment_of(s), shown, total),
        }
    }
}


proof fn lemma_sum_grows(rs: Seq<u128>, i: int, j: int)
    requires
        0 <= i <= j <= rs.len(),
    ensures
        sum_of(rs.take(i)) <= sum_of(rs.take(j)),
    decreases j - i,
{
    if i < j {
        lemma_sum_grows(rs, i, j - 1);
        assert(rs.take(j).drop_last() =~= rs.take(j - 1));
    }
}

/// Sum of a roll record, when it fits in an `i128`.
fn record_sum(rs: &Vec<u128>) -> (r: Option<i128>)
    ensures
        match r {
            Some(v) => 0 <= v && v as int == sum_of(rs@) && sum_of(rs@) <= i128::MAX,
            None => sum_of(rs@) > i128::MAX,
        },
{
    let mut acc: i128 = 0;
    let mut i: usize = 0;
    while i < rs.len()
        invariant
            i <= rs@.len(),
            0 <= acc,
            acc as int == sum_of(rs@.take(i as int)),
        decreases rs.len() - i,
    {
        assert(rs@.take(i as int + 1).drop_last() =~= rs@.take(i as int));
        if rs[i] > (i128::MAX - acc) as u128 {
            proof {
                lemma_sum_grows(rs@, i as int + 1, rs@.len() as int);
                assert(rs@.take(rs@.len() as int) =~= rs@);
            }
            return None;
        }
        acc = acc + rs[i] as i128;
        i = i + 1;
    }
    assert(rs@.take(rs@.len() as int) =~= rs@);
    Some(acc)
}

/// Appends `record_text(rs)`.
fn push_record(out: &mut Vec<char>, rs: &Vec<u128>)
    ensures
        final(out)@ == old(out)@ + record_text(rs@),
{
    if rs.len() == 0 {
        out.push('0');
        return;
    }
    out.push('(');
    let ghost start = old(out)@ + seq!['('];
    let mut i: usize = 0;
    while i < rs.len()
        invariant
            i <= rs@.len(),
            rs@.len() > 0,
            out@ == start + joined(rs@.take(i as int)),
        decreases rs.len() - i,
    {
        let ghost before = out@;
        if i > 0 {
            out.push('+');
        }
        push_decimal(out, rs[i]);
        assert(rs@.take(i as int + 1).drop_last() =~= rs@.take(i as int));
        if i == 0 {
            assert(joined(rs@.take(0)) =~= Seq::<char>::empty());
        }
        assert(out@ =~= start + joined(rs@.take(i as int + 1)));
        i = i + 1;
    }
    assert(rs@.take(rs@.len() as int) =~= rs@);
    out.push(')');
    assert(final(out)@ =~= old(out)@ + record_text(rs@));
}

/// Appends `s[lo..hi]`.
fn push_range(out: &mut Vec<char>, s: &[char], lo: usize, hi: usize)
    requires
        lo <= hi <= s@.len(),
    ensures
        final(out)@ == old(out)@ + s@.subrange(lo as int, hi as int),
{
    let ghost start = old(out)@;
    let mut k: usize = lo;
    while k < hi
        invariant
            lo <= k <= hi <= s@.len(),
            out@ == start + s@.subrange(lo as int, k as int),
        decreases hi - k,
    {
        out.push(s[k]);
        assert(s@.subrange(lo as int, k + 1) =~= s@.subrange(lo as int, k as int).push(s@[k as int]));
        k = k + 1;
    }
}

fn copy_range(s: &[char], lo: usize, hi: usize) -> (r: Vec<char>)
    requires
        lo <= hi <= s@.len(),
    ensures
        r@ == s@.subrange(lo as int, hi as int),
{
    let mut r: Vec<char> = Vec::new();
    push_range(&mut r, s, lo, hi);
    assert(r@ =~= s@.subrange(lo as int, hi as int));
    r
}

/// Appends the sign shown before a term.
fn push_sign(shown: &mut Vec<char>, first: bool, neg: bool)
    ensures
        final(shown)@ == old(shown)@ + sign_text(first, neg),
{
    if neg {
        shown.push('-');
    } else if !first {
        shown.push('+');
    }
    assert(final(shown)@ =~= old(shown)@ + sign_text(first, neg));
}

/// `total` plus or minus `v`, when that fits in an `i128`.
fn signed_add(total: i128, v: i128, neg: bool) -> (r: Option<i128>)
    requires
        0 <= v,
    ensures
        match r {
            Some(n) => n == total + (if neg { -v } else { v as int }),
            None => !fits_i128(total + (if neg { -v } else { v as int })),
        },
{
    if neg {
        if total < i128::MIN + v {
            None
        } else {
            Some(total - v)
        }
    } else {
        if total > i128::MAX - v {
            None
        } else {
            Some(total + v)
        }
    }
}

/// The exact outcome of adding a term's body to a running tally, and the roll record it used.
pub open spec fn body_outcome(
    r: (Result<i128, &'static str>, Ghost<Seq<u128>>),
    total: i128,
    old_shown: Seq<char>,
    new_shown: Seq<char>,
    b: Seq<char>,
    neg: bool,
    first: bool,
) -> bool {
    let next = add_body(total as int, old_shown, b, neg, first, r.1@);
    &&& rollable(b) ==> is_roll_record(
        r.1@,
        count_of(b),
        digits_value(sides_text(b)) as u128,
        rule_of(b, digits_value(sides_text(b)) as u128),
    )
    &&& match r.0 {
        Ok(v) => next == Tally::Running { total: v as int, shown: new_shown },
        Err(m) => next == Tally::Failed(m@),
    }
}

/// Rolls the die group `d[b0..hi]`, whose `d` stands at `k`.
fn add_group(
    d: &[char],
    b0: usize,
    k: usize,
    hi: usize,
    neg: bool,
    first: bool,
    dice: &mut Dice,
    total: i128,
    shown: &mut Vec<char>,
) -> (r: (Result<i128, &'static str>, Ghost<Seq<u128>>))
    requires
        old(dice).wf(),
        b0 <= k < hi <= d@.len(),
        k - b0 == d_at(d@.subrange(b0 as int, hi as int)),
        valid_dice(d@.subrange(b0 as int, hi as int)),
    ensures
        final(dice).wf(),
        final(dice).is_fixed() == old(dice).is_fixed(),
        final(dice).script() == old(dice).script(),
        old(dice).is_fixed() ==> (r.1@, final(dice).position()) == term_draws(
            old(dice).script(),
            old(dice).position(),
            d@.subrange(b0 as int, hi as int),
        ),
        body_outcome(r, total, old(shown)@, final(shown)@, d@.subrange(b0 as int, hi as int), neg, first),
{
    let ghost b = d@.subrange(b0 as int, hi as int);
    assert(count_text(b) =~= d@.subrange(b0 as int, k as int));
    let count: u128 = if k == b0 {
        1
    } else {
        match parse_digits(d, b0, k) {
            Some(c) => c,
            None => {
                return (Err("Too many dice to count..."), Ghost(Seq::empty()));
            },
        }
    };
    let ghost r = d@.subrange(k + 1, hi as int);
    assert(after_d(b) =~= r);
    let j = find_char(d, '!', k + 1);
    proof {
        lemma_find_from(d@, '!', k + 1);
        lemma_find_eq(d@, k + 1, hi as int, '!');
    }
    let jj: usize = if j < hi { j } else { hi };
    assert(sides_text(b) =~= d@.subrange(k + 1, jj as int));
    let sides = match parse_digits(d, k + 1, jj) {
        Some(v) => v,
        None => {
            return (Err("Too many sides to count..."), Ghost(Seq::empty()));
        },
    };
    if sides == 0 {
        return (Err("A die needs at least one side..."), Ghost(Seq::empty()));
    }
    let rule = if jj >= hi {
        Explosion::Never
    } else if jj + 1 == hi {
        Explosion::OnMax
    } else {
        assert(r.skip(jj - k + 1) =~= d@.subrange(jj + 2, hi as int));
        assert(r.skip(jj - k).drop_first() =~= d@.subrange(jj + 2, hi as int));
        assert(r[jj - k] == d@[jj + 1]);
        if d[jj + 1] == '<' {
            Explosion::Below(
                match parse_digits(d, jj + 2, hi) {
                    Some(v) => v,
                    None => 1,
                },
            )
        } else if d[jj + 1] == '=' {
            Explosion::Equal(
                match parse_digits(d, jj + 2, hi) {
                    Some(v) => v,
                    None => sides,
                },
            )
        } else {
            Explosion::Never
        }
    };
    assert(rule == rule_of(b, sides));
    let rs = roll_group(dice, count, sides, rule);
    let s = match record_sum(&rs) {
        Some(s) => s,
        None => {
            return (Err("Total too big to count..."), Ghost(rs@));
        },
    };
    let next = match signed_add(total, s, neg) {
        Some(n) => n,
        None => {
            return (Err("Total too big to count..."), Ghost(rs@));
        },
    };
    push_sign(shown, first, neg);
    push_record(shown, &rs);
    assert(final(shown)@ =~= old(shown)@ + sign_text(first, neg) + record_text(rs@));
    (Ok(next), Ghost(rs@))
}

/// Adds the constant `d[b0..hi]`.
fn add_constant(
    d: &[char],
    b0: usize,
    hi: usize,
    neg: bool,
    first: bool,
    total: i128,
    shown: &mut Vec<char>,
) -> (r: (Result<i128, &'static str>, Ghost<Seq<u128>>))
    requires
        b0 <= hi <= d@.len(),
        is_number(d@.subrange(b0 as int, hi as int)),
        !is_group(d@.subrange(b0 as int, hi as int)),
    ensures
        r.1@ == Seq::<u128>::empty(),
        body_outcome(r, total, old(shown)@, final(shown)@, d@.subrange(b0 as int, hi as int), neg, first),
{
    let ghost b = d@.subrange(b0 as int, hi as int);
    let c = match parse_digits(d, b0, hi) {
        Some(c) => c,
        None => {
            return (Err("Error number too big..."), Ghost(Seq::empty()));
        },
    };
    if c > i128::MAX as u128 {
        return (Err("Error number too big..."), Ghost(Seq::empty()));
    }
    let next = match signed_add(total, c as i128, neg) {
        Some(n) => n,
        None => {
            return (Err("Total too big to count..."), Ghost(Seq::empty()));
        },
    };
    push_sign(shown, first, neg);
    push_range(shown, d, b0, hi);
    assert(final(shown)@ =~= old(shown)@ + sign_text(first, neg) + b);
    (Ok(next), Ghost(Seq::empty()))
}

/// Evaluates term `d[lo..hi]` on top of a running `total`, appending its breakdown to `shown`.
/// Also gives the term's roll record (empty for a constant).
fn add_term_exec(
    d: &[char],
    lo: usize,
    hi: usize,
    first: bool,
    dice: &mut Dice,
    total: i128,
    shown: &mut Vec<char>,
) -> (r: (Result<i128, &'static str>, Ghost<Seq<u128>>))
    requires
        old(dice).wf(),
        lo <= hi <= d@.len(),
        valid_term(d@.subrange(lo as int, hi as int)),
    ensures
        final(dice).wf(),
        final(dice).is_fixed() == old(dice).is_fixed(),
        final(dice).script() == old(dice).script(),
        old(dice).is_fixed() ==> (r.1@, final(dice).position()) == term_draws(
            old(dice).script(),
            old(dice).position(),
            unsigned(d@.subrange(lo as int, hi as int)),
        ),
        body_outcome(
            r,
            total,
            old(shown)@,
            final(shown)@,
            unsigned(d@.subrange(lo as int, hi as int)),
            is_negative(d@.subrange(lo as int, hi as int)),
            first,
        ),
{
    let ghost t = d@.subrange(lo as int, hi as int);
    let neg = lo < hi && d[lo] == '-';
    let b0: usize = if lo < hi && (d[lo] == '+' || d[lo] == '-') { lo + 1 } else { lo };
    let ghost b = d@.subrange(b0 as int, hi as int);
    assert(unsigned(t) =~= b);
    assert(is_negative(t) == neg);
    let k = find_char(d, 'd', b0);
    proof {
        lemma_find_from(d@, 'd', b0 as int);
        lemma_find_eq(d@, b0 as int, hi as int, 'd');
    }
    if k < hi {
        assert(b[k - b0] == 'd');
        assert(!is_number(b)) by {
            assert(!is_digit(b[k - b0]));
        }
        add_group(d, b0, k, hi, neg, first, dice, total, shown)
    } else {
        add_constant(d, b0, hi, neg, first, total, shown)
    }
}


/// The tally of `n` terms reads only the first `n` roll records.
proof fn lemma_tally_reads_prefix(ts: Seq<Seq<char>>, a: Seq<Seq<u128>>, c: Seq<Seq<u128>>, n: nat)
    requires
        n <= a.len(),
        n <= c.len(),
        forall|i: int| 0 <= i < n ==> a[i] == c[i],
    ensures
        tally(ts, a, n) == tally(ts, c, n),
    decreases n,
{
    if n > 0 {
        lemma_tally_reads_prefix(ts, a, c, (n - 1) as nat);
    }
}

/// A failed tally stays failed with the same message.
proof fn lemma_failure_stays(ts: Seq<Seq<char>>, recs: Seq<Seq<u128>>, i: nat, n: nat)
    requires
        i <= n,
        tally(ts, recs, i) is Failed,
    ensures
        tally(ts, recs, n) == tally(ts, recs, i),
    decreases n - i,
{
    if n > i {
        lemma_failure_stays(ts, recs, i, (n - 1) as nat);
    }
}

/// The roll records `recs` are genuine rolls of the die groups that evaluating `s` reaches.
pub open spec fn fair_rolls(s: Seq<char>, recs: Seq<Seq<u128>>) -> bool {
    let e = normalized(s);
    let d = dice_part(e);
    e.len() > 0 && !starts_with_help(e) && valid_expression(d) ==> records_fit(
        terms(d),
        recs,
        terms(d).len(),
    )
}

/// Extending the records by the record of term `i` keeps them fitting.
proof fn lemma_fit_push(ts: Seq<Seq<char>>, prev: Seq<Seq<u128>>, x: Seq<u128>, i: nat)
    requires
        prev.len() == i,
        i < ts.len(),
        records_fit(ts, prev, i),
        tally(ts, prev, i) is Running && rollable(unsigned(ts[i as int])) ==> is_roll_record(
            x,
            count_of(unsigned(ts[i as int])),
            digits_value(sides_text(unsigned(ts[i as int]))) as u128,
            rule_of(unsigned(ts[i as int]), digits_value(sides_text(unsigned(ts[i as int]))) as u128),
        ),
    ensures
        tally(ts, prev.push(x), i) == tally(ts, prev, i),
        records_fit(ts, prev.push(x), i + 1),
{
    let recs = prev.push(x);
    lemma_tally_reads_prefix(ts, prev, recs, i);
    assert forall|k: int|
        0 <= k < i + 1 && tally(ts, recs, k as nat) is Running && rollable(unsigned(ts[k]))
            implies is_roll_record(
            #[trigger] recs[k],
            count_of(unsigned(ts[k])),
            digits_value(sides_text(unsigned(ts[k]))) as u128,
            rule_of(unsigned(ts[k]), digits_value(sides_text(unsigned(ts[k]))) as u128),
        ) by {
        lemma_tally_reads_prefix(ts, prev, recs, k as nat);
        if k < i {
            assert(recs[k] == prev[k]);
        }
    }
}

/// Records that fit up to a failure fit for all the terms.
proof fn lemma_fit_after_failure(ts: Seq<Seq<char>>, recs: Seq<Seq<u128>>, i: nat)
    requires
        i <= ts.len(),
        records_fit(ts, recs, i),
        tally(ts, recs, i) is Failed,
    ensures
        records_fit(ts, recs, ts.len()),
        tally(ts, recs, ts.len()) == tally(ts, recs, i),
{
    lemma_failure_stays(ts, recs, i, ts.len());
    assert forall|k: int|
        0 <= k < ts.len() && tally(ts, recs, k as nat) is Running && rollable(unsigned(ts[k]))
            implies is_roll_record(
            #[trigger] recs[k],
            count_of(unsigned(ts[k])),
            digits_value(sides_text(unsigned(ts[k]))) as u128,
            rule_of(unsigned(ts[k]), digits_value(sides_text(unsigned(ts[k]))) as u128),
        ) by {
        if k >= i {
            lemma_failure_stays(ts, recs, i, k as nat);
        }
    }
}

/// The first `k` scripted records do not change as more terms are taken.
proof fn lemma_scripted_prefix(ts: Seq<Seq<char>>, script: Seq<u128>, pos: nat, m: nat, k: nat)
    requires
        k <= m,
    ensures
        scripted_records(ts, script, pos, m).0.len() == m,
        forall|j: int| 0 <= j < k ==> scripted_records(ts, script, pos, m).0[j] == scripted_records(
            ts,
            script,
            pos,
            k,
        ).0[j],
    decreases m,
{
    if m > 0 {
        if k < m {
            lemma_scripted_prefix(ts, script, pos, (m - 1) as nat, k);
        } else {
            lemma_scripted_prefix(ts, script, pos, (m - 1) as nat, (m - 1) as nat);
        }
    }
}

/// Adds up the terms of the valid expression `d`, rolling each die group; also gives the
/// roll records used, one per term.
fn tally_terms(d: &[char], dice: &mut Dice) -> (r: (Result<(i128, Vec<char>), &'static str>, Ghost<Seq<Seq<u128>>>))
    requires
        old(dice).wf(),
        valid_expression(d@),
    ensures
        final(dice).wf(),
        final(dice).is_fixed() == old(dice).is_fixed(),
        final(dice).script() == old(dice).script(),
        old(dice).is_fixed() ==> tally(terms(d@), r.1@, terms(d@).len()) == tally(
            terms(d@),
            scripted_records(terms(d@), old(dice).script(), old(dice).position(), terms(d@).len()).0,
            terms(d@).len(),
        ),
        records_fit(terms(d@), r.1@, terms(d@).len()),
        match r.0 {
            Ok((total, shown)) => tally(terms(d@), r.1@, terms(d@).len()) == (Tally::Running {
                total: total as int,
                shown: shown@,
            }),
            Err(m) => tally(terms(d@), r.1@, terms(d@).len()) == Tally::Failed(m@),
        },
{
    let ghost ts = terms(d@);
    let spans = split_terms(d);
    let mut total: i128 = 0;
    let mut shown: Vec<char> = Vec::new();
    let ghost mut recs: Seq<Seq<u128>> = Seq::empty();
    let mut i: usize = 0;
    while i < spans.len()
        invariant
            dice.wf(),
            i <= spans@.len(),
            spans@.len() == ts.len(),
            ts == terms(d@),
            valid_expression(d@),
            forall|k: int| 0 <= k < spans@.len() ==> {
                &&& (#[trigger] spans@[k]).0 <= spans@[k].1 <= d@.len()
                &&& d@.subrange(spans@[k].0 as int, spans@[k].1 as int) == ts[k]
            },
            recs.len() == i,
            dice.is_fixed() == old(dice).is_fixed(),
            dice.script() == old(dice).script(),
            dice.is_fixed() ==> (recs, dice.position()) == scripted_records(
                ts,
                old(dice).script(),
                old(dice).position(),
                i as nat,
            ),
            tally(ts, recs, i as nat) == (Tally::Running { total: total as int, shown: shown@ }),
            records_fit(ts, recs, i as nat),
        decreases spans.len() - i,
    {
        let (lo, hi) = spans[i];
        assert(valid_term(ts[i as int]));
        let res = add_term_exec(d, lo, hi, i == 0, dice, total, &mut shown);
        let ghost prev = recs;
        proof {
            lemma_fit_push(ts, prev, res.1@, i as nat);
            recs = recs.push(res.1@);
        }
        match res.0 {
            Ok(v) => {
                total = v;
            },
            Err(m) => {
                proof {
                    lemma_fit_after_failure(ts, recs, (i + 1) as nat);
                    if dice.is_fixed() {
                        let whole = scripted_records(ts, old(dice).script(), old(dice).position(), ts.len()).0;
                        lemma_scripted_prefix(ts, old(dice).script(), old(dice).position(), ts.len(), (i + 1) as nat);
                        lemma_tally_reads_prefix(ts, recs, whole, (i + 1) as nat);
                        lemma_failure_stays(ts, whole, (i + 1) as nat, ts.len());
                    }
                }
                return (Err(m), Ghost(recs));
            },
        }
        i = i + 1;
    }
    (Ok((total, shown)), Ghost(recs))
}

/// Evaluates command text `input` (its command prefix already removed), rolling dice from `dice`.
/// The reply is the rendered breakdown and total, or a message saying why there is none.
pub fn evaluate(input: &str, dice: &mut Dice) -> (r: String)
    requires
        old(dice).wf(),
    ensures
        final(dice).wf(),
        exists|recs: Seq<Seq<u128>>| fair_rolls(input@, recs) && #[trigger] reply(input@, recs) == r@,
        old(dice).is_fixed() ==> r@ == scripted_reply(input@, old(dice).script(), old(dice).position()),
{
    let cs = chars_of(input);
    let h = find_char(&cs, '#', 0);
    proof {
        lemma_find_from(cs@, '#', 0);
    }
    let before = copy_range(&cs, 0, h);
    let e = strip_spaces(&before);
    let ghost no_recs = Seq::<Seq<u128>>::empty();
    assert(before@ =~= before_comment(input@));
    if e.len() == 0 {
        let r = String::from_str("Roll can not be empty!");
        assert(reply(input@, no_recs) == r@);
        return r;
    }
    if e.len() >= 4 && e[0] == 'h' && e[1] == 'e' && e[2] == 'l' && e[3] == 'p' {
        let r = String::from_str("/r [numOfDice]d[numSidesOfDice]");
        proof {
            reveal_strlit("help");
            assert(e@.take(4) =~= "help"@);
        }
        assert(reply(input@, no_recs) == r@);
        return r;
    }
    proof {
        if e@.len() >= 4 {
            reveal_strlit("help");
            if e@.take(4) == "help"@ {
                assert(e@[0] == e@.take(4)[0]);
                assert(e@[1] == e@.take(4)[1]);
                assert(e@[2] == e@.take(4)[2]);
                assert(e@[3] == e@.take(4)[3]);
            }
        }
    }
    assert(!starts_with_help(e@));
    let cut = comparison_start(&e);
    let d = copy_range(&e, 0, cut);
    assert(d@ =~= dice_part(e@));
    if !check_expression(&d) {
        let r = String::from_str("Invalid character in command, accepted characters: [0-9],[+-!^],[d]");
        assert(reply(input@, no_recs) == r@);
        return r;
    }
    let (res, recs) = tally_terms(&d, dice);
    let (total, shown) = match res {
        Ok(p) => p,
        Err(m) => {
            let r = String::from_str(m);
            assert(reply(input@, recs@) == r@);
            assert(fair_rolls(input@, recs@));
            return r;
        },
    };
    let comment: Vec<char> = if h < cs.len() {
        let tail = copy_range(&cs, h + 1, cs.len());
        assert(tail@ =~= input@.skip(h + 1));
        trim(&tail)
    } else {
        Vec::new()
    };
    let mut out: Vec<char> = Vec::new();
    out.push('`');
    push_range(&mut out, &e, 0, e.len());
    push_str(&mut out, "` ");
    push_range(&mut out, &comment, 0, comment.len());
    push_str(&mut out, " = ");
    push_range(&mut out, &shown, 0, shown.len());
    push_str(&mut out, " = ");
    push_signed_decimal(&mut out, total);
    proof {
        assert(e@.subrange(0, e@.len() as int) =~= e@);
        assert(comment@.subrange(0, comment@.len() as int) =~= comment@);
        assert(shown@.subrange(0, shown@.len() as int) =~= shown@);
        assert(comment@ == comment_of(input@));
        assert(out@ =~= rendered(e@, comment_of(input@), shown@, total as int));
    }
    let r = to_text(out);
    assert(reply(input@, recs@) == r@);
    assert(fair_rolls(input@, recs@));
    r
}

/// Evaluates command text `input` with dice from the thread's random generator.
pub fn roll_dice(input: &str) -> (r: String)
    ensures
        exists|recs: Seq<Seq<u128>>| fair_rolls(input@, recs) && #[trigger] reply(input@, recs) == r@,
{
    let mut dice = Dice::random();
    evaluate(input, &mut dice)
}

} // verus!
