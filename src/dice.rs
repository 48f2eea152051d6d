//! Rolling one die group: the exploding-reroll process and the source of die values.
use vstd::prelude::*;
use rand::Rng;
use rand::rngs::ThreadRng;

verus! {

/// Rerolls allowed to one die group, shared by all of its dice.
pub const EXPLOSION_BUDGET: u32 = 512;

/// When a die group rolls one more die.
#[derive(Clone, Copy, Debug, PartialEq, Eq, Structural)]
pub enum Explosion {
    /// Never.
    Never,
    /// When the latest die shows the group's number of sides.
    OnMax,
    /// When the latest die shows less than the threshold.
    Below(u128),
    /// When the latest die shows exactly the threshold.
    Equal(u128),
}

pub open spec fn fires(rule: Explosion, sides: u128, v: u128) -> bool {
    match rule {
        Explosion::Never => false,
        Explosion::OnMax => v == sides,
        Explosion::Below(t) => v < t,
        Explosion::Equal(t) => v == t,
    }
}

pub fn explodes(rule: Explosion, sides: u128, v: u128) -> (r: bool)
    ensures
        r == fires(rule, sides, v),
{
    match rule {
        Explosion::Never => false,
        Explosion::OnMax => v == sides,
        Explosion::Below(t) => v < t,
        Explosion::Equal(t) => v == t,
    }
}

/// Where a group's rolling stands: dice still to roll, rerolls left,
/// and whether the next value is a reroll of the latest die.
pub ghost struct RollState {
    pub left: nat,
    pub budget: nat,
    pub pending: bool,
}

pub open spec fn start(count: nat) -> RollState {
    RollState { left: count, budget: EXPLOSION_BUDGET as nat, pending: false }
}

/// The state after one more value `v` is rolled.
pub open spec fn step(st: RollState, rule: Explosion, sides: u128, v: u128) -> RollState {
    if st.pending {
        let b = (st.budget - 1) as nat;
        RollState { left: st.left, budget: b, pending: b > 0 && fires(rule, sides, v) }
    } else {
        RollState {
            left: (st.left - 1) as nat,
            budget: st.budget,
            pending: st.budget > 0 && fires(rule, sides, v),
        }
    }
}

pub open spec fn done(st: RollState) -> bool {
    st.left == 0 && !st.pending
}

/// The state after the values `rs` were rolled, in order.
pub open spec fn state_after(rs: Seq<u128>, count: nat, rule: Explosion, sides: u128) -> RollState
    decreases rs.len(),
{
    if rs.len() == 0 {
        start(count)
    } else {
        step(state_after(rs.drop_last(), count, rule, sides), rule, sides, rs.last())
    }
}

/// No value of `rs` was rolled after the group was done.
pub open spec fn rolled_in_turn(rs: Seq<u128>, count: nat, rule: Explosion, sides: u128) -> bool
    decreases rs.len(),
{
    rs.len() == 0 || (rolled_in_turn(rs.drop_last(), count, rule, sides) && !done(
        state_after(rs.drop_last(), count, rule, sides),
    ))
}

/// `rs` is what rolling `count` dice of `sides` sides under `rule` produces: each value a face
/// of the die, initial dice and rerolls in the order rolled, stopping once the group is done.
pub open spec fn is_roll_record(rs: Seq<u128>, count: nat, sides: u128, rule: Explosion) -> bool {
    &&& forall|i: int| 0 <= i < rs.len() ==> 1 <= #[trigger] rs[i] <= sides
    &&& rolled_in_turn(rs, count, rule, sides)
    &&& done(state_after(rs, count, rule, sides))
}

/// Relies on `rand::Rng::gen_range` over `1..=sides`: a value inside the inclusive range
/// (it panics only on an empty range).
#[verifier::external_body]
fn draw(rng: &mut ThreadRng, sides: u128) -> (r: u128)
    requires
        sides >= 1,
    ensures
        1 <= r <= sides,
{
    rng.gen_range(1..=sides)
}

/// Relies on `rand::thread_rng`: a handle on the thread's random generator.
#[verifier::external_body]
fn thread_generator() -> (r: ThreadRng) {
    rand::thread_rng()
}

#[verifier::external_type_specification]
#[verifier::external_body]
pub struct ExThreadRng(ThreadRng);

/// Where die values come from: the thread's random generator, or a fixed list of values
/// handed out in turn (for reproducible rolls).
pub struct Dice {
    generator: Option<ThreadRng>,
    script: Vec<u128>,
    next: usize,
}

/// `v` brought into `1..=sides`.
pub open spec fn clamp_face(v: u128, sides: u128) -> u128 {
    if v < 1 {
        1
    } else if v > sides {
        sides
    } else {
        v
    }
}

/// The value at `pos` of a fixed source's `script`, for a die of `sides` sides.
pub open spec fn scripted_value(script: Seq<u128>, pos: nat, sides: u128) -> u128 {
    if script.len() == 0 {
        1
    } else {
        clamp_face(script[pos as int], sides)
    }
}

/// The position in `script` after the one at `pos` was handed out.
pub open spec fn next_position(script: Seq<u128>, pos: nat) -> nat {
    if script.len() == 0 {
        pos
    } else if pos + 1 == script.len() {
        0
    } else {
        pos + 1
    }
}

/// What a fixed source with `script` at `pos` rolls for a group from state `st` on, and
/// the position it is left at.
pub open spec fn scripted_roll(script: Seq<u128>, pos: nat, st: RollState, rule: Explosion, sides: u128) -> (
    Seq<u128>,
    nat,
)
    decreases st.left, st.budget,
{
    if done(st) || (st.pending && st.budget == 0) {
        (Seq::empty(), pos)
    } else {
        let v = scripted_value(script, pos, sides);
        let rest = scripted_roll(script, next_position(script, pos), step(st, rule, sides, v), rule, sides);
        (seq![v] + rest.0, rest.1)
    }
}

impl Dice {
    pub closed spec fn is_fixed(&self) -> bool {
        self.generator is None
    }

    /// The values of a fixed source.
    pub closed spec fn script(&self) -> Seq<u128> {
        self.script@
    }

    /// Position of the next value of a fixed source.
    pub closed spec fn position(&self) -> nat {
        self.next as nat
    }

    pub closed spec fn wf(&self) -> bool {
        self.is_fixed() ==> (self.script@.len() == 0 || self.next < self.script@.len())
    }

    /// The value a fixed source hands out next for a die of `sides` sides.
    pub open spec fn fixed_value(&self, sides: u128) -> u128 {
        scripted_value(self.script(), self.position(), sides)
    }

    /// A source backed by the thread's random generator.
    pub fn random() -> (r: Dice)
        ensures
            !r.is_fixed(),
            r.wf(),
    {
        Dice { generator: Some(thread_generator()), script: Vec::new(), next: 0 }
    }

    /// A source that hands out `values` in turn, starting over after the last one; a value
    /// outside `1..=sides` is brought to the nearest face, and an empty list always gives 1.
    pub fn fixed(values: Vec<u128>) -> (r: Dice)
        ensures
            r.is_fixed(),
            r.script() == values@,
            r.position() == 0,
            r.wf(),
    {
        Dice { generator: None, script: values, next: 0 }
    }

    /// One die of `sides` sides.
    pub fn roll(&mut self, sides: u128) -> (r: u128)
        requires
            old(self).wf(),
            sides >= 1,
        ensures
            final(self).wf(),
            1 <= r <= sides,
            final(self).is_fixed() == old(self).is_fixed(),
            final(self).script() == old(self).script(),
            old(self).is_fixed() ==> r == old(self).fixed_value(sides),
            old(self).is_fixed() ==> final(self).position() == next_position(
                old(self).script(),
                old(self).position(),
            ),
    {
        match &mut self.generator {
            Some(g) => draw(g, sides),
            None => {
                if self.script.len() == 0 {
                    1
                } else {
                    let v = self.script[self.next];
                    self.next = if self.next + 1 == self.script.len() { 0 } else { self.next + 1 };
                    if v < 1 {
                        1
                    } else if v > sides {
                        sides
                    } else {
                        v
                    }
                }
            },
        }
    }
}

/// Rolls `count` dice of `sides` sides, each followed by its rerolls under `rule`,
/// within the group's shared budget of rerolls.
pub fn roll_group(dice: &mut Dice, count: u128, sides: u128, rule: Explosion) -> (r: Vec<u128>)
    requires
        old(dice).wf(),
        sides >= 1,
    ensures
        final(dice).wf(),
        is_roll_record(r@, count as nat, sides, rule),
        final(dice).is_fixed() == old(dice).is_fixed(),
        final(dice).script() == old(dice).script(),
        old(dice).is_fixed() ==> (r@, final(dice).position()) == scripted_roll(
            old(dice).script(),
            old(dice).position(),
            start(count as nat),
            rule,
            sides,
        ),
{
    let ghost script = dice.script();
    let ghost whole = scripted_roll(script, dice.position(), start(count as nat), rule, sides);
    let mut rs: Vec<u128> = Vec::new();
    let mut left: u128 = count;
    let mut budget: u32 = EXPLOSION_BUDGET;
    while left > 0
        invariant
            dice.is_fixed() == old(dice).is_fixed(),
            dice.script() == script,
            script == old(dice).script(),
            whole == scripted_roll(script, old(dice).position(), start(count as nat), rule, sides),
            dice.is_fixed() ==> {
                let rest = scripted_roll(
                    script,
                    dice.position(),
                    state_after(rs@, count as nat, rule, sides),
                    rule,
                    sides,
                );
                whole == (rs@ + rest.0, rest.1)
            },
            dice.wf(),
            sides >= 1,
            budget <= EXPLOSION_BUDGET,
            forall|i: int| 0 <= i < rs@.len() ==> 1 <= #[trigger] rs@[i] <= sides,
            rolled_in_turn(rs@, count as nat, rule, sides),
            state_after(rs@, count as nat, rule, sides) == (RollState {
                left: left as nat,
                budget: budget as nat,
                pending: false,
            }),
        decreases left,
    {
        let ghost prev = rs@;
        let ghost st = state_after(prev, count as nat, rule, sides);
        let mut v = dice.roll(sides);
        rs.push(v);
        assert(rs@.drop_last() =~= prev);
        assert(prev + (seq![v] + scripted_roll(script, dice.position(), step(st, rule, sides, v), rule, sides).0) =~= rs@ + scripted_roll(script, dice.position(), step(st, rule, sides, v), rule, sides).0);
        left = left - 1;
        while budget > 0 && explodes(rule, sides, v)
            invariant
                dice.is_fixed() == old(dice).is_fixed(),
                dice.script() == script,
                script == old(dice).script(),
                whole == scripted_roll(script, old(dice).position(), start(count as nat), rule, sides),
                dice.is_fixed() ==> {
                    let rest = scripted_roll(
                        script,
                        dice.position(),
                        state_after(rs@, count as nat, rule, sides),
                        rule,
                        sides,
                    );
                    whole == (rs@ + rest.0, rest.1)
                },
                dice.wf(),
                sides >= 1,
                budget <= EXPLOSION_BUDGET,
                forall|i: int| 0 <= i < rs@.len() ==> 1 <= #[trigger] rs@[i] <= sides,
                rolled_in_turn(rs@, count as nat, rule, sides),
                state_after(rs@, count as nat, rule, sides) == (RollState {
                    left: left as nat,
                    budget: budget as nat,
                    pending: budget > 0 && fires(rule, sides, v),
                }),
            decreases budget,
        {
            let ghost prev = rs@;
            let ghost st = state_after(prev, count as nat, rule, sides);
            v = dice.roll(sides);
            rs.push(v);
            assert(rs@.drop_last() =~= prev);
            assert(prev + (seq![v] + scripted_roll(script, dice.position(), step(st, rule, sides, v), rule, sides).0) =~= rs@ + scripted_roll(script, dice.position(), step(st, rule, sides, v), rule, sides).0);
            budget = budget - 1;
        }
    }
    assert(rs@ + Seq::<u128>::empty() =~= rs@);
    rs
}

/// Without explosion a group shows exactly its `count` dice.
pub proof fn lemma_no_explosion(rs: Seq<u128>, count: nat, sides: u128)
    requires
        is_roll_record(rs, count, sides, Explosion::Never),
    ensures
        rs.len() == count,
        forall|i: int| 0 <= i < rs.len() ==> 1 <= #[trigger] rs[i] <= sides,
{
    lemma_never_state(rs, count, sides);
}

proof fn lemma_never_state(rs: Seq<u128>, count: nat, sides: u128)
    requires
        rolled_in_turn(rs, count, Explosion::Never, sides),
    ensures
        rs.len() <= count,
        state_after(rs, count, Explosion::Never, sides) == (RollState {
            left: (count - rs.len()) as nat,
            budget: EXPLOSION_BUDGET as nat,
            pending: false,
        }),
    decreases rs.len(),
{
    if rs.len() > 0 {
        lemma_never_state(rs.drop_last(), count, sides);
    }
}

/// Each value rolled spends a die or a reroll: a group shows at most `count` values
/// plus the reroll budget.
pub proof fn lemma_record_bound(rs: Seq<u128>, count: nat, sides: u128, rule: Explosion)
    requires
        is_roll_record(rs, count, sides, rule),
    ensures
        rs.len() <= count + EXPLOSION_BUDGET,
{
    lemma_spent(rs, count, sides, rule);
}

proof fn lemma_spent(rs: Seq<u128>, count: nat, sides: u128, rule: Explosion)
    requires
        rolled_in_turn(rs, count, rule, sides),
    ensures
        ({
            let st = state_after(rs, count, rule, sides);
            &&& st.left <= count
            &&& st.budget <= EXPLOSION_BUDGET
            &&& st.pending ==> st.budget > 0
            &&& rs.len() == (count - st.left) + (EXPLOSION_BUDGET - st.budget)
        }),
    decreases rs.len(),
{
    if rs.len() > 0 {
        lemma_spent(rs.drop_last(), count, sides, rule);
    }
}

/// One die of one side that explodes on its maximum rerolls until the budget is spent:
/// its record is the initial die and every reroll of the budget, all ones.
pub proof fn lemma_one_sided_explodes_to_budget(rs: Seq<u128>)
    requires
        is_roll_record(rs, 1, 1, Explosion::OnMax),
    ensures
        rs.len() == 1 + EXPLOSION_BUDGET,
        forall|i: int| 0 <= i < rs.len() ==> #[trigger] rs[i] == 1,
{
    lemma_single_die(rs, 1, Explosion::OnMax);
    lemma_spent(rs, 1, 1, Explosion::OnMax);
}

/// With a single die, every value but the last made the rule fire, and the last one did not,
/// unless the reroll budget ran out.
pub proof fn lemma_single_die(rs: Seq<u128>, sides: u128, rule: Explosion)
    requires
        is_roll_record(rs, 1, sides, rule),
    ensures
        rs.len() >= 1,
        forall|i: int| 0 <= i < rs.len() - 1 ==> fires(rule, sides, #[trigger] rs[i]),
        rs.len() < 1 + EXPLOSION_BUDGET ==> !fires(rule, sides, rs.last()),
{
    lemma_spent(rs, 1, sides, rule);
    lemma_single_state(rs, sides, rule);
    assert forall|i: int| 0 <= i < rs.len() - 1 implies fires(rule, sides, #[trigger] rs[i]) by {
        lemma_prefix_in_turn(rs, i + 1, sides, rule);
        lemma_single_state(rs.take(i + 1), sides, rule);
        assert(rs.take(i + 1).last() == rs[i]);
    }
}

proof fn lemma_prefix_in_turn(rs: Seq<u128>, n: int, sides: u128, rule: Explosion)
    requires
        rolled_in_turn(rs, 1, rule, sides),
        0 <= n < rs.len(),
    ensures
        rolled_in_turn(rs.take(n), 1, rule, sides),
        !done(state_after(rs.take(n), 1, rule, sides)),
    decreases rs.len(),
{
    if n == rs.len() - 1 {
        assert(rs.take(n) =~= rs.drop_last());
    } else {
        lemma_prefix_in_turn(rs.drop_last(), n, sides, rule);
        assert(rs.drop_last().take(n) =~= rs.take(n));
    }
}

proof fn lemma_single_state(rs: Seq<u128>, sides: u128, rule: Explosion)
    requires
        rolled_in_turn(rs, 1, rule, sides),
        rs.len() >= 1,
    ensures
        state_after(rs, 1, rule, sides) == (RollState {
            left: 0,
            budget: (EXPLOSION_BUDGET - (rs.len() - 1)) as nat,
            pending: EXPLOSION_BUDGET - (rs.len() - 1) > 0 && fires(rule, sides, rs.last()),
        }),
    decreases rs.len(),
{
    lemma_spent(rs, 1, sides, rule);
    if rs.len() > 1 {
        lemma_single_state(rs.drop_last(), sides, rule);
    }
}

} // verus!
