use dice_roller::{evaluate, roll_dice, Dice};

fn fixed(text: &str, values: Vec<u128>) -> String {
    let mut dice = Dice::fixed(values);
    evaluate(text, &mut dice)
}

/// The numbers between the first ` = ` and the second, for a reply of a single die group.
fn record_values(reply: &str) -> Vec<u128> {
    let shown = reply.split(" = ").nth(1).unwrap();
    let inner = shown.trim_start_matches('(').trim_end_matches(')');
    inner.split('+').map(|v| v.parse().unwrap()).collect()
}

fn total_of(reply: &str) -> i128 {
    reply.rsplit(" = ").next().unwrap().parse().unwrap()
}

#[test]
fn constants_add_up() {
    assert_eq!(fixed("3+4-2", vec![]), "`3+4-2`  = 3+4-2 = 5");
}

#[test]
fn leading_signs_on_constants() {
    assert_eq!(fixed("-3+2", vec![]), "`-3+2`  = -3+2 = -1");
    assert_eq!(fixed("+3", vec![]), "`+3`  = 3 = 3");
}

#[test]
fn die_group_shows_each_value() {
    assert_eq!(fixed("2d6", vec![3, 6]), "`2d6`  = (3+6) = 9");
}

#[test]
fn random_group_has_count_values_in_range() {
    let reply = roll_dice("4d6");
    let values = record_values(&reply);
    assert_eq!(values.len(), 4);
    assert!(values.iter().all(|v| (1..=6).contains(v)));
    assert_eq!(total_of(&reply), values.iter().sum::<u128>() as i128);
}

#[test]
fn one_sided_die_explodes_until_budget() {
    let reply = roll_dice("1d1!");
    let values = record_values(&reply);
    assert_eq!(values.len(), 513);
    assert!(values.iter().all(|v| *v == 1));
    assert_eq!(total_of(&reply), 513);
}

#[test]
fn budget_is_shared_by_the_group() {
    let reply = roll_dice("2d1!");
    assert_eq!(record_values(&reply).len(), 514);
    assert_eq!(total_of(&reply), 514);
}

#[test]
fn explodes_on_max_by_default() {
    assert_eq!(fixed("1d6!", vec![6, 6, 2, 6]), "`1d6!`  = (6+6+2) = 14");
}

#[test]
fn explodes_below_threshold() {
    assert_eq!(fixed("1d20!<5", vec![2, 4, 7, 1]), "`1d20!<5`  = (2+4+7) = 13");
    assert_eq!(fixed("1d20!<5", vec![5, 1]), "`1d20!<5`  = (5) = 5");
}

#[test]
fn explodes_on_equal_threshold() {
    assert_eq!(fixed("1d20!=1", vec![1, 1, 20, 1]), "`1d20!=1`  = (1+1+20) = 22");
    assert_eq!(fixed("1d20!=1", vec![20, 1]), "`1d20!=1`  = (20) = 20");
}

#[test]
fn same_source_renders_the_same() {
    let a = fixed("3d6!+2-1d4", vec![6, 2, 5, 3, 1]);
    let b = fixed("3d6!+2-1d4", vec![6, 2, 5, 3, 1]);
    assert_eq!(a, b);
    assert_eq!(a, "`3d6!+2-1d4`  = (6+2+5+3)+2-(1) = 17");
}

#[test]
fn empty_roll_is_rejected() {
    assert_eq!(fixed("", vec![]), "Roll can not be empty!");
    assert_eq!(fixed("  \t ", vec![]), "Roll can not be empty!");
    assert_eq!(fixed(" # just a note", vec![]), "Roll can not be empty!");
}

#[test]
fn help_gives_usage() {
    assert_eq!(fixed("help", vec![]), "/r [numOfDice]d[numSidesOfDice]");
    assert_eq!(fixed("help me", vec![]), "/r [numOfDice]d[numSidesOfDice]");
}

#[test]
fn zero_sides_is_an_error() {
    assert_eq!(fixed("1d0", vec![]), "A die needs at least one side...");
}

#[test]
fn forty_digit_count_is_too_many_dice() {
    let text = format!("{}d6", "1".repeat(40));
    assert_eq!(fixed(&text, vec![]), "Too many dice to count...");
}

#[test]
fn forty_digit_sides_is_too_many_sides() {
    let text = format!("1d{}", "9".repeat(40));
    assert_eq!(fixed(&text, vec![]), "Too many sides to count...");
}

#[test]
fn huge_constant_is_too_big() {
    assert_eq!(fixed("170141183460469231731687303715884105728", vec![]), "Error number too big...");
}

#[test]
fn overflowing_total_is_reported() {
    assert_eq!(
        fixed("170141183460469231731687303715884105727+1", vec![]),
        "Total too big to count..."
    );
    assert_eq!(
        fixed("-170141183460469231731687303715884105727-1", vec![]),
        "`-170141183460469231731687303715884105727-1`  = -170141183460469231731687303715884105727-1 = -170141183460469231731687303715884105728"
    );
}

#[test]
fn malformed_expressions_are_rejected() {
    let invalid = "Invalid character in command, accepted characters: [0-9],[+-!^],[d]";
    assert_eq!(fixed("2x6", vec![]), invalid);
    assert_eq!(fixed("2d", vec![]), invalid);
    assert_eq!(fixed("3+", vec![]), invalid);
    assert_eq!(fixed("1d6!5", vec![]), invalid);
    assert_eq!(fixed("+-3", vec![]), invalid);
}

#[test]
fn comparison_suffix_is_not_evaluated() {
    assert_eq!(fixed("2d6>3", vec![1, 2]), "`2d6>3`  = (1+2) = 3");
    assert_eq!(fixed("10<=4", vec![]), "`10<=4`  = 10 = 10");
}

#[test]
fn zero_dice_show_zero() {
    assert_eq!(fixed("0d6+1", vec![]), "`0d6+1`  = 0+1 = 1");
}

#[test]
fn spaces_are_removed_and_comment_kept() {
    assert_eq!(fixed(" 1 d 6 + 2 #  to hit  ", vec![4]), "`1d6+2` to hit = (4)+2 = 6");
}

#[test]
fn crit_try_example() {
    assert_eq!(fixed("2d6+3 # crit try", vec![4, 5]), "`2d6+3` crit try = (4+5)+3 = 12");
}

#[test]
fn fixed_source_clamps_to_faces() {
    let mut dice = Dice::fixed(vec![0, 99, 3]);
    assert_eq!(dice.roll(6), 1);
    assert_eq!(dice.roll(6), 6);
    assert_eq!(dice.roll(6), 3);
    assert_eq!(dice.roll(6), 1);
}

#[test]
fn random_total_is_in_range() {
    for _ in 0..50 {
        let total = total_of(&roll_dice("3d6+1"));
        assert!((4..=19).contains(&total));
    }
}

#[test]
fn unicode_whitespace_is_removed() {
    assert_eq!(
        fixed("2\u{3000}+\t1\u{a0}#\u{2003}note\u{205f}", vec![]),
        "`2+1` note = 2+1 = 3"
    );
}

#[test]
fn explosion_condition_is_not_a_comparison() {
    assert_eq!(fixed("1d6!=6>2", vec![6, 3]), "`1d6!=6>2`  = (6+3) = 9");
}
