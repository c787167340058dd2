use advent::calibration::{solve as calibration_solve, Expression, Operation};
use advent::claw::{solve1 as claw_solve1, solve2 as claw_solve2, Machine};
use advent::lists::{solve1 as lists_solve1, solve2 as lists_solve2};
use advent::mulscan::{solve1 as mul_solve1, solve2 as mul_solve2};
use advent::print_queue::{build_requirements, is_valid, parse_input, parse_rule, parse_seq, solve1 as queue_solve1};
use advent::reports::{is_safe, solve as reports_solve};
use advent::stones::{solve as stones_solve, transition_stone};
use std::collections::HashMap;

#[test]
fn list_distance_pairs_sorted_columns() {
    let v1 = vec![3, 4, 2, 1, 3, 3];
    let v2 = vec![4, 3, 5, 3, 9, 3];
    assert_eq!(lists_solve1(v1, v2), 11);
}

#[test]
fn list_similarity_weights_by_right_tally() {
    let v1 = vec![3, 4, 2, 1, 3, 3];
    let v2 = vec![4, 3, 5, 3, 9, 3];
    assert_eq!(lists_solve2(&v1, &v2), 31);
}

#[test]
fn list_similarity_counts_absent_entries_as_zero() {
    assert_eq!(lists_solve2(&vec![7], &vec![1, 2, 3]), 0);
    assert_eq!(lists_solve2(&vec![3], &vec![3, 3]), 6);
}

#[test]
fn safe_reports_move_steadily() {
    assert!(is_safe(&vec![7, 6, 4, 2, 1]));
    assert!(!is_safe(&vec![1, 2, 7, 8, 9]));
    assert!(!is_safe(&vec![9, 7, 6, 2, 1]));
    assert!(!is_safe(&vec![1, 3, 2, 4, 5]));
    assert!(!is_safe(&vec![8, 6, 4, 4, 1]));
    assert!(is_safe(&vec![1, 3, 6, 7, 9]));
}

#[test]
fn damped_check_forgives_one_level() {
    let reports = vec![
        vec![7, 6, 4, 2, 1],
        vec![1, 2, 7, 8, 9],
        vec![9, 7, 6, 2, 1],
        vec![1, 3, 2, 4, 5],
        vec![8, 6, 4, 4, 1],
        vec![1, 3, 6, 7, 9],
    ];
    assert_eq!(reports_solve(&reports, false), 2);
    assert_eq!(reports_solve(&reports, true), 4);
}

#[test]
fn scan_sums_every_product() {
    let dump = "xmul(2,4)%&mul[3,7]!@^do_not_mul(5,5)+mul(32,64]when(mul(11,8)mul(8,5))";
    assert_eq!(mul_solve1(dump), 161);
}

#[test]
fn scan_honours_the_switches() {
    let dump = "xmul(2,4)&mul[3,7]!^don't()_mul(5,5)+mul(32,64](mul(11,8)undo()?mul(8,5))";
    assert_eq!(mul_solve2(dump), 48);
    assert_eq!(mul_solve1(dump), 161);
}

#[test]
fn scan_of_plain_noise_is_zero() {
    assert_eq!(mul_solve1("mul(4*, mul(6,9!, ?(12,34)"), 0);
}

#[test]
fn rule_text_reads_as_a_pair() {
    assert_eq!(parse_rule("47|53"), (47, 53));
    assert_eq!(parse_rule("9|120"), (9, 120));
}

#[test]
fn update_text_reads_as_a_page_list() {
    assert_eq!(parse_seq("75,47,61,53,29"), vec![75, 47, 61, 53, 29]);
    assert_eq!(parse_seq("7"), vec![7]);
}

#[test]
fn input_text_splits_into_rules_and_updates() {
    let (rules, updates) = parse_input("47|53
97|13

75,47
61,13");
    assert_eq!(rules, vec![(47, 53), (97, 13)]);
    assert_eq!(updates, vec![vec![75, 47], vec![61, 13]]);
}

fn canonical_rules() -> Vec<(usize, usize)> {
    vec![
        (47, 53),
        (97, 13),
        (97, 61),
        (97, 47),
        (75, 29),
        (61, 13),
        (75, 53),
        (29, 13),
        (97, 29),
        (53, 29),
        (61, 53),
        (97, 53),
        (61, 29),
        (47, 13),
        (75, 47),
        (97, 75),
        (47, 61),
        (75, 61),
        (47, 29),
        (75, 13),
        (53, 13),
    ]
}

#[test]
fn ordered_update_passes_the_rules() {
    let requirements = build_requirements(&canonical_rules());
    assert!(is_valid(&vec![75, 47, 61, 53, 29], &requirements));
    assert!(is_valid(&vec![97, 61, 53, 29, 13], &requirements));
    assert!(is_valid(&vec![75, 29, 13], &requirements));
}

#[test]
fn middle_pages_of_valid_updates_sum_up() {
    let requirements = build_requirements(&canonical_rules());
    let updates = vec![
        vec![75, 47, 61, 53, 29],
        vec![97, 61, 53, 29, 13],
        vec![75, 29, 13],
        vec![75, 97, 47, 61, 53],
        vec![61, 13, 29],
        vec![97, 13, 75, 29, 47],
    ];
    assert_eq!(queue_solve1(&updates, &requirements), 143);
}

#[test]
fn disordered_update_fails_the_rules() {
    let requirements = build_requirements(&canonical_rules());
    assert!(!is_valid(&vec![75, 97, 47, 61, 53], &requirements));
    assert!(!is_valid(&vec![61, 13, 29], &requirements));
    assert!(!is_valid(&vec![97, 13, 75, 29, 47], &requirements));
}

#[test]
fn operators_combine_left_to_right() {
    assert_eq!(Operation::Add.apply(81, 40), 121);
    assert_eq!(Operation::Multiply.apply(121, 27), 3267);
    assert_eq!(Operation::Concatenate.apply(15, 6), 156);
    assert_eq!(Operation::Concatenate.apply(12, 0), 120);
    let e = Expression {
        operands: vec![81, 40, 27],
        operators: vec![Operation::Add, Operation::Multiply],
    };
    assert_eq!(e.calculate(), 3267);
}

#[test]
fn search_finds_a_real_equation() {
    let found = Expression::from(&vec![81, 40, 27], 3267, &vec![
        Operation::Add,
        Operation::Multiply,
    ]);
    let e = found.expect("an equation exists");
    assert_eq!(e.calculate(), 3267);

    let missing = Expression::from(&vec![16, 10, 13], 161011, &vec![
        Operation::Add,
        Operation::Multiply,
    ]);
    assert!(missing.is_none());
}

fn canonical_equations() -> (Vec<Vec<u64>>, Vec<u64>) {
    let operands = vec![
        vec![10, 19],
        vec![81, 40, 27],
        vec![17, 5],
        vec![15, 6],
        vec![6, 8, 6, 15],
        vec![16, 10, 13],
        vec![17, 8, 14],
        vec![9, 7, 18, 13],
        vec![11, 6, 16, 20],
    ];
    let targets = vec![190, 3267, 83, 156, 7290, 161011, 192, 21037, 292];
    (operands, targets)
}

#[test]
fn calibration_total_with_two_operators() {
    let (operands, targets) = canonical_equations();
    let ops = vec![Operation::Add, Operation::Multiply];
    assert_eq!(calibration_solve(&operands, &targets, &ops), 3749);
}

#[test]
fn calibration_total_with_concatenation() {
    let (operands, targets) = canonical_equations();
    let ops = vec![Operation::Add, Operation::Multiply, Operation::Concatenate];
    assert_eq!(calibration_solve(&operands, &targets, &ops), 11387);
}

fn canonical_machines() -> Vec<Machine> {
    vec![
        Machine { button_a: (94, 34), button_b: (22, 67), prize: (8400, 5400) },
        Machine { button_a: (26, 66), button_b: (67, 21), prize: (12748, 12176) },
        Machine { button_a: (17, 86), button_b: (84, 37), prize: (7870, 6450) },
        Machine { button_a: (69, 23), button_b: (27, 71), prize: (18641, 10279) },
    ]
}

#[test]
fn claw_tokens_for_the_canonical_machines() {
    let machines = canonical_machines();
    assert_eq!(machines[0].solve(), 280);
    assert_eq!(machines[1].solve(), 0);
    assert_eq!(machines[2].solve(), 200);
    assert_eq!(machines[3].solve(), 0);
    assert_eq!(claw_solve1(&machines), 480);
}

#[test]
fn claw_tokens_with_far_prizes() {
    assert_eq!(claw_solve2(&canonical_machines()), 875318608908);
}

#[test]
fn blink_counts_for_the_canonical_stones() {
    let stones = vec![125, 17];
    let mut atlas: HashMap<u128, usize> = HashMap::new();
    assert_eq!(stones_solve(&stones, 6, &mut atlas), 22);
    let mut atlas: HashMap<u128, usize> = HashMap::new();
    assert_eq!(stones_solve(&stones, 25, &mut atlas), 55312);
}

#[test]
fn stones_change_on_each_blink() {
    assert_eq!(transition_stone(&0), vec![1]);
    assert_eq!(transition_stone(&1), vec![2024]);
    assert_eq!(transition_stone(&1000), vec![10, 0]);
    assert_eq!(transition_stone(&512072), vec![512, 72]);
    assert_eq!(transition_stone(&17), vec![1, 7]);
    assert_eq!(transition_stone(&5), vec![10120]);
}
