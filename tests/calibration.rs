use aoc24rust::calibration;
use aoc24rust::calibration::{mult, Op, Solver};

#[test]
fn test_concat() {
    assert_eq!(calibration::concat(1, 2), 12);
    assert_eq!(calibration::concat(1, 0), 10);
    assert_eq!(calibration::concat(0, 1), 1);
    assert_eq!(calibration::concat(10, 10), 1010);
    assert_eq!(calibration::concat(1234, 1234), 12341234);
    assert_eq!(calibration::concat(1230, 1230), 12301230);
    assert_eq!(calibration::concat(2843285760, 74), 284328576074);
}

#[test]
fn equations_with_two_and_three_operators() {
    let two = vec![Op::Mult, Op::Add];
    let three = vec![Op::Mult, Op::Add, Op::Concat];
    let cases = [
        ("190: 10 19", true, true),
        ("3267: 81 40 27", true, true),
        ("83: 17 5", false, false),
        ("156: 15 6", false, true),
        ("7290: 6 8 6 15", false, true),
        ("161011: 16 10 13", false, false),
        ("192: 17 8 14", false, true),
        ("21037: 9 7 18 13", false, false),
        ("292: 11 6 16 20", true, true),
    ];
    let mut part1 = 0;
    let mut part2 = 0;
    for (line, with_two, with_three) in cases {
        let s = Solver::new(line).unwrap();
        assert_eq!(s.solve(&two), with_two, "{line}");
        assert_eq!(s.solve(&three), with_three, "{line}");
        if with_two {
            part1 += s.solution;
        }
        if with_three {
            part2 += s.solution;
        }
    }
    assert_eq!(part1, 3749);
    assert_eq!(part2, 11387);
}

#[test]
fn malformed_equations_are_rejected() {
    assert!(Solver::new("190: 10").is_none());
    assert!(Solver::new("190 10 19").is_none());
    assert!(Solver::new("190:10 19").is_none());
    assert!(Solver::new("x: 10 19").is_none());
    assert!(Solver::new("190: 10 y").is_none());
    let s = Solver::new("190: 10 19").unwrap();
    assert_eq!(s.solution, 190);
    assert_eq!(s.numbers, vec![10, 19]);
}

#[test]
fn product_of_two() {
    assert_eq!(mult(-4, 6), -24);
}
