use aoc24rust::stones::{split_value, Stone, StoneMap};
use std::collections::HashMap;

#[test]
fn main_test_parse() {
    let stones = Stone::parse("125 17");
    let expected = HashMap::from([
        (
            125,
            Stone {
                value: 125,
                count: 1,
            },
        ),
        (
            17,
            Stone {
                value: 17,
                count: 1,
            },
        ),
    ]);
    assert!(stones == expected);
}

#[test]
fn test_simulate() {
    let mut stones = Stone::parse("125 17");
    const EXPECTED: [&str; 6] = [
        "253000 1 7",
        "253 0 2024 14168",
        "512072 1 20 24 28676032",
        "512 72 2024 2 0 2 4 2867 6032",
        "1036288 7 2 20 24 4048 1 4048 8096 28 67 60 32",
        "2097446912 14168 4048 2 0 2 4 40 48 2024 40 48 80 96 2 8 6 7 6 0 3 2",
    ];
    for exp in EXPECTED {
        let mut solved: StoneMap = HashMap::new();
        for (_, stone) in stones {
            stone.simulate(&mut solved);
        }
        assert!(solved == Stone::parse(exp));
        stones = solved;
    }
}

#[test]
fn test_split() {
    let result = split_value(123);
    assert!(result.is_none());
    let result = split_value(1234);
    assert!(result == Some((12, 34)));
}

#[test]
fn split_keeps_leading_zeros_of_the_lower_half() {
    assert_eq!(split_value(1000), Some((10, 0)));
    assert_eq!(split_value(99), Some((9, 9)));
    assert_eq!(split_value(7), None);
    assert_eq!(split_value(0), None);
}

#[test]
fn repeated_numbers_add_up() {
    let stones = Stone::parse("3 3 x 3");
    assert_eq!(stones.len(), 1);
    assert_eq!(stones[&3], Stone { value: 3, count: 3 });
    let mut out: StoneMap = HashMap::new();
    Stone { value: 1010, count: 4 }.simulate(&mut out);
    assert_eq!(out[&10], Stone { value: 10, count: 8 });
}
