use aoc24rust::towels::Day19;

const EXAMPLE: &str = r#"r, wr, b, g, bwu, rb, gb, br

brwrr
bggr
gbbr
rrbgbr
ubwu
bwurrg
brgr
bbrgwb"#;

#[test]
fn towel_example() {
    let input = EXAMPLE;

    let mut solver = Day19::parse(input);
    solver.solve();
    assert!(solver.part1() == 6);
    assert!(solver.part2() == Some(16));
}

#[test]
fn towels_and_designs_are_read() {
    let solver = Day19::parse(EXAMPLE);
    assert_eq!(solver.towels.len(), 8);
    assert_eq!(solver.towels[1], vec!['w', 'r']);
    assert_eq!(solver.towels[7], vec!['b', 'r']);
    assert_eq!(solver.designs.len(), 8);
    assert_eq!(solver.designs[0], "brwrr".chars().collect::<Vec<char>>());
}

#[test]
fn ways_per_design() {
    let mut solver = Day19::parse(EXAMPLE);
    solver.solve();
    let expected = [2u64, 1, 4, 6, 0, 1, 2, 0];
    for (got, want) in solver.solutions.iter().zip(expected.iter()) {
        assert_eq!(*got, Some(*want));
    }
    let empty = Vec::new();
    assert_eq!(solver.rec(&empty), Some(0));
}
