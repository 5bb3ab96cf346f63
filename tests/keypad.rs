use aoc24rust::keypad::{
    candidate_paths, delta_to_path, is_path_valid, rec_dir, solve, solve_line, KeypadError, Memo,
    Pad,
};
use aoc24rust::utils::PointT;

#[test]
fn main_test_example1() {
    let input = r#"029A
980A
179A
456A
379A"#;
    let solution = solve(&input, 2);
    assert!(solution == Ok(126384));
    let sol2 = solve(&input, 25);
    assert!(sol2 == Ok(154115708116294));
}

#[test]
fn single_codes_at_depth_two() {
    assert_eq!(solve_line("029A", 2), Ok(68));
    assert_eq!(solve_line("980A", 2), Ok(60));
    assert_eq!(solve_line("179A", 2), Ok(68));
    assert_eq!(solve_line("456A", 2), Ok(64));
    assert_eq!(solve_line("379A", 2), Ok(64));
}

#[test]
fn unknown_symbol_is_reported() {
    assert_eq!(solve_line("02B9A", 2), Err(KeypadError::UnknownSymbol));
    assert_eq!(solve("029A\nx\n", 2), Err(KeypadError::UnknownSymbol));
}

#[test]
fn deep_chain_overflows() {
    assert_eq!(solve_line("029A", 60), Err(KeypadError::Overflow));
}

#[test]
fn base_case_counts_symbols() {
    let mut memo = Memo::new();
    assert_eq!(rec_dir(&mut memo, 0, vec!['<', 'A', 'v', '>', 'A']), Some(5));
    assert_eq!(rec_dir(&mut memo, -3, vec!['A']), Some(1));
}

#[test]
fn cold_and_warm_memo_agree() {
    let path = vec!['<', 'v', 'A', 'A', '>', '^', 'A'];
    let mut cold = Memo::new();
    let first = rec_dir(&mut cold, 5, path.clone());
    let second = rec_dir(&mut cold, 5, path.clone());
    let mut fresh = Memo::new();
    let third = rec_dir(&mut fresh, 5, path);
    assert!(first.is_some());
    assert_eq!(first, second);
    assert_eq!(first, third);
}

#[test]
fn repress_equals_zero_distance_transition() {
    let mut memo = Memo::new();
    let press = rec_dir(&mut memo, 3, vec!['A']);
    let on_left = PointT { x: 0, y: 1 };
    let cands = candidate_paths(Pad::Directional, &on_left, &on_left);
    assert_eq!(cands, vec![vec!['A']]);
    let twice = rec_dir(&mut memo, 4, vec!['<', '<']);
    let once = rec_dir(&mut memo, 4, vec!['<']);
    assert_eq!(twice.unwrap() - once.unwrap(), press.unwrap());
}

#[test]
fn candidates_avoid_the_gap() {
    let zero = PointT { x: 1, y: 3 };
    let one = PointT { x: 0, y: 2 };
    let cands = candidate_paths(Pad::Numeric, &zero, &one);
    assert_eq!(cands, vec![vec!['^', '<', 'A']]);
    let left = PointT { x: 0, y: 1 };
    let action = PointT { x: 2, y: 0 };
    let cands = candidate_paths(Pad::Directional, &action, &left);
    assert!(!cands.is_empty());
    for c in cands.iter() {
        assert_eq!(c.len(), 4);
        assert_eq!(c[3], 'A');
        assert!(is_path_valid(&action, &c[..3].to_vec(), Pad::Directional));
    }
    assert!(!is_path_valid(&action, &vec!['<', '<', 'v'], Pad::Directional));
}

#[test]
fn delta_moves_horizontal_first() {
    assert_eq!(delta_to_path(PointT { x: -2, y: 1 }), vec!['<', '<', 'v']);
    assert_eq!(delta_to_path(PointT { x: 1, y: -3 }), vec!['>', '^', '^', '^']);
    assert_eq!(delta_to_path(PointT { x: 0, y: 0 }), Vec::<char>::new());
}
