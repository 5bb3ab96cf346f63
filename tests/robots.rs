use aoc24rust::robots::{parse_signed, wrap, Day, Robot};
use aoc24rust::utils::{PointT, RectT};

#[test]
fn robot_line_is_read() {
    let input = r#"p=56,68 v=1,-12"#;
    let bounds = RectT {
        x: 0,
        y: 0,
        width: 0,
        height: 0,
    };
    let robot = Robot::parse(input, &bounds);
    match robot {
        Some(robot) => {
            assert!(robot.position == PointT { x: 56, y: 68 });
            assert!(robot.velocity == PointT { x: 1, y: -12 });
        }
        None => assert!(false),
    }
}

#[test]
fn test_sample() {
    let input = r#"p=0,4 v=3,-3
p=6,3 v=-1,-3
p=10,3 v=-1,2
p=2,0 v=2,-1
p=0,0 v=1,3
p=3,0 v=-2,-2
p=7,6 v=-1,-3
p=3,0 v=-1,-2
p=9,3 v=2,3
p=7,3 v=-1,2
p=2,4 v=2,-3
p=9,5 v=-3,-3"#;
    let bounds = RectT {
        x: 0,
        y: 0,
        width: 11,
        height: 7,
    };
    match Day::parse(input, &bounds) {
        Some(day) => {
            let part1 = day.part1();
            assert!(part1 == 12, "Invalid solution");
        }
        None => assert!(false, "Invalid input"),
    }
}

#[test]
fn robot_walks_and_wraps() {
    let bounds = RectT { x: 0, y: 0, width: 11, height: 7 };
    let r = Robot::parse("p=2,4 v=2,-3", &bounds).unwrap();
    assert_eq!(r.get_position(1), PointT { x: 4, y: 1 });
    assert_eq!(r.get_position(2), PointT { x: 6, y: 5 });
    assert_eq!(r.get_position(5), PointT { x: 1, y: 3 });
}

#[test]
fn malformed_robot_lines() {
    let bounds = RectT { x: 0, y: 0, width: 11, height: 7 };
    assert!(Robot::parse("p=2,4", &bounds).is_none());
    assert!(Robot::parse("p=2 v=2,-3", &bounds).is_none());
    assert!(Robot::parse("p=2,4  v=2,-3", &bounds).is_none());
}

#[test]
fn signed_numbers_and_wrapping() {
    assert_eq!(parse_signed(&"-12".chars().collect()), Some(-12));
    assert_eq!(parse_signed(&"12".chars().collect()), Some(12));
    assert_eq!(parse_signed(&"-".chars().collect()), None);
    assert_eq!(parse_signed(&"1-2".chars().collect()), None);
    assert_eq!(parse_signed(&"-9223372036854775808".chars().collect()), Some(i64::MIN));
    assert_eq!(wrap(-1, 7), 6);
    assert_eq!(wrap(-7, 7), 0);
    assert_eq!(wrap(15, 7), 1);
}
