use aoc24rust::garden::{Fence, Garden};
use aoc24rust::utils::PointT;

#[test]
fn test_small_examples() {
    {
        let mut garden = Garden::parse(
            "AAAA
BBCD
BBCC
EEEC",
        );
        garden.build_areas();
        assert!(garden.get_part1() == 140);
        assert!(garden.get_part2() == 80);
    }
}

#[test]
fn test_fully_contained() {
    {
        let mut garden = Garden::parse(
            "OOOOO
OXOXO
OOOOO
OXOXO
OOOOO",
        );
        garden.build_areas();
        assert!(garden.get_part1() == 772);
        assert!(garden.get_part2() == 436);
    }
}

#[test]
fn test_mobius_fencing() {
    {
        let mut garden = Garden::parse(
            "AAAAAA
AAABBA
AAABBA
ABBAAA
ABBAAA
AAAAAA",
        );
        garden.build_areas();
        assert!(garden.get_part2() == 368);
    }
}

#[test]
fn larger_example() {
    let mut garden = Garden::parse(
        "RRRRIICCFF
RRRRIICCCF
VVRRRCCFFF
VVRCCCJFFF
VVVVCJJCFE
VVIVCCJJEE
VVIIICJJEE
MIIIIIJJEE
MIIISIJEEE
MMMISSJEEE",
    );
    garden.build_areas();
    assert_eq!(garden.get_part1(), 1930);
    assert_eq!(garden.get_part2(), 1206);
    assert_eq!(garden.areas.len(), 11);
}

#[test]
fn single_cell_region() {
    let mut garden = Garden::parse("A");
    garden.build_areas();
    assert_eq!(garden.areas.len(), 1);
    assert_eq!(garden.areas[0].area, 1);
    assert_eq!(garden.areas[0].fences.len(), 4);
    assert_eq!(garden.get_part1(), 4);
    assert_eq!(garden.get_part2(), 4);
    let f = Fence::new(PointT { x: 0, y: 0 }, PointT { x: 0, y: -1 });
    assert!(garden.areas[0].fences.contains(&f));
}
