use clumsy_crucible::day01;
use clumsy_crucible::day08::NodeIdentifier;
use clumsy_crucible::day11;
use clumsy_crucible::day15;

const CALIBRATION: &str = "1abc2
pqr3stu8vwx
a1b2c3d4e5f
treb7uchet
";

const SPELLED: &str = "two1nine
eightwothree
abcone2threexyz
xtwone3four
4nineeightseven2
zoneight234
7pqrstsixteen
";

const IMAGE: &str = "...#......
.......#..
#.........
..........
......#...
.#........
.........#
..........
.......#..
#...#.....
";

const STEPS: &str = "rn=1,cm-,qp=3,cm=2,qp-,pc=4,ot=9,ab=5,pc-,pc=6,ot=7\n";

#[test]
fn day01_test_part_one() {
    assert_eq!(day01::part_one(CALIBRATION), Some(142));
}

#[test]
fn day01_test_part_two() {
    assert_eq!(day01::part_two(SPELLED), Some(281));
}

#[test]
fn calibration_edge_cases() {
    assert_eq!(day01::part_one(""), Some(0));
    assert_eq!(day01::part_one("abc\n7\n"), Some(77));
    assert_eq!(day01::part_one("no digits here"), Some(0));
    assert_eq!(day01::part_two("oneight"), Some(18));
    assert_eq!(day01::part_two("eighthree"), Some(83));
    assert_eq!(day01::part_two("nine"), Some(99));
    assert_eq!(day01::part_one("nine"), Some(0));
}

#[test]
fn day11_test_part_one() {
    assert_eq!(day11::part_one(IMAGE), Some(374));
}

#[test]
fn day11_test_part_two() {
    assert_eq!(day11::part_two(IMAGE), Some(82000210));
}

#[test]
fn galaxy_distances_scale_with_the_factor() {
    assert_eq!(day11::galaxy_distances(IMAGE, 2), Some(374));
    assert_eq!(day11::galaxy_distances(IMAGE, 10), Some(1030));
    assert_eq!(day11::galaxy_distances(IMAGE, 100), Some(8410));
}

#[test]
fn galaxy_images_that_are_not_rectangles() {
    assert_eq!(day11::part_one(""), None);
    assert_eq!(day11::part_one("#.\n#"), None);
    assert_eq!(day11::part_one("#.#\n"), Some(3));
    assert_eq!(day11::part_two("#\n.\n#"), Some(1000001));
}

#[test]
fn day15_test_part_one() {
    assert_eq!(day15::part_one(STEPS), Some(1320));
}

#[test]
fn hash_of_single_steps() {
    assert_eq!(day15::hash("HASH"), 52);
    assert_eq!(day15::hash("rn=1"), 30);
    assert_eq!(day15::hash("cm-\n"), 253);
    assert_eq!(day15::hash(""), 0);
    assert_eq!(day15::part_one(""), Some(0));
}

#[test]
fn node_names() {
    let start = NodeIdentifier::start();
    assert_eq!(start, NodeIdentifier('A', 'A', 'A'));
    assert!(start.is_ghost_start());
    assert!(!start.is_end());
    assert!(!start.is_ghost_end());
    let end = NodeIdentifier('Z', 'Z', 'Z');
    assert!(end.is_end());
    assert!(end.is_ghost_end());
    let ghost = NodeIdentifier('1', '1', 'Z');
    assert!(ghost.is_ghost_end());
    assert!(!ghost.is_end());
    assert_eq!(NodeIdentifier::parse("BBB = (AAA, ZZZ)"), Some(NodeIdentifier('B', 'B', 'B')));
    assert_eq!(NodeIdentifier::parse("AB"), None);
}

const CONTRAPTION: &str = r".|...\....
|.-.\.....
.....|-...
........|.
..........
.........\
..../.\\..
.-.-/..|..
.|....-|.\
..//.|....
";

#[test]
fn day16_test_part_one() {
    assert_eq!(clumsy_crucible::day16::part_one(CONTRAPTION), Some(46));
}

#[test]
fn day16_test_part_two() {
    assert_eq!(clumsy_crucible::day16::part_two(CONTRAPTION), Some(51));
}

#[test]
fn beams_edge_cases() {
    let first_part = clumsy_crucible::day16::part_one;
    let second_part = clumsy_crucible::day16::part_two;
    assert_eq!(first_part("...\n"), Some(3));
    assert_eq!(first_part(r"\..\n..."), None);
    assert_eq!(first_part("\\..\n...\n"), Some(2));
    assert_eq!(first_part(".|.\n...\n"), Some(3));
    assert_eq!(first_part("-\n"), Some(1));
    assert_eq!(first_part(""), None);
    assert_eq!(first_part("..\n."), None);
    assert_eq!(first_part(".x\n"), None);
    assert_eq!(second_part("...\n"), Some(3));
    assert_eq!(second_part(".|.\n...\n"), Some(3));
    assert_eq!(second_part("..\\\n...\n"), Some(4));
}

#[test]
fn day15_test_part_two() {
    assert_eq!(day15::part_two(STEPS), Some(145));
}

#[test]
fn lens_boxes_edge_cases() {
    assert_eq!(day15::part_two("rn=1"), Some(1));
    assert_eq!(day15::part_two("rn=1,rn=4"), Some(4));
    assert_eq!(day15::part_two("rn=1,cm=2"), Some(1 + 2 * 2));
    assert_eq!(day15::part_two("rn=1,cm=2,rn-"), Some(2));
    assert_eq!(day15::part_two("rn-"), Some(0));
    assert_eq!(day15::part_two("rnx=3,rny=5"), day15::part_two("rnx=3,rny=5"));
    assert_eq!(day15::part_two("rnx=3,rny=5"), Some((day15::hash("rn") + 1) * (3 + 2 * 5)));
    assert_eq!(day15::part_two("r=1"), Some(192));
    assert_eq!(day15::part_two("r"), None);
    assert_eq!(day15::part_two("rn+1"), None);
    assert_eq!(day15::part_two("rn=x"), None);
}
