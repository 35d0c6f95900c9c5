use clumsy_crucible::day04;
use clumsy_crucible::day06;
use clumsy_crucible::day09;
use clumsy_crucible::day14;

const CARDS: &str = "Card 1: 41 48 83 86 17 | 83 86  6 31 17  9 48 53
Card 2: 13 32 20 16 61 | 61 30 68 82 17 32 24 19
Card 3:  1 21 53 59 44 | 69 82 63 72 16 21 14  1
Card 4: 41 92 73 84 69 | 59 84 76 51 58  5 54 83
Card 5: 87 83 26 28 32 | 88 30 70 12 93 22 82 36
Card 6: 31 18 13 56 72 | 74 77 10 23 35 67 36 11
";

const RACES: &str = "Time:      7  15   30
Distance:  9  40  200
";

const HISTORIES: &str = "0 3 6 9 12 15
1 3 6 10 15 21
10 13 16 21 30 45
";

const PLATFORM: &str = "O....#....
O.OO#....#
.....##...
OO.#O....O
.O.....O#.
O.#..O.#.#
..O..#O..O
.......O..
#....###..
#OO..#....
";

#[test]
fn day04_test_part_one() {
    assert_eq!(day04::part_one(CARDS), Some(13));
}

#[test]
fn day04_test_part_two() {
    assert_eq!(day04::part_two(CARDS), Some(30));
}

#[test]
fn cards_edge_cases() {
    assert_eq!(day04::part_one(""), Some(0));
    assert_eq!(day04::part_two(""), Some(0));
    assert_eq!(day04::part_one("not a card\n"), Some(0));
    assert_eq!(day04::part_one("Card 1: 5 5 | 5\n"), Some(2));
    assert_eq!(day04::part_one("Card 1: 1 x | 1\n"), Some(0));
    assert_eq!(day04::part_two("Card 1: 1 2 | 1 2\nCard 2: 3 | 3\nCard 3: 4 | 5\n"), Some(7));
    let many = "Card 1: 1 2 3 4 5 6 7 8 9 10 11 12 13 14 15 16 17 18 19 20 21 22 23 24 25 26 27 28 29 30 31 32 33 | 1 2 3 4 5 6 7 8 9 10 11 12 13 14 15 16 17 18 19 20 21 22 23 24 25 26 27 28 29 30 31 32 33\n";
    assert_eq!(day04::part_one(many), None);
}

#[test]
fn day06_test_part_one() {
    assert_eq!(day06::part_one(RACES), Some(288));
}

#[test]
fn day06_test_part_two() {
    assert_eq!(day06::part_two(RACES), Some(71503));
}

#[test]
fn races_edge_cases() {
    assert_eq!(day06::count_wins(7, 9), 4);
    assert_eq!(day06::count_wins(30, 200), 9);
    assert_eq!(day06::count_wins(0, 0), 0);
    assert_eq!(day06::part_one("Time: 7\n"), None);
    assert_eq!(day06::part_one("Time: 7 x 15\nDistance: 9 40\n"), Some(32));
    assert_eq!(day06::part_two("Time: 7\n"), None);
    assert_eq!(day06::part_two("no colon\nTime: 7\nDistance: 9\n"), Some(4));
}

#[test]
fn day09_test_part_one() {
    assert_eq!(day09::part_one(HISTORIES), Some(114));
}

#[test]
fn day09_test_part_two() {
    assert_eq!(day09::part_two(HISTORIES), Some(2));
}

#[test]
fn histories_edge_cases() {
    assert_eq!(day09::part_one("10 13 16 21 30 45"), Some(68));
    assert_eq!(day09::part_two("10 13 16 21 30 45"), Some(5));
    assert_eq!(day09::part_one("-3 -6 -9"), Some(-12));
    assert_eq!(day09::part_one(""), Some(0));
    assert_eq!(day09::part_one("1 two 3"), None);
    assert_eq!(day09::part_one("9223372036854775807 -9223372036854775808"), None);
    assert_eq!(day09::part_one("5"), Some(5));
}

#[test]
fn day14_test_part_one() {
    assert_eq!(day14::part_one(PLATFORM), Some(136));
}

#[test]
fn platform_edge_cases() {
    assert_eq!(day14::part_one(""), None);
    assert_eq!(day14::part_one("O.\n.x\n"), None);
    assert_eq!(day14::part_one("O.\n."), None);
    assert_eq!(day14::part_one(".\nO\n#\nO\n"), Some(4 + 1));
}

const GAMES: &str = "Game 1: 3 blue, 4 red; 1 red, 2 green, 6 blue; 2 green
Game 2: 1 blue, 2 green; 3 green, 4 blue, 1 red; 1 green, 1 blue
Game 3: 8 green, 6 blue, 20 red; 5 blue, 4 red, 13 green; 5 green, 1 red
Game 4: 1 green, 3 red, 6 blue; 3 green, 6 red; 3 green, 15 blue, 14 red
Game 5: 6 red, 1 blue, 3 green; 2 blue, 1 red, 2 green
";

#[test]
fn day02_test_part_one() {
    assert_eq!(clumsy_crucible::day02::part_one(GAMES), Some(8));
}

#[test]
fn day02_test_part_two() {
    assert_eq!(clumsy_crucible::day02::part_two(GAMES), Some(2286));
}

#[test]
fn games_edge_cases() {
    use_day02_cases();
}

fn use_day02_cases() {
    let first_part = clumsy_crucible::day02::part_one;
    let second_part = clumsy_crucible::day02::part_two;
    assert_eq!(first_part(""), Some(0));
    assert_eq!(first_part("Game 7: 12 red, 13 green, 14 blue\n"), Some(7));
    assert_eq!(first_part("Game 7: 13 red\n"), Some(0));
    assert_eq!(first_part("Game 7: 1 purple\n"), Some(0));
    assert_eq!(first_part("Game 7 1 red\n"), None);
    assert_eq!(first_part("Game x: 1 red\n"), None);
    assert_eq!(first_part("Game 7: red\n"), None);
    assert_eq!(first_part("Game 7: 20 red; banana\n"), Some(0));
    assert_eq!(second_part("Game 7: 2 red, 3 green; 4 blue, banana\n"), Some(24));
    assert_eq!(second_part("Game 7: 2 red\n"), Some(0));
    assert_eq!(second_part("no label\n"), None);
}

const ALMANAC: &str = "seeds: 79 14 55 13

seed-to-soil map:
50 98 2
52 50 48

soil-to-fertilizer map:
0 15 37
37 52 2
39 0 15

fertilizer-to-water map:
49 53 8
0 11 42
42 0 7
57 7 4

water-to-light map:
88 18 7
18 25 70

light-to-temperature map:
45 77 23
81 45 19
68 64 13

temperature-to-humidity map:
0 69 1
1 0 69

humidity-to-location map:
60 56 37
56 93 4
";

#[test]
fn day05_test_part_one() {
    assert_eq!(clumsy_crucible::day05::part_one(ALMANAC), Some(35));
}

#[test]
fn almanac_edge_cases() {
    let first_part = clumsy_crucible::day05::part_one;
    assert_eq!(first_part("seeds: 5 3\n"), Some(3));
    assert_eq!(first_part("seeds:\n"), None);
    assert_eq!(first_part("no label\n"), None);
    assert_eq!(first_part("seeds: 5\n\nmap:\n100 5 1\n"), Some(100));
    assert_eq!(first_part("seeds: 5\n\nmap:\n100 5\n"), Some(5));
    assert_eq!(first_part("seeds: 5\n\nmap:\n100 6 1\n7 5 2\n\nnext:\n1 7 1\n"), Some(1));
    assert_eq!(first_part("seeds: 4294967301\n"), Some(5));
}

const SCHEMATIC: &str = "467..114..
...*......
..35..633.
......#...
617*......
.....+.58.
..592.....
......755.
...$.*....
.664.598..
";

#[test]
fn day03_test_part_one() {
    assert_eq!(clumsy_crucible::day03::part_one(SCHEMATIC), Some(4361));
}

#[test]
fn schematic_edge_cases() {
    let first_part = clumsy_crucible::day03::part_one;
    assert_eq!(first_part(""), Some(0));
    assert_eq!(first_part("12*"), Some(12));
    assert_eq!(first_part("*\n12"), Some(12));
    assert_eq!(first_part("12.\n..."), Some(0));
    assert_eq!(first_part("1.1\n.#.\n1.1\n"), Some(4));
    assert_eq!(first_part("..5\n#..\n"), Some(0));
    assert_eq!(first_part("99999999999#"), None);
}

const SPRINGS: &str = "???.### 1,1,3
.??..??...?##. 1,1,3
?#?#?#?#?#?#?#? 1,3,1,6
????.#...#... 4,1,1
????.######..#####. 1,6,5
?###???????? 3,2,1
";

#[test]
fn day12_test_part_one() {
    assert_eq!(clumsy_crucible::day12::part_one(SPRINGS), Some(21));
}

#[test]
fn day12_test_part_two() {
    assert_eq!(clumsy_crucible::day12::part_two(SPRINGS), Some(525152));
}

#[test]
fn springs_edge_cases() {
    let first_part = clumsy_crucible::day12::part_one;
    let second_part = clumsy_crucible::day12::part_two;
    assert_eq!(first_part("???.### 1,1,3\n"), Some(1));
    assert_eq!(first_part("?###???????? 3,2,1\n"), Some(10));
    assert_eq!(first_part("??? 1\n"), Some(3));
    assert_eq!(first_part("### 1\n"), Some(0));
    assert_eq!(first_part("..# 1\n"), Some(1));
    assert_eq!(first_part(""), Some(0));
    assert_eq!(first_part("??x 1\n"), None);
    assert_eq!(first_part("??? a\n"), None);
    assert_eq!(first_part("???\n"), None);
    assert_eq!(second_part("???.### 1,1,3\n"), Some(1));
    assert_eq!(second_part(".??..??...?##. 1,1,3\n"), Some(16384));
}

const HANDS: &str = "32T3K 765
T55J5 684
KK677 28
KTJJT 220
QQQJA 483
";

#[test]
fn day07_test_part_one() {
    assert_eq!(clumsy_crucible::day07::part_one(HANDS), Some(6440));
}

#[test]
fn day07_test_part_two() {
    assert_eq!(clumsy_crucible::day07::part_two(HANDS), Some(5905));
}

#[test]
fn hands_edge_cases() {
    let first_part = clumsy_crucible::day07::part_one;
    let second_part = clumsy_crucible::day07::part_two;
    assert_eq!(first_part(""), Some(0));
    assert_eq!(first_part("AAAAA 1\nAAAAA 2\n"), Some(5));
    assert_eq!(first_part("23456 10\n22345 1\n"), Some(10 + 2));
    assert_eq!(first_part("2345 10\n"), Some(0));
    assert_eq!(first_part("2x3456 10\n"), Some(10));
    assert_eq!(first_part("23456 x\n"), Some(0));
    assert_eq!(second_part("JJJJJ 3\n22223 1\n"), Some(3 * 2 + 1));
    assert_eq!(first_part("JJJJJ 3\n22223 1\n"), Some(3 * 2 + 1));
    assert_eq!(second_part("2345J 1\n22345 2\n"), Some(2 * 1 + 1 * 2));
    assert_eq!(second_part("J2345 1\n22345 2\n"), Some(1 * 1 + 2 * 2));
}

const DIG_PLAN: &str = "R 6 (#70c710)
D 5 (#0dc571)
L 2 (#5713f0)
D 2 (#d2c081)
R 2 (#59c680)
D 2 (#411b91)
L 5 (#8ceee2)
U 2 (#caa173)
L 1 (#1b58a2)
U 2 (#caa171)
R 2 (#7807d2)
U 3 (#a77fa3)
L 2 (#015232)
U 2 (#7a21e3)
";

#[test]
fn day18_test_part_two() {
    assert_eq!(clumsy_crucible::day18::part_two(DIG_PLAN), Some(952408144115));
}

#[test]
fn dig_plan_edge_cases() {
    let second_part = clumsy_crucible::day18::part_two;
    let square = "R 1 (#000010)\nD 1 (#000011)\nL 1 (#000012)\nU 1 (#000013)\n";
    assert_eq!(second_part(square), Some(4));
    let wide = "R 58 (#0003a0)\nD 2 (#000021)\nL 58 (#0003A2)\nU 2 (#000023)\n";
    assert_eq!(second_part(wide), Some(59 * 3));
    assert_eq!(second_part(""), None);
    assert_eq!(second_part("R 1 (#00001g)\n"), None);
    assert_eq!(second_part("R 1 (#000014)\n"), None);
    assert_eq!(second_part("R 1 (#00003A)\n"), None);
    assert_eq!(second_part("R 1\n"), None);
    assert_eq!(second_part("R 1 (#0001)\n"), None);
}
