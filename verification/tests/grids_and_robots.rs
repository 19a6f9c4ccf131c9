use puzzles::claw::Machine;
use puzzles::memory_grid::get_path;
use puzzles::robots::{calc_safety, Robot};
use puzzles::warehouse::{sum_coordinates, Position, Type};

#[test]
fn steps() {
    let mut robot = Robot::new((0, 0), (-1, -1), (3, 3));
    robot.step();
    assert_eq!(robot.pos, (2, 2));
    let mut robot = Robot::new((2, 0), (1, -1), (3, 3));
    robot.step();
    assert_eq!(robot.pos, (0, 2));
    let mut robot = Robot::new((2, 2), (1, 1), (3, 3));
    robot.step();
    assert_eq!(robot.pos, (0, 0));
    let mut robot = Robot::new((0, 2), (-1, 1), (3, 3));
    robot.step();
    assert_eq!(robot.pos, (2, 0));
    let mut robot = Robot::new((2, 4), (2, -3), (11, 7));
    robot.step();
    assert_eq!(robot.pos, (4, 1));
    robot.step();
    assert_eq!(robot.pos, (6, 5));
    robot.step();
    assert_eq!(robot.pos, (8, 2));
    robot.step();
    assert_eq!(robot.pos, (10, 6));
    robot.step();
    assert_eq!(robot.pos, (1, 3));
    let mut robot = Robot::new((2, 4), (2, -3), (11, 7));
    robot.nstep(5);
    assert_eq!(robot.pos, (1, 3));
}

#[test]
fn small_fleet_safety() {
    let map = (11i64, 7i64);
    // One robot per quadrant and one on the middle column.
    let robots = vec![
        Robot::new((1, 1), (0, 0), map),
        Robot::new((8, 1), (0, 0), map),
        Robot::new((1, 5), (0, 0), map),
        Robot::new((8, 5), (0, 0), map),
        Robot::new((5, 5), (0, 0), map),
    ];
    assert_eq!(calc_safety(&robots, &map), 1);
}

#[test]
fn picture_search() {
    let map = (5i64, 5i64);
    // Two robots start on the same cell and separate after one step.
    let mut robots = vec![
        Robot::new((2, 2), (1, 0), map),
        Robot::new((2, 2), (0, 1), map),
    ];
    assert_eq!(puzzles::robots::calc_easter_egg(&mut robots), 1);
    assert_eq!(robots[0].pos, (3, 2));
    assert_eq!(robots[1].pos, (2, 3));
}

#[test]
fn sum() {
    let p = Position::new(4, 1, Type::Box);
    assert_eq!(sum_coordinates(&[p], false), 104);
}

#[test]
fn wide_boxes_count_left_half() {
    let cells = [
        Position::new(4, 1, Type::BoxL),
        Position::new(5, 1, Type::BoxR),
        Position::new(2, 3, Type::BoxL),
    ];
    assert_eq!(sum_coordinates(&cells, true), 104 + 302);
    assert_eq!(sum_coordinates(&cells, false), 104 + 105 + 302);
}

#[test]
fn claw_prices() {
    // The four reference machines.
    let mut m1 = Machine::new((94, 34), (22, 67), (8400, 5400));
    assert_eq!(puzzles::claw::get_price(&mut m1, false), 280);
    let mut m2 = Machine::new((26, 66), (67, 21), (12748, 12176));
    assert_eq!(puzzles::claw::get_price(&mut m2, false), 0);
    let mut m3 = Machine::new((17, 86), (84, 37), (7870, 6450));
    assert_eq!(puzzles::claw::get_price(&mut m3, false), 200);
    let mut m4 = Machine::new((69, 23), (27, 71), (18641, 10279));
    assert_eq!(puzzles::claw::get_price(&mut m4, false), 0);
}

#[test]
fn claw_far_prizes() {
    let mut m1 = Machine::new((94, 34), (22, 67), (8400, 5400));
    assert_eq!(puzzles::claw::get_price(&mut m1, true), 0);
    assert_eq!(m1.prize, (10000000008400, 10000000005400));
    let mut m2 = Machine::new((26, 66), (67, 21), (12748, 12176));
    assert!(puzzles::claw::get_price(&mut m2, true) > 0);
    let mut m3 = Machine::new((17, 86), (84, 37), (7870, 6450));
    assert_eq!(puzzles::claw::get_price(&mut m3, true), 0);
    let mut m4 = Machine::new((69, 23), (27, 71), (18641, 10279));
    assert!(puzzles::claw::get_price(&mut m4, true) > 0);
}

fn example_obstacles() -> Vec<(usize, usize)> {
    vec![
        (5, 4), (4, 2), (4, 5), (3, 0), (2, 1), (6, 3), (2, 4), (1, 5), (0, 6), (3, 3),
        (2, 6), (5, 1), (1, 2), (5, 5), (2, 5), (6, 5), (1, 4), (0, 4), (6, 4), (1, 1),
        (6, 1), (1, 0), (0, 5), (1, 6), (2, 0),
    ]
}

#[test]
fn main_part_1_test() {
    assert_eq!(22, puzzles::memory_grid::part1(&example_obstacles(), 12, (0, 0), (6, 6)));
}

#[test]
fn part_2_test() {
    assert_eq!((6, 1), puzzles::memory_grid::part2(&example_obstacles(), 12, (0, 0), (6, 6)));
}

#[test]
fn blocked_grid_has_no_path() {
    // A 3x3 grid whose middle column is fully corrupted.
    let obstacles = vec![(1, 0), (1, 1), (1, 2), (2, 2)];
    assert!(get_path(&obstacles, 4, (0, 0), (2, 0)).is_none());
    assert!(get_path(&obstacles, 4, (0, 0), (0, 2)).is_some());
}

#[test]
fn report_safety() {
    let rows: Vec<Vec<i32>> = vec![
        vec![7, 6, 4, 2, 1],
        vec![1, 2, 7, 8, 9],
        vec![9, 7, 6, 2, 1],
        vec![1, 3, 2, 4, 5],
        vec![8, 6, 4, 4, 1],
        vec![1, 3, 6, 7, 9],
    ];
    assert_eq!(puzzles::reports::part1(&rows), 2);
    assert_eq!(puzzles::reports::part2(&rows), 4);
    assert!(puzzles::reports::is_safe(&vec![1, 2, 3]));
    assert!(!puzzles::reports::is_safe(&vec![1, 5, 6]));
    assert!(puzzles::reports::is_sorted(1, 2, true));
    assert!(!puzzles::reports::is_sorted(1, 2, false));
    assert!(puzzles::reports::is_range(4, 1));
    assert!(!puzzles::reports::is_range(4, 4));
}

#[test]
fn part1() {
    let mut machines = [
        Machine::new((94, 34), (22, 67), (8400, 5400)),
        Machine::new((26, 66), (67, 21), (12748, 12176)),
        Machine::new((17, 86), (84, 37), (7870, 6450)),
        Machine::new((69, 23), (27, 71), (18641, 10279)),
    ];
    let price: i64 = machines.iter_mut().map(|m| puzzles::claw::get_price(m, false)).sum();
    assert_eq!(price, 480);
}

#[test]
fn part2() {
    let mut machines = [
        Machine::new((94, 34), (22, 67), (8400, 5400)),
        Machine::new((26, 66), (67, 21), (12748, 12176)),
        Machine::new((17, 86), (84, 37), (7870, 6450)),
        Machine::new((69, 23), (27, 71), (18641, 10279)),
    ];
    let price: i64 = machines.iter_mut().map(|m| puzzles::claw::get_price(m, true)).sum();
    assert_eq!(price, 875318608908);
}

#[test]
fn main_part1() {
    let map = (11i64, 7i64);
    let data: [((i64, i64), (i64, i64)); 12] = [
        ((0, 4), (3, -3)),
        ((6, 3), (-1, -3)),
        ((10, 3), (-1, 2)),
        ((2, 0), (2, -1)),
        ((0, 0), (1, 3)),
        ((3, 0), (-2, -2)),
        ((7, 6), (-1, -3)),
        ((3, 0), (-1, -2)),
        ((9, 3), (2, 3)),
        ((7, 3), (-1, 2)),
        ((2, 4), (2, -3)),
        ((9, 5), (-3, -3)),
    ];
    let mut robots: Vec<Robot> = data.iter().map(|&(p, v)| Robot::new(p, v, map)).collect();
    for robot in &mut robots {
        robot.nstep(100);
    }
    assert_eq!(calc_safety(&robots, &map), 12);
}

#[test]
fn pair_distances() {
    let row1 = vec![3, 4, 2, 1, 3, 3];
    let row2 = vec![4, 3, 5, 3, 9, 3];
    assert_eq!(puzzles::pairs::part1(row1, row2), 11);
}

#[test]
fn pair_similarity() {
    let row1 = vec![3, 4, 2, 1, 3, 3];
    let row2 = vec![4, 3, 5, 3, 9, 3];
    assert_eq!(puzzles::pairs::part2(row1, row2), 31);
    assert_eq!(puzzles::pairs::get_difference(7, 9), 2);
    assert_eq!(puzzles::pairs::get_difference(9, 7), 2);
}
