use advent::antennas::{get_antinodes_in_line, get_antinodes_in_pair, Antena, AntennaMap, Position};
use advent::garden::{count_corners_per_tile, count_sides, floodfill_region, get_area, get_neighbours, get_perimeter};
use advent::guard::{Grid, Orientation, Position as GuardPosition, State};
use advent::robots::{Robot, Vec2};
use advent::trails::{rate_trailhead, solve2 as trails_solve2};
use advent::word_search::{solve1 as word_solve1, solve2 as word_solve2};

#[test]
fn guard_steps_follow_the_facing() {
    let state = State {
        orientation: Orientation::North,
        position: GuardPosition { row: 4, col: 4 },
    };
    assert_eq!(state.get_step(), (-1, 0));
    let mut east = state;
    east.turn_cw();
    assert_eq!(east.orientation, Orientation::East);
    assert_eq!(east.get_step(), (0, 1));
}

#[test]
fn guard_stops_before_the_obstacle() {
    let mut state = State {
        orientation: Orientation::North,
        position: GuardPosition { row: 6, col: 4 },
    };
    state.move_to(&GuardPosition { row: 1, col: 4 });
    assert_eq!(state.position, GuardPosition { row: 2, col: 4 });
    assert_eq!(state.orientation, Orientation::North);
}

#[test]
fn guard_grid_bounds() {
    let grid = Grid { obstacles: vec![], width: 10, height: 7 };
    assert!(grid.contains(&GuardPosition { row: 0, col: 9 }));
    assert!(!grid.contains(&GuardPosition { row: 7, col: 0 }));
    assert!(!grid.contains(&GuardPosition { row: 3, col: -1 }));
}

#[test]
fn simplify_shortens_the_step() {
    let mut delta = Position { row: 6, col: -4 };
    delta.simplify();
    assert_eq!(delta, Position { row: 3, col: -2 });

    let mut axis = Position { row: 0, col: 8 };
    axis.simplify();
    assert_eq!(axis, Position { row: 0, col: 1 });
}

#[test]
fn pair_antinodes_mirror_the_antennas() {
    let map = AntennaMap { antennae: vec![], rows: 10, cols: 10 };
    let a = Antena { kind: 'a', position: Position { row: 3, col: 4 } };
    let b = Antena { kind: 'a', position: Position { row: 5, col: 5 } };
    let nodes = get_antinodes_in_pair(&a, &b, &map);
    assert_eq!(nodes, vec![Position { row: 1, col: 3 }, Position { row: 7, col: 6 }]);
}

#[test]
fn pair_antinodes_outside_the_map_are_dropped() {
    let map = AntennaMap { antennae: vec![], rows: 4, cols: 4 };
    let a = Antena { kind: 'x', position: Position { row: 0, col: 0 } };
    let b = Antena { kind: 'x', position: Position { row: 2, col: 2 } };
    let nodes = get_antinodes_in_pair(&a, &b, &map);
    assert_eq!(nodes, vec![]);
}

#[test]
fn neighbours_respect_the_edges() {
    let map: Vec<Vec<char>> = vec![vec!['a', 'b'], vec!['c', 'd']];
    assert_eq!(get_neighbours(0, 0, &map), vec![(1, 0), (0, 1)]);
    assert_eq!(get_neighbours(1, 1, &map), vec![(0, 1), (1, 0)]);
}

#[test]
fn area_counts_cells() {
    assert_eq!(get_area(&vec![(0, 0), (0, 1), (1, 0)]), 3);
}

#[test]
fn perimeter_of_a_lone_cell_and_a_pair() {
    let map: Vec<Vec<char>> = vec![
        "AAAA".chars().collect(),
        "BBCD".chars().collect(),
        "BBCC".chars().collect(),
        "EEEC".chars().collect(),
    ];
    let region_a = vec![(0, 0), (0, 1), (0, 2), (0, 3)];
    assert_eq!(get_perimeter(&region_a, &map), 10);
    let region_d = vec![(1, 3)];
    assert_eq!(get_perimeter(&region_d, &map), 4);
}

#[test]
fn floodfill_collects_one_label() {
    let map: Vec<Vec<char>> = vec![
        "AAAA".chars().collect(),
        "BBCD".chars().collect(),
        "BBCC".chars().collect(),
        "EEEC".chars().collect(),
    ];
    let mut used = vec![vec![false; 4]; 4];
    let region = floodfill_region(0, 0, &map, &mut used);
    assert_eq!(region, vec![(0, 0), (0, 1), (0, 2), (0, 3)]);
    assert!(used[0].iter().all(|&u| u));
    assert!(used[1].iter().all(|&u| !u));

    let again = floodfill_region(0, 0, &map, &mut used);
    assert_eq!(again, vec![]);
}

#[test]
fn sides_of_regions() {
    let map: Vec<Vec<char>> = vec![
        "AAAA".chars().collect(),
        "BBCD".chars().collect(),
        "BBCC".chars().collect(),
        "EEEC".chars().collect(),
    ];
    let region_a = vec![(0, 0), (0, 1), (0, 2), (0, 3)];
    assert_eq!(count_sides(&region_a, &map), 4);
    let region_d = vec![(1, 3)];
    assert_eq!(count_sides(&region_d, &map), 4);
    let region_c = vec![(1, 2), (2, 2), (2, 3), (3, 3)];
    assert_eq!(count_sides(&region_c, &map), 8);
}

#[test]
fn corners_of_a_lone_tile() {
    let mut tile = vec![vec![false; 3]; 3];
    tile[1][1] = true;
    assert_eq!(count_corners_per_tile(&tile), 4);
}

#[test]
fn corners_of_a_straight_edge() {
    let mut tile = vec![vec![false; 3]; 3];
    tile[1][0] = true;
    tile[1][1] = true;
    tile[1][2] = true;
    assert_eq!(count_corners_per_tile(&tile), 0);
}

#[test]
fn line_antinodes_cover_the_whole_ray() {
    let map = AntennaMap { antennae: vec![], rows: 5, cols: 5 };
    let a = Antena { kind: 'T', position: Position { row: 2, col: 2 } };
    let b = Antena { kind: 'T', position: Position { row: 4, col: 4 } };
    let nodes = get_antinodes_in_line(&a, &b, &map);
    assert_eq!(
        nodes,
        vec![
            Position { row: 2, col: 2 },
            Position { row: 1, col: 1 },
            Position { row: 0, col: 0 },
            Position { row: 3, col: 3 },
            Position { row: 4, col: 4 },
        ]
    );
}

#[test]
fn line_antinodes_use_the_reduced_step() {
    let map = AntennaMap { antennae: vec![], rows: 3, cols: 7 };
    let a = Antena { kind: 'T', position: Position { row: 1, col: 1 } };
    let b = Antena { kind: 'T', position: Position { row: 1, col: 5 } };
    let nodes = get_antinodes_in_line(&a, &b, &map);
    assert_eq!(
        nodes,
        vec![
            Position { row: 1, col: 1 },
            Position { row: 1, col: 0 },
            Position { row: 1, col: 2 },
            Position { row: 1, col: 3 },
            Position { row: 1, col: 4 },
            Position { row: 1, col: 5 },
            Position { row: 1, col: 6 },
        ]
    );
}

#[test]
fn nearest_obstacle_ahead_is_reported() {
    let grid = Grid {
        obstacles: vec![
            GuardPosition { row: 0, col: 4 },
            GuardPosition { row: 3, col: 4 },
            GuardPosition { row: 5, col: 2 },
        ],
        width: 10,
        height: 10,
    };
    let state = State {
        orientation: Orientation::North,
        position: GuardPosition { row: 8, col: 4 },
    };
    assert_eq!(grid.get_obstacle_ahead(&state), Some(GuardPosition { row: 3, col: 4 }));

    let east = State {
        orientation: Orientation::East,
        position: GuardPosition { row: 5, col: 3 },
    };
    assert_eq!(east.get_step(), (0, 1));
    assert_eq!(grid.get_obstacle_ahead(&east), None);
}

#[test]
fn robot_wraps_around_the_floor() {
    let robot = Robot {
        position: Vec2 { x: 2, y: 4 },
        velocity: Vec2 { x: 2, y: -3 },
    };
    let after1 = robot.step(1, 11, 7);
    assert_eq!(after1.position, Vec2 { x: 4, y: 1 });
    let after5 = robot.step(5, 11, 7);
    assert_eq!(after5.position, Vec2 { x: 1, y: 3 });
    assert_eq!(after5.velocity, robot.velocity);
}

#[test]
fn trail_ratings_on_the_canonical_map() {
    let rows = [
        "89010123", "78121874", "87430965", "96549874", "45678903", "32019012", "01329801",
        "10456732",
    ];
    let map: Vec<Vec<u32>> = rows
        .iter()
        .map(|r| r.chars().map(|c| c.to_digit(10).unwrap()).collect())
        .collect();
    assert_eq!(rate_trailhead(0, 2, &map), 20);
    assert_eq!(trails_solve2(&map), 81);
}

#[test]
fn crossed_mas_shapes_in_the_canonical_grid() {
    let rows = [
        "MMMSXXMASM",
        "MSAMXMSMSA",
        "AMXSXMAAMM",
        "MSAMASMSMX",
        "XMASAMXAMM",
        "XXAMMXXAMA",
        "SMSMSASXSS",
        "SAXAMASAAA",
        "MAMMMXMMMM",
        "MXMXAXMASX",
    ];
    let grid: Vec<Vec<char>> = rows.iter().map(|r| r.chars().collect()).collect();
    assert_eq!(word_solve2(&grid), 9);
}

#[test]
fn xmas_words_in_the_canonical_grid() {
    let rows = [
        "MMMSXXMASM",
        "MSAMXMSMSA",
        "AMXSXMAAMM",
        "MSAMASMSMX",
        "XMASAMXAMM",
        "XXAMMXXAMA",
        "SMSMSASXSS",
        "SAXAMASAAA",
        "MAMMMXMMMM",
        "MXMXAXMASX",
    ];
    let grid: Vec<Vec<char>> = rows.iter().map(|r| r.chars().collect()).collect();
    assert_eq!(word_solve1(&grid), 18);
}

#[test]
fn a_single_crossed_mas() {
    let rows = ["M.S", ".A.", "M.S"];
    let grid: Vec<Vec<char>> = rows.iter().map(|r| r.chars().collect()).collect();
    assert_eq!(word_solve2(&grid), 1);
}
