use raycasting::player::movement_intent;
use raycasting::maze::{
    cell, goal_reached, is_wall_cell, maze_size, open_direction, parse_maze, ray_cell, ray_step_limit,
    start_position, Direction, RayCell,
};
use raycasting::state::{
    find_goal_cell, level, manhattan, scatter_open_cells, spacing_fits, sprite_cells, LEVEL_COUNT, TORCH_COUNT,
};

fn rows(maze: &Vec<Vec<char>>) -> Vec<String> {
    maze.iter().map(|r| r.iter().collect()).collect()
}

#[test]
fn parse_replaces_marker_and_finds_start() {
    let (maze, start) = parse_maze("111\n1p1\n1g1\n");
    assert_eq!(rows(&maze), vec!["111", "1 1", "1g1"]);
    assert_eq!(start, (1, 1));
}

#[test]
fn parse_keeps_last_line_without_newline() {
    let (maze, start) = parse_maze("12\n3 4");
    assert_eq!(rows(&maze), vec!["12", "3 4"]);
    assert_eq!(start, (0, 0));
}

#[test]
fn parse_drops_carriage_returns_before_newlines() {
    let (maze, _) = parse_maze("11\r\n1p\r\n");
    assert_eq!(rows(&maze), vec!["11", "1 "]);
}

#[test]
fn parse_keeps_a_final_carriage_return_without_newline() {
    let (maze, _) = parse_maze("11\r\n1\r");
    assert_eq!(rows(&maze), vec!["11", "1\r"]);
}

#[test]
fn parse_keeps_empty_lines_in_the_middle() {
    let (maze, _) = parse_maze("1\n\n2\n");
    assert_eq!(rows(&maze), vec!["1", "", "2"]);
}

#[test]
fn parse_empty_text_gives_no_rows() {
    let (maze, start) = parse_maze("");
    assert!(maze.is_empty());
    assert_eq!(start, (0, 0));
}

#[test]
fn parse_takes_the_last_marker() {
    let (maze, start) = parse_maze("p p\n1p1\n");
    assert_eq!(start, (1, 1));
    assert_eq!(rows(&maze), vec!["   ", "1 1"]);
}

#[test]
fn cells_off_the_maze_are_none_and_block() {
    let (maze, _) = parse_maze("1 g\n2\n");
    assert_eq!(cell(&maze, 0, 1), Some(' '));
    assert_eq!(cell(&maze, 1, 1), None);
    assert_eq!(cell(&maze, 5, 0), None);
    assert!(is_wall_cell(&maze, 0, 0));
    assert!(!is_wall_cell(&maze, 0, 1));
    assert!(!is_wall_cell(&maze, 0, 2));
    assert!(is_wall_cell(&maze, 1, 1));
    assert!(is_wall_cell(&maze, 9, 9));
}

#[test]
fn upper_case_goal_is_walkable() {
    let (maze, _) = parse_maze("G1\n");
    assert!(!is_wall_cell(&maze, 0, 0));
}

#[test]
fn goal_is_reached_only_on_lower_case_goal() {
    let (maze, _) = parse_maze("1111\n1 g1\n1G11\n");
    assert!(goal_reached(&maze, 250, 150, 100));
    assert!(!goal_reached(&maze, 150, 150, 100));
    assert!(!goal_reached(&maze, 150, 250, 100));
    assert!(!goal_reached(&maze, 10_000, 150, 100));
}

#[test]
fn start_faces_first_open_direction() {
    let (maze, start) = parse_maze("111\n1p \n1 1\n");
    assert_eq!(open_direction(&maze, start.0, start.1), Some(Direction::East));
    let (maze, start) = parse_maze("111\n1p1\n1 1\n");
    assert_eq!(open_direction(&maze, start.0, start.1), Some(Direction::South));
    let (maze, start) = parse_maze("111\n p1\n111\n");
    assert_eq!(open_direction(&maze, start.0, start.1), Some(Direction::West));
    let (maze, start) = parse_maze("1 1\n1p1\n111\n");
    assert_eq!(open_direction(&maze, start.0, start.1), Some(Direction::North));
    let (maze, start) = parse_maze("1g1\n1p1\n111\n");
    assert_eq!(open_direction(&maze, start.0, start.1), None);
}

#[test]
fn corner_start_does_not_look_off_the_maze() {
    let (maze, start) = parse_maze("p1\n11\n");
    assert_eq!(start, (0, 0));
    assert_eq!(open_direction(&maze, 0, 0), None);
}

#[test]
fn ray_cells() {
    let (maze, _) = parse_maze("1 g\n");
    assert_eq!(ray_cell(&maze, 0, 0), RayCell::Wall('1'));
    assert_eq!(ray_cell(&maze, 1, 0), RayCell::Open);
    assert_eq!(ray_cell(&maze, 2, 0), RayCell::Wall('g'));
    assert_eq!(ray_cell(&maze, -1, 0), RayCell::Outside);
    assert_eq!(ray_cell(&maze, 0, -1), RayCell::Outside);
    assert_eq!(ray_cell(&maze, 0, 1), RayCell::Outside);
}

#[test]
fn maze_size_and_step_limit() {
    let (maze, _) = parse_maze("1\n12345\n12\n");
    assert_eq!(maze_size(&maze), (3, 5));
    assert_eq!(ray_step_limit(&maze), (3 + 5) * 2 + 16);
    let (empty, _) = parse_maze("");
    assert_eq!(maze_size(&empty), (0, 0));
    assert_eq!(ray_step_limit(&empty), 16);
}

#[test]
fn start_position_is_cell_centre() {
    assert_eq!(start_position((2, 3), 100), (350, 250));
    assert_eq!(start_position((0, 0), 7), (3, 3));
}

#[test]
fn levels_are_listed() {
    assert_eq!(LEVEL_COUNT, 3);
    let first = level(0).unwrap();
    assert_eq!(first.name, "NIVEL 1");
    assert_eq!(first.path, "assets/levels/level1.txt");
    assert_eq!(level(2).unwrap().name, "NIVEL 3");
    assert_eq!(level(2).unwrap().path, "assets/levels/level3.txt");
    assert!(level(3).is_none());
}

#[test]
fn manhattan_distance() {
    assert_eq!(manhattan((1, 5), (4, 2)), 6);
    assert_eq!(manhattan((3, 3), (3, 3)), 0);
}

#[test]
fn first_goal_in_reading_order() {
    let (maze, _) = parse_maze("111\n1 G\ng11\n");
    assert_eq!(find_goal_cell(&maze), Some((1, 2)));
    let (maze, _) = parse_maze("111\n");
    assert_eq!(find_goal_cell(&maze), None);
}

#[test]
fn scatter_in_a_corridor_goes_to_the_far_end_first() {
    // one row of floor: start at column 1
    let (maze, start) = parse_maze("1p      1\n");
    assert_eq!(start, (0, 1));
    let picked = scatter_open_cells(&maze, start, 3);
    // farthest from column 1 is column 7; then the point farthest from both
    // 1 and 7 is column 4; then the last of the cells at distance 1 from the
    // others, column 6
    assert_eq!(picked, vec![(0, 7), (0, 4), (0, 6)]);
}

#[test]
fn scatter_ties_take_the_last_cell() {
    let (maze, start) = parse_maze(" p \n");
    let picked = scatter_open_cells(&maze, start, 1);
    assert_eq!(picked, vec![(0, 2)]);
}

#[test]
fn scatter_stops_at_the_free_cells() {
    let (maze, start) = parse_maze("1p 1\n1  1\n");
    let picked = scatter_open_cells(&maze, start, 10);
    assert_eq!(picked.len(), 3);
    let mut sorted = picked.clone();
    sorted.sort();
    sorted.dedup();
    assert_eq!(sorted, vec![(0, 2), (1, 1), (1, 2)]);
    assert!(!picked.contains(&start));
}

#[test]
fn scatter_with_zero_count_picks_nothing() {
    let (maze, start) = parse_maze("p   \n");
    assert!(scatter_open_cells(&maze, start, 0).is_empty());
}

#[test]
fn sprites_are_torches_and_a_chest() {
    let (maze, start) = parse_maze("1111111\n1p   g1\n1     1\n1111111\n");
    assert!(spacing_fits(&maze, start));
    let (torches, goal) = sprite_cells(&maze, start);
    assert_eq!(torches.len(), TORCH_COUNT);
    assert_eq!(goal, Some((1, 5)));
    for t in &torches {
        assert_eq!(maze[t.0][t.1], ' ');
        assert_ne!(*t, start);
    }
}

#[test]
fn spacing_fits_rejects_huge_start() {
    let (maze, _) = parse_maze("p\n");
    assert!(!spacing_fits(&maze, (0x4000_0000, 0)));
    assert!(spacing_fits(&maze, (0, 0)));
}

#[test]
fn movement_intent_from_keys() {
    assert_eq!(movement_intent(false, false, false, false), (0, 0));
    assert_eq!(movement_intent(true, false, true, false), (-1, 1));
    assert_eq!(movement_intent(false, true, false, true), (1, -1));
    assert_eq!(movement_intent(true, true, true, true), (0, 0));
}
