use genetic_mazes::maze::{fitness_from_search, signed_remaining, ESTIMATE_MAX, INFEASIBLE};
use genetic_mazes::{Evaluator, Evolutionable, Maze, MazeEval, TileState};

fn grid(rows: &[&str]) -> Maze {
    Maze::new_from(
        rows.iter()
            .map(|r| {
                r.chars()
                    .map(|c| if c == '#' { TileState::Full } else { TileState::Empty })
                    .collect()
            })
            .collect(),
    )
}

#[test]
fn open_grid_path_cost_is_manhattan() {
    let maze = Maze::new_empty((5, 5));
    let (path, cost) = maze.find_path((0, 0), (4, 4)).unwrap();
    assert_eq!(cost, 8);
    assert_eq!(path.len(), 9);
    assert_eq!(path[0], (0, 0));
    assert_eq!(path[8], (4, 4));
    for w in path.windows(2) {
        assert_eq!((w[0].0 - w[1].0).abs() + (w[0].1 - w[1].1).abs(), 1);
    }
}

#[test]
fn path_to_itself_has_cost_zero() {
    let maze = Maze::new_empty((3, 3));
    assert_eq!(maze.find_path((1, 1), (1, 1)), Some((vec![(1, 1)], 0)));
}

#[test]
fn walled_off_goal_has_no_path() {
    let maze = grid(&["..#..", "..#..", "..#.."]);
    assert_eq!(maze.find_path((0, 0), (0, 4)), None);
    assert_eq!(MazeEval::new((0, 0), (0, 4)).evaluate(&maze), INFEASIBLE);
}

#[test]
fn blocked_start_is_infeasible() {
    let maze = grid(&["#....", ".....", "....."]);
    assert_eq!(MazeEval::new((0, 0), (2, 4)).evaluate(&maze), -100000);
    let maze = grid(&["#####", "#####", "#####"]);
    assert_eq!(MazeEval::new((0, 0), (2, 4)).evaluate(&maze), -100000);
}

#[test]
fn start_outside_is_infeasible() {
    let maze = Maze::new_empty((3, 3));
    assert_eq!(MazeEval::new((-1, 0), (2, 2)).evaluate(&maze), INFEASIBLE);
    assert_eq!(MazeEval::new((0, 3), (2, 2)).evaluate(&maze), INFEASIBLE);
}

#[test]
fn open_grid_fitness() {
    let maze = Maze::new_empty((5, 5));
    assert_eq!(MazeEval::new((0, 0), (4, 4)).evaluate(&maze), 400);
}

#[test]
fn prettiness_rewards_walls() {
    assert_eq!(Maze::new_empty((4, 4)).prettiness_score(), 0);
    assert_eq!(grid(&["....", ".#..", "...."]).prettiness_score(), -1);
    assert_eq!(grid(&["....", ".##.", "...."]).prettiness_score(), 0);
    assert_eq!(grid(&["....", ".###", "...."]).prettiness_score(), 1);
    assert_eq!(grid(&["##", "##"]).prettiness_score(), 4);
}

#[test]
fn fitness_from_search_formula() {
    assert_eq!(fitness_from_search(None, 12), INFEASIBLE);
    assert_eq!(fitness_from_search(Some(3), 2), 152);
    assert_eq!(fitness_from_search(Some(8), -6), 394);
    assert_eq!(fitness_from_search(Some(i32::MAX), 0), i32::MAX);
}

#[test]
fn heuristic_is_signed_difference() {
    assert_eq!(signed_remaining((0, 0), (4, 4)), 8);
    assert_eq!(signed_remaining((5, 1), (4, 4)), 2);
    assert_eq!(signed_remaining((i32::MAX, i32::MAX), (i32::MIN, i32::MIN)), i32::MIN);
    assert_eq!(signed_remaining((0, 0), (i32::MAX, i32::MAX)), ESTIMATE_MAX);
}

#[test]
fn far_goal_outside_grid_has_no_path() {
    let maze = Maze::new_empty((2, 2));
    assert_eq!(maze.find_path((0, 0), (i32::MAX, i32::MAX)), None);
    assert_eq!(maze.find_path((0, 0), (i32::MIN, i32::MIN)), None);
    assert_eq!(MazeEval::new((0, 0), (i32::MAX, i32::MAX)).evaluate(&maze), INFEASIBLE);
}

#[test]
fn path_cost_is_same_both_ways() {
    let maze = grid(&[".....", ".###.", ".#...", ".#.#.", "...#."]);
    let there = maze.find_path((0, 0), (4, 4)).unwrap();
    let back = maze.find_path((4, 4), (0, 0)).unwrap();
    assert_eq!(there.1, back.1);
    assert_eq!(there.1 as usize, there.0.len() - 1);
    assert_eq!(Maze::new_empty((5, 5)).find_path((4, 4), (0, 0)).unwrap().1, 8);
}

#[test]
fn cell_lookup_and_borders() {
    let maze = grid(&[".#.", "..."]);
    assert_eq!(maze.size(), (2, 3));
    assert_eq!(maze.at(0, 1), Some(TileState::Full));
    assert_eq!(maze.at(1, 1), Some(TileState::Empty));
    assert_eq!(maze.at(2, 0), None);
    assert_eq!(maze.at(0, 3), None);
    assert!(maze.in_borders(1, 2));
    assert!(!maze.in_borders(-1, 0));
    assert!(!maze.in_borders(2, 0));
    assert!(!maze.in_borders(0, 3));
}

#[test]
fn default_tile_is_empty() {
    assert_eq!(TileState::default(), TileState::Empty);
}

#[test]
fn neighbours_skip_walls_and_edges() {
    let maze = grid(&[".#", ".."]);
    let mut n = maze.neighbours((0, 0));
    n.sort();
    assert_eq!(n, vec![((1, 0), 1)]);
    assert_eq!(maze.neighbours((1, 0)).len(), 2);
    assert_eq!(maze.neighbours((5, 5)).len(), 0);
}

#[test]
fn toggled_flips_one_cell() {
    let maze = Maze::new_empty((2, 2));
    let t = maze.toggled(1, 0);
    assert_eq!(t.at(1, 0), Some(TileState::Full));
    assert_eq!(t.at(0, 0), Some(TileState::Empty));
    assert_eq!(t.toggled(1, 0), maze);
}

#[test]
fn mutate_zero_keeps_maze() {
    let mut rng = rand::thread_rng();
    let maze = grid(&["#..", ".#.", "..#"]);
    assert_eq!(maze.mutate(0, &mut rng), maze);
}

#[test]
fn mutate_once_flips_exactly_one_cell() {
    let mut rng = rand::thread_rng();
    let maze = Maze::new_empty((4, 3));
    for _ in 0..20 {
        let m = maze.mutate(1, &mut rng);
        let mut diff = 0;
        for x in 0..4 {
            for y in 0..3 {
                if m.at(x, y) != maze.at(x, y) {
                    diff += 1;
                }
            }
        }
        assert_eq!(diff, 1);
    }
}

#[test]
fn mutate_empty_grid_is_unchanged() {
    let mut rng = rand::thread_rng();
    let maze = Maze::new_empty((0, 4));
    assert_eq!(maze.mutate(3, &mut rng), maze);
}
