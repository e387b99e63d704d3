use genetic_mazes::{Evaluator, Evolutionable, GeneticAlgorithm};
use genetic_mazes::{Maze, MazeEval, TileState};
use rand::rngs::ThreadRng;
use rand::seq::SliceRandom;
use TileState::{Empty as E, Full as F};

#[test]
fn maze_mutate() {
    let mut rng = rand::thread_rng();
    let maze = Maze::new_empty((5, 5));
    assert_ne!(maze.mutate(1, &mut rng), maze);
}

#[test]
fn maze_score() {
    let maze = Maze::new_from(vec![
        vec![E, E, E, E, E],
        vec![E, F, E, E, E],
        vec![E, F, E, E, E],
        vec![E, F, F, F, F],
        vec![E, E, E, E, E],
    ]);
    assert_eq!(maze.find_path((0, 0), (4, 4)).unwrap().1, 8);
    assert_eq!(MazeEval::new((0, 0), (4, 4)).evaluate(&maze), 8 * 50 + 4);

    let maze = Maze::new_from(vec![
        vec![E, E, E, E, E],
        vec![E, F, E, E, E],
        vec![E, F, E, E, E],
        vec![E, F, E, F, F],
        vec![E, E, E, F, E],
        vec![E, E, E, E, E],
    ]);
    assert_eq!(maze.find_path((0, 0), (5, 4)).unwrap().1, 9);
    assert_eq!(MazeEval::new((0, 0), (5, 4)).evaluate(&maze), 9 * 50 + 2);
}

#[derive(Clone, Eq, PartialEq, Debug)]
struct ToNum(i32);

impl Evolutionable for ToNum {
    fn mutate(&self, muts: u32, rng: &mut ThreadRng) -> Self {
        let mut offspr = ToNum { 0: self.0 };
        for _ in 0..muts {
            offspr = ToNum {
                0: offspr.0 + *([-1, 1]).choose(rng).unwrap(),
            };
        }
        offspr
    }
}

struct NumEval(i32);

impl Evaluator<ToNum> for NumEval {
    fn evaluate(&self, sol: &ToNum) -> i32 {
        -(self.0 - sol.0).abs()
    }
}

#[test]
fn genetic_general() {
    let mut rng = rand::thread_rng();
    let mut alg = GeneticAlgorithm::new(20, 20, 5, NumEval { 0: 100 }, &ToNum { 0: 0 });
    for _ in 0..100 {
        alg.next_generation(&mut rng);
    }
    assert_eq!(alg.get_best().unwrap(), &ToNum { 0: 100 });
}
