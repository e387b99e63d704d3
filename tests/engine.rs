use genetic_mazes::genetic::select_elites;
use genetic_mazes::{Evaluator, Evolutionable, GeneticAlgorithm};
use rand::rngs::ThreadRng;

#[derive(Clone, Eq, PartialEq, Debug)]
struct Num(i32);

impl Evolutionable for Num {
    fn mutate(&self, muts: u32, _rng: &mut ThreadRng) -> Self {
        Num(self.0 + muts as i32)
    }
}

struct Closeness(i32);

impl Evaluator<Num> for Closeness {
    fn evaluate(&self, sol: &Num) -> i32 {
        -(self.0 - sol.0).abs()
    }
}

#[test]
fn population_size_is_kept() {
    let mut rng = rand::thread_rng();
    for pop_size in [1usize, 3, 7, 20] {
        let mut alg = GeneticAlgorithm::new(pop_size, 100, 2, Closeness(10), &Num(0));
        for _ in 0..5 {
            alg.next_generation(&mut rng);
            assert_eq!(alg.population().len(), pop_size);
        }
        assert_eq!(alg.generation(), 5);
    }
}

#[test]
fn elites_lead_in_descending_order() {
    let mut rng = rand::thread_rng();
    let mut alg = GeneticAlgorithm::new(10, 50, 1, Closeness(3), &Num(0));
    for _ in 0..4 {
        alg.next_generation(&mut rng);
        let pop = alg.population();
        let scores: Vec<i32> = pop[..5].iter().map(|n| -(3 - n.0).abs()).collect();
        for w in scores.windows(2) {
            assert!(w[0] >= w[1]);
        }
        for child in &pop[5..] {
            assert!(pop[..5].iter().any(|p| p.0 + 1 == child.0));
        }
    }
}

#[test]
fn no_mutation_copies_elites() {
    let mut rng = rand::thread_rng();
    let mut alg = GeneticAlgorithm::new(5, 20, 0, Closeness(3), &Num(7));
    alg.next_generation(&mut rng);
    assert!(alg.population().iter().all(|n| *n == Num(7)));
}

#[test]
fn convergence_from_best_elite() {
    let mut rng = rand::thread_rng();
    let mut alg = GeneticAlgorithm::new(4, 25, 1, Closeness(6), &Num(0));
    for _ in 0..6 {
        alg.next_generation(&mut rng);
    }
    alg.next_generation(&mut rng);
    assert_eq!(alg.get_best(), Some(&Num(6)));
}

#[test]
fn select_elites_takes_best_first() {
    let scored = vec![(10u8, 3), (11, 9), (12, -1), (13, 5), (14, 9)];
    let top = select_elites(scored, 3);
    assert_eq!(top.len(), 3);
    assert_eq!(top[0].1, 9);
    assert_eq!(top[1].1, 9);
    assert_eq!(top[2], (13, 5));
    assert!(top.iter().any(|p| p.0 == 11) && top.iter().any(|p| p.0 == 14));
}

#[test]
fn select_elites_none_and_all() {
    let scored = vec![(1u8, 2), (2, 4)];
    assert!(select_elites(scored.clone(), 0).is_empty());
    assert_eq!(select_elites(scored, 2), vec![(2, 4), (1, 2)]);
}

#[test]
fn fresh_population_best_is_prototype() {
    let alg = GeneticAlgorithm::new(3, 50, 1, Closeness(1), &Num(42));
    assert_eq!(alg.get_best(), Some(&Num(42)));
    assert_eq!(alg.generation(), 0);
    assert_eq!(alg.evaluator().0, 1);
}

#[test]
fn full_elitism_sorts_population() {
    let mut rng = rand::thread_rng();
    let mut alg = GeneticAlgorithm::new(3, 100, 1, Closeness(10), &Num(0));
    alg.next_generation(&mut rng);
    assert_eq!(alg.population(), &vec![Num(0), Num(0), Num(0)]);
    let mut alg = GeneticAlgorithm::new(4, 25, 3, Closeness(10), &Num(0));
    alg.next_generation(&mut rng);
    assert_eq!(alg.population(), &vec![Num(0), Num(3), Num(3), Num(3)]);
    alg.next_generation(&mut rng);
    assert_eq!(alg.get_best(), Some(&Num(3)));
}
