//! The genetic algorithm: a population of solutions that is scored, cut down
//! to its best members and refilled with their mutated offspring, once per
//! generation.
use crate::rng::random_below;
use rand::rngs::ThreadRng;
use rayon::iter::{IntoParallelIterator, ParallelIterator};
use vstd::pervasive::{arbitrary, cloned};
use vstd::prelude::*;
use vstd::seq_lib::{
    lemma_multiset_commutative, to_multiset_build, to_multiset_contains, to_multiset_remove,
};

verus! {

/// A solution that can produce mutated copies of itself.
pub trait Evolutionable: Sized {
    /// Whether two solutions are the same; by default, equality.
    open spec fn same_solution(&self, other: &Self) -> bool {
        self == other
    }

    /// What `mutate` may make of `parent` with `mutations` changes; by
    /// default, no more than that no change keeps the solution.
    open spec fn offspring_of(&self, parent: &Self, mutations: u32) -> bool {
        mutations == 0 ==> self.same_solution(parent)
    }

    /// A new solution made from `self` by `mutations` random changes; `self`
    /// is left as it is. No change at all yields the same solution.
    fn mutate(&self, mutations: u32, rng: &mut ThreadRng) -> (r: Self)
        ensures
            r.offspring_of(self, mutations),
            mutations == 0 ==> r.same_solution(self),
    ;
}

/// A scoring of solutions: the higher, the fitter.
pub trait Evaluator<T: Evolutionable> {
    /// The score of `sol`. Each scoring states its own; the default leaves
    /// it unknown, so that only `evaluate`'s own result is claimed of it.
    open spec fn spec_evaluate(&self, sol: &T) -> i32 {
        arbitrary()
    }

    fn evaluate(&self, sol: &T) -> (r: i32)
        ensures
            r == self.spec_evaluate(sol),
    ;
}

/// The scores of `s` never rise from one entry to the next.
pub open spec fn descending<T>(s: Seq<(T, i32)>) -> bool {
    forall|i: int| 0 <= i < s.len() - 1 ==> #[trigger] s[i].1 >= s[i + 1].1
}

/// `elites` are the best of the scored solutions `scored`, best first: with
/// some arrangement `rest` of the others, none of which scores above the
/// last elite, they make up `scored` exactly.
pub open spec fn ranked_elites<T>(elites: Seq<(T, i32)>, scored: Seq<(T, i32)>) -> bool {
    &&& descending(elites)
    &&& exists|rest: Seq<(T, i32)>|
        #![trigger (elites + rest).to_multiset()]
        (elites + rest).to_multiset() == scored.to_multiset() && (elites.len() > 0 ==> forall|
            k: int,
        | 0 <= k < rest.len() ==> #[trigger] rest[k].1 <= elites.last().1)
}

/// `child` is an offspring of one of `parents`.
pub open spec fn offspring_of_one<T: Evolutionable>(child: T, parents: Seq<T>, mutations: u32) -> bool {
    exists|j: int| 0 <= j < parents.len() && #[trigger] child.offspring_of(&parents[j], mutations)
}

/// Scores one solution, keeping it beside its score.
pub fn scored<T: Evolutionable, E: Evaluator<T>>(eval: &E, sol: T) -> (r: (T, i32))
    ensures
        r.0 == sol,
        r.1 == eval.spec_evaluate(&sol),
{
    let s = eval.evaluate(&sol);
    (sol, s)
}

/// Relies on rayon's `into_par_iter`, `map` and `collect`: an indexed
/// parallel iterator collects into a `Vec` in the order of its source.
#[verifier::external_body]
fn score_all<T: Evolutionable + Send, E: Evaluator<T> + Sync>(population: Vec<T>, eval: &E) -> (r:
    Vec<(T, i32)>)
    ensures
        r@.len() == population@.len(),
        forall|i: int| 0 <= i < r@.len() ==> #[trigger] r@[i].0 == population@[i],
        forall|i: int|
            0 <= i < r@.len() ==> #[trigger] r@[i].1 == eval.spec_evaluate(&population@[i]),
{
    population.into_par_iter().map(|x| scored(eval, x)).collect()
}

/// The `elite` best of the scored solutions, best first.
pub fn select_elites<T>(scored: Vec<(T, i32)>, elite: usize) -> (r: Vec<(T, i32)>)
    requires
        elite <= scored@.len(),
    ensures
        r@.len() == elite,
        ranked_elites(r@, scored@),
{
    broadcast use vstd::multiset::group_multiset_axioms;

    let ghost all = scored@;
    let mut rest = scored;
    let mut chosen: Vec<(T, i32)> = Vec::new();
    while chosen.len() < elite
        invariant
            elite <= all.len(),
            chosen@.len() <= elite,
            chosen@.len() + rest@.len() == all.len(),
            (chosen@ + rest@).to_multiset() == all.to_multiset(),
            descending(chosen@),
            chosen@.len() > 0 ==> forall|k: int|
                0 <= k < rest@.len() ==> #[trigger] rest@[k].1 <= chosen@.last().1,
        decreases elite - chosen@.len(),
    {
        let mut best: usize = 0;
        let mut i: usize = 1;
        while i < rest.len()
            invariant
                rest@.len() > 0,
                best < rest@.len(),
                1 <= i <= rest@.len(),
                forall|k: int| 0 <= k < i ==> #[trigger] rest@[k].1 <= rest@[best as int].1,
            decreases rest@.len() - i,
        {
            if rest[i].1 > rest[best].1 {
                best = i;
            }
            i = i + 1;
        }
        let ghost c0 = chosen@;
        let ghost r0 = rest@;
        let item = rest.remove(best);
        chosen.push(item);
        proof {
            assert(rest@ == r0.remove(best as int));
            assert(chosen@ == c0.push(r0[best as int]));
            let x = r0[best as int];
            lemma_multiset_commutative(chosen@, rest@);
            lemma_multiset_commutative(c0, r0);
            to_multiset_build(c0, x);
            to_multiset_remove(r0, best as int);
            to_multiset_contains(r0, x);
            assert(r0.to_multiset().count(x) > 0);
            assert((chosen@ + rest@).to_multiset() =~= (c0 + r0).to_multiset());
            assert forall|k: int| 0 <= k < rest@.len() implies #[trigger] rest@[k].1
                <= chosen@.last().1 by {
                if k < best {
                    assert(rest@[k] == r0[k]);
                } else {
                    assert(rest@[k] == r0[k + 1]);
                }
            }
        }
    }
    chosen
}

/// The solutions of `scored`, without their scores.
fn strip_scores<T>(scored: Vec<(T, i32)>) -> (r: Vec<T>)
    ensures
        r@.len() == scored@.len(),
        forall|i: int| 0 <= i < r@.len() ==> #[trigger] r@[i] == scored@[i].0,
{
    let ghost all = scored@;
    let mut rest = scored;
    let mut r: Vec<T> = Vec::new();
    while rest.len() > 0
        invariant
            r@.len() + rest@.len() == all.len(),
            rest@ == all.subrange(r@.len() as int, all.len() as int),
            forall|i: int| 0 <= i < r@.len() ==> #[trigger] r@[i] == all[i].0,
        decreases rest@.len(),
    {
        let (sol, _) = rest.remove(0);
        r.push(sol);
    }
    r
}

/// Appends offspring of the first `elite` solutions until there are
/// `pop_size`: each one a mutation of an elite drawn uniformly at random.
pub fn refill<T: Evolutionable>(
    population: &mut Vec<T>,
    elite: usize,
    pop_size: usize,
    mutations: u32,
    rng: &mut ThreadRng,
)
    requires
        0 < elite == old(population)@.len() <= pop_size,
    ensures
        final(population)@.len() == pop_size,
        final(population)@.subrange(0, elite as int) == old(population)@,
        forall|k: int|
            elite <= k < pop_size ==> offspring_of_one(
                #[trigger] final(population)@[k],
                old(population)@,
                mutations,
            ),
{
    let ghost elites = population@;
    while population.len() < pop_size
        invariant
            0 < elite <= population@.len() <= pop_size,
            population@.subrange(0, elite as int) == elites,
            forall|k: int|
                elite <= k < population@.len() ==> offspring_of_one(
                    #[trigger] population@[k],
                    elites,
                    mutations,
                ),
        decreases pop_size - population@.len(),
    {
        let j = random_below(rng, elite);
        assert(population@[j as int] == elites[j as int]);
        let child = population[j].mutate(mutations, rng);
        let ghost p0 = population@;
        population.push(child);
        proof {
            assert(population@.subrange(0, elite as int) =~= p0.subrange(0, elite as int));
            assert forall|k: int| elite <= k < population@.len() implies offspring_of_one(
                #[trigger] population@[k],
                elites,
                mutations,
            ) by {
                if k < p0.len() {
                    assert(population@[k] == p0[k]);
                } else {
                    assert(population@[k].offspring_of(&elites[j as int], mutations));
                }
            }
        }
    }
}

/// One generation's step from `before` to `after`: every solution of
/// `before` was scored by `eval`, the `elite` best stand first in `after`,
/// best first, and each of the rest of `after` is an offspring of one of them.
pub open spec fn next_generation_of<T: Evolutionable, E: Evaluator<T>>(
    eval: E,
    before: Seq<T>,
    after: Seq<T>,
    elite: nat,
    mutations: u32,
) -> bool {
    exists|scored: Seq<(T, i32)>, elites: Seq<(T, i32)>|
        #![trigger ranked_elites(elites, scored)]
        {
            &&& scored.len() == before.len()
            &&& forall|i: int| 0 <= i < scored.len() ==> #[trigger] scored[i].0 == before[i]
            &&& forall|i: int|
                0 <= i < scored.len() ==> #[trigger] scored[i].1 == eval.spec_evaluate(&before[i])
            &&& elites.len() == elite
            &&& ranked_elites(elites, scored)
            &&& elite <= after.len()
            &&& forall|i: int| 0 <= i < elite ==> #[trigger] after[i] == elites[i].0
            &&& forall|k: int|
                elite <= k < after.len() ==> offspring_of_one(
                    #[trigger] after[k],
                    after.subrange(0, elite as int),
                    mutations,
                )
        }
}

/// In a descending sequence the first score is the highest.
pub proof fn lemma_descending_first<T>(s: Seq<(T, i32)>, k: int)
    requires
        descending(s),
        0 <= k < s.len(),
    ensures
        s[0].1 >= s[k].1,
    decreases k,
{
    if k > 0 {
        lemma_descending_first(s, k - 1);
        assert(s[k - 1].1 >= s[k].1);
    }
}

/// After a generation the first solution scores, under the evaluator, at
/// least as high as every solution of the generation before.
pub proof fn lemma_best_first<T: Evolutionable, E: Evaluator<T>>(
    eval: E,
    before: Seq<T>,
    after: Seq<T>,
    elite: nat,
    mutations: u32,
    i: int,
)
    requires
        next_generation_of(eval, before, after, elite, mutations),
        elite >= 1,
        0 <= i < before.len(),
    ensures
        eval.spec_evaluate(&after[0]) >= eval.spec_evaluate(&before[i]),
{
    broadcast use vstd::multiset::group_multiset_axioms;

    let (scored, elites) = choose|scored: Seq<(T, i32)>, elites: Seq<(T, i32)>|
        #![trigger ranked_elites(elites, scored)]
        {
            &&& scored.len() == before.len()
            &&& forall|i: int| 0 <= i < scored.len() ==> #[trigger] scored[i].0 == before[i]
            &&& forall|i: int|
                0 <= i < scored.len() ==> #[trigger] scored[i].1 == eval.spec_evaluate(&before[i])
            &&& elites.len() == elite
            &&& ranked_elites(elites, scored)
            &&& elite <= after.len()
            &&& forall|i: int| 0 <= i < elite ==> #[trigger] after[i] == elites[i].0
            &&& forall|k: int|
                elite <= k < after.len() ==> offspring_of_one(
                    #[trigger] after[k],
                    after.subrange(0, elite as int),
                    mutations,
                )
        };
    let rest = choose|rest: Seq<(T, i32)>|
        #![trigger (elites + rest).to_multiset()]
        (elites + rest).to_multiset() == scored.to_multiset() && (elites.len() > 0 ==> forall|
            k: int,
        | 0 <= k < rest.len() ==> #[trigger] rest[k].1 <= elites.last().1);
    let all = elites + rest;
    to_multiset_contains(scored, scored[i]);
    assert(scored.contains(scored[i]));
    to_multiset_contains(all, scored[i]);
    let j = choose|j: int| 0 <= j < all.len() && all[j] == scored[i];
    if j < elites.len() {
        lemma_descending_first(elites, j);
    } else {
        assert(all[j] == rest[j - elites.len()]);
        lemma_descending_first(elites, elites.len() - 1);
    }
    to_multiset_contains(all, elites[0]);
    assert(all[0] == elites[0]);
    assert(all.contains(elites[0]));
    to_multiset_contains(scored, elites[0]);
    let k = choose|k: int| 0 <= k < scored.len() && scored[k] == elites[0];
    assert(scored[k].1 == eval.spec_evaluate(&before[k]));
    assert(scored[k].0 == before[k]);
    assert(after[0] == elites[0].0);
    assert(before[k] == after[0]);
    assert(scored[i].1 == eval.spec_evaluate(&before[i]));
    assert(all[j].1 <= elites[0].1);
}

/// A population of `pop_size` solutions, evolved one generation at a time.
/// The elite of each generation are the best `elitism_percent` percent of
/// the population, rounded down.
pub struct GeneticAlgorithm<T: Evolutionable + Send, E: Evaluator<T> + Sync> {
    evaluator: E,
    population: Vec<T>,
    mutations_per_generation: u32,
    elitism_percent: u32,
    generation: u64,
    pop_size: usize,
}

impl<T: Evolutionable + Clone + Send, E: Evaluator<T> + Sync> GeneticAlgorithm<T, E> {
    pub closed spec fn spec_population(&self) -> Seq<T> {
        self.population@
    }

    pub closed spec fn spec_pop_size(&self) -> nat {
        self.pop_size as nat
    }

    pub closed spec fn spec_elitism_percent(&self) -> nat {
        self.elitism_percent as nat
    }

    pub closed spec fn spec_mutations(&self) -> u32 {
        self.mutations_per_generation
    }

    pub closed spec fn spec_generation(&self) -> nat {
        self.generation as nat
    }

    pub closed spec fn spec_evaluator(&self) -> E {
        self.evaluator
    }

    /// How many of the best solutions survive each generation.
    pub open spec fn elite_count(&self) -> nat {
        self.spec_pop_size() * self.spec_elitism_percent() / 100
    }

    /// The population has its size, and at least one solution survives
    /// each generation to parent the others.
    pub open spec fn wf(&self) -> bool {
        &&& self.spec_population().len() == self.spec_pop_size()
        &&& self.spec_elitism_percent() <= 100
        &&& self.spec_pop_size() <= usize::MAX / 100
        &&& self.elite_count() >= 1
    }

    /// A population of `pop_size` clones of `solution_prototype`.
    pub fn new(
        pop_size: usize,
        elitism_percent: u32,
        mutations_per_generation: u32,
        evaluator: E,
        solution_prototype: &T,
    ) -> (r: Self)
        requires
            elitism_percent <= 100,
            pop_size <= usize::MAX / 100,
            pop_size * elitism_percent / 100 >= 1,
        ensures
            r.wf(),
            r.spec_pop_size() == pop_size,
            r.spec_elitism_percent() == elitism_percent,
            r.spec_mutations() == mutations_per_generation,
            r.spec_evaluator() == evaluator,
            r.spec_generation() == 0,
            forall|i: int|
                0 <= i < pop_size ==> cloned(*solution_prototype, #[trigger] r.spec_population()[i]),
    {
        let mut population: Vec<T> = Vec::new();
        let mut i: usize = 0;
        while i < pop_size
            invariant
                i <= pop_size,
                population@.len() == i,
                forall|k: int| 0 <= k < i ==> cloned(*solution_prototype, #[trigger] population@[k]),
            decreases pop_size - i,
        {
            let c = solution_prototype.clone();
            population.push(c);
            i = i + 1;
        }
        GeneticAlgorithm {
            evaluator,
            population,
            mutations_per_generation,
            elitism_percent,
            generation: 0,
            pop_size,
        }
    }

    /// Scores the population, keeps its elite, best first, and refills it
    /// with offspring of elites drawn at random from `rng`.
    pub fn next_generation(&mut self, rng: &mut ThreadRng)
        requires
            old(self).wf(),
        ensures
            final(self).wf(),
            final(self).spec_pop_size() == old(self).spec_pop_size(),
            final(self).spec_elitism_percent() == old(self).spec_elitism_percent(),
            final(self).spec_mutations() == old(self).spec_mutations(),
            final(self).spec_evaluator() == old(self).spec_evaluator(),
            final(self).spec_generation() == if old(self).spec_generation() < u64::MAX {
                old(self).spec_generation() + 1
            } else {
                old(self).spec_generation()
            },
            next_generation_of(
                old(self).spec_evaluator(),
                old(self).spec_population(),
                final(self).spec_population(),
                old(self).elite_count(),
                old(self).spec_mutations(),
            ),
    {
        let mut before: Vec<T> = Vec::new();
        std::mem::swap(&mut before, &mut self.population);
        let ghost before_seq = before@;
        let scored = score_all(before, &self.evaluator);
        let ghost scored_seq = scored@;
        assert(self.pop_size * (self.elitism_percent as usize) <= usize::MAX) by (nonlinear_arith)
            requires
                self.pop_size <= usize::MAX / 100,
                self.elitism_percent <= 100,
        ;
        let elite = self.pop_size * (self.elitism_percent as usize) / 100;
        assert(elite <= self.pop_size) by (nonlinear_arith)
            requires
                elite == self.pop_size * self.elitism_percent / 100,
                self.elitism_percent <= 100,
        ;
        let ranked = select_elites(scored, elite);
        let ghost ranked_seq = ranked@;
        let mut next = strip_scores(ranked);
        let ghost elites_seq = next@;
        refill(&mut next, elite, self.pop_size, self.mutations_per_generation, rng);
        self.population = next;
        if self.generation < u64::MAX {
            self.generation = self.generation + 1;
        }
        proof {
            let after = self.population@;
            assert(after.subrange(0, elite as int) == elites_seq);
            assert forall|i: int| 0 <= i < elite implies #[trigger] after[i] == ranked_seq[i].0 by {
                assert(after[i] == after.subrange(0, elite as int)[i]);
            }
            assert(ranked_elites(ranked_seq, scored_seq));
        }
    }

    /// The first solution of the population: after a generation, the best.
    pub fn get_best(&self) -> (r: Option<&T>)
        ensures
            match r {
                Some(b) => self.spec_population().len() > 0 && *b == self.spec_population()[0],
                None => self.spec_population().len() == 0,
            },
    {
        if self.population.len() > 0 {
            Some(&self.population[0])
        } else {
            None
        }
    }

    /// The current population.
    pub fn population(&self) -> (r: &Vec<T>)
        ensures
            r@ == self.spec_population(),
    {
        &self.population
    }

    pub fn evaluator(&self) -> (r: &E)
        ensures
            *r == self.spec_evaluator(),
    {
        &self.evaluator
    }

    /// How many generations have been run, saturating at `u64::MAX`.
    pub fn generation(&self) -> (r: u64)
        ensures
            r == self.spec_generation(),
    {
        self.generation
    }
}

} // verus!
