//! The generational loop: selection, crossover, elitism and stagnation
//! restarts, one generation per step.
use crate::individual::Individual;
use crate::knapsack::KnapSack;
use crate::model::Config;
use crate::population::{
    all_wf, distribute, lemma_all_wf_multiset, new_population, pick_individual, same_individual,
    sort_by_fitness, sorted_desc, total_fitness,
};
use rand::rngs::StdRng;
use vstd::prelude::*;
use vstd::seq_lib::to_multiset_len;

verus! {

/// The state of a run: the current population and the best individual found.
#[derive(Debug, Clone)]
pub struct Evolution {
    pub population: Vec<Individual>,
    /// The best individual found so far.
    pub champion: Individual,
    /// Generation in which the champion was found.
    pub champion_generation: u32,
    /// Generation of the last restart.
    pub latest_generation: u32,
    /// Generations run so far.
    pub generation: u32,
}

/// Whether a generation that found no better champion restarts the
/// population: both the champion and the last restart are older than
/// `threshold` generations.
pub open spec fn stagnant(
    generation: int,
    champion_generation: int,
    latest_generation: int,
    threshold: int,
) -> bool {
    generation - champion_generation > threshold && generation - latest_generation > threshold
}

impl Evolution {
    /// The invariant of a run: a full population of well-formed individuals,
    /// the champion first, the others in order of non-increasing fitness.
    pub open spec fn wf(&self, config: &Config, ks: &KnapSack) -> bool {
        &&& ks.wf()
        &&& 1 <= config.population_size <= u32::MAX
        &&& self.population@.len() == config.population_size
        &&& all_wf(self.population@, ks)
        &&& self.champion.wf(ks)
        &&& same_individual(self.population@[0], self.champion)
        &&& sorted_desc(self.population@.skip(1))
        &&& self.champion_generation <= self.generation
        &&& self.latest_generation <= self.generation
    }

    /// A run at generation 0: a fresh population, its best individual as
    /// champion.
    pub fn start(config: &Config, ks: &KnapSack, rng: &mut StdRng) -> (e: Evolution)
        requires
            ks.wf(),
            1 <= config.population_size <= u32::MAX,
        ensures
            e.wf(config, ks),
            sorted_desc(e.population@),
            e.generation == 0,
            e.champion_generation == 0,
            e.latest_generation == 0,
    {
        let population = new_population(config, ks, rng);
        let champion = population[0].duplicate();
        proof {
            assert(population@[0].wf(ks));
            let t = population@.skip(1);
            assert forall|i: int, j: int| 0 <= i < j < t.len() implies t[i].fitness
                >= t[j].fitness by {
                assert(t[i] == population@[i + 1]);
                assert(t[j] == population@[j + 1]);
            }
        }
        Evolution {
            population,
            champion,
            champion_generation: 0,
            latest_generation: 0,
            generation: 0,
        }
    }

    /// Runs one generation.
    pub fn evolve(&mut self, config: &Config, ks: &KnapSack, rng: &mut StdRng)
        requires
            old(self).wf(config, ks),
            old(self).generation < u32::MAX,
        ensures
            final(self).wf(config, ks),
            final(self).generation == old(self).generation + 1,
            final(self).champion.fitness >= old(self).champion.fitness,
            (final(self).champion.fitness > old(self).champion.fitness
                && final(self).champion_generation == final(self).generation) || (same_individual(
                final(self).champion,
                old(self).champion,
            ) && final(self).champion_generation == old(self).champion_generation),
            final(self).champion_generation == old(self).champion_generation && stagnant(
                final(self).generation as int,
                old(self).champion_generation as int,
                old(self).latest_generation as int,
                config.stability_threshold as int,
            ) ==> final(self).latest_generation == final(self).generation,
            final(self).latest_generation == old(self).latest_generation ==> sorted_desc(
                final(self).population@,
            ),
            final(self).latest_generation != old(self).latest_generation ==> {
                &&& final(self).latest_generation == final(self).generation
                &&& same_individual(final(self).champion, old(self).champion)
                &&& stagnant(
                    final(self).generation as int,
                    old(self).champion_generation as int,
                    old(self).latest_generation as int,
                    config.stability_threshold as int,
                )
            },
    {
        broadcast use to_multiset_len;

        let generation = self.generation + 1;
        let mut current: Vec<Individual> = Vec::new();
        std::mem::swap(&mut current, &mut self.population);
        let ghost c0 = current@;
        let pop = distribute(current);
        proof {
            lemma_all_wf_multiset(c0, pop@, ks);
            assert(pop@.to_multiset().len() == c0.to_multiset().len());
        }
        let total = total_fitness(&pop);
        let mut next: Vec<Individual> = Vec::new();
        while next.len() < config.population_size
            invariant
                ks.wf(),
                pop@.len() == config.population_size,
                1 <= config.population_size <= u32::MAX,
                all_wf(pop@, ks),
                total == crate::population::fitness_total(pop@),
                next@.len() <= config.population_size,
                all_wf(next@, ks),
            decreases config.population_size - next@.len(),
        {
            let a = pick_individual(rng, total, &pop);
            let b = pick_individual(rng, total, &pop);
            let child = ks.cross_genes(&pop[a], &pop[b], rng);
            next.push(child);
        }
        let ghost n0 = next@;
        let mut next = sort_by_fitness(next);
        proof {
            lemma_all_wf_multiset(n0, next@, ks);
            assert(next@.to_multiset().len() == n0.to_multiset().len());
        }
        assert(next@[0].wf(ks));
        if next[0].fitness > self.champion.fitness {
            self.champion = next[0].duplicate();
            self.champion_generation = generation;
        } else if generation - self.champion_generation > config.stability_threshold
            && generation - self.latest_generation > config.stability_threshold {
            next = new_population(config, ks, rng);
            self.latest_generation = generation;
        }
        assert(self.champion.wf(ks));
        assert(all_wf(next@, ks));
        let ghost before = next@;
        next.pop();
        next.insert(0, self.champion.duplicate());
        proof {
            assert(next@.skip(1) =~= before.drop_last());
            assert(all_wf(before, ks));
            assert forall|i: int| 0 <= i < next@.len() implies #[trigger] next@[i].wf(ks) by {
                if i > 0 {
                    assert(next@[i] == before[i - 1]);
                }
            }
            if self.latest_generation == old(self).latest_generation {
                assert(sorted_desc(before));
                assert forall|i: int, j: int| 0 <= i < j < next@.len() implies next@[i].fitness
                    >= next@[j].fitness by {
                    if i > 0 {
                        assert(next@[i] == before[i - 1]);
                    }
                    assert(next@[j] == before[j - 1]);
                    assert(before[0].fitness >= before[j - 1].fitness);
                }
            }
        }
        self.population = next;
        self.generation = generation;
    }
    /// A whole run: a fresh start, then `config.generations_count` generations.
    pub fn run(config: &Config, ks: &KnapSack, rng: &mut StdRng) -> (e: Evolution)
        requires
            ks.wf(),
            1 <= config.population_size <= u32::MAX,
        ensures
            e.wf(config, ks),
            e.generation == config.generations_count,
    {
        let mut e = Evolution::start(config, ks, rng);
        while e.generation < config.generations_count
            invariant
                e.wf(config, ks),
                e.generation <= config.generations_count,
            decreases config.generations_count - e.generation,
        {
            e.evolve(config, ks, rng);
        }
        e
    }
}

} // verus!
