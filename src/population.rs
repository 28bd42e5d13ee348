//! Populations, fitness-proportionate selection and the generational loop.
use crate::individual::Individual;
use crate::knapsack::KnapSack;
use crate::model::Config;
use crate::random::draw_below;
use rand::rngs::StdRng;
use vstd::multiset::Multiset;
use vstd::prelude::*;
use vstd::multiset::{group_multiset_axioms, lemma_multiset_empty_len};
use vstd::seq_lib::{
    to_multiset_build, to_multiset_contains, to_multiset_insert, to_multiset_len, to_multiset_remove,
};

verus! {

broadcast use group_multiset_axioms, lemma_multiset_empty_len, to_multiset_build, to_multiset_contains,
    to_multiset_insert, to_multiset_len, to_multiset_remove;

/// Sum of the fitness of the first `n` individuals.
pub open spec fn fitness_prefix(pop: Seq<Individual>, n: int) -> int
    decreases n,
{
    if n <= 0 {
        0
    } else {
        fitness_prefix(pop, n - 1) + pop[n - 1].fitness
    }
}

/// Sum of the fitness of the whole population.
pub open spec fn fitness_total(pop: Seq<Individual>) -> int {
    fitness_prefix(pop, pop.len() as int)
}

/// Fitness never increases along the sequence.
pub open spec fn sorted_desc(pop: Seq<Individual>) -> bool {
    forall|i: int, j: int| 0 <= i < j < pop.len() ==> pop[i].fitness >= pop[j].fitness
}

/// Every individual of `pop` is well formed for `ks`.
pub open spec fn all_wf(pop: Seq<Individual>, ks: &KnapSack) -> bool {
    forall|i: int| 0 <= i < pop.len() ==> #[trigger] pop[i].wf(ks)
}

/// `a` and `b` hold the same genotype and fitness.
pub open spec fn same_individual(a: Individual, b: Individual) -> bool {
    a.genotype@ == b.genotype@ && a.fitness == b.fitness
}

/// The interleaving of `distribute`: walking `s` in order, an item at an even
/// index goes to the back, one at an odd index to the front.
pub open spec fn distributed(s: Seq<Individual>) -> Seq<Individual>
    decreases s.len(),
{
    if s.len() == 0 {
        seq![]
    } else {
        let d = distributed(s.drop_last());
        if (s.len() - 1) % 2 == 0 {
            d.push(s.last())
        } else {
            seq![s.last()] + d
        }
    }
}

/// `r` is the first index at which the running fitness sum reaches `t`.
pub open spec fn selected_at(pop: Seq<Individual>, r: int, t: int) -> bool {
    &&& fitness_prefix(pop, r + 1) >= t
    &&& forall|k: int| 0 < k <= r ==> #[trigger] fitness_prefix(pop, k) < t
}

/// The items at odd indices of `s`, last first.
pub open spec fn odds_reversed(s: Seq<Individual>) -> Seq<Individual> {
    let h = s.len() / 2;
    Seq::new(h as nat, |i: int| s[2 * h - 1 - 2 * i])
}

/// The items at even indices of `s`, in order.
pub open spec fn evens(s: Seq<Individual>) -> Seq<Individual> {
    Seq::new(((s.len() + 1) / 2) as nat, |i: int| s[2 * i])
}

/// Closed form of the interleaving: the items at odd indices in reverse
/// order, then those at even indices in order.
pub proof fn lemma_distributed_closed_form(s: Seq<Individual>)
    ensures
        distributed(s) == odds_reversed(s) + evens(s),
    decreases s.len(),
{
    if s.len() > 0 {
        let t = s.drop_last();
        let n = t.len();
        lemma_distributed_closed_form(t);
        assert(forall|k: int| 0 <= k < n ==> #[trigger] t[k] == s[k]);
        if n % 2 == 0 {
            assert(odds_reversed(s) =~= odds_reversed(t));
            assert(evens(s) =~= evens(t).push(s.last()));
            assert(distributed(s) =~= odds_reversed(s) + evens(s));
        } else {
            assert(odds_reversed(s) =~= seq![s.last()] + odds_reversed(t));
            assert(evens(s) =~= evens(t));
            assert(distributed(s) =~= odds_reversed(s) + evens(s));
        }
    } else {
        assert(distributed(s) =~= odds_reversed(s) + evens(s));
    }
}

pub proof fn lemma_fitness_prefix_mono(pop: Seq<Individual>, m: int, n: int)
    requires
        0 <= m <= n <= pop.len(),
    ensures
        0 <= fitness_prefix(pop, m) <= fitness_prefix(pop, n),
    decreases n,
{
    if n > m {
        lemma_fitness_prefix_mono(pop, m, n - 1);
    } else if n > 0 {
        lemma_fitness_prefix_mono(pop, 0, n - 1);
    }
}

/// Individuals that a multiset-preserving rearrangement keeps are well formed.
pub proof fn lemma_all_wf_multiset(a: Seq<Individual>, b: Seq<Individual>, ks: &KnapSack)
    requires
        all_wf(a, ks),
        a.to_multiset() == b.to_multiset(),
    ensures
        all_wf(b, ks),
{
    assert forall|i: int| 0 <= i < b.len() implies #[trigger] b[i].wf(ks) by {
        assert(b.contains(b[i]));
        assert(b.to_multiset().count(b[i]) > 0);
        assert(a.contains(b[i]));
    }
}

/// Sum of the fitness of the population.
pub fn total_fitness(pop: &Vec<Individual>) -> (r: u64)
    requires
        pop@.len() <= u32::MAX,
    ensures
        r as int == fitness_total(pop@),
{
    let mut sum: u64 = 0;
    let mut i: usize = 0;
    while i < pop.len()
        invariant
            pop@.len() <= u32::MAX,
            i <= pop@.len(),
            sum as int == fitness_prefix(pop@, i as int),
            sum <= i * (u32::MAX as int),
        decreases pop@.len() - i,
    {
        sum = sum + pop[i].fitness as u64;
        i += 1;
    }
    sum
}

/// The population in order of non-increasing fitness.
pub fn sort_by_fitness(pop: Vec<Individual>) -> (r: Vec<Individual>)
    ensures
        sorted_desc(r@),
        r@.to_multiset() == pop@.to_multiset(),
{
    let mut rest = pop;
    let mut out: Vec<Individual> = Vec::new();
    assert(out@.to_multiset() =~= Multiset::empty());
    while rest.len() > 0
        invariant
            sorted_desc(out@),
            out@.to_multiset().add(rest@.to_multiset()) == pop@.to_multiset(),
        decreases rest@.len(),
    {
        let ghost r0 = rest@;
        let x = rest.pop().unwrap();
        assert(r0 =~= rest@.push(x));
        let mut pos: usize = 0;
        while pos < out.len() && out[pos].fitness >= x.fitness
            invariant
                pos <= out@.len(),
                forall|k: int| 0 <= k < pos ==> out@[k].fitness >= x.fitness,
            decreases out@.len() - pos,
        {
            pos += 1;
        }
        let ghost o0 = out@;
        out.insert(pos, x);
        proof {
            assert(out@.to_multiset() == o0.to_multiset().insert(x));
            assert(r0.to_multiset() == rest@.to_multiset().insert(x));
            assert(out@.to_multiset().add(rest@.to_multiset()) =~= o0.to_multiset().add(
                r0.to_multiset(),
            ));
            assert forall|i: int, j: int| 0 <= i < j < out@.len() implies out@[i].fitness
                >= out@[j].fitness by {
                if j < pos {
                } else if j == pos {
                } else if i < pos {
                    if pos < o0.len() {
                        assert(o0[pos as int].fitness < x.fitness);
                    }
                } else if i == pos {
                    assert(o0[pos as int].fitness < x.fitness);
                }
            }
        }
    }
    assert(rest@.to_multiset() =~= Multiset::empty());
    assert(out@.to_multiset() =~= pop@.to_multiset());
    out
}

/// Interleaves the population: walking it in order, an individual at an
/// even index is appended, one at an odd index is put in front.
pub fn distribute(pop: Vec<Individual>) -> (r: Vec<Individual>)
    ensures
        r@ == distributed(pop@),
        r@ == odds_reversed(pop@) + evens(pop@),
        r@.to_multiset() == pop@.to_multiset(),
{
    proof {
        lemma_distributed_closed_form(pop@);
    }
    let n = pop.len();
    let mut rest = pop;
    let mut out: Vec<Individual> = Vec::new();
    let mut i: usize = 0;
    assert(out@.to_multiset() =~= Multiset::empty());
    assert(pop@.take(0) =~= seq![]);
    while rest.len() > 0
        invariant
            n == pop@.len(),
            i + rest@.len() == n,
            rest@ == pop@.skip(i as int),
            out@ == distributed(pop@.take(i as int)),
            out@.to_multiset().add(rest@.to_multiset()) == pop@.to_multiset(),
        decreases rest@.len(),
    {
        let ghost r0 = rest@;
        let ghost o0 = out@;
        let x = rest.remove(0);
        assert(pop@.take(i + 1).drop_last() =~= pop@.take(i as int));
        assert(rest@ =~= pop@.skip(i + 1));
        if i % 2 == 0 {
            out.push(x);
        } else {
            out.insert(0, x);
            assert(out@ =~= seq![x] + o0);
        }
        proof {
            assert(out@.to_multiset() == o0.to_multiset().insert(x));
            assert(r0.remove(0) == rest@);
            assert(rest@.to_multiset() == r0.to_multiset().remove(x));
            assert(out@.to_multiset().add(rest@.to_multiset()) =~= o0.to_multiset().add(
                r0.to_multiset(),
            ));
        }
        i += 1;
    }
    assert(pop@.take(i as int) =~= pop@);
    assert(rest@.to_multiset() =~= Multiset::empty());
    assert(out@.to_multiset() =~= pop@.to_multiset());
    out
}

/// The first index at which the running fitness sum reaches `threshold`.
pub fn select_index(pop: &Vec<Individual>, threshold: u64) -> (r: usize)
    requires
        pop@.len() > 0,
        threshold <= fitness_total(pop@),
        fitness_total(pop@) <= u64::MAX,
    ensures
        r < pop@.len(),
        fitness_prefix(pop@, r + 1) >= threshold,
        forall|k: int| 0 < k <= r ==> #[trigger] fitness_prefix(pop@, k) < threshold,
{
    assert(fitness_prefix(pop@, 0) == 0);
    let n = pop.len();
    let mut cur: u64 = pop[0].fitness as u64;
    let mut idx: usize = 0;
    while cur < threshold
        invariant
            pop@.len() > 0,
            n == pop@.len(),
            threshold <= fitness_total(pop@),
            fitness_total(pop@) <= u64::MAX,
            idx < pop@.len(),
            cur as int == fitness_prefix(pop@, idx + 1),
            forall|k: int| 0 < k <= idx ==> #[trigger] fitness_prefix(pop@, k) < threshold,
        decreases pop@.len() - idx,
    {
        proof {
            assert(fitness_total(pop@) == fitness_prefix(pop@, pop@.len() as int));
            assert(idx + 1 < pop@.len());
            lemma_fitness_prefix_mono(pop@, idx + 2, pop@.len() as int);
        }
        idx += 1;
        cur = cur + pop[idx].fitness as u64;
    }
    idx
}

/// Fitness-proportionate selection with a random elite ratio: with total
/// fitness 0 the first individual; otherwise, for an elite ratio drawn from
/// 1 to 3, the first index at which the running fitness sum reaches a
/// threshold drawn below `total_fitness / elite_ratio` (0 where that bound is 0).
pub fn pick_individual(rng: &mut StdRng, total_fitness: u64, pop: &Vec<Individual>) -> (r: usize)
    requires
        pop@.len() > 0,
        total_fitness == fitness_total(pop@),
    ensures
        r < pop@.len(),
        total_fitness == 0 ==> r == 0 && *final(rng) == *old(rng),
        total_fitness > 0 ==> exists|t: int|
            0 <= t < total_fitness && #[trigger] selected_at(pop@, r as int, t),
{
    if total_fitness == 0 {
        return 0;
    }
    let elite_ratio = draw_below(rng, 3) + 1;
    let limit = total_fitness / elite_ratio;
    let threshold = if limit == 0 {
        0
    } else {
        draw_below(rng, limit)
    };
    let r = select_index(pop, threshold);
    assert(selected_at(pop@, r as int, threshold as int));
    r
}

/// `population_size` fresh individuals, in order of non-increasing fitness.
pub fn new_population(config: &Config, knapsack: &KnapSack, rng: &mut StdRng) -> (r: Vec<
    Individual,
>)
    requires
        knapsack.wf(),
    ensures
        r@.len() == config.population_size,
        all_wf(r@, knapsack),
        sorted_desc(r@),
{
    let mut pop: Vec<Individual> = Vec::new();
    let mut i: usize = 0;
    while i < config.population_size
        invariant
            knapsack.wf(),
            i <= config.population_size,
            pop@.len() == i,
            all_wf(pop@, knapsack),
        decreases config.population_size - i,
    {
        pop.push(Individual::new(knapsack, rng));
        i += 1;
    }
    let ghost p0 = pop@;
    let r = sort_by_fitness(pop);
    proof {
        lemma_all_wf_multiset(p0, r@, knapsack);
        assert(r@.to_multiset().len() == p0.to_multiset().len());
    }
    r
}

} // verus!
