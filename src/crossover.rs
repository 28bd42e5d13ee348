//! Crossover of two parents into one feasible offspring.
use crate::individual::Individual;
use crate::knapsack::KnapSack;
use crate::random::{draw_below, draw_bool, draw_ratio};
use rand::rngs::StdRng;
use vstd::prelude::*;

verus! {

/// The offspring's genotype: gene `i` from `first` where `from_first[i]`,
/// else from `other`.
pub open spec fn combine(first: Seq<bool>, other: Seq<bool>, from_first: Seq<bool>) -> Seq<bool> {
    Seq::new(from_first.len(), |i: int| if from_first[i] { first[i] } else { other[i] })
}

/// Single split at `k1`: the genes below it come from the first parent.
pub open spec fn single_split(n: nat, k1: int) -> Seq<bool> {
    Seq::new(n, |i: int| i < k1)
}

/// Double split at `k1` and `k2`: the genes on the same side of both come
/// from the first parent.
pub open spec fn double_split(n: nat, k1: int, k2: int) -> Seq<bool> {
    Seq::new(n, |i: int| (i < k1 && i < k2) || (i > k1 && i > k2))
}

/// Takes each gene from `first` or `other` as `from_first` says.
fn combine_exec(first: &Individual, other: &Individual, from_first: &Vec<bool>) -> (r: Individual)
    requires
        first.genotype@.len() == from_first@.len(),
        other.genotype@.len() == from_first@.len(),
    ensures
        r.genotype@ == combine(first.genotype@, other.genotype@, from_first@),
        r.fitness == 0,
{
    let n = from_first.len();
    let mut genotype: Vec<bool> = Vec::new();
    let mut i: usize = 0;
    while i < n
        invariant
            n == from_first@.len(),
            first.genotype@.len() == n,
            other.genotype@.len() == n,
            i <= n,
            genotype@ == combine(first.genotype@, other.genotype@, from_first@).take(i as int),
        decreases n - i,
    {
        if from_first[i] {
            genotype.push(first.genotype[i]);
        } else {
            genotype.push(other.genotype[i]);
        }
        i += 1;
        assert(genotype@ =~= combine(first.genotype@, other.genotype@, from_first@).take(
            i as int,
        ));
    }
    assert(genotype@ =~= combine(first.genotype@, other.genotype@, from_first@));
    Individual { genotype, fitness: 0 }
}

/// Crossover closure: whatever the split points, a single- or double-split
/// offspring of two parents over the gene universe has exactly one gene per
/// gene of the universe, each taken from one of the parents.
pub proof fn lemma_crossover_closure(ks: &KnapSack, first: Individual, other: Individual, k1: int, k2: int)
    requires
        first.wf(ks),
        other.wf(ks),
    ensures
        ({
            let (f, o, n) = (first.genotype@, other.genotype@, ks.n_genes());
            let one = combine(f, o, single_split(n, k1));
            let two = combine(f, o, double_split(n, k1, k2));
            &&& one.len() == n
            &&& two.len() == n
            &&& forall|i: int| 0 <= i < n ==> #[trigger] one[i] == f[i] || one[i] == o[i]
            &&& forall|i: int| 0 <= i < n ==> #[trigger] two[i] == f[i] || two[i] == o[i]
        }),
{
}

impl KnapSack {
    /// Single-split crossover at gene `k1`.
    pub fn cross_1(&self, k1: usize, first: &Individual, other: &Individual) -> (r: Individual)
        requires
            first.genotype@.len() == self.n_genes(),
            other.genotype@.len() == self.n_genes(),
        ensures
            r.genotype@ == combine(
                first.genotype@,
                other.genotype@,
                single_split(self.n_genes(), k1 as int),
            ),
    {
        let n = self.fitness.len();
        let mut mask: Vec<bool> = Vec::new();
        let mut i: usize = 0;
        while i < n
            invariant
                n == self.n_genes(),
                i <= n,
                mask@ == single_split(n as nat, k1 as int).take(i as int),
            decreases n - i,
        {
            mask.push(i < k1);
            i += 1;
            assert(mask@ =~= single_split(n as nat, k1 as int).take(i as int));
        }
        assert(mask@ =~= single_split(n as nat, k1 as int));
        combine_exec(first, other, &mask)
    }

    /// Double-split crossover at genes `k1` and `k2`.
    pub fn cross_2(&self, k1: usize, k2: usize, first: &Individual, other: &Individual) -> (r:
        Individual)
        requires
            first.genotype@.len() == self.n_genes(),
            other.genotype@.len() == self.n_genes(),
        ensures
            r.genotype@ == combine(
                first.genotype@,
                other.genotype@,
                double_split(self.n_genes(), k1 as int, k2 as int),
            ),
    {
        let n = self.fitness.len();
        let mut mask: Vec<bool> = Vec::new();
        let mut i: usize = 0;
        while i < n
            invariant
                n == self.n_genes(),
                i <= n,
                mask@ == double_split(n as nat, k1 as int, k2 as int).take(i as int),
            decreases n - i,
        {
            mask.push((i < k1 && i < k2) || (i > k1 && i > k2));
            i += 1;
            assert(mask@ =~= double_split(n as nat, k1 as int, k2 as int).take(i as int));
        }
        assert(mask@ =~= double_split(n as nat, k1 as int, k2 as int));
        combine_exec(first, other, &mask)
    }

    /// Uniform crossover: each gene from either parent by a fair coin.
    pub fn cross_rand(&self, first: &Individual, other: &Individual, rng: &mut StdRng) -> (r:
        Individual)
        requires
            first.genotype@.len() == self.n_genes(),
            other.genotype@.len() == self.n_genes(),
        ensures
            r.genotype@.len() == self.n_genes(),
            forall|i: int|
                0 <= i < self.n_genes() ==> #[trigger] r.genotype@[i] == first.genotype@[i]
                    || r.genotype@[i] == other.genotype@[i],
    {
        let n = self.fitness.len();
        let mut mask: Vec<bool> = Vec::new();
        let mut i: usize = 0;
        while i < n
            invariant
                i <= n,
                mask@.len() == i,
            decreases n - i,
        {
            mask.push(draw_bool(rng));
            i += 1;
        }
        combine_exec(first, other, &mask)
    }

    /// An offspring of `first` and `other`: one of the three crossovers,
    /// chosen at random; then, with chance `mutation_ratio` per thousand,
    /// between one and half the gene count of upward mutations; then repair.
    pub fn cross_genes(&self, first: &Individual, other: &Individual, rng: &mut StdRng) -> (r:
        Individual)
        requires
            self.wf(),
            first.wf(self),
            other.wf(self),
        ensures
            r.wf(self),
            self.mutation_ratio == 0 && first.genotype@ == other.genotype@ ==> r.genotype@
                == first.genotype@,
            self.mutation_ratio == 0 ==> forall|i: int|
                0 <= i < self.n_genes() && #[trigger] r.genotype@[i] ==> first.genotype@[i]
                    || other.genotype@[i],
    {
        let n = self.fitness.len();
        let mut output = if n == 0 {
            Individual { genotype: Vec::new(), fitness: 0 }
        } else {
            let strategy = draw_below(rng, 3);
            if strategy == 0 {
                let k1 = draw_below(rng, n as u64) as usize;
                self.cross_1(k1, first, other)
            } else if strategy == 1 {
                let k1 = draw_below(rng, n as u64) as usize;
                let k2 = draw_below(rng, n as u64) as usize;
                self.cross_2(k1, k2, first, other)
            } else {
                self.cross_rand(first, other, rng)
            }
        };
        assert(output.genotype@.len() == n);
        assert(forall|i: int|
            0 <= i < n ==> #[trigger] output.genotype@[i] == first.genotype@[i]
                || output.genotype@[i] == other.genotype@[i]);
        let ghost crossed = output.genotype@;
        assert(first.genotype@ == other.genotype@ ==> crossed =~= first.genotype@);
        if draw_ratio(rng, self.mutation_ratio, 1000) && n / 2 >= 1 {
            let count = draw_below(rng, (n / 2) as u64) + 1;
            let mut m: u64 = 0;
            while m < count
                invariant
                    self.wf(),
                    output.genotype@.len() == self.n_genes(),
                    m <= count,
                decreases count - m,
            {
                output.mutate_up(self, rng);
                m += 1;
            }
        }
        assert(self.mutation_ratio == 0 ==> output.genotype@ == crossed);
        self.make_valid(output, rng)
    }
}

} // verus!
