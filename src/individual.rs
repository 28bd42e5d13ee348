//! Candidate solutions: a boolean genotype over the gene universe, with its
//! cached fitness, and the mutation and repair operators on it.
use crate::knapsack::{
    active_count, all_active, cost_column, lemma_masked_sum_bounds, lemma_masked_sum_mono, lemma_masked_sum_update,
    masked_sum, ones, values, KnapSack,
};
use crate::model::Resource;
use crate::random::{draw_below, draw_bool};
use rand::rngs::StdRng;
use vstd::prelude::*;

verus! {

/// One candidate solution.
#[derive(Debug, Clone, Default)]
pub struct Individual {
    /// For every gene of the universe, whether it is active.
    pub genotype: Vec<bool>,
    /// Total value of the active genes.
    pub fitness: u32,
}

/// `new` is `old` with one inactive gene switched on.
pub open spec fn switched_on(old: Seq<bool>, new: Seq<bool>) -> bool {
    exists|i: int| 0 <= i < old.len() && !old[i] && new == old.update(i, true)
}

/// `new` is `old` with one active gene switched off.
pub open spec fn switched_off(old: Seq<bool>, new: Seq<bool>) -> bool {
    exists|i: int| 0 <= i < old.len() && old[i] && new == old.update(i, false)
}

/// The indices `i < n` where `g[i] == b`, in increasing order.
pub open spec fn indices_where(g: Seq<bool>, b: bool, r: Seq<usize>) -> bool {
    &&& forall|k: int| 0 <= k < r.len() ==> r[k] < g.len() && g[r[k] as int] == b
    &&& forall|k: int, l: int| 0 <= k < l < r.len() ==> r[k] < r[l]
    &&& forall|i: int| 0 <= i < g.len() && g[i] == b ==> r.contains(i as usize)
}

/// With no active gene, nothing is consumed.
pub proof fn lemma_none_active(v: Seq<int>, g: Seq<bool>, n: int)
    requires
        0 <= n <= g.len(),
        forall|i: int| 0 <= i < n ==> !g[i],
    ensures
        masked_sum(v, g, n) == 0,
    decreases n,
{
    if n > 0 {
        lemma_none_active(v, g, n - 1);
    }
}

/// Gene `i` is inactive in `g`, and every resource could pay for it with
/// some to spare.
pub open spec fn can_on(ks: &KnapSack, g: Seq<bool>, i: int) -> bool {
    &&& 0 <= i < g.len()
    &&& !g[i]
    &&& forall|r: int|
        0 <= r < ks.n_resources() ==> #[trigger] ks.remains_of(g, r) > (ks.constraints@[i])@[r]
}

/// Gene `i` is active in `g`, and switching it off leaves no remainder negative.
pub open spec fn can_off(ks: &KnapSack, g: Seq<bool>, i: int) -> bool {
    &&& 0 <= i < g.len()
    &&& g[i]
    &&& forall|r: int|
        0 <= r < ks.n_resources() ==> #[trigger] ks.remains_of(g, r) + (ks.constraints@[i])@[r]
            >= 0
}

impl Individual {
    /// A well-formed individual of `ks`: a total genotype over the gene
    /// universe, feasible, with its fitness up to date.
    pub open spec fn wf(&self, ks: &KnapSack) -> bool {
        &&& self.genotype@.len() == ks.n_genes()
        &&& ks.feasible(self.genotype@)
        &&& self.fitness as int == ks.value_of(self.genotype@)
    }

    /// A copy of this individual.
    pub fn duplicate(&self) -> (r: Individual)
        ensures
            r.genotype@ == self.genotype@,
            r.fitness == self.fitness,
    {
        let mut genotype: Vec<bool> = Vec::new();
        let mut i: usize = 0;
        while i < self.genotype.len()
            invariant
                i <= self.genotype@.len(),
                genotype@ == self.genotype@.take(i as int),
            decreases self.genotype@.len() - i,
        {
            genotype.push(self.genotype[i]);
            i += 1;
            assert(genotype@ =~= self.genotype@.take(i as int));
        }
        assert(genotype@ =~= self.genotype@);
        Individual { genotype, fitness: self.fitness }
    }

    fn genes_where(&self, b: bool) -> (r: Vec<usize>)
        ensures
            indices_where(self.genotype@, b, r@),
    {
        let mut r: Vec<usize> = Vec::new();
        let mut i: usize = 0;
        while i < self.genotype.len()
            invariant
                i <= self.genotype@.len(),
                forall|k: int|
                    0 <= k < r@.len() ==> r@[k] < i && self.genotype@[r@[k] as int] == b,
                forall|k: int, l: int| 0 <= k < l < r@.len() ==> r@[k] < r@[l],
                forall|j: int| 0 <= j < i && self.genotype@[j] == b ==> r@.contains(j as usize),
            decreases self.genotype@.len() - i,
        {
            let ghost r0 = r@;
            if self.genotype[i] == b {
                r.push(i);
                assert(r@[r@.len() - 1] == i);
            }
            proof {
                assert forall|j: int| 0 <= j < i + 1 && self.genotype@[j] == b implies r@.contains(
                    j as usize,
                ) by {
                    if j < i {
                        let k = choose|k: int| 0 <= k < r0.len() && r0[k] == j as usize;
                        assert(r@[k] == j as usize);
                    } else {
                        assert(r@[r@.len() - 1] == j as usize);
                    }
                }
            }
            i += 1;
        }
        r
    }

    /// Indices of the active genes, in increasing order.
    pub fn active_genes(&self) -> (r: Vec<usize>)
        ensures
            indices_where(self.genotype@, true, r@),
    {
        self.genes_where(true)
    }

    /// Indices of the inactive genes, in increasing order.
    pub fn inactive_genes(&self) -> (r: Vec<usize>)
        ensures
            indices_where(self.genotype@, false, r@),
    {
        self.genes_where(false)
    }
}

impl KnapSack {
    /// Total value of the active genes of `indiv`.
    pub fn get_fitness(&self, indiv: &Individual) -> (r: u32)
        requires
            self.wf(),
            indiv.genotype@.len() == self.n_genes(),
        ensures
            r as int == self.value_of(indiv.genotype@),
    {
        let ghost g = indiv.genotype@;
        let ghost vals = values(self.fitness@);
        let n = indiv.genotype.len();
        let mut total: u32 = 0;
        let mut i: usize = 0;
        while i < n
            invariant
                self.wf(),
                g == indiv.genotype@,
                vals == values(self.fitness@),
                n == g.len(),
                n == self.n_genes(),
                i <= n,
                total as int == masked_sum(vals, g, i as int),
            decreases n - i,
        {
            proof {
                lemma_masked_sum_bounds(vals, g, i + 1);
                lemma_masked_sum_mono(vals, all_active(n as nat), i + 1, n as int);
            }
            if indiv.genotype[i] {
                total = total + self.fitness[i];
            }
            i += 1;
        }
        total
    }

    /// Each resource's amount, less (`spend`) or plus (`!spend`) what the
    /// active genes of `indiv` consume of it, in the order of the resources.
    fn adjusted_amounts(&self, indiv: &Individual, spend: bool) -> (r: Vec<i64>)
        requires
            self.wf(),
            indiv.genotype@.len() == self.n_genes(),
        ensures
            r@.len() == self.n_resources(),
            forall|j: int|
                0 <= j < self.n_resources() ==> #[trigger] r@[j] as int == if spend {
                    self.remains_of(indiv.genotype@, j)
                } else {
                    self.resources@[j].amount + self.used(indiv.genotype@, j)
                },
    {
        let ghost g = indiv.genotype@;
        let n = indiv.genotype.len();
        let mut out: Vec<i64> = Vec::new();
        let mut r: usize = 0;
        while r < self.resources.len()
            invariant
                self.wf(),
                g == indiv.genotype@,
                n == g.len(),
                n == self.n_genes(),
                r <= self.n_resources(),
                out@.len() == r,
                forall|j: int|
                    0 <= j < r ==> #[trigger] out@[j] as int == if spend {
                        self.remains_of(g, j)
                    } else {
                        self.resources@[j].amount + self.used(g, j)
                    },
            decreases self.n_resources() - r,
        {
            let ghost col = cost_column(self.constraints@, r as int);
            let amount = self.resources[r].amount;
            let mut acc: i64 = amount;
            let mut i: usize = 0;
            proof {
                assert(forall|k: int| 0 <= k < col.len() ==> col[k] >= 0);
                assert(amount + self.total_cost(r as int) <= i64::MAX);
                lemma_masked_sum_bounds(col, g, n as int);
            }
            while i < n
                invariant
                    self.wf(),
                    g == indiv.genotype@,
                    n == g.len(),
                    n == self.n_genes(),
                    r < self.n_resources(),
                    col == cost_column(self.constraints@, r as int),
                    amount == self.resources@[r as int].amount,
                    0 <= amount,
                    amount + masked_sum(col, all_active(n as nat), n as int) <= i64::MAX,
                    i <= n,
                    acc == if spend {
                        amount - masked_sum(col, g, i as int)
                    } else {
                        amount + masked_sum(col, g, i as int)
                    },
                decreases n - i,
            {
                proof {
                    assert(forall|k: int| 0 <= k < col.len() ==> col[k] >= 0);
                    lemma_masked_sum_bounds(col, g, i + 1);
                    lemma_masked_sum_mono(col, all_active(n as nat), i + 1, n as int);
                }
                if indiv.genotype[i] {
                    if spend {
                        acc = acc - self.constraints[i][r] as i64;
                    } else {
                        acc = acc + self.constraints[i][r] as i64;
                    }
                }
                i += 1;
            }
            out.push(acc);
            r += 1;
        }
        out
    }

    /// What is left of each resource once the active genes of `indiv` are
    /// paid for, in the order of the resources.
    fn remaining_amounts(&self, indiv: &Individual) -> (r: Vec<i64>)
        requires
            self.wf(),
            indiv.genotype@.len() == self.n_genes(),
        ensures
            r@.len() == self.n_resources(),
            forall|j: int|
                0 <= j < self.n_resources() ==> #[trigger] r@[j] as int == self.remains_of(
                    indiv.genotype@,
                    j,
                ),
    {
        self.adjusted_amounts(indiv, true)
    }

    /// The resources, with `amounts` in place of their amounts.
    fn with_amounts(&self, amounts: &Vec<i64>) -> (r: Vec<Resource>)
        requires
            amounts@.len() == self.n_resources(),
        ensures
            r@.len() == self.n_resources(),
            forall|j: int|
                0 <= j < self.n_resources() ==> {
                    let (a, b) = (#[trigger] r@[j], self.resources@[j]);
                    a.id == b.id && a.title == b.title && a.amount == amounts@[j]
                },
    {
        let mut out: Vec<Resource> = Vec::new();
        let mut j: usize = 0;
        while j < self.resources.len()
            invariant
                j <= self.n_resources(),
                amounts@.len() == self.n_resources(),
                out@.len() == j,
                forall|k: int|
                    0 <= k < j ==> {
                        let (a, b) = (#[trigger] out@[k], self.resources@[k]);
                        a.id == b.id && a.title == b.title && a.amount == amounts@[k]
                    },
            decreases self.n_resources() - j,
        {
            let res = &self.resources[j];
            out.push(Resource { id: res.id.clone(), title: res.title.clone(), amount: amounts[j] });
            j += 1;
        }
        out
    }

    /// Every resource with what is left of it once the active genes of
    /// `indiv` are paid for.
    pub fn remains(&self, indiv: &Individual) -> (r: Vec<Resource>)
        requires
            self.wf(),
            indiv.genotype@.len() == self.n_genes(),
        ensures
            r@.len() == self.n_resources(),
            forall|j: int|
                0 <= j < self.n_resources() ==> {
                    let (a, b) = (#[trigger] r@[j], self.resources@[j]);
                    a.id == b.id && a.title == b.title && a.amount as int == self.remains_of(
                        indiv.genotype@,
                        j,
                    )
                },
    {
        let amounts = self.adjusted_amounts(indiv, true);
        self.with_amounts(&amounts)
    }

    /// Every resource with its amount raised by what the active genes of
    /// `indiv` consume of it.
    pub fn required(&self, indiv: &Individual) -> (r: Vec<Resource>)
        requires
            self.wf(),
            indiv.genotype@.len() == self.n_genes(),
        ensures
            r@.len() == self.n_resources(),
            forall|j: int|
                0 <= j < self.n_resources() ==> {
                    let (a, b) = (#[trigger] r@[j], self.resources@[j]);
                    a.id == b.id && a.title == b.title && a.amount as int == b.amount + self.used(
                        indiv.genotype@,
                        j,
                    )
                },
    {
        let amounts = self.adjusted_amounts(indiv, false);
        self.with_amounts(&amounts)
    }

    /// Whether `indiv` exceeds no resource budget.
    pub fn validate(&self, indiv: &Individual) -> (b: bool)
        requires
            self.wf(),
            indiv.genotype@.len() == self.n_genes(),
        ensures
            b == self.feasible(indiv.genotype@),
    {
        let rem = self.remaining_amounts(indiv);
        let mut j: usize = 0;
        while j < rem.len()
            invariant
                rem@.len() == self.n_resources(),
                forall|k: int|
                    0 <= k < self.n_resources() ==> #[trigger] rem@[k] as int == self.remains_of(
                        indiv.genotype@,
                        k,
                    ),
                j <= rem@.len(),
                forall|k: int| 0 <= k < j ==> self.remains_of(indiv.genotype@, k) >= 0,
            decreases rem@.len() - j,
        {
            if rem[j] < 0 {
                assert(self.remains_of(indiv.genotype@, j as int) < 0);
                return false;
            }
            j += 1;
        }
        true
    }

    /// Whether switching gene `i` on leaves every remainder in `rem` positive.
    fn can_add(&self, rem: &Vec<i64>, i: usize) -> (b: bool)
        requires
            self.wf(),
            i < self.n_genes(),
            rem@.len() == self.n_resources(),
        ensures
            b == forall|r: int|
                0 <= r < self.n_resources() ==> rem@[r] > #[trigger] (self.constraints@[i as int])@[r],
    {
        let mut r: usize = 0;
        while r < rem.len()
            invariant
                self.wf(),
                i < self.n_genes(),
                rem@.len() == self.n_resources(),
                r <= rem@.len(),
                forall|k: int| 0 <= k < r ==> rem@[k] > #[trigger] (self.constraints@[i as int])@[k],
            decreases rem@.len() - r,
        {
            if rem[r] <= self.constraints[i][r] as i64 {
                return false;
            }
            r += 1;
        }
        true
    }

    /// Whether switching gene `i` off leaves every remainder in `rem` non-negative.
    fn can_remove(&self, rem: &Vec<i64>, i: usize) -> (b: bool)
        requires
            self.wf(),
            i < self.n_genes(),
            rem@.len() == self.n_resources(),
        ensures
            b == forall|r: int|
                0 <= r < self.n_resources() ==> rem@[r] + #[trigger] (self.constraints@[i as int])@[r]
                    >= 0,
    {
        let mut r: usize = 0;
        while r < rem.len()
            invariant
                self.wf(),
                i < self.n_genes(),
                rem@.len() == self.n_resources(),
                r <= rem@.len(),
                forall|k: int|
                    0 <= k < r ==> rem@[k] + #[trigger] (self.constraints@[i as int])@[k] >= 0,
            decreases rem@.len() - r,
        {
            if (rem[r] as i128) + (self.constraints[i][r] as i128) < 0 {
                return false;
            }
            r += 1;
        }
        true
    }
}

impl Individual {
    /// Switches a randomly chosen active gene off; does nothing when no gene
    /// is active.
    fn rand_mutate_down(&mut self, rng: &mut StdRng) -> (changed: bool)
        ensures
            final(self).fitness == old(self).fitness,
            changed ==> switched_off(old(self).genotype@, final(self).genotype@),
            !changed ==> final(self).genotype@ == old(self).genotype@ && forall|i: int|
                0 <= i < old(self).genotype@.len() ==> !old(self).genotype@[i],
    {
        let keys = self.active_genes();
        if keys.len() > 0 {
            let pick = draw_below(rng, keys.len() as u64) as usize;
            let i = keys[pick];
            self.genotype.set(i, false);
            true
        } else {
            proof {
                assert forall|i: int|
                    0 <= i < old(self).genotype@.len() implies !old(self).genotype@[i] by {
                    if old(self).genotype@[i] {
                        assert(keys@.contains(i as usize));
                    }
                }
            }
            false
        }
    }

    /// Picks a random inactive gene and writes `ks.rand_up_activates` to it.
    fn rand_mutate_up(&mut self, ks: &KnapSack, rng: &mut StdRng)
        ensures
            final(self).fitness == old(self).fitness,
            switched_on(old(self).genotype@, final(self).genotype@) || final(self).genotype@
                == old(self).genotype@,
            !ks.rand_up_activates ==> final(self).genotype@ == old(self).genotype@,
            ks.rand_up_activates && (exists|i: int|
                0 <= i < old(self).genotype@.len() && !#[trigger] old(self).genotype@[i])
                ==> switched_on(old(self).genotype@, final(self).genotype@),
    {
        let keys = self.inactive_genes();
        if keys.len() > 0 {
            let pick = draw_below(rng, keys.len() as u64) as usize;
            let i = keys[pick];
            self.genotype.set(i, ks.rand_up_activates);
            assert(!ks.rand_up_activates ==> self.genotype@ =~= old(self).genotype@);
        } else {
            proof {
                if exists|i: int| 0 <= i < old(self).genotype@.len() && !#[trigger] old(self).genotype@[i] {
                    let i = choose|i: int|
                        0 <= i < old(self).genotype@.len() && !#[trigger] old(self).genotype@[i];
                    assert(keys@.contains(i as usize));
                }
            }
        }
    }

    /// Switches on a random inactive gene that every resource can still pay
    /// for with some to spare; does nothing when there is none.
    fn focused_mutate_up(&mut self, ks: &KnapSack, rng: &mut StdRng)
        requires
            ks.wf(),
            old(self).genotype@.len() == ks.n_genes(),
        ensures
            final(self).fitness == old(self).fitness,
            (exists|i: int| can_on(ks, old(self).genotype@, i)) ==> exists|i: int|
                can_on(ks, old(self).genotype@, i) && final(self).genotype@ == old(
                    self,
                ).genotype@.update(i, true),
            !(exists|i: int| can_on(ks, old(self).genotype@, i)) ==> final(self).genotype@ == old(
                self,
            ).genotype@,
            ks.feasible(old(self).genotype@) ==> ks.feasible(final(self).genotype@),
    {
        let ghost g = self.genotype@;
        let n = self.genotype.len();
        let keys = self.inactive_genes();
        let rem = ks.remaining_amounts(self);
        let mut opts: Vec<usize> = Vec::new();
        let mut k: usize = 0;
        while k < keys.len()
            invariant
                ks.wf(),
                g == self.genotype@,
                g.len() == ks.n_genes(),
                indices_where(g, false, keys@),
                rem@.len() == ks.n_resources(),
                forall|j: int|
                    0 <= j < ks.n_resources() ==> #[trigger] rem@[j] as int == ks.remains_of(g, j),
                k <= keys@.len(),
                forall|m: int| 0 <= m < opts@.len() ==> can_on(ks, g, #[trigger] opts@[m] as int),
                forall|m: int|
                    0 <= m < k && can_on(ks, g, #[trigger] keys@[m] as int) ==> opts@.contains(
                        keys@[m],
                    ),
            decreases keys@.len() - k,
        {
            let ghost o0 = opts@;
            if ks.can_add(&rem, keys[k]) {
                opts.push(keys[k]);
            }
            proof {
                assert forall|m: int|
                    0 <= m < k + 1 && can_on(ks, g, #[trigger] keys@[m] as int) implies opts@.contains(
                    keys@[m],
                ) by {
                    if m < k {
                        let x = choose|x: int| 0 <= x < o0.len() && o0[x] == keys@[m];
                        assert(opts@[x] == keys@[m]);
                    } else {
                        assert(opts@[opts@.len() - 1] == keys@[m]);
                    }
                }
            }
            k += 1;
        }
        proof {
            if exists|i: int| can_on(ks, g, i) {
                let i = choose|i: int| can_on(ks, g, i);
                assert(i < n);
                assert(keys@.contains(i as usize));
                let m = choose|m: int| 0 <= m < keys@.len() && keys@[m] == i as usize;
                assert(keys@[m] as int == i);
                assert(can_on(ks, g, keys@[m] as int));
                assert(opts@.contains(keys@[m]));
            }
        }
        if opts.len() > 0 {
            let pick = draw_below(rng, opts.len() as u64) as usize;
            let i = opts[pick];
            assert(can_on(ks, g, i as int));
            self.genotype.set(i, true);
            proof {
                assert forall|r: int| 0 <= r < ks.n_resources() implies #[trigger] ks.remains_of(
                    self.genotype@,
                    r,
                ) >= 0 by {
                    lemma_masked_sum_update(
                        cost_column(ks.constraints@, r),
                        g,
                        i as int,
                        true,
                        g.len() as int,
                    );
                    assert(ks.remains_of(g, r) > (ks.constraints@[i as int])@[r]);
                }
            }
        }
    }

    /// Switches off a random active gene whose removal leaves no remainder
    /// negative; does nothing when there is none.
    fn focused_mutate_down(&mut self, ks: &KnapSack, rng: &mut StdRng) -> (changed: bool)
        requires
            ks.wf(),
            old(self).genotype@.len() == ks.n_genes(),
        ensures
            final(self).fitness == old(self).fitness,
            changed <==> exists|i: int| can_off(ks, old(self).genotype@, i),
            changed ==> exists|i: int|
                can_off(ks, old(self).genotype@, i) && final(self).genotype@ == old(
                    self,
                ).genotype@.update(i, false),
            !changed ==> final(self).genotype@ == old(self).genotype@,
    {
        let ghost g = self.genotype@;
        let n = self.genotype.len();
        let keys = self.active_genes();
        let rem = ks.remaining_amounts(self);
        let mut opts: Vec<usize> = Vec::new();
        let mut k: usize = 0;
        while k < keys.len()
            invariant
                ks.wf(),
                g == self.genotype@,
                g.len() == ks.n_genes(),
                indices_where(g, true, keys@),
                rem@.len() == ks.n_resources(),
                forall|j: int|
                    0 <= j < ks.n_resources() ==> #[trigger] rem@[j] as int == ks.remains_of(g, j),
                k <= keys@.len(),
                forall|m: int| 0 <= m < opts@.len() ==> can_off(ks, g, #[trigger] opts@[m] as int),
                forall|m: int|
                    0 <= m < k && can_off(ks, g, #[trigger] keys@[m] as int) ==> opts@.contains(
                        keys@[m],
                    ),
            decreases keys@.len() - k,
        {
            let ghost o0 = opts@;
            if ks.can_remove(&rem, keys[k]) {
                opts.push(keys[k]);
            }
            proof {
                assert forall|m: int|
                    0 <= m < k + 1 && can_off(ks, g, #[trigger] keys@[m] as int) implies opts@.contains(
                    keys@[m],
                ) by {
                    if m < k {
                        let x = choose|x: int| 0 <= x < o0.len() && o0[x] == keys@[m];
                        assert(opts@[x] == keys@[m]);
                    } else {
                        assert(opts@[opts@.len() - 1] == keys@[m]);
                    }
                }
            }
            k += 1;
        }
        proof {
            if exists|i: int| can_off(ks, g, i) {
                let i = choose|i: int| can_off(ks, g, i);
                assert(i < n);
                assert(keys@.contains(i as usize));
                let m = choose|m: int| 0 <= m < keys@.len() && keys@[m] == i as usize;
                assert(keys@[m] as int == i);
                assert(can_off(ks, g, keys@[m] as int));
                assert(opts@.contains(keys@[m]));
            }
        }
        if opts.len() > 0 {
            let pick = draw_below(rng, opts.len() as u64) as usize;
            let i = opts[pick];
            assert(can_off(ks, g, i as int));
            self.genotype.set(i, false);
            true
        } else {
            false
        }
    }

    /// With chance one in four a random upward mutation, otherwise a focused
    /// one.
    pub fn mutate_up(&mut self, ks: &KnapSack, rng: &mut StdRng)
        requires
            ks.wf(),
            old(self).genotype@.len() == ks.n_genes(),
        ensures
            final(self).fitness == old(self).fitness,
            switched_on(old(self).genotype@, final(self).genotype@) || final(self).genotype@
                == old(self).genotype@,
            ks.rand_up_activates && (exists|i: int| can_on(ks, old(self).genotype@, i))
                ==> switched_on(old(self).genotype@, final(self).genotype@),
            !ks.rand_up_activates ==> final(self).genotype@ == old(self).genotype@ || exists|i: int|
                can_on(ks, old(self).genotype@, i) && final(self).genotype@ == old(
                    self,
                ).genotype@.update(i, true),
            !ks.rand_up_activates && ks.feasible(old(self).genotype@) ==> ks.feasible(
                final(self).genotype@,
            ),
    {
        let a = draw_bool(rng);
        let b = draw_bool(rng);
        if a && b {
            self.rand_mutate_up(ks, rng);
        } else {
            self.focused_mutate_up(ks, rng);
            proof {
                if exists|i: int| can_on(ks, old(self).genotype@, i) {
                    let i = choose|i: int|
                        can_on(ks, old(self).genotype@, i) && self.genotype@ == old(
                            self,
                        ).genotype@.update(i, true);
                    assert(switched_on(old(self).genotype@, self.genotype@));
                }
            }
        }
        proof {
            if exists|i: int| can_on(ks, old(self).genotype@, i) {
                let i = choose|i: int| can_on(ks, old(self).genotype@, i);
                assert(!old(self).genotype@[i]);
            }
        }
    }

    /// With chance one in four a random downward mutation, otherwise a
    /// focused one.
    pub fn mutate_down(&mut self, ks: &KnapSack, rng: &mut StdRng)
        requires
            ks.wf(),
            old(self).genotype@.len() == ks.n_genes(),
        ensures
            final(self).fitness == old(self).fitness,
            switched_off(old(self).genotype@, final(self).genotype@) || final(self).genotype@
                == old(self).genotype@,
            (exists|i: int| can_off(ks, old(self).genotype@, i)) ==> switched_off(
                old(self).genotype@,
                final(self).genotype@,
            ),
    {
        self.step_down(ks, rng);
    }

    /// `mutate_down`, telling whether it switched a gene off.
    fn step_down(&mut self, ks: &KnapSack, rng: &mut StdRng) -> (changed: bool)
        requires
            ks.wf(),
            old(self).genotype@.len() == ks.n_genes(),
        ensures
            final(self).fitness == old(self).fitness,
            changed ==> switched_off(old(self).genotype@, final(self).genotype@),
            !changed ==> final(self).genotype@ == old(self).genotype@,
            (exists|i: int| can_off(ks, old(self).genotype@, i)) ==> changed,
    {
        let a = draw_bool(rng);
        let b = draw_bool(rng);
        if a && b {
            proof {
                if exists|i: int| can_off(ks, old(self).genotype@, i) {
                    let i = choose|i: int| can_off(ks, old(self).genotype@, i);
                    assert(old(self).genotype@[i]);
                }
            }
            self.rand_mutate_down(rng)
        } else {
            self.focused_mutate_down(ks, rng)
        }
    }

    /// A random individual: each gene drawn by a fair coin, then repaired.
    pub fn new(problem: &KnapSack, rng: &mut StdRng) -> (r: Individual)
        requires
            problem.wf(),
        ensures
            r.wf(problem),
    {
        let n = problem.fitness.len();
        let mut genotype: Vec<bool> = Vec::new();
        let mut i: usize = 0;
        while i < n
            invariant
                i <= n,
                genotype@.len() == i,
            decreases n - i,
        {
            genotype.push(draw_bool(rng));
            i += 1;
        }
        problem.make_valid(Individual { genotype, fitness: 0 }, rng)
    }
}

impl KnapSack {
    /// Switches genes off until `indiv` is feasible, then brings its fitness
    /// up to date. Each round applies a downward mutation; a round in which
    /// that changes nothing switches off a random active gene instead, so
    /// that every round makes progress.
    pub fn make_valid(&self, indiv: Individual, rng: &mut StdRng) -> (r: Individual)
        requires
            self.wf(),
            indiv.genotype@.len() == self.n_genes(),
        ensures
            r.wf(self),
            forall|i: int| 0 <= i < self.n_genes() && r.genotype@[i] ==> indiv.genotype@[i],
            self.feasible(indiv.genotype@) ==> r.genotype@ == indiv.genotype@,
            !self.feasible(indiv.genotype@) ==> exists|i: int|
                0 <= i < self.n_genes() && indiv.genotype@[i] && !r.genotype@[i] && !self.feasible(
                    #[trigger] r.genotype@.update(i, true),
                ),
    {
        let mut cur = indiv;
        while !self.validate(&cur)
            invariant
                self.wf(),
                cur.genotype@.len() == self.n_genes(),
                forall|i: int|
                    0 <= i < self.n_genes() && cur.genotype@[i] ==> indiv.genotype@[i],
                self.feasible(indiv.genotype@) ==> cur.genotype@ == indiv.genotype@,
                !self.feasible(indiv.genotype@) ==> cur.genotype@ == indiv.genotype@ || exists|i: int|
                    0 <= i < self.n_genes() && indiv.genotype@[i] && !cur.genotype@[i]
                        && !self.feasible(#[trigger] cur.genotype@.update(i, true)),
            decreases active_count(cur.genotype@),
        {
            let ghost before = cur.genotype@;
            let changed = cur.step_down(self, rng);
            if !changed {
                cur.rand_mutate_down(rng);
                proof {
                    if forall|i: int| 0 <= i < before.len() ==> !before[i] {
                        assert forall|r: int| 0 <= r < self.n_resources() implies #[trigger] self.remains_of(
                            before,
                            r,
                        ) >= 0 by {
                            lemma_none_active(cost_column(self.constraints@, r), before, before.len() as int);
                        }
                    }
                }
            }
            proof {
                assert(!self.feasible(before));
                assert(switched_off(before, cur.genotype@));
                let i = choose|i: int| 0 <= i < before.len() && before[i] && cur.genotype@ == before.update(i, false);
                lemma_masked_sum_update(ones(before.len()), before, i, false, before.len() as int);
                lemma_masked_sum_bounds(ones(before.len()), before, before.len() as int);
                lemma_masked_sum_bounds(ones(before.len()), cur.genotype@, before.len() as int);
                assert(cur.genotype@.update(i, true) =~= before);
            }
        }
        let ghost last = cur.genotype@;
        proof {
            if !self.feasible(indiv.genotype@) {
                assert(self.feasible(last));
                assert(last != indiv.genotype@);
            }
        }
        cur.fitness = self.get_fitness(&cur);
        assert(cur.genotype@ == last);
        cur
    }
}

} // verus!
