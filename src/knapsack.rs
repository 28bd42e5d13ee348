//! The knapsack context: the problem model together with the gene tables that
//! the binary decomposition of each product's quantity produces.
use crate::model::{Product, Requirement, Resource};
use vstd::prelude::*;

verus! {

/// `2^k`.
pub open spec fn pow2(k: nat) -> nat
    decreases k,
{
    if k == 0 {
        1
    } else {
        2 * pow2((k - 1) as nat)
    }
}

/// `ceil(log2(m))`, taken as 0 for `m <= 1`.
pub open spec fn ceil_log2(m: int) -> nat
    decreases m,
{
    if m <= 1 {
        0
    } else {
        1 + ceil_log2((m + 1) / 2)
    }
}

/// Number of genes of a product whose quantity ranges over `0..=m`:
/// `ceil(log2(m))`, plus one when `m` is itself a power of two.
pub open spec fn gene_count(m: int) -> nat {
    let k = ceil_log2(m);
    if pow2(k) == m {
        k + 1
    } else {
        k
    }
}

/// One boolean decision: include `2^power` units of product number `product`.
#[derive(Clone, Copy, Debug, PartialEq, Eq, Structural)]
pub struct Gene {
    pub product: usize,
    pub power: u32,
}

/// The genes of product `p`: powers `0 .. k`.
pub open spec fn product_genes(p: int, k: nat) -> Seq<Gene> {
    Seq::new(k, |c: int| Gene { product: p as usize, power: c as u32 })
}

/// The gene universe of products whose maxima are `maxes`, product by product.
pub open spec fn gene_plan(maxes: Seq<u32>) -> Seq<Gene>
    decreases maxes.len(),
{
    if maxes.len() == 0 {
        seq![]
    } else {
        gene_plan(maxes.drop_last()) + product_genes(
            maxes.len() - 1,
            gene_count(maxes.last() as int),
        )
    }
}

/// Index of the first resource from `i` on whose id is `id`, or -1.
pub open spec fn resource_index_from(res: Seq<Resource>, id: Seq<char>, i: int) -> int
    decreases res.len() - i,
{
    if i < 0 || i >= res.len() {
        -1
    } else if res[i].id@ == id {
        i
    } else {
        resource_index_from(res, id, i + 1)
    }
}

/// Amount of the first requirement from `i` on that names resource `id`, or 0.
pub open spec fn requirement_amount_from(reqs: Seq<Requirement>, id: Seq<char>, i: int) -> int
    decreases reqs.len() - i,
{
    if i < 0 || i >= reqs.len() {
        0
    } else if reqs[i].id@ == id {
        reqs[i].amount as int
    } else {
        requirement_amount_from(reqs, id, i + 1)
    }
}

/// How many units of a product requirement `q` alone lets the resources supply.
pub open spec fn capacity(res: Seq<Resource>, q: Requirement) -> int {
    let j = resource_index_from(res, q.id@, 0);
    if j < 0 || q.amount == 0 {
        0
    } else {
        res[j].amount as int / q.amount as int
    }
}

/// The least capacity over the requirements with a positive amount, if any.
pub open spec fn min_capacity(res: Seq<Resource>, reqs: Seq<Requirement>) -> Option<int>
    decreases reqs.len(),
{
    if reqs.len() == 0 {
        None
    } else {
        let prev = min_capacity(res, reqs.drop_last());
        let q = reqs.last();
        if q.amount == 0 {
            prev
        } else {
            let c = capacity(res, q);
            match prev {
                None => Some(c),
                Some(m) => Some(
                    if c < m {
                        c
                    } else {
                        m
                    },
                ),
            }
        }
    }
}

/// Sum of `v[i]` over the indices `i < n` that `g` marks active.
pub open spec fn masked_sum(v: Seq<int>, g: Seq<bool>, n: int) -> int
    decreases n,
{
    if n <= 0 {
        0
    } else {
        masked_sum(v, g, n - 1) + if g[n - 1] {
            v[n - 1]
        } else {
            0
        }
    }
}

/// The cost of each gene on resource `r`.
pub open spec fn cost_column(c: Seq<Vec<u32>>, r: int) -> Seq<int> {
    Seq::new(c.len(), |i: int| c[i]@[r] as int)
}

/// The values of a table, as integers.
pub open spec fn values(f: Seq<u32>) -> Seq<int> {
    Seq::new(f.len(), |i: int| f[i] as int)
}

/// A genotype of `n` genes, all of them active.
pub open spec fn all_active(n: nat) -> Seq<bool> {
    Seq::new(n, |i: int| true)
}

/// One for every gene.
pub open spec fn ones(n: nat) -> Seq<int> {
    Seq::new(n, |i: int| 1int)
}

/// Number of active genes among the first `g.len()`.
pub open spec fn active_count(g: Seq<bool>) -> int {
    masked_sum(ones(g.len()), g, g.len() as int)
}

pub proof fn lemma_masked_sum_bounds(v: Seq<int>, g: Seq<bool>, n: int)
    requires
        0 <= n <= v.len(),
        n <= g.len(),
        forall|i: int| 0 <= i < v.len() ==> v[i] >= 0,
    ensures
        0 <= masked_sum(v, g, n) <= masked_sum(v, all_active(g.len()), n),
    decreases n,
{
    if n > 0 {
        lemma_masked_sum_bounds(v, g, n - 1);
    }
}

pub proof fn lemma_masked_sum_update(v: Seq<int>, g: Seq<bool>, i: int, b: bool, n: int)
    requires
        0 <= i < g.len(),
        0 <= n <= g.len(),
    ensures
        masked_sum(v, g.update(i, b), n) == masked_sum(v, g, n) + if i < n {
            (if b {
                v[i]
            } else {
                0
            }) - (if g[i] {
                v[i]
            } else {
                0
            })
        } else {
            0
        },
    decreases n,
{
    if n > 0 {
        lemma_masked_sum_update(v, g, i, b, n - 1);
    }
}

pub proof fn lemma_masked_sum_mono(v: Seq<int>, g: Seq<bool>, m: int, n: int)
    requires
        0 <= m <= n <= v.len(),
        n <= g.len(),
        forall|i: int| 0 <= i < v.len() ==> v[i] >= 0,
    ensures
        masked_sum(v, g, m) <= masked_sum(v, g, n),
    decreases n - m,
{
    if m < n {
        lemma_masked_sum_mono(v, g, m, n - 1);
    }
}

pub proof fn lemma_pow2_above(k: nat)
    ensures
        pow2(k) > k,
    decreases k,
{
    if k > 0 {
        lemma_pow2_above((k - 1) as nat);
    }
}

/// Computes `ceil(log2(m))` together with `2^ceil(log2(m))`.
fn ceil_log2_exec(m: u64) -> (r: (u32, u64))
    requires
        m <= u32::MAX,
    ensures
        r.0 as int == ceil_log2(m as int),
        r.1 as int == pow2(r.0 as nat),
        m <= 1 ==> r.1 == 1,
        m >= 2 ==> m <= r.1 <= 2 * m - 2,
    decreases m,
{
    if m <= 1 {
        (0, 1)
    } else {
        let (k, p) = ceil_log2_exec((m + 1) / 2);
        proof {
            lemma_pow2_above(k as nat);
        }
        (k + 1, 2 * p)
    }
}

/// Number of genes of a product with maximum `m`.
pub fn gene_count_exec(m: u32) -> (n: u32)
    ensures
        n as int == gene_count(m as int),
{
    let (k, p) = ceil_log2_exec(m as u64);
    proof {
        lemma_pow2_above(k as nat);
    }
    if p == m as u64 {
        k + 1
    } else {
        k
    }
}

/// Index of the first resource named `id`.
fn resource_index(res: &Vec<Resource>, id: &String) -> (r: Option<usize>)
    ensures
        resource_index_from(res@, id@, 0) == match r {
            Some(j) => j as int,
            None => -1,
        },
        r matches Some(j) ==> j < res@.len(),
{
    let mut i: usize = 0;
    while i < res.len()
        invariant
            i <= res@.len(),
            resource_index_from(res@, id@, 0) == resource_index_from(res@, id@, i as int),
        decreases res@.len() - i,
    {
        if res[i].id == *id {
            return Some(i);
        }
        i += 1;
    }
    None
}

/// Amount of the first requirement that names resource `id`, or 0.
fn requirement_amount(reqs: &Vec<Requirement>, id: &String) -> (r: u32)
    ensures
        r as int == requirement_amount_from(reqs@, id@, 0),
{
    let mut i: usize = 0;
    while i < reqs.len()
        invariant
            i <= reqs@.len(),
            requirement_amount_from(reqs@, id@, 0) == requirement_amount_from(
                reqs@,
                id@,
                i as int,
            ),
        decreases reqs@.len() - i,
    {
        if reqs[i].id == *id {
            return reqs[i].amount;
        }
        i += 1;
    }
    0
}

/// The least capacity over the requirements with a positive amount.
fn product_max(res: &Vec<Resource>, reqs: &Vec<Requirement>) -> (r: Option<u64>)
    requires
        forall|j: int| 0 <= j < res@.len() ==> 0 <= #[trigger] res@[j].amount,
    ensures
        min_capacity(res@, reqs@) == match r {
            Some(m) => Some(m as int),
            None => None,
        },
{
    let mut cur: Option<u64> = None;
    let mut i: usize = 0;
    while i < reqs.len()
        invariant
            i <= reqs@.len(),
            forall|j: int| 0 <= j < res@.len() ==> 0 <= #[trigger] res@[j].amount,
            min_capacity(res@, reqs@.subrange(0, i as int)) == match cur {
                Some(m) => Some(m as int),
                None => None,
            },
        decreases reqs@.len() - i,
    {
        let q = &reqs[i];
        assert(reqs@.subrange(0, i + 1).drop_last() =~= reqs@.subrange(0, i as int));
        if q.amount > 0 {
            let c: u64 = match resource_index(res, &q.id) {
                None => 0,
                Some(j) => (res[j].amount as u64) / (q.amount as u64),
            };
            cur = match cur {
                None => Some(c),
                Some(m) => Some(
                    if c < m {
                        c
                    } else {
                        m
                    },
                ),
            };
        }
        i += 1;
    }
    assert(reqs@.subrange(0, reqs@.len() as int) =~= reqs@);
    cur
}

pub proof fn lemma_pow2_mono(j: nat, k: nat)
    requires
        j <= k,
    ensures
        pow2(j) <= pow2(k),
    decreases k,
{
    if j < k {
        lemma_pow2_mono(j, (k - 1) as nat);
    }
}

pub proof fn lemma_pow2_32()
    ensures
        pow2(32) == 0x1_0000_0000,
{
    reveal_with_fuel(pow2, 33);
}

pub proof fn lemma_ceil_log2_le(m: int, j: nat)
    requires
        0 <= m <= pow2(j),
    ensures
        ceil_log2(m) <= j,
    decreases j,
{
    if m > 1 && j > 0 {
        lemma_ceil_log2_le((m + 1) / 2, (j - 1) as nat);
    }
}

/// A product with a `u32` maximum has at most 32 genes.
pub proof fn lemma_gene_count_le_32(m: u32)
    ensures
        gene_count(m as int) <= 32,
{
    lemma_pow2_32();
    lemma_ceil_log2_le(m as int, 32);
}

/// Every gene of the plan belongs to a product of it and has a power below
/// that product's gene count.
pub proof fn lemma_gene_plan_bounds(ms: Seq<u32>)
    requires
        ms.len() <= usize::MAX,
    ensures
        forall|i: int|
            0 <= i < gene_plan(ms).len() ==> {
                let g = #[trigger] gene_plan(ms)[i];
                &&& g.product < ms.len()
                &&& g.power < gene_count(ms[g.product as int] as int)
            },
    decreases ms.len(),
{
    if ms.len() > 0 {
        let init = ms.drop_last();
        lemma_gene_plan_bounds(init);
        let a = gene_plan(init);
        let b = product_genes(ms.len() - 1, gene_count(ms.last() as int));
        lemma_gene_count_le_32(ms.last());
        assert forall|i: int| 0 <= i < gene_plan(ms).len() implies {
            let g = #[trigger] gene_plan(ms)[i];
            &&& g.product < ms.len()
            &&& g.power < gene_count(ms[g.product as int] as int)
        } by {
            if i < a.len() {
                assert(gene_plan(ms)[i] == a[i]);
                assert(ms[a[i].product as int] == init[a[i].product as int]);
            } else {
                let c = i - a.len();
                assert(gene_plan(ms)[i] == b[c]);
                assert(b[c].product as int == ms.len() - 1);
                assert(b[c].power as int == c);
            }
        }
    }
}

/// The decomposition of the first `q` maxima is a prefix of that of all.
pub proof fn lemma_gene_plan_prefix(ms: Seq<u32>, q: int)
    requires
        0 <= q <= ms.len(),
    ensures
        gene_plan(ms.take(q)).len() <= gene_plan(ms).len(),
        forall|k: int|
            0 <= k < gene_plan(ms.take(q)).len() ==> #[trigger] gene_plan(ms)[k] == gene_plan(
                ms.take(q),
            )[k],
    decreases ms.len(),
{
    if q == ms.len() {
        assert(ms.take(q) =~= ms);
    } else {
        let init = ms.drop_last();
        lemma_gene_plan_prefix(init, q);
        assert(init.take(q) =~= ms.take(q));
    }
}

/// Gene `c` of product `p` stands in the decomposition right after the genes
/// of the products before `p`.
pub proof fn lemma_gene_at(ms: Seq<u32>, p: int, c: int)
    requires
        0 <= p < ms.len() <= usize::MAX,
        0 <= c < gene_count(ms[p] as int),
        c <= u32::MAX,
    ensures
        gene_plan(ms.take(p)).len() + c < gene_plan(ms).len(),
        gene_plan(ms)[gene_plan(ms.take(p)).len() + c] == (Gene { product: p as usize, power: c as u32 }),
{
    let q = ms.take(p + 1);
    assert(q.drop_last() =~= ms.take(p));
    lemma_gene_plan_prefix(ms, p + 1);
    let i0 = gene_plan(ms.take(p)).len() + c;
    assert(gene_plan(q)[i0] == product_genes(p, gene_count(ms[p] as int))[c]);
}

/// The maxima that the requirements give, where they are defined.
pub open spec fn capacities(res: Seq<Resource>, prods: Seq<Product>) -> Seq<int> {
    Seq::new(
        prods.len(),
        |p: int|
            match min_capacity(res, prods[p].requirements@) {
                Some(m) => m,
                None => 0,
            },
    )
}

/// The capacities, as `u32` maxima.
pub open spec fn capped_maxima(res: Seq<Resource>, prods: Seq<Product>) -> Seq<u32> {
    Seq::new(prods.len(), |p: int| capacities(res, prods)[p] as u32)
}

/// Cost on resource `r` of gene `g` of the decomposition of `prods`.
pub open spec fn planned_cost(res: Seq<Resource>, prods: Seq<Product>, g: Gene, r: int) -> int {
    requirement_amount_from(prods[g.product as int].requirements@, res[r].id@, 0) * pow2(
        g.power as nat,
    )
}

/// Value of gene `g` of the decomposition of `prods`.
pub open spec fn planned_value(prods: Seq<Product>, g: Gene) -> int {
    prods[g.product as int].value * pow2(g.power as nat)
}

/// The decomposition fits the tables' types: every maximum, every gene's
/// cost and value fit a `u32`; each resource plus what all genes together
/// cost of it fits an `i64`, and the value of all genes together a `u32`.
pub open spec fn decomposition_fits(res: Seq<Resource>, prods: Seq<Product>) -> bool {
    let caps = capacities(res, prods);
    let plan = gene_plan(capped_maxima(res, prods));
    let n = plan.len();
    &&& forall|p: int| 0 <= p < prods.len() ==> #[trigger] caps[p] <= u32::MAX
    &&& forall|i: int|
        0 <= i < n ==> #[trigger] planned_value(prods, plan[i]) <= u32::MAX
    &&& forall|i: int, r: int|
        0 <= i < n && 0 <= r < res.len() ==> #[trigger] planned_cost(res, prods, plan[i], r)
            <= u32::MAX
    &&& forall|r: int|
        0 <= r < res.len() ==> res[r].amount + masked_sum(
            Seq::new(n, |i: int| planned_cost(res, prods, plan[i], r)),
            all_active(n),
            n as int,
        ) <= i64::MAX
    &&& masked_sum(
        Seq::new(n, |i: int| planned_value(prods, plan[i])),
        all_active(n),
        n as int,
    ) <= u32::MAX
}

/// Why the gene tables cannot be compiled.
#[derive(Clone, Copy, Debug, PartialEq, Eq, Structural)]
pub enum CompileError {
    /// A resource holds a negative amount.
    NegativeAmount,
    /// The product with this index has no requirement with a positive
    /// amount, so its maximum quantity is unbounded.
    NoPositiveRequirement(usize),
    /// A maximum, a gene's cost or value, or a total over all genes does not
    /// fit the integer types of the tables.
    Overflow,
}

/// The knapsack context: problem model, gene universe, cost and value tables.
#[derive(Debug, Clone, Default)]
pub struct KnapSack {
    pub products: Vec<Product>,
    pub resources: Vec<Resource>,
    /// The gene universe; gene `i` has costs `constraints[i]` and value `fitness[i]`.
    pub genes: Vec<Gene>,
    /// Per gene, its cost on each resource, in the order of `resources`.
    pub constraints: Vec<Vec<u32>>,
    /// Per gene, its value.
    pub fitness: Vec<u32>,
    /// Chance per thousand crossovers that the offspring is mutated upwards.
    pub mutation_ratio: u32,
    /// Whether a random upward mutation activates the gene it picks. When
    /// false it writes `false` to an inactive gene, leaving it unchanged.
    pub rand_up_activates: bool,
}

impl KnapSack {
    pub open spec fn n_genes(&self) -> nat {
        self.fitness@.len()
    }

    pub open spec fn n_resources(&self) -> nat {
        self.resources@.len()
    }

    /// What the active genes of `g` consume of resource `r`.
    pub open spec fn used(&self, g: Seq<bool>, r: int) -> int {
        masked_sum(cost_column(self.constraints@, r), g, g.len() as int)
    }

    /// What is left of resource `r` once the active genes of `g` are paid for.
    pub open spec fn remains_of(&self, g: Seq<bool>, r: int) -> int {
        self.resources@[r].amount - self.used(g, r)
    }

    /// No resource budget is exceeded.
    pub open spec fn feasible(&self, g: Seq<bool>) -> bool {
        forall|r: int| 0 <= r < self.n_resources() ==> #[trigger] self.remains_of(g, r) >= 0
    }

    /// Total value of the active genes of `g`.
    pub open spec fn value_of(&self, g: Seq<bool>) -> int {
        masked_sum(values(self.fitness@), g, g.len() as int)
    }

    /// What all genes together would consume of resource `r`.
    pub open spec fn total_cost(&self, r: int) -> int {
        self.used(all_active(self.n_genes()), r)
    }

    /// The tables are consistent and every sum over them fits its type.
    pub open spec fn wf(&self) -> bool {
        &&& self.constraints@.len() == self.n_genes()
        &&& self.genes@.len() == self.n_genes()
        &&& forall|i: int|
            0 <= i < self.n_genes() ==> (#[trigger] self.constraints@[i])@.len()
                == self.n_resources()
        &&& forall|r: int| 0 <= r < self.n_resources() ==> 0 <= #[trigger] self.resources@[r].amount
        &&& forall|r: int|
            0 <= r < self.n_resources() ==> self.resources@[r].amount + #[trigger] self.total_cost(
                r,
            ) <= i64::MAX
        &&& self.value_of(all_active(self.n_genes())) <= u32::MAX
        &&& self.mutation_ratio <= 1000
    }

    /// The maxima of the products, in order.
    pub open spec fn maxima(&self) -> Seq<u32> {
        Seq::new(self.products@.len(), |p: int| self.products@[p].max)
    }

    /// Every product's maximum is the least capacity of its requirements.
    pub open spec fn maxima_exact(&self) -> bool {
        forall|p: int|
            0 <= p < self.products@.len() ==> min_capacity(
                self.resources@,
                #[trigger] self.products@[p].requirements@,
            ) == Some(self.products@[p].max as int)
    }

    /// Cost of gene `g` on resource `r`, from the problem model.
    pub open spec fn gene_cost(&self, g: Gene, r: int) -> int {
        requirement_amount_from(
            self.products@[g.product as int].requirements@,
            self.resources@[r].id@,
            0,
        ) * pow2(g.power as nat)
    }

    /// Value of gene `g`, from the problem model.
    pub open spec fn gene_value(&self, g: Gene) -> int {
        self.products@[g.product as int].value * pow2(g.power as nat)
    }

    /// The gene universe is the decomposition of the maxima, and the tables
    /// hold each gene's cost and value.
    pub open spec fn tables_exact(&self) -> bool {
        &&& self.genes@ == gene_plan(self.maxima())
        &&& forall|i: int|
            0 <= i < self.n_genes() ==> #[trigger] self.fitness@[i] as int == self.gene_value(
                self.genes@[i],
            )
        &&& forall|i: int, r: int|
            0 <= i < self.n_genes() && 0 <= r < self.n_resources() ==> #[trigger] (
            self.constraints@[i])@[r] as int == self.gene_cost(self.genes@[i], r)
    }

    /// `self` and `other` hold the same problem model, except perhaps the
    /// products' maxima, and the same search parameters.
    pub open spec fn same_model(&self, other: &KnapSack) -> bool {
        &&& self.resources == other.resources
        &&& self.mutation_ratio == other.mutation_ratio
        &&& self.rand_up_activates == other.rand_up_activates
        &&& self.products@.len() == other.products@.len()
        &&& forall|p: int|
            0 <= p < other.products@.len() ==> {
                let (a, b) = (#[trigger] self.products@[p], other.products@[p]);
                a.id == b.id && a.value == b.value && a.solution == b.solution
                    && a.requirements == b.requirements
            }
    }

    /// The problem model is compiled: maxima and tables are exact and well formed.
    pub open spec fn compiled(&self) -> bool {
        &&& self.wf()
        &&& self.maxima_exact()
        &&& self.tables_exact()
    }
}

impl KnapSack {
    /// Whether every resource can pay for all genes at once within `i64`,
    /// and the value of all genes together fits a `u32`.
    fn totals_fit(&self) -> (b: bool)
        requires
            self.constraints@.len() == self.n_genes(),
            forall|i: int|
                0 <= i < self.n_genes() ==> (#[trigger] self.constraints@[i])@.len()
                    == self.n_resources(),
            forall|r: int|
                0 <= r < self.n_resources() ==> 0 <= #[trigger] self.resources@[r].amount,
        ensures
            b == ((forall|r: int|
                0 <= r < self.n_resources() ==> self.resources@[r].amount
                    + #[trigger] self.total_cost(r) <= i64::MAX) && self.value_of(
                all_active(self.n_genes()),
            ) <= u32::MAX),
    {
        let n = self.fitness.len();
        let ghost all = all_active(n as nat);
        let mut r: usize = 0;
        while r < self.resources.len()
            invariant
                n == self.n_genes(),
                all == all_active(n as nat),
                r <= self.n_resources(),
                self.constraints@.len() == self.n_genes(),
                forall|i: int|
                    0 <= i < self.n_genes() ==> (#[trigger] self.constraints@[i])@.len()
                        == self.n_resources(),
                forall|j: int|
                    0 <= j < self.n_resources() ==> 0 <= #[trigger] self.resources@[j].amount,
                forall|j: int|
                    0 <= j < r ==> self.resources@[j].amount + #[trigger] self.total_cost(j)
                        <= i64::MAX,
            decreases self.n_resources() - r,
        {
            let amount = self.resources[r].amount as u64;
            let ghost col = cost_column(self.constraints@, r as int);
            let mut sum: u64 = 0;
            let mut i: usize = 0;
            while i < n
                invariant
                    n == self.n_genes(),
                    all == all_active(n as nat),
                    i <= n,
                    r < self.n_resources(),
                    col == cost_column(self.constraints@, r as int),
                    amount == self.resources@[r as int].amount,
                    self.constraints@.len() == self.n_genes(),
                    forall|i: int|
                        0 <= i < self.n_genes() ==> (#[trigger] self.constraints@[i])@.len()
                            == self.n_resources(),
                    sum == masked_sum(col, all, i as int),
                    amount + sum <= i64::MAX,
                decreases n - i,
            {
                let c = self.constraints[i][r] as u64;
                if amount + sum + c > i64::MAX as u64 {
                    proof {
                        assert(forall|k: int| 0 <= k < col.len() ==> col[k] >= 0);
                        lemma_masked_sum_mono(col, all, i + 1, n as int);
                        assert(masked_sum(col, all, i + 1) == sum + c);
                        assert(self.resources@[r as int].amount + self.total_cost(r as int)
                            > i64::MAX);
                    }
                    return false;
                }
                sum = sum + c;
                i += 1;
            }
            r += 1;
        }
        let ghost vals = values(self.fitness@);
        let mut total: u64 = 0;
        let mut i: usize = 0;
        while i < n
            invariant
                n == self.n_genes(),
                all == all_active(n as nat),
                vals == values(self.fitness@),
                i <= n,
                total == masked_sum(vals, all, i as int),
                total <= u32::MAX,
            decreases n - i,
        {
            let v = self.fitness[i] as u64;
            if total + v > u32::MAX as u64 {
                proof {
                    lemma_masked_sum_mono(vals, all, i + 1, n as int);
                    assert(masked_sum(vals, all, i + 1) == total + v);
                }
                return false;
            }
            total = total + v;
            i += 1;
        }
        true
    }
}

impl KnapSack {
    /// A context over `resources` and `products`, with no gene tables yet.
    pub fn new(resources: Vec<Resource>, products: Vec<Product>, mutation_ratio: u32) -> (k:
        KnapSack)
        ensures
            k.resources == resources,
            k.products == products,
            k.mutation_ratio == mutation_ratio,
            k.genes@.len() == 0,
            k.constraints@.len() == 0,
            k.fitness@.len() == 0,
            !k.rand_up_activates,
    {
        KnapSack {
            products,
            resources,
            genes: Vec::new(),
            constraints: Vec::new(),
            fitness: Vec::new(),
            mutation_ratio,
            rand_up_activates: false,
        }
    }

    /// Computes every product's maximum quantity and decomposes it into
    /// power-of-two genes, filling the gene universe and its cost and value
    /// tables.
    pub fn compute_constraints(&mut self) -> (res: Result<(), CompileError>)
        requires
            old(self).mutation_ratio <= 1000,
        ensures
            final(self).same_model(&*old(self)),
            (res == Err::<(), CompileError>(CompileError::NegativeAmount)) <==> exists|r: int|
                0 <= r < old(self).resources@.len() && #[trigger] old(self).resources@[r].amount
                    < 0,
            res matches Err(CompileError::NoPositiveRequirement(p)) ==> p < old(
                self,
            ).products@.len() && min_capacity(
                old(self).resources@,
                old(self).products@[p as int].requirements@,
            ) is None && forall|q: int|
                0 <= q < p ==> min_capacity(
                    old(self).resources@,
                    #[trigger] old(self).products@[q].requirements@,
                ) is Some,
            (res matches Err(CompileError::NoPositiveRequirement(_))) <==> (
            (forall|r: int|
                0 <= r < old(self).resources@.len() ==> 0
                    <= #[trigger] old(self).resources@[r].amount) && exists|p: int|
                0 <= p < old(self).products@.len() && min_capacity(
                    old(self).resources@,
                    #[trigger] old(self).products@[p].requirements@,
                ) is None),
            (res == Err::<(), CompileError>(CompileError::Overflow)) <==> ((forall|r: int|
                0 <= r < old(self).resources@.len() ==> 0
                    <= #[trigger] old(self).resources@[r].amount) && (forall|p: int|
                0 <= p < old(self).products@.len() ==> min_capacity(
                    old(self).resources@,
                    #[trigger] old(self).products@[p].requirements@,
                ) is Some) && !decomposition_fits(old(self).resources@, old(self).products@)),
            res is Ok ==> final(self).compiled(),
    {
        let nr = self.resources.len();
        let mut r: usize = 0;
        while r < nr
            invariant
                *self == *old(self),
                nr == self.resources@.len(),
                r <= nr,
                forall|j: int| 0 <= j < r ==> 0 <= #[trigger] self.resources@[j].amount,
            decreases nr - r,
        {
            if self.resources[r].amount < 0 {
                return Err(CompileError::NegativeAmount);
            }
            r += 1;
        }
        let np = self.products.len();
        let mut maxes: Vec<u64> = Vec::new();
        let mut p: usize = 0;
        while p < np
            invariant
                *self == *old(self),
                nr == self.resources@.len(),
                np == self.products@.len(),
                p <= np,
                maxes@.len() == p,
                forall|j: int| 0 <= j < nr ==> 0 <= #[trigger] self.resources@[j].amount,
                forall|q: int|
                    0 <= q < p ==> min_capacity(
                        old(self).resources@,
                        #[trigger] old(self).products@[q].requirements@,
                    ) == Some(maxes@[q] as int),
            decreases np - p,
        {
            match product_max(&self.resources, &self.products[p].requirements) {
                None => {
                    return Err(CompileError::NoPositiveRequirement(p));
                },
                Some(m) => {
                    maxes.push(m);
                },
            }
            p += 1;
        }
        let mut p: usize = 0;
        while p < np
            invariant
                self.same_model(&*old(self)),
                nr == self.resources@.len(),
                np == old(self).products@.len(),
                p <= np,
                maxes@.len() == np,
                forall|j: int| 0 <= j < nr ==> 0 <= #[trigger] self.resources@[j].amount,
                forall|q: int|
                    0 <= q < np ==> min_capacity(
                        old(self).resources@,
                        #[trigger] old(self).products@[q].requirements@,
                    ) == Some(maxes@[q] as int),
                forall|q: int| 0 <= q < p ==> #[trigger] self.products@[q].max == maxes@[q],
            decreases np - p,
        {
            if maxes[p] > u32::MAX as u64 {
                assert(capacities(old(self).resources@, old(self).products@)[p as int] > u32::MAX);
                return Err(CompileError::Overflow);
            }
            self.products[p].max = maxes[p] as u32;
            p += 1;
        }
        assert(self.maxima_exact());
        let ghost frozen = *self;
        let ghost ms = self.maxima();
        assert(ms =~= capped_maxima(old(self).resources@, old(self).products@));
        let mut genes: Vec<Gene> = Vec::new();
        let mut constraints: Vec<Vec<u32>> = Vec::new();
        let mut fitness: Vec<u32> = Vec::new();
        let mut p: usize = 0;
        while p < np
            invariant
                *self == frozen,
                frozen.same_model(&*old(self)),
                ms == self.maxima(),
                ms == capped_maxima(old(self).resources@, old(self).products@),
                nr == self.resources@.len(),
                np == self.products@.len(),
                np <= usize::MAX,
                forall|j: int| 0 <= j < nr ==> 0 <= #[trigger] old(self).resources@[j].amount,
                forall|q: int|
                    0 <= q < np ==> min_capacity(
                        old(self).resources@,
                        #[trigger] old(self).products@[q].requirements@,
                    ) is Some,
                p <= np,
                genes@ == gene_plan(ms.take(p as int)),
                constraints@.len() == genes@.len(),
                fitness@.len() == genes@.len(),
                forall|i: int| 0 <= i < genes@.len() ==> (#[trigger] constraints@[i])@.len() == nr,
                forall|i: int, j: int|
                    0 <= i < genes@.len() && 0 <= j < nr ==> #[trigger] (constraints@[i])@[j] as int
                        == self.gene_cost(genes@[i], j),
                forall|i: int|
                    0 <= i < genes@.len() ==> #[trigger] fitness@[i] as int == self.gene_value(genes@[i]),
            decreases np - p,
        {
            let n = gene_count_exec(self.products[p].max);
            proof {
                lemma_gene_count_le_32(ms[p as int]);
                lemma_pow2_32();
            }
            let mut c: u32 = 0;
            let mut pw: u64 = 1;
            while c < n
                invariant
                    *self == frozen,
                    frozen.same_model(&*old(self)),
                    ms == self.maxima(),
                    ms == capped_maxima(old(self).resources@, old(self).products@),
                    nr == self.resources@.len(),
                    np == self.products@.len(),
                    np <= usize::MAX,
                    forall|j: int| 0 <= j < nr ==> 0 <= #[trigger] old(self).resources@[j].amount,
                    forall|q: int|
                        0 <= q < np ==> min_capacity(
                            old(self).resources@,
                            #[trigger] old(self).products@[q].requirements@,
                        ) is Some,
                    p < np,
                    c <= n <= 32,
                    n == gene_count(ms[p as int] as int),
                    pow2(32) == 0x1_0000_0000,
                    pw as int == pow2(c as nat),
                    genes@ == gene_plan(ms.take(p as int)) + product_genes(p as int, c as nat),
                    constraints@.len() == genes@.len(),
                    fitness@.len() == genes@.len(),
                    forall|i: int| 0 <= i < genes@.len() ==> (#[trigger] constraints@[i])@.len() == nr,
                    forall|i: int, j: int|
                        0 <= i < genes@.len() && 0 <= j < nr ==> #[trigger] (constraints@[i])@[j] as int
                            == self.gene_cost(genes@[i], j),
                    forall|i: int|
                        0 <= i < genes@.len() ==> #[trigger] fitness@[i] as int == self.gene_value(genes@[i]),
                decreases n - c,
            {
                let gene = Gene { product: p, power: c };
                proof {
                    lemma_gene_at(ms, p as int, c as int);
                    lemma_pow2_mono(c as nat, 31);
                }
                let ghost plan = gene_plan(ms);
                let ghost i0 = genes@.len() as int;
                assert(i0 < plan.len() && plan[i0] == gene);
                let mut row: Vec<u32> = Vec::new();
                let mut r: usize = 0;
                while r < nr
                    invariant
                        *self == frozen,
                        frozen.same_model(&*old(self)),
                        ms == self.maxima(),
                        ms == capped_maxima(old(self).resources@, old(self).products@),
                        nr == self.resources@.len(),
                        np == self.products@.len(),
                        np <= usize::MAX,
                        forall|j: int| 0 <= j < nr ==> 0 <= #[trigger] old(self).resources@[j].amount,
                        forall|q: int|
                            0 <= q < np ==> min_capacity(
                                old(self).resources@,
                                #[trigger] old(self).products@[q].requirements@,
                            ) is Some,
                        p < np,
                        gene == (Gene { product: p, power: c }),
                        plan == gene_plan(ms),
                        0 <= i0 < plan.len(),
                        plan[i0] == gene,
                        pw as int == pow2(c as nat),
                        r <= nr,
                        row@.len() == r,
                        forall|j: int|
                            0 <= j < r ==> #[trigger] row@[j] as int == self.gene_cost(gene, j),
                    decreases nr - r,
                {
                    let amt = requirement_amount(
                        &self.products[p].requirements,
                        &self.resources[r].id,
                    );
                    proof {
                        assert(self.products@[p as int].requirements == old(
                            self,
                        ).products@[p as int].requirements);
                        assert(planned_cost(old(self).resources@, old(self).products@, plan[i0], r as int)
                            == amt * pw);
                    }
                    match (amt as u64).checked_mul(pw) {
                        Some(x) => {
                            if x > u32::MAX as u64 {
                                return Err(CompileError::Overflow);
                            }
                            row.push(x as u32);
                        },
                        None => {
                            return Err(CompileError::Overflow);
                        },
                    }
                    r += 1;
                }
                proof {
                    assert(self.products@[p as int].value == old(self).products@[p as int].value);
                    assert(planned_value(old(self).products@, plan[i0]) == self.products@[p as int].value * pw);
                }
                let v: u32 = match (self.products[p].value as u64).checked_mul(pw) {
                    Some(x) => {
                        if x > u32::MAX as u64 {
                            return Err(CompileError::Overflow);
                        }
                        x as u32
                    },
                    None => {
                        return Err(CompileError::Overflow);
                    },
                };
                proof {
                    assert((gene_plan(ms.take(p as int)) + product_genes(p as int, c as nat)).push(
                        gene,
                    ) =~= gene_plan(ms.take(p as int)) + product_genes(p as int, (c + 1) as nat));
                }
                genes.push(gene);
                constraints.push(row);
                fitness.push(v);
                pw = pw * 2;
                c += 1;
            }
            proof {
                assert(ms.take(p + 1).drop_last() =~= ms.take(p as int));
            }
            p += 1;
        }
        assert(ms.take(np as int) =~= ms);
        self.genes = genes;
        self.constraints = constraints;
        self.fitness = fitness;
        proof {
            let plan = gene_plan(ms);
            let n = plan.len();
            lemma_gene_plan_bounds(ms);
            assert forall|i: int| 0 <= i < n implies (#[trigger] plan[i]).product < np by {}
            assert forall|r: int| 0 <= r < nr implies #[trigger] cost_column(self.constraints@, r)
                == Seq::new(n, |i: int| planned_cost(old(self).resources@, old(self).products@, plan[i], r)) by {
                assert forall|i: int| 0 <= i < n implies #[trigger] cost_column(self.constraints@, r)[i]
                    == planned_cost(old(self).resources@, old(self).products@, plan[i], r) by {
                    let q = plan[i].product as int;
                    assert(self.products@[q].requirements == old(self).products@[q].requirements);
                }
                assert(cost_column(self.constraints@, r) =~= Seq::new(
                    n,
                    |i: int| planned_cost(old(self).resources@, old(self).products@, plan[i], r),
                ));
            }
            assert forall|i: int| 0 <= i < n implies #[trigger] values(self.fitness@)[i]
                == planned_value(old(self).products@, plan[i]) by {
                let q = plan[i].product as int;
                assert(self.products@[q].value == old(self).products@[q].value);
            }
            assert(values(self.fitness@) =~= Seq::new(n, |i: int| planned_value(old(self).products@, plan[i])));
        }
        if !self.totals_fit() {
            return Err(CompileError::Overflow);
        }
        proof {
            let plan = gene_plan(ms);
            assert forall|i: int, r: int| 0 <= i < plan.len() && 0 <= r < nr implies #[trigger] planned_cost(
                old(self).resources@,
                old(self).products@,
                plan[i],
                r,
            ) <= u32::MAX by {
                assert(cost_column(self.constraints@, r)[i] == (self.constraints@[i])@[r] as int);
            }
            assert forall|i: int| 0 <= i < plan.len() implies #[trigger] planned_value(
                old(self).products@,
                plan[i],
            ) <= u32::MAX by {
                assert(values(self.fitness@)[i] == self.fitness@[i] as int);
            }
            assert forall|q: int| 0 <= q < np implies #[trigger] capacities(
                old(self).resources@,
                old(self).products@,
            )[q] <= u32::MAX by {
                assert(min_capacity(old(self).resources@, old(self).products@[q].requirements@)
                    == Some(self.products@[q].max as int));
            }
            let n = plan.len();
            assert forall|r: int| 0 <= r < nr implies old(self).resources@[r].amount + masked_sum(
                Seq::new(n, |i: int| planned_cost(old(self).resources@, old(self).products@, plan[i], r)),
                all_active(n),
                n as int,
            ) <= i64::MAX by {
                assert(self.resources@[r].amount + self.total_cost(r) <= i64::MAX);
                assert(cost_column(self.constraints@, r) == Seq::new(
                    n,
                    |i: int| planned_cost(old(self).resources@, old(self).products@, plan[i], r),
                ));
            }
            assert(decomposition_fits(old(self).resources@, old(self).products@));
        }
        Ok(())
    }
}

} // verus!
