//! What the final report states of a solution: the quantity of each product.
use crate::individual::Individual;
use crate::knapsack::{
    gene_plan, lemma_gene_count_le_32, lemma_gene_plan_bounds, lemma_pow2_32, lemma_pow2_mono,
    masked_sum, pow2, Gene, KnapSack,
};
use vstd::prelude::*;

verus! {

/// Per gene, the units of product `p` that it stands for.
pub open spec fn units_column(genes: Seq<Gene>, p: int) -> Seq<int> {
    Seq::new(
        genes.len(),
        |i: int|
            if genes[i].product as int == p {
                pow2(genes[i].power as nat) as int
            } else {
                0
            },
    )
}

/// The quantity of product `p` that the active genes of `g` choose.
pub open spec fn quantity(ks: &KnapSack, g: Seq<bool>, p: int) -> int {
    masked_sum(units_column(ks.genes@, p), g, g.len() as int)
}

/// `2^k` for a small `k`.
fn pow2_exec(k: u32) -> (r: u64)
    requires
        k <= 32,
    ensures
        r as int == pow2(k as nat),
{
    proof {
        lemma_pow2_32();
    }
    let mut r: u64 = 1;
    let mut i: u32 = 0;
    while i < k
        invariant
            i <= k <= 32,
            r as int == pow2(i as nat),
            pow2(32) == 0x1_0000_0000,
        decreases k - i,
    {
        proof {
            lemma_pow2_mono((i + 1) as nat, 32);
        }
        r = r * 2;
        i += 1;
    }
    r
}

impl KnapSack {
    /// For each product, in order, the quantity that `indiv` chooses: the sum
    /// of `2^power` over its active genes.
    pub fn solution_quantities(&self, indiv: &Individual) -> (r: Vec<u128>)
        requires
            self.compiled(),
            indiv.genotype@.len() == self.n_genes(),
        ensures
            r@.len() == self.products@.len(),
            forall|p: int|
                0 <= p < self.products@.len() ==> #[trigger] r@[p] as int == quantity(
                    self,
                    indiv.genotype@,
                    p,
                ),
    {
        let np = self.products.len();
        proof {
            lemma_gene_plan_bounds(self.maxima());
            assert forall|i: int| 0 <= i < self.n_genes() implies (#[trigger] self.genes@[i]).power
                < 32 by {
                let g = self.genes@[i];
                assert(g == gene_plan(self.maxima())[i]);
                lemma_gene_count_le_32(self.maxima()[g.product as int]);
            }
        }
        let ghost g = indiv.genotype@;
        let n = indiv.genotype.len();
        let mut out: Vec<u128> = Vec::new();
        let mut p: usize = 0;
        while p < self.products.len()
            invariant
                self.compiled(),
                g == indiv.genotype@,
                n == g.len(),
                n == self.n_genes(),
                forall|i: int| 0 <= i < self.n_genes() ==> (#[trigger] self.genes@[i]).power < 32,
                p <= self.products@.len(),
                out@.len() == p,
                forall|q: int| 0 <= q < p ==> #[trigger] out@[q] as int == quantity(self, g, q),
            decreases self.products@.len() - p,
        {
            let ghost col = units_column(self.genes@, p as int);
            let mut acc: u128 = 0;
            let mut i: usize = 0;
            while i < n
                invariant
                    self.compiled(),
                    g == indiv.genotype@,
                    n == g.len(),
                    n == self.n_genes(),
                    forall|i: int|
                        0 <= i < self.n_genes() ==> (#[trigger] self.genes@[i]).power < 32,
                    col == units_column(self.genes@, p as int),
                    i <= n,
                    acc as int == masked_sum(col, g, i as int),
                    acc <= i * 0x1_0000_0000,
                decreases n - i,
            {
                let gene = self.genes[i];
                if indiv.genotype[i] && gene.product == p {
                    let u = pow2_exec(gene.power);
                    proof {
                        lemma_pow2_32();
                        lemma_pow2_mono(gene.power as nat, 32);
                    }
                    acc = acc + u as u128;
                }
                i += 1;
            }
            out.push(acc);
            p += 1;
        }
        out
    }
}

} // verus!
