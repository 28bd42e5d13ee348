//! Reading a problem definition: one resource or product per line.
use crate::knapsack::{CompileError, KnapSack};
use crate::model::{requirements_parse, Config, Product, Resource};
use crate::text::{
    lemma_split_on_nonempty, lowercase, lowered, parsed_i64, parsed_u32, split, split_on, trim,
    trimmed,
};
use vstd::prelude::*;

verus! {

/// The `:`-separated fields of a trimmed line.
pub open spec fn line_fields(line: Seq<char>) -> Seq<Seq<char>> {
    split_on(trimmed(line), ':')
}

/// The first field of a line, trimmed and in lower case.
pub open spec fn line_kind(line: Seq<char>) -> Seq<char> {
    lowered(trimmed(line_fields(line)[0]))
}

pub open spec fn is_resource_line(line: Seq<char>) -> bool {
    line_kind(line) == "resource"@
}

pub open spec fn is_product_line(line: Seq<char>) -> bool {
    line_kind(line) == "product"@
}

/// A resource line has an id, a title and an integer amount; a product line
/// has an id, an unsigned value and requirements; other lines are ignored.
pub open spec fn line_ok(line: Seq<char>) -> bool {
    let f = line_fields(line);
    &&& is_resource_line(line) ==> f.len() >= 4 && parsed_i64(trimmed(f[3])) is Some
    &&& is_product_line(line) ==> f.len() >= 3 && parsed_u32(trimmed(f[2])) is Some
        && requirements_parse(f.skip(3))
}

/// The id that line `line` gives its resource or product.
pub open spec fn line_id(line: Seq<char>) -> Seq<char> {
    trimmed(line_fields(line)[1])
}

/// The ids of `v` are pairwise distinct.
pub open spec fn distinct_resource_ids(v: Seq<Resource>) -> bool {
    forall|a: int, b: int| 0 <= a < b < v.len() ==> v[a].id@ != v[b].id@
}

pub open spec fn distinct_product_ids(v: Seq<Product>) -> bool {
    forall|a: int, b: int| 0 <= a < b < v.len() ==> v[a].id@ != v[b].id@
}

/// Why a problem definition cannot be loaded.
#[derive(Clone, Copy, Debug, PartialEq, Eq, Structural)]
pub enum LoadError {
    /// The line with this index is a malformed resource or product line.
    MalformedLine(usize),
    /// The mutation rate is above 1000 per thousand.
    MutationRatio,
    /// The gene tables cannot be compiled.
    Compile(CompileError),
}

/// The fields after the first, as slices.
fn tail_fields(fields: &Vec<String>) -> (r: Vec<&str>)
    requires
        fields@.len() >= 1,
    ensures
        r@.len() == fields@.len() - 1,
        forall|k: int| 0 <= k < r@.len() ==> #[trigger] r@[k]@ == fields@[k + 1]@,
{
    let mut r: Vec<&str> = Vec::new();
    let mut k: usize = 1;
    while k < fields.len()
        invariant
            1 <= k <= fields@.len(),
            r@.len() == k - 1,
            forall|j: int| 0 <= j < r@.len() ==> #[trigger] r@[j]@ == fields@[j + 1]@,
        decreases fields@.len() - k,
    {
        r.push(fields[k].as_str());
        k += 1;
    }
    r
}

impl KnapSack {
    /// Puts `r` in place of the resource with the same id, or appends it.
    fn upsert_resource(&mut self, r: Resource)
        requires
            distinct_resource_ids(old(self).resources@),
        ensures
            distinct_resource_ids(final(self).resources@),
            exists|j: int|
                0 <= j < final(self).resources@.len() && #[trigger] final(self).resources@[j]
                    == r,
            forall|j: int|
                0 <= j < final(self).resources@.len() ==> #[trigger] final(self).resources@[j]
                    == r || old(self).resources@.contains(final(self).resources@[j]),
            forall|j: int|
                0 <= j < old(self).resources@.len() ==> old(self).resources@[j].id@ == r.id@
                    || final(self).resources@.contains(#[trigger] old(self).resources@[j]),
            final(self).products == old(self).products,
            final(self).genes == old(self).genes,
            final(self).constraints == old(self).constraints,
            final(self).fitness == old(self).fitness,
            final(self).mutation_ratio == old(self).mutation_ratio,
            final(self).rand_up_activates == old(self).rand_up_activates,
    {
        let mut j: usize = 0;
        while j < self.resources.len()
            invariant
                *self == *old(self),
                j <= self.resources@.len(),
                distinct_resource_ids(self.resources@),
                forall|k: int| 0 <= k < j ==> self.resources@[k].id@ != r.id@,
            decreases self.resources@.len() - j,
        {
            if self.resources[j].id == r.id {
                let ghost v = self.resources@;
                self.resources.set(j, r);
                proof {
                    assert(self.resources@[j as int] == r);
                    assert forall|k: int| 0 <= k < v.len() implies #[trigger] self.resources@[k].id@
                        == v[k].id@ by {
                        if k != j {
                            assert(v[k] == self.resources@[k]);
                        }
                    }
                    assert forall|a: int, b: int| 0 <= a < b < self.resources@.len() implies self.resources@[a].id@
                        != self.resources@[b].id@ by {
                        assert(distinct_resource_ids(old(self).resources@));
                        assert(v[a].id@ != v[b].id@);
                        assert(self.resources@[a].id@ == v[a].id@);
                        assert(self.resources@[b].id@ == v[b].id@);
                    }
                    assert forall|k: int|
                        0 <= k < self.resources@.len() implies #[trigger] self.resources@[k] == r
                        || v.contains(self.resources@[k]) by {
                        if k != j {
                            assert(v[k] == self.resources@[k]);
                        }
                    }
                    assert forall|k: int|
                        0 <= k < v.len() && #[trigger] v[k].id@ != r.id@ implies self.resources@.contains(
                            v[k],
                        ) by {
                        assert(self.resources@[k] == v[k]);
                    }
                }
                return;
            }
            j += 1;
        }
        let ghost v = self.resources@;
        self.resources.push(r);
        proof {
            assert(self.resources@[v.len() as int] == r);
            assert forall|k: int|
                0 <= k < self.resources@.len() implies #[trigger] self.resources@[k] == r
                || v.contains(self.resources@[k]) by {
                if k < v.len() {
                    assert(v[k] == self.resources@[k]);
                }
            }
            assert forall|k: int| 0 <= k < v.len() implies self.resources@.contains(
                #[trigger] v[k],
            ) by {
                assert(self.resources@[k] == v[k]);
            }
        }
    }

    /// Puts `p` in place of the product with the same id, or appends it.
    fn upsert_product(&mut self, p: Product)
        requires
            distinct_product_ids(old(self).products@),
        ensures
            distinct_product_ids(final(self).products@),
            exists|j: int|
                0 <= j < final(self).products@.len() && #[trigger] final(self).products@[j] == p,
            forall|j: int|
                0 <= j < final(self).products@.len() ==> #[trigger] final(self).products@[j] == p
                    || old(self).products@.contains(final(self).products@[j]),
            forall|j: int|
                0 <= j < old(self).products@.len() ==> old(self).products@[j].id@ == p.id@
                    || final(self).products@.contains(#[trigger] old(self).products@[j]),
            final(self).resources == old(self).resources,
            final(self).genes == old(self).genes,
            final(self).constraints == old(self).constraints,
            final(self).fitness == old(self).fitness,
            final(self).mutation_ratio == old(self).mutation_ratio,
            final(self).rand_up_activates == old(self).rand_up_activates,
    {
        let mut j: usize = 0;
        while j < self.products.len()
            invariant
                *self == *old(self),
                j <= self.products@.len(),
                distinct_product_ids(self.products@),
                forall|k: int| 0 <= k < j ==> self.products@[k].id@ != p.id@,
            decreases self.products@.len() - j,
        {
            if self.products[j].id == p.id {
                let ghost v = self.products@;
                self.products.set(j, p);
                proof {
                    assert(self.products@[j as int] == p);
                    assert forall|k: int| 0 <= k < v.len() implies #[trigger] self.products@[k].id@
                        == v[k].id@ by {
                        if k != j {
                            assert(v[k] == self.products@[k]);
                        }
                    }
                    assert forall|a: int, b: int| 0 <= a < b < self.products@.len() implies self.products@[a].id@
                        != self.products@[b].id@ by {
                        assert(distinct_product_ids(old(self).products@));
                        assert(v[a].id@ != v[b].id@);
                        assert(self.products@[a].id@ == v[a].id@);
                        assert(self.products@[b].id@ == v[b].id@);
                    }
                    assert forall|k: int|
                        0 <= k < self.products@.len() implies #[trigger] self.products@[k] == p
                        || v.contains(self.products@[k]) by {
                        if k != j {
                            assert(v[k] == self.products@[k]);
                        }
                    }
                    assert forall|k: int|
                        0 <= k < v.len() && #[trigger] v[k].id@ != p.id@ implies self.products@.contains(
                            v[k],
                        ) by {
                        assert(self.products@[k] == v[k]);
                    }
                }
                return;
            }
            j += 1;
        }
        let ghost v = self.products@;
        self.products.push(p);
        proof {
            assert(self.products@[v.len() as int] == p);
            assert forall|k: int|
                0 <= k < self.products@.len() implies #[trigger] self.products@[k] == p
                || v.contains(self.products@[k]) by {
                if k < v.len() {
                    assert(v[k] == self.products@[k]);
                }
            }
            assert forall|k: int| 0 <= k < v.len() implies self.products@.contains(
                #[trigger] v[k],
            ) by {
                assert(self.products@[k] == v[k]);
            }
        }
    }
}

/// `x` holds what resource line `line` gives: trimmed id and title, and
/// the parsed amount.
pub open spec fn resource_fields(x: Resource, line: Seq<char>) -> bool {
    let f = line_fields(line);
    &&& x.id@ == line_id(line)
    &&& x.title@ == trimmed(f[2])
    &&& Some(x.amount) == parsed_i64(trimmed(f[3]))
}

/// `x` holds what product line `line` gives: trimmed id, parsed value and
/// one requirement per further field.
pub open spec fn product_fields(x: Product, line: Seq<char>) -> bool {
    let f = line_fields(line);
    &&& x.id@ == line_id(line)
    &&& Some(x.value) == parsed_u32(trimmed(f[2]))
    &&& x.solution == 0
    &&& x.requirements@.len() == f.len() - 3
    &&& forall|m: int|
        0 <= m < x.requirements@.len() ==> {
            let t = trimmed(f[m + 3]);
            &&& (#[trigger] x.requirements@[m]).id@ == split_on(t, '=')[0]
            &&& Some(x.requirements@[m].amount) == parsed_u32(split_on(t, '=')[1])
        }
}

/// `x` comes from the last resource line among `lines` with its id.
pub open spec fn from_last_resource_line(lines: Seq<Seq<char>>, x: Resource) -> bool {
    exists|k: int|
        0 <= k < lines.len() && is_resource_line(#[trigger] lines[k]) && resource_fields(
            x,
            lines[k],
        ) && forall|l: int|
            k < l < lines.len() && is_resource_line(#[trigger] lines[l]) ==> line_id(lines[l])
                != x.id@
}

/// `x` comes from the last product line among `lines` with its id.
pub open spec fn from_last_product_line(lines: Seq<Seq<char>>, x: Product) -> bool {
    exists|k: int|
        0 <= k < lines.len() && is_product_line(#[trigger] lines[k]) && product_fields(
            x,
            lines[k],
        ) && forall|l: int|
            k < l < lines.len() && is_product_line(#[trigger] lines[l]) ==> line_id(lines[l])
                != x.id@
}

/// Some resource of `v` has the id `id`.
pub open spec fn has_resource(v: Seq<Resource>, id: Seq<char>) -> bool {
    exists|j: int| 0 <= j < v.len() && (#[trigger] v[j]).id@ == id
}

/// Some product of `v` has the id `id`.
pub open spec fn has_product(v: Seq<Product>, id: Seq<char>) -> bool {
    exists|j: int| 0 <= j < v.len() && (#[trigger] v[j]).id@ == id
}

/// Every resource is what the last resource line with its id gives, and
/// every resource line among `lines` has its resource.
pub open spec fn resources_match(v: Seq<Resource>, lines: Seq<Seq<char>>) -> bool {
    &&& forall|j: int| 0 <= j < v.len() ==> from_last_resource_line(lines, #[trigger] v[j])
    &&& forall|k: int|
        0 <= k < lines.len() && is_resource_line(#[trigger] lines[k]) ==> has_resource(
            v,
            line_id(lines[k]),
        )
}

/// Every product is what the last product line with its id gives, and every
/// product line among `lines` has its product.
pub open spec fn products_match(v: Seq<Product>, lines: Seq<Seq<char>>) -> bool {
    &&& forall|j: int| 0 <= j < v.len() ==> from_last_product_line(lines, #[trigger] v[j])
    &&& forall|k: int|
        0 <= k < lines.len() && is_product_line(#[trigger] lines[k]) ==> has_product(
            v,
            line_id(lines[k]),
        )
}

proof fn lemma_resource_added(
    v0: Seq<Resource>,
    v1: Seq<Resource>,
    res: Resource,
    prev: Seq<Seq<char>>,
    line: Seq<char>,
)
    requires
        resources_match(v0, prev),
        is_resource_line(line),
        resource_fields(res, line),
        distinct_resource_ids(v1),
        exists|j: int| 0 <= j < v1.len() && #[trigger] v1[j] == res,
        forall|j: int| 0 <= j < v1.len() ==> #[trigger] v1[j] == res || v0.contains(v1[j]),
        forall|j: int| 0 <= j < v0.len() ==> v0[j].id@ == res.id@ || v1.contains(#[trigger] v0[j]),
    ensures
        resources_match(v1, prev.push(line)),
{
    let next = prev.push(line);
    let j0 = choose|j: int| 0 <= j < v1.len() && #[trigger] v1[j] == res;
    assert(next[prev.len() as int] == line);
    assert forall|j: int| 0 <= j < v1.len() implies from_last_resource_line(next, #[trigger] v1[j]) by {
        if v1[j] == res {
            assert(is_resource_line(next[prev.len() as int]));
        } else {
            assert(j != j0);
            assert(v1[j].id@ != res.id@);
            let m = choose|m: int| 0 <= m < v0.len() && v0[m] == v1[j];
            assert(from_last_resource_line(prev, v0[m]));
            let k = choose|k: int|
                0 <= k < prev.len() && is_resource_line(#[trigger] prev[k]) && resource_fields(v0[m], prev[k])
                    && forall|l: int|
                    k < l < prev.len() && is_resource_line(#[trigger] prev[l]) ==> line_id(prev[l])
                        != v0[m].id@;
            assert(next[k] == prev[k]);
            assert forall|l: int| k < l < next.len() && is_resource_line(#[trigger] next[l]) implies line_id(
                next[l],
            ) != v1[j].id@ by {
                if l < prev.len() {
                    assert(next[l] == prev[l]);
                }
            }
        }
    }
    assert forall|k: int| 0 <= k < next.len() && is_resource_line(#[trigger] next[k]) implies has_resource(
        v1,
        line_id(next[k]),
    ) by {
        if k == prev.len() {
            assert(v1[j0].id@ == line_id(next[k]));
        } else {
            assert(next[k] == prev[k]);
            let m = choose|m: int| 0 <= m < v0.len() && (#[trigger] v0[m]).id@ == line_id(prev[k]);
            if v0[m].id@ == res.id@ {
                assert(v1[j0].id@ == line_id(next[k]));
            } else {
                assert(v1.contains(v0[m]));
                let j = choose|j: int| 0 <= j < v1.len() && v1[j] == v0[m];
                assert(v1[j].id@ == line_id(next[k]));
            }
        }
    }
}

proof fn lemma_resources_skip_line(v: Seq<Resource>, prev: Seq<Seq<char>>, line: Seq<char>)
    requires
        resources_match(v, prev),
        !is_resource_line(line),
    ensures
        resources_match(v, prev.push(line)),
{
    let next = prev.push(line);
    assert forall|j: int| 0 <= j < v.len() implies from_last_resource_line(next, #[trigger] v[j]) by {
        assert(from_last_resource_line(prev, v[j]));
        let k = choose|k: int|
            0 <= k < prev.len() && is_resource_line(#[trigger] prev[k]) && resource_fields(v[j], prev[k])
                && forall|l: int|
                k < l < prev.len() && is_resource_line(#[trigger] prev[l]) ==> line_id(prev[l]) != v[j].id@;
        assert(next[k] == prev[k]);
        assert forall|l: int| k < l < next.len() && is_resource_line(#[trigger] next[l]) implies line_id(
            next[l],
        ) != v[j].id@ by {
            if l < prev.len() {
                assert(next[l] == prev[l]);
            } else {
                assert(next[l] == line);
            }
        }
    }
    assert forall|k: int| 0 <= k < next.len() && is_resource_line(#[trigger] next[k]) implies has_resource(
        v,
        line_id(next[k]),
    ) by {
        if k < prev.len() {
            assert(next[k] == prev[k]);
        } else {
            assert(next[k] == line);
        }
    }
}

proof fn lemma_product_added(
    v0: Seq<Product>,
    v1: Seq<Product>,
    p: Product,
    prev: Seq<Seq<char>>,
    line: Seq<char>,
)
    requires
        products_match(v0, prev),
        is_product_line(line),
        product_fields(p, line),
        distinct_product_ids(v1),
        exists|j: int| 0 <= j < v1.len() && #[trigger] v1[j] == p,
        forall|j: int| 0 <= j < v1.len() ==> #[trigger] v1[j] == p || v0.contains(v1[j]),
        forall|j: int| 0 <= j < v0.len() ==> v0[j].id@ == p.id@ || v1.contains(#[trigger] v0[j]),
    ensures
        products_match(v1, prev.push(line)),
{
    let next = prev.push(line);
    let j0 = choose|j: int| 0 <= j < v1.len() && #[trigger] v1[j] == p;
    assert(next[prev.len() as int] == line);
    assert forall|j: int| 0 <= j < v1.len() implies from_last_product_line(next, #[trigger] v1[j]) by {
        if v1[j] == p {
            assert(is_product_line(next[prev.len() as int]));
        } else {
            assert(j != j0);
            assert(v1[j].id@ != p.id@);
            let m = choose|m: int| 0 <= m < v0.len() && v0[m] == v1[j];
            assert(from_last_product_line(prev, v0[m]));
            let k = choose|k: int|
                0 <= k < prev.len() && is_product_line(#[trigger] prev[k]) && product_fields(v0[m], prev[k])
                    && forall|l: int|
                    k < l < prev.len() && is_product_line(#[trigger] prev[l]) ==> line_id(prev[l])
                        != v0[m].id@;
            assert(next[k] == prev[k]);
            assert forall|l: int| k < l < next.len() && is_product_line(#[trigger] next[l]) implies line_id(
                next[l],
            ) != v1[j].id@ by {
                if l < prev.len() {
                    assert(next[l] == prev[l]);
                }
            }
        }
    }
    assert forall|k: int| 0 <= k < next.len() && is_product_line(#[trigger] next[k]) implies has_product(
        v1,
        line_id(next[k]),
    ) by {
        if k == prev.len() {
            assert(v1[j0].id@ == line_id(next[k]));
        } else {
            assert(next[k] == prev[k]);
            let m = choose|m: int| 0 <= m < v0.len() && (#[trigger] v0[m]).id@ == line_id(prev[k]);
            if v0[m].id@ == p.id@ {
                assert(v1[j0].id@ == line_id(next[k]));
            } else {
                assert(v1.contains(v0[m]));
                let j = choose|j: int| 0 <= j < v1.len() && v1[j] == v0[m];
                assert(v1[j].id@ == line_id(next[k]));
            }
        }
    }
}

proof fn lemma_products_skip_line(v: Seq<Product>, prev: Seq<Seq<char>>, line: Seq<char>)
    requires
        products_match(v, prev),
        !is_product_line(line),
    ensures
        products_match(v, prev.push(line)),
{
    let next = prev.push(line);
    assert forall|j: int| 0 <= j < v.len() implies from_last_product_line(next, #[trigger] v[j]) by {
        assert(from_last_product_line(prev, v[j]));
        let k = choose|k: int|
            0 <= k < prev.len() && is_product_line(#[trigger] prev[k]) && product_fields(v[j], prev[k])
                && forall|l: int|
                k < l < prev.len() && is_product_line(#[trigger] prev[l]) ==> line_id(prev[l]) != v[j].id@;
        assert(next[k] == prev[k]);
        assert forall|l: int| k < l < next.len() && is_product_line(#[trigger] next[l]) implies line_id(
            next[l],
        ) != v[j].id@ by {
            if l < prev.len() {
                assert(next[l] == prev[l]);
            } else {
                assert(next[l] == line);
            }
        }
    }
    assert forall|k: int| 0 <= k < next.len() && is_product_line(#[trigger] next[k]) implies has_product(
        v,
        line_id(next[k]),
    ) by {
        if k < prev.len() {
            assert(next[k] == prev[k]);
        } else {
            assert(next[k] == line);
        }
    }
}

impl KnapSack {
    /// Reads a problem definition, one `resource: id: title: amount` or
    /// `product: id: value: res=amount: ...` per line; other lines are
    /// ignored. A later line with the id of an earlier one replaces it. The
    /// gene tables are left empty.
    pub fn parse_problem(data: &str, mutation_ratio: u32) -> (r: Result<KnapSack, LoadError>)
        ensures
            r is Ok <==> forall|i: int|
                0 <= i < split_on(data@, '\n').len() ==> line_ok(
                    #[trigger] split_on(data@, '\n')[i],
                ),
            r matches Err(e) ==> e matches LoadError::MalformedLine(i) && {
                let lines = split_on(data@, '\n');
                &&& i < lines.len()
                &&& !line_ok(lines[i as int])
                &&& forall|k: int| 0 <= k < i ==> line_ok(#[trigger] lines[k])
            },
            r matches Ok(ks) ==> {
                &&& ks.mutation_ratio == mutation_ratio
                &&& !ks.rand_up_activates
                &&& ks.genes@.len() == 0
                &&& ks.constraints@.len() == 0
                &&& ks.fitness@.len() == 0
                &&& distinct_resource_ids(ks.resources@)
                &&& distinct_product_ids(ks.products@)
                &&& resources_match(ks.resources@, split_on(data@, '\n'))
                &&& products_match(ks.products@, split_on(data@, '\n'))
            },
    {
        let lines = split(data, '\n');
        let ghost ls = split_on(data@, '\n');
        let mut ks = KnapSack::new(Vec::new(), Vec::new(), mutation_ratio);
        let mut i: usize = 0;
        proof {
            reveal_strlit("resource");
            reveal_strlit("product");
            assert("resource"@[0] != "product"@[0]);
        }
        while i < lines.len()
            invariant
                lines@.len() == ls.len(),
                forall|k: int| 0 <= k < lines@.len() ==> #[trigger] lines@[k]@ == ls[k],
                ls == split_on(data@, '\n'),
                i <= lines@.len(),
                forall|k: int| 0 <= k < i ==> line_ok(#[trigger] ls[k]),
                ks.mutation_ratio == mutation_ratio,
                !ks.rand_up_activates,
                ks.genes@.len() == 0,
                ks.constraints@.len() == 0,
                ks.fitness@.len() == 0,
                distinct_resource_ids(ks.resources@),
                distinct_product_ids(ks.products@),
                resources_match(ks.resources@, ls.take(i as int)),
                products_match(ks.products@, ls.take(i as int)),
                "resource"@ != "product"@,
            decreases lines@.len() - i,
        {
            let ghost line = ls[i as int];
            let text = trim(lines[i].as_str());
            let fields = split(text, ':');
            proof {
                assert(text@ == trimmed(line));
                lemma_split_on_nonempty(trimmed(line), ':');
            }
            let kind = lowercase(trim(fields[0].as_str()));
            let tail = tail_fields(&fields);
            let ghost before = ks;
            let ghost prev = ls.take(i as int);
            proof {
                assert(ls.take(i + 1) =~= prev.push(line));
                if tail@.len() >= 2 {
                    let tv = crate::model::texts_view(tail@).skip(2);
                    let lf = line_fields(line).skip(3);
                    assert(fields@.len() == line_fields(line).len());
                    assert forall|m: int| 0 <= m < tv.len() implies tv[m] == lf[m] by {
                        assert(tail@[m + 2]@ == fields@[m + 3]@);
                    }
                    assert(tv =~= lf);
                }
            }
            if kind == "resource".to_owned() {
                match Resource::new(tail.as_slice()) {
                    None => {
                        return Err(LoadError::MalformedLine(i));
                    },
                    Some(res) => {
                        ks.upsert_resource(res);
                        proof {
                            lemma_resource_added(before.resources@, ks.resources@, res, prev, line);
                            lemma_products_skip_line(ks.products@, prev, line);
                        }
                    },
                }
            } else if kind == "product".to_owned() {
                match Product::new(tail.as_slice()) {
                    None => {
                        return Err(LoadError::MalformedLine(i));
                    },
                    Some(p) => {
                        ks.upsert_product(p);
                        proof {
                            lemma_product_added(before.products@, ks.products@, p, prev, line);
                            lemma_resources_skip_line(ks.resources@, prev, line);
                        }
                    },
                }
            } else {
                proof {
                    lemma_resources_skip_line(ks.resources@, prev, line);
                    lemma_products_skip_line(ks.products@, prev, line);
                }
            }
            i += 1;
        }
        assert(ls.take(i as int) =~= ls);
        Ok(ks)
    }
}

impl KnapSack {
    /// Reads the problem definition `data` with the mutation rate of
    /// `config`, then compiles its gene tables.
    pub fn load_custom_kp(data: &str, config: &Config) -> (r: Result<KnapSack, LoadError>)
        ensures
            (r == Err::<KnapSack, LoadError>(LoadError::MutationRatio)) <==> config.mutations_per_1k
                > 1000,
            config.mutations_per_1k <= 1000 ==> (r matches Err(LoadError::MalformedLine(_))
                <==> exists|i: int|
                0 <= i < split_on(data@, '\n').len() && !line_ok(
                    #[trigger] split_on(data@, '\n')[i],
                )),
            r matches Ok(ks) ==> {
                &&& ks.compiled()
                &&& ks.mutation_ratio == config.mutations_per_1k
                &&& distinct_resource_ids(ks.resources@)
                &&& distinct_product_ids(ks.products@)
                &&& resources_match(ks.resources@, split_on(data@, '\n'))
                &&& products_match(ks.products@, split_on(data@, '\n'))
            },
    {
        if config.mutations_per_1k > 1000 {
            return Err(LoadError::MutationRatio);
        }
        let mut ks = match KnapSack::parse_problem(data, config.mutations_per_1k) {
            Err(e) => {
                return Err(e);
            },
            Ok(ks) => ks,
        };
        let ghost parsed = ks;
        match ks.compute_constraints() {
            Err(e) => Err(LoadError::Compile(e)),
            Ok(()) => {
                proof {
                    let lines = split_on(data@, '\n');
                    assert forall|a: int, b: int|
                        0 <= a < b < ks.products@.len() implies ks.products@[a].id@
                        != ks.products@[b].id@ by {
                        assert(ks.products@[a].id == parsed.products@[a].id);
                        assert(ks.products@[b].id == parsed.products@[b].id);
                    }
                    assert forall|j: int| 0 <= j < ks.products@.len() implies from_last_product_line(
                        lines,
                        #[trigger] ks.products@[j],
                    ) by {
                        let (x, y) = (ks.products@[j], parsed.products@[j]);
                        assert(x.id == y.id && x.value == y.value && x.solution == y.solution
                            && x.requirements == y.requirements);
                        assert(from_last_product_line(lines, y));
                        let k = choose|k: int|
                            0 <= k < lines.len() && is_product_line(#[trigger] lines[k])
                                && product_fields(y, lines[k]) && forall|l: int|
                                k < l < lines.len() && is_product_line(#[trigger] lines[l])
                                    ==> line_id(lines[l]) != y.id@;
                        assert(product_fields(x, lines[k]));
                    }
                    assert forall|k: int|
                        0 <= k < lines.len() && is_product_line(#[trigger] lines[k]) implies has_product(
                        ks.products@,
                        line_id(lines[k]),
                    ) by {
                        assert(has_product(parsed.products@, line_id(lines[k])));
                        let j = choose|j: int|
                            0 <= j < parsed.products@.len() && (#[trigger] parsed.products@[j]).id@
                                == line_id(lines[k]);
                        assert(ks.products@[j].id == parsed.products@[j].id);
                    }
                }
                Ok(ks)
            },
        }
    }
}

} // verus!
