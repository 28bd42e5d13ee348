//! The problem model: resources, products and the requirements that tie them.
use crate::text::{parse_i64, parse_u32, parsed_i64, parsed_u32, split, split_on, trim, trimmed};
use vstd::prelude::*;

verus! {

/// A shared budget.
#[derive(Debug, Clone, Default)]
pub struct Resource {
    pub id: String,
    pub title: String,
    pub amount: i64,
}

/// The amount of one resource that a single unit of a product consumes.
#[derive(Debug, Clone, Default)]
pub struct Requirement {
    pub id: String,
    pub amount: u32,
}

/// A product that may be chosen in an integer quantity.
#[derive(Debug, Clone, Default)]
pub struct Product {
    pub id: String,
    pub value: u32,
    /// Largest quantity that the resources could supply on their own.
    pub max: u32,
    /// Quantity chosen by the final champion.
    pub solution: u32,
    pub requirements: Vec<Requirement>,
}

/// Run parameters of the search.
#[derive(Debug, Clone, Default)]
pub struct Config {
    pub population_size: usize,
    pub generations_count: u32,
    pub frequency: u32,
    pub path: String,
    pub known_best: u32,
    pub stability_threshold: u32,
    pub mutations_per_1k: u32,
}

impl Resource {
    /// A resource from the fields `id`, `title` and `amount` of a problem
    /// line, each trimmed; `None` when a field is missing or the amount is
    /// not an integer.
    pub fn new(input: &[&str]) -> (r: Option<Resource>)
        ensures
            r is Some <==> input@.len() >= 3 && parsed_i64(trimmed(input@[2]@)) is Some,
            r matches Some(res) ==> {
                &&& res.id@ == trimmed(input@[0]@)
                &&& res.title@ == trimmed(input@[1]@)
                &&& Some(res.amount) == parsed_i64(trimmed(input@[2]@))
            },
    {
        if input.len() < 3 {
            return None;
        }
        match parse_i64(trim(input[2])) {
            None => None,
            Some(amount) => Some(
                Resource { id: trim(input[0]).to_owned(), title: trim(input[1]).to_owned(), amount },
            ),
        }
    }
}

impl Requirement {
    /// A requirement from `id=amount`; `None` when there is no `=` or the
    /// amount is not an unsigned integer.
    pub fn new(input: &str) -> (r: Option<Requirement>)
        ensures
            r is Some <==> split_on(input@, '=').len() >= 2 && parsed_u32(
                split_on(input@, '=')[1],
            ) is Some,
            r matches Some(q) ==> {
                &&& q.id@ == split_on(input@, '=')[0]
                &&& Some(q.amount) == parsed_u32(split_on(input@, '=')[1])
            },
    {
        let parts = split(input, '=');
        if parts.len() < 2 {
            return None;
        }
        match parse_u32(parts[1].as_str()) {
            None => None,
            Some(amount) => Some(Requirement { id: parts[0].clone(), amount }),
        }
    }
}

/// The character sequences of `texts`.
pub open spec fn texts_view(texts: Seq<&str>) -> Seq<Seq<char>> {
    texts.map_values(|t: &str| t@)
}

/// Whether every text of `reqs`, trimmed, is a requirement.
pub open spec fn requirements_parse(reqs: Seq<Seq<char>>) -> bool {
    forall|i: int|
        0 <= i < reqs.len() ==> {
            let t = trimmed(#[trigger] reqs[i]);
            split_on(t, '=').len() >= 2 && parsed_u32(split_on(t, '=')[1]) is Some
        }
}

impl Product {
    /// A product from the fields `id`, `value` and then one `id=amount`
    /// requirement per field, each trimmed; `None` when the value is missing
    /// or not an unsigned integer, or a requirement does not parse. Maximum
    /// and solution start at 0.
    pub fn new(input: &[&str]) -> (r: Option<Product>)
        ensures
            r is Some <==> input@.len() >= 2 && parsed_u32(trimmed(input@[1]@)) is Some
                && requirements_parse(texts_view(input@).skip(2)),
            r matches Some(p) ==> {
                &&& p.id@ == trimmed(input@[0]@)
                &&& Some(p.value) == parsed_u32(trimmed(input@[1]@))
                &&& p.max == 0
                &&& p.solution == 0
                &&& p.requirements@.len() == input@.len() - 2
                &&& forall|i: int|
                    0 <= i < p.requirements@.len() ==> {
                        let t = trimmed(input@[i + 2]@);
                        &&& (#[trigger] p.requirements@[i]).id@ == split_on(t, '=')[0]
                        &&& Some(p.requirements@[i].amount) == parsed_u32(split_on(t, '=')[1])
                    }
            },
    {
        if input.len() < 2 {
            return None;
        }
        let value = match parse_u32(trim(input[1])) {
            None => {
                return None;
            },
            Some(v) => v,
        };
        let mut requirements: Vec<Requirement> = Vec::new();
        let mut i: usize = 2;
        while i < input.len()
            invariant
                2 <= i <= input@.len(),
                requirements@.len() == i - 2,
                requirements_parse(texts_view(input@).skip(2).take(i - 2)),
                forall|k: int|
                    0 <= k < requirements@.len() ==> {
                        let t = trimmed(input@[k + 2]@);
                        &&& (#[trigger] requirements@[k]).id@ == split_on(t, '=')[0]
                        &&& Some(requirements@[k].amount) == parsed_u32(split_on(t, '=')[1])
                    },
            decreases input@.len() - i,
        {
            match Requirement::new(trim(input[i])) {
                None => {
                    proof {
                        let t = texts_view(input@).skip(2);
                        assert(t[i - 2] == input@[i as int]@);
                    }
                    return None;
                },
                Some(q) => {
                    requirements.push(q);
                },
            }
            i += 1;
            proof {
                let t = texts_view(input@).skip(2).take(i - 2);
                assert forall|k: int| 0 <= k < t.len() implies {
                    let u = trimmed(#[trigger] t[k]);
                    split_on(u, '=').len() >= 2 && parsed_u32(split_on(u, '=')[1]) is Some
                } by {
                    if k < i - 3 {
                        assert(t[k] == texts_view(input@).skip(2).take(i - 3)[k]);
                    } else {
                        assert(t[k] == input@[i - 1]@);
                    }
                }
            }
        }
        assert(texts_view(input@).skip(2).take(i - 2) =~= texts_view(input@).skip(2));
        Some(Product { id: trim(input[0]).to_owned(), value, max: 0, solution: 0, requirements })
    }
}

} // verus!
