use genetic_knapsack::knapsack::{gene_count_exec, CompileError, Gene, KnapSack};
use genetic_knapsack::model::{Product, Requirement, Resource};

fn resource(id: &str, amount: i64) -> Resource {
    Resource { id: id.to_string(), title: format!("title {}", id), amount }
}

fn product(id: &str, value: u32, reqs: &[(&str, u32)]) -> Product {
    Product {
        id: id.to_string(),
        value,
        max: 0,
        solution: 0,
        requirements: reqs
            .iter()
            .map(|(r, a)| Requirement { id: r.to_string(), amount: *a })
            .collect(),
    }
}

fn two_products() -> KnapSack {
    KnapSack::new(
        vec![resource("r", 10)],
        vec![product("A", 3, &[("r", 2)]), product("B", 5, &[("r", 5)])],
        100,
    )
}

#[test]
fn gene_count_of_several_maxima() {
    assert_eq!(gene_count_exec(0), 0);
    assert_eq!(gene_count_exec(1), 1);
    assert_eq!(gene_count_exec(2), 2);
    assert_eq!(gene_count_exec(3), 2);
    assert_eq!(gene_count_exec(4), 3);
    assert_eq!(gene_count_exec(5), 3);
    assert_eq!(gene_count_exec(7), 3);
    assert_eq!(gene_count_exec(8), 4);
    assert_eq!(gene_count_exec(9), 4);
    assert_eq!(gene_count_exec(u32::MAX), 32);
}

#[test]
fn compile_two_products() {
    let mut ks = two_products();
    assert_eq!(ks.compute_constraints(), Ok(()));
    assert_eq!(ks.products[0].max, 5);
    assert_eq!(ks.products[1].max, 2);
    assert_eq!(
        ks.genes,
        vec![
            Gene { product: 0, power: 0 },
            Gene { product: 0, power: 1 },
            Gene { product: 0, power: 2 },
            Gene { product: 1, power: 0 },
            Gene { product: 1, power: 1 },
        ]
    );
    assert_eq!(ks.constraints, vec![vec![2], vec![4], vec![8], vec![5], vec![10]]);
    assert_eq!(ks.fitness, vec![3, 6, 12, 5, 10]);
}

#[test]
fn compile_exact_power_of_two_maximum() {
    let mut ks = KnapSack::new(
        vec![resource("a", 12), resource("b", 100)],
        vec![product("P", 7, &[("a", 3), ("b", 0)])],
        0,
    );
    assert_eq!(ks.compute_constraints(), Ok(()));
    assert_eq!(ks.products[0].max, 4);
    assert_eq!(ks.genes.len(), 3);
    assert_eq!(ks.constraints, vec![vec![3, 0], vec![6, 0], vec![12, 0]]);
    assert_eq!(ks.fitness, vec![7, 14, 28]);
}

#[test]
fn compile_takes_least_capacity_and_unknown_resource_as_zero() {
    let mut ks = KnapSack::new(
        vec![resource("a", 100), resource("b", 9)],
        vec![product("P", 1, &[("a", 10), ("b", 3)]), product("Q", 1, &[("zz", 1), ("a", 1)])],
        0,
    );
    assert_eq!(ks.compute_constraints(), Ok(()));
    assert_eq!(ks.products[0].max, 3);
    assert_eq!(ks.products[1].max, 0);
    assert_eq!(ks.genes.len(), 2);
}

#[test]
fn compile_rejects_negative_amount() {
    let mut ks = KnapSack::new(vec![resource("r", -1)], vec![product("A", 1, &[("r", 1)])], 0);
    assert_eq!(ks.compute_constraints(), Err(CompileError::NegativeAmount));
}

#[test]
fn compile_rejects_product_without_positive_requirement() {
    let mut ks = KnapSack::new(
        vec![resource("r", 10)],
        vec![product("A", 1, &[("r", 1)]), product("B", 1, &[("r", 0)])],
        0,
    );
    assert_eq!(ks.compute_constraints(), Err(CompileError::NoPositiveRequirement(1)));
    let mut empty = KnapSack::new(vec![resource("r", 10)], vec![product("C", 1, &[])], 0);
    assert_eq!(empty.compute_constraints(), Err(CompileError::NoPositiveRequirement(0)));
}

#[test]
fn compile_rejects_overflowing_values() {
    let mut ks = KnapSack::new(
        vec![resource("r", 1 << 40)],
        vec![product("A", 1, &[("r", 1)])],
        0,
    );
    assert_eq!(ks.compute_constraints(), Err(CompileError::Overflow));
    let mut ks = KnapSack::new(
        vec![resource("r", 4)],
        vec![product("A", u32::MAX, &[("r", 1)])],
        0,
    );
    assert_eq!(ks.compute_constraints(), Err(CompileError::Overflow));
}

#[test]
fn compile_with_no_products() {
    let mut ks = KnapSack::new(vec![resource("r", 3)], vec![], 0);
    assert_eq!(ks.compute_constraints(), Ok(()));
    assert!(ks.genes.is_empty());
}
