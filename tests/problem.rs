use genetic_knapsack::individual::Individual;
use genetic_knapsack::knapsack::{CompileError, KnapSack};
use genetic_knapsack::model::Config;
use genetic_knapsack::problem::LoadError;

fn config(mutations_per_1k: u32) -> Config {
    Config {
        population_size: 10,
        generations_count: 5,
        frequency: 1,
        path: String::new(),
        known_best: 15,
        stability_threshold: 3,
        mutations_per_1k,
    }
}

const TEXT: &str = "Resource: r: Room: 10\n\
                    # comment line\n\
                    product: A: 3: r=2\n\
                    PRODUCT : B : 5 : r=5 \n\
                    \n";

#[test]
fn parse_problem_lines() {
    let ks = KnapSack::parse_problem(TEXT, 7).unwrap();
    assert_eq!(ks.resources.len(), 1);
    assert_eq!(ks.resources[0].id, "r");
    assert_eq!(ks.resources[0].title, "Room");
    assert_eq!(ks.resources[0].amount, 10);
    assert_eq!(ks.products.len(), 2);
    assert_eq!(ks.products[0].id, "A");
    assert_eq!(ks.products[1].id, "B");
    assert_eq!(ks.products[1].value, 5);
    assert_eq!(ks.products[1].requirements[0].id, "r");
    assert_eq!(ks.products[1].requirements[0].amount, 5);
    assert_eq!(ks.mutation_ratio, 7);
    assert!(ks.genes.is_empty());
}

#[test]
fn parse_problem_later_line_replaces_earlier() {
    let ks = KnapSack::parse_problem("resource: r: Old: 1\nresource: r: New: 2\nresource: s: S: 3", 0)
        .unwrap();
    assert_eq!(ks.resources.len(), 2);
    assert_eq!(ks.resources[0].title, "New");
    assert_eq!(ks.resources[0].amount, 2);
    assert_eq!(ks.resources[1].id, "s");
}

#[test]
fn parse_problem_rejects_malformed_lines() {
    assert_eq!(
        KnapSack::parse_problem("resource: r: Room: 10\nproduct: A: x: r=1", 0).err(),
        Some(LoadError::MalformedLine(1))
    );
    assert_eq!(
        KnapSack::parse_problem("resource: r", 0).err(),
        Some(LoadError::MalformedLine(0))
    );
    assert_eq!(
        KnapSack::parse_problem("product: A: 1: r1", 0).err(),
        Some(LoadError::MalformedLine(0))
    );
}

#[test]
fn load_custom_kp_compiles() {
    let ks = KnapSack::load_custom_kp(TEXT, &config(100)).unwrap();
    assert_eq!(ks.products[0].max, 5);
    assert_eq!(ks.products[1].max, 2);
    assert_eq!(ks.fitness, vec![3, 6, 12, 5, 10]);
}

#[test]
fn load_custom_kp_errors() {
    assert_eq!(
        KnapSack::load_custom_kp(TEXT, &config(1001)).err(),
        Some(LoadError::MutationRatio)
    );
    assert_eq!(
        KnapSack::load_custom_kp("resource: r: R: 5\nproduct: A: 1: r=0", &config(0)).err(),
        Some(LoadError::Compile(CompileError::NoPositiveRequirement(0)))
    );
    assert_eq!(
        KnapSack::load_custom_kp("resource: r: R: -5", &config(0)).err(),
        Some(LoadError::Compile(CompileError::NegativeAmount))
    );
}

#[test]
fn solution_quantities_and_required() {
    let ks = KnapSack::load_custom_kp(TEXT, &config(0)).unwrap();
    let i = Individual { genotype: vec![true, false, true, false, false], fitness: 15 };
    assert_eq!(ks.solution_quantities(&i), vec![5, 0]);
    let j = Individual { genotype: vec![false, false, false, false, true], fitness: 10 };
    assert_eq!(ks.solution_quantities(&j), vec![0, 2]);
    let req = ks.required(&j);
    assert_eq!(req[0].amount, 20);
    assert_eq!(req[0].id, "r");
    assert_eq!(ks.remains(&j)[0].amount, 0);
}

#[test]
fn later_product_line_wins_and_other_lines_are_ignored() {
    let text = "resource: R: Res: 10\nproduct: A: 3: R=2\ncomment: x\n\nproduct: A: 4: R=5\n";
    let ks = KnapSack::load_custom_kp(text, &config(9)).unwrap();
    assert_eq!(ks.resources.len(), 1);
    assert_eq!(ks.resources[0].id, "R");
    assert_eq!(ks.resources[0].title, "Res");
    assert_eq!(ks.resources[0].amount, 10);
    assert_eq!(ks.products.len(), 1);
    assert_eq!(ks.products[0].value, 4);
    assert_eq!(ks.products[0].requirements.len(), 1);
    assert_eq!(ks.products[0].requirements[0].amount, 5);
    assert_eq!(ks.products[0].max, 2);
    assert_eq!(ks.fitness, vec![4, 8]);
    assert_eq!(ks.mutation_ratio, 9);
}
