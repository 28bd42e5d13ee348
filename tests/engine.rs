use genetic_knapsack::evolution::Evolution;
use genetic_knapsack::individual::Individual;
use genetic_knapsack::knapsack::KnapSack;
use genetic_knapsack::model::{Config, Product, Requirement, Resource};
use genetic_knapsack::population::{
    distribute, new_population, pick_individual, select_index, sort_by_fitness, total_fitness,
};
use rand::rngs::StdRng;
use rand::SeedableRng;

fn scenario(mutation_ratio: u32) -> KnapSack {
    let mut ks = KnapSack::new(
        vec![Resource { id: "r".to_string(), title: "Room".to_string(), amount: 10 }],
        vec![
            Product {
                id: "A".to_string(),
                value: 3,
                max: 0,
                solution: 0,
                requirements: vec![Requirement { id: "r".to_string(), amount: 2 }],
            },
            Product {
                id: "B".to_string(),
                value: 5,
                max: 0,
                solution: 0,
                requirements: vec![Requirement { id: "r".to_string(), amount: 5 }],
            },
        ],
        mutation_ratio,
    );
    ks.compute_constraints().unwrap();
    ks
}

fn config(population_size: usize) -> Config {
    Config {
        population_size,
        generations_count: 30,
        frequency: 10,
        path: String::new(),
        known_best: 15,
        stability_threshold: 5,
        mutations_per_1k: 500,
    }
}

fn indiv(genotype: Vec<bool>, fitness: u32) -> Individual {
    Individual { genotype, fitness }
}

fn check_individual(ks: &KnapSack, i: &Individual) {
    assert_eq!(i.genotype.len(), ks.genes.len());
    assert!(ks.validate(i));
    assert!(ks.remains(i).iter().all(|r| r.amount >= 0));
    let expected: u32 = i
        .genotype
        .iter()
        .zip(ks.fitness.iter())
        .filter(|(g, _)| **g)
        .map(|(_, f)| *f)
        .sum();
    assert_eq!(i.fitness, expected);
    assert_eq!(ks.get_fitness(i), expected);
}

#[test]
fn remains_and_fitness_of_a_genotype() {
    let ks = scenario(0);
    // A_0 (2 units of cost, value 3) and B_1 (10, value 10)
    let i = indiv(vec![true, false, false, false, true], 0);
    assert_eq!(ks.get_fitness(&i), 13);
    let rem = ks.remains(&i);
    assert_eq!(rem.len(), 1);
    assert_eq!(rem[0].id, "r");
    assert_eq!(rem[0].title, "Room");
    assert_eq!(rem[0].amount, -2);
    assert!(!ks.validate(&i));
    let j = indiv(vec![false, false, false, false, true], 0);
    assert_eq!(ks.remains(&j)[0].amount, 0);
    assert!(ks.validate(&j));
}

#[test]
fn active_and_inactive_genes() {
    let i = indiv(vec![true, false, true, false, false], 0);
    assert_eq!(i.active_genes(), vec![0, 2]);
    assert_eq!(i.inactive_genes(), vec![1, 3, 4]);
}

#[test]
fn repair_makes_feasible_and_only_switches_off() {
    let ks = scenario(0);
    let mut rng = StdRng::seed_from_u64(7);
    for _ in 0..50 {
        let all = indiv(vec![true; 5], 0);
        let fixed = ks.make_valid(all, &mut rng);
        check_individual(&ks, &fixed);
    }
    let feasible = indiv(vec![false, true, false, true, false], 99);
    let same = ks.make_valid(feasible, &mut rng);
    assert_eq!(same.genotype, vec![false, true, false, true, false]);
    assert_eq!(same.fitness, 11);
}

#[test]
fn new_individuals_are_feasible_with_exact_fitness() {
    let ks = scenario(0);
    let mut rng = StdRng::seed_from_u64(1);
    for _ in 0..100 {
        let i = Individual::new(&ks, &mut rng);
        check_individual(&ks, &i);
    }
}

#[test]
fn mutations_change_at_most_one_gene() {
    let ks = scenario(0);
    let mut rng = StdRng::seed_from_u64(3);
    for _ in 0..100 {
        let mut i = Individual::new(&ks, &mut rng);
        let before = i.genotype.clone();
        i.mutate_up(&ks, &mut rng);
        let diff: Vec<usize> = (0..5).filter(|k| before[*k] != i.genotype[*k]).collect();
        assert!(diff.len() <= 1);
        for k in diff {
            assert!(!before[k] && i.genotype[k]);
        }
        assert!(ks.validate(&i));
        let before = i.genotype.clone();
        i.mutate_down(&ks, &mut rng);
        let diff: Vec<usize> = (0..5).filter(|k| before[*k] != i.genotype[*k]).collect();
        assert!(diff.len() <= 1);
        for k in diff {
            assert!(before[k] && !i.genotype[k]);
        }
    }
}

#[test]
fn single_and_double_split_crossover() {
    let ks = scenario(0);
    let a = indiv(vec![true; 5], 0);
    let b = indiv(vec![false; 5], 0);
    assert_eq!(ks.cross_1(2, &a, &b).genotype, vec![true, true, false, false, false]);
    assert_eq!(ks.cross_1(0, &a, &b).genotype, vec![false; 5]);
    assert_eq!(ks.cross_2(1, 3, &a, &b).genotype, vec![true, false, false, false, true]);
    assert_eq!(ks.cross_2(2, 2, &a, &b).genotype, vec![true, true, false, true, true]);
}

#[test]
fn uniform_crossover_takes_each_gene_from_a_parent() {
    let ks = scenario(0);
    let mut rng = StdRng::seed_from_u64(11);
    let a = indiv(vec![true, true, false, false, true], 0);
    let b = indiv(vec![true, false, true, false, false], 0);
    for _ in 0..20 {
        let c = ks.cross_rand(&a, &b, &mut rng);
        assert_eq!(c.genotype.len(), 5);
        assert!(!c.genotype[3]);
        assert!(c.genotype[0]);
    }
}

#[test]
fn offspring_are_feasible() {
    let ks = scenario(1000);
    let mut rng = StdRng::seed_from_u64(5);
    for _ in 0..100 {
        let a = Individual::new(&ks, &mut rng);
        let b = Individual::new(&ks, &mut rng);
        let c = ks.cross_genes(&a, &b, &mut rng);
        check_individual(&ks, &c);
    }
}

#[test]
fn distribute_interleaves() {
    let pop: Vec<Individual> = [5, 4, 3, 2, 1].iter().map(|f| indiv(vec![], *f)).collect();
    let out: Vec<u32> = distribute(pop).iter().map(|i| i.fitness).collect();
    assert_eq!(out, vec![2, 4, 5, 3, 1]);
    assert!(distribute(vec![]).is_empty());
}

#[test]
fn sort_orders_by_fitness_descending() {
    let pop: Vec<Individual> = [3, 9, 1, 9, 4].iter().map(|f| indiv(vec![], *f)).collect();
    let out: Vec<u32> = sort_by_fitness(pop).iter().map(|i| i.fitness).collect();
    assert_eq!(out, vec![9, 9, 4, 3, 1]);
}

#[test]
fn total_fitness_sums() {
    let pop: Vec<Individual> = [3, 9, 1].iter().map(|f| indiv(vec![], *f)).collect();
    assert_eq!(total_fitness(&pop), 13);
    let big: Vec<Individual> = (0..3).map(|_| indiv(vec![], u32::MAX)).collect();
    assert_eq!(total_fitness(&big), 3 * u32::MAX as u64);
}

#[test]
fn select_index_scans_running_sum() {
    let pop: Vec<Individual> = [3, 0, 4, 2].iter().map(|f| indiv(vec![], *f)).collect();
    assert_eq!(select_index(&pop, 0), 0);
    assert_eq!(select_index(&pop, 3), 0);
    assert_eq!(select_index(&pop, 4), 2);
    assert_eq!(select_index(&pop, 7), 2);
    assert_eq!(select_index(&pop, 8), 3);
    assert_eq!(select_index(&pop, 9), 3);
}

#[test]
fn pick_with_zero_total_is_first() {
    let mut rng = StdRng::seed_from_u64(9);
    let pop: Vec<Individual> = (0..4).map(|_| indiv(vec![], 0)).collect();
    for _ in 0..20 {
        assert_eq!(pick_individual(&mut rng, 0, &pop), 0);
    }
    let pop: Vec<Individual> = [1, 1, 6].iter().map(|f| indiv(vec![], *f)).collect();
    for _ in 0..50 {
        assert!(pick_individual(&mut rng, 8, &pop) < 3);
    }
}

#[test]
fn new_population_is_sorted_and_feasible() {
    let ks = scenario(0);
    let mut rng = StdRng::seed_from_u64(2);
    let pop = new_population(&config(12), &ks, &mut rng);
    assert_eq!(pop.len(), 12);
    for w in pop.windows(2) {
        assert!(w[0].fitness >= w[1].fitness);
    }
    for i in &pop {
        check_individual(&ks, i);
    }
}

#[test]
fn end_to_end_run() {
    let ks = scenario(100);
    let cfg = config(20);
    let mut rng = StdRng::seed_from_u64(42);
    let mut run = Evolution::start(&cfg, &ks, &mut rng);
    let mut best = run.champion.fitness;
    for g in 1..=cfg.generations_count {
        run.evolve(&cfg, &ks, &mut rng);
        assert_eq!(run.generation, g);
        assert_eq!(run.population.len(), 20);
        assert_eq!(run.population[0].genotype, run.champion.genotype);
        assert_eq!(run.population[0].fitness, run.champion.fitness);
        for w in run.population[1..].windows(2) {
            assert!(w[0].fitness >= w[1].fitness);
        }
        for i in &run.population {
            check_individual(&ks, i);
        }
        assert!(run.champion.fitness >= best);
        best = run.champion.fitness;
    }
    assert!(run.champion.fitness <= 15);
    assert!(ks.remains(&run.champion).iter().all(|r| r.amount >= 0));
}

#[test]
fn whole_run_reaches_generation_count() {
    let ks = scenario(50);
    let cfg = config(8);
    let mut rng = StdRng::seed_from_u64(17);
    let run = Evolution::run(&cfg, &ks, &mut rng);
    assert_eq!(run.generation, cfg.generations_count);
    assert_eq!(run.population.len(), 8);
    assert!(run.champion.fitness <= 15);
    check_individual(&ks, &run.champion);
}

#[test]
fn offspring_without_mutation_take_genes_from_parents() {
    let ks = scenario(0);
    let mut rng = StdRng::seed_from_u64(23);
    let a = indiv(vec![true, false, false, false, false], 3);
    let b = indiv(vec![false, false, false, true, false], 5);
    for _ in 0..50 {
        let c = ks.cross_genes(&a, &b, &mut rng);
        check_individual(&ks, &c);
        assert!(!c.genotype[1] && !c.genotype[2] && !c.genotype[4]);
    }
}

#[test]
fn mutations_act_when_a_gene_qualifies() {
    let mut ks = scenario(0);
    ks.rand_up_activates = true;
    let mut rng = StdRng::seed_from_u64(31);
    for _ in 0..50 {
        // only A_0 (cost 2) is active: A_1 (cost 4) still fits with room to spare
        let mut i = indiv(vec![true, false, false, false, false], 3);
        i.mutate_up(&ks, &mut rng);
        assert_eq!(i.genotype.iter().filter(|g| **g).count(), 2);
        let mut j = indiv(vec![true, false, false, false, false], 3);
        j.mutate_down(&ks, &mut rng);
        assert_eq!(j.genotype, vec![false; 5]);
    }
}

#[test]
fn crossing_an_individual_with_itself_gives_it_back() {
    let ks = scenario(0);
    let mut rng = StdRng::seed_from_u64(41);
    for _ in 0..20 {
        let a = Individual::new(&ks, &mut rng);
        let c = ks.cross_genes(&a, &a, &mut rng);
        assert_eq!(c.genotype, a.genotype);
        assert_eq!(c.fitness, a.fitness);
    }
}

#[test]
fn repair_stops_as_soon_as_feasible() {
    let ks = scenario(0);
    let mut rng = StdRng::seed_from_u64(43);
    for _ in 0..50 {
        let all = indiv(vec![true; 5], 0);
        let fixed = ks.make_valid(all, &mut rng);
        let stoppable = (0..5).any(|k| {
            if fixed.genotype[k] {
                return false;
            }
            let mut g = fixed.genotype.clone();
            g[k] = true;
            !ks.validate(&indiv(g, 0))
        });
        assert!(stoppable);
    }
}
