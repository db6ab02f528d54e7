use evolution::anneal::{
    propose_from_draws, anneal_step, annealing_iterations, keep_best, propose_swap, swap_budget_for, AnnealStep, Proposal,
};
use evolution::candidate::Candidate;
use evolution::climb::{exhaustive_hill_climb, exhaustive_hill_climb_budgeted};
use evolution::greedy::{density_order, greedy_fill};
use evolution::order::{ratio_less, ratio_same, Ratio};
use evolution::population::{
    best_items, crossover, flip_genes, mix_parents, evaluate, initialize, mutate, mutate_child, next_generation, select,
    EvolutionConfig,
};
use evolution::problem::{Item, KnapsackProblem};
use evolution::repair::{repair, repair_with, selected_indices};
use evolution::search::{best_exchange, local_search, search_round, swap_items};
use rand::distributions::Bernoulli;
use rand::rngs::StdRng;
use rand::{Rng, SeedableRng};

/// Builds an instance from `(weight, value)` pairs.
fn instance(items: &[(u64, u64)], capacity: u64) -> KnapsackProblem {
    KnapsackProblem {
        items: items.iter().map(|&(weight, value)| Item { weight, value }).collect(),
        capacity,
    }
}

fn classic() -> KnapsackProblem {
    instance(&[(10, 60), (20, 100), (30, 120)], 50)
}

fn config(population_size: usize, elite_count: usize, mutation_rate: f64) -> EvolutionConfig {
    EvolutionConfig {
        population_size,
        generations: 10,
        elite_count,
        mutation: Bernoulli::new(mutation_rate).unwrap(),
        seed: 42,
    }
}

fn with_genes(problem: &KnapsackProblem, genes: &[bool]) -> Candidate {
    let mut c = Candidate::new(problem.items.len());
    for (i, &g) in genes.iter().enumerate() {
        if g {
            c.add(i, problem);
        }
    }
    c
}

fn totals_match(c: &Candidate, p: &KnapsackProblem) -> bool {
    let mut w = 0u64;
    let mut v = 0u64;
    for (i, &g) in c.genes.iter().enumerate() {
        if g {
            w += p.items[i].weight;
            v += p.items[i].value;
        }
    }
    c.genes.len() == p.items.len() && w == c.weight && v == c.fitness
}

fn medium() -> KnapsackProblem {
    let mut items = Vec::new();
    for i in 0..40u64 {
        items.push((5 + (i * 7) % 23, 10 + (i * 13) % 37));
    }
    instance(&items, 150)
}

#[test]
fn new_candidate_is_empty() {
    let c = Candidate::new(5);
    assert_eq!(c.genes, vec![false; 5]);
    assert_eq!(c.fitness, 0);
    assert_eq!(c.weight, 0);
}

#[test]
fn add_puts_item_in_once() {
    let p = classic();
    let mut c = Candidate::new(3);
    c.add(1, &p);
    assert_eq!(c.genes, vec![false, true, false]);
    assert_eq!((c.weight, c.fitness), (20, 100));
    c.add(1, &p);
    assert_eq!((c.weight, c.fitness), (20, 100));
}

#[test]
fn remove_takes_item_out_once() {
    let p = classic();
    let mut c = with_genes(&p, &[true, true, false]);
    c.remove(0, &p);
    assert_eq!(c.genes, vec![false, true, false]);
    assert_eq!((c.weight, c.fitness), (20, 100));
    c.remove(0, &p);
    assert_eq!((c.weight, c.fitness), (20, 100));
}

#[test]
fn remove_undoes_add() {
    let p = classic();
    let mut c = with_genes(&p, &[false, true, false]);
    c.add(2, &p);
    c.remove(2, &p);
    assert_eq!(c.genes, vec![false, true, false]);
    assert_eq!((c.weight, c.fitness), (20, 100));
}

#[test]
fn add_undoes_remove() {
    let p = classic();
    let mut c = with_genes(&p, &[true, true, false]);
    c.remove(0, &p);
    c.add(0, &p);
    assert_eq!(c.genes, vec![true, true, false]);
    assert_eq!((c.weight, c.fitness), (30, 160));
}

#[test]
fn duplicate_copies_everything() {
    let p = classic();
    let c = with_genes(&p, &[true, false, true]);
    let d = c.duplicate();
    assert_eq!(d.genes, c.genes);
    assert_eq!((d.weight, d.fitness), (40, 180));
}

#[test]
fn fractions_compare_exactly() {
    let a = Ratio { num: 1, den: 3 };
    let b = Ratio { num: 2, den: 6 };
    let c = Ratio { num: 1, den: 2 };
    assert!(ratio_same(a, b));
    assert!(ratio_less(a, c));
    assert!(!ratio_less(c, a));
    let inf = Ratio { num: 5, den: 0 };
    assert!(ratio_less(c, inf));
    let big = Ratio { num: u64::MAX, den: u64::MAX - 1 };
    let one = Ratio { num: 1, den: 1 };
    assert!(ratio_less(one, big));
}

#[test]
fn density_order_highest_first() {
    assert_eq!(density_order(&classic()), vec![0, 1, 2]);
}

#[test]
fn density_order_ties_keep_index_order() {
    // densities 2, 2, 3, 2
    let p = instance(&[(2, 4), (1, 2), (1, 3), (3, 6)], 10);
    assert_eq!(density_order(&p), vec![2, 0, 1, 3]);
}

#[test]
fn density_order_weightless_item_first() {
    let p = instance(&[(4, 8), (0, 1), (1, 9)], 10);
    assert_eq!(density_order(&p), vec![1, 2, 0]);
}

#[test]
fn density_order_single_weightless_valueless_item() {
    let p = instance(&[(0, 0)], 10);
    assert_eq!(density_order(&p), vec![0]);
}

#[test]
fn greedy_fill_takes_what_fits_in_order() {
    let p = classic();
    let mut c = Candidate::new(3);
    greedy_fill(&mut c, &[0, 1, 2], &p);
    assert_eq!(c.genes, vec![true, true, false]);
    assert_eq!((c.weight, c.fitness), (30, 160));
    let mut d = Candidate::new(3);
    greedy_fill(&mut d, &[2, 0, 1], &p);
    assert_eq!(d.genes, vec![true, false, true]);
    assert_eq!((d.weight, d.fitness), (40, 180));
}

#[test]
fn greedy_fill_skips_item_that_does_not_fit_and_goes_on() {
    let p = instance(&[(8, 10), (5, 9), (2, 1)], 10);
    let mut c = Candidate::new(3);
    greedy_fill(&mut c, &[0, 1, 2], &p);
    assert_eq!(c.genes, vec![true, false, true]);
    assert_eq!((c.weight, c.fitness), (10, 11));
}

#[test]
fn initialize_seeds_the_four_greedy_fills() {
    let p = classic();
    let mut rng = StdRng::seed_from_u64(7);
    let pop = initialize(&p, &config(6, 1, 0.1), &mut rng);
    assert_eq!(pop.len(), 6);
    // by density: 0, 1, 2
    assert_eq!(pop[0].genes, vec![true, true, false]);
    // by value: 2, 1, 0
    assert_eq!(pop[1].genes, vec![false, true, true]);
    assert_eq!(pop[1].fitness, 220);
    // lightest first: 0, 1, 2
    assert_eq!(pop[2].genes, vec![true, true, false]);
    // heaviest first: 2, 1, 0
    assert_eq!(pop[3].genes, vec![false, true, true]);
    for c in &pop {
        assert!(c.weight <= p.capacity);
        assert!(totals_match(c, &p));
    }
}

#[test]
fn initialize_makes_at_least_four() {
    let p = classic();
    let mut rng = StdRng::seed_from_u64(1);
    let pop = initialize(&p, &config(2, 1, 0.1), &mut rng);
    assert_eq!(pop.len(), 4);
}

#[test]
fn shuffled_seeds_differ_from_fixed_orders() {
    let p = medium();
    let mut rng = StdRng::seed_from_u64(3);
    let pop = initialize(&p, &config(12, 1, 0.1), &mut rng);
    let identity: Vec<usize> = (0..p.items.len()).collect();
    let mut in_order = Candidate::new(p.items.len());
    greedy_fill(&mut in_order, &identity, &p);
    assert!(pop[4..].iter().any(|c| c.genes != in_order.genes));
    for c in &pop {
        assert!(c.weight <= p.capacity);
        assert!(totals_match(c, &p));
    }
}

#[test]
fn evaluate_sorts_by_fitness_stably() {
    let p = instance(&[(1, 5), (1, 9), (1, 5), (1, 7)], 10);
    let mut pop = vec![
        with_genes(&p, &[true, false, false, false]),
        with_genes(&p, &[false, true, false, false]),
        with_genes(&p, &[false, false, true, false]),
        with_genes(&p, &[false, false, false, true]),
    ];
    evaluate(&mut pop);
    let fits: Vec<u64> = pop.iter().map(|c| c.fitness).collect();
    assert_eq!(fits, vec![9, 7, 5, 5]);
    assert_eq!(pop[2].genes, vec![true, false, false, false]);
    assert_eq!(pop[3].genes, vec![false, false, true, false]);
}

#[test]
fn evaluate_empty_population() {
    let mut pop: Vec<Candidate> = Vec::new();
    evaluate(&mut pop);
    assert!(pop.is_empty());
}

#[test]
fn select_takes_at_least_two() {
    assert_eq!(select(3), vec![0, 1, 2]);
    assert_eq!(select(1), vec![0, 1]);
    assert_eq!(select(0), vec![0, 1]);
}

#[test]
fn selected_indices_lists_genes_in_order() {
    assert_eq!(selected_indices(&vec![false, true, true, false, true]), vec![1, 2, 4]);
    assert_eq!(selected_indices(&vec![false, false]), Vec::<usize>::new());
}

#[test]
fn repair_brings_candidate_within_capacity() {
    let p = classic();
    for seed in 0..20 {
        let mut rng = StdRng::seed_from_u64(seed);
        let mut c = with_genes(&p, &[true, true, true]);
        let before = c.genes.clone();
        repair(&mut c, &p, &mut rng);
        assert!(c.weight <= p.capacity);
        assert!(totals_match(&c, &p));
        for i in 0..3 {
            assert!(!c.genes[i] || before[i]);
        }
        // only one item needs to go out
        assert_eq!(c.genes.iter().filter(|&&g| g).count(), 2);
    }
}

#[test]
fn repair_leaves_fitting_candidate_alone() {
    let p = classic();
    let mut rng = StdRng::seed_from_u64(5);
    let mut c = with_genes(&p, &[false, true, true]);
    repair(&mut c, &p, &mut rng);
    assert_eq!(c.genes, vec![false, true, true]);
    assert_eq!((c.weight, c.fitness), (50, 220));
}

#[test]
fn repair_smart_or_random_outcomes() {
    // Dropping the least dense item first (item 2) or a random one.
    let p = classic();
    let mut saw_smart = false;
    for seed in 0..40 {
        let mut rng = StdRng::seed_from_u64(seed);
        let mut c = with_genes(&p, &[true, true, true]);
        repair(&mut c, &p, &mut rng);
        if c.genes == vec![true, true, false] {
            saw_smart = true;
        }
    }
    assert!(saw_smart);
}

#[test]
fn local_search_never_loses_value() {
    let p = medium();
    let mut rng = StdRng::seed_from_u64(9);
    let mut c = Candidate::new(p.items.len());
    greedy_fill(&mut c, &[39, 38, 37, 36, 35, 34, 33], &p);
    let before_fit = c.fitness;
    let before_count = c.genes.iter().filter(|&&g| g).count();
    local_search(&mut c, &p, &mut rng, 30);
    assert!(c.fitness >= before_fit);
    assert!(c.weight <= p.capacity);
    assert!(totals_match(&c, &p));
    assert_eq!(c.genes.iter().filter(|&&g| g).count(), before_count);
}

#[test]
fn local_search_on_empty_bag_does_nothing() {
    let p = classic();
    let mut rng = StdRng::seed_from_u64(2);
    let mut c = Candidate::new(3);
    local_search(&mut c, &p, &mut rng, 10);
    assert_eq!(c.genes, vec![false; 3]);
}

#[test]
fn swap_items_exchanges_and_back() {
    let p = classic();
    let mut c = with_genes(&p, &[true, false, false]);
    swap_items(&mut c, 0, 2, &p);
    assert_eq!(c.genes, vec![false, false, true]);
    assert_eq!((c.weight, c.fitness), (30, 120));
    swap_items(&mut c, 2, 0, &p);
    assert_eq!(c.genes, vec![true, false, false]);
    assert_eq!((c.weight, c.fitness), (10, 60));
}

#[test]
fn crossover_makes_feasible_children() {
    let p = medium();
    let mut rng = StdRng::seed_from_u64(11);
    let cfg = config(8, 2, 0.1);
    let mut pop = initialize(&p, &cfg, &mut rng);
    evaluate(&mut pop);
    let parents = select(3);
    let children = crossover(&pop, &parents, &p, &cfg, &mut rng, 5);
    assert_eq!(children.len(), 6);
    for c in &children {
        assert!(c.weight <= p.capacity);
        assert!(totals_match(c, &p));
    }
}

#[test]
fn crossover_of_identical_parents_without_search_copies_them() {
    let p = classic();
    let mut rng = StdRng::seed_from_u64(4);
    let cfg = config(3, 0, 0.1);
    let parent = with_genes(&p, &[true, false, true]);
    let pop = vec![parent.duplicate(), parent.duplicate()];
    let children = crossover(&pop, &[0, 1], &p, &cfg, &mut rng, 0);
    assert_eq!(children.len(), 3);
    for c in &children {
        assert_eq!(c.genes, vec![true, false, true]);
    }
}

#[test]
fn mutate_with_zero_rate_changes_nothing() {
    let p = classic();
    let mut rng = StdRng::seed_from_u64(6);
    let cfg = config(4, 1, 0.0);
    let mut children = vec![with_genes(&p, &[true, false, false]), with_genes(&p, &[false, true, true])];
    mutate(&mut children, &p, &cfg, &mut rng, 5);
    assert_eq!(children[0].genes, vec![true, false, false]);
    assert_eq!(children[1].genes, vec![false, true, true]);
}

#[test]
fn mutate_with_certain_flip_inverts_then_repairs() {
    let p = instance(&[(1, 1), (1, 1), (1, 1)], 10);
    let mut rng = StdRng::seed_from_u64(6);
    let cfg = config(4, 1, 1.0);
    let mut children = vec![with_genes(&p, &[true, false, false])];
    mutate(&mut children, &p, &cfg, &mut rng, 0);
    assert_eq!(children[0].genes, vec![false, true, true]);
    assert_eq!((children[0].weight, children[0].fitness), (2, 2));
}

#[test]
fn mutate_keeps_children_feasible() {
    let p = medium();
    let mut rng = StdRng::seed_from_u64(8);
    let cfg = config(8, 1, 0.3);
    let mut pop = initialize(&p, &cfg, &mut rng);
    mutate(&mut pop, &p, &cfg, &mut rng, 3);
    assert_eq!(pop.len(), 8);
    for c in &pop {
        assert!(c.weight <= p.capacity);
        assert!(totals_match(c, &p));
    }
}

#[test]
fn next_generation_keeps_size_and_best() {
    let p = medium();
    let mut rng = StdRng::seed_from_u64(12);
    let cfg = config(10, 2, 0.05);
    let mut pop = initialize(&p, &cfg, &mut rng);
    for _ in 0..5 {
        let best_before = pop.iter().map(|c| c.fitness).max().unwrap();
        next_generation(&mut pop, &p, &cfg, &mut rng, 5, 4);
        assert_eq!(pop.len(), 10);
        assert!(pop[0].fitness >= best_before);
        for c in &pop {
            assert!(c.weight <= p.capacity);
            assert!(totals_match(c, &p));
        }
    }
}

#[test]
fn next_generation_without_elites_is_all_children() {
    let p = classic();
    let mut rng = StdRng::seed_from_u64(13);
    let cfg = config(5, 0, 0.0);
    let mut pop = initialize(&p, &cfg, &mut rng);
    next_generation(&mut pop, &p, &cfg, &mut rng, 0, 2);
    assert_eq!(pop.len(), 5);
}

#[test]
fn budgeted_climb_prefers_best_exchange() {
    let p = instance(&[(6, 5), (4, 3), (10, 9)], 10);
    let mut c = with_genes(&p, &[true, false, false]);
    exhaustive_hill_climb_budgeted(&mut c, &p);
    assert_eq!(c.genes, vec![false, false, true]);
    assert_eq!((c.weight, c.fitness), (10, 9));
}

#[test]
fn unbudgeted_climb_prefers_best_exchange() {
    let p = instance(&[(6, 5), (4, 3), (10, 9)], 10);
    let mut c = with_genes(&p, &[true, false, false]);
    exhaustive_hill_climb(&mut c, &p);
    assert_eq!(c.genes, vec![false, false, true]);
    assert_eq!((c.weight, c.fitness), (10, 9));
}

#[test]
fn unbudgeted_climb_addition_keeps_the_bag() {
    // An addition puts the item in and leaves the items in the bag alone.
    let p = instance(&[(2, 2), (3, 10), (3, 5), (6, 11)], 10);
    let mut c = with_genes(&p, &[true, false, true, false]);
    exhaustive_hill_climb(&mut c, &p);
    assert_eq!(c.genes, vec![true, true, true, false]);
    assert_eq!((c.weight, c.fitness), (8, 17));
}

#[test]
fn unbudgeted_climb_plain_addition() {
    let p = instance(&[(1, 10), (1, 5)], 2);
    let mut c = with_genes(&p, &[true, false]);
    exhaustive_hill_climb(&mut c, &p);
    assert_eq!(c.genes, vec![true, true]);
    assert_eq!(c.fitness, 15);
}

#[test]
fn budgeted_climb_plain_addition() {
    let p = instance(&[(1, 10), (1, 5)], 2);
    let mut c = with_genes(&p, &[true, false]);
    exhaustive_hill_climb_budgeted(&mut c, &p);
    assert_eq!(c.genes, vec![true, true]);
    assert_eq!(c.fitness, 15);
}

#[test]
fn climbs_reach_local_optimum() {
    let p = medium();
    let mut a = Candidate::new(p.items.len());
    greedy_fill(&mut a, &[0, 1, 2], &p);
    let mut b = a.duplicate();
    let start = a.fitness;
    exhaustive_hill_climb(&mut a, &p);
    exhaustive_hill_climb_budgeted(&mut b, &p);
    for c in [&a, &b] {
        assert!(c.fitness >= start);
        assert!(c.weight <= p.capacity);
        assert!(totals_match(c, &p));
        let room = p.capacity - c.weight;
        for i in 0..p.items.len() {
            if !c.genes[i] {
                assert!(p.items[i].weight > room || p.items[i].value == 0);
            }
        }
    }
}

#[test]
fn climb_on_empty_problem() {
    let p = instance(&[], 5);
    let mut c = Candidate::new(0);
    exhaustive_hill_climb(&mut c, &p);
    exhaustive_hill_climb_budgeted(&mut c, &p);
    assert_eq!(c.fitness, 0);
}

#[test]
fn budgets_by_size() {
    assert_eq!(swap_budget_for(100), 30);
    assert_eq!(swap_budget_for(101), 15);
    assert_eq!(swap_budget_for(2_000), 5);
    assert_eq!(swap_budget_for(10_000), 2);
    assert_eq!(swap_budget_for(10_001), 0);
    assert_eq!(annealing_iterations(100), 500_000);
    assert_eq!(annealing_iterations(500), 200_000);
    assert_eq!(annealing_iterations(2_000), 100_000);
    assert_eq!(annealing_iterations(10_000), 50_000);
    assert_eq!(annealing_iterations(50_000), 15_000);
    assert_eq!(annealing_iterations(50_001), 5_000);
}

#[test]
fn propose_swap_on_empty_bag() {
    let p = classic();
    let mut rng = StdRng::seed_from_u64(1);
    let c = Candidate::new(3);
    assert!(matches!(propose_swap(&c, &p, &mut rng), Proposal::Empty));
}

#[test]
fn propose_swap_offers_a_fitting_exchange() {
    let p = classic();
    for seed in 0..20 {
        let mut rng = StdRng::seed_from_u64(seed);
        let c = with_genes(&p, &[true, true, false]);
        match propose_swap(&c, &p, &mut rng) {
            Proposal::Swap { remove, add } => {
                assert!(c.genes[remove] && !c.genes[add]);
                assert!(p.items[add].weight <= p.capacity - c.weight + p.items[remove].weight);
            }
            Proposal::NoFit => {}
            Proposal::Empty => panic!("the bag is not empty"),
        }
    }
}

#[test]
fn propose_swap_when_nothing_fits() {
    let p = instance(&[(5, 1), (9, 9)], 5);
    let mut rng = StdRng::seed_from_u64(3);
    let c = with_genes(&p, &[true, false]);
    assert!(matches!(propose_swap(&c, &p, &mut rng), Proposal::NoFit));
}

#[test]
fn keep_best_keeps_the_better() {
    let p = classic();
    let mut best = with_genes(&p, &[true, false, false]);
    let worse = Candidate::new(3);
    keep_best(&mut best, &worse);
    assert_eq!(best.fitness, 60);
    let better = with_genes(&p, &[false, true, true]);
    keep_best(&mut best, &better);
    assert_eq!(best.genes, vec![false, true, true]);
    assert_eq!(best.fitness, 220);
}

#[test]
fn smart_repair_drops_least_dense_first() {
    // densities 6, 5, 4: the least dense item goes first, then the bag fits
    let p = classic();
    let mut rng = StdRng::seed_from_u64(0);
    let mut c = with_genes(&p, &[true, true, true]);
    repair_with(&mut c, &p, true, &mut rng);
    assert_eq!(c.genes, vec![true, true, false]);
    assert_eq!((c.weight, c.fitness), (30, 160));
}

#[test]
fn smart_repair_keeps_dropping_until_it_fits() {
    // densities 1, 3, 2: item 0 goes, then item 2, then the bag (weight 2) fits
    let p = instance(&[(5, 5), (2, 6), (4, 8)], 3);
    let mut rng = StdRng::seed_from_u64(0);
    let mut c = with_genes(&p, &[true, true, true]);
    repair_with(&mut c, &p, true, &mut rng);
    assert_eq!(c.genes, vec![false, true, false]);
    assert_eq!((c.weight, c.fitness), (2, 6));
}

#[test]
fn shuffled_repair_fits() {
    let p = instance(&[(5, 5), (2, 6), (4, 8)], 3);
    let mut rng = StdRng::seed_from_u64(21);
    let mut c = with_genes(&p, &[true, true, true]);
    repair_with(&mut c, &p, false, &mut rng);
    assert!(c.weight <= 3);
    assert!(totals_match(&c, &p));
}

#[test]
fn anneal_step_on_empty_bag_stops() {
    let p = classic();
    let mut rng = StdRng::seed_from_u64(1);
    let mut c = Candidate::new(3);
    let mut best = Candidate::new(3);
    assert!(matches!(anneal_step(&mut c, &mut best, &p, &mut rng), AnnealStep::Empty));
    assert_eq!(c.genes, vec![false; 3]);
}

#[test]
fn anneal_steps_keep_feasible_and_best_only_rises() {
    let p = medium();
    let mut rng = StdRng::seed_from_u64(17);
    let mut c = Candidate::new(p.items.len());
    greedy_fill(&mut c, &[0, 5, 10, 15, 20, 25], &p);
    let mut best = c.duplicate();
    for _ in 0..200 {
        let before = c.duplicate();
        let best_fit = best.fitness;
        match anneal_step(&mut c, &mut best, &p, &mut rng) {
            AnnealStep::Empty => panic!("the bag is not empty"),
            AnnealStep::NoFit => assert_eq!(c.genes, before.genes),
            AnnealStep::Kept => assert!(c.fitness >= before.fitness),
            AnnealStep::Worse { remove, add } => {
                assert!(c.fitness < before.fitness);
                swap_items(&mut c, add, remove, &p);
                assert_eq!(c.genes, before.genes);
                assert_eq!((c.weight, c.fitness), (before.weight, before.fitness));
            }
        }
        assert!(best.fitness >= best_fit);
        assert!(best.fitness >= c.fitness || c.fitness < before.fitness);
        assert!(c.weight <= p.capacity);
        assert!(totals_match(&c, &p));
        assert!(totals_match(&best, &p));
    }
}

#[test]
fn best_exchange_takes_first_of_the_best() {
    let p = instance(&[(6, 5), (4, 3), (10, 9), (3, 9)], 10);
    let c = with_genes(&p, &[true, false, false, false]);
    assert_eq!(best_exchange(&c, &p, 0, &vec![1, 2, 3, 2, 0]), Some(1));
    assert_eq!(best_exchange(&c, &p, 0, &vec![1, 0]), None);
    assert_eq!(best_exchange(&c, &p, 0, &vec![]), None);
}

#[test]
fn best_items_lists_the_best_bag() {
    let p = classic();
    let mut pop = vec![
        with_genes(&p, &[true, false, false]),
        with_genes(&p, &[false, true, true]),
        with_genes(&p, &[true, true, false]),
    ];
    assert_eq!(best_items(&mut pop), vec![1, 2]);
    assert_eq!(pop[0].fitness, 220);
}

#[test]
fn flip_genes_flips_where_masked() {
    let p = classic();
    let mut c = with_genes(&p, &[true, false, true]);
    assert!(flip_genes(&mut c, &vec![true, true, false], &p));
    assert_eq!(c.genes, vec![false, true, true]);
    assert_eq!((c.weight, c.fitness), (50, 220));
    assert!(!flip_genes(&mut c, &vec![false, false, false], &p));
    assert_eq!(c.genes, vec![false, true, true]);
}

#[test]
fn propose_from_draws_takes_first_fitting() {
    let p = instance(&[(6, 5), (4, 3), (10, 9), (3, 9)], 10);
    let c = with_genes(&p, &[true, true, false, false]);
    // item 1 is in the bag, item 2 is too heavy for item 0's place, item 3 fits
    assert!(matches!(
        propose_from_draws(&c, &p, 0, &vec![1, 2, 3, 2]),
        Proposal::Swap { remove: 0, add: 3 }
    ));
    assert!(matches!(propose_from_draws(&c, &p, 0, &vec![1, 2, 1]), Proposal::NoFit));
}

#[test]
fn search_round_exchanges_for_best_draw() {
    let p = instance(&[(6, 5), (4, 3), (10, 9), (3, 9)], 10);
    let mut c = with_genes(&p, &[true, false, false, false]);
    search_round(&mut c, &p, 0, &vec![1, 2, 3]);
    assert_eq!(c.genes, vec![false, false, true, false]);
    assert_eq!((c.weight, c.fitness), (10, 9));
    let mut d = with_genes(&p, &[true, false, false, false]);
    search_round(&mut d, &p, 0, &vec![1, 0]);
    assert_eq!(d.genes, vec![true, false, false, false]);
}

#[test]
fn local_search_with_no_rounds_leaves_generator() {
    let p = classic();
    let mut rng = StdRng::seed_from_u64(30);
    let mut twin = StdRng::seed_from_u64(30);
    let mut c = with_genes(&p, &[true, false, false]);
    local_search(&mut c, &p, &mut rng, 0);
    assert_eq!(c.genes, vec![true, false, false]);
    assert_eq!(rng.gen::<u64>(), twin.gen::<u64>());
}

#[test]
fn repair_of_fitting_bag_leaves_generator() {
    let p = classic();
    let mut rng = StdRng::seed_from_u64(31);
    let mut twin = StdRng::seed_from_u64(31);
    let mut c = with_genes(&p, &[true, true, false]);
    repair(&mut c, &p, &mut rng);
    assert_eq!(rng.gen::<u64>(), twin.gen::<u64>());
}

#[test]
fn small_initialize_leaves_generator() {
    let p = classic();
    let mut rng = StdRng::seed_from_u64(32);
    let mut twin = StdRng::seed_from_u64(32);
    let pop = initialize(&p, &config(3, 1, 0.1), &mut rng);
    assert_eq!(pop.len(), 4);
    assert_eq!(rng.gen::<u64>(), twin.gen::<u64>());
}

#[test]
fn mix_parents_follows_coins() {
    let p = classic();
    let a = with_genes(&p, &[true, true, false]);
    let b = with_genes(&p, &[false, false, true]);
    let c = mix_parents(&a, &b, &vec![true, false, false], &p);
    assert_eq!(c.genes, vec![true, false, true]);
    assert_eq!((c.weight, c.fitness), (40, 180));
}

#[test]
fn greedy_fill_accepts_repeats_and_selected_items() {
    let p = classic();
    let mut c = with_genes(&p, &[false, true, false]);
    greedy_fill(&mut c, &[1, 1, 2, 0, 2], &p);
    assert_eq!(c.genes, vec![false, true, true]);
    assert_eq!((c.weight, c.fitness), (50, 220));
}

#[test]
fn crossover_with_no_children_needs_no_parents() {
    let p = classic();
    let mut rng = StdRng::seed_from_u64(4);
    let cfg = config(2, 2, 0.1);
    let pop: Vec<Candidate> = Vec::new();
    assert!(crossover(&pop, &[], &p, &cfg, &mut rng, 0).is_empty());
}

#[test]
fn mutate_child_with_empty_mask_leaves_child_and_generator() {
    let p = classic();
    let mut rng = StdRng::seed_from_u64(40);
    let mut twin = StdRng::seed_from_u64(40);
    let mut c = with_genes(&p, &[true, false, true]);
    mutate_child(&mut c, &vec![false, false, false], &p, &mut rng, 5);
    assert_eq!(c.genes, vec![true, false, true]);
    assert_eq!((c.weight, c.fitness), (40, 180));
    assert_eq!(rng.gen::<u64>(), twin.gen::<u64>());
}

#[test]
fn mutate_child_full_mask_flips_then_repair_only_removes() {
    let p = medium();
    let mut rng = StdRng::seed_from_u64(41);
    let start: Vec<bool> = (0..p.items.len()).map(|i| i % 3 == 0).collect();
    let mut c = with_genes(&p, &start);
    let mask = vec![true; p.items.len()];
    mutate_child(&mut c, &mask, &p, &mut rng, 0);
    for i in 0..p.items.len() {
        if c.genes[i] {
            assert!(!start[i]);
        }
    }
    assert!(c.weight <= p.capacity);
    assert!(totals_match(&c, &p));
}

#[test]
fn mutate_child_flip_that_fits_is_kept() {
    // Flipping item 0 out and item 1 in stays within capacity: no repair is needed,
    // and without a search budget the flipped bag is the result.
    let p = classic();
    let mut rng = StdRng::seed_from_u64(42);
    let mut c = with_genes(&p, &[true, false, false]);
    mutate_child(&mut c, &vec![true, true, false], &p, &mut rng, 0);
    assert_eq!(c.genes, vec![false, true, false]);
    assert_eq!((c.weight, c.fitness), (20, 100));
}

#[test]
fn add_and_remove_update_totals_as_given() {
    // The totals are moved by the item's amounts whatever they held before.
    let p = classic();
    let mut c = Candidate { genes: vec![false, true, false], fitness: 7, weight: 3 };
    c.add(2, &p);
    assert_eq!(c.genes, vec![false, true, true]);
    assert_eq!((c.weight, c.fitness), (33, 127));
    c.remove(2, &p);
    assert_eq!((c.weight, c.fitness), (3, 7));
}

#[test]
fn converged_budgeted_climb_is_fixed() {
    let p = medium();
    let mut c = Candidate::new(p.items.len());
    greedy_fill(&mut c, &[3, 1, 4], &p);
    let start = c.fitness;
    exhaustive_hill_climb_budgeted(&mut c, &p);
    assert!(c.fitness - start < 1000);
    let once = c.duplicate();
    exhaustive_hill_climb_budgeted(&mut c, &p);
    assert_eq!(c.genes, once.genes);
    assert_eq!((c.weight, c.fitness), (once.weight, once.fitness));
}

#[test]
fn climb_round_gains_at_least_one() {
    // The only gaining move adds an item worth one unit.
    let p = instance(&[(2, 3), (1, 1)], 3);
    let mut c = with_genes(&p, &[true, false]);
    exhaustive_hill_climb_budgeted(&mut c, &p);
    assert_eq!(c.genes, vec![true, true]);
    assert_eq!(c.fitness, 4);
}

#[test]
fn crossover_needs_consistent_parents_only() {
    let p = classic();
    let mut rng = StdRng::seed_from_u64(43);
    let cfg = config(3, 1, 0.1);
    let parent = with_genes(&p, &[true, true, false]);
    let stale = Candidate { genes: vec![true; 3], fitness: 0, weight: 0 };
    let pop = vec![parent, stale];
    let children = crossover(&pop, &[0], &p, &cfg, &mut rng, 0);
    assert_eq!(children.len(), 2);
    for child in &children {
        assert_eq!(child.genes, vec![true, true, false]);
        assert!(totals_match(child, &p));
    }
}

#[test]
fn unbudgeted_climb_result_is_fixed() {
    let p = medium();
    let mut c = Candidate::new(p.items.len());
    greedy_fill(&mut c, &[5, 9, 2], &p);
    exhaustive_hill_climb(&mut c, &p);
    let once = c.duplicate();
    exhaustive_hill_climb(&mut c, &p);
    assert_eq!(c.genes, once.genes);
    assert_eq!((c.weight, c.fitness), (once.weight, once.fitness));
}
