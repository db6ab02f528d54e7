use crate::candidate::{lemma_empty_wf, lemma_item_within, lemma_room_for, Candidate, CandidateView};
use crate::greedy::{
    all_indices, densities_ok, greedy_fill, greedy_run, index_perm, lemma_densities_ok,
    lemma_greedy_fresh_fits,
    rank_items, ranked, selected_densities_defined, ItemOrder,
};
use crate::order::{sort_indices, KeyOrder, Ratio};
use crate::problem::{none_selected, selected_sum, KnapsackProblem};
use crate::repair::{law_repair_only_removes, lists_selected, repair, repaired_from, selected_indices};
use crate::rng::{bernoulli_trial, fair_coin, random_below, shuffle_indices};
use crate::search::{local_search, searched_from};
use rand::distributions::Bernoulli;
use rand::rngs::StdRng;
use vstd::prelude::*;

verus! {

/// The parameters of a run. The chance with which mutation flips a gene is the
/// Bernoulli distribution `mutation`.
pub struct EvolutionConfig {
    pub population_size: usize,
    pub generations: usize,
    pub elite_count: usize,
    pub mutation: Bernoulli,
    pub seed: u64,
}

/// The empty candidate over the items of `p`.
pub open spec fn empty_view(p: &KnapsackProblem) -> CandidateView {
    CandidateView { genes: none_selected(p.n()), fitness: 0, weight: 0 }
}

/// `c` is the greedy fill of the empty bag along the items ranked by `mode`.
pub open spec fn greedy_seed(c: CandidateView, mode: ItemOrder, p: &KnapsackProblem) -> bool {
    exists|r: Seq<usize>| #[trigger] ranked(p, mode, r) && c == greedy_run(empty_view(p), r, p)
}

/// `c` is the greedy fill of the empty bag along some ordering of all the items.
pub open spec fn shuffled_seed(c: CandidateView, p: &KnapsackProblem) -> bool {
    exists|r: Seq<usize>| #[trigger] index_perm(r, p.n()) && c == greedy_run(empty_view(p), r, p)
}

/// Every candidate of `pop` has the right cached totals.
pub open spec fn all_wf(pop: Seq<Candidate>, p: &KnapsackProblem) -> bool {
    forall|k: int| 0 <= k < pop.len() ==> (#[trigger] pop[k]).wf(p)
}

/// Every candidate of `pop` is consistent and fits in the bag.
pub open spec fn all_feasible(pop: Seq<Candidate>, p: &KnapsackProblem) -> bool {
    forall|k: int| 0 <= k < pop.len() ==> (#[trigger] pop[k]).wf(p) && pop[k]@.feasible(p)
}

/// Fills an empty candidate greedily along `order`.
fn seed_along(order: &Vec<usize>, problem: &KnapsackProblem) -> (c: Candidate)
    requires
        problem.sums_fit(),
        index_perm(order@, problem.n()),
    ensures
        c@ == greedy_run(empty_view(problem), order@, problem),
        c.wf(problem),
        c@.feasible(problem),
{
    let mut c = Candidate::new(problem.items.len());
    proof {
        lemma_empty_wf(problem);
        assert(c@ == empty_view(problem));
    }
    proof {
        lemma_greedy_fresh_fits(c@, order@, problem);
    }
    greedy_fill(&mut c, order.as_slice(), problem);
    c
}

/// The starting population: four greedy fills (by value per weight, by value,
/// lightest first, heaviest first), then greedy fills along shuffled item
/// orders until there are `population_size` candidates.
pub fn initialize(problem: &KnapsackProblem, config: &EvolutionConfig, rng: &mut StdRng) -> (candidates: Vec<Candidate>)
    requires
        problem.sums_fit(),
        densities_ok(problem),
    ensures
        candidates@.len() == if config.population_size < 4 {
            4
        } else {
            config.population_size
        },
        all_feasible(candidates@, problem),
        greedy_seed(candidates@[0]@, ItemOrder::DensityDesc, problem),
        greedy_seed(candidates@[1]@, ItemOrder::ValueDesc, problem),
        greedy_seed(candidates@[2]@, ItemOrder::WeightAsc, problem),
        greedy_seed(candidates@[3]@, ItemOrder::WeightDesc, problem),
        forall|k: int| 4 <= k < candidates@.len() ==> shuffled_seed(#[trigger] candidates@[k]@, problem),
        config.population_size <= 4 ==> *final(rng) == *old(rng),
{
    let ghost rng0 = *rng;
    let n = problem.items.len();
    proof {
        lemma_densities_ok(problem);
    }
    let mut candidates: Vec<Candidate> = Vec::new();
    let by_density = rank_items(problem, ItemOrder::DensityDesc);
    let c1 = seed_along(&by_density, problem);
    candidates.push(c1);
    let by_value = rank_items(problem, ItemOrder::ValueDesc);
    let c2 = seed_along(&by_value, problem);
    candidates.push(c2);
    let by_light = rank_items(problem, ItemOrder::WeightAsc);
    let c3 = seed_along(&by_light, problem);
    candidates.push(c3);
    let by_heavy = rank_items(problem, ItemOrder::WeightDesc);
    let c4 = seed_along(&by_heavy, problem);
    candidates.push(c4);
    proof {
        assert(ranked(problem, ItemOrder::DensityDesc, by_density@));
        assert(ranked(problem, ItemOrder::ValueDesc, by_value@));
        assert(ranked(problem, ItemOrder::WeightAsc, by_light@));
        assert(ranked(problem, ItemOrder::WeightDesc, by_heavy@));
    }
    while candidates.len() < config.population_size
        invariant
            problem.sums_fit(),
            n == problem.n(),
            candidates@.len() >= 4,
            candidates@.len() <= if config.population_size < 4 {
                4
            } else {
                config.population_size
            },
            all_feasible(candidates@, problem),
            greedy_seed(candidates@[0]@, ItemOrder::DensityDesc, problem),
            greedy_seed(candidates@[1]@, ItemOrder::ValueDesc, problem),
            greedy_seed(candidates@[2]@, ItemOrder::WeightAsc, problem),
            greedy_seed(candidates@[3]@, ItemOrder::WeightDesc, problem),
            forall|k: int| 4 <= k < candidates@.len() ==> shuffled_seed(#[trigger] candidates@[k]@, problem),
            config.population_size <= 4 ==> *rng == rng0,
        decreases config.population_size - candidates@.len(),
    {
        let mut order = all_indices(n);
        let ghost before = order@;
        shuffle_indices(&mut order, rng);
        proof {
            lemma_shuffled_perm(before, order@, n as nat);
        }
        let cand = seed_along(&order, problem);
        let ghost old_pop = candidates@;
        candidates.push(cand);
        proof {
            assert(shuffled_seed(cand@, problem));
            assert forall|k: int| 4 <= k < candidates@.len() implies shuffled_seed(
                #[trigger] candidates@[k]@,
                problem,
            ) by {
                if k < old_pop.len() {
                    assert(candidates@[k] == old_pop[k]);
                }
            }
            assert forall|k: int| 0 <= k < candidates@.len() implies (#[trigger] candidates@[k]).wf(problem)
                && candidates@[k]@.feasible(problem) by {
                if k < old_pop.len() {
                    assert(candidates@[k] == old_pop[k]);
                }
            }
        }
    }
    candidates
}

/// The views of the candidates of `pop`.
pub open spec fn views(pop: Seq<Candidate>) -> Seq<CandidateView> {
    pop.map_values(|c: Candidate| c@)
}

/// `s` is `old` reordered by `perm`: highest fitness first, and among equal
/// fitness in their order in `old`.
pub open spec fn ranks_by_fitness(old: Seq<CandidateView>, s: Seq<CandidateView>, perm: Seq<usize>) -> bool {
    &&& index_perm(perm, old.len())
    &&& s.len() == old.len()
    &&& forall|k: int| 0 <= k < s.len() ==> #[trigger] s[k] == old[perm[k] as int]
    &&& forall|k: int, l: int|
        0 <= k < l < s.len() ==> (#[trigger] old[perm[k] as int]).fitness > (#[trigger] old[perm[l] as int]).fitness
            || (old[perm[k] as int].fitness == old[perm[l] as int].fitness && perm[k] < perm[l])
}

/// `s` is `old` sorted by fitness, highest first, stably.
pub open spec fn fitness_ranking(old: Seq<CandidateView>, s: Seq<CandidateView>) -> bool {
    exists|perm: Seq<usize>| #[trigger] ranks_by_fitness(old, s, perm)
}

/// Sorts the population by fitness, highest first; candidates of equal fitness
/// keep their order.
pub fn evaluate(candidates: &mut Vec<Candidate>)
    ensures
        fitness_ranking(views(old(candidates)@), views(final(candidates)@)),
        final(candidates)@.len() == old(candidates)@.len(),
        forall|k: int, l: int|
            0 <= k < l < final(candidates)@.len() ==> (#[trigger] final(candidates)@[k]).fitness
                >= (#[trigger] final(candidates)@[l]).fitness,
{
    let len = candidates.len();
    let ghost start = candidates@;
    let mut keys: Vec<Ratio> = Vec::new();
    let mut k: usize = 0;
    while k < len
        invariant
            k <= len,
            len == candidates@.len(),
            keys@.len() == k,
            forall|m: int| 0 <= m < k ==> #[trigger] keys@[m] == (Ratio { num: candidates@[m].fitness, den: 1 }),
        decreases len - k,
    {
        keys.push(Ratio { num: candidates[k].fitness, den: 1 });
        k = k + 1;
    }
    let ord = KeyOrder { keys, descending: true };
    let idx = all_indices(len);
    let perm = sort_indices(&ord, idx);
    proof {
        assert forall|m: int| 0 <= m < perm@.len() implies #[trigger] perm@[m] < len by {
            assert(perm@.contains(perm@[m]));
            let j = choose|j: int| 0 <= j < idx@.len() && idx@[j] == perm@[m];
        }
        assert forall|x: usize| x < len implies #[trigger] perm@.contains(x) by {
            assert(idx@.contains(x));
        }
    }
    let mut out: Vec<Candidate> = Vec::new();
    let mut j: usize = 0;
    while j < len
        invariant
            j <= len,
            len == candidates@.len(),
            candidates@ == start,
            perm@.len() == len,
            forall|m: int| 0 <= m < perm@.len() ==> #[trigger] perm@[m] < len,
            out@.len() == j,
            forall|m: int| 0 <= m < j ==> (#[trigger] out@[m])@ == candidates@[perm@[m] as int]@,
        decreases len - j,
    {
        let c = candidates[perm[j]].duplicate();
        out.push(c);
        j = j + 1;
    }
    proof {
        let old_v = views(start);
        let new_v = views(out@);
        assert forall|a: int, b: int| 0 <= a < b < new_v.len() implies (#[trigger] old_v[perm@[a] as int]).fitness
            > (#[trigger] old_v[perm@[b] as int]).fitness || (old_v[perm@[a] as int].fitness
            == old_v[perm@[b] as int].fitness && perm@[a] < perm@[b]) by {
            assert(ord.before(perm@[a], perm@[b]));
            assert(ord.keys@[perm@[a] as int] == Ratio { num: start[perm@[a] as int].fitness, den: 1 });
            assert(ord.keys@[perm@[b] as int] == Ratio { num: start[perm@[b] as int].fitness, den: 1 });
        }
        assert(ranks_by_fitness(old_v, new_v, perm@));
    }
    *candidates = out;
}

/// Two orderings of `old` by fitness agree up to position `k`.
proof fn lemma_fitness_prefix(
    old: Seq<CandidateView>,
    s1: Seq<CandidateView>,
    s2: Seq<CandidateView>,
    p1: Seq<usize>,
    p2: Seq<usize>,
    k: nat,
)
    requires
        ranks_by_fitness(old, s1, p1),
        ranks_by_fitness(old, s2, p2),
        k <= p1.len(),
    ensures
        forall|i: int| 0 <= i < k ==> p1[i] == p2[i],
    decreases k,
{
    if k > 0 {
        lemma_fitness_prefix(old, s1, s2, p1, p2, (k - 1) as nat);
        let i = k - 1;
        let x = p1[i];
        let y = p2[i];
        if x != y {
            assert(p2.contains(x));
            let j = choose|j: int| 0 <= j < p2.len() && p2[j] == x;
            if j < i {
                assert(p1[j] == p2[j]);
            }
            assert(old[y as int].fitness > old[x as int].fitness || (old[y as int].fitness
                == old[x as int].fitness && y < x));
            assert(p1.contains(y));
            let j2 = choose|j2: int| 0 <= j2 < p1.len() && p1[j2] == y;
            if j2 < i {
                assert(p1[j2] == p2[j2]);
            }
            assert(old[x as int].fitness > old[y as int].fitness || (old[x as int].fitness
                == old[y as int].fitness && x < y));
        }
    }
}

/// Sorting by fitness has one outcome: two stable orderings of the same
/// population by fitness are the same.
pub proof fn law_fitness_ranking_unique(old: Seq<CandidateView>, s1: Seq<CandidateView>, s2: Seq<CandidateView>)
    requires
        fitness_ranking(old, s1),
        fitness_ranking(old, s2),
    ensures
        s1 == s2,
{
    let p1 = choose|perm: Seq<usize>| #[trigger] ranks_by_fitness(old, s1, perm);
    let p2 = choose|perm: Seq<usize>| #[trigger] ranks_by_fitness(old, s2, perm);
    lemma_fitness_prefix(old, s1, s2, p1, p2, p1.len());
    assert(s1 =~= s2) by {
        assert forall|k: int| 0 <= k < s1.len() implies s1[k] == s2[k] by {
            assert(s1[k] == old[p1[k] as int]);
            assert(s2[k] == old[p2[k] as int]);
        }
    }
}

/// The parents are the first `max(selection_count, 2)` candidates of the
/// population (sorted best first), given by their positions.
pub fn select(selection_count: usize) -> (parents: Vec<usize>)
    ensures
        parents@ == Seq::new(
            if selection_count < 2 {
                2nat
            } else {
                selection_count as nat
            },
            |i: int| i as usize,
        ),
{
    let count = if selection_count < 2 {
        2
    } else {
        selection_count
    };
    let v = all_indices(count);
    proof {
        assert(v@ =~= Seq::new(count as nat, |i: int| i as usize));
    }
    v
}

/// The genes of the mix of `a` and `b` by the coin flips `coins`: where the
/// coin is true the gene of `a`, else the gene of `b`.
pub open spec fn mixed_genes(a: Seq<bool>, b: Seq<bool>, coins: Seq<bool>) -> Seq<bool> {
    Seq::new(a.len(), |i: int| if coins[i] { a[i] } else { b[i] })
}

/// A mixed child takes each gene from one of its parents: where the parents
/// agree it agrees with both, and where the coins pick each parent at some gene
/// at which the parents differ, the child is a copy of neither.
pub proof fn law_mixed_genes_from_parents(a: Seq<bool>, b: Seq<bool>, coins: Seq<bool>)
    requires
        a.len() == b.len(),
        coins.len() == a.len(),
    ensures
        mixed_genes(a, b, coins).len() == a.len(),
        forall|i: int|
            0 <= i < a.len() ==> (#[trigger] mixed_genes(a, b, coins)[i] == a[i] || mixed_genes(a, b, coins)[i]
                == b[i]),
        forall|i: int| 0 <= i < a.len() && a[i] == b[i] ==> #[trigger] mixed_genes(a, b, coins)[i] == a[i],
        (exists|i: int| 0 <= i < a.len() && #[trigger] coins[i] && a[i] != b[i]) && (exists|j: int|
            0 <= j < a.len() && !#[trigger] coins[j] && a[j] != b[j]) ==> mixed_genes(a, b, coins) != a
            && mixed_genes(a, b, coins) != b,
{
    let g = mixed_genes(a, b, coins);
    if (exists|i: int| 0 <= i < a.len() && #[trigger] coins[i] && a[i] != b[i]) && (exists|j: int|
        0 <= j < a.len() && !#[trigger] coins[j] && a[j] != b[j]) {
        let i = choose|i: int| 0 <= i < a.len() && #[trigger] coins[i] && a[i] != b[i];
        let j = choose|j: int| 0 <= j < a.len() && !#[trigger] coins[j] && a[j] != b[j];
        assert(g[i] != b[i]);
        assert(g[j] != a[j]);
    }
}

/// With a single item, a bag over capacity holds it, and it weighs something.
proof fn lemma_single_item_heavy(p: &KnapsackProblem, c: CandidateView)
    requires
        c.wf(p),
        p.n() < 2,
        c.weight > p.capacity,
    ensures
        selected_densities_defined(p, c.genes),
{
    if p.n() == 0 {
        assert(c.genes.drop_last() =~= c.genes);
    } else {
        assert(c.genes.drop_last().len() == 0);
        assert(selected_sum(c.genes.drop_last(), p.weights()) == 0);
        assert(c.genes.last() == c.genes[0]);
        assert(c.weight == if c.genes[0] {
            p.weights()[0] as int
        } else {
            0
        });
    }
}

/// `c` is `r` after the local search that a positive `budget` asks for.
pub open spec fn improved_from(r: CandidateView, c: CandidateView, budget: nat, p: &KnapsackProblem) -> bool {
    if budget == 0 {
        c == r
    } else {
        searched_from(r, c, budget, p)
    }
}

/// `c` is a child of the parents `pa` and `pb`: their genes mixed by a coin
/// flip per gene, repaired, then improved by local search.
pub open spec fn child_of(
    c: CandidateView,
    pa: CandidateView,
    pb: CandidateView,
    budget: nat,
    p: &KnapsackProblem,
) -> bool {
    exists|m: CandidateView, r: CandidateView, coins: Seq<bool>|
        #![trigger repaired_from(m, r, p), mixed_genes(pa.genes, pb.genes, coins)]
        repaired_from(m, r, p) && m.wf(p) && coins.len() == pa.genes.len() && m.genes
            == mixed_genes(pa.genes, pb.genes, coins) && improved_from(r, c, budget, p)
}

/// `c` is a child of two parents drawn from `parents`.
pub open spec fn bred_from(c: CandidateView, parents: Seq<CandidateView>, budget: nat, p: &KnapsackProblem) -> bool {
    exists|a: int, b: int|
        0 <= a < parents.len() && 0 <= b < parents.len() && #[trigger] child_of(
            c,
            parents[a],
            parents[b],
            budget,
            p,
        )
}

/// The candidate whose genes are those of `c` flipped where `mask` is set,
/// with its totals those of the flipped genes.
pub open spec fn flipped_view(c: CandidateView, mask: Seq<bool>, p: &KnapsackProblem) -> CandidateView {
    let g = flipped_genes(c.genes, mask);
    CandidateView {
        genes: g,
        fitness: selected_sum(g, p.values()) as int,
        weight: selected_sum(g, p.weights()) as int,
    }
}

/// Some entry of `mask` is set.
pub open spec fn any_set(mask: Seq<bool>) -> bool {
    exists|i: int| 0 <= i < mask.len() && #[trigger] mask[i]
}

/// `c` is `old` mutated with the flip mask `mask`: `old` itself when the mask
/// flips no gene, else the flipped candidate repaired and improved by local search.
pub open spec fn mutated_with(
    old: CandidateView,
    mask: Seq<bool>,
    c: CandidateView,
    budget: nat,
    p: &KnapsackProblem,
) -> bool {
    if any_set(mask) {
        exists|r: CandidateView|
            #[trigger] repaired_from(flipped_view(old, mask, p), r, p) && improved_from(r, c, budget, p)
    } else {
        c == old
    }
}

/// `c` is `old` mutated with some flip mask over its genes.
pub open spec fn mutated_from(old: CandidateView, c: CandidateView, budget: nat, p: &KnapsackProblem) -> bool {
    exists|mask: Seq<bool>| mask.len() == old.genes.len() && #[trigger] mutated_with(old, mask, c, budget, p)
}

/// Repairs `c` and, for a positive budget, runs local search on it.
fn repair_and_improve(c: &mut Candidate, problem: &KnapsackProblem, rng: &mut StdRng, swap_budget: usize)
    requires
        problem.sums_fit(),
        swap_budget > 0 ==> problem.wf(),
        old(c).wf(problem),
        densities_ok(problem),
    ensures
        final(c).wf(problem),
        final(c)@.feasible(problem),
        exists|r: CandidateView|
            #[trigger] repaired_from(old(c)@, r, problem) && improved_from(
                r,
                final(c)@,
                swap_budget as nat,
                problem,
            ),
{
    proof {
        lemma_densities_ok(problem);
        if old(c).weight > problem.capacity && problem.n() < 2 {
            lemma_single_item_heavy(problem, old(c)@);
        }
    }
    repair(c, problem, rng);
    let ghost rep = c@;
    if swap_budget > 0 {
        local_search(c, problem, rng, swap_budget);
    }
    assert(repaired_from(old(c)@, rep, problem));
}

/// The candidate whose genes are those of `a` where the coin is true and those
/// of `b` where it is false.
pub fn mix_parents(a: &Candidate, b: &Candidate, coins: &Vec<bool>, problem: &KnapsackProblem) -> (child: Candidate)
    requires
        problem.sums_fit(),
        a.wf(problem),
        b.wf(problem),
        coins@.len() == problem.n(),
    ensures
        child.wf(problem),
        child.genes@ == mixed_genes(a.genes@, b.genes@, coins@),
{
    let n = problem.items.len();
    let mut child = Candidate::new(n);
    proof {
        lemma_empty_wf(problem);
    }
    let mut i: usize = 0;
    while i < n
        invariant
            problem.sums_fit(),
            n == problem.n(),
            coins@.len() == n,
            a.wf(problem),
            b.wf(problem),
            i <= n,
            child.wf(problem),
            forall|m: int|
                0 <= m < i ==> #[trigger] child.genes@[m] == if coins@[m] {
                    a.genes@[m]
                } else {
                    b.genes@[m]
                },
            forall|m: int| i <= m < n ==> !#[trigger] child.genes@[m],
        decreases n - i,
    {
        let gene = if coins[i] {
            a.genes[i]
        } else {
            b.genes[i]
        };
        if gene {
            proof {
                lemma_room_for(child@, i as int, problem);
            }
            child.add(i, problem);
        }
        i = i + 1;
    }
    assert(child.genes@ =~= mixed_genes(a.genes@, b.genes@, coins@));
    child
}

/// Makes one child of `a` and `b`: each gene from either parent on a coin flip,
/// then repaired and, for a positive budget, improved by local search.
fn breed(a: &Candidate, b: &Candidate, problem: &KnapsackProblem, rng: &mut StdRng, swap_budget: usize) -> (child: Candidate)
    requires
        problem.sums_fit(),
        swap_budget > 0 ==> problem.wf(),
        a.wf(problem),
        b.wf(problem),
        densities_ok(problem),
    ensures
        child.wf(problem),
        child@.feasible(problem),
        child_of(child@, a@, b@, swap_budget as nat, problem),
{
    let n = problem.items.len();
    let mut coins: Vec<bool> = Vec::new();
    let mut i: usize = 0;
    while i < n
        invariant
            i <= n,
            coins@.len() == i,
        decreases n - i,
    {
        coins.push(fair_coin(rng));
        i = i + 1;
    }
    let mut child = mix_parents(a, b, &coins, problem);
    let ghost mixed = child@;
    repair_and_improve(&mut child, problem, rng, swap_budget);
    child
}

/// The views of the parents picked by position from the population.
pub open spec fn parent_views(candidates: Seq<Candidate>, parent_indices: Seq<usize>) -> Seq<CandidateView> {
    parent_indices.map_values(|i: usize| candidates[i as int]@)
}

/// Makes `population_size - elite_count` children, each of two parents drawn at
/// random from `parent_indices`.
pub fn crossover(
    candidates: &[Candidate],
    parent_indices: &[usize],
    problem: &KnapsackProblem,
    config: &EvolutionConfig,
    rng: &mut StdRng,
    swap_budget: usize,
) -> (children: Vec<Candidate>)
    requires
        problem.sums_fit(),
        swap_budget > 0 ==> problem.wf(),
        densities_ok(problem),
        config.elite_count <= config.population_size,
        config.elite_count < config.population_size ==> parent_indices@.len() > 0,
        config.elite_count < config.population_size ==> forall|k: int|
            0 <= k < parent_indices@.len() ==> #[trigger] parent_indices@[k] < candidates@.len()
                && candidates@[parent_indices@[k] as int].wf(problem),
    ensures
        children@.len() == config.population_size - config.elite_count,
        all_feasible(children@, problem),
        forall|k: int|
            0 <= k < children@.len() ==> bred_from(
                #[trigger] children@[k]@,
                parent_views(candidates@, parent_indices@),
                swap_budget as nat,
                problem,
            ),
{
    let num_children = config.population_size - config.elite_count;
    let ghost parents = parent_views(candidates@, parent_indices@);
    let mut children: Vec<Candidate> = Vec::new();
    while children.len() < num_children
        invariant
            problem.sums_fit(),
            swap_budget > 0 ==> problem.wf(),
            densities_ok(problem),
            parents == parent_views(candidates@, parent_indices@),
            children@.len() < num_children ==> parent_indices@.len() > 0,
            children@.len() < num_children ==> forall|k: int|
                0 <= k < parent_indices@.len() ==> #[trigger] parent_indices@[k] < candidates@.len()
                    && candidates@[parent_indices@[k] as int].wf(problem),
            children@.len() <= num_children,
            all_feasible(children@, problem),
            forall|k: int|
                0 <= k < children@.len() ==> bred_from(#[trigger] children@[k]@, parents, swap_budget as nat, problem),
        decreases num_children - children@.len(),
    {
        let ia = random_below(rng, parent_indices.len());
        let ib = random_below(rng, parent_indices.len());
        let a = &candidates[parent_indices[ia]];
        let b = &candidates[parent_indices[ib]];
        let child = breed(a, b, problem, rng, swap_budget);
        proof {
            assert(parents[ia as int] == a@);
            assert(parents[ib as int] == b@);
            assert(bred_from(child@, parents, swap_budget as nat, problem));
        }
        let ghost old_children = children@;
        children.push(child);
        proof {
            assert forall|k: int| 0 <= k < children@.len() implies bred_from(
                #[trigger] children@[k]@,
                parents,
                swap_budget as nat,
                problem,
            ) && children@[k].wf(problem) && children@[k]@.feasible(problem) by {
                if k < old_children.len() {
                    assert(children@[k] == old_children[k]);
                }
            }
        }
    }
    children
}

/// The genes `g` with those flipped where `mask` is set.
pub open spec fn flipped_genes(g: Seq<bool>, mask: Seq<bool>) -> Seq<bool> {
    Seq::new(g.len(), |i: int| g[i] != mask[i])
}

/// Flips the genes of `child` where `mask` is set, keeping the totals right;
/// returns whether any gene flipped.
pub fn flip_genes(child: &mut Candidate, mask: &Vec<bool>, problem: &KnapsackProblem) -> (changed: bool)
    requires
        problem.sums_fit(),
        old(child).wf(problem),
        mask@.len() == problem.n(),
    ensures
        final(child).wf(problem),
        final(child).genes@ == flipped_genes(old(child).genes@, mask@),
        changed <==> exists|i: int| 0 <= i < mask@.len() && #[trigger] mask@[i],
{
    let ghost start = child@;
    let mut changed = false;
    let len = child.genes.len();
    let mut i: usize = 0;
    while i < len
        invariant
            problem.sums_fit(),
            len == problem.n(),
            mask@.len() == len,
            i <= len,
            child.wf(problem),
            start.wf(problem),
            forall|m: int| i <= m < len ==> #[trigger] child.genes@[m] == start.genes[m],
            forall|m: int| 0 <= m < i ==> #[trigger] child.genes@[m] == (start.genes[m] != mask@[m]),
            changed <==> exists|m: int| 0 <= m < i && #[trigger] mask@[m],
        decreases len - i,
    {
        if mask[i] {
            if child.genes[i] {
                proof {
                    lemma_item_within(child@, i as int, problem);
                }
                child.remove(i, problem);
            } else {
                proof {
                    lemma_room_for(child@, i as int, problem);
                }
                child.add(i, problem);
            }
            changed = true;
        }
        i = i + 1;
    }
    assert(child.genes@ =~= flipped_genes(start.genes, mask@));
    changed
}

/// Flips the genes of `child` where `mask` is set; when any gene flipped,
/// repairs the child and, for a positive budget, improves it by local search.
pub fn mutate_child(
    child: &mut Candidate,
    mask: &Vec<bool>,
    problem: &KnapsackProblem,
    rng: &mut StdRng,
    swap_budget: usize,
)
    requires
        problem.sums_fit(),
        swap_budget > 0 ==> problem.wf(),
        densities_ok(problem),
        old(child).wf(problem),
        mask@.len() == problem.n(),
    ensures
        final(child).wf(problem),
        !any_set(mask@) ==> final(child)@ == old(child)@ && *final(rng) == *old(rng),
        any_set(mask@) ==> final(child)@.feasible(problem),
        mutated_with(old(child)@, mask@, final(child)@, swap_budget as nat, problem),
{
    let ghost start = child@;
    let changed = flip_genes(child, mask, problem);
    assert(child.genes@ =~= flipped_view(start, mask@, problem).genes);
    if changed {
        assert(child@ == flipped_view(start, mask@, problem));
        repair_and_improve(child, problem, rng, swap_budget);
    } else {
        assert(child.genes@ =~= start.genes);
    }
}

/// Mutating with a mask that flips every gene and no search budget leaves only
/// items that were out before: each gene flips, then repair only takes items out.
pub proof fn law_full_flip_then_removes(old: CandidateView, mask: Seq<bool>, c: CandidateView, p: &KnapsackProblem)
    requires
        old.wf(p),
        mask.len() == old.genes.len(),
        forall|i: int| 0 <= i < mask.len() ==> #[trigger] mask[i],
        mutated_with(old, mask, c, 0, p),
    ensures
        forall|i: int| 0 <= i < c.genes.len() && #[trigger] c.genes[i] ==> !old.genes[i],
{
    if mask.len() > 0 {
        assert(mask[0]);
        let r = choose|r: CandidateView|
            #[trigger] repaired_from(flipped_view(old, mask, p), r, p) && improved_from(r, c, 0, p);
        law_repair_only_removes(flipped_view(old, mask, p), r, p);
    } else {
        assert(c == old);
    }
}

/// Mutates every child in turn.
pub fn mutate(
    children: &mut Vec<Candidate>,
    problem: &KnapsackProblem,
    config: &EvolutionConfig,
    rng: &mut StdRng,
    swap_budget: usize,
)
    requires
        problem.sums_fit(),
        swap_budget > 0 ==> problem.wf(),
        densities_ok(problem),
        all_wf(old(children)@, problem),
    ensures
        final(children)@.len() == old(children)@.len(),
        all_wf(final(children)@, problem),
        forall|k: int|
            0 <= k < final(children)@.len() && old(children)@[k]@.feasible(problem)
                ==> (#[trigger] final(children)@[k])@.feasible(problem),
        forall|k: int|
            0 <= k < final(children)@.len() ==> mutated_from(
                old(children)@[k]@,
                #[trigger] final(children)@[k]@,
                swap_budget as nat,
                problem,
            ),
{
    let ghost start = children@;
    let len = children.len();
    let mut k: usize = 0;
    while k < len
        invariant
            problem.sums_fit(),
            swap_budget > 0 ==> problem.wf(),
            densities_ok(problem),
            len == children@.len(),
            start.len() == len,
            k <= len,
            all_wf(children@, problem),
            forall|m: int|
                0 <= m < len && start[m]@.feasible(problem) ==> (#[trigger] children@[m])@.feasible(problem),
            forall|m: int| k <= m < len ==> #[trigger] children@[m] == start[m],
            forall|m: int|
                0 <= m < k ==> mutated_from(start[m]@, #[trigger] children@[m]@, swap_budget as nat, problem),
        decreases len - k,
    {
        let genes_len = children[k].genes.len();
        let mut mask: Vec<bool> = Vec::new();
        let mut i: usize = 0;
        while i < genes_len
            invariant
                i <= genes_len,
                mask@.len() == i,
            decreases genes_len - i,
        {
            mask.push(bernoulli_trial(rng, &config.mutation));
            i = i + 1;
        }
        let ghost before = children@;
        mutate_child(&mut children[k], &mask, problem, rng, swap_budget);
        proof {
            assert forall|m: int| 0 <= m < len && m != k implies #[trigger] children@[m] == before[m] by {}
            assert(mutated_with(start[k as int]@, mask@, children@[k as int]@, swap_budget as nat, problem));
        }
        k = k + 1;
    }
}

/// How many candidates a generation keeps unchanged.
pub open spec fn kept_count(elite: nat, len: nat) -> nat {
    if elite < len {
        elite
    } else {
        len
    }
}

/// How many of the best candidates are parents.
pub open spec fn parent_count(count: nat) -> nat {
    if count < 2 {
        2
    } else {
        count
    }
}

/// `new` is made from `ranked` (the population sorted best first): its first
/// `elite` candidates (all if fewer), then `population_size - elite` children of
/// the `count` best (at least two), each mutated.
pub open spec fn built_from_ranking(
    ranked: Seq<CandidateView>,
    new: Seq<CandidateView>,
    elite: nat,
    population_size: nat,
    count: nat,
    budget: nat,
    p: &KnapsackProblem,
) -> bool {
    &&& new.len() == kept_count(elite, ranked.len()) + (population_size - elite)
    &&& forall|k: int| 0 <= k < kept_count(elite, ranked.len()) ==> #[trigger] new[k] == ranked[k]
    &&& forall|k: int|
        kept_count(elite, ranked.len()) <= k < new.len() ==> #[trigger] offspring_of(
            new[k],
            ranked.take(parent_count(count) as int),
            budget,
            p,
        )
}

/// `x` is a child of two of `parents`, mutated.
pub open spec fn offspring_of(x: CandidateView, parents: Seq<CandidateView>, budget: nat, p: &KnapsackProblem) -> bool {
    exists|c: CandidateView| #[trigger] mutated_from(c, x, budget, p) && bred_from(c, parents, budget, p)
}

/// `new` is the generation after `old`.
pub open spec fn generation_step(
    old: Seq<CandidateView>,
    new: Seq<CandidateView>,
    elite: nat,
    population_size: nat,
    count: nat,
    budget: nat,
    p: &KnapsackProblem,
) -> bool {
    exists|ranked: Seq<CandidateView>|
        #[trigger] fitness_ranking(old, ranked) && built_from_ranking(
            ranked,
            new,
            elite,
            population_size,
            count,
            budget,
            p,
        )
}

/// One generation: sorts the population, keeps the `elite_count` best as they
/// are, and fills up with mutated children of the best `selection_count`
/// (at least two) candidates.
pub fn next_generation(
    candidates: &mut Vec<Candidate>,
    problem: &KnapsackProblem,
    config: &EvolutionConfig,
    rng: &mut StdRng,
    swap_budget: usize,
    selection_count: usize,
)
    requires
        problem.sums_fit(),
        swap_budget > 0 ==> problem.wf(),
        densities_ok(problem),
        all_wf(old(candidates)@, problem),
        config.elite_count <= config.population_size,
        config.elite_count < config.population_size ==> (if selection_count < 2 {
            2
        } else {
            selection_count
        }) <= old(candidates)@.len(),
    ensures
        all_wf(final(candidates)@, problem),
        all_feasible(old(candidates)@, problem) ==> all_feasible(final(candidates)@, problem),
        generation_step(
            views(old(candidates)@),
            views(final(candidates)@),
            config.elite_count as nat,
            config.population_size as nat,
            selection_count as nat,
            swap_budget as nat,
            problem,
        ),
{
    let ghost start = candidates@;
    let ghost feas = all_feasible(start, problem);
    evaluate(candidates);
    let ghost ranked = views(candidates@);
    proof {
        let perm = choose|perm: Seq<usize>| #[trigger] ranks_by_fitness(views(start), ranked, perm);
        assert forall|k: int| 0 <= k < candidates@.len() implies (#[trigger] candidates@[k]).wf(problem)
            && (feas ==> candidates@[k]@.feasible(problem)) by {
            assert(ranked[k] == views(start)[perm[k] as int]);
            assert(views(start)[perm[k] as int] == start[perm[k] as int]@);
            assert(start[perm[k] as int].wf(problem));
        }
    }
    let parents = select(selection_count);
    let len = candidates.len();
    let kept = if config.elite_count < len {
        config.elite_count
    } else {
        len
    };
    let mut next: Vec<Candidate> = Vec::new();
    let mut k: usize = 0;
    while k < kept
        invariant
            k <= kept,
            kept <= len,
            len == candidates@.len(),
            ranked == views(candidates@),
            all_wf(candidates@, problem),
            feas ==> all_feasible(candidates@, problem),
            next@.len() == k,
            all_wf(next@, problem),
            feas ==> all_feasible(next@, problem),
            forall|m: int| 0 <= m < k ==> (#[trigger] next@[m])@ == ranked[m],
        decreases kept - k,
    {
        let c = candidates[k].duplicate();
        let ghost old_next = next@;
        next.push(c);
        proof {
            assert forall|m: int| 0 <= m < next@.len() implies (#[trigger] next@[m]).wf(problem)
                && (feas ==> next@[m]@.feasible(problem)) && next@[m]@ == ranked[m] by {
                if m < old_next.len() {
                    assert(next@[m] == old_next[m]);
                }
            }
        }
        k = k + 1;
    }
    proof {
        if config.elite_count < config.population_size {
            assert forall|m: int| 0 <= m < parents@.len() implies #[trigger] parents@[m] < candidates@.len() by {}
        }
    }
    let mut children = crossover(candidates.as_slice(), parents.as_slice(), problem, config, rng, swap_budget);
    let ghost bred = children@;
    proof {
        if config.elite_count < config.population_size {
            assert(parent_views(candidates@, parents@) =~= ranked.take(parents@.len() as int));
        }
    }
    proof {
        assert forall|m: int| 0 <= m < children@.len() implies (#[trigger] children@[m]).wf(problem) by {}
    }
    mutate(&mut children, problem, config, rng, swap_budget);
    let ghost kept_part = next@;
    let ghost mutated = children@;
    next.append(&mut children);
    proof {
        let n_parents = parents@.len() as int;
        assert(n_parents == parent_count(selection_count as nat));
        assert(next@ =~= kept_part + mutated);
        assert forall|m: int| 0 <= m < next@.len() implies (#[trigger] next@[m]).wf(problem)
            && (feas ==> next@[m]@.feasible(problem)) by {
            if m < kept_part.len() {
                assert(next@[m] == kept_part[m]);
            } else {
                assert(next@[m] == mutated[m - kept_part.len()]);
            }
        }
        let new_v = views(next@);
        assert(ranked.len() == len);
        assert(kept == kept_count(config.elite_count as nat, ranked.len()));
        assert forall|m: int| 0 <= m < kept implies #[trigger] new_v[m] == ranked[m] by {
            assert(next@[m] == kept_part[m]);
        }
        assert forall|m: int|
            kept_count(config.elite_count as nat, ranked.len()) <= m < new_v.len() implies #[trigger] offspring_of(
            new_v[m],
            ranked.take(parent_count(selection_count as nat) as int),
            swap_budget as nat,
            problem,
        ) by {
            let j = m - kept;
            assert(next@[m] == mutated[j]);
            assert(new_v[m] == mutated[j]@);
            assert(mutated_from(bred[j]@, mutated[j]@, swap_budget as nat, problem));
            assert(bred_from(bred[j]@, ranked.take(n_parents), swap_budget as nat, problem));
            assert(mutated_from(bred[j]@, new_v[m], swap_budget as nat, problem));
        }
        assert(fitness_ranking(views(start), ranked));
        assert(built_from_ranking(
            ranked,
            new_v,
            config.elite_count as nat,
            config.population_size as nat,
            selection_count as nat,
            swap_budget as nat,
            problem,
        ));
    }
    *candidates = next;
}

/// Sorts the population best first and lists, in rising order, the items of the
/// best candidate.
pub fn best_items(candidates: &mut Vec<Candidate>) -> (items: Vec<usize>)
    requires
        old(candidates)@.len() > 0,
    ensures
        fitness_ranking(views(old(candidates)@), views(final(candidates)@)),
        final(candidates)@.len() == old(candidates)@.len(),
        lists_selected(items@, final(candidates)@[0].genes@),
        forall|k: int|
            0 <= k < final(candidates)@.len() ==> final(candidates)@[0].fitness
                >= (#[trigger] final(candidates)@[k]).fitness,
{
    evaluate(candidates);
    selected_indices(&candidates[0].genes)
}

/// Elitism: with at least one elite, the best candidate of the next generation
/// is at least as good as every candidate of the one before.
pub proof fn law_elitism_keeps_best(
    old: Seq<CandidateView>,
    new: Seq<CandidateView>,
    elite: nat,
    population_size: nat,
    count: nat,
    budget: nat,
    p: &KnapsackProblem,
)
    requires
        generation_step(old, new, elite, population_size, count, budget, p),
        1 <= elite <= population_size,
        1 <= old.len() <= usize::MAX,
    ensures
        new.len() >= 1,
        forall|k: int| 0 <= k < old.len() ==> new[0].fitness >= (#[trigger] old[k]).fitness,
{
    let ranked = choose|ranked: Seq<CandidateView>|
        #[trigger] fitness_ranking(old, ranked) && built_from_ranking(
            ranked,
            new,
            elite,
            population_size,
            count,
            budget,
            p,
        );
    let perm = choose|perm: Seq<usize>| #[trigger] ranks_by_fitness(old, ranked, perm);
    assert(ranked.len() == old.len());
    assert(kept_count(elite, ranked.len()) >= 1);
    assert(new[0] == ranked[0]);
    assert forall|k: int| 0 <= k < old.len() implies new[0].fitness >= (#[trigger] old[k]).fitness by {
        let ku = k as usize;
        assert(ku < old.len());
        assert(perm.contains(ku));
        let j = choose|j: int| 0 <= j < perm.len() && perm[j] == ku;
        assert(ranked[j] == old[perm[j] as int]);
        if j > 0 {
            assert(old[perm[0] as int].fitness >= old[perm[j] as int].fitness);
        }
    }
}

/// With no more elites than candidates, a generation has `population_size`
/// candidates.
pub proof fn law_generation_size(
    old: Seq<CandidateView>,
    new: Seq<CandidateView>,
    elite: nat,
    population_size: nat,
    count: nat,
    budget: nat,
    p: &KnapsackProblem,
)
    requires
        generation_step(old, new, elite, population_size, count, budget, p),
        elite <= old.len(),
        elite <= population_size,
    ensures
        new.len() == population_size,
{
}

/// A shuffled list of the indices `0..n` is still a permutation of them.
proof fn lemma_shuffled_perm(s1: Seq<usize>, s2: Seq<usize>, n: nat)
    requires
        index_perm(s1, n),
        s1.to_multiset() == s2.to_multiset(),
        s2.len() == s1.len(),
    ensures
        index_perm(s2, n),
{
    broadcast use vstd::seq_lib::group_to_multiset_ensures;

    s1.lemma_multiset_has_no_duplicates();
    s2.lemma_multiset_has_no_duplicates_conv();
    s1.to_multiset_ensures();
    s2.to_multiset_ensures();
    assert forall|i: int| 0 <= i < s2.len() implies #[trigger] s2[i] < n by {
        assert(s2.contains(s2[i]));
        assert(s2.to_multiset().count(s2[i]) > 0);
        assert(s1.contains(s2[i]));
        let k = choose|k: int| 0 <= k < s1.len() && s1[k] == s2[i];
    }
    assert forall|x: usize| x < n implies #[trigger] s2.contains(x) by {
        assert(s1.contains(x));
        assert(s1.to_multiset().count(x) > 0);
    }
}

} // verus!
