use crate::candidate::{lemma_candidate_without_item, lemma_item_within, Candidate, CandidateView};
use crate::greedy::{
    densities_defined, item_before, law_item_order_meaning, selected_densities_defined, sort_items, ItemOrder,
};
use crate::order::{ratio_valid, Ratio};
use crate::problem::{genes_subset, lemma_sum_none, none_selected, KnapsackProblem};
use crate::rng::{fair_coin, shuffle_indices};
use rand::rngs::StdRng;
use vstd::prelude::*;

verus! {

/// `r` lists, in rising order, the positions that `genes` marks.
pub open spec fn lists_selected(r: Seq<usize>, genes: Seq<bool>) -> bool {
    &&& forall|i: int, j: int| 0 <= i < j < r.len() ==> #[trigger] r[i] < #[trigger] r[j]
    &&& forall|i: int| 0 <= i < r.len() ==> #[trigger] r[i] < genes.len() && genes[r[i] as int]
    &&& forall|x: int| 0 <= x < genes.len() && #[trigger] genes[x] ==> r.contains(x as usize)
}

/// `order` lists each position that `genes` marks exactly once, in any order.
pub open spec fn orders_selected(order: Seq<usize>, genes: Seq<bool>) -> bool {
    &&& order.no_duplicates()
    &&& forall|x: usize| order.contains(x) <==> (x < genes.len() && genes[x as int])
}

/// The positions of `genes` that are set, in rising order.
pub fn selected_indices(genes: &Vec<bool>) -> (r: Vec<usize>)
    ensures
        lists_selected(r@, genes@),
        orders_selected(r@, genes@),
{
    let mut r: Vec<usize> = Vec::new();
    let mut i: usize = 0;
    while i < genes.len()
        invariant
            i <= genes@.len(),
            forall|a: int, b: int| 0 <= a < b < r@.len() ==> #[trigger] r@[a] < #[trigger] r@[b],
            forall|a: int| 0 <= a < r@.len() ==> #[trigger] r@[a] < i && genes@[r@[a] as int],
            forall|x: int| 0 <= x < i && #[trigger] genes@[x] ==> r@.contains(x as usize),
        decreases genes@.len() - i,
    {
        if genes[i] {
            let ghost old_r = r@;
            r.push(i);
            proof {
                assert forall|x: int| 0 <= x < i + 1 && #[trigger] genes@[x] implies r@.contains(
                    x as usize,
                ) by {
                    if x < i {
                        let k = choose|k: int| 0 <= k < old_r.len() && old_r[k] == x as usize;
                        assert(r@[k] == x as usize);
                    } else {
                        assert(r@[old_r.len() as int] == i);
                    }
                }
            }
        }
        i = i + 1;
    }
    proof {
        assert(r@.no_duplicates()) by {
            assert forall|a: int, b: int| 0 <= a < r@.len() && 0 <= b < r@.len() && a != b implies r@[a]
                != r@[b] by {
                if a < b {
                    assert(r@[a] < r@[b]);
                } else {
                    assert(r@[b] < r@[a]);
                }
            }
        }
        assert forall|x: usize| r@.contains(x) <==> (x < genes@.len() && genes@[x as int]) by {
            if r@.contains(x) {
                let k = choose|k: int| 0 <= k < r@.len() && r@[k] == x;
            }
        }
    }
    r
}

/// What taking items out of `c` along `order` gives, stopping as soon as the
/// bag is within capacity.
pub open spec fn strip_run(c: CandidateView, order: Seq<usize>, p: &KnapsackProblem) -> CandidateView
    decreases order.len(),
{
    if order.len() == 0 {
        c
    } else {
        let before = strip_run(c, order.drop_last(), p);
        if before.weight <= p.capacity {
            before
        } else {
            before.without_item(order.last() as int, p)
        }
    }
}

/// `r` is what repairing `c` gives: `c` itself when it fits, else `c` stripped
/// along some ordering of its selected items.
pub open spec fn repaired_from(c: CandidateView, r: CandidateView, p: &KnapsackProblem) -> bool {
    if c.feasible(p) {
        r == c
    } else {
        exists|order: Seq<usize>| #[trigger] orders_selected(order, c.genes) && r == strip_run(c, order, p)
    }
}

/// Stripping items along `order` keeps the cached totals right and only takes
/// items out.
proof fn lemma_strip_run(c: CandidateView, order: Seq<usize>, p: &KnapsackProblem)
    requires
        c.wf(p),
        forall|k: int| 0 <= k < order.len() ==> #[trigger] order[k] < p.n(),
    ensures
        strip_run(c, order, p).wf(p),
        genes_subset(strip_run(c, order, p).genes, c.genes),
    decreases order.len(),
{
    if order.len() > 0 {
        let before = strip_run(c, order.drop_last(), p);
        lemma_strip_run(c, order.drop_last(), p);
        if before.weight > p.capacity {
            let idx = order.last() as int;
            lemma_candidate_without_item(before, idx, p);
            let after = before.without_item(idx, p);
            assert forall|i: int| 0 <= i < after.genes.len() && #[trigger] after.genes[i] implies c.genes[i] by {
                assert(before.genes[i]);
            }
        }
    }
}

/// Repair only takes items out, and keeps the cached totals right.
pub proof fn law_repair_only_removes(c: CandidateView, r: CandidateView, p: &KnapsackProblem)
    requires
        c.wf(p),
        repaired_from(c, r, p),
    ensures
        r.wf(p),
        genes_subset(r.genes, c.genes),
{
    if !c.feasible(p) {
        let order = choose|order: Seq<usize>| #[trigger] orders_selected(order, c.genes) && r == strip_run(c, order, p);
        assert forall|k: int| 0 <= k < order.len() implies #[trigger] order[k] < p.n() by {
            assert(order.contains(order[k]));
        }
        lemma_strip_run(c, order, p);
    }
}

/// `order` lists the selected items of `genes` by value per weight, lowest first,
/// and by index among equal densities.
pub open spec fn density_ascending(p: &KnapsackProblem, order: Seq<usize>, genes: Seq<bool>) -> bool {
    &&& orders_selected(order, genes)
    &&& forall|i: int, j: int|
        0 <= i < j < order.len() ==> item_before(p, ItemOrder::DensityAsc, #[trigger] order[i], #[trigger] order[j])
}

/// Smart repair takes items out lowest value per weight first: along an order
/// it uses, each item has at most the density of every later one (compared by
/// cross-multiplication), the lower index first among equal densities.
pub proof fn law_smart_repair_order(p: &KnapsackProblem, order: Seq<usize>, genes: Seq<bool>, i: int, j: int)
    requires
        density_ascending(p, order, genes),
        0 <= i < j < order.len(),
    ensures
        (p.items@[order[i] as int].value as int) * (p.items@[order[j] as int].weight as int) <= (
        p.items@[order[j] as int].value as int) * (p.items@[order[i] as int].weight as int),
        (p.items@[order[i] as int].value as int) * (p.items@[order[j] as int].weight as int) == (
        p.items@[order[j] as int].value as int) * (p.items@[order[i] as int].weight as int) ==> order[i]
            < order[j],
{
    assert(item_before(p, ItemOrder::DensityAsc, order[i], order[j]));
    law_item_order_meaning(p, ItemOrder::DensityAsc, order[i], order[j]);
}

/// Takes items out along `order` until the bag fits.
pub fn strip_until_fits(cand: &mut Candidate, order: &Vec<usize>, problem: &KnapsackProblem)
    requires
        old(cand).wf(problem),
        forall|k: int| 0 <= k < order@.len() ==> #[trigger] order@[k] < problem.n(),
    ensures
        final(cand)@ == strip_run(old(cand)@, order@, problem),
        final(cand).wf(problem),
        genes_subset(final(cand).genes@, old(cand).genes@),
        (forall|x: usize|
            x < problem.n() && #[trigger] old(cand).genes@[x as int] ==> order@.contains(x))
            ==> final(cand)@.feasible(problem),
{
    let ghost start = cand@;
    let n = problem.items.len();
    let mut k: usize = 0;
    while k < order.len()
        invariant
            k <= order@.len(),
            cand.wf(problem),
            cand@ == strip_run(start, order@.subrange(0, k as int), problem),
            start.wf(problem),
            genes_subset(cand.genes@, start.genes),
            forall|m: int| 0 <= m < order@.len() ==> #[trigger] order@[m] < problem.n(),
            cand.weight > problem.capacity ==> forall|m: int|
                0 <= m < k ==> !cand.genes@[#[trigger] order@[m] as int],
        decreases order@.len() - k,
    {
        proof {
            assert(order@.subrange(0, k + 1).drop_last() =~= order@.subrange(0, k as int));
        }
        if cand.weight > problem.capacity {
            let idx = order[k];
            proof {
                lemma_item_within(cand@, idx as int, problem);
            }
            cand.remove(idx, problem);
        }
        k = k + 1;
    }
    proof {
        assert(order@.subrange(0, order@.len() as int) =~= order@);
        if cand.weight > problem.capacity && (forall|x: usize|
            x < problem.n() && #[trigger] start.genes[x as int] ==> order@.contains(x)) {
            assert(cand.genes@ =~= none_selected(problem.n())) by {
                assert forall|x: int| 0 <= x < n implies !cand.genes@[x] by {
                    if cand.genes@[x] {
                        assert(start.genes[x]);
                        assert(start.genes[(x as usize) as int]);
                        assert(order@.contains(x as usize));
                        let m = choose|m: int| 0 <= m < order@.len() && order@[m] == x as usize;
                        assert(!cand.genes@[order@[m] as int]);
                    }
                }
            }
            lemma_sum_none(problem.n(), problem.weights());
        }
    }
}

/// A shuffled ordering of the selected items is still one.
proof fn lemma_orders_selected_perm(s1: Seq<usize>, s2: Seq<usize>, g: Seq<bool>)
    requires
        orders_selected(s1, g),
        s1.to_multiset() == s2.to_multiset(),
    ensures
        orders_selected(s2, g),
{
    broadcast use vstd::seq_lib::group_to_multiset_ensures;

    s1.lemma_multiset_has_no_duplicates();
    s2.lemma_multiset_has_no_duplicates_conv();
    s1.to_multiset_ensures();
    s2.to_multiset_ensures();
    assert forall|x: usize| s2.contains(x) <==> s1.contains(x) by {
        assert(s1.contains(x) <==> s1.to_multiset().count(x) > 0);
        assert(s2.contains(x) <==> s2.to_multiset().count(x) > 0);
    }
}

/// Brings an over-capacity candidate back within capacity by taking items out:
/// when `smart`, the items of lowest value per weight first, else the items in
/// shuffled order. A candidate that fits is left as it is.
pub fn repair_with(candidate: &mut Candidate, problem: &KnapsackProblem, smart: bool, rng: &mut StdRng)
    requires
        old(candidate).wf(problem),
        smart && old(candidate).weight > problem.capacity ==> selected_densities_defined(
            problem,
            old(candidate).genes@,
        ),
    ensures
        final(candidate).wf(problem),
        final(candidate)@.feasible(problem),
        genes_subset(final(candidate).genes@, old(candidate).genes@),
        repaired_from(old(candidate)@, final(candidate)@, problem),
        smart && !old(candidate)@.feasible(problem) ==> exists|order: Seq<usize>|
            #[trigger] density_ascending(problem, order, old(candidate).genes@) && final(candidate)@
                == strip_run(old(candidate)@, order, problem),
{
    let ghost start = candidate@;
    if candidate.weight <= problem.capacity {
        proof {
            assert(genes_subset(start.genes, start.genes));
        }
        return;
    }
    let selected = selected_indices(&candidate.genes);
    let order = if smart {
        proof {
            assert(densities_defined(problem, selected@)) by {
                assert forall|k: int| 0 <= k < selected@.len() implies ratio_valid(
                    Ratio {
                        num: problem.items@[selected@[k] as int].value,
                        den: problem.items@[selected@[k] as int].weight,
                    },
                ) by {
                    assert(start.genes[selected@[k] as int]);
                }
            }
        }
        let sorted = sort_items(problem, ItemOrder::DensityAsc, selected);
        proof {
            assert forall|x: usize| sorted@.contains(x) <==> (x < start.genes.len() && start.genes[x as int]) by {
                assert(sorted@.contains(x) <==> selected@.contains(x));
            }
            assert(density_ascending(problem, sorted@, start.genes));
        }
        sorted
    } else {
        let mut s = selected;
        shuffle_indices(&mut s, rng);
        proof {
            lemma_orders_selected_perm(selected@, s@, start.genes);
        }
        s
    };
    proof {
        assert forall|k: int| 0 <= k < order@.len() implies #[trigger] order@[k] < problem.n() by {
            assert(order@.contains(order@[k]));
        }
    }
    strip_until_fits(candidate, &order, problem);
    proof {
        assert(orders_selected(order@, start.genes));
        assert forall|x: usize| x < problem.n() && #[trigger] start.genes[x as int] implies order@.contains(x) by {
        }
    }
}

/// Brings an over-capacity candidate back within capacity by taking items out:
/// on a coin flip either the items of lowest value per weight first, or the
/// items in shuffled order. A candidate that fits is left as it is.
pub fn repair(candidate: &mut Candidate, problem: &KnapsackProblem, rng: &mut StdRng)
    requires
        old(candidate).wf(problem),
        old(candidate).weight > problem.capacity ==> selected_densities_defined(
            problem,
            old(candidate).genes@,
        ),
    ensures
        final(candidate).wf(problem),
        final(candidate)@.feasible(problem),
        genes_subset(final(candidate).genes@, old(candidate).genes@),
        old(candidate)@.feasible(problem) ==> final(candidate)@ == old(candidate)@ && *final(rng)
            == *old(rng),
        repaired_from(old(candidate)@, final(candidate)@, problem),
{
    if candidate.weight <= problem.capacity {
        proof {
            assert(genes_subset(candidate.genes@, candidate.genes@));
        }
        return;
    }
    let smart = fair_coin(rng);
    repair_with(candidate, problem, smart, rng);
}

} // verus!
