use crate::candidate::{
    lemma_candidate_with_item, lemma_candidate_without_item, lemma_item_within, lemma_room_for, Candidate,
    CandidateView,
};
use crate::problem::{lemma_sum_update, KnapsackProblem};
use crate::repair::selected_indices;
use crate::rng::random_below;
use rand::rngs::StdRng;
use vstd::prelude::*;

verus! {

/// Exchanging selected item `r` for unselected item `a` keeps `c` within capacity.
pub open spec fn swap_fits(c: CandidateView, r: int, a: int, p: &KnapsackProblem) -> bool {
    &&& 0 <= r < p.n()
    &&& 0 <= a < p.n()
    &&& c.genes[r]
    &&& !c.genes[a]
    &&& p.weights()[a] <= p.capacity - c.weight + p.weights()[r]
}

/// `c` with item `r` exchanged for item `a`.
pub open spec fn swapped(c: CandidateView, r: int, a: int, p: &KnapsackProblem) -> CandidateView {
    c.without_item(r, p).with_item(a, p)
}

/// `d` is `c` after one exchange of an item for a more valuable one that fits.
pub open spec fn improving_swap(c: CandidateView, d: CandidateView, p: &KnapsackProblem) -> bool {
    exists|r: int, a: int|
        #[trigger] swap_fits(c, r, a, p) && p.values()[a] > p.values()[r] && d == swapped(
            c,
            r,
            a,
            p,
        )
}

/// Each candidate of `t` is the one before it after an improving exchange.
pub open spec fn swap_path(t: Seq<CandidateView>, p: &KnapsackProblem) -> bool {
    forall|i: int| 0 <= i < t.len() - 1 ==> #[trigger] improving_swap(t[i], t[i + 1], p)
}

/// `d` is reached from `c` by at most `k` improving exchanges.
pub open spec fn swap_reachable(c: CandidateView, d: CandidateView, k: nat, p: &KnapsackProblem) -> bool {
    exists|t: Seq<CandidateView>|
        #[trigger] swap_path(t, p) && 1 <= t.len() <= k + 1 && t[0] == c && t.last() == d
}

/// An exchange that fits keeps the cached totals right and the bag within capacity,
/// and changes the value by the difference of the two items.
pub proof fn lemma_swap(c: CandidateView, r: int, a: int, p: &KnapsackProblem)
    requires
        c.wf(p),
        swap_fits(c, r, a, p),
    ensures
        swapped(c, r, a, p).wf(p),
        swapped(c, r, a, p).feasible(p),
        swapped(c, r, a, p).fitness == c.fitness - p.values()[r] + p.values()[a],
        swapped(c, r, a, p).weight == c.weight - p.weights()[r] + p.weights()[a],
        swapped(c, r, a, p).genes == c.genes.update(r, false).update(a, true),
{
    lemma_candidate_without_item(c, r, p);
    lemma_candidate_with_item(c.without_item(r, p), a, p);
}

/// Improving exchanges along a path keep a candidate consistent and within
/// capacity, and never lower its value.
proof fn lemma_path_keeps_feasible(t: Seq<CandidateView>, j: int, p: &KnapsackProblem)
    requires
        swap_path(t, p),
        0 <= j < t.len(),
        t[0].wf(p),
        t[0].feasible(p),
    ensures
        t[j].wf(p),
        t[j].feasible(p),
        t[j].fitness >= t[0].fitness,
    decreases j,
{
    if j > 0 {
        lemma_path_keeps_feasible(t, j - 1, p);
        let i = j - 1;
        assert(improving_swap(t[i], t[i + 1], p));
        assert(t[i + 1] == t[j]);
        let (r, a) = choose|r: int, a: int|
            #[trigger] swap_fits(t[j - 1], r, a, p) && p.values()[a] > p.values()[r] && t[j]
                == swapped(t[j - 1], r, a, p);
        lemma_swap(t[j - 1], r, a, p);
    }
}

/// Improving exchanges keep a candidate consistent and within capacity, and never
/// lower its value.
pub proof fn law_swaps_keep_feasible(c: CandidateView, d: CandidateView, k: nat, p: &KnapsackProblem)
    requires
        c.wf(p),
        c.feasible(p),
        swap_reachable(c, d, k, p),
    ensures
        d.wf(p),
        d.feasible(p),
        d.fitness >= c.fitness,
{
    let t = choose|t: Seq<CandidateView>|
        #[trigger] swap_path(t, p) && 1 <= t.len() <= k + 1 && t[0] == c && t.last() == d;
    lemma_path_keeps_feasible(t, t.len() - 1, p);
}

/// Exchanges selected item `rem` for item `add`, updating the totals.
pub fn swap_items(candidate: &mut Candidate, rem: usize, add: usize, problem: &KnapsackProblem)
    requires
        problem.sums_fit(),
        old(candidate).wf(problem),
        rem < problem.n(),
        add < problem.n(),
    ensures
        final(candidate)@ == swapped(old(candidate)@, rem as int, add as int, problem),
        final(candidate).wf(problem),
{
    proof {
        lemma_item_within(candidate@, rem as int, problem);
    }
    candidate.remove(rem, problem);
    proof {
        lemma_room_for(candidate@, add as int, problem);
    }
    candidate.add(add, problem);
}

/// The value gained by exchanging item `r` for item `a`.
pub open spec fn exchange_gain(r: int, a: int, p: &KnapsackProblem) -> int {
    p.values()[a] - p.values()[r]
}

/// Among the items `draws`, the position of the one to exchange `remove` for:
/// of those that are out of the bag and fit in its place, the first that gains
/// the most, if it gains anything.
pub fn best_exchange(candidate: &Candidate, problem: &KnapsackProblem, remove: usize, draws: &Vec<usize>) -> (best: Option<usize>)
    requires
        problem.wf(),
        candidate.wf(problem),
        candidate@.feasible(problem),
        remove < problem.n(),
        candidate.genes@[remove as int],
        forall|k: int| 0 <= k < draws@.len() ==> #[trigger] draws@[k] < problem.n(),
    ensures
        best is None ==> forall|k: int|
            0 <= k < draws@.len() ==> !(swap_fits(candidate@, remove as int, #[trigger] draws@[k] as int, problem)
                && exchange_gain(remove as int, draws@[k] as int, problem) > 0),
        best matches Some(k) ==> {
            &&& k < draws@.len()
            &&& swap_fits(candidate@, remove as int, draws@[k as int] as int, problem)
            &&& exchange_gain(remove as int, draws@[k as int] as int, problem) > 0
            &&& forall|j: int|
                0 <= j < draws@.len() && swap_fits(candidate@, remove as int, #[trigger] draws@[j] as int, problem)
                    ==> exchange_gain(remove as int, draws@[j] as int, problem) <= exchange_gain(
                    remove as int,
                    draws@[k as int] as int,
                    problem,
                )
            &&& forall|j: int|
                0 <= j < k && swap_fits(candidate@, remove as int, #[trigger] draws@[j] as int, problem)
                    ==> exchange_gain(remove as int, draws@[j] as int, problem) < exchange_gain(
                    remove as int,
                    draws@[k as int] as int,
                    problem,
                )
        },
{
    proof {
        lemma_item_within(candidate@, remove as int, problem);
    }
    let remove_val = problem.items[remove].value;
    let remove_wt = problem.items[remove].weight;
    let space = problem.capacity - candidate.weight + remove_wt;
    let mut best_gain: i64 = 0;
    let mut best: Option<usize> = None;
    let mut t: usize = 0;
    while t < draws.len()
        invariant
            problem.wf(),
            candidate.wf(problem),
            remove < problem.n(),
            candidate.genes@[remove as int],
            forall|k: int| 0 <= k < draws@.len() ==> #[trigger] draws@[k] < problem.n(),
            t <= draws@.len(),
            space == problem.capacity - candidate.weight + problem.weights()[remove as int],
            remove_val == problem.values()[remove as int],
            best_gain >= 0,
            forall|j: int|
                0 <= j < t && swap_fits(candidate@, remove as int, #[trigger] draws@[j] as int, problem)
                    ==> exchange_gain(remove as int, draws@[j] as int, problem) <= best_gain,
            best is None ==> best_gain == 0,
            best matches Some(k) ==> {
                &&& k < t
                &&& swap_fits(candidate@, remove as int, draws@[k as int] as int, problem)
                &&& exchange_gain(remove as int, draws@[k as int] as int, problem) == best_gain
                &&& best_gain > 0
                &&& forall|j: int|
                    0 <= j < k && swap_fits(candidate@, remove as int, #[trigger] draws@[j] as int, problem)
                        ==> exchange_gain(remove as int, draws@[j] as int, problem) < best_gain
            },
        decreases draws@.len() - t,
    {
        let add_idx = draws[t];
        if !(candidate.genes[add_idx] || add_idx == remove) && problem.items[add_idx].weight <= space {
            proof {
                assert(problem.items@[add_idx as int].value <= i64::MAX);
                assert(problem.items@[remove as int].value <= i64::MAX);
            }
            let gain = problem.items[add_idx].value as i64 - remove_val as i64;
            if gain > best_gain {
                best_gain = gain;
                best = Some(t);
            }
        }
        t = t + 1;
    }
    best
}

/// Position `k` of `draws` holds the item a round exchanges `r` for: it is out
/// of the bag, fits in `r`'s place and gains value; no drawn item that fits
/// gains more, and none before it gains as much.
pub open spec fn best_draw(c: CandidateView, p: &KnapsackProblem, r: usize, draws: Seq<usize>, k: int) -> bool {
    &&& 0 <= k < draws.len()
    &&& swap_fits(c, r as int, draws[k] as int, p)
    &&& exchange_gain(r as int, draws[k] as int, p) > 0
    &&& forall|j: int|
        0 <= j < draws.len() && swap_fits(c, r as int, #[trigger] draws[j] as int, p) ==> exchange_gain(
            r as int,
            draws[j] as int,
            p,
        ) <= exchange_gain(r as int, draws[k] as int, p)
    &&& forall|j: int|
        0 <= j < k && swap_fits(c, r as int, #[trigger] draws[j] as int, p) ==> exchange_gain(
            r as int,
            draws[j] as int,
            p,
        ) < exchange_gain(r as int, draws[k] as int, p)
}

/// No drawn item fits in `r`'s place and gains value.
pub open spec fn no_gaining_draw(c: CandidateView, p: &KnapsackProblem, r: usize, draws: Seq<usize>) -> bool {
    forall|k: int|
        0 <= k < draws.len() ==> !(swap_fits(c, r as int, #[trigger] draws[k] as int, p) && exchange_gain(
            r as int,
            draws[k] as int,
            p,
        ) > 0)
}

/// `d` is `c` after a round of local search with the picked item `r` and the
/// drawn items `draws`: `r` exchanged for the best drawn item, or nothing when
/// no drawn item gains.
pub open spec fn round_result(c: CandidateView, d: CandidateView, p: &KnapsackProblem, r: usize, draws: Seq<usize>) -> bool {
    if no_gaining_draw(c, p, r, draws) {
        d == c
    } else {
        exists|k: int| #[trigger] best_draw(c, p, r, draws, k) && d == swapped(c, r as int, draws[k] as int, p)
    }
}

/// How many items a round of local search draws among `n`.
pub open spec fn draws_per_round(n: nat) -> nat {
    if n < 20 {
        n
    } else {
        20
    }
}

/// `d` is `c` after one round of local search: for some selected item `r` and
/// some `min(n, 20)` drawn items.
pub open spec fn search_round_step(c: CandidateView, d: CandidateView, p: &KnapsackProblem) -> bool {
    exists|r: usize, draws: Seq<usize>|
        #[trigger] round_result(c, d, p, r, draws) && r < p.n() && c.genes[r as int] && draws.len()
            == draws_per_round(p.n()) && forall|j: int| 0 <= j < draws.len() ==> #[trigger] draws[j] < p.n()
}

/// Each candidate of `t` is the one before it after a round of local search.
pub open spec fn search_trail(t: Seq<CandidateView>, p: &KnapsackProblem) -> bool {
    forall|i: int| 0 <= i < t.len() - 1 ==> #[trigger] search_round_step(t[i], t[i + 1], p)
}

/// `d` is `c` after local search with `rounds` rounds: that many rounds, or fewer
/// when the bag is empty (a round needs an item to take out).
pub open spec fn searched_from(c: CandidateView, d: CandidateView, rounds: nat, p: &KnapsackProblem) -> bool {
    exists|t: Seq<CandidateView>|
        #[trigger] search_trail(t, p) && 1 <= t.len() <= rounds + 1 && t[0] == c && t.last() == d && (
        t.len() == rounds + 1 || forall|i: int| 0 <= i < p.n() ==> !#[trigger] d.genes[i])
}

/// A round of local search gains at least what any drawn item offers: if some
/// drawn item is out of the bag, fits in the room the picked item `r` leaves and
/// is worth more than `r`, the round raises the value by at least the difference.
pub proof fn law_gaining_draw_improves(
    c: CandidateView,
    d: CandidateView,
    p: &KnapsackProblem,
    r: usize,
    draws: Seq<usize>,
    k: int,
)
    requires
        c.wf(p),
        round_result(c, d, p, r, draws),
        r < p.n(),
        c.genes[r as int],
        0 <= k < draws.len(),
        draws[k] < p.n(),
        !c.genes[draws[k] as int],
        p.items@[draws[k] as int].weight <= p.capacity - c.weight + p.items@[r as int].weight,
        p.items@[draws[k] as int].value > p.items@[r as int].value,
    ensures
        d.fitness >= c.fitness + p.items@[draws[k] as int].value - p.items@[r as int].value,
        d.fitness > c.fitness,
{
    assert(swap_fits(c, r as int, draws[k] as int, p));
    assert(!no_gaining_draw(c, p, r, draws));
    let b = choose|b: int| #[trigger] best_draw(c, p, r, draws, b) && d == swapped(c, r as int, draws[b] as int, p);
    lemma_swap(c, r as int, draws[b] as int, p);
}

/// One round of local search with the picked item `remove` and the drawn items
/// `draws`: exchanges `remove` for the best drawn item that fits, if it gains.
pub fn search_round(candidate: &mut Candidate, problem: &KnapsackProblem, remove: usize, draws: &Vec<usize>)
    requires
        problem.wf(),
        old(candidate).wf(problem),
        old(candidate)@.feasible(problem),
        remove < problem.n(),
        old(candidate).genes@[remove as int],
        forall|k: int| 0 <= k < draws@.len() ==> #[trigger] draws@[k] < problem.n(),
    ensures
        round_result(old(candidate)@, final(candidate)@, problem, remove, draws@),
        final(candidate).wf(problem),
        final(candidate)@.feasible(problem),
        final(candidate)@ == old(candidate)@ || improving_swap(old(candidate)@, final(candidate)@, problem),
{
    let ghost before = candidate@;
    match best_exchange(candidate, problem, remove, draws) {
        Some(k) => {
            let add_idx = draws[k];
            proof {
                lemma_swap(before, remove as int, add_idx as int, problem);
            }
            swap_items(candidate, remove, add_idx, problem);
            proof {
                assert(improving_swap(before, candidate@, problem)) by {
                    assert(swap_fits(before, remove as int, add_idx as int, problem));
                }
                assert(!no_gaining_draw(before, problem, remove, draws@)) by {
                    assert(swap_fits(before, remove as int, draws@[k as int] as int, problem));
                }
                assert(best_draw(before, problem, remove, draws@, k as int));
            }
        },
        None => {},
    }
}

/// Up to `max_swaps` rounds of: pick a random selected item, sample up to 20
/// random items, and exchange the picked item for the sampled one that fits and
/// gains the most value, if any gains.
pub fn local_search(candidate: &mut Candidate, problem: &KnapsackProblem, rng: &mut StdRng, max_swaps: usize)
    requires
        max_swaps > 0 ==> problem.wf() && old(candidate).wf(problem) && old(candidate)@.feasible(problem),
    ensures
        max_swaps == 0 ==> final(candidate)@ == old(candidate)@ && *final(rng) == *old(rng),
        max_swaps > 0 ==> {
            &&& final(candidate).wf(problem)
            &&& final(candidate)@.feasible(problem)
            &&& final(candidate).fitness >= old(candidate).fitness
            &&& swap_reachable(old(candidate)@, final(candidate)@, max_swaps as nat, problem)
            &&& searched_from(old(candidate)@, final(candidate)@, max_swaps as nat, problem)
        },
{
    if max_swaps == 0 {
        return;
    }
    let ghost start = candidate@;
    let n = problem.items.len();
    let sample_size: usize = if n < 20 {
        n
    } else {
        20
    };
    let mut s: usize = 0;
    let ghost mut trail: Seq<CandidateView> = seq![start];
    let ghost mut rounds: Seq<CandidateView> = seq![start];
    let mut emptied = false;
    while s < max_swaps && !emptied
        invariant
            swap_path(trail, problem),
            1 <= trail.len() <= s + 1,
            trail[0] == start,
            trail.last() == candidate@,
            search_trail(rounds, problem),
            rounds.len() == s + 1,
            rounds[0] == start,
            rounds.last() == candidate@,
            emptied ==> forall|i: int| 0 <= i < problem.n() ==> !#[trigger] candidate.genes@[i],
            problem.wf(),
            n == problem.n(),
            sample_size == draws_per_round(n as nat),
            s <= max_swaps,
            start.wf(problem),
            start.feasible(problem),
            candidate.wf(problem),
            candidate@.feasible(problem),
        decreases max_swaps - s + if emptied {
            0int
        } else {
            1int
        },
    {
        let selected = selected_indices(&candidate.genes);
        if selected.len() == 0 {
            proof {
                assert forall|i: int| 0 <= i < problem.n() implies !#[trigger] candidate.genes@[i] by {
                    if candidate.genes@[i] {
                        assert(selected@.contains(i as usize));
                    }
                }
            }
            emptied = true;
        } else {
            let remove_idx = selected[random_below(rng, selected.len())];
            proof {
                assert(selected@.contains(remove_idx));
            }
            let mut draws: Vec<usize> = Vec::new();
            let mut t: usize = 0;
            while t < sample_size
                invariant
                    n == problem.n(),
                    sample_size <= n,
                    t <= sample_size,
                    draws@.len() == t,
                    forall|k: int| 0 <= k < draws@.len() ==> #[trigger] draws@[k] < n,
                decreases sample_size - t,
            {
                draws.push(random_below(rng, n));
                t = t + 1;
            }
            let ghost before = candidate@;
            search_round(candidate, problem, remove_idx, &draws);
            proof {
                assert(search_round_step(before, candidate@, problem)) by {
                    assert(round_result(before, candidate@, problem, remove_idx, draws@));
                }
                let r2 = rounds.push(candidate@);
                assert forall|i: int| 0 <= i < r2.len() - 1 implies #[trigger] search_round_step(
                    r2[i],
                    r2[i + 1],
                    problem,
                ) by {
                    if i < rounds.len() - 1 {
                        assert(r2[i] == rounds[i] && r2[i + 1] == rounds[i + 1]);
                    }
                }
                rounds = r2;
                if candidate@ != before {
                    let t2 = trail.push(candidate@);
                    assert forall|i: int| 0 <= i < t2.len() - 1 implies #[trigger] improving_swap(
                        t2[i],
                        t2[i + 1],
                        problem,
                    ) by {
                        if i < trail.len() - 1 {
                            assert(t2[i] == trail[i] && t2[i + 1] == trail[i + 1]);
                        }
                    }
                    trail = t2;
                }
            }
            s = s + 1;
        }
    }
    proof {
        assert(swap_path(trail, problem) && 1 <= trail.len() <= max_swaps + 1 && trail[0] == start
            && trail.last() == candidate@);
        law_swaps_keep_feasible(start, candidate@, max_swaps as nat, problem);
        assert(search_trail(rounds, problem) && 1 <= rounds.len() <= max_swaps + 1 && rounds[0] == start
            && rounds.last() == candidate@);
    }
}

} // verus!
