use crate::candidate::{lemma_item_within, Candidate, CandidateView};
use crate::problem::KnapsackProblem;
use crate::repair::selected_indices;
use crate::rng::random_below;
use crate::search::{lemma_swap, swap_fits, swap_items, swapped};
use rand::rngs::StdRng;
use vstd::prelude::*;

verus! {

/// How many swaps the crossover and mutation steps may try in local search, by
/// the number of items.
pub fn swap_budget_for(n: usize) -> (budget: usize)
    ensures
        budget == if n <= 100 {
            30usize
        } else if n <= 500 {
            15
        } else if n <= 2_000 {
            5
        } else if n <= 10_000 {
            2
        } else {
            0
        },
{
    if n <= 100 {
        30
    } else if n <= 500 {
        15
    } else if n <= 2_000 {
        5
    } else if n <= 10_000 {
        2
    } else {
        0
    }
}

/// How many steps simulated annealing takes at most, by the number of items.
pub fn annealing_iterations(n: usize) -> (iterations: usize)
    ensures
        iterations == if n <= 100 {
            500_000usize
        } else if n <= 500 {
            200_000
        } else if n <= 2_000 {
            100_000
        } else if n <= 10_000 {
            50_000
        } else if n <= 50_000 {
            15_000
        } else {
            5_000
        },
{
    if n <= 100 {
        500_000
    } else if n <= 500 {
        200_000
    } else if n <= 2_000 {
        100_000
    } else if n <= 10_000 {
        50_000
    } else if n <= 50_000 {
        15_000
    } else {
        5_000
    }
}

/// The exchange an annealing step proposes.
pub enum Proposal {
    /// The bag is empty: there is nothing to exchange.
    Empty,
    /// No item out of the bag was found that fits in place of the one picked.
    NoFit,
    /// Take `remove` out and put `add` in.
    Swap { remove: usize, add: usize },
}

/// The first of `draws` that is out of the bag and fits in the place of item `r`.
pub open spec fn first_fit(c: CandidateView, p: &KnapsackProblem, r: usize, draws: Seq<usize>) -> Option<usize>
    decreases draws.len(),
{
    if draws.len() == 0 {
        None
    } else if swap_fits(c, r as int, draws[0] as int, p) {
        Some(draws[0])
    } else {
        first_fit(c, p, r, draws.drop_first())
    }
}

/// The proposal the item `r` and the drawn items `draws` make: exchange `r` for
/// the first drawn item that fits in its place, if any does.
pub open spec fn proposal_from(c: CandidateView, p: &KnapsackProblem, r: usize, draws: Seq<usize>) -> Proposal {
    match first_fit(c, p, r, draws) {
        Some(a) => Proposal::Swap { remove: r, add: a },
        None => Proposal::NoFit,
    }
}

/// `draws` is what the proposal's drawing gives: one to 31 items, drawing on
/// while the item drawn does not fit, and stopping at the first that fits.
pub open spec fn retry_draws(c: CandidateView, p: &KnapsackProblem, r: usize, draws: Seq<usize>) -> bool {
    &&& 1 <= draws.len() <= 31
    &&& forall|j: int| 0 <= j < draws.len() ==> #[trigger] draws[j] < p.n()
    &&& forall|j: int| 0 <= j < draws.len() - 1 ==> !swap_fits(c, r as int, #[trigger] draws[j] as int, p)
    &&& draws.len() < 31 ==> swap_fits(c, r as int, draws[draws.len() - 1] as int, p)
}

/// The proposal for item `remove` from the drawn items `draws`: the first drawn
/// item that is out of the bag and fits in its place, else `NoFit`.
pub fn propose_from_draws(candidate: &Candidate, problem: &KnapsackProblem, remove: usize, draws: &Vec<usize>) -> (proposal: Proposal)
    requires
        candidate.wf(problem),
        candidate@.feasible(problem),
        remove < problem.n(),
        candidate.genes@[remove as int],
        forall|j: int| 0 <= j < draws@.len() ==> #[trigger] draws@[j] < problem.n(),
    ensures
        proposal == proposal_from(candidate@, problem, remove, draws@),
{
    proof {
        lemma_item_within(candidate@, remove as int, problem);
    }
    let space = problem.capacity - candidate.weight + problem.items[remove].weight;
    let mut k: usize = 0;
    assert(draws@.skip(0) =~= draws@);
    while k < draws.len()
        invariant
            candidate.wf(problem),
            remove < problem.n(),
            candidate.genes@[remove as int],
            k <= draws@.len(),
            forall|j: int| 0 <= j < draws@.len() ==> #[trigger] draws@[j] < problem.n(),
            space == problem.capacity - candidate.weight + problem.weights()[remove as int],
            first_fit(candidate@, problem, remove, draws@) == first_fit(
                candidate@,
                problem,
                remove,
                draws@.skip(k as int),
            ),
        decreases draws@.len() - k,
    {
        let add = draws[k];
        assert(draws@.skip(k as int)[0] == add);
        if !(candidate.genes[add] || problem.items[add].weight > space) {
            return Proposal::Swap { remove, add };
        }
        assert(draws@.skip(k as int).drop_first() =~= draws@.skip(k + 1));
        k = k + 1;
    }
    assert(draws@.skip(k as int).len() == 0);
    Proposal::NoFit
}

/// Proposes an annealing move: picks a random selected item, then draws random
/// items (up to 31 draws) until one is out of the bag and fits in its place.
pub fn propose_swap(candidate: &Candidate, problem: &KnapsackProblem, rng: &mut StdRng) -> (proposal: Proposal)
    requires
        problem.sums_fit(),
        candidate.wf(problem),
        candidate@.feasible(problem),
    ensures
        proposal is Empty <==> forall|i: int| 0 <= i < problem.n() ==> !#[trigger] candidate.genes@[i],
        !(proposal is Empty) ==> exists|r: usize, draws: Seq<usize>|
            #[trigger] retry_draws(candidate@, problem, r, draws) && r < problem.n() && candidate.genes@[r as int]
                && proposal == proposal_from(candidate@, problem, r, draws),
        proposal is NoFit ==> exists|i: int| 0 <= i < problem.n() && #[trigger] candidate.genes@[i],
        proposal matches Proposal::Swap { remove, add } ==> swap_fits(
            candidate@,
            remove as int,
            add as int,
            problem,
        ),
{
    let n = problem.items.len();
    let selected = selected_indices(&candidate.genes);
    if selected.len() == 0 {
        proof {
            assert forall|i: int| 0 <= i < problem.n() implies !#[trigger] candidate.genes@[i] by {
                if candidate.genes@[i] {
                    assert(selected@.contains(i as usize));
                }
            }
        }
        return Proposal::Empty;
    }
    let rem_idx = selected[random_below(rng, selected.len())];
    proof {
        assert(selected@.contains(rem_idx));
        lemma_item_within(candidate@, rem_idx as int, problem);
    }
    let space = problem.capacity - candidate.weight + problem.items[rem_idx].weight;
    let mut draws: Vec<usize> = Vec::new();
    let mut add_idx = random_below(rng, n);
    draws.push(add_idx);
    let mut tries: usize = 0;
    while (candidate.genes[add_idx] || problem.items[add_idx].weight > space) && tries < 30
        invariant
            n == problem.n(),
            candidate.wf(problem),
            rem_idx < n,
            candidate.genes@[rem_idx as int],
            space == problem.capacity - candidate.weight + problem.weights()[rem_idx as int],
            add_idx < n,
            tries <= 30,
            draws@.len() == tries + 1,
            draws@[draws@.len() - 1] == add_idx,
            forall|j: int| 0 <= j < draws@.len() ==> #[trigger] draws@[j] < n,
            forall|j: int|
                0 <= j < draws@.len() - 1 ==> !swap_fits(candidate@, rem_idx as int, #[trigger] draws@[j] as int, problem),
        decreases 30 - tries,
    {
        add_idx = random_below(rng, n);
        draws.push(add_idx);
        tries = tries + 1;
    }
    let proposal = propose_from_draws(candidate, problem, rem_idx, &draws);
    proof {
        assert(retry_draws(candidate@, problem, rem_idx, draws@));
        lemma_first_fit_found(candidate@, problem, rem_idx, draws@);
    }
    proposal
}

/// On draws of the proposal's shape, the first fit is the last draw when that
/// one fits.
proof fn lemma_first_fit_found(c: CandidateView, p: &KnapsackProblem, r: usize, draws: Seq<usize>)
    requires
        retry_draws(c, p, r, draws),
    ensures
        first_fit(c, p, r, draws) == if swap_fits(c, r as int, draws[draws.len() - 1] as int, p) {
            Some(draws[draws.len() - 1])
        } else {
            None::<usize>
        },
{
    lemma_first_fit_tail(c, p, r, draws);
}

/// A non-empty run of draws in which only the last may fit has that last as its
/// first fit, if it fits.
proof fn lemma_first_fit_tail(c: CandidateView, p: &KnapsackProblem, r: usize, draws: Seq<usize>)
    requires
        draws.len() >= 1,
        forall|j: int| 0 <= j < draws.len() - 1 ==> !swap_fits(c, r as int, #[trigger] draws[j] as int, p),
    ensures
        first_fit(c, p, r, draws) == if swap_fits(c, r as int, draws[draws.len() - 1] as int, p) {
            Some(draws[draws.len() - 1])
        } else {
            None::<usize>
        },
    decreases draws.len(),
{
    if draws.len() > 1 {
        assert(!swap_fits(c, r as int, draws[0] as int, p));
        let rest = draws.drop_first();
        assert forall|j: int| 0 <= j < rest.len() - 1 implies !swap_fits(c, r as int, #[trigger] rest[j] as int, p) by {
            assert(rest[j] == draws[j + 1]);
        }
        lemma_first_fit_tail(c, p, r, rest);
        assert(rest[rest.len() - 1] == draws[draws.len() - 1]);
    } else {
        assert(draws.drop_first().len() == 0);
        assert(first_fit(c, p, r, draws.drop_first()) == None::<usize>);
    }
}

/// Makes `best` a copy of `candidate` when `candidate` is more valuable.
pub fn keep_best(best: &mut Candidate, candidate: &Candidate)
    ensures
        final(best)@ == if candidate.fitness > old(best).fitness {
            candidate@
        } else {
            old(best)@
        },
        final(best).fitness >= old(best).fitness,
{
    if candidate.fitness > best.fitness {
        *best = candidate.duplicate();
    }
}

/// What one step of simulated annealing did.
pub enum AnnealStep {
    /// The bag is empty: the annealing stops.
    Empty,
    /// No exchange was found; nothing changed.
    NoFit,
    /// An exchange was made that lost no value; the best candidate was updated.
    Kept,
    /// The exchange of `remove` for `add` was made and lost value; whether to
    /// keep it is decided by the annealing schedule.
    Worse { remove: usize, add: usize },
}

/// What an annealing step does with the proposal `prop` on the candidate `c`
/// and the best-so-far `b`, leaving `c2` and `b2`: an exchange is made; when it
/// loses no value it is kept and `best` updated, else it is reported as worse.
pub open spec fn step_outcome(
    c: CandidateView,
    b: CandidateView,
    c2: CandidateView,
    b2: CandidateView,
    step: AnnealStep,
    prop: Proposal,
    p: &KnapsackProblem,
) -> bool {
    match prop {
        Proposal::Swap { remove, add } => {
            &&& c2 == swapped(c, remove as int, add as int, p)
            &&& if c2.fitness >= c.fitness {
                &&& step is Kept
                &&& b2 == if c2.fitness > b.fitness {
                    c2
                } else {
                    b
                }
            } else {
                &&& step matches AnnealStep::Worse { remove: r2, add: a2 }
                &&& r2 == remove
                &&& a2 == add
                &&& b2 == b
            }
        },
        _ => step is NoFit && c2 == c && b2 == b,
    }
}

/// One step of simulated annealing: proposes an exchange and makes it; when it
/// loses no value, keeps a copy in `best` if it beats `best`.
pub fn anneal_step(
    candidate: &mut Candidate,
    best: &mut Candidate,
    problem: &KnapsackProblem,
    rng: &mut StdRng,
) -> (step: AnnealStep)
    requires
        problem.sums_fit(),
        old(candidate).wf(problem),
        old(candidate)@.feasible(problem),
    ensures
        final(candidate).wf(problem),
        final(candidate)@.feasible(problem),
        final(best).fitness >= old(best).fitness,
        step is Empty <==> forall|i: int| 0 <= i < problem.n() ==> !#[trigger] old(candidate).genes@[i],
        step is Empty ==> final(candidate)@ == old(candidate)@ && final(best)@ == old(best)@,
        step is NoFit ==> final(candidate)@ == old(candidate)@ && final(best)@ == old(best)@
            && exists|i: int| 0 <= i < problem.n() && #[trigger] old(candidate).genes@[i],
        step is Kept ==> {
            &&& exists|r: int, a: int|
                #[trigger] swap_fits(old(candidate)@, r, a, problem) && final(candidate)@ == swapped(
                    old(candidate)@,
                    r,
                    a,
                    problem,
                )
            &&& final(candidate).fitness >= old(candidate).fitness
            &&& final(best)@ == if final(candidate).fitness > old(best).fitness {
                final(candidate)@
            } else {
                old(best)@
            }
        },
        step matches AnnealStep::Worse { remove, add } ==> {
            &&& swap_fits(old(candidate)@, remove as int, add as int, problem)
            &&& final(candidate)@ == swapped(old(candidate)@, remove as int, add as int, problem)
            &&& final(candidate).fitness < old(candidate).fitness
            &&& final(best)@ == old(best)@
        },
        !(step is Empty) ==> exists|r: usize, draws: Seq<usize>|
            #[trigger] retry_draws(old(candidate)@, problem, r, draws) && r < problem.n()
                && old(candidate).genes@[r as int] && step_outcome(
                old(candidate)@,
                old(best)@,
                final(candidate)@,
                final(best)@,
                step,
                proposal_from(old(candidate)@, problem, r, draws),
                problem,
            ),
{
    let ghost start = candidate@;
    let ghost start_best = best@;
    let proposal = propose_swap(candidate, problem, rng);
    let ghost (r, draws) = if proposal is Empty {
        (0usize, Seq::<usize>::empty())
    } else {
        choose|r: usize, draws: Seq<usize>|
            #[trigger] retry_draws(start, problem, r, draws) && r < problem.n() && start.genes[r as int]
                && proposal == proposal_from(start, problem, r, draws)
    };
    let step = match proposal {
        Proposal::Empty => AnnealStep::Empty,
        Proposal::NoFit => AnnealStep::NoFit,
        Proposal::Swap { remove, add } => {
            proof {
                lemma_swap(start, remove as int, add as int, problem);
            }
            let old_fitness = candidate.fitness;
            swap_items(candidate, remove, add, problem);
            if candidate.fitness >= old_fitness {
                keep_best(best, candidate);
                AnnealStep::Kept
            } else {
                AnnealStep::Worse { remove, add }
            }
        },
    };
    proof {
        if !(step is Empty) {
            assert(step_outcome(start, start_best, candidate@, best@, step, proposal_from(start, problem, r, draws), problem));
            assert(retry_draws(start, problem, r, draws));
        }
    }
    step
}

/// Exchanging back undoes an exchange: the annealing step that rejects a move
/// gets the candidate back as it was.
pub proof fn law_swap_back_restores(c: CandidateView, r: int, a: int, p: &KnapsackProblem)
    requires
        c.wf(p),
        swap_fits(c, r, a, p),
    ensures
        swapped(swapped(c, r, a, p), a, r, p) == c,
{
    lemma_swap(c, r, a, p);
    let d = swapped(c, r, a, p);
    assert(d.genes == c.genes.update(r, false).update(a, true));
    assert(d.genes[a] && !d.genes[r]);
    assert(swapped(d, a, r, p).genes =~= c.genes);
}

/// A proposal is `NoFit` only when every drawn item misses: if some drawn item
/// is out of the bag and fits in the room the picked item `r` leaves, the
/// proposal exchanges `r` for a drawn item that is out of the bag and fits there.
pub proof fn law_fitting_draw_proposes_swap(c: CandidateView, p: &KnapsackProblem, r: usize, draws: Seq<usize>, k: int)
    requires
        r < p.n(),
        c.genes[r as int],
        0 <= k < draws.len(),
        draws[k] < p.n(),
        !c.genes[draws[k] as int],
        p.items@[draws[k] as int].weight <= p.capacity - c.weight + p.items@[r as int].weight,
    ensures
        proposal_from(c, p, r, draws) matches Proposal::Swap { remove, add } && remove == r && add < p.n()
            && draws.contains(add) && !c.genes[add as int] && p.items@[add as int].weight <= p.capacity
            - c.weight + p.items@[r as int].weight,
    decreases draws.len(),
{
    if swap_fits(c, r as int, draws[0] as int, p) {
        assert(draws.contains(draws[0]));
    } else {
        assert(k > 0);
        let rest = draws.drop_first();
        assert(rest[k - 1] == draws[k]);
        law_fitting_draw_proposes_swap(c, p, r, rest, k - 1);
        let add = first_fit(c, p, r, rest)->0;
        let i = choose|i: int| 0 <= i < rest.len() && rest[i] == add;
        assert(draws[i + 1] == add);
    }
}

} // verus!
