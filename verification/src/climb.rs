use crate::candidate::{
    lemma_candidate_with_item, lemma_item_within, lemma_value_room, Candidate,
    CandidateView,
};
use crate::problem::{lemma_sum_bounded, KnapsackProblem};
use crate::repair::{lists_selected, selected_indices};
use crate::search::{lemma_swap, swap_fits, swapped};
use vstd::prelude::*;

verus! {

/// A move of the hill climbs: put item `.1` in, after taking item `r` out when
/// `.0` is `Some(r)`.
pub type Move = (Option<usize>, usize);

/// Item `a` is out of the bag and fits in the room left.
pub open spec fn add_fits(c: CandidateView, a: int, p: &KnapsackProblem) -> bool {
    &&& 0 <= a < p.n()
    &&& !c.genes[a]
    &&& p.weights()[a] <= p.capacity - c.weight
}

/// `m` can be made on `c` without going over capacity.
pub open spec fn move_ok(c: CandidateView, m: Move, p: &KnapsackProblem) -> bool {
    match m.0 {
        None => add_fits(c, m.1 as int, p),
        Some(r) => swap_fits(c, r as int, m.1 as int, p),
    }
}

/// The value that `m` gains.
pub open spec fn move_gain(m: Move, p: &KnapsackProblem) -> int {
    p.values()[m.1 as int] - match m.0 {
        None => 0int,
        Some(r) => p.values()[r as int] as int,
    }
}

/// Some move on `c` gains value.
pub open spec fn improvable(c: CandidateView, p: &KnapsackProblem) -> bool {
    exists|m: Move| #[trigger] move_ok(c, m, p) && move_gain(m, p) > 0
}

/// Where `m` stands in the order the moves are tried: additions before exchanges
/// when `adds_first`, else after them; exchanges by the item taken out, then by
/// the item put in.
pub open spec fn scan_key(m: Move, adds_first: bool) -> (int, int, int) {
    match m.0 {
        None => (
            if adds_first {
                0int
            } else {
                1int
            },
            0int,
            m.1 as int,
        ),
        Some(r) => (
            if adds_first {
                1int
            } else {
                0int
            },
            r as int,
            m.1 as int,
        ),
    }
}

pub open spec fn key_lt(x: (int, int, int), y: (int, int, int)) -> bool {
    x.0 < y.0 || (x.0 == y.0 && (x.1 < y.1 || (x.1 == y.1 && x.2 < y.2)))
}

/// `m` is the move a round of climbing makes on `c`: it fits, gains the most
/// value of all moves that fit, and is the first such in the order tried.
pub open spec fn best_choice(c: CandidateView, m: Move, adds_first: bool, p: &KnapsackProblem) -> bool {
    &&& move_ok(c, m, p)
    &&& move_gain(m, p) > 0
    &&& forall|m2: Move| #[trigger] move_ok(c, m2, p) ==> move_gain(m2, p) <= move_gain(m, p)
    &&& forall|m2: Move|
        #[trigger] move_ok(c, m2, p) && move_gain(m2, p) == move_gain(m, p) ==> !key_lt(
            scan_key(m2, adds_first),
            scan_key(m, adds_first),
        )
}

/// What the search has found among the moves tried before `bound`: the best gain
/// (zero if none gains), and the first move with that gain.
pub open spec fn best_so_far(
    c: CandidateView,
    p: &KnapsackProblem,
    adds_first: bool,
    gain: int,
    best: Option<Move>,
    bound: (int, int, int),
) -> bool {
    &&& gain >= 0
    &&& forall|m: Move|
        #[trigger] move_ok(c, m, p) && key_lt(scan_key(m, adds_first), bound) ==> move_gain(m, p) <= gain
    &&& best is None ==> gain == 0
    &&& best matches Some(m) ==> {
        &&& move_ok(c, m, p)
        &&& key_lt(scan_key(m, adds_first), bound)
        &&& move_gain(m, p) == gain
        &&& gain > 0
        &&& forall|m2: Move|
            #[trigger] move_ok(c, m2, p) && key_lt(scan_key(m2, adds_first), bound) && move_gain(m2, p)
                == gain ==> !key_lt(scan_key(m2, adds_first), scan_key(m, adds_first))
    }
}

/// Trying the single move `m0` at `bound` moves the bound one step on.
proof fn lemma_try_move(
    c: CandidateView,
    p: &KnapsackProblem,
    adds_first: bool,
    gain: int,
    best: Option<Move>,
    bound: (int, int, int),
    m0: Move,
    take: bool,
)
    requires
        best_so_far(c, p, adds_first, gain, best, bound),
        scan_key(m0, adds_first) == bound,
        take <==> (move_ok(c, m0, p) && move_gain(m0, p) > gain),
    ensures
        best_so_far(
            c,
            p,
            adds_first,
            if take {
                move_gain(m0, p)
            } else {
                gain
            },
            if take {
                Some(m0)
            } else {
                best
            },
            (bound.0, bound.1, bound.2 + 1),
        ),
{
    let next = (bound.0, bound.1, bound.2 + 1);
    assert forall|m: Move| key_lt(scan_key(m, adds_first), next) implies key_lt(
        scan_key(m, adds_first),
        bound,
    ) || m == m0 by {
        if !key_lt(scan_key(m, adds_first), bound) {
            assert(scan_key(m, adds_first) == bound);
            lemma_key_determines(m, m0, adds_first);
        }
    }
}

/// Two moves in the same place of the order are the same move.
proof fn lemma_key_determines(m1: Move, m2: Move, adds_first: bool)
    requires
        scan_key(m1, adds_first) == scan_key(m2, adds_first),
    ensures
        m1 == m2,
{
    if m1.0 is Some && m2.0 is Some {
        assert(m1.0->0 == m2.0->0);
    }
}

/// Moving the bound over places where no move fits changes nothing.
proof fn lemma_skip(
    c: CandidateView,
    p: &KnapsackProblem,
    adds_first: bool,
    gain: int,
    best: Option<Move>,
    bound: (int, int, int),
    next: (int, int, int),
)
    requires
        best_so_far(c, p, adds_first, gain, best, bound),
        !key_lt(next, bound),
        forall|m: Move|
            #[trigger] move_ok(c, m, p) && key_lt(scan_key(m, adds_first), next) ==> key_lt(
                scan_key(m, adds_first),
                bound,
            ),
    ensures
        best_so_far(c, p, adds_first, gain, best, next),
{
}


pub open spec fn add_phase(adds_first: bool) -> int {
    if adds_first {
        0
    } else {
        1
    }
}

pub open spec fn swap_phase(adds_first: bool) -> int {
    if adds_first {
        1
    } else {
        0
    }
}

/// Tries every addition of an item that is out of the bag and fits.
fn scan_adds(
    cand: &Candidate,
    problem: &KnapsackProblem,
    adds_first: bool,
    best_gain: &mut i64,
    best: &mut Option<Move>,
)
    requires
        problem.values_fit(),
        cand.wf(problem),
        cand@.feasible(problem),
        best_so_far(cand@, problem, adds_first, *old(best_gain) as int, *old(best), (add_phase(adds_first), 0, 0)),
    ensures
        best_so_far(
            cand@,
            problem,
            adds_first,
            *final(best_gain) as int,
            *final(best),
            (add_phase(adds_first) + 1, 0, 0),
        ),
{
    let n = problem.items.len();
    let remaining_space = problem.capacity - cand.weight;
    let ghost ph = add_phase(adds_first);
    let mut add: usize = 0;
    while add < n
        invariant
            problem.values_fit(),
            n == problem.n(),
            add <= n,
            cand.wf(problem),
            ph == add_phase(adds_first),
            remaining_space == problem.capacity - cand.weight,
            best_so_far(cand@, problem, adds_first, *best_gain as int, *best, (ph, 0, add as int)),
        decreases n - add,
    {
        let ghost m0: Move = (None, add);
        let ghost g0 = *best_gain as int;
        let ghost b0 = *best;
        let mut take = false;
        if !cand.genes[add] {
            if problem.items[add].weight <= remaining_space {
                proof {
                    assert(problem.items@[add as int].value <= i64::MAX);
                }
                let gain = problem.items[add].value as i64;
                if gain > *best_gain {
                    *best_gain = gain;
                    *best = Some((None, add));
                    take = true;
                }
            }
        }
        proof {
            lemma_try_move(cand@, problem, adds_first, g0, b0, (ph, 0, add as int), m0, take);
        }
        add = add + 1;
    }
    proof {
        lemma_skip(cand@, problem, adds_first, *best_gain as int, *best, (ph, 0, n as int), (ph + 1, 0, 0));
    }
}

/// Tries every exchange of a selected item for one that is out of the bag and
/// fits in the room the exchange leaves.
fn scan_swaps(
    cand: &Candidate,
    problem: &KnapsackProblem,
    adds_first: bool,
    selected: &Vec<usize>,
    best_gain: &mut i64,
    best: &mut Option<Move>,
)
    requires
        problem.values_fit(),
        cand.wf(problem),
        cand@.feasible(problem),
        lists_selected(selected@, cand.genes@),
        best_so_far(cand@, problem, adds_first, *old(best_gain) as int, *old(best), (swap_phase(adds_first), 0, 0)),
    ensures
        best_so_far(
            cand@,
            problem,
            adds_first,
            *final(best_gain) as int,
            *final(best),
            (swap_phase(adds_first) + 1, 0, 0),
        ),
{
    let n = problem.items.len();
    let ghost ph = swap_phase(adds_first);
    let mut k: usize = 0;
    while k < selected.len()
        invariant
            problem.values_fit(),
            n == problem.n(),
            cand.wf(problem),
            cand@.feasible(problem),
            lists_selected(selected@, cand.genes@),
            ph == swap_phase(adds_first),
            k <= selected@.len(),
            best_so_far(
                cand@,
                problem,
                adds_first,
                *best_gain as int,
                *best,
                if k < selected@.len() {
                    (ph, selected@[k as int] as int, 0)
                } else {
                    (ph + 1, 0, 0)
                },
            ),
        decreases selected@.len() - k,
    {
        let rem = selected[k];
        proof {
            lemma_item_within(cand@, rem as int, problem);
        }
        let space = problem.capacity - cand.weight + problem.items[rem].weight;
        let rem_val = problem.items[rem].value;
        let mut add: usize = 0;
        while add < n
            invariant
                problem.values_fit(),
                n == problem.n(),
                cand.wf(problem),
                rem < n,
                ph == swap_phase(adds_first),
                cand.genes@[rem as int],
                add <= n,
                space == problem.capacity - cand.weight + problem.weights()[rem as int],
                rem_val == problem.values()[rem as int],
                best_so_far(cand@, problem, adds_first, *best_gain as int, *best, (ph, rem as int, add as int)),
            decreases n - add,
        {
            let ghost m0: Move = (Some(rem), add);
            let ghost g0 = *best_gain as int;
            let ghost b0 = *best;
            let mut take = false;
            if !(cand.genes[add] || add == rem) {
                if problem.items[add].weight <= space {
                    proof {
                        assert(problem.items@[add as int].value <= i64::MAX);
                        assert(problem.items@[rem as int].value <= i64::MAX);
                    }
                    let gain = problem.items[add].value as i64 - rem_val as i64;
                    if gain > *best_gain {
                        *best_gain = gain;
                        *best = Some((Some(rem), add));
                        take = true;
                    }
                }
            }
            proof {
                lemma_try_move(cand@, problem, adds_first, g0, b0, (ph, rem as int, add as int), m0, take);
            }
            add = add + 1;
        }
        let ghost next: (int, int, int) = if k + 1 < selected@.len() {
            (ph, selected@[k + 1] as int, 0)
        } else {
            (ph + 1, 0, 0)
        };
        proof {
            assert forall|m: Move|
                #[trigger] move_ok(cand@, m, problem) && key_lt(scan_key(m, adds_first), next) implies key_lt(
                scan_key(m, adds_first),
                (ph, rem as int, n as int),
            ) by {
                if m.0 is Some {
                    let r = m.0->0;
                    assert(cand.genes@[r as int]);
                    assert(selected@.contains(r));
                    let j = choose|j: int| 0 <= j < selected@.len() && selected@[j] == r;
                    if j > k {
                        assert(selected@[k + 1] <= selected@[j]) by {
                            if j > k + 1 {
                                assert(selected@[k + 1] < selected@[j]);
                            }
                        }
                    }
                    if j < k {
                        assert(selected@[j] < selected@[k as int]);
                    }
                }
            }
            if k + 1 < selected@.len() {
                assert(selected@[k as int] < selected@[k + 1]);
            }
            lemma_skip(cand@, problem, adds_first, *best_gain as int, *best, (ph, rem as int, n as int), next);
        }
        k = k + 1;
    }
}


/// The best move on `c` (additions tried first when `adds_first`), or `None`
/// when no move that fits gains value.
fn best_move(cand: &Candidate, problem: &KnapsackProblem, adds_first: bool) -> (res: Option<Move>)
    requires
        problem.values_fit(),
        cand.wf(problem),
        cand@.feasible(problem),
    ensures
        res is None ==> !improvable(cand@, problem),
        res matches Some(m) ==> best_choice(cand@, m, adds_first, problem),
{
    let selected = selected_indices(&cand.genes);
    let mut best_gain: i64 = 0;
    let mut best: Option<Move> = None;
    if adds_first {
        scan_adds(cand, problem, adds_first, &mut best_gain, &mut best);
        scan_swaps(cand, problem, adds_first, &selected, &mut best_gain, &mut best);
    } else {
        scan_swaps(cand, problem, adds_first, &selected, &mut best_gain, &mut best);
        scan_adds(cand, problem, adds_first, &mut best_gain, &mut best);
    }
    proof {
        assert forall|m: Move| #[trigger] move_ok(cand@, m, problem) implies key_lt(
            scan_key(m, adds_first),
            (2, 0, 0),
        ) by {}
    }
    if best_gain <= 0 {
        return None;
    }
    best
}

/// Making the best move is deterministic: there is only one.
pub proof fn lemma_best_unique(c: CandidateView, m1: Move, m2: Move, adds_first: bool, p: &KnapsackProblem)
    requires
        best_choice(c, m1, adds_first, p),
        best_choice(c, m2, adds_first, p),
    ensures
        m1 == m2,
{
    assert(move_ok(c, m1, p) && move_ok(c, m2, p));
    lemma_key_determines(m1, m2, adds_first);
}

/// Some move that fits gains value and is the first in the order tried among
/// those with the highest gain: a move that gains can only be beaten by one
/// that gains more, or as much and is tried earlier.
proof fn lemma_best_from(c: CandidateView, m: Move, adds_first: bool, p: &KnapsackProblem)
    requires
        move_ok(c, m, p),
        move_gain(m, p) > 0,
    ensures
        exists|b: Move| best_choice(c, b, adds_first, p),
    decreases u64::MAX - move_gain(m, p), scan_key(m, adds_first).0, scan_key(m, adds_first).1, scan_key(
        m,
        adds_first,
    ).2,
{
    if !best_choice(c, m, adds_first, p) {
        let m2 = choose|m2: Move|
            #[trigger] move_ok(c, m2, p) && (move_gain(m2, p) > move_gain(m, p) || (move_gain(m2, p)
                == move_gain(m, p) && key_lt(scan_key(m2, adds_first), scan_key(m, adds_first))));
        lemma_best_from(c, m2, adds_first, p);
    }
}

/// Where some move gains value, there is a best move.
pub proof fn lemma_best_exists(c: CandidateView, adds_first: bool, p: &KnapsackProblem)
    requires
        improvable(c, p),
    ensures
        exists|b: Move| best_choice(c, b, adds_first, p),
{
    let m = choose|m: Move| #[trigger] move_ok(c, m, p) && move_gain(m, p) > 0;
    lemma_best_from(c, m, adds_first, p);
}

/// `c` after the move `m`.
pub open spec fn apply_move(c: CandidateView, m: Move, p: &KnapsackProblem) -> CandidateView {
    match m.0 {
        None => c.with_item(m.1 as int, p),
        Some(r) => swapped(c, r as int, m.1 as int, p),
    }
}

/// One round of the budgeted climb on `c`: the best move, additions tried first.
pub open spec fn climb_step(c: CandidateView, p: &KnapsackProblem) -> Option<CandidateView> {
    if improvable(c, p) {
        Some(apply_move(c, choose|m: Move| best_choice(c, m, true, p), p))
    } else {
        None
    }
}

/// One round of the unbudgeted climb on `c`: the best move, exchanges tried first.
pub open spec fn sweep_step(c: CandidateView, p: &KnapsackProblem) -> Option<CandidateView> {
    if improvable(c, p) {
        Some(apply_move(c, choose|m: Move| best_choice(c, m, false, p), p))
    } else {
        None
    }
}

/// `c` after `k` rounds of the budgeted climb (fewer if it gets stuck).
pub open spec fn climb_run(c: CandidateView, k: nat, p: &KnapsackProblem) -> CandidateView
    decreases k,
{
    if k == 0 {
        c
    } else {
        let x = climb_run(c, (k - 1) as nat, p);
        match climb_step(x, p) {
            None => x,
            Some(d) => d,
        }
    }
}

/// `c` after `k` rounds of the unbudgeted climb (fewer if it gets stuck).
pub open spec fn sweep_run(c: CandidateView, k: nat, p: &KnapsackProblem) -> CandidateView
    decreases k,
{
    if k == 0 {
        c
    } else {
        let x = sweep_run(c, (k - 1) as nat, p);
        match sweep_step(x, p) {
            None => x,
            Some(d) => d,
        }
    }
}

/// How many rounds the budgeted climb makes at most on `n` items.
pub open spec fn budgeted_rounds(n: nat) -> nat {
    if n <= 500 {
        1000
    } else if n <= 5_000 {
        100
    } else if n <= 50_000 {
        10
    } else {
        3
    }
}

/// Once the climb is stuck it stays where it is.
proof fn lemma_climb_stuck(c: CandidateView, k: nat, k2: nat, p: &KnapsackProblem)
    requires
        k <= k2,
        climb_step(climb_run(c, k, p), p) is None,
    ensures
        climb_run(c, k2, p) == climb_run(c, k, p),
    decreases k2,
{
    if k2 > k {
        lemma_climb_stuck(c, k, (k2 - 1) as nat, p);
    }
}

/// A move that fits keeps the totals right and the bag within capacity, and
/// gains its value.
proof fn lemma_apply_move(c: CandidateView, m: Move, p: &KnapsackProblem)
    requires
        c.wf(p),
        c.feasible(p),
        move_ok(c, m, p),
    ensures
        apply_move(c, m, p).wf(p),
        apply_move(c, m, p).feasible(p),
        apply_move(c, m, p).fitness == c.fitness + move_gain(m, p),
{
    match m.0 {
        None => {
            lemma_candidate_with_item(c, m.1 as int, p);
        },
        Some(r) => {
            lemma_swap(c, r as int, m.1 as int, p);
        },
    }
}

/// Up to a budget of rounds (fewer on many items), makes the move that gains the
/// most value: putting in an item that fits, or exchanging a selected item for
/// one that fits in its place; stops when no move gains.
pub fn exhaustive_hill_climb_budgeted(candidate: &mut Candidate, problem: &KnapsackProblem)
    requires
        problem.values_fit(),
        old(candidate).wf(problem),
        old(candidate)@.feasible(problem),
    ensures
        final(candidate)@ == climb_run(old(candidate)@, budgeted_rounds(problem.n()), problem),
        final(candidate).wf(problem),
        final(candidate)@.feasible(problem),
        final(candidate).fitness >= old(candidate).fitness,
{
    let ghost start = candidate@;
    let n = problem.items.len();
    let max_rounds: usize = if n <= 500 {
        1000
    } else if n <= 5_000 {
        100
    } else if n <= 50_000 {
        10
    } else {
        3
    };
    let mut round: usize = 0;
    let mut stuck = false;
    while round < max_rounds && !stuck
        invariant
            problem.values_fit(),
            n == problem.n(),
            max_rounds == budgeted_rounds(problem.n()),
            round <= max_rounds,
            candidate.wf(problem),
            candidate@.feasible(problem),
            candidate.fitness >= start.fitness,
            candidate@ == climb_run(start, round as nat, problem),
            stuck ==> climb_step(candidate@, problem) is None,
        decreases max_rounds - round + if stuck {
            0int
        } else {
            1int
        },
    {
        match best_move(candidate, problem, true) {
            None => {
                stuck = true;
            },
            Some(m) => {
                let ghost before = candidate@;
                proof {
                    lemma_apply_move(before, m, problem);
                    assert(best_choice(before, m, true, problem));
                    let chosen = choose|m2: Move| best_choice(before, m2, true, problem);
                    lemma_best_unique(before, m, chosen, true, problem);
                }
                let (remove, add) = m;
                if let Some(rem) = remove {
                    proof {
                        lemma_item_within(candidate@, rem as int, problem);
                    }
                    candidate.remove(rem, problem);
                }
                proof {
                    lemma_value_room(candidate@, add as int, problem);
                }
                candidate.add(add, problem);
                round = round + 1;
                proof {
                    assert(candidate@ == apply_move(before, m, problem));
                }
            },
        }
    }
    proof {
        if stuck {
            lemma_climb_stuck(start, round as nat, max_rounds as nat, problem);
        }
    }
}


/// Until no move gains value, makes the move that gains the most: exchanging a
/// selected item for one that fits in its place (tried first), or putting in an
/// item that fits. An addition leaves the items in the bag as they are.
pub fn exhaustive_hill_climb(candidate: &mut Candidate, problem: &KnapsackProblem)
    requires
        problem.values_fit(),
        old(candidate).wf(problem),
        old(candidate)@.feasible(problem),
    ensures
        exists|k: nat| final(candidate)@ == #[trigger] sweep_run(old(candidate)@, k, problem),
        !improvable(final(candidate)@, problem),
        final(candidate).wf(problem),
        final(candidate)@.feasible(problem),
        final(candidate).fitness >= old(candidate).fitness,
{
    let ghost start = candidate@;
    let ghost mut rounds: nat = 0;
    let mut stuck = false;
    proof {
        lemma_sum_bounded(problem, candidate.genes@);
    }
    while !stuck
        invariant
            problem.values_fit(),
            candidate.wf(problem),
            candidate@.feasible(problem),
            candidate@ == sweep_run(start, rounds, problem),
            candidate.fitness <= problem.total_value(),
            candidate.fitness >= start.fitness,
            stuck ==> !improvable(candidate@, problem),
        decreases problem.total_value() - candidate.fitness + if stuck {
            0int
        } else {
            1int
        },
    {
        let ghost before = candidate@;
        match best_move(candidate, problem, false) {
            None => {
                stuck = true;
            },
            Some(m) => {
                proof {
                    assert(best_choice(before, m, false, problem));
                    let chosen = choose|m2: Move| best_choice(before, m2, false, problem);
                    lemma_best_unique(before, m, chosen, false, problem);
                    lemma_apply_move(before, m, problem);
                }
                let (remove, add) = m;
                if let Some(rem) = remove {
                    proof {
                        lemma_item_within(candidate@, rem as int, problem);
                    }
                    candidate.remove(rem, problem);
                }
                proof {
                    lemma_value_room(candidate@, add as int, problem);
                }
                candidate.add(add, problem);
                proof {
                    assert(candidate@ == apply_move(before, m, problem));
                    rounds = rounds + 1;
                    lemma_sum_bounded(problem, candidate.genes@);
                }
            },
        }
    }
}

/// A budgeted climb that stopped before its budget ran out has reached a state
/// no round changes: climbing from its result again gives the result back.
pub proof fn law_converged_climb_is_fixed(c: CandidateView, p: &KnapsackProblem)
    requires
        climb_step(climb_run(c, budgeted_rounds(p.n()), p), p) is None,
    ensures
        climb_run(climb_run(c, budgeted_rounds(p.n()), p), budgeted_rounds(p.n()), p) == climb_run(
            c,
            budgeted_rounds(p.n()),
            p,
        ),
{
    let r = climb_run(c, budgeted_rounds(p.n()), p);
    assert(climb_run(r, 0, p) == r);
    lemma_climb_stuck(r, 0, budgeted_rounds(p.n()), p);
}

/// On a consistent candidate within capacity, a round of the budgeted climb that
/// moves keeps the candidate consistent and within capacity, and gains at least
/// one unit of value.
pub proof fn lemma_climb_step_gains(c: CandidateView, p: &KnapsackProblem)
    requires
        c.wf(p),
        c.feasible(p),
        climb_step(c, p) is Some,
    ensures
        climb_step(c, p)->0.wf(p),
        climb_step(c, p)->0.feasible(p),
        climb_step(c, p)->0.fitness >= c.fitness + 1,
{
    lemma_best_exists(c, true, p);
    let m = choose|m: Move| best_choice(c, m, true, p);
    lemma_apply_move(c, m, p);
}

/// On a consistent candidate within capacity, a round of the unbudgeted climb
/// that moves keeps the candidate consistent and within capacity, and gains at
/// least one unit of value.
pub proof fn lemma_sweep_step_gains(c: CandidateView, p: &KnapsackProblem)
    requires
        c.wf(p),
        c.feasible(p),
        sweep_step(c, p) is Some,
    ensures
        sweep_step(c, p)->0.wf(p),
        sweep_step(c, p)->0.feasible(p),
        sweep_step(c, p)->0.fitness >= c.fitness + 1,
{
    lemma_best_exists(c, false, p);
    let m = choose|m: Move| best_choice(c, m, false, p);
    lemma_apply_move(c, m, p);
}

/// After `k` rounds of the budgeted climb the candidate is still consistent and
/// within capacity, and it has either gained at least `k` or got stuck.
proof fn lemma_climb_progress(c: CandidateView, k: nat, p: &KnapsackProblem)
    requires
        c.wf(p),
        c.feasible(p),
    ensures
        climb_run(c, k, p).wf(p),
        climb_run(c, k, p).feasible(p),
        climb_run(c, k, p).fitness >= c.fitness + k || climb_step(climb_run(c, k, p), p) is None,
    decreases k,
{
    if k > 0 {
        let x = climb_run(c, (k - 1) as nat, p);
        lemma_climb_progress(c, (k - 1) as nat, p);
        if climb_step(x, p) is Some {
            lemma_climb_step_gains(x, p);
        }
    }
}

/// A budgeted climb from a consistent candidate within capacity that gained less
/// than its round budget has converged: climbing again from its result gives the
/// result back.
pub proof fn law_budgeted_climb_converges(c: CandidateView, p: &KnapsackProblem)
    requires
        c.wf(p),
        c.feasible(p),
        climb_run(c, budgeted_rounds(p.n()), p).fitness < c.fitness + budgeted_rounds(p.n()),
    ensures
        climb_run(climb_run(c, budgeted_rounds(p.n()), p), budgeted_rounds(p.n()), p) == climb_run(
            c,
            budgeted_rounds(p.n()),
            p,
        ),
{
    lemma_climb_progress(c, budgeted_rounds(p.n()), p);
    law_converged_climb_is_fixed(c, p);
}

/// A candidate on which no move gains value is a fixed point of the unbudgeted
/// climb: any number of its rounds leaves it as it is.
pub proof fn law_unimprovable_is_fixed(c: CandidateView, k: nat, p: &KnapsackProblem)
    requires
        !improvable(c, p),
    ensures
        sweep_run(c, k, p) == c,
    decreases k,
{
    if k > 0 {
        law_unimprovable_is_fixed(c, (k - 1) as nat, p);
    }
}

} // verus!
