use crate::problem::{
    lemma_sum_none, lemma_sum_room, lemma_sum_update, none_selected, selected_sum, KnapsackProblem,
};
use vstd::prelude::*;

verus! {

/// One solution of the population: `genes[i]` says whether item `i` is in the bag.
/// Its total value (`fitness`) and total weight are cached and kept up to date.
pub struct Candidate {
    pub genes: Vec<bool>,
    pub fitness: u64,
    pub weight: u64,
}

/// What a candidate stands for: its genes and its cached totals.
pub struct CandidateView {
    pub genes: Seq<bool>,
    pub fitness: int,
    pub weight: int,
}

impl View for Candidate {
    type V = CandidateView;

    open spec fn view(&self) -> CandidateView {
        CandidateView { genes: self.genes@, fitness: self.fitness as int, weight: self.weight as int }
    }
}

impl CandidateView {
    /// The cached totals are those of the selected items of `p`.
    pub open spec fn wf(self, p: &KnapsackProblem) -> bool {
        &&& self.genes.len() == p.n()
        &&& self.weight == selected_sum(self.genes, p.weights())
        &&& self.fitness == selected_sum(self.genes, p.values())
    }

    /// The selected items fit in the bag.
    pub open spec fn feasible(self, p: &KnapsackProblem) -> bool {
        self.weight <= p.capacity
    }

    /// The candidate with item `idx` put in (unchanged if it already was).
    pub open spec fn with_item(self, idx: int, p: &KnapsackProblem) -> CandidateView {
        if self.genes[idx] {
            self
        } else {
            CandidateView {
                genes: self.genes.update(idx, true),
                fitness: self.fitness + p.values()[idx],
                weight: self.weight + p.weights()[idx],
            }
        }
    }

    /// The candidate with item `idx` taken out (unchanged if it was not in).
    pub open spec fn without_item(self, idx: int, p: &KnapsackProblem) -> CandidateView {
        if !self.genes[idx] {
            self
        } else {
            CandidateView {
                genes: self.genes.update(idx, false),
                fitness: self.fitness - p.values()[idx],
                weight: self.weight - p.weights()[idx],
            }
        }
    }
}

impl Candidate {
    pub open spec fn wf(&self, p: &KnapsackProblem) -> bool {
        self@.wf(p)
    }

    /// The empty candidate over `n` items.
    pub fn new(n: usize) -> (c: Self)
        ensures
            c.genes@ == none_selected(n as nat),
            c.fitness == 0,
            c.weight == 0,
    {
        let mut genes: Vec<bool> = Vec::with_capacity(n);
        let mut i: usize = 0;
        while i < n
            invariant
                i <= n,
                genes@ == none_selected(i as nat),
            decreases n - i,
        {
            genes.push(false);
            i = i + 1;
            assert(genes@ =~= none_selected(i as nat));
        }
        Candidate { genes, fitness: 0, weight: 0 }
    }

    /// A copy of this candidate.
    pub fn duplicate(&self) -> (c: Self)
        ensures
            c@ == self@,
    {
        let mut genes: Vec<bool> = Vec::with_capacity(self.genes.len());
        let mut i: usize = 0;
        while i < self.genes.len()
            invariant
                i <= self.genes@.len(),
                genes@ == self.genes@.subrange(0, i as int),
            decreases self.genes@.len() - i,
        {
            genes.push(self.genes[i]);
            i = i + 1;
            assert(genes@ =~= self.genes@.subrange(0, i as int));
        }
        assert(genes@ =~= self.genes@);
        Candidate { genes, fitness: self.fitness, weight: self.weight }
    }

    /// Puts item `idx` into the bag, if it is not in already, updating the totals.
    pub fn add(&mut self, idx: usize, problem: &KnapsackProblem)
        requires
            idx < old(self).genes@.len(),
            idx < problem.n(),
            !old(self).genes@[idx as int] ==> old(self).weight + problem.weights()[idx as int] <= u64::MAX
                && old(self).fitness + problem.values()[idx as int] <= u64::MAX,
        ensures
            final(self)@ == old(self)@.with_item(idx as int, problem),
            old(self).wf(problem) ==> final(self).wf(problem),
    {
        proof {
            if self.wf(problem) {
                lemma_candidate_with_item(self@, idx as int, problem);
            }
        }
        if !self.genes[idx] {
            self.genes.set(idx, true);
            self.weight = self.weight + problem.items[idx].weight;
            self.fitness = self.fitness + problem.items[idx].value;
        }
    }

    /// Takes item `idx` out of the bag, if it is in, updating the totals.
    pub fn remove(&mut self, idx: usize, problem: &KnapsackProblem)
        requires
            idx < old(self).genes@.len(),
            idx < problem.n(),
            old(self).genes@[idx as int] ==> problem.weights()[idx as int] <= old(self).weight
                && problem.values()[idx as int] <= old(self).fitness,
        ensures
            final(self)@ == old(self)@.without_item(idx as int, problem),
            old(self).wf(problem) ==> final(self).wf(problem),
    {
        proof {
            if self.wf(problem) {
                lemma_candidate_without_item(self@, idx as int, problem);
            }
        }
        if self.genes[idx] {
            self.genes.set(idx, false);
            self.weight = self.weight - problem.items[idx].weight;
            self.fitness = self.fitness - problem.items[idx].value;
        }
    }
}

/// A selected item weighs no more than the whole selection and is worth no
/// more than it.
pub proof fn lemma_item_within(c: CandidateView, r: int, p: &KnapsackProblem)
    requires
        c.wf(p),
        0 <= r < p.n(),
    ensures
        c.genes[r] ==> p.weights()[r] <= c.weight && p.values()[r] <= c.fitness,
{
    lemma_sum_update(c.genes, p.weights(), r, false);
    lemma_sum_update(c.genes, p.values(), r, false);
}

/// When no selection overflows, an item can always be put in.
pub proof fn lemma_room_for(c: CandidateView, idx: int, p: &KnapsackProblem)
    requires
        p.sums_fit(),
        c.wf(p),
        0 <= idx < p.n(),
    ensures
        !c.genes[idx] ==> c.weight + p.weights()[idx] <= u64::MAX && c.fitness + p.values()[idx] <= u64::MAX,
{
    if !c.genes[idx] {
        lemma_sum_room(p, c.genes, idx);
    }
}

/// When the value of all items fits in 64 bits, putting an item in cannot
/// overflow the cached value.
pub proof fn lemma_value_room(c: CandidateView, idx: int, p: &KnapsackProblem)
    requires
        p.total_value() <= u64::MAX,
        c.wf(p),
        0 <= idx < p.n(),
    ensures
        !c.genes[idx] ==> c.fitness + p.values()[idx] <= u64::MAX,
{
    if !c.genes[idx] {
        lemma_sum_room(p, c.genes, idx);
    }
}

/// Putting an item in keeps the cached totals right.
pub proof fn lemma_candidate_with_item(c: CandidateView, idx: int, p: &KnapsackProblem)
    requires
        c.wf(p),
        0 <= idx < p.n(),
    ensures
        c.with_item(idx, p).wf(p),
        c.with_item(idx, p).genes == c.genes.update(idx, true),
{
    lemma_sum_update(c.genes, p.weights(), idx, true);
    lemma_sum_update(c.genes, p.values(), idx, true);
    if c.genes[idx] {
        assert(c.genes.update(idx, true) =~= c.genes);
    }
}

/// Taking an item out keeps the cached totals right.
pub proof fn lemma_candidate_without_item(c: CandidateView, idx: int, p: &KnapsackProblem)
    requires
        c.wf(p),
        0 <= idx < p.n(),
    ensures
        c.without_item(idx, p).wf(p),
        c.without_item(idx, p).genes == c.genes.update(idx, false),
{
    lemma_sum_update(c.genes, p.weights(), idx, false);
    lemma_sum_update(c.genes, p.values(), idx, false);
    if !c.genes[idx] {
        assert(c.genes.update(idx, false) =~= c.genes);
    }
}

/// The empty candidate has the right cached totals.
pub proof fn lemma_empty_wf(p: &KnapsackProblem)
    ensures
        (CandidateView { genes: none_selected(p.n()), fitness: 0, weight: 0 }).wf(p),
{
    lemma_sum_none(p.n(), p.weights());
    lemma_sum_none(p.n(), p.values());
}

/// Taking out an item that was just put in gives back the candidate as it was.
pub proof fn law_remove_undoes_add(c: CandidateView, idx: int, p: &KnapsackProblem)
    requires
        c.wf(p),
        0 <= idx < p.n(),
        !c.genes[idx],
    ensures
        c.with_item(idx, p).without_item(idx, p) == c,
{
    assert(c.genes.update(idx, true).update(idx, false) =~= c.genes);
}

/// Putting back an item that was just taken out gives back the candidate as it was.
pub proof fn law_add_undoes_remove(c: CandidateView, idx: int, p: &KnapsackProblem)
    requires
        c.wf(p),
        0 <= idx < p.n(),
        c.genes[idx],
    ensures
        c.without_item(idx, p).with_item(idx, p) == c,
{
    assert(c.genes.update(idx, false).update(idx, true) =~= c.genes);
}

} // verus!
