use vstd::prelude::*;

verus! {

/// One item of a knapsack instance.
#[derive(Clone, Copy, Debug)]
pub struct Item {
    pub weight: u64,
    pub value: u64,
}

/// A 0/1 knapsack instance: the items to choose from and the capacity of the bag.
pub struct KnapsackProblem {
    pub items: Vec<Item>,
    pub capacity: u64,
}

/// Sum of `amounts[i]` over the positions `i < genes.len()` that `genes` marks.
pub open spec fn selected_sum(genes: Seq<bool>, amounts: Seq<u64>) -> nat
    decreases genes.len(),
{
    if genes.len() == 0 {
        0
    } else {
        selected_sum(genes.drop_last(), amounts) + if genes.last() {
            amounts[genes.len() - 1] as nat
        } else {
            0nat
        }
    }
}

/// The gene sequence that selects every one of `n` items.
pub open spec fn all_selected(n: nat) -> Seq<bool> {
    Seq::new(n, |i: int| true)
}

/// The gene sequence that selects none of `n` items.
pub open spec fn none_selected(n: nat) -> Seq<bool> {
    Seq::new(n, |i: int| false)
}

/// `g1` selects nothing that `g2` does not select.
pub open spec fn genes_subset(g1: Seq<bool>, g2: Seq<bool>) -> bool {
    &&& g1.len() == g2.len()
    &&& forall|i: int| 0 <= i < g1.len() && #[trigger] g1[i] ==> g2[i]
}

impl KnapsackProblem {
    pub open spec fn n(&self) -> nat {
        self.items@.len()
    }

    pub open spec fn weights(&self) -> Seq<u64> {
        self.items@.map_values(|it: Item| it.weight)
    }

    pub open spec fn values(&self) -> Seq<u64> {
        self.items@.map_values(|it: Item| it.value)
    }

    /// Weight of all items together.
    pub open spec fn total_weight(&self) -> nat {
        selected_sum(all_selected(self.n()), self.weights())
    }

    /// Value of all items together.
    pub open spec fn total_value(&self) -> nat {
        selected_sum(all_selected(self.n()), self.values())
    }

    /// No selection of items overflows its weight or value in 64 bits.
    pub open spec fn sums_fit(&self) -> bool {
        &&& self.n() <= usize::MAX
        &&& self.total_weight() <= u64::MAX
        &&& self.total_value() <= u64::MAX
    }

    /// The value of all items together fits in 64 bits, and every value fits in
    /// `i64`: enough for moves that never take the bag over capacity.
    pub open spec fn values_fit(&self) -> bool {
        &&& self.total_value() <= u64::MAX
        &&& forall|i: int| 0 <= i < self.n() ==> #[trigger] self.items@[i].value <= i64::MAX
    }

    /// The sums fit, and every value fits in `i64`, so that the value an
    /// exchange gains is a machine integer.
    pub open spec fn wf(&self) -> bool {
        &&& self.sums_fit()
        &&& forall|i: int| 0 <= i < self.n() ==> #[trigger] self.items@[i].value <= i64::MAX
    }
}

/// Changing one gene changes the sum by exactly that position's amount.
pub proof fn lemma_sum_update(g: Seq<bool>, a: Seq<u64>, i: int, b: bool)
    requires
        0 <= i < g.len(),
    ensures
        selected_sum(g.update(i, b), a) + (if g[i] { a[i] as int } else { 0 }) == selected_sum(g, a)
            + (if b { a[i] as int } else { 0 }),
    decreases g.len(),
{
    let g2 = g.update(i, b);
    if i == g.len() - 1 {
        assert(g2.drop_last() =~= g.drop_last());
    } else {
        lemma_sum_update(g.drop_last(), a, i, b);
        assert(g2.drop_last() =~= g.drop_last().update(i, b));
    }
}

/// A selection contained in another one sums to no more.
pub proof fn lemma_sum_subset(g1: Seq<bool>, g2: Seq<bool>, a: Seq<u64>)
    requires
        genes_subset(g1, g2),
    ensures
        selected_sum(g1, a) <= selected_sum(g2, a),
    decreases g1.len(),
{
    if g1.len() > 0 {
        assert(g1[g1.len() - 1] ==> g2[g1.len() - 1]);
        lemma_sum_subset(g1.drop_last(), g2.drop_last(), a);
    }
}

/// Nothing selected sums to zero.
pub proof fn lemma_sum_none(n: nat, a: Seq<u64>)
    ensures
        selected_sum(none_selected(n), a) == 0,
    decreases n,
{
    if n > 0 {
        assert(none_selected(n).drop_last() =~= none_selected((n - 1) as nat));
        lemma_sum_none((n - 1) as nat, a);
    }
}

/// Every selection of the items of `p` sums to no more than all the items.
pub proof fn lemma_sum_bounded(p: &KnapsackProblem, g: Seq<bool>)
    requires
        g.len() == p.n(),
    ensures
        selected_sum(g, p.weights()) <= p.total_weight(),
        selected_sum(g, p.values()) <= p.total_value(),
{
    lemma_sum_subset(g, all_selected(p.n()), p.weights());
    lemma_sum_subset(g, all_selected(p.n()), p.values());
}

/// Adding an unselected item to a selection still stays within the totals.
pub proof fn lemma_sum_room(p: &KnapsackProblem, g: Seq<bool>, i: int)
    requires
        g.len() == p.n(),
        0 <= i < g.len(),
        !g[i],
    ensures
        selected_sum(g, p.weights()) + p.weights()[i] <= p.total_weight(),
        selected_sum(g, p.values()) + p.values()[i] <= p.total_value(),
{
    lemma_sum_update(g, p.weights(), i, true);
    lemma_sum_update(g, p.values(), i, true);
    lemma_sum_bounded(p, g.update(i, true));
}

} // verus!
