use vstd::prelude::*;

verus! {

/// A sort key: the fraction `num / den`. A positive `num` over a zero `den`
/// stands for infinity; `0 / 0` is not a key.
#[derive(Clone, Copy)]
pub struct Ratio {
    pub num: u64,
    pub den: u64,
}

pub open spec fn ratio_valid(x: Ratio) -> bool {
    x.num > 0 || x.den > 0
}

/// `x` is a smaller fraction than `y`, compared exactly by cross-multiplication.
pub open spec fn ratio_lt(x: Ratio, y: Ratio) -> bool {
    (x.num as int) * (y.den as int) < (y.num as int) * (x.den as int)
}

/// `x` and `y` are the same fraction.
pub open spec fn ratio_eq(x: Ratio, y: Ratio) -> bool {
    (x.num as int) * (y.den as int) == (y.num as int) * (x.den as int)
}

proof fn lemma_products_fit(a: u64, b: u64)
    ensures
        (a as int) * (b as int) <= u128::MAX,
{
    assert((a as int) * (b as int) <= (u64::MAX as int) * (u64::MAX as int)) by (nonlinear_arith)
        requires
            a <= u64::MAX,
            b <= u64::MAX,
    ;
}

/// Exact comparison of two fractions.
pub fn ratio_less(x: Ratio, y: Ratio) -> (r: bool)
    ensures
        r == ratio_lt(x, y),
{
    proof {
        lemma_products_fit(x.num, y.den);
        lemma_products_fit(y.num, x.den);
    }
    (x.num as u128) * (y.den as u128) < (y.num as u128) * (x.den as u128)
}

/// Exact equality of two fractions.
pub fn ratio_same(x: Ratio, y: Ratio) -> (r: bool)
    ensures
        r == ratio_eq(x, y),
{
    proof {
        lemma_products_fit(x.num, y.den);
        lemma_products_fit(y.num, x.den);
    }
    (x.num as u128) * (y.den as u128) == (y.num as u128) * (x.den as u128)
}

/// Fractions are ordered: comparison by cross-multiplication is transitive
/// on keys that are not `0 / 0`.
pub proof fn lemma_ratio_trans(x: Ratio, y: Ratio, z: Ratio)
    requires
        ratio_valid(x),
        ratio_valid(y),
        ratio_valid(z),
    ensures
        ratio_lt(x, y) && ratio_lt(y, z) ==> ratio_lt(x, z),
        ratio_lt(x, y) && ratio_eq(y, z) ==> ratio_lt(x, z),
        ratio_eq(x, y) && ratio_lt(y, z) ==> ratio_lt(x, z),
        ratio_eq(x, y) && ratio_eq(y, z) ==> ratio_eq(x, z),
{
    let (xn, xd, yn, yd, zn, zd) = (
        x.num as int,
        x.den as int,
        y.num as int,
        y.den as int,
        z.num as int,
        z.den as int,
    );
    if yd > 0 {
        assert(xn * yd <= yn * xd && yn * zd <= zn * yd ==> xn * zd * yd <= zn * xd * yd)
            by (nonlinear_arith)
            requires
                xn >= 0,
                xd >= 0,
                yn >= 0,
                yd > 0,
                zn >= 0,
                zd >= 0,
        ;
        assert(xn * yd == yn * xd && yn * zd == zn * yd ==> xn * zd * yd == zn * xd * yd)
            by (nonlinear_arith);
        assert(xn * zd * yd <= zn * xd * yd ==> xn * zd <= zn * xd) by (nonlinear_arith)
            requires
                yd > 0,
        ;
        assert(xn * zd * yd == zn * xd * yd ==> xn * zd == zn * xd) by (nonlinear_arith)
            requires
                yd > 0,
        ;
        if ratio_lt(x, y) && (ratio_lt(y, z) || ratio_eq(y, z)) {
            if zd > 0 {
                assert(xn * yd < yn * xd && yn * zd <= zn * yd ==> xn * zd * yd < zn * xd * yd)
                    by (nonlinear_arith)
                    requires
                        xn >= 0,
                        xd >= 0,
                        yn >= 0,
                        yd > 0,
                        zn >= 0,
                        zd > 0,
                ;
                assert(xn * zd * yd < zn * xd * yd ==> xn * zd < zn * xd) by (nonlinear_arith)
                    requires
                        yd > 0,
                ;
            } else {
                assert(yn * xd > 0);
                assert(xd > 0) by (nonlinear_arith)
                    requires
                        yn * xd > 0,
                        yn >= 0,
                        xd >= 0,
                ;
                assert(zn * xd > 0) by (nonlinear_arith)
                    requires
                        zn > 0,
                        xd > 0,
                ;
            }
        }
        if ratio_eq(x, y) && ratio_lt(y, z) {
            if xd == 0 {
                assert(xn * yd > 0) by (nonlinear_arith)
                    requires
                        xn > 0,
                        yd > 0,
                ;
                assert(yn * xd == 0) by (nonlinear_arith)
                    requires
                        xd == 0,
                ;
            }
            if zd > 0 {
                assert(xn * yd == yn * xd && yn * zd < zn * yd ==> xn * zd * yd < zn * xd * yd)
                    by (nonlinear_arith)
                    requires
                        xn >= 0,
                        xd > 0,
                        yn >= 0,
                        yd > 0,
                        zn >= 0,
                        zd > 0,
                ;
                assert(xn * zd * yd < zn * xd * yd ==> xn * zd < zn * xd) by (nonlinear_arith)
                    requires
                        yd > 0,
                ;
            } else {
                assert(zn * xd > 0) by (nonlinear_arith)
                    requires
                        zn > 0,
                        xd > 0,
                ;
            }
        }
    } else {
        // y is infinite
        assert(yn > 0);
        assert(zn * yd == 0 && xn * yd == 0) by (nonlinear_arith)
            requires
                yd == 0,
        ;
        if ratio_lt(x, y) {
            assert(yn * xd > 0);
            assert(xd > 0) by (nonlinear_arith)
                requires
                    yn * xd > 0,
                    yn >= 0,
                    xd >= 0,
            ;
        }
        if ratio_lt(y, z) {
            assert(yn * zd >= 0) by (nonlinear_arith)
                requires
                    yn >= 0,
                    zd >= 0,
            ;
        }
        if ratio_eq(y, z) {
            assert(zd == 0) by (nonlinear_arith)
                requires
                    yn * zd == 0,
                    yn > 0,
            ;
            if ratio_lt(x, y) {
                assert(zn * xd > 0) by (nonlinear_arith)
                    requires
                        zn > 0,
                        xd > 0,
                ;
            }
        }
        if ratio_eq(x, y) {
            assert(xd == 0) by (nonlinear_arith)
                requires
                    yn * xd == 0,
                    yn > 0,
            ;
        }
    }
}

/// An order on item indices: by key (rising, or falling when `descending`),
/// and by index among equal keys. Sorting by it is what a stable sort by key
/// does to indices listed in rising order.
pub struct KeyOrder {
    pub keys: Vec<Ratio>,
    pub descending: bool,
}

impl KeyOrder {
    pub open spec fn in_domain(&self, i: usize) -> bool {
        i < self.keys@.len() && ratio_valid(self.keys@[i as int])
    }

    pub open spec fn key_first(&self, a: usize, b: usize) -> bool {
        if self.descending {
            ratio_lt(self.keys@[b as int], self.keys@[a as int])
        } else {
            ratio_lt(self.keys@[a as int], self.keys@[b as int])
        }
    }

    /// Index `a` comes before index `b`.
    pub open spec fn before(&self, a: usize, b: usize) -> bool {
        self.key_first(a, b) || (ratio_eq(self.keys@[a as int], self.keys@[b as int]) && a < b)
    }

    /// Every index of `s` comes before the ones after it.
    pub open spec fn sorted(&self, s: Seq<usize>) -> bool {
        forall|i: int, j: int| 0 <= i < j < s.len() ==> self.before(#[trigger] s[i], #[trigger] s[j])
    }

    pub fn precedes(&self, a: usize, b: usize) -> (r: bool)
        requires
            a < self.keys@.len(),
            b < self.keys@.len(),
        ensures
            r == self.before(a, b),
    {
        let ka = self.keys[a];
        let kb = self.keys[b];
        let first = if self.descending {
            ratio_less(kb, ka)
        } else {
            ratio_less(ka, kb)
        };
        first || (ratio_same(ka, kb) && a < b)
    }

    pub proof fn lemma_trans(&self, a: usize, b: usize, c: usize)
        requires
            self.in_domain(a),
            self.in_domain(b),
            self.in_domain(c),
            self.before(a, b),
            self.before(b, c),
        ensures
            self.before(a, c),
    {
        let (ka, kb, kc) = (self.keys@[a as int], self.keys@[b as int], self.keys@[c as int]);
        lemma_ratio_trans(ka, kb, kc);
        lemma_ratio_trans(kc, kb, ka);
    }

    pub proof fn lemma_total(&self, a: usize, b: usize)
        requires
            self.in_domain(a),
            self.in_domain(b),
            a != b,
        ensures
            self.before(a, b) || self.before(b, a),
    {
    }

    pub proof fn lemma_irreflexive(&self, a: usize)
        ensures
            !self.before(a, a),
    {
    }
}


/// Every index of `s` is one the order can compare.
pub open spec fn all_in_domain(ord: &KeyOrder, s: Seq<usize>) -> bool {
    forall|i: int| 0 <= i < s.len() ==> ord.in_domain(#[trigger] s[i])
}

proof fn lemma_push_contains(s: Seq<usize>, x: usize, y: usize)
    ensures
        s.push(x).contains(y) <==> (s.contains(y) || y == x),
{
    if s.push(x).contains(y) && y != x {
        let k = choose|k: int| 0 <= k < s.push(x).len() && s.push(x)[k] == y;
        assert(s[k] == y);
    }
    if s.contains(y) {
        let k = choose|k: int| 0 <= k < s.len() && s[k] == y;
        assert(s.push(x)[k] == y);
    }
    assert(s.push(x)[s.len() as int] == x);
}

/// Merges two sorted runs with no index in common into one sorted run.
fn merge_runs(ord: &KeyOrder, a: Vec<usize>, b: Vec<usize>) -> (r: Vec<usize>)
    requires
        all_in_domain(ord, a@),
        all_in_domain(ord, b@),
        ord.sorted(a@),
        ord.sorted(b@),
        forall|x: usize| !(a@.contains(x) && b@.contains(x)),
    ensures
        r@.len() == a@.len() + b@.len(),
        forall|x: usize| r@.contains(x) <==> (a@.contains(x) || b@.contains(x)),
        all_in_domain(ord, r@),
        ord.sorted(r@),
{
    let mut r: Vec<usize> = Vec::new();
    let mut i: usize = 0;
    let mut j: usize = 0;
    while i < a.len() || j < b.len()
        invariant
            i <= a@.len(),
            j <= b@.len(),
            r@.len() == i + j,
            all_in_domain(ord, a@),
            all_in_domain(ord, b@),
            ord.sorted(a@),
            ord.sorted(b@),
            forall|x: usize| !(a@.contains(x) && b@.contains(x)),
            forall|x: usize|
                r@.contains(x) <==> (a@.subrange(0, i as int).contains(x) || b@.subrange(
                    0,
                    j as int,
                ).contains(x)),
            all_in_domain(ord, r@),
            ord.sorted(r@),
            forall|k: int, l: int|
                0 <= k < r@.len() && i <= l < a@.len() ==> ord.before(
                    #[trigger] r@[k],
                    #[trigger] a@[l],
                ),
            forall|k: int, l: int|
                0 <= k < r@.len() && j <= l < b@.len() ==> ord.before(
                    #[trigger] r@[k],
                    #[trigger] b@[l],
                ),
        decreases a@.len() + b@.len() - i - j,
    {
        let take_a = if j >= b.len() {
            true
        } else if i >= a.len() {
            false
        } else {
            ord.precedes(a[i], b[j])
        };
        let ghost old_r = r@;
        if take_a {
            let x = a[i];
            proof {
                assert forall|l: int| i < l < a@.len() implies ord.before(x, #[trigger] a@[l]) by {}
                assert forall|l: int| j <= l < b@.len() implies ord.before(x, #[trigger] b@[l]) by {
                    if l > j {
                        ord.lemma_trans(x, b@[j as int], b@[l]);
                    }
                }
                assert(a@.subrange(0, i + 1) =~= a@.subrange(0, i as int).push(x));
            }
            r.push(x);
            i = i + 1;
            proof {
                assert forall|k: int, l: int| 0 <= k < r@.len() && i <= l < a@.len() implies ord.before(
                    #[trigger] r@[k],
                    #[trigger] a@[l],
                ) by {
                    if k < old_r.len() {
                        assert(old_r[k] == r@[k]);
                    }
                }
                assert forall|k: int, l: int| 0 <= k < r@.len() && j <= l < b@.len() implies ord.before(
                    #[trigger] r@[k],
                    #[trigger] b@[l],
                ) by {
                    if k < old_r.len() {
                        assert(old_r[k] == r@[k]);
                    }
                }
                assert forall|k: int, l: int| 0 <= k < l < r@.len() implies ord.before(
                    #[trigger] r@[k],
                    #[trigger] r@[l],
                ) by {
                    if l < old_r.len() {
                        assert(old_r[k] == r@[k] && old_r[l] == r@[l]);
                    } else {
                        assert(old_r[k] == r@[k]);
                        assert(a@[i - 1] == x);
                    }
                }
                assert(r@ =~= old_r.push(x));
                assert forall|x2: usize| r@.contains(x2) <==> (a@.subrange(0, i as int).contains(x2)
                    || b@.subrange(0, j as int).contains(x2)) by {
                    lemma_push_contains(old_r, x, x2);
                    lemma_push_contains(a@.subrange(0, i - 1), x, x2);
                }
            }
        } else {
            let y = b[j];
            proof {
                if i < a@.len() {
                    assert(a@.contains(a@[i as int]));
                    assert(b@.contains(y));
                    ord.lemma_total(a@[i as int], y);
                }
                assert forall|l: int| i <= l < a@.len() implies ord.before(y, #[trigger] a@[l]) by {
                    if l > i {
                        ord.lemma_trans(y, a@[i as int], a@[l]);
                    }
                }
                assert forall|l: int| j < l < b@.len() implies ord.before(y, #[trigger] b@[l]) by {}
                assert(b@.subrange(0, j + 1) =~= b@.subrange(0, j as int).push(y));
            }
            r.push(y);
            j = j + 1;
            proof {
                assert forall|k: int, l: int| 0 <= k < r@.len() && i <= l < a@.len() implies ord.before(
                    #[trigger] r@[k],
                    #[trigger] a@[l],
                ) by {
                    if k < old_r.len() {
                        assert(old_r[k] == r@[k]);
                    }
                }
                assert forall|k: int, l: int| 0 <= k < r@.len() && j <= l < b@.len() implies ord.before(
                    #[trigger] r@[k],
                    #[trigger] b@[l],
                ) by {
                    if k < old_r.len() {
                        assert(old_r[k] == r@[k]);
                    }
                }
                assert forall|k: int, l: int| 0 <= k < l < r@.len() implies ord.before(
                    #[trigger] r@[k],
                    #[trigger] r@[l],
                ) by {
                    if l < old_r.len() {
                        assert(old_r[k] == r@[k] && old_r[l] == r@[l]);
                    } else {
                        assert(old_r[k] == r@[k]);
                        assert(b@[j - 1] == y);
                    }
                }
                assert(r@ =~= old_r.push(y));
                assert forall|x2: usize| r@.contains(x2) <==> (a@.subrange(0, i as int).contains(x2)
                    || b@.subrange(0, j as int).contains(x2)) by {
                    lemma_push_contains(old_r, y, x2);
                    lemma_push_contains(b@.subrange(0, j - 1), y, x2);
                }
            }
        }
    }
    proof {
        assert(a@.subrange(0, a@.len() as int) =~= a@);
        assert(b@.subrange(0, b@.len() as int) =~= b@);
    }
    r
}

/// Sorts a list of distinct indices by `ord` (a merge sort).
pub fn sort_indices(ord: &KeyOrder, v: Vec<usize>) -> (r: Vec<usize>)
    requires
        v@.len() >= 2 ==> all_in_domain(ord, v@),
        v@.no_duplicates(),
    ensures
        r@.len() == v@.len(),
        forall|x: usize| r@.contains(x) <==> v@.contains(x),
        v@.len() >= 2 ==> all_in_domain(ord, r@),
        ord.sorted(r@),
        r@.no_duplicates(),
    decreases v@.len(),
{
    let len = v.len();
    if len <= 1 {
        return v;
    }
    assert(all_in_domain(ord, v@));
    let mid = len / 2;
    let mut left = v;
    let right = left.split_off(mid);
    let ghost whole = left@ + right@;
    proof {
        assert(whole =~= v@);
        assert forall|x: usize| !(left@.contains(x) && right@.contains(x)) by {
            if left@.contains(x) && right@.contains(x) {
                let k = choose|k: int| 0 <= k < left@.len() && left@[k] == x;
                let l = choose|l: int| 0 <= l < right@.len() && right@[l] == x;
                assert(v@[k] == v@[mid + l]);
            }
        }
        assert forall|x: usize| v@.contains(x) <==> (left@.contains(x) || right@.contains(x)) by {
            if v@.contains(x) {
                let k = choose|k: int| 0 <= k < v@.len() && v@[k] == x;
                if k < mid {
                    assert(left@[k] == x);
                } else {
                    assert(right@[k - mid] == x);
                }
            }
            if left@.contains(x) {
                let k = choose|k: int| 0 <= k < left@.len() && left@[k] == x;
                assert(v@[k] == x);
            }
            if right@.contains(x) {
                let k = choose|k: int| 0 <= k < right@.len() && right@[k] == x;
                assert(v@[mid + k] == x);
            }
        }
        assert(all_in_domain(ord, left@)) by {
            assert forall|i: int| 0 <= i < left@.len() implies ord.in_domain(#[trigger] left@[i]) by {
                assert(left@[i] == v@[i]);
            }
        }
        assert(all_in_domain(ord, right@)) by {
            assert forall|i: int| 0 <= i < right@.len() implies ord.in_domain(#[trigger] right@[i]) by {
                assert(right@[i] == v@[mid + i]);
            }
        }
        assert(left@.no_duplicates()) by {
            assert forall|i: int, j: int| 0 <= i < left@.len() && 0 <= j < left@.len() && i != j
                implies left@[i] != left@[j] by {
                assert(left@[i] == v@[i] && left@[j] == v@[j]);
            }
        }
        assert(right@.no_duplicates()) by {
            assert forall|i: int, j: int| 0 <= i < right@.len() && 0 <= j < right@.len() && i != j
                implies right@[i] != right@[j] by {
                assert(right@[i] == v@[mid + i] && right@[j] == v@[mid + j]);
            }
        }
    }
    let sl = sort_indices(ord, left);
    let sr = sort_indices(ord, right);
    proof {
        assert forall|i: int| 0 <= i < sl@.len() implies ord.in_domain(#[trigger] sl@[i]) by {
            assert(sl@.contains(sl@[i]));
        }
        assert forall|i: int| 0 <= i < sr@.len() implies ord.in_domain(#[trigger] sr@[i]) by {
            assert(sr@.contains(sr@[i]));
        }
    }
    let r = merge_runs(ord, sl, sr);
    proof {
        lemma_sorted_no_duplicates(ord, r@);
    }
    r
}

/// An index list sorted by a key order holds no index twice.
pub proof fn lemma_sorted_no_duplicates(ord: &KeyOrder, s: Seq<usize>)
    requires
        ord.sorted(s),
    ensures
        s.no_duplicates(),
{
    assert forall|i: int, j: int| 0 <= i < s.len() && 0 <= j < s.len() && i != j implies s[i]
        != s[j] by {
        if i < j {
            assert(ord.before(s[i], s[j]));
        } else {
            assert(ord.before(s[j], s[i]));
        }
    }
}

} // verus!
