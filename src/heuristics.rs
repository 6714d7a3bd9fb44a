//! Branching heuristics: which literal the search splits on.
//!
//! The one-sided Jeroslow-Wang weight of a literal `l` is the sum, over the
//! clauses `c` that contain `l`, of `2^-|c|`. It is compared exactly: scaled
//! by `2^m` for an `m` at least every clause length, it is the integer
//! `sum_k count(l, k) * 2^(m - k)`, where `count(l, k)` is the number of
//! clauses of length `k` that contain `l`.
use vstd::prelude::*;
use crate::cnf::CNF;
use crate::cnf::lemma_clause_map_finite;
use crate::cnf::lemma_occurrences_exact;
use crate::cnf::occ_of;
use crate::cnf::zeroth;
use crate::sets::elements;
use crate::sets::keys_of;
use crate::sets::lemma_push_contains;

verus! {

broadcast use vstd::std_specs::hash::group_hash_axioms;

/// `2^e` for `e >= 0`.
pub open spec fn two_to(e: int) -> int
    decreases e,
{
    if e <= 0 {
        1
    } else {
        2 * two_to(e - 1)
    }
}

/// `sum_{k=1..m} h[k] * 2^(m - k)`: a histogram of clause lengths read as a
/// weight scaled by `2^m`.
pub open spec fn weight_of(h: Seq<int>, m: int) -> int
    decreases m,
{
    if m <= 0 {
        0
    } else {
        2 * weight_of(h, m - 1) + h[m]
    }
}

/// `sum_{k=1..m} (a[k] + b[k])`.
pub open spec fn pair_total(a: Seq<int>, b: Seq<int>, m: int) -> int
    decreases m,
{
    if m <= 0 {
        0
    } else {
        pair_total(a, b, m - 1) + a[m] + b[m]
    }
}

/// `sum_{j=k+1..m} (a[j] - b[j]) * 2^(m - j)`.
pub open spec fn diff_tail(a: Seq<int>, b: Seq<int>, k: int, m: int) -> int
    decreases m - k,
{
    if m <= k {
        0
    } else {
        2 * diff_tail(a, b, k, m - 1) + a[m] - b[m]
    }
}

proof fn lemma_two_to_pos(e: int)
    ensures
        two_to(e) >= 1,
    decreases e,
{
    if e > 0 {
        lemma_two_to_pos(e - 1);
    }
}

proof fn lemma_weight_split(a: Seq<int>, b: Seq<int>, k: int, m: int)
    requires
        0 <= k <= m,
    ensures
        weight_of(a, m) - weight_of(b, m) == (weight_of(a, k) - weight_of(b, k)) * two_to(m - k)
            + diff_tail(a, b, k, m),
    decreases m - k,
{
    if m > k {
        lemma_weight_split(a, b, k, m - 1);
        let d = weight_of(a, k) - weight_of(b, k);
        assert(two_to(m - k) == 2 * two_to(m - 1 - k));
        assert(d * two_to(m - k) == 2 * (d * two_to(m - 1 - k))) by (nonlinear_arith)
            requires
                two_to(m - k) == 2 * two_to(m - 1 - k),
        ;
    }
}

proof fn lemma_tail_bound(a: Seq<int>, b: Seq<int>, k: int, m: int)
    requires
        0 <= k <= m,
        forall|j: int| k < j <= m ==> a[j] >= 0 && b[j] >= 0,
    ensures
        -(pair_total(a, b, m) - pair_total(a, b, k)) * two_to(m - k) <= diff_tail(a, b, k, m)
            <= (pair_total(a, b, m) - pair_total(a, b, k)) * two_to(m - k),
        pair_total(a, b, m) >= pair_total(a, b, k),
    decreases m - k,
{
    if m > k {
        lemma_tail_bound(a, b, k, m - 1);
        let r = pair_total(a, b, m - 1) - pair_total(a, b, k);
        let p = two_to(m - 1 - k);
        lemma_two_to_pos(m - 1 - k);
        assert(two_to(m - k) == 2 * p);
        let s = a[m] + b[m];
        assert(r * (2 * p) == 2 * (r * p)) by (nonlinear_arith);
        assert((r + s) * (2 * p) == r * (2 * p) + s * (2 * p)) by (nonlinear_arith);
        assert(s * (2 * p) >= s) by (nonlinear_arith)
            requires
                s >= 0,
                p >= 1,
        ;
        assert(pair_total(a, b, m) - pair_total(a, b, k) == r + s);
        assert((r + s) * two_to(m - k) == (r + s) * (2 * p));
        assert(-r * p == -(r * p)) by (nonlinear_arith);
        let t = diff_tail(a, b, k, m - 1);
        assert(-(r * p) <= t <= r * p);
        assert(diff_tail(a, b, k, m) == 2 * t + a[m] - b[m]);
        assert(-(r + s) * two_to(m - k) == -(r * (2 * p)) - s * (2 * p)) by (nonlinear_arith)
            requires
                two_to(m - k) == 2 * p,
        ;
    }
}

/// The sign of `weight_of(a, l) - weight_of(b, l)`, for two histograms of
/// `l + 1` entries (entry 0 unused) whose totals fit in a `u64`.
pub fn compare_weights(a: &Vec<u64>, b: &Vec<u64>) -> (c: i8)
    requires
        a.len() == b.len(),
        a.len() >= 1,
        pair_total(a@.map_values(|x: u64| x as int), b@.map_values(|x: u64| x as int), a.len() - 1)
            <= 2 * (u64::MAX as int),
    ensures
        ({
            let wa = weight_of(a@.map_values(|x: u64| x as int), a.len() - 1);
            let wb = weight_of(b@.map_values(|x: u64| x as int), a.len() - 1);
            &&& (c > 0 <==> wa > wb)
            &&& (c < 0 <==> wa < wb)
            &&& (c == 0 <==> wa == wb)
        }),
{
    let ghost ai = a@.map_values(|x: u64| x as int);
    let ghost bi = b@.map_values(|x: u64| x as int);
    let last = a.len() - 1;
    let ghost total = pair_total(ai, bi, last as int);
    proof {
        lemma_tail_bound(ai, bi, 0, last as int);
    }
    let mut rem: i128 = 0;
    let mut k: usize = 0;
    while k < last
        invariant
            a.len() == b.len(),
            last == a.len() - 1,
            ai == a@.map_values(|x: u64| x as int),
            bi == b@.map_values(|x: u64| x as int),
            total == pair_total(ai, bi, last as int),
            total <= 2 * (u64::MAX as int),
            0 <= k <= last,
            rem == pair_total(ai, bi, k as int),
            0 <= rem <= total,
        decreases last - k,
    {
        k = k + 1;
        proof {
            lemma_tail_bound(ai, bi, k as int, last as int);
            lemma_tail_bound(ai, bi, k as int - 1, k as int);
        }
        rem = rem + a[k] as i128 + b[k] as i128;
    }
    assert(rem == total);
    let mut d: i128 = 0;
    let mut k: usize = 0;
    while k < last
        invariant
            a.len() == b.len(),
            last == a.len() - 1,
            ai == a@.map_values(|x: u64| x as int),
            bi == b@.map_values(|x: u64| x as int),
            total == pair_total(ai, bi, last as int),
            total <= 2 * (u64::MAX as int),
            0 <= k <= last,
            d == weight_of(ai, k as int) - weight_of(bi, k as int),
            rem == total - pair_total(ai, bi, k as int),
            0 <= rem <= total,
            -rem <= d <= rem,
        decreases last - k,
    {
        k = k + 1;
        proof {
            lemma_tail_bound(ai, bi, k as int - 1, k as int);
            lemma_tail_bound(ai, bi, k as int, last as int);
            lemma_tail_bound(ai, bi, 0, k as int);
        }
        d = 2 * d + a[k] as i128 - b[k] as i128;
        rem = rem - a[k] as i128 - b[k] as i128;
        if d > rem || d < -rem {
            proof {
                lemma_weight_split(ai, bi, k as int, last as int);
                lemma_tail_bound(ai, bi, k as int, last as int);
                lemma_two_to_pos(last - k);
                let p = two_to(last - k);
                let t = diff_tail(ai, bi, k as int, last as int);
                assert(d == weight_of(ai, k as int) - weight_of(bi, k as int));
                assert(weight_of(ai, last as int) - weight_of(bi, last as int) == d * p + t);
                assert(-rem * p <= t <= rem * p);
                assert(-rem * p == -(rem * p)) by (nonlinear_arith);
                if d > rem {
                    assert(d * p - rem * p >= p) by (nonlinear_arith)
                        requires
                            d >= rem + 1,
                            p >= 1,
                    ;
                    assert(weight_of(ai, last as int) - weight_of(bi, last as int) > 0);
                } else {
                    assert(-d * p - rem * p >= p) by (nonlinear_arith)
                        requires
                            -d >= rem + 1,
                            p >= 1,
                    ;
                    assert(-d * p == -(d * p)) by (nonlinear_arith);
                    assert(weight_of(ai, last as int) - weight_of(bi, last as int) < 0);
                }
            }
            return if d > rem {
                1
            } else {
                -1
            };
        }
    }
    if d > 0 {
        1
    } else if d < 0 {
        -1
    } else {
        0
    }
}

/// `sum_{k=1..m} h[k]`.
pub open spec fn total_of(h: Seq<int>, m: int) -> int
    decreases m,
{
    if m <= 0 {
        0
    } else {
        total_of(h, m - 1) + h[m]
    }
}

/// The number of clauses of `cm` with exactly `k` literals that contain `l`.
pub open spec fn len_count(cm: Map<i32, Set<i32>>, l: i32, k: int) -> int {
    cm.dom().filter(|id: i32| cm[id].contains(l) && cm[id].len() == k).len() as int
}

/// The Jeroslow-Wang weight of `l` scaled by `2^m`:
/// `sum_{k=1..m} len_count(cm, l, k) * 2^(m - k)`.
pub open spec fn jw_weight(cm: Map<i32, Set<i32>>, l: i32, m: int) -> int
    decreases m,
{
    if m <= 0 {
        0
    } else {
        2 * jw_weight(cm, l, m - 1) + len_count(cm, l, m)
    }
}

/// No clause of `cm` has more than `m` literals.
pub open spec fn lengths_at_most(cm: Map<i32, Set<i32>>, m: int) -> bool {
    forall|id: i32| #[trigger] cm.contains_key(id) ==> cm[id].len() <= m
}

/// `r` is the literal that the one-sided Jeroslow-Wang rule picks among the
/// literals listed in `lits`: no listed literal weighs more, and of those
/// that weigh as much, `r` is the smallest token.
pub open spec fn jw_best(cm: Map<i32, Set<i32>>, lits: Set<i32>, r: i32) -> bool {
    &&& lits.contains(r)
    &&& forall|l: i32, m: int|
        #![trigger jw_weight(cm, l, m), lits.contains(l)]
        lits.contains(l) && lengths_at_most(cm, m) ==> jw_weight(cm, l, m) < jw_weight(cm, r, m)
            || (jw_weight(cm, l, m) == jw_weight(cm, r, m) && r <= l)
}

proof fn lemma_pair_total(a: Seq<int>, b: Seq<int>, m: int)
    ensures
        pair_total(a, b, m) == total_of(a, m) + total_of(b, m),
    decreases m,
{
    if m > 0 {
        lemma_pair_total(a, b, m - 1);
    }
}

proof fn lemma_total_bumped(h: Seq<int>, i: int, m: int)
    requires
        0 <= i < h.len(),
        m < h.len(),
    ensures
        total_of(h.update(i, h[i] + 1), m) == total_of(h, m) + if 1 <= i <= m {
            1int
        } else {
            0int
        },
    decreases m,
{
    if m > 0 {
        lemma_total_bumped(h, i, m - 1);
    }
}

proof fn lemma_entry_below_total(h: Seq<int>, i: int, m: int)
    requires
        1 <= i <= m < h.len(),
        forall|k: int| 1 <= k <= m ==> h[k] >= 0,
    ensures
        h[i] <= total_of(h, m),
        total_of(h, m) >= 0,
    decreases m,
{
    if m > i {
        lemma_entry_below_total(h, i, m - 1);
        assert(h[m] >= 0);
        assert(total_of(h, m) == total_of(h, m - 1) + h[m]);
    } else {
        lemma_total_nonneg(h, m - 1);
        assert(total_of(h, m) == total_of(h, m - 1) + h[m]);
        assert(h[m] >= 0);
    }
}

proof fn lemma_total_nonneg(h: Seq<int>, m: int)
    requires
        m < h.len(),
        forall|k: int| 1 <= k <= m ==> h[k] >= 0,
    ensures
        total_of(h, m) >= 0,
    decreases m,
{
    if m > 0 {
        lemma_total_nonneg(h, m - 1);
        assert(h[m] >= 0);
    }
}

proof fn lemma_weight_matches(h: Seq<int>, cm: Map<i32, Set<i32>>, l: i32, m: int)
    requires
        forall|k: int| 1 <= k <= m ==> h[k] == len_count(cm, l, k),
    ensures
        weight_of(h, m) == jw_weight(cm, l, m),
    decreases m,
{
    if m > 0 {
        lemma_weight_matches(h, cm, l, m - 1);
    }
}

proof fn lemma_weight_scales(cm: Map<i32, Set<i32>>, l: i32, top: int, m: int)
    requires
        0 <= top <= m,
        lengths_at_most(cm, top),
    ensures
        jw_weight(cm, l, m) == jw_weight(cm, l, top) * two_to(m - top),
    decreases m,
{
    if m > top {
        lemma_weight_scales(cm, l, top, m - 1);
        assert(cm.dom().filter(|id: i32| cm[id].contains(l) && cm[id].len() == m) =~= Set::<
            i32,
        >::empty());
        assert(two_to(m - top) == 2 * two_to(m - 1 - top));
        let w = jw_weight(cm, l, top);
        assert(w * two_to(m - top) == 2 * (w * two_to(m - 1 - top))) by (nonlinear_arith)
            requires
                two_to(m - top) == 2 * two_to(m - 1 - top),
        ;
    }
}

proof fn lemma_scaled_order(x: int, y: int, p: int)
    requires
        p >= 1,
    ensures
        x < y ==> x * p < y * p,
        x == y ==> x * p == y * p,
        x > y ==> x * p > y * p,
{
    if x < y {
        assert(x * p < y * p) by (nonlinear_arith)
            requires
                x < y,
                p >= 1,
        ;
    }
    if x > y {
        assert(x * p > y * p) by (nonlinear_arith)
            requires
                x > y,
                p >= 1,
        ;
    }
}

/// A set of tokens below `n` has at most `n` elements.
proof fn lemma_token_range(n: int)
    requires
        0 <= n <= 0x8000_0000,
    ensures
        Set::new(|l: i32| 0 <= l < n).finite(),
        Set::new(|l: i32| 0 <= l < n).len() == n,
    decreases n,
{
    if n == 0 {
        assert(Set::new(|l: i32| 0 <= l < n) =~= Set::<i32>::empty());
    } else {
        lemma_token_range(n - 1);
        assert(Set::new(|l: i32| 0 <= l < n) =~= Set::new(|l: i32| 0 <= l < n - 1).insert(
            (n - 1) as i32,
        ));
    }
}

/// The length of the longest clause (0 for a database without clauses).
pub fn max_clause_len(db: &CNF) -> (r: usize)
    requires
        db.wf(),
    ensures
        lengths_at_most(db.clause_map(), r as int),
        r <= 2 * db.nvar,
        db.clause_map().dom().len() > 0 ==> exists|id: i32|
            #[trigger] db.clause_map().contains_key(id) && db.clause_map()[id].len() == r,
{
    let ids = keys_of(&db.clauses);
    let ghost cm = db.clause_map();
    proof {
        lemma_token_range(2 * db.nvar);
    }
    let mut r: usize = 0;
    let mut i: usize = 0;
    while i < ids.len()
        invariant
            db.wf(),
            cm == db.clause_map(),
            ids@.to_set() == db.clauses@.dom(),
            0 <= i <= ids.len(),
            r <= 2 * db.nvar,
            forall|j: int| 0 <= j < i ==> cm[ids@[j]].len() <= r,
            i == 0 ==> r == 0,
            i > 0 ==> exists|id: i32| #[trigger] cm.contains_key(id) && cm[id].len() == r,
        decreases ids.len() - i,
    {
        let id = ids[i];
        assert(ids@.to_set().contains(id));
        assert(cm.contains_key(id));
        match db.clauses.get(&id) {
            Some(c) => {
                let n = c.len();
                proof {
                    assert(c@ == cm[id]);
                    lemma_token_range(2 * db.nvar);
                    assert(cm[id].subset_of(Set::new(|l: i32| 0 <= l < 2 * db.nvar)));
                    vstd::set_lib::lemma_len_subset(
                        cm[id],
                        Set::new(|l: i32| 0 <= l < 2 * db.nvar),
                    );
                }
                if n > r {
                    r = n;
                }
                proof {
                    if r == n {
                        assert(cm.contains_key(id) && cm[id].len() == r);
                    }
                }
            },
            None => {
                assert(false);
            },
        }
        i = i + 1;
    }
    proof {
        assert forall|id: i32| #[trigger] cm.contains_key(id) implies cm[id].len() <= r by {
            assert(ids@.to_set().contains(id));
            let j = choose|j: int| 0 <= j < ids.len() && ids@[j] == id;
        }
        if cm.dom().len() > 0 {
            assert(cm.dom() =~= db.clauses@.dom());
            assert(ids@.to_set().len() > 0);
            if ids.len() == 0 {
                assert(ids@.to_set() =~= Set::<i32>::empty());
            }
        }
    }
    r
}

/// The number of clauses of each length `1..=top` that contain `l`, at the
/// index of the length.
fn length_histogram(db: &CNF, l: i32, top: usize) -> (h: Vec<u64>)
    requires
        db.wf(),
        db.occ_map().contains_key(l),
        lengths_at_most(db.clause_map(), top as int),
        top < usize::MAX,
    ensures
        h.len() == top + 1,
        forall|k: int| 1 <= k <= top ==> #[trigger] h@[k] == len_count(db.clause_map(), l, k),
        total_of(h@.map_values(|x: u64| x as int), top as int) <= u64::MAX,
{
    let ghost cm = db.clause_map();
    let mut h: Vec<u64> = Vec::new();
    let mut k: usize = 0;
    while k <= top
        invariant
            0 <= k <= top + 1,
            top < usize::MAX,
            h.len() == k,
            forall|j: int| 0 <= j < k ==> h@[j] == 0,
        decreases top + 1 - k,
    {
        h.push(0);
        k = k + 1;
    }
    let ids = match db.occurrences.get(&l) {
        Some(o) => elements(o),
        None => Vec::new(),
    };
    proof {
        assert(ids@.to_set() == occ_of(db.occ_map(), l));
        assert(total_of(h@.map_values(|x: u64| x as int), top as int) == 0) by {
            lemma_total_zero(h@.map_values(|x: u64| x as int), top as int);
        }
        assert forall|k: int| 0 <= k <= top implies with_len(ids@.take(0).to_set(), cm, k as int).len() == 0 by {
            assert(with_len(ids@.take(0).to_set(), cm, k as int) =~= Set::<
                i32,
            >::empty());
        }
    }
    let mut j: usize = 0;
    while j < ids.len()
        invariant
            db.wf(),
            cm == db.clause_map(),
            db.occ_map().contains_key(l),
            lengths_at_most(cm, top as int),
            ids@.to_set() == occ_of(db.occ_map(), l),
            ids@.no_duplicates(),
            0 <= j <= ids.len(),
            h.len() == top + 1,
            forall|k: int| #![trigger h@[k]]
                0 <= k <= top ==> h@[k] == with_len(ids@.take(j as int).to_set(), cm, k as int).len(),
            total_of(h@.map_values(|x: u64| x as int), top as int) == j,
        decreases ids.len() - j,
    {
        let id = ids[j];
        proof {
            assert(ids@.to_set().contains(id));
            assert(cm.contains_key(id) && cm[id].contains(l));
        }
        let n: usize = match db.clauses.get(&id) {
            Some(c) => c.len(),
            None => 0,
        };
        proof {
            assert(n == cm[id].len());
            assert(n >= 1) by {
                if n == 0 {
                    assert(cm[id].remove(l).len() + 1 == cm[id].len());
                }
            }
            let hi = h@.map_values(|x: u64| x as int);
            lemma_entry_below_total(hi, n as int, top as int);
            lemma_total_bumped(hi, n as int, top as int);
            assert(h@.update(n as int, (h@[n as int] + 1) as u64).map_values(|x: u64| x as int)
                =~= hi.update(n as int, hi[n as int] + 1));
            assert(ids@.take(j as int + 1) =~= ids@.take(j as int).push(id));
            assert(!ids@.take(j as int).contains(id)) by {
                if ids@.take(j as int).contains(id) {
                    let t = choose|t: int| 0 <= t < j && ids@.take(j as int)[t] == id;
                    assert(ids@[t] == ids@[j as int]);
                }
            }
            assert forall|k: int| 0 <= k <= top implies with_len(ids@.take(j as int + 1).to_set(), cm, k as int) == if k == n {
                with_len(ids@.take(j as int).to_set(), cm, k as int).insert(id)
            } else {
                with_len(ids@.take(j as int).to_set(), cm, k as int)
            } by {
                assert forall|x: i32| ids@.take(j as int + 1).contains(x) <==> ids@.take(
                    j as int,
                ).contains(x) || x == id by {
                    lemma_push_contains(ids@.take(j as int), id, x);
                }
                assert(ids@.take(j as int + 1).to_set() =~= ids@.take(j as int).to_set().insert(id));
                if k == n {
                    assert(with_len(ids@.take(j as int + 1).to_set(), cm, k as int)
                        =~= with_len(ids@.take(j as int).to_set(), cm, k as int).insert(
                        id,
                    ));
                } else {
                    assert(with_len(ids@.take(j as int + 1).to_set(), cm, k as int)
                        =~= with_len(ids@.take(j as int).to_set(), cm, k as int));
                }
            }
            assert(!with_len(ids@.take(j as int).to_set(), cm, n as int).contains(id));
        }
        let bumped = h[n] + 1;
        h.set(n, bumped);
        j = j + 1;
    }
    proof {
        assert(ids@.take(ids.len() as int) =~= ids@);
        assert forall|k: int| 1 <= k <= top implies #[trigger] h@[k] == len_count(cm, l, k) by {
            assert(with_len(ids@.to_set(), cm, k as int) =~= cm.dom().filter(
                |id: i32| cm[id].contains(l) && cm[id].len() == k,
            ));
        }
    }
    h
}

/// The ids in `s` whose clause has `k` literals.
spec fn with_len(s: Set<i32>, cm: Map<i32, Set<i32>>, k: int) -> Set<i32> {
    s.filter(|x: i32| cm[x].len() == k)
}

proof fn lemma_total_zero(h: Seq<int>, m: int)
    requires
        m < h.len(),
        forall|k: int| 0 <= k <= m ==> h[k] == 0,
    ensures
        total_of(h, m) == 0,
    decreases m,
{
    if m > 0 {
        lemma_total_zero(h, m - 1);
    }
}

/// The one-sided Jeroslow-Wang literal: of the literals that still occur,
/// the one of greatest weight `sum of 2^-|c|` over the clauses `c` that
/// contain it; of literals of equal weight, the smallest token. Some literal
/// must still occur.
pub fn jw(cnf: &CNF) -> (r: i32)
    requires
        cnf.wf(),
        cnf.occ_map().dom().len() > 0,
    ensures
        jw_best(cnf.clause_map(), cnf.occ_map().dom(), r),
{
    let ghost cm = cnf.clause_map();
    let ghost keys = cnf.occ_map().dom();
    let lits = keys_of(&cnf.occurrences);
    let top = max_clause_len(cnf);
    proof {
        assert(keys =~= cnf.occurrences@.dom());
        if lits.len() == 0 {
            assert(lits@.to_set() =~= Set::<i32>::empty());
        }
        assert(lits@.to_set().contains(lits@[0]));
    }
    let mut best = lits[0];
    let mut hb = length_histogram(cnf, best, top);
    let mut i: usize = 1;
    while i < lits.len()
        invariant
            cnf.wf(),
            cm == cnf.clause_map(),
            keys == cnf.occ_map().dom(),
            lits@.to_set() == keys,
            1 <= i <= lits.len(),
            lengths_at_most(cm, top as int),
            top <= 2 * cnf.nvar,
            keys.contains(best),
            hb.len() == top + 1,
            forall|k: int| 1 <= k <= top ==> #[trigger] hb@[k] == len_count(cm, best, k),
            total_of(hb@.map_values(|x: u64| x as int), top as int) <= u64::MAX,
            forall|j: int|
                0 <= j < i ==> jw_weight(cm, #[trigger] lits@[j], top as int) < jw_weight(
                    cm,
                    best,
                    top as int,
                ) || (jw_weight(cm, lits@[j], top as int) == jw_weight(cm, best, top as int)
                    && best <= lits@[j]),
        decreases lits.len() - i,
    {
        let l = lits[i];
        proof {
            assert(lits@.to_set().contains(l));
        }
        let h = length_histogram(cnf, l, top);
        proof {
            lemma_pair_total(
                h@.map_values(|x: u64| x as int),
                hb@.map_values(|x: u64| x as int),
                top as int,
            );
        }
        let c = compare_weights(&h, &hb);
        proof {
            lemma_weight_matches(h@.map_values(|x: u64| x as int), cm, l, top as int);
            lemma_weight_matches(hb@.map_values(|x: u64| x as int), cm, best, top as int);
        }
        if c > 0 || (c == 0 && l < best) {
            best = l;
            hb = h;
        }
        i = i + 1;
    }
    proof {
        assert forall|l: i32, m: int|
            #![trigger jw_weight(cm, l, m), keys.contains(l)]
            keys.contains(l) && lengths_at_most(cm, m) implies jw_weight(cm, l, m) < jw_weight(
                cm,
                best,
                m,
            ) || (jw_weight(cm, l, m) == jw_weight(cm, best, m) && best <= l) by {
            let j = choose|j: int| 0 <= j < lits.len() && lits@[j] == l;
            assert(lits@.to_set().contains(l));
            lemma_occurrences_exact(*cnf, l);
            let id = choose|id: i32| cm.contains_key(id) && #[trigger] cm[id].contains(l);
            lemma_clause_map_finite(*cnf);
            if cm.dom().len() == 0 {
                cm.dom().lemma_len0_is_empty();
                assert(cm.dom().contains(id));
            }
            let id2 = choose|id2: i32| #[trigger] cm.contains_key(id2) && cm[id2].len() == top;
            assert(top <= m);
            lemma_weight_scales(cm, l, top as int, m);
            lemma_weight_scales(cm, best, top as int, m);
            lemma_two_to_pos(m - top);
            lemma_scaled_order(
                jw_weight(cm, l, top as int),
                jw_weight(cm, best, top as int),
                two_to(m - top),
            );
        }
    }
    best
}

/// The first literal of some clause that still has one; which clause is
/// left to the iteration order of the clause map. Some clause must still
/// have a literal.
pub fn random(cnf: &CNF) -> (r: i32)
    requires
        cnf.wf(),
        exists|id: i32| #[trigger]
            cnf.clause_map().contains_key(id) && cnf.clause_map()[id] != Set::<i32>::empty(),
    ensures
        exists|id: i32| #[trigger]
            cnf.clause_map().contains_key(id) && cnf.clause_map()[id].contains(r),
{
    let ghost cm = cnf.clause_map();
    let ids = keys_of(&cnf.clauses);
    let mut i: usize = 0;
    while i < ids.len()
        invariant
            0 <= i <= ids.len(),
            cm == cnf.clause_map(),
            ids@.to_set() == cnf.clauses@.dom(),
            forall|j: int| 0 <= j < i ==> cm[ids@[j]] == Set::<i32>::empty(),
        decreases ids.len() - i,
    {
        let id = ids[i];
        assert(ids@.to_set().contains(id));
        match cnf.clauses.get(&id) {
            Some(c) => {
                if !c.is_empty() {
                    let lit = zeroth(c);
                    assert(cm.contains_key(id) && cm[id].contains(lit));
                    return lit;
                }
            },
            None => {
                assert(false);
            },
        }
        i = i + 1;
    }
    proof {
        let id = choose|id: i32| #[trigger]
            cm.contains_key(id) && cm[id] != Set::<i32>::empty();
        assert(ids@.to_set().contains(id));
        let j = choose|j: int| 0 <= j < ids.len() && ids@[j] == id;
    }
    0
}

/// The weight, as a power of two, of the sum of a variable's two counts
/// against their product in the MOM score.
pub const MOM_K: u32 = 10;

/// `k` is the length of the shortest clause that still has a literal.
pub open spec fn is_min_len(cm: Map<i32, Set<i32>>, k: int) -> bool {
    &&& k > 0
    &&& exists|id: i32| #[trigger] cm.contains_key(id) && cm[id].len() == k
    &&& forall|id: i32| #[trigger] cm.contains_key(id) && cm[id].len() > 0 ==> cm[id].len() >= k
}

/// The MOM score of `l` where the shortest clauses have `k` literals: with
/// `f` and `g` the numbers of those clauses that contain `l` and its
/// negation, `(f + g) * 2^MOM_K + f * g`.
pub open spec fn mom_score(cm: Map<i32, Set<i32>>, l: i32, k: int) -> int {
    let f = len_count(cm, l, k);
    let g = len_count(cm, crate::literal::negation(l as int) as i32, k);
    (f + g) * two_to(MOM_K as int) + f * g
}

/// `r` is the literal that MOM picks among the literals in `lits`: no listed
/// literal scores more, and of those that score as much, `r` is the
/// smallest token.
pub open spec fn mom_best(cm: Map<i32, Set<i32>>, lits: Set<i32>, r: i32) -> bool {
    &&& lits.contains(r)
    &&& forall|l: i32, k: int|
        #![trigger mom_score(cm, l, k), lits.contains(l)]
        lits.contains(l) && is_min_len(cm, k) ==> mom_score(cm, l, k) < mom_score(cm, r, k) || (
        mom_score(cm, l, k) == mom_score(cm, r, k) && r <= l)
}

/// The length of the shortest clause that still has a literal.
pub fn min_clause_len(db: &CNF) -> (r: usize)
    requires
        db.wf(),
        exists|id: i32| #[trigger]
            db.clause_map().contains_key(id) && db.clause_map()[id] != Set::<i32>::empty(),
    ensures
        is_min_len(db.clause_map(), r as int),
{
    let ids = keys_of(&db.clauses);
    let ghost cm = db.clause_map();
    let mut found = false;
    let mut r: usize = 0;
    let mut i: usize = 0;
    while i < ids.len()
        invariant
            db.wf(),
            cm == db.clause_map(),
            ids@.to_set() == db.clauses@.dom(),
            0 <= i <= ids.len(),
            found ==> r > 0 && exists|id: i32| #[trigger] cm.contains_key(id) && cm[id].len() == r,
            forall|j: int| 0 <= j < i && cm[ids@[j]].len() > 0 ==> found && cm[ids@[j]].len() >= r,
        decreases ids.len() - i,
    {
        let id = ids[i];
        assert(ids@.to_set().contains(id));
        match db.clauses.get(&id) {
            Some(c) => {
                let n = c.len();
                assert(n == cm[id].len());
                if n > 0 && (!found || n < r) {
                    found = true;
                    r = n;
                    assert(cm.contains_key(id) && cm[id].len() == r);
                }
            },
            None => {
                assert(false);
            },
        }
        i = i + 1;
    }
    proof {
        let id = choose|id: i32| #[trigger] cm.contains_key(id) && cm[id] != Set::<i32>::empty();
        assert(ids@.to_set().contains(id));
        let j = choose|j: int| 0 <= j < ids.len() && ids@[j] == id;
        assert(cm[id].len() > 0) by {
            if cm[id].len() == 0 {
                cm[id].lemma_len0_is_empty();
            }
        }
        assert forall|x: i32| #[trigger] cm.contains_key(x) && cm[x].len() > 0 implies cm[x].len()
            >= r by {
            assert(ids@.to_set().contains(x));
            let t = choose|t: int| 0 <= t < ids.len() && ids@[t] == x;
        }
    }
    r
}

/// No more clauses of one length contain a literal than there are ids
/// below `next_id`.
proof fn lemma_len_count_bound(db: CNF, l: i32, k: int)
    requires
        db.wf(),
    ensures
        0 <= len_count(db.clause_map(), l, k) <= i32::MAX,
{
    let cm = db.clause_map();
    let range = Set::new(|x: i32| 0 <= x < db.next_id);
    lemma_token_range(db.next_id as int);
    let s = cm.dom().filter(|id: i32| cm[id].contains(l) && cm[id].len() == k);
    assert(s.subset_of(range));
    vstd::set_lib::lemma_len_subset(s, range);
}

/// The number of clauses with `k` literals that contain `l`.
fn count_with_len(db: &CNF, l: i32, k: usize, top: usize) -> (r: u64)
    requires
        db.wf(),
        lengths_at_most(db.clause_map(), top as int),
        1 <= k <= top < usize::MAX,
    ensures
        r == len_count(db.clause_map(), l, k as int),
        r <= i32::MAX,
{
    proof {
        lemma_len_count_bound(*db, l, k as int);
    }
    if db.occurrences.contains_key(&l) {
        let h = length_histogram(db, l, top);
        h[k]
    } else {
        proof {
            let cm = db.clause_map();
            assert(cm.dom().filter(|id: i32| cm[id].contains(l) && cm[id].len() == k) =~= Set::<
                i32,
            >::empty()) by {
                assert forall|id: i32| cm.contains_key(id) implies !cm[id].contains(l) by {
                    assert(!occ_of(db.occ_map(), l).contains(id));
                }
            }
        }
        0
    }
}

/// The MOM literal (maximum occurrences in clauses of minimum size): of the
/// literals that still occur, the one with the greatest `mom_score`; of
/// literals that score the same, the smallest token. Some literal must
/// still occur.
pub fn mom(cnf: &CNF) -> (r: i32)
    requires
        cnf.wf(),
        cnf.occ_map().dom().len() > 0,
    ensures
        mom_best(cnf.clause_map(), cnf.occ_map().dom(), r),
{
    let ghost cm = cnf.clause_map();
    let ghost keys = cnf.occ_map().dom();
    let lits = keys_of(&cnf.occurrences);
    proof {
        assert(keys =~= cnf.occurrences@.dom());
        if lits.len() == 0 {
            assert(lits@.to_set() =~= Set::<i32>::empty());
        }
        assert(lits@.to_set().contains(lits@[0]));
        let l = lits@[0];
        crate::cnf::lemma_occurrences_exact(*cnf, l);
        let id = choose|id: i32| cm.contains_key(id) && #[trigger] cm[id].contains(l);
        assert(cm[id] != Set::<i32>::empty()) by {
            assert(cm[id].contains(l));
        }
    }
    let top = max_clause_len(cnf);
    let k = min_clause_len(cnf);
    proof {
        let id = choose|id: i32| #[trigger] cm.contains_key(id) && cm[id].len() == k;
    }
    let weight: u64 = 1024;
    proof {
        reveal_with_fuel(two_to, 11);
        assert(two_to(MOM_K as int) == 1024);
    }
    let mut best: i32 = 0;
    let mut best_score: u64 = 0;
    let mut i: usize = 0;
    while i < lits.len()
        invariant
            cnf.wf(),
            cm == cnf.clause_map(),
            keys == cnf.occ_map().dom(),
            lits@.to_set() == keys,
            lits.len() > 0,
            0 <= i <= lits.len(),
            lengths_at_most(cm, top as int),
            is_min_len(cm, k as int),
            1 <= k <= top <= 2 * cnf.nvar,
            weight == two_to(MOM_K as int),
            weight == 1024,
            i > 0 ==> keys.contains(best) && best_score == mom_score(cm, best, k as int),
            forall|j: int|
                0 <= j < i ==> mom_score(cm, #[trigger] lits@[j], k as int) < best_score || (
                mom_score(cm, lits@[j], k as int) == best_score && best <= lits@[j]),
        decreases lits.len() - i,
    {
        let l = lits[i];
        proof {
            assert(lits@.to_set().contains(l));
            crate::cnf::lemma_occurrences_exact(*cnf, l);
            let id = choose|id: i32| cm.contains_key(id) && #[trigger] cm[id].contains(l);
            assert(crate::literal::lit_in_range(l as int, cnf.nvar as int));
        }
        let f = count_with_len(cnf, l, k, top);
        let g = count_with_len(cnf, crate::literal::negate(l), k, top);
        assert(f * g <= 0x4000_0000_0000_0000) by (nonlinear_arith)
            requires
                f <= i32::MAX,
                g <= i32::MAX,
        ;
        let score = (f + g) * weight + f * g;
        if i == 0 || score > best_score || (score == best_score && l < best) {
            best = l;
            best_score = score;
        }
        i = i + 1;
    }
    best
}

} // verus!
