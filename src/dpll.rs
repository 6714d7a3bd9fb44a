//! The DPLL search: unit propagation to a fixpoint, pure-literal
//! elimination, then a split on the Jeroslow-Wang literal, trying it true in
//! one copy of the database and false in another.
use std::collections::HashSet;
use vstd::prelude::*;
use crate::cnf::Assignment;
use crate::cnf::CNF;
use crate::cnf::PartialAssignment;
use crate::cnf::occ_of;
use crate::cnf::propagated;
use crate::cnf::zeroth;
use crate::heuristics::jw;
use crate::literal::lit_in_range;
use crate::literal::negate;
use crate::literal::negation;
use crate::literal::positive;
use crate::literal::var_of;
use crate::sets::elements;
use crate::sets::keys_of;

verus! {

broadcast use vstd::std_specs::hash::group_hash_axioms;

/// The literal `l` is true under the total assignment `a` (0-based variables).
pub open spec fn lit_true(a: Seq<bool>, l: i32) -> bool {
    a[var_of(l as int)] == positive(l as int)
}

/// Every clause of `cm` has a literal that is true under `a`.
pub open spec fn satisfies(a: Seq<bool>, cm: Map<i32, Set<i32>>) -> bool {
    forall|id: i32| #[trigger]
        cm.contains_key(id) ==> exists|l: i32| #[trigger] cm[id].contains(l) && lit_true(a, l)
}

/// Some assignment of `n` variables satisfies every clause of `cm`.
pub open spec fn satisfiable(cm: Map<i32, Set<i32>>, n: int) -> bool {
    exists|a: Seq<bool>| a.len() == n && #[trigger] satisfies(a, cm)
}

/// The total assignment `a` gives every variable that `p` assigns the same value.
pub open spec fn agrees(a: Seq<bool>, p: Seq<Option<bool>>) -> bool {
    forall|v: int| 0 <= v < p.len() && #[trigger] p[v] is Some ==> a[v] == p[v]->Some_0
}

/// `q` keeps every value that `p` gives.
pub open spec fn extends(q: Seq<Option<bool>>, p: Seq<Option<bool>>) -> bool {
    &&& q.len() == p.len()
    &&& forall|v: int| 0 <= v < p.len() && #[trigger] p[v] is Some ==> q[v] == p[v]
}

/// A partial assignment completed with `true` for each unassigned variable.
pub open spec fn completion(p: Seq<Option<bool>>) -> Seq<bool> {
    p.map_values(
        |o: Option<bool>|
            match o {
                Some(b) => b,
                None => true,
            },
    )
}

/// No clause of `cm` mentions a variable that `p` assigns.
pub open spec fn vars_free(cm: Map<i32, Set<i32>>, p: Seq<Option<bool>>) -> bool {
    forall|id: i32, l: i32|
        cm.contains_key(id) && #[trigger] cm[id].contains(l) ==> 0 <= var_of(l as int) < p.len()
            && p[var_of(l as int)] is None
}

/// Every literal of `cm` is a token of one of the variables `0..n`.
pub open spec fn lits_below(cm: Map<i32, Set<i32>>, n: int) -> bool {
    forall|id: i32, l: i32|
        cm.contains_key(id) && #[trigger] cm[id].contains(l) ==> 0 <= l < 2 * n
}

proof fn lemma_same_var(x: i32, y: i32)
    requires
        x >= 0,
        y >= 0,
        var_of(x as int) == var_of(y as int),
    ensures
        x == y || x as int == negation(y as int),
{
}

/// Where `l` is true, the clauses that propagating `l` leaves are satisfied
/// whenever the clauses before were.
pub proof fn lemma_propagate_keeps(a: Seq<bool>, cm: Map<i32, Set<i32>>, l: i32)
    requires
        l >= 0,
        lit_true(a, l),
        satisfies(a, cm),
    ensures
        satisfies(a, propagated(cm, l)),
{
    let neg = negation(l as int) as i32;
    let pm = propagated(cm, l);
    assert forall|id: i32| #[trigger] pm.contains_key(id) implies exists|x: i32|
        #[trigger] pm[id].contains(x) && lit_true(a, x) by {
        let x = choose|x: i32| #[trigger] cm[id].contains(x) && lit_true(a, x);
        assert(x != neg);
        assert(pm[id].contains(x));
    }
}

/// Where `l` is true, the clauses before propagating `l` are satisfied
/// whenever the clauses after are.
pub proof fn lemma_propagate_restores(a: Seq<bool>, cm: Map<i32, Set<i32>>, l: i32)
    requires
        l >= 0,
        lit_true(a, l),
        satisfies(a, propagated(cm, l)),
    ensures
        satisfies(a, cm),
{
    let pm = propagated(cm, l);
    assert forall|id: i32| #[trigger] cm.contains_key(id) implies exists|x: i32|
        #[trigger] cm[id].contains(x) && lit_true(a, x) by {
        if !cm[id].contains(l) {
            assert(pm.contains_key(id));
            let x = choose|x: i32| #[trigger] pm[id].contains(x) && lit_true(a, x);
            assert(cm[id].contains(x));
        }
    }
}

/// The literal of a unit clause is true under every satisfying assignment.
pub proof fn lemma_unit_forced(a: Seq<bool>, cm: Map<i32, Set<i32>>, id: i32, l: i32)
    requires
        satisfies(a, cm),
        cm.contains_key(id),
        cm[id] == set![l],
    ensures
        lit_true(a, l),
{
    let x = choose|x: i32| #[trigger] cm[id].contains(x) && lit_true(a, x);
}

/// Setting a pure literal true keeps every clause satisfied.
pub proof fn lemma_pure_keeps(a: Seq<bool>, cm: Map<i32, Set<i32>>, l: i32)
    requires
        l >= 0,
        0 <= var_of(l as int) < a.len(),
        satisfies(a, cm),
        lits_below(cm, a.len() as int),
        forall|id: i32| #[trigger] cm.contains_key(id) ==> !cm[id].contains(negation(l as int) as i32),
    ensures
        satisfies(a.update(var_of(l as int), positive(l as int)), cm),
        lit_true(a.update(var_of(l as int), positive(l as int)), l),
{
    let b = a.update(var_of(l as int), positive(l as int));
    assert forall|id: i32| #[trigger] cm.contains_key(id) implies exists|x: i32|
        #[trigger] cm[id].contains(x) && lit_true(b, x) by {
        if cm[id].contains(l) {
            assert(lit_true(b, l));
        } else {
            let x = choose|x: i32| #[trigger] cm[id].contains(x) && lit_true(a, x);
            if var_of(x as int) == var_of(l as int) {
                lemma_same_var(x, l);
            }
            assert(lit_true(b, x));
        }
    }
}

/// A satisfying assignment makes `l` or its negation true, and satisfies
/// the clauses that propagating that literal leaves.
pub proof fn lemma_split(a: Seq<bool>, cm: Map<i32, Set<i32>>, l: i32)
    requires
        l >= 0,
        0 <= var_of(l as int) < a.len(),
        satisfies(a, cm),
    ensures
        satisfies(a, propagated(cm, l)) || satisfies(
            a,
            propagated(cm, negation(l as int) as i32),
        ),
{
    let neg = negation(l as int) as i32;
    if lit_true(a, l) {
        lemma_propagate_keeps(a, cm, l);
    } else {
        assert(lit_true(a, neg));
        lemma_propagate_keeps(a, cm, neg);
    }
}

/// Propagating `l` and assigning its variable keeps the clauses free of
/// assigned variables.
pub proof fn lemma_free_after(cm: Map<i32, Set<i32>>, p: Seq<Option<bool>>, l: i32)
    requires
        l >= 0,
        0 <= var_of(l as int) < p.len(),
        vars_free(cm, p),
        forall|id: i32, x: i32| cm.contains_key(id) && #[trigger] cm[id].contains(x) ==> x >= 0,
    ensures
        vars_free(
            propagated(cm, l),
            p.update(var_of(l as int), Some(positive(l as int))),
        ),
{
    let pm = propagated(cm, l);
    let q = p.update(var_of(l as int), Some(positive(l as int)));
    assert forall|id: i32, x: i32| pm.contains_key(id) && #[trigger] pm[id].contains(x) implies 0
        <= var_of(x as int) < q.len() && q[var_of(x as int)] is None by {
        assert(cm[id].contains(x));
        if var_of(x as int) == var_of(l as int) {
            lemma_same_var(x, l);
        }
    }
}

/// An assignment that keeps the values of `p` agrees, once completed, with `p`.
proof fn lemma_completion_agrees(q: Seq<Option<bool>>, p: Seq<Option<bool>>)
    requires
        extends(q, p),
    ensures
        agrees(completion(q), p),
        completion(q).len() == q.len(),
        agrees(completion(q), q),
{
}

/// What holds at each step of one level of the search, which started from
/// the clauses `cm_start` and the assignment `p_start` (with `u_start` unassigned): the
/// database and the assignment are well formed over `n` variables, no clause
/// mentions an assigned variable, the assignment keeps `p_start`, the clauses are
/// satisfiable if those of `cm_start` were, and an assignment that agrees with `p`
/// and satisfies them satisfies `cm_start`.
spec fn level_inv(
    cm_start: Map<i32, Set<i32>>,
    p_start: Seq<Option<bool>>,
    u_start: Set<i32>,
    db: CNF,
    p: PartialAssignment,
    n: int,
) -> bool {
    &&& db.wf()
    &&& p.wf()
    &&& db.nvar == n
    &&& p.assignment.len() == n
    &&& vars_free(db.clause_map(), p.assignment@)
    &&& extends(p.assignment@, p_start)
    &&& p.unassigned@.len() <= u_start.len()
    &&& (satisfiable(cm_start, n) ==> satisfiable(db.clause_map(), n))
    &&& forall|a: Seq<bool>|
        a.len() == n && agrees(a, p.assignment@) && #[trigger] satisfies(a, db.clause_map())
            ==> satisfies(a, cm_start)
}

/// One step of the search: `lit`, whose variable no clause shares with an
/// assigned one, is made true and propagated. `forced` says that every
/// satisfying assignment makes `lit` true, or that no clause holds its
/// negation; either way satisfiability is kept.
proof fn lemma_step(
    cm_start: Map<i32, Set<i32>>,
    p_start: Seq<Option<bool>>,
    u_start: Set<i32>,
    before: CNF,
    pb: PartialAssignment,
    after: CNF,
    pa: PartialAssignment,
    lit: i32,
    n: int,
)
    requires
        level_inv(cm_start, p_start, u_start, before, pb, n),
        lit_in_range(lit as int, n),
        after.wf(),
        after.nvar == n,
        after.clause_map() == propagated(before.clause_map(), lit),
        pa.wf(),
        pa.assignment@ == pb.assignment@.update(var_of(lit as int), Some(positive(lit as int))),
        pb.assignment@[var_of(lit as int)] is None,
        pa.unassigned@.len() + 1 == pb.unassigned@.len(),
        (forall|a: Seq<bool>| a.len() == n && #[trigger] satisfies(a, before.clause_map()) ==> lit_true(a, lit))
            || (forall|id: i32| #[trigger] before.clause_map().contains_key(id) ==> !before.clause_map()[id].contains(
            negation(lit as int) as i32,
        )),
    ensures
        level_inv(cm_start, p_start, u_start, after, pa, n),
{
    let cb = before.clause_map();
    let ca = after.clause_map();
    lemma_free_after(cb, pb.assignment@, lit);
    assert(lits_below(cb, n)) by {
        assert forall|id: i32, l: i32| cb.contains_key(id) && #[trigger] cb[id].contains(l) implies 0 <= l < 2 * n by {}
    }
    if satisfiable(cm_start, n) {
        let a = choose|a: Seq<bool>| a.len() == n && #[trigger] satisfies(a, cb);
        if forall|a: Seq<bool>| a.len() == n && #[trigger] satisfies(a, cb) ==> lit_true(a, lit) {
            lemma_propagate_keeps(a, cb, lit);
            assert(satisfies(a, ca));
        } else {
            lemma_pure_keeps(a, cb, lit);
            let b = a.update(var_of(lit as int), positive(lit as int));
            lemma_propagate_keeps(b, cb, lit);
            assert(satisfies(b, ca));
        }
    }
    assert forall|a: Seq<bool>|
        a.len() == n && agrees(a, pa.assignment@) && #[trigger] satisfies(a, ca) implies satisfies(
        a,
        cm_start,
    ) by {
        assert(lit_true(a, lit)) by {
            assert(pa.assignment@[var_of(lit as int)] is Some);
        }
        lemma_propagate_restores(a, cb, lit);
        assert(agrees(a, pb.assignment@)) by {
            assert forall|v: int| 0 <= v < pb.assignment@.len() && #[trigger] pb.assignment@[v] is Some implies a[v]
                == pb.assignment@[v]->Some_0 by {
                assert(pa.assignment@[v] == pb.assignment@[v]);
            }
        }
    }
    assert(extends(pa.assignment@, p_start)) by {
        assert forall|v: int| 0 <= v < p_start.len() && #[trigger] p_start[v] is Some implies pa.assignment@[v] == p_start[v] by {
            assert(pb.assignment@[v] == p_start[v]);
        }
    }
}

/// Whether some clause has no literal left.
fn has_empty_clause(db: &CNF) -> (b: bool)
    requires
        db.wf(),
    ensures
        b <==> exists|id: i32| #[trigger]
            db.clause_map().contains_key(id) && db.clause_map()[id] == Set::<i32>::empty(),
{
    let ids = keys_of(&db.clauses);
    let ghost cm = db.clause_map();
    let mut i: usize = 0;
    while i < ids.len()
        invariant
            0 <= i <= ids.len(),
            cm == db.clause_map(),
            ids@.to_set() == db.clauses@.dom(),
            forall|j: int| 0 <= j < i ==> cm[ids@[j]] != Set::<i32>::empty(),
        decreases ids.len() - i,
    {
        let id = ids[i];
        assert(ids@.to_set().contains(id));
        match db.clauses.get(&id) {
            Some(c) => {
                if c.is_empty() {
                    assert(cm.contains_key(id) && cm[id] == Set::<i32>::empty());
                    return true;
                }
            },
            None => {
                assert(false);
            },
        }
        i = i + 1;
    }
    proof {
        assert forall|id: i32| #[trigger] cm.contains_key(id) implies cm[id] != Set::<i32>::empty() by {
            assert(ids@.to_set().contains(id));
            let j = choose|j: int| 0 <= j < ids.len() && ids@[j] == id;
        }
    }
    false
}

/// One level of the search on the clauses of `cnf`, extending `p`. Returns
/// an assignment whose completion satisfies `cnf`, or `None` when `cnf` is
/// unsatisfiable, and then leaves `p` as it found it.
fn dpll_level(cnf: &CNF, p: &mut PartialAssignment) -> (r: Option<PartialAssignment>)
    requires
        cnf.wf(),
        old(p).wf(),
        old(p).assignment.len() == cnf.nvar,
        vars_free(cnf.clause_map(), old(p).assignment@),
    ensures
        r matches Some(q) ==> {
            &&& q.wf()
            &&& extends(q.assignment@, old(p).assignment@)
            &&& satisfies(completion(q.assignment@), cnf.clause_map())
        },
        r is None ==> {
            &&& final(p).assignment@ == old(p).assignment@
            &&& final(p).unassigned@ == old(p).unassigned@
            &&& !satisfiable(cnf.clause_map(), cnf.nvar as int)
        },
    decreases old(p).unassigned@.len(),
{
    let ghost n = cnf.nvar as int;
    let ghost cm_start = cnf.clause_map();
    let ghost p_start = p.assignment@;
    let ghost u_start = p.unassigned@;
    if cnf.clauses.is_empty() {
        let q = p.clone();
        proof {
            assert(cm_start =~= Map::<i32, Set<i32>>::empty());
        }
        return Some(q);
    }
    if has_empty_clause(cnf) {
        proof {
            let id = choose|id: i32| #[trigger]
                cm_start.contains_key(id) && cm_start[id] == Set::<i32>::empty();
            assert forall|a: Seq<bool>| a.len() == n implies !satisfies(a, cm_start) by {
                if satisfies(a, cm_start) {
                    let l = choose|l: i32| #[trigger] cm_start[id].contains(l) && lit_true(a, l);
                }
            }
        }
        return None;
    }
    let saved = p.clone();
    let mut db = cnf.clone();
    proof {
        assert(db.clause_map() == cm_start);
        assert(level_inv(cm_start, p_start, u_start, db, *p, n));
    }
    // Unit propagation, round after round, until no unit clause is left.
    let mut units = elements(&db.units);
    while units.len() > 0
        invariant
            level_inv(cm_start, p_start, u_start, db, *p, n),
            units@.to_set() == db.units@,
            units@.no_duplicates(),
        decreases p.unassigned@.len(),
    {
        let ghost round_start = p.unassigned@.len();
        let mut i: usize = 0;
        while i < units.len()
            invariant
                level_inv(cm_start, p_start, u_start, db, *p, n),
                0 <= i <= units.len(),
                units.len() > 0,
                i == 0 ==> units@.to_set() == db.units@,
                i == 0 ==> p.unassigned@.len() == round_start,
                i > 0 ==> p.unassigned@.len() < round_start,
                p.unassigned@.len() <= round_start,
            decreases units.len() - i,
        {
            let id = units[i];
            proof {
                if i == 0 {
                    assert(units@.to_set().contains(id));
                }
            }
            if db.units.contains(&id) {
                let ghost before = db;
                let ghost pb = *p;
                let lit = match db.clauses.get(&id) {
                    Some(c) => zeroth(c),
                    None => {
                        assert(false);
                        0
                    },
                };
                proof {
                    let cb = before.clause_map();
                    assert(cb.contains_key(id) && cb[id].len() == 1);
                    assert(cb[id].contains(lit));
                    assert(lit_in_range(lit as int, n));
                    assert(pb.assignment@[var_of(lit as int)] is None);
                }
                p.assign_literal(lit);
                db.unit_propagate(id);
                proof {
                    let cb = before.clause_map();
                    assert(cb[id] == set![cb[id].choose()]);
                    assert(set![cb[id].choose()].contains(lit));
                    assert(lit == cb[id].choose());
                    assert forall|a: Seq<bool>| a.len() == n && #[trigger] satisfies(a, cb) implies lit_true(a, lit) by {
                        lemma_unit_forced(a, cb, id, lit);
                    }
                    lemma_step(cm_start, p_start, u_start, before, pb, db, *p, lit, n);
                }
            }
            i = i + 1;
        }
        units = elements(&db.units);
    }
    // Pure literals: a literal whose negation occurs nowhere is made true.
    let lits = keys_of(&db.occurrences);
    let mut i: usize = 0;
    while i < lits.len()
        invariant
            level_inv(cm_start, p_start, u_start, db, *p, n),
            0 <= i <= lits.len(),
        decreases lits.len() - i,
    {
        let lit = lits[i];
        if db.occurrences.contains_key(&lit) {
            let ghost before = db;
            let ghost pb = *p;
            proof {
                crate::cnf::lemma_occurrences_exact(before, lit);
                let id = choose|id: i32|
                    before.clause_map().contains_key(id) && #[trigger] before.clause_map()[id].contains(lit);
                assert(lit_in_range(lit as int, n));
            }
            let neg = negate(lit);
            if !db.occurrences.contains_key(&neg) {
                p.assign_literal(lit);
                db.propagate(lit);
                proof {
                    let cb = before.clause_map();
                    assert forall|id: i32| #[trigger] cb.contains_key(id) implies !cb[id].contains(neg) by {
                        assert(!occ_of(before.occ_map(), neg).contains(id));
                    }
                    lemma_step(cm_start, p_start, u_start, before, pb, db, *p, lit, n);
                }
            }
        }
        i = i + 1;
    }
    if db.occurrences.is_empty() {
        if db.clauses.is_empty() {
            let q = p.clone();
            proof {
                let a = completion(q.assignment@);
                assert(db.clause_map() =~= Map::<i32, Set<i32>>::empty());
                lemma_completion_agrees(q.assignment@, p_start);
                assert(satisfies(a, db.clause_map()));
            }
            return Some(q);
        }
        proof {
            let cm = db.clause_map();
            assert(!satisfiable(cm, n)) by {
                if satisfiable(cm, n) {
                    let a = choose|a: Seq<bool>| a.len() == n && #[trigger] satisfies(a, cm);
                    assert(db.clauses@.dom().finite());
                    assert(cm.dom() =~= db.clauses@.dom());
                    if cm.dom().len() == 0 {
                        cm.dom().lemma_len0_is_empty();
                        assert(db.clauses@ =~= Map::<i32, HashSet<i32>>::empty());
                    }
                    let id = choose|id: i32| cm.dom().contains(id);
                    let l = choose|l: i32| #[trigger] cm[id].contains(l) && lit_true(a, l);
                    assert(occ_of(db.occ_map(), l).contains(id));
                }
            }
        }
        *p = saved;
        return None;
    }
    proof {
        assert(db.occ_map().dom() =~= db.occurrences@.dom());
    }
    let lit = jw(&db);
    let ghost now = db;
    let ghost pn = *p;
    proof {
        crate::cnf::lemma_occurrences_exact(now, lit);
        let id = choose|id: i32|
            now.clause_map().contains_key(id) && #[trigger] now.clause_map()[id].contains(lit);
        assert(lit_in_range(lit as int, n));
    }
    let mut r_db = db.clone();
    db.propagate(lit);
    p.assign_literal(lit);
    proof {
        lemma_free_after(now.clause_map(), pn.assignment@, lit);
    }
    let ghost pl = *p;
    let left = dpll_level(&db, p);
    match left {
        Some(q) => {
            proof {
                let a = completion(q.assignment@);
                lemma_completion_agrees(q.assignment@, pl.assignment@);
                assert(lit_true(a, lit)) by {
                    assert(pl.assignment@[var_of(lit as int)] is Some);
                }
                lemma_propagate_restores(a, now.clause_map(), lit);
                assert(agrees(a, pn.assignment@)) by {
                    assert forall|v: int| 0 <= v < pn.assignment@.len() && #[trigger] pn.assignment@[v] is Some implies a[v]
                        == pn.assignment@[v]->Some_0 by {
                        assert(pl.assignment@[v] == pn.assignment@[v]);
                    }
                }
                assert(extends(q.assignment@, p_start)) by {
                    assert forall|v: int| 0 <= v < p_start.len() && #[trigger] p_start[v] is Some implies q.assignment@[v] == p_start[v] by {
                        assert(pn.assignment@[v] == p_start[v]);
                        assert(pl.assignment@[v] == pn.assignment@[v]);
                    }
                }
            }
            return Some(q);
        },
        None => {},
    }
    let neg = negate(lit);
    p.unassign_literal(lit);
    p.assign_literal(neg);
    proof {
        assert(p.assignment@ =~= pn.assignment@.update(var_of(neg as int), Some(positive(neg as int))));
    }
    r_db.propagate(neg);
    proof {
        assert(r_db.clause_map() == propagated(now.clause_map(), neg));
        lemma_free_after(now.clause_map(), pn.assignment@, neg);
    }
    let ghost pr = *p;
    let right = dpll_level(&r_db, p);
    match right {
        Some(q) => {
            proof {
                let a = completion(q.assignment@);
                lemma_completion_agrees(q.assignment@, pr.assignment@);
                assert(lit_true(a, neg)) by {
                    assert(pr.assignment@[var_of(neg as int)] is Some);
                }
                lemma_propagate_restores(a, now.clause_map(), neg);
                assert(agrees(a, pn.assignment@)) by {
                    assert forall|v: int| 0 <= v < pn.assignment@.len() && #[trigger] pn.assignment@[v] is Some implies a[v]
                        == pn.assignment@[v]->Some_0 by {
                        assert(pr.assignment@[v] == pn.assignment@[v]);
                    }
                }
                assert(extends(q.assignment@, p_start)) by {
                    assert forall|v: int| 0 <= v < p_start.len() && #[trigger] p_start[v] is Some implies q.assignment@[v] == p_start[v] by {
                        assert(pn.assignment@[v] == p_start[v]);
                        assert(pr.assignment@[v] == pn.assignment@[v]);
                    }
                }
            }
            return Some(q);
        },
        None => {},
    }
    proof {
        let cm = now.clause_map();
        assert(!satisfiable(cm, n)) by {
            if satisfiable(cm, n) {
                let a = choose|a: Seq<bool>| a.len() == n && #[trigger] satisfies(a, cm);
                lemma_split(a, cm, lit);
                if satisfies(a, propagated(cm, lit)) {
                    assert(satisfiable(db.clause_map(), n));
                } else {
                    assert(satisfiable(r_db.clause_map(), n));
                }
            }
        }
    }
    *p = saved;
    None
}

/// Decides the formula of `cnf`. Returns a total assignment (one value per
/// variable, variable `v` at index `v - 1`) that satisfies every clause,
/// together with the partial assignment it completes, where one exists, and
/// `None` exactly when no assignment satisfies the formula. Variables that
/// the search leaves unassigned are set true.
#[allow(non_snake_case)]
pub fn DPLL(cnf: &CNF) -> (r: Option<(Assignment, PartialAssignment)>)
    requires
        cnf.wf(),
    ensures
        r matches Some((a, q)) ==> {
            &&& a.len() == cnf.nvar
            &&& satisfies(a@, cnf.clause_map())
            &&& q.wf()
            &&& a@ == completion(q.assignment@)
        },
        r is None <==> !satisfiable(cnf.clause_map(), cnf.nvar as int),
{
    let mut p = PartialAssignment::new(cnf.nvar as usize);
    proof {
        let cm = cnf.clause_map();
        assert forall|id: i32, l: i32| cm.contains_key(id) && #[trigger] cm[id].contains(l) implies 0
            <= var_of(l as int) < p.assignment@.len() && p.assignment@[var_of(l as int)] is None by {
            assert(lit_in_range(l as int, cnf.nvar as int));
        }
    }
    match dpll_level(cnf, &mut p) {
        Some(q) => {
            let mut a: Vec<bool> = Vec::new();
            let mut i: usize = 0;
            while i < q.assignment.len()
                invariant
                    0 <= i <= q.assignment.len(),
                    a@ == completion(q.assignment@).take(i as int),
                decreases q.assignment.len() - i,
            {
                let v = match q.assignment[i] {
                    Some(b) => b,
                    None => true,
                };
                a.push(v);
                i = i + 1;
                assert(a@ =~= completion(q.assignment@).take(i as int));
            }
            assert(a@ =~= completion(q.assignment@));
            assert(satisfiable(cnf.clause_map(), cnf.nvar as int)) by {
                assert(a@.len() == cnf.nvar);
                assert(satisfies(a@, cnf.clause_map()));
            }
            Some((a, q))
        },
        None => None,
    }
}

} // verus!
