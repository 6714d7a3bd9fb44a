//! The clause database with its occurrence index and unit bookkeeping, and
//! the partial assignment that the search threads through its recursion.
use std::collections::HashMap;
use std::collections::HashSet;
use vstd::prelude::*;
use vstd::std_specs::hash::spec_hash_keys_iter;
use vstd::std_specs::iter::IteratorSpec;
use crate::literal::MAX_VARS;
use crate::literal::encode;
use crate::literal::encoding;
use crate::literal::is_positive;
use crate::literal::lit_in_range;
use crate::literal::negate;
use crate::literal::negation;
use crate::literal::positive;
use crate::literal::signed_in_range;
use crate::literal::var_of;
use crate::literal::variable;
use crate::sets::copy_set;
use crate::sets::elements;
use crate::sets::lemma_push_contains;

verus! {

broadcast use vstd::std_specs::hash::group_hash_axioms;

/// What can be wrong with the text of a DIMACS file, or with a clause that
/// is added to a database.
#[derive(Debug, Clone, Copy, PartialEq, Eq, Structural)]
pub enum DimacsError {
    /// The input ended, or a clause appeared, before any `p` line.
    NoProblemStatement,
    /// A `p` line that is not `p cnf <nvar> <nclause>` with numeric counts.
    InvalidProblemStatement,
    /// A declared variable or clause count of zero.
    InvalidVariableOrClauseCount,
    /// A second `p` line.
    DuplicateProblemStatement,
    /// More clause lines than the declared clause count.
    TooManyClauses,
    /// Fewer clause lines than the declared clause count.
    TooFewClauses,
    /// A variable whose magnitude exceeds the declared variable count.
    VariableOutOfRange,
    /// A line that is neither a comment, a problem statement nor a clause.
    UnknownStatement,
}

/// The literal tokens of a clause given as signed DIMACS integers; zeros are
/// terminators and contribute nothing.
pub open spec fn literal_set(s: Seq<i32>) -> Set<i32> {
    Set::new(|l: i32| exists|i: int| 0 <= i < s.len() && s[i] != 0 && l as int == encoding(s[i] as int))
}

/// Every entry is a terminator or names one of the variables `1..=nvar`.
pub open spec fn all_in_range(s: Seq<i32>, nvar: int) -> bool {
    forall|i: int| 0 <= i < s.len() ==> s[i] == 0 || signed_in_range(s[i] as int, nvar)
}

/// The literal tokens of a clause given as signed DIMACS integers (zeros
/// skipped); fails when an entry names a variable beyond `nvar`.
pub fn clause_literals(clause: &Vec<i32>, nvar: i32) -> (r: Result<HashSet<i32>, DimacsError>)
    requires
        0 <= nvar <= MAX_VARS,
    ensures
        r is Ok <==> all_in_range(clause@, nvar as int),
        r matches Err(e) ==> e == DimacsError::VariableOutOfRange,
        r matches Ok(hs) ==> hs@ == literal_set(clause@) && forall|l: i32|
            hs@.contains(l) ==> lit_in_range(l as int, nvar as int),
{
    let mut hs: HashSet<i32> = HashSet::new();
    let mut i: usize = 0;
    while i < clause.len()
        invariant
            0 <= i <= clause.len(),
            0 <= nvar <= MAX_VARS,
            all_in_range(clause@.take(i as int), nvar as int),
            hs@ == literal_set(clause@.take(i as int)),
            forall|l: i32| hs@.contains(l) ==> lit_in_range(l as int, nvar as int),
        decreases clause.len() - i,
    {
            let n = clause[i];
            if n != 0 {
                if n > nvar || n < -nvar {
                    assert(!all_in_range(clause@, nvar as int)) by {
                        assert(clause@[i as int] == n);
                    }
                    return Err(DimacsError::VariableOutOfRange);
                }
                hs.insert(encode(n));
            }
            proof {
                let t = clause@.take(i as int + 1);
                assert(t.drop_last() =~= clause@.take(i as int));
                assert(forall|j: int| 0 <= j < i ==> t[j] == clause@.take(i as int)[j]);
                assert(hs@ =~= literal_set(t)) by {
                    assert forall|l: i32| hs@.contains(l) implies literal_set(t).contains(l) by {
                        if n != 0 && l as int == encoding(n as int) {
                            assert(t[i as int] == n);
                        } else {
                            let j = choose|j: int|
                                0 <= j < i && clause@.take(i as int)[j] != 0 && l as int
                                    == encoding(clause@.take(i as int)[j] as int);
                            assert(t[j] == clause@.take(i as int)[j]);
                        }
                    }
                    assert forall|l: i32| literal_set(t).contains(l) implies hs@.contains(l) by {
                        let j = choose|j: int|
                            0 <= j < t.len() && t[j] != 0 && l as int == encoding(t[j] as int);
                        if j < i {
                            assert(literal_set(clause@.take(i as int)).contains(l));
                        }
                    }
                }
            }
            i = i + 1;
        }
    assert(clause@.take(clause.len() as int) =~= clause@);
    Ok(hs)
}

/// The clauses that survive once `lit` is known true, before `lit`'s
/// negation is taken out of them: those that do not contain `lit`.
pub open spec fn without_satisfied(cm: Map<i32, Set<i32>>, lit: i32) -> Map<i32, Set<i32>> {
    Map::new(|id: i32| cm.contains_key(id) && !cm[id].contains(lit), |id: i32| cm[id])
}

/// Every clause with the literal `l` taken out.
pub open spec fn without_literal(cm: Map<i32, Set<i32>>, l: i32) -> Map<i32, Set<i32>> {
    cm.map_values(|c: Set<i32>| c.remove(l))
}

/// The clauses once `lit` is known true: those containing `lit` are gone,
/// and the negation of `lit` is taken out of the others.
pub open spec fn propagated(cm: Map<i32, Set<i32>>, lit: i32) -> Map<i32, Set<i32>> {
    without_literal(without_satisfied(cm, lit), crate::literal::negation(lit as int) as i32)
}

/// The ids that the occurrence index `om` lists for the literal `l`.
pub open spec fn occ_of(om: Map<i32, Set<i32>>, l: i32) -> Set<i32> {
    if om.contains_key(l) {
        om[l]
    } else {
        Set::empty()
    }
}

/// Every clause is finite, has an id below `next_id`, and holds literals of
/// the variables `1..=nvar` only.
pub open spec fn clauses_valid(cm: Map<i32, Set<i32>>, nvar: int, next_id: int) -> bool {
    &&& forall|id: i32| #[trigger] cm.contains_key(id) ==> 0 <= id < next_id && cm[id].finite()
    &&& forall|id: i32, l: i32|
        cm.contains_key(id) && #[trigger] cm[id].contains(l) ==> lit_in_range(l as int, nvar)
}

/// The occurrence index `om` lists, for every literal, exactly the ids of the
/// clauses that contain it, and holds no empty entry.
pub open spec fn index_exact(cm: Map<i32, Set<i32>>, om: Map<i32, Set<i32>>) -> bool {
    &&& forall|l: i32, id: i32|
        #![trigger occ_of(om, l).contains(id)]
        #![trigger cm[id].contains(l)]
        occ_of(om, l).contains(id) <==> cm.contains_key(id) && cm[id].contains(l)
    &&& forall|l: i32| #[trigger] om.contains_key(l) ==> om[l] != Set::<i32>::empty()
}

/// `units` holds exactly the ids of the clauses with one literal.
pub open spec fn units_exact(cm: Map<i32, Set<i32>>, units: Set<i32>) -> bool {
    forall|id: i32| #[trigger]
        units.contains(id) <==> cm.contains_key(id) && cm[id].len() == 1
}

/// The clause database. `clauses` maps each clause id to its literals,
/// `occurrences` maps each literal to the ids of the clauses that contain it,
/// and `units` holds the ids of the clauses with exactly one literal.
/// `nclause` counts the clauses, and `next_id` is the id that the next
/// inserted clause receives.
pub struct CNF {
    pub nvar: i32,
    pub nclause: i32,
    pub clauses: HashMap<i32, HashSet<i32>>,
    pub occurrences: HashMap<i32, HashSet<i32>>,
    pub units: HashSet<i32>,
    pub next_id: i32,
}

impl CNF {
    /// The clauses as sets of literal tokens, by id.
    pub open spec fn clause_map(&self) -> Map<i32, Set<i32>> {
        self.clauses@.map_values(|c: HashSet<i32>| c@)
    }

    /// The occurrence index as sets of clause ids, by literal.
    pub open spec fn occ_map(&self) -> Map<i32, Set<i32>> {
        self.occurrences@.map_values(|c: HashSet<i32>| c@)
    }

    /// The database's invariant: every literal names a declared variable, the
    /// occurrence index is exact, and `units` holds exactly the unit clauses.
    pub open spec fn wf(&self) -> bool {
        &&& 0 <= self.nvar <= MAX_VARS
        &&& 0 <= self.next_id
        &&& self.clause_map().len() <= self.nclause
        &&& clauses_valid(self.clause_map(), self.nvar as int, self.next_id as int)
        &&& index_exact(self.clause_map(), self.occ_map())
        &&& units_exact(self.clause_map(), self.units@)
    }

    /// An empty database over `nvar` variables. `nclause` is the clause
    /// count that it starts from: the declared count where clauses are
    /// inserted by the parser, 0 where they are added with `add_clause`.
    pub fn new(nvar: i32, nclause: i32) -> (r: CNF)
        requires
            0 <= nvar <= MAX_VARS,
            0 <= nclause,
        ensures
            r.wf(),
            r.nvar == nvar,
            r.nclause == nclause,
            r.next_id == 0,
            r.clause_map() == Map::<i32, Set<i32>>::empty(),
    {
        let r = CNF {
            nvar: nvar,
            nclause: nclause,
            clauses: HashMap::new(),
            occurrences: HashMap::new(),
            units: HashSet::new(),
            next_id: 0,
        };
        assert(r.clause_map() =~= Map::<i32, Set<i32>>::empty());
        assert(r.occ_map() =~= Map::<i32, Set<i32>>::empty());
        r
    }

    /// Adds a clause given as signed DIMACS integers (zeros are skipped)
    /// and counts it in `nclause`. Fails, leaving the database as it was,
    /// when an entry names a variable beyond `nvar`.
    pub fn add_clause(&mut self, clause: Vec<i32>) -> (r: Result<(), DimacsError>)
        requires
            old(self).wf(),
            exists|i: int| 0 <= i < clause.len() && clause[i] != 0,
            old(self).nclause < i32::MAX,
            old(self).next_id < i32::MAX,
        ensures
            r is Ok <==> all_in_range(clause@, old(self).nvar as int),
            r is Err ==> r == Err::<(), DimacsError>(DimacsError::VariableOutOfRange)
                && *final(self) == *old(self),
            r is Ok ==> {
                &&& final(self).wf()
                &&& final(self).clause_map() == old(self).clause_map().insert(
                    old(self).next_id,
                    literal_set(clause@),
                )
                &&& final(self).nvar == old(self).nvar
                &&& final(self).nclause == old(self).nclause + 1
                &&& final(self).next_id == old(self).next_id + 1
            },
    {
        let hs = match clause_literals(&clause, self.nvar) {
            Ok(hs) => hs,
            Err(e) => {
                return Err(e);
            },
        };
        assert(hs@ != Set::<i32>::empty()) by {
            let j = choose|j: int| 0 <= j < clause.len() && clause[j] != 0;
            assert(hs@.contains(encoding(clause@[j] as int) as i32));
        }
        self.nclause = self.nclause + 1;
        self.insert_clause(hs);
        Ok(())
    }

    /// Inserts a clause of literal tokens under a fresh id, registers the id
    /// in the occurrence index for each of its literals and, for a
    /// single-literal clause, among the units; returns the id.
    pub(crate) fn insert_clause(&mut self, clause: HashSet<i32>) -> (id: i32)
        requires
            old(self).wf(),
            forall|l: i32| clause@.contains(l) ==> lit_in_range(l as int, old(self).nvar as int),
            old(self).next_id < i32::MAX,
            old(self).clause_map().len() < old(self).nclause,
        ensures
            final(self).wf(),
            id == old(self).next_id,
            final(self).clause_map() == old(self).clause_map().insert(id, clause@),
            final(self).nvar == old(self).nvar,
            final(self).nclause == old(self).nclause,
            final(self).next_id == old(self).next_id + 1,
    {
        let id = self.next_id;
        let lits = elements(&clause);
        if clause.len() == 1 {
            self.units.insert(id);
        }
        let ghost old_self = *old(self);
        assert(self.occurrences == old_self.occurrences);
        assert(self.occ_map() == old_self.occ_map());
        let mut i: usize = 0;
        while i < lits.len()
            invariant
                0 <= i <= lits.len(),
                lits@.to_set() == clause@,
                lits@.no_duplicates(),
                id == old_self.next_id,
                self.clauses == old_self.clauses,
                self.units@ == if clause@.len() == 1 {
                    old_self.units@.insert(id)
                } else {
                    old_self.units@
                },
                self.nvar == old_self.nvar,
                self.nclause == old_self.nclause,
                self.next_id == old_self.next_id,
                forall|l: i32| #[trigger]
                    occ_of(self.occ_map(), l) == if lits@.take(i as int).contains(l) {
                        occ_of(old_self.occ_map(), l).insert(id)
                    } else {
                        occ_of(old_self.occ_map(), l)
                    },
                forall|l: i32| #[trigger]
                    self.occ_map().contains_key(l) ==> self.occ_map()[l] != Set::<i32>::empty(),
            decreases lits.len() - i,
        {
            let l = lits[i];
            let ghost before = *self;
            match self.occurrences.remove(&l) {
                Some(mut s) => {
                    s.insert(id);
                    self.occurrences.insert(l, s);
                },
                None => {
                    let mut s: HashSet<i32> = HashSet::new();
                    s.insert(id);
                    self.occurrences.insert(l, s);
                },
            }
            proof {
                assert(self.occ_map() =~= before.occ_map().insert(
                    l,
                    occ_of(before.occ_map(), l).insert(id),
                ));
                assert(lits@.take(i as int + 1) =~= lits@.take(i as int).push(l));
                assert(!lits@.take(i as int).contains(l)) by {
                    if lits@.take(i as int).contains(l) {
                        let j = choose|j: int| 0 <= j < i && lits@.take(i as int)[j] == l;
                        assert(lits@[j] == lits@[i as int]);
                    }
                }
                assert forall|k: i32| #[trigger]
                    occ_of(self.occ_map(), k) == if lits@.take(i as int + 1).contains(k) {
                        occ_of(old_self.occ_map(), k).insert(id)
                    } else {
                        occ_of(old_self.occ_map(), k)
                    } by {
                    lemma_push_contains(lits@.take(i as int), l, k);
                    assert(occ_of(before.occ_map(), k) == if lits@.take(i as int).contains(k) {
                        occ_of(old_self.occ_map(), k).insert(id)
                    } else {
                        occ_of(old_self.occ_map(), k)
                    });
                    if k != l {
                        assert(occ_of(self.occ_map(), k) == occ_of(before.occ_map(), k));
                    }
                }
                assert forall|k: i32| #[trigger]
                    self.occ_map().contains_key(k) implies self.occ_map()[k]
                    != Set::<i32>::empty() by {
                    if k == l {
                        assert(self.occ_map()[k].contains(id));
                    } else {
                        assert(before.occ_map().contains_key(k));
                    }
                }
            }
            i = i + 1;
        }
        let ghost after_loop = *self;
        self.clauses.insert(id, clause);
        self.next_id = id + 1;
        proof {
            assert(self.occ_map() == after_loop.occ_map());
            let cm = self.clause_map();
            let om = self.occ_map();
            let ocm = old_self.clause_map();
            let oom = old_self.occ_map();
            assert(lits@.take(lits.len() as int) =~= lits@);
            assert(cm =~= ocm.insert(id, clause@));
            assert(!ocm.contains_key(id));
            assert forall|l: i32, k: i32|
                #![trigger occ_of(om, l).contains(k)]
                #![trigger cm[k].contains(l)]
                occ_of(om, l).contains(k) <==> cm.contains_key(k) && cm[k].contains(l) by {
                assert(occ_of(after_loop.occ_map(), l) == if lits@.take(lits.len() as int).contains(l) {
                    occ_of(oom, l).insert(id)
                } else {
                    occ_of(oom, l)
                });
                assert(occ_of(om, l) == if lits@.contains(l) {
                    occ_of(oom, l).insert(id)
                } else {
                    occ_of(oom, l)
                });
                assert(lits@.contains(l) <==> clause@.contains(l));
                if k != id {
                    assert(occ_of(oom, l).contains(k) <==> ocm.contains_key(k) && ocm[k].contains(l));
                } else {
                    assert(!occ_of(oom, l).contains(k));
                }
            }
            assert forall|k: i32| #[trigger]
                self.units@.contains(k) <==> cm.contains_key(k) && cm[k].len() == 1 by {
                if k != id {
                    assert(old_self.units@.contains(k) <==> ocm.contains_key(k) && ocm[k].len() == 1);
                } else {
                    assert(!old_self.units@.contains(k));
                }
            }
            assert(old_self.clauses@.dom().finite());
            assert(ocm.dom() =~= old_self.clauses@.dom());
            assert(cm.dom() =~= ocm.dom().insert(id));
            assert(cm.len() == ocm.len() + 1);
        }
        id
    }

    /// Deletes every clause that contains `lit`, taking the deleted ids out
    /// of the occurrence entries of their other literals (an entry left empty
    /// goes) and out of `units`, and off `nclause`.
    fn remove_satisfied(&mut self, lit: i32)
        requires
            old(self).wf(),
        ensures
            final(self).wf(),
            final(self).clause_map() == without_satisfied(old(self).clause_map(), lit),
            final(self).nvar == old(self).nvar,
            final(self).next_id == old(self).next_id,
            final(self).nclause - final(self).clause_map().len() == old(self).nclause - old(
                self,
            ).clause_map().len(),
    {
        let ghost start = *old(self);
        let removed = self.occurrences.remove(&lit);
        let ids_set = match removed {
            Some(x) => x,
            None => {
                proof {
                    assert(self.occurrences@ == start.occurrences@);
                    assert forall|id: i32| start.clause_map().contains_key(id) implies !start.clause_map()[id].contains(lit) by {
                        assert(!occ_of(start.occ_map(), lit).contains(id));
                    }
                    assert(without_satisfied(start.clause_map(), lit) =~= start.clause_map());
                }
                return;
            },
        };
        let ids = elements(&ids_set);
        proof {
            assert(self.occ_map() =~= start.occ_map().remove(lit));
            assert(ids@.to_set() == occ_of(start.occ_map(), lit));
            lemma_clause_map_finite(start);
        }
        let mut i: usize = 0;
        while i < ids.len()
            invariant
                0 <= i <= ids.len(),
                start.wf(),
                ids@.to_set() == occ_of(start.occ_map(), lit),
                ids@.no_duplicates(),
                self.nvar == start.nvar,
                self.next_id == start.next_id,
                self.nclause - self.clause_map().len() == start.nclause - start.clause_map().len(),
                self.clause_map().len() == start.clause_map().len() - i,
                self.clause_map().dom().finite(),
                forall|k: i32| #[trigger]
                    self.clause_map().contains_key(k) <==> start.clause_map().contains_key(k)
                        && !ids@.take(i as int).contains(k),
                forall|k: i32| #[trigger]
                    self.clause_map().contains_key(k) ==> self.clause_map()[k]
                        == start.clause_map()[k],
                !self.occ_map().contains_key(lit),
                forall|l: i32, k: i32|
                    l != lit ==> (#[trigger] occ_of(self.occ_map(), l).contains(k) <==> occ_of(
                        start.occ_map(),
                        l,
                    ).contains(k) && !ids@.take(i as int).contains(k)),
                forall|l: i32| #[trigger]
                    self.occ_map().contains_key(l) ==> self.occ_map()[l] != Set::<i32>::empty(),
                forall|k: i32| #[trigger]
                    self.units@.contains(k) <==> start.units@.contains(k) && !ids@.take(
                        i as int,
                    ).contains(k),
            decreases ids.len() - i,
        {
            let id = ids[i];
            let ghost before = *self;
            proof {
                assert(ids@.to_set().contains(id));
                assert(!ids@.take(i as int).contains(id)) by {
                    if ids@.take(i as int).contains(id) {
                        let j = choose|j: int| 0 <= j < i && ids@.take(i as int)[j] == id;
                        assert(ids@[j] == ids@[i as int]);
                    }
                }
                assert(start.clause_map().contains_key(id));
                assert(ids@.take(i as int + 1) =~= ids@.take(i as int).push(id));
            }
            let removed_clause = self.clauses.remove(&id);
            let ghost mid = *self;
            match removed_clause {
                Some(lits_set) => {
                    let lits = elements(&lits_set);
                    assert(before.clause_map().contains_key(id));
                    assert(before.clauses@[id] == lits_set);
                    assert(before.clause_map()[id] == lits_set@);
                    assert(lits@.to_set() == start.clause_map()[id]);
                    let mut j: usize = 0;
                    while j < lits.len()
                        invariant
                            0 <= j <= lits.len(),
                            lits@.no_duplicates(),
                            self.clauses == mid.clauses,
                            self.units == mid.units,
                            self.nvar == mid.nvar,
                            self.nclause == mid.nclause,
                            self.next_id == mid.next_id,
                            !self.occ_map().contains_key(lit),
                            forall|l: i32| #[trigger]
                                occ_of(self.occ_map(), l) == if lits@.take(j as int).contains(l) {
                                    occ_of(mid.occ_map(), l).remove(id)
                                } else {
                                    occ_of(mid.occ_map(), l)
                                },
                            forall|l: i32| #[trigger]
                                self.occ_map().contains_key(l) ==> self.occ_map()[l]
                                    != Set::<i32>::empty(),
                        decreases lits.len() - j,
                    {
                        let l2 = lits[j];
                        let ghost inner = *self;
                        let entry = self.occurrences.remove(&l2);
                        match entry {
                            Some(mut o) => {
                                o.remove(&id);
                                if !o.is_empty() {
                                    self.occurrences.insert(l2, o);
                                }
                            },
                            None => {},
                        }
                        proof {
                            assert(lits@.take(j as int + 1) =~= lits@.take(j as int).push(l2));
                            assert(!lits@.take(j as int).contains(l2)) by {
                                if lits@.take(j as int).contains(l2) {
                                    let t = choose|t: int|
                                        0 <= t < j && lits@.take(j as int)[t] == l2;
                                    assert(lits@[t] == lits@[j as int]);
                                }
                            }
                            assert forall|l: i32| #[trigger]
                                occ_of(self.occ_map(), l) == if lits@.take(j as int + 1).contains(
                                    l,
                                ) {
                                    occ_of(mid.occ_map(), l).remove(id)
                                } else {
                                    occ_of(mid.occ_map(), l)
                                } by {
                                lemma_push_contains(lits@.take(j as int), l2, l);
                                assert(occ_of(inner.occ_map(), l) == if lits@.take(
                                    j as int,
                                ).contains(l) {
                                    occ_of(mid.occ_map(), l).remove(id)
                                } else {
                                    occ_of(mid.occ_map(), l)
                                });
                                if l == l2 {
                                    assert(occ_of(self.occ_map(), l) =~= occ_of(
                                        inner.occ_map(),
                                        l,
                                    ).remove(id));
                                } else {
                                    assert(occ_of(self.occ_map(), l) == occ_of(inner.occ_map(), l));
                                }
                            }
                            assert forall|l: i32| #[trigger]
                                self.occ_map().contains_key(l) implies self.occ_map()[l]
                                != Set::<i32>::empty() by {
                                if l != l2 {
                                    assert(inner.occ_map().contains_key(l));
                                }
                            }
                        }
                        j = j + 1;
                    }
                    proof {
                        assert(lits@.take(lits.len() as int) =~= lits@);
                        assert forall|l: i32| l != lit implies #[trigger] occ_of(
                            self.occ_map(),
                            l,
                        ) == occ_of(mid.occ_map(), l).remove(id) by {
                            if !lits@.contains(l) {
                                assert(!start.clause_map()[id].contains(l));
                                assert(!occ_of(mid.occ_map(), l).contains(id));
                                assert(occ_of(mid.occ_map(), l).remove(id) =~= occ_of(
                                    mid.occ_map(),
                                    l,
                                ));
                            }
                        }
                    }
                },
                None => {},
            }
            self.units.remove(&id);
            self.nclause = self.nclause - 1;
            proof {
                assert(self.clause_map() =~= before.clause_map().remove(id));
                assert forall|l: i32, k: i32|
                    l != lit implies (#[trigger] occ_of(self.occ_map(), l).contains(k) <==> occ_of(
                        start.occ_map(),
                        l,
                    ).contains(k) && !ids@.take(i as int + 1).contains(k)) by {
                    lemma_push_contains(ids@.take(i as int), id, k);
                    assert(occ_of(self.occ_map(), l) == occ_of(mid.occ_map(), l).remove(id));
                }
                assert forall|k: i32| #[trigger]
                    self.units@.contains(k) <==> start.units@.contains(k) && !ids@.take(
                        i as int + 1,
                    ).contains(k) by {
                    lemma_push_contains(ids@.take(i as int), id, k);
                }
                assert forall|k: i32| #[trigger]
                    self.clause_map().contains_key(k) <==> start.clause_map().contains_key(k)
                        && !ids@.take(i as int + 1).contains(k) by {
                    lemma_push_contains(ids@.take(i as int), id, k);
                }
            }
            i = i + 1;
        }
        proof {
            let cm = self.clause_map();
            let om = self.occ_map();
            assert(ids@.take(ids.len() as int) =~= ids@);
            assert forall|k: i32| ids@.contains(k) <==> occ_of(start.occ_map(), lit).contains(k) by {
                assert(ids@.to_set().contains(k) <==> ids@.contains(k));
            }
            assert(cm =~= without_satisfied(start.clause_map(), lit));
            assert forall|l: i32, k: i32|
                #![trigger occ_of(om, l).contains(k)]
                #![trigger cm[k].contains(l)]
                occ_of(om, l).contains(k) <==> cm.contains_key(k) && cm[k].contains(l) by {
                if l == lit {
                    assert(occ_of(om, l) =~= Set::<i32>::empty());
                }
            }
        }
    }

    /// Propagates the literal of the unit clause `unit`; the clause is then
    /// satisfied and deleted, so `unit` leaves `units`.
    pub fn unit_propagate(&mut self, unit: i32)
        requires
            old(self).wf(),
            old(self).units@.contains(unit),
        ensures
            final(self).wf(),
            old(self).clause_map()[unit] == set![old(self).clause_map()[unit].choose()],
            final(self).clause_map() == propagated(
                old(self).clause_map(),
                old(self).clause_map()[unit].choose(),
            ),
            !final(self).units@.contains(unit),
            final(self).nvar == old(self).nvar,
            final(self).next_id == old(self).next_id,
            final(self).nclause - final(self).clause_map().len() == old(self).nclause - old(
                self,
            ).clause_map().len(),
    {
        let ghost cm = self.clause_map();
        let lit = match self.clauses.get(&unit) {
            Some(c) => {
                let x = zeroth(c);
                proof {
                    assert(c@ == cm[unit]);
                    lemma_singleton(cm[unit], x);
                }
                x
            },
            None => {
                assert(false);
                0
            },
        };
        self.propagate(lit);
        self.units.remove(&unit);
        proof {
            assert(!self.clause_map().contains_key(unit));
        }
    }

    /// Takes the negation of `lit` out of every clause that contains it; a
    /// clause left with one literal joins `units`, one left empty leaves it
    /// and stays among the clauses.
    fn remove_negation(&mut self, lit: i32)
        requires
            old(self).wf(),
            lit_in_range(lit as int, old(self).nvar as int),
        ensures
            final(self).wf(),
            final(self).clause_map() == without_literal(
                old(self).clause_map(),
                negation(lit as int) as i32,
            ),
            final(self).nvar == old(self).nvar,
            final(self).next_id == old(self).next_id,
            final(self).nclause == old(self).nclause,
    {
        let ghost start = *old(self);
        let neg = negate(lit);
        let removed = self.occurrences.remove(&neg);
        let ids_set = match removed {
            Some(x) => x,
            None => {
                proof {
                    assert(self.occurrences@ == start.occurrences@);
                    assert forall|id: i32| #[trigger]
                        start.clause_map().contains_key(id) implies start.clause_map()[id].remove(neg)
                        == start.clause_map()[id] by {
                        assert(!occ_of(start.occ_map(), neg).contains(id));
                        assert(start.clause_map()[id].remove(neg) =~= start.clause_map()[id]);
                    }
                    assert(without_literal(start.clause_map(), neg) =~= start.clause_map());
                }
                return;
            },
        };
        let ids = elements(&ids_set);
        proof {
            assert(self.occ_map() =~= start.occ_map().remove(neg));
            assert(ids@.to_set() == occ_of(start.occ_map(), neg));
        }
        let mut i: usize = 0;
        while i < ids.len()
            invariant
                0 <= i <= ids.len(),
                start.wf(),
                ids@.to_set() == occ_of(start.occ_map(), neg),
                ids@.no_duplicates(),
                self.nvar == start.nvar,
                self.next_id == start.next_id,
                self.nclause == start.nclause,
                self.occ_map() == start.occ_map().remove(neg),
                self.clause_map().dom() == start.clause_map().dom(),
                forall|k: i32| #[trigger]
                    self.clause_map().contains_key(k) ==> self.clause_map()[k] == if ids@.take(
                        i as int,
                    ).contains(k) {
                        start.clause_map()[k].remove(neg)
                    } else {
                        start.clause_map()[k]
                    },
                units_exact(self.clause_map(), self.units@),
            decreases ids.len() - i,
        {
            let id = ids[i];
            let ghost before = *self;
            proof {
                assert(ids@.to_set().contains(id));
                assert(!ids@.take(i as int).contains(id)) by {
                    if ids@.take(i as int).contains(id) {
                        let j = choose|j: int| 0 <= j < i && ids@.take(i as int)[j] == id;
                        assert(ids@[j] == ids@[i as int]);
                    }
                }
                assert(start.clause_map().contains_key(id));
                assert(before.clause_map().contains_key(id));
            }
            let removed_clause = self.clauses.remove(&id);
            match removed_clause {
                Some(mut c) => {
                    assert(before.clauses@[id] == c);
                    assert(c@ == start.clause_map()[id]);
                    c.remove(&neg);
                    if c.len() == 1 {
                        self.units.insert(id);
                    } else {
                        self.units.remove(&id);
                    }
                    self.clauses.insert(id, c);
                },
                None => {},
            }
            proof {
                assert(self.clause_map() =~= before.clause_map().insert(
                    id,
                    start.clause_map()[id].remove(neg),
                ));
                assert forall|k: i32| #[trigger]
                    self.clause_map().contains_key(k) implies self.clause_map()[k] == if ids@.take(
                        i as int + 1,
                    ).contains(k) {
                        start.clause_map()[k].remove(neg)
                    } else {
                        start.clause_map()[k]
                    } by {
                    assert(ids@.take(i as int + 1) =~= ids@.take(i as int).push(id));
                    lemma_push_contains(ids@.take(i as int), id, k);
                }
                assert forall|k: i32| #[trigger]
                    self.units@.contains(k) <==> self.clause_map().contains_key(k)
                        && self.clause_map()[k].len() == 1 by {
                    if k != id {
                        assert(before.units@.contains(k) <==> before.clause_map().contains_key(k)
                            && before.clause_map()[k].len() == 1);
                    }
                }
            }
            i = i + 1;
        }
        proof {
            let cm = self.clause_map();
            let om = self.occ_map();
            let cm_before = start.clause_map();
            assert(ids@.take(ids.len() as int) =~= ids@);
            assert forall|k: i32| ids@.contains(k) <==> occ_of(start.occ_map(), neg).contains(k) by {
                assert(ids@.to_set().contains(k) <==> ids@.contains(k));
            }
            assert forall|k: i32| #[trigger]
                cm.contains_key(k) implies cm[k] == cm_before[k].remove(neg) by {
                if !ids@.contains(k) {
                    assert(!cm_before[k].contains(neg));
                    assert(cm_before[k].remove(neg) =~= cm_before[k]);
                }
            }
            assert(cm =~= without_literal(cm_before, neg));
            assert forall|l: i32, k: i32|
                #![trigger occ_of(om, l).contains(k)]
                #![trigger cm[k].contains(l)]
                occ_of(om, l).contains(k) <==> cm.contains_key(k) && cm[k].contains(l) by {
                if l == neg {
                    assert(occ_of(om, l) =~= Set::<i32>::empty());
                } else {
                    assert(occ_of(om, l) == occ_of(start.occ_map(), l));
                }
            }
            assert forall|l: i32| #[trigger] om.contains_key(l) implies om[l] != Set::<i32>::empty() by {
                assert(start.occ_map().contains_key(l));
            }
            assert forall|k: i32, l: i32|
                cm.contains_key(k) && #[trigger] cm[k].contains(l) implies lit_in_range(
                    l as int,
                    self.nvar as int,
                ) by {
                assert(cm_before[k].contains(l));
            }
        }
    }

    /// Makes `lit` true: every clause containing `lit` is satisfied and
    /// deleted (and counted off `nclause`), and the negation of `lit` is taken
    /// out of every other clause. A clause that this leaves empty stays.
    pub fn propagate(&mut self, lit: i32)
        requires
            old(self).wf(),
            lit_in_range(lit as int, old(self).nvar as int),
        ensures
            final(self).wf(),
            final(self).clause_map() == propagated(old(self).clause_map(), lit),
            final(self).nvar == old(self).nvar,
            final(self).next_id == old(self).next_id,
            final(self).nclause - final(self).clause_map().len() == old(self).nclause - old(
                self,
            ).clause_map().len(),
    {
        self.remove_satisfied(lit);
        let ghost mid = *self;
        self.remove_negation(lit);
        assert(self.clause_map().dom() =~= mid.clause_map().dom());
    }
}

impl Clone for CNF {
    /// A copy of the database, independent of it.
    fn clone(&self) -> (r: CNF)
        ensures
            r.nvar == self.nvar,
            r.nclause == self.nclause,
            r.next_id == self.next_id,
            r.clauses@ == self.clauses@,
            r.occurrences@ == self.occurrences@,
            r.units@ == self.units@,
    {
        CNF {
            nvar: self.nvar,
            nclause: self.nclause,
            clauses: self.clauses.clone(),
            occurrences: self.occurrences.clone(),
            units: copy_set(&self.units),
            next_id: self.next_id,
        }
    }
}

/// The occurrence index of every well-formed database lists, for each
/// literal, exactly the clauses that contain it, and has an entry for a
/// literal exactly when some clause contains it. Every operation of `CNF`
/// keeps a database well formed.
pub proof fn lemma_occurrences_exact(db: CNF, l: i32)
    requires
        db.wf(),
    ensures
        occ_of(db.occ_map(), l) == Set::new(
            |id: i32| db.clause_map().contains_key(id) && db.clause_map()[id].contains(l),
        ),
        db.occ_map().contains_key(l) <==> exists|id: i32|
            db.clause_map().contains_key(id) && #[trigger] db.clause_map()[id].contains(l),
{
    let s = Set::new(
        |id: i32| db.clause_map().contains_key(id) && db.clause_map()[id].contains(l),
    );
    assert(occ_of(db.occ_map(), l) =~= s);
    if db.occ_map().contains_key(l) {
        let o = db.occ_map()[l];
        if forall|id: i32| !o.contains(id) {
            assert(o =~= Set::<i32>::empty());
        }
        let id = choose|id: i32| o.contains(id);
        assert(occ_of(db.occ_map(), l).contains(id));
        assert(db.clause_map()[id].contains(l));
    }
}

/// In every well-formed database `units` is exactly the set of ids of the
/// clauses with one literal.
pub proof fn lemma_units_exact(db: CNF)
    requires
        db.wf(),
    ensures
        db.units@ == Set::new(
            |id: i32| db.clause_map().contains_key(id) && db.clause_map()[id].len() == 1,
        ),
{
    assert(db.units@ =~= Set::new(
        |id: i32| db.clause_map().contains_key(id) && db.clause_map()[id].len() == 1,
    ));
}

/// Two well-formed databases with the same clauses have the same occurrence
/// index and the same units.
pub proof fn lemma_index_determined(a: CNF, b: CNF)
    requires
        a.wf(),
        b.wf(),
        a.clause_map() == b.clause_map(),
    ensures
        a.occ_map() == b.occ_map(),
        a.units@ == b.units@,
{
    assert forall|l: i32| a.occ_map().contains_key(l) <==> b.occ_map().contains_key(l) by {
        lemma_occurrences_exact(a, l);
        lemma_occurrences_exact(b, l);
    }
    assert forall|l: i32| #[trigger] a.occ_map().contains_key(l) implies a.occ_map()[l] == b.occ_map()[l] by {
        lemma_occurrences_exact(a, l);
        lemma_occurrences_exact(b, l);
        assert(occ_of(a.occ_map(), l) == a.occ_map()[l]);
        assert(occ_of(b.occ_map(), l) == b.occ_map()[l]);
    }
    assert(a.occ_map() =~= b.occ_map());
    assert(a.units@ =~= b.units@);
}

/// Once a literal has been propagated, no clause holds it or its negation,
/// so propagating it again leaves the clauses as they are.
pub proof fn lemma_propagated_idempotent(cm: Map<i32, Set<i32>>, lit: i32)
    requires
        lit >= 0,
    ensures
        propagated(propagated(cm, lit), lit) == propagated(cm, lit),
{
    let once = propagated(cm, lit);
    let neg = negation(lit as int) as i32;
    assert(neg != lit);
    assert forall|id: i32| #[trigger] once.contains_key(id) implies !once[id].contains(lit) && !once[id].contains(neg) by {}
    let ws = without_satisfied(once, lit);
    assert(ws =~= once);
    assert forall|id: i32| #[trigger] ws.contains_key(id) implies ws[id].remove(neg) == ws[id] by {
        assert(ws[id].remove(neg) =~= ws[id]);
    }
    assert(without_literal(ws, neg) =~= once);
}

/// Propagating a literal, then propagating it once more: the second call
/// deletes no clause, so `nclause`, the occurrence index and the units stay
/// as the first call left them.
pub proof fn lemma_propagate_twice(a: CNF, b: CNF, c: CNF, lit: i32)
    requires
        a.wf(),
        b.wf(),
        c.wf(),
        lit_in_range(lit as int, a.nvar as int),
        b.clause_map() == propagated(a.clause_map(), lit),
        b.nclause - b.clause_map().len() == a.nclause - a.clause_map().len(),
        c.clause_map() == propagated(b.clause_map(), lit),
        c.nclause - c.clause_map().len() == b.nclause - b.clause_map().len(),
    ensures
        c.clause_map() == b.clause_map(),
        c.nclause == b.nclause,
        c.occ_map() == b.occ_map(),
        c.units@ == b.units@,
{
    lemma_propagated_idempotent(a.clause_map(), lit);
    lemma_index_determined(b, c);
}

/// A finite set of one element that contains `x` is `{x}`.
proof fn lemma_singleton(s: Set<i32>, x: i32)
    requires
        s.finite(),
        s.len() == 1,
        s.contains(x),
    ensures
        s == set![x],
        s.choose() == x,
{
    Set::lemma_is_singleton(s);
    assert(s =~= set![x]);
}

/// The domain of a database's clause map is finite.
pub proof fn lemma_clause_map_finite(db: CNF)
    ensures
        db.clause_map().dom().finite(),
{
    assert(db.clause_map().dom() =~= db.clauses@.dom());
}

/// Some element of a non-empty set.
pub fn zeroth(hs: &HashSet<i32>) -> (r: i32)
    requires
        hs@ != Set::<i32>::empty(),
    ensures
        hs@.contains(r),
{
    let ghost all = spec_hash_keys_iter(hs).remaining().unref();
    for x in it: hs.iter()
        invariant
            it.seq().unref() == all,
            it.index() == 0,
    {
        assert(all[0] == *x);
        return *x;
    }
    assert(all.len() == 0);
    assert(all.to_set() =~= Set::<i32>::empty());
    assert(false);
    0
}

/// A total assignment: the value of variable `v` (1-based) at index `v - 1`.
pub type Assignment = Vec<bool>;

/// The values given so far to the variables `0..n` (0-based), and the set of
/// the variables that have none.
pub struct PartialAssignment {
    pub assignment: Vec<Option<bool>>,
    pub unassigned: HashSet<i32>,
}

impl PartialAssignment {
    /// `unassigned` is exactly the set of variables without a value.
    pub open spec fn wf(&self) -> bool {
        &&& self.assignment.len() <= i32::MAX
        &&& self.unassigned@.finite()
        &&& forall|v: i32| #[trigger]
            self.unassigned@.contains(v) <==> 0 <= v < self.assignment.len()
                && self.assignment@[v as int] is None
    }

    /// An assignment of `n` variables, none of which has a value yet.
    pub fn new(n: usize) -> (r: PartialAssignment)
        requires
            n <= i32::MAX,
        ensures
            r.wf(),
            r.assignment@ == Seq::new(n as nat, |i: int| None::<bool>),
    {
        let mut assignment: Vec<Option<bool>> = Vec::new();
        let mut unassigned: HashSet<i32> = HashSet::new();
        let mut i: usize = 0;
        while i < n
            invariant
                0 <= i <= n <= i32::MAX,
                assignment@ == Seq::new(i as nat, |j: int| None::<bool>),
                unassigned@.finite(),
                forall|v: i32| #[trigger] unassigned@.contains(v) <==> 0 <= v < i,
            decreases n - i,
        {
            assignment.push(None);
            unassigned.insert(i as i32);
            i = i + 1;
            assert(assignment@ =~= Seq::new(i as nat, |j: int| None::<bool>));
        }
        PartialAssignment { assignment, unassigned }
    }

    /// Gives the unassigned variable `v` the value `assn`.
    fn assign(&mut self, v: usize, assn: bool)
        requires
            old(self).wf(),
            v < old(self).assignment.len(),
            old(self).assignment@[v as int] is None,
        ensures
            final(self).wf(),
            final(self).assignment@ == old(self).assignment@.update(v as int, Some(assn)),
            final(self).unassigned@ == old(self).unassigned@.remove(v as i32),
            final(self).unassigned@.len() + 1 == old(self).unassigned@.len(),
    {
        self.assignment.set(v, Some(assn));
        self.unassigned.remove(&(v as i32));
        assert(old(self).unassigned@.contains(v as i32));
    }

    /// Makes `lit` true: its variable gets the literal's polarity.
    pub fn assign_literal(&mut self, lit: i32)
        requires
            old(self).wf(),
            0 <= lit,
            var_of(lit as int) < old(self).assignment.len(),
            old(self).assignment@[var_of(lit as int)] is None,
        ensures
            final(self).wf(),
            final(self).assignment@ == old(self).assignment@.update(
                var_of(lit as int),
                Some(positive(lit as int)),
            ),
            final(self).unassigned@.len() + 1 == old(self).unassigned@.len(),
    {
        let polarity = is_positive(lit);
        let v = variable(lit);
        self.assign(v, polarity);
    }

    /// Takes the value of the assigned variable `v` away.
    fn unassign(&mut self, v: usize)
        requires
            old(self).wf(),
            v < old(self).assignment.len(),
            old(self).assignment@[v as int] is Some,
        ensures
            final(self).wf(),
            final(self).assignment@ == old(self).assignment@.update(v as int, None),
            final(self).unassigned@.len() == old(self).unassigned@.len() + 1,
    {
        self.assignment.set(v, None);
        self.unassigned.insert(v as i32);
        assert(!old(self).unassigned@.contains(v as i32));
    }

    /// Takes the value of the variable of `lit` away.
    pub fn unassign_literal(&mut self, lit: i32)
        requires
            old(self).wf(),
            0 <= lit,
            var_of(lit as int) < old(self).assignment.len(),
            old(self).assignment@[var_of(lit as int)] is Some,
        ensures
            final(self).wf(),
            final(self).assignment@ == old(self).assignment@.update(var_of(lit as int), None),
            final(self).unassigned@.len() == old(self).unassigned@.len() + 1,
    {
        let v = variable(lit);
        self.unassign(v);
    }
}

impl Clone for PartialAssignment {
    /// A copy of the assignment, independent of it.
    fn clone(&self) -> (r: PartialAssignment)
        ensures
            r.assignment@ == self.assignment@,
            r.unassigned@ == self.unassigned@,
    {
        let mut assignment: Vec<Option<bool>> = Vec::new();
        let mut i: usize = 0;
        while i < self.assignment.len()
            invariant
                0 <= i <= self.assignment.len(),
                assignment@ == self.assignment@.take(i as int),
            decreases self.assignment.len() - i,
        {
            assignment.push(self.assignment[i]);
            i = i + 1;
            assert(assignment@ =~= self.assignment@.take(i as int));
        }
        assert(assignment@ =~= self.assignment@);
        PartialAssignment { assignment, unassigned: copy_set(&self.unassigned) }
    }
}

/// The decimal digit of `d < 10`.
pub open spec fn digit(d: nat) -> char {
    if d == 0 {
        '0'
    } else if d == 1 {
        '1'
    } else if d == 2 {
        '2'
    } else if d == 3 {
        '3'
    } else if d == 4 {
        '4'
    } else if d == 5 {
        '5'
    } else if d == 6 {
        '6'
    } else if d == 7 {
        '7'
    } else if d == 8 {
        '8'
    } else {
        '9'
    }
}

/// The decimal numeral of `n`, without leading zeros.
pub open spec fn decimal(n: nat) -> Seq<char>
    decreases n,
{
    if n < 10 {
        seq![digit(n)]
    } else {
        decimal(n / 10).push(digit(n % 10))
    }
}

/// Variable `v` as a DIMACS literal: `v` when true, `-v` when false.
pub open spec fn signed_var(v: nat, value: bool) -> Seq<char> {
    if value {
        decimal(v)
    } else {
        seq!['-'] + decimal(v)
    }
}

/// An assignment as one DIMACS line: the signed variables `1..=a.len()`,
/// separated by single spaces, with no terminating `0`.
pub open spec fn output_line(a: Seq<bool>) -> Seq<char>
    decreases a.len(),
{
    if a.len() == 0 {
        Seq::empty()
    } else if a.len() == 1 {
        signed_var(1, a[0])
    } else {
        output_line(a.drop_last()) + seq![' '] + signed_var(a.len(), a.last())
    }
}

fn digit_char(d: usize) -> (c: char)
    requires
        d < 10,
    ensures
        c == digit(d as nat),
{
    if d == 0 {
        '0'
    } else if d == 1 {
        '1'
    } else if d == 2 {
        '2'
    } else if d == 3 {
        '3'
    } else if d == 4 {
        '4'
    } else if d == 5 {
        '5'
    } else if d == 6 {
        '6'
    } else if d == 7 {
        '7'
    } else if d == 8 {
        '8'
    } else {
        '9'
    }
}

fn push_decimal(out: &mut Vec<char>, n: usize)
    ensures
        final(out)@ == old(out)@ + decimal(n as nat),
    decreases n,
{
    if n >= 10 {
        push_decimal(out, n / 10);
    }
    out.push(digit_char(n % 10));
    proof {
        if n >= 10 {
            assert(final(out)@ =~= old(out)@ + decimal(n as nat));
        } else {
            assert(final(out)@ =~= old(out)@ + decimal(n as nat));
        }
    }
}

/// Relies on `String::from_iter` (`String`'s `FromIterator<char>`): the
/// string holds exactly the given characters, in order.
#[verifier::external_body]
fn string_of_chars(v: Vec<char>) -> (s: String)
    ensures
        s@ == v@,
{
    String::from_iter(v)
}

/// An assignment rendered as a DIMACS line of signed variables (`1 -2 3`).
pub fn format_output(assn: &Assignment) -> (s: String)
    ensures
        s@ == output_line(assn@),
{
    let mut out: Vec<char> = Vec::new();
    let mut i: usize = 0;
    while i < assn.len()
        invariant
            0 <= i <= assn.len(),
            out@ == output_line(assn@.take(i as int)),
        decreases assn.len() - i,
    {
        let ghost before = out@;
        if i > 0 {
            out.push(' ');
        }
        if !assn[i] {
            out.push('-');
        }
        push_decimal(&mut out, i + 1);
        proof {
            let t = assn@.take(i as int + 1);
            assert(t.drop_last() =~= assn@.take(i as int));
            assert(t.last() == assn@[i as int]);
            if i == 0 {
                assert(out@ =~= signed_var(1, assn@[0]));
            } else {
                assert(out@ =~= before + seq![' '] + signed_var((i + 1) as nat, assn@[i as int]));
            }
        }
        i = i + 1;
    }
    assert(assn@.take(assn.len() as int) =~= assn@);
    string_of_chars(out)
}

} // verus!
