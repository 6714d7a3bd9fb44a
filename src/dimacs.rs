//! Reading a formula in DIMACS CNF text: the problem line
//! `p cnf <nvar> <nclause>`, comment lines starting with the word `c`, and
//! one clause per line as signed integers, where `0` ends the clause.
use vstd::prelude::*;
use crate::cnf::CNF;
use crate::cnf::DimacsError;
use crate::cnf::clause_literals;
use crate::cnf::literal_set;
use crate::literal::MAX_VARS;

verus! {

/// An ASCII blank other than the line feed.
pub open spec fn is_blank(c: u8) -> bool {
    c == 32 || c == 9 || c == 11 || c == 12 || c == 13
}

/// The words so far with `word` appended, unless `word` is empty.
pub open spec fn end_word(words: Seq<Seq<u8>>, word: Seq<u8>) -> Seq<Seq<u8>> {
    if word.len() == 0 {
        words
    } else {
        words.push(word)
    }
}

/// The first `i` bytes of `b` read as: the finished lines (each a sequence
/// of words), the words of the current line, and the current word.
pub open spec fn scan(b: Seq<u8>, i: int) -> (Seq<Seq<Seq<u8>>>, Seq<Seq<u8>>, Seq<u8>)
    decreases i,
{
    if i <= 0 {
        (Seq::empty(), Seq::empty(), Seq::empty())
    } else {
        let (ls, ws, w) = scan(b, i - 1);
        let c = b[i - 1];
        if c == 10 {
            (ls.push(end_word(ws, w)), Seq::empty(), Seq::empty())
        } else if is_blank(c) {
            (ls, end_word(ws, w), Seq::empty())
        } else {
            (ls, ws, w.push(c))
        }
    }
}

/// The text `b` as lines (split at line feeds), each a sequence of words
/// (split at blanks).
pub open spec fn lines_of_words(b: Seq<u8>) -> Seq<Seq<Seq<u8>>> {
    let (ls, ws, w) = scan(b, b.len() as int);
    ls.push(end_word(ws, w))
}

pub open spec fn words_view(ws: Seq<Vec<u8>>) -> Seq<Seq<u8>> {
    ws.map_values(|w: Vec<u8>| w@)
}

pub open spec fn lines_view(ls: Seq<Vec<Vec<u8>>>) -> Seq<Seq<Seq<u8>>> {
    ls.map_values(|l: Vec<Vec<u8>>| words_view(l@))
}

fn finish_word(words: &mut Vec<Vec<u8>>, word: Vec<u8>)
    ensures
        words_view(final(words)@) == end_word(words_view(old(words)@), word@),
{
    if word.len() > 0 {
        words.push(word);
        assert(words_view(words@) =~= words_view(old(words)@).push(word@));
    }
}

/// Splits text into lines of words.
fn tokenize(b: &[u8]) -> (r: Vec<Vec<Vec<u8>>>)
    ensures
        lines_view(r@) == lines_of_words(b@),
{
    let mut ls: Vec<Vec<Vec<u8>>> = Vec::new();
    let mut ws: Vec<Vec<u8>> = Vec::new();
    let mut w: Vec<u8> = Vec::new();
    let mut i: usize = 0;
    while i < b.len()
        invariant
            0 <= i <= b.len(),
            scan(b@, i as int) == (lines_view(ls@), words_view(ws@), w@),
        decreases b.len() - i,
    {
        let c = b[i];
        if c == 10 {
            finish_word(&mut ws, w);
            let ghost before = ls@;
            ls.push(ws);
            assert(lines_view(ls@) =~= lines_view(before).push(words_view(ws@)));
            ws = Vec::new();
            w = Vec::new();
            assert(words_view(ws@) =~= Seq::<Seq<u8>>::empty());
        } else if c == 32 || c == 9 || c == 11 || c == 12 || c == 13 {
            finish_word(&mut ws, w);
            w = Vec::new();
        } else {
            w.push(c);
        }
        i = i + 1;
    }
    finish_word(&mut ws, w);
    let ghost before = ls@;
    ls.push(ws);
    assert(lines_view(ls@) =~= lines_view(before).push(words_view(ws@)));
    ls
}

/// An ASCII decimal digit.
pub open spec fn is_digit(c: u8) -> bool {
    48 <= c <= 57
}

/// Every byte of `d` is a decimal digit.
pub open spec fn all_digits(d: Seq<u8>) -> bool {
    forall|j: int| 0 <= j < d.len() ==> is_digit(#[trigger] d[j])
}

/// The value of a sequence of decimal digits.
pub open spec fn digits_value(d: Seq<u8>) -> int
    decreases d.len(),
{
    if d.len() == 0 {
        0
    } else {
        digits_value(d.drop_last()) * 10 + (d.last() - 48)
    }
}

/// The digits of a word after an optional sign.
pub open spec fn unsigned_part(w: Seq<u8>) -> Seq<u8> {
    if w.len() > 0 && (w[0] == 45 || w[0] == 43) {
        w.drop_first()
    } else {
        w
    }
}

/// The integer that a word spells (an optional `+` or `-`, then one or more
/// decimal digits), where it fits in an `i32`.
pub open spec fn int_value(w: Seq<u8>) -> Option<int> {
    let d = unsigned_part(w);
    let v = if w.len() > 0 && w[0] == 45 {
        -digits_value(d)
    } else {
        digits_value(d)
    };
    if d.len() > 0 && all_digits(d) && i32::MIN <= v <= i32::MAX {
        Some(v)
    } else {
        None
    }
}

proof fn lemma_digits_grow(d: Seq<u8>, c: u8)
    requires
        is_digit(c),
    ensures
        digits_value(d.push(c)) == digits_value(d) * 10 + (c - 48),
{
    assert(d.push(c).drop_last() =~= d);
}

proof fn lemma_digits_nonneg(d: Seq<u8>)
    requires
        forall|j: int| 0 <= j < d.len() ==> is_digit(#[trigger] d[j]),
    ensures
        digits_value(d) >= 0,
    decreases d.len(),
{
    if d.len() > 0 {
        lemma_digits_nonneg(d.drop_last());
    }
}

/// Reads a word as an `i32`.
fn parse_int(w: &Vec<u8>) -> (r: Option<i32>)
    ensures
        r matches Some(v) ==> int_value(w@) == Some(v as int),
        r is None ==> int_value(w@) is None,
{
    let ghost d = unsigned_part(w@);
    let negative = w.len() > 0 && w[0] == 45;
    let start: usize = if w.len() > 0 && (w[0] == 45 || w[0] == 43) {
        1
    } else {
        0
    };
    if start >= w.len() {
        return None;
    }
    assert(d =~= w@.subrange(start as int, w.len() as int));
    let limit: i64 = 0x8000_0000;
    let mut acc: i64 = 0;
    let mut i: usize = start;
    while i < w.len()
        invariant
            start <= i <= w.len(),
            d == unsigned_part(w@),
            d =~= w@.subrange(start as int, w.len() as int),
            negative == (w@.len() > 0 && w@[0] == 45),
            limit == 0x8000_0000,
            forall|j: int| start <= j < i ==> is_digit(#[trigger] w@[j]),
            acc <= limit ==> acc == digits_value(w@.subrange(start as int, i as int)),
            acc > limit ==> digits_value(w@.subrange(start as int, i as int)) > limit,
            0 <= acc <= 10 * limit + 9,
        decreases w.len() - i,
    {
        let c = w[i];
        if c < 48 || c > 57 {
            proof {
                assert(d[i - start] == c);
                assert(!is_digit(d[i - start]));
                assert(!all_digits(d));
            }
            return None;
        }
        proof {
            assert(w@.subrange(start as int, i + 1) =~= w@.subrange(start as int, i as int).push(c));
            lemma_digits_grow(w@.subrange(start as int, i as int), c);
            lemma_digits_nonneg(w@.subrange(start as int, i as int));
        }
        if acc <= limit {
            acc = acc * 10 + (c - 48) as i64;
        }
        i = i + 1;
    }
    proof {
        assert(w@.subrange(start as int, w.len() as int) =~= d);
        assert(all_digits(d)) by {
            assert forall|j: int| 0 <= j < d.len() implies is_digit(#[trigger] d[j]) by {
                assert(d[j] == w@[j + start]);
            }
        }
    }
    if negative {
        if acc > limit {
            return None;
        }
        Some((-acc) as i32)
    } else {
        if acc > limit - 1 {
            return None;
        }
        Some(acc as i32)
    }
}

/// Where reading a DIMACS text stands after some of its lines.
pub enum Stage {
    /// No problem line yet.
    Header,
    /// After the problem line: the variable count, the clause count, and
    /// the clauses read so far.
    Body(int, int, Seq<Set<i32>>),
    /// The text is rejected.
    Failed(DimacsError),
}

pub open spec fn word_c() -> Seq<u8> {
    seq![99u8]
}

pub open spec fn word_p() -> Seq<u8> {
    seq![112u8]
}

pub open spec fn word_cnf() -> Seq<u8> {
    seq![99u8, 110u8, 102u8]
}

/// The values of the first `j` words of a clause line, or the error of the
/// first word that is not an integer or names a variable beyond `nvar`.
pub open spec fn clause_scan(ws: Seq<Seq<u8>>, j: int, nvar: int) -> Result<Seq<i32>, DimacsError>
    decreases j,
{
    if j <= 0 {
        Ok(Seq::empty())
    } else {
        match clause_scan(ws, j - 1, nvar) {
            Err(e) => Err(e),
            Ok(vs) => match int_value(ws[j - 1]) {
                None => Err(DimacsError::UnknownStatement),
                Some(v) => if v != 0 && !(-nvar <= v <= nvar) {
                    Err(DimacsError::VariableOutOfRange)
                } else {
                    Ok(vs.push(v as i32))
                },
            },
        }
    }
}

/// What a problem line `p cnf <nvar> <nclause>` starts.
pub open spec fn problem_line(line: Seq<Seq<u8>>) -> Stage {
    if line.len() != 4 || line[1] != word_cnf() {
        Stage::Failed(DimacsError::InvalidProblemStatement)
    } else {
        match (int_value(line[2]), int_value(line[3])) {
            (Some(nv), Some(nc)) => if nv < 0 || nc < 0 {
                Stage::Failed(DimacsError::InvalidProblemStatement)
            } else if nv == 0 || nc == 0 || nv > MAX_VARS {
                Stage::Failed(DimacsError::InvalidVariableOrClauseCount)
            } else {
                Stage::Body(nv, nc, Seq::empty())
            },
            _ => Stage::Failed(DimacsError::InvalidProblemStatement),
        }
    }
}

/// Reading one more line, given as its words.
pub open spec fn step(st: Stage, line: Seq<Seq<u8>>) -> Stage {
    match st {
        Stage::Failed(e) => Stage::Failed(e),
        Stage::Header => if line.len() == 0 || line[0] == word_c() {
            Stage::Header
        } else if line[0] == word_p() {
            problem_line(line)
        } else if int_value(line[0]) is Some {
            Stage::Failed(DimacsError::NoProblemStatement)
        } else {
            Stage::Failed(DimacsError::UnknownStatement)
        },
        Stage::Body(nv, nc, cls) => if line.len() == 0 || line[0] == word_c() {
            Stage::Body(nv, nc, cls)
        } else if line[0] == word_p() {
            Stage::Failed(DimacsError::DuplicateProblemStatement)
        } else if cls.len() >= nc {
            Stage::Failed(DimacsError::TooManyClauses)
        } else {
            match clause_scan(line, line.len() as int, nv) {
                Err(e) => Stage::Failed(e),
                Ok(vs) => Stage::Body(nv, nc, cls.push(literal_set(vs))),
            }
        },
    }
}

/// The stage after the first `i` lines.
pub open spec fn run(ls: Seq<Seq<Seq<u8>>>, i: int) -> Stage
    decreases i,
{
    if i <= 0 {
        Stage::Header
    } else {
        step(run(ls, i - 1), ls[i - 1])
    }
}

/// A DIMACS text read as its variable count, its clause count and its
/// clauses as sets of literal tokens, in order; or the error that rejects it.
pub open spec fn dimacs(b: Seq<u8>) -> Result<(int, int, Seq<Set<i32>>), DimacsError> {
    let ls = lines_of_words(b);
    match run(ls, ls.len() as int) {
        Stage::Header => Err(DimacsError::NoProblemStatement),
        Stage::Failed(e) => Err(e),
        Stage::Body(nv, nc, cls) => if cls.len() < nc {
            Err(DimacsError::TooFewClauses)
        } else {
            Ok((nv, nc, cls))
        },
    }
}

/// Clauses in order, keyed by their position.
pub open spec fn clause_seq_map(cls: Seq<Set<i32>>) -> Map<i32, Set<i32>> {
    Map::new(|k: i32| 0 <= k < cls.len(), |k: i32| cls[k as int])
}

proof fn lemma_failed_stays(ls: Seq<Seq<Seq<u8>>>, i: int, j: int, e: DimacsError)
    requires
        0 <= i <= j,
        run(ls, i) == Stage::Failed(e),
    ensures
        run(ls, j) == Stage::Failed(e),
    decreases j - i,
{
    if j > i {
        lemma_failed_stays(ls, i, j - 1, e);
    }
}

proof fn lemma_scan_error_stays(ws: Seq<Seq<u8>>, i: int, j: int, nvar: int, e: DimacsError)
    requires
        0 <= i <= j,
        clause_scan(ws, i, nvar) == Err::<Seq<i32>, DimacsError>(e),
    ensures
        clause_scan(ws, j, nvar) == Err::<Seq<i32>, DimacsError>(e),
    decreases j - i,
{
    if j > i {
        lemma_scan_error_stays(ws, i, j - 1, nvar, e);
    }
}

fn is_letter_word(w: &Vec<u8>, c: u8) -> (b: bool)
    ensures
        b == (w@ == seq![c]),
{
    let r = w.len() == 1 && w[0] == c;
    proof {
        if w@.len() == 1 && w@[0] == c {
            assert(w@ =~= seq![c]);
        }
    }
    r
}

fn is_cnf_word(w: &Vec<u8>) -> (b: bool)
    ensures
        b == (w@ == word_cnf()),
{
    let r = w.len() == 3 && w[0] == 99 && w[1] == 110 && w[2] == 102;
    proof {
        if r {
            assert(w@ =~= word_cnf());
        }
    }
    r
}

/// The values of the words of a clause line, or the error that rejects it.
fn clause_values(line: &Vec<Vec<u8>>, nvar: i32) -> (r: Result<Vec<i32>, DimacsError>)
    requires
        0 <= nvar <= MAX_VARS,
    ensures
        r matches Ok(vs) ==> clause_scan(words_view(line@), line.len() as int, nvar as int) == Ok::<
            Seq<i32>,
            DimacsError,
        >(vs@),
        r matches Err(e) ==> clause_scan(words_view(line@), line.len() as int, nvar as int) == Err::<
            Seq<i32>,
            DimacsError,
        >(e),
{
    let ghost ws = words_view(line@);
    let mut vs: Vec<i32> = Vec::new();
    let mut j: usize = 0;
    while j < line.len()
        invariant
            0 <= j <= line.len(),
            0 <= nvar <= MAX_VARS,
            ws == words_view(line@),
            clause_scan(ws, j as int, nvar as int) == Ok::<Seq<i32>, DimacsError>(vs@),
        decreases line.len() - j,
    {
        assert(ws[j as int] == line@[j as int]@);
        match parse_int(&line[j]) {
            None => {
                proof {
                    lemma_scan_error_stays(
                        ws,
                        j + 1,
                        line.len() as int,
                        nvar as int,
                        DimacsError::UnknownStatement,
                    );
                }
                return Err(DimacsError::UnknownStatement);
            },
            Some(v) => {
                if v != 0 && (v > nvar || v < -nvar) {
                    proof {
                        lemma_scan_error_stays(
                            ws,
                            j + 1,
                            line.len() as int,
                            nvar as int,
                            DimacsError::VariableOutOfRange,
                        );
                    }
                    return Err(DimacsError::VariableOutOfRange);
                }
                vs.push(v);
            },
        }
        j = j + 1;
    }
    Ok(vs)
}

/// Reads a DIMACS CNF text into a clause database; the clause on the k-th
/// clause line gets the id k - 1. Fails with the error that `dimacs`
/// gives: no problem line before the clauses, a malformed problem line, a
/// zero count, a second problem line, more or fewer clause lines than
/// declared, a variable beyond the declared count, or a line that is none
/// of these.
pub fn parse_dimacs(input: &[u8]) -> (r: Result<CNF, DimacsError>)
    ensures
        match (r, dimacs(input@)) {
            (Ok(db), Ok((nv, nc, cls))) => {
                &&& db.wf()
                &&& db.nvar == nv
                &&& db.nclause == nc
                &&& db.clause_map() == clause_seq_map(cls)
            },
            (Err(e), Err(e2)) => e == e2,
            _ => false,
        },
{
    let ls = tokenize(input);
    let ghost lv = lines_view(ls@);
    let mut header = false;
    let mut cnf = CNF::new(0, 0);
    let ghost mut cls: Seq<Set<i32>> = Seq::empty();
    proof {
        assert(cnf.clause_map() =~= clause_seq_map(cls));
    }
    let mut i: usize = 0;
    while i < ls.len()
        invariant
            0 <= i <= ls.len(),
            lv == lines_view(ls@),
            lv == lines_of_words(input@),
            run(lv, i as int) == if header {
                Stage::Body(cnf.nvar as int, cnf.nclause as int, cls)
            } else {
                Stage::Header
            },
            cnf.wf(),
            cnf.clause_map() == clause_seq_map(cls),
            cnf.next_id == cls.len(),
            cnf.clause_map().len() == cls.len(),
            cls.len() <= cnf.nclause,
        decreases ls.len() - i,
    {
        let line = &ls[i];
        let ghost lw = lv[i as int];
        assert(lw == words_view(line@));
        proof {
            if line.len() > 0 {
                assert(lw[0] == line@[0]@);
            }
        }
        if line.len() == 0 || is_letter_word(&line[0], 99) {
        } else if is_letter_word(&line[0], 112) {
            if header {
                proof {
                    lemma_failed_stays(lv, i + 1, lv.len() as int, DimacsError::DuplicateProblemStatement);
                }
                return Err(DimacsError::DuplicateProblemStatement);
            }
            let ghost st = problem_line(lw);
            let well_formed = line.len() == 4 && is_cnf_word(&line[1]);
            if !well_formed {
                proof {
                    lemma_failed_stays(lv, i + 1, lv.len() as int, DimacsError::InvalidProblemStatement);
                }
                return Err(DimacsError::InvalidProblemStatement);
            }
            assert(lw[1] == line@[1]@ && lw[2] == line@[2]@ && lw[3] == line@[3]@);
            let nv = parse_int(&line[2]);
            let nc = parse_int(&line[3]);
            match (nv, nc) {
                (Some(nv), Some(nc)) => {
                    if nv < 0 || nc < 0 {
                        proof {
                            lemma_failed_stays(lv, i + 1, lv.len() as int, DimacsError::InvalidProblemStatement);
                        }
                        return Err(DimacsError::InvalidProblemStatement);
                    }
                    if nv == 0 || nc == 0 || nv > MAX_VARS {
                        proof {
                            lemma_failed_stays(lv, i + 1, lv.len() as int, DimacsError::InvalidVariableOrClauseCount);
                        }
                        return Err(DimacsError::InvalidVariableOrClauseCount);
                    }
                    header = true;
                    cnf = CNF::new(nv, nc);
                    proof {
                        cls = Seq::empty();
                        assert(cnf.clause_map() =~= clause_seq_map(cls));
                    }
                },
                _ => {
                    proof {
                        lemma_failed_stays(lv, i + 1, lv.len() as int, DimacsError::InvalidProblemStatement);
                    }
                    return Err(DimacsError::InvalidProblemStatement);
                },
            }
        } else if !header {
            let e = match parse_int(&line[0]) {
                Some(_) => DimacsError::NoProblemStatement,
                None => DimacsError::UnknownStatement,
            };
            proof {
                lemma_failed_stays(lv, i + 1, lv.len() as int, e);
            }
            return Err(e);
        } else {
            if cnf.next_id >= cnf.nclause {
                proof {
                    lemma_failed_stays(lv, i + 1, lv.len() as int, DimacsError::TooManyClauses);
                }
                return Err(DimacsError::TooManyClauses);
            }
            let vs = match clause_values(line, cnf.nvar) {
                Ok(vs) => vs,
                Err(e) => {
                    proof {
                        lemma_failed_stays(lv, i + 1, lv.len() as int, e);
                    }
                    return Err(e);
                },
            };
            let hs = match clause_literals(&vs, cnf.nvar) {
                Ok(hs) => hs,
                Err(e) => {
                    proof {
                        assert(false) by {
                            assert forall|j: int| 0 <= j < vs@.len() implies vs@[j] == 0 || crate::literal::signed_in_range(vs@[j] as int, cnf.nvar as int) by {
                                lemma_scan_values(lw, line.len() as int, cnf.nvar as int, j);
                            }
                        }
                    }
                    return Err(e);
                },
            };
            let ghost before = cnf;
            cnf.insert_clause(hs);
            proof {
                cls = cls.push(literal_set(vs@));
                assert(cnf.clause_map() =~= clause_seq_map(cls));
                lemma_clause_count(cnf, before);
            }
        }
        i = i + 1;
    }
    if !header {
        return Err(DimacsError::NoProblemStatement);
    }
    if cnf.next_id < cnf.nclause {
        return Err(DimacsError::TooFewClauses);
    }
    Ok(cnf)
}

proof fn lemma_scan_values(ws: Seq<Seq<u8>>, j: int, nvar: int, k: int)
    requires
        clause_scan(ws, j, nvar) is Ok,
        0 <= k < clause_scan(ws, j, nvar)->Ok_0.len(),
    ensures
        ({
            let v = clause_scan(ws, j, nvar)->Ok_0[k];
            v == 0 || crate::literal::signed_in_range(v as int, nvar)
        }),
    decreases j,
{
    if j > 0 {
        let prev = clause_scan(ws, j - 1, nvar);
        if k < prev->Ok_0.len() {
            lemma_scan_values(ws, j - 1, nvar, k);
        }
    }
}

proof fn lemma_clause_count(after: CNF, before: CNF)
    requires
        before.wf(),
        after.clause_map() == before.clause_map().insert(before.next_id, after.clause_map()[before.next_id]),
        !before.clause_map().contains_key(before.next_id),
    ensures
        after.clause_map().len() == before.clause_map().len() + 1,
{
    crate::cnf::lemma_clause_map_finite(before);
}

} // verus!
