//! Template evaluation: walking a template against a capture source, with
//! the exactly-one-branch resolution of alternation groups.

use vstd::prelude::*;
use crate::ast::{Part, PartV, Replacement, parts_view, part_view, template_view, templates_view,
    lemma_parts_view, lemma_templates_view};
use crate::capture::Capture;

verus! {

/// An evaluation or parse failure.
///
/// `RepetitionNotFoundId`, `RepetitionNotFoundString` and `NoGroupMatched`
/// are soft: tolerated while a branch races inside an alternation group.
/// `Parse` and `GroupConflict` are hard and abort the whole evaluation.
#[derive(Debug)]
pub enum Error {
    /// The template text could not be parsed; carries the failing byte offset.
    Parse(usize),
    /// A positional back-reference did not participate in the match.
    RepetitionNotFoundId(usize),
    /// A named back-reference did not participate in the match.
    RepetitionNotFoundString(Vec<u8>),
    /// Two branches of an alternation group both evaluated; carries both
    /// competing results.
    GroupConflict(Vec<u8>, Vec<u8>),
    /// No branch of an alternation group evaluated; carries the soft
    /// failures of all branches, in order.
    NoGroupMatched(Vec<Error>),
}

/// Mathematical view of an [`Error`].
pub enum ErrV {
    Parse(int),
    RefId(int),
    RefName(Seq<u8>),
    Conflict(Seq<u8>, Seq<u8>),
    NoMatch(Seq<ErrV>),
}

pub open spec fn err_view(e: Error) -> ErrV
    decreases e,
{
    match e {
        Error::Parse(p) => ErrV::Parse(p as int),
        Error::RepetitionNotFoundId(i) => ErrV::RefId(i as int),
        Error::RepetitionNotFoundString(n) => ErrV::RefName(n@),
        Error::GroupConflict(a, b) => ErrV::Conflict(a@, b@),
        Error::NoGroupMatched(es) => ErrV::NoMatch(errs_view(es@)),
    }
}

pub open spec fn errs_view(es: Seq<Error>) -> Seq<ErrV>
    decreases es,
{
    if es.len() == 0 {
        Seq::empty()
    } else {
        errs_view(es.drop_last()).push(err_view(es.last()))
    }
}

impl View for Error {
    type V = ErrV;

    open spec fn view(&self) -> ErrV {
        err_view(*self)
    }
}

/// Whether a failure is tolerated while racing inside an alternation group.
pub open spec fn is_soft(e: ErrV) -> bool {
    match e {
        ErrV::RefId(_) => true,
        ErrV::RefName(_) => true,
        ErrV::NoMatch(_) => true,
        ErrV::Parse(_) => false,
        ErrV::Conflict(_, _) => false,
    }
}

impl Error {
    /// Whether this failure may lose an alternation race without aborting
    /// the whole evaluation.
    pub fn tolerate_group_fail(&self) -> (r: bool)
        ensures
            r == is_soft(self@),
    {
        match self {
            Error::RepetitionNotFoundId(_) => true,
            Error::RepetitionNotFoundString(_) => true,
            Error::NoGroupMatched(_) => true,
            Error::Parse(_) => false,
            Error::GroupConflict(_, _) => false,
        }
    }
}

/// What a sequence of template parts evaluates to: the concatenation of its
/// parts' bytes, or the first failure.
pub open spec fn eval_parts<C: Capture>(ps: Seq<PartV>, c: &C) -> Result<Seq<u8>, ErrV>
    decreases ps,
{
    if ps.len() == 0 {
        Ok(Seq::empty())
    } else {
        match eval_parts(ps.drop_last(), c) {
            Err(e) => Err(e),
            Ok(pre) => match eval_part(ps.last(), c) {
                Ok(b) => Ok(pre + b),
                Err(e) => Err(e),
            },
        }
    }
}

/// What one template part evaluates to.
pub open spec fn eval_part<C: Capture>(p: PartV, c: &C) -> Result<Seq<u8>, ErrV>
    decreases p,
{
    match p {
        PartV::Byte(b) => Ok(seq![b]),
        PartV::RepId(i) => match c.spec_get(i) {
            Some(v) => Ok(v),
            None => Err(ErrV::RefId(i)),
        },
        PartV::RepName(n) => match c.spec_name(n) {
            Some(v) => Ok(v),
            None => Err(ErrV::RefName(n)),
        },
        PartV::Group(gs) => eval_group(gs, c, None, Seq::empty()),
    }
}

/// Alternation resolution, walking the branches in order. `matched` carries
/// the bytes of the one successful branch seen so far, `softs` the soft
/// failures seen so far. A second success is an immediate conflict; a hard
/// failure aborts immediately; at the end, exactly one success must remain.
pub open spec fn eval_group<C: Capture>(
    branches: Seq<Seq<PartV>>,
    c: &C,
    matched: Option<Seq<u8>>,
    softs: Seq<ErrV>,
) -> Result<Seq<u8>, ErrV>
    decreases branches,
{
    if branches.len() == 0 {
        match matched {
            Some(b) => Ok(b),
            None => Err(ErrV::NoMatch(softs)),
        }
    } else {
        match eval_parts(branches[0], c) {
            Ok(b) => match matched {
                Some(m) => Err(ErrV::Conflict(m, b)),
                None => eval_group(branches.drop_first(), c, Some(b), softs),
            },
            Err(e) => if is_soft(e) {
                eval_group(branches.drop_first(), c, matched, softs.push(e))
            } else {
                Err(e)
            },
        }
    }
}

pub open spec fn opt_bytes_view(m: Option<Vec<u8>>) -> Option<Seq<u8>> {
    match m {
        Some(v) => Some(v@),
        None => None,
    }
}

/// A failing part makes the whole part sequence fail with that error,
/// provided everything before it succeeded.
proof fn lemma_eval_parts_err<C: Capture>(ps: Seq<PartV>, c: &C, i: int, e: ErrV)
    requires
        0 <= i < ps.len(),
        eval_parts(ps.subrange(0, i), c) is Ok,
        eval_part(ps[i], c) == Err::<Seq<u8>, ErrV>(e),
    ensures
        eval_parts(ps, c) == Err::<Seq<u8>, ErrV>(e),
    decreases ps.len(),
{
    if i == ps.len() - 1 {
        assert(ps.drop_last() =~= ps.subrange(0, i));
    } else {
        assert(ps.drop_last().subrange(0, i) =~= ps.subrange(0, i));
        lemma_eval_parts_err(ps.drop_last(), c, i, e);
    }
}

impl Replacement {
    /// Evaluate this template against a capture source, yielding the
    /// replacement bytes or the first failure.
    pub fn build<C: Capture>(&self, cap: &C) -> (r: Result<Vec<u8>, Error>)
        ensures
            match r {
                Ok(v) => eval_parts(self@, cap) == Ok::<Seq<u8>, ErrV>(v@),
                Err(e) => eval_parts(self@, cap) == Err::<Seq<u8>, ErrV>(e@),
            },
    {
        build_parts(&self.0, cap)
    }
}

fn build_parts<C: Capture>(parts: &Vec<Part>, cap: &C) -> (r: Result<Vec<u8>, Error>)
    ensures
        match r {
            Ok(v) => eval_parts(parts_view(parts@), cap) == Ok::<Seq<u8>, ErrV>(v@),
            Err(e) => eval_parts(parts_view(parts@), cap) == Err::<Seq<u8>, ErrV>(e@),
        },
    decreases parts,
{
    let ghost pv = parts_view(parts@);
    proof {
        lemma_parts_view(parts@);
    }
    let mut out: Vec<u8> = Vec::new();
    let n = parts.len();
    assert(pv.subrange(0, 0) =~= Seq::empty());
    for i in 0..n
        invariant
            n == parts@.len(),
            i <= n,
            pv == parts_view(parts@),
            pv.len() == n,
            forall|k: int| 0 <= k < n ==> pv[k] == part_view(parts@[k]),
            eval_parts(pv.subrange(0, i as int), cap) == Ok::<Seq<u8>, ErrV>(out@),
        decreases n - i,
    {
        let ghost pre = out@;
        match &parts[i] {
            Part::Byte(b) => {
                out.push(*b);
                assert(pre + seq![*b] =~= out@);
            },
            Part::RepId(id) => {
                match cap.get(*id) {
                    Some(mut v) => {
                        let ghost vv = v@;
                        out.append(&mut v);
                        assert(pre + vv =~= out@);
                    },
                    None => {
                        let e = Error::RepetitionNotFoundId(*id);
                        proof {
                            lemma_eval_parts_err(pv, cap, i as int, e@);
                        }
                        return Err(e);
                    },
                }
            },
            Part::RepName(nm) => {
                match cap.name(nm.as_slice()) {
                    Some(mut v) => {
                        let ghost vv = v@;
                        out.append(&mut v);
                        assert(pre + vv =~= out@);
                    },
                    None => {
                        let e = Error::RepetitionNotFoundString(copy_vec(nm));
                        proof {
                            lemma_eval_parts_err(pv, cap, i as int, e@);
                        }
                        return Err(e);
                    },
                }
            },
            Part::Group(gs) => {
                match build_group(gs, cap) {
                    Ok(mut v) => {
                        let ghost vv = v@;
                        out.append(&mut v);
                        assert(pre + vv =~= out@);
                    },
                    Err(e) => {
                        proof {
                            lemma_eval_parts_err(pv, cap, i as int, e@);
                        }
                        return Err(e);
                    },
                }
            },
        }
        proof {
            assert(pv.subrange(0, i + 1).drop_last() =~= pv.subrange(0, i as int));
            assert(pv.subrange(0, i + 1).last() == pv[i as int]);
        }
    }
    proof {
        assert(pv.subrange(0, n as int) =~= pv);
    }
    Ok(out)
}

fn copy_vec(v: &Vec<u8>) -> (r: Vec<u8>)
    ensures
        r@ == v@,
{
    let mut out: Vec<u8> = Vec::new();
    let n = v.len();
    for i in 0..n
        invariant
            n == v@.len(),
            out@ =~= v@.subrange(0, i as int),
    {
        out.push(v[i]);
    }
    assert(v@.subrange(0, n as int) =~= v@);
    out
}

fn build_group<C: Capture>(gs: &Vec<Replacement>, cap: &C) -> (r: Result<Vec<u8>, Error>)
    ensures
        match r {
            Ok(v) => eval_group(templates_view(gs@), cap, None, Seq::empty()) == Ok::<
                Seq<u8>,
                ErrV,
            >(v@),
            Err(e) => eval_group(templates_view(gs@), cap, None, Seq::empty()) == Err::<
                Seq<u8>,
                ErrV,
            >(e@),
        },
    decreases gs,
{
    let ghost bs = templates_view(gs@);
    proof {
        lemma_templates_view(gs@);
    }
    let mut matched: Option<Vec<u8>> = None;
    let mut errors: Vec<Error> = Vec::new();
    let n = gs.len();
    assert(bs.subrange(0, 0) =~= Seq::empty());
    assert(bs.subrange(0 as int, n as int) =~= bs);
    for j in 0..n
        invariant
            n == gs@.len(),
            j <= n,
            bs == templates_view(gs@),
            bs.len() == n,
            forall|k: int| 0 <= k < n ==> bs[k] == template_view(gs@[k]),
            eval_group(bs, cap, None, Seq::empty()) == eval_group(
                bs.subrange(j as int, n as int),
                cap,
                opt_bytes_view(matched),
                errs_view(errors@),
            ),
        decreases n - j,
    {
        let ghost suffix = bs.subrange(j as int, n as int);
        proof {
            assert(suffix[0] == bs[j as int]);
            assert(suffix.drop_first() =~= bs.subrange(j + 1, n as int));
        }
        match build_parts(&gs[j].0, cap) {
            Ok(b) => {
                match matched {
                    Some(prev) => {
                        return Err(Error::GroupConflict(prev, b));
                    },
                    None => {
                        matched = Some(b);
                    },
                }
            },
            Err(e) => {
                if e.tolerate_group_fail() {
                    let ghost pre = errors@;
                    errors.push(e);
                    proof {
                        assert(errors@.drop_last() =~= pre);
                        assert(errs_view(errors@) =~= errs_view(pre).push(
                            errs_view(errors@).last(),
                        ));
                    }
                } else {
                    return Err(e);
                }
            },
        }
    }
    proof {
        assert(bs.subrange(n as int, n as int) =~= Seq::<Seq<PartV>>::empty());
    }
    match matched {
        Some(v) => Ok(v),
        None => Err(Error::NoGroupMatched(errors)),
    }
}

/// Evaluation depends on the capture source only through what its lookups
/// answer: two sources that answer every positional and named lookup alike
/// evaluate every template alike.
pub proof fn lemma_eval_congruent<C1: Capture, C2: Capture>(t: Seq<PartV>, c1: &C1, c2: &C2)
    requires
        forall|i: int| c1.spec_get(i) == c2.spec_get(i),
        forall|n: Seq<u8>| c1.spec_name(n) == c2.spec_name(n),
    ensures
        eval_parts(t, c1) == eval_parts(t, c2),
    decreases t,
{
    if t.len() > 0 {
        lemma_eval_congruent(t.drop_last(), c1, c2);
        lemma_eval_part_congruent(t.last(), c1, c2);
    }
}

proof fn lemma_eval_part_congruent<C1: Capture, C2: Capture>(p: PartV, c1: &C1, c2: &C2)
    requires
        forall|i: int| c1.spec_get(i) == c2.spec_get(i),
        forall|n: Seq<u8>| c1.spec_name(n) == c2.spec_name(n),
    ensures
        eval_part(p, c1) == eval_part(p, c2),
    decreases p,
{
    match p {
        PartV::Group(gs) => {
            lemma_eval_group_congruent(gs, c1, c2, None, Seq::empty());
        },
        _ => {
        },
    }
}

proof fn lemma_eval_group_congruent<C1: Capture, C2: Capture>(
    branches: Seq<Seq<PartV>>,
    c1: &C1,
    c2: &C2,
    matched: Option<Seq<u8>>,
    softs: Seq<ErrV>,
)
    requires
        forall|i: int| c1.spec_get(i) == c2.spec_get(i),
        forall|n: Seq<u8>| c1.spec_name(n) == c2.spec_name(n),
    ensures
        eval_group(branches, c1, matched, softs) == eval_group(branches, c2, matched, softs),
    decreases branches,
{
    if branches.len() > 0 {
        lemma_eval_congruent(branches[0], c1, c2);
        match eval_parts(branches[0], c1) {
            Ok(b) => {
                if matched is None {
                    lemma_eval_group_congruent(branches.drop_first(), c1, c2, Some(b), softs);
                }
            },
            Err(e) => {
                if is_soft(e) {
                    lemma_eval_group_congruent(
                        branches.drop_first(),
                        c1,
                        c2,
                        matched,
                        softs.push(e),
                    );
                }
            },
        }
    }
}

/// Evaluation is a function of the template and the capture source alone:
/// two evaluations of one template against one source yield one result.
pub proof fn lemma_eval_idempotent<C: Capture>(
    t: Seq<PartV>,
    c: &C,
    r1: Result<Seq<u8>, ErrV>,
    r2: Result<Seq<u8>, ErrV>,
)
    requires
        r1 == eval_parts(t, c),
        r2 == eval_parts(t, c),
    ensures
        r1 == r2,
{
}

/// The error of a failed evaluation (immaterial on success).
pub open spec fn err_of(r: Result<Seq<u8>, ErrV>) -> ErrV {
    match r {
        Err(e) => e,
        Ok(_) => ErrV::RefId(0),
    }
}

/// The soft failures of a sequence of branches, in order.
pub open spec fn soft_errs<C: Capture>(branches: Seq<Seq<PartV>>, c: &C) -> Seq<ErrV> {
    Seq::new(branches.len(), |j: int| err_of(eval_parts(branches[j], c)))
}

proof fn lemma_group_all_soft_with_match<C: Capture>(
    branches: Seq<Seq<PartV>>,
    c: &C,
    b: Seq<u8>,
    softs: Seq<ErrV>,
)
    requires
        forall|j: int|
            0 <= j < branches.len() ==> (#[trigger] eval_parts(branches[j], c) matches Err(e)
                && is_soft(e)),
    ensures
        eval_group(branches, c, Some(b), softs) == Ok::<Seq<u8>, ErrV>(b),
    decreases branches.len(),
{
    if branches.len() > 0 {
        assert(eval_parts(branches[0], c) matches Err(e) && is_soft(e));
        lemma_group_all_soft_with_match(
            branches.drop_first(),
            c,
            b,
            softs.push(err_of(eval_parts(branches[0], c))),
        );
    }
}

proof fn lemma_group_one_aux<C: Capture>(
    branches: Seq<Seq<PartV>>,
    c: &C,
    i: int,
    b: Seq<u8>,
    softs: Seq<ErrV>,
)
    requires
        0 <= i < branches.len(),
        eval_parts(branches[i], c) == Ok::<Seq<u8>, ErrV>(b),
        forall|j: int|
            0 <= j < branches.len() && j != i ==> (#[trigger] eval_parts(branches[j], c) matches Err(e)
                && is_soft(e)),
    ensures
        eval_group(branches, c, None, softs) == Ok::<Seq<u8>, ErrV>(b),
    decreases branches.len(),
{
    if i == 0 {
        lemma_group_all_soft_with_match(branches.drop_first(), c, b, softs);
    } else {
        assert(eval_parts(branches[0], c) matches Err(e) && is_soft(e));
        lemma_group_one_aux(
            branches.drop_first(),
            c,
            i - 1,
            b,
            softs.push(err_of(eval_parts(branches[0], c))),
        );
    }
}

/// Alternation exclusivity, the successful case: if exactly one branch
/// evaluates successfully and every other branch fails softly, the group
/// evaluates to the successful branch's bytes.
pub proof fn lemma_group_exactly_one<C: Capture>(
    branches: Seq<Seq<PartV>>,
    c: &C,
    i: int,
    b: Seq<u8>,
)
    requires
        0 <= i < branches.len(),
        eval_parts(branches[i], c) == Ok::<Seq<u8>, ErrV>(b),
        forall|j: int|
            0 <= j < branches.len() && j != i ==> (#[trigger] eval_parts(branches[j], c) matches Err(e)
                && is_soft(e)),
    ensures
        eval_group(branches, c, None, Seq::empty()) == Ok::<Seq<u8>, ErrV>(b),
{
    lemma_group_one_aux(branches, c, i, b, Seq::empty());
}

proof fn lemma_group_none_aux<C: Capture>(branches: Seq<Seq<PartV>>, c: &C, softs: Seq<ErrV>)
    requires
        forall|j: int|
            0 <= j < branches.len() ==> (#[trigger] eval_parts(branches[j], c) matches Err(e)
                && is_soft(e)),
    ensures
        eval_group(branches, c, None, softs) == Err::<Seq<u8>, ErrV>(
            ErrV::NoMatch(softs + soft_errs(branches, c)),
        ),
    decreases branches.len(),
{
    if branches.len() == 0 {
        assert(softs + soft_errs(branches, c) =~= softs);
    } else {
        assert(eval_parts(branches[0], c) matches Err(e) && is_soft(e));
        let e0 = err_of(eval_parts(branches[0], c));
        lemma_group_none_aux(branches.drop_first(), c, softs.push(e0));
        assert(softs.push(e0) + soft_errs(branches.drop_first(), c) =~= softs + soft_errs(
            branches,
            c,
        ));
    }
}

/// Alternation exclusivity, the empty case: if every branch fails softly,
/// the group fails with the branches' soft failures, in order.
pub proof fn lemma_group_none<C: Capture>(branches: Seq<Seq<PartV>>, c: &C)
    requires
        forall|j: int|
            0 <= j < branches.len() ==> (#[trigger] eval_parts(branches[j], c) matches Err(e)
                && is_soft(e)),
    ensures
        eval_group(branches, c, None, Seq::empty()) == Err::<Seq<u8>, ErrV>(
            ErrV::NoMatch(soft_errs(branches, c)),
        ),
{
    lemma_group_none_aux(branches, c, Seq::empty());
    assert(Seq::<ErrV>::empty() + soft_errs(branches, c) =~= soft_errs(branches, c));
}

proof fn lemma_group_conflict_with_match<C: Capture>(
    branches: Seq<Seq<PartV>>,
    c: &C,
    bi: Seq<u8>,
    j: int,
    bj: Seq<u8>,
    softs: Seq<ErrV>,
)
    requires
        0 <= j < branches.len(),
        eval_parts(branches[j], c) == Ok::<Seq<u8>, ErrV>(bj),
        forall|k: int|
            0 <= k < j ==> (#[trigger] eval_parts(branches[k], c) matches Err(e)
                && is_soft(e)),
    ensures
        eval_group(branches, c, Some(bi), softs) == Err::<Seq<u8>, ErrV>(ErrV::Conflict(bi, bj)),
    decreases branches.len(),
{
    if j > 0 {
        assert(eval_parts(branches[0], c) matches Err(e) && is_soft(e));
        lemma_group_conflict_with_match(
            branches.drop_first(),
            c,
            bi,
            j - 1,
            bj,
            softs.push(err_of(eval_parts(branches[0], c))),
        );
    }
}

proof fn lemma_group_conflict_aux<C: Capture>(
    branches: Seq<Seq<PartV>>,
    c: &C,
    i: int,
    j: int,
    bi: Seq<u8>,
    bj: Seq<u8>,
    softs: Seq<ErrV>,
)
    requires
        0 <= i < j < branches.len(),
        eval_parts(branches[i], c) == Ok::<Seq<u8>, ErrV>(bi),
        eval_parts(branches[j], c) == Ok::<Seq<u8>, ErrV>(bj),
        forall|k: int|
            0 <= k < j && k != i ==> (#[trigger] eval_parts(branches[k], c) matches Err(e)
                && is_soft(e)),
    ensures
        eval_group(branches, c, None, softs) == Err::<Seq<u8>, ErrV>(ErrV::Conflict(bi, bj)),
    decreases branches.len(),
{
    if i == 0 {
        lemma_group_conflict_with_match(branches.drop_first(), c, bi, j - 1, bj, softs);
    } else {
        assert(eval_parts(branches[0], c) matches Err(e) && is_soft(e));
        lemma_group_conflict_aux(
            branches.drop_first(),
            c,
            i - 1,
            j - 1,
            bi,
            bj,
            softs.push(err_of(eval_parts(branches[0], c))),
        );
    }
}

/// Alternation exclusivity, the ambiguous case: if two branches evaluate
/// successfully and every branch before the second of them fails softly, the
/// group fails with both competing results.
pub proof fn lemma_group_conflict<C: Capture>(
    branches: Seq<Seq<PartV>>,
    c: &C,
    i: int,
    j: int,
    bi: Seq<u8>,
    bj: Seq<u8>,
)
    requires
        0 <= i < j < branches.len(),
        eval_parts(branches[i], c) == Ok::<Seq<u8>, ErrV>(bi),
        eval_parts(branches[j], c) == Ok::<Seq<u8>, ErrV>(bj),
        forall|k: int|
            0 <= k < j && k != i ==> (#[trigger] eval_parts(branches[k], c) matches Err(e)
                && is_soft(e)),
    ensures
        eval_group(branches, c, None, Seq::empty()) == Err::<Seq<u8>, ErrV>(
            ErrV::Conflict(bi, bj),
        ),
{
    lemma_group_conflict_aux(branches, c, i, j, bi, bj, Seq::empty());
}

} // verus!
