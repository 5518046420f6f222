//! The replacement engine: find the unique match of a pattern in a buffer,
//! evaluate a template against its captures, and substitute the result in
//! place, byte length preserved — plus the driver that applies an ordered
//! rule list to one shared buffer.

use vstd::prelude::*;
use crate::ast::{PartV, Replacement};
use crate::capture::{groups_view, names_view, Capture, CaptureList};
use crate::eval::{self, err_view, eval_parts, opt_bytes_view, ErrV};
use crate::parse::{parse_template, spec_parse};

verus! {

// The regex crate's behaviour is deterministic in the pattern and haystack
// bytes, so its results bear names: whether a pattern compiles, the
// leftmost match at or after an offset, a match's capture groups, the
// groups' names and their count. The trusted items below apply them; the
// verified code speaks only of the names.
pub uninterp spec fn re_compiles(pat: Seq<u8>) -> bool;

pub uninterp spec fn re_find(pat: Seq<u8>, hay: Seq<u8>, from_off: int) -> Option<(int, int)>;

pub uninterp spec fn re_groups(pat: Seq<u8>, hay: Seq<u8>) -> Seq<Option<Seq<u8>>>;

pub uninterp spec fn re_names(pat: Seq<u8>) -> Seq<Option<Seq<u8>>>;

pub uninterp spec fn re_group_count(pat: Seq<u8>) -> int;

/// Relies on regex::bytes::Regex: a compiled search pattern, opaque here.
#[verifier::external_type_specification]
#[verifier::external_body]
pub struct ExRegex(regex::bytes::Regex);

/// Relies on regex::bytes::Captures: one match's capture groups, opaque
/// here; read through the group wrappers below.
#[verifier::external_type_specification]
#[verifier::external_body]
pub struct ExCaptures<'h>(regex::bytes::Captures<'h>);

/// A compiled search pattern together with the pattern text it was
/// compiled from, so that contracts can speak of the text.
pub struct Pattern {
    inner: regex::bytes::Regex,
    text: Ghost<Seq<u8>>,
}

impl Pattern {
    /// The pattern text this value was compiled from.
    pub closed spec fn pat(&self) -> Seq<u8> {
        self.text@
    }

    /// Compile a search pattern.
    pub fn new(pattern: &[u8]) -> (r: Result<Pattern, Error>)
        ensures
            r is Ok <==> re_compiles(pattern@),
            (r matches Ok(p) ==> p.pat() == pattern@),
            (r matches Err(e) ==> e matches Error::Regex(_)),
    {
        match regex_new(pattern) {
            Ok(re) => Ok(Pattern { inner: re, text: Ghost(pattern@) }),
            Err(m) => Err(Error::Regex(m)),
        }
    }
}

/// One match's capture groups, tied to the pattern and haystack that
/// produced them.
pub struct MatchCaptures<'h> {
    caps: regex::bytes::Captures<'h>,
    pattern: Ghost<Seq<u8>>,
    haystack: Ghost<Seq<u8>>,
}

impl<'h> MatchCaptures<'h> {
    pub closed spec fn pat(&self) -> Seq<u8> {
        self.pattern@
    }

    pub closed spec fn hay(&self) -> Seq<u8> {
        self.haystack@
    }
}

/// A failure of one replacement, or of a whole session.
#[derive(Debug)]
pub enum Error {
    /// The search pattern did not compile; carries the description.
    Regex(String),
    /// Parsing or evaluating the template failed.
    Replace(eval::Error),
    /// The pattern matched nowhere in the buffer.
    SourcePatternNotFound,
    /// The pattern matched more than once in the buffer.
    MultipleSourcesFound,
    /// The matched span and the evaluated replacement differ in length;
    /// carries both lengths.
    MismatchedLen(usize, usize),
    /// At least one rule of a tolerant session failed.
    OneOrMoreRulesReturnedErrors,
}

/// What one successful replacement did: the matched span's offsets, the
/// bytes it held, and the bytes written over them.
#[derive(Debug)]
pub struct Report {
    pub start: usize,
    pub end: usize,
    pub before: Vec<u8>,
    pub after: Vec<u8>,
}

/// Relies on regex::bytes::Regex::new: compiles a pattern, or reports why
/// it cannot; pattern text that is not valid UTF-8 is reported the same
/// way. Compilation is a function of the pattern bytes alone.
#[verifier::external_body]
fn regex_new(pattern: &[u8]) -> (r: Result<regex::bytes::Regex, String>)
    ensures
        r is Ok <==> re_compiles(pattern@),
{
    match core::str::from_utf8(pattern) {
        Ok(p) => regex::bytes::Regex::new(p).map_err(|e| e.to_string()),
        Err(e) => Err(e.to_string()),
    }
}

/// Relies on regex::bytes::Regex::captures: the leftmost match (the same
/// match a search from the start finds — group 0 is documented as the
/// whole match), with its capture groups. The match's range lies within
/// the haystack; group 0 holds the matched bytes; the group count is the
/// pattern's.
#[verifier::external_body]
fn regex_captures<'h>(re: &Pattern, hay: &'h Vec<u8>) -> (r: Option<
    (usize, usize, regex::bytes::Captures<'h>),
>)
    ensures
        r is Some <==> re_find(re.pat(), hay@, 0) is Some,
        (r matches Some(t) ==> {
            &&& re_find(re.pat(), hay@, 0) == Some((t.0 as int, t.1 as int))
            &&& t.0 <= t.1 <= hay@.len()
            &&& re_groups(re.pat(), hay@).len() == re_group_count(re.pat())
            &&& re_groups(re.pat(), hay@)[0] == Some(hay@.subrange(t.0 as int, t.1 as int))
        }),
{
    re.inner.captures(hay).map(|c| {
        let m = c.get(0).expect("group 0 is the whole match");
        (m.start(), m.end(), c)
    })
}

/// Relies on regex::bytes::Regex::find_at: the leftmost match at or after
/// the given offset (which must not exceed the haystack's length; past it
/// the call panics); a match's range lies between the offset and the end.
#[verifier::external_body]
fn regex_find_from(re: &Pattern, hay: &Vec<u8>, from_off: usize) -> (r: Option<(usize, usize)>)
    requires
        from_off <= hay@.len(),
    ensures
        r is Some <==> re_find(re.pat(), hay@, from_off as int) is Some,
        (r matches Some(p) ==> re_find(re.pat(), hay@, from_off as int) == Some(
            (p.0 as int, p.1 as int),
        ) && from_off <= p.0 <= p.1 <= hay@.len()),
{
    re.inner.find_at(hay, from_off).map(|m| (m.start(), m.end()))
}

/// Relies on regex::bytes::Regex::captures_len: the number of capture
/// groups, the implicit whole-match group included, so at least 1.
#[verifier::external_body]
fn regex_captures_len(re: &Pattern) -> (r: usize)
    ensures
        r >= 1,
        r as int == re_group_count(re.pat()),
{
    re.inner.captures_len()
}

/// Relies on regex::bytes::Regex::capture_names: the groups' names in
/// index order, `None` for an unnamed group, one entry per capture group.
#[verifier::external_body]
fn regex_capture_names(re: &Pattern) -> (r: Vec<Option<Vec<u8>>>)
    ensures
        names_view(r@) == re_names(re.pat()),
        r@.len() == re_group_count(re.pat()),
{
    re.inner.capture_names().map(|o| o.map(|s| s.as_bytes().to_vec())).collect()
}

/// The group at an index of a capture model, `None` out of range.
pub open spec fn group_model_at(gs: Seq<Option<Seq<u8>>>, i: int) -> Option<Seq<u8>> {
    if 0 <= i < gs.len() {
        gs[i]
    } else {
        None
    }
}

/// Relies on regex::bytes::Captures::get: the bytes of the group at the
/// given index, `None` where the group did not participate or the index is
/// out of range.
#[verifier::external_body]
fn cap_group_bytes(caps: &MatchCaptures<'_>, i: usize) -> (r: Option<Vec<u8>>)
    ensures
        opt_bytes_view(r) == group_model_at(re_groups(caps.pat(), caps.hay()), i as int),
{
    caps.caps.get(i).map(|m| m.as_bytes().to_vec())
}

/// The bytes of `data` in `start..end`.
fn copy_range(data: &Vec<u8>, start: usize, end: usize) -> (r: Vec<u8>)
    requires
        start <= end <= data@.len(),
    ensures
        r@ == data@.subrange(start as int, end as int),
{
    let mut out: Vec<u8> = Vec::new();
    let mut i = start;
    while i < end
        invariant
            start <= i <= end <= data@.len(),
            out@ =~= data@.subrange(start as int, i as int),
        decreases end - i,
    {
        out.push(data[i]);
        proof {
            assert(data@.subrange(start as int, i + 1) =~= data@.subrange(
                start as int,
                i as int,
            ).push(data@[i as int]));
        }
        i += 1;
    }
    out
}

/// Overwrite `data[start..start + repl.len()]` with `repl`, leaving the rest
/// of the buffer and its length unchanged.
fn overwrite_range(data: &mut Vec<u8>, start: usize, repl: &Vec<u8>)
    requires
        start + repl@.len() <= old(data)@.len(),
    ensures
        final(data)@ == old(data)@.subrange(0, start as int) + repl@ + old(data)@.subrange(
            start + repl@.len(),
            old(data)@.len() as int,
        ),
{
    let n = repl.len();
    let total = data.len();
    let mut i: usize = 0;
    while i < n
        invariant
            n == repl@.len(),
            i <= n,
            total == data@.len(),
            start + n <= data@.len(),
            data@.len() == old(data)@.len(),
            forall|k: int| 0 <= k < i ==> data@[start + k] == repl@[k],
            forall|k: int|
                0 <= k < data@.len() && !(start <= k < start + i) ==> data@[k] == old(data)@[k],
        decreases n - i,
    {
        data.set(start + i, repl[i]);
        i += 1;
    }
    proof {
        assert(data@ =~= old(data)@.subrange(0, start as int) + repl@ + old(data)@.subrange(
            start + repl@.len(),
            old(data)@.len() as int,
        ));
    }
}

/// Whether the pattern matches the haystack exactly once: there is a
/// match, and no further match at or after its end.
pub open spec fn unique_found(pat: Seq<u8>, hay: Seq<u8>) -> bool {
    re_find(pat, hay, 0) matches Some(m) && re_find(pat, hay, m.1) is None
}

/// The template evaluates to the given outcome against the capture groups
/// of the pattern's match in the haystack.
pub open spec fn evals_to(
    pat: Seq<u8>,
    hay: Seq<u8>,
    to: Seq<PartV>,
    out: Result<Seq<u8>, ErrV>,
) -> bool {
    exists|cl: CaptureList|
        #![auto]
        {
            &&& groups_view(cl.groups@) == re_groups(pat, hay)
            &&& names_view(cl.names@) == re_names(pat)
            &&& eval_parts(to, &cl) == out
        }
}

/// The outcome a template evaluates to against a match model is unique:
/// any two capture lists holding that model's groups and names agree.
pub proof fn lemma_evals_to_functional(
    pat: Seq<u8>,
    hay: Seq<u8>,
    to: Seq<PartV>,
    o1: Result<Seq<u8>, ErrV>,
    o2: Result<Seq<u8>, ErrV>,
)
    requires
        evals_to(pat, hay, to, o1),
        evals_to(pat, hay, to, o2),
    ensures
        o1 == o2,
{
    let cl1 = choose|cl: CaptureList|
        #![auto]
        {
            &&& groups_view(cl.groups@) == re_groups(pat, hay)
            &&& names_view(cl.names@) == re_names(pat)
            &&& eval_parts(to, &cl) == o1
        };
    let cl2 = choose|cl: CaptureList|
        #![auto]
        {
            &&& groups_view(cl.groups@) == re_groups(pat, hay)
            &&& names_view(cl.names@) == re_names(pat)
            &&& eval_parts(to, &cl) == o2
        };
    assert forall|i: int| cl1.spec_get(i) == cl2.spec_get(i) by {
        assert(cl1.groups@.len() == groups_view(cl1.groups@).len());
        assert(cl2.groups@.len() == groups_view(cl2.groups@).len());
    }
    assert forall|n: Seq<u8>| cl1.spec_name(n) == cl2.spec_name(n) by {
        assert(names_view(cl1.names@) == names_view(cl2.names@));
    }
    eval::lemma_eval_congruent(to, &cl1, &cl2);
}

/// What one replacement does: how the buffer after (`post`) and the result
/// relate to the buffer before (`pre`), the pattern text and the template.
/// Success is owed exactly on a unique match whose template evaluates to
/// bytes of the matched span's length; each error names its cause.
pub open spec fn replace_spec(
    pat: Seq<u8>,
    to: Seq<PartV>,
    pre: Seq<u8>,
    r: Result<Report, Error>,
    post: Seq<u8>,
) -> bool {
    &&& post.len() == pre.len()
    &&& (r is Err ==> post == pre)
    &&& ((r == Err::<Report, Error>(Error::SourcePatternNotFound)) <==> re_find(pat, pre, 0)
        is None)
    &&& ((r == Err::<Report, Error>(Error::MultipleSourcesFound)) <==> (re_find(pat, pre, 0)
        matches Some(m) && re_find(pat, pre, m.1) is Some))
    &&& (r matches Ok(rep) ==> {
        &&& re_find(pat, pre, 0) == Some((rep.start as int, rep.end as int))
        &&& re_find(pat, pre, rep.end as int) is None
        &&& rep.start <= rep.end <= pre.len()
        &&& rep.before@ == pre.subrange(rep.start as int, rep.end as int)
        &&& rep.after@.len() == rep.end - rep.start
        &&& evals_to(pat, pre, to, Ok(rep.after@))
        &&& post == pre.subrange(0, rep.start as int) + rep.after@ + pre.subrange(
            rep.end as int,
            pre.len() as int,
        )
    })
    &&& (r matches Err(e) ==> match e {
        Error::Replace(ev) => unique_found(pat, pre) && evals_to(
            pat,
            pre,
            to,
            Err(err_view(ev)),
        ),
        Error::MismatchedLen(a, b) => {
            &&& unique_found(pat, pre)
            &&& (re_find(pat, pre, 0) matches Some(m) && a == m.1 - m.0)
            &&& exists|v: Seq<u8>| #![auto] evals_to(pat, pre, to, Ok(v)) && v.len() == b
            &&& a != b
        },
        Error::SourcePatternNotFound => true,
        Error::MultipleSourcesFound => true,
        _ => false,
    })
}

/// Find the unique match of `from` in `data`, evaluate `to` against its
/// captures, and overwrite the matched span with the result if and only if
/// the lengths agree. The buffer's length never changes, and on any failure
/// its contents do not change either.
pub fn replace_single(data: &mut Vec<u8>, from: &Pattern, to: &Replacement) -> (r: Result<
    Report,
    Error,
>)
    ensures
        replace_spec(from.pat(), to@, old(data)@, r, final(data)@),
{
    let ghost pat = from.pat();
    let (start, end, out) = {
        let caps_opt = regex_captures(from, &*data);
        match caps_opt {
            None => {
                return Err(Error::SourcePatternNotFound);
            },
            Some((start, end, raw_caps)) => {
                if regex_find_from(from, &*data, end).is_some() {
                    return Err(Error::MultipleSourcesFound);
                }
                let caps = MatchCaptures {
                    caps: raw_caps,
                    pattern: Ghost(pat),
                    haystack: Ghost(data@),
                };
                let ghost model = re_groups(pat, data@);
                let ngroups = regex_captures_len(from);
                let mut groups: Vec<Option<Vec<u8>>> = Vec::new();
                let mut i: usize = 0;
                while i < ngroups
                    invariant
                        i <= ngroups,
                        ngroups as int == re_group_count(pat),
                        model == re_groups(pat, data@),
                        model.len() == ngroups,
                        caps.pat() == pat,
                        caps.hay() == data@,
                        groups@.len() == i,
                        forall|j: int| 0 <= j < i ==> groups_view(groups@)[j] == model[j],
                    decreases ngroups - i,
                {
                    groups.push(cap_group_bytes(&caps, i));
                    i += 1;
                }
                proof {
                    assert(groups_view(groups@) =~= model);
                }
                let names = regex_capture_names(from);
                let cl = CaptureList::new(groups, names);
                match to.build(&cl) {
                    Ok(v) => {
                        proof {
                            assert(evals_to(pat, data@, to@, Ok::<Seq<u8>, ErrV>(v@)));
                        }
                        (start, end, v)
                    },
                    Err(e) => {
                        proof {
                            assert(evals_to(pat, data@, to@, Err::<Seq<u8>, ErrV>(e@)));
                        }
                        return Err(Error::Replace(e));
                    },
                }
            },
        }
    };
    if out.len() != end - start {
        proof {
            assert(exists|v: Seq<u8>|
                #![auto]
                evals_to(pat, old(data)@, to@, Ok(v)) && v.len() == out@.len());
        }
        return Err(Error::MismatchedLen(end - start, out.len()));
    }
    let before = copy_range(data, start, end);
    overwrite_range(data, start, &out);
    Ok(Report { start, end, before, after: out })
}

/// A named replacement rule: a compiled search pattern and a parsed
/// replacement template. A rule list is applied in declaration order.
pub struct Rule {
    pub name: Vec<u8>,
    pub from: Pattern,
    pub to: Replacement,
}

impl Rule {
    /// Compile a rule from its diagnostic name, its pattern text and its
    /// template text. The pattern is compiled first, so a rule with both a
    /// bad pattern and a bad template reports the pattern.
    pub fn new(name: Vec<u8>, pattern: &[u8], template: &[u8]) -> (r: Result<Rule, Error>)
        ensures
            r is Ok <==> (re_compiles(pattern@) && spec_parse(template@) is Ok),
            (r matches Ok(rule) ==> {
                &&& rule.name == name
                &&& rule.from.pat() == pattern@
                &&& spec_parse(template@) == Ok::<Seq<PartV>, int>(rule.to@)
            }),
            (r matches Err(e) ==> match e {
                Error::Regex(_) => !re_compiles(pattern@),
                Error::Replace(pe) => re_compiles(pattern@) && (pe matches eval::Error::Parse(
                    q,
                ) && spec_parse(template@) == Err::<Seq<PartV>, int>(q as int)),
                _ => false,
            }),
    {
        let from = match Pattern::new(pattern) {
            Ok(p) => p,
            Err(e) => {
                return Err(e);
            },
        };
        let to = match parse_template(template) {
            Ok(t) => t,
            Err(e) => {
                return Err(Error::Replace(e));
            },
        };
        Ok(Rule { name, from, to })
    }
}

/// The outcome of one rule of a session.
#[derive(Debug)]
pub enum RuleOutcome {
    Applied(Report),
    Failed(Error),
}

/// The buffer after a report's edit: its span overwritten with the new
/// bytes.
pub open spec fn report_applied(pre: Seq<u8>, rep: Report) -> Seq<u8> {
    pre.subrange(0, rep.start as int) + rep.after@ + pre.subrange(rep.end as int, pre.len() as int)
}

/// The fold of a session: each outcome relates one buffer state to the
/// next exactly as one replacement does — an applied rule edits the
/// buffer, a failed rule leaves it as it stood.
pub open spec fn session_spec(
    rules: Seq<Rule>,
    pre: Seq<u8>,
    outs: Seq<RuleOutcome>,
    post: Seq<u8>,
) -> bool
    decreases rules.len(),
{
    if rules.len() == 0 {
        outs.len() == 0 && post == pre
    } else if outs.len() == 0 {
        false
    } else {
        match outs[0] {
            RuleOutcome::Applied(rep) => replace_spec(
                rules[0].from.pat(),
                rules[0].to@,
                pre,
                Ok(rep),
                report_applied(pre, rep),
            ) && session_spec(
                rules.drop_first(),
                report_applied(pre, rep),
                outs.drop_first(),
                post,
            ),
            RuleOutcome::Failed(e) => replace_spec(rules[0].from.pat(), rules[0].to@, pre, Err(e), pre)
                && session_spec(rules.drop_first(), pre, outs.drop_first(), post),
        }
    }
}

/// One more step extends a session fold at its end.
proof fn lemma_session_snoc(
    rules: Seq<Rule>,
    pre: Seq<u8>,
    outs: Seq<RuleOutcome>,
    mid: Seq<u8>,
    rule: Rule,
    out: RuleOutcome,
    post: Seq<u8>,
)
    requires
        session_spec(rules, pre, outs, mid),
        match out {
            RuleOutcome::Applied(rep) => post == report_applied(mid, rep) && replace_spec(
                rule.from.pat(),
                rule.to@,
                mid,
                Ok(rep),
                post,
            ),
            RuleOutcome::Failed(e) => replace_spec(rule.from.pat(), rule.to@, mid, Err(e), mid)
                && post == mid,
        },
    ensures
        session_spec(rules.push(rule), pre, outs.push(out), post),
    decreases rules.len(),
{
    let rs = rules.push(rule);
    let os = outs.push(out);
    if rules.len() == 0 {
        assert(rs[0] == rule);
        assert(os[0] == out);
        assert(rs.drop_first() =~= Seq::<Rule>::empty());
        assert(os.drop_first() =~= Seq::<RuleOutcome>::empty());
        match out {
            RuleOutcome::Applied(rep) => {
                assert(session_spec(rs.drop_first(), report_applied(pre, rep), os.drop_first(), post));
            },
            RuleOutcome::Failed(e) => {
                assert(session_spec(rs.drop_first(), pre, os.drop_first(), post));
            },
        }
    } else {
        assert(outs.len() > 0);
        assert(rs[0] == rules[0]);
        assert(os[0] == outs[0]);
        assert(rs.drop_first() =~= rules.drop_first().push(rule));
        assert(os.drop_first() =~= outs.drop_first().push(out));
        match outs[0] {
            RuleOutcome::Applied(rep) => {
                lemma_session_snoc(
                    rules.drop_first(),
                    report_applied(pre, rep),
                    outs.drop_first(),
                    mid,
                    rule,
                    out,
                    post,
                );
            },
            RuleOutcome::Failed(_) => {
                lemma_session_snoc(rules.drop_first(), pre, outs.drop_first(), mid, rule, out, post);
            },
        }
    }
}

/// Apply each rule in order against the shared buffer. Under
/// `tolerate_partial` a failing rule is recorded and the session goes on;
/// otherwise the first failure aborts the session, with the edits of the
/// earlier rules retained. The buffer's length never changes.
pub fn apply_all(data: &mut Vec<u8>, rules: &Vec<Rule>, tolerate_partial: bool) -> (r: Result<
    Vec<RuleOutcome>,
    Error,
>)
    ensures
        final(data)@.len() == old(data)@.len(),
        tolerate_partial ==> r is Ok,
        (r matches Ok(outs) ==> {
            &&& outs@.len() == rules@.len()
            &&& session_spec(rules@, old(data)@, outs@, final(data)@)
            &&& (!tolerate_partial ==> forall|k: int|
                0 <= k < outs@.len() ==> outs@[k] is Applied)
        }),
        (r matches Err(e) ==> !tolerate_partial && exists|k: int, pref: Seq<RuleOutcome>, mid: Seq<u8>|
            #![auto]
            {
                &&& 0 <= k < rules@.len()
                &&& pref.len() == k
                &&& (forall|j: int| 0 <= j < k ==> pref[j] is Applied)
                &&& session_spec(rules@.subrange(0, k), old(data)@, pref, mid)
                &&& replace_spec(rules@[k].from.pat(), rules@[k].to@, mid, Err::<Report, Error>(e), mid)
                &&& final(data)@ == mid
            }),
{
    let mut outs: Vec<RuleOutcome> = Vec::new();
    let n = rules.len();
    assert(rules@.subrange(0, 0) =~= Seq::<Rule>::empty());
    for idx in 0..n
        invariant
            n == rules@.len(),
            outs@.len() == idx,
            data@.len() == old(data)@.len(),
            session_spec(rules@.subrange(0, idx as int), old(data)@, outs@, data@),
            !tolerate_partial ==> forall|k: int| 0 <= k < outs@.len() ==> outs@[k] is Applied,
    {
        let ghost mid = data@;
        let ghost prev_rules = rules@.subrange(0, idx as int);
        let ghost prev_outs = outs@;
        match replace_single(data, &rules[idx].from, &rules[idx].to) {
            Ok(rep) => {
                let ghost o = RuleOutcome::Applied(rep);
                proof {
                    lemma_session_snoc(prev_rules, old(data)@, prev_outs, mid, rules@[idx as int], o, data@);
                    assert(prev_rules.push(rules@[idx as int]) =~= rules@.subrange(0, idx + 1));
                }
                outs.push(RuleOutcome::Applied(rep));
            },
            Err(e) => {
                if tolerate_partial {
                    let ghost o = RuleOutcome::Failed(e);
                    proof {
                        lemma_session_snoc(
                            prev_rules,
                            old(data)@,
                            prev_outs,
                            mid,
                            rules@[idx as int],
                            o,
                            data@,
                        );
                        assert(prev_rules.push(rules@[idx as int]) =~= rules@.subrange(0, idx + 1));
                    }
                    outs.push(RuleOutcome::Failed(e));
                } else {
                    return Err(e);
                }
            },
        }
    }
    proof {
        assert(rules@.subrange(0, n as int) =~= rules@);
    }
    Ok(outs)
}

/// Whether any rule of a session applied, and whether any failed.
pub fn session_outcome(outs: &Vec<RuleOutcome>) -> (r: (bool, bool))
    ensures
        r.0 == exists|k: int| 0 <= k < outs@.len() && #[trigger] outs@[k] is Applied,
        r.1 == exists|k: int| 0 <= k < outs@.len() && #[trigger] outs@[k] is Failed,
{
    let mut any_ok = false;
    let mut any_fail = false;
    let n = outs.len();
    for idx in 0..n
        invariant
            n == outs@.len(),
            any_ok == exists|k: int| 0 <= k < idx && #[trigger] outs@[k] is Applied,
            any_fail == exists|k: int| 0 <= k < idx && #[trigger] outs@[k] is Failed,
    {
        match &outs[idx] {
            RuleOutcome::Applied(_) => {
                any_ok = true;
            },
            RuleOutcome::Failed(_) => {
                any_fail = true;
            },
        }
    }
    (any_ok, any_fail)
}

} // verus!
