//! The patch-document reader: a thin line-prefix format that yields an
//! ordered list of name/pattern/template rules. A rule is a header line
//! marked by the rule marker, then pattern lines and template lines, each
//! group under its own prefix; lines of one group are joined by newlines.

use vstd::prelude::*;
use crate::ast::PartV;
use crate::engine::{self, re_compiles, Rule};
use crate::eval;
use crate::parse::{is_ws, spec_parse, HASH, NL};

verus! {

pub const DASH: u8 = 0x2d;

pub const PLUS: u8 = 0x2b;

/// A failure while reading a patch document.
#[derive(Debug)]
pub enum Error {
    /// The document's line structure is broken; carries the failing offset.
    Parse(usize),
    /// A rule's pattern did not compile; carries the description.
    Regex(String),
    /// A rule's template did not parse.
    Replacement(eval::Error),
}

/// The position of the next newline at or after `i`, or the text's end.
pub open spec fn line_end(s: Seq<u8>, i: int) -> int
    decreases s.len() - i,
{
    if i < 0 || i >= s.len() {
        i
    } else if s[i] == NL {
        i
    } else {
        line_end(s, i + 1)
    }
}

/// The position after any run of blank bytes at `i`.
pub open spec fn skip_blank(s: Seq<u8>, i: int) -> int
    decreases s.len() - i,
{
    if 0 <= i < s.len() && is_ws(s[i]) {
        skip_blank(s, i + 1)
    } else {
        i
    }
}

/// The outcome of a prefixed line group: the lines' contents joined by
/// newlines and the position at the last line's end, or no group here.
pub enum PF {
    FOk(Seq<u8>, int),
    FFail,
}

/// Further prefixed lines after `p`, a line end: blank bytes, the prefix,
/// then the rest of that line, repeated; each line's content is appended
/// after a newline.
pub open spec fn prefixed_loop(s: Seq<u8>, p: int, pfx: u8, acc: Seq<u8>) -> PF
    decreases s.len() - p,
{
    if !(0 <= p <= s.len()) {
        PF::FOk(acc, p)
    } else {
        let q = skip_blank(s, p);
        if p <= q < s.len() && s[q] == pfx {
            let e = line_end(s, q + 1);
            if p < e <= s.len() {
                prefixed_loop(s, e, pfx, acc + seq![NL] + s.subrange(q + 1, e))
            } else {
                PF::FOk(acc, p)
            }
        } else {
            PF::FOk(acc, p)
        }
    }
}

/// One or more lines under a prefix, starting exactly at `i`.
pub open spec fn prefixed(s: Seq<u8>, i: int, pfx: u8) -> PF {
    if !(0 <= i < s.len()) || s[i] != pfx {
        PF::FFail
    } else {
        let e = line_end(s, i + 1);
        prefixed_loop(s, e, pfx, s.subrange(i + 1, e))
    }
}

/// The outcome of one rule: its name, pattern text and template text, and
/// the position after it, or no rule here.
pub enum RRes {
    ROk(Seq<u8>, Seq<u8>, Seq<u8>, int),
    RFail,
}

/// One rule: a header line under the rule marker ended by a newline, then
/// the pattern's line group and the template's line group.
pub open spec fn spec_prule(s: Seq<u8>, i: int) -> RRes {
    if !(0 <= i < s.len()) || s[i] != HASH {
        RRes::RFail
    } else {
        let e = line_end(s, i + 1);
        if e >= s.len() {
            RRes::RFail
        } else {
            let name = s.subrange(i + 1, e);
            let p1 = skip_blank(s, e + 1);
            match prefixed(s, p1, DASH) {
                PF::FFail => RRes::RFail,
                PF::FOk(from, p2) => {
                    let p3 = skip_blank(s, p2);
                    match prefixed(s, p3, PLUS) {
                        PF::FFail => RRes::RFail,
                        PF::FOk(to, p4) => RRes::ROk(name, from, to, p4),
                    }
                },
            }
        }
    }
}

/// The outcome of a whole document: the rules' texts in order, or the
/// offset where scanning failed.
pub enum Root {
    RootOk(Seq<(Seq<u8>, Seq<u8>, Seq<u8>)>),
    RootErr(int),
}

/// All rules of the document from `i` on, blank bytes between them.
pub open spec fn scan_rules(s: Seq<u8>, i: int, acc: Seq<(Seq<u8>, Seq<u8>, Seq<u8>)>) -> Root
    decreases s.len() - i,
{
    if !(0 <= i <= s.len()) {
        Root::RootErr(i)
    } else {
        let p = skip_blank(s, i);
        if p >= s.len() {
            Root::RootOk(acc)
        } else {
            match spec_prule(s, p) {
                RRes::RFail => Root::RootErr(p),
                // A rule always ends past where scanning stood; the bound
                // guards the recursion's measure.
                RRes::ROk(name, from, to, nx) => if i < nx <= s.len() {
                    scan_rules(s, nx, acc.push((name, from, to)))
                } else {
                    Root::RootErr(p)
                },
            }
        }
    }
}

/// Whether one scanned rule's pattern compiles and its template parses.
pub open spec fn rule_wf(t: (Seq<u8>, Seq<u8>, Seq<u8>)) -> bool {
    re_compiles(t.1) && spec_parse(t.2) is Ok
}

/// Whether every scanned rule is well formed.
pub open spec fn rules_wf(ts: Seq<(Seq<u8>, Seq<u8>, Seq<u8>)>) -> bool {
    forall|k: int| 0 <= k < ts.len() ==> rule_wf(#[trigger] ts[k])
}

pub open spec fn triples_view(ts: Seq<(Vec<u8>, Vec<u8>, Vec<u8>)>) -> Seq<
    (Seq<u8>, Seq<u8>, Seq<u8>),
> {
    ts.map_values(|t: (Vec<u8>, Vec<u8>, Vec<u8>)| (t.0@, t.1@, t.2@))
}

fn exec_line_end(s: &[u8], i: usize) -> (r: usize)
    requires
        i <= s@.len(),
    ensures
        i <= r <= s@.len(),
        r as int == line_end(s@, i as int),
{
    let n = s.len();
    let mut k = i;
    while k < n && s[k] != NL
        invariant
            i <= k <= n,
            n == s@.len(),
            line_end(s@, i as int) == line_end(s@, k as int),
        decreases n - k,
    {
        k += 1;
    }
    k
}

fn exec_skip_blank(s: &[u8], i: usize) -> (r: usize)
    requires
        i <= s@.len(),
    ensures
        i <= r <= s@.len(),
        r as int == skip_blank(s@, i as int),
{
    let n = s.len();
    let mut k = i;
    while k < n && (s[k] == 0x20 || s[k] == 0x09 || s[k] == 0x0a)
        invariant
            i <= k <= n,
            n == s@.len(),
            skip_blank(s@, i as int) == skip_blank(s@, k as int),
        decreases n - k,
    {
        k += 1;
    }
    k
}

/// The bytes of `s` in `a..b`.
fn take_range(s: &[u8], a: usize, b: usize) -> (r: Vec<u8>)
    requires
        a <= b <= s@.len(),
    ensures
        r@ == s@.subrange(a as int, b as int),
{
    let mut out: Vec<u8> = Vec::new();
    let mut k = a;
    while k < b
        invariant
            a <= k <= b <= s@.len(),
            out@ =~= s@.subrange(a as int, k as int),
        decreases b - k,
    {
        out.push(s[k]);
        proof {
            assert(s@.subrange(a as int, k + 1) =~= s@.subrange(a as int, k as int).push(
                s@[k as int],
            ));
        }
        k += 1;
    }
    out
}

fn p_prefixed(s: &[u8], i: usize, pfx: u8) -> (r: Option<(Vec<u8>, usize)>)
    requires
        i <= s@.len(),
    ensures
        match r {
            Some(t) => prefixed(s@, i as int, pfx) == PF::FOk(t.0@, t.1 as int) && i < t.1
                <= s@.len(),
            None => prefixed(s@, i as int, pfx) == PF::FFail,
        },
{
    let n = s.len();
    if i >= n || s[i] != pfx {
        return None;
    }
    let e0 = exec_line_end(s, i + 1);
    let mut acc = take_range(s, i + 1, e0);
    let mut p = e0;
    loop
        invariant
            i < p <= n,
            n == s@.len(),
            prefixed(s@, i as int, pfx) == prefixed_loop(s@, p as int, pfx, acc@),
        decreases n - p,
    {
        let q = exec_skip_blank(s, p);
        if q < n && s[q] == pfx {
            let e = exec_line_end(s, q + 1);
            let ghost pre = acc@;
            acc.push(NL);
            let mut line = take_range(s, q + 1, e);
            acc.append(&mut line);
            proof {
                assert(acc@ =~= pre + seq![NL] + s@.subrange(q + 1, e as int));
            }
            p = e;
        } else {
            return Some((acc, p));
        }
    }
}

fn p_rule(s: &[u8], i: usize) -> (r: Option<(Vec<u8>, Vec<u8>, Vec<u8>, usize)>)
    requires
        i <= s@.len(),
    ensures
        match r {
            Some(t) => spec_prule(s@, i as int) == RRes::ROk(t.0@, t.1@, t.2@, t.3 as int) && i
                < t.3 <= s@.len(),
            None => spec_prule(s@, i as int) is RFail,
        },
{
    let n = s.len();
    if i >= n || s[i] != HASH {
        return None;
    }
    let e = exec_line_end(s, i + 1);
    if e >= n {
        return None;
    }
    let name = take_range(s, i + 1, e);
    let p1 = exec_skip_blank(s, e + 1);
    let (from, p2) = match p_prefixed(s, p1, DASH) {
        Some(t) => t,
        None => {
            return None;
        },
    };
    let p3 = exec_skip_blank(s, p2);
    let (to, p4) = match p_prefixed(s, p3, PLUS) {
        Some(t) => t,
        None => {
            return None;
        },
    };
    Some((name, from, to, p4))
}

/// Scan a document's line structure into its rules' texts.
fn scan_document(input: &[u8]) -> (r: Result<Vec<(Vec<u8>, Vec<u8>, Vec<u8>)>, usize>)
    ensures
        match r {
            Ok(ts) => scan_rules(input@, 0, Seq::empty()) == Root::RootOk(triples_view(ts@)),
            Err(q) => scan_rules(input@, 0, Seq::empty()) == Root::RootErr(q as int),
        },
{
    let n = input.len();
    let mut triples: Vec<(Vec<u8>, Vec<u8>, Vec<u8>)> = Vec::new();
    proof {
        assert(triples_view(triples@) =~= Seq::<(Seq<u8>, Seq<u8>, Seq<u8>)>::empty());
    }
    let mut cur: usize = 0;
    loop
        invariant
            cur <= n,
            n == input@.len(),
            scan_rules(input@, 0, Seq::empty()) == scan_rules(
                input@,
                cur as int,
                triples_view(triples@),
            ),
        decreases n - cur,
    {
        let p = exec_skip_blank(input, cur);
        if p >= n {
            return Ok(triples);
        }
        match p_rule(input, p) {
            None => {
                return Err(p);
            },
            Some((name, from, to, nx)) => {
                let ghost pre = triples@;
                triples.push((name, from, to));
                proof {
                    assert(triples_view(triples@) =~= triples_view(pre).push(
                        (triples@.last().0@, triples@.last().1@, triples@.last().2@),
                    ));
                }
                cur = nx;
            },
        }
    }
}

/// Read a whole patch document into its rules, in document order: scan the
/// line structure, then compile each rule's pattern and parse each rule's
/// template, stopping at the first rule that fails.
pub fn parse(input: &[u8]) -> (r: Result<Vec<Rule>, Error>)
    ensures
        r is Ok <==> (scan_rules(input@, 0, Seq::empty()) matches Root::RootOk(ts) && rules_wf(
            ts,
        )),
        (r matches Ok(rules) ==> scan_rules(input@, 0, Seq::empty()) matches Root::RootOk(ts) && {
            &&& rules@.len() == ts.len()
            &&& forall|k: int|
                0 <= k < ts.len() ==> {
                    &&& (#[trigger] rules@[k]).name@ == ts[k].0
                    &&& rules@[k].from.pat() == ts[k].1
                    &&& spec_parse(ts[k].2) == Ok::<Seq<PartV>, int>(rules@[k].to@)
                }
        }),
        (r matches Err(e) ==> match e {
            Error::Parse(q) => scan_rules(input@, 0, Seq::empty()) == Root::RootErr(q as int),
            Error::Regex(_) => scan_rules(input@, 0, Seq::empty()) matches Root::RootOk(ts)
                && exists|k: int|
                #![auto]
                0 <= k < ts.len() && !re_compiles(ts[k].1) && (forall|j: int|
                    0 <= j < k ==> rule_wf(ts[j])),
            Error::Replacement(pe) => scan_rules(input@, 0, Seq::empty()) matches Root::RootOk(ts)
                && exists|k: int|
                #![auto]
                {
                    &&& 0 <= k < ts.len()
                    &&& re_compiles(ts[k].1)
                    &&& (pe matches eval::Error::Parse(q) && spec_parse(ts[k].2) == Err::<
                        Seq<PartV>,
                        int,
                    >(q as int))
                    &&& (forall|j: int| 0 <= j < k ==> rule_wf(ts[j]))
                },
        }),
{
    let triples = match scan_document(input) {
        Ok(ts) => ts,
        Err(q) => {
            return Err(Error::Parse(q));
        },
    };
    let ghost tv = triples_view(triples@);
    let n = triples.len();
    let mut rules: Vec<Rule> = Vec::new();
    for k in 0..n
        invariant
            n == triples@.len(),
            tv == triples_view(triples@),
            scan_rules(input@, 0, Seq::empty()) == Root::RootOk(tv),
            tv.len() == n,
            rules@.len() == k,
            forall|j: int| 0 <= j < k ==> rule_wf(#[trigger] tv[j]),
            forall|j: int|
                0 <= j < k ==> {
                    &&& (#[trigger] rules@[j]).name@ == tv[j].0
                    &&& rules@[j].from.pat() == tv[j].1
                    &&& spec_parse(tv[j].2) == Ok::<Seq<PartV>, int>(rules@[j].to@)
                },
    {
        let name = copy_bytes(&triples[k].0);
        match Rule::new(name, triples[k].1.as_slice(), triples[k].2.as_slice()) {
            Ok(rule) => {
                rules.push(rule);
            },
            Err(engine::Error::Regex(m)) => {
                proof {
                    assert(!re_compiles(tv[k as int].1));
                    assert(!rule_wf(tv[k as int]));
                    assert(!rules_wf(tv));
                    assert(exists|kk: int|
                        #![auto]
                        0 <= kk < tv.len() && !re_compiles(tv[kk].1) && (forall|j: int|
                            0 <= j < kk ==> rule_wf(tv[j])));
                }
                return Err(Error::Regex(m));
            },
            Err(engine::Error::Replace(pe)) => {
                proof {
                    assert(spec_parse(tv[k as int].2) is Err);
                    assert(!rule_wf(tv[k as int]));
                    assert(!rules_wf(tv));
                    assert(exists|kk: int|
                        #![auto]
                        {
                            &&& 0 <= kk < tv.len()
                            &&& re_compiles(tv[kk].1)
                            &&& (pe matches eval::Error::Parse(q) && spec_parse(tv[kk].2)
                                == Err::<Seq<PartV>, int>(q as int))
                            &&& (forall|j: int| 0 <= j < kk ==> rule_wf(tv[j]))
                        });
                }
                return Err(Error::Replacement(pe));
            },
            Err(_) => {
                proof {
                    assert(false);
                }
                return Err(Error::Parse(0));
            },
        }
    }
    Ok(rules)
}

/// The bytes of `v`, copied.
fn copy_bytes(v: &Vec<u8>) -> (r: Vec<u8>)
    ensures
        r@ == v@,
{
    let mut out: Vec<u8> = Vec::new();
    let n = v.len();
    let mut i: usize = 0;
    while i < n
        invariant
            i <= n,
            n == v@.len(),
            out@ =~= v@.subrange(0, i as int),
        decreases n - i,
    {
        out.push(v[i]);
        proof {
            assert(v@.subrange(0, i + 1) =~= v@.subrange(0, i as int).push(v@[i as int]));
        }
        i += 1;
    }
    proof {
        assert(v@.subrange(0, n as int) =~= v@);
    }
    out
}

} // verus!
