//! Rendering a template back to text: every literal in hex-escape form,
//! references and groups with their markers.

use vstd::prelude::*;
use crate::ast::{Part, PartV, Replacement, parts_view, part_view, template_view, templates_view,
    lemma_parts_view, lemma_templates_view};
use crate::parse::{BSLASH, LX, DOLLAR, LPAR, RPAR, BAR, RBRACE, D0, hex_digit};

verus! {

pub const LBRACE: u8 = 0x7b;

/// The decimal digits of a non-negative number.
pub open spec fn dec_digits(v: int) -> Seq<u8>
    decreases v,
{
    if v < 0 {
        Seq::empty()
    } else if v < 10 {
        seq![(D0 + v) as u8]
    } else {
        dec_digits(v / 10).push((D0 + v % 10) as u8)
    }
}

/// The text of one part: a hex-escaped literal, a marked reference, or a
/// bracketed group with its branches separated by the bar marker.
pub open spec fn render_part(p: PartV) -> Seq<u8>
    decreases p,
{
    match p {
        PartV::Byte(b) => seq![BSLASH, LX, hex_digit(b / 16), hex_digit(b % 16)],
        PartV::RepId(i) => seq![DOLLAR] + dec_digits(i),
        PartV::RepName(n) => seq![DOLLAR, LBRACE] + n + seq![RBRACE],
        PartV::Group(gs) => seq![LPAR] + render_branches(gs) + seq![RPAR],
    }
}

pub open spec fn render_parts(ps: Seq<PartV>) -> Seq<u8>
    decreases ps,
{
    if ps.len() == 0 {
        Seq::empty()
    } else {
        render_parts(ps.drop_last()) + render_part(ps.last())
    }
}

pub open spec fn render_branches(gs: Seq<Seq<PartV>>) -> Seq<u8>
    decreases gs,
{
    if gs.len() == 0 {
        Seq::empty()
    } else if gs.len() == 1 {
        render_parts(gs[0])
    } else {
        render_branches(gs.drop_last()) + seq![BAR] + render_parts(gs.last())
    }
}

/// The marker byte of one hex-digit value, executable.
fn hexd(d: u8) -> (r: u8)
    requires
        d <= 15,
    ensures
        r == hex_digit(d),
{
    if d < 10 {
        D0 + d
    } else {
        0x61 + (d - 10)
    }
}

/// The decimal digits of a number, executable.
fn render_dec(v: usize) -> (r: Vec<u8>)
    ensures
        r@ == dec_digits(v as int),
    decreases v,
{
    if v < 10 {
        let mut out: Vec<u8> = Vec::new();
        out.push(D0 + (v as u8));
        proof {
            assert(out@ =~= seq![(D0 + v) as u8]);
        }
        out
    } else {
        let mut out = render_dec(v / 10);
        out.push(D0 + ((v % 10) as u8));
        out
    }
}

fn render_parts_vec(parts: &Vec<Part>) -> (r: Vec<u8>)
    ensures
        r@ == render_parts(parts_view(parts@)),
    decreases parts,
{
    let ghost pv = parts_view(parts@);
    proof {
        lemma_parts_view(parts@);
    }
    let mut out: Vec<u8> = Vec::new();
    let n = parts.len();
    let mut i: usize = 0;
    while i < n
        invariant
            n == parts@.len(),
            i <= n,
            pv == parts_view(parts@),
            pv.len() == n,
            forall|k: int| 0 <= k < n ==> pv[k] == part_view(parts@[k]),
            out@ =~= render_parts(pv.subrange(0, i as int)),
        decreases n - i,
    {
        let ghost prev = out@;
        match &parts[i] {
            Part::Byte(b) => {
                out.push(BSLASH);
                out.push(LX);
                out.push(hexd(*b / 16));
                out.push(hexd(*b % 16));
                proof {
                    assert(out@ =~= prev + render_part(pv[i as int]));
                }
            },
            Part::RepId(id) => {
                out.push(DOLLAR);
                let mut ds = render_dec(*id);
                out.append(&mut ds);
                proof {
                    assert(out@ =~= prev + render_part(pv[i as int]));
                }
            },
            Part::RepName(nm) => {
                out.push(DOLLAR);
                out.push(LBRACE);
                let mut k: usize = 0;
                let ghost pre = out@;
                while k < nm.len()
                    invariant
                        k <= nm@.len(),
                        out@ =~= pre + nm@.subrange(0, k as int),
                    decreases nm@.len() - k,
                {
                    out.push(nm[k]);
                    proof {
                        assert(nm@.subrange(0, k + 1) =~= nm@.subrange(0, k as int).push(
                            nm@[k as int],
                        ));
                    }
                    k += 1;
                }
                out.push(RBRACE);
                proof {
                    assert(nm@.subrange(0, nm@.len() as int) =~= nm@);
                    assert(out@ =~= prev + render_part(pv[i as int]));
                }
            },
            Part::Group(gs) => {
                out.push(LPAR);
                let mut piece = render_branches_vec(gs);
                out.append(&mut piece);
                out.push(RPAR);
                proof {
                    assert(out@ =~= prev + render_part(pv[i as int]));
                }
            },
        }
        proof {
            assert(pv.subrange(0, i + 1).drop_last() =~= pv.subrange(0, i as int));
            assert(pv.subrange(0, i + 1).last() == pv[i as int]);
            assert(out@ =~= render_parts(pv.subrange(0, i + 1)));
        }
        i += 1;
    }
    proof {
        assert(pv.subrange(0, n as int) =~= pv);
    }
    out
}

fn render_branches_vec(gs: &Vec<Replacement>) -> (r: Vec<u8>)
    ensures
        r@ == render_branches(templates_view(gs@)),
    decreases gs,
{
    let ghost bs = templates_view(gs@);
    proof {
        lemma_templates_view(gs@);
    }
    let mut out: Vec<u8> = Vec::new();
    let n = gs.len();
    let mut j: usize = 0;
    while j < n
        invariant
            n == gs@.len(),
            j <= n,
            bs == templates_view(gs@),
            bs.len() == n,
            forall|k: int| 0 <= k < n ==> bs[k] == template_view(gs@[k]),
            out@ =~= render_branches(bs.subrange(0, j as int)),
        decreases n - j,
    {
        if j > 0 {
            out.push(BAR);
        }
        let mut piece = render_parts_vec(&gs[j].0);
        out.append(&mut piece);
        proof {
            assert(bs.subrange(0, j + 1).drop_last() =~= bs.subrange(0, j as int));
            assert(bs.subrange(0, j + 1).last() == bs[j as int]);
            assert(out@ =~= render_branches(bs.subrange(0, j + 1)));
        }
        j += 1;
    }
    proof {
        assert(bs.subrange(0, n as int) =~= bs);
    }
    out
}

impl Part {
    /// The canonical text of this part.
    pub fn render(&self) -> (r: Vec<u8>)
        ensures
            r@ == render_part(self@),
    {
        match self {
            Part::Byte(b) => {
                let mut out: Vec<u8> = Vec::new();
                out.push(BSLASH);
                out.push(LX);
                out.push(hexd(*b / 16));
                out.push(hexd(*b % 16));
                proof {
                    assert(out@ =~= render_part(self@));
                }
                out
            },
            Part::RepId(id) => {
                let mut out: Vec<u8> = Vec::new();
                out.push(DOLLAR);
                let mut ds = render_dec(*id);
                out.append(&mut ds);
                proof {
                    assert(out@ =~= render_part(self@));
                }
                out
            },
            Part::RepName(nm) => {
                let mut out: Vec<u8> = Vec::new();
                out.push(DOLLAR);
                out.push(LBRACE);
                let mut k: usize = 0;
                let ghost pre = out@;
                while k < nm.len()
                    invariant
                        k <= nm@.len(),
                        out@ =~= pre + nm@.subrange(0, k as int),
                    decreases nm@.len() - k,
                {
                    out.push(nm[k]);
                    proof {
                        assert(nm@.subrange(0, k + 1) =~= nm@.subrange(0, k as int).push(
                            nm@[k as int],
                        ));
                    }
                    k += 1;
                }
                out.push(RBRACE);
                proof {
                    assert(nm@.subrange(0, nm@.len() as int) =~= nm@);
                    assert(out@ =~= render_part(self@));
                }
                out
            },
            Part::Group(gs) => {
                let mut out: Vec<u8> = Vec::new();
                out.push(LPAR);
                let mut piece = render_branches_vec(gs);
                out.append(&mut piece);
                out.push(RPAR);
                proof {
                    assert(out@ =~= render_part(self@));
                }
                out
            },
        }
    }
}

impl Replacement {
    /// The canonical text of this template: its parts' texts, in order.
    pub fn render(&self) -> (r: Vec<u8>)
        ensures
            r@ == render_parts(self@),
    {
        render_parts_vec(&self.0)
    }
}

} // verus!
