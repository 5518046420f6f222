//! The template tree: literal bytes, back-references and alternation groups,
//! together with its mathematical view and a renderer.

use vstd::prelude::*;

verus! {

/// One unit of a template: an exact output byte, a positional back-reference
/// (`0` is the whole match), a named back-reference, or an alternation group
/// of candidate sub-templates.
#[derive(Debug)]
pub enum Part {
    Byte(u8),
    RepId(usize),
    RepName(Vec<u8>),
    Group(Vec<Replacement>),
}

/// A replacement template: an ordered sequence of [`Part`]s. Immutable once
/// parsed; one value may be evaluated any number of times.
#[derive(Debug)]
pub struct Replacement(pub Vec<Part>);

/// Mathematical view of a [`Part`].
pub enum PartV {
    Byte(u8),
    RepId(int),
    RepName(Seq<u8>),
    Group(Seq<Seq<PartV>>),
}

pub open spec fn part_view(p: Part) -> PartV
    decreases p,
{
    match p {
        Part::Byte(b) => PartV::Byte(b),
        Part::RepId(i) => PartV::RepId(i as int),
        Part::RepName(n) => PartV::RepName(n@),
        Part::Group(gs) => PartV::Group(templates_view(gs@)),
    }
}

pub open spec fn templates_view(ts: Seq<Replacement>) -> Seq<Seq<PartV>>
    decreases ts,
{
    if ts.len() == 0 {
        Seq::empty()
    } else {
        templates_view(ts.drop_last()).push(template_view(ts.last()))
    }
}

pub open spec fn template_view(t: Replacement) -> Seq<PartV>
    decreases t,
{
    parts_view(t.0@)
}

pub open spec fn parts_view(ps: Seq<Part>) -> Seq<PartV>
    decreases ps,
{
    if ps.len() == 0 {
        Seq::empty()
    } else {
        parts_view(ps.drop_last()).push(part_view(ps.last()))
    }
}

impl View for Part {
    type V = PartV;

    open spec fn view(&self) -> PartV {
        part_view(*self)
    }
}

impl View for Replacement {
    type V = Seq<PartV>;

    open spec fn view(&self) -> Seq<PartV> {
        template_view(*self)
    }
}

/// The views of a part sequence are the views of its parts, in order.
pub proof fn lemma_parts_view(ps: Seq<Part>)
    ensures
        parts_view(ps).len() == ps.len(),
        forall|i: int| 0 <= i < ps.len() ==> parts_view(ps)[i] == part_view(ps[i]),
    decreases ps.len(),
{
    if ps.len() > 0 {
        lemma_parts_view(ps.drop_last());
    }
}

/// The views of a template sequence are the views of its templates, in order.
pub proof fn lemma_templates_view(ts: Seq<Replacement>)
    ensures
        templates_view(ts).len() == ts.len(),
        forall|i: int| 0 <= i < ts.len() ==> templates_view(ts)[i] == template_view(ts[i]),
    decreases ts.len(),
{
    if ts.len() > 0 {
        lemma_templates_view(ts.drop_last());
    }
}

} // verus!
