//! An index from source ranges to the locations of the low-level instructions that were
//! produced from them.
use vstd::prelude::*;

use crate::rewrite::Span;

verus! {

broadcast use {vstd::std_specs::vec::group_vec_axioms, vstd::seq::group_seq_axioms};

/// The location of an instruction: its block, and its index within the block (the
/// terminator comes after the last statement).
#[derive(Clone, Copy, PartialEq, Eq, Debug, Structural)]
pub struct Location {
    pub block: usize,
    pub statement_index: usize,
}

/// A basic block: the source range of each statement, and that of its terminator.
#[derive(Debug)]
pub struct BasicBlockData {
    pub statement_spans: Vec<Span>,
    pub terminator_span: Span,
}

/// A function body in the low-level form.
#[derive(Debug)]
pub struct Body {
    pub basic_blocks: Vec<BasicBlockData>,
}

/// Source ranges paired with the locations that produced them.
#[derive(Debug)]
pub struct SpanIndex {
    pub items: Vec<(Span, Location)>,
}

/// Why no single location was found for a source range.
#[derive(Debug)]
pub enum SoleLocationError {
    NoMatch,
    MultiMatch(Vec<Location>),
}

/// The pairs of one block: each statement at its index, then the terminator.
pub open spec fn block_items(bb: BasicBlockData, b: int) -> Seq<(Span, Location)> {
    Seq::new(
        bb.statement_spans@.len(),
        |i: int| (bb.statement_spans@[i], Location { block: b as usize, statement_index: i as usize }),
    ).push((bb.terminator_span, Location { block: b as usize, statement_index: bb.statement_spans@.len() as usize }))
}

/// The pairs of all blocks, block by block.
pub open spec fn body_items(blocks: Seq<BasicBlockData>) -> Seq<(Span, Location)>
    decreases blocks.len(),
{
    if blocks.len() == 0 {
        Seq::empty()
    } else {
        body_items(blocks.drop_last()) + block_items(blocks.last(), blocks.len() - 1)
    }
}

/// Indexes every statement and terminator of `mir` by its source range.
pub fn build_span_index(mir: &Body) -> (r: SpanIndex)
    ensures
        r.items@ == body_items(mir.basic_blocks@),
{
    let mut items: Vec<(Span, Location)> = Vec::new();
    let mut bb: usize = 0;
    while bb < mir.basic_blocks.len()
        invariant
            bb <= mir.basic_blocks@.len(),
            items@ == body_items(mir.basic_blocks@.take(bb as int)),
        decreases mir.basic_blocks@.len() - bb,
    {
        let ghost before = items@;
        let bb_data = &mir.basic_blocks[bb];
        let mut i: usize = 0;
        while i < bb_data.statement_spans.len()
            invariant
                i <= bb_data.statement_spans@.len(),
                items@ == before + Seq::new(
                    i as nat,
                    |j: int| (bb_data.statement_spans@[j], Location { block: bb, statement_index: j as usize }),
                ),
            decreases bb_data.statement_spans@.len() - i,
        {
            items.push((bb_data.statement_spans[i], Location { block: bb, statement_index: i }));
            i = i + 1;
            assert(items@ =~= before + Seq::new(
                i as nat,
                |j: int| (bb_data.statement_spans@[j], Location { block: bb, statement_index: j as usize }),
            ));
        }
        items.push((bb_data.terminator_span, Location { block: bb, statement_index: bb_data.statement_spans.len() }));
        proof {
            assert(mir.basic_blocks@.take(bb + 1).drop_last() =~= mir.basic_blocks@.take(bb as int));
            assert(mir.basic_blocks@.take(bb + 1).last() == mir.basic_blocks@[bb as int]);
            assert(items@ =~= before + block_items(mir.basic_blocks@[bb as int], bb as int));
        }
        bb = bb + 1;
    }
    assert(mir.basic_blocks@.take(bb as int) =~= mir.basic_blocks@);
    SpanIndex { items }
}

/// The locations paired with exactly the range `s`, in order.
pub open spec fn locations_of(items: Seq<(Span, Location)>, s: Span) -> Seq<Location>
    decreases items.len(),
{
    if items.len() == 0 {
        Seq::empty()
    } else if items.last().0 == s {
        locations_of(items.drop_last(), s).push(items.last().1)
    } else {
        locations_of(items.drop_last(), s)
    }
}

impl SpanIndex {
    /// The locations paired with exactly the range `span`, in order.
    pub fn lookup_span(&self, span: Span) -> (r: Vec<Location>)
        ensures
            r@ == locations_of(self.items@, span),
    {
        let mut r: Vec<Location> = Vec::new();
        let mut i: usize = 0;
        while i < self.items.len()
            invariant
                i <= self.items@.len(),
                r@ == locations_of(self.items@.take(i as int), span),
            decreases self.items@.len() - i,
        {
            assert(self.items@.take(i + 1).drop_last() =~= self.items@.take(i as int));
            if self.items[i].0 == span {
                r.push(self.items[i].1);
            }
            i = i + 1;
        }
        assert(self.items@.take(i as int) =~= self.items@);
        r
    }

    /// The one location produced from exactly the range `span`; `NoMatch` when there is none,
    /// and every such location, in order, when there are several.
    pub fn lookup_sole(&self, span: Span) -> (r: Result<Location, SoleLocationError>)
        ensures
            locations_of(self.items@, span).len() == 0 <==> r matches Err(SoleLocationError::NoMatch),
            locations_of(self.items@, span).len() == 1 <==> r is Ok,
            r is Ok ==> r->Ok_0 == locations_of(self.items@, span)[0],
            match r {
                Err(SoleLocationError::MultiMatch(v)) => v@ == locations_of(self.items@, span) && v@.len() > 1,
                _ => true,
            },
    {
        let v = self.lookup_span(span);
        if v.len() == 0 {
            Err(SoleLocationError::NoMatch)
        } else if v.len() == 1 {
            Ok(v[0])
        } else {
            Err(SoleLocationError::MultiMatch(v))
        }
    }
}

} // verus!
