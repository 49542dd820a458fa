use crate::arena::PlanArena;
use crate::plan::{Column, NodeId, NodeView, Partitioning, PlanError, SortKey};
use vstd::prelude::*;

verus! {

/// "Taps in" to a plan: a node that stands above one child and shows its
/// child's shape as its own.
#[derive(Clone, Copy, Debug, PartialEq, Eq)]
pub struct Tap {
    pub child: NodeId,
}

impl View for Tap {
    type V = NodeView;

    open spec fn view(&self) -> NodeView {
        NodeView::Tap { child: self.child }
    }
}

/// The stream that a decorator hands out when it is executed: that of `node`
/// for `partition`.
#[derive(Clone, Copy, Debug, PartialEq, Eq)]
pub struct StreamSource {
    pub node: NodeId,
    pub partition: usize,
}

impl Tap {
    /// A tap above `child`.
    pub fn new(child: NodeId) -> (tap: Tap)
        ensures
            tap.child == child,
    {
        Tap { child }
    }

    /// The one child.
    pub fn children(&self) -> (r: Vec<NodeId>)
        ensures
            r@ == seq![self.child],
    {
        let mut out: Vec<NodeId> = Vec::new();
        out.push(self.child);
        out
    }

    /// The child's output ordering.
    pub fn output_ordering<'a>(&self, arena: &'a PlanArena) -> (r: &'a Option<Vec<SortKey>>)
        requires
            arena.wf(),
            self.child < arena@.len(),
        ensures
            *r == arena.shape_of(self.child as int).ordering,
    {
        arena.output_ordering(self.child)
    }

    /// The child's output partitioning.
    pub fn output_partitioning(&self, arena: &PlanArena) -> (r: Partitioning)
        requires
            arena.wf(),
            self.child < arena@.len(),
        ensures
            r == arena.shape_of(self.child as int).partitioning,
    {
        arena.output_partitioning(self.child)
    }

    /// The child's schema.
    pub fn schema<'a>(&self, arena: &'a PlanArena) -> (r: &'a Vec<Column>)
        requires
            arena.wf(),
            self.child < arena@.len(),
        ensures
            *r == arena.shape_of(self.child as int).schema,
    {
        arena.schema(self.child)
    }

    /// A tap over the one child in `children`; any other number of children
    /// is refused.
    pub fn with_new_children(&self, children: Vec<NodeId>) -> (r: Result<Tap, PlanError>)
        ensures
            match r {
                Ok(tap) => self@.with_new_children(children@) == Ok::<NodeView, PlanError>(tap@),
                Err(e) => self@.with_new_children(children@) == Err::<NodeView, PlanError>(e),
            },
    {
        if children.len() != 1 {
            return Err(PlanError::UnsupportedShape);
        }
        Ok(Tap { child: children[0] })
    }

    /// Executing a tap is executing its child for the same partition.
    pub fn execute(&self, partition: usize) -> (r: StreamSource)
        ensures
            r == (StreamSource { node: self.child, partition }),
    {
        StreamSource { node: self.child, partition }
    }

    /// The name under which a tap shows in a printed plan.
    pub fn name(&self) -> (s: &'static str)
        ensures
            s@ == "Tap"@,
    {
        "Tap"
    }
}

} // verus!
