use crate::arena::PlanArena;
use crate::ops::stream::FilterStream;
use crate::ops::tap::StreamSource;
use crate::plan::{share, Column, NodeId, NodeView, Partitioning, PlanError, PlanNode, SortKey};
use std::sync::Arc;
use vstd::prelude::*;

verus! {

/// What a plan holds of a filter: a node that stands above one child and
/// shows the child's shape as its own.
#[derive(Clone, Copy, Debug, PartialEq, Eq)]
pub struct FilterNode {
    pub child: NodeId,
}

impl View for FilterNode {
    type V = NodeView;

    open spec fn view(&self) -> NodeView {
        NodeView::Filter { child: self.child }
    }
}

impl FilterNode {
    /// A filter above `child`.
    pub fn new(child: NodeId) -> (filter: FilterNode)
        ensures
            filter.child == child,
    {
        FilterNode { child }
    }

    /// The one child.
    pub fn children(&self) -> (r: Vec<NodeId>)
        ensures
            r@ == seq![self.child],
    {
        let mut out: Vec<NodeId> = Vec::new();
        out.push(self.child);
        out
    }

    /// The child's output ordering.
    pub fn output_ordering<'a>(&self, arena: &'a PlanArena) -> (r: &'a Option<Vec<SortKey>>)
        requires
            arena.wf(),
            self.child < arena@.len(),
        ensures
            *r == arena.shape_of(self.child as int).ordering,
    {
        arena.output_ordering(self.child)
    }

    /// The child's output partitioning.
    pub fn output_partitioning(&self, arena: &PlanArena) -> (r: Partitioning)
        requires
            arena.wf(),
            self.child < arena@.len(),
        ensures
            r == arena.shape_of(self.child as int).partitioning,
    {
        arena.output_partitioning(self.child)
    }

    /// The child's schema.
    pub fn schema<'a>(&self, arena: &'a PlanArena) -> (r: &'a Vec<Column>)
        requires
            arena.wf(),
            self.child < arena@.len(),
        ensures
            *r == arena.shape_of(self.child as int).schema,
    {
        arena.schema(self.child)
    }

    /// A filter over the one child in `children`; any other number of children
    /// is refused.
    pub fn with_new_children(&self, children: Vec<NodeId>) -> (r: Result<FilterNode, PlanError>)
        ensures
            match r {
                Ok(filter) => self@.with_new_children(children@) == Ok::<NodeView, PlanError>(filter@),
                Err(e) => self@.with_new_children(children@) == Err::<NodeView, PlanError>(e),
            },
    {
        if children.len() != 1 {
            return Err(PlanError::UnsupportedShape);
        }
        Ok(FilterNode { child: children[0] })
    }

    /// The name under which a filter shows in a printed plan.
    pub fn name(&self) -> (s: &'static str)
        ensures
            s@ == "TestFilterNode"@,
    {
        "TestFilterNode"
    }
}

/// An example of a decorator that changes the stream: it stands above one
/// child, shows the child's shape as its own, and lets through only the rows
/// that its predicate keeps.
pub struct Filter<P> {
    pub child: NodeId,
    pub predicate: Arc<P>,
}

impl<P> Filter<P> {
    /// The predicate by which the filter filters.
    pub open spec fn predicate(&self) -> P {
        *self.predicate
    }

    /// A filter above `child` that lets through the rows that `predicate`
    /// keeps.
    pub fn new(child: NodeId, predicate: P) -> (filter: Filter<P>)
        ensures
            filter.child == child,
            filter.predicate() == predicate,
    {
        Filter { child, predicate: Arc::new(predicate) }
    }

    /// The node that stands for the filter in a plan.
    pub fn node(&self) -> (node: PlanNode)
        ensures
            node@ == (NodeView::Filter { child: self.child }),
    {
        PlanNode::Filter(FilterNode::new(self.child))
    }

    /// The one child.
    pub fn children(&self) -> (r: Vec<NodeId>)
        ensures
            r@ == seq![self.child],
    {
        FilterNode::new(self.child).children()
    }

    /// The child's output ordering.
    pub fn output_ordering<'a>(&self, arena: &'a PlanArena) -> (r: &'a Option<Vec<SortKey>>)
        requires
            arena.wf(),
            self.child < arena@.len(),
        ensures
            *r == arena.shape_of(self.child as int).ordering,
    {
        arena.output_ordering(self.child)
    }

    /// The child's output partitioning.
    pub fn output_partitioning(&self, arena: &PlanArena) -> (r: Partitioning)
        requires
            arena.wf(),
            self.child < arena@.len(),
        ensures
            r == arena.shape_of(self.child as int).partitioning,
    {
        arena.output_partitioning(self.child)
    }

    /// The child's schema.
    pub fn schema<'a>(&self, arena: &'a PlanArena) -> (r: &'a Vec<Column>)
        requires
            arena.wf(),
            self.child < arena@.len(),
        ensures
            *r == arena.shape_of(self.child as int).schema,
    {
        arena.schema(self.child)
    }

    /// A filter by the same predicate over the one child in `children`; any
    /// other number of children is refused.
    pub fn with_new_children(&self, children: Vec<NodeId>) -> (r: Result<Filter<P>, PlanError>)
        ensures
            match r {
                Ok(filter) => children@.len() == 1 && filter.child == children@[0]
                    && filter.predicate() == self.predicate(),
                Err(e) => children@.len() != 1 && e == PlanError::UnsupportedShape,
            },
    {
        if children.len() != 1 {
            return Err(PlanError::UnsupportedShape);
        }
        Ok(Filter { child: children[0], predicate: share(&self.predicate) })
    }

    /// Executing a filter for a partition is reading the child's stream for
    /// that partition through a stream that filters by the filter's
    /// predicate. The stream is at its start.
    pub fn execute(&self, partition: usize) -> (r: (StreamSource, FilterStream<P>))
        ensures
            r.0 == (StreamSource { node: self.child, partition }),
            r.1.predicate() == self.predicate(),
            !r.1.ended(),
    {
        (StreamSource { node: self.child, partition }, FilterStream::over(share(&self.predicate)))
    }

    /// The name under which a filter shows in a printed plan.
    pub fn name(&self) -> (s: &'static str)
        ensures
            s@ == "TestFilterNode"@,
    {
        "TestFilterNode"
    }
}

} // verus!
