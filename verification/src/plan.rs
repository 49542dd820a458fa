use crate::ops::filter::FilterNode;
use crate::ops::tap::Tap;
use std::sync::Arc;
use vstd::prelude::*;

verus! {

/// The identity of a plan node: its position in the arena that owns it.
pub type NodeId = usize;

/// The type of the values in one column.
#[derive(Clone, Copy, Debug, PartialEq, Eq)]
pub enum DataType {
    Boolean,
    Int64,
    Utf8,
    Other,
}

/// One named, typed column of a schema.
#[derive(Clone, Debug, PartialEq, Eq)]
pub struct Column {
    pub name: String,
    pub data_type: DataType,
    pub nullable: bool,
}

/// One key of an output ordering: a column position and how it sorts.
#[derive(Clone, Copy, Debug, PartialEq, Eq)]
pub struct SortKey {
    pub column: usize,
    pub descending: bool,
    pub nulls_first: bool,
}

/// How a node spreads its output over partitions.
#[derive(Clone, Copy, Debug, PartialEq, Eq)]
pub enum Partitioning {
    RoundRobin(usize),
    Hash(usize),
    Unknown(usize),
}

impl Partitioning {
    pub open spec fn count(self) -> usize {
        match self {
            Partitioning::RoundRobin(n) => n,
            Partitioning::Hash(n) => n,
            Partitioning::Unknown(n) => n,
        }
    }

    /// The number of partitions, each of which can be executed on its own.
    pub fn partition_count(&self) -> (n: usize)
        ensures
            n == self.count(),
    {
        match self {
            Partitioning::RoundRobin(n) => *n,
            Partitioning::Hash(n) => *n,
            Partitioning::Unknown(n) => *n,
        }
    }
}

/// What a node promises its consumers about its output.
#[derive(Clone, Debug, PartialEq, Eq)]
pub struct Shape {
    pub schema: Vec<Column>,
    pub ordering: Option<Vec<SortKey>>,
    pub partitioning: Partitioning,
}

/// Why a node refused a new list of children.
#[derive(Clone, Copy, Debug, PartialEq, Eq)]
pub enum PlanError {
    /// A decorator was given a list that does not hold exactly one child.
    UnsupportedShape,
    /// An operator was given a list of another length than its own.
    ArityMismatch,
    /// The operator never accepts new children.
    ChildrenFixed,
    /// A child named by the node is not in the arena.
    UnknownChild,
}

/// The kinds of operator that a compiled plan is made of.
#[derive(Clone, Copy, Debug, PartialEq, Eq)]
pub enum OperatorKind {
    Scan,
    Filter,
    Projection,
    Aggregate,
    Sort,
    Limit,
    Join,
    Union,
    Other,
}

/// A node as the query compiler produced it. Its shape is its own; a sealed
/// operator refuses every new list of children.
#[derive(Clone, Debug, PartialEq, Eq)]
pub struct Operator {
    pub kind: OperatorKind,
    pub shape: Arc<Shape>,
    pub children: Vec<NodeId>,
    pub sealed: bool,
}

/// One step of a physical plan.
#[derive(Clone, Debug, PartialEq, Eq)]
pub enum PlanNode {
    Operator(Operator),
    Tap(Tap),
    Filter(FilterNode),
}

/// A plan node as specifications see it.
pub ghost enum NodeView {
    Operator { kind: OperatorKind, shape: Shape, children: Seq<NodeId>, sealed: bool },
    Tap { child: NodeId },
    Filter { child: NodeId },
}

impl NodeView {
    /// The children, in order.
    pub open spec fn children(self) -> Seq<NodeId> {
        match self {
            NodeView::Operator { children, .. } => children,
            NodeView::Tap { child } => seq![child],
            NodeView::Filter { child } => seq![child],
        }
    }

    /// Whether the node forwards its only child's shape.
    pub open spec fn is_decorator(self) -> bool {
        !(self is Operator)
    }

    /// The node of the same kind over `children`, or the reason why there is
    /// none.
    pub open spec fn with_new_children(self, children: Seq<NodeId>) -> Result<NodeView, PlanError> {
        match self {
            NodeView::Operator { kind, shape, children: own, sealed } => {
                if sealed {
                    Err(PlanError::ChildrenFixed)
                } else if children.len() != own.len() {
                    Err(PlanError::ArityMismatch)
                } else {
                    Ok(NodeView::Operator { kind, shape, children, sealed })
                }
            },
            NodeView::Tap { .. } => {
                if children.len() != 1 {
                    Err(PlanError::UnsupportedShape)
                } else {
                    Ok(NodeView::Tap { child: children[0] })
                }
            },
            NodeView::Filter { .. } => {
                if children.len() != 1 {
                    Err(PlanError::UnsupportedShape)
                } else {
                    Ok(NodeView::Filter { child: children[0] })
                }
            },
        }
    }
}

impl View for Operator {
    type V = NodeView;

    open spec fn view(&self) -> NodeView {
        NodeView::Operator {
            kind: self.kind,
            shape: *self.shape,
            children: self.children@,
            sealed: self.sealed,
        }
    }
}

impl View for PlanNode {
    type V = NodeView;

    open spec fn view(&self) -> NodeView {
        match self {
            PlanNode::Operator(op) => op@,
            PlanNode::Tap(tap) => tap@,
            PlanNode::Filter(filter) => filter@,
        }
    }
}

/// `Arc::clone`: a second handle to the allocation behind `handle`, so the
/// value behind the new handle is the value behind the old one.
#[verifier::external_body]
pub(crate) fn share<T>(handle: &Arc<T>) -> (r: Arc<T>)
    ensures
        r == *handle,
{
    Arc::clone(handle)
}

/// A fresh vector with the same identities in the same order.
pub fn copy_ids(ids: &Vec<NodeId>) -> (r: Vec<NodeId>)
    ensures
        r@ == ids@,
{
    let mut out: Vec<NodeId> = Vec::new();
    let mut i: usize = 0;
    while i < ids.len()
        invariant
            i <= ids.len(),
            out@ == ids@.subrange(0, i as int),
        decreases ids.len() - i,
    {
        out.push(ids[i]);
        i += 1;
    }
    out
}

impl Operator {
    /// An operator that accepts new children of its own arity.
    pub fn new(kind: OperatorKind, shape: Shape, children: Vec<NodeId>) -> (op: Operator)
        ensures
            op@ == (NodeView::Operator { kind, shape, children: children@, sealed: false }),
    {
        Operator { kind, shape: Arc::new(shape), children, sealed: false }
    }

    /// An operator that refuses every new list of children.
    pub fn sealed(kind: OperatorKind, shape: Shape, children: Vec<NodeId>) -> (op: Operator)
        ensures
            op@ == (NodeView::Operator { kind, shape, children: children@, sealed: true }),
    {
        Operator { kind, shape: Arc::new(shape), children, sealed: true }
    }

    /// The same operator over `children`: refused when the operator is sealed
    /// or the list has another length than its own.
    pub fn with_new_children(&self, children: Vec<NodeId>) -> (r: Result<Operator, PlanError>)
        ensures
            match r {
                Ok(op) => self@.with_new_children(children@) == Ok::<NodeView, PlanError>(op@),
                Err(e) => self@.with_new_children(children@) == Err::<NodeView, PlanError>(e),
            },
    {
        if self.sealed {
            Err(PlanError::ChildrenFixed)
        } else if children.len() != self.children.len() {
            Err(PlanError::ArityMismatch)
        } else {
            Ok(Operator { kind: self.kind, shape: share(&self.shape), children, sealed: false })
        }
    }
}

impl PlanNode {
    /// The children, in order; empty for a leaf.
    pub fn children(&self) -> (r: Vec<NodeId>)
        ensures
            r@ == self@.children(),
    {
        match self {
            PlanNode::Operator(op) => copy_ids(&op.children),
            PlanNode::Tap(tap) => tap.children(),
            PlanNode::Filter(filter) => filter.children(),
        }
    }

    /// A new node of the same kind over `children`, or the node's refusal.
    pub fn with_new_children(&self, children: Vec<NodeId>) -> (r: Result<PlanNode, PlanError>)
        ensures
            match r {
                Ok(node) => self@.with_new_children(children@) == Ok::<NodeView, PlanError>(node@),
                Err(e) => self@.with_new_children(children@) == Err::<NodeView, PlanError>(e),
            },
    {
        match self {
            PlanNode::Operator(op) => match op.with_new_children(children) {
                Ok(op) => Ok(PlanNode::Operator(op)),
                Err(e) => Err(e),
            },
            PlanNode::Tap(tap) => match tap.with_new_children(children) {
                Ok(tap) => Ok(PlanNode::Tap(tap)),
                Err(e) => Err(e),
            },
            PlanNode::Filter(filter) => match filter.with_new_children(children) {
                Ok(filter) => Ok(PlanNode::Filter(filter)),
                Err(e) => Err(e),
            },
        }
    }
}

} // verus!
