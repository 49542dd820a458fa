use crate::plan::{Column, NodeId, NodeView, Partitioning, PlanError, PlanNode, Shape, SortKey};
use vstd::prelude::*;

verus! {

/// Every child of a node stands before the node: children are made first,
/// and a node, once made, is never changed.
pub open spec fn children_precede(nodes: Seq<NodeView>) -> bool {
    forall|i: int, k: int|
        0 <= i < nodes.len() && 0 <= k < nodes[i].children().len() ==> (
        #[trigger] nodes[i].children()[k]) < i
}

/// The operator whose shape node `id` shows: the node itself, or, below a
/// chain of decorators, the first node that is none.
pub open spec fn source(nodes: Seq<NodeView>, id: int) -> int
    decreases id,
{
    if 0 <= id < nodes.len() {
        match nodes[id] {
            NodeView::Operator { .. } => id,
            NodeView::Tap { child } => if child < id {
                source(nodes, child as int)
            } else {
                id
            },
            NodeView::Filter { child } => if child < id {
                source(nodes, child as int)
            } else {
                id
            },
        }
    } else {
        id
    }
}

/// The shape that node `id` shows to its consumers.
pub open spec fn shape_at(nodes: Seq<NodeView>, id: int) -> Shape {
    match nodes[source(nodes, id)] {
        NodeView::Operator { shape, .. } => shape,
        _ => arbitrary(),
    }
}

/// Below every node of a well-formed arena stands an operator, and it is in
/// the arena.
pub proof fn lemma_source_is_operator(nodes: Seq<NodeView>, id: int)
    requires
        children_precede(nodes),
        0 <= id < nodes.len(),
    ensures
        0 <= source(nodes, id) <= id,
        nodes[source(nodes, id)] is Operator,
    decreases id,
{
    match nodes[id] {
        NodeView::Operator { .. } => {},
        NodeView::Tap { child } => {
            assert(nodes[id].children()[0] == child);
            lemma_source_is_operator(nodes, child as int);
        },
        NodeView::Filter { child } => {
            assert(nodes[id].children()[0] == child);
            lemma_source_is_operator(nodes, child as int);
        },
    }
}

/// Nodes that are added later change the shape of none that is there.
pub proof fn lemma_shape_stable(before: Seq<NodeView>, after: Seq<NodeView>, id: int)
    requires
        children_precede(before),
        before.len() <= after.len(),
        forall|i: int| 0 <= i < before.len() ==> before[i] == after[i],
        0 <= id < before.len(),
    ensures
        source(after, id) == source(before, id),
        shape_at(after, id) == shape_at(before, id),
    decreases id,
{
    match before[id] {
        NodeView::Operator { .. } => {},
        NodeView::Tap { child } => {
            assert(before[id].children()[0] == child);
            lemma_shape_stable(before, after, child as int);
        },
        NodeView::Filter { child } => {
            assert(before[id].children()[0] == child);
            lemma_shape_stable(before, after, child as int);
        },
    }
    lemma_source_is_operator(before, id);
}

/// The nodes of one or more plans. A node's identity is its position; a node
/// names its children by theirs. Nodes are only ever added, so plans that share
/// a subtree share its nodes.
pub struct PlanArena {
    nodes: Vec<PlanNode>,
}

impl View for PlanArena {
    type V = Seq<NodeView>;

    closed spec fn view(&self) -> Seq<NodeView> {
        Seq::new(self.nodes@.len(), |i: int| self.nodes@[i]@)
    }
}

impl PlanArena {
    /// The node at position `i`.
    pub closed spec fn node_at(&self, i: int) -> PlanNode {
        self.nodes@[i]
    }

    /// The arena's invariant.
    pub open spec fn wf(&self) -> bool {
        &&& children_precede(self@)
        &&& forall|i: int| 0 <= i < self@.len() ==> (#[trigger] self.node_at(i))@ == self@[i]
    }

    /// The shape that node `id` shows.
    pub open spec fn shape_of(&self, id: int) -> Shape {
        shape_at(self@, id)
    }

    /// `self` holds the nodes of `earlier`, each at its place.
    pub open spec fn extends(&self, earlier: &PlanArena) -> bool {
        &&& earlier@.len() <= self@.len()
        &&& forall|i: int| 0 <= i < earlier@.len() ==> #[trigger] self@[i] == earlier@[i]
        &&& forall|i: int|
            0 <= i < earlier@.len() ==> #[trigger] self.node_at(i) == earlier.node_at(i)
    }

    /// An arena holds no more nodes than can be counted.
    pub proof fn lemma_len_fits(&self)
        ensures
            self@.len() <= usize::MAX,
    {
        assert(self.nodes@.len() == self.nodes.len());
    }

    /// An arena without nodes.
    pub fn new() -> (arena: PlanArena)
        ensures
            arena.wf(),
            arena@.len() == 0,
    {
        PlanArena { nodes: Vec::new() }
    }

    /// The number of nodes.
    pub fn len(&self) -> (n: usize)
        ensures
            n == self@.len(),
    {
        self.nodes.len()
    }

    /// The node with identity `id`, if there is one.
    pub fn get(&self, id: NodeId) -> (r: Option<&PlanNode>)
        ensures
            match r {
                Some(node) => id < self@.len() && *node == self.node_at(id as int),
                None => id >= self@.len(),
            },
    {
        if id < self.nodes.len() {
            Some(&self.nodes[id])
        } else {
            None
        }
    }

    /// The node with identity `id`.
    pub fn node(&self, id: NodeId) -> (node: &PlanNode)
        requires
            id < self@.len(),
        ensures
            *node == self.node_at(id as int),
    {
        &self.nodes[id]
    }

    /// Adds `node` and returns its identity, provided that every child it
    /// names is in the arena; else the arena stays as it is.
    pub fn insert(&mut self, node: PlanNode) -> (r: Result<NodeId, PlanError>)
        requires
            old(self).wf(),
        ensures
            final(self).wf(),
            final(self).extends(old(self)),
            match r {
                Ok(id) => {
                    &&& forall|k: int|
                        0 <= k < node@.children().len() ==> (#[trigger] node@.children()[k])
                            < old(self)@.len()
                    &&& id == old(self)@.len()
                    &&& final(self)@ == old(self)@.push(node@)
                    &&& final(self).node_at(id as int) == node
                },
                Err(e) => {
                    &&& exists|k: int|
                        0 <= k < node@.children().len() && (#[trigger] node@.children()[k])
                            >= old(self)@.len()
                    &&& e == PlanError::UnknownChild
                    &&& final(self)@ == old(self)@
                },
            },
    {
        let children = node.children();
        let mut k: usize = 0;
        while k < children.len()
            invariant
                k <= children.len(),
                *self == *old(self),
                self.wf(),
                children@ == node@.children(),
                forall|j: int| 0 <= j < k ==> (#[trigger] children@[j]) < self.nodes@.len(),
            decreases children.len() - k,
        {
            if children[k] >= self.nodes.len() {
                return Err(PlanError::UnknownChild);
            }
            k += 1;
        }
        Ok(self.push(node))
    }

    /// Adds a node whose children are in the arena.
    pub(crate) fn push(&mut self, node: PlanNode) -> (id: NodeId)
        requires
            old(self).wf(),
            forall|k: int|
                0 <= k < node@.children().len() ==> (#[trigger] node@.children()[k]) < old(
                    self,
                )@.len(),
        ensures
            final(self).wf(),
            final(self).extends(old(self)),
            id == old(self)@.len(),
            final(self)@ == old(self)@.push(node@),
            final(self).node_at(id as int) == node,
    {
        let id = self.nodes.len();
        self.nodes.push(node);
        assert(self@ =~= old(self)@.push(node@));
        id
    }

    /// Drops the nodes from position `len` on.
    pub(crate) fn truncate(&mut self, len: usize)
        requires
            old(self).wf(),
            len <= old(self)@.len(),
        ensures
            final(self).wf(),
            final(self)@ == old(self)@.subrange(0, len as int),
            forall|i: int| 0 <= i < len ==> #[trigger] final(self).node_at(i) == old(self).node_at(i),
    {
        self.nodes.truncate(len);
        assert(self@ =~= old(self)@.subrange(0, len as int));
    }

    /// The shape that node `id` shows: its own if it is an operator, its
    /// child's if it is a decorator.
    pub fn shape(&self, id: NodeId) -> (r: &Shape)
        requires
            self.wf(),
            id < self@.len(),
        ensures
            *r == self.shape_of(id as int),
    {
        let mut cur = id;
        loop
            invariant
                self.wf(),
                cur < self@.len(),
                source(self@, cur as int) == source(self@, id as int),
            decreases cur,
        {
            let next = match &self.nodes[cur] {
                PlanNode::Operator(op) => {
                    return &*op.shape;
                },
                PlanNode::Tap(tap) => tap.child,
                PlanNode::Filter(filter) => filter.child,
            };
            assert(self@[cur as int].children()[0] == next);
            cur = next;
        }
    }

    /// The schema of node `id`.
    pub fn schema(&self, id: NodeId) -> (r: &Vec<Column>)
        requires
            self.wf(),
            id < self@.len(),
        ensures
            *r == self.shape_of(id as int).schema,
    {
        &self.shape(id).schema
    }

    /// The output ordering of node `id`, if it has one.
    pub fn output_ordering(&self, id: NodeId) -> (r: &Option<Vec<SortKey>>)
        requires
            self.wf(),
            id < self@.len(),
        ensures
            *r == self.shape_of(id as int).ordering,
    {
        &self.shape(id).ordering
    }

    /// The output partitioning of node `id`.
    pub fn output_partitioning(&self, id: NodeId) -> (r: Partitioning)
        requires
            self.wf(),
            id < self@.len(),
        ensures
            r == self.shape_of(id as int).partitioning,
    {
        self.shape(id).partitioning
    }
}

} // verus!
