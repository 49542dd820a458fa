use crate::arena::{
    children_precede, lemma_shape_stable, lemma_source_is_operator, shape_at, PlanArena,
};
use crate::plan::{NodeId, NodeView, PlanError};
use crate::rewrite::{in_plan, in_plan_from, rewrite, rewrite_from, substitute, Rewrite};
use vstd::prelude::*;

verus! {

/// The way from the injection point up to `id`: the first marked node in
/// post-order, the children in their order, then its parent, and so on; empty
/// where nothing is marked. Below `id` only the last `k` children count.
pub open spec fn path_from(
    nodes: Seq<NodeView>,
    marked: spec_fn(NodeId) -> bool,
    id: NodeId,
    k: int,
) -> Seq<NodeId>
    decreases id, k,
{
    if k <= 0 {
        if marked(id) {
            seq![id]
        } else {
            Seq::empty()
        }
    } else {
        let child = nodes[id as int].children()[nodes[id as int].children().len() - k];
        if child < id {
            let below = path_from(nodes, marked, child, nodes[child as int].children().len() as int);
            if below.len() > 0 {
                below.push(id)
            } else {
                path_from(nodes, marked, id, k - 1)
            }
        } else {
            path_from(nodes, marked, id, k - 1)
        }
    }
}

/// The way from the injection point up to `root`.
pub open spec fn path(nodes: Seq<NodeView>, marked: spec_fn(NodeId) -> bool, root: NodeId) -> Seq<
    NodeId,
> {
    path_from(nodes, marked, root, nodes[root as int].children().len() as int)
}

/// The error with which `node` refuses a list of as many children as it has,
/// if it refuses one.
pub open spec fn refusal(node: NodeView) -> Option<PlanError> {
    match node.with_new_children(node.children()) {
        Ok(_) => None,
        Err(e) => Some(e),
    }
}

/// The refusal of the lowest node on `way`, its first entry left out, that
/// refuses its new children.
pub open spec fn first_refusal(nodes: Seq<NodeView>, way: Seq<NodeId>) -> Option<PlanError>
    decreases way.len(),
{
    if way.len() <= 1 {
        None
    } else {
        match first_refusal(nodes, way.drop_last()) {
            Some(e) => Some(e),
            None => refusal(nodes[way.last() as int]),
        }
    }
}

/// Entry `i` of `grown`, counted from the end of `nodes`, is node `way[i]`
/// built anew, with the entry before it in the place of `way[i - 1]`.
pub open spec fn built_anew(
    nodes: Seq<NodeView>,
    way: Seq<NodeId>,
    grown: Seq<NodeView>,
    i: int,
) -> bool {
    nodes[way[i] as int].with_new_children(
        substitute(
            nodes[way[i] as int].children(),
            way[i - 1],
            (nodes.len() + i - 1) as NodeId,
        ),
    ) == Ok::<NodeView, PlanError>(grown[nodes.len() + i])
}

/// Whether a node accepts a list depends on the list's length alone.
pub proof fn lemma_refusal_by_length(node: NodeView, children: Seq<NodeId>)
    requires
        children.len() == node.children().len(),
    ensures
        match node.with_new_children(children) {
            Ok(built) => refusal(node) is None && built.children() == children,
            Err(e) => refusal(node) == Some(e),
        },
{
}

/// A decorator refuses every list that does not hold exactly one child.
pub proof fn lemma_decorator_refuses(node: NodeView, children: Seq<NodeId>)
    requires
        node.is_decorator(),
        children.len() != 1,
    ensures
        node.with_new_children(children) == Err::<NodeView, PlanError>(
            PlanError::UnsupportedShape,
        ),
{
}

/// A marked node of the plan leaves the way non-empty.
pub proof fn lemma_marked_gives_path(
    nodes: Seq<NodeView>,
    marked: spec_fn(NodeId) -> bool,
    id: NodeId,
    k: int,
    x: NodeId,
)
    requires
        0 <= k,
        in_plan_from(nodes, id, k, x),
        marked(x),
    ensures
        path_from(nodes, marked, id, k).len() > 0,
    decreases id, k,
{
    if k > 0 {
        let child = nodes[id as int].children()[nodes[id as int].children().len() - k];
        let width = nodes[child as int].children().len() as int;
        if child < id && in_plan_from(nodes, child, width, x) {
            lemma_marked_gives_path(nodes, marked, child, width, x);
        } else {
            lemma_marked_gives_path(nodes, marked, id, k - 1, x);
        }
    }
}

/// The way starts at a marked node of the plan below which nothing else is
/// marked, and ends at `id`.
pub proof fn lemma_path_start(
    nodes: Seq<NodeView>,
    marked: spec_fn(NodeId) -> bool,
    id: NodeId,
    k: int,
)
    requires
        0 <= k,
        path_from(nodes, marked, id, k).len() > 0,
    ensures
        ({
            let way = path_from(nodes, marked, id, k);
            let start = way[0];
            &&& marked(start)
            &&& way.last() == id
            &&& in_plan_from(nodes, id, k, start)
            &&& start == id ==> forall|x: NodeId|
                x != id && in_plan_from(nodes, id, k, x) ==> !marked(x)
            &&& start != id ==> forall|x: NodeId|
                x != start && in_plan(nodes, start, x) ==> !marked(x)
        }),
    decreases id, k,
{
    if k > 0 {
        let child = nodes[id as int].children()[nodes[id as int].children().len() - k];
        let width = nodes[child as int].children().len() as int;
        if child < id {
            let below = path_from(nodes, marked, child, width);
            if below.len() > 0 {
                lemma_path_start(nodes, marked, child, width);
                lemma_in_plan_bound(nodes, child, width, below[0]);
            } else {
                lemma_path_start(nodes, marked, id, k - 1);
                let way = path_from(nodes, marked, id, k);
                if way[0] == id {
                    assert forall|x: NodeId|
                        x != id && in_plan_from(nodes, id, k, x) implies !marked(x) by {
                        if in_plan_from(nodes, child, width, x) {
                            if marked(x) {
                                lemma_marked_gives_path(nodes, marked, child, width, x);
                            }
                        } else {
                            assert(in_plan_from(nodes, id, k - 1, x));
                        }
                    }
                }
            }
        } else {
            lemma_path_start(nodes, marked, id, k - 1);
            let way = path_from(nodes, marked, id, k);
            if way[0] == id {
                assert forall|x: NodeId|
                    x != id && in_plan_from(nodes, id, k, x) implies !marked(x) by {
                    assert(in_plan_from(nodes, id, k - 1, x));
                }
            }
        }
    }
}

/// A node of the plan under `id` is `id` or stands before it.
pub proof fn lemma_in_plan_bound(nodes: Seq<NodeView>, id: NodeId, k: int, x: NodeId)
    requires
        0 <= k,
        in_plan_from(nodes, id, k, x),
    ensures
        x <= id,
    decreases id, k,
{
    if k > 0 {
        let child = nodes[id as int].children()[nodes[id as int].children().len() - k];
        let width = nodes[child as int].children().len() as int;
        if child < id && in_plan_from(nodes, child, width, x) {
            lemma_in_plan_bound(nodes, child, width, x);
        } else {
            lemma_in_plan_bound(nodes, id, k - 1, x);
        }
    }
}

/// How a rewrite ends: without a match where the way is empty, with the
/// refusal of the lowest node on the way that refuses its new children, and
/// with a new plan where none does.
pub proof fn lemma_rewrite_outcome(
    nodes: Seq<NodeView>,
    marked: spec_fn(NodeId) -> bool,
    id: NodeId,
    k: int,
)
    requires
        children_precede(nodes),
        id < nodes.len(),
        0 <= k <= nodes[id as int].children().len(),
    ensures
        ({
            let way = path_from(nodes, marked, id, k);
            match rewrite_from(nodes, marked, id, k) {
                Rewrite::NoMatch => way.len() == 0,
                Rewrite::Failed(e) => way.len() > 0 && first_refusal(nodes, way) == Some(e),
                Rewrite::Done { .. } => way.len() > 0 && first_refusal(nodes, way) is None,
            }
        }),
    decreases id, k,
{
    if k > 0 {
        let own = nodes[id as int].children();
        let child = own[own.len() - k];
        let width = nodes[child as int].children().len() as int;
        lemma_rewrite_outcome(nodes, marked, child, width);
        let below = path_from(nodes, marked, child, width);
        match rewrite_from(nodes, marked, child, width) {
            Rewrite::NoMatch => {
                lemma_rewrite_outcome(nodes, marked, id, k - 1);
            },
            Rewrite::Failed(e) => {
                assert(below.push(id).drop_last() =~= below);
            },
            Rewrite::Done { nodes: grown, root } => {
                assert(below.push(id).drop_last() =~= below);
                lemma_refusal_by_length(nodes[id as int], substitute(own, child, root));
            },
        }
    }
}

/// What a rewrite that succeeds leaves behind. The nodes that were there are
/// untouched. One node was added for each node on the way: first a tap above
/// the way's first node, then each further node of the way built anew, with
/// the node added just before in the place of its child on the way and every
/// other child as it was. The last node added is the new root, and it shows
/// the shape of the old root.
pub proof fn lemma_rewrite_done(
    nodes: Seq<NodeView>,
    marked: spec_fn(NodeId) -> bool,
    id: NodeId,
    k: int,
)
    requires
        children_precede(nodes),
        id < nodes.len(),
        0 <= k <= nodes[id as int].children().len(),
        rewrite_from(nodes, marked, id, k) matches Rewrite::Done { nodes: grown, .. }
            && grown.len() <= usize::MAX,
    ensures
        ({
            let way = path_from(nodes, marked, id, k);
            let grown = rewrite_from(nodes, marked, id, k)->nodes;
            let root = rewrite_from(nodes, marked, id, k)->root;
            &&& way.len() >= 1
            &&& way.last() == id
            &&& grown.len() == nodes.len() + way.len()
            &&& root == grown.len() - 1
            &&& children_precede(grown)
            &&& forall|i: int| 0 <= i < nodes.len() ==> #[trigger] grown[i] == nodes[i]
            &&& grown[nodes.len() as int] == (NodeView::Tap { child: way[0] })
            &&& forall|i: int|
                #![trigger way[i]]
                #![trigger built_anew(nodes, way, grown, i)]
                1 <= i < way.len() ==> way[i] < nodes.len() && built_anew(nodes, way, grown, i)
            &&& shape_at(grown, root as int) == shape_at(nodes, id as int)
        }),
    decreases id, k,
{
    let grown = rewrite_from(nodes, marked, id, k)->nodes;
    let root = rewrite_from(nodes, marked, id, k)->root;
    if k <= 0 {
        lemma_grown_precede(nodes, NodeView::Tap { child: id });
        lemma_shape_stable(nodes, grown, id as int);
        lemma_source_is_operator(nodes, id as int);
    } else {
        let own = nodes[id as int].children();
        let child = own[own.len() - k];
        let width = nodes[child as int].children().len() as int;
        lemma_rewrite_outcome(nodes, marked, child, width);
        match rewrite_from(nodes, marked, child, width) {
            Rewrite::NoMatch => {
                lemma_rewrite_done(nodes, marked, id, k - 1);
            },
            Rewrite::Failed(e) => {},
            Rewrite::Done { nodes: lower, root: lower_root } => {
                lemma_rewrite_done(nodes, marked, child, width);
                let list = substitute(own, child, lower_root);
                let node = nodes[id as int].with_new_children(list)->Ok_0;
                lemma_refusal_by_length(nodes[id as int], list);
                lemma_grown_precede(lower, node);
                lemma_shape_stable(lower, grown, lower_root as int);
                lemma_source_is_operator(lower, lower_root as int);
            },
        }
    }
}

/// A node whose children are there can be added.
pub proof fn lemma_grown_precede(nodes: Seq<NodeView>, node: NodeView)
    requires
        children_precede(nodes),
        forall|j: int| 0 <= j < node.children().len() ==> (#[trigger] node.children()[j]) < nodes.len(),
    ensures
        children_precede(nodes.push(node)),
{
}

/// Where the predicate holds of no node of the plan, there is no match.
pub proof fn lemma_nothing_marked(
    nodes: Seq<NodeView>,
    marked: spec_fn(NodeId) -> bool,
    root: NodeId,
)
    requires
        children_precede(nodes),
        root < nodes.len(),
        forall|x: NodeId| in_plan(nodes, root, x) ==> !marked(x),
    ensures
        rewrite(nodes, marked, root) is NoMatch,
{
    let width = nodes[root as int].children().len() as int;
    lemma_rewrite_outcome(nodes, marked, root, width);
    if path(nodes, marked, root).len() > 0 {
        lemma_path_start(nodes, marked, root, width);
        assert(in_plan(nodes, root, path(nodes, marked, root)[0]));
    }
}

/// Where the predicate holds of a node of the plan, the rewrite puts a tap
/// into the plan or fails: it does not answer that there was no match.
pub proof fn lemma_something_marked(
    nodes: Seq<NodeView>,
    marked: spec_fn(NodeId) -> bool,
    root: NodeId,
    x: NodeId,
)
    requires
        children_precede(nodes),
        root < nodes.len(),
        in_plan(nodes, root, x),
        marked(x),
    ensures
        !(rewrite(nodes, marked, root) is NoMatch),
{
    let width = nodes[root as int].children().len() as int;
    lemma_rewrite_outcome(nodes, marked, root, width);
    lemma_marked_gives_path(nodes, marked, root, width, x);
}

/// The one tap that a rewrite adds stands above a node of the old plan of
/// which the predicate holds, and the predicate holds of no other node of the
/// plan under that node: of all that qualify, the deepest is taken.
pub proof fn lemma_tap_above_deepest(
    nodes: Seq<NodeView>,
    marked: spec_fn(NodeId) -> bool,
    root: NodeId,
)
    requires
        children_precede(nodes),
        root < nodes.len(),
        rewrite(nodes, marked, root) matches Rewrite::Done { nodes: grown, .. } && grown.len()
            <= usize::MAX,
    ensures
        ({
            let grown = rewrite(nodes, marked, root)->nodes;
            let way = path(nodes, marked, root);
            let target = way[0];
            &&& grown[nodes.len() as int] == (NodeView::Tap { child: target })
            &&& in_plan(nodes, root, target)
            &&& marked(target)
            &&& forall|x: NodeId| x != target && in_plan(nodes, target, x) ==> !marked(x)
            &&& forall|i: int|
                nodes.len() < i < grown.len() ==> (#[trigger] grown[i] is Tap) == (nodes[way[i
                    - nodes.len()] as int] is Tap)
        }),
{
    let width = nodes[root as int].children().len() as int;
    lemma_rewrite_done(nodes, marked, root, width);
    lemma_path_start(nodes, marked, root, width);
}

/// A rewrite changes nothing of what the plan shows to its consumers: the new
/// root has the schema, the ordering and the partitioning of the old one.
pub proof fn lemma_shape_preserved(
    before: PlanArena,
    after: PlanArena,
    marked: spec_fn(NodeId) -> bool,
    root: NodeId,
    new_root: NodeId,
)
    requires
        before.wf(),
        root < before@.len(),
        rewrite(before@, marked, root) == (Rewrite::Done { nodes: after@, root: new_root }),
    ensures
        after.shape_of(new_root as int) == before.shape_of(root as int),
        after.shape_of(new_root as int).schema == before.shape_of(root as int).schema,
        after.shape_of(new_root as int).ordering == before.shape_of(root as int).ordering,
        after.shape_of(new_root as int).partitioning == before.shape_of(
            root as int,
        ).partitioning,
{
    after.lemma_len_fits();
    lemma_rewrite_done(before@, marked, root, before@[root as int].children().len() as int);
}

/// A rewrite shares what it does not have to change. The nodes that were
/// there stay as they were, and a node that was built anew names each child
/// of the old node that was not replaced itself: what hangs below such a
/// child is in both plans, and it is the same nodes.
pub proof fn lemma_siblings_shared(
    nodes: Seq<NodeView>,
    marked: spec_fn(NodeId) -> bool,
    root: NodeId,
    i: int,
    place: int,
)
    requires
        children_precede(nodes),
        root < nodes.len(),
        rewrite(nodes, marked, root) matches Rewrite::Done { nodes: grown, .. } && grown.len()
            <= usize::MAX,
        1 <= i < path(nodes, marked, root).len(),
        0 <= place < nodes[path(nodes, marked, root)[i] as int].children().len(),
    ensures
        ({
            let grown = rewrite(nodes, marked, root)->nodes;
            let way = path(nodes, marked, root);
            let old_children = nodes[way[i] as int].children();
            let new_children = grown[nodes.len() + i].children();
            &&& new_children.len() == old_children.len()
            &&& old_children[place] != way[i - 1] ==> new_children[place] == old_children[place]
                && grown[new_children[place] as int] == nodes[old_children[place] as int]
            &&& old_children[place] == way[i - 1] ==> new_children[place] == nodes.len() + i - 1
        }),
{
    let grown = rewrite(nodes, marked, root)->nodes;
    let way = path(nodes, marked, root);
    let old_children = nodes[way[i] as int].children();
    lemma_rewrite_done(nodes, marked, root, nodes[root as int].children().len() as int);
    assert(built_anew(nodes, way, grown, i));
    lemma_refusal_by_length(
        nodes[way[i] as int],
        substitute(old_children, way[i - 1], (nodes.len() + i - 1) as NodeId),
    );
    assert(old_children[place] < way[i]);
}

/// The number of taps in the plan under `id`, where below `id` only the
/// last `k` children count. A node that the plan reaches on two
/// ways is counted twice.
pub open spec fn taps_from(nodes: Seq<NodeView>, id: NodeId, k: int) -> nat
    decreases id, k,
{
    if k <= 0 {
        if nodes[id as int] is Tap {
            1
        } else {
            0
        }
    } else {
        let child = nodes[id as int].children()[nodes[id as int].children().len() - k];
        if child < id {
            taps_from(nodes, child, nodes[child as int].children().len() as int) + taps_from(
                nodes,
                id,
                k - 1,
            )
        } else {
            taps_from(nodes, id, k - 1)
        }
    }
}

/// The number of taps in the plan under `root`.
pub open spec fn taps(nodes: Seq<NodeView>, root: NodeId) -> nat {
    taps_from(nodes, root, nodes[root as int].children().len() as int)
}

/// No node names one child twice.
pub open spec fn children_distinct(nodes: Seq<NodeView>) -> bool {
    forall|i: int, a: int, b: int|
        0 <= i < nodes.len() && 0 <= a < b < nodes[i].children().len() ==> (
        #[trigger] nodes[i].children()[a]) != (#[trigger] nodes[i].children()[b])
}

/// Nodes that are added later change the number of taps under none that is
/// there.
pub proof fn lemma_taps_stable(before: Seq<NodeView>, after: Seq<NodeView>, id: NodeId, k: int)
    requires
        children_precede(before),
        before.len() <= after.len(),
        forall|i: int| 0 <= i < before.len() ==> before[i] == after[i],
        id < before.len(),
        0 <= k <= before[id as int].children().len(),
    ensures
        taps_from(after, id, k) == taps_from(before, id, k),
    decreases id, k,
{
    if k > 0 {
        let child = before[id as int].children()[before[id as int].children().len() - k];
        lemma_taps_stable(before, after, child, before[child as int].children().len() as int);
        lemma_taps_stable(before, after, id, k - 1);
    }
}

/// A node that was built anew over its own children, but for the one at
/// position `place`, has under it the taps of the old node and, in addition,
/// those that the new child has more than the old one.
proof fn lemma_taps_rebuilt(
    nodes: Seq<NodeView>,
    lower: Seq<NodeView>,
    id: NodeId,
    place: int,
    new_child: NodeId,
    j: int,
)
    requires
        children_precede(nodes),
        children_distinct(nodes),
        children_precede(lower),
        nodes.len() <= lower.len(),
        forall|i: int| 0 <= i < nodes.len() ==> nodes[i] == lower[i],
        id < nodes.len(),
        0 <= place < nodes[id as int].children().len(),
        new_child < lower.len() <= usize::MAX,
        nodes[id as int].with_new_children(
            substitute(
                nodes[id as int].children(),
                nodes[id as int].children()[place],
                new_child,
            ),
        ) is Ok,
        0 <= j <= nodes[id as int].children().len(),
    ensures
        ({
            let own = nodes[id as int].children();
            let node = nodes[id as int].with_new_children(
                substitute(own, own[place], new_child),
            )->Ok_0;
            let grown = lower.push(node);
            taps_from(grown, lower.len() as NodeId, j) + (if own.len() - j <= place {
                taps(nodes, own[place])
            } else {
                0
            }) == taps_from(nodes, id, j) + (if own.len() - j <= place {
                taps(lower, new_child)
            } else {
                0
            })
        }),
    decreases j,
{
    let own = nodes[id as int].children();
    let list = substitute(own, own[place], new_child);
    let node = nodes[id as int].with_new_children(list)->Ok_0;
    let grown = lower.push(node);
    lemma_refusal_by_length(nodes[id as int], list);
    if j > 0 {
        lemma_taps_rebuilt(nodes, lower, id, place, new_child, j - 1);
        let old_child = own[own.len() - j];
        if own.len() - j == place {
            lemma_taps_stable(
                lower,
                grown,
                new_child,
                lower[new_child as int].children().len() as int,
            );
        } else {
            lemma_taps_stable(
                nodes,
                grown,
                old_child,
                nodes[old_child as int].children().len() as int,
            );
        }
    }
}

/// In a plan in which no node names one child twice, a rewrite that succeeds
/// adds exactly one tap: the new plan holds one tap more than the old one.
pub proof fn lemma_rewrite_adds_one_tap(
    nodes: Seq<NodeView>,
    marked: spec_fn(NodeId) -> bool,
    id: NodeId,
    k: int,
)
    requires
        children_precede(nodes),
        children_distinct(nodes),
        id < nodes.len(),
        0 <= k <= nodes[id as int].children().len(),
        rewrite_from(nodes, marked, id, k) matches Rewrite::Done { nodes: grown, .. }
            && grown.len() <= usize::MAX,
    ensures
        ({
            let grown = rewrite_from(nodes, marked, id, k)->nodes;
            let root = rewrite_from(nodes, marked, id, k)->root;
            taps(grown, root) == taps(nodes, id) + 1
        }),
    decreases id, k,
{
    let grown = rewrite_from(nodes, marked, id, k)->nodes;
    let root = rewrite_from(nodes, marked, id, k)->root;
    let own = nodes[id as int].children();
    if k <= 0 {
        let top = nodes.len() as NodeId;
        assert(taps_from(grown, top, 0) == 1);
        lemma_taps_stable(nodes, grown, id, own.len() as int);
    } else {
        let child = own[own.len() - k];
        let width = nodes[child as int].children().len() as int;
        match rewrite_from(nodes, marked, child, width) {
            Rewrite::NoMatch => {
                lemma_rewrite_adds_one_tap(nodes, marked, id, k - 1);
            },
            Rewrite::Failed(e) => {},
            Rewrite::Done { nodes: lower, root: lower_root } => {
                let list = substitute(own, child, lower_root);
                lemma_refusal_by_length(nodes[id as int], list);
                lemma_rewrite_done(nodes, marked, child, width);
                lemma_rewrite_adds_one_tap(nodes, marked, child, width);
                lemma_taps_rebuilt(nodes, lower, id, own.len() - k, lower_root, own.len() as int);
            },
        }
    }
}

/// A tap shows the shape of the node below it, and that node is its only
/// child: taking the tap away again gives back the node with the shape it
/// had.
pub proof fn lemma_wrap_unwrap(nodes: Seq<NodeView>, id: NodeId)
    requires
        children_precede(nodes),
        id < nodes.len(),
    ensures
        ({
            let wrapped = nodes.push(NodeView::Tap { child: id });
            let tap = nodes.len() as int;
            &&& wrapped[tap].children() == seq![id]
            &&& shape_at(wrapped, tap) == shape_at(nodes, id as int)
            &&& shape_at(wrapped, wrapped[tap].children()[0] as int) == shape_at(nodes, id as int)
            &&& wrapped[id as int] == nodes[id as int]
        }),
{
    let wrapped = nodes.push(NodeView::Tap { child: id });
    lemma_shape_stable(nodes, wrapped, id as int);
}

} // verus!
