use crate::arena::{children_precede, PlanArena};
use crate::ops::tap::Tap;
use crate::plan::{NodeId, NodeView, PlanError, PlanNode};
use crate::theorems::built_anew;
use vstd::prelude::*;

verus! {

/// What rewriting a plan comes to.
pub ghost enum Rewrite {
    /// No node of the plan satisfies the predicate.
    NoMatch,
    /// The arena as it stands after the rewrite, and the root of the new plan.
    Done { nodes: Seq<NodeView>, root: NodeId },
    /// A node on the way from the injection point to the root refused its
    /// new children.
    Failed(PlanError),
}

/// `children` with `to` in each place where `from` stood.
pub open spec fn substitute(children: Seq<NodeId>, from: NodeId, to: NodeId) -> Seq<NodeId> {
    Seq::new(
        children.len(),
        |k: int|
            if children[k] == from {
                to
            } else {
                children[k]
            },
    )
}

/// The rewrite of the plan under `id`, given that of its children all but the
/// last `k` hold no match. The children are searched in their order.
/// The first that holds a match is replaced by its own rewrite, and `id` is
/// rebuilt over the new list. If none does, `id` itself is tested, and wrapped
/// in a tap where the predicate holds of it.
pub open spec fn rewrite_from(
    nodes: Seq<NodeView>,
    marked: spec_fn(NodeId) -> bool,
    id: NodeId,
    k: int,
) -> Rewrite
    decreases id, k,
{
    if k <= 0 {
        if marked(id) {
            Rewrite::Done {
                nodes: nodes.push(NodeView::Tap { child: id }),
                root: nodes.len() as NodeId,
            }
        } else {
            Rewrite::NoMatch
        }
    } else {
        let child = nodes[id as int].children()[nodes[id as int].children().len() - k];
        if child < id {
            match rewrite_from(
                nodes,
                marked,
                child,
                nodes[child as int].children().len() as int,
            ) {
                Rewrite::NoMatch => rewrite_from(nodes, marked, id, k - 1),
                Rewrite::Failed(e) => Rewrite::Failed(e),
                Rewrite::Done { nodes: grown, root } => match nodes[id as int].with_new_children(
                    substitute(nodes[id as int].children(), child, root),
                ) {
                    Ok(node) => Rewrite::Done {
                        nodes: grown.push(node),
                        root: grown.len() as NodeId,
                    },
                    Err(e) => Rewrite::Failed(e),
                },
            }
        } else {
            rewrite_from(nodes, marked, id, k - 1)
        }
    }
}

/// The rewrite of the plan under `id`: a tap is put above the first node, in
/// post-order with the children in their order, of which `marked` holds, and every
/// node from there up to `id` is built anew over its changed list of children.
pub open spec fn rewrite(nodes: Seq<NodeView>, marked: spec_fn(NodeId) -> bool, id: NodeId) -> Rewrite {
    rewrite_from(nodes, marked, id, nodes[id as int].children().len() as int)
}

/// Whether `x` is a node of the plan under `id`, where below `id` only the
/// last `k` children count.
pub open spec fn in_plan_from(nodes: Seq<NodeView>, id: NodeId, k: int, x: NodeId) -> bool
    decreases id, k,
{
    if k <= 0 {
        x == id
    } else {
        let child = nodes[id as int].children()[nodes[id as int].children().len() - k];
        (child < id && in_plan_from(
            nodes,
            child,
            nodes[child as int].children().len() as int,
            x,
        )) || in_plan_from(nodes, id, k - 1, x)
    }
}

/// Whether `x` is a node of the plan under `root`.
pub open spec fn in_plan(nodes: Seq<NodeView>, root: NodeId, x: NodeId) -> bool {
    in_plan_from(nodes, root, nodes[root as int].children().len() as int, x)
}

/// Whether `marked` says of each node of the plan under `root` what
/// `should_inject` answers when it is asked with the node's identity and the
/// node.
pub open spec fn decides<F: Fn(NodeId, &PlanNode) -> bool>(
    arena: PlanArena,
    root: NodeId,
    should_inject: F,
    marked: spec_fn(NodeId) -> bool,
) -> bool {
    forall|id: NodeId, answer: bool|
        in_plan(arena@, root, id) && #[trigger] should_inject.ensures(
            (id, &arena.node_at(id as int)),
            answer,
        ) ==> answer == marked(id)
}

/// Whether `r` and `after` are what a rewrite that came to `outcome` returns
/// and leaves behind in an arena that held `before`.
pub open spec fn answers(
    outcome: Rewrite,
    before: Seq<NodeView>,
    r: Result<Option<NodeId>, PlanError>,
    after: Seq<NodeView>,
) -> bool {
    match outcome {
        Rewrite::NoMatch => r == Ok::<Option<NodeId>, PlanError>(None) && after == before,
        Rewrite::Failed(e) => r == Err::<Option<NodeId>, PlanError>(e) && after == before,
        Rewrite::Done { nodes, root } => r == Ok::<Option<NodeId>, PlanError>(Some(root))
            && after == nodes,
    }
}

/// Whether `way` names, for each node that `after` holds more than `given`,
/// the node of `given` that it stands for: the first was put as a tap above
/// `way[0]`, and each further one is `way[i]` built anew, with the node added
/// just before in the place of `way[i - 1]`.
pub open spec fn traces(given: Seq<NodeView>, after: Seq<NodeView>, way: Seq<NodeId>) -> bool {
    &&& way.len() >= 1
    &&& after.len() == given.len() + way.len()
    &&& after[given.len() as int] == (NodeView::Tap { child: way[0] })
    &&& forall|i: int| 0 <= i < way.len() ==> (#[trigger] way[i]) < given.len()
    &&& forall|i: int| 1 <= i < way.len() ==> #[trigger] built_anew(given, way, after, i)
}

/// The root that a rewrite returned, without the way to it.
pub open spec fn root_of(r: Result<Option<(NodeId, Vec<NodeId>)>, PlanError>) -> Result<
    Option<NodeId>,
    PlanError,
> {
    match r {
        Ok(Some((root, _))) => Ok(Some(root)),
        Ok(None) => Ok(None),
        Err(e) => Err(e),
    }
}

/// One entry of the traversal's worklist: a node, the node it was reached
/// from, and whether its children have been handed out already.
#[derive(Clone, Copy)]
struct Visit {
    node: NodeId,
    parent: Option<NodeId>,
    second: bool,
}

/// What the traversal holds once it has found its node: the subtree built so
/// far, the node that it stands for, and the node that has to take it up next.
#[derive(Clone, Copy)]
enum Progress {
    Scanning,
    Injecting { replacement: NodeId, replaced: NodeId, next_parent: Option<NodeId> },
}

/// The number of nodes of the plan under `id`, counting below `id` the
/// last `k` children only.
spec fn visits_from(nodes: Seq<NodeView>, id: NodeId, k: int) -> nat
    decreases id, k,
{
    if k <= 0 {
        1
    } else {
        let child = nodes[id as int].children()[nodes[id as int].children().len() - k];
        if child < id {
            visits_from(nodes, child, nodes[child as int].children().len() as int) + visits_from(
                nodes,
                id,
                k - 1,
            )
        } else {
            visits_from(nodes, id, k - 1)
        }
    }
}

spec fn cost(nodes: Seq<NodeView>, visit: Visit) -> nat {
    if visit.second {
        1
    } else {
        2 * visits_from(nodes, visit.node, nodes[visit.node as int].children().len() as int)
    }
}

/// The work that a worklist stands for.
spec fn pending(nodes: Seq<NodeView>, stack: Seq<Visit>) -> nat
    decreases stack.len(),
{
    if stack.len() == 0 {
        0
    } else {
        pending(nodes, stack.drop_last()) + cost(nodes, stack.last())
    }
}

/// The worklist after `visit` was taken from above `rest` for the first time
/// and its last `j` children were handed out, the last of them first.
spec fn entered(rest: Seq<Visit>, visit: Visit, children: Seq<NodeId>, j: int) -> Seq<Visit>
    decreases j,
{
    if j <= 0 {
        rest.push(Visit { node: visit.node, parent: visit.parent, second: true })
    } else {
        entered(rest, visit, children, j - 1).push(
            Visit { node: children[children.len() - j], parent: Some(visit.node), second: false },
        )
    }
}

/// What the traversal returns when it goes on from `stack` and `progress`.
spec fn drain(
    given: Seq<NodeView>,
    marked: spec_fn(NodeId) -> bool,
    stack: Seq<Visit>,
    cur: Seq<NodeView>,
    progress: Progress,
) -> Rewrite
    decreases stack.len(),
{
    if stack.len() == 0 {
        match progress {
            Progress::Scanning => Rewrite::NoMatch,
            Progress::Injecting { replacement, .. } => Rewrite::Done {
                nodes: cur,
                root: replacement,
            },
        }
    } else {
        let top = stack.last();
        let rest = stack.drop_last();
        match progress {
            Progress::Scanning => {
                let found = if top.second {
                    rewrite_from(given, marked, top.node, 0)
                } else {
                    rewrite(given, marked, top.node)
                };
                match found {
                    Rewrite::NoMatch => drain(given, marked, rest, cur, progress),
                    Rewrite::Failed(e) => Rewrite::Failed(e),
                    Rewrite::Done { nodes, root } => drain(
                        given,
                        marked,
                        rest,
                        nodes,
                        Progress::Injecting {
                            replacement: root,
                            replaced: top.node,
                            next_parent: top.parent,
                        },
                    ),
                }
            },
            Progress::Injecting { replacement, replaced, next_parent } => {
                if top.second && next_parent == Some(top.node) {
                    match given[top.node as int].with_new_children(
                        substitute(given[top.node as int].children(), replaced, replacement),
                    ) {
                        Ok(node) => drain(
                            given,
                            marked,
                            rest,
                            cur.push(node),
                            Progress::Injecting {
                                replacement: cur.len() as NodeId,
                                replaced: top.node,
                                next_parent: top.parent,
                            },
                        ),
                        Err(e) => Rewrite::Failed(e),
                    }
                } else {
                    drain(given, marked, rest, cur, progress)
                }
            },
        }
    }
}

/// Entry `a` is the second visit of `q`, and all that lies between it and
/// position `upto` stands below `q` in the plan.
spec fn is_anchor(stack: Seq<Visit>, a: int, upto: int, q: NodeId) -> bool {
    &&& 0 <= a < upto <= stack.len()
    &&& stack[a].second
    &&& stack[a].node == q
    &&& forall|m: int| a < m < upto ==> (#[trigger] stack[m]).node < q
}

/// Every entry that was reached from a node lies above that node's second
/// visit, at the position that `anchors` gives, with nothing but the node's
/// descendants between them.
spec fn framed(stack: Seq<Visit>, anchors: Seq<int>) -> bool {
    &&& anchors.len() == stack.len()
    &&& forall|i: int|
        0 <= i < stack.len() ==> match (#[trigger] stack[i]).parent {
            Some(q) => stack[i].node < q && is_anchor(stack, anchors[i], i, q),
            None => true,
        }
}

/// The worklist's invariant: its entries name nodes of the plan, and are
/// framed.
spec fn stack_ok(stack: Seq<Visit>, anchors: Seq<int>, base: nat) -> bool {
    &&& framed(stack, anchors)
    &&& forall|i: int| 0 <= i < stack.len() ==> (#[trigger] stack[i]).node < base
}

/// What holds of an entry that lies on top of `rest`, or is about to.
spec fn fits(rest: Seq<Visit>, visit: Visit, below: int, base: nat) -> bool {
    &&& visit.node < base
    &&& match visit.parent {
        Some(q) => visit.node < q && is_anchor(rest, below, rest.len() as int, q),
        None => true,
    }
}

/// The positions that go with `entered`.
spec fn entered_anchors(anchors: Seq<int>, below: int, at: int, j: int) -> Seq<int>
    decreases j,
{
    if j <= 0 {
        anchors.push(below)
    } else {
        entered_anchors(anchors, below, at, j - 1).push(at)
    }
}

/// What the loop knows of the progress it has made.
spec fn progress_ok(
    stack: Seq<Visit>,
    anchor: int,
    cur: Seq<NodeView>,
    given: Seq<NodeView>,
    progress: Progress,
    way: Seq<NodeId>,
) -> bool {
    match progress {
        Progress::Scanning => cur == given && way.len() == 0,
        Progress::Injecting { replacement, replaced, next_parent } => {
            &&& traces(given, cur, way)
            &&& replaced == way.last()
            &&& replacement + 1 == cur.len()
            &&& given.len() < cur.len()
            &&& replaced < given.len()
            &&& match next_parent {
                Some(q) => is_anchor(stack, anchor, stack.len() as int, q),
                None => true,
            }
        },
    }
}

proof fn lemma_pending_push(nodes: Seq<NodeView>, stack: Seq<Visit>, visit: Visit)
    ensures
        pending(nodes, stack.push(visit)) == pending(nodes, stack) + cost(nodes, visit),
{
    assert(stack.push(visit).drop_last() =~= stack);
}

proof fn lemma_pop(stack: Seq<Visit>, anchors: Seq<int>, base: nat)
    requires
        stack_ok(stack, anchors, base),
        stack.len() > 0,
    ensures
        stack_ok(stack.drop_last(), anchors.drop_last(), base),
        fits(stack.drop_last(), stack.last(), anchors.last(), base),
{
}

proof fn lemma_push(stack: Seq<Visit>, anchors: Seq<int>, base: nat, visit: Visit, below: int)
    requires
        stack_ok(stack, anchors, base),
        fits(stack, visit, below, base),
    ensures
        stack_ok(stack.push(visit), anchors.push(below), base),
{
}

proof fn lemma_anchor_push(stack: Seq<Visit>, anchor: int, q: NodeId, visit: Visit)
    requires
        is_anchor(stack, anchor, stack.len() as int, q),
        visit.node < q,
    ensures
        is_anchor(stack.push(visit), anchor, stack.len() as int + 1, q),
{
}

proof fn lemma_anchor_pop(stack: Seq<Visit>, anchor: int, q: NodeId)
    requires
        is_anchor(stack, anchor, stack.len() as int, q),
        !(stack.last().second && stack.last().node == q),
    ensures
        is_anchor(stack.drop_last(), anchor, stack.len() as int - 1, q),
        stack.last().node < q,
{
    assert(stack.drop_last().len() == stack.len() - 1);
}

/// What holds of the worklist once `j` children of `visit` were handed out.
proof fn lemma_entered(
    given: Seq<NodeView>,
    rest: Seq<Visit>,
    anchors: Seq<int>,
    visit: Visit,
    below: int,
    j: int,
)
    requires
        children_precede(given),
        stack_ok(rest, anchors, given.len()),
        fits(rest, visit, below, given.len()),
        0 <= j <= given[visit.node as int].children().len(),
    ensures
        ({
            let stack = entered(rest, visit, given[visit.node as int].children(), j);
            let marks = entered_anchors(anchors, below, rest.len() as int, j);
            &&& stack.len() == rest.len() + 1 + j
            &&& stack_ok(stack, marks, given.len())
            &&& is_anchor(stack, rest.len() as int, stack.len() as int, visit.node)
            &&& pending(given, stack) + 1 == pending(given, rest) + 2 * visits_from(
                given,
                visit.node,
                j,
            )
        }),
    decreases j,
{
    let children = given[visit.node as int].children();
    if j == 0 {
        let second = Visit { node: visit.node, parent: visit.parent, second: true };
        lemma_push(rest, anchors, given.len(), second, below);
        lemma_pending_push(given, rest, second);
    } else {
        lemma_entered(given, rest, anchors, visit, below, j - 1);
        let lower = entered(rest, visit, children, j - 1);
        let lower_marks = entered_anchors(anchors, below, rest.len() as int, j - 1);
        let child = children[children.len() - j];
        let first = Visit { node: child, parent: Some(visit.node), second: false };
        lemma_push(lower, lower_marks, given.len(), first, rest.len() as int);
        lemma_anchor_push(lower, rest.len() as int, visit.node, first);
        lemma_pending_push(given, lower, first);
    }
}

/// An anchor below `rest` is still one once `visit`, which stands below the
/// anchor's node, and `j` of its children lie on top.
proof fn lemma_entered_anchor(
    given: Seq<NodeView>,
    rest: Seq<Visit>,
    visit: Visit,
    j: int,
    anchor: int,
    q: NodeId,
)
    requires
        children_precede(given),
        visit.node < given.len(),
        visit.node < q,
        is_anchor(rest, anchor, rest.len() as int, q),
        0 <= j <= given[visit.node as int].children().len(),
    ensures
        ({
            let stack = entered(rest, visit, given[visit.node as int].children(), j);
            &&& stack.len() == rest.len() + 1 + j
            &&& is_anchor(stack, anchor, stack.len() as int, q)
        }),
    decreases j,
{
    let children = given[visit.node as int].children();
    if j == 0 {
        let second = Visit { node: visit.node, parent: visit.parent, second: true };
        lemma_anchor_push(rest, anchor, q, second);
    } else {
        lemma_entered_anchor(given, rest, visit, j - 1, anchor, q);
        let lower = entered(rest, visit, children, j - 1);
        let child = children[children.len() - j];
        let first = Visit { node: child, parent: Some(visit.node), second: false };
        lemma_anchor_push(lower, anchor, q, first);
    }
}

/// While a replacement waits for the node above `visit`, the children of
/// `visit` change nothing, and its second visit rebuilds it.
proof fn lemma_drain_rebuild(
    given: Seq<NodeView>,
    marked: spec_fn(NodeId) -> bool,
    rest: Seq<Visit>,
    visit: Visit,
    j: int,
    cur: Seq<NodeView>,
    replacement: NodeId,
    replaced: NodeId,
)
    requires
        0 <= j,
    ensures
        drain(
            given,
            marked,
            entered(rest, visit, given[visit.node as int].children(), j),
            cur,
            Progress::Injecting { replacement, replaced, next_parent: Some(visit.node) },
        ) == match given[visit.node as int].with_new_children(
            substitute(given[visit.node as int].children(), replaced, replacement),
        ) {
            Ok(node) => drain(
                given,
                marked,
                rest,
                cur.push(node),
                Progress::Injecting {
                    replacement: cur.len() as NodeId,
                    replaced: visit.node,
                    next_parent: visit.parent,
                },
            ),
            Err(e) => Rewrite::Failed(e),
        },
    decreases j,
{
    let children = given[visit.node as int].children();
    let stack = entered(rest, visit, children, j);
    if j == 0 {
        assert(stack.drop_last() =~= rest);
    } else {
        assert(stack.drop_last() =~= entered(rest, visit, children, j - 1));
        lemma_drain_rebuild(given, marked, rest, visit, j - 1, cur, replacement, replaced);
    }
}

/// Handing out the last `j` children of `visit` and leaving its second visit
/// below them comes to the same as rewriting the plan under it with those
/// children alone.
proof fn lemma_drain_entered(
    given: Seq<NodeView>,
    marked: spec_fn(NodeId) -> bool,
    rest: Seq<Visit>,
    visit: Visit,
    j: int,
    cur: Seq<NodeView>,
    progress: Progress,
)
    requires
        children_precede(given),
        visit.node < given.len(),
        0 <= j <= given[visit.node as int].children().len(),
        progress matches Progress::Injecting { next_parent, .. } ==> next_parent != Some(
            visit.node,
        ),
    ensures
        drain(
            given,
            marked,
            entered(rest, visit, given[visit.node as int].children(), j),
            cur,
            progress,
        ) == match progress {
            Progress::Injecting { .. } => drain(given, marked, rest, cur, progress),
            Progress::Scanning => match rewrite_from(given, marked, visit.node, j) {
                Rewrite::NoMatch => drain(given, marked, rest, cur, progress),
                Rewrite::Failed(e) => Rewrite::Failed(e),
                Rewrite::Done { nodes, root } => drain(
                    given,
                    marked,
                    rest,
                    nodes,
                    Progress::Injecting {
                        replacement: root,
                        replaced: visit.node,
                        next_parent: visit.parent,
                    },
                ),
            },
        },
    decreases j,
{
    let children = given[visit.node as int].children();
    let stack = entered(rest, visit, children, j);
    if j == 0 {
        assert(stack.drop_last() =~= rest);
    } else {
        let below = entered(rest, visit, children, j - 1);
        assert(stack.drop_last() =~= below);
        let child = children[children.len() - j];
        lemma_drain_entered(given, marked, rest, visit, j - 1, cur, progress);
        if progress is Scanning {
            match rewrite(given, marked, child) {
                Rewrite::Done { nodes, root } => {
                    lemma_drain_rebuild(given, marked, rest, visit, j - 1, nodes, root, child);
                },
                _ => {},
            }
        }
    }
}

/// A node is a node of the plan under it.
proof fn lemma_in_own_plan(nodes: Seq<NodeView>, id: NodeId, k: int)
    requires
        0 <= k,
    ensures
        in_plan_from(nodes, id, k, id),
    decreases k,
{
    if k > 0 {
        lemma_in_own_plan(nodes, id, k - 1);
    }
}

/// What is in the plan when fewer children count is in it when more do.
proof fn lemma_in_plan_more(nodes: Seq<NodeView>, id: NodeId, k: int, more: int, x: NodeId)
    requires
        0 <= k <= more,
        in_plan_from(nodes, id, k, x),
    ensures
        in_plan_from(nodes, id, more, x),
    decreases more,
{
    if k < more {
        lemma_in_plan_more(nodes, id, k, more - 1, x);
    }
}

/// The children of a node of the plan are nodes of the plan.
proof fn lemma_child_in_plan(
    nodes: Seq<NodeView>,
    root: NodeId,
    k: int,
    node: NodeId,
    place: int,
)
    requires
        children_precede(nodes),
        root < nodes.len(),
        0 <= k <= nodes[root as int].children().len(),
        in_plan_from(nodes, root, k, node),
        0 <= place < nodes[node as int].children().len(),
    ensures
        node <= root,
        in_plan(nodes, root, nodes[node as int].children()[place]),
    decreases root, k,
{
    let own = nodes[root as int].children();
    let child = nodes[node as int].children()[place];
    if k <= 0 {
        assert(child < root);
        lemma_in_own_plan(nodes, child, nodes[child as int].children().len() as int);
        lemma_in_plan_more(nodes, root, 0, own.len() - place - 1, root);
        assert(in_plan_from(nodes, root, own.len() - place, child));
        lemma_in_plan_more(nodes, root, own.len() - place, own.len() as int, child);
    } else {
        let next = own[own.len() - k];
        assert(next < root);
        if in_plan_from(nodes, next, nodes[next as int].children().len() as int, node) {
            lemma_child_in_plan(
                nodes,
                next,
                nodes[next as int].children().len() as int,
                node,
                place,
            );
            lemma_in_plan_more(nodes, root, k, own.len() as int, child);
        } else {
            lemma_child_in_plan(nodes, root, k - 1, node, place);
        }
    }
}

/// Every entry of the worklist names a node of the plan under `root`.
spec fn all_in_plan(nodes: Seq<NodeView>, root: NodeId, stack: Seq<Visit>) -> bool {
    forall|i: int| 0 <= i < stack.len() ==> in_plan(nodes, root, (#[trigger] stack[i]).node)
}

/// Handing out the children of a node of the plan leaves only nodes of the
/// plan on the worklist.
proof fn lemma_entered_in_plan(
    given: Seq<NodeView>,
    root: NodeId,
    rest: Seq<Visit>,
    visit: Visit,
    j: int,
)
    requires
        children_precede(given),
        root < given.len(),
        all_in_plan(given, root, rest),
        in_plan(given, root, visit.node),
        0 <= j <= given[visit.node as int].children().len(),
    ensures
        all_in_plan(given, root, entered(rest, visit, given[visit.node as int].children(), j)),
    decreases j,
{
    let children = given[visit.node as int].children();
    let stack = entered(rest, visit, children, j);
    if j == 0 {
        assert forall|i: int| 0 <= i < stack.len() implies in_plan(
            given,
            root,
            (#[trigger] stack[i]).node,
        ) by {
            if i < rest.len() {
                assert(stack[i] == rest[i]);
            }
        }
    } else {
        lemma_entered_in_plan(given, root, rest, visit, j - 1);
        let lower = entered(rest, visit, children, j - 1);
        lemma_child_in_plan(
            given,
            root,
            given[root as int].children().len() as int,
            visit.node,
            children.len() - j,
        );
        assert forall|i: int| 0 <= i < stack.len() implies in_plan(
            given,
            root,
            (#[trigger] stack[i]).node,
        ) by {
            if i < lower.len() {
                assert(stack[i] == lower[i]);
            }
        }
    }
}

/// The way goes on by the node that was built anew over the node added last.
proof fn lemma_way_goes_on(
    given: Seq<NodeView>,
    lower: Seq<NodeView>,
    way: Seq<NodeId>,
    id: NodeId,
    node: NodeView,
)
    requires
        traces(given, lower, way),
        id < given.len(),
        lower.len() <= usize::MAX,
        given[id as int].with_new_children(
            substitute(given[id as int].children(), way.last(), (lower.len() - 1) as NodeId),
        ) == Ok::<NodeView, PlanError>(node),
    ensures
        traces(given, lower.push(node), way.push(id)),
{
    let after = lower.push(node);
    let longer = way.push(id);
    assert forall|i: int| 1 <= i < longer.len() implies #[trigger] built_anew(
        given,
        longer,
        after,
        i,
    ) by {
        if i < way.len() {
            assert(built_anew(given, way, lower, i));
            assert(longer[i] == way[i]);
            assert(longer[i - 1] == way[i - 1]);
            assert(after[given.len() + i] == lower[given.len() + i]);
        }
    }
    assert forall|i: int| 0 <= i < longer.len() implies (#[trigger] longer[i]) < given.len() by {
        if i < way.len() {
            assert(longer[i] == way[i]);
        }
    }
}

/// A worklist that holds the first visit of `root` and nothing else stands
/// for the rewrite of the plan under `root`.
proof fn lemma_drain_first(given: Seq<NodeView>, marked: spec_fn(NodeId) -> bool, root: NodeId)
    ensures
        drain(
            given,
            marked,
            seq![Visit { node: root, parent: None, second: false }],
            given,
            Progress::Scanning,
        ) == rewrite(given, marked, root),
{
    let stack = seq![Visit { node: root, parent: None, second: false }];
    assert(stack.drop_last() =~= Seq::<Visit>::empty());
    match rewrite(given, marked, root) {
        Rewrite::Done { nodes, root: new_root } => {
            assert(drain(
                given,
                marked,
                Seq::<Visit>::empty(),
                nodes,
                Progress::Injecting { replacement: new_root, replaced: root, next_parent: None },
            ) == rewrite(given, marked, root));
        },
        _ => {
            assert(drain(given, marked, Seq::<Visit>::empty(), given, Progress::Scanning)
                == Rewrite::NoMatch);
        },
    }
}

/// A node that is built anew names only nodes that are there: its old
/// children, and the replacement.
proof fn lemma_rebuilt_children(
    given: Seq<NodeView>,
    id: NodeId,
    from: NodeId,
    to: NodeId,
    bound: nat,
)
    requires
        children_precede(given),
        id < given.len() <= bound,
        to < bound,
    ensures
        match given[id as int].with_new_children(substitute(given[id as int].children(), from, to)) {
            Ok(node) => forall|k: int|
                0 <= k < node.children().len() ==> (#[trigger] node.children()[k]) < bound,
            Err(_) => true,
        },
{
    let own = given[id as int].children();
    let list = substitute(own, from, to);
}

/// A fresh list with `to` in each place where `from` stood.
fn substituted(children: &Vec<NodeId>, from: NodeId, to: NodeId) -> (r: Vec<NodeId>)
    ensures
        r@ == substitute(children@, from, to),
{
    let mut out: Vec<NodeId> = Vec::new();
    let mut k: usize = 0;
    while k < children.len()
        invariant
            k <= children.len(),
            out@ == substitute(children@, from, to).subrange(0, k as int),
        decreases children.len() - k,
    {
        let child = children[k];
        if child == from {
            out.push(to);
        } else {
            out.push(child);
        }
        k += 1;
    }
    out
}

/// Puts the second visit of `visit` on the worklist and, above it, the first
/// visit of each of its children, the first child on top.
fn hand_out(stack: &mut Vec<Visit>, visit: Visit, children: &Vec<NodeId>)
    ensures
        final(stack)@ == entered(old(stack)@, visit, children@, children@.len() as int),
{
    stack.push(Visit { node: visit.node, parent: visit.parent, second: true });
    let mut j: usize = 0;
    while j < children.len()
        invariant
            j <= children.len(),
            stack@ == entered(old(stack)@, visit, children@, j as int),
        decreases children.len() - j,
    {
        let child = children[children.len() - 1 - j];
        stack.push(Visit { node: child, parent: Some(visit.node), second: false });
        j += 1;
    }
}

/// As `inject_tap`, and hands out with the new root the way of the rewrite:
/// for each node that was added, in the order in which they were added, the
/// node of the old plan that it stands for. The first is the node below the
/// tap.
pub fn inject_tap_with_path<F: Fn(NodeId, &PlanNode) -> bool>(
    arena: &mut PlanArena,
    root: NodeId,
    should_inject: F,
) -> (r: Result<Option<(NodeId, Vec<NodeId>)>, PlanError>)
    requires
        old(arena).wf(),
        root < old(arena)@.len(),
        forall|id: NodeId|
            in_plan(old(arena)@, root, id) ==> should_inject.requires(
                (id, &#[trigger] old(arena).node_at(id as int)),
            ),
    ensures
        final(arena).wf(),
        final(arena).extends(old(arena)),
        match r {
            Ok(Some((new_root, way))) => new_root + 1 == final(arena)@.len() && traces(
                old(arena)@,
                final(arena)@,
                way@,
            ),
            _ => final(arena)@ == old(arena)@,
        },
        forall|marked: spec_fn(NodeId) -> bool| #[trigger]
            decides(*old(arena), root, should_inject, marked) ==> answers(
                rewrite(old(arena)@, marked, root),
                old(arena)@,
                root_of(r),
                final(arena)@,
            ),
{
    let mut way: Vec<NodeId> = Vec::new();
    let ghost start = *arena;
    let ghost given = arena@;
    let base = arena.len();
    let mut stack: Vec<Visit> = Vec::new();
    stack.push(Visit { node: root, parent: None, second: false });
    let mut progress = Progress::Scanning;
    let ghost mut anchors: Seq<int> = seq![-1int];
    let ghost mut anchor: int = -1;
    proof {
        assert forall|marked: spec_fn(NodeId) -> bool| #[trigger]
            decides(start, root, should_inject, marked) implies drain(
            given,
            marked,
            stack@,
            given,
            progress,
        ) == rewrite(given, marked, root) by {
            lemma_drain_first(given, marked, root);
        }
        lemma_in_own_plan(given, root, given[root as int].children().len() as int);
    }
    while stack.len() > 0
        invariant
            start.wf(),
            start == *old(arena),
            given == start@,
            base == given.len(),
            forall|id: NodeId|
                in_plan(start@, root, id) ==> should_inject.requires(
                    (id, &#[trigger] start.node_at(id as int)),
                ),
            root < given.len(),
            all_in_plan(given, root, stack@),
            arena.wf(),
            arena.extends(&start),
            stack_ok(stack@, anchors, given.len()),
            forall|marked: spec_fn(NodeId) -> bool| #[trigger]
                decides(start, root, should_inject, marked) ==> drain(
                    given,
                    marked,
                    stack@,
                    arena@,
                    progress,
                ) == rewrite(given, marked, root),
            progress_ok(stack@, anchor, arena@, given, progress, way@),
        decreases pending(given, stack@),
    {
        let ghost before = stack@;
        let ghost below = anchors.last();
        let visit = stack.pop().unwrap();
        let ghost rest = stack@;
        proof {
            lemma_pop(before, anchors, given.len());
            anchors = anchors.drop_last();
            assert(in_plan(given, root, before[before.len() - 1].node));
            assert forall|i: int| 0 <= i < rest.len() implies in_plan(
                given,
                root,
                (#[trigger] rest[i]).node,
            ) by {
                assert(rest[i] == before[i]);
            }

        }
        if !visit.second {
            let children = arena.node(visit.node).children();
            hand_out(&mut stack, visit, &children);
            proof {
                let k = children@.len() as int;
                lemma_entered(given, rest, anchors, visit, below, k);
                lemma_entered_in_plan(given, root, rest, visit, k);
                match progress {
                    Progress::Injecting { next_parent: Some(q), .. } => {
                        lemma_anchor_pop(before, anchor, q);
                        lemma_entered_anchor(given, rest, visit, k, anchor, q);
                    },
                    _ => {},
                }
                assert forall|marked: spec_fn(NodeId) -> bool| #[trigger]
                    decides(start, root, should_inject, marked) implies drain(
                    given,
                    marked,
                    stack@,
                    arena@,
                    progress,
                ) == rewrite(given, marked, root) by {
                    lemma_drain_entered(given, marked, rest, visit, k, arena@, progress);
                }
                anchors = entered_anchors(anchors, below, rest.len() as int, k);
            }
        } else {
            match progress {
                Progress::Scanning => {
                    let answer = should_inject(visit.node, arena.node(visit.node));
                    if answer {
                        let tap = arena.push(PlanNode::Tap(Tap::new(visit.node)));
                        way.push(visit.node);
                        progress =
                        Progress::Injecting {
                            replacement: tap,
                            replaced: visit.node,
                            next_parent: visit.parent,
                        };
                        proof {
                            anchor = below;
                        }
                    }
                },
                Progress::Injecting { replacement, replaced, next_parent } => {
                    let wanted = match next_parent {
                        Some(q) => q == visit.node,
                        None => false,
                    };
                    if wanted {
                        let node = arena.node(visit.node);
                        let children = node.children();
                        let new_children = substituted(&children, replaced, replacement);
                        match node.with_new_children(new_children) {
                            Ok(new_node) => {
                                proof {
                                    lemma_rebuilt_children(
                                        given,
                                        visit.node,
                                        replaced,
                                        replacement,
                                        arena@.len(),
                                    );
                                }
                                let ghost lower = arena@;
                                let ghost lower_arena = *arena;
                                let ghost new_view = new_node@;
                                let ghost before_way = way@;
                                let id = arena.push(new_node);
                                way.push(visit.node);
                                proof {
                                    lower_arena.lemma_len_fits();
                                    lemma_way_goes_on(
                                        given,
                                        lower,
                                        before_way,
                                        visit.node,
                                        new_view,
                                    );
                                }
                                progress =
                                Progress::Injecting {
                                    replacement: id,
                                    replaced: visit.node,
                                    next_parent: visit.parent,
                                };
                                proof {
                                    anchor = below;
                                }
                            },
                            Err(e) => {
                                arena.truncate(base);
                                assert(arena@ =~= given);
                                return Err(e);
                            },
                        }
                    } else {
                        proof {
                            match next_parent {
                                Some(q) => {
                                    lemma_anchor_pop(before, anchor, q);
                                },
                                None => {},
                            }
                        }
                    }
                },
            }
        }
    }
    match progress {
        Progress::Scanning => Ok(None),
        Progress::Injecting { replacement, .. } => Ok(Some((replacement, way))),
    }
}

/// Adds a tap to the plan under `root`, above the first node of which
/// `should_inject` answers yes, and returns the root of the new plan.
/// `should_inject` is asked with a node's identity and the node; it is not
/// asked again once it has said yes.
///
/// The plan is walked with a worklist, each node after its descendants and
/// the children in their order, so that of a node and a descendant that both qualify
/// the descendant is taken. From the tap up to the root each node is built
/// anew over its own children, with the new child in the place of the old
/// one; every other node of the new plan is a node of the old one. The old
/// plan stays as it was. Where no node qualifies the answer is `None`; where
/// a node refuses its new children the rewrite fails with that node's error.
/// In both cases the arena is left as it was found.
pub fn inject_tap<F: Fn(NodeId, &PlanNode) -> bool>(
    arena: &mut PlanArena,
    root: NodeId,
    should_inject: F,
) -> (r: Result<Option<NodeId>, PlanError>)
    requires
        old(arena).wf(),
        root < old(arena)@.len(),
        forall|id: NodeId|
            in_plan(old(arena)@, root, id) ==> should_inject.requires(
                (id, &#[trigger] old(arena).node_at(id as int)),
            ),
    ensures
        final(arena).wf(),
        final(arena).extends(old(arena)),
        match r {
            Ok(Some(new_root)) => old(arena)@.len() < final(arena)@.len() && new_root + 1
                == final(arena)@.len(),
            _ => final(arena)@ == old(arena)@,
        },
        forall|marked: spec_fn(NodeId) -> bool| #[trigger]
            decides(*old(arena), root, should_inject, marked) ==> answers(
                rewrite(old(arena)@, marked, root),
                old(arena)@,
                r,
                final(arena)@,
            ),
{
    match inject_tap_with_path(arena, root, should_inject) {
        Ok(Some((new_root, _))) => Ok(Some(new_root)),
        Ok(None) => Ok(None),
        Err(e) => Err(e),
    }
}

} // verus!
