use brad_qe::arena::PlanArena;
use brad_qe::ops::tap::Tap;
use brad_qe::plan::{
    Column, DataType, NodeId, Operator, OperatorKind, Partitioning, PlanError, PlanNode, Shape,
    SortKey,
};
use brad_qe::rewrite::{inject_tap, inject_tap_with_path};

fn shape_of_columns(names: &[&str], partitions: usize) -> Shape {
    Shape {
        schema: names
            .iter()
            .map(|name| Column {
                name: name.to_string(),
                data_type: DataType::Int64,
                nullable: true,
            })
            .collect(),
        ordering: None,
        partitioning: Partitioning::RoundRobin(partitions),
    }
}

fn operator(arena: &mut PlanArena, kind: OperatorKind, children: Vec<NodeId>) -> NodeId {
    let node = PlanNode::Operator(Operator::new(kind, shape_of_columns(&["k"], 2), children));
    arena.insert(node).unwrap()
}

fn is_kind(node: &PlanNode, kind: OperatorKind) -> bool {
    match node {
        PlanNode::Operator(op) => op.kind == kind,
        _ => false,
    }
}

fn arena_nodes(arena: &PlanArena) -> Vec<PlanNode> {
    (0..arena.len()).map(|id| arena.node(id).clone()).collect()
}

#[test]
fn no_match_returns_none_and_leaves_the_arena() {
    let mut arena = PlanArena::new();
    let scan = operator(&mut arena, OperatorKind::Scan, vec![]);
    let filter = operator(&mut arena, OperatorKind::Filter, vec![scan]);
    let root = operator(&mut arena, OperatorKind::Projection, vec![filter]);
    let before = arena_nodes(&arena);

    let result = inject_tap(&mut arena, root, |_id: NodeId, _node: &PlanNode| false);

    assert_eq!(result, Ok(None));
    assert_eq!(arena_nodes(&arena), before);
}

#[test]
fn tap_goes_above_the_deepest_match() {
    let mut arena = PlanArena::new();
    let scan = operator(&mut arena, OperatorKind::Scan, vec![]);
    let lower = operator(&mut arena, OperatorKind::Filter, vec![scan]);
    let upper = operator(&mut arena, OperatorKind::Filter, vec![lower]);
    let root = operator(&mut arena, OperatorKind::Projection, vec![upper]);
    let before = arena_nodes(&arena);

    let result = inject_tap(&mut arena, root, |_id: NodeId, node: &PlanNode| {
        is_kind(node, OperatorKind::Filter)
    });

    let new_root = result.unwrap().unwrap();
    assert_eq!(arena.len(), 7);
    assert_eq!(new_root, 6);
    assert_eq!(arena.node(4), &PlanNode::Tap(Tap::new(lower)));
    assert_eq!(arena.node(5).children(), vec![4]);
    assert!(is_kind(arena.node(5), OperatorKind::Filter));
    assert_eq!(arena.node(6).children(), vec![5]);
    assert!(is_kind(arena.node(6), OperatorKind::Projection));
    assert_eq!(&arena_nodes(&arena)[..4], &before[..]);
    let taps = arena_nodes(&arena)
        .iter()
        .filter(|node| matches!(node, PlanNode::Tap(_)))
        .count();
    assert_eq!(taps, 1);
}

#[test]
fn sealed_ancestor_fails_the_whole_rewrite() {
    let mut arena = PlanArena::new();
    let scan = operator(&mut arena, OperatorKind::Scan, vec![]);
    let sealed = PlanNode::Operator(Operator::sealed(
        OperatorKind::Limit,
        shape_of_columns(&["k"], 1),
        vec![scan],
    ));
    let root = arena.insert(sealed).unwrap();
    let before = arena_nodes(&arena);

    let result = inject_tap(&mut arena, root, |_id: NodeId, node: &PlanNode| {
        is_kind(node, OperatorKind::Scan)
    });

    assert_eq!(result, Err(PlanError::ChildrenFixed));
    assert_eq!(arena_nodes(&arena), before);
}

#[test]
fn ordering_survives_a_rewrite() {
    let mut arena = PlanArena::new();
    let sorted = Shape {
        schema: shape_of_columns(&["k", "v"], 1).schema,
        ordering: Some(vec![SortKey { column: 0, descending: true, nulls_first: false }]),
        partitioning: Partitioning::Hash(4),
    };
    let scan = operator(&mut arena, OperatorKind::Scan, vec![]);
    let root = arena
        .insert(PlanNode::Operator(Operator::new(OperatorKind::Sort, sorted.clone(), vec![scan])))
        .unwrap();

    let new_root = inject_tap(&mut arena, root, |_id: NodeId, node: &PlanNode| {
        is_kind(node, OperatorKind::Scan)
    })
    .unwrap()
    .unwrap();

    assert_eq!(arena.shape(new_root), &sorted);
    assert_eq!(arena.schema(new_root), arena.schema(root));
    assert_eq!(arena.output_ordering(new_root), arena.output_ordering(root));
    assert_eq!(arena.output_partitioning(new_root), Partitioning::Hash(4));
}

#[test]
fn children_are_searched_in_their_order() {
    let mut arena = PlanArena::new();
    let left = operator(&mut arena, OperatorKind::Scan, vec![]);
    let right = operator(&mut arena, OperatorKind::Scan, vec![]);
    let root = operator(&mut arena, OperatorKind::Join, vec![left, right]);

    let new_root = inject_tap(&mut arena, root, |_id: NodeId, node: &PlanNode| {
        is_kind(node, OperatorKind::Scan)
    })
    .unwrap()
    .unwrap();

    assert_eq!(arena.node(3), &PlanNode::Tap(Tap::new(left)));
    assert_eq!(arena.node(new_root).children(), vec![3, right]);
}

#[test]
fn predicate_is_not_asked_after_the_first_yes() {
    let mut arena = PlanArena::new();
    let left = operator(&mut arena, OperatorKind::Scan, vec![]);
    let right = operator(&mut arena, OperatorKind::Scan, vec![]);
    let root = operator(&mut arena, OperatorKind::Union, vec![left, right]);
    let asked = std::cell::RefCell::new(Vec::new());

    let result = inject_tap(&mut arena, root, |id: NodeId, _node: &PlanNode| {
        asked.borrow_mut().push(id);
        true
    });

    assert_eq!(result, Ok(Some(4)));
    assert_eq!(asked.into_inner(), vec![left]);
}

#[test]
fn matching_root_is_wrapped() {
    let mut arena = PlanArena::new();
    let scan = operator(&mut arena, OperatorKind::Scan, vec![]);
    let root = operator(&mut arena, OperatorKind::Limit, vec![scan]);

    let result = inject_tap(&mut arena, root, |id: NodeId, _node: &PlanNode| id == root);

    assert_eq!(result, Ok(Some(2)));
    assert_eq!(arena.len(), 3);
    assert_eq!(arena.node(2), &PlanNode::Tap(Tap::new(root)));
}

#[test]
fn subtrees_off_the_path_are_shared() {
    let mut arena = PlanArena::new();
    let a = operator(&mut arena, OperatorKind::Scan, vec![]);
    let b = operator(&mut arena, OperatorKind::Scan, vec![]);
    let left = operator(&mut arena, OperatorKind::Filter, vec![a]);
    let right = operator(&mut arena, OperatorKind::Projection, vec![b]);
    let join = operator(&mut arena, OperatorKind::Join, vec![left, right]);
    let root = operator(&mut arena, OperatorKind::Sort, vec![join]);
    let before = arena_nodes(&arena);

    let new_root = inject_tap(&mut arena, root, |_id: NodeId, node: &PlanNode| {
        is_kind(node, OperatorKind::Filter)
    })
    .unwrap()
    .unwrap();

    // Filter is wrapped; join and sort are built anew; the rest is shared.
    assert_eq!(arena.len(), before.len() + 3);
    assert_eq!(&arena_nodes(&arena)[..before.len()], &before[..]);
    let tap = before.len();
    assert_eq!(arena.node(tap), &PlanNode::Tap(Tap::new(left)));
    let new_join = arena.node(new_root).children()[0];
    assert_eq!(new_join, tap + 1);
    assert_eq!(arena.node(new_join).children(), vec![tap, right]);
    assert_eq!(arena.node(right).children(), vec![b]);
    // The old plan can still be read from its own root.
    assert_eq!(arena.node(root).children(), vec![join]);
    assert_eq!(arena.node(join).children(), vec![left, right]);
}

#[test]
fn node_shared_by_two_parents_is_kept_apart_by_identity() {
    let mut arena = PlanArena::new();
    let a = operator(&mut arena, OperatorKind::Scan, vec![]);
    let b = operator(&mut arena, OperatorKind::Scan, vec![]);
    let root = operator(&mut arena, OperatorKind::Join, vec![a, b]);
    assert_eq!(arena.node(a), arena.node(b));

    let new_root = inject_tap(&mut arena, root, |id: NodeId, _node: &PlanNode| id == a)
        .unwrap()
        .unwrap();

    assert_eq!(arena.node(new_root).children(), vec![3, b]);
}

#[test]
fn rewrite_goes_through_decorators() {
    let mut arena = PlanArena::new();
    let scan = operator(&mut arena, OperatorKind::Scan, vec![]);
    let tap = arena.insert(PlanNode::Tap(Tap::new(scan))).unwrap();
    let root = operator(&mut arena, OperatorKind::Limit, vec![tap]);

    let new_root = inject_tap(&mut arena, root, |_id: NodeId, node: &PlanNode| {
        is_kind(node, OperatorKind::Scan)
    })
    .unwrap()
    .unwrap();

    assert_eq!(arena.node(3), &PlanNode::Tap(Tap::new(scan)));
    assert_eq!(arena.node(4), &PlanNode::Tap(Tap::new(3)));
    assert_eq!(arena.node(new_root).children(), vec![4]);
    assert_eq!(arena.schema(new_root), arena.schema(root));
}

#[test]
fn rewritten_plan_can_be_rewritten_again() {
    let mut arena = PlanArena::new();
    let scan = operator(&mut arena, OperatorKind::Scan, vec![]);
    let root = operator(&mut arena, OperatorKind::Limit, vec![scan]);

    let first = inject_tap(&mut arena, root, |_id: NodeId, node: &PlanNode| {
        is_kind(node, OperatorKind::Scan)
    })
    .unwrap()
    .unwrap();
    let second = inject_tap(&mut arena, first, |_id: NodeId, node: &PlanNode| {
        is_kind(node, OperatorKind::Limit)
    })
    .unwrap()
    .unwrap();

    assert_eq!(arena.node(second), &PlanNode::Tap(Tap::new(first)));
    assert_eq!(arena.output_partitioning(second), arena.output_partitioning(root));
}

#[test]
fn sealed_node_off_the_path_does_not_matter() {
    let mut arena = PlanArena::new();
    let a = operator(&mut arena, OperatorKind::Scan, vec![]);
    let sealed = arena
        .insert(PlanNode::Operator(Operator::sealed(
            OperatorKind::Limit,
            shape_of_columns(&["k"], 1),
            vec![a],
        )))
        .unwrap();
    let b = operator(&mut arena, OperatorKind::Scan, vec![]);
    let root = operator(&mut arena, OperatorKind::Union, vec![sealed, b]);

    let result = inject_tap(&mut arena, root, |id: NodeId, _node: &PlanNode| id == b);

    assert_eq!(result, Ok(Some(5)));
    assert_eq!(arena.node(5).children(), vec![sealed, 4]);
}

#[test]
fn deeper_match_in_an_earlier_child_wins_over_a_later_sibling() {
    let mut arena = PlanArena::new();
    let c = operator(&mut arena, OperatorKind::Scan, vec![]);
    let a = operator(&mut arena, OperatorKind::Projection, vec![c]);
    let b = operator(&mut arena, OperatorKind::Scan, vec![]);
    let root = operator(&mut arena, OperatorKind::Join, vec![a, b]);

    let new_root = inject_tap(&mut arena, root, |id: NodeId, _node: &PlanNode| id == c || id == b)
        .unwrap()
        .unwrap();

    let new_a = arena.node(new_root).children()[0];
    let tap = arena.node(new_a).children()[0];
    assert_eq!(arena.node(tap), &PlanNode::Tap(Tap::new(c)));
    assert_eq!(arena.node(new_root).children()[1], b);
    assert_eq!(arena.len(), 7);
}

#[test]
fn way_names_the_nodes_that_the_new_ones_stand_for() {
    let mut arena = PlanArena::new();
    let c = operator(&mut arena, OperatorKind::Scan, vec![]);
    let a = operator(&mut arena, OperatorKind::Projection, vec![c]);
    let b = operator(&mut arena, OperatorKind::Scan, vec![]);
    let root = operator(&mut arena, OperatorKind::Join, vec![a, b]);

    let (new_root, way) =
        inject_tap_with_path(&mut arena, root, |id: NodeId, _node: &PlanNode| id == c)
            .unwrap()
            .unwrap();

    assert_eq!(way, vec![c, a, root]);
    assert_eq!(new_root, 6);
    assert_eq!(arena.node(4), &PlanNode::Tap(Tap::new(c)));
    assert_eq!(arena.node(5).children(), vec![4]);
    assert_eq!(arena.node(6).children(), vec![5, b]);
}

#[test]
fn no_match_has_no_way() {
    let mut arena = PlanArena::new();
    let scan = operator(&mut arena, OperatorKind::Scan, vec![]);
    let result = inject_tap_with_path(&mut arena, scan, |_id: NodeId, _node: &PlanNode| false);
    assert_eq!(result, Ok(None));
    assert_eq!(arena.len(), 1);
}
