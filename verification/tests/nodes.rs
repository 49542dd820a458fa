use brad_qe::arena::PlanArena;
use brad_qe::ops::filter::{Filter, FilterNode};
use brad_qe::ops::stream::{Batch, Polled, Step, StreamError};
use brad_qe::ops::tap::{StreamSource, Tap};
use brad_qe::plan::{
    copy_ids, Column, DataType, Operator, OperatorKind, Partitioning, PlanError, PlanNode, Shape,
    SortKey,
};

fn sample_shape() -> Shape {
    Shape {
        schema: vec![
            Column { name: "o_orderkey".to_string(), data_type: DataType::Int64, nullable: true },
            Column { name: "o_comment".to_string(), data_type: DataType::Utf8, nullable: false },
        ],
        ordering: Some(vec![SortKey { column: 0, descending: false, nulls_first: true }]),
        partitioning: Partitioning::Hash(8),
    }
}

fn keep_all(batch: &Batch<i64>) -> Result<Vec<bool>, StreamError> {
    Ok(batch.rows.iter().map(|_| true).collect())
}

fn keep_odd(batch: &Batch<i64>) -> Result<Vec<bool>, StreamError> {
    Ok(batch.rows.iter().map(|k| k % 2 != 0).collect())
}

fn leaf(arena: &mut PlanArena) -> usize {
    arena
        .insert(PlanNode::Operator(Operator::new(OperatorKind::Scan, sample_shape(), vec![])))
        .unwrap()
}

#[test]
fn new_arena_is_empty() {
    let arena = PlanArena::new();
    assert_eq!(arena.len(), 0);
    assert!(arena.get(0).is_none());
}

#[test]
fn insert_gives_consecutive_identities() {
    let mut arena = PlanArena::new();
    let a = leaf(&mut arena);
    let b = leaf(&mut arena);
    assert_eq!((a, b), (0, 1));
    assert_eq!(arena.len(), 2);
    assert!(arena.get(1).is_some());
    assert!(arena.get(2).is_none());
    assert_eq!(arena.node(0), arena.get(0).unwrap());
}

#[test]
fn insert_refuses_a_child_that_is_not_there() {
    let mut arena = PlanArena::new();
    let a = leaf(&mut arena);
    let dangling = PlanNode::Operator(Operator::new(
        OperatorKind::Join,
        sample_shape(),
        vec![a, 1],
    ));
    assert_eq!(arena.insert(dangling), Err(PlanError::UnknownChild));
    assert_eq!(arena.len(), 1);
    assert_eq!(arena.insert(PlanNode::Tap(Tap::new(7))), Err(PlanError::UnknownChild));
    assert_eq!(arena.insert(PlanNode::Filter(FilterNode::new(1))), Err(PlanError::UnknownChild));
    assert_eq!(arena.len(), 1);
}

#[test]
fn tap_shows_its_childs_shape() {
    let mut arena = PlanArena::new();
    let scan = leaf(&mut arena);
    let tap = Tap::new(scan);
    assert_eq!(tap.schema(&arena), &sample_shape().schema);
    assert_eq!(tap.output_ordering(&arena), &sample_shape().ordering);
    assert_eq!(tap.output_partitioning(&arena), Partitioning::Hash(8));
    let id = arena.insert(PlanNode::Tap(tap)).unwrap();
    assert_eq!(arena.shape(id), &sample_shape());
}

#[test]
fn filter_shows_its_childs_shape() {
    let mut arena = PlanArena::new();
    let scan = leaf(&mut arena);
    let filter = FilterNode::new(scan);
    assert_eq!(filter.schema(&arena), &sample_shape().schema);
    assert_eq!(filter.output_ordering(&arena), &sample_shape().ordering);
    assert_eq!(filter.output_partitioning(&arena), Partitioning::Hash(8));
    let id = arena.insert(PlanNode::Filter(filter)).unwrap();
    assert_eq!(arena.schema(id), arena.schema(scan));
    assert_eq!(arena.output_ordering(id), arena.output_ordering(scan));
    assert_eq!(arena.output_partitioning(id), arena.output_partitioning(scan));
}

#[test]
fn shape_is_found_below_a_chain_of_decorators() {
    let mut arena = PlanArena::new();
    let scan = leaf(&mut arena);
    let tap = arena.insert(PlanNode::Tap(Tap::new(scan))).unwrap();
    let filter = arena.insert(PlanNode::Filter(FilterNode::new(tap))).unwrap();
    let top = arena.insert(PlanNode::Tap(Tap::new(filter))).unwrap();
    assert_eq!(arena.shape(top), &sample_shape());
}

#[test]
fn wrapping_a_leaf_and_unwrapping_gives_the_leaf_back() {
    let mut arena = PlanArena::new();
    let scan = leaf(&mut arena);
    let schema = arena.schema(scan).clone();
    let ordering = arena.output_ordering(scan).clone();
    let partitioning = arena.output_partitioning(scan);
    let children = arena.node(scan).children();

    let tap = arena.insert(PlanNode::Tap(Tap::new(scan))).unwrap();
    let unwrapped = arena.node(tap).children()[0];

    assert_eq!(unwrapped, scan);
    assert_eq!(arena.schema(unwrapped), &schema);
    assert_eq!(arena.output_ordering(unwrapped), &ordering);
    assert_eq!(arena.output_partitioning(unwrapped), partitioning);
    assert_eq!(arena.node(unwrapped).children(), children);
    assert!(children.is_empty());
}

#[test]
fn decorators_have_one_child() {
    assert_eq!(Tap::new(3).children(), vec![3]);
    assert_eq!(FilterNode::new(4).children(), vec![4]);
    assert_eq!(Filter::new(4, keep_all).children(), vec![4]);
    assert_eq!(PlanNode::Tap(Tap::new(3)).children(), vec![3]);
    assert_eq!(PlanNode::Filter(FilterNode::new(4)).children(), vec![4]);
}

#[test]
fn tap_refuses_two_children() {
    assert_eq!(Tap::new(0).with_new_children(vec![1, 2]), Err(PlanError::UnsupportedShape));
    assert_eq!(Tap::new(0).with_new_children(vec![]), Err(PlanError::UnsupportedShape));
    assert_eq!(Tap::new(0).with_new_children(vec![5]), Ok(Tap::new(5)));
    assert_eq!(
        PlanNode::Tap(Tap::new(0)).with_new_children(vec![1, 2]),
        Err(PlanError::UnsupportedShape)
    );
}

#[test]
fn filter_refuses_two_children() {
    assert_eq!(
        FilterNode::new(0).with_new_children(vec![1, 2]),
        Err(PlanError::UnsupportedShape)
    );
    assert_eq!(FilterNode::new(0).with_new_children(vec![]), Err(PlanError::UnsupportedShape));
    assert_eq!(FilterNode::new(0).with_new_children(vec![5]), Ok(FilterNode::new(5)));
    let filter = Filter::new(0, keep_all);
    assert_eq!(filter.with_new_children(vec![1, 2]).err(), Some(PlanError::UnsupportedShape));
    assert_eq!(filter.with_new_children(vec![]).err(), Some(PlanError::UnsupportedShape));
    assert_eq!(
        PlanNode::Filter(FilterNode::new(0)).with_new_children(vec![9]),
        Ok(PlanNode::Filter(FilterNode::new(9)))
    );
}

#[test]
fn operator_keeps_its_arity() {
    let join = Operator::new(OperatorKind::Join, sample_shape(), vec![0, 1]);
    assert_eq!(join.with_new_children(vec![0]), Err(PlanError::ArityMismatch));
    assert_eq!(join.with_new_children(vec![0, 1, 2]), Err(PlanError::ArityMismatch));
    let rebuilt = join.with_new_children(vec![4, 5]).unwrap();
    assert_eq!(rebuilt.children, vec![4, 5]);
    assert_eq!(rebuilt.kind, OperatorKind::Join);
    assert_eq!(*rebuilt.shape, sample_shape());
    assert!(!rebuilt.sealed);
}

#[test]
fn sealed_operator_refuses_even_its_own_children() {
    let sealed = Operator::sealed(OperatorKind::Scan, sample_shape(), vec![]);
    assert!(sealed.sealed);
    assert_eq!(sealed.with_new_children(vec![]), Err(PlanError::ChildrenFixed));
    assert_eq!(sealed.with_new_children(vec![1]), Err(PlanError::ChildrenFixed));
}

#[test]
fn decorators_execute_their_child() {
    assert_eq!(Tap::new(3).execute(2), StreamSource { node: 3, partition: 2 });
    let (source, _stream) = Filter::new(5, keep_all).execute(0);
    assert_eq!(source, StreamSource { node: 5, partition: 0 });
}

#[test]
fn decorators_have_their_own_names() {
    assert_eq!(Tap::new(0).name(), "Tap");
    assert_eq!(FilterNode::new(0).name(), "TestFilterNode");
    assert_eq!(Filter::new(0, keep_all).name(), "TestFilterNode");
}

#[test]
fn partition_count_is_read_from_each_scheme() {
    assert_eq!(Partitioning::RoundRobin(3).partition_count(), 3);
    assert_eq!(Partitioning::Hash(16).partition_count(), 16);
    assert_eq!(Partitioning::Unknown(1).partition_count(), 1);
}

#[test]
fn copy_ids_copies() {
    assert_eq!(copy_ids(&vec![3, 1, 2]), vec![3, 1, 2]);
    assert_eq!(copy_ids(&vec![]), Vec::<usize>::new());
}

#[test]
fn filter_keeps_its_child_and_its_predicate() {
    let mut arena = PlanArena::new();
    let scan = leaf(&mut arena);
    let filter = Filter::new(scan, keep_odd);
    assert_eq!(filter.child, scan);
    assert_eq!(filter.children(), vec![scan]);
    assert_eq!(filter.schema(&arena), &sample_shape().schema);
    assert_eq!(filter.output_ordering(&arena), &sample_shape().ordering);
    assert_eq!(filter.output_partitioning(&arena), Partitioning::Hash(8));
    let id = arena.insert(filter.node()).unwrap();
    assert_eq!(arena.node(id), &PlanNode::Filter(FilterNode::new(scan)));
    assert_eq!(arena.shape(id), &sample_shape());
}

#[test]
fn filter_executes_its_child_through_its_predicate() {
    let filter = Filter::new(3, keep_odd);
    let (source, mut stream) = filter.execute(1);
    assert_eq!(source, StreamSource { node: 3, partition: 1 });
    assert!(!stream.is_ended());
    assert_eq!(
        stream.poll_next(Polled::Batch(Batch { rows: vec![1, 2, 3, 4] })),
        Step::Return(Polled::Batch(Batch { rows: vec![1, 3] }))
    );
    assert_eq!(stream.poll_next(Polled::Batch(Batch { rows: vec![2, 4] })), Step::Again);
}

#[test]
fn rebuilt_filter_filters_by_the_same_predicate() {
    let filter = Filter::new(3, keep_odd);
    let rebuilt = filter.with_new_children(vec![7]).ok().unwrap();
    assert_eq!(rebuilt.child, 7);
    let (source, mut stream) = rebuilt.execute(0);
    assert_eq!(source, StreamSource { node: 7, partition: 0 });
    assert_eq!(
        stream.poll_next(Polled::Batch(Batch { rows: vec![5, 6] })),
        Step::Return(Polled::Batch(Batch { rows: vec![5] }))
    );
}

#[test]
fn each_execution_has_a_stream_of_its_own() {
    let filter = Filter::new(3, keep_odd);
    let (_, mut first) = filter.execute(0);
    assert_eq!(first.poll_next::<i64>(Polled::Finished), Step::Return(Polled::Finished));
    assert!(first.is_ended());
    let (_, second) = filter.execute(0);
    assert!(!second.is_ended());
}
