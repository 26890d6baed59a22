use fragment_manager::manager::store::FragmentManager;
use fragment_manager::manager::transaction::{Transaction, WriteOp};
use fragment_manager::model::common::{
    ActorState, ActorStatus, FragmentType, ParallelUnit, ParallelUnitMapping, SourceSplit, State,
};
use fragment_manager::model::stream::StreamActor;
use fragment_manager::model::table_fragments::{Fragment, TableFragments};
use fragment_manager::ord_map::OrdMap;

fn actor(id: u32) -> StreamActor {
    StreamActor {
        actor_id: id,
        fragment_id: 1,
        nodes: None,
        dispatcher: vec![],
        upstream_actor_id: vec![],
        vnode_bitmap: None,
    }
}

fn fragment(id: u32, units: Option<Vec<u32>>) -> Fragment {
    Fragment {
        fragment_id: id,
        fragment_type: FragmentType::Internal,
        actors: vec![actor(id * 10)],
        vnode_mapping: units
            .map(|data| ParallelUnitMapping { fragment_id: id, original_indices: vec![1, 2, 3], data }),
        state_table_ids: vec![],
    }
}

fn job(id: u32, fragments: Vec<Fragment>) -> TableFragments {
    let mut map = OrdMap::new();
    for f in fragments {
        map.insert(f.fragment_id, f);
    }
    TableFragments::new(id, map)
}

fn split(byte: u8) -> SourceSplit {
    SourceSplit { encoded: vec![byte] }
}

#[test]
fn an_ordered_map_keeps_its_keys_ascending() {
    let mut m: OrdMap<u32> = OrdMap::new();
    assert!(m.is_empty());
    assert_eq!(m.insert(5, 50), None);
    assert_eq!(m.insert(1, 10), None);
    assert_eq!(m.insert(3, 30), None);
    assert_eq!(m.insert(5, 51), Some(50));
    assert_eq!(m.len(), 3);
    assert_eq!(m.keys_vec(), vec![1, 3, 5]);
    assert_eq!(m.key_at(1), 3);
    assert_eq!(*m.value_at(2), 51);
    assert_eq!(m.position(3), Some(1));
    assert_eq!(m.position(4), None);
    assert!(m.contains_key(1));
    assert!(!m.contains_key(2));
    assert_eq!(m.get(3), Some(&30));
    assert_eq!(m.get(0), None);
    *m.value_at_mut(0) = 11;
    assert_eq!(m.replace_value_at(1, 31), 30);
    assert_eq!(m.remove(3), Some(31));
    assert_eq!(m.remove(3), None);
    assert_eq!(m.pop_last(), Some((5, 51)));
    assert_eq!(m.pop_last(), Some((1, 11)));
    assert_eq!(m.pop_last(), None);
}

#[test]
fn extend_from_prefers_the_new_entries() {
    let mut a: OrdMap<u32> = OrdMap::new();
    a.insert(1, 10);
    a.insert(2, 20);
    let mut b: OrdMap<u32> = OrdMap::new();
    b.insert(2, 21);
    b.insert(3, 31);
    a.extend_from(&b);
    assert_eq!(a.keys_vec(), vec![1, 2, 3]);
    assert_eq!(a.get(1), Some(&10));
    assert_eq!(a.get(2), Some(&21));
    assert_eq!(a.get(3), Some(&31));
}

#[test]
fn update_vnode_mapping_substitutes_known_units_only() {
    let mut tf = job(1, vec![fragment(1, Some(vec![1, 2, 3, 1])), fragment(2, None), fragment(3, Some(vec![3]))]);
    let mut moves = OrdMap::new();
    moves.insert(1, ParallelUnit { id: 7, worker_node_id: 9 });
    moves.insert(3, ParallelUnit { id: 1, worker_node_id: 9 });
    tf.update_vnode_mapping(&moves);
    assert_eq!(tf.fragments.get(1).unwrap().vnode_mapping, fragment(1, Some(vec![7, 2, 1, 7])).vnode_mapping);
    assert_eq!(tf.fragments.get(2).unwrap().vnode_mapping, None);
    assert_eq!(tf.fragments.get(3).unwrap().vnode_mapping, fragment(3, Some(vec![1])).vnode_mapping);
    assert_eq!(tf.fragments.get(1).unwrap().actors, vec![actor(10)]);
}

#[test]
fn update_actors_state_sets_every_actor() {
    let mut tf = job(1, vec![fragment(1, None)]);
    let unit = Some(ParallelUnit { id: 1, worker_node_id: 1 });
    tf.actor_status.insert(10, ActorStatus { parallel_unit: unit, state: ActorState::Inactive });
    tf.actor_status.insert(11, ActorStatus { parallel_unit: None, state: ActorState::Running });
    tf.update_actors_state(ActorState::Running);
    assert_eq!(tf.actor_status.get(10), Some(&ActorStatus { parallel_unit: unit, state: ActorState::Running }));
    assert_eq!(tf.actor_status.get(11), Some(&ActorStatus { parallel_unit: None, state: ActorState::Running }));
    tf.update_actors_state(ActorState::Inactive);
    assert_eq!(tf.actor_status.get(11).unwrap().state, ActorState::Inactive);
    tf.set_state(State::Created);
    assert_eq!(tf.state(), State::Created);
    assert_eq!(tf.table_id(), 1);
}

#[test]
fn set_actor_splits_replaces_and_the_later_fragment_wins() {
    let mut tf = job(1, vec![fragment(1, None)]);
    tf.actor_splits.insert(99, vec![split(9)]);
    let mut first = OrdMap::new();
    first.insert(10, vec![split(1)]);
    first.insert(11, vec![split(2)]);
    let mut second = OrdMap::new();
    second.insert(10, vec![split(3), split(4)]);
    let mut assignment = OrdMap::new();
    assignment.insert(5, second);
    assignment.insert(2, first);
    tf.set_actor_splits_by_split_assignment(&assignment);
    assert_eq!(tf.actor_splits.keys_vec(), vec![10, 11]);
    assert_eq!(tf.actor_splits.get(10), Some(&vec![split(3), split(4)]));
    assert_eq!(tf.actor_splits.get(11), Some(&vec![split(2)]));
    tf.set_actor_splits_by_split_assignment(&OrdMap::new());
    assert!(tf.actor_splits.is_empty());
}

#[test]
fn update_actor_splits_reaches_the_jobs_of_the_named_fragments() {
    let mut one = job(1, vec![fragment(1, None), fragment(2, None)]);
    one.actor_splits.insert(10, vec![split(0)]);
    one.actor_splits.insert(12, vec![split(5)]);
    let two = job(2, vec![fragment(3, None)]);
    let mut manager = FragmentManager::new(vec![one, two.clone()]);

    let mut of_two = OrdMap::new();
    of_two.insert(10, vec![split(1)]);
    of_two.insert(20, vec![split(2)]);
    let mut of_nine = OrdMap::new();
    of_nine.insert(30, vec![split(3)]);
    let mut assignment = OrdMap::new();
    assignment.insert(2, of_two);
    assignment.insert(9, of_nine);

    let pending = manager.update_actor_splits_by_split_assignment(&assignment).unwrap();
    assert!(pending.notifications.is_empty());
    let batch = pending.write_batch();
    assert_eq!(batch.len(), 1);
    assert!(matches!(batch[0], WriteOp::Put(1, _)));
    manager.commit(pending, true).unwrap();

    let one = manager.select_table_fragments_by_table_id(1).unwrap();
    assert_eq!(one.actor_splits.keys_vec(), vec![10, 12, 20]);
    assert_eq!(one.actor_splits.get(10), Some(&vec![split(1)]));
    assert_eq!(one.actor_splits.get(12), Some(&vec![split(5)]));
    assert_eq!(one.actor_splits.get(20), Some(&vec![split(2)]));
    assert_eq!(manager.select_table_fragments_by_table_id(2).unwrap(), two);
}

#[test]
fn a_transaction_shows_its_edits_and_writes_them_in_order_of_id() {
    let mut base = OrdMap::new();
    base.insert(1, job(1, vec![]));
    base.insert(2, job(2, vec![]));
    let mut txn = Transaction::new();
    assert_eq!(txn.get(&base, 1), Some(&job(1, vec![])));
    assert_eq!(txn.get(&base, 3), None);
    txn.insert(3, job(3, vec![]));
    txn.remove(1);
    txn.insert(2, job(2, vec![fragment(1, None)]));
    assert_eq!(txn.get(&base, 1), None);
    assert_eq!(txn.get(&base, 3), Some(&job(3, vec![])));
    assert_eq!(txn.get(&base, 2), Some(&job(2, vec![fragment(1, None)])));
    assert_eq!(
        txn.write_batch(),
        vec![
            WriteOp::Delete(1),
            WriteOp::Put(2, job(2, vec![fragment(1, None)])),
            WriteOp::Put(3, job(3, vec![])),
        ]
    );
    txn.apply(&mut base);
    assert_eq!(base.keys_vec(), vec![2, 3]);
    assert_eq!(base.get(2), Some(&job(2, vec![fragment(1, None)])));
}
