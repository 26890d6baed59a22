use fragment_manager::error::MetaError;
use fragment_manager::manager::store::FragmentManager;
use fragment_manager::manager::transaction::WriteOp;
use fragment_manager::model::common::{
    ActorState, ActorStatus, FragmentType, ParallelUnit, ParallelUnitMapping, SourceSplit, State,
};
use fragment_manager::model::stream::{Dispatcher, StreamActor};
use fragment_manager::model::table_fragments::{Fragment, TableFragments};
use fragment_manager::notification::{Notification, Operation};
use fragment_manager::ord_map::OrdMap;

fn actor(id: u32, fragment: u32) -> StreamActor {
    StreamActor {
        actor_id: id,
        fragment_id: fragment,
        nodes: None,
        dispatcher: vec![],
        upstream_actor_id: vec![],
        vnode_bitmap: None,
    }
}

fn status(worker: u32, unit: u32, state: ActorState) -> ActorStatus {
    ActorStatus { parallel_unit: Some(ParallelUnit { id: unit, worker_node_id: worker }), state }
}

fn mapping(fragment: u32, units: Vec<u32>) -> ParallelUnitMapping {
    ParallelUnitMapping { fragment_id: fragment, original_indices: vec![255], data: units }
}

fn stateful_fragment(id: u32, kind: FragmentType, actors: Vec<StreamActor>, unit: u32) -> Fragment {
    Fragment {
        fragment_id: id,
        fragment_type: kind,
        actors,
        vnode_mapping: Some(mapping(id, vec![unit])),
        state_table_ids: vec![id + 1000],
    }
}

fn job(id: u32, fragments: Vec<Fragment>, statuses: Vec<(u32, ActorStatus)>) -> TableFragments {
    let mut map = OrdMap::new();
    for f in fragments {
        map.insert(f.fragment_id, f);
    }
    let mut tf = TableFragments::new(id, map);
    for (a, s) in statuses {
        tf.actor_status.insert(a, s);
    }
    tf
}

fn simple_job(id: u32, fragment: u32, actor_id: u32) -> TableFragments {
    job(
        id,
        vec![stateful_fragment(fragment, FragmentType::Sink, vec![actor(actor_id, fragment)], 1)],
        vec![(actor_id, status(1, 1, ActorState::Inactive))],
    )
}

fn commit(manager: &mut FragmentManager, pending: fragment_manager::manager::store::PendingCommit) -> Vec<Notification> {
    manager.commit(pending, true).unwrap()
}

#[test]
fn new_indexes_jobs_by_id_and_keeps_the_later_of_two() {
    let mut second = simple_job(1, 10, 100);
    second.state = State::Created;
    let manager = FragmentManager::new(vec![simple_job(2, 20, 200), simple_job(1, 10, 100), second.clone()]);
    let listed = manager.list_table_fragments();
    assert_eq!(listed.len(), 2);
    assert_eq!(listed[0], second);
    assert_eq!(listed[1], simple_job(2, 20, 200));
}

#[test]
fn start_create_then_commit_inserts_the_job() {
    let mut manager = FragmentManager::new(Vec::new());
    let pending = manager.start_create_table_fragments(simple_job(1, 10, 100)).unwrap();
    assert_eq!(pending.write_batch(), vec![WriteOp::Put(1, simple_job(1, 10, 100))]);
    let notes = commit(&mut manager, pending);
    assert!(notes.is_empty());
    let stored = manager.select_table_fragments_by_table_id(1).unwrap();
    assert_eq!(stored, simple_job(1, 10, 100));
    assert_eq!(stored.state(), State::Creating);
}

#[test]
fn start_create_refuses_a_job_that_exists() {
    let manager = FragmentManager::new(vec![simple_job(1, 10, 100)]);
    let r = manager.start_create_table_fragments(simple_job(1, 11, 101));
    assert_eq!(r.err(), Some(MetaError::JobExists(1)));
}

#[test]
fn create_and_activate() {
    let mut manager = FragmentManager::new(Vec::new());
    let pending = manager.start_create_table_fragments(simple_job(1, 10, 100)).unwrap();
    assert!(commit(&mut manager, pending).is_empty());

    let pending = manager.post_create_table_fragments(1, &Vec::new(), &OrdMap::new()).unwrap();
    let notes = commit(&mut manager, pending);
    assert_eq!(
        notes,
        vec![Notification { operation: Operation::Add, mapping: mapping(10, vec![1]) }]
    );
    let stored = manager.select_table_fragments_by_table_id(1).unwrap();
    assert_eq!(stored.state, State::Creating);
    assert_eq!(stored.actor_status.get(100).unwrap().state, ActorState::Running);

    let pending = manager.mark_table_fragments_created(1).unwrap();
    assert!(commit(&mut manager, pending).is_empty());
    let stored = manager.select_table_fragments_by_table_id(1).unwrap();
    assert_eq!(stored.state, State::Created);
    assert_eq!(stored.actor_status.get(100).unwrap().state, ActorState::Running);
}

#[test]
fn post_create_tells_nothing_of_a_fragment_without_state() {
    let mut plain = simple_job(1, 10, 100);
    let mut f = plain.fragments.remove(10).unwrap();
    f.state_table_ids = vec![];
    plain.fragments.insert(10, f);
    let manager = FragmentManager::new(vec![plain]);
    let pending = manager.post_create_table_fragments(1, &Vec::new(), &OrdMap::new()).unwrap();
    assert!(pending.notifications.is_empty());
}

#[test]
fn post_create_replaces_the_splits_and_splices_dispatchers_into_dependents() {
    let mut upstream = simple_job(1, 10, 100);
    upstream.state = State::Created;
    let mut creating = simple_job(2, 20, 200);
    creating.actor_splits.insert(999, vec![SourceSplit { encoded: vec![9] }]);
    let mut manager = FragmentManager::new(vec![upstream, creating]);

    let new_dispatcher =
        Dispatcher { dispatcher_id: 7, hash_mapping: None, downstream_actor_id: vec![200] };
    let mut patch = OrdMap::new();
    patch.insert(100, vec![new_dispatcher.clone()]);
    patch.insert(12345, vec![new_dispatcher.clone()]);
    let mut per_actor = OrdMap::new();
    per_actor.insert(200, vec![SourceSplit { encoded: vec![1, 2] }]);
    let mut assignment = OrdMap::new();
    assignment.insert(20, per_actor);

    let pending = manager.post_create_table_fragments(2, &vec![(1, patch)], &assignment).unwrap();
    commit(&mut manager, pending);

    let upstream = manager.select_table_fragments_by_table_id(1).unwrap();
    assert_eq!(upstream.fragments.get(10).unwrap().actors[0].dispatcher, vec![new_dispatcher]);
    assert_eq!(upstream.actor_status.get(100).unwrap().state, ActorState::Inactive);
    let created = manager.select_table_fragments_by_table_id(2).unwrap();
    assert_eq!(created.actor_status.get(200).unwrap().state, ActorState::Running);
    assert_eq!(created.actor_splits.len(), 1);
    assert_eq!(created.actor_splits.get(200), Some(&vec![SourceSplit { encoded: vec![1, 2] }]));
}

#[test]
fn post_create_reports_what_is_wrong() {
    let mut created = simple_job(1, 10, 100);
    created.state = State::Created;
    let manager = FragmentManager::new(vec![created, simple_job(2, 20, 200)]);
    let none = OrdMap::new();

    let r = manager.post_create_table_fragments(3, &Vec::new(), &none);
    assert_eq!(r.err(), Some(MetaError::JobNotFound(3)));

    let r = manager.post_create_table_fragments(1, &Vec::new(), &none);
    assert_eq!(
        r.err(),
        Some(MetaError::IllegalState { expected: State::Creating, actual: State::Created })
    );

    let deps = vec![(1, OrdMap::new()), (8, OrdMap::new()), (9, OrdMap::new())];
    let r = manager.post_create_table_fragments(2, &deps, &none);
    assert_eq!(r.err(), Some(MetaError::JobNotFound(8)));
}

#[test]
fn mark_created_reports_what_is_wrong() {
    let mut created = simple_job(1, 10, 100);
    created.state = State::Created;
    let manager = FragmentManager::new(vec![created]);
    assert_eq!(manager.mark_table_fragments_created(5).err(), Some(MetaError::JobNotFound(5)));
    assert_eq!(
        manager.mark_table_fragments_created(1).err(),
        Some(MetaError::IllegalState { expected: State::Creating, actual: State::Created })
    );
}

#[test]
fn cancel_create_twice_is_cancel_create_once() {
    let mut manager = FragmentManager::new(vec![simple_job(1, 10, 100), simple_job(2, 20, 200)]);
    let pending = manager.cancel_create_table_fragments(1).unwrap();
    assert_eq!(pending.write_batch(), vec![WriteOp::Delete(1)]);
    assert!(commit(&mut manager, pending).is_empty());
    let once = manager.list_table_fragments();
    assert_eq!(once, vec![simple_job(2, 20, 200)]);

    let pending = manager.cancel_create_table_fragments(1).unwrap();
    assert!(commit(&mut manager, pending).is_empty());
    assert_eq!(manager.list_table_fragments(), once);
}

#[test]
fn create_then_cancel_leaves_the_store_unchanged() {
    let mut manager = FragmentManager::new(vec![simple_job(2, 20, 200)]);
    let before = manager.list_table_fragments();
    let pending = manager.start_create_table_fragments(simple_job(1, 10, 100)).unwrap();
    commit(&mut manager, pending);
    assert_eq!(manager.list_table_fragments().len(), 2);
    let pending = manager.cancel_create_table_fragments(1).unwrap();
    commit(&mut manager, pending);
    assert_eq!(manager.list_table_fragments(), before);
}

#[test]
fn batch_update_replaces_jobs_and_announces_their_mappings() {
    let mut manager = FragmentManager::new(vec![simple_job(1, 10, 100), simple_job(2, 20, 200)]);
    let mut one = simple_job(1, 10, 100);
    one.state = State::Created;
    let mut two = simple_job(2, 20, 200);
    two.fragments.insert(21, stateful_fragment(21, FragmentType::Internal, vec![], 4));
    let pending = manager.batch_update_table_fragments(&vec![two.clone(), one.clone()]).unwrap();
    let notes = commit(&mut manager, pending);
    assert_eq!(
        notes,
        vec![
            Notification { operation: Operation::Update, mapping: mapping(20, vec![1]) },
            Notification { operation: Operation::Update, mapping: mapping(21, vec![4]) },
            Notification { operation: Operation::Update, mapping: mapping(10, vec![1]) },
        ]
    );
    assert_eq!(manager.list_table_fragments(), vec![one, two]);
}

#[test]
fn batch_update_fails_as_a_whole_if_a_job_is_absent() {
    let manager = FragmentManager::new(vec![simple_job(1, 10, 100)]);
    let r = manager
        .batch_update_table_fragments(&vec![simple_job(1, 10, 100), simple_job(7, 70, 700), simple_job(8, 80, 800)]);
    assert_eq!(r.err(), Some(MetaError::JobNotFound(7)));
    assert_eq!(manager.list_table_fragments(), vec![simple_job(1, 10, 100)]);
}

#[test]
fn a_refused_write_changes_nothing() {
    let mut manager = FragmentManager::new(vec![simple_job(1, 10, 100)]);
    let before = manager.list_table_fragments();
    let pending = manager.start_create_table_fragments(simple_job(2, 20, 200)).unwrap();
    assert_eq!(manager.commit(pending, false).err(), Some(MetaError::MetaStoreFailure));
    assert_eq!(manager.list_table_fragments(), before);
}
