use fragment_manager::error::MetaError;
use fragment_manager::manager::store::FragmentManager;
use fragment_manager::model::common::{
    ActorState, ActorStatus, FragmentType, ParallelUnit, ParallelUnitMapping, WorkerNode,
};
use fragment_manager::model::stream::StreamActor;
use fragment_manager::model::table_fragments::{Fragment, TableFragments};
use fragment_manager::notification::{Notification, Operation};
use fragment_manager::ord_map::OrdMap;

fn actor(id: u32, fragment: u32) -> StreamActor {
    StreamActor {
        actor_id: id,
        fragment_id: fragment,
        nodes: None,
        dispatcher: vec![],
        upstream_actor_id: vec![],
        vnode_bitmap: None,
    }
}

fn unit(worker: u32, id: u32) -> ParallelUnit {
    ParallelUnit { id, worker_node_id: worker }
}

fn running(worker: u32, id: u32) -> ActorStatus {
    ActorStatus { parallel_unit: Some(unit(worker, id)), state: ActorState::Running }
}

fn mapping(fragment: u32, units: Vec<u32>) -> ParallelUnitMapping {
    ParallelUnitMapping { fragment_id: fragment, original_indices: vec![63, 127, 255], data: units }
}

fn job(id: u32, fragment: u32, actors: Vec<(u32, ActorStatus)>, units: Vec<u32>) -> TableFragments {
    let mut map = OrdMap::new();
    map.insert(
        fragment,
        Fragment {
            fragment_id: fragment,
            fragment_type: FragmentType::Internal,
            actors: actors.iter().map(|(a, _)| actor(*a, fragment)).collect(),
            vnode_mapping: Some(mapping(fragment, units)),
            state_table_ids: vec![1],
        },
    );
    let mut tf = TableFragments::new(id, map);
    for (a, s) in actors {
        tf.actor_status.insert(a, s);
    }
    tf
}

fn workers() -> OrdMap<WorkerNode> {
    let mut nodes = OrdMap::new();
    nodes.insert(1, WorkerNode { id: 1, parallel_units: vec![unit(1, 1), unit(1, 2)] });
    nodes.insert(2, WorkerNode { id: 2, parallel_units: vec![unit(2, 3), unit(2, 4)] });
    nodes
}

#[test]
fn migrate_across_workers() {
    let stored = job(1, 10, vec![(100, running(1, 1)), (101, running(1, 2))], vec![1, 2, 1]);
    let mut manager = FragmentManager::new(vec![stored]);
    let mut migrate = OrdMap::new();
    migrate.insert(100, 2);
    migrate.insert(101, 2);
    let pending = manager.migrate_actors(&migrate, &workers()).unwrap();
    let notes = manager.commit(pending, true).unwrap();

    let after = manager.select_table_fragments_by_table_id(1).unwrap();
    let a = after.actor_status.get(100).unwrap().parallel_unit.unwrap();
    let b = after.actor_status.get(101).unwrap().parallel_unit.unwrap();
    assert!(a == unit(2, 3) || a == unit(2, 4));
    assert!(b == unit(2, 3) || b == unit(2, 4));
    assert_ne!(a, b);
    assert_eq!(a, unit(2, 4));
    assert_eq!(b, unit(2, 3));
    assert_eq!(
        after.fragments.get(10).unwrap().vnode_mapping,
        Some(mapping(10, vec![a.id, b.id, a.id]))
    );
    assert_eq!(after.actor_status.get(100).unwrap().state, ActorState::Running);
    assert_eq!(
        notes,
        vec![Notification { operation: Operation::Update, mapping: mapping(10, vec![4, 3, 4]) }]
    );
}

#[test]
fn an_actor_that_does_not_migrate_keeps_its_unit_and_its_job_is_not_staged() {
    let moving = job(1, 10, vec![(100, running(1, 1))], vec![1, 1, 1]);
    let staying = job(2, 20, vec![(200, running(1, 2))], vec![2, 2, 2]);
    let mut manager = FragmentManager::new(vec![moving, staying.clone()]);
    let mut migrate = OrdMap::new();
    migrate.insert(100, 2);
    let pending = manager.migrate_actors(&migrate, &workers()).unwrap();
    assert_eq!(pending.write_batch().len(), 1);
    manager.commit(pending, true).unwrap();
    assert_eq!(manager.select_table_fragments_by_table_id(2).unwrap(), staying);
    let moved = manager.select_table_fragments_by_table_id(1).unwrap();
    assert_eq!(moved.actor_status.get(100).unwrap().parallel_unit, Some(unit(2, 4)));
    assert_eq!(moved.fragments.get(10).unwrap().vnode_mapping, Some(mapping(10, vec![4, 4, 4])));
}

#[test]
fn actors_that_shared_a_unit_share_the_new_one() {
    let one = job(1, 10, vec![(100, running(1, 1))], vec![1, 1, 1]);
    let two = job(2, 20, vec![(200, running(1, 1)), (201, running(1, 2))], vec![1, 2, 2]);
    let mut manager = FragmentManager::new(vec![one, two]);
    let mut migrate = OrdMap::new();
    migrate.insert(100, 2);
    migrate.insert(200, 2);
    migrate.insert(201, 2);
    let pending = manager.migrate_actors(&migrate, &workers()).unwrap();
    manager.commit(pending, true).unwrap();
    let one = manager.select_table_fragments_by_table_id(1).unwrap();
    let two = manager.select_table_fragments_by_table_id(2).unwrap();
    assert_eq!(one.actor_status.get(100).unwrap().parallel_unit, Some(unit(2, 4)));
    assert_eq!(two.actor_status.get(200).unwrap().parallel_unit, Some(unit(2, 4)));
    assert_eq!(two.actor_status.get(201).unwrap().parallel_unit, Some(unit(2, 3)));
    assert_eq!(two.fragments.get(20).unwrap().vnode_mapping, Some(mapping(20, vec![4, 3, 3])));
}

#[test]
fn migration_fails_when_the_worker_has_no_unit_left() {
    let stored = job(
        1,
        10,
        vec![(100, running(1, 1)), (101, running(1, 2)), (102, running(1, 5))],
        vec![1, 2, 5],
    );
    let manager = FragmentManager::new(vec![stored.clone()]);
    let mut migrate = OrdMap::new();
    migrate.insert(100, 2);
    migrate.insert(101, 2);
    migrate.insert(102, 2);
    let r = manager.migrate_actors(&migrate, &workers());
    assert_eq!(r.err(), Some(MetaError::NoCapacity(2)));
    assert_eq!(manager.list_table_fragments(), vec![stored]);
}

#[test]
fn migration_fails_when_the_worker_is_unknown() {
    let stored = job(1, 10, vec![(100, running(1, 1))], vec![1, 1, 1]);
    let manager = FragmentManager::new(vec![stored]);
    let mut migrate = OrdMap::new();
    migrate.insert(100, 9);
    assert_eq!(manager.migrate_actors(&migrate, &workers()).err(), Some(MetaError::NoCapacity(9)));
}

#[test]
fn an_actor_without_unit_is_not_moved() {
    let mut stored = job(1, 10, vec![(100, running(1, 1))], vec![1, 1, 1]);
    stored.actor_status.insert(100, ActorStatus { parallel_unit: None, state: ActorState::Inactive });
    let manager = FragmentManager::new(vec![stored]);
    let mut migrate = OrdMap::new();
    migrate.insert(100, 2);
    let pending = manager.migrate_actors(&migrate, &workers()).unwrap();
    assert!(pending.write_batch().is_empty());
    assert!(pending.notifications.is_empty());
}
