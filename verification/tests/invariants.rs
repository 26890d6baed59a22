use std::collections::HashSet;

use fragment_manager::manager::store::FragmentManager;
use fragment_manager::model::common::{
    ActorMapping, ActorState, ActorStatus, FragmentType, ParallelUnit, ParallelUnitMapping,
    WorkerNode,
};
use fragment_manager::model::reschedule::Reschedule;
use fragment_manager::model::stream::{Dispatcher, StreamActor};
use fragment_manager::model::table_fragments::{Fragment, TableFragments};
use fragment_manager::ord_map::OrdMap;

fn actor(id: u32, fragment: u32, targets: Vec<u32>) -> StreamActor {
    let dispatcher = if targets.is_empty() {
        vec![]
    } else {
        vec![Dispatcher { dispatcher_id: 1, hash_mapping: None, downstream_actor_id: targets }]
    };
    StreamActor {
        actor_id: id,
        fragment_id: fragment,
        nodes: None,
        dispatcher,
        upstream_actor_id: vec![],
        vnode_bitmap: None,
    }
}

fn placed(worker: u32, unit: u32, state: ActorState) -> ActorStatus {
    ActorStatus { parallel_unit: Some(ParallelUnit { id: unit, worker_node_id: worker }), state }
}

fn fragment(id: u32, actors: Vec<StreamActor>, units: Vec<u32>) -> Fragment {
    Fragment {
        fragment_id: id,
        fragment_type: FragmentType::Internal,
        actors,
        vnode_mapping: Some(ParallelUnitMapping {
            fragment_id: id,
            original_indices: vec![127, 255],
            data: units,
        }),
        state_table_ids: vec![id],
    }
}

/// Fragment 1 (actors 11, 12) dispatches to fragment 2 (actors 21, 22).
fn two_stage_job(id: u32, base: u32) -> TableFragments {
    let up = base + 10;
    let down = base + 20;
    let mut map = OrdMap::new();
    map.insert(
        base + 1,
        fragment(
            base + 1,
            vec![
                actor(up + 1, base + 1, vec![down + 1, down + 2]),
                actor(up + 2, base + 1, vec![down + 1, down + 2]),
            ],
            vec![up + 1, up + 2],
        ),
    );
    map.insert(
        base + 2,
        fragment(
            base + 2,
            vec![actor(down + 1, base + 2, vec![]), actor(down + 2, base + 2, vec![])],
            vec![down + 1, down + 2],
        ),
    );
    let mut tf = TableFragments::new(id, map);
    for a in [up + 1, up + 2, down + 1, down + 2] {
        tf.actor_status.insert(a, placed(1, a, ActorState::Inactive));
    }
    tf
}

fn listed(job: &TableFragments) -> Vec<u32> {
    job.actor_ids()
}

fn no_actor_is_listed_twice(store: &Vec<TableFragments>) -> bool {
    let mut seen = HashSet::new();
    store.iter().flat_map(listed).all(|a| seen.insert(a))
}

fn statuses_cover_the_actors(job: &TableFragments) -> bool {
    let actors: HashSet<u32> = listed(job).into_iter().collect();
    let with_status: HashSet<u32> = job.actor_status.keys_vec().into_iter().collect();
    actors == with_status
}

fn dispatchers_are_closed(job: &TableFragments) -> bool {
    let actors: HashSet<u32> = listed(job).into_iter().collect();
    (0..job.fragments.len()).all(|i| {
        job.fragments.value_at(i).actors.iter().all(|a| {
            a.dispatcher.iter().all(|d| d.downstream_actor_id.iter().all(|t| actors.contains(t)))
        })
    })
}

fn mappings_are_consistent(job: &TableFragments) -> bool {
    (0..job.fragments.len()).all(|i| {
        let f = job.fragments.value_at(i);
        let units: HashSet<u32> = f
            .actors
            .iter()
            .filter_map(|a| job.actor_status.get(a.actor_id))
            .filter_map(|s| s.parallel_unit)
            .map(|u| u.id)
            .collect();
        match &f.vnode_mapping {
            Some(m) => m.data.iter().all(|p| units.contains(p)),
            None => true,
        }
    })
}

fn all_hold(manager: &FragmentManager) {
    let store = manager.list_table_fragments();
    assert!(no_actor_is_listed_twice(&store));
    for job in &store {
        assert!(statuses_cover_the_actors(job));
        assert!(dispatchers_are_closed(job));
        assert!(mappings_are_consistent(job));
    }
}

#[test]
fn the_invariants_hold_along_the_life_of_two_jobs() {
    let mut manager = FragmentManager::new(vec![]);
    all_hold(&manager);

    for (id, base) in [(1, 100), (2, 200)] {
        let pending = manager.start_create_table_fragments(two_stage_job(id, base)).unwrap();
        manager.commit(pending, true).unwrap();
        all_hold(&manager);
        let pending = manager.post_create_table_fragments(id, &vec![], &OrdMap::new()).unwrap();
        manager.commit(pending, true).unwrap();
        all_hold(&manager);
        let pending = manager.mark_table_fragments_created(id).unwrap();
        manager.commit(pending, true).unwrap();
        all_hold(&manager);
    }

    // Scale fragment 102 of job 1 out by actor 123 and in by actor 121.
    let mut built = OrdMap::new();
    built.insert(123, (actor(123, 102, vec![]), placed(1, 123, ActorState::Inactive)));
    let mut created = OrdMap::new();
    created.insert(102, built);
    let ledger = manager.pre_apply_reschedules(&created);
    all_hold(&manager);
    manager.cancel_apply_reschedules(&ledger);
    all_hold(&manager);
    manager.pre_apply_reschedules(&created);

    let mut plans = OrdMap::new();
    plans.insert(
        102,
        Reschedule {
            added_actors: vec![123],
            removed_actors: vec![121],
            vnode_bitmap_updates: OrdMap::new(),
            upstream_fragment_dispatcher_ids: vec![(101, 1)],
            upstream_dispatcher_mapping: Some(ActorMapping {
                original_indices: vec![127, 255],
                data: vec![122, 123],
            }),
            downstream_fragment_id: None,
            actor_splits: OrdMap::new(),
        },
    );
    let pending = manager.post_apply_reschedules(&plans).unwrap();
    manager.commit(pending, true).unwrap();
    all_hold(&manager);
    let job = manager.select_table_fragments_by_table_id(1).unwrap();
    assert_eq!(job.fragments.get(102).unwrap().actors.len(), 2);
    assert_eq!(job.fragments.get(101).unwrap().actors[0].dispatcher[0].downstream_actor_id, vec![122, 123]);

    // Move every actor of job 2 to worker 2, one new unit for each old one.
    let mut migrate = OrdMap::new();
    for a in [211, 212, 221, 222] {
        migrate.insert(a, 2);
    }
    let mut nodes = OrdMap::new();
    nodes.insert(
        2,
        WorkerNode {
            id: 2,
            parallel_units: (1..=4).map(|u| ParallelUnit { id: 900 + u, worker_node_id: 2 }).collect(),
        },
    );
    let pending = manager.migrate_actors(&migrate, &nodes).unwrap();
    manager.commit(pending, true).unwrap();
    all_hold(&manager);
    let job = manager.select_table_fragments_by_table_id(2).unwrap();
    assert_eq!(job.actor_status.get(211).unwrap().parallel_unit.unwrap().worker_node_id, 2);

    let pending = manager.drop_table_fragments_vec(&vec![1]).unwrap();
    manager.commit(pending, true).unwrap();
    all_hold(&manager);
    let pending = manager.cancel_create_table_fragments(2).unwrap();
    manager.commit(pending, true).unwrap();
    all_hold(&manager);
    assert!(manager.list_table_fragments().is_empty());
}
