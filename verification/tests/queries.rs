use fragment_manager::error::MetaError;
use fragment_manager::manager::store::FragmentManager;
use fragment_manager::model::common::{
    ActorState, ActorStatus, Buffer, FragmentType, ParallelUnit, ParallelUnitMapping,
};
use fragment_manager::model::stream::{ChainNode, NodeBody, StreamActor, StreamNode};
use fragment_manager::model::table_fragments::{Fragment, TableFragments};
use fragment_manager::ord_map::OrdMap;

fn actor(id: u32, fragment: u32) -> StreamActor {
    StreamActor {
        actor_id: id,
        fragment_id: fragment,
        nodes: None,
        dispatcher: vec![],
        upstream_actor_id: vec![],
        vnode_bitmap: Some(Buffer { body: vec![id as u8] }),
    }
}

fn chain_actor(id: u32, fragment: u32, tables: Vec<u32>) -> StreamActor {
    let mut a = actor(id, fragment);
    a.nodes = Some(StreamNode {
        operator_id: 0,
        node_body: NodeBody::Other,
        input: tables
            .into_iter()
            .map(|t| StreamNode {
                operator_id: 1,
                node_body: NodeBody::Chain(ChainNode { table_id: t }),
                input: vec![],
            })
            .collect(),
    });
    a
}

fn placed(worker: u32, unit: u32, state: ActorState) -> ActorStatus {
    ActorStatus { parallel_unit: Some(ParallelUnit { id: unit, worker_node_id: worker }), state }
}

fn fragment(id: u32, kind: FragmentType, actors: Vec<StreamActor>, tables: Vec<u32>) -> Fragment {
    Fragment {
        fragment_id: id,
        fragment_type: kind,
        actors,
        vnode_mapping: Some(ParallelUnitMapping {
            fragment_id: 0,
            original_indices: vec![255],
            data: vec![id],
        }),
        state_table_ids: tables,
    }
}

/// Job 1: source fragment 12 (actors 122 on worker 2 running, 121 on
/// worker 1 inactive), sink fragment 11 (actors 111 on worker 1 running,
/// 112 on worker 2 running), internal fragment 13 (actor 131 without
/// status).
fn job_one() -> TableFragments {
    let mut map = OrdMap::new();
    map.insert(12, fragment(12, FragmentType::Source, vec![actor(122, 12), actor(121, 12)], vec![5]));
    map.insert(11, fragment(11, FragmentType::Sink, vec![actor(111, 11), actor(112, 11)], vec![3, 4]));
    let mut unplaced = fragment(13, FragmentType::Internal, vec![actor(131, 13)], vec![]);
    unplaced.vnode_mapping = None;
    map.insert(13, unplaced);
    let mut tf = TableFragments::new(1, map);
    tf.actor_status.insert(122, placed(2, 22, ActorState::Running));
    tf.actor_status.insert(121, placed(1, 21, ActorState::Inactive));
    tf.actor_status.insert(111, placed(1, 11, ActorState::Running));
    tf.actor_status.insert(112, placed(2, 12, ActorState::Running));
    tf
}

/// Job 2: chain fragment 21 (actor 211 on worker 1, reading from jobs 1
/// and 7), sink fragment 22 (actor 221 on worker 3).
fn job_two() -> TableFragments {
    let mut map = OrdMap::new();
    map.insert(21, fragment(21, FragmentType::Chain, vec![chain_actor(211, 21, vec![1, 7])], vec![]));
    map.insert(22, fragment(22, FragmentType::Sink, vec![actor(221, 22)], vec![9]));
    let mut tf = TableFragments::new(2, map);
    tf.actor_status.insert(211, placed(1, 11, ActorState::Running));
    tf.actor_status.insert(221, placed(3, 31, ActorState::Running));
    tf
}

fn manager() -> FragmentManager {
    FragmentManager::new(vec![job_two(), job_one()])
}

fn groups(pairs: Vec<(u32, Vec<u32>)>) -> OrdMap<Vec<u32>> {
    let mut m = OrdMap::new();
    for (k, v) in pairs {
        m.insert(k, v);
    }
    m
}

#[test]
fn a_job_lists_its_ids_by_fragment() {
    let job = job_one();
    assert_eq!(job.fragment_ids(), vec![11, 12, 13]);
    assert_eq!(job.actor_ids(), vec![111, 112, 122, 121, 131]);
    assert_eq!(job.sink_actor_ids(), vec![111, 112]);
    assert_eq!(job.source_actor_ids(), vec![122, 121]);
    assert_eq!(job.chain_actor_ids(), Vec::<u32>::new());
    assert_eq!(job.state_table_ids(), vec![3, 4, 5]);
    assert_eq!(job_two().chain_actor_ids(), vec![211]);
    assert_eq!(job_two().dependent_table_ids(), vec![1, 7]);
    assert_eq!(job.dependent_table_ids(), Vec::<u32>::new());
}

#[test]
fn a_job_groups_its_placed_actors_by_worker() {
    let job = job_one();
    let mut states = OrdMap::new();
    states.insert(1, vec![(111, ActorState::Running), (121, ActorState::Inactive)]);
    states.insert(2, vec![(112, ActorState::Running), (122, ActorState::Running)]);
    assert_eq!(job.worker_actor_states(), states);

    let mut source = OrdMap::new();
    source.insert(1, vec![(121, ActorState::Inactive)]);
    source.insert(2, vec![(122, ActorState::Running)]);
    assert_eq!(job.worker_source_actor_states(), source);

    assert_eq!(job.worker_actor_ids(false), groups(vec![(1, vec![111]), (2, vec![112, 122])]));
    assert_eq!(job.worker_actor_ids(true), groups(vec![(1, vec![111, 121]), (2, vec![112, 122])]));

    let running = job.worker_actors(false);
    assert_eq!(running.get(1), Some(&vec![actor(111, 11)]));
    assert_eq!(running.get(2), Some(&vec![actor(112, 11), actor(122, 12)]));
    let all = job.worker_actors(true);
    assert_eq!(all.get(1), Some(&vec![actor(111, 11), actor(121, 12)]));
}

#[test]
fn a_job_describes_its_sink() {
    let job = job_one();
    assert_eq!(
        job.sink_vnode_bitmap_info(),
        vec![(111, Some(Buffer { body: vec![111] })), (112, Some(Buffer { body: vec![112] }))]
    );
    let mut units = OrdMap::new();
    units.insert(111, ParallelUnit { id: 11, worker_node_id: 1 });
    units.insert(112, ParallelUnit { id: 12, worker_node_id: 2 });
    assert_eq!(job.sink_actor_parallel_units(), units);
    assert_eq!(
        job.sink_vnode_mapping(),
        Some(ParallelUnitMapping { fragment_id: 0, original_indices: vec![255], data: vec![11] })
    );
    let no_sink = TableFragments::new(9, OrdMap::new());
    assert_eq!(no_sink.sink_vnode_mapping(), None);
}

#[test]
fn the_store_lists_mappings_and_internal_tables() {
    let m = manager();
    let guard = m.get_fragment_read_guard();
    let mappings = guard.all_fragment_mappings();
    let expected: Vec<ParallelUnitMapping> = vec![11, 12, 21, 22]
        .into_iter()
        .map(|f| ParallelUnitMapping { fragment_id: f, original_indices: vec![255], data: vec![f] })
        .collect();
    assert_eq!(mappings, expected);
    assert_eq!(guard.all_internal_tables(), vec![3, 4, 5, 9]);
}

#[test]
fn select_reports_an_absent_job() {
    let m = manager();
    assert_eq!(m.select_table_fragments_by_table_id(1).unwrap(), job_one());
    assert_eq!(m.select_table_fragments_by_table_id(3).err(), Some(MetaError::JobNotFound(3)));
    assert_eq!(m.list_table_fragments(), vec![job_one(), job_two()]);
}

#[test]
fn all_node_actors_groups_the_actors_of_all_jobs() {
    let m = manager();
    let running = m.all_node_actors(false);
    assert_eq!(running.len(), 3);
    assert_eq!(running.get(1), Some(&vec![actor(111, 11), chain_actor(211, 21, vec![1, 7])]));
    assert_eq!(running.get(2), Some(&vec![actor(112, 11), actor(122, 12)]));
    assert_eq!(running.get(3), Some(&vec![actor(221, 22)]));
    let all = m.all_node_actors(true);
    assert_eq!(
        all.get(1),
        Some(&vec![actor(111, 11), actor(121, 12), chain_actor(211, 21, vec![1, 7])])
    );
}

#[test]
fn all_chain_actor_ids_lists_the_chain_actors_of_all_jobs() {
    assert_eq!(manager().all_chain_actor_ids(), vec![211]);
}

#[test]
fn running_actors_of_a_fragment() {
    let m = manager();
    assert_eq!(m.get_running_actors_of_fragment(12), Ok(vec![122]));
    assert_eq!(m.get_running_actors_of_fragment(11), Ok(vec![111, 112]));
    assert_eq!(m.get_running_actors_of_fragment(13), Ok(vec![]));
    assert_eq!(m.get_running_actors_of_fragment(99), Err(MetaError::FragmentNotFound(99)));
}

#[test]
fn table_node_actors_groups_the_running_actors_of_the_named_jobs() {
    let m = manager();
    assert_eq!(
        m.table_node_actors(&vec![2, 1]).unwrap(),
        groups(vec![(1, vec![211, 111]), (2, vec![112, 122]), (3, vec![221])])
    );
    assert_eq!(m.table_node_actors(&vec![1]).unwrap(), groups(vec![(1, vec![111]), (2, vec![112, 122])]));
    assert_eq!(m.table_node_actors(&vec![1, 5, 6]).err(), Some(MetaError::JobNotFound(5)));
}

#[test]
fn actor_ids_of_named_jobs() {
    let m = manager();
    assert_eq!(m.get_table_actor_ids(&vec![2, 1]).unwrap(), vec![211, 221, 111, 112, 122, 121, 131]);
    assert_eq!(m.get_table_actor_ids(&vec![4, 1]).err(), Some(MetaError::JobNotFound(4)));
    assert_eq!(m.get_table_sink_actor_ids(2).unwrap(), vec![221]);
    assert_eq!(m.get_table_sink_actor_ids(4).err(), Some(MetaError::JobNotFound(4)));
}

#[test]
fn per_job_infos_of_named_jobs() {
    let m = manager();
    let info = m.get_build_graph_info(&vec![1, 2]).unwrap();
    assert_eq!(info.table_sink_actor_ids, groups(vec![(1, vec![111, 112]), (2, vec![221])]));
    assert_eq!(m.get_build_graph_info(&vec![1, 3]).err(), Some(MetaError::JobNotFound(3)));

    let bitmaps = m.get_sink_vnode_bitmap_info(&vec![2]).unwrap();
    assert_eq!(bitmaps.len(), 1);
    assert_eq!(bitmaps.get(2), Some(&vec![(221, Some(Buffer { body: vec![221] }))]));
    assert_eq!(m.get_sink_vnode_bitmap_info(&vec![3]).err(), Some(MetaError::JobNotFound(3)));

    let placement = m.get_sink_fragment_vnode_info(&vec![1]).unwrap();
    let one = placement.get(1).unwrap();
    assert_eq!(one.actor_parallel_unit_maps, job_one().sink_actor_parallel_units());
    assert_eq!(one.vnode_mapping, job_one().sink_vnode_mapping());
    assert_eq!(m.get_sink_fragment_vnode_info(&vec![3]).err(), Some(MetaError::JobNotFound(3)));

    let workers = m.get_tables_worker_actors(&vec![1, 2]).unwrap();
    assert_eq!(workers.get(1), Some(&groups(vec![(1, vec![111]), (2, vec![112, 122])])));
    assert_eq!(workers.get(2), Some(&groups(vec![(1, vec![211]), (3, vec![221])])));
    assert_eq!(m.get_tables_worker_actors(&vec![3]).err(), Some(MetaError::JobNotFound(3)));
}

#[test]
fn load_all_actors_asks_the_check_about_every_placed_actor() {
    let m = manager();
    let all = m.load_all_actors(|_, _, _| true);
    assert_eq!(
        all.actor_maps,
        groups(vec![(1, vec![111, 121, 211]), (2, vec![112, 122]), (3, vec![221])])
    );
    assert_eq!(all.source_actor_maps, groups(vec![(1, vec![121]), (2, vec![122])]));

    let running = m.load_all_actors(|state, _, _| state == ActorState::Running);
    assert_eq!(running.actor_maps, groups(vec![(1, vec![111, 211]), (2, vec![112, 122]), (3, vec![221])]));
    assert_eq!(running.source_actor_maps, groups(vec![(2, vec![122])]));

    let of_job_two = m.load_all_actors(|_, table, _| table == 2);
    assert_eq!(of_job_two.actor_maps, groups(vec![(1, vec![211]), (3, vec![221])]));
    assert!(of_job_two.source_actor_maps.is_empty());

    let one_actor = m.load_all_actors(|_, _, actor| actor == 112);
    assert_eq!(one_actor.actor_maps, groups(vec![(2, vec![112])]));
}
