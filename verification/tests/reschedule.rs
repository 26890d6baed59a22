use fragment_manager::error::MetaError;
use fragment_manager::manager::store::FragmentManager;
use fragment_manager::model::common::{
    ActorMapping, ActorState, ActorStatus, Buffer, FragmentType, ParallelUnit, ParallelUnitMapping,
    SourceSplit,
};
use fragment_manager::model::reschedule::{actor_mapping_to_parallel_unit_mapping, Reschedule};
use fragment_manager::model::stream::{
    update_actors, Dispatcher, MergeNode, NodeBody, StreamActor, StreamNode,
};
use fragment_manager::model::table_fragments::{Fragment, TableFragments};
use fragment_manager::notification::{Notification, Operation};
use fragment_manager::ord_map::OrdMap;

const UPSTREAM: u32 = 1;
const MIDDLE: u32 = 2;
const DOWNSTREAM: u32 = 3;

fn merge(upstream_fragment: u32, upstream_actors: Vec<u32>) -> StreamNode {
    StreamNode {
        operator_id: 1,
        node_body: NodeBody::Other,
        input: vec![
            StreamNode {
                operator_id: 2,
                node_body: NodeBody::Merge(MergeNode {
                    upstream_actor_id: upstream_actors,
                    upstream_fragment_id: upstream_fragment,
                }),
                input: vec![],
            },
            StreamNode {
                operator_id: 3,
                node_body: NodeBody::Merge(MergeNode {
                    upstream_actor_id: vec![77],
                    upstream_fragment_id: 99,
                }),
                input: vec![],
            },
        ],
    }
}

fn actor(id: u32, fragment: u32) -> StreamActor {
    StreamActor {
        actor_id: id,
        fragment_id: fragment,
        nodes: None,
        dispatcher: vec![],
        upstream_actor_id: vec![],
        vnode_bitmap: None,
    }
}

fn upstream_actor(id: u32, targets: Vec<u32>) -> StreamActor {
    let mut a = actor(id, UPSTREAM);
    a.dispatcher = vec![
        Dispatcher {
            dispatcher_id: 1,
            hash_mapping: Some(ActorMapping { original_indices: vec![255], data: vec![targets[0]] }),
            downstream_actor_id: targets,
        },
        Dispatcher { dispatcher_id: 2, hash_mapping: None, downstream_actor_id: vec![500] },
    ];
    a
}

fn downstream_actor(id: u32, upstream: Vec<u32>) -> StreamActor {
    let mut a = actor(id, DOWNSTREAM);
    a.upstream_actor_id = upstream.clone();
    a.nodes = Some(merge(MIDDLE, upstream));
    a
}

fn placed(unit: u32, state: ActorState) -> ActorStatus {
    ActorStatus { parallel_unit: Some(ParallelUnit { id: unit, worker_node_id: 1 }), state }
}

fn fragment(id: u32, actors: Vec<StreamActor>, units: Vec<u32>) -> Fragment {
    Fragment {
        fragment_id: id,
        fragment_type: FragmentType::Internal,
        actors,
        vnode_mapping: Some(ParallelUnitMapping {
            fragment_id: id,
            original_indices: vec![127, 255],
            data: units,
        }),
        state_table_ids: vec![id],
    }
}

/// A job with three fragments in a row: fragment 1 (actor 10) dispatches to
/// fragment 2 (the given actors), which feeds fragment 3 (actor 30).
fn pipeline(middle: Vec<u32>) -> TableFragments {
    let mut map = OrdMap::new();
    map.insert(UPSTREAM, fragment(UPSTREAM, vec![upstream_actor(10, middle.clone())], vec![1, 1]));
    map.insert(
        MIDDLE,
        fragment(MIDDLE, middle.iter().map(|a| actor(*a, MIDDLE)).collect(), vec![21, 22]),
    );
    map.insert(DOWNSTREAM, fragment(DOWNSTREAM, vec![downstream_actor(30, middle.clone())], vec![3, 3]));
    let mut tf = TableFragments::new(1, map);
    tf.actor_status.insert(10, placed(1, ActorState::Running));
    tf.actor_status.insert(30, placed(3, ActorState::Running));
    for a in middle {
        tf.actor_status.insert(a, placed(a, ActorState::Running));
    }
    tf
}

fn plan(added: Vec<u32>, removed: Vec<u32>, mapping: Option<Vec<u32>>) -> Reschedule {
    Reschedule {
        added_actors: added,
        removed_actors: removed,
        vnode_bitmap_updates: OrdMap::new(),
        upstream_fragment_dispatcher_ids: vec![(UPSTREAM, 1)],
        upstream_dispatcher_mapping: mapping
            .map(|data| ActorMapping { original_indices: vec![63, 127, 255], data }),
        downstream_fragment_id: Some(DOWNSTREAM),
        actor_splits: OrdMap::new(),
    }
}

fn plans(fragment: u32, plan: Reschedule) -> OrdMap<Reschedule> {
    let mut m = OrdMap::new();
    m.insert(fragment, plan);
    m
}

fn created(fragment: u32, actors: Vec<(StreamActor, ActorStatus)>) -> OrdMap<OrdMap<(StreamActor, ActorStatus)>> {
    let mut per_actor = OrdMap::new();
    for (a, s) in actors {
        per_actor.insert(a.actor_id, (a, s));
    }
    let mut m = OrdMap::new();
    m.insert(fragment, per_actor);
    m
}

fn ids(actors: &Vec<StreamActor>) -> Vec<u32> {
    actors.iter().map(|a| a.actor_id).collect()
}

fn merge_upstream(actor: &StreamActor, child: usize) -> Vec<u32> {
    match &actor.nodes.as_ref().unwrap().input[child].node_body {
        NodeBody::Merge(m) => m.upstream_actor_id.clone(),
        _ => panic!("the child is a merge node"),
    }
}

#[test]
fn reschedule_scale_out() {
    let mut manager = FragmentManager::new(vec![pipeline(vec![21, 22])]);
    let ledger = manager
        .pre_apply_reschedules(&created(MIDDLE, vec![(actor(23, MIDDLE), placed(23, ActorState::Inactive))]));
    assert_eq!(ledger.get(MIDDLE), Some(&vec![23]));
    assert_eq!(ledger.len(), 1);

    let pending = manager
        .post_apply_reschedules(&plans(MIDDLE, plan(vec![23], vec![], Some(vec![21, 22, 23]))))
        .unwrap();
    let notes = manager.commit(pending, true).unwrap();

    let job = manager.select_table_fragments_by_table_id(1).unwrap();
    assert_eq!(ids(&job.fragments.get(MIDDLE).unwrap().actors), vec![21, 22, 23]);
    assert_eq!(job.actor_status.get(23).unwrap().state, ActorState::Running);

    let up = &job.fragments.get(UPSTREAM).unwrap().actors[0];
    assert_eq!(up.dispatcher[0].downstream_actor_id, vec![21, 22, 23]);
    assert_eq!(
        up.dispatcher[0].hash_mapping,
        Some(ActorMapping { original_indices: vec![63, 127, 255], data: vec![21, 22, 23] })
    );
    assert_eq!(up.dispatcher[1].downstream_actor_id, vec![500]);
    assert_eq!(up.dispatcher[1].hash_mapping, None);

    let down = &job.fragments.get(DOWNSTREAM).unwrap().actors[0];
    assert!(down.upstream_actor_id.contains(&23));
    assert_eq!(down.upstream_actor_id, vec![21, 22, 23]);
    assert_eq!(merge_upstream(down, 0), vec![21, 22, 23]);
    assert_eq!(merge_upstream(down, 1), vec![77]);

    let recomputed =
        ParallelUnitMapping { fragment_id: MIDDLE, original_indices: vec![63, 127, 255], data: vec![21, 22, 23] };
    assert_eq!(job.fragments.get(MIDDLE).unwrap().vnode_mapping, Some(recomputed.clone()));
    assert_eq!(notes, vec![Notification { operation: Operation::Update, mapping: recomputed }]);
}

#[test]
fn reschedule_scale_in() {
    let mut stored = pipeline(vec![21, 22, 23]);
    stored.actor_splits.insert(23, vec![SourceSplit { encoded: vec![1] }]);
    stored.actor_splits.insert(21, vec![SourceSplit { encoded: vec![2] }]);
    let mut manager = FragmentManager::new(vec![stored]);
    let pending =
        manager.post_apply_reschedules(&plans(MIDDLE, plan(vec![], vec![23], None))).unwrap();
    let notes = manager.commit(pending, true).unwrap();

    let job = manager.select_table_fragments_by_table_id(1).unwrap();
    assert!(job.actor_status.get(23).is_none());
    assert!(job.actor_splits.get(23).is_none());
    assert_eq!(job.actor_splits.get(21), Some(&vec![SourceSplit { encoded: vec![2] }]));
    assert_eq!(ids(&job.fragments.get(MIDDLE).unwrap().actors), vec![21, 22]);
    let up = &job.fragments.get(UPSTREAM).unwrap().actors[0];
    assert_eq!(up.dispatcher[0].downstream_actor_id, vec![21, 22]);
    assert_eq!(up.dispatcher[0].hash_mapping, None);
    let down = &job.fragments.get(DOWNSTREAM).unwrap().actors[0];
    assert_eq!(down.upstream_actor_id, vec![21, 22]);
    assert_eq!(merge_upstream(down, 0), vec![21, 22]);
    assert_eq!(merge_upstream(down, 1), vec![77]);
    assert_eq!(
        notes,
        vec![Notification {
            operation: Operation::Update,
            mapping: ParallelUnitMapping {
                fragment_id: MIDDLE,
                original_indices: vec![127, 255],
                data: vec![21, 22],
            },
        }]
    );
}

#[test]
fn reschedule_takes_bitmaps_and_splits_of_the_plan() {
    let mut manager = FragmentManager::new(vec![pipeline(vec![21, 22])]);
    let mut p = plan(vec![], vec![], None);
    p.vnode_bitmap_updates.insert(21, Buffer { body: vec![0xf0] });
    p.vnode_bitmap_updates.insert(99, Buffer { body: vec![0x0f] });
    p.actor_splits.insert(22, vec![SourceSplit { encoded: vec![7] }]);
    let pending = manager.post_apply_reschedules(&plans(MIDDLE, p)).unwrap();
    manager.commit(pending, true).unwrap();
    let job = manager.select_table_fragments_by_table_id(1).unwrap();
    let middle = job.fragments.get(MIDDLE).unwrap();
    assert_eq!(middle.actors[0].vnode_bitmap, Some(Buffer { body: vec![0xf0] }));
    assert_eq!(middle.actors[1].vnode_bitmap, None);
    assert_eq!(job.actor_splits.get(22), Some(&vec![SourceSplit { encoded: vec![7] }]));
}

#[test]
fn actors_that_were_just_built_are_not_rewired() {
    let mut stored = pipeline(vec![21, 22]);
    let mut fresh_upstream = upstream_actor(11, vec![21, 22, 23]);
    fresh_upstream.dispatcher.truncate(1);
    let mut f = stored.fragments.remove(UPSTREAM).unwrap();
    f.actors.push(fresh_upstream.clone());
    stored.fragments.insert(UPSTREAM, f);
    stored.actor_status.insert(11, placed(1, ActorState::Inactive));
    stored.actor_status.insert(23, placed(23, ActorState::Inactive));
    let mut f = stored.fragments.remove(MIDDLE).unwrap();
    f.actors.push(actor(23, MIDDLE));
    stored.fragments.insert(MIDDLE, f);
    let mut manager = FragmentManager::new(vec![stored]);

    let mut all = plans(MIDDLE, plan(vec![23], vec![], Some(vec![21, 22, 23])));
    let mut upstream_plan = plan(vec![11], vec![], None);
    upstream_plan.upstream_fragment_dispatcher_ids = vec![];
    upstream_plan.downstream_fragment_id = None;
    all.insert(UPSTREAM, upstream_plan);
    let pending = manager.post_apply_reschedules(&all).unwrap();
    manager.commit(pending, true).unwrap();

    let job = manager.select_table_fragments_by_table_id(1).unwrap();
    let ups = &job.fragments.get(UPSTREAM).unwrap().actors;
    assert_eq!(ups[0].dispatcher[0].downstream_actor_id, vec![21, 22, 23]);
    assert_eq!(ups[1], fresh_upstream);
    assert_eq!(job.actor_status.get(11).unwrap().state, ActorState::Running);
}

#[test]
fn a_plan_for_no_stored_fragment_is_a_bug() {
    let manager = FragmentManager::new(vec![pipeline(vec![21, 22])]);
    let mut p = plan(vec![], vec![], None);
    p.upstream_fragment_dispatcher_ids = vec![];
    p.downstream_fragment_id = None;
    let r = manager.post_apply_reschedules(&plans(77, p));
    assert_eq!(r.err(), Some(MetaError::ConsistencyBug));
}

#[test]
fn a_plan_that_contradicts_its_job_is_a_bug() {
    let manager = FragmentManager::new(vec![pipeline(vec![21, 22])]);
    let added_without_status = plan(vec![23], vec![], None);
    assert_eq!(
        manager.post_apply_reschedules(&plans(MIDDLE, added_without_status)).err(),
        Some(MetaError::ConsistencyBug)
    );
    let removed_unknown = plan(vec![], vec![29], None);
    assert_eq!(
        manager.post_apply_reschedules(&plans(MIDDLE, removed_unknown)).err(),
        Some(MetaError::ConsistencyBug)
    );
    let added_known = plan(vec![21], vec![], None);
    assert_eq!(
        manager.post_apply_reschedules(&plans(MIDDLE, added_known)).err(),
        Some(MetaError::ConsistencyBug)
    );
    let mut upstream_elsewhere = plan(vec![], vec![], None);
    upstream_elsewhere.upstream_fragment_dispatcher_ids = vec![(42, 1)];
    assert_eq!(
        manager.post_apply_reschedules(&plans(MIDDLE, upstream_elsewhere)).err(),
        Some(MetaError::ConsistencyBug)
    );
    let mut downstream_elsewhere = plan(vec![], vec![], None);
    downstream_elsewhere.downstream_fragment_id = Some(42);
    assert_eq!(
        manager.post_apply_reschedules(&plans(MIDDLE, downstream_elsewhere)).err(),
        Some(MetaError::ConsistencyBug)
    );
    let mapping_of_unknown_actor = plan(vec![], vec![], Some(vec![21, 28]));
    assert_eq!(
        manager.post_apply_reschedules(&plans(MIDDLE, mapping_of_unknown_actor)).err(),
        Some(MetaError::ConsistencyBug)
    );
    assert_eq!(manager.list_table_fragments(), vec![pipeline(vec![21, 22])]);
}

#[test]
fn a_plan_goes_to_the_job_with_the_smallest_id_that_has_the_fragment() {
    let first = pipeline(vec![21, 22]);
    let mut second = pipeline(vec![21, 22]);
    second.table_id = 2;
    let mut manager = FragmentManager::new(vec![second.clone(), first]);
    let pending =
        manager.post_apply_reschedules(&plans(MIDDLE, plan(vec![], vec![22], None))).unwrap();
    assert_eq!(pending.write_batch().len(), 1);
    manager.commit(pending, true).unwrap();
    let first = manager.select_table_fragments_by_table_id(1).unwrap();
    assert_eq!(ids(&first.fragments.get(MIDDLE).unwrap().actors), vec![21]);
    assert_eq!(manager.select_table_fragments_by_table_id(2).unwrap(), second);
}

#[test]
fn cancel_undoes_pre_apply() {
    let mut manager = FragmentManager::new(vec![pipeline(vec![21, 22])]);
    let before = manager.list_table_fragments();
    let ledger = manager.pre_apply_reschedules(&created(
        MIDDLE,
        vec![
            (actor(24, MIDDLE), placed(24, ActorState::Inactive)),
            (actor(23, MIDDLE), placed(23, ActorState::Inactive)),
        ],
    ));
    assert_eq!(ledger.get(MIDDLE), Some(&vec![23, 24]));
    let job = manager.select_table_fragments_by_table_id(1).unwrap();
    assert_eq!(ids(&job.fragments.get(MIDDLE).unwrap().actors), vec![21, 22, 23, 24]);
    assert_eq!(job.actor_status.get(24), Some(&placed(24, ActorState::Inactive)));
    assert_eq!(job.actor_status.len(), 6);

    manager.cancel_apply_reschedules(&ledger);
    assert_eq!(manager.list_table_fragments(), before);
}

#[test]
fn pre_apply_ignores_actors_built_for_a_fragment_that_no_job_has() {
    let mut manager = FragmentManager::new(vec![pipeline(vec![21, 22])]);
    let before = manager.list_table_fragments();
    let ledger = manager
        .pre_apply_reschedules(&created(77, vec![(actor(23, 77), placed(23, ActorState::Inactive))]));
    assert!(ledger.is_empty());
    assert_eq!(manager.list_table_fragments(), before);
}

#[test]
fn update_actors_removes_then_appends() {
    let mut actors = vec![1, 2, 3, 4];
    assert!(update_actors(&mut actors, &vec![2, 4], &vec![9, 8]));
    assert_eq!(actors, vec![1, 3, 9, 8]);
    let mut actors = vec![1, 2];
    assert!(!update_actors(&mut actors, &vec![5], &vec![]));
    assert_eq!(actors, vec![1, 2]);
    assert!(!update_actors(&mut actors, &vec![], &vec![2]));
    assert_eq!(actors, vec![1, 2]);
}

#[test]
fn update_merge_node_upstream_reaches_every_level() {
    let mut tree = StreamNode {
        operator_id: 0,
        node_body: NodeBody::Merge(MergeNode { upstream_actor_id: vec![1, 2], upstream_fragment_id: 5 }),
        input: vec![StreamNode {
            operator_id: 1,
            node_body: NodeBody::Other,
            input: vec![
                StreamNode {
                    operator_id: 2,
                    node_body: NodeBody::Merge(MergeNode {
                        upstream_actor_id: vec![2, 1],
                        upstream_fragment_id: 5,
                    }),
                    input: vec![],
                },
                StreamNode {
                    operator_id: 3,
                    node_body: NodeBody::Merge(MergeNode {
                        upstream_actor_id: vec![1, 2],
                        upstream_fragment_id: 6,
                    }),
                    input: vec![],
                },
            ],
        }],
    };
    assert!(tree.update_merge_node_upstream(5, &vec![1], &vec![3]));
    let top = match &tree.node_body {
        NodeBody::Merge(m) => m.upstream_actor_id.clone(),
        _ => vec![],
    };
    assert_eq!(top, vec![2, 3]);
    let deep = match &tree.input[0].input[0].node_body {
        NodeBody::Merge(m) => m.upstream_actor_id.clone(),
        _ => vec![],
    };
    assert_eq!(deep, vec![2, 3]);
    let other = match &tree.input[0].input[1].node_body {
        NodeBody::Merge(m) => m.upstream_actor_id.clone(),
        _ => vec![],
    };
    assert_eq!(other, vec![1, 2]);
    assert!(!tree.update_merge_node_upstream(5, &vec![1], &vec![]));
}

#[test]
fn an_actor_mapping_becomes_a_unit_mapping() {
    let mut units = OrdMap::new();
    units.insert(21, 7);
    units.insert(22, 8);
    let mapping = ActorMapping { original_indices: vec![10, 20, 30], data: vec![22, 21, 22] };
    assert_eq!(
        actor_mapping_to_parallel_unit_mapping(5, &units, &mapping),
        Some(ParallelUnitMapping { fragment_id: 5, original_indices: vec![10, 20, 30], data: vec![8, 7, 8] })
    );
    let unknown = ActorMapping { original_indices: vec![10], data: vec![23] };
    assert_eq!(actor_mapping_to_parallel_unit_mapping(5, &units, &unknown), None);
}
