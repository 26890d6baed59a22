use fragment_manager::error::MetaError;
use fragment_manager::manager::store::FragmentManager;
use fragment_manager::manager::transaction::WriteOp;
use fragment_manager::model::common::{
    ActorState, ActorStatus, FragmentType, ParallelUnit, ParallelUnitMapping,
};
use fragment_manager::model::stream::{ChainNode, Dispatcher, NodeBody, StreamActor, StreamNode};
use fragment_manager::model::table_fragments::{Fragment, TableFragments};
use fragment_manager::notification::{Notification, Operation};
use fragment_manager::ord_map::OrdMap;

fn status(unit: u32) -> ActorStatus {
    ActorStatus {
        parallel_unit: Some(ParallelUnit { id: unit, worker_node_id: 1 }),
        state: ActorState::Running,
    }
}

fn sink_actor(id: u32, fragment: u32, dispatchers: Vec<Dispatcher>) -> StreamActor {
    StreamActor {
        actor_id: id,
        fragment_id: fragment,
        nodes: None,
        dispatcher: dispatchers,
        upstream_actor_id: vec![],
        vnode_bitmap: None,
    }
}

fn chain_actor(id: u32, fragment: u32, upstream_table: u32) -> StreamActor {
    StreamActor {
        actor_id: id,
        fragment_id: fragment,
        nodes: Some(StreamNode {
            operator_id: 1,
            node_body: NodeBody::Other,
            input: vec![StreamNode {
                operator_id: 2,
                node_body: NodeBody::Chain(ChainNode { table_id: upstream_table }),
                input: vec![],
            }],
        }),
        dispatcher: vec![],
        upstream_actor_id: vec![],
        vnode_bitmap: None,
    }
}

fn dispatcher(id: u64, targets: Vec<u32>) -> Dispatcher {
    Dispatcher { dispatcher_id: id, hash_mapping: None, downstream_actor_id: targets }
}

fn fragment(id: u32, kind: FragmentType, actors: Vec<StreamActor>) -> Fragment {
    Fragment {
        fragment_id: id,
        fragment_type: kind,
        actors,
        vnode_mapping: Some(ParallelUnitMapping {
            fragment_id: id,
            original_indices: vec![255],
            data: vec![1],
        }),
        state_table_ids: vec![id],
    }
}

fn job(id: u32, fragments: Vec<Fragment>) -> TableFragments {
    let mut map = OrdMap::new();
    let mut ids = Vec::new();
    for f in fragments {
        for a in &f.actors {
            ids.push(a.actor_id);
        }
        map.insert(f.fragment_id, f);
    }
    let mut tf = TableFragments::new(id, map);
    for a in ids {
        tf.actor_status.insert(a, status(1));
    }
    tf
}

/// Job 1 has a sink fragment 10 whose actor 100 dispatches to actor 200,
/// the chain actor of job 2, which reads from job 1.
fn upstream_and_downstream(targets: Vec<u32>) -> (TableFragments, TableFragments) {
    let one =
        job(1, vec![fragment(10, FragmentType::Sink, vec![sink_actor(100, 10, vec![dispatcher(1, targets)])])]);
    let two = job(2, vec![fragment(20, FragmentType::Chain, vec![chain_actor(200, 20, 1)])]);
    (one, two)
}

#[test]
fn drop_with_upstream_repair() {
    let (one, two) = upstream_and_downstream(vec![200]);
    let mut manager = FragmentManager::new(vec![one.clone(), two]);
    let pending = manager.drop_table_fragments_vec(&vec![2]).unwrap();
    let notes = manager.commit(pending, true).unwrap();
    assert_eq!(
        notes,
        vec![Notification {
            operation: Operation::Delete,
            mapping: ParallelUnitMapping { fragment_id: 20, original_indices: vec![255], data: vec![1] },
        }]
    );
    assert_eq!(manager.select_table_fragments_by_table_id(2).err(), Some(MetaError::JobNotFound(2)));
    let repaired = manager.select_table_fragments_by_table_id(1).unwrap();
    assert!(repaired.fragments.get(10).unwrap().actors[0].dispatcher.is_empty());
    assert_eq!(repaired.actor_status, one.actor_status);
}

#[test]
fn drop_cuts_only_the_targets_that_went_away() {
    let (one, two) = upstream_and_downstream(vec![300, 200, 301]);
    let mut manager = FragmentManager::new(vec![one, two]);
    let pending = manager.drop_table_fragments_vec(&vec![2]).unwrap();
    let batch = pending.write_batch();
    assert_eq!(batch.len(), 2);
    assert!(matches!(batch[0], WriteOp::Put(1, _)));
    assert_eq!(batch[1], WriteOp::Delete(2));
    manager.commit(pending, true).unwrap();
    let repaired = manager.select_table_fragments_by_table_id(1).unwrap();
    assert_eq!(
        repaired.fragments.get(10).unwrap().actors[0].dispatcher,
        vec![dispatcher(1, vec![300, 301])]
    );
}

#[test]
fn drop_leaves_the_dispatchers_of_other_fragments_alone() {
    let (mut one, two) = upstream_and_downstream(vec![200]);
    one.fragments.insert(
        11,
        fragment(11, FragmentType::Internal, vec![sink_actor(101, 11, vec![dispatcher(2, vec![200])])]),
    );
    let mut manager = FragmentManager::new(vec![one, two]);
    let pending = manager.drop_table_fragments_vec(&vec![2]).unwrap();
    manager.commit(pending, true).unwrap();
    let repaired = manager.select_table_fragments_by_table_id(1).unwrap();
    assert!(repaired.fragments.get(10).unwrap().actors[0].dispatcher.is_empty());
    assert_eq!(
        repaired.fragments.get(11).unwrap().actors[0].dispatcher,
        vec![dispatcher(2, vec![200])]
    );
}

#[test]
fn drop_of_both_jobs_repairs_nothing() {
    let (one, two) = upstream_and_downstream(vec![200]);
    let mut manager = FragmentManager::new(vec![one, two]);
    let pending = manager.drop_table_fragments_vec(&vec![2, 1, 9]).unwrap();
    assert_eq!(pending.write_batch(), vec![WriteOp::Delete(1), WriteOp::Delete(2)]);
    let notes = manager.commit(pending, true).unwrap();
    assert_eq!(notes.len(), 2);
    assert_eq!(notes[0].mapping.fragment_id, 10);
    assert_eq!(notes[1].mapping.fragment_id, 20);
    assert!(manager.list_table_fragments().is_empty());
}

#[test]
fn drop_fails_if_an_upstream_job_is_absent() {
    let (_, two) = upstream_and_downstream(vec![200]);
    let manager = FragmentManager::new(vec![two.clone()]);
    let r = manager.drop_table_fragments_vec(&vec![2]);
    assert_eq!(r.err(), Some(MetaError::JobNotFound(1)));
    assert_eq!(manager.list_table_fragments(), vec![two]);
}

#[test]
fn failure_rollback() {
    let (one, two) = upstream_and_downstream(vec![200]);
    let mut manager = FragmentManager::new(vec![one.clone(), two.clone()]);
    let pending = manager.drop_table_fragments_vec(&vec![1]).unwrap();
    let r = manager.commit(pending, false);
    assert_eq!(r.err(), Some(MetaError::MetaStoreFailure));
    assert_eq!(manager.select_table_fragments_by_table_id(1).unwrap(), one);
    assert_eq!(manager.list_table_fragments(), vec![one, two]);
}

#[test]
fn after_a_drop_no_dispatcher_leads_into_the_dropped_job() {
    let (one, two) = upstream_and_downstream(vec![200, 300]);
    let chain_actors = two.chain_actor_ids();
    assert_eq!(chain_actors, vec![200]);
    assert_eq!(two.dependent_table_ids(), vec![1]);
    let mut manager = FragmentManager::new(vec![one, two]);
    let pending = manager.drop_table_fragments_vec(&vec![2]).unwrap();
    manager.commit(pending, true).unwrap();
    for left in manager.list_table_fragments() {
        for i in 0..left.fragments.len() {
            for a in &left.fragments.value_at(i).actors {
                for d in &a.dispatcher {
                    for t in &d.downstream_actor_id {
                        assert!(!chain_actors.contains(t));
                    }
                }
            }
        }
    }
}
