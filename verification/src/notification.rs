//! What the manager tells the frontends after a commit.

use crate::model::common::{ParallelUnitMapping, ParallelUnitMappingView};
use crate::ord_map::DeepClone;
use vstd::prelude::*;

verus! {

/// What happened to a vnode mapping.
#[derive(Clone, Copy, Debug, PartialEq, Eq, Structural)]
pub enum Operation {
    Add,
    Update,
    Delete,
}

/// One message for the frontends: a vnode mapping and what happened to it.
#[derive(Clone, Debug, PartialEq, Eq)]
pub struct Notification {
    pub operation: Operation,
    pub mapping: ParallelUnitMapping,
}

/// Model of a [`Notification`].
pub struct NotificationView {
    pub operation: Operation,
    pub mapping: ParallelUnitMappingView,
}

impl View for Notification {
    type V = NotificationView;

    open spec fn view(&self) -> NotificationView {
        NotificationView { operation: self.operation, mapping: self.mapping@ }
    }
}

impl DeepView for Notification {
    type V = NotificationView;

    open spec fn deep_view(&self) -> NotificationView {
        self@
    }
}

impl DeepClone for Notification {
    fn deep_clone(&self) -> (r: Self) {
        Notification { operation: self.operation, mapping: self.mapping.deep_clone() }
    }
}

/// The message that says `operation` of a mapping.
pub open spec fn announce(operation: Operation) -> spec_fn(
    ParallelUnitMappingView,
) -> NotificationView {
    |m: ParallelUnitMappingView| NotificationView { operation, mapping: m }
}

/// Appends to `out` one message per mapping, each saying `operation`.
pub fn push_notifications(
    out: &mut Vec<Notification>,
    operation: Operation,
    mappings: Vec<ParallelUnitMapping>,
)
    ensures
        final(out).deep_view() == old(out).deep_view() + mappings.deep_view().map_values(
            announce(operation),
        ),
{
    let mut i: usize = 0;
    let ghost want = mappings.deep_view().map_values(announce(operation));
    assert(out.deep_view() =~= old(out).deep_view() + want.take(0));
    while i < mappings.len()
        invariant
            i <= mappings.len(),
            want == mappings.deep_view().map_values(announce(operation)),
            out.deep_view() == old(out).deep_view() + want.take(i as int),
        decreases mappings.len() - i,
    {
        let ghost before = out.deep_view();
        let m = mappings[i].deep_clone();
        out.push(Notification { operation, mapping: m });
        proof {
            assert(out.deep_view() =~= before.push(
                NotificationView { operation, mapping: m@ },
            ));
            assert(want[i as int] == announce(operation)(mappings.deep_view()[i as int]));
            assert(out.deep_view() =~= old(out).deep_view() + want.take(i as int + 1));
        }
        i += 1;
    }
    assert(want.take(mappings.len() as int) =~= want);
}

} // verus!
