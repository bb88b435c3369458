use vstd::prelude::*;
use crate::messages::Heartbeat;
use crate::tangle::Tangle;

verus! {

/// A new milestone was seen: raises the last milestone index.
pub fn on_last_milestone_changed(t: &mut Tangle, index: u32)
    requires
        old(t).wf(),
    ensures
        final(t).wf(),
        old(t).confirmation_closed() ==> final(t).confirmation_closed(),
        final(t).last_index == if index > old(t).last_index { index } else { old(t).last_index },
        final(t).last_solid_index == old(t).last_solid_index,
        final(t).snapshot_index == old(t).snapshot_index,
        final(t).entries == old(t).entries,
        final(t).seps == old(t).seps,
{
    t.update_last_milestone_index(index);
}

/// A milestone became solid: raises the last solid milestone index and
/// returns the heartbeat to send to the peers.
pub fn on_last_solid_milestone_changed(t: &mut Tangle, index: u32) -> (r: Heartbeat)
    requires
        old(t).wf(),
    ensures
        final(t).wf(),
        old(t).confirmation_closed() ==> final(t).confirmation_closed(),
        final(t).last_solid_index == if index > old(t).last_solid_index { index } else { old(t).last_solid_index },
        final(t).last_index == if index > old(t).last_index { index } else { old(t).last_index },
        final(t).snapshot_index == old(t).snapshot_index,
        final(t).entries == old(t).entries,
        final(t).seps == old(t).seps,
        r.last_solid_milestone_index == index,
        r.snapshot_milestone_index == old(t).snapshot_index,
        r.last_milestone_index == final(t).last_index,
{
    t.update_last_solid_milestone_index(index);
    Heartbeat::new(index, t.snapshot_milestone_index(), t.last_milestone_index())
}

} // verus!
