use std::collections::VecDeque;
use vstd::prelude::*;

verus! {

/// How many of the latest snapshots a client keeps for interpolation.
pub const SNAPSHOT_HISTORY: usize = 5;

/// The snapshots kept after `snapshot` arrives: it joins at the back, and
/// the oldest leaves once more than `SNAPSHOT_HISTORY` are held.
pub open spec fn kept_snapshots<T>(before: Seq<T>, snapshot: T) -> Seq<T> {
    if before.len() + 1 > SNAPSHOT_HISTORY {
        before.push(snapshot).drop_first()
    } else {
        before.push(snapshot)
    }
}

/// Records a snapshot received from the server: see `kept_snapshots`.
pub fn record_snapshot<T>(last_snapshots: &mut VecDeque<T>, snapshot: T)
    ensures
        final(last_snapshots)@ == kept_snapshots(old(last_snapshots)@, snapshot),
{
    last_snapshots.push_back(snapshot);
    if last_snapshots.len() > SNAPSHOT_HISTORY {
        let _ = last_snapshots.pop_front();
        proof {
            let pushed = old(last_snapshots)@.push(snapshot);
            assert(pushed.subrange(1, pushed.len() as int) =~= pushed.drop_first());
        }
    }
}

/// A client never holds more than `SNAPSHOT_HISTORY` snapshots, and the
/// newest one is always the one that arrived last.
pub proof fn lemma_snapshot_history_bounded<T>(before: Seq<T>, snapshot: T)
    requires
        before.len() <= SNAPSHOT_HISTORY,
    ensures
        kept_snapshots(before, snapshot).len() <= SNAPSHOT_HISTORY,
        kept_snapshots(before, snapshot).last() == snapshot,
        before.len() < SNAPSHOT_HISTORY ==> kept_snapshots(before, snapshot).len() == before.len()
            + 1,
{
}

} // verus!
