//! The one piece of shared state with a rule of its own: at most one
//! catalog sync runs at a time, since two would fight over the same file.

use vstd::prelude::*;
use crate::error::{invalid, AppResult};

verus! {

/// Told to a caller starting a sync while one is running.
pub const SYNC_RUNNING: &'static str = "a catalog sync is already running";

/// Proof that a sync was claimed. Only `SyncGate::begin_sync` makes one,
/// and handing it back to `end_sync` clears the claim.
#[derive(Debug)]
pub struct SyncGuard {
    claimed: (),
}

/// Whether a catalog sync is running.
#[derive(Debug)]
pub struct SyncGate {
    running: bool,
}

impl SyncGate {
    /// Whether a catalog sync is running now.
    pub closed spec fn running_spec(&self) -> bool {
        self.running
    }

    /// A gate with no sync running.
    pub fn new() -> (r: Self)
        ensures
            !r.running_spec(),
    {
        SyncGate { running: false }
    }

    /// Whether a catalog sync is running now.
    pub fn is_running(&self) -> (r: bool)
        ensures
            r == self.running_spec(),
    {
        self.running
    }

    /// Claim the right to run a catalog sync; refused while another holds it.
    pub fn begin_sync(&mut self) -> (r: AppResult<SyncGuard>)
        ensures
            old(self).running_spec() ==> (r matches Err(e) && e.is_invalid_with(SYNC_RUNNING@)),
            old(self).running_spec() ==> final(self).running_spec(),
            !old(self).running_spec() ==> r is Ok && final(self).running_spec(),
    {
        if self.running {
            return Err(invalid(SYNC_RUNNING));
        }
        self.running = true;
        Ok(SyncGuard { claimed: () })
    }

    /// Release the claim a sync held, however the sync ended.
    pub fn end_sync(&mut self, guard: SyncGuard)
        ensures
            !final(self).running_spec(),
    {
        let SyncGuard { claimed: _ } = guard;
        self.running = false;
    }
}

/// One step on a sync gate: a claim (`begin_sync`) or the release of a
/// claim that was granted (`end_sync` with its guard).
pub enum GateStep {
    Begin,
    End,
}

/// A gate after `steps`, from a gate with no sync running: whether a sync
/// holds it, and how many granted claims have not been released. A claim is
/// granted only on a free gate, as `begin_sync` says; a release frees the
/// gate, as `end_sync` says.
pub open spec fn gate_after(steps: Seq<GateStep>) -> (bool, int)
    decreases steps.len(),
{
    if steps.len() == 0 {
        (false, 0)
    } else {
        let (running, held) = gate_after(steps.drop_last());
        match steps.last() {
            GateStep::Begin => if running {
                (true, held)
            } else {
                (true, held + 1)
            },
            GateStep::End => (false, held - 1),
        }
    }
}

/// Every release hands back a guard that is still held: guards are moved
/// into `end_sync`, so each granted claim is released at most once.
pub open spec fn releases_held_guards(steps: Seq<GateStep>) -> bool {
    forall|i: int|
        0 <= i < steps.len() && #[trigger] steps[i] is End ==> gate_after(steps.take(i)).1 > 0
}

/// However claims and releases interleave, no two catalog syncs overlap.
/// The count of granted claims still outstanding never exceeds one, and a gate
/// reads as taken precisely when that count is one, so a new claim is
/// granted only when none is outstanding.
pub proof fn law_one_sync_at_a_time(steps: Seq<GateStep>)
    requires
        releases_held_guards(steps),
    ensures
        0 <= gate_after(steps).1 <= 1,
        gate_after(steps).0 == (gate_after(steps).1 == 1),
    decreases steps.len(),
{
    if steps.len() > 0 {
        let rest = steps.drop_last();
        assert forall|i: int| 0 <= i < rest.len() && #[trigger] rest[i] is End implies gate_after(
            rest.take(i),
        ).1 > 0 by {
            assert(rest.take(i) =~= steps.take(i));
            assert(steps[i] is End);
        }
        law_one_sync_at_a_time(rest);
        if steps.last() is End {
            let k = steps.len() - 1;
            assert(steps.take(k) =~= rest);
            assert(steps[k] is End);
        }
    }
}

} // verus!
