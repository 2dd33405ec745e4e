//! The flush cycle as a state machine: the caller performs each action against the store,
//! the remote mirror and the shared counters, and feeds back what happened.
//!
//! A cycle copies the window, persists the copy, replaces the cumulative totals with what the
//! store reports, mirrors the copy when a remote store is configured, and only then clears the
//! window. A failed persist, or a lock that could not be taken in time, ends the cycle with
//! both counters untouched.

use vstd::prelude::*;
use crate::metrics::{Metrics, TotalMetrics, zero_metrics};
use crate::supabase;

verus! {

/// The durable store failed.
#[derive(Debug, Clone)]
pub struct StoreError {
    pub message: String,
}

/// The remote mirror failed.
#[derive(Debug, Clone)]
pub struct SyncError {
    pub message: String,
}

/// Where a flush cycle stands.
#[derive(Debug, Clone, Copy, PartialEq, Eq, Structural)]
pub enum FlushPhase {
    /// Waiting for the window lock.
    Start,
    /// Waiting for the store to persist the copy.
    Persisting,
    /// Waiting for the store's totals.
    Refreshing,
    /// Waiting for the remote mirror.
    Mirroring,
    /// The cycle is over.
    Finished,
}

/// What the caller observed after the last action.
#[derive(Debug)]
pub enum FlushEvent {
    LockTimedOut,
    WindowCopied(Metrics),
    InsertFinished(Result<(), StoreError>),
    TotalsFetched(Result<TotalMetrics, StoreError>),
    SyncFinished(Result<(), SyncError>),
}

/// What the caller does next.
#[derive(Debug, Clone)]
pub enum FlushAction {
    /// The cycle ends; the window and the totals stay as they are.
    Skip,
    /// Persist this copy of the window.
    Insert(Metrics),
    /// Fetch the cumulative totals from the store.
    FetchTotals,
    /// Mirror this record to the remote store.
    Upsert(supabase::Metrics),
    /// The cycle ends: replace the totals with these when there are some, clear the window,
    /// and publish the totals.
    Commit(Option<TotalMetrics>),
}

/// One flush cycle.
#[derive(Debug, Clone)]
pub struct FlushCycle {
    pub phase: FlushPhase,
    /// The copy of the window being persisted.
    pub snapshot: Metrics,
    /// The totals the store reported, once it has.
    pub totals: Option<TotalMetrics>,
    pub device_id: String,
    /// Whether a remote mirror is configured.
    pub remote_enabled: bool,
}

impl FlushCycle {
    /// A cycle about to take the window lock.
    pub open spec fn started(device_id: String, remote_enabled: bool) -> FlushCycle {
        FlushCycle {
            phase: FlushPhase::Start,
            snapshot: zero_metrics(),
            totals: None,
            device_id,
            remote_enabled,
        }
    }

    /// The next state and action after `event`.
    pub open spec fn next(self, event: FlushEvent) -> (FlushCycle, FlushAction) {
        let done = FlushCycle { phase: FlushPhase::Finished, ..self };
        match (self.phase, event) {
            (FlushPhase::Start, FlushEvent::WindowCopied(w)) => (
                FlushCycle { phase: FlushPhase::Persisting, snapshot: w, ..self },
                FlushAction::Insert(w),
            ),
            (FlushPhase::Persisting, FlushEvent::InsertFinished(Ok(()))) => (
                FlushCycle { phase: FlushPhase::Refreshing, ..self },
                FlushAction::FetchTotals,
            ),
            (FlushPhase::Refreshing, FlushEvent::TotalsFetched(r)) => {
                let totals = match r {
                    Ok(t) => Some(t),
                    Err(_) => None,
                };
                if self.remote_enabled {
                    (
                        FlushCycle { phase: FlushPhase::Mirroring, totals, ..self },
                        FlushAction::Upsert(supabase::Metrics::of_window(self.snapshot, self.device_id)),
                    )
                } else {
                    (FlushCycle { phase: FlushPhase::Finished, totals, ..self }, FlushAction::Commit(totals))
                }
            },
            (FlushPhase::Mirroring, FlushEvent::SyncFinished(_)) => (done, FlushAction::Commit(self.totals)),
            _ => (done, FlushAction::Skip),
        }
    }

    /// A cycle about to take the window lock, for device `device_id`.
    pub fn new(device_id: String, remote_enabled: bool) -> (r: FlushCycle)
        ensures
            r == FlushCycle::started(device_id, remote_enabled),
    {
        FlushCycle {
            phase: FlushPhase::Start,
            snapshot: Metrics::new(),
            totals: None,
            device_id,
            remote_enabled,
        }
    }

    /// Takes `event` into account and says what to do next.
    pub fn step(&mut self, event: FlushEvent) -> (r: FlushAction)
        ensures
            (*final(self), r) == old(self).next(event),
    {
        match (self.phase, event) {
            (FlushPhase::Start, FlushEvent::WindowCopied(w)) => {
                self.phase = FlushPhase::Persisting;
                self.snapshot = w;
                FlushAction::Insert(w)
            },
            (FlushPhase::Persisting, FlushEvent::InsertFinished(Ok(()))) => {
                self.phase = FlushPhase::Refreshing;
                FlushAction::FetchTotals
            },
            (FlushPhase::Refreshing, FlushEvent::TotalsFetched(r)) => {
                let totals = match r {
                    Ok(t) => Some(t),
                    Err(_) => None,
                };
                self.totals = totals;
                if self.remote_enabled {
                    self.phase = FlushPhase::Mirroring;
                    FlushAction::Upsert(supabase::Metrics::from_window(&self.snapshot, self.device_id.clone()))
                } else {
                    self.phase = FlushPhase::Finished;
                    FlushAction::Commit(totals)
                }
            },
            (FlushPhase::Mirroring, FlushEvent::SyncFinished(_)) => {
                self.phase = FlushPhase::Finished;
                FlushAction::Commit(self.totals)
            },
            _ => {
                self.phase = FlushPhase::Finished;
                FlushAction::Skip
            },
        }
    }
}

/// The window and totals after an action: a commit clears the window and replaces the totals
/// with the store's, when it reported them; any other action changes neither.
pub open spec fn cells_after(window: Metrics, totals: TotalMetrics, action: FlushAction) -> (Metrics, TotalMetrics) {
    match action {
        FlushAction::Commit(Some(t)) => (zero_metrics(), t),
        FlushAction::Commit(None) => (zero_metrics(), totals),
        _ => (window, totals),
    }
}

/// Carries out an action's effect on the shared window and totals.
pub fn apply_to_cells(action: &FlushAction, window: &mut Metrics, totals: &mut TotalMetrics)
    ensures
        (*final(window), *final(totals)) == cells_after(*old(window), *old(totals), *action),
{
    match action {
        FlushAction::Commit(t) => {
            window.reset();
            if let Some(t) = t {
                *totals = *t;
            }
        },
        _ => {},
    }
}

/// The cycle, window and totals after a run of events, each action carried out as it comes.
pub open spec fn run_events(
    c: FlushCycle,
    window: Metrics,
    totals: TotalMetrics,
    events: Seq<FlushEvent>,
) -> (FlushCycle, Metrics, TotalMetrics)
    decreases events.len(),
{
    if events.len() == 0 {
        (c, window, totals)
    } else {
        let (c2, a) = c.next(events[0]);
        let (w2, t2) = cells_after(window, totals, a);
        run_events(c2, w2, t2, events.subrange(1, events.len() as int))
    }
}

/// A finished cycle changes nothing, whatever else happens.
pub proof fn lemma_finished_cycle_is_inert(
    c: FlushCycle,
    window: Metrics,
    totals: TotalMetrics,
    events: Seq<FlushEvent>,
)
    requires
        c.phase == FlushPhase::Finished,
    ensures
        run_events(c, window, totals, events).0.phase == FlushPhase::Finished,
        run_events(c, window, totals, events).1 == window,
        run_events(c, window, totals, events).2 == totals,
    decreases events.len(),
{
    if events.len() > 0 {
        lemma_finished_cycle_is_inert(
            c.next(events[0]).0,
            window,
            totals,
            events.subrange(1, events.len() as int),
        );
    }
}

/// When the store fails to persist the window's copy, the cycle leaves the window and the
/// totals as they were before it, so the next cycle persists this interval's counts together
/// with the next one's.
pub proof fn lemma_failed_insert_keeps_counters(
    device_id: String,
    remote_enabled: bool,
    window: Metrics,
    totals: TotalMetrics,
    events: Seq<FlushEvent>,
)
    requires
        events.len() >= 2,
        events[0] is WindowCopied,
        events[1] matches FlushEvent::InsertFinished(r) && r is Err,
    ensures
        run_events(FlushCycle::started(device_id, remote_enabled), window, totals, events).1 == window,
        run_events(FlushCycle::started(device_id, remote_enabled), window, totals, events).2 == totals,
{
    let c0 = FlushCycle::started(device_id, remote_enabled);
    let c1 = c0.next(events[0]).0;
    let c2 = c1.next(events[1]).0;
    let rest1 = events.subrange(1, events.len() as int);
    let rest2 = rest1.subrange(1, rest1.len() as int);
    assert(rest1[0] == events[1]);
    assert(run_events(c0, window, totals, events) == run_events(c1, window, totals, rest1));
    assert(run_events(c1, window, totals, rest1) == run_events(c2, window, totals, rest2));
    lemma_finished_cycle_is_inert(c2, window, totals, rest2);
}

/// When the window lock cannot be taken in time, the cycle leaves the window and the totals
/// as they were.
pub proof fn lemma_lock_timeout_keeps_counters(
    device_id: String,
    remote_enabled: bool,
    window: Metrics,
    totals: TotalMetrics,
    events: Seq<FlushEvent>,
)
    requires
        events.len() >= 1,
        events[0] is LockTimedOut,
    ensures
        run_events(FlushCycle::started(device_id, remote_enabled), window, totals, events).1 == window,
        run_events(FlushCycle::started(device_id, remote_enabled), window, totals, events).2 == totals,
{
    let c1 = FlushCycle::started(device_id, remote_enabled).next(events[0]).0;
    lemma_finished_cycle_is_inert(c1, window, totals, events.subrange(1, events.len() as int));
}

/// After a cycle in which the store persisted the window's copy and reported totals `t`
/// (and the mirror answered, when one is configured), the totals are exactly `t` and the
/// window is clear.
pub proof fn lemma_successful_flush_takes_store_totals(
    device_id: String,
    remote_enabled: bool,
    window: Metrics,
    totals: TotalMetrics,
    t: TotalMetrics,
    events: Seq<FlushEvent>,
)
    requires
        events.len() >= 4,
        events[0] is WindowCopied,
        events[1] matches FlushEvent::InsertFinished(r) && r is Ok,
        events[2] == FlushEvent::TotalsFetched(Ok(t)),
        remote_enabled ==> events[3] is SyncFinished,
    ensures
        run_events(FlushCycle::started(device_id, remote_enabled), window, totals, events).1
            == zero_metrics(),
        run_events(FlushCycle::started(device_id, remote_enabled), window, totals, events).2 == t,
{
    let c0 = FlushCycle::started(device_id, remote_enabled);
    let e1 = events.subrange(1, events.len() as int);
    let e2 = e1.subrange(1, e1.len() as int);
    let e3 = e2.subrange(1, e2.len() as int);
    let e4 = e3.subrange(1, e3.len() as int);
    assert(e1[0] == events[1]);
    assert(e2[0] == events[2]);
    assert(e3[0] == events[3]);
    let c1 = c0.next(events[0]).0;
    let c2 = c1.next(e1[0]).0;
    let c3 = c2.next(e2[0]).0;
    assert(c3.totals == Some(t));
    assert(run_events(c0, window, totals, events) == run_events(c1, window, totals, e1));
    assert(run_events(c1, window, totals, e1) == run_events(c2, window, totals, e2));
    if remote_enabled {
        let c4 = c3.next(e3[0]).0;
        assert(run_events(c2, window, totals, e2) == run_events(c3, window, totals, e3));
        assert(run_events(c3, window, totals, e3) == run_events(c4, zero_metrics(), t, e4));
        lemma_finished_cycle_is_inert(c4, zero_metrics(), t, e4);
    } else {
        assert(run_events(c2, window, totals, e2) == run_events(c3, zero_metrics(), t, e3));
        lemma_finished_cycle_is_inert(c3, zero_metrics(), t, e3);
    }
}

} // verus!
