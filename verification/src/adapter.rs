//! The asynchronous bridge: the suspend/wake protocol of a consumer that
//! awaits data instead of busy-looping.
//!
//! Two pieces cooperate.  The waker cell is the single shared slot through
//! which the watcher thread (blocked on the directory's rename events)
//! hands a wake to the consumer's task; its transitions keep a sticky
//! "event seen" flag so that an event firing before the consumer has
//! registered is never lost.  The adapter itself is a two-state machine —
//! idle, or awaiting a wake — driven by the outcome of each pull.

use vstd::prelude::*;

use crate::engine::HyperPipe;
use crate::engine::PushPlan;
use crate::manifest::Manifest;
use crate::manifest::spec_encode;

verus! {

/// The shared single-slot mailbox between the watcher thread and the
/// consumer task.  `armed` says a continuation is installed; `pending`
/// says an event fired while no continuation was installed and has not
/// been consumed yet.  The embedding program keeps one such cell, with
/// the continuation itself, behind its own atomic replace operation.
pub struct WakeCell {
    pub armed: bool,
    pub pending: bool,
}

/// The cell after an event fires, and whether the installed continuation
/// is to be invoked now.
pub open spec fn spec_on_event(c: WakeCell) -> (WakeCell, bool) {
    if c.armed {
        (WakeCell { armed: false, pending: false }, true)
    } else {
        (WakeCell { armed: false, pending: true }, false)
    }
}

/// The cell after a consumer registers its continuation, and whether it
/// must be woken at once because an event already fired.
pub open spec fn spec_register(c: WakeCell) -> (WakeCell, bool) {
    if c.pending {
        (WakeCell { armed: c.armed, pending: false }, true)
    } else {
        (WakeCell { armed: true, pending: c.pending }, false)
    }
}

impl WakeCell {
    /// A fresh cell: nothing installed, nothing seen.
    pub fn new() -> (r: Self)
        ensures
            !r.armed,
            !r.pending,
    {
        WakeCell { armed: false, pending: false }
    }

    /// The watcher thread saw at least one rename event in the pipe
    /// directory.  If a continuation is installed it is consumed and must
    /// be invoked exactly once (the result is `true`); otherwise the
    /// event is remembered in the sticky flag rather than dropped.
    pub fn on_event(&mut self) -> (wake: bool)
        ensures
            (*final(self), wake) == spec_on_event(*old(self)),
    {
        if self.armed {
            self.armed = false;
            self.pending = false;
            true
        } else {
            self.pending = true;
            false
        }
    }

    /// The consumer found no data and installs its continuation.  If an
    /// event already fired, the registration consumes it instead and the
    /// consumer must re-check at once (the result is `true`): this is the
    /// register-then-recheck protocol that closes the missed-wakeup race.
    pub fn register(&mut self) -> (wake_now: bool)
        ensures
            (*final(self), wake_now) == spec_register(*old(self)),
    {
        if self.pending {
            self.pending = false;
            true
        } else {
            self.armed = true;
            false
        }
    }
}

/// No wake is lost and none is duplicated: starting from a quiet cell,
/// one event and one registration — in whichever order the watcher thread
/// and the consumer task interleave them — produce exactly one wake.
pub proof fn lemma_no_lost_wake(c: WakeCell)
    requires
        !c.armed,
        !c.pending,
    ensures
        ({
            let (c1, w1) = spec_on_event(c);
            let (c2, w2) = spec_register(c1);
            !w1 && w2
        }),
        ({
            let (c1, w1) = spec_register(c);
            let (c2, w2) = spec_on_event(c1);
            !w1 && w2
        }),
{
}

/// The adapter's two states: idle (no outstanding registration), or
/// awaiting a wake with its continuation installed in the cell.
#[derive(PartialEq, Eq, Structural)]
pub enum AdapterState {
    Idle,
    Awaiting,
}

/// What one poll of the adapter asks its driver to do.
pub enum PollOutcome {
    /// Data was pulled: hand it to the caller and stay idle.
    Ready(Vec<u8>),
    /// Nothing pending and not yet registered: install the continuation
    /// in the waker cell, then re-check before suspending.
    Register,
    /// Nothing pending and already registered: stay suspended.
    Suspend,
}

/// The pipe behind a suspend/resume contract: each poll either yields
/// data immediately or registers interest and suspends until the watcher
/// signals the manifest's rename.
pub struct AsyncHyperPipe {
    pub inner: HyperPipe,
    pub state: AdapterState,
}

impl AsyncHyperPipe {
    /// Attach an asynchronous handle: a fresh pipe handle (local cursor
    /// unset, so the backlog is redelivered) in the idle state.
    pub fn new(lag_ms: u64) -> (r: Self)
        ensures
            r.inner.manifest.latest is None,
            r.inner.lag_ms == lag_ms,
            r.state is Idle,
    {
        AsyncHyperPipe { inner: HyperPipe::new(lag_ms), state: AdapterState::Idle }
    }

    /// Push through the asynchronous handle: the plan of the underlying
    /// pipe, unchanged; pushing never touches the poll state.
    pub fn push(&mut self, data: Vec<u8>, ts: u64) -> (r: PushPlan)
        ensures
            r.payload@ == data@,
            r.manifest_bytes@ == spec_encode((Manifest { latest: Some(ts) })),
            crate::engine::is_data_name(r.data_name@),
            final(self).inner.manifest.latest == Some(ts),
            final(self).inner.lag_ms == old(self).inner.lag_ms,
            final(self).state == old(self).state,
    {
        self.inner.push(data, ts)
    }

    /// One poll step, driven by the outcome of the pull the driver just
    /// performed.  Data resolves the poll and returns the adapter to
    /// idle; an empty pull suspends it — registering first if and only if
    /// no registration is outstanding, so at most one continuation is
    /// ever installed.
    pub fn poll_step(&mut self, pulled: Option<Vec<u8>>) -> (r: PollOutcome)
        ensures
            final(self).inner == old(self).inner,
            pulled matches Some(data) ==> final(self).state is Idle && r == PollOutcome::Ready(
                data,
            ),
            pulled is None && old(self).state is Idle ==> final(self).state is Awaiting && r
                is Register,
            pulled is None && old(self).state is Awaiting ==> final(self).state is Awaiting && r
                is Suspend,
    {
        match pulled {
            Some(data) => {
                self.state = AdapterState::Idle;
                PollOutcome::Ready(data)
            },
            None => {
                match self.state {
                    AdapterState::Idle => {
                        self.state = AdapterState::Awaiting;
                        PollOutcome::Register
                    },
                    AdapterState::Awaiting => PollOutcome::Suspend,
                }
            },
        }
    }

    /// A wake resolves the registration: the adapter returns to idle and
    /// the driver re-pulls from the top.
    pub fn on_wake(&mut self)
        ensures
            final(self).inner == old(self).inner,
            final(self).state is Idle,
    {
        self.state = AdapterState::Idle;
    }
}

} // verus!
