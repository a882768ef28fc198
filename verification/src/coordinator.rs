//! The state machine that coalesces dirty signals into save cycles.
//!
//! Request handlers raise a dirty signal after every cache mutation.  At
//! most one save runs at a time; signals that arrive while one runs
//! collapse into a single pending flag instead of queueing.  The caller
//! owns the actual work: whenever a step returns [`SaveAction::BeginSave`]
//! it snapshots the cache at that moment and writes the snapshot out, then
//! reports back through [`SaveCoordinator::save_completed`] — on success
//! and on failure alike, since a failed write only means the next cycle
//! retries with fresher data.

use vstd::prelude::*;

verus! {

/// Whether a save is currently in flight.
#[derive(Clone, Copy, PartialEq, Eq, Structural, Debug)]
pub enum SaveState {
    Idle,
    Saving,
}

/// What the caller must do after a step: nothing, or snapshot the cache
/// now and write it out.
#[derive(Clone, Copy, PartialEq, Eq, Structural, Debug)]
pub enum SaveAction {
    Stand,
    BeginSave,
}

/// The coordinator's whole state: whether a save is in flight, and
/// whether a signal arrived since that save's snapshot was taken.
#[derive(Clone, Copy, PartialEq, Eq, Structural, Debug)]
pub struct SaveCoordinator {
    /// Whether a save is in flight.
    pub state: SaveState,
    /// Whether a signal arrived while it was.
    pub dirty: bool,
}

/// One dirty signal: starts a save when idle, otherwise only marks the
/// running cycle stale.
pub open spec fn signal_step(c: SaveCoordinator) -> (SaveCoordinator, SaveAction) {
    if c.state == SaveState::Idle {
        (SaveCoordinator { state: SaveState::Saving, dirty: false }, SaveAction::BeginSave)
    } else {
        (SaveCoordinator { state: SaveState::Saving, dirty: true }, SaveAction::Stand)
    }
}

/// One save completion: starts the coalesced follow-up save if a signal
/// arrived meanwhile, otherwise returns to idle.
pub open spec fn completion_step(c: SaveCoordinator) -> (SaveCoordinator, SaveAction) {
    if c.dirty {
        (SaveCoordinator { state: SaveState::Saving, dirty: false }, SaveAction::BeginSave)
    } else {
        (SaveCoordinator { state: SaveState::Idle, dirty: false }, SaveAction::Stand)
    }
}

impl SaveCoordinator {
    /// A coordinator at rest: idle, nothing pending.
    pub fn new() -> (c: SaveCoordinator)
        ensures
            c == (SaveCoordinator { state: SaveState::Idle, dirty: false }),
    {
        SaveCoordinator { state: SaveState::Idle, dirty: false }
    }

    /// Reports one cache mutation.  On `BeginSave` the caller snapshots
    /// and saves; on `Stand` the running save's completion will take care
    /// of it.
    pub fn notify_dirty(&mut self) -> (action: SaveAction)
        ensures
            (*final(self), action) == signal_step(*old(self)),
    {
        if self.state == SaveState::Idle {
            self.state = SaveState::Saving;
            self.dirty = false;
            SaveAction::BeginSave
        } else {
            self.dirty = true;
            SaveAction::Stand
        }
    }

    /// Reports that the save in flight finished, well or badly.  On
    /// `BeginSave` the caller immediately snapshots and saves again,
    /// covering every signal the finished cycle missed.
    pub fn save_completed(&mut self) -> (action: SaveAction)
        requires
            old(self).state == SaveState::Saving,
        ensures
            (*final(self), action) == completion_step(*old(self)),
    {
        if self.dirty {
            self.dirty = false;
            SaveAction::BeginSave
        } else {
            self.state = SaveState::Idle;
            SaveAction::Stand
        }
    }
}

/// The coordinator after `n` dirty signals in a row.
pub open spec fn signal_burst(c: SaveCoordinator, n: nat) -> SaveCoordinator
    decreases n,
{
    if n == 0 {
        c
    } else {
        signal_step(signal_burst(c, (n - 1) as nat)).0
    }
}

/// How many saves those `n` signals start.
pub open spec fn burst_saves(c: SaveCoordinator, n: nat) -> nat
    decreases n,
{
    if n == 0 {
        0
    } else {
        burst_saves(c, (n - 1) as nat) + if signal_step(signal_burst(c, (n - 1) as nat)).1
            == SaveAction::BeginSave {
            1nat
        } else {
            0nat
        }
    }
}

/// Law: a burst of dirty signals starts at most one save.  While a save
/// is in flight it starts none at all — the signals collapse into the
/// dirty flag, and completing the running save then begins exactly one
/// follow-up, whose snapshot is taken after the last signal.  And no
/// burst is lost: it either started a save itself or left the flag set.
pub proof fn lemma_signals_coalesce(c: SaveCoordinator, n: nat)
    requires
        n >= 1,
    ensures
        burst_saves(c, n) <= 1,
        signal_burst(c, n).state == SaveState::Saving,
        c.state == SaveState::Saving ==> burst_saves(c, n) == 0 && signal_burst(c, n).dirty,
        c.state == SaveState::Saving ==> completion_step(signal_burst(c, n)).1
            == SaveAction::BeginSave,
        burst_saves(c, n) == 1 || signal_burst(c, n).dirty,
    decreases n,
{
    if n == 1 {
        assert(signal_burst(c, 0) == c);
        assert(burst_saves(c, 0) == 0);
    } else {
        lemma_signals_coalesce(c, (n - 1) as nat);
    }
}

} // verus!
