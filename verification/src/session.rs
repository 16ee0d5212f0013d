//! The playback session lifecycle manager: the single source of truth for
//! what is currently playing and for cancelling it.
//!
//! The manager is a state machine over plain values. The surrounding
//! program establishes streams and runs playback tasks; every decision —
//! whether a descriptor is accepted, which session is current, whether a
//! task must stop — is taken here and carries a contract.
//!
//! Cancellation is a broadcast, not a unicast: the manager keeps one stop
//! epoch, every playback task records the epoch it subscribed at, and a
//! task must stop exactly when the manager's epoch has moved past its own.
//! A task that subscribes after a stop has completed does not see that
//! stop; only a later one reaches it.
//!
//! Policy for `play` while a session is active: the new session starts
//! independently and becomes the current one; the older task keeps running
//! until it ends naturally or a stop is broadcast, which terminates every
//! outstanding task at once.

use vstd::prelude::*;

use crate::descriptor::Descriptor;

verus! {

/// Whether the current session slot holds a task that has not completed.
#[derive(Clone, Copy, PartialEq, Eq, Structural, Debug)]
pub struct Status {
    pub playing: bool,
}

/// Errors of the lifecycle operations.
#[derive(Clone, Copy, PartialEq, Eq, Structural, Debug)]
pub enum PlaybackError {
    /// The descriptor is malformed or a parameter is out of range.
    Validation,
    /// The stream engine could not establish a stream.
    StreamEstablish,
    /// The operation needs an active session and there is none.
    NoActiveSession,
    /// The requested volume lies outside the accepted range.
    InvalidVolume,
}

/// Volume is held in thousandths of full scale: `0` is silence,
/// [`VOLUME_FULL_SCALE`] is full volume.
pub const VOLUME_FULL_SCALE: u16 = 1000;

/// The default volume: half of full scale.
pub const VOLUME_DEFAULT: u16 = 500;

/// The mathematical state of the manager.
pub struct ManagerView {
    /// How many stop broadcasts have completed.
    pub stop_epoch: nat,
    /// Whether any playback task ever subscribed to the stop signal.
    pub ever_subscribed: bool,
    /// The identifier the next session will receive.
    pub next_session_id: nat,
    /// The identifier of the current session, if the slot is occupied.
    pub current: Option<nat>,
    /// The last-set volume, in thousandths of full scale.
    pub volume: nat,
}

/// The handle a playback task keeps: which session it drives and the stop
/// epoch it subscribed at.
#[derive(Clone, Copy, PartialEq, Eq, Structural, Debug)]
pub struct PlaybackTask {
    pub session_id: u64,
    pub subscribed_epoch: u64,
}

/// The lifecycle manager. It owns the session slot, the stop epoch and the
/// volume; nothing else may mutate them.
pub struct SessionManager {
    stop_epoch: u64,
    ever_subscribed: bool,
    next_session_id: u64,
    current: Option<u64>,
    volume: u16,
}

impl View for SessionManager {
    type V = ManagerView;

    closed spec fn view(&self) -> ManagerView {
        ManagerView {
            stop_epoch: self.stop_epoch as nat,
            ever_subscribed: self.ever_subscribed,
            next_session_id: self.next_session_id as nat,
            current: match self.current {
                Some(id) => Some(id as nat),
                None => None,
            },
            volume: self.volume as nat,
        }
    }
}

impl ManagerView {
    /// The manager's invariant: the volume is in range, counters fit their
    /// machine words, and an occupied slot names a session that was handed
    /// out after a subscription.
    pub open spec fn wf(self) -> bool {
        &&& self.volume <= VOLUME_FULL_SCALE
        &&& self.stop_epoch <= u64::MAX
        &&& self.next_session_id <= u64::MAX
        &&& match self.current {
            Some(id) => id < self.next_session_id && self.ever_subscribed,
            None => true,
        }
    }

    /// Whether the session slot is occupied.
    pub open spec fn is_playing(self) -> bool {
        self.current is Some
    }
}

/// One successful `play`: the task subscribed at the broadcast epoch of the
/// starting state, received the next session identifier, and became the
/// current session. Stop epoch and volume are untouched.
pub open spec fn spawned(m0: ManagerView, m1: ManagerView, t: PlaybackTask) -> bool {
    &&& t.subscribed_epoch == m0.stop_epoch
    &&& t.session_id == m0.next_session_id
    &&& m1.stop_epoch == m0.stop_epoch
    &&& m1.ever_subscribed
    &&& m1.next_session_id == m0.next_session_id + 1
    &&& m1.current == Some(t.session_id as nat)
    &&& m1.volume == m0.volume
}

/// One successful `stop`: the broadcast epoch advanced by one and nothing
/// else changed.
pub open spec fn stopped(m0: ManagerView, m1: ManagerView) -> bool {
    &&& m1.stop_epoch == m0.stop_epoch + 1
    &&& m1.ever_subscribed == m0.ever_subscribed
    &&& m1.next_session_id == m0.next_session_id
    &&& m1.current == m0.current
    &&& m1.volume == m0.volume
}

/// Whether a task must terminate: a broadcast happened after it subscribed.
pub open spec fn observes_stop(t: PlaybackTask, m: ManagerView) -> bool {
    m.stop_epoch > t.subscribed_epoch
}

impl SessionManager {
    /// A fresh manager: no session, no subscription yet, default volume.
    pub fn new() -> (r: SessionManager)
        ensures
            r@.wf(),
            r@.stop_epoch == 0,
            !r@.ever_subscribed,
            r@.next_session_id == 0,
            r@.current is None,
            r@.volume == VOLUME_DEFAULT,
    {
        SessionManager {
            stop_epoch: 0,
            ever_subscribed: false,
            next_session_id: 0,
            current: None,
            volume: VOLUME_DEFAULT,
        }
    }

    /// Validation step of `play`: decides whether a descriptor may reach
    /// the stream engine. Fails fast, before any resource is acquired,
    /// and changes nothing.
    pub fn request_play(&self, descriptor: &Descriptor) -> (r: Result<(), PlaybackError>)
        ensures
            r is Ok <==> descriptor@.playable(),
            r is Err ==> r == Result::<(), PlaybackError>::Err(PlaybackError::Validation),
    {
        if descriptor.is_playable() {
            Ok(())
        } else {
            Err(PlaybackError::Validation)
        }
    }

    /// Completion step of `play`, fed the outcome of the stream engine's
    /// establishment attempt. On success the new task subscribes to the
    /// stop signal and becomes the current session; on failure the state
    /// is untouched and the establishment error is surfaced synchronously.
    pub fn confirm_play(&mut self, established: bool) -> (r: Result<
        PlaybackTask,
        PlaybackError,
    >)
        requires
            old(self)@.wf(),
            old(self)@.next_session_id < u64::MAX,
        ensures
            final(self)@.wf(),
            !established ==> r == Result::<PlaybackTask, PlaybackError>::Err(
                PlaybackError::StreamEstablish,
            ) && final(self)@ == old(self)@,
            established ==> (r matches Ok(t) && spawned(old(self)@, final(self)@, t)),
    {
        if !established {
            return Err(PlaybackError::StreamEstablish);
        }
        let id = self.next_session_id;
        self.next_session_id = self.next_session_id + 1;
        self.ever_subscribed = true;
        self.current = Some(id);
        Ok(PlaybackTask { session_id: id, subscribed_epoch: self.stop_epoch })
    }

    /// Broadcasts the stop signal. Returns `NoActiveSession` only when no
    /// task has ever subscribed and none is recorded as active; otherwise
    /// it succeeds, also when every earlier task already finished — the
    /// signal is a fire-and-forget notification, so stopping twice in a
    /// row is not an error.
    pub fn stop(&mut self) -> (r: Result<(), PlaybackError>)
        requires
            old(self)@.wf(),
            old(self)@.stop_epoch < u64::MAX,
        ensures
            final(self)@.wf(),
            !old(self)@.ever_subscribed && old(self)@.current is None ==> r == Result::<
                (),
                PlaybackError,
            >::Err(PlaybackError::NoActiveSession) && final(self)@ == old(self)@,
            old(self)@.ever_subscribed || old(self)@.current is Some ==> r == Result::<
                (),
                PlaybackError,
            >::Ok(()) && stopped(old(self)@, final(self)@),
    {
        if !self.ever_subscribed && self.current.is_none() {
            return Err(PlaybackError::NoActiveSession);
        }
        self.stop_epoch = self.stop_epoch + 1;
        Ok(())
    }

    /// Whether the current session slot is occupied. Never blocks.
    pub fn status(&self) -> (r: Status)
        ensures
            r.playing == self@.is_playing(),
    {
        Status { playing: self.current.is_some() }
    }

    /// Records that a playback task ended — cancelled, failed mid-stream
    /// or finished naturally. Clears the session slot exactly when that
    /// task still is the current session.
    pub fn task_finished(&mut self, task: &PlaybackTask)
        requires
            old(self)@.wf(),
        ensures
            final(self)@.wf(),
            final(self)@.current == if old(self)@.current == Some(task.session_id as nat) {
                Option::<nat>::None
            } else {
                old(self)@.current
            },
            final(self)@.stop_epoch == old(self)@.stop_epoch,
            final(self)@.ever_subscribed == old(self)@.ever_subscribed,
            final(self)@.next_session_id == old(self)@.next_session_id,
            final(self)@.volume == old(self)@.volume,
    {
        match self.current {
            Some(id) => {
                if id == task.session_id {
                    self.current = None;
                }
            },
            None => {},
        }
    }

    /// Sets the volume, in thousandths of full scale. An out-of-range
    /// level is rejected first; without an active session the level is
    /// rejected next; otherwise it is recorded.
    pub fn set_volume(&mut self, level: u16) -> (r: Result<(), PlaybackError>)
        requires
            old(self)@.wf(),
        ensures
            final(self)@.wf(),
            level > VOLUME_FULL_SCALE ==> r == Result::<(), PlaybackError>::Err(
                PlaybackError::InvalidVolume,
            ) && final(self)@ == old(self)@,
            level <= VOLUME_FULL_SCALE && old(self)@.current is None ==> r == Result::<
                (),
                PlaybackError,
            >::Err(PlaybackError::NoActiveSession) && final(self)@ == old(self)@,
            level <= VOLUME_FULL_SCALE && old(self)@.current is Some ==> r == Result::<
                (),
                PlaybackError,
            >::Ok(()) && final(self)@ == (ManagerView { volume: level as nat, ..old(self)@ }),
    {
        if level > VOLUME_FULL_SCALE {
            return Err(PlaybackError::InvalidVolume);
        }
        if self.current.is_none() {
            return Err(PlaybackError::NoActiveSession);
        }
        self.volume = level;
        Ok(())
    }

    /// The last-set or default volume, in thousandths of full scale.
    /// Never blocks.
    pub fn get_volume(&self) -> (r: u16)
        ensures
            r as nat == self@.volume,
    {
        self.volume
    }
}

impl PlaybackTask {
    /// The cooperative cancellation check a playback task makes while it
    /// drives its stream: true exactly when the stop signal fired after
    /// the task subscribed.
    pub fn should_stop(&self, manager: &SessionManager) -> (r: bool)
        ensures
            r == observes_stop(*self, manager@),
    {
        manager.get_stop_epoch() > self.subscribed_epoch
    }
}

impl SessionManager {
    /// The broadcast epoch, read by tasks when polling the stop signal.
    pub fn get_stop_epoch(&self) -> (r: u64)
        ensures
            r as nat == self@.stop_epoch,
    {
        self.stop_epoch
    }
}

/// A successfully started session is immediately visible: after `play`
/// succeeds, the slot is occupied and `status` reports playing.
pub proof fn lemma_play_reports_playing(m0: ManagerView, m1: ManagerView, t: PlaybackTask)
    requires
        spawned(m0, m1, t),
    ensures
        m1.is_playing(),
{
}

/// One broadcast reaches every outstanding task: after two overlapping
/// `play` calls, a single `stop` is observed by both resulting tasks —
/// cancellation is a broadcast, not a unicast.
pub proof fn lemma_stop_reaches_all(
    m0: ManagerView,
    m1: ManagerView,
    m2: ManagerView,
    m3: ManagerView,
    t1: PlaybackTask,
    t2: PlaybackTask,
)
    requires
        spawned(m0, m1, t1),
        spawned(m1, m2, t2),
        stopped(m2, m3),
    ensures
        observes_stop(t1, m3),
        observes_stop(t2, m3),
{
}

/// A task that subscribes after a stop completed does not see that stop:
/// broadcasts reach only the tasks subscribed at the time.
pub proof fn lemma_late_subscriber_misses_stop(
    m0: ManagerView,
    m1: ManagerView,
    m2: ManagerView,
    t: PlaybackTask,
)
    requires
        stopped(m0, m1),
        spawned(m1, m2, t),
    ensures
        !observes_stop(t, m2),
{
}

} // verus!
