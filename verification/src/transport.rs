//! The audio transport: a wall-clock anchored play/pause/stop/seek state
//! machine over the loaded track sinks, and the position sampler read once
//! per frame.
//!
//! The engine holds no audio handles itself: it decides, and its caller
//! performs. `play` is split in two: [`AudioEngine::play_action`] says what
//! the runtime must do with its sinks (start them, or reopen each source at
//! the pending seek target first), and [`AudioEngine::play`] commits the
//! clock state once the sinks are ready. The caller keeps its actual sinks
//! index-aligned with [`AudioEngine::tracks`].
//!
//! All times are milliseconds. `now` is a caller-supplied reading of a
//! monotonic wall clock with an arbitrary origin; nothing is assumed of it
//! beyond being non-negative.

use vstd::prelude::*;

verus! {

/// One loaded track: what the engine knows of a sink.
#[derive(Debug, Clone, PartialEq)]
pub struct TrackSink {
    pub id: String,
    pub name: String,
    /// Total duration of the decoded stream in milliseconds, 0 if unknown.
    pub duration: i64,
    /// The path the stream was opened from, kept to reopen it on seek.
    pub source: String,
    /// Volume in thousandths of full scale.
    pub volume: u32,
}

/// A snapshot of the transport, taken in one read for one frame.
#[derive(Debug, Clone, PartialEq)]
pub struct PlaybackState {
    /// Current position in milliseconds.
    pub position: i64,
    /// Total duration in milliseconds.
    pub duration: i64,
    pub is_playing: bool,
    pub is_paused: bool,
}

impl PlaybackState {
    /// The stopped, empty snapshot.
    pub fn new() -> (s: PlaybackState)
        ensures
            s.position == 0,
            s.duration == 0,
            !s.is_playing,
            !s.is_paused,
    {
        PlaybackState { position: 0, duration: 0, is_playing: false, is_paused: false }
    }
}

impl Default for PlaybackState {
    /// Same as `new`.
    fn default() -> (s: PlaybackState)
        ensures
            s.position == 0,
            s.duration == 0,
            !s.is_playing,
            !s.is_paused,
    {
        PlaybackState::new()
    }
}

/// What the runtime must do when play is requested.
#[derive(Debug, Clone, PartialEq)]
pub enum PlayAction {
    /// Nothing is loaded; play is a no-op.
    NoTracks,
    /// Start every sink, all in one pass.
    StartAll,
    /// A seek is pending: reopen every track's source, skip this many
    /// milliseconds forward, replace each sink, then start them all. On a
    /// reopen failure call `seek_reload_failed` instead of `play`.
    ReloadAtAndStartAll { position: i64 },
}

/// The transport state machine.
#[derive(Debug, Clone, PartialEq)]
pub struct AudioEngine {
    /// Loaded tracks, in load order.
    pub tracks: Vec<TrackSink>,
    /// While playing: the instant that counts as position zero, so that
    /// position = now − anchor. May lie before the clock's origin after a
    /// seek, hence possibly negative.
    pub playback_start: Option<i64>,
    /// While paused: the position at which playback paused.
    pub paused_at: Option<i64>,
    /// Directory against which relative track sources are resolved.
    pub base_dir: Option<String>,
    /// Seek target of the most recent seek, consumed by the next play.
    pub seek_position: Option<i64>,
}

/// Clamps a mathematical millisecond count into a non-negative `i64`.
pub open spec fn clamp_ms(d: int) -> i64 {
    if d < 0 {
        0
    } else if d > i64::MAX {
        i64::MAX
    } else {
        d as i64
    }
}

/// The largest track duration, 0 with no tracks.
pub open spec fn spec_duration(ts: Seq<TrackSink>) -> i64
    decreases ts.len(),
{
    if ts.len() == 0 {
        0
    } else if ts.last().duration > spec_duration(ts.drop_last()) {
        ts.last().duration
    } else {
        spec_duration(ts.drop_last())
    }
}

impl AudioEngine {
    /// The stored millisecond values are non-negative.
    pub open spec fn wf(self) -> bool {
        &&& match self.paused_at {
            Some(v) => v >= 0,
            None => true,
        }
        &&& match self.seek_position {
            Some(v) => v >= 0,
            None => true,
        }
        &&& forall|i: int| 0 <= i < self.tracks@.len() ==> self.tracks@[i].duration >= 0
    }

    /// Stopped: no anchor, no paused position, no pending seek.
    pub open spec fn spec_is_stopped(self) -> bool {
        self.playback_start is None && self.paused_at is None && self.seek_position is None
    }

    /// Playing: anchored and not paused.
    pub open spec fn spec_is_playing(self) -> bool {
        self.playback_start is Some && self.paused_at is None
    }

    /// Paused: a paused position is held.
    pub open spec fn spec_is_paused(self) -> bool {
        self.paused_at is Some
    }

    /// The position the transport reports at wall-clock `now`.
    pub open spec fn spec_position(self, now: i64) -> i64 {
        match self.paused_at {
            Some(v) => v,
            None => match self.playback_start {
                Some(a) => clamp_ms(now - a),
                None => 0,
            },
        }
    }

    /// An empty, stopped engine.
    pub fn new() -> (e: AudioEngine)
        ensures
            e.tracks@ == Seq::<TrackSink>::empty(),
            e.spec_is_stopped(),
            e.base_dir is None,
            e.wf(),
    {
        AudioEngine {
            tracks: Vec::new(),
            playback_start: None,
            paused_at: None,
            base_dir: None,
            seek_position: None,
        }
    }

    /// Sets the directory that relative track sources resolve against.
    pub fn set_base_dir(&mut self, dir: String)
        ensures
            final(self).base_dir == Some(dir),
            final(self).tracks == old(self).tracks,
            final(self).playback_start == old(self).playback_start,
            final(self).paused_at == old(self).paused_at,
            final(self).seek_position == old(self).seek_position,
    {
        self.base_dir = Some(dir);
    }

    /// Starts a load: drops every track and resets the clock state, as the
    /// first step of loading a song. The caller then opens each source and
    /// hands the opened tracks to `push_loaded_track` one by one; a track
    /// opened before a later failure stays loaded.
    pub fn begin_load(&mut self)
        ensures
            final(self).tracks@ == Seq::<TrackSink>::empty(),
            final(self).spec_is_stopped(),
            final(self).base_dir == old(self).base_dir,
            final(self).wf(),
    {
        self.tracks = Vec::new();
        self.playback_start = None;
        self.paused_at = None;
        self.seek_position = None;
    }

    /// Records one successfully opened and decoded track.
    pub fn push_loaded_track(&mut self, t: TrackSink)
        requires
            t.duration >= 0,
            old(self).wf(),
        ensures
            final(self).tracks@ == old(self).tracks@.push(t),
            final(self).playback_start == old(self).playback_start,
            final(self).paused_at == old(self).paused_at,
            final(self).seek_position == old(self).seek_position,
            final(self).base_dir == old(self).base_dir,
            final(self).wf(),
    {
        self.tracks.push(t);
    }

    /// What the runtime must do before `play` may commit: nothing without
    /// tracks, a plain start normally, a reload first when a seek is pending.
    pub fn play_action(&self) -> (a: PlayAction)
        ensures
            a == if self.tracks@.len() == 0 {
                PlayAction::NoTracks
            } else {
                match self.seek_position {
                    Some(p) => PlayAction::ReloadAtAndStartAll { position: p },
                    None => PlayAction::StartAll,
                }
            },
    {
        if self.tracks.len() == 0 {
            PlayAction::NoTracks
        } else {
            match self.seek_position {
                Some(p) => PlayAction::ReloadAtAndStartAll { position: p },
                None => PlayAction::StartAll,
            }
        }
    }

    /// Commits the clock state for a play that the runtime carried out: with
    /// a pending seek the anchor lands so that the position equals the seek
    /// target; from pause it lands so that the position resumes unchanged;
    /// from stop it is `now`. Every sink was started in the same pass.
    pub fn play(&mut self, now: i64)
        requires
            now >= 0,
            old(self).wf(),
            old(self).tracks@.len() > 0,
        ensures
            *final(self) == spec_play(*old(self), now),
            final(self).wf(),
    {
        match self.seek_position {
            Some(p) => {
                self.playback_start = Some(now - p);
                self.paused_at = None;
                self.seek_position = None;
            },
            None => {
                match self.paused_at {
                    Some(v) => {
                        self.playback_start = Some(now - v);
                        self.paused_at = None;
                    },
                    None => {
                        self.playback_start = Some(now);
                    },
                }
            },
        }
    }

    /// Abandons a pending seek whose reload failed: the transport stays
    /// paused at the seek target, safe and not playing, and reports no
    /// success.
    pub fn seek_reload_failed(&mut self)
        requires
            old(self).wf(),
        ensures
            final(self).seek_position is None,
            final(self).playback_start == old(self).playback_start,
            final(self).paused_at == old(self).paused_at,
            final(self).tracks == old(self).tracks,
            final(self).base_dir == old(self).base_dir,
            final(self).wf(),
    {
        self.seek_position = None;
    }

    /// Captures the elapsed position and drops the anchor; the runtime
    /// pauses every sink. Idempotent when already paused or stopped.
    pub fn pause(&mut self, now: i64)
        requires
            now >= 0,
            old(self).wf(),
        ensures
            *final(self) == spec_pause(*old(self), now),
            final(self).wf(),
    {
        match self.playback_start {
            Some(a) => {
                let d: i128 = now as i128 - a as i128;
                let p: i64 = if d < 0 {
                    0
                } else if d > i64::MAX as i128 {
                    i64::MAX
                } else {
                    d as i64
                };
                self.paused_at = Some(p);
                self.playback_start = None;
            },
            None => {},
        }
    }

    /// Clears the whole clock state; the runtime stops every sink.
    pub fn stop(&mut self)
        requires
            old(self).wf(),
        ensures
            final(self).spec_is_stopped(),
            final(self).tracks == old(self).tracks,
            final(self).base_dir == old(self).base_dir,
            final(self).wf(),
    {
        self.playback_start = None;
        self.paused_at = None;
        self.seek_position = None;
    }

    /// Pauses at `position` and records it as the pending seek target; no
    /// file is reopened until the next play, so scrubbing while paused stays
    /// cheap.
    pub fn seek(&mut self, position: i64)
        requires
            position >= 0,
            old(self).wf(),
        ensures
            *final(self) == spec_seek(*old(self), position),
            final(self).wf(),
    {
        self.playback_start = None;
        self.paused_at = Some(position);
        self.seek_position = Some(position);
    }

    /// The reported position at wall-clock `now`: the paused position while
    /// paused, `now` minus the anchor while playing, 0 when stopped.
    pub fn position(&self, now: i64) -> (p: i64)
        requires
            self.wf(),
        ensures
            p == self.spec_position(now),
            p >= 0,
    {
        match self.paused_at {
            Some(v) => v,
            None => match self.playback_start {
                Some(a) => {
                    let d: i128 = now as i128 - a as i128;
                    if d < 0 {
                        0
                    } else if d > i64::MAX as i128 {
                        i64::MAX
                    } else {
                        d as i64
                    }
                },
                None => 0,
            },
        }
    }

    /// The longest track duration, 0 with no tracks or all unknown.
    pub fn duration(&self) -> (d: i64)
        requires
            self.wf(),
        ensures
            d == spec_duration(self.tracks@),
            d >= 0,
    {
        let mut d: i64 = 0;
        let n = self.tracks.len();
        let mut i: usize = 0;
        assert(self.tracks@.subrange(0, 0) =~= Seq::<TrackSink>::empty());
        while i < n
            invariant
                i <= n,
                n == self.tracks@.len(),
                self.wf(),
                d == spec_duration(self.tracks@.subrange(0, i as int)),
                d >= 0,
            decreases n - i,
        {
            let ghost pre = self.tracks@.subrange(0, i as int);
            if self.tracks[i].duration > d {
                d = self.tracks[i].duration;
            }
            i = i + 1;
            proof {
                let cur = self.tracks@.subrange(0, i as int);
                assert(cur.drop_last() =~= pre);
                assert(cur.last() == self.tracks@[i - 1]);
            }
        }
        assert(self.tracks@.subrange(0, n as int) =~= self.tracks@);
        d
    }

    /// Whether the transport is anchored and not paused.
    pub fn is_playing(&self) -> (r: bool)
        ensures
            r == self.spec_is_playing(),
    {
        self.playback_start.is_some() && self.paused_at.is_none()
    }

    /// Whether the transport is paused.
    pub fn is_paused(&self) -> (r: bool)
        ensures
            r == self.spec_is_paused(),
    {
        self.paused_at.is_some()
    }

    /// The loaded tracks, in load order.
    pub fn tracks(&self) -> (r: &Vec<TrackSink>)
        ensures
            r@ == self.tracks@,
    {
        &self.tracks
    }

    /// Fills `state` with one consistent snapshot taken at `now`: the
    /// position sampler. The caller reads the snapshot, never the engine.
    pub fn update_playback_state(&self, state: &mut PlaybackState, now: i64)
        requires
            self.wf(),
        ensures
            final(state).position == self.spec_position(now),
            final(state).duration == spec_duration(self.tracks@),
            final(state).is_playing == self.spec_is_playing(),
            final(state).is_paused == self.spec_is_paused(),
    {
        state.position = self.position(now);
        state.duration = self.duration();
        state.is_playing = self.is_playing();
        state.is_paused = self.is_paused();
    }

    /// Index of the first track with the given id.
    pub fn find_track(&self, id: &str) -> (r: Option<usize>)
        ensures
            match r {
                Some(i) => i < self.tracks@.len() && self.tracks@[i as int].id@ == id@
                    && forall|j: int| 0 <= j < i ==> self.tracks@[j].id@ != id@,
                None => forall|j: int| 0 <= j < self.tracks@.len() ==> self.tracks@[j].id@ != id@,
            },
    {
        let n = self.tracks.len();
        let mut i: usize = 0;
        while i < n
            invariant
                i <= n,
                n == self.tracks@.len(),
                forall|j: int| 0 <= j < i ==> self.tracks@[j].id@ != id@,
            decreases n - i,
        {
            if crate::strutil::str_eq(self.tracks[i].id.as_str(), id) {
                return Some(i);
            }
            i = i + 1;
        }
        None
    }

    /// Stores `volume` on the first track with the given id and reports
    /// whether one was found; the runtime applies the same volume to the
    /// matching sink.
    pub fn set_volume(&mut self, id: &str, volume: u32) -> (found: bool)
        ensures
            final(self).playback_start == old(self).playback_start,
            final(self).paused_at == old(self).paused_at,
            final(self).seek_position == old(self).seek_position,
            final(self).base_dir == old(self).base_dir,
            final(self).tracks@.len() == old(self).tracks@.len(),
            found ==> exists|i: int|
                0 <= i < old(self).tracks@.len() && old(self).tracks@[i].id@ == id@
                    && final(self).tracks@ == old(self).tracks@.update(
                    i,
                    TrackSink { volume, ..old(self).tracks@[i] },
                ),
            !found ==> final(self).tracks@ == old(self).tracks@ && (forall|i: int|
                0 <= i < old(self).tracks@.len() ==> old(self).tracks@[i].id@ != id@),
    {
        match self.find_track(id) {
            Some(i) => {
                let t = TrackSink {
                    id: self.tracks[i].id.clone(),
                    name: self.tracks[i].name.clone(),
                    duration: self.tracks[i].duration,
                    source: self.tracks[i].source.clone(),
                    volume,
                };
                assert(t == TrackSink { volume, ..old(self).tracks@[i as int] });
                self.tracks.set(i, t);
                assert(self.tracks@ == old(self).tracks@.update(
                    i as int,
                    TrackSink { volume, ..old(self).tracks@[i as int] },
                ));
                true
            },
            None => false,
        }
    }

    /// The stored volume of the first track with the given id.
    pub fn get_volume(&self, id: &str) -> (r: Option<u32>)
        ensures
            match r {
                Some(v) => exists|i: int|
                    0 <= i < self.tracks@.len() && self.tracks@[i].id@ == id@
                        && self.tracks@[i].volume == v,
                None => forall|i: int| 0 <= i < self.tracks@.len() ==> self.tracks@[i].id@ != id@,
            },
    {
        match self.find_track(id) {
            Some(i) => {
                let v = self.tracks[i].volume;
                assert(0 <= (i as int) && (i as int) < self.tracks@.len()
                    && self.tracks@[i as int].id@ == id@ && self.tracks@[i as int].volume == v);
                Some(v)
            },
            None => None,
        }
    }
}

/// The play transition on the clock state, once the runtime's sinks run.
pub open spec fn spec_play(e: AudioEngine, now: i64) -> AudioEngine {
    match e.seek_position {
        Some(p) => AudioEngine {
            playback_start: Some((now - p) as i64),
            paused_at: None,
            seek_position: None,
            ..e
        },
        None => match e.paused_at {
            Some(v) => AudioEngine { playback_start: Some((now - v) as i64), paused_at: None, ..e },
            None => AudioEngine { playback_start: Some(now), ..e },
        },
    }
}

/// The pause transition: capture `now − anchor` and drop the anchor.
pub open spec fn spec_pause(e: AudioEngine, now: i64) -> AudioEngine {
    match e.playback_start {
        Some(a) => AudioEngine {
            playback_start: None,
            paused_at: Some(clamp_ms(now - a)),
            ..e
        },
        None => e,
    }
}

/// The seek transition: pause at the target and leave the reload pending.
pub open spec fn spec_seek(e: AudioEngine, position: i64) -> AudioEngine {
    AudioEngine {
        playback_start: None,
        paused_at: Some(position),
        seek_position: Some(position),
        ..e
    }
}

/// Pausing, resuming and pausing again at one instant reports the same
/// position as the first pause alone: repeated pause/resume does not drift.
pub proof fn lemma_pause_resume_no_drift(e: AudioEngine, now: i64)
    requires
        e.wf(),
        now >= 0,
        e.seek_position is None,
        e.spec_is_playing(),
    ensures
        spec_pause(spec_play(spec_pause(e, now), now), now).spec_position(now) == spec_pause(
            e,
            now,
        ).spec_position(now),
{
}

/// Starting at one instant and pausing at a later one reports exactly the
/// elapsed time, whether played once or paused and resumed in between.
pub proof fn lemma_play_pause_twice(e: AudioEngine, n1: i64, n2: i64)
    requires
        e.wf(),
        e.spec_is_stopped(),
        0 <= n1 <= n2,
    ensures
        ({
            let once = spec_pause(spec_play(e, n1), n2);
            let twice = spec_pause(spec_play(once, n2), n2);
            &&& once.spec_position(n2) == n2 - n1
            &&& twice.spec_position(n2) == n2 - n1
        }),
{
}

/// Seeking and then playing puts the position exactly at the seek target the
/// moment play returns.
pub proof fn lemma_seek_then_play(e: AudioEngine, target: i64, now: i64)
    requires
        e.wf(),
        0 <= target,
        0 <= now,
    ensures
        spec_play(spec_seek(e, target), now).spec_position(now) == target,
        spec_play(spec_seek(e, target), now).spec_is_playing(),
        spec_play(spec_seek(e, target), now).seek_position is None,
{
}

} // verus!
