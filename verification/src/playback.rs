//! The playback state of a stream: playing, paused, seeking, ended, and where it is.
use vstd::prelude::*;

use crate::error::QvodError;

verus! {

/// Where a stream stands.
#[derive(Debug, Clone, Copy, PartialEq, Eq, Structural)]
pub enum StreamState {
    Initializing,
    Buffering,
    Playing,
    Paused,
    Seeking,
    Ended,
    Error,
}

/// What the adaptive buffer asks of the engine.
#[derive(Debug, Clone, Copy, PartialEq, Eq, Structural)]
pub enum BufferCommand {
    PauseAndBuffer,
    ThrottleUpload,
    Normal,
    IncreaseHttpRatio,
}

/// The counters of a stream that are whole numbers.
#[derive(Debug, Clone, Copy)]
pub struct StreamStats {
    pub position_ms: u64,
    pub duration_ms: u64,
    pub peer_count: usize,
    pub state: StreamState,
    pub bytes_downloaded: u64,
}

impl StreamStats {
    /// Fresh counters for a stream of `duration_ms`: at the start, initializing.
    pub fn new(duration_ms: u64) -> (s: StreamStats)
        ensures
            s == (StreamStats {
                position_ms: 0,
                duration_ms,
                peer_count: 0,
                state: StreamState::Initializing,
                bytes_downloaded: 0,
            }),
    {
        StreamStats { position_ms: 0, duration_ms, peer_count: 0, state: StreamState::Initializing, bytes_downloaded: 0 }
    }
}

/// A stream's playback: its counters, whether it is paused, and where a seek goes.
pub struct MediaStream {
    pub stats: StreamStats,
    pub paused: bool,
    pub seek_target: Option<u64>,
}

impl MediaStream {
    /// A paused stream with the given counters.
    pub fn new(stats: StreamStats) -> (m: MediaStream)
        ensures
            m.stats == stats,
            m.paused,
            m.seek_target is None,
    {
        MediaStream { stats, paused: true, seek_target: None }
    }

    /// Starts playing; this never fails.
    pub fn play(&mut self) -> (r: Result<(), QvodError>)
        ensures
            r is Ok,
            !final(self).paused,
            final(self).stats == (StreamStats { state: StreamState::Playing, ..old(self).stats }),
            final(self).seek_target == old(self).seek_target,
    {
        self.paused = false;
        self.stats.state = StreamState::Playing;
        Ok(())
    }

    /// Pauses.
    pub fn pause(&mut self)
        ensures
            final(self).paused,
            final(self).stats == (StreamStats { state: StreamState::Paused, ..old(self).stats }),
            final(self).seek_target == old(self).seek_target,
    {
        self.paused = true;
        self.stats.state = StreamState::Paused;
    }

    /// Plays on after a pause.
    pub fn resume(&mut self)
        ensures
            !final(self).paused,
            final(self).stats == (StreamStats { state: StreamState::Playing, ..old(self).stats }),
            final(self).seek_target == old(self).seek_target,
    {
        self.paused = false;
        self.stats.state = StreamState::Playing;
    }

    /// Starts a seek to `timestamp_ms`: the position jumps there at once.
    pub fn seek(&mut self, timestamp_ms: u64)
        ensures
            *final(self) == seek_spec(*old(self), timestamp_ms),
    {
        self.seek_target = Some(timestamp_ms);
        self.stats.state = StreamState::Seeking;
        self.stats.position_ms = timestamp_ms;
    }

    /// Whether the stream is paused.
    pub fn is_paused(&self) -> (r: bool)
        ensures
            r == self.paused,
    {
        self.paused
    }

    /// Where the stream stands.
    pub fn state(&self) -> (s: StreamState)
        ensures
            s == self.stats.state,
    {
        self.stats.state
    }

    /// The counters.
    pub fn stats(&self) -> (s: &StreamStats)
        ensures
            *s == self.stats,
    {
        &self.stats
    }

    /// Marks the stream ended.
    pub fn end(&mut self)
        ensures
            final(self).stats == (StreamStats { state: StreamState::Ended, ..old(self).stats }),
            final(self).paused == old(self).paused,
            final(self).seek_target == old(self).seek_target,
    {
        self.stats.state = StreamState::Ended;
    }

    /// Records the playback position; a seek in progress is then complete and
    /// the stream plays.
    pub fn update_position(&mut self, position_ms: u64)
        ensures
            *final(self) == position_spec(*old(self), position_ms),
    {
        if self.stats.state == StreamState::Seeking {
            self.stats.state = StreamState::Playing;
            self.seek_target = None;
        }
        self.stats.position_ms = position_ms;
    }

    /// Records how many peers serve the stream.
    pub fn update_peers(&mut self, count: usize)
        ensures
            final(self).stats == (StreamStats { peer_count: count, ..old(self).stats }),
            final(self).paused == old(self).paused,
            final(self).seek_target == old(self).seek_target,
    {
        self.stats.peer_count = count;
    }
}

/// The stream after a seek to `t` starts: seeking, already at `t`.
pub open spec fn seek_spec(m: MediaStream, t: u64) -> MediaStream {
    MediaStream {
        seek_target: Some(t),
        stats: StreamStats { state: StreamState::Seeking, position_ms: t, ..m.stats },
        ..m
    }
}

/// The stream after the position `p` is reported: at `p`; a seek in progress
/// is complete and the stream plays.
pub open spec fn position_spec(m: MediaStream, p: u64) -> MediaStream {
    if m.stats.state == StreamState::Seeking {
        MediaStream {
            seek_target: None,
            stats: StreamStats { state: StreamState::Playing, position_ms: p, ..m.stats },
            ..m
        }
    } else {
        MediaStream { stats: StreamStats { position_ms: p, ..m.stats }, ..m }
    }
}

/// A seek followed by the first position report leaves the stream playing at
/// that position with no seek pending, whatever it was doing before; nothing
/// else changes.
pub proof fn law_seek_then_position(m: MediaStream, t: u64, p: u64)
    ensures
        position_spec(seek_spec(m, t), p) == (MediaStream {
            stats: StreamStats { state: StreamState::Playing, position_ms: p, ..m.stats },
            seek_target: None,
            paused: m.paused,
        }),
{
}

} // verus!
