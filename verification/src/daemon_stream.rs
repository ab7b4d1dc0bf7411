//! Reading a client's audio: what each signal asks for, and cutting bytes into pieces.
use vstd::prelude::*;
use vstd::slice::*;

use crate::daemon::{pcm_s16le_samples, samples_of, PcmError};
use crate::protocol::{SIGNAL_CANCEL, SIGNAL_DATA_READY, SIGNAL_END_OF_STREAM};
use crate::text::{decimal, with_number};

verus! {

/// Bytes of a piece of a live stream: 512 samples, one window of the detector.
pub const LIVE_CHUNK_BYTES: usize = 1024;
/// Bytes of a window of a live stream: thirty seconds.
pub const LIVE_WINDOW_BYTES: usize = 960_000;

/// A piece of a live stream.
#[derive(Debug)]
pub struct LiveChunk {
    pub samples: Vec<i16>,
}

/// What has been read of a stream.
#[derive(Clone, Copy, Debug, PartialEq, Eq, Structural)]
pub struct StreamReadStats {
    pub total_samples: usize,
    pub total_windows: usize,
}

impl Default for StreamReadStats {
    fn default() -> (stats: StreamReadStats)
        ensures
            stats.total_samples == 0,
            stats.total_windows == 0,
    {
        StreamReadStats { total_samples: 0, total_windows: 0 }
    }
}

/// How reading a stream ended.
#[derive(Clone, Copy, Debug, PartialEq, Eq, Structural)]
pub enum ReadOutcome {
    Completed(StreamReadStats),
    Cancelled(StreamReadStats),
}

impl ReadOutcome {
    /// What had been read by then.
    pub open spec fn spec_stats(self) -> StreamReadStats {
        match self {
            ReadOutcome::Completed(stats) => stats,
            ReadOutcome::Cancelled(stats) => stats,
        }
    }

    /// What had been read by then.
    pub fn stats(self) -> (stats: StreamReadStats)
        ensures
            stats == self.spec_stats(),
    {
        match self {
            ReadOutcome::Completed(stats) => stats,
            ReadOutcome::Cancelled(stats) => stats,
        }
    }
}

/// What a signal asks for.
#[derive(Clone, Copy, Debug, PartialEq, Eq, Structural)]
pub enum SignalAction {
    /// Take what the ring holds and go on.
    Drain,
    /// Take what the ring holds; it is the last.
    DrainAndFinish,
    /// There is nothing more to take.
    Finish,
    /// Drop everything.
    Cancel,
    /// Go on.
    Ignore,
    /// The signal is not known: fail.
    Refuse { signal: u8 },
}

/// What a signal of a live stream asks for; `None` stands for a closed connection, which ends the
/// stream. A signal that is not known is refused.
pub fn stream_signal(signal: Option<u8>) -> (action: SignalAction)
    ensures
        action == (match signal {
            None => SignalAction::Finish,
            Some(s) => if s == SIGNAL_DATA_READY {
                SignalAction::Drain
            } else if s == SIGNAL_END_OF_STREAM {
                SignalAction::DrainAndFinish
            } else if s == SIGNAL_CANCEL {
                SignalAction::Cancel
            } else {
                SignalAction::Refuse { signal: s }
            },
        }),
{
    match signal {
        None => SignalAction::Finish,
        Some(s) => {
            if s == SIGNAL_DATA_READY {
                SignalAction::Drain
            } else if s == SIGNAL_END_OF_STREAM {
                SignalAction::DrainAndFinish
            } else if s == SIGNAL_CANCEL {
                SignalAction::Cancel
            } else {
                SignalAction::Refuse { signal: s }
            }
        },
    }
}

/// What a signal of a batch request asks for; a signal that is not known is passed over.
pub fn batch_signal(signal: Option<u8>) -> (action: SignalAction)
    ensures
        action == (match signal {
            None => SignalAction::Finish,
            Some(s) => if s == SIGNAL_DATA_READY {
                SignalAction::Drain
            } else if s == SIGNAL_END_OF_STREAM {
                SignalAction::DrainAndFinish
            } else if s == SIGNAL_CANCEL {
                SignalAction::Cancel
            } else {
                SignalAction::Ignore
            },
        }),
{
    match stream_signal(signal) {
        SignalAction::Refuse { .. } => SignalAction::Ignore,
        action => action,
    }
}

/// What is said of a signal that is not known.
pub fn unsupported_signal(signal: u8) -> (text: String)
    ensures
        text@ == "unsupported shared-memory signal "@ + decimal(signal as nat),
{
    with_number("unsupported shared-memory signal ", signal as u64)
}

/// Bytes that were taken from the ring and are cut into pieces of one size.
#[derive(Debug)]
pub struct PcmChunker {
    pub pcm: Vec<u8>,
    pub chunk_bytes: usize,
    pub stats: StreamReadStats,
}

/// The bytes of the next piece: a whole one if there is enough, what is left if nothing more comes,
/// and otherwise nothing.
pub open spec fn next_piece(pcm: Seq<u8>, chunk_bytes: int, final_flush: bool) -> Option<Seq<u8>> {
    if pcm.len() >= chunk_bytes {
        Some(pcm.take(chunk_bytes))
    } else if final_flush && pcm.len() > 0 {
        Some(pcm)
    } else {
        None
    }
}

impl PcmChunker {
    /// Nothing has been taken.
    pub fn new(chunk_bytes: usize) -> (chunker: PcmChunker)
        ensures
            chunker.pcm@ == Seq::<u8>::empty(),
            chunker.chunk_bytes == chunk_bytes,
            chunker.stats.total_samples == 0,
            chunker.stats.total_windows == 0,
    {
        PcmChunker { pcm: Vec::new(), chunk_bytes, stats: StreamReadStats::default() }
    }

    /// Takes the next piece off the bytes. It holds their samples; an odd number of bytes, which
    /// only the last piece can have, is refused. Nothing is lost: the piece and what stays behind
    /// are the bytes that were there.
    pub fn next_chunk(&mut self, final_flush: bool) -> (out: Result<Option<LiveChunk>, PcmError>)
        requires
            old(self).chunk_bytes > 0,
            old(self).stats.total_samples + old(self).pcm@.len() <= usize::MAX,
            old(self).stats.total_windows < usize::MAX,
        ensures
            final(self).chunk_bytes == old(self).chunk_bytes,
            match next_piece(old(self).pcm@, old(self).chunk_bytes as int, final_flush) {
                None => out == Ok::<Option<LiveChunk>, PcmError>(None) && final(self).pcm@ == old(self).pcm@ && final(self).stats == old(self).stats,
                Some(piece) => old(self).pcm@ == piece + final(self).pcm@ && (if piece.len() % 2
                    == 0 {
                    &&& out matches Ok(Some(chunk)) && chunk.samples@ == samples_of(piece)
                    &&& final(self).stats.total_samples == old(self).stats.total_samples
                        + piece.len() / 2
                    &&& final(self).stats.total_windows == old(self).stats.total_windows + 1
                } else {
                    out == Err::<Option<LiveChunk>, PcmError>(PcmError::OddLength) && final(self).stats
                        == old(self).stats
                }),
            },
    {
        let have: usize = self.pcm.len();
        let len: usize = if have >= self.chunk_bytes {
            self.chunk_bytes
        } else if final_flush && have > 0 {
            have
        } else {
            return Ok(None);
        };
        let ghost all = self.pcm@;
        let ghost piece = next_piece(all, self.chunk_bytes as int, final_flush)->0;
        let rest: Vec<u8> = slice_to_vec(slice_subrange(self.pcm.as_slice(), len, have));
        self.pcm.truncate(len);
        assert(self.pcm@ =~= piece);
        let samples = pcm_s16le_samples(self.pcm.as_slice());
        self.pcm = rest;
        assert(all =~= piece + self.pcm@);
        match samples {
            Ok(samples) => {
                self.stats.total_samples = self.stats.total_samples + samples.len();
                self.stats.total_windows = self.stats.total_windows + 1;
                Ok(Some(LiveChunk { samples }))
            },
            Err(e) => Err(e),
        }
    }
}

} // verus!
