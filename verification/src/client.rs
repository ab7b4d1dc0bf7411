//! The client's side of a session: the handshake, sending audio and gathering what comes back.
use vstd::prelude::*;
use vstd::slice::*;
use vstd::string::*;

use crate::daemon::samples_of;
use crate::float_bits::F32;
use crate::protocol::{
    decode_response, decoded_response, Response, ResponseView, SIGNAL_DATA_READY,
};
use crate::ring::{
    all_given, all_taken, bytes_come_out_in_order, goes_through, pushed, taken_of, RingError,
    RingStep, SharedAudioRing,
};
use crate::text::{trim_text, trimmed, with_text};

verus! {

/// How often a connection is tried again when the daemon says to come back.
pub const MAX_RETRIES: u32 = 5;
/// How long a full ring is left alone before the next try, in milliseconds.
pub const FULL_RING_WAIT_MS: u64 = 10;

////////////////////////////////////////////////////////////////////////////////
// Errors
////////////////////////////////////////////////////////////////////////////////

/// Why a session fails.
#[derive(Debug)]
pub enum Error {
    /// Opening, reading or writing the socket failed.
    Connection(String),
    /// A message or the ring could not be handled.
    Protocol(String),
    /// The daemon refused the session or did not complete the handshake.
    Handshake(String),
    /// The daemon answered with an error.
    Daemon(String),
    /// The daemon has cancelled the session.
    Cancelled,
    /// Something else failed.
    Other(String),
}

impl Error {
    /// What the error says.
    pub open spec fn spec_message(&self) -> Seq<char> {
        match *self {
            Error::Connection(reason) => "connection failed: "@ + reason@,
            Error::Protocol(reason) => "protocol error: "@ + reason@,
            Error::Handshake(reason) => "handshake failed: "@ + reason@,
            Error::Daemon(reason) => "server error: "@ + reason@,
            Error::Cancelled => "session cancelled"@,
            Error::Other(reason) => "internal error: "@ + reason@,
        }
    }

    /// What the error says.
    pub fn message(&self) -> (text: String)
        ensures
            text@ == self.spec_message(),
    {
        match self {
            Error::Connection(reason) => with_text("connection failed: ", reason.as_str()),
            Error::Protocol(reason) => with_text("protocol error: ", reason.as_str()),
            Error::Handshake(reason) => with_text("handshake failed: ", reason.as_str()),
            Error::Daemon(reason) => with_text("server error: ", reason.as_str()),
            Error::Cancelled => "session cancelled".to_string(),
            Error::Other(reason) => with_text("internal error: ", reason.as_str()),
        }
    }
}

////////////////////////////////////////////////////////////////////////////////
// The handshake
////////////////////////////////////////////////////////////////////////////////

/// What follows from the daemon's answer to a hello.
#[derive(Debug)]
pub enum HandshakeStep {
    /// The session is open; the ring has this size.
    Attach { ring_capacity_bytes: u64 },
    /// Connect again after this time.
    RetryAfter { millis: u64 },
    /// The session is refused.
    Fail(Error),
    /// The answer is none to a hello.
    Unexpected(Response),
}

/// A handshake and how often it was tried again.
pub struct Handshake {
    pub retries: u32,
}

impl Handshake {
    /// Nothing has been tried again.
    pub fn new() -> (handshake: Handshake)
        ensures
            handshake.retries == 0,
    {
        Handshake { retries: 0 }
    }

    /// What follows from an answer, which may have come with a file descriptor. A daemon that is
    /// busy is tried again, up to `MAX_RETRIES` times in all.
    pub fn on_response(&mut self, response: Response, has_fd: bool) -> (step: HandshakeStep)
        requires
            old(self).retries <= MAX_RETRIES,
        ensures
            final(self).retries <= MAX_RETRIES,
            final(self).retries == old(self).retries + (if step is RetryAfter {
                1int
            } else {
                0
            }),
            match response {
                Response::ServerHello(server) => if has_fd {
                    step == (HandshakeStep::Attach {
                        ring_capacity_bytes: server.ring_capacity_bytes,
                    })
                } else {
                    step matches HandshakeStep::Fail(Error::Handshake(reason)) && reason@
                        == "no file descriptor received"@
                },
                Response::BackOff { reason, retry_after_ms } => if old(self).retries < MAX_RETRIES {
                    step == (HandshakeStep::RetryAfter { millis: retry_after_ms as u64 })
                } else {
                    step matches HandshakeStep::Fail(Error::Handshake(text)) && text@
                        == "too many retries after backoff: "@ + reason@
                },
                Response::Error { error } => step == HandshakeStep::Fail(Error::Handshake(error)),
                other => step == HandshakeStep::Unexpected(other),
            },
    {
        match response {
            Response::ServerHello(server) => {
                if !has_fd {
                    return HandshakeStep::Fail(
                        Error::Handshake("no file descriptor received".to_string()),
                    );
                }
                HandshakeStep::Attach { ring_capacity_bytes: server.ring_capacity_bytes }
            },
            Response::BackOff { reason, retry_after_ms } => {
                if self.retries >= MAX_RETRIES {
                    return HandshakeStep::Fail(
                        Error::Handshake(
                            with_text("too many retries after backoff: ", reason.as_str()),
                        ),
                    );
                }
                self.retries = self.retries + 1;
                HandshakeStep::RetryAfter { millis: retry_after_ms as u64 }
            },
            Response::Error { error } => HandshakeStep::Fail(Error::Handshake(error)),
            other => HandshakeStep::Unexpected(other),
        }
    }
}

////////////////////////////////////////////////////////////////////////////////
// Sending audio
////////////////////////////////////////////////////////////////////////////////

/// The two bytes of a sample, least significant first.
pub open spec fn sample_bytes(sample: i16) -> Seq<u8> {
    let value = if sample >= 0 {
        sample as int
    } else {
        sample + 65536
    };
    seq![(value % 256) as u8, (value / 256) as u8]
}

/// The bytes of samples, each least significant byte first.
pub open spec fn pcm_bytes(samples: Seq<i16>) -> Seq<u8>
    decreases samples.len(),
{
    if samples.len() == 0 {
        Seq::empty()
    } else {
        pcm_bytes(samples.drop_last()) + sample_bytes(samples.last())
    }
}

/// Turns samples into little-endian bytes.
pub fn samples_to_pcm(samples: &[i16]) -> (pcm: Vec<u8>)
    ensures
        pcm@ == pcm_bytes(samples@),
{
    let mut pcm: Vec<u8> = Vec::new();
    let mut i: usize = 0;
    assert(samples@.take(0) =~= Seq::<i16>::empty());
    while i < samples.len()
        invariant
            i <= samples@.len(),
            pcm@ == pcm_bytes(samples@.take(i as int)),
        decreases samples@.len() - i,
    {
        let sample: i16 = samples[i];
        let value: u32 = if sample >= 0 {
            sample as u32
        } else {
            (sample as i32 + 65536) as u32
        };
        let ghost before = pcm@;
        pcm.push((value % 256) as u8);
        pcm.push((value / 256) as u8);
        i = i + 1;
        proof {
            let taken = samples@.take(i as int);
            assert(taken.drop_last() =~= samples@.take(i - 1));
            assert(taken.last() == sample);
            assert(pcm@ =~= before + sample_bytes(sample));
        }
    }
    assert(samples@.take(samples@.len() as int) =~= samples@);
    pcm
}

/// The bytes of samples hold two bytes for each, and are read as the same samples.
pub proof fn pcm_round_trip(samples: Seq<i16>)
    ensures
        pcm_bytes(samples).len() == 2 * samples.len(),
        samples_of(pcm_bytes(samples)) == samples,
    decreases samples.len(),
{
    let bytes = pcm_bytes(samples);
    if samples.len() == 0 {
        assert(samples_of(bytes) =~= samples);
    } else {
        let less = samples.drop_last();
        let last = samples.last();
        pcm_round_trip(less);
        let before = pcm_bytes(less);
        assert(bytes.len() == before.len() + 2);
        assert forall|i: int| 0 <= i < samples.len() implies samples_of(bytes)[i] == samples[i] by {
            if i < less.len() {
                assert(bytes[2 * i] == before[2 * i] && bytes[2 * i + 1] == before[2 * i + 1]);
                assert(samples_of(before)[i] == less[i]);
            } else {
                assert(bytes[2 * i] == sample_bytes(last)[0]);
                assert(bytes[2 * i + 1] == sample_bytes(last)[1]);
            }
        }
        assert(samples_of(bytes) =~= samples);
    }
}

/// What a sender does next.
#[derive(Clone, Copy, Debug, PartialEq, Eq, Structural)]
pub enum SendStep {
    /// Tell the daemon with this byte that there is something in the ring.
    Signal { signal: u8 },
    /// The ring is full: wait.
    Wait { millis: u64 },
    /// Everything has been sent.
    Done,
}

/// Bytes on their way into the ring.
pub struct AudioProgress {
    pub pos: usize,
    pub len: usize,
}

impl AudioProgress {
    /// No more has been sent than there is.
    pub open spec fn wf(&self) -> bool {
        self.pos <= self.len
    }

    /// Nothing has been sent.
    pub fn new(len: usize) -> (progress: AudioProgress)
        ensures
            progress.wf(),
            progress.pos == 0,
            progress.len == len,
    {
        AudioProgress { pos: 0, len }
    }

    /// Whether anything is left to send.
    pub fn is_done(&self) -> (done: bool)
        requires
            self.wf(),
        ensures
            done == (self.pos == self.len),
    {
        self.pos >= self.len
    }

    /// What follows when the ring has taken `pushed` of what was left.
    pub fn advance(&mut self, pushed: usize) -> (step: SendStep)
        requires
            old(self).wf(),
            pushed <= old(self).len - old(self).pos,
        ensures
            final(self).wf(),
            final(self).len == old(self).len,
            final(self).pos == old(self).pos + pushed,
            step == (if old(self).pos == old(self).len {
                SendStep::Done
            } else if pushed > 0 {
                SendStep::Signal { signal: SIGNAL_DATA_READY }
            } else {
                SendStep::Wait { millis: FULL_RING_WAIT_MS }
            }),
    {
        if self.pos >= self.len {
            return SendStep::Done;
        }
        if pushed > 0 {
            self.pos = self.pos + pushed;
            SendStep::Signal { signal: SIGNAL_DATA_READY }
        } else {
            SendStep::Wait { millis: FULL_RING_WAIT_MS }
        }
    }
}

/// Puts what is left of `pcm` into the ring, as far as there is room, and says what follows. The
/// ring then holds what it held, and behind it the bytes that were taken.
pub fn send_audio(ring: &mut SharedAudioRing, pcm: &[u8], progress: &mut AudioProgress) -> (out:
    Result<SendStep, RingError>)
    requires
        old(ring).wf(),
        old(ring).consumed() <= old(ring).written(),
        old(progress).wf(),
        old(progress).len == pcm@.len(),
        old(ring).written() + taken_of(*old(ring), pcm@.len() - old(progress).pos) <= u64::MAX,
    ensures
        final(ring).wf(),
        final(ring).same_ring(old(ring)),
        final(ring).consumed() == old(ring).consumed(),
        final(progress).wf(),
        final(progress).len == old(progress).len,
        out is Err <==> old(ring).contents().len() > old(ring).spec_capacity(),
        out matches Err(e) ==> e == RingError::Overrun && *final(progress) == *old(progress)
            && *final(ring) == *old(ring),
        out matches Ok(step) ==> {
            let left = pcm@.len() - old(progress).pos;
            let n = taken_of(*old(ring), left);
            &&& final(progress).pos == old(progress).pos + n
            &&& pushed(
                *old(ring),
                *final(ring),
                pcm@.subrange(old(progress).pos as int, final(progress).pos as int),
            )
            &&& final(ring).written() == old(ring).written() + n
            &&& step == (if left == 0 {
                SendStep::Done
            } else if n > 0 {
                SendStep::Signal { signal: SIGNAL_DATA_READY }
            } else {
                SendStep::Wait { millis: FULL_RING_WAIT_MS }
            })
        },
{
    let rest = slice_subrange(pcm, progress.pos, pcm.len());
    match ring.push_available(rest) {
        Ok(count) => {
            assert(rest@.take(count as int) =~= pcm@.subrange(
                progress.pos as int,
                progress.pos + count,
            ));
            Ok(progress.advance(count))
        },
        Err(e) => Err(e),
    }
}

/// True of the places that a sender of `pcm` goes through while its ring is pushed to and drained:
/// each push takes the bytes from one place to the next.
pub open spec fn sends(pcm: Seq<u8>, places: Seq<int>, steps: Seq<RingStep>) -> bool {
    &&& places.len() == steps.len() + 1
    &&& places[0] == 0
    &&& forall|i: int|
        0 <= i < steps.len() ==> 0 <= #[trigger] places[i] <= places[i + 1] <= pcm.len()
            && match steps[i] {
            RingStep::Push { taken } => taken == pcm.subrange(places[i], places[i + 1]),
            RingStep::Drain { .. } => places[i + 1] == places[i],
        }
}

proof fn lemma_sent(pcm: Seq<u8>, places: Seq<int>, steps: Seq<RingStep>)
    requires
        sends(pcm, places, steps),
    ensures
        0 <= places.last() <= pcm.len(),
        all_taken(steps) == pcm.take(places.last()),
    decreases steps.len(),
{
    if steps.len() == 0 {
        assert(all_taken(steps) =~= pcm.take(0));
    } else {
        let n = steps.len() - 1;
        let fewer = steps.drop_last();
        let before = places.drop_last();
        assert forall|i: int| 0 <= i < fewer.len() implies 0 <= #[trigger] before[i] <= before[i + 1]
            <= pcm.len() && match fewer[i] {
            RingStep::Push { taken } => taken == pcm.subrange(before[i], before[i + 1]),
            RingStep::Drain { .. } => before[i + 1] == before[i],
        } by {
            assert(places[i] <= places[i + 1]);
        }
        lemma_sent(pcm, before, fewer);
        assert(places[n] <= places[n + 1]);
        assert(pcm.take(places[n]) + pcm.subrange(places[n], places[n + 1]) =~= pcm.take(
            places[n + 1],
        ));
    }
}

/// Audio arrives whole and in order: however sending and draining take turns, what has come out of
/// a ring that was empty, followed by what still waits, is what was sent so far. When everything has
/// been sent and drained, what has come out is the audio.
pub proof fn audio_arrives_in_order(
    pcm: Seq<u8>,
    places: Seq<int>,
    rings: Seq<SharedAudioRing>,
    steps: Seq<RingStep>,
)
    requires
        goes_through(rings, steps),
        sends(pcm, places, steps),
        rings[0].contents() == Seq::<u8>::empty(),
    ensures
        all_given(steps) + rings.last().contents() == pcm.take(places.last()),
        places.last() == pcm.len() && rings.last().contents() == Seq::<u8>::empty()
            ==> all_given(steps) == pcm,
{
    bytes_come_out_in_order(rings, steps);
    lemma_sent(pcm, places, steps);
    assert(rings[0].contents() + all_taken(steps) =~= all_taken(steps));
    if places.last() == pcm.len() && rings.last().contents() == Seq::<u8>::empty() {
        assert(all_given(steps) + rings.last().contents() =~= all_given(steps));
        assert(pcm.take(places.last()) =~= pcm);
    }
}

////////////////////////////////////////////////////////////////////////////////
// Receiving
////////////////////////////////////////////////////////////////////////////////

/// What an answer means to the client: an error and a cancelled session are errors, anything else
/// is handed on.
pub fn checked_response(response: Response) -> (out: Result<Response, Error>)
    ensures
        match response {
            Response::Error { error } => out == Err::<Response, Error>(Error::Daemon(error)),
            Response::Cancelled { .. } => out == Err::<Response, Error>(Error::Cancelled),
            other => out == Ok::<Response, Error>(other),
        },
{
    match response {
        Response::Error { error } => Err(Error::Daemon(error)),
        Response::Cancelled { .. } => Err(Error::Cancelled),
        other => Ok(other),
    }
}

/// Reads an answer from the body of a frame.
pub fn recv_response(frame: &[u8]) -> (out: Result<Response, Error>)
    ensures
        match decoded_response(frame@) {
            Err(e) => out matches Err(Error::Protocol(reason)) && reason@ == e.spec_message(),
            Ok(ResponseView::Error { error }) => out matches Err(Error::Daemon(reason)) && reason@
                == error,
            Ok(ResponseView::Cancelled { .. }) => out == Err::<Response, Error>(Error::Cancelled),
            Ok(other) => out is Ok && out->Ok_0@ == other,
        },
{
    match decode_response(frame) {
        Ok(response) => checked_response(response),
        Err(error) => Err(Error::Protocol(error.message())),
    }
}

/// A piece of the transcript, with times in seconds.
#[derive(Clone, Debug)]
pub struct TranscriptSegment {
    pub start_sec: F32,
    pub end_sec: F32,
    pub text: String,
}

/// A whole transcript.
#[derive(Clone, Debug)]
pub struct Transcription {
    pub text: String,
    pub segments: Vec<TranscriptSegment>,
}

/// The texts of pieces, each followed by a space.
pub open spec fn spoken(segments: Seq<TranscriptSegment>) -> Seq<char>
    decreases segments.len(),
{
    if segments.len() == 0 {
        Seq::empty()
    } else {
        spoken(segments.drop_last()) + segments.last().text@ + " "@
    }
}

/// True of pieces that say what the segments among answers say, in order.
pub open spec fn gathered(responses: Seq<Response>, segments: Seq<TranscriptSegment>) -> bool
    decreases responses.len(),
{
    if responses.len() == 0 {
        segments.len() == 0
    } else {
        match responses.last() {
            Response::Segment { text, begin, end } => {
                &&& segments.len() > 0
                &&& segments.last().text@ == text@
                &&& segments.last().start_sec == begin
                &&& segments.last().end_sec == end
                &&& gathered(responses.drop_last(), segments.drop_last())
            },
            _ => gathered(responses.drop_last(), segments),
        }
    }
}

/// A transcript that is being gathered.
pub struct TranscriptCollector {
    pub text: String,
    pub segments: Vec<TranscriptSegment>,
}

impl TranscriptCollector {
    /// The text is that of the pieces.
    pub open spec fn wf(&self) -> bool {
        self.text@ == spoken(self.segments@)
    }

    /// Nothing has come.
    pub fn new() -> (collector: TranscriptCollector)
        ensures
            collector.wf(),
            collector.segments@.len() == 0,
    {
        TranscriptCollector { text: String::new(), segments: Vec::new() }
    }

    /// Takes an answer, and says whether it was the last. Pieces are kept, in order; other answers
    /// are passed over.
    pub fn accept(&mut self, response: Response) -> (done: bool)
        requires
            old(self).wf(),
        ensures
            final(self).wf(),
            done == (response is Done),
            match response {
                Response::Segment { text, begin, end } => {
                    &&& final(self).segments@.len() == old(self).segments@.len() + 1
                    &&& final(self).segments@.drop_last() == old(self).segments@
                    &&& final(self).segments@.last().text@ == text@
                    &&& final(self).segments@.last().start_sec == begin
                    &&& final(self).segments@.last().end_sec == end
                },
                _ => final(self).segments@ == old(self).segments@,
            },
            forall|before: Seq<Response>|
                #![trigger gathered(before, old(self).segments@)]
                gathered(before, old(self).segments@) ==> gathered(
                    before.push(response),
                    final(self).segments@,
                ),
    {
        let ghost was = self.segments@;
        let done: bool = match response {
            Response::Segment { text, begin, end } => {
                self.text.append(text.as_str());
                self.text.append(" ");
                self.segments.push(TranscriptSegment { start_sec: begin, end_sec: end, text });
                assert(self.segments@.drop_last() =~= was);
                false
            },
            Response::Done { .. } => true,
            _ => false,
        };
        proof {
            assert forall|before: Seq<Response>| #[trigger] gathered(before, was) implies gathered(
                before.push(response),
                self.segments@,
            ) by {
                assert(before.push(response).drop_last() =~= before);
                assert(before.push(response).last() == response);
            }
        }
        done
    }

    /// The transcript of what has come.
    pub fn finish(self) -> (out: Transcription)
        requires
            self.wf(),
        ensures
            out.segments@ == self.segments@,
            out.text@ == trimmed(spoken(self.segments@)),
    {
        Transcription { text: trim_text(self.text.as_str()), segments: self.segments }
    }
}

/// What a session that is walked through hands out.
#[derive(Debug)]
pub enum Event {
    Segment { text: String, begin: F32, end: F32 },
    Done { audio_s: F32, rtf: F32 },
}

impl Event {
    /// Whether the walk ends here.
    pub fn is_last(&self) -> (last: bool)
        ensures
            last == (self is Done),
    {
        match self {
            Event::Done { .. } => true,
            Event::Segment { .. } => false,
        }
    }
}

/// What is handed out for what was received; what is no part of a transcription is an error that
/// says what it was.
pub fn event_for(received: Result<Response, Error>) -> (out: Result<Event, String>)
    ensures
        match received {
            Ok(Response::Segment { text, begin, end }) => out == Ok::<Event, String>(
                Event::Segment { text, begin, end },
            ),
            Ok(Response::Done { audio_s, rtf }) => out == Ok::<Event, String>(
                Event::Done { audio_s, rtf },
            ),
            Ok(Response::Error { error }) => out == Err::<Event, String>(error),
            Ok(Response::ServerHello(_)) => out is Err && out->Err_0@ == "unexpected server hello"@,
            Ok(Response::Cancelled { .. }) => out is Err && out->Err_0@ == "session cancelled"@,
            Ok(Response::BackOff { reason, .. }) => out is Err && out->Err_0@ == "server backoff: "@
                + reason@,
            Err(e) => out is Err && out->Err_0@ == e.spec_message(),
        },
{
    match received {
        Ok(Response::Segment { text, begin, end }) => Ok(Event::Segment { text, begin, end }),
        Ok(Response::Done { audio_s, rtf }) => Ok(Event::Done { audio_s, rtf }),
        Ok(Response::Error { error }) => Err(error),
        Ok(Response::ServerHello(_)) => Err("unexpected server hello".to_string()),
        Ok(Response::Cancelled { .. }) => Err("session cancelled".to_string()),
        Ok(Response::BackOff { reason, .. }) => Err(with_text("server backoff: ", reason.as_str())),
        Err(error) => Err(error.message()),
    }
}

} // verus!
