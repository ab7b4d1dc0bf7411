//! A client's session with the daemon: what is answered to a hello, to a job and at the end.
use vstd::prelude::*;

use crate::daemon::RequestHeader;
use crate::daemon_stream::ReadOutcome;
use crate::float_bits::F32;
use crate::parallel::LiveTranscriptionStats;
use crate::protocol::{
    decoded_response, encoded_response, framed, known_mode, spec_supported_audio_format,
    supported_audio_format, unframed, validate_client_hello, ClientHello, ProtocolError, Response,
    ResponseView, ServerHello, FRAME_MAX_BYTES,
};
use crate::protocol_laws::framed_response_round_trip;
use crate::ring::RING_HEADER_BYTES;
use crate::scheduler::{ModelSchedulers, SendOutcome, SubmitError};
use crate::text::{contains_text, occurs, quoted, same_text};

verus! {

/// How long a client is told to wait where there is no room, in milliseconds.
pub const RETRY_AFTER_MS: u32 = 250;

////////////////////////////////////////////////////////////////////////////////
// The hello
////////////////////////////////////////////////////////////////////////////////

/// True of a header that asks for what a hello asks for.
pub open spec fn header_follows(header: RequestHeader, hello: ClientHello) -> bool {
    &&& header.model == hello.model
    &&& header.mode == hello.mode
    &&& header.lang == hello.lang
    &&& header.task == hello.task
    &&& header.max_new_tokens == hello.max_new_tokens
    &&& header.beam_size == hello.beam_size
    &&& header.notimestamps == hello.notimestamps
    &&& header.suppress_tokens == hello.suppress_tokens
    &&& header.vad_threshold == hello.vad.threshold
    &&& header.vad_min_speech_ms == hello.vad.min_speech_ms
    &&& header.vad_min_silence_ms == hello.vad.min_silence_ms
    &&& header.vad_speech_pad_ms == hello.vad.speech_pad_ms
    &&& header.vad_window_samples == hello.vad.window_samples
}

/// What a hello asks for.
pub fn request_header_from_hello(hello: ClientHello) -> (header: RequestHeader)
    ensures
        header_follows(header, hello),
{
    RequestHeader {
        model: hello.model,
        mode: hello.mode,
        lang: hello.lang,
        task: hello.task,
        max_new_tokens: hello.max_new_tokens,
        beam_size: hello.beam_size,
        notimestamps: hello.notimestamps,
        suppress_tokens: hello.suppress_tokens,
        vad_threshold: hello.vad.threshold,
        vad_min_speech_ms: hello.vad.min_speech_ms,
        vad_min_silence_ms: hello.vad.min_silence_ms,
        vad_speech_pad_ms: hello.vad.speech_pad_ms,
        vad_window_samples: hello.vad.window_samples,
    }
}

/// Why a hello that was read is refused, if it is: the first of its mode, its beam size, its audio
/// format and its model that cannot be served. `has_model` says whether there is such a model.
pub open spec fn refusal(hello: ClientHello, has_model: bool) -> Option<Seq<char>> {
    if !known_mode(hello.mode@) {
        Some("unsupported mode "@ + quoted(hello.mode@))
    } else if hello.beam_size == 0 {
        Some("beam_size must be at least 1"@)
    } else if hello.audio_format != spec_supported_audio_format() {
        Some("unsupported audio format; expected 16 kHz mono s16le"@)
    } else if !has_model {
        Some("model not found"@)
    } else {
        None
    }
}

/// Answers a hello as it was read. It either can be served, and then it is said what it asks for,
/// or is answered with an error that says why not.
pub fn accept_hello<T>(
    hello: Result<ClientHello, ProtocolError>,
    schedulers: &ModelSchedulers<T>,
) -> (out: Result<RequestHeader, Response>)
    ensures
        match hello {
            Err(e) => out is Err && out->Err_0@ == (ResponseView::Error { error: e.spec_message() }),
            Ok(hello) => match refusal(hello, schedulers.has(hello.model@)) {
                Some(reason) => out is Err && out->Err_0@ == (ResponseView::Error { error: reason }),
                None => out matches Ok(header) && header_follows(header, hello),
            },
        },
{
    let hello = match hello {
        Ok(hello) => hello,
        Err(error) => return Err(Response::Error { error: error.message() }),
    };
    match validate_client_hello(&hello) {
        Ok(()) => {},
        Err(error) => return Err(Response::Error { error: error.message() }),
    }
    let header = request_header_from_hello(hello);
    if !schedulers.contains_model(header.model.as_str()) {
        return Err(Response::Error { error: "model not found".to_string() });
    }
    Ok(header)
}

/// The answer to a hello that is served: the format of the audio, and where in the ring it goes.
pub fn server_hello(ring_capacity: usize) -> (response: Response)
    ensures
        response@ == (ResponseView::ServerHello(
            ServerHello {
                audio_format: spec_supported_audio_format(),
                ring_capacity_bytes: ring_capacity as u64,
                ring_header_bytes: RING_HEADER_BYTES as u32,
            },
        )),
{
    Response::ServerHello(
        ServerHello {
            audio_format: supported_audio_format(),
            ring_capacity_bytes: ring_capacity as u64,
            ring_header_bytes: RING_HEADER_BYTES as u32,
        },
    )
}

/// Whether the audio is to come whole before anything is transcribed.
pub fn is_batch(header: &RequestHeader) -> (batch: bool)
    ensures
        batch == (header.mode@ == "batch"@),
{
    same_text(header.mode.as_str(), "batch")
}

////////////////////////////////////////////////////////////////////////////////
// The job
////////////////////////////////////////////////////////////////////////////////

/// The answer to a job that was not taken: a full queue is a reason to come back, anything else an
/// error.
pub open spec fn submit_answer(error: SubmitError) -> ResponseView {
    match error {
        SubmitError::QueueFull(reason) => ResponseView::BackOff {
            reason: reason@,
            retry_after_ms: 250,
        },
        SubmitError::UnknownModel => ResponseView::Error { error: "model not found"@ },
        SubmitError::SchedulerStopped(reason) => ResponseView::Error { error: reason@ },
    }
}

/// The answer to a job that was not taken.
pub fn submit_response(error: SubmitError) -> (response: Response)
    ensures
        response@ == submit_answer(error),
{
    match error {
        SubmitError::QueueFull(reason) => Response::BackOff {
            reason,
            retry_after_ms: RETRY_AFTER_MS,
        },
        SubmitError::UnknownModel => Response::Error { error: "model not found".to_string() },
        SubmitError::SchedulerStopped(reason) => Response::Error { error: reason },
    }
}

/// What a job tells its session.
#[derive(Debug)]
pub enum JobResponse {
    Segment { text: String, begin: F32, end: F32 },
    SpeechStarted { begin: F32 },
    SpeechEnded { end: F32 },
    Finished(Result<LiveTranscriptionStats, String>),
}

/// What is said of an answer that was handed to the queue of its session.
pub fn response_delivery(outcome: SendOutcome) -> (out: Result<(), String>)
    ensures
        outcome == SendOutcome::Accepted <==> out is Ok,
        outcome == SendOutcome::Full ==> out->Err_0@ == "client response queue full"@,
        outcome == SendOutcome::Closed ==> out->Err_0@ == "client response channel closed"@,
{
    match outcome {
        SendOutcome::Accepted => Ok(()),
        SendOutcome::Full => Err("client response queue full".to_string()),
        SendOutcome::Closed => Err("client response channel closed".to_string()),
    }
}

/// What a session does next.
#[derive(Debug)]
pub enum SessionStep {
    /// Send the answer and wait for more.
    Send(Response),
    /// Tell the client where speech starts and wait for more.
    SpeechStarted { begin: F32 },
    /// Tell the client where speech ends and wait for more.
    SpeechEnded { end: F32 },
    /// The job is done; only the last answer is left.
    Finish(Result<LiveTranscriptionStats, String>),
    /// The job will say no more.
    Lost,
}

/// What a session does when its job says something; `None` stands for a job that is gone. The
/// client is to be told of segments, and of where speech starts and ends. For these two the protocol
/// has no message, so they are steps of their own.
pub fn session_step(event: Option<JobResponse>) -> (step: SessionStep)
    ensures
        match event {
            Some(JobResponse::Segment { text, begin, end }) => step matches SessionStep::Send(r)
                && r@ == (ResponseView::Segment { text: text@, begin, end }),
            Some(JobResponse::SpeechStarted { begin }) => step == (SessionStep::SpeechStarted {
                begin,
            }),
            Some(JobResponse::SpeechEnded { end }) => step == (SessionStep::SpeechEnded { end }),
            Some(JobResponse::Finished(result)) => step == SessionStep::Finish(result),
            None => step == SessionStep::Lost,
        },
{
    match event {
        Some(JobResponse::Segment { text, begin, end }) => SessionStep::Send(
            Response::Segment { text, begin, end },
        ),
        Some(JobResponse::SpeechStarted { begin }) => SessionStep::SpeechStarted { begin },
        Some(JobResponse::SpeechEnded { end }) => SessionStep::SpeechEnded { end },
        Some(JobResponse::Finished(result)) => SessionStep::Finish(result),
        None => SessionStep::Lost,
    }
}

/// The last answer of a live session whose job is gone.
pub fn lost_response() -> (response: Response)
    ensures
        response@ == (ResponseView::Error { error: "model scheduler thread exited unexpectedly"@ }),
{
    Response::Error { error: "model scheduler thread exited unexpectedly".to_string() }
}

/// The last answer of a live session whose reader is gone.
pub fn reader_lost_response() -> (response: Response)
    ensures
        response@ == (ResponseView::Error { error: "live stream reader thread panicked"@ }),
{
    Response::Error { error: "live stream reader thread panicked".to_string() }
}

////////////////////////////////////////////////////////////////////////////////
// The end
////////////////////////////////////////////////////////////////////////////////

/// The answer to reading that failed: a full queue of windows is a reason to come back, anything
/// else an error.
pub open spec fn read_failure(error: Seq<char>) -> ResponseView {
    if occurs(error, "client window queue full"@) {
        ResponseView::BackOff { reason: error, retry_after_ms: 250 }
    } else {
        ResponseView::Error { error }
    }
}

/// The last answer of a live session: that reading failed, or else that the job did, or else how
/// the stream ended. The time of the audio and the real-time factor are given.
pub open spec fn live_end(
    read_result: Result<ReadOutcome, String>,
    result: Result<LiveTranscriptionStats, String>,
    audio_s: F32,
    rtf: F32,
) -> ResponseView {
    match (read_result, result) {
        (Err(error), _) => read_failure(error@),
        (Ok(_), Err(error)) => ResponseView::Error { error: error@ },
        (Ok(ReadOutcome::Completed(_)), Ok(_)) => ResponseView::Done { audio_s, rtf },
        (Ok(ReadOutcome::Cancelled(_)), Ok(stats)) => ResponseView::Cancelled {
            audio_s,
            rtf,
            windows_dispatched: stats.windows_dispatched as u64,
            windows_completed: stats.windows_completed as u64,
        },
    }
}

/// The last answer of a live session.
pub fn final_response(
    read_result: Result<ReadOutcome, String>,
    result: Result<LiveTranscriptionStats, String>,
    audio_s: F32,
    rtf: F32,
) -> (response: Response)
    ensures
        response@ == live_end(read_result, result, audio_s, rtf),
{
    let outcome = match read_result {
        Ok(outcome) => outcome,
        Err(error) => {
            if contains_text(error.as_str(), "client window queue full") {
                return Response::BackOff { reason: error, retry_after_ms: RETRY_AFTER_MS };
            }
            return Response::Error { error };
        },
    };
    let stats = match result {
        Ok(stats) => stats,
        Err(error) => return Response::Error { error },
    };
    match outcome {
        ReadOutcome::Completed(_) => Response::Done { audio_s, rtf },
        ReadOutcome::Cancelled(_) => Response::Cancelled {
            audio_s,
            rtf,
            windows_dispatched: stats.windows_dispatched as u64,
            windows_completed: stats.windows_completed as u64,
        },
    }
}

/// The last answer to a batch request.
pub fn batch_response(
    result: Result<LiveTranscriptionStats, String>,
    audio_s: F32,
    rtf: F32,
) -> (response: Response)
    ensures
        response@ == (match result {
            Ok(_) => ResponseView::Done { audio_s, rtf },
            Err(error) => ResponseView::Error { error: error@ },
        }),
{
    match result {
        Ok(_) => Response::Done { audio_s, rtf },
        Err(error) => Response::Error { error },
    }
}

////////////////////////////////////////////////////////////////////////////////
// Laws
////////////////////////////////////////////////////////////////////////////////

/// A client is told to come back in exactly two cases: the queue of its model is full, or its own
/// queue of windows is. Being told so, it is always told to wait for the same time.
pub proof fn full_queues_are_answered_with_back_off(
    error: SubmitError,
    read_result: Result<ReadOutcome, String>,
    result: Result<LiveTranscriptionStats, String>,
    audio_s: F32,
    rtf: F32,
)
    ensures
        submit_answer(error) is BackOff <==> error is QueueFull,
        submit_answer(error) is BackOff ==> submit_answer(error)->retry_after_ms == RETRY_AFTER_MS,
        live_end(read_result, result, audio_s, rtf) is BackOff <==> (read_result is Err && occurs(
            read_result->Err_0@,
            "client window queue full"@,
        )),
        live_end(read_result, result, audio_s, rtf) is BackOff ==> live_end(
            read_result,
            result,
            audio_s,
            rtf,
        )->retry_after_ms == RETRY_AFTER_MS,
{
}

/// A client whose hello is refused learns why: from the bytes that are sent it reads an error with
/// the reason.
pub proof fn refusals_reach_the_client(hello: ClientHello, has_model: bool, rest: Seq<u8>)
    requires
        refusal(hello, has_model) is Some,
        encoded_response(ResponseView::Error { error: refusal(hello, has_model)->0 }).len()
            <= FRAME_MAX_BYTES,
    ensures
        ({
            let answer = ResponseView::Error { error: refusal(hello, has_model)->0 };
            let sent = framed(encoded_response(answer));
            unframed(sent + rest) matches Ok((body, left)) && left == rest && decoded_response(body)
                == Ok::<ResponseView, ProtocolError>(answer)
        }),
{
    framed_response_round_trip(
        ResponseView::Error { error: refusal(hello, has_model)->0 },
        rest,
    );
}

/// How a live session ends is what the client is told: it is done only where all audio was read and
/// the job went well, cancelled only where the client cancelled and the job went well, and otherwise
/// there is an error or a reason to come back.
pub proof fn sessions_end_as_they_went(
    read_result: Result<ReadOutcome, String>,
    result: Result<LiveTranscriptionStats, String>,
    audio_s: F32,
    rtf: F32,
)
    ensures
        ({
            let last = live_end(read_result, result, audio_s, rtf);
            &&& last is Done <==> result is Ok && (read_result matches Ok(ReadOutcome::Completed(_)))
            &&& last is Cancelled <==> result is Ok && (read_result matches Ok(
                ReadOutcome::Cancelled(_),
            ))
            &&& read_result is Ok && result is Err ==> last == (ResponseView::Error {
                error: result->Err_0@,
            })
            &&& read_result is Err ==> last is Error || last is BackOff
            &&& last is Done ==> last == (ResponseView::Done { audio_s, rtf })
            &&& last is Cancelled ==> last == (ResponseView::Cancelled {
                audio_s,
                rtf,
                windows_dispatched: result->Ok_0.windows_dispatched as u64,
                windows_completed: result->Ok_0.windows_completed as u64,
            })
        }),
{
}

} // verus!
