//! The daemon's protocol: greetings, responses and frames.
use vstd::prelude::*;
use vstd::slice::*;
use vstd::utf8::*;

use crate::float_bits::{f32_zero, F32};
use crate::text::{decimal, quoted, quoted_text, same_text, with_number, with_text};
use crate::wire::{
    Message, ProtoInput, WIRE_BYTES, WIRE_FIXED32, WIRE_VARINT, WireError, bytes_at, bytes_field,
    decode_message, decoded, field_fixed32, field_message, field_string, field_varint, fixed32_at,
    fixed32_field, key_at, le32, le32_round_trip, le32_value, lemma_varint_at_bounds, push_le32,
    read_le32, skip_at, string_at, varint_at, varint_field,
};
use crate::SAMPLE_RATE;

verus! {

/// The longest frame body.
pub const FRAME_MAX_BYTES: usize = 1_048_576;

/// Signal byte: the ring holds new data.
pub const SIGNAL_DATA_READY: u8 = 0x01;
/// Signal byte: no more data will come.
pub const SIGNAL_END_OF_STREAM: u8 = 0x02;
/// Signal byte: stop and drop what is queued.
pub const SIGNAL_CANCEL: u8 = 0x03;

/// Sample format: signed 16-bit little-endian.
pub const SAMPLE_FORMAT_S16LE: i32 = 1;

/// Why a request or a message is refused.
#[derive(Clone, Debug)]
pub enum ProtocolError {
    /// The mode is neither batch nor stream.
    UnsupportedMode { mode: String },
    /// No beam was asked for.
    ZeroBeamSize,
    /// The audio is not 16 kHz mono s16le.
    UnsupportedAudioFormat,
    /// The input ends inside a frame's length.
    FrameLengthUnavailable,
    /// A frame is longer than `FRAME_MAX_BYTES`.
    FrameTooLarge,
    /// The input ends inside a frame's body.
    FrameBodyUnavailable,
    /// A client hello names no model.
    MissingModel,
    /// A response is not a length-delimited field.
    InvalidResponseWireType { wire: u8 },
    /// A response has a field number that is not known.
    UnknownResponseField { field: u32 },
    /// The bytes are not a message.
    Wire { error: WireError },
}

/// What a wire error says.
pub open spec fn wire_message(error: WireError) -> Seq<char> {
    match error {
        WireError::TruncatedVarint => "truncated protobuf varint"@,
        WireError::VarintTooLong => "protobuf varint too long"@,
        WireError::LengthOverflow => "protobuf length overflow"@,
        WireError::TruncatedBytes => "truncated protobuf length-delimited field"@,
        WireError::InvalidUtf8 => "protobuf string is not valid UTF-8"@,
        WireError::TruncatedFixed32 => "truncated protobuf fixed32"@,
        WireError::TruncatedField => "truncated protobuf field"@,
        WireError::UnsupportedWireType { wire } => "unsupported protobuf wire type "@ + decimal(
            wire as nat,
        ),
    }
}

impl ProtocolError {
    /// What the error says.
    pub open spec fn spec_message(&self) -> Seq<char> {
        match *self {
            ProtocolError::UnsupportedMode { mode } => "unsupported mode "@ + quoted(mode@),
            ProtocolError::ZeroBeamSize => "beam_size must be at least 1"@,
            ProtocolError::UnsupportedAudioFormat =>
                "unsupported audio format; expected 16 kHz mono s16le"@,
            ProtocolError::FrameLengthUnavailable => "failed to read protobuf frame length"@,
            ProtocolError::FrameTooLarge => "protobuf frame exceeds 1048576 bytes"@,
            ProtocolError::FrameBodyUnavailable => "failed to read protobuf frame body"@,
            ProtocolError::MissingModel => "client hello missing model"@,
            ProtocolError::InvalidResponseWireType { wire } => "invalid response wire type "@
                + decimal(wire as nat),
            ProtocolError::UnknownResponseField { field } => "unknown response field "@ + decimal(
                field as nat,
            ),
            ProtocolError::Wire { error } => wire_message(error),
        }
    }

    /// What the error says.
    pub fn message(&self) -> (text: String)
        ensures
            text@ == self.spec_message(),
    {
        match self {
            ProtocolError::UnsupportedMode { mode } => with_text(
                "unsupported mode ",
                quoted_text(mode.as_str()).as_str(),
            ),
            ProtocolError::ZeroBeamSize => "beam_size must be at least 1".to_string(),
            ProtocolError::UnsupportedAudioFormat =>
                "unsupported audio format; expected 16 kHz mono s16le".to_string(),
            ProtocolError::FrameLengthUnavailable =>
                "failed to read protobuf frame length".to_string(),
            ProtocolError::FrameTooLarge => "protobuf frame exceeds 1048576 bytes".to_string(),
            ProtocolError::FrameBodyUnavailable => "failed to read protobuf frame body".to_string(),
            ProtocolError::MissingModel => "client hello missing model".to_string(),
            ProtocolError::InvalidResponseWireType { wire } => with_number(
                "invalid response wire type ",
                *wire as u64,
            ),
            ProtocolError::UnknownResponseField { field } => with_number(
                "unknown response field ",
                *field as u64,
            ),
            ProtocolError::Wire { error } => match *error {
                WireError::TruncatedVarint => "truncated protobuf varint".to_string(),
                WireError::VarintTooLong => "protobuf varint too long".to_string(),
                WireError::LengthOverflow => "protobuf length overflow".to_string(),
                WireError::TruncatedBytes => "truncated protobuf length-delimited field".to_string(),
                WireError::InvalidUtf8 => "protobuf string is not valid UTF-8".to_string(),
                WireError::TruncatedFixed32 => "truncated protobuf fixed32".to_string(),
                WireError::TruncatedField => "truncated protobuf field".to_string(),
                WireError::UnsupportedWireType { wire } => with_number(
                    "unsupported protobuf wire type ",
                    wire as u64,
                ),
            },
        }
    }
}

/// How audio samples are laid out.
#[derive(Clone, Copy, Debug, PartialEq, Eq, Structural)]
pub struct AudioFormat {
    pub sample_rate: u32,
    pub channels: u32,
    pub sample_format: i32,
}

/// Settings of the voice activity detector; what is not set takes the daemon's value.
#[derive(Clone, Copy, Debug, PartialEq, Eq, Structural)]
pub struct VadOptions {
    pub threshold: Option<F32>,
    pub min_speech_ms: Option<u32>,
    pub min_silence_ms: Option<u32>,
    pub speech_pad_ms: Option<u32>,
    pub window_samples: Option<usize>,
}

/// What a client asks for.
#[derive(Clone, Debug)]
pub struct ClientHello {
    pub model: String,
    pub mode: String,
    pub lang: String,
    pub task: String,
    pub max_new_tokens: usize,
    pub beam_size: usize,
    pub notimestamps: bool,
    pub suppress_tokens: String,
    pub audio_format: AudioFormat,
    pub vad: VadOptions,
}

/// What the daemon offers.
#[derive(Clone, Copy, Debug, PartialEq, Eq, Structural)]
pub struct ServerHello {
    pub audio_format: AudioFormat,
    pub ring_capacity_bytes: u64,
    pub ring_header_bytes: u32,
}

/// What the daemon answers.
#[derive(Clone, Debug)]
pub enum Response {
    ServerHello(ServerHello),
    Segment { text: String, begin: F32, end: F32 },
    Done { audio_s: F32, rtf: F32 },
    Error { error: String },
    Cancelled { audio_s: F32, rtf: F32, windows_dispatched: u64, windows_completed: u64 },
    BackOff { reason: String, retry_after_ms: u32 },
}

/// The model of a `ClientHello`.
pub struct ClientHelloView {
    pub model: Seq<char>,
    pub mode: Seq<char>,
    pub lang: Seq<char>,
    pub task: Seq<char>,
    pub max_new_tokens: usize,
    pub beam_size: usize,
    pub notimestamps: bool,
    pub suppress_tokens: Seq<char>,
    pub audio_format: AudioFormat,
    pub vad: VadOptions,
}

/// The model of a `Response`.
pub enum ResponseView {
    ServerHello(ServerHello),
    Segment { text: Seq<char>, begin: F32, end: F32 },
    Done { audio_s: F32, rtf: F32 },
    Error { error: Seq<char> },
    Cancelled { audio_s: F32, rtf: F32, windows_dispatched: u64, windows_completed: u64 },
    BackOff { reason: Seq<char>, retry_after_ms: u32 },
}

impl View for AudioFormat {
    type V = AudioFormat;

    open spec fn view(&self) -> AudioFormat {
        *self
    }
}

impl View for VadOptions {
    type V = VadOptions;

    open spec fn view(&self) -> VadOptions {
        *self
    }
}

impl View for ServerHello {
    type V = ServerHello;

    open spec fn view(&self) -> ServerHello {
        *self
    }
}

impl View for ClientHello {
    type V = ClientHelloView;

    open spec fn view(&self) -> ClientHelloView {
        ClientHelloView {
            model: self.model@,
            mode: self.mode@,
            lang: self.lang@,
            task: self.task@,
            max_new_tokens: self.max_new_tokens,
            beam_size: self.beam_size,
            notimestamps: self.notimestamps,
            suppress_tokens: self.suppress_tokens@,
            audio_format: self.audio_format,
            vad: self.vad,
        }
    }
}

impl View for Response {
    type V = ResponseView;

    open spec fn view(&self) -> ResponseView {
        match *self {
            Response::ServerHello(server) => ResponseView::ServerHello(server),
            Response::Segment { text, begin, end } => ResponseView::Segment {
                text: text@,
                begin,
                end,
            },
            Response::Done { audio_s, rtf } => ResponseView::Done { audio_s, rtf },
            Response::Error { error } => ResponseView::Error { error: error@ },
            Response::Cancelled { audio_s, rtf, windows_dispatched, windows_completed } =>
                ResponseView::Cancelled { audio_s, rtf, windows_dispatched, windows_completed },
            Response::BackOff { reason, retry_after_ms } => ResponseView::BackOff {
                reason: reason@,
                retry_after_ms,
            },
        }
    }
}

/// An audio format with nothing set.
pub open spec fn empty_audio_format() -> AudioFormat {
    AudioFormat { sample_rate: 0, channels: 0, sample_format: 0 }
}

/// Detector settings with nothing set.
pub open spec fn empty_vad_options() -> VadOptions {
    VadOptions {
        threshold: None,
        min_speech_ms: None,
        min_silence_ms: None,
        speech_pad_ms: None,
        window_samples: None,
    }
}

/// 16 kHz mono s16le.
pub open spec fn spec_supported_audio_format() -> AudioFormat {
    AudioFormat { sample_rate: 16_000, channels: 1, sample_format: 1 }
}

/// A hello with the defaults and no model.
pub open spec fn default_client_hello() -> ClientHelloView {
    ClientHelloView {
        model: Seq::empty(),
        mode: "batch"@,
        lang: "en"@,
        task: "transcribe"@,
        max_new_tokens: 128,
        beam_size: 5,
        notimestamps: false,
        suppress_tokens: "default"@,
        audio_format: spec_supported_audio_format(),
        vad: empty_vad_options(),
    }
}

impl Default for AudioFormat {
    fn default() -> (format: AudioFormat)
        ensures
            format == empty_audio_format(),
    {
        AudioFormat { sample_rate: 0, channels: 0, sample_format: 0 }
    }
}

impl Default for VadOptions {
    fn default() -> (vad: VadOptions)
        ensures
            vad == empty_vad_options(),
    {
        VadOptions {
            threshold: None,
            min_speech_ms: None,
            min_silence_ms: None,
            speech_pad_ms: None,
            window_samples: None,
        }
    }
}

impl Default for ClientHello {
    fn default() -> (hello: ClientHello)
        ensures
            hello@ == default_client_hello(),
    {
        ClientHello {
            model: String::new(),
            mode: "batch".to_string(),
            lang: "en".to_string(),
            task: "transcribe".to_string(),
            max_new_tokens: 128,
            beam_size: 5,
            notimestamps: false,
            suppress_tokens: "default".to_string(),
            audio_format: supported_audio_format(),
            vad: VadOptions::default(),
        }
    }
}

/// The audio format that is supported: 16 kHz mono s16le.
pub fn supported_audio_format() -> (format: AudioFormat)
    ensures
        format == spec_supported_audio_format(),
{
    AudioFormat { sample_rate: SAMPLE_RATE, channels: 1, sample_format: SAMPLE_FORMAT_S16LE }
}

/// True of the two modes.
pub open spec fn known_mode(mode: Seq<char>) -> bool {
    mode == "batch"@ || mode == "stream"@
}

/// Checks that a hello can be served. The first of the three that fails is reported: the mode,
/// the beam size, the audio format.
pub fn validate_client_hello(hello: &ClientHello) -> (out: Result<(), ProtocolError>)
    ensures
        out is Ok <==> known_mode(hello.mode@) && hello.beam_size >= 1 && hello.audio_format
            == spec_supported_audio_format(),
        !known_mode(hello.mode@) <==> (out matches Err(ProtocolError::UnsupportedMode { mode }) && mode@
            == hello.mode@),
        (known_mode(hello.mode@) && hello.beam_size == 0) <==> out
            == Err::<(), ProtocolError>(ProtocolError::ZeroBeamSize),
        (known_mode(hello.mode@) && hello.beam_size >= 1 && hello.audio_format
            != spec_supported_audio_format()) <==> out
            == Err::<(), ProtocolError>(ProtocolError::UnsupportedAudioFormat),
{
    if !same_text(hello.mode.as_str(), "batch") && !same_text(hello.mode.as_str(), "stream") {
        return Err(ProtocolError::UnsupportedMode { mode: hello.mode.clone() });
    }
    if hello.beam_size == 0 {
        return Err(ProtocolError::ZeroBeamSize);
    }
    if hello.audio_format.sample_rate != SAMPLE_RATE || hello.audio_format.channels != 1
        || hello.audio_format.sample_format != SAMPLE_FORMAT_S16LE {
        return Err(ProtocolError::UnsupportedAudioFormat);
    }
    Ok(())
}

////////////////////////////////////////////////////////////////////////////////
// Frames
////////////////////////////////////////////////////////////////////////////////

/// A frame as it stands in a stream: the length in four bytes, then the body.
pub open spec fn framed(frame: Seq<u8>) -> Seq<u8> {
    le32(frame.len() as u32) + frame
}

/// The body of the frame that `input` begins with, and what follows it.
pub open spec fn unframed(input: Seq<u8>) -> Result<(Seq<u8>, Seq<u8>), ProtocolError> {
    if input.len() < 4 {
        Err(ProtocolError::FrameLengthUnavailable)
    } else {
        let len = le32_value(input.take(4));
        if len > FRAME_MAX_BYTES {
            Err(ProtocolError::FrameTooLarge)
        } else if input.len() < 4 + len {
            Err(ProtocolError::FrameBodyUnavailable)
        } else {
            Ok((input.subrange(4, 4 + len), input.skip(4 + len)))
        }
    }
}

/// The length of the body that follows a frame's four length bytes.
pub fn frame_length(header: &[u8]) -> (out: Result<usize, ProtocolError>)
    requires
        header@.len() == 4,
    ensures
        match out {
            Ok(len) => len == le32_value(header@) && len <= FRAME_MAX_BYTES,
            Err(e) => e == ProtocolError::FrameTooLarge && le32_value(header@) > FRAME_MAX_BYTES,
        },
{
    let len: u32 = read_le32(header);
    if len > 1_048_576 {
        return Err(ProtocolError::FrameTooLarge);
    }
    Ok(len as usize)
}

/// Takes a frame from the front of a stream of bytes. After a failure the stream stands where
/// reading stopped: before the length if it is cut off, and behind the length otherwise.
pub fn read_frame(reader: &mut &[u8]) -> (out: Result<Vec<u8>, ProtocolError>)
    ensures
        match unframed(old(reader)@) {
            Ok((body, rest)) => out is Ok && out->Ok_0@ == body && final(reader)@ == rest,
            Err(e) => out == Err::<Vec<u8>, ProtocolError>(e) && final(reader)@ == (if e
                == ProtocolError::FrameLengthUnavailable {
                old(reader)@
            } else {
                old(reader)@.skip(4)
            }),
        },
{
    let input: &[u8] = *reader;
    if input.len() < 4 {
        return Err(ProtocolError::FrameLengthUnavailable);
    }
    let header: &[u8] = slice_subrange(input, 0, 4);
    let rest: &[u8] = slice_subrange(input, 4, input.len());
    *reader = rest;
    assert(header@ =~= input@.take(4));
    let len: usize = match frame_length(header) {
        Ok(len) => len,
        Err(e) => return Err(e),
    };
    if rest.len() < len {
        return Err(ProtocolError::FrameBodyUnavailable);
    }
    let frame: Vec<u8> = slice_to_vec(slice_subrange(rest, 0, len));
    *reader = slice_subrange(rest, len, rest.len());
    assert(frame@ =~= input@.subrange(4, 4 + len));
    assert(reader@ =~= input@.skip(4 + len));
    Ok(frame)
}

/// Writes a frame behind a stream of bytes, or nothing if it is too long.
pub fn write_frame(writer: &mut Vec<u8>, frame: &[u8]) -> (out: Result<(), ProtocolError>)
    ensures
        frame@.len() <= FRAME_MAX_BYTES ==> out is Ok && final(writer)@ == old(writer)@ + framed(
            frame@,
        ),
        frame@.len() > FRAME_MAX_BYTES ==> out == Err::<(), ProtocolError>(
            ProtocolError::FrameTooLarge,
        ) && final(writer)@ == old(writer)@,
{
    if frame.len() > FRAME_MAX_BYTES {
        return Err(ProtocolError::FrameTooLarge);
    }
    push_le32(writer, frame.len() as u32);
    writer.extend_from_slice(frame);
    assert(writer@ =~= old(writer)@ + framed(frame@));
    Ok(())
}

/// A frame that was written is read back, with what follows it left in the stream.
pub proof fn frame_round_trip(frame: Seq<u8>, rest: Seq<u8>)
    requires
        frame.len() <= FRAME_MAX_BYTES,
    ensures
        unframed(framed(frame) + rest) == Ok::<(Seq<u8>, Seq<u8>), ProtocolError>((frame, rest)),
{
    let input = framed(frame) + rest;
    le32_round_trip(frame.len() as u32);
    assert(input.take(4) =~= le32(frame.len() as u32));
    assert(input.subrange(4, 4 + frame.len() as int) =~= frame);
    assert(input.skip(4 + frame.len() as int) =~= rest);
}

/// Takes a client hello from the front of a stream of bytes.
pub fn read_client_hello(reader: &mut &[u8]) -> (out: Result<ClientHello, ProtocolError>)
    ensures
        match unframed(old(reader)@) {
            Ok((body, rest)) => final(reader)@ == rest && match decoded_client_hello(body) {
                Ok(hello) => out is Ok && out->Ok_0@ == hello,
                Err(e) => out == Err::<ClientHello, ProtocolError>(e),
            },
            Err(e) => out == Err::<ClientHello, ProtocolError>(e) && final(reader)@ == (if e
                == ProtocolError::FrameLengthUnavailable {
                old(reader)@
            } else {
                old(reader)@.skip(4)
            }),
        },
{
    match read_frame(reader) {
        Ok(frame) => decode_client_hello(frame.as_slice()),
        Err(e) => Err(e),
    }
}

/// Writes a response as a frame behind a stream of bytes.
pub fn write_response(writer: &mut Vec<u8>, response: Response) -> (out: Result<(), ProtocolError>)
    ensures
        ({
            let body = encoded_response(response@);
            &&& body.len() <= FRAME_MAX_BYTES ==> out is Ok && final(writer)@ == old(writer)@
                + framed(body)
            &&& body.len() > FRAME_MAX_BYTES ==> out == Err::<(), ProtocolError>(
                ProtocolError::FrameTooLarge,
            ) && final(writer)@ == old(writer)@
        }),
{
    let frame = encode_response(response);
    write_frame(writer, frame.as_slice())
}

////////////////////////////////////////////////////////////////////////////////
// Reading messages
////////////////////////////////////////////////////////////////////////////////

/// A value that was read, turned into the message it leads to.
pub open spec fn with_value<T, M>(read: Result<(T, int), WireError>, f: spec_fn(T) -> M) -> Result<
    (M, int),
    WireError,
> {
    match read {
        Ok((value, next)) => Ok((f(value), next)),
        Err(e) => Err(e),
    }
}

/// A message that a skipped field leaves as it was.
pub open spec fn unchanged<M>(message: M, skipped: Result<int, WireError>) -> Result<
    (M, int),
    WireError,
> {
    match skipped {
        Ok(next) => Ok((message, next)),
        Err(e) => Err(e),
    }
}

impl Message for AudioFormat {
    open spec fn merged(
        message: AudioFormat,
        field: u32,
        wire: u8,
        bytes: Seq<u8>,
        pos: int,
    ) -> Result<(AudioFormat, int), WireError> {
        if field == 1 && wire == 0 {
            with_value(varint_at(bytes, pos), |value: u64| AudioFormat { sample_rate: value as u32, ..message })
        } else if field == 2 && wire == 0 {
            with_value(varint_at(bytes, pos), |value: u64| AudioFormat { channels: value as u32, ..message })
        } else if field == 3 && wire == 0 {
            with_value(varint_at(bytes, pos), |value: u64| AudioFormat { sample_format: value as i32, ..message })
        } else {
            unchanged(message, skip_at(bytes, pos, wire))
        }
    }

    proof fn merged_advances(message: AudioFormat, field: u32, wire: u8, bytes: Seq<u8>, pos: int) {
        lemma_varint_at_bounds(bytes, pos);
    }

    fn merge(&mut self, field: u32, wire: u8, input: &mut ProtoInput) -> (out: Result<(), WireError>) {
        if field == 1 && wire == WIRE_VARINT {
            match input.varint() {
                Ok(value) => self.sample_rate = value as u32,
                Err(e) => return Err(e),
            }
        } else if field == 2 && wire == WIRE_VARINT {
            match input.varint() {
                Ok(value) => self.channels = value as u32,
                Err(e) => return Err(e),
            }
        } else if field == 3 && wire == WIRE_VARINT {
            match input.varint() {
                Ok(value) => self.sample_format = value as i32,
                Err(e) => return Err(e),
            }
        } else {
            return input.skip(wire);
        }
        Ok(())
    }
}

/// The audio format that bytes hold.
pub open spec fn decoded_audio_format(bytes: Seq<u8>) -> Result<AudioFormat, WireError> {
    decoded::<AudioFormat>(bytes, 0, empty_audio_format())
}

/// The audio format that bytes hold.
pub fn decode_audio_format(bytes: &[u8]) -> (out: Result<AudioFormat, WireError>)
    ensures
        match decoded_audio_format(bytes@) {
            Ok(message) => out is Ok && out->Ok_0@ == message,
            Err(e) => out == Err::<AudioFormat, WireError>(e),
        },
{
    decode_message::<AudioFormat>(bytes, AudioFormat::default())
}

impl Message for VadOptions {
    open spec fn merged(
        message: VadOptions,
        field: u32,
        wire: u8,
        bytes: Seq<u8>,
        pos: int,
    ) -> Result<(VadOptions, int), WireError> {
        if field == 1 && wire == 5 {
            with_value(fixed32_at(bytes, pos), |value: F32| VadOptions { threshold: Some(value), ..message })
        } else if field == 2 && wire == 0 {
            with_value(
                varint_at(bytes, pos),
                |value: u64| VadOptions { min_speech_ms: Some(value as u32), ..message },
            )
        } else if field == 3 && wire == 0 {
            with_value(
                varint_at(bytes, pos),
                |value: u64| VadOptions { min_silence_ms: Some(value as u32), ..message },
            )
        } else if field == 4 && wire == 0 {
            with_value(
                varint_at(bytes, pos),
                |value: u64| VadOptions { speech_pad_ms: Some(value as u32), ..message },
            )
        } else if field == 5 && wire == 0 {
            with_value(
                varint_at(bytes, pos),
                |value: u64| VadOptions { window_samples: Some(value as usize), ..message },
            )
        } else {
            unchanged(message, skip_at(bytes, pos, wire))
        }
    }

    proof fn merged_advances(message: VadOptions, field: u32, wire: u8, bytes: Seq<u8>, pos: int) {
        lemma_varint_at_bounds(bytes, pos);
    }

    fn merge(&mut self, field: u32, wire: u8, input: &mut ProtoInput) -> (out: Result<(), WireError>) {
        if field == 1 && wire == WIRE_FIXED32 {
            match input.fixed32() {
                Ok(value) => self.threshold = Some(value),
                Err(e) => return Err(e),
            }
        } else if field == 2 && wire == WIRE_VARINT {
            match input.varint() {
                Ok(value) => self.min_speech_ms = Some(value as u32),
                Err(e) => return Err(e),
            }
        } else if field == 3 && wire == WIRE_VARINT {
            match input.varint() {
                Ok(value) => self.min_silence_ms = Some(value as u32),
                Err(e) => return Err(e),
            }
        } else if field == 4 && wire == WIRE_VARINT {
            match input.varint() {
                Ok(value) => self.speech_pad_ms = Some(value as u32),
                Err(e) => return Err(e),
            }
        } else if field == 5 && wire == WIRE_VARINT {
            match input.varint() {
                Ok(value) => self.window_samples = Some(value as usize),
                Err(e) => return Err(e),
            }
        } else {
            return input.skip(wire);
        }
        Ok(())
    }
}

/// The detector settings that bytes hold.
pub open spec fn decoded_vad_options(bytes: Seq<u8>) -> Result<VadOptions, WireError> {
    decoded::<VadOptions>(bytes, 0, empty_vad_options())
}

/// The detector settings that bytes hold.
pub fn decode_vad_options(bytes: &[u8]) -> (out: Result<VadOptions, WireError>)
    ensures
        match decoded_vad_options(bytes@) {
            Ok(message) => out is Ok && out->Ok_0@ == message,
            Err(e) => out == Err::<VadOptions, WireError>(e),
        },
{
    decode_message::<VadOptions>(bytes, VadOptions::default())
}

impl Message for ClientHello {
    open spec fn merged(
        message: ClientHelloView,
        field: u32,
        wire: u8,
        bytes: Seq<u8>,
        pos: int,
    ) -> Result<(ClientHelloView, int), WireError> {
        if field == 1 && wire == 2 {
            with_value(string_at(bytes, pos), |value: Seq<char>| ClientHelloView { model: value, ..message })
        } else if field == 2 && wire == 2 {
            with_value(string_at(bytes, pos), |value: Seq<char>| ClientHelloView { mode: value, ..message })
        } else if field == 3 && wire == 2 {
            with_value(string_at(bytes, pos), |value: Seq<char>| ClientHelloView { lang: value, ..message })
        } else if field == 4 && wire == 2 {
            with_value(string_at(bytes, pos), |value: Seq<char>| ClientHelloView { task: value, ..message })
        } else if field == 5 && wire == 0 {
            with_value(
                varint_at(bytes, pos),
                |value: u64| ClientHelloView { max_new_tokens: value as usize, ..message },
            )
        } else if field == 6 && wire == 0 {
            with_value(
                varint_at(bytes, pos),
                |value: u64| ClientHelloView { beam_size: value as usize, ..message },
            )
        } else if field == 7 && wire == 0 {
            with_value(varint_at(bytes, pos), |value: u64| ClientHelloView { notimestamps: value != 0, ..message })
        } else if field == 8 && wire == 2 {
            with_value(
                string_at(bytes, pos),
                |value: Seq<char>| ClientHelloView { suppress_tokens: value, ..message },
            )
        } else if field == 9 && wire == 2 {
            match bytes_at(bytes, pos) {
                Ok((body, next)) => match decoded_audio_format(body) {
                    Ok(audio_format) => Ok((ClientHelloView { audio_format, ..message }, next)),
                    Err(e) => Err(e),
                },
                Err(e) => Err(e),
            }
        } else if field == 10 && wire == 2 {
            match bytes_at(bytes, pos) {
                Ok((body, next)) => match decoded_vad_options(body) {
                    Ok(vad) => Ok((ClientHelloView { vad, ..message }, next)),
                    Err(e) => Err(e),
                },
                Err(e) => Err(e),
            }
        } else {
            unchanged(message, skip_at(bytes, pos, wire))
        }
    }

    proof fn merged_advances(message: ClientHelloView, field: u32, wire: u8, bytes: Seq<u8>, pos: int) {
        lemma_varint_at_bounds(bytes, pos);
    }

    fn merge(&mut self, field: u32, wire: u8, input: &mut ProtoInput) -> (out: Result<(), WireError>) {
        if field == 1 && wire == WIRE_BYTES {
            match input.string() {
                Ok(value) => self.model = value,
                Err(e) => return Err(e),
            }
        } else if field == 2 && wire == WIRE_BYTES {
            match input.string() {
                Ok(value) => self.mode = value,
                Err(e) => return Err(e),
            }
        } else if field == 3 && wire == WIRE_BYTES {
            match input.string() {
                Ok(value) => self.lang = value,
                Err(e) => return Err(e),
            }
        } else if field == 4 && wire == WIRE_BYTES {
            match input.string() {
                Ok(value) => self.task = value,
                Err(e) => return Err(e),
            }
        } else if field == 5 && wire == WIRE_VARINT {
            match input.varint() {
                Ok(value) => self.max_new_tokens = value as usize,
                Err(e) => return Err(e),
            }
        } else if field == 6 && wire == WIRE_VARINT {
            match input.varint() {
                Ok(value) => self.beam_size = value as usize,
                Err(e) => return Err(e),
            }
        } else if field == 7 && wire == WIRE_VARINT {
            match input.varint() {
                Ok(value) => self.notimestamps = value != 0,
                Err(e) => return Err(e),
            }
        } else if field == 8 && wire == WIRE_BYTES {
            match input.string() {
                Ok(value) => self.suppress_tokens = value,
                Err(e) => return Err(e),
            }
        } else if field == 9 && wire == WIRE_BYTES {
            let body = match input.bytes() {
                Ok(body) => body,
                Err(e) => return Err(e),
            };
            match decode_audio_format(body) {
                Ok(audio_format) => self.audio_format = audio_format,
                Err(e) => return Err(e),
            }
        } else if field == 10 && wire == WIRE_BYTES {
            let body = match input.bytes() {
                Ok(body) => body,
                Err(e) => return Err(e),
            };
            match decode_vad_options(body) {
                Ok(vad) => self.vad = vad,
                Err(e) => return Err(e),
            }
        } else {
            return input.skip(wire);
        }
        Ok(())
    }
}

/// The client hello that bytes hold; one without a model is refused.
pub open spec fn decoded_client_hello(bytes: Seq<u8>) -> Result<ClientHelloView, ProtocolError> {
    match decoded::<ClientHello>(bytes, 0, default_client_hello()) {
        Ok(hello) => if hello.model.len() == 0 {
            Err(ProtocolError::MissingModel)
        } else {
            Ok(hello)
        },
        Err(error) => Err(ProtocolError::Wire { error }),
    }
}

/// The client hello that bytes hold; one without a model is refused.
pub fn decode_client_hello(bytes: &[u8]) -> (out: Result<ClientHello, ProtocolError>)
    ensures
        match decoded_client_hello(bytes@) {
            Ok(hello) => out is Ok && out->Ok_0@ == hello,
            Err(e) => out == Err::<ClientHello, ProtocolError>(e),
        },
{
    match decode_message::<ClientHello>(bytes, ClientHello::default()) {
        Ok(hello) => {
            if hello.model.as_str().is_empty() {
                Err(ProtocolError::MissingModel)
            } else {
                Ok(hello)
            }
        },
        Err(error) => Err(ProtocolError::Wire { error }),
    }
}

/// A server hello with nothing set.
pub open spec fn empty_server_hello() -> ServerHello {
    ServerHello { audio_format: empty_audio_format(), ring_capacity_bytes: 0, ring_header_bytes: 0 }
}

impl Message for ServerHello {
    open spec fn merged(
        message: ServerHello,
        field: u32,
        wire: u8,
        bytes: Seq<u8>,
        pos: int,
    ) -> Result<(ServerHello, int), WireError> {
        if field == 1 && wire == 2 {
            match bytes_at(bytes, pos) {
                Ok((body, next)) => match decoded_audio_format(body) {
                    Ok(audio_format) => Ok((ServerHello { audio_format, ..message }, next)),
                    Err(e) => Err(e),
                },
                Err(e) => Err(e),
            }
        } else if field == 2 && wire == 0 {
            with_value(varint_at(bytes, pos), |value: u64| ServerHello { ring_capacity_bytes: value, ..message })
        } else if field == 3 && wire == 0 {
            with_value(
                varint_at(bytes, pos),
                |value: u64| ServerHello { ring_header_bytes: value as u32, ..message },
            )
        } else {
            unchanged(message, skip_at(bytes, pos, wire))
        }
    }

    proof fn merged_advances(message: ServerHello, field: u32, wire: u8, bytes: Seq<u8>, pos: int) {
        lemma_varint_at_bounds(bytes, pos);
    }

    fn merge(&mut self, field: u32, wire: u8, input: &mut ProtoInput) -> (out: Result<(), WireError>) {
        if field == 1 && wire == WIRE_BYTES {
            let body = match input.bytes() {
                Ok(body) => body,
                Err(e) => return Err(e),
            };
            match decode_audio_format(body) {
                Ok(audio_format) => self.audio_format = audio_format,
                Err(e) => return Err(e),
            }
        } else if field == 2 && wire == WIRE_VARINT {
            match input.varint() {
                Ok(value) => self.ring_capacity_bytes = value,
                Err(e) => return Err(e),
            }
        } else if field == 3 && wire == WIRE_VARINT {
            match input.varint() {
                Ok(value) => self.ring_header_bytes = value as u32,
                Err(e) => return Err(e),
            }
        } else {
            return input.skip(wire);
        }
        Ok(())
    }
}

/// The server hello that bytes hold.
pub open spec fn decoded_server_hello(bytes: Seq<u8>) -> Result<ServerHello, WireError> {
    decoded::<ServerHello>(bytes, 0, empty_server_hello())
}

/// The server hello that bytes hold.
pub fn decode_server_hello(bytes: &[u8]) -> (out: Result<ServerHello, WireError>)
    ensures
        match decoded_server_hello(bytes@) {
            Ok(message) => out is Ok && out->Ok_0@ == message,
            Err(e) => out == Err::<ServerHello, WireError>(e),
        },
{
    decode_message::<ServerHello>(bytes, ServerHello {
        audio_format: AudioFormat::default(),
        ring_capacity_bytes: 0,
        ring_header_bytes: 0,
    })
}

/// The fields of a segment response.
#[derive(Clone, Debug)]
pub struct SegmentBody {
    pub text: String,
    pub begin: F32,
    pub end: F32,
}

/// The model of a `SegmentBody`.
pub struct SegmentBodyView {
    pub text: Seq<char>,
    pub begin: F32,
    pub end: F32,
}

impl View for SegmentBody {
    type V = SegmentBodyView;

    open spec fn view(&self) -> SegmentBodyView {
        SegmentBodyView { text: self.text@, begin: self.begin, end: self.end }
    }
}

impl Message for SegmentBody {
    open spec fn merged(
        message: SegmentBodyView,
        field: u32,
        wire: u8,
        bytes: Seq<u8>,
        pos: int,
    ) -> Result<(SegmentBodyView, int), WireError> {
        if field == 1 && wire == 2 {
            with_value(string_at(bytes, pos), |value: Seq<char>| SegmentBodyView { text: value, ..message })
        } else if field == 2 && wire == 5 {
            with_value(fixed32_at(bytes, pos), |value: F32| SegmentBodyView { begin: value, ..message })
        } else if field == 3 && wire == 5 {
            with_value(fixed32_at(bytes, pos), |value: F32| SegmentBodyView { end: value, ..message })
        } else {
            unchanged(message, skip_at(bytes, pos, wire))
        }
    }

    proof fn merged_advances(message: SegmentBodyView, field: u32, wire: u8, bytes: Seq<u8>, pos: int) {
        lemma_varint_at_bounds(bytes, pos);
    }

    fn merge(&mut self, field: u32, wire: u8, input: &mut ProtoInput) -> (out: Result<(), WireError>) {
        if field == 1 && wire == WIRE_BYTES {
            match input.string() {
                Ok(value) => self.text = value,
                Err(e) => return Err(e),
            }
        } else if field == 2 && wire == WIRE_FIXED32 {
            match input.fixed32() {
                Ok(value) => self.begin = value,
                Err(e) => return Err(e),
            }
        } else if field == 3 && wire == WIRE_FIXED32 {
            match input.fixed32() {
                Ok(value) => self.end = value,
                Err(e) => return Err(e),
            }
        } else {
            return input.skip(wire);
        }
        Ok(())
    }
}

/// The segment fields that bytes hold.
pub open spec fn decoded_segment(bytes: Seq<u8>) -> Result<SegmentBodyView, WireError> {
    decoded::<SegmentBody>(bytes, 0, SegmentBodyView { text: Seq::empty(), begin: f32_zero(), end: f32_zero() })
}

/// The segment fields that bytes hold.
pub fn decode_segment(bytes: &[u8]) -> (out: Result<SegmentBody, WireError>)
    ensures
        match decoded_segment(bytes@) {
            Ok(message) => out is Ok && out->Ok_0@ == message,
            Err(e) => out == Err::<SegmentBody, WireError>(e),
        },
{
    decode_message::<SegmentBody>(
        bytes,
        SegmentBody {
            text: String::new(),
            begin: F32 { bits: 0 },
            end: F32 { bits: 0 },
        },
    )
}

/// The fields of a done response.
#[derive(Clone, Copy, Debug, PartialEq, Eq, Structural)]
pub struct DoneBody {
    pub audio_s: F32,
    pub rtf: F32,
}

impl View for DoneBody {
    type V = DoneBody;

    open spec fn view(&self) -> DoneBody {
        *self
    }
}

impl Message for DoneBody {
    open spec fn merged(
        message: DoneBody,
        field: u32,
        wire: u8,
        bytes: Seq<u8>,
        pos: int,
    ) -> Result<(DoneBody, int), WireError> {
        if field == 1 && wire == 5 {
            with_value(fixed32_at(bytes, pos), |value: F32| DoneBody { audio_s: value, ..message })
        } else if field == 2 && wire == 5 {
            with_value(fixed32_at(bytes, pos), |value: F32| DoneBody { rtf: value, ..message })
        } else {
            unchanged(message, skip_at(bytes, pos, wire))
        }
    }

    proof fn merged_advances(message: DoneBody, field: u32, wire: u8, bytes: Seq<u8>, pos: int) {
        lemma_varint_at_bounds(bytes, pos);
    }

    fn merge(&mut self, field: u32, wire: u8, input: &mut ProtoInput) -> (out: Result<(), WireError>) {
        if field == 1 && wire == WIRE_FIXED32 {
            match input.fixed32() {
                Ok(value) => self.audio_s = value,
                Err(e) => return Err(e),
            }
        } else if field == 2 && wire == WIRE_FIXED32 {
            match input.fixed32() {
                Ok(value) => self.rtf = value,
                Err(e) => return Err(e),
            }
        } else {
            return input.skip(wire);
        }
        Ok(())
    }
}

/// The done fields that bytes hold.
pub open spec fn decoded_done(bytes: Seq<u8>) -> Result<DoneBody, WireError> {
    decoded::<DoneBody>(bytes, 0, DoneBody { audio_s: f32_zero(), rtf: f32_zero() })
}

/// The done fields that bytes hold.
pub fn decode_done(bytes: &[u8]) -> (out: Result<DoneBody, WireError>)
    ensures
        match decoded_done(bytes@) {
            Ok(message) => out is Ok && out->Ok_0@ == message,
            Err(e) => out == Err::<DoneBody, WireError>(e),
        },
{
    decode_message::<DoneBody>(bytes, DoneBody { audio_s: F32 { bits: 0 }, rtf: F32 { bits: 0 } })
}

/// The fields of an error response.
#[derive(Clone, Debug)]
pub struct ErrorBody {
    pub error: String,
}

/// The model of a `ErrorBody`.
pub struct ErrorBodyView {
    pub error: Seq<char>,
}

impl View for ErrorBody {
    type V = ErrorBodyView;

    open spec fn view(&self) -> ErrorBodyView {
        ErrorBodyView { error: self.error@ }
    }
}

impl Message for ErrorBody {
    open spec fn merged(
        message: ErrorBodyView,
        field: u32,
        wire: u8,
        bytes: Seq<u8>,
        pos: int,
    ) -> Result<(ErrorBodyView, int), WireError> {
        if field == 1 && wire == 2 {
            with_value(string_at(bytes, pos), |value: Seq<char>| ErrorBodyView { error: value, ..message })
        } else {
            unchanged(message, skip_at(bytes, pos, wire))
        }
    }

    proof fn merged_advances(message: ErrorBodyView, field: u32, wire: u8, bytes: Seq<u8>, pos: int) {
        lemma_varint_at_bounds(bytes, pos);
    }

    fn merge(&mut self, field: u32, wire: u8, input: &mut ProtoInput) -> (out: Result<(), WireError>) {
        if field == 1 && wire == WIRE_BYTES {
            match input.string() {
                Ok(value) => self.error = value,
                Err(e) => return Err(e),
            }
        } else {
            return input.skip(wire);
        }
        Ok(())
    }
}

/// The error fields that bytes hold.
pub open spec fn decoded_error(bytes: Seq<u8>) -> Result<ErrorBodyView, WireError> {
    decoded::<ErrorBody>(bytes, 0, ErrorBodyView { error: Seq::empty() })
}

/// The error fields that bytes hold.
pub fn decode_error(bytes: &[u8]) -> (out: Result<ErrorBody, WireError>)
    ensures
        match decoded_error(bytes@) {
            Ok(message) => out is Ok && out->Ok_0@ == message,
            Err(e) => out == Err::<ErrorBody, WireError>(e),
        },
{
    decode_message::<ErrorBody>(bytes, ErrorBody { error: String::new() })
}

/// The fields of a cancelled response.
#[derive(Clone, Copy, Debug, PartialEq, Eq, Structural)]
pub struct CancelledBody {
    pub audio_s: F32,
    pub rtf: F32,
    pub windows_dispatched: u64,
    pub windows_completed: u64,
}

impl View for CancelledBody {
    type V = CancelledBody;

    open spec fn view(&self) -> CancelledBody {
        *self
    }
}

impl Message for CancelledBody {
    open spec fn merged(
        message: CancelledBody,
        field: u32,
        wire: u8,
        bytes: Seq<u8>,
        pos: int,
    ) -> Result<(CancelledBody, int), WireError> {
        if field == 1 && wire == 5 {
            with_value(fixed32_at(bytes, pos), |value: F32| CancelledBody { audio_s: value, ..message })
        } else if field == 2 && wire == 5 {
            with_value(fixed32_at(bytes, pos), |value: F32| CancelledBody { rtf: value, ..message })
        } else if field == 3 && wire == 0 {
            with_value(varint_at(bytes, pos), |value: u64| CancelledBody { windows_dispatched: value, ..message })
        } else if field == 4 && wire == 0 {
            with_value(varint_at(bytes, pos), |value: u64| CancelledBody { windows_completed: value, ..message })
        } else {
            unchanged(message, skip_at(bytes, pos, wire))
        }
    }

    proof fn merged_advances(message: CancelledBody, field: u32, wire: u8, bytes: Seq<u8>, pos: int) {
        lemma_varint_at_bounds(bytes, pos);
    }

    fn merge(&mut self, field: u32, wire: u8, input: &mut ProtoInput) -> (out: Result<(), WireError>) {
        if field == 1 && wire == WIRE_FIXED32 {
            match input.fixed32() {
                Ok(value) => self.audio_s = value,
                Err(e) => return Err(e),
            }
        } else if field == 2 && wire == WIRE_FIXED32 {
            match input.fixed32() {
                Ok(value) => self.rtf = value,
                Err(e) => return Err(e),
            }
        } else if field == 3 && wire == WIRE_VARINT {
            match input.varint() {
                Ok(value) => self.windows_dispatched = value,
                Err(e) => return Err(e),
            }
        } else if field == 4 && wire == WIRE_VARINT {
            match input.varint() {
                Ok(value) => self.windows_completed = value,
                Err(e) => return Err(e),
            }
        } else {
            return input.skip(wire);
        }
        Ok(())
    }
}

/// The cancelled fields that bytes hold.
pub open spec fn decoded_cancelled(bytes: Seq<u8>) -> Result<CancelledBody, WireError> {
    decoded::<CancelledBody>(
        bytes,
        0,
        CancelledBody {
            audio_s: f32_zero(),
            rtf: f32_zero(),
            windows_dispatched: 0,
            windows_completed: 0,
        },
    )
}

/// The cancelled fields that bytes hold.
pub fn decode_cancelled(bytes: &[u8]) -> (out: Result<CancelledBody, WireError>)
    ensures
        match decoded_cancelled(bytes@) {
            Ok(message) => out is Ok && out->Ok_0@ == message,
            Err(e) => out == Err::<CancelledBody, WireError>(e),
        },
{
    decode_message::<CancelledBody>(
        bytes,
        CancelledBody {
            audio_s: F32 { bits: 0 },
            rtf: F32 { bits: 0 },
            windows_dispatched: 0,
            windows_completed: 0,
        },
    )
}

/// The fields of a back-off response.
#[derive(Clone, Debug)]
pub struct BackOffBody {
    pub reason: String,
    pub retry_after_ms: u32,
}

/// The model of a `BackOffBody`.
pub struct BackOffBodyView {
    pub reason: Seq<char>,
    pub retry_after_ms: u32,
}

impl View for BackOffBody {
    type V = BackOffBodyView;

    open spec fn view(&self) -> BackOffBodyView {
        BackOffBodyView { reason: self.reason@, retry_after_ms: self.retry_after_ms }
    }
}

impl Message for BackOffBody {
    open spec fn merged(
        message: BackOffBodyView,
        field: u32,
        wire: u8,
        bytes: Seq<u8>,
        pos: int,
    ) -> Result<(BackOffBodyView, int), WireError> {
        if field == 1 && wire == 2 {
            with_value(string_at(bytes, pos), |value: Seq<char>| BackOffBodyView { reason: value, ..message })
        } else if field == 2 && wire == 0 {
            with_value(
                varint_at(bytes, pos),
                |value: u64| BackOffBodyView { retry_after_ms: value as u32, ..message },
            )
        } else {
            unchanged(message, skip_at(bytes, pos, wire))
        }
    }

    proof fn merged_advances(message: BackOffBodyView, field: u32, wire: u8, bytes: Seq<u8>, pos: int) {
        lemma_varint_at_bounds(bytes, pos);
    }

    fn merge(&mut self, field: u32, wire: u8, input: &mut ProtoInput) -> (out: Result<(), WireError>) {
        if field == 1 && wire == WIRE_BYTES {
            match input.string() {
                Ok(value) => self.reason = value,
                Err(e) => return Err(e),
            }
        } else if field == 2 && wire == WIRE_VARINT {
            match input.varint() {
                Ok(value) => self.retry_after_ms = value as u32,
                Err(e) => return Err(e),
            }
        } else {
            return input.skip(wire);
        }
        Ok(())
    }
}

/// The back-off fields that bytes hold.
pub open spec fn decoded_back_off(bytes: Seq<u8>) -> Result<BackOffBodyView, WireError> {
    decoded::<BackOffBody>(bytes, 0, BackOffBodyView { reason: Seq::empty(), retry_after_ms: 0 })
}

/// The back-off fields that bytes hold.
pub fn decode_back_off(bytes: &[u8]) -> (out: Result<BackOffBody, WireError>)
    ensures
        match decoded_back_off(bytes@) {
            Ok(message) => out is Ok && out->Ok_0@ == message,
            Err(e) => out == Err::<BackOffBody, WireError>(e),
        },
{
    decode_message::<BackOffBody>(bytes, BackOffBody { reason: String::new(), retry_after_ms: 0 })
}

/// The response that bytes begin with.
pub open spec fn decoded_response(bytes: Seq<u8>) -> Result<ResponseView, ProtocolError> {
    match key_at(bytes, 0) {
        Err(error) => Err(ProtocolError::Wire { error }),
        Ok(((field, wire), start)) => if wire != 2 {
            Err(ProtocolError::InvalidResponseWireType { wire })
        } else {
            match bytes_at(bytes, start) {
                Err(error) => Err(ProtocolError::Wire { error }),
                Ok((body, _)) => decoded_body(field, body),
            }
        },
    }
}

/// The response with a given field number and body.
pub open spec fn decoded_body(field: u32, body: Seq<u8>) -> Result<ResponseView, ProtocolError> {
    if field == 1 {
        match decoded_server_hello(body) {
            Ok(server) => Ok(ResponseView::ServerHello(server)),
            Err(error) => Err(ProtocolError::Wire { error }),
        }
    } else if field == 2 {
        match decoded_segment(body) {
            Ok(m) => Ok(ResponseView::Segment { text: m.text, begin: m.begin, end: m.end }),
            Err(error) => Err(ProtocolError::Wire { error }),
        }
    } else if field == 3 {
        match decoded_done(body) {
            Ok(m) => Ok(ResponseView::Done { audio_s: m.audio_s, rtf: m.rtf }),
            Err(error) => Err(ProtocolError::Wire { error }),
        }
    } else if field == 4 {
        match decoded_error(body) {
            Ok(m) => Ok(ResponseView::Error { error: m.error }),
            Err(error) => Err(ProtocolError::Wire { error }),
        }
    } else if field == 5 {
        match decoded_cancelled(body) {
            Ok(m) => Ok(ResponseView::Cancelled {
                audio_s: m.audio_s,
                rtf: m.rtf,
                windows_dispatched: m.windows_dispatched,
                windows_completed: m.windows_completed,
            }),
            Err(error) => Err(ProtocolError::Wire { error }),
        }
    } else if field == 6 {
        match decoded_back_off(body) {
            Ok(m) => Ok(ResponseView::BackOff { reason: m.reason, retry_after_ms: m.retry_after_ms }),
            Err(error) => Err(ProtocolError::Wire { error }),
        }
    } else {
        Err(ProtocolError::UnknownResponseField { field })
    }
}

/// The response that bytes begin with.
pub fn decode_response(bytes: &[u8]) -> (out: Result<Response, ProtocolError>)
    ensures
        match decoded_response(bytes@) {
            Ok(response) => out is Ok && out->Ok_0@ == response,
            Err(e) => out == Err::<Response, ProtocolError>(e),
        },
{
    let mut input = ProtoInput::new(bytes);
    let (field, wire) = match input.key() {
        Ok(key) => key,
        Err(error) => return Err(ProtocolError::Wire { error }),
    };
    if wire != WIRE_BYTES {
        return Err(ProtocolError::InvalidResponseWireType { wire });
    }
    let body = match input.bytes() {
        Ok(body) => body,
        Err(error) => return Err(ProtocolError::Wire { error }),
    };
    if field == 1 {
        match decode_server_hello(body) {
            Ok(server) => Ok(Response::ServerHello(server)),
            Err(error) => Err(ProtocolError::Wire { error }),
        }
    } else if field == 2 {
        match decode_segment(body) {
            Ok(m) => Ok(Response::Segment { text: m.text, begin: m.begin, end: m.end }),
            Err(error) => Err(ProtocolError::Wire { error }),
        }
    } else if field == 3 {
        match decode_done(body) {
            Ok(m) => Ok(Response::Done { audio_s: m.audio_s, rtf: m.rtf }),
            Err(error) => Err(ProtocolError::Wire { error }),
        }
    } else if field == 4 {
        match decode_error(body) {
            Ok(m) => Ok(Response::Error { error: m.error }),
            Err(error) => Err(ProtocolError::Wire { error }),
        }
    } else if field == 5 {
        match decode_cancelled(body) {
            Ok(m) => Ok(Response::Cancelled {
                audio_s: m.audio_s,
                rtf: m.rtf,
                windows_dispatched: m.windows_dispatched,
                windows_completed: m.windows_completed,
            }),
            Err(error) => Err(ProtocolError::Wire { error }),
        }
    } else if field == 6 {
        match decode_back_off(body) {
            Ok(m) => Ok(Response::BackOff { reason: m.reason, retry_after_ms: m.retry_after_ms }),
            Err(error) => Err(ProtocolError::Wire { error }),
        }
    } else {
        Err(ProtocolError::UnknownResponseField { field })
    }
}

////////////////////////////////////////////////////////////////////////////////
// Writing messages
////////////////////////////////////////////////////////////////////////////////

/// The bytes of an audio format.
pub open spec fn encoded_audio_format(format: AudioFormat) -> Seq<u8> {
    varint_field(1, format.sample_rate as nat)
        + varint_field(2, format.channels as nat)
        + varint_field(3, (format.sample_format as u64) as nat)
}

/// Writes an audio format.
pub fn encode_audio_format(format: &AudioFormat) -> (out: Vec<u8>)
    ensures
        out@ == encoded_audio_format(*format),
{
    let mut out: Vec<u8> = Vec::new();
    field_varint(&mut out, 1, format.sample_rate as u64);
    field_varint(&mut out, 2, format.channels as u64);
    field_varint(&mut out, 3, format.sample_format as u64);
    assert(out@ =~= encoded_audio_format(*format));
    out
}

/// A field that is only written when it is set.
pub open spec fn optional_varint_field(field: nat, value: Option<nat>) -> Seq<u8> {
    match value {
        Some(value) => varint_field(field, value),
        None => Seq::empty(),
    }
}

/// An optional number as a natural number.
pub open spec fn opt_u32(value: Option<u32>) -> Option<nat> {
    match value {
        Some(v) => Some(v as nat),
        None => None,
    }
}

/// An optional size as a natural number.
pub open spec fn opt_usize(value: Option<usize>) -> Option<nat> {
    match value {
        Some(v) => Some(v as nat),
        None => None,
    }
}

/// A 32-bit field that is only written when it is set.
pub open spec fn optional_fixed32_field(field: nat, value: Option<F32>) -> Seq<u8> {
    match value {
        Some(value) => fixed32_field(field, value.bits),
        None => Seq::empty(),
    }
}

/// The bytes of detector settings: only what is set.
pub open spec fn encoded_vad_options(vad: VadOptions) -> Seq<u8> {
    optional_fixed32_field(1, vad.threshold)
        + optional_varint_field(2, opt_u32(vad.min_speech_ms))
        + optional_varint_field(3, opt_u32(vad.min_silence_ms))
        + optional_varint_field(4, opt_u32(vad.speech_pad_ms))
        + optional_varint_field(5, opt_usize(vad.window_samples))
}

/// Writes detector settings.
pub fn encode_vad_options(vad: &VadOptions) -> (out: Vec<u8>)
    ensures
        out@ == encoded_vad_options(*vad),
{
    let mut out: Vec<u8> = Vec::new();
    if let Some(threshold) = vad.threshold {
        field_fixed32(&mut out, 1, threshold);
    }
    if let Some(min_speech_ms) = vad.min_speech_ms {
        field_varint(&mut out, 2, min_speech_ms as u64);
    }
    if let Some(min_silence_ms) = vad.min_silence_ms {
        field_varint(&mut out, 3, min_silence_ms as u64);
    }
    if let Some(speech_pad_ms) = vad.speech_pad_ms {
        field_varint(&mut out, 4, speech_pad_ms as u64);
    }
    if let Some(window_samples) = vad.window_samples {
        field_varint(&mut out, 5, window_samples as u64);
    }
    assert(out@ =~= encoded_vad_options(*vad));
    out
}

/// One as true, zero as false.
pub open spec fn flag(value: bool) -> nat {
    if value {
        1
    } else {
        0
    }
}

/// The bytes of a client hello.
pub open spec fn encoded_client_hello(hello: ClientHelloView) -> Seq<u8> {
    bytes_field(1, encode_utf8(hello.model))
        + bytes_field(2, encode_utf8(hello.mode))
        + bytes_field(3, encode_utf8(hello.lang))
        + bytes_field(4, encode_utf8(hello.task))
        + varint_field(5, hello.max_new_tokens as nat)
        + varint_field(6, hello.beam_size as nat)
        + varint_field(7, flag(hello.notimestamps))
        + bytes_field(8, encode_utf8(hello.suppress_tokens))
        + bytes_field(9, encoded_audio_format(hello.audio_format))
        + bytes_field(10, encoded_vad_options(hello.vad))
}

/// Writes a client hello.
pub fn encode_client_hello(hello: &ClientHello) -> (out: Vec<u8>)
    ensures
        out@ == encoded_client_hello(hello@),
{
    let mut out: Vec<u8> = Vec::new();
    field_string(&mut out, 1, hello.model.as_str());
    field_string(&mut out, 2, hello.mode.as_str());
    field_string(&mut out, 3, hello.lang.as_str());
    field_string(&mut out, 4, hello.task.as_str());
    field_varint(&mut out, 5, hello.max_new_tokens as u64);
    field_varint(&mut out, 6, hello.beam_size as u64);
    field_varint(
        &mut out,
        7,
        if hello.notimestamps {
            1
        } else {
            0
        },
    );
    field_string(&mut out, 8, hello.suppress_tokens.as_str());
    field_message(&mut out, 9, encode_audio_format(&hello.audio_format).as_slice());
    field_message(&mut out, 10, encode_vad_options(&hello.vad).as_slice());
    assert(out@ =~= encoded_client_hello(hello@));
    out
}

/// The bytes of a server hello.
pub open spec fn encoded_server_hello(server: ServerHello) -> Seq<u8> {
    bytes_field(1, encoded_audio_format(server.audio_format))
        + varint_field(2, server.ring_capacity_bytes as nat)
        + varint_field(3, server.ring_header_bytes as nat)
}

/// Writes a server hello.
pub fn encode_server_hello(server: ServerHello) -> (out: Vec<u8>)
    ensures
        out@ == encoded_server_hello(server),
{
    let mut out: Vec<u8> = Vec::new();
    field_message(&mut out, 1, encode_audio_format(&server.audio_format).as_slice());
    field_varint(&mut out, 2, server.ring_capacity_bytes);
    field_varint(&mut out, 3, server.ring_header_bytes as u64);
    assert(out@ =~= encoded_server_hello(server));
    out
}

/// The field number of a response.
pub open spec fn response_field(response: ResponseView) -> u32 {
    match response {
        ResponseView::ServerHello(_) => 1,
        ResponseView::Segment { .. } => 2,
        ResponseView::Done { .. } => 3,
        ResponseView::Error { .. } => 4,
        ResponseView::Cancelled { .. } => 5,
        ResponseView::BackOff { .. } => 6,
    }
}

/// The body of a response.
pub open spec fn response_body(response: ResponseView) -> Seq<u8> {
    match response {
        ResponseView::ServerHello(server) => encoded_server_hello(server),
        ResponseView::Segment { text, begin, end } => bytes_field(1, encode_utf8(text))
            + fixed32_field(2, begin.bits)
            + fixed32_field(3, end.bits),
        ResponseView::Done { audio_s, rtf } => fixed32_field(1, audio_s.bits) + fixed32_field(2, rtf.bits),
        ResponseView::Error { error } => bytes_field(1, encode_utf8(error)),
        ResponseView::Cancelled { audio_s, rtf, windows_dispatched, windows_completed } => fixed32_field(1, audio_s.bits)
            + fixed32_field(2, rtf.bits)
            + varint_field(3, windows_dispatched as nat)
            + varint_field(4, windows_completed as nat),
        ResponseView::BackOff { reason, retry_after_ms } => bytes_field(1, encode_utf8(reason)) + varint_field(2, retry_after_ms as nat),
    }
}

/// The bytes of a response: one length-delimited field.
pub open spec fn encoded_response(response: ResponseView) -> Seq<u8> {
    bytes_field(response_field(response) as nat, response_body(response))
}

/// Writes a response.
pub fn encode_response(response: Response) -> (out: Vec<u8>)
    ensures
        out@ == encoded_response(response@),
{
    let mut out: Vec<u8> = Vec::new();
    match response {
        Response::ServerHello(server) => {
            field_message(&mut out, 1, encode_server_hello(server).as_slice());
        },
        Response::Segment { text, begin, end } => {
            let mut msg: Vec<u8> = Vec::new();
            field_string(&mut msg, 1, text.as_str());
            field_fixed32(&mut msg, 2, begin);
            field_fixed32(&mut msg, 3, end);
            assert(msg@ =~= response_body(response@));
            field_message(&mut out, 2, msg.as_slice());
        },
        Response::Done { audio_s, rtf } => {
            let mut msg: Vec<u8> = Vec::new();
            field_fixed32(&mut msg, 1, audio_s);
            field_fixed32(&mut msg, 2, rtf);
            assert(msg@ =~= response_body(response@));
            field_message(&mut out, 3, msg.as_slice());
        },
        Response::Error { error } => {
            let mut msg: Vec<u8> = Vec::new();
            field_string(&mut msg, 1, error.as_str());
            assert(msg@ =~= response_body(response@));
            field_message(&mut out, 4, msg.as_slice());
        },
        Response::Cancelled { audio_s, rtf, windows_dispatched, windows_completed } => {
            let mut msg: Vec<u8> = Vec::new();
            field_fixed32(&mut msg, 1, audio_s);
            field_fixed32(&mut msg, 2, rtf);
            field_varint(&mut msg, 3, windows_dispatched);
            field_varint(&mut msg, 4, windows_completed);
            assert(msg@ =~= response_body(response@));
            field_message(&mut out, 5, msg.as_slice());
        },
        Response::BackOff { reason, retry_after_ms } => {
            let mut msg: Vec<u8> = Vec::new();
            field_string(&mut msg, 1, reason.as_str());
            field_varint(&mut msg, 2, retry_after_ms as u64);
            assert(msg@ =~= response_body(response@));
            field_message(&mut out, 6, msg.as_slice());
        },
    }
    assert(out@ =~= encoded_response(response@));
    out
}

} // verus!
