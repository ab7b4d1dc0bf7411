//! Laws of the protocol: a message that was written is read back as it was.
use vstd::prelude::*;
use vstd::utf8::*;

use crate::float_bits::{f32_zero, F32};
use crate::protocol::{
    AudioFormat, BackOffBody, BackOffBodyView, CancelledBody, ClientHello, ClientHelloView,
    DoneBody, ErrorBody, ErrorBodyView, FRAME_MAX_BYTES, ProtocolError, ResponseView, SegmentBody,
    SegmentBodyView, ServerHello, VadOptions, decoded_audio_format, decoded_back_off,
    decoded_cancelled, decoded_client_hello, decoded_done, decoded_error, decoded_response,
    decoded_segment, decoded_server_hello, decoded_vad_options, default_client_hello,
    empty_audio_format, empty_server_hello, empty_vad_options, encoded_audio_format,
    encoded_client_hello, encoded_response, encoded_server_hello, encoded_vad_options, flag,
    frame_round_trip, framed, opt_u32, opt_usize, optional_fixed32_field, optional_varint_field,
    response_body, response_field, unframed,
};
use crate::wire::{
    Message, WireError, bytes_field, bytes_field_round_trip, decoded, fixed32_field,
    fixed32_field_round_trip, holds_at, key_at, key_bytes, lemma_holds_parts,
    lemma_varint_at_bounds, string_field_round_trip, varint_field, varint_field_round_trip,
};

verus! {

proof fn lemma_whole(bytes: Seq<u8>)
    ensures
        holds_at(bytes, 0, bytes),
{
    assert(bytes.subrange(0, bytes.len() as int) =~= bytes);
}

/// What the fields from `pos` on make of a message.
#[verifier::opaque]
spec fn outcome<M: Message>(bytes: Seq<u8>, pos: int, message: M::V) -> Result<M::V, WireError> {
    decoded::<M>(bytes, pos, message)
}

/// One field further.
proof fn lemma_step<M: Message>(
    bytes: Seq<u8>,
    pos: int,
    message: M::V,
    field: u32,
    wire: u8,
    start: int,
    more: M::V,
    next: int,
)
    requires
        0 <= pos,
        key_at(bytes, pos) == Ok::<((u32, u8), int), WireError>(((field, wire), start)),
        M::merged(message, field, wire, bytes, start) == Ok::<(M::V, int), WireError>((more, next)),
    ensures
        outcome::<M>(bytes, pos, message) == outcome::<M>(bytes, next, more),
{
    reveal(outcome);
    lemma_varint_at_bounds(bytes, pos);
    M::merged_advances(message, field, wire, bytes, start);
}

/// An audio format that was written is read back.
pub proof fn audio_format_round_trip(format: AudioFormat)
    ensures
        decoded_audio_format(encoded_audio_format(format)) == Ok::<AudioFormat, WireError>(format),
{
    let sample_format = format.sample_format;
    assert((sample_format as u64) as i32 == sample_format) by (bit_vector);
    let f1 = varint_field(1, (format.sample_rate) as nat);
    let f2 = varint_field(2, (format.channels) as nat);
    let f3 = varint_field(3, (format.sample_format as u64) as nat);
    let s1 = f1;
    let s2 = s1 + f2;
    let s3 = s2 + f3;
    let bytes = s3;
    lemma_whole(bytes);
    lemma_holds_parts(bytes, 0, s2, f3);
    lemma_holds_parts(bytes, 0, s1, f2);
    let m0 = empty_audio_format();
    let m1 = AudioFormat { sample_rate: format.sample_rate, ..m0 };
    assert(outcome::<AudioFormat>(bytes, 0, m0) == outcome::<AudioFormat>(bytes, s1.len() as int, m1)) by {
        varint_field_round_trip(bytes, 0, 1, (format.sample_rate) as u64);
        lemma_step::<AudioFormat>(
            bytes,
            0,
            m0,
            1,
            0,
            key_bytes(1, 0).len() as int,
            m1,
            s1.len() as int,
        );
    }
    let m2 = AudioFormat { channels: format.channels, ..m1 };
    assert(outcome::<AudioFormat>(bytes, 0, m0) == outcome::<AudioFormat>(bytes, s2.len() as int, m2)) by {
        varint_field_round_trip(bytes, s1.len() as int, 2, (format.channels) as u64);
        lemma_step::<AudioFormat>(
            bytes,
            s1.len() as int,
            m1,
            2,
            0,
            s1.len() as int + key_bytes(2, 0).len() as int,
            m2,
            s2.len() as int,
        );
    }
    let m3 = AudioFormat { sample_format: format.sample_format, ..m2 };
    assert(outcome::<AudioFormat>(bytes, 0, m0) == outcome::<AudioFormat>(bytes, s3.len() as int, m3)) by {
        varint_field_round_trip(bytes, s2.len() as int, 3, (format.sample_format as u64) as u64);
        lemma_step::<AudioFormat>(
            bytes,
            s2.len() as int,
            m2,
            3,
            0,
            s2.len() as int + key_bytes(3, 0).len() as int,
            m3,
            s3.len() as int,
        );
    }
    reveal(outcome);
}

/// Detector settings that were written are read back, set or not set.
#[verifier::rlimit(60)]
#[verifier::spinoff_prover]
pub proof fn vad_options_round_trip(vad: VadOptions)
    ensures
        decoded_vad_options(encoded_vad_options(vad)) == Ok::<VadOptions, WireError>(vad),
{
    let f1 = optional_fixed32_field(1, vad.threshold);
    let f2 = optional_varint_field(2, opt_u32(vad.min_speech_ms));
    let f3 = optional_varint_field(3, opt_u32(vad.min_silence_ms));
    let f4 = optional_varint_field(4, opt_u32(vad.speech_pad_ms));
    let f5 = optional_varint_field(5, opt_usize(vad.window_samples));
    let s1 = f1;
    let s2 = s1 + f2;
    let s3 = s2 + f3;
    let s4 = s3 + f4;
    let s5 = s4 + f5;
    let bytes = s5;
    lemma_whole(bytes);
    lemma_holds_parts(bytes, 0, s4, f5);
    lemma_holds_parts(bytes, 0, s3, f4);
    lemma_holds_parts(bytes, 0, s2, f3);
    lemma_holds_parts(bytes, 0, s1, f2);
    let m0 = empty_vad_options();
    let m1 = VadOptions { threshold: vad.threshold, ..m0 };
    assert(outcome::<VadOptions>(bytes, 0, m0) == outcome::<VadOptions>(bytes, s1.len() as int, m1)) by {
        if let Some(value) = vad.threshold {
            fixed32_field_round_trip(bytes, 0, 1, value);
            lemma_step::<VadOptions>(
                bytes,
                0,
                m0,
                1,
                5,
                key_bytes(1, 5).len() as int,
                m1,
                s1.len() as int,
            );
        }
    }
    let m2 = VadOptions { min_speech_ms: vad.min_speech_ms, ..m1 };
    assert(outcome::<VadOptions>(bytes, 0, m0) == outcome::<VadOptions>(bytes, s2.len() as int, m2)) by {
        if let Some(value) = vad.min_speech_ms {
            varint_field_round_trip(bytes, s1.len() as int, 2, value as u64);
            lemma_step::<VadOptions>(
                bytes,
                s1.len() as int,
                m1,
                2,
                0,
                s1.len() as int + key_bytes(2, 0).len() as int,
                m2,
                s2.len() as int,
            );
        }
    }
    let m3 = VadOptions { min_silence_ms: vad.min_silence_ms, ..m2 };
    assert(outcome::<VadOptions>(bytes, 0, m0) == outcome::<VadOptions>(bytes, s3.len() as int, m3)) by {
        if let Some(value) = vad.min_silence_ms {
            varint_field_round_trip(bytes, s2.len() as int, 3, value as u64);
            lemma_step::<VadOptions>(
                bytes,
                s2.len() as int,
                m2,
                3,
                0,
                s2.len() as int + key_bytes(3, 0).len() as int,
                m3,
                s3.len() as int,
            );
        }
    }
    let m4 = VadOptions { speech_pad_ms: vad.speech_pad_ms, ..m3 };
    assert(outcome::<VadOptions>(bytes, 0, m0) == outcome::<VadOptions>(bytes, s4.len() as int, m4)) by {
        if let Some(value) = vad.speech_pad_ms {
            varint_field_round_trip(bytes, s3.len() as int, 4, value as u64);
            lemma_step::<VadOptions>(
                bytes,
                s3.len() as int,
                m3,
                4,
                0,
                s3.len() as int + key_bytes(4, 0).len() as int,
                m4,
                s4.len() as int,
            );
        }
    }
    let m5 = VadOptions { window_samples: vad.window_samples, ..m4 };
    assert(outcome::<VadOptions>(bytes, 0, m0) == outcome::<VadOptions>(bytes, s5.len() as int, m5)) by {
        if let Some(value) = vad.window_samples {
            varint_field_round_trip(bytes, s4.len() as int, 5, value as u64);
            lemma_step::<VadOptions>(
                bytes,
                s4.len() as int,
                m4,
                5,
                0,
                s4.len() as int + key_bytes(5, 0).len() as int,
                m5,
                s5.len() as int,
            );
        }
    }
    reveal(outcome);
}

/// A client hello that names a model is read back as it was written.
#[verifier::rlimit(60)]
#[verifier::spinoff_prover]
pub proof fn client_hello_round_trip(hello: ClientHelloView)
    requires
        hello.model.len() > 0,
        encoded_client_hello(hello).len() <= usize::MAX,
    ensures
        decoded_client_hello(encoded_client_hello(hello)) == Ok::<ClientHelloView, ProtocolError>(hello),
{
    audio_format_round_trip(hello.audio_format);
    vad_options_round_trip(hello.vad);
    let f1 = bytes_field(1, encode_utf8(hello.model));
    let f2 = bytes_field(2, encode_utf8(hello.mode));
    let f3 = bytes_field(3, encode_utf8(hello.lang));
    let f4 = bytes_field(4, encode_utf8(hello.task));
    let f5 = varint_field(5, (hello.max_new_tokens) as nat);
    let f6 = varint_field(6, (hello.beam_size) as nat);
    let f7 = varint_field(7, (flag(hello.notimestamps)) as nat);
    let f8 = bytes_field(8, encode_utf8(hello.suppress_tokens));
    let f9 = bytes_field(9, encoded_audio_format(hello.audio_format));
    let f10 = bytes_field(10, encoded_vad_options(hello.vad));
    let s1 = f1;
    let s2 = s1 + f2;
    let s3 = s2 + f3;
    let s4 = s3 + f4;
    let s5 = s4 + f5;
    let s6 = s5 + f6;
    let s7 = s6 + f7;
    let s8 = s7 + f8;
    let s9 = s8 + f9;
    let s10 = s9 + f10;
    let bytes = s10;
    lemma_whole(bytes);
    lemma_holds_parts(bytes, 0, s9, f10);
    lemma_holds_parts(bytes, 0, s8, f9);
    lemma_holds_parts(bytes, 0, s7, f8);
    lemma_holds_parts(bytes, 0, s6, f7);
    lemma_holds_parts(bytes, 0, s5, f6);
    lemma_holds_parts(bytes, 0, s4, f5);
    lemma_holds_parts(bytes, 0, s3, f4);
    lemma_holds_parts(bytes, 0, s2, f3);
    lemma_holds_parts(bytes, 0, s1, f2);
    let m0 = default_client_hello();
    let m1 = ClientHelloView { model: hello.model, ..m0 };
    assert(outcome::<ClientHello>(bytes, 0, m0) == outcome::<ClientHello>(bytes, s1.len() as int, m1)) by {
        string_field_round_trip(bytes, 0, 1, hello.model);
        lemma_step::<ClientHello>(
            bytes,
            0,
            m0,
            1,
            2,
            key_bytes(1, 2).len() as int,
            m1,
            s1.len() as int,
        );
    }
    let m2 = ClientHelloView { mode: hello.mode, ..m1 };
    assert(outcome::<ClientHello>(bytes, 0, m0) == outcome::<ClientHello>(bytes, s2.len() as int, m2)) by {
        string_field_round_trip(bytes, s1.len() as int, 2, hello.mode);
        lemma_step::<ClientHello>(
            bytes,
            s1.len() as int,
            m1,
            2,
            2,
            s1.len() as int + key_bytes(2, 2).len() as int,
            m2,
            s2.len() as int,
        );
    }
    let m3 = ClientHelloView { lang: hello.lang, ..m2 };
    assert(outcome::<ClientHello>(bytes, 0, m0) == outcome::<ClientHello>(bytes, s3.len() as int, m3)) by {
        string_field_round_trip(bytes, s2.len() as int, 3, hello.lang);
        lemma_step::<ClientHello>(
            bytes,
            s2.len() as int,
            m2,
            3,
            2,
            s2.len() as int + key_bytes(3, 2).len() as int,
            m3,
            s3.len() as int,
        );
    }
    let m4 = ClientHelloView { task: hello.task, ..m3 };
    assert(outcome::<ClientHello>(bytes, 0, m0) == outcome::<ClientHello>(bytes, s4.len() as int, m4)) by {
        string_field_round_trip(bytes, s3.len() as int, 4, hello.task);
        lemma_step::<ClientHello>(
            bytes,
            s3.len() as int,
            m3,
            4,
            2,
            s3.len() as int + key_bytes(4, 2).len() as int,
            m4,
            s4.len() as int,
        );
    }
    let m5 = ClientHelloView { max_new_tokens: hello.max_new_tokens, ..m4 };
    assert(outcome::<ClientHello>(bytes, 0, m0) == outcome::<ClientHello>(bytes, s5.len() as int, m5)) by {
        varint_field_round_trip(bytes, s4.len() as int, 5, (hello.max_new_tokens) as u64);
        lemma_step::<ClientHello>(
            bytes,
            s4.len() as int,
            m4,
            5,
            0,
            s4.len() as int + key_bytes(5, 0).len() as int,
            m5,
            s5.len() as int,
        );
    }
    let m6 = ClientHelloView { beam_size: hello.beam_size, ..m5 };
    assert(outcome::<ClientHello>(bytes, 0, m0) == outcome::<ClientHello>(bytes, s6.len() as int, m6)) by {
        varint_field_round_trip(bytes, s5.len() as int, 6, (hello.beam_size) as u64);
        lemma_step::<ClientHello>(
            bytes,
            s5.len() as int,
            m5,
            6,
            0,
            s5.len() as int + key_bytes(6, 0).len() as int,
            m6,
            s6.len() as int,
        );
    }
    let m7 = ClientHelloView { notimestamps: hello.notimestamps, ..m6 };
    assert(outcome::<ClientHello>(bytes, 0, m0) == outcome::<ClientHello>(bytes, s7.len() as int, m7)) by {
        varint_field_round_trip(bytes, s6.len() as int, 7, (flag(hello.notimestamps)) as u64);
        lemma_step::<ClientHello>(
            bytes,
            s6.len() as int,
            m6,
            7,
            0,
            s6.len() as int + key_bytes(7, 0).len() as int,
            m7,
            s7.len() as int,
        );
    }
    let m8 = ClientHelloView { suppress_tokens: hello.suppress_tokens, ..m7 };
    assert(outcome::<ClientHello>(bytes, 0, m0) == outcome::<ClientHello>(bytes, s8.len() as int, m8)) by {
        string_field_round_trip(bytes, s7.len() as int, 8, hello.suppress_tokens);
        lemma_step::<ClientHello>(
            bytes,
            s7.len() as int,
            m7,
            8,
            2,
            s7.len() as int + key_bytes(8, 2).len() as int,
            m8,
            s8.len() as int,
        );
    }
    let m9 = ClientHelloView { audio_format: hello.audio_format, ..m8 };
    assert(outcome::<ClientHello>(bytes, 0, m0) == outcome::<ClientHello>(bytes, s9.len() as int, m9)) by {
        bytes_field_round_trip(bytes, s8.len() as int, 9, encoded_audio_format(hello.audio_format));
        lemma_step::<ClientHello>(
            bytes,
            s8.len() as int,
            m8,
            9,
            2,
            s8.len() as int + key_bytes(9, 2).len() as int,
            m9,
            s9.len() as int,
        );
    }
    let m10 = ClientHelloView { vad: hello.vad, ..m9 };
    assert(outcome::<ClientHello>(bytes, 0, m0) == outcome::<ClientHello>(bytes, s10.len() as int, m10)) by {
        bytes_field_round_trip(bytes, s9.len() as int, 10, encoded_vad_options(hello.vad));
        lemma_step::<ClientHello>(
            bytes,
            s9.len() as int,
            m9,
            10,
            2,
            s9.len() as int + key_bytes(10, 2).len() as int,
            m10,
            s10.len() as int,
        );
    }
    reveal(outcome);
}

/// A server hello that was written is read back.
pub proof fn server_hello_round_trip(server: ServerHello)
    requires
        encoded_server_hello(server).len() <= usize::MAX,
    ensures
        decoded_server_hello(encoded_server_hello(server)) == Ok::<ServerHello, WireError>(server),
{
    audio_format_round_trip(server.audio_format);
    let f1 = bytes_field(1, encoded_audio_format(server.audio_format));
    let f2 = varint_field(2, (server.ring_capacity_bytes) as nat);
    let f3 = varint_field(3, (server.ring_header_bytes) as nat);
    let s1 = f1;
    let s2 = s1 + f2;
    let s3 = s2 + f3;
    let bytes = s3;
    lemma_whole(bytes);
    lemma_holds_parts(bytes, 0, s2, f3);
    lemma_holds_parts(bytes, 0, s1, f2);
    let m0 = empty_server_hello();
    let m1 = ServerHello { audio_format: server.audio_format, ..m0 };
    assert(outcome::<ServerHello>(bytes, 0, m0) == outcome::<ServerHello>(bytes, s1.len() as int, m1)) by {
        bytes_field_round_trip(bytes, 0, 1, encoded_audio_format(server.audio_format));
        lemma_step::<ServerHello>(
            bytes,
            0,
            m0,
            1,
            2,
            key_bytes(1, 2).len() as int,
            m1,
            s1.len() as int,
        );
    }
    let m2 = ServerHello { ring_capacity_bytes: server.ring_capacity_bytes, ..m1 };
    assert(outcome::<ServerHello>(bytes, 0, m0) == outcome::<ServerHello>(bytes, s2.len() as int, m2)) by {
        varint_field_round_trip(bytes, s1.len() as int, 2, (server.ring_capacity_bytes) as u64);
        lemma_step::<ServerHello>(
            bytes,
            s1.len() as int,
            m1,
            2,
            0,
            s1.len() as int + key_bytes(2, 0).len() as int,
            m2,
            s2.len() as int,
        );
    }
    let m3 = ServerHello { ring_header_bytes: server.ring_header_bytes, ..m2 };
    assert(outcome::<ServerHello>(bytes, 0, m0) == outcome::<ServerHello>(bytes, s3.len() as int, m3)) by {
        varint_field_round_trip(bytes, s2.len() as int, 3, (server.ring_header_bytes) as u64);
        lemma_step::<ServerHello>(
            bytes,
            s2.len() as int,
            m2,
            3,
            0,
            s2.len() as int + key_bytes(3, 0).len() as int,
            m3,
            s3.len() as int,
        );
    }
    reveal(outcome);
}

/// The fields of a segment response that were written are read back.
pub proof fn segment_round_trip(text: Seq<char>, begin: F32, end: F32)
    requires
        response_body((ResponseView::Segment { text, begin, end })).len() <= usize::MAX,
    ensures
        decoded_segment(response_body((ResponseView::Segment { text, begin, end })))
            == Ok::<SegmentBodyView, WireError>(SegmentBodyView { text, begin, end }),
{
    let f1 = bytes_field(1, encode_utf8(text));
    let f2 = fixed32_field(2, begin.bits);
    let f3 = fixed32_field(3, end.bits);
    let s1 = f1;
    let s2 = s1 + f2;
    let s3 = s2 + f3;
    let bytes = s3;
    lemma_whole(bytes);
    lemma_holds_parts(bytes, 0, s2, f3);
    lemma_holds_parts(bytes, 0, s1, f2);
    let m0 = SegmentBodyView { text: Seq::empty(), begin: f32_zero(), end: f32_zero() };
    let m1 = SegmentBodyView { text: text, ..m0 };
    assert(outcome::<SegmentBody>(bytes, 0, m0) == outcome::<SegmentBody>(bytes, s1.len() as int, m1)) by {
        string_field_round_trip(bytes, 0, 1, text);
        lemma_step::<SegmentBody>(
            bytes,
            0,
            m0,
            1,
            2,
            key_bytes(1, 2).len() as int,
            m1,
            s1.len() as int,
        );
    }
    let m2 = SegmentBodyView { begin: begin, ..m1 };
    assert(outcome::<SegmentBody>(bytes, 0, m0) == outcome::<SegmentBody>(bytes, s2.len() as int, m2)) by {
        fixed32_field_round_trip(bytes, s1.len() as int, 2, begin);
        lemma_step::<SegmentBody>(
            bytes,
            s1.len() as int,
            m1,
            2,
            5,
            s1.len() as int + key_bytes(2, 5).len() as int,
            m2,
            s2.len() as int,
        );
    }
    let m3 = SegmentBodyView { end: end, ..m2 };
    assert(outcome::<SegmentBody>(bytes, 0, m0) == outcome::<SegmentBody>(bytes, s3.len() as int, m3)) by {
        fixed32_field_round_trip(bytes, s2.len() as int, 3, end);
        lemma_step::<SegmentBody>(
            bytes,
            s2.len() as int,
            m2,
            3,
            5,
            s2.len() as int + key_bytes(3, 5).len() as int,
            m3,
            s3.len() as int,
        );
    }
    reveal(outcome);
}

/// The fields of a done response that were written are read back.
pub proof fn done_round_trip(audio_s: F32, rtf: F32)
    requires
        response_body((ResponseView::Done { audio_s, rtf })).len() <= usize::MAX,
    ensures
        decoded_done(response_body((ResponseView::Done { audio_s, rtf })))
            == Ok::<DoneBody, WireError>(DoneBody { audio_s, rtf }),
{
    let f1 = fixed32_field(1, audio_s.bits);
    let f2 = fixed32_field(2, rtf.bits);
    let s1 = f1;
    let s2 = s1 + f2;
    let bytes = s2;
    lemma_whole(bytes);
    lemma_holds_parts(bytes, 0, s1, f2);
    let m0 = DoneBody { audio_s: f32_zero(), rtf: f32_zero() };
    let m1 = DoneBody { audio_s: audio_s, ..m0 };
    assert(outcome::<DoneBody>(bytes, 0, m0) == outcome::<DoneBody>(bytes, s1.len() as int, m1)) by {
        fixed32_field_round_trip(bytes, 0, 1, audio_s);
        lemma_step::<DoneBody>(
            bytes,
            0,
            m0,
            1,
            5,
            key_bytes(1, 5).len() as int,
            m1,
            s1.len() as int,
        );
    }
    let m2 = DoneBody { rtf: rtf, ..m1 };
    assert(outcome::<DoneBody>(bytes, 0, m0) == outcome::<DoneBody>(bytes, s2.len() as int, m2)) by {
        fixed32_field_round_trip(bytes, s1.len() as int, 2, rtf);
        lemma_step::<DoneBody>(
            bytes,
            s1.len() as int,
            m1,
            2,
            5,
            s1.len() as int + key_bytes(2, 5).len() as int,
            m2,
            s2.len() as int,
        );
    }
    reveal(outcome);
}

/// The fields of a error response that were written are read back.
pub proof fn error_round_trip(error: Seq<char>)
    requires
        response_body((ResponseView::Error { error })).len() <= usize::MAX,
    ensures
        decoded_error(response_body((ResponseView::Error { error })))
            == Ok::<ErrorBodyView, WireError>(ErrorBodyView { error }),
{
    let f1 = bytes_field(1, encode_utf8(error));
    let s1 = f1;
    let bytes = s1;
    lemma_whole(bytes);
    let m0 = ErrorBodyView { error: Seq::empty() };
    let m1 = ErrorBodyView { error: error, ..m0 };
    assert(outcome::<ErrorBody>(bytes, 0, m0) == outcome::<ErrorBody>(bytes, s1.len() as int, m1)) by {
        string_field_round_trip(bytes, 0, 1, error);
        lemma_step::<ErrorBody>(
            bytes,
            0,
            m0,
            1,
            2,
            key_bytes(1, 2).len() as int,
            m1,
            s1.len() as int,
        );
    }
    reveal(outcome);
}

/// The fields of a cancelled response that were written are read back.
pub proof fn cancelled_round_trip(audio_s: F32, rtf: F32, windows_dispatched: u64, windows_completed: u64)
    requires
        response_body((ResponseView::Cancelled { audio_s, rtf, windows_dispatched, windows_completed })).len() <= usize::MAX,
    ensures
        decoded_cancelled(response_body((ResponseView::Cancelled { audio_s, rtf, windows_dispatched, windows_completed })))
            == Ok::<CancelledBody, WireError>(CancelledBody { audio_s, rtf, windows_dispatched, windows_completed }),
{
    let f1 = fixed32_field(1, audio_s.bits);
    let f2 = fixed32_field(2, rtf.bits);
    let f3 = varint_field(3, (windows_dispatched) as nat);
    let f4 = varint_field(4, (windows_completed) as nat);
    let s1 = f1;
    let s2 = s1 + f2;
    let s3 = s2 + f3;
    let s4 = s3 + f4;
    let bytes = s4;
    lemma_whole(bytes);
    lemma_holds_parts(bytes, 0, s3, f4);
    lemma_holds_parts(bytes, 0, s2, f3);
    lemma_holds_parts(bytes, 0, s1, f2);
    let m0 = CancelledBody { audio_s: f32_zero(), rtf: f32_zero(), windows_dispatched: 0, windows_completed: 0 };
    let m1 = CancelledBody { audio_s: audio_s, ..m0 };
    assert(outcome::<CancelledBody>(bytes, 0, m0) == outcome::<CancelledBody>(bytes, s1.len() as int, m1)) by {
        fixed32_field_round_trip(bytes, 0, 1, audio_s);
        lemma_step::<CancelledBody>(
            bytes,
            0,
            m0,
            1,
            5,
            key_bytes(1, 5).len() as int,
            m1,
            s1.len() as int,
        );
    }
    let m2 = CancelledBody { rtf: rtf, ..m1 };
    assert(outcome::<CancelledBody>(bytes, 0, m0) == outcome::<CancelledBody>(bytes, s2.len() as int, m2)) by {
        fixed32_field_round_trip(bytes, s1.len() as int, 2, rtf);
        lemma_step::<CancelledBody>(
            bytes,
            s1.len() as int,
            m1,
            2,
            5,
            s1.len() as int + key_bytes(2, 5).len() as int,
            m2,
            s2.len() as int,
        );
    }
    let m3 = CancelledBody { windows_dispatched: windows_dispatched, ..m2 };
    assert(outcome::<CancelledBody>(bytes, 0, m0) == outcome::<CancelledBody>(bytes, s3.len() as int, m3)) by {
        varint_field_round_trip(bytes, s2.len() as int, 3, (windows_dispatched) as u64);
        lemma_step::<CancelledBody>(
            bytes,
            s2.len() as int,
            m2,
            3,
            0,
            s2.len() as int + key_bytes(3, 0).len() as int,
            m3,
            s3.len() as int,
        );
    }
    let m4 = CancelledBody { windows_completed: windows_completed, ..m3 };
    assert(outcome::<CancelledBody>(bytes, 0, m0) == outcome::<CancelledBody>(bytes, s4.len() as int, m4)) by {
        varint_field_round_trip(bytes, s3.len() as int, 4, (windows_completed) as u64);
        lemma_step::<CancelledBody>(
            bytes,
            s3.len() as int,
            m3,
            4,
            0,
            s3.len() as int + key_bytes(4, 0).len() as int,
            m4,
            s4.len() as int,
        );
    }
    reveal(outcome);
}

/// The fields of a back-off response that were written are read back.
pub proof fn back_off_round_trip(reason: Seq<char>, retry_after_ms: u32)
    requires
        response_body((ResponseView::BackOff { reason, retry_after_ms })).len() <= usize::MAX,
    ensures
        decoded_back_off(response_body((ResponseView::BackOff { reason, retry_after_ms })))
            == Ok::<BackOffBodyView, WireError>(BackOffBodyView { reason, retry_after_ms }),
{
    let f1 = bytes_field(1, encode_utf8(reason));
    let f2 = varint_field(2, (retry_after_ms) as nat);
    let s1 = f1;
    let s2 = s1 + f2;
    let bytes = s2;
    lemma_whole(bytes);
    lemma_holds_parts(bytes, 0, s1, f2);
    let m0 = BackOffBodyView { reason: Seq::empty(), retry_after_ms: 0 };
    let m1 = BackOffBodyView { reason: reason, ..m0 };
    assert(outcome::<BackOffBody>(bytes, 0, m0) == outcome::<BackOffBody>(bytes, s1.len() as int, m1)) by {
        string_field_round_trip(bytes, 0, 1, reason);
        lemma_step::<BackOffBody>(
            bytes,
            0,
            m0,
            1,
            2,
            key_bytes(1, 2).len() as int,
            m1,
            s1.len() as int,
        );
    }
    let m2 = BackOffBodyView { retry_after_ms: retry_after_ms, ..m1 };
    assert(outcome::<BackOffBody>(bytes, 0, m0) == outcome::<BackOffBody>(bytes, s2.len() as int, m2)) by {
        varint_field_round_trip(bytes, s1.len() as int, 2, (retry_after_ms) as u64);
        lemma_step::<BackOffBody>(
            bytes,
            s1.len() as int,
            m1,
            2,
            0,
            s1.len() as int + key_bytes(2, 0).len() as int,
            m2,
            s2.len() as int,
        );
    }
    reveal(outcome);
}

/// A response of any kind that was written is read back as it was.
pub proof fn response_round_trip(response: ResponseView)
    requires
        encoded_response(response).len() <= usize::MAX,
    ensures
        decoded_response(encoded_response(response)) == Ok::<ResponseView, ProtocolError>(response),
{
    let bytes = encoded_response(response);
    lemma_whole(bytes);
    bytes_field_round_trip(bytes, 0, response_field(response), response_body(response));
    match response {
        ResponseView::ServerHello(server) => server_hello_round_trip(server),
        ResponseView::Segment { text, begin, end } => segment_round_trip(text, begin, end),
        ResponseView::Done { audio_s, rtf } => done_round_trip(audio_s, rtf),
        ResponseView::Error { error } => error_round_trip(error),
        ResponseView::Cancelled { audio_s, rtf, windows_dispatched, windows_completed } => {
            cancelled_round_trip(audio_s, rtf, windows_dispatched, windows_completed)
        },
        ResponseView::BackOff { reason, retry_after_ms } => back_off_round_trip(reason, retry_after_ms),
    }
}

/// A response that fits in a frame goes through a stream unchanged: what is written by
/// `write_response` is what `read_frame` and `decode_response` give back.
pub proof fn framed_response_round_trip(response: ResponseView, rest: Seq<u8>)
    requires
        encoded_response(response).len() <= FRAME_MAX_BYTES,
    ensures
        unframed(framed(encoded_response(response)) + rest) == Ok::<
            (Seq<u8>, Seq<u8>),
            ProtocolError,
        >((encoded_response(response), rest)),
        decoded_response(encoded_response(response)) == Ok::<ResponseView, ProtocolError>(response),
{
    frame_round_trip(encoded_response(response), rest);
    response_round_trip(response);
}

} // verus!
