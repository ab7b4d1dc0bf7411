//! Laws of texts and bytes: what they stand for, whoever wrote them.
use vstd::prelude::*;
use vstd::utf8::*;

use crate::client::{gathered, pcm_bytes, spoken, TranscriptSegment};
use crate::daemon::{line_len, pcm_length, samples_of};
use crate::protocol::{
    encoded_audio_format, encoded_client_hello, encoded_response, encoded_vad_options, framed,
    ClientHelloView, Response, ResponseView, VadOptions,
};
use crate::text::{
    decimal, denotes_u32, digits_value, is_digit, is_space, number_fault, occurs, occurs_at,
    outgrows_u32, split, trimmed, unsigned_digits, NumberFault,
};
use crate::wire::{
    holds_at, le32, le64, lemma_holds_parts, skip_at, varint_bytes, varint_round_trip, WireError,
};

verus! {

////////////////////////////////////////////////////////////////////////////////
// Texts
////////////////////////////////////////////////////////////////////////////////

/// Trimming takes white space off both ends and nothing else: what is left is a part of the text that
/// neither begins nor ends with white space, and before and behind it there is only white space.
pub proof fn trimming_takes_white_space_off(text: Seq<char>) -> (at: (int, int))
    ensures
        0 <= at.0 <= at.1 <= text.len(),
        trimmed(text) == text.subrange(at.0, at.1),
        forall|i: int| 0 <= i < at.0 || at.1 <= i < text.len() ==> is_space(#[trigger] text[i]),
        at.0 < at.1 ==> !is_space(text[at.0]) && !is_space(text[at.1 - 1]),
{
    let start = lemma_start(text);
    let rest = text.skip(start);
    let end = lemma_end(rest);
    assert(rest.take(end) =~= text.subrange(start, start + end));
    assert forall|i: int| 0 <= i < start || start + end <= i < text.len() implies is_space(
        #[trigger] text[i],
    ) by {
        if i >= start + end {
            assert(rest[i - start] == text[i]);
        }
    }
    if 0 < end {
        assert(rest[end - 1] == text[start + end - 1]);
    }
    (start, start + end)
}

proof fn lemma_start(text: Seq<char>) -> (start: int)
    ensures
        0 <= start <= text.len(),
        crate::text::trim_start(text) == text.skip(start),
        forall|i: int| 0 <= i < start ==> is_space(#[trigger] text[i]),
        start < text.len() ==> !is_space(text[start]),
    decreases text.len(),
{
    if text.len() > 0 && is_space(text[0]) {
        let rest = text.drop_first();
        let start = lemma_start(rest) + 1;
        assert(rest.skip(start - 1) =~= text.skip(start));
        assert forall|i: int| 0 <= i < start implies is_space(#[trigger] text[i]) by {
            if i > 0 {
                assert(rest[i - 1] == text[i]);
            }
        }
        if start < text.len() {
            assert(rest[start - 1] == text[start]);
        }
        start
    } else {
        assert(text.skip(0) =~= text);
        0
    }
}

proof fn lemma_end(text: Seq<char>) -> (end: int)
    ensures
        0 <= end <= text.len(),
        crate::text::trim_end(text) == text.take(end),
        forall|i: int| end <= i < text.len() ==> is_space(#[trigger] text[i]),
        end > 0 ==> !is_space(text[end - 1]),
    decreases text.len(),
{
    if text.len() > 0 && is_space(text.last()) {
        let rest = text.drop_last();
        let end = lemma_end(rest);
        assert(rest.take(end) =~= text.take(end));
        assert forall|i: int| end <= i < text.len() implies is_space(#[trigger] text[i]) by {
            if i < rest.len() {
                assert(rest[i] == text[i]);
            }
        }
        end
    } else {
        assert(text.take(text.len() as int) =~= text);
        text.len() as int
    }
}

/// A number that is written in decimal is read back: what is written are digits, it stands for the
/// number, and it has no needless zero in front.
pub proof fn decimals_are_read_back(n: nat)
    ensures
        decimal(n).len() > 0,
        forall|i: int| 0 <= i < decimal(n).len() ==> 48 <= (#[trigger] decimal(n)[i]) as u32 <= 57,
        digits_value(decimal(n)) == n,
        n > 0 ==> decimal(n)[0] as u32 != 48,
        n <= u32::MAX ==> denotes_u32(decimal(n)),
    decreases n,
{
    let d = (48 + n % 10) as char;
    assert(d as u32 == 48 + n % 10);
    if n >= 10 {
        decimals_are_read_back(n / 10);
        assert(decimal(n).drop_last() =~= decimal(n / 10));
        assert(decimal(n)[0] == decimal(n / 10)[0]);
        assert forall|i: int| 0 <= i < decimal(n).len() implies 48 <= (
        #[trigger] decimal(n)[i]) as u32 <= 57 by {
            if i < decimal(n / 10).len() {
                assert(decimal(n)[i] == decimal(n / 10)[i]);
            }
        }
    } else {
        assert(decimal(n).drop_last() =~= Seq::<char>::empty());
        reveal_with_fuel(digits_value, 2);
    }
    assert(decimal(n)[0] as u32 != 43);
    assert(unsigned_digits(decimal(n)) == decimal(n));
    assert forall|i: int| 0 <= i < decimal(n).len() implies is_digit(#[trigger] decimal(n)[i]) by {}
}

/// Digits are read from the left, each worth ten times the one behind it.
pub proof fn digits_are_tens(text: Seq<char>, digit: char)
    requires
        48 <= digit as u32 <= 57,
    ensures
        digits_value(text.push(digit)) == 10 * digits_value(text) + (digit as u32 - 48),
        digits_value(Seq::empty()) == 0,
{
    assert(text.push(digit).drop_last() =~= text);
}

/// A text is split at each separator and nowhere else: a text without one is a single piece, and
/// the pieces of two texts with a separator between them are the pieces of the first and then those
/// of the second.
pub proof fn texts_are_split_at_separators(first: Seq<char>, second: Seq<char>, sep: char)
    ensures
        split(first.push(sep) + second, sep) == split(first, sep) + split(second, sep),
        !first.contains(sep) ==> split(first, sep) == seq![first],
    decreases second.len(),
{
    lemma_whole(first, sep);
    let text = first.push(sep) + second;
    lemma_split_some(first, sep);
    if second.len() == 0 {
        assert(text =~= first.push(sep));
        assert(text.drop_last() =~= first);
        assert(split(text, sep) =~= split(first, sep) + split(second, sep));
    } else {
        let less = second.drop_last();
        texts_are_split_at_separators(first, less, sep);
        assert(text.drop_last() =~= first.push(sep) + less);
        assert(text.last() == second.last());
        lemma_split_some(less, sep);
        let a = split(first, sep);
        let b = split(less, sep);
        if second.last() == sep {
            assert(split(text, sep) =~= a + split(second, sep));
        } else {
            assert((a + b).drop_last() =~= a + b.drop_last());
            assert((a + b).last() == b.last());
            assert(split(text, sep) =~= a + split(second, sep));
        }
    }
}

proof fn lemma_split_some(text: Seq<char>, sep: char)
    ensures
        split(text, sep).len() > 0,
    decreases text.len(),
{
    if text.len() > 0 {
        lemma_split_some(text.drop_last(), sep);
    }
}

proof fn lemma_whole(text: Seq<char>, sep: char)
    ensures
        !text.contains(sep) ==> split(text, sep) == seq![text],
    decreases text.len(),
{
    if text.len() > 0 && !text.contains(sep) {
        let less = text.drop_last();
        assert(text.last() != sep) by {
            assert(text[text.len() - 1] == text.last());
        }
        assert(!less.contains(sep)) by {
            if less.contains(sep) {
                let i = choose|i: int| 0 <= i < less.len() && less[i] == sep;
                assert(text[i] == sep);
            }
        }
        lemma_whole(less, sep);
        assert(less.push(text.last()) =~= text);
        assert(split(text, sep) =~= seq![text]);
    } else if text.len() == 0 {
        assert(text =~= Seq::<char>::empty());
        assert(split(text, sep) =~= seq![text]);
    }
}

/// What segments say is put together in their order: what a list says is what its first part says,
/// followed by what the rest says, and a single one says its text with a space behind it.
pub proof fn transcripts_are_in_order(
    first: Seq<TranscriptSegment>,
    second: Seq<TranscriptSegment>,
    one: TranscriptSegment,
)
    ensures
        spoken(first + second) == spoken(first) + spoken(second),
        spoken(seq![one]) == one.text@ + seq![' '],
    decreases second.len(),
{
    if second.len() == 0 {
        assert(first + second =~= first);
        assert(spoken(first) + spoken(second) =~= spoken(first));
    } else {
        transcripts_are_in_order(first, second.drop_last(), one);
        assert((first + second).drop_last() =~= first + second.drop_last());
        assert(spoken(first + second) =~= spoken(first) + spoken(second));
    }
    reveal_strlit(" ");
    reveal_with_fuel(spoken, 2);
    assert(seq![one].drop_last() =~= Seq::<TranscriptSegment>::empty());
    assert(spoken(seq![one]) =~= one.text@ + seq![' ']);
}

/// A client gathers each segment that it is told of, once and in order, with its text and its times,
/// and nothing else.
pub proof fn each_segment_is_gathered_once(responses: Seq<Response>, segments: Seq<TranscriptSegment>)
    requires
        gathered(responses, segments),
    ensures
        ({
            let told = responses.filter(|r: Response| r is Segment);
            &&& segments.len() == told.len()
            &&& forall|k: int|
                0 <= k < told.len() ==> {
                    &&& (#[trigger] told[k]) matches Response::Segment { text, begin, end }
                    &&& segments[k].text@ == text@
                    &&& segments[k].start_sec == begin
                    &&& segments[k].end_sec == end
                }
        }),
    decreases responses.len(),
{
    reveal(Seq::filter);
    let is_segment = |r: Response| r is Segment;
    let told = responses.filter(is_segment);
    if responses.len() > 0 {
        let rest = responses.drop_last();
        let before = rest.filter(is_segment);
        match responses.last() {
            Response::Segment { text, begin, end } => {
                let fewer = segments.drop_last();
                each_segment_is_gathered_once(rest, fewer);
                assert forall|k: int| 0 <= k < told.len() implies {
                    &&& (#[trigger] told[k]) matches Response::Segment { text, begin, end }
                    &&& segments[k].text@ == text@
                    &&& segments[k].start_sec == begin
                    &&& segments[k].end_sec == end
                } by {
                    if k < before.len() {
                        assert(told[k] == before[k]);
                        assert(segments[k] == fewer[k]);
                    }
                }
            },
            _ => {
                each_segment_is_gathered_once(rest, segments);
            },
        }
    }
}

////////////////////////////////////////////////////////////////////////////////
// Numbers in bytes
////////////////////////////////////////////////////////////////////////////////

/// What bytes are worth whose lowest seven bits are digits, the least significant first.
pub open spec fn worth(bytes: Seq<u8>) -> int
    decreases bytes.len(),
{
    if bytes.len() == 0 {
        0
    } else {
        bytes[0] % 128 + 128 * worth(bytes.drop_first())
    }
}

/// A number of variable length is worth what it was written for. All its bytes but the last have the
/// high bit set, and it is no longer than needed.
pub proof fn varints_are_worth_their_number(value: nat)
    ensures
        ({
            let bytes = varint_bytes(value);
            &&& bytes.len() > 0
            &&& worth(bytes) == value
            &&& forall|i: int| 0 <= i < bytes.len() - 1 ==> (#[trigger] bytes[i]) >= 128
            &&& bytes.last() < 128
            &&& bytes.len() > 1 ==> bytes.last() > 0
        }),
    decreases value,
{
    let bytes = varint_bytes(value);
    if value < 128 {
        reveal_with_fuel(worth, 2);
        assert(bytes.drop_first() =~= Seq::<u8>::empty());
    } else {
        let rest = varint_bytes(value / 128);
        varints_are_worth_their_number(value / 128);
        assert(bytes.drop_first() =~= rest);
        assert(bytes.last() == rest.last());
        assert forall|i: int| 0 <= i < bytes.len() - 1 implies (#[trigger] bytes[i]) >= 128 by {
            if i > 0 {
                assert(bytes[i] == rest[i - 1]);
            }
        }
        if rest.len() == 1 {
            assert(worth(rest) == rest[0] % 128 + 128 * worth(rest.drop_first()));
            assert(worth(rest.drop_first()) == 0) by {
                assert(rest.drop_first().len() == 0);
            }
        }
    }
}

/// Numbers of fixed size have their least significant byte first.
pub proof fn fixed_numbers_begin_with_the_low_byte(small: u32, large: u64)
    ensures
        le32(small).len() == 4,
        le32(small)[0] + 256 * le32(small)[1] + 65_536 * le32(small)[2] + 16_777_216 * le32(small)[3]
            == small,
        le64(large).len() == 8,
        le64(large)[0] + 256 * le64(large)[1] + 65_536 * le64(large)[2] + 16_777_216 * le64(large)[3]
            + 0x1_0000_0000 * (le64(large)[4] + 256 * le64(large)[5] + 65_536 * le64(large)[6]
            + 16_777_216 * le64(large)[7]) == large,
{
    let low = (large % 0x1_0000_0000) as u32;
    let high = (large / 0x1_0000_0000) as u32;
    lemma_four(small);
    lemma_four(low);
    lemma_four(high);
    let b = le64(large);
    assert(b[0] == le32(low)[0] && b[1] == le32(low)[1] && b[2] == le32(low)[2] && b[3] == le32(
        low,
    )[3]);
    assert(b[4] == le32(high)[0] && b[5] == le32(high)[1] && b[6] == le32(high)[2] && b[7] == le32(
        high,
    )[3]);
}

proof fn lemma_four(value: u32)
    ensures
        le32(value).len() == 4,
        le32(value)[0] + 256 * le32(value)[1] + 65_536 * le32(value)[2] + 16_777_216 * le32(value)[3]
            == value,
{
}

/// Samples are two bytes each, the low one first, and the high one carries the sign.
pub proof fn samples_begin_with_the_low_byte(pcm: Seq<u8>, i: int)
    requires
        0 <= i < pcm.len() / 2,
    ensures
        samples_of(pcm).len() == pcm.len() / 2,
        samples_of(pcm)[i] == pcm[2 * i] + 256 * pcm[2 * i + 1] - (if pcm[2 * i + 1] >= 128 {
            65_536int
        } else {
            0
        }),
{
}

/// The bytes of samples hold two for each, in their order, the low one first.
pub proof fn written_samples_begin_with_the_low_byte(samples: Seq<i16>, i: int)
    requires
        0 <= i < samples.len(),
    ensures
        pcm_bytes(samples).len() == 2 * samples.len(),
        pcm_bytes(samples)[2 * i] + 256 * pcm_bytes(samples)[2 * i + 1] == samples[i] + (if samples[i]
            < 0 {
            65_536int
        } else {
            0
        }),
    decreases samples.len(),
{
    let less = samples.drop_last();
    let n = samples.len() - 1;
    lemma_pcm_len(less);
    lemma_pcm_len(samples);
    if i < n {
        written_samples_begin_with_the_low_byte(less, i);
        assert(pcm_bytes(samples)[2 * i] == pcm_bytes(less)[2 * i]);
        assert(pcm_bytes(samples)[2 * i + 1] == pcm_bytes(less)[2 * i + 1]);
    }
}

proof fn lemma_pcm_len(samples: Seq<i16>)
    ensures
        pcm_bytes(samples).len() == 2 * samples.len(),
    decreases samples.len(),
{
    if samples.len() > 0 {
        lemma_pcm_len(samples.drop_last());
    }
}

/// The length of an audio frame is a signed number of four bytes, the low one first.
pub proof fn audio_lengths_are_signed(header: Seq<u8>)
    requires
        header.len() == 4,
    ensures
        pcm_length(header) == header[0] + 256 * header[1] + 65_536 * header[2] + 16_777_216
            * header[3] - (if header[3] >= 128 {
            0x1_0000_0000int
        } else {
            0
        }),
{
}

/// A header line goes up to the first newline, or to the end where there is none.
pub proof fn header_lines_end_at_the_newline(input: Seq<u8>)
    ensures
        0 <= line_len(input) <= input.len(),
        forall|i: int| 0 <= i < line_len(input) ==> (#[trigger] input[i]) != 10,
        line_len(input) < input.len() ==> input[line_len(input)] == 10,
    decreases input.len(),
{
    if input.len() > 0 && input[0] != 10 {
        let rest = input.drop_first();
        header_lines_end_at_the_newline(rest);
        assert forall|i: int| 0 <= i < line_len(input) implies (#[trigger] input[i]) != 10 by {
            if i > 0 {
                assert(rest[i - 1] == input[i]);
            }
        }
        if line_len(input) < input.len() {
            assert(rest[line_len(rest)] == input[line_len(input)]);
        }
    }
}

////////////////////////////////////////////////////////////////////////////////
// Messages
////////////////////////////////////////////////////////////////////////////////

/// A frame is its length in four bytes, the low one first, and then its body.
pub proof fn frames_begin_with_their_length(frame: Seq<u8>)
    requires
        frame.len() <= u32::MAX,
    ensures
        framed(frame).len() == 4 + frame.len(),
        framed(frame)[0] + 256 * framed(frame)[1] + 65_536 * framed(frame)[2] + 16_777_216 * framed(
            frame,
        )[3] == frame.len(),
        framed(frame).skip(4) == frame,
{
    lemma_four(frame.len() as u32);
    let all = framed(frame);
    let head = le32(frame.len() as u32);
    assert(all[0] == head[0] && all[1] == head[1] && all[2] == head[2] && all[3] == head[3]);
    assert(all.skip(4) =~= frame);
}

proof fn lemma_one_byte(value: nat)
    requires
        value < 128,
    ensures
        varint_bytes(value) == seq![value as u8],
{
}

/// Bytes with their length in front of them.
pub open spec fn sized(bytes: Seq<u8>) -> Seq<u8> {
    varint_bytes(bytes.len()) + bytes
}

/// How responses stand on the wire: one field, whose number tells what they are, and in it their
/// parts, numbered in order. Texts are UTF-8 and have their length in front of them, times are four
/// bytes, and counts are numbers of variable length.
pub proof fn responses_have_their_numbers(
    text: Seq<char>,
    first: u32,
    second: u32,
    third: u64,
    fourth: u64,
    wait: u32,
)
    ensures
        ({
            let a = crate::float_bits::F32 { bits: first };
            let b = crate::float_bits::F32 { bits: second };
            &&& encoded_response(ResponseView::Segment { text, begin: a, end: b }) == seq![18u8] + sized(
                seq![10u8] + sized(encode_utf8(text)) + seq![21u8] + le32(first) + seq![29u8] + le32(
                    second,
                ),
            )
            &&& encoded_response(ResponseView::Done { audio_s: a, rtf: b }) == seq![26u8] + sized(
                seq![13u8] + le32(first) + seq![21u8] + le32(second),
            )
            &&& encoded_response(ResponseView::Error { error: text }) == seq![34u8] + sized(
                seq![10u8] + sized(encode_utf8(text)),
            )
            &&& encoded_response(
                ResponseView::Cancelled {
                    audio_s: a,
                    rtf: b,
                    windows_dispatched: third,
                    windows_completed: fourth,
                },
            ) == seq![42u8] + sized(
                seq![13u8] + le32(first) + seq![21u8] + le32(second) + seq![24u8] + varint_bytes(
                    third as nat,
                ) + seq![32u8] + varint_bytes(fourth as nat),
            )
            &&& encoded_response(ResponseView::BackOff { reason: text, retry_after_ms: wait })
                == seq![50u8] + sized(
                seq![10u8] + sized(encode_utf8(text)) + seq![16u8] + varint_bytes(wait as nat),
            )
        }),
{
    let a = crate::float_bits::F32 { bits: first };
    let b = crate::float_bits::F32 { bits: second };
    lemma_one_byte(10);
    lemma_one_byte(13);
    lemma_one_byte(16);
    lemma_one_byte(18);
    lemma_one_byte(21);
    lemma_one_byte(24);
    lemma_one_byte(26);
    lemma_one_byte(29);
    lemma_one_byte(32);
    lemma_one_byte(34);
    lemma_one_byte(42);
    lemma_one_byte(50);
    let segment = seq![10u8] + sized(encode_utf8(text)) + seq![21u8] + le32(first) + seq![29u8]
        + le32(second);
    assert(crate::protocol::response_body(ResponseView::Segment { text, begin: a, end: b })
        =~= segment);
    let done = seq![13u8] + le32(first) + seq![21u8] + le32(second);
    assert(crate::protocol::response_body(ResponseView::Done { audio_s: a, rtf: b }) =~= done);
    let error = seq![10u8] + sized(encode_utf8(text));
    assert(crate::protocol::response_body(ResponseView::Error { error: text }) =~= error);
    let back_off = error + seq![16u8] + varint_bytes(wait as nat);
    assert(crate::protocol::response_body(
        ResponseView::BackOff { reason: text, retry_after_ms: wait },
    ) =~= back_off);
    let cancelled = done + seq![24u8] + varint_bytes(third as nat) + seq![32u8] + varint_bytes(
        fourth as nat,
    );
    let view = ResponseView::Cancelled {
        audio_s: a,
        rtf: b,
        windows_dispatched: third,
        windows_completed: fourth,
    };
    assert(crate::protocol::response_body(view) =~= cancelled);
    assert(encoded_response(ResponseView::Segment { text, begin: a, end: b }) =~= seq![18u8] + sized(
        segment,
    ));
    assert(encoded_response(ResponseView::Done { audio_s: a, rtf: b }) =~= seq![26u8] + sized(done));
    assert(encoded_response(ResponseView::Error { error: text }) =~= seq![34u8] + sized(error));
    assert(encoded_response(view) =~= seq![42u8] + sized(cancelled));
    assert(encoded_response(ResponseView::BackOff { reason: text, retry_after_ms: wait })
        =~= seq![50u8] + sized(back_off));
}

/// How an audio format and a server hello stand on the wire.
pub proof fn server_hellos_have_their_numbers(server: crate::protocol::ServerHello)
    requires
        server.audio_format.sample_format >= 0,
    ensures
        encoded_response(ResponseView::ServerHello(server)) == seq![10u8] + sized(
            seq![10u8] + sized(
                seq![8u8] + varint_bytes(server.audio_format.sample_rate as nat) + seq![16u8]
                    + varint_bytes(server.audio_format.channels as nat) + seq![24u8] + varint_bytes(
                    server.audio_format.sample_format as nat,
                ),
            ) + seq![16u8] + varint_bytes(server.ring_capacity_bytes as nat) + seq![24u8]
                + varint_bytes(server.ring_header_bytes as nat),
        ),
{
    lemma_one_byte(8);
    lemma_one_byte(10);
    lemma_one_byte(16);
    lemma_one_byte(24);
    let format = seq![8u8] + varint_bytes(server.audio_format.sample_rate as nat) + seq![16u8]
        + varint_bytes(server.audio_format.channels as nat) + seq![24u8] + varint_bytes(
        server.audio_format.sample_format as nat,
    );
    assert(encoded_audio_format(server.audio_format) =~= format);
    let body = seq![10u8] + sized(format) + seq![16u8] + varint_bytes(
        server.ring_capacity_bytes as nat,
    ) + seq![24u8] + varint_bytes(server.ring_header_bytes as nat);
    assert(crate::protocol::response_body(ResponseView::ServerHello(server)) =~= body);
    assert(encoded_response(ResponseView::ServerHello(server)) =~= seq![10u8] + sized(body));
}

proof fn lemma_text_field(field: nat, value: Seq<u8>)
    requires
        field < 16,
    ensures
        crate::wire::bytes_field(field, value) == seq![(field * 8 + 2) as u8] + sized(value),
{
    lemma_one_byte(field * 8 + 2);
    assert(crate::wire::bytes_field(field, value) =~= seq![(field * 8 + 2) as u8] + sized(value));
}

/// How a client hello stands on the wire: its ten parts, numbered in order.
pub proof fn client_hellos_have_their_numbers(hello: ClientHelloView)
    ensures
        encoded_client_hello(hello) == (seq![10u8] + sized(encode_utf8(hello.model))) + (seq![18u8]
            + sized(encode_utf8(hello.mode))) + (seq![26u8] + sized(encode_utf8(hello.lang))) + (
        seq![34u8] + sized(encode_utf8(hello.task))) + (seq![40u8] + varint_bytes(
            hello.max_new_tokens as nat,
        )) + (seq![48u8] + varint_bytes(hello.beam_size as nat)) + (seq![56u8] + seq![
            if hello.notimestamps {
                1u8
            } else {
                0u8
            },
        ]) + (seq![66u8] + sized(encode_utf8(hello.suppress_tokens))) + (seq![74u8] + sized(
            encoded_audio_format(hello.audio_format),
        )) + (seq![82u8] + sized(encoded_vad_options(hello.vad))),
{
    lemma_one_byte(0);
    lemma_one_byte(1);
    lemma_one_byte(40);
    lemma_one_byte(48);
    lemma_one_byte(56);
    lemma_text_field(1, encode_utf8(hello.model));
    lemma_text_field(2, encode_utf8(hello.mode));
    lemma_text_field(3, encode_utf8(hello.lang));
    lemma_text_field(4, encode_utf8(hello.task));
    lemma_text_field(8, encode_utf8(hello.suppress_tokens));
    lemma_text_field(9, encoded_audio_format(hello.audio_format));
    lemma_text_field(10, encoded_vad_options(hello.vad));
}

/// How the settings of the detector stand on the wire: those that are set, numbered in order.
pub proof fn detector_settings_have_their_numbers(vad: VadOptions)
    ensures
        ({
            let threshold = match vad.threshold {
                Some(t) => seq![13u8] + le32(t.bits),
                None => Seq::empty(),
            };
            let speech = match vad.min_speech_ms {
                Some(ms) => seq![16u8] + varint_bytes(ms as nat),
                None => Seq::empty(),
            };
            let silence = match vad.min_silence_ms {
                Some(ms) => seq![24u8] + varint_bytes(ms as nat),
                None => Seq::empty(),
            };
            let pad = match vad.speech_pad_ms {
                Some(ms) => seq![32u8] + varint_bytes(ms as nat),
                None => Seq::empty(),
            };
            let window = match vad.window_samples {
                Some(n) => seq![40u8] + varint_bytes(n as nat),
                None => Seq::empty(),
            };
            encoded_vad_options(vad) == threshold + speech + silence + pad + window
        }),
{
    lemma_one_byte(13);
    lemma_one_byte(16);
    lemma_one_byte(24);
    lemma_one_byte(32);
    lemma_one_byte(40);
}

/// A value that is passed over is passed over whole: the next byte that is read is the one behind it.
pub proof fn values_are_passed_over_whole(bytes: Seq<u8>, pos: int, value: u64, body: Seq<u8>)
    requires
        0 <= pos <= bytes.len() <= usize::MAX,
    ensures
        holds_at(bytes, pos, varint_bytes(value as nat)) ==> skip_at(bytes, pos, 0) == Ok::<
            int,
            WireError,
        >(pos + varint_bytes(value as nat).len()),
        holds_at(bytes, pos, varint_bytes(body.len()) + body) ==> skip_at(bytes, pos, 2) == Ok::<
            int,
            WireError,
        >(pos + varint_bytes(body.len()).len() + body.len()),
        pos + 8 <= bytes.len() <==> skip_at(bytes, pos, 1) == Ok::<int, WireError>(pos + 8),
        pos + 4 <= bytes.len() <==> skip_at(bytes, pos, 5) == Ok::<int, WireError>(pos + 4),
        pos + 8 > bytes.len() <==> skip_at(bytes, pos, 1) == Err::<int, WireError>(
            WireError::TruncatedField,
        ),
        pos + 4 > bytes.len() <==> skip_at(bytes, pos, 5) == Err::<int, WireError>(
            WireError::TruncatedField,
        ),
        skip_at(bytes, pos, 3) == Err::<int, WireError>(WireError::UnsupportedWireType { wire: 3 }),
{
    if holds_at(bytes, pos, varint_bytes(value as nat)) {
        varint_round_trip(bytes, pos, value);
    }
    if holds_at(bytes, pos, varint_bytes(body.len()) + body) {
        lemma_holds_parts(bytes, pos, varint_bytes(body.len()), body);
        varint_round_trip(bytes, pos, body.len() as u64);
    }
}

/// Among the characters of ASCII white space is the space and what moves on: from the tab to the
/// carriage return. None of the others is.
pub proof fn white_space_moves_on(c: char)
    requires
        (c as u32) < 128,
    ensures
        is_space(c) <==> c as u32 == 9 || c as u32 == 10 || c as u32 == 11 || c as u32 == 12 || c as u32
            == 13 || c as u32 == 32,
{
}

proof fn lemma_prefix_is_less(digits: Seq<char>, n: int)
    requires
        0 <= n <= digits.len(),
        forall|i: int| 0 <= i < digits.len() ==> is_digit(#[trigger] digits[i]),
    ensures
        digits_value(digits.take(n)) <= digits_value(digits),
    decreases digits.len(),
{
    if n == digits.len() {
        assert(digits.take(n) =~= digits);
    } else {
        let fewer = digits.drop_last();
        assert forall|i: int| 0 <= i < fewer.len() implies is_digit(#[trigger] fewer[i]) by {
            assert(fewer[i] == digits[i]);
        }
        lemma_prefix_is_less(fewer, n);
        assert(fewer.take(n) =~= digits.take(n));
        assert(is_digit(digits[digits.len() - 1]));
    }
}

/// Digits that stand for a number are read as that number if it fits into 32 bits, and are too large
/// if it does not, whatever follows them. Nothing is no number, and neither is a sign or any other
/// character alone.
pub proof fn numbers_fit_or_are_too_large(digits: Seq<char>, rest: Seq<char>)
    requires
        digits.len() > 0,
        forall|i: int| 0 <= i < digits.len() ==> 48 <= (#[trigger] digits[i]) as u32 <= 57,
    ensures
        digits_value(digits) <= u32::MAX <==> denotes_u32(digits),
        digits_value(digits) > u32::MAX ==> number_fault(digits + rest) == NumberFault::TooLarge,
        digits_value(digits) <= u32::MAX && rest.len() > 0 && !is_digit(rest[0]) ==> number_fault(
            digits + rest,
        ) == NumberFault::InvalidDigit,
        number_fault(Seq::empty()) == NumberFault::Empty,
        rest.len() == 1 && !is_digit(rest[0]) ==> number_fault(rest) == NumberFault::InvalidDigit,
{
    let text = digits + rest;
    assert forall|i: int| 0 <= i < digits.len() implies is_digit(#[trigger] digits[i]) by {}
    assert(is_digit(text[0])) by {
        assert(text[0] == digits[0]);
    }
    assert(unsigned_digits(text) == text);
    assert(unsigned_digits(digits) == digits) by {
        assert(is_digit(digits[0]));
    }
    let n = digits.len() as int;
    assert(text.take(n) =~= digits);
    assert forall|i: int| 0 <= i < n implies is_digit(#[trigger] text[i]) by {
        assert(text[i] == digits[i]);
    }
    if digits_value(digits) > u32::MAX {
        assert(digits_value(text.take(n)) > u32::MAX);
        assert(outgrows_u32(text));
    }
    if digits_value(digits) <= u32::MAX && rest.len() > 0 && !is_digit(rest[0]) {
        assert forall|m: int|
            0 < m <= text.len() && (forall|i: int| 0 <= i < m ==> is_digit(#[trigger] text[i])) implies digits_value(
            #[trigger] text.take(m),
        ) <= u32::MAX by {
            if m > n {
                assert(text[n] == rest[0]);
            } else {
                assert(text.take(m) =~= digits.take(m));
                lemma_prefix_is_less(digits, m);
            }
        }
        assert(!outgrows_u32(text));
    }
    if rest.len() == 1 && !is_digit(rest[0]) {
        let plain = unsigned_digits(rest);
        assert(plain.len() > 0 ==> plain == rest);
        assert(!outgrows_u32(plain));
    }
}

/// A text is found in another wherever it stands, at the start, in the middle or at the end; and what is
/// found stands there.
pub proof fn parts_are_found_where_they_stand(
    before: Seq<char>,
    part: Seq<char>,
    behind: Seq<char>,
    text: Seq<char>,
)
    ensures
        occurs(before + part + behind, part),
        occurs(text, part) ==> exists|i: int|
            0 <= i <= text.len() - part.len() && text == text.take(i) + part + #[trigger] text.skip(
                i + part.len(),
            ),
{
    let whole = before + part + behind;
    let at = before.len() as int;
    assert(whole.subrange(at, at + part.len()) =~= part);
    assert(occurs_at(whole, part, at));
    if occurs(text, part) {
        let i = choose|i: int| #[trigger] occurs_at(text, part, i);
        assert(text =~= text.take(i) + text.subrange(i, i + part.len()) + text.skip(
            i + part.len(),
        ));
    }
}

} // verus!
