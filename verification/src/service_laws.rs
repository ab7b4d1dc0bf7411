//! Laws of the daemon and its clients: what is served and what is refused, how audio gets in, and that
//! only silence is dropped.
use tokio::sync::mpsc::Sender;
use vstd::prelude::*;
use vstd::utf8::*;

use crate::beam::{is_top, precedes};
use crate::client::{pcm_bytes, pcm_round_trip};
use crate::daemon::{
    base_name, config_ok, header_line, is_id_char, is_model_id, joined_path, kind_of, line_len, pcm_unframed, resolution,
    zero_limit, ConcurrencyConfig, DaemonConfig, FoundFiles, Limit, ModelError, ModelFile,
    ModelFiles, ModelKind, PcmError, RequestError, RequestHeader,
};
use crate::daemon_stream::next_piece;
use crate::float_bits::F32;
use crate::format_laws::{
    fixed_numbers_begin_with_the_low_byte, header_lines_end_at_the_newline,
};
use crate::frontend::full_scale;
use crate::live_jobs::{refreshed, ActiveLiveJob};
use crate::parallel::{by_index, complete, has_index, missing};
use crate::protocol::ClientHello;
use crate::ring::{taken_of, SharedAudioRing};
use crate::scheduler::ModelSchedulers;
use crate::session::{header_follows, refusal};
use crate::vad::{heard, speech_segments};
use crate::vad_laws::{in_speech, segments_hold_exactly_the_speech};
use crate::whisper::WindowTranscription;
use crate::wire::{le32, le32_round_trip, le32_value, le64};

verus! {

/// A hello is served exactly when its mode is one of the two, it wants at least one beam, its audio is
/// mono at 16 kHz in samples of two bytes, and there is its model.
pub proof fn hellos_are_served(hello: ClientHello, has_model: bool)
    ensures
        refusal(hello, has_model) is None <==> (hello.mode@ == "batch"@ || hello.mode@ == "stream"@)
            && hello.beam_size >= 1 && hello.audio_format.sample_rate == 16_000
            && hello.audio_format.channels == 1 && hello.audio_format.sample_format == 1 && has_model,
{
}

/// A configuration can be used exactly when it lists at least one model, each of them once and
/// supported, and no limit is zero.
pub proof fn configurations_are_usable(config: DaemonConfig)
    ensures
        config_ok(config) <==> {
            &&& config.models@.len() > 0
            &&& config.concurrency.model_queue_depth > 0
            &&& config.concurrency.max_active_jobs_per_model > 0
            &&& config.concurrency.max_in_flight_windows_per_job > 0
            &&& config.concurrency.client_window_queue_depth > 0
            &&& config.concurrency.client_response_queue_depth > 0
            &&& forall|i: int|
                0 <= i < config.models@.len() ==> is_model_id((#[trigger] config.models@[i])@)
                    && kind_of(config.models@[i]@) is Some
            &&& forall|i: int, j: int|
                0 <= i < j < config.models@.len() ==> (#[trigger] config.models@[i])@ != (
                #[trigger] config.models@[j])@
        },
{
    let models = config.models@;
    if config_ok(config) {
        assert forall|i: int| 0 <= i < models.len() implies is_model_id((#[trigger] models[i])@)
            && kind_of(models[i]@) is Some by {
            assert(crate::daemon::entry_ok(models, i));
        }
        assert forall|i: int, j: int| 0 <= i < j < models.len() implies (#[trigger] models[i])@ != (
        #[trigger] models[j])@ by {
            assert(crate::daemon::entry_ok(models, j));
            assert(!crate::daemon::occurs_before(models, j));
        }
    }
    if (forall|i: int|
        0 <= i < models.len() ==> is_model_id((#[trigger] models[i])@) && kind_of(models[i]@) is Some)
        && (forall|i: int, j: int|
        0 <= i < j < models.len() ==> (#[trigger] models[i])@ != (#[trigger] models[j])@) {
        assert forall|i: int| 0 <= i < models.len() implies #[trigger] crate::daemon::entry_ok(
            models,
            i,
        ) by {
            assert(is_model_id(models[i]@));
        }
    }
}

/// A model is found only where its id is valid, it is listed and supported, and all its files are
/// there; and then it is found.
pub proof fn models_are_found_whole(
    out: Result<ModelFiles, ModelError>,
    root: Seq<char>,
    id: Seq<char>,
    known: bool,
    found: FoundFiles,
)
    requires
        resolution(out, root, id, known, found),
    ensures
        out is Ok <==> is_model_id(id) && known && kind_of(id) is Some && found.dir && found.tokenizer
            && found.mel && found.encoder && found.enc_kv && found.decoder,
        out matches Ok(files) ==> files.id@ == id && Some(files.kind) == kind_of(id) && (
        files.vad is Some <==> found.vad),
        out is Err && !is_model_id(id) ==> out->Err_0 == ModelError::InvalidModelId,
{
}

/// Audio that is sent in a frame arrives: its length in four bytes, the low one first, and its
/// samples, are read as these samples, and what follows is left.
pub proof fn framed_audio_arrives(samples: Seq<i16>, rest: Seq<u8>)
    requires
        0 < samples.len() < 0x4000_0000,
    ensures
        pcm_unframed(le32((2 * samples.len()) as u32) + pcm_bytes(samples) + rest) == Ok::<
            (Option<Seq<i16>>, Seq<u8>),
            PcmError,
        >((Some(samples), rest)),
        pcm_unframed(le32(0) + rest) == Ok::<(Option<Seq<i16>>, Seq<u8>), PcmError>((None, rest)),
{
    let n = (2 * samples.len()) as u32;
    let body = pcm_bytes(samples);
    let all = le32(n) + body + rest;
    pcm_round_trip(samples);
    le32_round_trip(n);
    le32_round_trip(0);
    assert(all.take(4) =~= le32(n));
    assert(all.subrange(4, 4 + n) =~= body);
    assert(all.skip(4 + n) =~= rest);
    let none = le32(0) + rest;
    assert(none.take(4) =~= le32(0));
    assert(none.skip(4) =~= rest);
}

/// Bytes are cut from the front: a piece is whole, or it is all that is left and nothing more comes;
/// and it is not kept back where it is due.
pub proof fn pieces_are_cut_from_the_front(pcm: Seq<u8>, chunk_bytes: int, final_flush: bool)
    requires
        chunk_bytes > 0,
    ensures
        next_piece(pcm, chunk_bytes, final_flush) is Some <==> pcm.len() >= chunk_bytes || (final_flush
            && pcm.len() > 0),
        next_piece(pcm, chunk_bytes, final_flush) matches Some(piece) ==> piece.is_prefix_of(pcm) && (
        piece.len() == chunk_bytes || piece.len() == pcm.len() < chunk_bytes),
{
    if let Some(piece) = next_piece(pcm, chunk_bytes, final_flush) {
        assert(pcm =~= pcm.subrange(0, pcm.len() as int));
        assert(piece =~= pcm.subrange(0, piece.len() as int));
    }
}

/// The bytes that wait in a ring stand in its data one behind the other, round its end: the oldest at
/// the count of bytes read, taken round the size of the data. The counts stand in the header, the low
/// byte first.
pub proof fn waiting_bytes_stand_round_the_data(ring: SharedAudioRing, i: int)
    requires
        ring.in_use(),
        0 <= i < ring.written() - ring.consumed(),
        ring.bytes().len() >= 32,
        ring.data().len() > 0,
    ensures
        ring.contents().len() == ring.written() - ring.consumed(),
        ring.contents()[i] == ring.bytes()[32 + (ring.consumed() + i) % (ring.data().len() as int)],
        ring.written() == le32_value(ring.bytes().subrange(16, 20)) + 0x1_0000_0000 * le32_value(
            ring.bytes().subrange(20, 24),
        ),
        ring.consumed() == le32_value(ring.bytes().subrange(24, 28)) + 0x1_0000_0000 * le32_value(
            ring.bytes().subrange(28, 32),
        ),
{
    let b = ring.bytes();
    assert(b.subrange(16, 24).take(4) =~= b.subrange(16, 20));
    assert(b.subrange(16, 24).skip(4) =~= b.subrange(20, 24));
    assert(b.subrange(24, 32).take(4) =~= b.subrange(24, 28));
    assert(b.subrange(24, 32).skip(4) =~= b.subrange(28, 32));
    let n = ring.data().len() as int;
    vstd::arithmetic::div_mod::lemma_mod_bound(ring.consumed() + i, n);
}

/// Of the results of all windows the one at place `k` is for window `k`, and one that came in.
pub proof fn results_are_put_in_order(arrivals: Seq<WindowTranscription>, total: int, k: int)
    requires
        complete(arrivals, total),
        0 <= k < total,
    ensures
        by_index(arrivals, total).len() == total,
        by_index(arrivals, total)[k].window_index == k,
        arrivals.contains(by_index(arrivals, total)[k]),
{
    assert(has_index(arrivals, k));
    let i = choose|i: int| 0 <= i < arrivals.len() && (#[trigger] arrivals[i]).window_index == k;
    assert(by_index(arrivals, total)[k] == arrivals[i]);
}

/// The places that are ranked first are those of the greatest keys: as many as wanted, or all; each
/// once; the greater before the smaller and of equal ones the earlier; and no key that is left out
/// is greater than one that is not.
pub proof fn top_places_have_the_greatest_keys(keys: Seq<F32>, count: int, order: Seq<usize>)
    requires
        0 <= count,
        keys.len() <= usize::MAX,
        is_top(keys, count, order),
    ensures
        order.len() == (if count < keys.len() {
            count
        } else {
            keys.len() as int
        }),
        forall|i: int, j: int|
            0 <= i < j < order.len() ==> #[trigger] order[i] != #[trigger] order[j] && keys[order[i] as int].rank()
                >= keys[order[j] as int].rank(),
        forall|i: int, j: int|
            0 <= i < j < order.len() && keys[(#[trigger] order[i]) as int].rank() == keys[(
            #[trigger] order[j]) as int].rank() ==> order[i] < order[j],
        forall|p: int, i: int|
            0 <= p < keys.len() && 0 <= i < order.len() && !order.contains(p as usize) ==> (
            #[trigger] keys[p]).rank() <= keys[(#[trigger] order[i]) as int].rank(),
{
    assert forall|i: int, j: int| 0 <= i < j < order.len() implies #[trigger] order[i]
        != #[trigger] order[j] && keys[order[i] as int].rank() >= keys[order[j] as int].rank() by {
        assert(precedes(keys, order[i] as int, order[j] as int));
    }
    assert forall|i: int, j: int|
        0 <= i < j < order.len() && keys[(#[trigger] order[i]) as int].rank() == keys[(
        #[trigger] order[j]) as int].rank() implies order[i] < order[j] by {
        assert(precedes(keys, order[i] as int, order[j] as int));
    }
    assert forall|p: int, i: int|
        0 <= p < keys.len() && 0 <= i < order.len() && !order.contains(p as usize) implies (
    #[trigger] keys[p]).rank() <= keys[(#[trigger] order[i]) as int].rank() by {
        assert(precedes(keys, order[i] as int, p));
    }
}

/// A place that is ranked before another has a greater key, or the same and comes first.
pub proof fn ranking_goes_by_the_key(keys: Seq<F32>, a: int, b: int)
    ensures
        precedes(keys, a, b) <==> keys[a].rank() > keys[b].rank() || (keys[a].rank() == keys[b].rank()
            && a < b),
{
}

/// Whole-number samples are measured by the greatest that their size can hold.
pub proof fn full_scale_is_the_greatest_sample(bits: u16)
    ensures
        full_scale(bits) is Some <==> bits == 8 || bits == 16 || bits == 24 || bits == 32,
        bits == 8 ==> full_scale(bits)->0 == i8::MAX,
        bits == 16 ==> full_scale(bits)->0 == i16::MAX,
        bits == 24 ==> (full_scale(bits)->0 + 1) * 256 == i32::MAX + 1,
        bits == 32 ==> full_scale(bits)->0 == i32::MAX,
{
}

/// Only silence is dropped: where a stream lets go of what it has buffered, speech is detected,
/// nothing more comes, and no stretch of speech is in it; otherwise it keeps all.
pub proof fn only_silence_is_dropped(before: ActiveLiveJob, after: ActiveLiveJob, sample: int)
    requires
        before.wf(),
        refreshed(before, after),
    ensures
        after.audio_buffer@ == before.audio_buffer@ && after.probs@ == before.probs@ || {
            &&& before.producer_closed
            &&& before.vad_config is Some
            &&& forall|first: int, last: int|
                !#[trigger] in_speech(
                    before.audio_buffer@.len() as int,
                    before.probs@,
                    before.vad_config->0,
                    sample,
                    first,
                    last,
                )
        },
        after.absolute_offset_samples + after.audio_buffer@.len() == before.absolute_offset_samples
            + before.audio_buffer@.len(),
        after.audio_buffer@ == before.audio_buffer@ && after.probs@ == before.probs@ || (
        after.audio_buffer@.len() == 0 && after.probs@.len() == 0),
        before.producer_closed && before.vad_config is Some && speech_segments(
            before.audio_buffer@.len() as int,
            before.probs@,
            before.vad_config->0,
        ).len() == 0 ==> after.audio_buffer@.len() == 0 && after.probs@.len() == 0,
        after.producer_closed == before.producer_closed,
        after.in_flight == before.in_flight,
        after.next_window_index == before.next_window_index,
        after.results == before.results,
{
    assert(before.segments() matches Some(segments) ==> (segments.len() == 0 <==> segments =~= Seq::<
        (int, int),
    >::empty()));
    if !(after.audio_buffer@ == before.audio_buffer@ && after.probs@ == before.probs@) {
        let len = before.audio_buffer@.len() as int;
        let config = before.vad_config->0;
        segments_hold_exactly_the_speech(len, before.probs@, config, sample);
        let segments = before.segments()->0;
        assert(segments == Seq::<(int, int)>::empty());
        assert(!heard(sample, segments));
        assert forall|first: int, last: int| !#[trigger] in_speech(
            len,
            before.probs@,
            config,
            sample,
            first,
            last,
        ) by {
            if in_speech(len, before.probs@, config, sample, first, last) {
                assert(heard(sample, segments));
            }
        }
    }
}

/// A ring takes as many bytes as it has room for: all of them, or as many as fill it.
pub proof fn rings_take_what_they_have_room_for(ring: SharedAudioRing, len: int)
    requires
        ring.in_use(),
        0 <= len,
    ensures
        0 <= taken_of(ring, len) <= len,
        ring.contents().len() + taken_of(ring, len) <= ring.spec_capacity(),
        taken_of(ring, len) == len || ring.contents().len() + taken_of(ring, len)
            == ring.spec_capacity(),
{
}

/// A result is missing where some window has none, and where none is missing every window has one.
pub proof fn missing_results_are_noticed(arrivals: Seq<WindowTranscription>, total: int, k: int)
    ensures
        0 <= k < total && (forall|i: int|
            0 <= i < arrivals.len() ==> (#[trigger] arrivals[i]).window_index != k) ==> missing(
            arrivals,
            total,
        ),
        !missing(arrivals, total) && 0 <= k < total ==> exists|i: int|
            0 <= i < arrivals.len() && (#[trigger] arrivals[i]).window_index == k,
{
    if 0 <= k < total && !has_index(arrivals, k) {
        assert(missing(arrivals, total));
    }
}

/// What a client asks for is what the daemon serves.
pub proof fn headers_say_what_hellos_say(header: RequestHeader, hello: ClientHello)
    requires
        header_follows(header, hello),
    ensures
        header.model == hello.model,
        header.mode == hello.mode,
        header.lang == hello.lang,
        header.task == hello.task,
        header.max_new_tokens == hello.max_new_tokens,
        header.beam_size == hello.beam_size,
        header.notimestamps == hello.notimestamps,
        header.suppress_tokens == hello.suppress_tokens,
        header.vad_threshold == hello.vad.threshold,
        header.vad_min_speech_ms == hello.vad.min_speech_ms,
        header.vad_min_silence_ms == hello.vad.min_silence_ms,
        header.vad_speech_pad_ms == hello.vad.speech_pad_ms,
        header.vad_window_samples == hello.vad.window_samples,
{
}

/// A name is put behind a path with exactly one slash between them, or none behind an empty path.
pub proof fn names_go_behind_paths(base: Seq<char>, name: Seq<char>)
    ensures
        joined_path(base, name).len() >= name.len(),
        joined_path(base, name).skip(joined_path(base, name).len() - name.len()) == name,
        base.len() == 0 ==> joined_path(base, name) == name,
        base.len() > 0 && base.last() == '/' ==> joined_path(base, name) == base + name,
        base.len() > 0 && base.last() != '/' ==> joined_path(base, name) == base.push('/') + name,
{
    reveal_strlit("/");
    let path = joined_path(base, name);
    assert(base.len() == 0 ==> path =~= name);
    assert(base.len() > 0 && base.last() != '/' ==> path =~= base.push('/') + name);
    assert(path.skip(path.len() - name.len()) =~= name);
}

/// Where limits are zero, the first of them in this order is named.
pub proof fn first_zero_limit_is_named(config: ConcurrencyConfig)
    ensures
        zero_limit(config) is None <==> config.model_queue_depth > 0
            && config.max_active_jobs_per_model > 0 && config.max_in_flight_windows_per_job > 0
            && config.client_window_queue_depth > 0 && config.client_response_queue_depth > 0,
        zero_limit(config) == Some(Limit::ModelQueueDepth) <==> config.model_queue_depth == 0,
        zero_limit(config) == Some(Limit::MaxActiveJobsPerModel) <==> config.model_queue_depth > 0
            && config.max_active_jobs_per_model == 0,
        zero_limit(config) == Some(Limit::MaxInFlightWindowsPerJob) <==> config.model_queue_depth > 0
            && config.max_active_jobs_per_model > 0 && config.max_in_flight_windows_per_job == 0,
        zero_limit(config) == Some(Limit::ClientWindowQueueDepth) ==> config.client_window_queue_depth
            == 0 && config.max_in_flight_windows_per_job > 0,
        zero_limit(config) == Some(Limit::ClientResponseQueueDepth)
            ==> config.client_response_queue_depth == 0 && config.client_window_queue_depth > 0,
{
}

/// The files of a model stand in a directory of its own under the root, each under its name, and the
/// first that is missing is named.
pub proof fn model_files_have_their_names(
    out: Result<ModelFiles, ModelError>,
    root: Seq<char>,
    id: Seq<char>,
    known: bool,
    found: FoundFiles,
)
    requires
        resolution(out, root, id, known, found),
    ensures
        out matches Ok(files) ==> {
            let dir = joined_path(root, id);
            &&& files.dir@ == dir
            &&& files.tokenizer@ == joined_path(dir, "tokenizer.json"@)
            &&& files.mel@ == joined_path(dir, "mel.rknn"@)
            &&& files.encoder@ == joined_path(dir, "encoder.rknn"@)
            &&& files.enc_kv@ == joined_path(dir, "enc_kv.rknn"@)
            &&& files.decoder@ == joined_path(dir, "decoder.rknn"@)
            &&& files.vad matches Some(vad) ==> vad@ == joined_path(dir, "vad.rknn"@)
        },
        out matches Err(ModelError::MissingFile { file }) ==> match file {
            ModelFile::Tokenizer => !found.tokenizer,
            ModelFile::Mel => found.tokenizer && !found.mel,
            ModelFile::Encoder => found.tokenizer && found.mel && !found.encoder,
            ModelFile::EncKv => found.tokenizer && found.mel && found.encoder && !found.enc_kv,
            ModelFile::Decoder => found.tokenizer && found.mel && found.encoder && found.enc_kv
                && !found.decoder,
        },
{
}

/// A line of at most 65536 bytes that is text is taken off with its newline, and what follows is left.
/// A longer one, one that is no text, and one that does not end are refused.
pub proof fn header_lines_are_taken_off(line: Seq<u8>, rest: Seq<u8>)
    requires
        forall|i: int| 0 <= i < line.len() ==> #[trigger] line[i] != 10,
    ensures
        line.len() <= 65_536 && valid_utf8(line) ==> header_line(line.push(10) + rest) == Ok::<
            (Seq<char>, Seq<u8>),
            RequestError,
        >((decode_utf8(line), rest)),
        line.len() <= 65_536 && !valid_utf8(line) ==> header_line(line.push(10) + rest) == Err::<
            (Seq<char>, Seq<u8>),
            RequestError,
        >(RequestError::HeaderNotUtf8),
        line.len() > 65_536 ==> header_line(line.push(10) + rest) == Err::<
            (Seq<char>, Seq<u8>),
            RequestError,
        >(RequestError::HeaderTooLong),
        line.len() <= 65_536 ==> header_line(line) == Err::<(Seq<char>, Seq<u8>), RequestError>(
            RequestError::HeaderClosed,
        ),
{
    let input = line.push(10) + rest;
    let n = line_len(input);
    header_lines_end_at_the_newline(input);
    header_lines_end_at_the_newline(line);
    assert(input[line.len() as int] == 10);
    assert(n < line.len() ==> input[n] == line[n]);
    assert(n == line.len());
    assert(line_len(line) < line.len() ==> line[line_len(line)] != 10);
    assert(input.take(n) =~= line);
    assert(input.skip(n + 1) =~= rest);
}

/// Where `name` does not end in `-30s`, it and `name` with `-30s` behind it are what has `name` for its
/// base.
proof fn lemma_base_name(id: Seq<char>, name: Seq<char>)
    requires
        name.len() >= 4,
        name[name.len() - 4] != '-',
    ensures
        base_name(id) == name <==> id == name || id == name + "-30s"@,
{
    reveal_strlit("-30s");
    let tail = "-30s"@;
    assert(name.skip(name.len() - 4)[0] == name[name.len() - 4]);
    if id == name + tail {
        assert(id.skip(id.len() - 4) =~= tail);
        assert(id.take(id.len() - 4) =~= name);
    }
    if base_name(id) == name && id != name {
        assert(id =~= id.take(id.len() - 4) + id.skip(id.len() - 4));
    }
}

/// Each supported model goes by its name, with or without `-30s` behind it, and nothing else is a name
/// of a model.
pub proof fn models_go_by_their_names(id: Seq<char>)
    ensures
        kind_of(id) == Some(ModelKind::Tiny) <==> id == "whisper-tiny"@ || id == "whisper-tiny"@ + "-30s"@,
        kind_of(id) == Some(ModelKind::Base) <==> id == "whisper-base"@ || id == "whisper-base"@ + "-30s"@,
        kind_of(id) == Some(ModelKind::Small) <==> id == "whisper-small"@ || id == "whisper-small"@ + "-30s"@,
        kind_of(id) == Some(ModelKind::Medium) <==> id == "whisper-medium"@ || id == "whisper-medium"@ + "-30s"@,
        kind_of(id) == Some(ModelKind::LargeV3Turbo) <==> id == "whisper-large-v3-turbo"@ || id == "whisper-large-v3-turbo"@ + "-30s"@,
{
    reveal_strlit("whisper-tiny");
    reveal_strlit("whisper-base");
    reveal_strlit("whisper-small");
    reveal_strlit("whisper-medium");
    reveal_strlit("whisper-large-v3-turbo");
    lemma_base_name(id, "whisper-tiny"@);
    lemma_base_name(id, "whisper-base"@);
    lemma_base_name(id, "whisper-small"@);
    lemma_base_name(id, "whisper-medium"@);
    lemma_base_name(id, "whisper-large-v3-turbo"@);
    assert("whisper-tiny"@[8] == 't');
    assert("whisper-base"@[8] == 'b');
    assert("whisper-tiny"@ != "whisper-base"@);
}

/// A model id is made of letters, digits, hyphens and underscores.
pub proof fn model_ids_are_plain(id: Seq<char>)
    ensures
        is_model_id(id) <==> id.len() > 0 && forall|i: int|
            0 <= i < id.len() ==> {
                let c = #[trigger] id[i] as u32;
                48 <= c <= 57 || 65 <= c <= 90 || 97 <= c <= 122 || c == 45 || c == 95
            },
{
    if id.len() > 0 && (forall|i: int|
        0 <= i < id.len() ==> {
            let c = #[trigger] id[i] as u32;
            48 <= c <= 57 || 65 <= c <= 90 || 97 <= c <= 122 || c == 45 || c == 95
        }) {
        assert forall|i: int| 0 <= i < id.len() implies is_id_char(#[trigger] id[i]) by {
            let c = id[i] as u32;
            assert(48 <= c <= 57 || 65 <= c <= 90 || 97 <= c <= 122 || c == 45 || c == 95);
        }
    }
    if is_model_id(id) {
        assert forall|i: int| 0 <= i < id.len() implies {
            let c = #[trigger] id[i] as u32;
            48 <= c <= 57 || 65 <= c <= 90 || 97 <= c <= 122 || c == 45 || c == 95
        } by {
            assert(is_id_char(id[i]));
        }
    }
}

/// A ring begins with its mark, its version and how many bytes it can hold, each with the low byte
/// first.
pub proof fn rings_begin_with_their_mark(ring: SharedAudioRing)
    requires
        ring.header_is_right(),
        ring.bytes().len() >= 16,
    ensures
        ring.bytes()[0] == 0x53,
        ring.bytes()[1] == 0x48,
        ring.bytes()[2] == 0x57,
        ring.bytes()[3] == 0x52,
        ring.bytes()[4] == 1,
        ring.bytes()[5] == 0,
        ring.bytes()[6] == 0,
        ring.bytes()[7] == 0,
        ring.bytes().subrange(8, 16) == le64(ring.spec_capacity() as u64),
{
    let head = ring.bytes();
    fixed_numbers_begin_with_the_low_byte(0x5257_4853, 0);
    fixed_numbers_begin_with_the_low_byte(1, 0);
    assert forall|i: int| 0 <= i < 4 implies head[i] == le32(0x5257_4853)[i] && head[4 + i] == le32(
        1,
    )[i] by {
        assert(head.subrange(0, 4)[i] == head[i]);
        assert(head.subrange(4, 8)[i] == head[4 + i]);
    }
}

/// Jobs for a model go to a queue that was set up under its name, and to the first of them.
pub proof fn jobs_go_to_their_model<T>(queues: ModelSchedulers<T>, model: Seq<char>, queue: Sender<T>)
    requires
        queues.holds(model, queue),
    ensures
        queues.has(model),
        exists|i: int|
            #![trigger queues.entries@[i]]
            0 <= i < queues.entries@.len() && queues.entries@[i].0@ == model && queues.entries@[i].1
                == queue && forall|j: int|
                0 <= j < i ==> (#[trigger] queues.entries@[j]).0@ != model,
        forall|other: Sender<T>| queues.holds(model, other) ==> other == queue,
{
}

} // verus!
