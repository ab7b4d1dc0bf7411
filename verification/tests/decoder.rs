use rkwhisper::beam::{
    expand, generated_tokens, token_candidates, top_ranked, Beam, BeamSearch, Candidate, Expansion,
};
use rkwhisper::decoder::{
    decoder_inputs, decoder_outputs, enc_kv_output_indices, nc1hwc2_len, pack_enc_kv_to_nc1hwc2,
    write_present_nchw_to_nc1hwc2_cache_slot, zeros, InputSource, Layout, OutputTarget,
    WhisperDecoder, WhisperDecoderState,
};
use rkwhisper::float_bits::{F16, F32};
use rkwhisper::frontend::{
    bounded_sample, mel_input, polyphase_pre_process, wav_scale, WavError,
};
use rkwhisper::spec::{WhisperLargeV3Turbo, WhisperSpec, WhisperTiny};

fn h(bits: u16) -> F16 {
    F16 { bits }
}

fn f(value: f32) -> F32 {
    F32::from_bits(value.to_bits())
}

fn floats(values: &[f32]) -> Vec<F32> {
    values.iter().map(|&v| f(v)).collect()
}

#[test]
fn channels_stand_in_groups_of_eight() {
    assert_eq!(nc1hwc2_len(8, 2, 3), 48);
    assert_eq!(nc1hwc2_len(9, 2, 3), 96);
    // Ten steps of one head with two numbers each.
    let src: Vec<F16> = (0..20).map(|i| h(i + 1)).collect();
    let packed = pack_enc_kv_to_nc1hwc2(&src, 10, 1, 2);
    assert_eq!(packed.len(), 32);
    for step in 0..10usize {
        for dim in 0..2usize {
            let at = (step / 8 * 2 + dim) * 8 + step % 8;
            assert_eq!(packed[at], src[step * 2 + dim]);
        }
    }
    assert_eq!(packed.iter().filter(|x| x.bits == 0).count(), 12);
}

#[test]
fn a_step_is_written_into_its_slot() {
    // Three heads, four slots, two numbers.
    let mut past = zeros(nc1hwc2_len(3, 4, 2));
    let present: Vec<F16> = (1..=6).map(h).collect();
    write_present_nchw_to_nc1hwc2_cache_slot(&present, &mut past, 2, 4, 2, 3);
    for head in 0..3usize {
        for dim in 0..2usize {
            assert_eq!(past[(2 * 2 + dim) * 8 + head], present[head * 2 + dim]);
        }
    }
    assert_eq!(past.iter().filter(|x| x.bits != 0).count(), 6);
}

#[test]
fn decoder_tensors_are_numbered() {
    let inputs = decoder_inputs(2);
    assert_eq!(inputs.len(), 13);
    assert_eq!(inputs[0].source, InputSource::Token);
    assert_eq!(inputs[1].source, InputSource::PastK { layer: 0 });
    assert_eq!(inputs[4].source, InputSource::PastV { layer: 1 });
    assert_eq!(inputs[5].source, InputSource::EncK { layer: 0 });
    assert_eq!(inputs[8].source, InputSource::EncV { layer: 1 });
    assert_eq!(inputs[9].source, InputSource::SelfAttnMask);
    assert_eq!(inputs[12].source, InputSource::Position);
    assert!(inputs[1].pass_through && inputs[1].layout == Layout::Nc1hwc2);
    assert!(!inputs[9].pass_through && inputs[9].layout == Layout::Nhwc);
    let outputs = decoder_outputs(2);
    assert_eq!(outputs.len(), 5);
    assert_eq!(outputs[0], OutputTarget::Logits);
    assert_eq!(enc_kv_output_indices(4, 1), (1, 5));
}

#[test]
fn decoder_steps_fill_the_cache() {
    let mut state = WhisperDecoderState::new::<WhisperTiny>();
    let mut decoder: WhisperDecoder<WhisperTiny> = WhisperDecoder::new();
    assert!(!decoder.has_enc_kv());
    let layers = WhisperTiny::N_LAYERS;
    let enc = vec![vec![h(7); WhisperTiny::ENC_SEQ * WhisperTiny::HIDDEN]; layers];
    decoder.set_enc_kv(&enc, &enc);
    assert!(decoder.has_enc_kv());

    decoder.begin_step(&state, 42);
    assert_eq!((decoder.token_i64, decoder.pos_i64), (42, 0));
    let lowest = h(0xfbff);
    let one = h(0x3c00);
    assert_eq!(&decoder.self_attn_mask[..3], &[h(0), lowest, lowest]);
    assert_eq!(&decoder.kv_insert_mask[..3], &[one, h(0), h(0)]);
    assert_eq!(&decoder.kv_retain_mask[..3], &[h(0), h(0), h(0)]);

    let present = vec![vec![h(9); WhisperTiny::N_HEADS * WhisperTiny::D_HEAD]; layers];
    decoder.finish_step(&mut state, &present, &present);
    assert_eq!(state.pos, 1);
    let written = state.past_k[0].iter().filter(|x| x.bits == 9).count();
    assert_eq!(written, WhisperTiny::N_HEADS * WhisperTiny::D_HEAD);

    decoder.begin_step(&state, 43);
    assert_eq!(&decoder.self_attn_mask[..3], &[h(0), h(0), lowest]);
    assert_eq!(&decoder.kv_insert_mask[..3], &[h(0), one, h(0)]);
    assert_eq!(&decoder.kv_retain_mask[..3], &[one, h(0), h(0)]);

    let copy = state.clone();
    state.reset();
    assert_eq!(state.pos, 0);
    assert!(state.past_k[0].iter().all(|x| x.bits == 0));
    assert_eq!(copy.pos, 1);
}

#[test]
fn model_sizes() {
    assert_eq!(WhisperTiny::N_HEADS * WhisperTiny::D_HEAD, WhisperTiny::HIDDEN);
    assert_eq!(WhisperLargeV3Turbo::MEL_BINS, 128);
    assert_eq!(WhisperLargeV3Turbo::N_HEADS * 64, WhisperLargeV3Turbo::HIDDEN);
}

#[test]
fn best_places_come_first() {
    let keys = floats(&[1.0, 5.0, 3.0, 5.0, -1.0]);
    assert_eq!(top_ranked(&keys, 3), vec![1, 3, 2]);
    assert_eq!(top_ranked(&keys, 9).len(), 5);
    assert!(top_ranked(&keys, 0).is_empty());
    assert_eq!(token_candidates(&keys, 2), vec![1, 3]);
}

fn small_state() -> WhisperDecoderState {
    WhisperDecoderState { past_k: Vec::new(), past_v: Vec::new(), pos: 0 }
}

#[test]
fn beams_are_extended_and_end() {
    let parents = vec![
        Beam::new(vec![1], f(-1.0), small_state(), Vec::new()),
        Beam::new(vec![1, 2], f(-2.0), small_state(), Vec::new()),
    ];
    let candidate = |parent: usize, token_id: u32, log_prob: f32| Candidate {
        parent,
        token_id,
        log_prob: f(log_prob),
    };
    let candidates =
        vec![candidate(0, 7, -3.0), candidate(1, 8, -2.5), candidate(1, 99, -2.6)];
    let expansions = expand(&parents, &candidates, 2, 99);
    assert_eq!(expansions.len(), 2);
    assert_eq!(expansions[0].tokens, vec![1, 2, 8]);
    assert!(!expansions[0].finished);
    assert_eq!(expansions[1].tokens, vec![1, 2, 99]);
    assert!(expansions[1].finished);
}

#[test]
fn beam_search_keeps_finished_beams() {
    let mut search: BeamSearch<WhisperTiny> =
        BeamSearch::new(2, small_state(), Vec::new(), vec![1, 2], f(0.6));
    let parents = search.take_parents();
    assert_eq!(parents.len(), 1);
    let expansion = |tokens: Vec<u32>, finished: bool| Expansion {
        parent: 0,
        token_id: *tokens.last().unwrap(),
        tokens,
        log_prob: f(-1.0),
        finished,
    };
    search.push(expansion(vec![1, 2, 5], false), small_state(), Vec::new());
    search.push(expansion(vec![1, 2, 9], true), small_state(), Vec::new());
    let parents = search.take_parents();
    assert_eq!(parents.len(), 1);
    assert_eq!(parents[0].tokens, vec![1, 2, 5]);
    assert_eq!(search.finished_beams.len(), 1);
    search.push(expansion(vec![1, 2, 5, 6], false), small_state(), Vec::new());
    let count = search.finished_beams.len() + search.beams.len();
    assert_eq!(count, 2);
    let best = search.best_result(&floats(&[-0.5, -0.25]));
    assert!(best.is_some());
    assert_eq!(generated_tokens(Some(vec![1, 2, 5, 6]), 2), vec![5, 6]);
    assert!(generated_tokens(None, 2).is_empty());
}

#[test]
fn wav_files_are_checked() {
    assert_eq!(wav_scale(1, 16_000, false, 16), Ok(Some(32_767)));
    assert_eq!(wav_scale(1, 16_000, true, 32), Ok(None));
    assert_eq!(wav_scale(1, 16_000, false, 24), Ok(Some(8_388_607)));
    let stereo = wav_scale(2, 16_000, false, 16).unwrap_err();
    assert_eq!(stereo.message(), "Expected mono audio, got 2 channels");
    let fast = wav_scale(1, 44_100, false, 16).unwrap_err();
    assert_eq!(fast.message(), "Expected 16 kHz sample rate, got 44100");
    assert_eq!(wav_scale(1, 16_000, false, 12), Err(WavError::UnsupportedBitDepth { bits: 12 }));
    assert_eq!(
        WavError::UnsupportedBitDepth { bits: 12 }.message(),
        "unsupported PCM bit depth: 12"
    );
}

#[test]
fn audio_is_laid_out_in_eighty_channels() {
    let input: Vec<F32> = (0..400).map(|i| f(i as f32)).collect();
    let output = polyphase_pre_process(&input);
    assert_eq!(output.len(), 800);
    // Padded sample 0 mirrors sample 200, and padded sample 80 mirrors sample 120.
    assert_eq!(output[0], f(200.0));
    assert_eq!(output[1], f(120.0));
    // Padded sample 200 is the first sample: channel 40, step 2.
    assert_eq!(output[40 * 10 + 2], f(0.0));
    assert_eq!(output[41 * 10 + 2], f(1.0));
    // Padded sample 600 mirrors the last but one: channel 40, step 7.
    assert_eq!(output[40 * 10 + 7], f(398.0));
    assert_eq!(mel_input(&input).len(), 480_400 / 80 * 80);
}

#[test]
fn least_samples_are_not_below_minus_one() {
    assert_eq!(bounded_sample(-32_768, 32_767), -32_767);
    assert_eq!(bounded_sample(-32_767, 32_767), -32_767);
    assert_eq!(bounded_sample(32_767, 32_767), 32_767);
    assert_eq!(bounded_sample(-128, 127), -127);
    assert_eq!(bounded_sample(i32::MIN, 2_147_483_647), -2_147_483_647);
    let scale = wav_scale(1, 16_000, false, 24).unwrap().unwrap();
    assert_eq!(bounded_sample(-8_388_608, scale) as f32 / scale as f32, -1.0);
    assert_eq!(bounded_sample(7, scale), 7);
}
