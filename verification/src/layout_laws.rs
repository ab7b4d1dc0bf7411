//! Laws of how audio and tensors are laid out for the models.
use vstd::prelude::*;

use crate::cache::{row_offset, shifted, with_step, with_steps};
use crate::decoder::{
    input_at, nc1hwc2_index, nc1hwc2_index_bound, nc1hwc2_index_inverse, output_at, packed, packing_keeps_all, present_reads_back, with_present,
    InputSource, Layout, OutputTarget,
};
use crate::float_bits::{F16, F32};
use crate::frontend::{padded_len, padded_sample, polyphase, polyphase_keeps_all};
use crate::grid::{in_grid, row_and_column};
use crate::spec::groups_of_eight;

verus! {

/// The audio stands behind 200 samples, which mirror its beginning, and before 200 that mirror its
/// end; the sample in the mirror is not doubled. Then come zeros. Audio that is too short to be
/// mirrored is another matter.
pub proof fn audio_is_mirrored_at_both_ends(input: Seq<F32>, k: int)
    requires
        input.len() > 200,
    ensures
        0 <= k < input.len() ==> padded_sample(input, 200 + k) == input[k],
        0 < k <= 200 ==> padded_sample(input, 200 - k) == padded_sample(input, 200 + k),
        0 < k <= 200 ==> padded_sample(input, 199 + input.len() + k) == padded_sample(
            input,
            199 + input.len() - k,
        ),
        k >= 400 + input.len() ==> padded_sample(input, k).bits == 0,
{
}

/// The padded audio is filled up to whole groups of eighty, and not further.
pub proof fn padded_audio_is_in_groups_of_eighty(n: int)
    requires
        n >= 0,
    ensures
        padded_len(n) % 80 == 0,
        n + 400 <= padded_len(n) < n + 480,
{
    let groups = (n + 400 + 79) / 80;
    assert(padded_len(n) == groups * 80);
}

/// Each sample of the audio stands in the channel that its number leads to, counted round eighty, at
/// the step that it has reached; the channels stand one behind the other.
pub proof fn channels_hold_every_eightieth_sample(input: Seq<F32>, i: int)
    requires
        0 <= i < padded_len(input.len() as int),
    ensures
        polyphase(input).len() == padded_len(input.len() as int),
        0 <= (i % 80) * (padded_len(input.len() as int) / 80) + i / 80 < polyphase(input).len(),
        polyphase(input)[(i % 80) * (padded_len(input.len() as int) / 80) + i / 80] == padded_sample(
            input,
            i,
        ),
{
    polyphase_keeps_all(input, i);
    padded_audio_is_in_groups_of_eighty(input.len() as int);
}

/// Packed keys and values stand in groups of eight sequence steps: each group holds all heads and
/// numbers, and the eight steps stand together.
pub proof fn encoder_tensors_are_in_groups_of_eight(
    src: Seq<F16>,
    s: int,
    h: int,
    d: int,
    seq: int,
    head: int,
    dim: int,
)
    requires
        src.len() == s * h * d,
        0 <= seq < s,
        0 <= head < h,
        0 <= dim < d,
    ensures
        packed(src, s, h, d)[((seq / 8 * h + head) * d + dim) * 8 + seq % 8] == src[(seq * h + head)
            * d + dim],
{
    packing_keeps_all(src, s, h, d, seq, head, dim);
}

/// A step that is written to a cache of the decoder changes the numbers of that step and no others.
pub proof fn written_steps_leave_others_alone(
    past: Seq<F16>,
    present: Seq<F16>,
    slot: int,
    t: int,
    d: int,
    h: int,
    head: int,
    step: int,
    dim: int,
)
    requires
        past.len() == crate::spec::nc1hwc2_size(h, t, d),
        0 <= slot < t,
        0 <= head < h,
        0 <= step < t,
        0 <= dim < d,
    ensures
        ({
            let place = ((head / 8 * t + step) * d + dim) * 8 + head % 8;
            let after = with_present(past, present, slot, t, d, h);
            &&& after.len() == past.len()
            &&& step == slot ==> after[place] == present[head * d + dim]
            &&& step != slot ==> after[place] == past[place]
        }),
{
    present_reads_back(past, present, slot, t, d, h, head, step, dim);
    assert(nc1hwc2_index(head, step, dim, t, d) == ((head / 8 * t + step) * d + dim) * 8 + head % 8);
}

/// The inputs of the decoder in their order: the token, the past keys of all layers, their past
/// values, the encoder's keys, its values, the three masks, and the position. The keys and values are
/// handed over as they are.
pub proof fn decoder_inputs_are_in_order(layers: int, layer: int, i: int)
    requires
        0 <= layer < layers,
        4 * layers + 5 <= u32::MAX,
    ensures
        input_at(layers, 0).source == InputSource::Token,
        input_at(layers, 1 + layer).source == (InputSource::PastK { layer: layer as usize }),
        input_at(layers, 1 + layers + layer).source == (InputSource::PastV { layer: layer as usize }),
        input_at(layers, 1 + 2 * layers + layer).source == (InputSource::EncK {
            layer: layer as usize,
        }),
        input_at(layers, 1 + 3 * layers + layer).source == (InputSource::EncV {
            layer: layer as usize,
        }),
        input_at(layers, 4 * layers + 1).source == InputSource::SelfAttnMask,
        input_at(layers, 4 * layers + 2).source == InputSource::KvInsertMask,
        input_at(layers, 4 * layers + 3).source == InputSource::KvRetainMask,
        input_at(layers, 4 * layers + 4).source == InputSource::Position,
        0 <= i <= 4 * layers + 4 ==> input_at(layers, i).index == i,
        0 <= i <= 4 * layers + 4 ==> (input_at(layers, i).pass_through <==> 1 <= i <= 4 * layers),
        1 <= i <= 4 * layers ==> input_at(layers, i).layout == Layout::Nc1hwc2,
        4 * layers + 1 <= i <= 4 * layers + 3 ==> input_at(layers, i).layout == Layout::Nhwc,
        output_at(layers, 0) == OutputTarget::Logits,
        output_at(layers, 1 + layer) == (OutputTarget::PresentK { layer: layer as usize }),
        output_at(layers, 1 + layers + layer) == (OutputTarget::PresentV { layer: layer as usize }),
{
}

/// In the packed cache the numbers of a head at a time step stand together, the time steps of a head
/// one behind the other, and so the heads of a layer and the layers.
pub proof fn cache_rows_are_in_order(
    heads: int,
    t_max: int,
    d: int,
    layer: int,
    head: int,
    t: int,
)
    ensures
        row_offset(heads, t_max, d, 0, 0, 0) == 0,
        row_offset(heads, t_max, d, layer, head, t + 1) == row_offset(heads, t_max, d, layer, head, t)
            + d,
        row_offset(heads, t_max, d, layer, head + 1, t) == row_offset(heads, t_max, d, layer, head, t)
            + t_max * d,
        row_offset(heads, t_max, d, layer + 1, head, t) == row_offset(heads, t_max, d, layer, head, t)
            + heads * t_max * d,
{
    let lane = layer * heads + head;
    assert(0 * heads == 0) by (nonlinear_arith);
    assert(0 * t_max == 0) by (nonlinear_arith);
    assert(0 * d == 0) by (nonlinear_arith);
    assert((lane * t_max + (t + 1)) * d == (lane * t_max + t) * d + d) by (nonlinear_arith);
    assert(((lane + 1) * t_max + t) * d == (lane * t_max + t) * d + t_max * d) by (nonlinear_arith);
    assert((layer + 1) * heads + head == lane + heads) by (nonlinear_arith)
        requires
            lane == layer * heads + head,
    ;
    assert(((lane + heads) * t_max + t) * d == (lane * t_max + t) * d + heads * t_max * d)
        by (nonlinear_arith);
}

/// A time step that is written to the packed cache leaves all other time steps as they were, and one
/// of a single layer leaves the other layers as they were.
pub proof fn written_rows_leave_others_alone(
    cache: Seq<F16>,
    layers: int,
    heads: int,
    t_max: int,
    d: int,
    pos: int,
    presents: Seq<&[F16]>,
    present: Seq<F16>,
    t_grow: int,
    written: int,
    layer: int,
    head: int,
    t: int,
    j: int,
)
    requires
        0 <= written < layers,
        0 <= layer < layers,
        0 <= head < heads,
        0 <= t < t_max,
        0 <= pos < t_max,
        0 <= j < d,
        cache.len() == layers * heads * t_max * d,
    ensures
        ({
            let place = row_offset(heads, t_max, d, layer, head, t) + j;
            let one = with_step(cache, heads, t_max, d, written, pos, present, t_grow);
            let all = with_steps(cache, layers, heads, t_max, d, pos, presents, t_grow);
            &&& 0 <= place < cache.len()
            &&& one.len() == cache.len()
            &&& all.len() == cache.len()
            &&& t != pos ==> all[place] == cache[place] && one[place] == cache[place]
            &&& layer != written ==> one[place] == cache[place]
            &&& t == pos && layer == written ==> one[place] == present[(head * t_grow + (t_grow - 1))
                * d + j]
            &&& t == pos ==> all[place] == presents[layer]@[(head * t_grow + (t_grow - 1)) * d + j]
        }),
{
    let lane = layer * heads + head;
    in_grid(layer, head, layers, heads);
    in_grid(lane, t, layers * heads, t_max);
    in_grid(lane * t_max + t, j, layers * heads * t_max, d);
    row_and_column(lane * t_max + t, j, d);
    row_and_column(lane, t, t_max);
    row_and_column(layer, head, heads);
    if layer != written {
        let other = lane - written * heads;
        assert(!(0 <= other < heads)) by (nonlinear_arith)
            requires
                other == layer * heads + head - written * heads,
                layer != written,
                0 <= head < heads,
        ;
    }
}

/// Compaction moves every time step to the one before it.
pub proof fn compaction_drops_the_oldest_step(
    cache: Seq<F16>,
    layers: int,
    heads: int,
    t_max: int,
    d: int,
    layer: int,
    head: int,
    t: int,
    j: int,
)
    requires
        0 <= layer < layers,
        0 <= head < heads,
        0 <= t < t_max,
        0 <= j < d,
        cache.len() == layers * heads * t_max * d,
    ensures
        ({
            let place = row_offset(heads, t_max, d, layer, head, t) + j;
            let after = shifted(cache, t_max, d);
            &&& after.len() == cache.len()
            &&& 0 <= place < cache.len()
            &&& t + 1 < t_max ==> after[place] == cache[place + d]
            &&& t + 1 == t_max ==> after[place].bits == 0
        }),
{
    let lane = layer * heads + head;
    in_grid(layer, head, layers, heads);
    in_grid(lane, t, layers * heads, t_max);
    in_grid(lane * t_max + t, j, layers * heads * t_max, d);
    row_and_column(lane * t_max + t, j, d);
    row_and_column(lane, t, t_max);
}

/// Audio that is too short to be mirrored is continued: with its last sample in front of it where the
/// mirror has none, and with its first one behind.
pub proof fn short_audio_is_continued(input: Seq<F32>, k: int)
    requires
        0 < input.len(),
    ensures
        0 <= k < input.len() ==> padded_sample(input, 200 + k) == input[k],
        0 < k <= 200 && k < input.len() ==> padded_sample(input, 200 - k) == input[k],
        0 < k <= 200 && k >= input.len() ==> padded_sample(input, 200 - k) == input.last(),
        0 < k <= 200 && k < input.len() ==> padded_sample(input, 199 + input.len() + k)
            == input[input.len() - 1 - k],
        0 < k <= 200 && k >= input.len() ==> padded_sample(input, 199 + input.len() + k) == input[0],
{
}

/// The steps that fill up the last group of eight are zero.
pub proof fn groups_are_filled_up_with_zeros(
    src: Seq<F16>,
    s: int,
    h: int,
    d: int,
    seq: int,
    head: int,
    dim: int,
)
    requires
        0 <= s <= seq < (s + 7) / 8 * 8,
        0 <= head < h,
        0 <= dim < d,
    ensures
        packed(src, s, h, d)[((seq / 8 * h + head) * d + dim) * 8 + seq % 8].bits == 0,
{
    let all = (s + 7) / 8 * 8;
    nc1hwc2_index_inverse(seq, head, dim, h, d);
    nc1hwc2_index_bound(seq, head, dim, all, h, d);
    assert(groups_of_eight(all) == groups_of_eight(s));
}

} // verus!
