//! The per-token decoder: its cache, its masks and the tensors that one step reads and writes.
use vstd::prelude::*;

use crate::float_bits::F16;
use crate::grid::{factors_positive, in_grid, position, row_and_column, row_in_grid};
use crate::spec::{fits, groups_of_eight, nc1hwc2_size, WhisperSpec};

verus! {

/// Zero.
pub open spec fn f16_zero() -> F16 {
    F16 { bits: 0 }
}

/// One.
pub open spec fn f16_one() -> F16 {
    F16 { bits: 0x3c00 }
}

/// The least finite number, -65504.
pub open spec fn f16_lowest() -> F16 {
    F16 { bits: 0xfbff }
}

////////////////////////////////////////////////////////////////////////////////
// Tensors with channels in groups of eight
////////////////////////////////////////////////////////////////////////////////

/// Numbers in a tensor of `channels` by `height` by `width`, with the channels in groups of eight.
pub fn nc1hwc2_len(channels: usize, height: usize, width: usize) -> (len: usize)
    requires
        nc1hwc2_size(channels as int, height as int, width as int) <= usize::MAX,
        height > 0,
        width > 0,
    ensures
        len == nc1hwc2_size(channels as int, height as int, width as int),
{
    let groups: usize = if channels % 8 == 0 {
        channels / 8
    } else {
        channels / 8 + 1
    };
    proof {
        let g = groups as int;
        let h = height as int;
        let w = width as int;
        assert(g == groups_of_eight(channels as int));
        assert(0 <= g * h && g * h <= (g * h) * w) by (nonlinear_arith)
            requires
                g >= 0,
                h > 0,
                w > 0,
        ;
    }
    groups * height * width * 8
}

/// The channel that a number of such a tensor belongs to.
pub open spec fn channel_of(i: int, height: int, width: int) -> int {
    (i / 8 / width / height) * 8 + i % 8
}

/// The row that a number of such a tensor belongs to.
pub open spec fn height_of(i: int, height: int, width: int) -> int {
    (i / 8 / width) % height
}

/// The column that a number of such a tensor belongs to.
pub open spec fn width_of(i: int, width: int) -> int {
    (i / 8) % width
}

/// Where the number of a channel, row and column stands in such a tensor.
pub open spec fn nc1hwc2_index(channel: int, row: int, column: int, height: int, width: int) -> int {
    ((channel / 8 * height + row) * width + column) * 8 + channel % 8
}

/// A number stands where its channel, row and column lead to.
pub proof fn nc1hwc2_index_inverse(channel: int, row: int, column: int, height: int, width: int)
    requires
        0 <= channel,
        0 <= row < height,
        0 <= column < width,
    ensures
        ({
            let i = nc1hwc2_index(channel, row, column, height, width);
            &&& channel_of(i, height, width) == channel
            &&& height_of(i, height, width) == row
            &&& width_of(i, width) == column
            &&& 0 <= i
        }),
{
    let a = channel / 8 * height + row;
    row_and_column(a * width + column, channel % 8, 8);
    row_and_column(a, column, width);
    row_and_column(channel / 8, row, height);
    assert(0 <= channel / 8 * height) by (nonlinear_arith)
        requires
            0 <= channel,
            0 <= height,
    ;
    assert(0 <= a * width) by (nonlinear_arith)
        requires
            0 <= a,
            0 <= width,
    ;
}

/// A number stands inside the tensor.
pub proof fn nc1hwc2_index_bound(
    channel: int,
    row: int,
    column: int,
    channels: int,
    height: int,
    width: int,
)
    requires
        0 <= channel < channels,
        0 <= row < height,
        0 <= column < width,
    ensures
        0 <= channel / 8 * height + row,
        0 <= (channel / 8 * height + row) * width + column,
        0 <= nc1hwc2_index(channel, row, column, height, width) < nc1hwc2_size(
            channels,
            height,
            width,
        ),
{
    let g = groups_of_eight(channels);
    in_grid(channel / 8, row, g, height);
    in_grid(channel / 8 * height + row, column, g * height, width);
    in_grid((channel / 8 * height + row) * width + column, channel % 8, g * height * width, 8);
}

/// Where a position of such a tensor comes from.
proof fn lemma_position(i: int, channels: int, height: int, width: int)
    requires
        0 <= i < nc1hwc2_size(channels, height, width),
        channels >= 0,
        height >= 0,
        width >= 0,
    ensures
        height > 0,
        width > 0,
        0 <= channel_of(i, height, width),
        0 <= height_of(i, height, width) < height,
        0 <= width_of(i, width) < width,
        i == nc1hwc2_index(
            channel_of(i, height, width),
            height_of(i, height, width),
            width_of(i, width),
            height,
            width,
        ),
{
    let g = groups_of_eight(channels);
    let gh = g * height;
    let ghw = gh * width;
    assert(gh >= 0) by (nonlinear_arith)
        requires
            gh == g * height,
            g >= 0,
            height >= 0,
    ;
    assert(ghw > 0);
    factors_positive(gh, width);
    factors_positive(g, height);
    position(i, 8);
    position(i / 8, width);
    position(i / 8 / width, height);
}

/// The logical tensor `src` of `s` by `h` by `d`, with its first dimension in groups of eight;
/// what has no counterpart is zero.
pub open spec fn packed(src: Seq<F16>, s: int, h: int, d: int) -> Seq<F16> {
    Seq::new(
        nc1hwc2_size(s, h, d) as nat,
        |i: int|
            {
                let seq = channel_of(i, h, d);
                if seq < s {
                    src[(seq * h + height_of(i, h, d)) * d + width_of(i, d)]
                } else {
                    f16_zero()
                }
            },
    )
}

/// Packs a logical tensor of `s` by `h` by `d` with its first dimension in groups of eight.
pub fn pack_enc_kv_to_nc1hwc2(src: &[F16], s: usize, h: usize, d: usize) -> (dst: Vec<F16>)
    requires
        src@.len() == s * h * d,
        h > 0,
        d > 0,
        nc1hwc2_size(s as int, h as int, d as int) <= usize::MAX,
    ensures
        dst@ == packed(src@, s as int, h as int, d as int),
{
    let len: usize = nc1hwc2_len(s, h, d);
    let src_len: usize = src.len();
    let mut dst: Vec<F16> = Vec::new();
    let mut i: usize = 0;
    while i < len
        invariant
            i <= len,
            len == nc1hwc2_size(s as int, h as int, d as int),
            src@.len() == s * h * d,
            src_len == src@.len(),
            h > 0,
            d > 0,
            dst@ == packed(src@, s as int, h as int, d as int).take(i as int),
        decreases len - i,
    {
        let dim: usize = (i / 8) % d;
        let head: usize = (i / 8 / d) % h;
        let block: usize = i / 8 / d / h;
        let lane: usize = i % 8;
        let ghost seq = block * 8 + lane;
        proof {
            let hh = h as int;
            let dd = d as int;
            lemma_position(i as int, s as int, hh, dd);
            position(i as int, 8);
            position((i / 8) as int, dd);
            position((i / 8 / d) as int, hh);
            assert(seq == channel_of(i as int, hh, dd));
            if seq < s {
                in_grid(seq, head as int, s as int, hh);
                in_grid(seq * hh + head, dim as int, s * hh, dd);
                assert(seq * hh + head <= (seq * hh + head) * dd) by (nonlinear_arith)
                    requires
                        dd > 0,
                        seq * hh + head >= 0,
                ;
                assert(seq * hh <= src_len);
            }
        }
        if block < s / 8 || (block == s / 8 && lane < s % 8) {
            let row: usize = block * 8 + lane;
            dst.push(src[(row * h + head) * d + dim]);
        } else {
            dst.push(F16 { bits: 0 });
        }
        assert(dst@ =~= packed(src@, s as int, h as int, d as int).take(i + 1));
        i = i + 1;
    }
    assert(dst@ =~= packed(src@, s as int, h as int, d as int));
    dst
}

/// Packing loses nothing: each number of the logical tensor stands where its place leads to.
pub proof fn packing_keeps_all(src: Seq<F16>, s: int, h: int, d: int, seq: int, head: int, dim: int)
    requires
        src.len() == s * h * d,
        0 <= seq < s,
        0 <= head < h,
        0 <= dim < d,
    ensures
        packed(src, s, h, d)[nc1hwc2_index(seq, head, dim, h, d)] == src[(seq * h + head) * d + dim],
{
    nc1hwc2_index_inverse(seq, head, dim, h, d);
    nc1hwc2_index_bound(seq, head, dim, s, h, d);
}

/// A cache of `h` heads, `t` steps and `d` numbers, with the step `slot` replaced by `present`.
pub open spec fn with_present(
    past: Seq<F16>,
    present: Seq<F16>,
    slot: int,
    t: int,
    d: int,
    h: int,
) -> Seq<F16> {
    Seq::new(
        past.len(),
        |i: int|
            {
                let head = channel_of(i, t, d);
                if height_of(i, t, d) == slot && head < h {
                    present[head * d + width_of(i, d)]
                } else {
                    past[i]
                }
            },
    )
}

/// True of a number that belongs to one of the first `done` numbers of a step.
spec fn done_at(i: int, slot: int, t: int, d: int, h: int, done: int) -> bool {
    height_of(i, t, d) == slot && channel_of(i, t, d) < h && channel_of(i, t, d) * d + width_of(i, d)
        < done
}

/// Writes a single step of `h` heads with `d` numbers into a cache, at `slot` of its `t` steps.
pub fn write_present_nchw_to_nc1hwc2_cache_slot(
    present: &[F16],
    past: &mut Vec<F16>,
    slot: usize,
    t: usize,
    d: usize,
    h: usize,
)
    requires
        present@.len() == h * d,
        old(past)@.len() == nc1hwc2_size(h as int, t as int, d as int),
        slot < t,
    ensures
        final(past)@ == with_present(
            old(past)@,
            present@,
            slot as int,
            t as int,
            d as int,
            h as int,
        ),
{
    let len: usize = present.len();
    let past_len: usize = past.len();
    let mut k: usize = 0;
    assert forall|i: int| 0 <= i < past@.len() implies !done_at(
        i,
        slot as int,
        t as int,
        d as int,
        h as int,
        0,
    ) by {
        lemma_position(i, h as int, t as int, d as int);
        let c = channel_of(i, t as int, d as int);
        let dd = d as int;
        assert(c * dd >= 0) by (nonlinear_arith)
            requires
                c >= 0,
                dd >= 0,
        ;
    }
    while k < len
        invariant
            k <= len,
            len == present@.len(),
            len == h * d,
            slot < t,
            past_len == past@.len(),
            past@.len() == old(past)@.len(),
            past@.len() == nc1hwc2_size(h as int, t as int, d as int),
            forall|i: int|
                0 <= i < past@.len() ==> #[trigger] past@[i] == (if done_at(
                    i,
                    slot as int,
                    t as int,
                    d as int,
                    h as int,
                    k as int,
                ) {
                    present@[channel_of(i, t as int, d as int) * d + width_of(i, d as int)]
                } else {
                    old(past)@[i]
                }),
        decreases len - k,
    {
        let ghost tt = t as int;
        let ghost dd = d as int;
        let ghost hh = h as int;
        let ghost ss = slot as int;
        proof {
            factors_positive(hh, dd);
            row_in_grid(k as int, hh, dd);
            position(k as int, dd);
        }
        let head: usize = k / d;
        let dim: usize = k % d;
        proof {
            nc1hwc2_index_inverse(head as int, ss, dim as int, tt, dd);
            nc1hwc2_index_bound(head as int, ss, dim as int, hh, tt, dd);
            let a = head as int / 8 * tt + ss;
            let b = a * dd + dim as int;
            assert(a <= a * dd) by (nonlinear_arith)
                requires
                    a >= 0,
                    dd > 0,
            ;
            assert(head as int / 8 * tt >= 0) by (nonlinear_arith)
                requires
                    head as int >= 0,
                    tt >= 0,
            ;
        }
        let dst: usize = ((head / 8 * t + slot) * d + dim) * 8 + head % 8;
        let ghost before = past@;
        past.set(dst, present[k]);
        proof {
            assert(dst == nc1hwc2_index(head as int, ss, dim as int, tt, dd));
            assert forall|i: int| 0 <= i < past@.len() implies #[trigger] past@[i] == (if done_at(
                i,
                ss,
                tt,
                dd,
                hh,
                k + 1,
            ) {
                present@[channel_of(i, tt, dd) * d + width_of(i, dd)]
            } else {
                old(past)@[i]
            }) by {
                lemma_position(i, hh, tt, dd);
                let c = channel_of(i, tt, dd);
                let w = width_of(i, dd);
                assert(past@[i] == (if i == dst {
                    present@[k as int]
                } else {
                    before[i]
                }));
                if i != dst && height_of(i, tt, dd) == ss && c * dd + w == k {
                    row_and_column(c, w, dd);
                    assert(false);
                }
            }
        }
        k = k + 1;
    }
    proof {
        let tt = t as int;
        let dd = d as int;
        let hh = h as int;
        assert forall|i: int| 0 <= i < past@.len() implies past@[i] == with_present(
            old(past)@,
            present@,
            slot as int,
            tt,
            dd,
            hh,
        )[i] by {
            lemma_position(i, hh, tt, dd);
            if channel_of(i, tt, dd) < hh {
                in_grid(channel_of(i, tt, dd), width_of(i, dd), hh, dd);
            }
        }
        assert(past@ =~= with_present(old(past)@, present@, slot as int, tt, dd, hh));
    }
}

/// A step that was written is read back, and the other steps are as they were.
pub proof fn present_reads_back(
    past: Seq<F16>,
    present: Seq<F16>,
    slot: int,
    t: int,
    d: int,
    h: int,
    head: int,
    step: int,
    dim: int,
)
    requires
        past.len() == nc1hwc2_size(h, t, d),
        0 <= slot < t,
        0 <= head < h,
        0 <= step < t,
        0 <= dim < d,
    ensures
        with_present(past, present, slot, t, d, h)[nc1hwc2_index(head, step, dim, t, d)] == (if step
            == slot {
            present[head * d + dim]
        } else {
            past[nc1hwc2_index(head, step, dim, t, d)]
        }),
{
    nc1hwc2_index_inverse(head, step, dim, t, d);
    nc1hwc2_index_bound(head, step, dim, h, t, d);
}

////////////////////////////////////////////////////////////////////////////////
// State
////////////////////////////////////////////////////////////////////////////////

/// A buffer of zeros.
pub open spec fn zero_buffer(len: int) -> Seq<F16> {
    Seq::new(len as nat, |i: int| f16_zero())
}

/// The contents of buffers.
pub open spec fn contents(buffers: Seq<Vec<F16>>) -> Seq<Seq<F16>> {
    buffers.map_values(|b: Vec<F16>| b@)
}

/// As many buffers as layers, all of one length.
pub open spec fn shaped(buffers: Seq<Vec<F16>>, layers: int, len: int) -> bool {
    &&& buffers.len() == layers
    &&& forall|l: int| 0 <= l < layers ==> (#[trigger] buffers[l])@.len() == len
}

/// A buffer of zeros.
pub fn zeros(len: usize) -> (out: Vec<F16>)
    ensures
        out@ == zero_buffer(len as int),
{
    let mut out: Vec<F16> = Vec::new();
    let mut i: usize = 0;
    while i < len
        invariant
            i <= len,
            out@ == zero_buffer(i as int),
        decreases len - i,
    {
        out.push(F16 { bits: 0 });
        i = i + 1;
        assert(out@ =~= zero_buffer(i as int));
    }
    out
}

/// Buffers of zeros.
pub fn zero_buffers(layers: usize, len: usize) -> (out: Vec<Vec<F16>>)
    ensures
        shaped(out@, layers as int, len as int),
        forall|l: int| 0 <= l < layers ==> (#[trigger] out@[l])@ == zero_buffer(len as int),
{
    let mut out: Vec<Vec<F16>> = Vec::new();
    let mut l: usize = 0;
    while l < layers
        invariant
            l <= layers,
            out@.len() == l,
            forall|j: int| 0 <= j < l ==> (#[trigger] out@[j])@ == zero_buffer(len as int),
        decreases layers - l,
    {
        out.push(zeros(len));
        l = l + 1;
    }
    out
}

/// A copy of a buffer.
fn copy_buffer(src: &Vec<F16>) -> (out: Vec<F16>)
    ensures
        out@ == src@,
{
    let mut out: Vec<F16> = Vec::new();
    out.extend_from_slice(src.as_slice());
    assert(out@ =~= src@);
    out
}

/// A copy of buffers.
fn copy_buffers(src: &Vec<Vec<F16>>) -> (out: Vec<Vec<F16>>)
    ensures
        contents(out@) == contents(src@),
{
    let mut out: Vec<Vec<F16>> = Vec::new();
    let mut l: usize = 0;
    while l < src.len()
        invariant
            l <= src@.len(),
            out@.len() == l,
            forall|j: int| 0 <= j < l ==> (#[trigger] out@[j])@ == src@[j]@,
        decreases src@.len() - l,
    {
        out.push(copy_buffer(&src[l]));
        l = l + 1;
    }
    assert(contents(out@) =~= contents(src@));
    out
}

/// The numbers of a layer's self-attention cache.
pub open spec fn past_size<S: WhisperSpec>() -> int {
    nc1hwc2_size(S::N_HEADS as int, S::T_CACHE as int, S::D_HEAD as int)
}

/// The numbers of a layer's packed encoder keys or values.
pub open spec fn enc_size<S: WhisperSpec>() -> int {
    nc1hwc2_size(S::ENC_SEQ as int, S::N_HEADS as int, S::D_HEAD as int)
}

/// What a decoder remembers of the tokens it was given: one cache of keys and one of values per
/// layer, and the number of tokens since the last reset.
#[derive(Debug)]
pub struct WhisperDecoderState {
    pub past_k: Vec<Vec<F16>>,
    pub past_v: Vec<Vec<F16>>,
    pub pos: usize,
}

/// The model of a decoder state.
pub struct DecoderStateView {
    pub past_k: Seq<Seq<F16>>,
    pub past_v: Seq<Seq<F16>>,
    pub pos: int,
}

impl View for WhisperDecoderState {
    type V = DecoderStateView;

    open spec fn view(&self) -> DecoderStateView {
        DecoderStateView {
            past_k: contents(self.past_k@),
            past_v: contents(self.past_v@),
            pos: self.pos as int,
        }
    }
}

impl Clone for WhisperDecoderState {
    fn clone(&self) -> (copy: WhisperDecoderState)
        ensures
            copy@ == self@,
    {
        WhisperDecoderState {
            past_k: copy_buffers(&self.past_k),
            past_v: copy_buffers(&self.past_v),
            pos: self.pos,
        }
    }
}

/// The state before any token.
pub open spec fn fresh_state<S: WhisperSpec>() -> DecoderStateView {
    DecoderStateView {
        past_k: Seq::new(S::N_LAYERS as nat, |l: int| zero_buffer(past_size::<S>())),
        past_v: Seq::new(S::N_LAYERS as nat, |l: int| zero_buffer(past_size::<S>())),
        pos: 0,
    }
}

impl WhisperDecoderState {
    /// The caches have the shape that a model asks for.
    pub open spec fn wf<S: WhisperSpec>(&self) -> bool {
        &&& shaped(self.past_k@, S::N_LAYERS as int, past_size::<S>())
        &&& shaped(self.past_v@, S::N_LAYERS as int, past_size::<S>())
    }

    /// The state before any token.
    pub fn new<S: WhisperSpec>() -> (state: WhisperDecoderState)
        requires
            fits::<S>(),
        ensures
            state.wf::<S>(),
            state@ == fresh_state::<S>(),
    {
        let past_len: usize = nc1hwc2_len(S::N_HEADS, S::T_CACHE, S::D_HEAD);
        let state = WhisperDecoderState {
            past_k: zero_buffers(S::N_LAYERS, past_len),
            past_v: zero_buffers(S::N_LAYERS, past_len),
            pos: 0,
        };
        assert(state@.past_k =~= fresh_state::<S>().past_k);
        assert(state@.past_v =~= fresh_state::<S>().past_v);
        state
    }

    /// Forgets all tokens.
    pub fn reset(&mut self)
        ensures
            final(self).past_k@.len() == old(self).past_k@.len(),
            final(self).past_v@.len() == old(self).past_v@.len(),
            forall|l: int|
                0 <= l < old(self).past_k@.len() ==> (#[trigger] final(self).past_k@[l])@
                    == zero_buffer(old(self).past_k@[l]@.len() as int),
            forall|l: int|
                0 <= l < old(self).past_v@.len() ==> (#[trigger] final(self).past_v@[l])@
                    == zero_buffer(old(self).past_v@[l]@.len() as int),
            final(self).pos == 0,
    {
        let past_k = cleared(&self.past_k);
        let past_v = cleared(&self.past_v);
        self.past_k = past_k;
        self.past_v = past_v;
        self.pos = 0;
    }
}

/// Buffers of the same lengths, all zero.
fn cleared(buffers: &Vec<Vec<F16>>) -> (out: Vec<Vec<F16>>)
    ensures
        out@.len() == buffers@.len(),
        forall|l: int|
            0 <= l < buffers@.len() ==> (#[trigger] out@[l])@ == zero_buffer(
                buffers@[l]@.len() as int,
            ),
{
    let mut out: Vec<Vec<F16>> = Vec::new();
    let mut l: usize = 0;
    while l < buffers.len()
        invariant
            l <= buffers@.len(),
            out@.len() == l,
            forall|j: int|
                0 <= j < l ==> (#[trigger] out@[j])@ == zero_buffer(buffers@[j]@.len() as int),
        decreases buffers@.len() - l,
    {
        out.push(zeros(buffers[l].len()));
        l = l + 1;
    }
    out
}

/// A reset state of a model is the state before any token.
pub proof fn reset_is_fresh<S: WhisperSpec>(state: &WhisperDecoderState)
    requires
        shaped(state.past_k@, S::N_LAYERS as int, past_size::<S>()),
        shaped(state.past_v@, S::N_LAYERS as int, past_size::<S>()),
        forall|l: int|
            0 <= l < S::N_LAYERS ==> (#[trigger] state.past_k@[l])@ == zero_buffer(
                past_size::<S>(),
            ),
        forall|l: int|
            0 <= l < S::N_LAYERS ==> (#[trigger] state.past_v@[l])@ == zero_buffer(
                past_size::<S>(),
            ),
        state.pos == 0,
    ensures
        state@ == fresh_state::<S>(),
{
    assert(state@.past_k =~= fresh_state::<S>().past_k);
    assert(state@.past_v =~= fresh_state::<S>().past_v);
}

////////////////////////////////////////////////////////////////////////////////
// Masks
////////////////////////////////////////////////////////////////////////////////

/// Where the token at position `pos` goes in a cache of `t` steps.
pub open spec fn write_slot(pos: int, t: int) -> int {
    pos % t
}

/// What attention adds to the score of cache step `i`: nothing for the steps up to the current
/// token, and for all once the cache has been filled; the lowest number for the others.
pub open spec fn attends(pos: int, t: int, i: int) -> F16 {
    if pos >= t || i <= pos {
        f16_zero()
    } else {
        f16_lowest()
    }
}

/// One for the step that the current token is written to.
pub open spec fn inserts(pos: int, t: int, i: int) -> F16 {
    if i == write_slot(pos, t) {
        f16_one()
    } else {
        f16_zero()
    }
}

/// One for the steps that hold earlier tokens and are kept.
pub open spec fn retains(pos: int, t: int, i: int) -> F16 {
    if i != write_slot(pos, t) && (pos >= t || i < pos) {
        f16_one()
    } else {
        f16_zero()
    }
}

/// A cache step is attended to exactly when it is inserted or retained, and never both.
pub proof fn masks_agree(pos: int, t: int, i: int)
    requires
        0 <= pos,
        0 <= i < t,
    ensures
        attends(pos, t, i) == f16_zero() <==> (inserts(pos, t, i) == f16_one() || retains(pos, t, i)
            == f16_one()),
        !(inserts(pos, t, i) == f16_one() && retains(pos, t, i) == f16_one()),
{
    if pos < t {
        assert(pos % t == pos) by (nonlinear_arith)
            requires
                0 <= pos < t,
        ;
    }
}

////////////////////////////////////////////////////////////////////////////////
// Tensors of a step
////////////////////////////////////////////////////////////////////////////////

/// Which buffer a decoder input is bound to.
#[derive(Clone, Copy, Debug, PartialEq, Eq, Structural)]
pub enum InputSource {
    Token,
    PastK { layer: usize },
    PastV { layer: usize },
    EncK { layer: usize },
    EncV { layer: usize },
    SelfAttnMask,
    KvInsertMask,
    KvRetainMask,
    Position,
}

/// How a tensor is laid out.
#[derive(Clone, Copy, Debug, PartialEq, Eq, Structural)]
pub enum Layout {
    Undefined,
    Nc1hwc2,
    Nhwc,
}

/// A decoder input: its number, its buffer, whether it is handed over as it is, and its layout.
#[derive(Clone, Copy, Debug, PartialEq, Eq, Structural)]
pub struct StepInput {
    pub index: u32,
    pub source: InputSource,
    pub pass_through: bool,
    pub layout: Layout,
}

/// Which buffer a decoder output fills.
#[derive(Clone, Copy, Debug, PartialEq, Eq, Structural)]
pub enum OutputTarget {
    Logits,
    PresentK { layer: usize },
    PresentV { layer: usize },
}

/// Decoder input `i` of a model with `l` layers: the token, the past keys and values, the
/// encoder's keys and values, three masks and the position.
pub open spec fn input_at(l: int, i: int) -> StepInput {
    let index = i as u32;
    if i == 0 {
        StepInput { index, source: InputSource::Token, pass_through: false, layout: Layout::Undefined }
    } else if i <= l {
        StepInput {
            index,
            source: InputSource::PastK { layer: (i - 1) as usize },
            pass_through: true,
            layout: Layout::Nc1hwc2,
        }
    } else if i <= 2 * l {
        StepInput {
            index,
            source: InputSource::PastV { layer: (i - 1 - l) as usize },
            pass_through: true,
            layout: Layout::Nc1hwc2,
        }
    } else if i <= 3 * l {
        StepInput {
            index,
            source: InputSource::EncK { layer: (i - 1 - 2 * l) as usize },
            pass_through: true,
            layout: Layout::Nc1hwc2,
        }
    } else if i <= 4 * l {
        StepInput {
            index,
            source: InputSource::EncV { layer: (i - 1 - 3 * l) as usize },
            pass_through: true,
            layout: Layout::Nc1hwc2,
        }
    } else if i == 4 * l + 1 {
        StepInput { index, source: InputSource::SelfAttnMask, pass_through: false, layout: Layout::Nhwc }
    } else if i == 4 * l + 2 {
        StepInput { index, source: InputSource::KvInsertMask, pass_through: false, layout: Layout::Nhwc }
    } else if i == 4 * l + 3 {
        StepInput { index, source: InputSource::KvRetainMask, pass_through: false, layout: Layout::Nhwc }
    } else {
        StepInput { index, source: InputSource::Position, pass_through: false, layout: Layout::Undefined }
    }
}

/// The inputs of a decoder step, in order.
pub fn decoder_inputs(layers: usize) -> (inputs: Vec<StepInput>)
    requires
        4 * layers + 5 <= u32::MAX,
    ensures
        inputs@ == Seq::new((4 * layers + 5) as nat, |i: int| input_at(layers as int, i)),
{
    let mut inputs: Vec<StepInput> = Vec::new();
    let n: usize = 4 * layers + 5;
    let mut i: usize = 0;
    while i < n
        invariant
            i <= n,
            n == 4 * layers + 5,
            n <= u32::MAX,
            inputs@ == Seq::new(i as nat, |j: int| input_at(layers as int, j)),
        decreases n - i,
    {
        let (source, pass_through, layout) = if i == 0 {
            (InputSource::Token, false, Layout::Undefined)
        } else if i <= layers {
            (InputSource::PastK { layer: i - 1 }, true, Layout::Nc1hwc2)
        } else if i <= 2 * layers {
            (InputSource::PastV { layer: i - 1 - layers }, true, Layout::Nc1hwc2)
        } else if i <= 3 * layers {
            (InputSource::EncK { layer: i - 1 - 2 * layers }, true, Layout::Nc1hwc2)
        } else if i <= 4 * layers {
            (InputSource::EncV { layer: i - 1 - 3 * layers }, true, Layout::Nc1hwc2)
        } else if i == 4 * layers + 1 {
            (InputSource::SelfAttnMask, false, Layout::Nhwc)
        } else if i == 4 * layers + 2 {
            (InputSource::KvInsertMask, false, Layout::Nhwc)
        } else if i == 4 * layers + 3 {
            (InputSource::KvRetainMask, false, Layout::Nhwc)
        } else {
            (InputSource::Position, false, Layout::Undefined)
        };
        inputs.push(StepInput { index: i as u32, source, pass_through, layout });
        i = i + 1;
        assert(inputs@ =~= Seq::new(i as nat, |j: int| input_at(layers as int, j)));
    }
    inputs
}

/// Decoder output `i` of a model with `l` layers: the logits, then the keys and the values of the
/// token, layer by layer.
pub open spec fn output_at(l: int, i: int) -> OutputTarget {
    if i == 0 {
        OutputTarget::Logits
    } else if i <= l {
        OutputTarget::PresentK { layer: (i - 1) as usize }
    } else {
        OutputTarget::PresentV { layer: (i - 1 - l) as usize }
    }
}

/// The outputs of a decoder step, in order of their numbers.
pub fn decoder_outputs(layers: usize) -> (outputs: Vec<OutputTarget>)
    requires
        2 * layers + 1 <= u32::MAX,
    ensures
        outputs@ == Seq::new((2 * layers + 1) as nat, |i: int| output_at(layers as int, i)),
{
    let mut outputs: Vec<OutputTarget> = Vec::new();
    let n: usize = 2 * layers + 1;
    let mut i: usize = 0;
    while i < n
        invariant
            i <= n,
            n == 2 * layers + 1,
            n <= u32::MAX,
            outputs@ == Seq::new(i as nat, |j: int| output_at(layers as int, j)),
        decreases n - i,
    {
        outputs.push(
            if i == 0 {
                OutputTarget::Logits
            } else if i <= layers {
                OutputTarget::PresentK { layer: i - 1 }
            } else {
                OutputTarget::PresentV { layer: i - 1 - layers }
            },
        );
        i = i + 1;
        assert(outputs@ =~= Seq::new(i as nat, |j: int| output_at(layers as int, j)));
    }
    outputs
}

/// The number of the encoder key-value output with the keys of a layer, and of the one with the
/// values: first the keys of all layers, then the values.
pub fn enc_kv_output_indices(layers: usize, layer: usize) -> (indices: (u32, u32))
    requires
        layer < layers,
        2 * layers <= u32::MAX,
    ensures
        indices.0 == layer,
        indices.1 == layers + layer,
{
    (layer as u32, (layers + layer) as u32)
}

////////////////////////////////////////////////////////////////////////////////
// The decoder
////////////////////////////////////////////////////////////////////////////////

/// The buffers that a decoder binds to its model besides the state: the encoder's keys and values
/// of the current window, the masks, the token and its position.
pub struct WhisperDecoder<S: WhisperSpec> {
    pub enc_k: Vec<Vec<F16>>,
    pub enc_v: Vec<Vec<F16>>,
    pub self_attn_mask: Vec<F16>,
    pub kv_insert_mask: Vec<F16>,
    pub kv_retain_mask: Vec<F16>,
    pub token_i64: i64,
    pub pos_i64: i64,
    pub phantom: core::marker::PhantomData<S>,
}

impl<S: WhisperSpec> WhisperDecoder<S> {
    /// The encoder buffers have the shape of the model.
    pub open spec fn wf(&self) -> bool {
        &&& shaped(self.enc_k@, S::N_LAYERS as int, enc_size::<S>())
        &&& shaped(self.enc_v@, S::N_LAYERS as int, enc_size::<S>())
    }

    /// Some number of the first layer's encoder keys is not zero.
    pub open spec fn enc_is_set(&self) -> bool {
        S::N_LAYERS > 0 && exists|i: int|
            0 <= i < self.enc_k@[0]@.len() && (#[trigger] self.enc_k@[0]@[i]).bits % 0x8000 != 0
    }

    /// The masks, the token and the position are those of a step at `pos`.
    pub open spec fn ready(&self, pos: int, token_id: u32) -> bool {
        &&& self.self_attn_mask@ == Seq::new(
            S::T_CACHE as nat,
            |i: int| attends(pos, S::T_CACHE as int, i),
        )
        &&& self.kv_insert_mask@ == Seq::new(
            S::T_CACHE as nat,
            |i: int| inserts(pos, S::T_CACHE as int, i),
        )
        &&& self.kv_retain_mask@ == Seq::new(
            S::T_CACHE as nat,
            |i: int| retains(pos, S::T_CACHE as int, i),
        )
        &&& self.token_i64 == token_id
        &&& self.pos_i64 == pos
    }

    /// A decoder without an encoded window.
    pub fn new() -> (decoder: WhisperDecoder<S>)
        requires
            fits::<S>(),
        ensures
            decoder.wf(),
            forall|l: int|
                0 <= l < S::N_LAYERS ==> (#[trigger] decoder.enc_k@[l])@ == zero_buffer(
                    enc_size::<S>(),
                ),
            forall|l: int|
                0 <= l < S::N_LAYERS ==> (#[trigger] decoder.enc_v@[l])@ == zero_buffer(
                    enc_size::<S>(),
                ),
            decoder.self_attn_mask@ == zero_buffer(S::T_CACHE as int),
            decoder.kv_insert_mask@ == zero_buffer(S::T_CACHE as int),
            decoder.kv_retain_mask@ == zero_buffer(S::T_CACHE as int),
            decoder.token_i64 == 0,
            decoder.pos_i64 == 0,
    {
        let enc_len: usize = nc1hwc2_len(S::ENC_SEQ, S::N_HEADS, S::D_HEAD);
        WhisperDecoder {
            enc_k: zero_buffers(S::N_LAYERS, enc_len),
            enc_v: zero_buffers(S::N_LAYERS, enc_len),
            self_attn_mask: zeros(S::T_CACHE),
            kv_insert_mask: zeros(S::T_CACHE),
            kv_retain_mask: zeros(S::T_CACHE),
            token_i64: 0,
            pos_i64: 0,
            phantom: core::marker::PhantomData,
        }
    }

    /// Takes the encoder's keys and values of a window, one logical tensor per layer, and packs
    /// them for the model.
    pub fn set_enc_kv(&mut self, enc_k: &Vec<Vec<F16>>, enc_v: &Vec<Vec<F16>>)
        requires
            fits::<S>(),
            shaped(enc_k@, S::N_LAYERS as int, S::ENC_SEQ * S::N_HEADS * S::D_HEAD),
            shaped(enc_v@, S::N_LAYERS as int, S::ENC_SEQ * S::N_HEADS * S::D_HEAD),
        ensures
            final(self).wf(),
            forall|l: int|
                0 <= l < S::N_LAYERS ==> (#[trigger] final(self).enc_k@[l])@ == packed(
                    enc_k@[l]@,
                    S::ENC_SEQ as int,
                    S::N_HEADS as int,
                    S::D_HEAD as int,
                ),
            forall|l: int|
                0 <= l < S::N_LAYERS ==> (#[trigger] final(self).enc_v@[l])@ == packed(
                    enc_v@[l]@,
                    S::ENC_SEQ as int,
                    S::N_HEADS as int,
                    S::D_HEAD as int,
                ),
            final(self).self_attn_mask == old(self).self_attn_mask,
            final(self).kv_insert_mask == old(self).kv_insert_mask,
            final(self).kv_retain_mask == old(self).kv_retain_mask,
            final(self).token_i64 == old(self).token_i64,
            final(self).pos_i64 == old(self).pos_i64,
    {
        self.enc_k = pack_layers::<S>(enc_k);
        self.enc_v = pack_layers::<S>(enc_v);
    }

    /// Whether the encoder's keys and values have been set.
    pub fn has_enc_kv(&self) -> (set: bool)
        requires
            S::N_LAYERS > 0,
            self.wf(),
        ensures
            set == self.enc_is_set(),
    {
        let first: &Vec<F16> = &self.enc_k[0];
        let mut i: usize = 0;
        while i < first.len()
            invariant
                i <= first@.len(),
                S::N_LAYERS > 0,
                self.wf(),
                *first == self.enc_k@[0],
                forall|j: int| 0 <= j < i ==> (#[trigger] first@[j]).bits % 0x8000 == 0,
            decreases first@.len() - i,
        {
            if first[i].bits % 0x8000 != 0 {
                assert(self.enc_k@[0]@[i as int].bits % 0x8000 != 0);
                return true;
            }
            i = i + 1;
        }
        false
    }

    /// Prepares a step: sets the masks, the token and the position for a token that is given to a
    /// state. The encoder's keys and values must have been set.
    pub fn begin_step(&mut self, state: &WhisperDecoderState, token_id: u32)
        requires
            fits::<S>(),
            old(self).wf(),
            old(self).enc_is_set(),
            state.pos <= i64::MAX,
        ensures
            final(self).ready(state.pos as int, token_id),
            final(self).wf(),
            final(self).enc_k == old(self).enc_k,
            final(self).enc_v == old(self).enc_v,
    {
        let t: usize = S::T_CACHE;
        let pos: usize = state.pos;
        let slot: usize = pos % t;
        let mut attn: Vec<F16> = Vec::new();
        let mut insert: Vec<F16> = Vec::new();
        let mut retain: Vec<F16> = Vec::new();
        let mut i: usize = 0;
        while i < t
            invariant
                i <= t,
                t > 0,
                t == S::T_CACHE,
                slot == write_slot(pos as int, t as int),
                attn@ == Seq::new(i as nat, |j: int| attends(pos as int, t as int, j)),
                insert@ == Seq::new(i as nat, |j: int| inserts(pos as int, t as int, j)),
                retain@ == Seq::new(i as nat, |j: int| retains(pos as int, t as int, j)),
            decreases t - i,
        {
            attn.push(
                if pos >= t || i <= pos {
                    F16 { bits: 0 }
                } else {
                    F16 { bits: 0xfbff }
                },
            );
            insert.push(
                if i == slot {
                    F16 { bits: 0x3c00 }
                } else {
                    F16 { bits: 0 }
                },
            );
            retain.push(
                if i != slot && (pos >= t || i < pos) {
                    F16 { bits: 0x3c00 }
                } else {
                    F16 { bits: 0 }
                },
            );
            i = i + 1;
            assert(attn@ =~= Seq::new(i as nat, |j: int| attends(pos as int, t as int, j)));
            assert(insert@ =~= Seq::new(i as nat, |j: int| inserts(pos as int, t as int, j)));
            assert(retain@ =~= Seq::new(i as nat, |j: int| retains(pos as int, t as int, j)));
        }
        self.self_attn_mask = attn;
        self.kv_insert_mask = insert;
        self.kv_retain_mask = retain;
        self.token_i64 = token_id as i64;
        self.pos_i64 = pos as i64;
    }

    /// Completes a step: stores the keys and values that the model gave for the token, one buffer
    /// per layer, and counts the token.
    pub fn finish_step(
        &self,
        state: &mut WhisperDecoderState,
        present_k: &Vec<Vec<F16>>,
        present_v: &Vec<Vec<F16>>,
    )
        requires
            fits::<S>(),
            old(state).wf::<S>(),
            old(state).pos < usize::MAX,
            shaped(present_k@, S::N_LAYERS as int, S::N_HEADS * S::D_HEAD),
            shaped(present_v@, S::N_LAYERS as int, S::N_HEADS * S::D_HEAD),
        ensures
            final(state).wf::<S>(),
            final(state)@ == stepped::<S>(old(state)@, contents(present_k@), contents(present_v@)),
    {
        let slot: usize = state.pos % S::T_CACHE;
        write_layers::<S>(&mut state.past_k, present_k, slot);
        write_layers::<S>(&mut state.past_v, present_v, slot);
        state.pos = state.pos + 1;
        proof {
            let after = stepped::<S>(old(state)@, contents(present_k@), contents(present_v@));
            assert(state@.past_k =~= after.past_k);
            assert(state@.past_v =~= after.past_v);
        }
    }
}

/// The state after one more token, whose keys and values are given layer by layer: they replace
/// the step that the token's position leads to.
pub open spec fn stepped<S: WhisperSpec>(
    state: DecoderStateView,
    present_k: Seq<Seq<F16>>,
    present_v: Seq<Seq<F16>>,
) -> DecoderStateView {
    let t = S::T_CACHE as int;
    let d = S::D_HEAD as int;
    let h = S::N_HEADS as int;
    let slot = write_slot(state.pos, t);
    DecoderStateView {
        past_k: Seq::new(
            state.past_k.len(),
            |l: int| with_present(state.past_k[l], present_k[l], slot, t, d, h),
        ),
        past_v: Seq::new(
            state.past_v.len(),
            |l: int| with_present(state.past_v[l], present_v[l], slot, t, d, h),
        ),
        pos: state.pos + 1,
    }
}

/// The state after tokens whose keys and values are given.
pub open spec fn after_tokens<S: WhisperSpec>(tokens: Seq<(Seq<Seq<F16>>, Seq<Seq<F16>>)>) -> DecoderStateView
    decreases tokens.len(),
{
    if tokens.len() == 0 {
        fresh_state::<S>()
    } else {
        stepped::<S>(after_tokens::<S>(tokens.drop_last()), tokens.last().0, tokens.last().1)
    }
}

/// The cache holds the latest tokens: as long as no more than `T_CACHE` tokens have come since,
/// the keys and values of a token are found at the step that its position leads to.
pub proof fn cache_holds_latest<S: WhisperSpec>(
    tokens: Seq<(Seq<Seq<F16>>, Seq<Seq<F16>>)>,
    p: int,
    layer: int,
    head: int,
    dim: int,
)
    requires
        fits::<S>(),
        0 <= p < tokens.len(),
        tokens.len() - p <= S::T_CACHE,
        0 <= layer < S::N_LAYERS,
        0 <= head < S::N_HEADS,
        0 <= dim < S::D_HEAD,
    ensures
        ({
            let state = after_tokens::<S>(tokens);
            let place = nc1hwc2_index(
                head,
                write_slot(p, S::T_CACHE as int),
                dim,
                S::T_CACHE as int,
                S::D_HEAD as int,
            );
            &&& state.pos == tokens.len()
            &&& state.past_k[layer][place] == tokens[p].0[layer][head * S::D_HEAD + dim]
            &&& state.past_v[layer][place] == tokens[p].1[layer][head * S::D_HEAD + dim]
        }),
    decreases tokens.len(),
{
    let t = S::T_CACHE as int;
    let d = S::D_HEAD as int;
    let h = S::N_HEADS as int;
    let n = tokens.len() - 1;
    let before = after_tokens::<S>(tokens.drop_last());
    lemma_after_tokens::<S>(tokens.drop_last());
    position(p, t);
    position(n, t);
    present_reads_back(
        before.past_k[layer],
        tokens.last().0[layer],
        n % t,
        t,
        d,
        h,
        head,
        p % t,
        dim,
    );
    present_reads_back(
        before.past_v[layer],
        tokens.last().1[layer],
        n % t,
        t,
        d,
        h,
        head,
        p % t,
        dim,
    );
    if p < n {
        cache_holds_latest::<S>(tokens.drop_last(), p, layer, head, dim);
        if p % t == n % t {
            let a = n / t;
            let b = p / t;
            assert(a * t - b * t == (a - b) * t) by (nonlinear_arith);
            assert(false) by (nonlinear_arith)
                requires
                    0 < (a - b) * t < t,
                    t > 0,
            ;
        }
    }
}

/// A step looks at all tokens that were given and are still kept, and at nothing else. While the
/// cache is not full these are the steps up to the token's own; then all steps are. The token goes to
/// the one step that its position leads to, counted round the cache, and every other step with a
/// token is kept as it is.
pub proof fn steps_see_all_given_tokens<S: WhisperSpec>(
    decoder: WhisperDecoder<S>,
    pos: int,
    token_id: u32,
    i: int,
)
    requires
        fits::<S>(),
        decoder.ready(pos, token_id),
        0 <= pos,
        0 <= i < S::T_CACHE,
    ensures
        ({
            let t = S::T_CACHE as int;
            let attention = decoder.self_attn_mask@[i].bits;
            let insert = decoder.kv_insert_mask@[i].bits;
            let retain = decoder.kv_retain_mask@[i].bits;
            &&& decoder.self_attn_mask@.len() == t
            &&& decoder.kv_insert_mask@.len() == t
            &&& decoder.kv_retain_mask@.len() == t
            &&& pos < t && i < pos ==> attention == 0 && insert == 0 && retain == 0x3c00
            &&& pos < t && i == pos ==> attention == 0 && insert == 0x3c00 && retain == 0
            &&& pos < t && i > pos ==> attention == 0xfbff && insert == 0 && retain == 0
            &&& pos >= t && pos % t == i ==> attention == 0 && insert == 0x3c00 && retain == 0
            &&& pos >= t && pos % t != i ==> attention == 0 && insert == 0 && retain == 0x3c00
            &&& decoder.token_i64 == token_id
            &&& decoder.pos_i64 == pos
        }),
{
    let t = S::T_CACHE as int;
    if pos < t {
        vstd::arithmetic::div_mod::lemma_small_mod(pos as nat, t as nat);
    }
}

/// How many entries of a mask are zero.
pub open spec fn zeros_in(mask: Seq<F16>) -> nat
    decreases mask.len(),
{
    if mask.len() == 0 {
        0
    } else {
        zeros_in(mask.drop_last()) + (if mask.last().bits == 0 {
            1nat
        } else {
            0
        })
    }
}

/// A step looks at as many tokens as were given, itself among them, up to the size of the cache.
pub proof fn steps_see_as_many_as_given<S: WhisperSpec>(
    decoder: WhisperDecoder<S>,
    pos: int,
    token_id: u32,
)
    requires
        fits::<S>(),
        decoder.ready(pos, token_id),
        0 <= pos,
    ensures
        zeros_in(decoder.self_attn_mask@) == (if pos + 1 < S::T_CACHE {
            pos + 1
        } else {
            S::T_CACHE as int
        }),
{
    assert forall|i: int| 0 <= i < S::T_CACHE implies ((#[trigger] decoder.self_attn_mask@[i]).bits
        == 0 <==> i <= pos) by {
        steps_see_all_given_tokens(decoder, pos, token_id, i);
    }
    let mask = decoder.self_attn_mask@;
    lemma_zeros_in(mask, pos, mask.len() as int);
    assert(mask.take(mask.len() as int) =~= mask);
}

proof fn lemma_zeros_in(mask: Seq<F16>, pos: int, n: int)
    requires
        0 <= n <= mask.len(),
        0 <= pos,
        forall|i: int| 0 <= i < mask.len() ==> ((#[trigger] mask[i]).bits == 0 <==> i <= pos),
    ensures
        zeros_in(mask.take(n)) == (if pos + 1 < n {
            pos + 1
        } else {
            n
        }),
    decreases n,
{
    if n > 0 {
        lemma_zeros_in(mask, pos, n - 1);
        assert(mask.take(n).drop_last() =~= mask.take(n - 1));
        assert(mask.take(n).last() == mask[n - 1]);
    }
}

/// What a step looks at is what the cache holds: the keys and values of each of the latest tokens
/// are found at the step that its position leads to, counted round the cache, and the next step
/// looks there and keeps them, unless the new token takes the place.
pub proof fn steps_see_what_the_cache_holds<S: WhisperSpec>(
    tokens: Seq<(Seq<Seq<F16>>, Seq<Seq<F16>>)>,
    decoder: WhisperDecoder<S>,
    token_id: u32,
    p: int,
    layer: int,
    head: int,
    dim: int,
)
    requires
        fits::<S>(),
        decoder.ready(tokens.len() as int, token_id),
        0 <= p < tokens.len(),
        tokens.len() - p < S::T_CACHE,
        0 <= layer < S::N_LAYERS,
        0 <= head < S::N_HEADS,
        0 <= dim < S::D_HEAD,
    ensures
        ({
            let t = S::T_CACHE as int;
            let step = p % t;
            let place = ((head / 8 * t + step) * S::D_HEAD + dim) * 8 + head % 8;
            &&& after_tokens::<S>(tokens).past_k[layer][place] == tokens[p].0[layer][head * S::D_HEAD
                + dim]
            &&& after_tokens::<S>(tokens).past_v[layer][place] == tokens[p].1[layer][head * S::D_HEAD
                + dim]
            &&& decoder.self_attn_mask@[step].bits == 0
            &&& decoder.kv_retain_mask@[step].bits == 0x3c00
            &&& decoder.kv_insert_mask@[step].bits == 0
        }),
{
    let t = S::T_CACHE as int;
    let n = tokens.len() as int;
    cache_holds_latest::<S>(tokens, p, layer, head, dim);
    position(p, t);
    position(n, t);
    steps_see_all_given_tokens(decoder, n, token_id, p % t);
    if n < t {
        vstd::arithmetic::div_mod::lemma_small_mod(p as nat, t as nat);
    } else if p % t == n % t {
        let a = n / t;
        let b = p / t;
        assert(a * t - b * t == (a - b) * t) by (nonlinear_arith);
        assert(false) by (nonlinear_arith)
            requires
                0 < (a - b) * t < t,
                t > 0,
        ;
    }
}

/// The shape of the state after some tokens.
proof fn lemma_after_tokens<S: WhisperSpec>(tokens: Seq<(Seq<Seq<F16>>, Seq<Seq<F16>>)>)
    requires
        fits::<S>(),
    ensures
        ({
            let state = after_tokens::<S>(tokens);
            &&& state.pos == tokens.len()
            &&& state.past_k.len() == S::N_LAYERS
            &&& state.past_v.len() == S::N_LAYERS
            &&& forall|l: int|
                0 <= l < S::N_LAYERS ==> (#[trigger] state.past_k[l]).len() == past_size::<S>()
            &&& forall|l: int|
                0 <= l < S::N_LAYERS ==> (#[trigger] state.past_v[l]).len() == past_size::<S>()
        }),
    decreases tokens.len(),
{
    let g = groups_of_eight(S::N_HEADS as int);
    let t = S::T_CACHE as int;
    let d = S::D_HEAD as int;
    let gt = g * t;
    assert(gt >= 0) by (nonlinear_arith)
        requires
            g >= 0,
            t >= 0,
            gt == g * t,
    ;
    assert(gt * d >= 0) by (nonlinear_arith)
        requires
            gt >= 0,
            d >= 0,
    ;
    if tokens.len() > 0 {
        lemma_after_tokens::<S>(tokens.drop_last());
    }
}

/// Packs the logical tensors of all layers.
fn pack_layers<S: WhisperSpec>(src: &Vec<Vec<F16>>) -> (out: Vec<Vec<F16>>)
    requires
        fits::<S>(),
        shaped(src@, S::N_LAYERS as int, S::ENC_SEQ * S::N_HEADS * S::D_HEAD),
    ensures
        shaped(out@, S::N_LAYERS as int, enc_size::<S>()),
        forall|l: int|
            0 <= l < S::N_LAYERS ==> (#[trigger] out@[l])@ == packed(
                src@[l]@,
                S::ENC_SEQ as int,
                S::N_HEADS as int,
                S::D_HEAD as int,
            ),
{
    let mut out: Vec<Vec<F16>> = Vec::new();
    let mut l: usize = 0;
    proof {
        lemma_enc_size_positive::<S>();
    }
    while l < S::N_LAYERS
        invariant
            fits::<S>(),
            enc_size::<S>() >= 0,
            l <= S::N_LAYERS,
            out@.len() == l,
            shaped(src@, S::N_LAYERS as int, S::ENC_SEQ * S::N_HEADS * S::D_HEAD),
            forall|j: int|
                0 <= j < l ==> (#[trigger] out@[j])@ == packed(
                    src@[j]@,
                    S::ENC_SEQ as int,
                    S::N_HEADS as int,
                    S::D_HEAD as int,
                ),
        decreases S::N_LAYERS - l,
    {
        out.push(
            pack_enc_kv_to_nc1hwc2(src[l].as_slice(), S::ENC_SEQ, S::N_HEADS, S::D_HEAD),
        );
        l = l + 1;
    }
    out
}

proof fn lemma_enc_size_positive<S: WhisperSpec>()
    ensures
        enc_size::<S>() >= 0,
{
    let g = groups_of_eight(S::ENC_SEQ as int);
    let h = S::N_HEADS as int;
    let d = S::D_HEAD as int;
    let gh = g * h;
    assert(gh >= 0) by (nonlinear_arith)
        requires
            g >= 0,
            h >= 0,
            gh == g * h,
    ;
    assert(gh * d >= 0) by (nonlinear_arith)
        requires
            gh >= 0,
            d >= 0,
    ;
}

/// Writes a step into the caches of all layers.
fn write_layers<S: WhisperSpec>(past: &mut Vec<Vec<F16>>, present: &Vec<Vec<F16>>, slot: usize)
    requires
        fits::<S>(),
        slot < S::T_CACHE,
        shaped(old(past)@, S::N_LAYERS as int, past_size::<S>()),
        shaped(present@, S::N_LAYERS as int, S::N_HEADS * S::D_HEAD),
    ensures
        shaped(final(past)@, S::N_LAYERS as int, past_size::<S>()),
        forall|l: int|
            0 <= l < S::N_LAYERS ==> (#[trigger] final(past)@[l])@ == with_present(
                old(past)@[l]@,
                present@[l]@,
                slot as int,
                S::T_CACHE as int,
                S::D_HEAD as int,
                S::N_HEADS as int,
            ),
{
    let mut l: usize = 0;
    while l < S::N_LAYERS
        invariant
            fits::<S>(),
            slot < S::T_CACHE,
            l <= S::N_LAYERS,
            past@.len() == S::N_LAYERS,
            shaped(old(past)@, S::N_LAYERS as int, past_size::<S>()),
            shaped(present@, S::N_LAYERS as int, S::N_HEADS * S::D_HEAD),
            forall|j: int|
                0 <= j < S::N_LAYERS ==> (#[trigger] past@[j])@ == (if j < l {
                    with_present(
                        old(past)@[j]@,
                        present@[j]@,
                        slot as int,
                        S::T_CACHE as int,
                        S::D_HEAD as int,
                        S::N_HEADS as int,
                    )
                } else {
                    old(past)@[j]@
                }),
        decreases S::N_LAYERS - l,
    {
        write_present_nchw_to_nc1hwc2_cache_slot(
            present[l].as_slice(),
            &mut past[l],
            slot,
            S::T_CACHE,
            S::D_HEAD,
            S::N_HEADS,
        );
        l = l + 1;
    }
}

} // verus!
