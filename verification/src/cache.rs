//! A packed cache of attention keys and values, with the layers, heads and time steps laid out
//! one inside the other.
use vstd::prelude::*;

use crate::float_bits::F16;
use crate::grid::{factors_positive, in_grid, position, row_and_column, row_in_grid};

verus! {

/// Keys and values of `L` layers with `H` heads, for `t_max` time steps of `d` numbers each.
pub struct PackedKv<const L: usize, const H: usize> {
    pub b: usize,
    pub t_max: usize,
    pub d: usize,
    pub k: Vec<F16>,
    pub v: Vec<F16>,
    pub t: usize,
}

/// Where the row of a layer, head and time step begins.
pub open spec fn row_offset(heads: int, t_max: int, d: int, layer: int, head: int, t: int) -> int {
    ((layer * heads + head) * t_max + t) * d
}

/// The time step that a number of the cache belongs to.
pub open spec fn time_of(i: int, t_max: int, d: int) -> int {
    (i / d) % t_max
}

/// The layer and head that a number of the cache belongs to, counted through.
pub open spec fn lane_of(i: int, t_max: int, d: int) -> int {
    (i / d) / t_max
}

/// A cache after one time step of one layer has been written: the rows of that layer's heads at
/// `pos` hold the last of the `t_grow` steps of `present`, and nothing else has changed.
pub open spec fn with_step(
    cache: Seq<F16>,
    heads: int,
    t_max: int,
    d: int,
    layer: int,
    pos: int,
    present: Seq<F16>,
    t_grow: int,
) -> Seq<F16> {
    Seq::new(
        cache.len(),
        |i: int|
            {
                let head = lane_of(i, t_max, d) - layer * heads;
                if time_of(i, t_max, d) == pos && 0 <= head < heads {
                    present[(head * t_grow + (t_grow - 1)) * d + i % d]
                } else {
                    cache[i]
                }
            },
    )
}

/// A cache after one time step of all layers has been written.
pub open spec fn with_steps(
    cache: Seq<F16>,
    layers: int,
    heads: int,
    t_max: int,
    d: int,
    pos: int,
    presents: Seq<&[F16]>,
    t_grow: int,
) -> Seq<F16> {
    Seq::new(
        cache.len(),
        |i: int|
            {
                let layer = lane_of(i, t_max, d) / heads;
                let head = lane_of(i, t_max, d) % heads;
                if time_of(i, t_max, d) == pos && layer < layers {
                    presents[layer]@[(head * t_grow + (t_grow - 1)) * d + i % d]
                } else {
                    cache[i]
                }
            },
    )
}

/// A cache with every time step moved to the one before; the last is zero.
pub open spec fn shifted(cache: Seq<F16>, t_max: int, d: int) -> Seq<F16> {
    Seq::new(
        cache.len(),
        |i: int|
            if time_of(i, t_max, d) < t_max - 1 {
                cache[i + d]
            } else {
                (F16 { bits: 0 })
            },
    )
}

/// A run of zeros.
fn zeros(len: usize) -> (out: Vec<F16>)
    ensures
        out@ == Seq::new(len as nat, |i: int| F16 { bits: 0 }),
{
    let mut out: Vec<F16> = Vec::new();
    let mut i: usize = 0;
    while i < len
        invariant
            i <= len,
            out@ == Seq::new(i as nat, |j: int| F16 { bits: 0 }),
        decreases len - i,
    {
        out.push(F16 { bits: 0 });
        i = i + 1;
        assert(out@ =~= Seq::new(i as nat, |j: int| F16 { bits: 0 }));
    }
    out
}

impl<const L: usize, const H: usize> PackedKv<L, H> {
    /// The buffers hold one number for each layer, head, time step and dimension.
    pub open spec fn wf(&self) -> bool {
        &&& self.k@.len() == L * H * self.t_max * self.d
        &&& self.v@.len() == L * H * self.t_max * self.d
        &&& L * H * self.t_max * self.d <= usize::MAX
        &&& L * H * self.t_max <= usize::MAX
        &&& L * H <= usize::MAX
    }

    /// An empty cache.
    pub fn new(t_max: usize, d: usize) -> (cache: PackedKv<L, H>)
        requires
            L * H * t_max * d <= usize::MAX,
            L * H * t_max <= usize::MAX,
            L * H <= usize::MAX,
        ensures
            cache.wf(),
            cache.b == 1,
            cache.t_max == t_max,
            cache.d == d,
            cache.t == 0,
            cache.k@ == Seq::new((L * H * t_max * d) as nat, |i: int| F16 { bits: 0 }),
            cache.v@ == cache.k@,
    {
        proof {
            let l = L as int;
            let h = H as int;
            let t = t_max as int;
            let dd = d as int;
            assert(l * h >= 0) by (nonlinear_arith)
                requires
                    l >= 0,
                    h >= 0,
            ;
            let lh = l * h;
            assert(lh * t >= 0) by (nonlinear_arith)
                requires
                    lh >= 0,
                    t >= 0,
            ;
            let lht = lh * t;
            assert(lht * dd >= 0) by (nonlinear_arith)
                requires
                    lht >= 0,
                    dd >= 0,
            ;
        }
        let len: usize = L * H * t_max * d;
        PackedKv { b: 1, t_max, d, k: zeros(len), v: zeros(len), t: 0 }
    }

    /// Forgets all steps.
    pub fn clear(&mut self)
        ensures
            final(self).k@ == Seq::new(old(self).k@.len(), |i: int| F16 { bits: 0 }),
            final(self).v@ == Seq::new(old(self).v@.len(), |i: int| F16 { bits: 0 }),
            final(self).t == 0,
            final(self).b == old(self).b,
            final(self).t_max == old(self).t_max,
            final(self).d == old(self).d,
    {
        self.k = zeros(self.k.len());
        self.v = zeros(self.v.len());
        self.t = 0;
    }

    /// How many steps have been counted.
    pub fn past_len(&self) -> (n: usize)
        ensures
            n == self.t,
    {
        self.t
    }

    /// How many of the counted steps no longer fit in the cache.
    pub fn offset(&self) -> (n: usize)
        ensures
            n == (if self.t <= self.t_max {
                0
            } else {
                self.t - self.t_max
            }),
    {
        if self.past_len() <= self.t_max {
            0
        } else {
            self.past_len() - self.t_max
        }
    }

    /// Counts one more step.
    pub fn bump(&mut self)
        requires
            old(self).t < usize::MAX,
        ensures
            final(self).t == old(self).t + 1,
            final(self).b == old(self).b,
            final(self).t_max == old(self).t_max,
            final(self).d == old(self).d,
            final(self).k == old(self).k,
            final(self).v == old(self).v,
    {
        self.t = self.t + 1;
    }

    /// Where the row of a layer, head and time step begins.
    pub fn base_offset(&self, layer: usize, head: usize, t: usize) -> (offset: usize)
        requires
            self.wf(),
            layer < L,
            head < H,
            t < self.t_max,
        ensures
            offset == row_offset(
                H as int,
                self.t_max as int,
                self.d as int,
                layer as int,
                head as int,
                t as int,
            ),
            offset + self.d <= self.k@.len(),
    {
        proof {
            lemma_row::<L, H>(self.t_max as int, self.d as int, layer as int, head as int, t as int);
        }
        ((layer * H + head) * self.t_max + t) * self.d
    }

    /// Writes a time step of one layer. `present_k` and `present_v` hold `t_grow` steps for each
    /// head; the last of them is written to the rows at `pos`.
    pub fn write_step_from_present_one_layer(
        &mut self,
        layer: usize,
        pos: usize,
        present_k: &[F16],
        present_v: &[F16],
        t_grow: usize,
    )
        requires
            old(self).wf(),
            layer < L,
            pos < old(self).t_max,
            t_grow >= 1,
            present_k@.len() == H * t_grow * old(self).d,
            present_v@.len() == H * t_grow * old(self).d,
            H * t_grow <= usize::MAX,
        ensures
            final(self).wf(),
            final(self).b == old(self).b,
            final(self).t_max == old(self).t_max,
            final(self).d == old(self).d,
            final(self).t == old(self).t,
            final(self).k@ == with_step(
                old(self).k@,
                H as int,
                old(self).t_max as int,
                old(self).d as int,
                layer as int,
                pos as int,
                present_k@,
                t_grow as int,
            ),
            final(self).v@ == with_step(
                old(self).v@,
                H as int,
                old(self).t_max as int,
                old(self).d as int,
                layer as int,
                pos as int,
                present_v@,
                t_grow as int,
            ),
    {
        let t_max: usize = self.t_max;
        let d: usize = self.d;
        let ghost k0 = self.k@;
        let ghost v0 = self.v@;
        let mut head: usize = 0;
        while head < H
            invariant
                head <= H,
                layer < L,
                pos < t_max,
                t_grow >= 1,
                self.wf(),
                self.t_max == t_max,
                self.d == d,
                self.b == old(self).b,
                self.t == old(self).t,
                k0 == old(self).k@,
                v0 == old(self).v@,
                k0.len() == self.k@.len(),
                v0.len() == self.v@.len(),
                present_k@.len() == H * t_grow * d,
                present_v@.len() == H * t_grow * d,
                present_k.len() == present_k@.len(),
                H * t_grow <= usize::MAX,
                heads_written::<H>(
                    k0,
                    self.k@,
                    t_max as int,
                    d as int,
                    layer as int,
                    pos as int,
                    present_k@,
                    t_grow as int,
                    head as int,
                ),
                heads_written::<H>(
                    v0,
                    self.v@,
                    t_max as int,
                    d as int,
                    layer as int,
                    pos as int,
                    present_v@,
                    t_grow as int,
                    head as int,
                ),
            decreases H - head,
        {
            let dst_off: usize = self.base_offset(layer, head, pos);
            proof {
                let tg = t_grow as int;
                in_grid(head as int, tg - 1, H as int, tg);
                if d > 0 {
                    in_grid(head * tg + (tg - 1), 0, H * tg, d as int);
                } else {
                    let r = head * tg + (tg - 1);
                    assert(r * 0 == 0) by (nonlinear_arith);
                    assert((H * tg) * 0 == 0) by (nonlinear_arith);
                }
            }
            let src_off: usize = (head * t_grow + (t_grow - 1)) * d;
            let ghost k1 = self.k@;
            let ghost v1 = self.v@;
            let mut i: usize = 0;
            while i < d
                invariant
                    i <= d,
                    dst_off + d <= self.k@.len(),
                    self.k@.len() == self.v@.len(),
                    self.k.len() == self.k@.len(),
                    src_off + d <= present_k@.len(),
                    present_k@.len() == present_v@.len(),
                    present_k.len() == present_k@.len(),
                    self.t_max == t_max,
                    self.d == d,
                    self.b == old(self).b,
                    self.t == old(self).t,
                    k1.len() == self.k@.len(),
                    v1.len() == self.v@.len(),
                    forall|j: int|
                        0 <= j < k1.len() ==> #[trigger] self.k@[j] == (if dst_off <= j < dst_off + i {
                            present_k@[src_off + (j - dst_off)]
                        } else {
                            k1[j]
                        }),
                    forall|j: int|
                        0 <= j < v1.len() ==> #[trigger] self.v@[j] == (if dst_off <= j < dst_off + i {
                            present_v@[src_off + (j - dst_off)]
                        } else {
                            v1[j]
                        }),
                decreases d - i,
            {
                self.k.set(dst_off + i, present_k[src_off + i]);
                self.v.set(dst_off + i, present_v[src_off + i]);
                i = i + 1;
            }
            proof {
                lemma_head_written::<L, H>(
                    k0,
                    k1,
                    self.k@,
                    t_max as int,
                    d as int,
                    layer as int,
                    pos as int,
                    present_k@,
                    t_grow as int,
                    head as int,
                );
                lemma_head_written::<L, H>(
                    v0,
                    v1,
                    self.v@,
                    t_max as int,
                    d as int,
                    layer as int,
                    pos as int,
                    present_v@,
                    t_grow as int,
                    head as int,
                );
            }
            head = head + 1;
        }
        assert(self.k@ =~= with_step(
            k0,
            H as int,
            t_max as int,
            d as int,
            layer as int,
            pos as int,
            present_k@,
            t_grow as int,
        ));
        assert(self.v@ =~= with_step(
            v0,
            H as int,
            t_max as int,
            d as int,
            layer as int,
            pos as int,
            present_v@,
            t_grow as int,
        ));
    }
}

impl<const L: usize, const H: usize> PackedKv<L, H> {
    /// Writes a time step of all layers, one buffer per layer.
    pub fn write_step_all_layers(
        &mut self,
        pos: usize,
        presents_k: &[&[F16]],
        presents_v: &[&[F16]],
        t_grow: usize,
    )
        requires
            old(self).wf(),
            pos < old(self).t_max,
            t_grow >= 1,
            presents_k@.len() == L,
            presents_v@.len() == L,
            H * t_grow <= usize::MAX,
            forall|l: int|
                0 <= l < L ==> (#[trigger] presents_k@[l])@.len() == H * t_grow * old(self).d,
            forall|l: int|
                0 <= l < L ==> (#[trigger] presents_v@[l])@.len() == H * t_grow * old(self).d,
        ensures
            final(self).wf(),
            final(self).b == old(self).b,
            final(self).t_max == old(self).t_max,
            final(self).d == old(self).d,
            final(self).t == old(self).t,
            final(self).k@ == with_steps(
                old(self).k@,
                L as int,
                H as int,
                old(self).t_max as int,
                old(self).d as int,
                pos as int,
                presents_k@,
                t_grow as int,
            ),
            final(self).v@ == with_steps(
                old(self).v@,
                L as int,
                H as int,
                old(self).t_max as int,
                old(self).d as int,
                pos as int,
                presents_v@,
                t_grow as int,
            ),
    {
        let ghost t_max = self.t_max as int;
        let ghost d = self.d as int;
        let mut l: usize = 0;
        proof {
            lemma_no_layer::<L, H>(old(self).k@, t_max, d, pos as int, presents_k@, t_grow as int);
            lemma_no_layer::<L, H>(old(self).v@, t_max, d, pos as int, presents_v@, t_grow as int);
        }
        while l < L
            invariant
                l <= L,
                self.wf(),
                pos < self.t_max,
                self.t_max == t_max,
                self.d == d,
                self.b == old(self).b,
                self.t == old(self).t,
                self.k@.len() == old(self).k@.len(),
                self.v@.len() == old(self).v@.len(),
                t_max == old(self).t_max,
                d == old(self).d,
                t_grow >= 1,
                presents_k@.len() == L,
                presents_v@.len() == L,
                H * t_grow <= usize::MAX,
                forall|l: int| 0 <= l < L ==> (#[trigger] presents_k@[l])@.len() == H * t_grow * d,
                forall|l: int| 0 <= l < L ==> (#[trigger] presents_v@[l])@.len() == H * t_grow * d,
                self.k@ == with_steps(
                    old(self).k@,
                    l as int,
                    H as int,
                    t_max,
                    d,
                    pos as int,
                    presents_k@,
                    t_grow as int,
                ),
                self.v@ == with_steps(
                    old(self).v@,
                    l as int,
                    H as int,
                    t_max,
                    d,
                    pos as int,
                    presents_v@,
                    t_grow as int,
                ),
            decreases L - l,
        {
            self.write_step_from_present_one_layer(l, pos, presents_k[l], presents_v[l], t_grow);
            proof {
                lemma_layer_written::<L, H>(
                    old(self).k@,
                    t_max,
                    d,
                    pos as int,
                    presents_k@,
                    t_grow as int,
                    l as int,
                );
                lemma_layer_written::<L, H>(
                    old(self).v@,
                    t_max,
                    d,
                    pos as int,
                    presents_v@,
                    t_grow as int,
                    l as int,
                );
            }
            l = l + 1;
        }
    }

    /// Drops the oldest time step: every row moves to the step before, and the last is zero.
    pub fn compact_left_one(&mut self)
        requires
            old(self).wf(),
            old(self).t_max >= 1,
        ensures
            final(self).wf(),
            final(self).b == old(self).b,
            final(self).t_max == old(self).t_max,
            final(self).d == old(self).d,
            final(self).t == old(self).t,
            final(self).k@ == shifted(old(self).k@, old(self).t_max as int, old(self).d as int),
            final(self).v@ == shifted(old(self).v@, old(self).t_max as int, old(self).d as int),
    {
        let t_max: usize = self.t_max;
        let d: usize = self.d;
        let len: usize = self.k.len();
        let mut i: usize = 0;
        while i < len
            invariant
                i <= len,
                len == self.k@.len(),
                len == self.v@.len(),
                len == L * H * t_max * d,
                t_max >= 1,
                self.t_max == t_max,
                self.d == d,
                self.b == old(self).b,
                self.t == old(self).t,
                self.wf(),
                old(self).k@.len() == len,
                old(self).v@.len() == len,
                forall|j: int|
                    0 <= j < len ==> #[trigger] self.k@[j] == (if j < i {
                        shifted(old(self).k@, t_max as int, d as int)[j]
                    } else {
                        old(self).k@[j]
                    }),
                forall|j: int|
                    0 <= j < len ==> #[trigger] self.v@[j] == (if j < i {
                        shifted(old(self).v@, t_max as int, d as int)[j]
                    } else {
                        old(self).v@[j]
                    }),
            decreases len - i,
        {
            proof {
                lemma_next_row::<L, H>(i as int, t_max as int, d as int);
            }
            if (i / d) % t_max < t_max - 1 {
                self.k.set(i, self.k[i + d]);
                self.v.set(i, self.v[i + d]);
            } else {
                self.k.set(i, F16 { bits: 0 });
                self.v.set(i, F16 { bits: 0 });
            }
            i = i + 1;
        }
        assert(self.k@ =~= shifted(old(self).k@, t_max as int, d as int));
        assert(self.v@ =~= shifted(old(self).v@, t_max as int, d as int));
    }

    /// The buffers as they are.
    pub fn as_slices(&self) -> (slices: (&[F16], &[F16]))
        ensures
            slices.0@ == self.k@,
            slices.1@ == self.v@,
    {
        (self.k.as_slice(), self.v.as_slice())
    }
}

/// A number that is not in the last time step has one behind it in the next.
proof fn lemma_next_row<const L: usize, const H: usize>(i: int, t_max: int, d: int)
    requires
        0 <= i < L * H * t_max * d,
        t_max >= 1,
        d >= 0,
    ensures
        d > 0,
        time_of(i, t_max, d) < t_max - 1 ==> i + d < L * H * t_max * d,
{
    let n = L * H * t_max;
    let lh = L * H;
    assert(lh >= 0) by (nonlinear_arith)
        requires
            lh == L * H,
    ;
    assert(n >= 0) by (nonlinear_arith)
        requires
            n == lh * t_max,
            lh >= 0,
            t_max >= 0,
    ;
    factors_positive(n, d);
    row_in_grid(i, n, d);
    position(i, d);
    let r = i / d;
    row_in_grid(r, lh, t_max);
    position(r, t_max);
    if time_of(i, t_max, d) < t_max - 1 {
        in_grid(r / t_max, r % t_max + 1, lh, t_max);
        in_grid(r + 1, i % d, n, d);
        assert((r + 1) * d == r * d + d) by (nonlinear_arith);
    }
}

proof fn lemma_no_layer<const L: usize, const H: usize>(
    cache: Seq<F16>,
    t_max: int,
    d: int,
    pos: int,
    presents: Seq<&[F16]>,
    t_grow: int,
)
    requires
        0 <= pos < t_max,
        d >= 0,
        cache.len() == L * H * t_max * d,
    ensures
        cache == with_steps(cache, 0, H as int, t_max, d, pos, presents, t_grow),
{
    assert forall|i: int| 0 <= i < cache.len() implies lane_of(i, t_max, d) / (H as int) >= 0 by {
        lemma_lane::<L, H>(i, t_max, d);
    }
    assert(cache =~= with_steps(cache, 0, H as int, t_max, d, pos, presents, t_grow));
}

/// The layer and head of a number are among those of the cache.
proof fn lemma_lane<const L: usize, const H: usize>(i: int, t_max: int, d: int)
    requires
        0 <= i < L * H * t_max * d,
        t_max >= 1,
        d >= 0,
    ensures
        H > 0,
        0 <= lane_of(i, t_max, d) < L * H,
        0 <= lane_of(i, t_max, d) / (H as int) < L,
        0 <= lane_of(i, t_max, d) % (H as int) < H,
        lane_of(i, t_max, d) == (lane_of(i, t_max, d) / (H as int)) * H + lane_of(i, t_max, d) % (
        H as int),
{
    let n = L * H * t_max;
    let lh = L * H;
    lemma_next_row::<L, H>(i, t_max, d);
    assert(n >= 0) by {
        assert(lh >= 0) by (nonlinear_arith)
            requires
                lh == L * H,
        ;
        assert(n >= 0) by (nonlinear_arith)
            requires
                n == lh * t_max,
                lh >= 0,
                t_max >= 0,
        ;
    }
    row_in_grid(i, n, d);
    row_in_grid(i / d, lh, t_max);
    factors_positive(L as int, H as int);
    row_in_grid(lane_of(i, t_max, d), L as int, H as int);
    position(lane_of(i, t_max, d), H as int);
}

proof fn lemma_layer_written<const L: usize, const H: usize>(
    cache: Seq<F16>,
    t_max: int,
    d: int,
    pos: int,
    presents: Seq<&[F16]>,
    t_grow: int,
    layer: int,
)
    requires
        0 <= layer < L,
        0 <= pos < t_max,
        d >= 0,
        cache.len() == L * H * t_max * d,
    ensures
        with_step(
            with_steps(cache, layer, H as int, t_max, d, pos, presents, t_grow),
            H as int,
            t_max,
            d,
            layer,
            pos,
            presents[layer]@,
            t_grow,
        ) == with_steps(cache, layer + 1, H as int, t_max, d, pos, presents, t_grow),
{
    let h = H as int;
    let a = with_step(
        with_steps(cache, layer, h, t_max, d, pos, presents, t_grow),
        h,
        t_max,
        d,
        layer,
        pos,
        presents[layer]@,
        t_grow,
    );
    let b = with_steps(cache, layer + 1, h, t_max, d, pos, presents, t_grow);
    assert forall|i: int| 0 <= i < cache.len() implies a[i] == b[i] by {
        lemma_lane::<L, H>(i, t_max, d);
        let lane = lane_of(i, t_max, d);
        let head = lane - layer * h;
        if 0 <= head < h {
            row_and_column(layer, head, h);
        } else if lane / h == layer {
            assert(false);
        }
    }
    assert(a =~= b);
}

/// The heads below `head` have been written.
spec fn heads_written<const H: usize>(
    before: Seq<F16>,
    now: Seq<F16>,
    t_max: int,
    d: int,
    layer: int,
    pos: int,
    present: Seq<F16>,
    t_grow: int,
    head: int,
) -> bool {
    forall|i: int|
        0 <= i < before.len() ==> #[trigger] now[i] == ({
            let hd = lane_of(i, t_max, d) - layer * H;
            if time_of(i, t_max, d) == pos && 0 <= hd < head {
                present[(hd * t_grow + (t_grow - 1)) * d + i % d]
            } else {
                before[i]
            }
        })
}

proof fn lemma_head_written<const L: usize, const H: usize>(
    before: Seq<F16>,
    prior: Seq<F16>,
    now: Seq<F16>,
    t_max: int,
    d: int,
    layer: int,
    pos: int,
    present: Seq<F16>,
    t_grow: int,
    head: int,
)
    requires
        0 <= layer < L,
        0 <= head < H,
        0 <= pos < t_max,
        d >= 0,
        before.len() == L * H * t_max * d,
        prior.len() == before.len(),
        now.len() == before.len(),
        heads_written::<H>(before, prior, t_max, d, layer, pos, present, t_grow, head),
        ({
            let dst = row_offset(H as int, t_max, d, layer, head, pos);
            let src = (head * t_grow + (t_grow - 1)) * d;
            forall|j: int|
                0 <= j < prior.len() ==> #[trigger] now[j] == (if dst <= j < dst + d {
                    present[src + (j - dst)]
                } else {
                    prior[j]
                })
        }),
    ensures
        heads_written::<H>(before, now, t_max, d, layer, pos, present, t_grow, head + 1),
{
    let lane = layer * H + head;
    let dst = row_offset(H as int, t_max, d, layer, head, pos);
    assert forall|i: int| 0 <= i < before.len() implies #[trigger] now[i] == ({
        let hd = lane_of(i, t_max, d) - layer * H;
        if time_of(i, t_max, d) == pos && 0 <= hd < head + 1 {
            present[(hd * t_grow + (t_grow - 1)) * d + i % d]
        } else {
            before[i]
        }
    }) by {
        if d == 0 {
            let n = L * H * t_max;
            assert(n * d == 0) by (nonlinear_arith)
                requires
                    d == 0,
            ;
        } else {
            position(i, d);
            position(i / d, t_max);
            assert(prior[i] == prior[i]);
            if dst <= i < dst + d {
                row_and_column(lane * t_max + pos, i - dst, d);
                row_and_column(lane, pos, t_max);
            } else if time_of(i, t_max, d) == pos && lane_of(i, t_max, d) == lane {
                assert(i == (lane * t_max + pos) * d + i % d);
            }
        }
    }
}

/// A row of the cache lies inside it.
proof fn lemma_row<const L: usize, const H: usize>(
    t_max: int,
    d: int,
    layer: int,
    head: int,
    t: int,
)
    requires
        0 <= layer < L,
        0 <= head < H,
        0 <= t < t_max,
        d >= 0,
    ensures
        0 <= layer * H,
        0 <= layer * H + head < L * H,
        0 <= (layer * H + head) * t_max,
        0 <= (layer * H + head) * t_max + t < L * H * t_max,
        0 <= row_offset(H as int, t_max, d, layer, head, t),
        row_offset(H as int, t_max, d, layer, head, t) + d <= L * H * t_max * d,
{
    in_grid(layer, head, L as int, H as int);
    in_grid(layer * H + head, t, L * H, t_max);
    let r = (layer * H + head) * t_max + t;
    let n = L * H * t_max;
    assert(0 <= r * d && r * d + d <= n * d) by (nonlinear_arith)
        requires
            0 <= r,
            r + 1 <= n,
            d >= 0,
    ;
}

/// What is written is read back: after a time step of all layers has been written at `pos`, the
/// row of each layer and head at `pos` holds the last step of that layer's buffer.
pub proof fn written_row_reads_back<const L: usize, const H: usize>(
    cache: Seq<F16>,
    t_max: int,
    d: int,
    pos: int,
    presents: Seq<&[F16]>,
    t_grow: int,
    layer: int,
    head: int,
    j: int,
)
    requires
        0 <= layer < L,
        0 <= head < H,
        0 <= pos < t_max,
        0 <= j < d,
        cache.len() == L * H * t_max * d,
    ensures
        with_steps(cache, L as int, H as int, t_max, d, pos, presents, t_grow)[row_offset(
            H as int,
            t_max,
            d,
            layer,
            head,
            pos,
        ) + j] == presents[layer]@[(head * t_grow + (t_grow - 1)) * d + j],
{
    lemma_row::<L, H>(t_max, d, layer, head, pos);
    let lane = layer * H + head;
    row_and_column(lane * t_max + pos, j, d);
    row_and_column(lane, pos, t_max);
    row_and_column(layer, head, H as int);
}

/// Compaction keeps the order of time: the row of each layer and head at `t` is the one that was
/// at `t + 1`, and the last row is zero.
pub proof fn compaction_shifts_rows<const L: usize, const H: usize>(
    cache: Seq<F16>,
    t_max: int,
    d: int,
    layer: int,
    head: int,
    t: int,
    j: int,
)
    requires
        0 <= layer < L,
        0 <= head < H,
        0 <= t < t_max,
        0 <= j < d,
        cache.len() == L * H * t_max * d,
    ensures
        shifted(cache, t_max, d)[row_offset(H as int, t_max, d, layer, head, t) + j] == (if t
            < t_max - 1 {
            cache[row_offset(H as int, t_max, d, layer, head, t + 1) + j]
        } else {
            (F16 { bits: 0 })
        }),
{
    lemma_row::<L, H>(t_max, d, layer, head, t);
    let lane = layer * H + head;
    let r = lane * t_max + t;
    row_and_column(r, j, d);
    row_and_column(lane, t, t_max);
    assert((r + 1) * d == r * d + d) by (nonlinear_arith);
}

} // verus!
