use rkwhisper::cache::PackedKv;
use rkwhisper::float_bits::F16;

// Small, easy-to-reason-about fixture
const L: usize = 2; // layers
const H: usize = 3; // heads
const T: usize = 5; // t_max
const D: usize = 4; // head dim

/// The half-precision number nearest to a non-negative number in its normal range, or zero.
fn half(value: f32) -> F16 {
    if value == 0.0 {
        return F16 { bits: 0 };
    }
    let bits = value.to_bits();
    let exponent = ((bits >> 23) as i32) - 127 + 15;
    assert!(exponent > 0 && exponent < 31 && bits >> 31 == 0);
    let rounded = (((exponent as u32) << 10) | ((bits >> 13) & 0x3ff)) + ((bits >> 12) & 1);
    F16 { bits: rounded as u16 }
}

fn to_f32(value: F16) -> f32 {
    if value.bits == 0 {
        return 0.0;
    }
    let exponent = (value.bits >> 10) as u32 + 127 - 15;
    f32::from_bits((exponent << 23) | ((value.bits & 0x3ff) as u32) << 13)
}

fn almost_eq(a: &[F16], b: &[F16], eps: f32) {
    assert_eq!(a.len(), b.len(), "length mismatch {} vs {}", a.len(), b.len());
    for (i, (av, bv)) in a.iter().zip(b.iter()).enumerate() {
        let da = to_f32(*av);
        let db = to_f32(*bv);
        assert!(
            (da - db).abs() <= eps,
            "mismatch at {}: {} vs {} (|diff|={})",
            i,
            da,
            db,
            (da - db).abs()
        );
    }
}

/// Build a present tensor for a single layer with shape [H, T_grow, D] (row-major flattened).
/// We fill it as present_k[h, t, d] = base + encoded(h,t,d).
fn synth_present_for_layer(
    heads: usize,
    t_grow: usize,
    d: usize,
    base: f32,
) -> (Vec<F16>, Vec<F16>) {
    let mut k = Vec::with_capacity(heads * t_grow * d);
    let mut v = Vec::with_capacity(heads * t_grow * d);
    for h in 0..heads {
        for tt in 0..t_grow {
            for dd in 0..d {
                k.push(half(base + (h as f32) * 100.0 + (tt as f32) * 10.0 + (dd as f32)));
                v.push(half(base + 0.5 + (h as f32) * 100.0 + (tt as f32) * 10.0 + (dd as f32)));
            }
        }
    }
    (k, v)
}

#[test]
fn new_and_lengths() {
    let pk = PackedKv::<L, H>::new(T, D);
    assert_eq!(pk.b, 1);
    assert_eq!(pk.t_max, T);
    assert_eq!(pk.d, D);

    let expected_len = 1 * L * H * T * D;
    assert_eq!(pk.k.len(), expected_len);
    assert_eq!(pk.v.len(), expected_len);

    let (ks, vs) = pk.as_slices();
    assert_eq!(ks.len(), expected_len);
    assert_eq!(vs.len(), expected_len);
}

#[test]
fn base_offset_is_correct() {
    let pk = PackedKv::<L, H>::new(T, D);

    // Manually compute some expected offsets:
    // offset(l,h,t,d0) = (((l*H + h)*T + t)*D)
    let cases = [
        (0, 0, 0, 0, 0usize),
        (0, 0, 0, 1, 1),
        (0, 0, 0, 3, 3),
        (0, 0, 1, 0, D * 1),
        (0, 1, 0, 0, (1 * T) * D),
        (1, 0, 0, 0, ((1 * H + 0) * T) * D),
        (1, 2, 4, 3, (((1 * H + 2) * T + 4) * D) + 3),
    ];

    for &(l, h, t, d0, want) in &cases {
        let got = pk.base_offset(l, h, t) + d0;
        assert_eq!(got, want, "off(l={},h={},t={},d={})", l, h, t, d0);
    }
}

#[test]
fn write_step_one_layer_writes_last_t() {
    let mut pk = PackedKv::<L, H>::new(T, D);

    // Prepare present for layer 1, t_grow=3 (so last_t = 2)
    let t_grow = 3usize;
    let (present_k, present_v) = synth_present_for_layer(H, t_grow, D, 10_000.0);

    // Write at pos=4 (arbitrary within 0..T-1)
    let pos = 4usize;
    pk.write_step_from_present_one_layer(1, pos, &present_k, &present_v, t_grow);

    // Verify: for each head, the written row at (l=1, h, t=pos, :) equals present[..., last_t, :]
    let last_t = t_grow - 1;
    for h in 0..H {
        // cache slice
        let off = pk.base_offset(1, h, pos);
        let cache_row_k = &pk.k[off..off + D];
        let cache_row_v = &pk.v[off..off + D];

        // source slice from present
        let src_off = (h * t_grow + last_t) * D;
        let src_k = &present_k[src_off..src_off + D];
        let src_v = &present_v[src_off..src_off + D];

        almost_eq(cache_row_k, src_k, 1e-3);
        almost_eq(cache_row_v, src_v, 1e-3);
    }
}

#[test]
fn write_step_all_layers_copies_each_layer() {
    let mut pk = PackedKv::<L, H>::new(T, D);

    // Build per-layer present buffers with distinct bases so we can distinguish layers.
    let t_grow = 2usize; // last_t = 1
    let mut layers_k: Vec<Vec<F16>> = Vec::with_capacity(L);
    let mut layers_v: Vec<Vec<F16>> = Vec::with_capacity(L);
    for l in 0..L {
        let base = 20_000.0 + (l as f32) * 1000.0;
        let (k, v) = synth_present_for_layer(H, t_grow, D, base);
        layers_k.push(k);
        layers_v.push(v);
    }
    let refs_k: Vec<&[F16]> = layers_k.iter().map(|x| x.as_slice()).collect();
    let refs_v: Vec<&[F16]> = layers_v.iter().map(|x| x.as_slice()).collect();

    // Write all layers at pos=0
    pk.write_step_all_layers(0, &refs_k, &refs_v, t_grow);

    // Check each layer's head row equals last_t=1 from its own present
    let last_t = t_grow - 1;
    for l in 0..L {
        for h in 0..H {
            let off = pk.base_offset(l, h, 0);
            let cache_row_k = &pk.k[off..off + D];
            let cache_row_v = &pk.v[off..off + D];

            let src_off = (h * t_grow + last_t) * D;
            let src_k = &layers_k[l][src_off..src_off + D];
            let src_v = &layers_v[l][src_off..src_off + D];

            almost_eq(cache_row_k, src_k, 1e-3);
            almost_eq(cache_row_v, src_v, 1e-3);
        }
    }
}

#[test]
fn compact_left_one_shifts_and_zeros_tail() {
    let mut pk = PackedKv::<L, H>::new(T, D);

    // Fill cache with a simple function of t only so shift is easy to assert.
    // k(l,h,t,d) = t as f32, v(l,h,t,d) = 1000.0 + t as f32
    for l in 0..L {
        for h in 0..H {
            for t in 0..T {
                let off = pk.base_offset(l, h, t);
                for d0 in 0..D {
                    pk.k[off + d0] = half(t as f32);
                    pk.v[off + d0] = half(1000.0 + t as f32);
                }
            }
        }
    }

    pk.compact_left_one();

    // After compaction:
    // t=0 should equal old t=1
    // ...
    // t=T-2 should equal old t=T-1
    // t=T-1 should be zeros
    for l in 0..L {
        for h in 0..H {
            // check shifted rows
            for t_new in 0..(T - 1) {
                let off_new = pk.base_offset(l, h, t_new);
                let expect_t = t_new + 1; // old t
                for d0 in 0..D {
                    let got_k = to_f32(pk.k[off_new + d0]);
                    let got_v = to_f32(pk.v[off_new + d0]);
                    assert!(
                        (got_k - expect_t as f32).abs() <= 1e-3,
                        "k mismatch at (l={},h={},t={},d={}) got {} expect {}",
                        l,
                        h,
                        t_new,
                        d0,
                        got_k,
                        expect_t
                    );
                    assert!(
                        (got_v - (1000.0 + expect_t as f32)).abs() <= 1e-3,
                        "v mismatch at (l={},h={},t={},d={}) got {} expect {}",
                        l,
                        h,
                        t_new,
                        d0,
                        got_v,
                        1000.0 + expect_t as f32
                    );
                }
            }

            // last row zeroed
            let off_last = pk.base_offset(l, h, T - 1);
            for d0 in 0..D {
                let got_k = to_f32(pk.k[off_last + d0]);
                let got_v = to_f32(pk.v[off_last + d0]);
                assert!(
                    got_k.abs() <= 1e-6,
                    "tail k not zero at (l={},h={},d={}) -> {}",
                    l,
                    h,
                    d0,
                    got_k
                );
                assert!(
                    got_v.abs() <= 1e-6,
                    "tail v not zero at (l={},h={},d={}) -> {}",
                    l,
                    h,
                    d0,
                    got_v
                );
            }
        }
    }
}

#[test]
fn as_slices_views_match_internal() {
    let mut pk = PackedKv::<L, H>::new(T, D);

    // Write a known pattern at a few positions
    let t_grow = 2usize;
    for l in 0..L {
        let (k, v) = synth_present_for_layer(H, t_grow, D, 30_000.0 + (l as f32) * 100.0);
        // write pos=1 for each layer
        pk.write_step_from_present_one_layer(l, 1, &k, &v, t_grow);
    }

    // as_slices should point to the same data
    let (ks, vs) = pk.as_slices();
    assert_eq!(ks.as_ptr(), pk.k.as_ptr());
    assert_eq!(vs.as_ptr(), pk.v.as_ptr());

    // Spot check a couple cells against direct indexing
    let sample = [
        (0usize, 0usize, 1usize, 2usize),
        (1usize, 2usize, 1usize, 3usize),
    ];
    for &(l, h, t, d0) in &sample {
        let off = pk.base_offset(l, h, t) + d0;
        assert!(
            (to_f32(ks[off]) - to_f32(pk.k[off])).abs() <= 1e-6,
            "k view mismatch at {:?}",
            (l, h, t, d0)
        );
        assert!(
            (to_f32(vs[off]) - to_f32(pk.v[off])).abs() <= 1e-6,
            "v view mismatch at {:?}",
            (l, h, t, d0)
        );
    }
}

#[test]
fn full_window_fill_compact_and_append() {
    let mut pk = PackedKv::<L, H>::new(T, D);

    // Keep within fp16 range: worst-case s=T (5) -> ~26.5k
    let base_for =
        |l: usize, s: usize| -> f32 { 10_000.0 + (l as f32) * 500.0 + (s as f32) * 3_000.0 };

    // -------- 1) Fill the whole window with steps s = 0..T-1 --------
    for s in 0..T {
        let t_grow = s + 1; // last_t = s
        let mut layers_k: Vec<Vec<F16>> = Vec::with_capacity(L);
        let mut layers_v: Vec<Vec<F16>> = Vec::with_capacity(L);

        for l in 0..L {
            let (k, v) = synth_present_for_layer(H, t_grow, D, base_for(l, s));
            layers_k.push(k);
            layers_v.push(v);
        }

        let refs_k: Vec<&[F16]> = layers_k.iter().map(|x| x.as_slice()).collect();
        let refs_v: Vec<&[F16]> = layers_v.iter().map(|x| x.as_slice()).collect();
        pk.write_step_all_layers(s, &refs_k, &refs_v, t_grow);
    }

    // Verify every cell equals the "last_t" slice of its step s=t.
    for l in 0..L {
        for h in 0..H {
            for t in 0..T {
                let off = pk.base_offset(l, h, t);
                let src_off = (h * (t + 1) + t) * D; // last_t == t
                let (src_k, src_v) = synth_present_for_layer(H, t + 1, D, base_for(l, t));
                almost_eq(&pk.k[off..off + D], &src_k[src_off..src_off + D], 1e-3);
                almost_eq(&pk.v[off..off + D], &src_v[src_off..src_off + D], 1e-3);
            }
        }
    }

    // -------- 2) Compact and verify left shift + zero tail --------
    let prev_k = pk.k.clone();
    let prev_v = pk.v.clone();
    pk.compact_left_one();

    for l in 0..L {
        for h in 0..H {
            for t_new in 0..(T - 1) {
                let off_new = pk.base_offset(l, h, t_new);
                let off_old = pk.base_offset(l, h, t_new + 1);
                almost_eq(&pk.k[off_new..off_new + D], &prev_k[off_old..off_old + D], 1e-3);
                almost_eq(&pk.v[off_new..off_new + D], &prev_v[off_old..off_old + D], 1e-3);
            }
            let off_tail = pk.base_offset(l, h, T - 1);
            for d0 in 0..D {
                assert!(to_f32(pk.k[off_tail + d0]).abs() <= 1e-6);
                assert!(to_f32(pk.v[off_tail + d0]).abs() <= 1e-6);
            }
        }
    }

    // -------- 3) Append one more step at pos = T-1 --------
    let s = T;
    let t_grow = s + 1; // last_t = s
    let pos = T - 1; // write into tail

    let mut layers_k: Vec<Vec<F16>> = Vec::with_capacity(L);
    let mut layers_v: Vec<Vec<F16>> = Vec::with_capacity(L);
    for l in 0..L {
        let (k, v) = synth_present_for_layer(H, t_grow, D, base_for(l, s));
        layers_k.push(k);
        layers_v.push(v);
    }
    let refs_k: Vec<&[F16]> = layers_k.iter().map(|x| x.as_slice()).collect();
    let refs_v: Vec<&[F16]> = layers_v.iter().map(|x| x.as_slice()).collect();
    pk.write_step_all_layers(pos, &refs_k, &refs_v, t_grow);

    for l in 0..L {
        for h in 0..H {
            let off = pk.base_offset(l, h, pos);
            let src_off = (h * t_grow + (t_grow - 1)) * D; // last_t
            almost_eq(&pk.k[off..off + D], &layers_k[l][src_off..src_off + D], 1e-3);
            almost_eq(&pk.v[off..off + D], &layers_v[l][src_off..src_off + D], 1e-3);
        }
    }
}

#[test]
fn clearing_and_counting_steps() {
    let mut pk = PackedKv::<1, 1>::new(2, 1);
    pk.write_step_from_present_one_layer(0, 1, &[half(3.0)], &[half(4.0)], 1);
    assert_eq!(pk.k, vec![half(0.0), half(3.0)]);
    assert_eq!(pk.v, vec![half(0.0), half(4.0)]);
    pk.bump();
    assert_eq!((pk.past_len(), pk.offset()), (1, 0));
    pk.bump();
    pk.bump();
    assert_eq!((pk.past_len(), pk.offset()), (3, 1));
    pk.clear();
    assert_eq!(pk.past_len(), 0);
    assert_eq!(pk.k, vec![half(0.0), half(0.0)]);
}
