use pulsar::cpu_dot::{
    block_dot, block_weights, dequant_row_iq2_xxs, f16_to_f32, sign_mask, vec_dot_iq2_xxs_q8_k,
    IQ2_XXS_BLOCK_BYTES, QK_K,
};

struct Lcg(u64);

impl Lcg {
    fn next(&mut self) -> u64 {
        self.0 = self.0.wrapping_mul(6364136223846793005).wrapping_add(1442695040888963407);
        self.0
    }

    fn byte(&mut self) -> u8 {
        (self.next() >> 40) as u8
    }
}

#[test]
fn sign_mask_keeps_the_popcount_even() {
    for s7 in 0..128u32 {
        let m = sign_mask(s7);
        assert_eq!(m & 127, s7);
        assert!(m < 256);
        assert_eq!(m.count_ones() % 2, 0);
    }
    assert_eq!(sign_mask(0), 0);
    assert_eq!(sign_mask(1), 0x81);
    assert_eq!(sign_mask(3), 3);
    assert_eq!(sign_mask(127), 255);
}

#[test]
fn half_floats_widen_exactly() {
    assert_eq!(f16_to_f32(0x3c00), 1f32.to_bits());
    assert_eq!(f16_to_f32(0xc000), (-2f32).to_bits());
    assert_eq!(f16_to_f32(0x7bff), 65504f32.to_bits());
    assert_eq!(f16_to_f32(0x0001), (1f32 / 16777216.0).to_bits());
    assert_eq!(f16_to_f32(0x8000), (-0f32).to_bits());
    assert_eq!(f16_to_f32(0xfc00), f32::NEG_INFINITY.to_bits());
    assert!(f32::from_bits(f16_to_f32(0x7e01)).is_nan());
    for bits in 0..=u16::MAX {
        let sign = ((bits & 0x8000) as u32) << 16;
        let exp = ((bits >> 10) & 0x1f) as u32;
        let man = (bits & 0x3ff) as u32;
        let want = if exp == 0 {
            (f32::from_bits(sign | 0x3880_0000) * (man as f32 / 1024.0)).to_bits()
        } else if exp == 31 {
            sign | 0x7f80_0000 | (man << 13)
        } else {
            sign | ((exp + 112) << 23) | (man << 13)
        };
        assert_eq!(f16_to_f32(bits), want, "{bits:#x}");
    }
}

/// A block whose values are all 1, but for the signs and factors given.
fn flat_block(signs: u32, scale: u32) -> Vec<u8> {
    let mut blk = vec![0u8; IQ2_XXS_BLOCK_BYTES];
    blk[1] = 0x3c; // 1.0
    for ib in 0..8 {
        let word = signs | scale << 28;
        blk[6 + 8 * ib..10 + 8 * ib].copy_from_slice(&word.to_le_bytes());
    }
    blk
}

#[test]
fn block_dot_of_ones_sums_the_activations() {
    let grid = vec![0x0101_0101_0101_0101u64; 256];
    let q8: Vec<i8> = (0..QK_K).map(|i| (i % 7) as i8 - 2).collect();
    let sum: i32 = q8.iter().map(|&q| q as i32).sum();
    assert_eq!(block_dot(&flat_block(0, 0), &q8, &grid), sum);
    // scale 15 gives the factor 31
    assert_eq!(block_dot(&flat_block(0, 15), &q8, &grid), 31 * sum);
}

#[test]
fn block_weights_decode_grid_signs_and_factor() {
    let mut grid = vec![0u64; 256];
    grid[0] = 0x80_2b_19_08_7f_ff_01_00;
    // the first group negates its first value, and its last for parity
    let ws = block_weights(&flat_block(1, 3), &grid);
    assert_eq!(ws.len(), QK_K);
    let bytes: Vec<i8> = ws[..8].iter().map(|w| w.grid).collect();
    assert_eq!(bytes, vec![0, 1, -1, 127, 8, 25, 43, -128]);
    let signs: Vec<bool> = ws[..8].iter().map(|w| w.negative).collect();
    assert_eq!(signs, vec![true, false, false, false, false, false, false, true]);
    assert!(ws[8..16].iter().all(|w| !w.negative));
    assert!(ws.iter().all(|w| w.factor == 7));
}

fn lcg(state: &mut u64) -> f32 {
    *state = state.wrapping_mul(6364136223846793005).wrapping_add(1442695040888963407);
    ((*state >> 33) as f32 / (1u64 << 31) as f32) - 1.0
}

#[test]
fn dot_matches_dequant_reference() {
    let n = 2048;
    let mut st = 42u64;
    let src: Vec<f32> = (0..n).map(|_| lcg(&mut st)).collect();
    let act: Vec<f32> = (0..n).map(|_| lcg(&mut st)).collect();
    // a row packed from the source values: a scale of 1/16 for each block, the
    // signs of the values where the parity leaves them free, and grid entries
    // and sub-block factors by their size
    let grid: Vec<u64> = (0..256u64)
        .map(|g| {
            let byte = |i: u64| if (g >> i) & 1 == 1 { 0x2bu64 } else { 0x08 };
            (0..8).map(|i| byte(i) << (8 * i)).sum()
        })
        .collect();
    let mut row = vec![0u8; n / QK_K * IQ2_XXS_BLOCK_BYTES];
    for b in 0..n / QK_K {
        let blk = &mut row[b * IQ2_XXS_BLOCK_BYTES..(b + 1) * IQ2_XXS_BLOCK_BYTES];
        blk[1] = 0x2c;
        for ib in 0..8 {
            let sub = &src[b * QK_K + 32 * ib..b * QK_K + 32 * (ib + 1)];
            let mut word = 1u32 << 28;
            for k in 0..4 {
                let group = &sub[8 * k..8 * (k + 1)];
                let large = |i: usize| group[i].abs() > 0.5;
                blk[2 + 8 * ib + k] = (0..8).map(|i| (large(i) as u8) << i).sum();
                let signs: u32 = (0..7).map(|i| ((group[i] < 0.0) as u32) << i).sum();
                word |= signs << (7 * k);
            }
            blk[6 + 8 * ib..10 + 8 * ib].copy_from_slice(&word.to_le_bytes());
        }
    }

    // activations as one scale and 256 bytes for each block
    let mut d = Vec::new();
    let mut qs: Vec<i8> = Vec::new();
    for b in act.chunks_exact(QK_K) {
        let amax = b.iter().fold(0f32, |a, &v| a.max(v.abs()));
        d.push(amax / 127.0);
        for &v in b {
            qs.push((v * (127.0 / amax)).round().clamp(-127.0, 127.0) as i8);
        }
    }
    let mut got = 0f32;
    for (ibl, t) in vec_dot_iq2_xxs_q8_k(&row, &qs, n, &grid).iter().enumerate() {
        got += 0.125 * f32::from_bits(t.d) * d[ibl] * t.sum as f32;
    }

    // reference: dequantized weights x dequantized activations in f64
    let mut deq: Vec<f32> = Vec::new();
    for block in dequant_row_iq2_xxs(&row, n, &grid) {
        for w in &block.weights {
            let v = 0.125 * f32::from_bits(block.d) * w.factor as f32 * w.grid as f32;
            deq.push(if w.negative { -v } else { v });
        }
    }
    assert_eq!(deq.len(), n);
    let mut reference = 0f64;
    for i in 0..n {
        let a = d[i / QK_K] as f64 * qs[i] as f64;
        reference += deq[i] as f64 * a;
    }
    let rel = ((got as f64 - reference) / reference.abs().max(1e-6)).abs();
    assert!(rel < 1e-4, "dot {got} vs reference {reference} (rel {rel})");
    // and the quantization itself must be sane vs the true dot
    let true_dot: f64 = src.iter().zip(&act).map(|(&a, &b)| a as f64 * b as f64).sum();
    assert!(reference.signum() == true_dot.signum() || true_dot.abs() < 1.0);
}

#[test]
fn dot_on_packed_bytes_matches_dot_on_dequantized_weights() {
    let mut rng = Lcg(42);
    let nb = 8;
    let n = nb * QK_K;
    let grid: Vec<u64> = (0..256).map(|_| rng.next()).collect();
    let row: Vec<u8> = (0..nb * IQ2_XXS_BLOCK_BYTES).map(|_| rng.byte()).collect();
    let qs: Vec<i8> = (0..n).map(|_| rng.byte() as i8).collect();
    let terms = vec_dot_iq2_xxs_q8_k(&row, &qs, n, &grid);
    let blocks = dequant_row_iq2_xxs(&row, n, &grid);
    assert_eq!((terms.len(), blocks.len()), (nb, nb));
    for b in 0..nb {
        assert_eq!(terms[b].d, blocks[b].d);
        let at = b * IQ2_XXS_BLOCK_BYTES;
        assert_eq!(terms[b].d, f16_to_f32(u16::from_le_bytes([row[at], row[at + 1]])));
        let sum: i64 = blocks[b]
            .weights
            .iter()
            .zip(&qs[b * QK_K..])
            .map(|(w, &q)| {
                let g = if w.negative { -(w.grid as i64) } else { w.grid as i64 };
                w.factor as i64 * g * q as i64
            })
            .sum();
        assert_eq!(terms[b].sum as i64, sum);
    }
}

#[test]
fn dot_of_extreme_values_does_not_overflow() {
    let grid = vec![0x8080_8080_8080_8080u64; 256];
    let q8 = vec![-128i8; QK_K];
    assert_eq!(block_dot(&flat_block(0, 15), &q8, &grid), 31 * 256 * 128 * 128);
    assert!(vec_dot_iq2_xxs_q8_k(&[], &[], 0, &grid).is_empty());
}
