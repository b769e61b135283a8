use hackbot::math::{
    argmax_q16, cos_q16, elementwise_mul_inplace_q16, elementwise_mul_q16, exp_q16_neg, isqrt_u64,
    matmul_q8, read_le_i32, rmsnorm_q16, rope_apply_q16, sigmoid_q16, silu_q16, silu_vec_q16, sin_q16,
    softmax_q16, vec_add_q16,
};

#[test]
fn isqrt_floors_the_square_root() {
    assert_eq!(isqrt_u64(0), 0);
    assert_eq!(isqrt_u64(1), 1);
    assert_eq!(isqrt_u64(2), 1);
    assert_eq!(isqrt_u64(3), 1);
    assert_eq!(isqrt_u64(15), 3);
    assert_eq!(isqrt_u64(16), 4);
    assert_eq!(isqrt_u64(17), 4);
    assert_eq!(isqrt_u64(1_000_000_000_000), 1_000_000);
    assert_eq!(isqrt_u64(u64::MAX), 4_294_967_295);
}

#[test]
fn exp_of_non_positive_arguments() {
    assert_eq!(exp_q16_neg(0), 65536);
    assert_eq!(exp_q16_neg(5), 65536);
    assert_eq!(exp_q16_neg(-65536), 24109);
    assert_eq!(exp_q16_neg(-32768), 39679);
    assert_eq!(exp_q16_neg(-131072), 8869);
    assert_eq!(exp_q16_neg(-1_200_000), 0);
}

#[test]
fn sigmoid_and_silu_values() {
    assert_eq!(sigmoid_q16(0), 32768);
    assert_eq!(sigmoid_q16(65536), 47910);
    assert_eq!(sigmoid_q16(-65536), 17625);
    assert_eq!(silu_q16(0), 0);
    assert_eq!(silu_q16(65536), 47910);
    assert_eq!(silu_q16(-65536), -17625);
    assert_eq!(silu_q16(131072), 115448);
}

#[test]
fn sine_and_cosine_from_the_table() {
    assert_eq!(sin_q16(0), 0);
    assert_eq!(cos_q16(0), 65536);
    assert_eq!(sin_q16(102944), 65536);
    assert_eq!(cos_q16(102944), 0);
    assert_eq!(sin_q16(51472), 46341);
    assert_eq!(cos_q16(51472), 46341);
    assert_eq!(sin_q16(-102944), -65535);
    assert_eq!(sin_q16(205887), 1);
    assert_eq!(cos_q16(205887), -65535);
}

#[test]
fn little_endian_words() {
    let b = [0x78u8, 0x56, 0x34, 0x12, 0xff, 0xff, 0xff, 0xff];
    assert_eq!(read_le_i32(&b, 0), 0x12345678);
    assert_eq!(read_le_i32(&b, 4), -1);
}

#[test]
fn quantized_matrix_vector_product() {
    // Two rows of four weights in groups of two; scales 1.0 and 0.5.
    let w: [u8; 8] = [1, 2, 0xff, 0, 3, 0, 0, 1];
    let mut scales = Vec::new();
    for s in [65536i32, 32768, 65536, 65536] {
        scales.extend_from_slice(&s.to_le_bytes());
    }
    let x = [10i32, 20, 30, 40];
    let mut out = [0i32; 3];
    out[2] = 99;
    matmul_q8(&mut out, &x, &w, &scales, 2, 4, 2);
    // Row 0: (1*10 + 2*20) * 1.0 + (-1*30 + 0*40) * 0.5 = 50 - 15.
    assert_eq!(out[0], 35);
    // Row 1: (3*10) + (1*40).
    assert_eq!(out[1], 70);
    assert_eq!(out[2], 99);
}

#[test]
fn rms_normalization() {
    let mut w = Vec::new();
    for v in [65536i32, 65536] {
        w.extend_from_slice(&v.to_le_bytes());
    }
    let mut out = [0i32; 2];
    rmsnorm_q16(&mut out, &[65536, 65536], &w, 2);
    assert_eq!(out, [65536, 65536]);

    let mut w3 = Vec::new();
    for v in [65536i32, 32768, 65536] {
        w3.extend_from_slice(&v.to_le_bytes());
    }
    let mut out3 = [7i32; 4];
    rmsnorm_q16(&mut out3, &[65536, -131072, 0], &w3, 3);
    assert_eq!(out3, [50764, -50764, 0, 7]);
}

#[test]
fn softmax_weights() {
    let mut one = [123i32];
    softmax_q16(&mut one, 1);
    assert_eq!(one, [65536]);

    let mut even = [0i32, 0, 0, 5];
    softmax_q16(&mut even, 3);
    assert_eq!(even, [21845, 21845, 21845, 5]);

    let mut pair = [65536i32, 0];
    softmax_q16(&mut pair, 2);
    assert_eq!(pair, [47910, 17625]);

    let mut far = [0i32, -65536 * 20];
    softmax_q16(&mut far, 2);
    assert_eq!(far, [65536, 0]);
}

#[test]
fn rope_at_position_zero_is_identity() {
    let mut v = [100i32, -200, 300, 400, 9];
    rope_apply_q16(&mut v, 0, 4);
    assert_eq!(v, [100, -200, 300, 400, 9]);
}

#[test]
fn rope_rotates_by_position() {
    // Pair 0 at position 1 turns by one radian (frequency 1.0).
    let mut v = [65536i32, 0];
    rope_apply_q16(&mut v, 1, 2);
    let c = cos_q16(65536) as i64;
    let s = sin_q16(65536) as i64;
    assert_eq!(v[0] as i64, (65536 * c) >> 16);
    assert_eq!(v[1] as i64, (65536 * s) >> 16);
}

#[test]
fn elementwise_operations() {
    let a = [65536i32, -65536, 131072, i32::MAX];
    let b = [32768i32, 32768, 32768, 1];
    let mut out = [0i32; 4];
    elementwise_mul_q16(&mut out, &a, &b, 3);
    assert_eq!(out, [32768, -32768, 65536, 0]);

    let mut sum = [0i32; 2];
    vec_add_q16(&mut sum, &[i32::MAX, 5], &[1, 6], 2);
    assert_eq!(sum, [i32::MIN, 11]);

    let mut v = [65536i32, -65536, 7];
    silu_vec_q16(&mut v, 2);
    assert_eq!(v, [47910, -17625, 7]);

    let mut p = [65536i32, 131072];
    elementwise_mul_inplace_q16(&mut p, &[131072, 32768], 2);
    assert_eq!(p, [131072, 65536]);
}

#[test]
fn argmax_takes_the_first_largest() {
    assert_eq!(argmax_q16(&[1, 5, 3, 5], 4), 1);
    assert_eq!(argmax_q16(&[-3, -1, -2], 3), 1);
    assert_eq!(argmax_q16(&[], 0), 0);
    assert_eq!(argmax_q16(&[4, 9], 1), 0);
}

#[test]
fn exp_is_bounded_and_never_decreases() {
    let mut prev = exp_q16_neg(-20 * 65536);
    assert_eq!(prev, 0);
    let mut x = -20 * 65536;
    while x <= 65536 {
        let e = exp_q16_neg(x);
        assert!((0..=65536).contains(&e));
        assert!(prev <= e, "exp fell at {}", x);
        prev = e;
        x += 997;
    }
    assert_eq!(exp_q16_neg(0), 65536);
    assert_eq!(exp_q16_neg(-16 * 65536 - 1), 0);
}

#[test]
fn sine_repeats_every_turn() {
    for a in [-500_000, -411_775, -1, 0, 1, 102_944, 300_000, 1_000_000] {
        assert_eq!(sin_q16(a + 411_775), sin_q16(a));
        assert!((-65536..=65536).contains(&sin_q16(a)));
    }
    assert_eq!(sin_q16(0), 0);
    assert_eq!(sin_q16(102_944), 65536);
}

#[test]
fn softmax_keeps_order_and_stays_below_one() {
    let input = [65536, 3 * 65536, 2 * 65536, 65536];
    let mut x = input;
    softmax_q16(&mut x, 4);
    for i in 0..4 {
        assert!((0..=65536).contains(&x[i]));
        for j in 0..4 {
            if input[i] <= input[j] {
                assert!(x[i] <= x[j]);
            }
        }
    }
    assert_eq!(x[0], x[3]);
    assert!(x[1] > x[2] && x[2] > x[0]);
}
