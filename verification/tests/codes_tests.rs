use agnostir::{random_permutation, BasefoldCode, BasefoldParams, EaCode, EaParams, BrakedownCode, BrakedownLevel, EraCode, ErrorCorrectingCode, IdentityCode, KoalaBear, OptimizedEraCode};
use rand::rngs::SmallRng;
use rand::SeedableRng;

fn random_field_vector(rng: &mut SmallRng, n: usize) -> Vec<KoalaBear> {
    (0..n).map(|_| KoalaBear::random(rng)).collect()
}

fn era_parts(
    rng: &mut SmallRng,
    block_length: usize,
) -> (Vec<usize>, Vec<usize>, Vec<KoalaBear>, Vec<KoalaBear>) {
    let p1 = random_permutation(rng, block_length);
    let p2 = random_permutation(rng, block_length);
    let m1 = random_field_vector(rng, block_length);
    let m2 = random_field_vector(rng, block_length);
    (p1, p2, m1, m2)
}

#[test]
fn test_identity_code_basic() {
    let message_size = 8;
    let code = IdentityCode::new(message_size);

    assert_eq!(code.message_size(), message_size);
    assert_eq!(code.block_length(), message_size);

    let msg: Vec<KoalaBear> = (0..message_size as u32).map(KoalaBear::new).collect();
    let encoded = code.encode(&msg);
    assert_eq!(encoded, msg);
}

#[test]
fn test_era_code_output_length() {
    let mut rng = SmallRng::seed_from_u64(12345);
    let message_size = 4;
    let repetition = 3;
    let block_length = message_size * repetition;
    let base_code = IdentityCode::new(message_size);
    let (p1, p2, m1, m2) = era_parts(&mut rng, block_length);
    let era_code = EraCode::new(base_code, repetition, p1, p2, m1, m2);

    assert_eq!(era_code.message_size(), message_size);
    assert_eq!(era_code.block_length(), block_length);

    let msg: Vec<KoalaBear> = (0..message_size as u32).map(KoalaBear::new).collect();
    let encoded = era_code.encode_era(&msg);
    assert_eq!(encoded.len(), block_length);
}

#[test]
fn test_optimized_era_code_output_length() {
    let mut rng = SmallRng::seed_from_u64(12345);
    let message_size = 4;
    let repetition = 3;
    let block_length = message_size * repetition;
    let base_code = IdentityCode::new(message_size);
    let (p1, p2, m1, m2) = era_parts(&mut rng, block_length);
    let era_code = OptimizedEraCode::new(base_code, repetition, 0, p1, p2, m1, m2);

    assert_eq!(era_code.message_size(), message_size);
    assert_eq!(era_code.block_length(), block_length);

    let msg: Vec<KoalaBear> = (0..message_size as u32).map(KoalaBear::new).collect();
    let encoded = era_code.encode(&msg);
    assert_eq!(encoded.len(), block_length);
}

#[test]
fn test_era_code_deterministic() {
    let mut rng = SmallRng::seed_from_u64(42);
    let message_size = 4;
    let repetition = 2;
    let block_length = message_size * repetition;
    let base_code = IdentityCode::new(message_size);
    let (p1, p2, m1, m2) = era_parts(&mut rng, block_length);
    let era_code = EraCode::new(base_code, repetition, p1, p2, m1, m2);

    let msg: Vec<KoalaBear> = (1..=message_size as u32).map(KoalaBear::new).collect();
    let encoded1 = era_code.encode_era(&msg);
    let encoded2 = era_code.encode_era(&msg);
    assert_eq!(encoded1, encoded2);
}

#[test]
fn test_optimized_era_code_deterministic() {
    let mut rng = SmallRng::seed_from_u64(42);
    let message_size = 4;
    let repetition = 2;
    let block_length = message_size * repetition;
    let base_code = IdentityCode::new(message_size);
    let (p1, p2, m1, m2) = era_parts(&mut rng, block_length);
    let era_code = OptimizedEraCode::new(base_code, repetition, 0, p1, p2, m1, m2);

    let msg: Vec<KoalaBear> = (1..=message_size as u32).map(KoalaBear::new).collect();
    let encoded1 = era_code.encode(&msg);
    let encoded2 = era_code.encode(&msg);
    assert_eq!(encoded1, encoded2);
}

#[test]
fn test_optimized_era_code_matches_naive() {
    let mut rng = SmallRng::seed_from_u64(2024);
    let message_size = 1 << 16;
    let repetition = 6;
    let block_length = message_size * repetition;
    let base_code = IdentityCode::new(message_size);
    let (p1, p2, m1, m2) = era_parts(&mut rng, block_length);
    let mut era_code = OptimizedEraCode::new(base_code, repetition, 0, p1, p2, m1, m2);

    for _ in 0..5 {
        let msg = random_field_vector(&mut rng, message_size);
        let fast = era_code.encode_fast(&msg);
        let naive = era_code.encode_naive(&msg);
        let blocked = era_code.encode_blocked(&msg);

        assert_eq!(fast, naive);
        assert_eq!(blocked, naive.as_slice());
    }
}

#[test]
fn test_optimized_era_code_blocked_reuse() {
    let mut rng = SmallRng::seed_from_u64(2025);
    let message_size = 1 << 12;
    let repetition = 4;
    let block_length = message_size * repetition;
    let base_code = IdentityCode::new(message_size);
    let (p1, p2, m1, m2) = era_parts(&mut rng, block_length);
    let mut era_code = OptimizedEraCode::new(base_code, repetition, 0, p1, p2, m1, m2);

    let msg = random_field_vector(&mut rng, message_size);
    let expected = era_code.encode_naive(&msg);

    let first = era_code.encode_blocked(&msg).to_vec();
    assert_eq!(first, expected.as_slice());

    let second = era_code.encode_blocked(&msg);
    assert_eq!(second, expected.as_slice());
}

#[test]
fn test_era_code_different_inputs_different_outputs() {
    let mut rng = SmallRng::seed_from_u64(999);
    let message_size = 4;
    let repetition = 2;
    let block_length = message_size * repetition;
    let base_code = IdentityCode::new(message_size);
    let (p1, p2, m1, m2) = era_parts(&mut rng, block_length);
    let era_code = EraCode::new(base_code, repetition, p1, p2, m1, m2);

    let msg1: Vec<KoalaBear> = (0..message_size as u32).map(KoalaBear::new).collect();
    let msg2: Vec<KoalaBear> = (10..10 + message_size as u32).map(KoalaBear::new).collect();
    let encoded1 = era_code.encode_era(&msg1);
    let encoded2 = era_code.encode_era(&msg2);
    assert_ne!(encoded1, encoded2);
}

#[test]
fn test_optimized_era_code_different_inputs_different_outputs() {
    let mut rng = SmallRng::seed_from_u64(999);
    let message_size = 4;
    let repetition = 2;
    let block_length = message_size * repetition;
    let base_code = IdentityCode::new(message_size);
    let (p1, p2, m1, m2) = era_parts(&mut rng, block_length);
    let era_code = OptimizedEraCode::new(base_code, repetition, 0, p1, p2, m1, m2);

    let msg1: Vec<KoalaBear> = (0..message_size as u32).map(KoalaBear::new).collect();
    let msg2: Vec<KoalaBear> = (10..10 + message_size as u32).map(KoalaBear::new).collect();
    let encoded1 = era_code.encode(&msg1);
    let encoded2 = era_code.encode(&msg2);
    assert_ne!(encoded1, encoded2);
}

#[test]
fn test_era_code_with_various_repetition_parameters() {
    let mut rng = SmallRng::seed_from_u64(7777);
    for repetition in [1, 2, 4, 8] {
        let message_size = 4;
        let block_length = message_size * repetition;
        let base_code = IdentityCode::new(message_size);
        let (p1, p2, m1, m2) = era_parts(&mut rng, block_length);
        let era_code = EraCode::new(base_code, repetition, p1, p2, m1, m2);

        let msg: Vec<KoalaBear> = (0..message_size as u32).map(KoalaBear::new).collect();
        let encoded = era_code.encode_era(&msg);
        assert_eq!(encoded.len(), block_length, "Failed for repetition = {repetition}");
    }
}

#[test]
fn test_optimized_era_code_with_various_repetition_parameters() {
    let mut rng = SmallRng::seed_from_u64(7777);
    for repetition in [1, 2, 4, 8] {
        let message_size = 4;
        let block_length = message_size * repetition;
        let base_code = IdentityCode::new(message_size);
        let (p1, p2, m1, m2) = era_parts(&mut rng, block_length);
        let era_code = OptimizedEraCode::new(base_code, repetition, 0, p1, p2, m1, m2);

        let msg: Vec<KoalaBear> = (0..message_size as u32).map(KoalaBear::new).collect();
        let encoded = era_code.encode(&msg);
        assert_eq!(encoded.len(), block_length, "Failed for repetition = {repetition}");
    }
}

#[test]
fn test_era_code_zero_message() {
    let mut rng = SmallRng::seed_from_u64(1111);
    let message_size = 4;
    let repetition = 2;
    let block_length = message_size * repetition;
    let base_code = IdentityCode::new(message_size);
    let (p1, p2, m1, m2) = era_parts(&mut rng, block_length);
    let era_code = EraCode::new(base_code, repetition, p1, p2, m1, m2);

    let msg: Vec<KoalaBear> = vec![KoalaBear::zero(); message_size];
    let encoded = era_code.encode_era(&msg);
    assert_eq!(encoded.len(), block_length);
    for elem in &encoded {
        assert_eq!(*elem, KoalaBear::zero());
    }
}

#[test]
fn test_optimized_era_code_zero_message() {
    let mut rng = SmallRng::seed_from_u64(1111);
    let message_size = 4;
    let repetition = 2;
    let block_length = message_size * repetition;
    let base_code = IdentityCode::new(message_size);
    let (p1, p2, m1, m2) = era_parts(&mut rng, block_length);
    let era_code = OptimizedEraCode::new(base_code, repetition, 0, p1, p2, m1, m2);

    let msg: Vec<KoalaBear> = vec![KoalaBear::zero(); message_size];
    let encoded = era_code.encode(&msg);
    assert_eq!(encoded.len(), block_length);
    for elem in &encoded {
        assert_eq!(*elem, KoalaBear::zero());
    }
}

#[test]
fn brakedown_is_systematic_with_the_scheduled_length() {
    let mut rng = SmallRng::seed_from_u64(31);
    // 16 -> y = 4 -> y = 1 -> y = 0, inverse rate 2.
    let levels = vec![
        BrakedownLevel { msg_length: 16, y_length: 4, z_length: 8, v_length: 8 },
        BrakedownLevel { msg_length: 4, y_length: 1, z_length: 2, v_length: 2 },
        BrakedownLevel { msg_length: 1, y_length: 0, z_length: 0, v_length: 1 },
    ];
    let code = BrakedownCode::new(16, 2, 3, levels, &mut rng);
    assert_eq!(code.message_size(), 16);
    assert_eq!(code.codeword_length(), 32);
    assert_eq!(code.block_length(), 32);
    let msg: Vec<KoalaBear> = (1..=16).map(KoalaBear::new).collect();
    let cw = code.encode(&msg);
    assert_eq!(cw.len(), 32);
    assert_eq!(&cw[..16], msg.as_slice());
    // Deterministic in the generator's seed.
    let mut rng2 = SmallRng::seed_from_u64(31);
    let levels2 = vec![
        BrakedownLevel { msg_length: 16, y_length: 4, z_length: 8, v_length: 8 },
        BrakedownLevel { msg_length: 4, y_length: 1, z_length: 2, v_length: 2 },
        BrakedownLevel { msg_length: 1, y_length: 0, z_length: 0, v_length: 1 },
    ];
    let code2 = BrakedownCode::new(16, 2, 3, levels2, &mut rng2);
    assert_eq!(code2.encode(&msg), cw);
}

#[test]
fn era_steps_compose_to_the_encoding() {
    let mut rng = SmallRng::seed_from_u64(77);
    let message_size = 4;
    let repetition = 3;
    let block_length = message_size * repetition;
    let base_code = IdentityCode::new(message_size);
    let (p1, p2, m1, m2) = era_parts(&mut rng, block_length);
    let era_code = EraCode::new(base_code, repetition, p1.clone(), p2.clone(), m1.clone(), m2.clone());
    let msg: Vec<KoalaBear> = (5..5 + message_size as u32).map(KoalaBear::new).collect();

    let base = era_code.base_code().encode(&msg);
    let mut w1 = era_code.repeat_permute(&base);
    for i in 0..block_length {
        assert_eq!(w1[i], msg[p1[i] % message_size]);
    }
    era_code.accumulate_first(&mut w1);
    let mut acc = KoalaBear::zero();
    for i in 0..block_length {
        acc = acc.add(msg[p1[i] % message_size].mul(m1[i]));
        assert_eq!(w1[i], acc);
    }
    let mut w2 = era_code.permute_second(&w1);
    era_code.accumulate_second(&mut w2);
    assert_eq!(w2, era_code.encode_era(&msg));
    assert_eq!(w2, era_code.encode(&msg));
}

#[test]
fn era_interleaved_is_rowwise_encoding() {
    let mut rng = SmallRng::seed_from_u64(55);
    let message_size = 4;
    let repetition = 2;
    let block_length = message_size * repetition;
    let base_code = IdentityCode::new(message_size);
    let (p1, p2, m1, m2) = era_parts(&mut rng, block_length);
    let era_code = EraCode::new(base_code, repetition, p1, p2, m1, m2);
    let msgs = random_field_vector(&mut rng, 4 * message_size);
    let out = era_code.encode_interleaved(&msgs, 2);
    assert_eq!(out.len(), 4 * block_length);
    for r in 0..4 {
        let row = era_code.encode_era(&msgs[r * message_size..(r + 1) * message_size]);
        assert_eq!(&out[r * block_length..(r + 1) * block_length], row.as_slice());
    }
}

#[test]
fn sort_based_encoders_scatter_by_key() {
    use_sort_based_encoders(1, 8, 4);
    use_sort_based_encoders(3, 4, 5);
}

fn use_sort_based_encoders(repetition: usize, message_size: usize, seed: u64) {
    let mut rng = SmallRng::seed_from_u64(seed);
    let block_length = message_size * repetition;
    let base_code = IdentityCode::new(message_size);
    let (p1, p2, m1, m2) = era_parts(&mut rng, block_length);
    let era_code =
        OptimizedEraCode::new(base_code, repetition, 0, p1.clone(), p2.clone(), m1.clone(), m2.clone());
    let msg = random_field_vector(&mut rng, message_size);

    let sorted = era_code.encode_sort_perm(&msg);
    let radix = era_code.encode_radix_sort_perm(&msg);
    let mut buffers = agnostir::RadixSortBuffers::with_capacity(block_length);
    let buffered = era_code.encode_radix_sort_perm_with_buffer(&msg, &mut buffers).to_vec();
    assert_eq!(sorted, radix);
    assert_eq!(sorted, buffered);
    assert_eq!(sorted.len(), block_length);

    // Round by round: position `i` carries `input[i / repetition]` under the key
    // `key[i]`; sorting the pairs by key (then value) gives the permuted vector.
    let round = |input: &[KoalaBear], keys: &[usize], mult: &[KoalaBear]| -> Vec<KoalaBear> {
        let mut pairs: Vec<(usize, u32)> =
            (0..keys.len()).map(|i| (keys[i], input[i / repetition].as_canonical_u32())).collect();
        pairs.sort();
        let mut acc = KoalaBear::zero();
        pairs
            .iter()
            .zip(mult)
            .map(|(&(_, v), &m)| {
                acc = acc.add(KoalaBear::new(v).mul(m));
                acc
            })
            .collect()
    };
    let keys1: Vec<usize> = p1.iter().map(|&i| i % message_size).collect();
    let first = round(&msg, &keys1, &m1);
    let second = round(&first, &p2, &m2);
    assert_eq!(sorted, second);
}

#[test]
fn era_encode_rip_is_deterministic_per_seed() {
    let mut rng = SmallRng::seed_from_u64(77);
    let message_size = 8;
    let repetition = 3;
    let block_length = message_size * repetition;
    let (p1, p2, m1, m2) = era_parts(&mut rng, block_length);
    let era_code = EraCode::new(IdentityCode::new(message_size), repetition, p1, p2, m1, m2);
    let msg = random_field_vector(&mut rng, message_size);
    let a = era_code.encode_rip(&msg, 5);
    let b = era_code.encode_rip(&msg, 5);
    assert_eq!(a.len(), block_length);
    assert_eq!(a, b);
    let zero = vec![KoalaBear::zero(); message_size];
    assert!(era_code.encode_rip(&zero, 9).iter().all(|x| *x == KoalaBear::zero()));
}

#[test]
fn era_encode_rip_total_does_not_depend_on_the_shuffles() {
    // With unit multipliers and a constant message, the first round gives
    // c, 2c, ..., nc in some order, so the last running sum is c n (n + 1) / 2.
    let mut rng = SmallRng::seed_from_u64(78);
    let message_size = 4;
    let repetition = 2;
    let n = message_size * repetition;
    let (p1, p2, _, _) = era_parts(&mut rng, n);
    let ones = vec![KoalaBear::one(); n];
    let era_code = EraCode::new(IdentityCode::new(message_size), repetition, p1, p2, ones.clone(), ones);
    let c = KoalaBear::from_u32(3);
    let msg = vec![c; message_size];
    for seed in [1u64, 2, 3] {
        let out = era_code.encode_rip(&msg, seed);
        assert_eq!(out[n - 1], KoalaBear::from_u32(3 * (n * (n + 1) / 2) as u32));
        assert!((1..=n as u32).any(|k| out[0] == KoalaBear::from_u32(3 * k)));
    }
}

fn vadd(a: &[KoalaBear], b: &[KoalaBear]) -> Vec<KoalaBear> {
    a.iter().zip(b).map(|(x, y)| x.add(*y)).collect()
}

fn vscale(c: KoalaBear, a: &[KoalaBear]) -> Vec<KoalaBear> {
    a.iter().map(|x| c.mul(*x)).collect()
}

#[test]
fn ea_code_is_linear() {
    let mut rng = SmallRng::seed_from_u64(31);
    let code = EaCode::new(16, EaParams { inverse_rate: 2, prob_multiplier: 3 }, &mut rng);
    let a = random_field_vector(&mut rng, 16);
    let b = random_field_vector(&mut rng, 16);
    let c = KoalaBear::from_u32(12345);
    assert_eq!(code.encode(&vadd(&a, &b)), vadd(&code.encode(&a), &code.encode(&b)));
    assert_eq!(code.encode(&vscale(c, &a)), vscale(c, &code.encode(&a)));
}

#[test]
fn basefold_code_is_linear_and_repeats_single_entries() {
    let mut rng = SmallRng::seed_from_u64(32);
    let code = BasefoldCode::new(8, BasefoldParams { inv_rate: 2 }, &mut rng);
    let a = random_field_vector(&mut rng, 8);
    let b = random_field_vector(&mut rng, 8);
    let c = KoalaBear::from_u32(777);
    assert_eq!(code.encode(&vadd(&a, &b)), vadd(&code.encode(&a), &code.encode(&b)));
    assert_eq!(code.encode(&vscale(c, &a)), vscale(c, &code.encode(&a)));
    let single = BasefoldCode::new(1, BasefoldParams { inv_rate: 3 }, &mut rng);
    let x = KoalaBear::from_u32(42);
    assert_eq!(single.encode(&[x]), vec![x; 3]);
}
