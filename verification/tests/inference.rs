use std::collections::HashMap;
use velox_mpc::acss::dealer::generate_evaluation_points;
use velox_mpc::field::LargeField;
use velox_mpc::mpc::context::{Context, RandSharingsState};
use velox_mpc::mpc::input::{convert_string_to_large_field, read_input_lines, InputError};
use velox_mpc::mpc::lin_mult::L1Outcome;
use velox_mpc::mpc::local_inputs::{mask, LocalShareDeriver};
use velox_mpc::mpc::mix_circuit_state::MixCircuitState;
use velox_mpc::mpc::mult_state::MultState;
use velox_mpc::mpc::nn_layers::{LayerOutcome, LayerStart};
use velox_mpc::mpc::nn_reference::{
    activation_value, deterministic_mode, deterministic_value, reference_output, weight_value,
};
use velox_mpc::mpc::nn_state::{
    div_ceil, layer_dims, layer_weight_offset, num_stages, total_inner_products, total_weights,
    NnState, ACTIVATION_ACSS_ID_OFFSET, WEIGHT_ACSS_ID_OFFSET,
};
use velox_mpc::mpc::weak_mult::DepthOutcome;
use velox_mpc::poly::{inverse_vandermonde, matrix_vector_multiply, vandermonde_matrix};
use velox_mpc::types::{deserialize_elements, gen_roots_of_unity, serialize_elements};

fn fe(x: u64) -> LargeField {
    LargeField::from_u64(x)
}

fn mix(mut x: u64) -> u64 {
    x = (x ^ (x >> 30)).wrapping_mul(0xbf58476d1ce4e5b9);
    x = (x ^ (x >> 27)).wrapping_mul(0x94d049bb133111eb);
    x ^ (x >> 31)
}

fn context(myid: usize, n: usize, t: usize, layers: &[usize], batch: usize) -> Context {
    Context {
        myid,
        num_nodes: n,
        num_faults: t,
        use_fft: false,
        roots_of_unity: gen_roots_of_unity(n),
        max_depth: layers.len(),
        multiplication_switch_threshold: 10,
        verification_enabled: false,
        tot_batches: 1,
        total_sharings: 1,
        total_sharings_for_coins: 0,
        output_mask_size: 2,
        nn_layers: layers.to_vec(),
        nn_batch: batch,
        weight_chunk_size: 3,
        avss_shares: HashMap::new(),
        rand_sharings_state: RandSharingsState::new(),
        mult_state: MultState::new(),
        mix_circuit_state: MixCircuitState::new(),
        nn_state: NnState::new(),
    }
}

fn share(secret: LargeField, degree: usize, n: usize, seed: u64) -> Vec<LargeField> {
    let mut row = vec![secret];
    for k in 0..degree {
        row.push(fe(mix(seed * 1000 + k as u64)));
    }
    generate_evaluation_points(vec![row], degree, n).0.remove(0)
}

fn open(shares: &[LargeField], degree: usize) -> LargeField {
    let xs: Vec<LargeField> = (1..=degree as u64 + 1).map(fe).collect();
    let inv = inverse_vandermonde(vandermonde_matrix(xs));
    matrix_vector_multiply(&inv, &shares[..degree + 1])[0]
}

#[test]
fn shares_reconstruct_the_secret() {
    let (n, t) = (13usize, 4usize);
    let secret = LargeField::from(123_456_789u64);
    let idx = 77usize;

    let shares: Vec<LargeField> =
        (0..n).map(|p| LocalShareDeriver::new(p, t).share_of(idx, secret)).collect();

    // Lagrange-interpolate the first t+1 shares back to x = 0.
    let xs: Vec<LargeField> = (1..=(t + 1)).map(|i| LargeField::from(i as u64)).collect();
    let zero = LargeField::from(0u64);
    let mut acc = LargeField::zero();
    for (k, xk) in xs.iter().enumerate() {
        let mut num = LargeField::one();
        let mut den = LargeField::one();
        for (m, xm) in xs.iter().enumerate() {
            if m == k {
                continue;
            }
            num = num.mul(zero.sub(*xm));
            den = den.mul(xk.sub(*xm));
        }
        acc = acc.add(shares[k].mul(num).mul(den.inv().unwrap()));
    }
    assert_eq!(acc, secret, "reconstruction did not recover the secret");
}

#[test]
fn low_parties_receive_their_mask_directly() {
    let t = 4usize;
    let secret = LargeField::from(42u64);
    for party in 0..t {
        let got = LocalShareDeriver::new(party, t).share_of(9, secret);
        assert_eq!(got, mask(9, party), "party {} should receive mask {}", party, party);
    }
}

#[test]
fn masks_stand_clear_of_weights_and_activations() {
    for index in [0usize, 1, 77, 1_000_000] {
        for slot in 0..5usize {
            let m = mask(index, slot).representative();
            assert_eq!(m, (1u64 << 50) + index as u64 * 1_000_003 + slot as u64);
            assert!(m > activation_value(1020).representative());
            assert!(m > weight_value(1020).representative());
        }
    }
}

#[test]
fn largest_mask_is_usable() {
    // The index whose first mask is the largest machine integer.
    let mut inverse = 1u64;
    for _ in 0..6 {
        inverse = inverse.wrapping_mul(2u64.wrapping_sub(inverse.wrapping_mul(1_000_003)));
    }
    let index = (u64::MAX - (1 << 50)).wrapping_mul(inverse) as usize;
    assert_eq!(mask(index, 0), fe(u64::MAX));
    let secret = fe(99);
    let shares: Vec<LargeField> =
        (0..3).map(|p| LocalShareDeriver::new(p, 1).share_of(index, secret)).collect();
    assert_eq!(shares[0], mask(index, 0));
    assert_eq!(open(&shares, 1), secret);
    assert_eq!(LocalShareDeriver::new(4, 0).share_of(usize::MAX, secret), secret);
}

#[test]
fn deterministic_mode_is_asked_for_with_one() {
    assert!(deterministic_mode(Some("1")));
    for other in ["", "0", "11", "true"] {
        assert!(!deterministic_mode(Some(other)));
    }
    assert!(!deterministic_mode(None));
}

#[test]
fn derived_ranges_match_single_shares() {
    let d = LocalShareDeriver::new(6, 2);
    let range = d.shares_range(10, 4, |i| weight_value(i));
    assert_eq!(range.len(), 4);
    for i in 0..4 {
        assert_eq!(range[i], d.share_of(10 + i, weight_value(10 + i)));
    }
    assert!(d.shares_range(5, 0, |i| weight_value(i)).is_empty());
    assert_ne!(mask(1, 0), mask(1, 1));
    assert_ne!(mask(1, 0), mask(2, 0));
}

#[test]
fn network_shape_formulas() {
    let widths = [4usize, 3, 5, 2];
    assert_eq!(num_stages(&widths), 3);
    assert_eq!(layer_dims(2, &widths), (3, 5));
    assert_eq!(layer_weight_offset(1, &widths), 0);
    assert_eq!(layer_weight_offset(3, &widths), 27);
    assert_eq!(total_weights(&widths), 37);
    assert_eq!(total_inner_products(&widths, 6), 60);
    // The input width does not matter for the number of inner products.
    assert_eq!(total_inner_products(&[9, 3, 5, 2], 6), 60);
    assert_eq!((div_ceil(7, 3), div_ceil(6, 3), div_ceil(0, 3)), (3, 2, 0));
}

#[test]
fn reference_architectures_have_the_published_sizes() {
    let table: [(&[usize], usize); 5] = [
        (&[784, 300, 100, 10], 266_200),
        (&[3072, 2048, 1024, 512, 10], 8_918_016),
        (&[512, 4096, 4096, 10], 18_915_328),
        (&[9216, 4096, 4096, 1000], 58_621_952),
        (&[25088, 4096, 4096, 1000], 123_633_664),
    ];
    for (widths, weights) in table {
        assert_eq!(total_weights(widths), weights);
    }
    let cifar = [3072, 2048, 1024, 512, 10];
    assert_eq!(num_stages(&cifar), 4);
    assert_eq!(total_inner_products(&cifar, 16), 57_504);
    assert_eq!(total_inner_products(&cifar, 32), 115_008);
    assert_eq!(total_inner_products(&cifar, 128), 460_032);
}

#[test]
fn deterministic_values_are_small_and_nonzero() {
    assert_eq!(deterministic_value(0), fe(1));
    assert_eq!(deterministic_value(1020), fe(1021));
    assert_eq!(deterministic_value(1021), fe(1));
    assert_eq!(weight_value(5), fe(6));
    assert_eq!(activation_value(0), fe(1022));
    assert_eq!(activation_value(1020), fe(2042));
    assert_eq!(activation_value(1021), fe(1022));
    assert_eq!(activation_value(usize::MAX), fe(usize::MAX as u64 % 1021 + 1022));
}

#[test]
fn weights_and_activations_never_share_a_value() {
    let weights: Vec<u64> = (0..3000).map(|i| weight_value(i).representative()).collect();
    for i in 0..3000 {
        let a = activation_value(i).representative();
        assert!(a != 0 && !weights.contains(&a));
    }
}

#[test]
fn verification_decides_what_follows_the_last_stage() {
    let mut c = context(0, 4, 1, &[2, 2, 1], 2);
    c.verification_enabled = true;
    let r = c.verify_nn_layer_termination(1, vec![fe(1), fe(2), fe(3), fe(4)]);
    assert_eq!(r, LayerOutcome::Next);
    let r = c.verify_nn_layer_termination(2, vec![fe(8), fe(9)]);
    assert_eq!(r, LayerOutcome::VerifyTuples);
    assert!(c.mult_state.output_layer.output_shares.is_some());
    c.verification_enabled = false;
    let r = c.verify_nn_layer_termination(2, vec![fe(8), fe(9)]);
    assert_eq!(r, LayerOutcome::ReconstructOutput);
}

#[test]
fn reference_is_a_forward_pass() {
    // One stage of width one: activation times weight.
    assert_eq!(reference_output(&[1, 1], 1), vec![activation_value(0).mul(weight_value(0))]);
    let widths = [2usize, 2, 1];
    let (a0, a1) = (activation_value(2), activation_value(3));
    let h0 = a0.mul(weight_value(0)).add(a1.mul(weight_value(2)));
    let h1 = a0.mul(weight_value(1)).add(a1.mul(weight_value(3)));
    let want = h0.mul(weight_value(4)).add(h1.mul(weight_value(5)));
    let out = reference_output(&widths, 2);
    assert_eq!(out.len(), 2);
    assert_eq!(out[1], want);
}

#[test]
fn blocks_are_equal_and_cut_into_chunks() {
    let c = context(1, 4, 1, &[4, 3, 2], 5);
    // 18 weights and 20 activations over four parties, chunks of three.
    assert_eq!(c.weights_per_party(), 5);
    assert_eq!(c.activations_per_party(), 5);
    assert_eq!(c.num_weight_chunks(), 2);
    assert_eq!(c.num_activation_chunks(), 2);
    let chunk = c.weight_chunk(1, None);
    assert_eq!(chunk.instance_id, WEIGHT_ACSS_ID_OFFSET + 1);
    assert_eq!(
        deserialize_elements(&chunk.values),
        Some(vec![weight_value(8), weight_value(9)])
    );
    let chunk = c.activation_chunk(0, Some(vec![fe(7), fe(8), fe(9)]));
    assert_eq!(chunk.instance_id, ACTIVATION_ACSS_ID_OFFSET);
    assert_eq!(deserialize_elements(&chunk.values), Some(vec![fe(7), fe(8), fe(9)]));
}

#[test]
fn input_phase_shares_both_blocks() {
    let c = context(1, 4, 1, &[4, 3, 2], 5);
    let all = c.init_input_phase(None);
    let ids: Vec<usize> = all.iter().map(|m| m.instance_id).collect();
    assert_eq!(ids, vec![1000, 1001, 2000, 2001]);
    let values = |m: usize| deserialize_elements(&all[m].values).unwrap();
    assert_eq!([values(0), values(1)].concat(), (5..10).map(weight_value).collect::<Vec<_>>());
    assert_eq!([values(2), values(3)].concat(), (5..10).map(activation_value).collect::<Vec<_>>());
    let w: Vec<LargeField> = (0..5).map(fe).collect();
    let a: Vec<LargeField> = (10..15).map(fe).collect();
    let all = c.init_input_phase(Some((w, a)));
    assert_eq!(all[1].values, serialize_elements(&vec![fe(3), fe(4)]));
    assert_eq!(all[2].values, serialize_elements(&vec![fe(10), fe(11), fe(12)]));
}

/// Shares the deterministic model among all parties.
fn deliver_model(ps: &mut Vec<Context>) {
    let (n, t) = (ps.len(), ps[0].num_faults);
    for dealer in 0..n {
        for (x, m) in ps[dealer].init_input_phase(None).iter().enumerate() {
            let secrets = deserialize_elements(&m.values).unwrap();
            let shared: Vec<Vec<LargeField>> = secrets
                .iter()
                .enumerate()
                .map(|(k, s)| share(*s, t, n, (dealer * 1000 + x * 10 + k) as u64))
                .collect();
            for p in 0..n {
                let mine: Vec<LargeField> = shared.iter().map(|s| s[p]).collect();
                let ser = Some(serialize_elements(&mine));
                assert!(!ps[p].check_input_phase_barrier());
                if m.instance_id >= ACTIVATION_ACSS_ID_OFFSET {
                    assert!(ps[p].handle_activation_acss_termination(m.instance_id, dealer, ser));
                } else {
                    assert!(ps[p].handle_weight_acss_termination(m.instance_id, dealer, ser));
                }
            }
        }
    }
}

#[test]
fn model_is_assembled_once_everything_has_arrived() {
    let (n, t) = (4, 1);
    let layers = [4usize, 3, 2];
    let mut ps: Vec<Context> = (0..n).map(|i| context(i, n, t, &layers, 5)).collect();
    assert!(!ps[0].handle_weight_acss_termination(1000, 2, None));
    assert!(!ps[0].handle_activation_acss_termination(2000, 2, None));
    deliver_model(&mut ps);
    for p in 0..n {
        assert!(ps[p].check_input_phase_barrier());
        assert!(!ps[p].check_input_phase_barrier());
        // Everything that comes later is ignored.
        assert!(!ps[p].handle_weight_acss_termination(1000, 0, Some(vec![vec![0; 8]])));
        let s = &ps[p].nn_state;
        assert!(s.input_phase_done);
        assert_eq!(s.weights.len(), 2);
        assert_eq!(s.weights[0].len(), 3);
        assert_eq!(s.weights[1].len(), 2);
        assert_eq!(s.activations[&1].len(), 5);
    }
    // Column j of a stage holds the weights i * d_out + j.
    for (l, base, d_in, d_out) in [(0usize, 0usize, 4usize, 3usize), (1, 12, 3, 2)] {
        for j in 0..d_out {
            for i in 0..d_in {
                let s: Vec<LargeField> = (0..n).map(|p| ps[p].nn_state.weights[l][j][i]).collect();
                assert_eq!(open(&s, t), weight_value(base + i * d_out + j));
            }
        }
    }
    for b in 0..5 {
        for k in 0..4 {
            let s: Vec<LargeField> = (0..n).map(|p| ps[p].nn_state.activations[&1][b][k]).collect();
            assert_eq!(open(&s, t), activation_value(b * 4 + k));
        }
    }
}

#[test]
fn shared_network_computes_the_reference() {
    let (n, t) = (4, 1);
    let layers = [4usize, 3, 2];
    let batch = 2;
    let mut ps: Vec<Context> = (0..n).map(|i| context(i, n, t, &layers, batch)).collect();
    for k in 0..20u64 {
        let r = share(fe(mix(k)), t, n, 40_000 + k);
        let z = share(fe(0), 2 * t, n, 50_000 + k);
        for p in 0..n {
            ps[p].rand_sharings_state.rand_sharings_mult.push(r[p]);
            ps[p].rand_sharings_state.rand_2t_sharings_mult.push(z[p]);
        }
    }
    deliver_model(&mut ps);
    for p in 0..n {
        assert!(matches!(ps[p].init_nn_layer(1), LayerStart::MissingActivations));
        assert!(ps[p].check_input_phase_barrier());
    }
    for layer in 1..=2 {
        let mut messages = Vec::new();
        for p in 0..n {
            match ps[p].init_nn_layer(layer) {
                LayerStart::Started { messages: Some(m) } => messages.push(m),
                _ => panic!("stage starts"),
            }
            assert!(matches!(ps[p].init_nn_layer(layer), LayerStart::AlreadyStarted));
        }
        let mut second = Vec::new();
        for to in 0..n {
            for from in 0..n - t {
                if let L1Outcome::Reconstructed { payload } =
                    ps[to].handle_l1_message(messages[from][to].clone(), layer, from)
                {
                    second.push(payload);
                }
            }
        }
        for to in 0..n {
            for from in 0..n - t {
                ps[to].handle_l2_message(second[from].clone(), layer, from);
                ps[to].handle_hash_broadcast(&[5; 32], layer, true, from);
            }
            match ps[to].verify_depth_mult_termination(layer) {
                DepthOutcome::Finished { shares, network_stage, .. } => {
                    assert!(network_stage);
                    let want = if layer == 1 {
                        LayerOutcome::Next
                    } else {
                        LayerOutcome::ReconstructOutput
                    };
                    assert_eq!(ps[to].verify_nn_layer_termination(layer, shares), want);
                }
                _ => panic!("stage ends"),
            }
        }
    }
    let expected = reference_output(&layers, batch);
    for x in 0..4 {
        let mut s = Vec::new();
        for p in 0..n {
            let out = ps[p].mult_state.output_layer.output_shares.as_ref().unwrap();
            assert_eq!(out.0, fe(p as u64 + 1));
            s.push(out.1[x]);
        }
        assert_eq!(open(&s, t), expected[x]);
    }
}

#[test]
fn stage_outputs_of_the_wrong_size_are_refused() {
    let mut c = context(0, 4, 1, &[2, 2, 1], 2);
    assert_eq!(c.verify_nn_layer_termination(1, vec![fe(1)]), LayerOutcome::WrongCount);
    assert!(c.nn_state.activations.is_empty());
    let r = c.verify_nn_layer_termination(1, vec![fe(1), fe(2), fe(3), fe(4)]);
    assert_eq!(r, LayerOutcome::Next);
    assert_eq!(c.nn_state.activations[&2], vec![vec![fe(1), fe(2)], vec![fe(3), fe(4)]]);
    let r = c.verify_nn_layer_termination(2, vec![fe(8), fe(9)]);
    assert_eq!(r, LayerOutcome::ReconstructOutput);
    assert_eq!(
        c.mult_state.output_layer.output_shares,
        Some((fe(1), vec![fe(8), fe(9)]))
    );
}

#[test]
fn stage_operands_of_the_wrong_shape_are_refused() {
    let mut c = context(0, 4, 1, &[2, 2], 2);
    c.nn_state.weights = vec![vec![vec![fe(1), fe(2)]; 2]];
    c.nn_state.activations.insert(1, vec![vec![fe(1), fe(2)]]);
    assert!(matches!(c.init_nn_layer(1), LayerStart::ShapeMismatch));
    assert!(matches!(c.init_nn_layer(1), LayerStart::AlreadyStarted));
}

#[test]
fn text_lines_become_elements() {
    assert_eq!(convert_string_to_large_field(""), Some(fe(0)));
    assert_eq!(convert_string_to_large_field("A"), Some(fe(65)));
    assert_eq!(convert_string_to_large_field("AB"), Some(fe(65 * 256 + 66)));
    // 61 bits are one, so the top of a longer line wraps around.
    assert_eq!(convert_string_to_large_field("\u{1}\0\0\0\0\0\0\0\0"), Some(fe(8)));
    assert!(convert_string_to_large_field(&"x".repeat(32)).is_some());
    assert_eq!(convert_string_to_large_field(&"x".repeat(33)), None);
}

#[test]
fn input_lines_are_checked_in_order() {
    let lines: Vec<String> = vec!["A".to_string(), "B".to_string(), "y".repeat(40), "C".to_string()];
    assert_eq!(read_input_lines(&lines, 2), Ok(vec![fe(65), fe(66)]));
    assert_eq!(read_input_lines(&lines, 0), Ok(vec![]));
    assert_eq!(read_input_lines(&lines, 3), Err(InputError::Unrepresentable { line: 3 }));
    assert_eq!(read_input_lines(&lines, 9), Err(InputError::Unrepresentable { line: 3 }));
    assert_eq!(read_input_lines(&lines[..2].to_vec(), 3), Err(InputError::Insufficient));
}
