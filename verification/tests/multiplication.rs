use std::collections::HashMap;
use velox_mpc::acss::dealer::generate_evaluation_points;
use velox_mpc::field::LargeField;
use velox_mpc::mpc::context::{Context, RandSharingsState};
use velox_mpc::mpc::lin_mult::{drain_front, interpolate_groups, L1Outcome};
use velox_mpc::mpc::mix_circuit_state::MixCircuitState;
use velox_mpc::mpc::mult_state::MultState;
use velox_mpc::mpc::nn_state::NnState;
use velox_mpc::mpc::weak_mult::{DepthOutcome, MultiplicationProtocol};
use velox_mpc::poly::{inverse_vandermonde, matrix_vector_multiply, vandermonde_matrix};
use velox_mpc::types::gen_roots_of_unity;
use velox_mpc::wire::decode_list;

fn fe(x: u64) -> LargeField {
    LargeField::from_u64(x)
}

fn mix(mut x: u64) -> u64 {
    x = (x ^ (x >> 30)).wrapping_mul(0xbf58476d1ce4e5b9);
    x = (x ^ (x >> 27)).wrapping_mul(0x94d049bb133111eb);
    x ^ (x >> 31)
}

fn context(myid: usize, n: usize, t: usize) -> Context {
    Context {
        myid,
        num_nodes: n,
        num_faults: t,
        use_fft: false,
        roots_of_unity: gen_roots_of_unity(n),
        max_depth: 3,
        multiplication_switch_threshold: 10,
        verification_enabled: false,
        tot_batches: 1,
        total_sharings: 1,
        total_sharings_for_coins: 0,
        output_mask_size: 2,
        nn_layers: vec![2, 2],
        nn_batch: 1,
        weight_chunk_size: 4,
        avss_shares: HashMap::new(),
        rand_sharings_state: RandSharingsState::new(),
        mult_state: MultState::new(),
        mix_circuit_state: MixCircuitState::new(),
        nn_state: NnState::new(),
    }
}

/// Shares of a secret, by party, on a polynomial of the given degree.
fn share(secret: u64, degree: usize, n: usize, seed: u64) -> Vec<LargeField> {
    let mut row = vec![fe(secret)];
    for k in 0..degree {
        row.push(fe(mix(seed * 1000 + k as u64)));
    }
    generate_evaluation_points(vec![row], degree, n).0.remove(0)
}

fn open(shares: &[LargeField], degree: usize) -> LargeField {
    let xs: Vec<LargeField> = (1..=degree as u64 + 1).map(fe).collect();
    let inv = inverse_vandermonde(vandermonde_matrix(xs));
    matrix_vector_multiply(&inv, &shares[..degree + 1])[0]
}

fn parties(n: usize, t: usize, masks: usize, zeros: usize) -> Vec<Context> {
    let mut ps: Vec<Context> = (0..n).map(|i| context(i, n, t)).collect();
    for k in 0..masks {
        let s = share(mix(k as u64), t, n, 5000 + k as u64);
        for i in 0..n {
            ps[i].rand_sharings_state.rand_sharings_mult.push(s[i]);
        }
    }
    for k in 0..zeros {
        let s = share(0, 2 * t, n, 9000 + k as u64);
        for i in 0..n {
            ps[i].rand_sharings_state.rand_2t_sharings_mult.push(s[i]);
        }
    }
    ps
}

/// Delivers all messages of a depth and gives every party's output shares.
fn finish(ps: &mut Vec<Context>, messages: Vec<Vec<Vec<u8>>>, depth: usize) -> Vec<Vec<LargeField>> {
    let n = ps.len();
    let quorum = n - ps[0].num_faults;
    let mut second: Vec<Vec<u8>> = Vec::new();
    for to in 0..n {
        let mut payload = None;
        for from in 0..quorum {
            match ps[to].handle_l1_message(messages[from][to].clone(), depth, from) {
                L1Outcome::Reconstructed { payload: p } => payload = Some(p),
                L1Outcome::Recorded => assert!(from + 1 < quorum),
                L1Outcome::Malformed => panic!("readable message"),
            }
        }
        second.push(payload.expect("quorum reached"));
    }
    let mut out = Vec::new();
    for to in 0..n {
        let mut opened = None;
        for from in 0..quorum {
            let r = ps[to].handle_l2_message(second[from].clone(), depth, from);
            assert_eq!(r.is_some(), from + 1 == quorum);
            opened = r.or(opened);
        }
        let opened = opened.unwrap();
        let mut digest = [0u8; 32];
        for (i, b) in opened.iter().enumerate() {
            digest[i % 32] = digest[i % 32].wrapping_mul(31) ^ b;
        }
        for from in 0..quorum {
            assert!(matches!(ps[to].verify_depth_mult_termination(depth), DepthOutcome::Waiting));
            ps[to].handle_hash_broadcast(&digest, depth, true, from);
        }
        match ps[to].verify_depth_mult_termination(depth) {
            DepthOutcome::Finished { shares, network_stage, recorded } => {
                assert_eq!(network_stage, depth <= ps[to].max_depth);
                assert_eq!(recorded.is_some(), ps[to].verification_enabled);
                out.push(shares);
            }
            _ => panic!("depth ends"),
        }
        // It ends once.
        assert!(matches!(ps[to].verify_depth_mult_termination(depth), DepthOutcome::Waiting));
    }
    out
}

#[test]
fn inner_products_are_multiplied_end_to_end() {
    for (n, t) in [(4usize, 1usize), (7, 2)] {
        let m = 2 * t + 1;
        // Not a multiple of the group size: the last group is padded.
        let count = m + 2;
        let groups = 2;
        let mut ps = parties(n, t, groups * m, groups * (t + 1));
        let mut expected = Vec::new();
        let mut a: Vec<Vec<Vec<LargeField>>> = vec![Vec::new(); n];
        let mut b: Vec<Vec<Vec<LargeField>>> = vec![Vec::new(); n];
        for g in 0..count as u64 {
            let (x, y) = ([3 + g, 5 * g], [7 + g, 11]);
            expected.push(fe(x[0] * y[0] + x[1] * y[1]));
            let sx = [share(x[0], t, n, 10 + g), share(x[1], t, n, 50 + g)];
            let sy = [share(y[0], t, n, 90 + g), share(y[1], t, n, 130 + g)];
            for i in 0..n {
                a[i].push(vec![sx[0][i], sx[1][i]]);
                b[i].push(vec![sy[0][i], sy[1][i]]);
            }
        }
        let mut messages = Vec::new();
        for i in 0..n {
            let start =
                ps[i].init_linear_multiplication_prot(a[i].clone(), b[i].clone(), 2);
            assert!(start.recorded.is_none());
            let msgs = start.messages.expect("pools are large enough");
            assert_eq!(msgs.len(), n);
            assert_eq!(decode_list(&msgs[0]).unwrap().len(), groups);
            messages.push(msgs);
            assert!(ps[i].rand_sharings_state.rand_sharings_mult.is_empty());
            assert!(ps[i].rand_sharings_state.rand_2t_sharings_mult.is_empty());
            assert_eq!(ps[i].mult_state.depth_share_map[&2].padding_shares, groups * m - count);
        }
        let out = finish(&mut ps, messages, 2);
        for g in 0..count {
            let shares: Vec<LargeField> = (0..n).map(|i| out[i][g]).collect();
            // The output lies on a polynomial of degree t.
            assert_eq!(open(&shares, t), expected[g]);
            assert_eq!(open(&shares, 2 * t), expected[g]);
        }
        assert_eq!(out[0].len(), count);
    }
}

#[test]
fn layer_multiplies_every_vector_with_every_column() {
    let (n, t) = (4, 1);
    let mut ps = parties(n, t, 6, 4);
    let acts = [[1u64, 2], [3, 4]];
    let cols = [[5u64, 6], [7, 8], [9, 10]];
    let mut messages = Vec::new();
    for i in 0..n {
        let sa: Vec<Vec<LargeField>> = acts
            .iter()
            .enumerate()
            .map(|(r, v)| v.iter().map(|x| share(*x, t, n, x + 100 * r as u64)[i]).collect())
            .collect();
        let sc: Vec<Vec<LargeField>> = cols
            .iter()
            .enumerate()
            .map(|(r, v)| v.iter().map(|x| share(*x, t, n, 1000 + x + 100 * r as u64)[i]).collect())
            .collect();
        messages.push(ps[i].init_layer_multiplication(sa, sc, 1).unwrap());
    }
    let out = finish(&mut ps, messages, 1);
    let expected = [17u64, 23, 29, 39, 53, 67];
    for x in 0..6 {
        let shares: Vec<LargeField> = (0..n).map(|i| out[i][x]).collect();
        assert_eq!(open(&shares, t), fe(expected[x]));
    }
}

#[test]
fn messages_beyond_the_quorum_open_nothing() {
    let (n, t) = (4, 1);
    let mut ps = parties(n, t, 3, 2);
    let messages: Vec<Vec<Vec<u8>>> = (0..n)
        .map(|i| ps[i].run_dn_inner_products(vec![fe(1), fe(2), fe(3)], 1).unwrap())
        .collect();
    let c = &mut ps[0];
    let mut payload = None;
    for from in 0..n {
        match c.handle_l1_message(messages[from][0].clone(), 1, from) {
            L1Outcome::Reconstructed { payload: p } => {
                assert_eq!(from, 2);
                payload = Some(p);
            }
            L1Outcome::Recorded => assert_ne!(from, 2),
            L1Outcome::Malformed => panic!("readable message"),
        }
    }
    assert_eq!(c.mult_state.depth_share_map[&1].l1_shares_reconstructed.len(), 1);
    for from in 0..n {
        let opened = c.handle_l2_message(payload.clone().unwrap(), 1, from);
        assert_eq!(opened.is_some(), from == 2);
    }
    assert_eq!(c.mult_state.depth_share_map[&1].l2_shares_reconstructed.len(), 3);
}

#[test]
fn small_pools_stop_the_round() {
    let mut ps = parties(4, 1, 2, 2);
    assert!(ps[0].run_dn_inner_products(vec![fe(1)], 1).is_none());
    // Nothing was taken, but the padding is noted.
    assert_eq!(ps[0].rand_sharings_state.rand_sharings_mult.len(), 2);
    assert_eq!(ps[0].mult_state.depth_share_map[&1].padding_shares, 2);
    let mut ps = parties(4, 1, 3, 1);
    assert!(ps[0].run_dn_inner_products(vec![fe(1)], 1).is_none());
    assert_eq!(ps[0].rand_sharings_state.rand_sharings_mult.len(), 0);
    assert_eq!(ps[0].rand_sharings_state.rand_2t_sharings_mult.len(), 1);
}

#[test]
fn operands_are_recorded_for_verification() {
    let mut ps = parties(4, 1, 3, 2);
    ps[0].verification_enabled = true;
    let s = ps[0].init_linear_multiplication_prot(
        vec![vec![fe(1), fe(2)], vec![fe(3)]],
        vec![vec![fe(4), fe(5)], vec![fe(6)]],
        3,
    );
    assert_eq!(s.recorded, Some((vec![fe(1), fe(3)], vec![fe(4), fe(6)])));
    assert!(s.messages.is_some());
    let mut ps = parties(4, 1, 3, 2);
    ps[0].verification_enabled = true;
    let s = ps[0].init_linear_multiplication_prot(vec![vec![fe(1)]], vec![vec![fe(4)]], 4);
    assert!(s.recorded.is_none());
}

#[test]
fn unreadable_first_level_message_changes_nothing() {
    let mut c = context(0, 4, 1);
    assert!(matches!(c.handle_l1_message(vec![1, 2, 3], 1, 0), L1Outcome::Malformed));
    assert!(c.mult_state.depth_share_map.is_empty());
}

#[test]
fn disagreeing_hashes_block_the_depth() {
    let mut c = context(0, 4, 1);
    for from in 0..4 {
        let h = if from == 2 { [1u8; 32] } else { [0u8; 32] };
        c.handle_hash_broadcast(&h, 1, true, from);
    }
    assert_eq!(c.mult_state.depth_share_map[&1].recv_hash_set.len(), 2);
    assert_eq!(c.mult_state.depth_share_map[&1].recv_hash_msgs, vec![0, 1, 2, 3]);
    assert!(matches!(c.verify_depth_mult_termination(1), DepthOutcome::Waiting));
    assert!(matches!(c.verify_depth_mult_termination(9), DepthOutcome::Waiting));
}

#[test]
fn opened_values_without_masks_are_inconsistent() {
    let mut c = context(0, 4, 1);
    for from in 0..3 {
        c.handle_hash_broadcast(&[0u8; 32], 1, true, from);
    }
    c.mult_state.depth_share_map.get_mut(&1).unwrap().l2_shares_reconstructed = vec![fe(1)];
    assert!(matches!(c.verify_depth_mult_termination(1), DepthOutcome::Inconsistent));
}

/// A context whose depth 7 is about to end with two shares.
fn ending_depth(verification_enabled: bool) -> Context {
    let mut c = context(0, 4, 1);
    c.verification_enabled = verification_enabled;
    for from in 0..3 {
        c.handle_hash_broadcast(&[0u8; 32], 7, false, from);
    }
    let d = c.mult_state.depth_share_map.get_mut(&7).unwrap();
    assert!(!d.two_levels);
    d.l1_shares_reconstructed = vec![fe(10), fe(20), fe(30)];
    d.util_rand_sharings = vec![fe(1), fe(2), fe(3)];
    d.padding_shares = 1;
    c
}

#[test]
fn one_level_depth_subtracts_masks_from_the_first_level() {
    match ending_depth(false).verify_depth_mult_termination(7) {
        DepthOutcome::Finished { shares, network_stage, recorded } => {
            assert_eq!(shares, vec![fe(9), fe(18)]);
            assert!(!network_stage);
            assert!(recorded.is_none());
        }
        _ => panic!("depth ends"),
    }
}

#[test]
fn output_shares_are_recorded_for_verification() {
    // Depth 7 is no stage of the network; its outputs are recorded all the same.
    match ending_depth(true).verify_depth_mult_termination(7) {
        DepthOutcome::Finished { shares, network_stage, recorded } => {
            assert!(!network_stage);
            assert_eq!(shares, vec![fe(9), fe(18)]);
            assert_eq!(recorded, Some(vec![fe(9), fe(18)]));
        }
        _ => panic!("depth ends"),
    }
}

#[test]
fn protocol_switches_above_the_threshold() {
    let c = context(0, 4, 1);
    assert_eq!(c.choose_multiplication_protocol(10), MultiplicationProtocol::Quadratic);
    assert_eq!(c.choose_multiplication_protocol(11), MultiplicationProtocol::Linear);
}

#[test]
fn evaluation_points_and_values() {
    let roots = vec![fe(9), fe(8)];
    assert_eq!(Context::get_share_evaluation_point(1, false, &roots), fe(2));
    assert_eq!(Context::get_share_evaluation_point(1, true, &roots), fe(8));
    assert_eq!(
        Context::evaluate_polynomial_from_coefficients_at_position(vec![fe(1), fe(2), fe(0)], fe(5)),
        fe(11)
    );
}

#[test]
fn groups_are_interpolated_and_pools_drained_from_the_front() {
    let groups = vec![vec![fe(3), fe(5)], vec![fe(1), fe(1)]];
    assert_eq!(interpolate_groups(&vec![fe(1), fe(2)], &groups), vec![
        vec![fe(1), fe(2)],
        vec![fe(1), fe(0)],
    ]);
    let mut pool = vec![fe(1), fe(2), fe(3)];
    assert_eq!(drain_front(&mut pool, 2), vec![fe(1), fe(2)]);
    assert_eq!(pool, vec![fe(3)]);
}
