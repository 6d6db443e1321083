use std::collections::HashMap;
use velox_mpc::acss::dealer::generate_evaluation_points;
use velox_mpc::field::{LargeField, MODULUS};
use velox_mpc::mpc::context::{Context, RandSharingsState};
use velox_mpc::mpc::mix_circuit_state::MixCircuitState;
use velox_mpc::mpc::mult_state::MultState;
use velox_mpc::mpc::nn_state::NnState;
use velox_mpc::mpc::rand_bit::RandBitOutcome;
use velox_mpc::poly::{inverse_vandermonde, matrix_vector_multiply, vandermonde_matrix};
use velox_mpc::types::{gen_roots_of_unity, serialize_elements};
use velox_mpc::wire::{decode_ints, decode_list};

fn fe(x: u64) -> LargeField {
    LargeField::from_u64(x)
}

fn mix(mut x: u64) -> u64 {
    x = (x ^ (x >> 30)).wrapping_mul(0xbf58476d1ce4e5b9);
    x = (x ^ (x >> 27)).wrapping_mul(0x94d049bb133111eb);
    x ^ (x >> 31)
}

fn context(myid: usize, n: usize, t: usize) -> Context {
    Context {
        myid,
        num_nodes: n,
        num_faults: t,
        use_fft: false,
        roots_of_unity: gen_roots_of_unity(n),
        max_depth: 3,
        multiplication_switch_threshold: 10,
        verification_enabled: false,
        tot_batches: 2,
        total_sharings: 3,
        total_sharings_for_coins: 4,
        output_mask_size: 2,
        nn_layers: vec![2, 2],
        nn_batch: 1,
        weight_chunk_size: 4,
        avss_shares: HashMap::new(),
        rand_sharings_state: RandSharingsState::new(),
        mult_state: MultState::new(),
        mix_circuit_state: MixCircuitState::new(),
        nn_state: NnState::new(),
    }
}

fn share(secret: LargeField, degree: usize, n: usize, seed: u64) -> Vec<LargeField> {
    let mut row = vec![secret];
    for k in 0..degree {
        row.push(fe(mix(seed * 1000 + k as u64)));
    }
    generate_evaluation_points(vec![row], degree, n).0.remove(0)
}

fn open(shares: &[LargeField], degree: usize) -> LargeField {
    let xs: Vec<LargeField> = (1..=degree as u64 + 1).map(fe).collect();
    let inv = inverse_vandermonde(vandermonde_matrix(xs));
    matrix_vector_multiply(&inv, &shares[..degree + 1])[0]
}

fn secret(dealer: usize, batch: usize, k: usize) -> LargeField {
    fe(1 + dealer as u64 * 10_000 + batch as u64 * 100 + k as u64)
}

#[test]
fn pools_are_extracted_from_the_core_set() {
    let (n, t) = (4, 1);
    let mut ps: Vec<Context> = (0..n).map(|i| context(i, n, t)).collect();
    for p in 0..n {
        assert_eq!(ps[p].num_rand_batches(), 6);
        assert!(!ps[p].verify_termination());
    }
    let core = [0usize, 2, 3];
    for p in 0..n {
        for (at, dealer) in core.iter().enumerate() {
            for batch in 0..6 {
                let mut shares = Vec::new();
                let mut zeros = Vec::new();
                for k in 0..3 {
                    let seed = (dealer * 100 + batch * 10 + k) as u64;
                    shares.push(share(secret(*dealer, batch, k), t, n, seed)[p]);
                    zeros.push(share(fe(0), 2 * t, n, 7777 + seed)[p]);
                }
                let c = &mut ps[p];
                assert!(c.handle_acss_term_msg(batch, *dealer, Some(serialize_elements(&shares))));
                assert!(c.handle_sh2t_term_msg(batch, *dealer, Some(serialize_elements(&zeros))));
            }
            let c = &mut ps[p];
            // The output masks are missing.
            assert!(!c.verify_sender_termination(*dealer).completed);
            c.avss_shares.insert(*dealer, (vec![], vec![], vec![]));
            let r = c.verify_sender_termination(*dealer);
            assert!(r.completed);
            assert_eq!(r.proposal.is_some(), at == 2);
            if let Some(bytes) = r.proposal {
                // The set is walked in whatever order.
                let mut proposed = decode_ints(&bytes).unwrap();
                proposed.sort();
                assert_eq!(proposed, vec![0, 2, 3]);
                c.handle_acs_output(bytes);
            }
            assert!(!c.verify_sender_termination(*dealer).completed);
        }
        let c = &mut ps[p];
        let mut core = c.rand_sharings_state.acs_output.clone();
        core.sort();
        assert_eq!(core, vec![0, 2, 3]);
        assert!(c.verify_termination());
        assert!(!c.verify_termination());
        let s = &c.rand_sharings_state;
        // Three times 2 * 3 positions, t + 1 combinations each, four for coins.
        assert_eq!(s.rand_sharings_mult.len(), 32);
        assert_eq!(s.rand_sharings_coin.len(), 4);
        assert_eq!(s.rand_2t_sharings_mult.len(), 36);
        assert!(s.shares.is_empty() && s.sh2t_shares.is_empty());
        // Late batches are ignored.
        assert!(!c.handle_acss_term_msg(0, 1, Some(serialize_elements(&vec![fe(1)]))));
        assert!(!c.handle_sh2t_term_msg(0, 1, None));
    }
    // The first extracted secrets: powers of 2 and of 3 over the dealers.
    for (x, base) in [(0usize, 2u64), (1, 3)] {
        let shares: Vec<LargeField> =
            (0..n).map(|p| ps[p].rand_sharings_state.rand_sharings_mult[x]).collect();
        let want = secret(0, 0, 0)
            .add(secret(2, 0, 0).mul(fe(base)))
            .add(secret(3, 0, 0).mul(fe(base * base)));
        assert_eq!(open(&shares, t), want);
        assert_eq!(open(&shares, 2 * t), want);
    }
    for x in 0..36 {
        let shares: Vec<LargeField> =
            (0..n).map(|p| ps[p].rand_sharings_state.rand_2t_sharings_mult[x]).collect();
        assert_eq!(open(&shares, 2 * t), fe(0));
    }
}

#[test]
fn dealt_batches_are_serialized() {
    let c = context(0, 4, 1);
    let batches: Vec<Vec<LargeField>> =
        (0..6u64).map(|b| (0..3u64).map(|k| fe(10 * b + k)).collect()).collect();
    let masks = vec![fe(8), fe(9)];
    let r = c.init_rand_sh(&batches, &masks);
    assert_eq!(r.acss.len(), 6);
    assert_eq!(r.sh2t.len(), 6);
    for b in 0..6 {
        assert_eq!(r.acss[b], (b, serialize_elements(&batches[b])));
        assert_eq!(r.sh2t[b], (b, vec![vec![0u8; 8]; 3]));
    }
    assert_eq!(r.masks, serialize_elements(&masks));
}

#[test]
fn failed_sharings_are_ignored() {
    let mut c = context(0, 4, 1);
    assert!(!c.handle_acss_term_msg(0, 1, None));
    assert!(!c.handle_sh2t_term_msg(0, 1, None));
    assert!(c.rand_sharings_state.shares.is_empty());
    assert!(!c.verify_sender_termination(1).completed);
}

#[test]
fn sharings_are_grouped_by_position() {
    let mut c = context(0, 4, 1);
    c.tot_batches = 1;
    c.total_sharings = 2;
    for (dealer, base) in [(1usize, 10u64), (3, 30)] {
        for batch in 0..3 {
            let v = vec![fe(base + batch as u64), fe(base + 5 + batch as u64)];
            assert!(c.handle_acss_term_msg(batch, dealer, Some(serialize_elements(&v))));
            assert!(c.handle_sh2t_term_msg(batch, dealer, Some(serialize_elements(&v))));
        }
    }
    c.rand_sharings_state.acs_output = vec![3, 1];
    assert_eq!(c.gen_random_sharings(1), vec![vec![fe(11), fe(31)], vec![fe(16), fe(36)]]);
    assert_eq!(c.gen_2t_sharings().len(), 6);
    assert_eq!(c.gen_2t_sharings()[5], vec![fe(17), fe(37)]);
}

#[test]
fn combination_matrix_holds_powers() {
    assert_eq!(Context::vandermonde_matrix(vec![fe(2), fe(3)], 3), vec![
        vec![fe(1), fe(2), fe(4)],
        vec![fe(1), fe(3), fe(9)],
    ]);
    let m = vec![vec![fe(1), fe(2)], vec![fe(3), fe(4)]];
    assert_eq!(Context::matrix_vector_multiply(&m, &[fe(5), fe(6)]), vec![fe(17), fe(39)]);
}

#[test]
fn malformed_wire_lists_are_rejected() {
    assert_eq!(decode_list(&vec![1, 0, 0]), None);
    assert_eq!(decode_ints(&vec![]), None);
    let int = |x: u64| x.to_le_bytes().to_vec();
    let list = [int(2), int(1), vec![9], int(0)].concat();
    assert_eq!(decode_list(&list), Some(vec![vec![9], vec![]]));
    assert_eq!(decode_list(&list[..list.len() - 1].to_vec()), None);
    assert_eq!(decode_ints(&[int(2), int(7), int(8)].concat()), Some(vec![7, 8]));
    // Bytes behind the list do not matter.
    assert_eq!(decode_ints(&[int(1), int(7), vec![0xff]].concat()), Some(vec![7]));
    assert_eq!(decode_ints(&int(3)), None);
}

fn start_bits(n: usize, t: usize, values: &[u64]) -> Vec<Context> {
    let mut ps: Vec<Context> = (0..n).map(|i| context(i, n, t)).collect();
    for (k, v) in values.iter().enumerate() {
        // The input shares hold v, the reconstruction opens its square.
        let a = share(fe(*v), t, n, 10 + k as u64);
        let sq = share(fe(*v).mul(fe(*v)), t, n, 500 + k as u64);
        for p in 0..n {
            ps[p].mix_circuit_state.rand_bit_inp_shares.push(a[p]);
            ps[p]
                .mix_circuit_state
                .rand_bit_recon_shares
                .entry(p)
                .or_insert_with(Vec::new)
                .push(sq[p]);
        }
    }
    ps
}

#[test]
fn random_bits_are_signs() {
    let (n, t) = (4, 1);
    let values = [5u64, MODULUS - 9, 123_456_789, 3, 77];
    let mut ps = start_bits(n, t, &values);
    // Two batches of three and two.
    let mut pending: Vec<_> =
        (0..n).map(|p| ps[p].init_rand_bit_reconstruction().expect("first batch")).collect();
    for batch in 0..2 {
        let mut next = Vec::new();
        for p in 0..n {
            assert_eq!(pending[p].batch, batch);
            assert_eq!(pending[p].shares.len(), 3 - batch);
            for from in 0..n {
                let shares = pending[from].shares.clone();
                let r = ps[p].handle_reconstruct_rand_bits(batch, shares, from);
                if from < t {
                    assert_eq!(r, RandBitOutcome::Buffered);
                } else if from == t {
                    assert_eq!(r, RandBitOutcome::Ready);
                    assert!(ps[p].rand_bit_batch_readable(batch));
                    let progress = ps[p].reconstruct_rand_bit_batch(batch);
                    assert_eq!(progress.all_done, batch == 1);
                    assert_eq!(progress.message.is_some(), batch == 0);
                    if let Some(m) = progress.message {
                        next.push(m);
                    }
                } else {
                    assert_eq!(r, RandBitOutcome::Ignored);
                }
            }
        }
        pending = next;
    }
    for p in 0..n {
        assert!(ps[p].verify_rand_bit_reconstruction());
        assert!(!ps[p].verify_rand_bit_reconstruction());
        assert_eq!(ps[p].mix_circuit_state.rand_bit_sharings.len(), values.len());
        assert!(ps[p].mix_circuit_state.rand_bit_recon_pending.is_empty());
    }
    let mut opened = None;
    for from in 0..=t {
        let bits: Vec<LargeField> =
            ps[from].mix_circuit_state.rand_bit_sharings.iter().copied().collect();
        let shares = serialize_elements(&bits);
        opened = ps[3].handle_reconstruct_rand_bits_verify(shares, from);
        assert_eq!(opened.is_some(), from == t);
    }
    for (v, x) in values.iter().zip(opened.unwrap()) {
        let plus = x == fe(1);
        let minus = x == fe(MODULUS - 1);
        assert!(plus || minus);
        // v times the inverse of the root of its square.
        assert_eq!(x.mul(fe(*v).mul(fe(*v)).sqrt().unwrap()), fe(*v));
    }
}

#[test]
fn batch_with_a_non_square_cannot_be_read() {
    let (n, t) = (4, 1);
    let mut c = context(0, n, t);
    let s = share(fe(MODULUS - 1), t, n, 3);
    for from in 0..2 {
        c.handle_reconstruct_rand_bits(0, serialize_elements(&vec![s[from]]), from);
    }
    assert!(!c.rand_bit_batch_readable(0));
    assert!(!c.rand_bit_batch_readable(1));
    // Nor can one with a differing number of shares.
    let mut c = context(0, n, t);
    c.handle_reconstruct_rand_bits(0, serialize_elements(&vec![fe(1)]), 0);
    c.handle_reconstruct_rand_bits(0, serialize_elements(&vec![fe(1), fe(1)]), 1);
    assert!(!c.rand_bit_batch_readable(0));
}

#[test]
fn completed_batches_are_skipped_when_broadcasting() {
    let (n, t) = (4, 1);
    let mut ps = start_bits(n, t, &[2, 3, 4]);
    for p in 0..n {
        ps[p].tot_batches = 3;
    }
    let first: Vec<_> = (0..n).map(|p| ps[p].init_rand_bit_reconstruction().unwrap()).collect();
    assert_eq!(first[0].shares.len(), 1);
    // Batch one is finished by the others before this party broadcasts it.
    for from in 1..3 {
        let m = ps[from].dispatch_next_rand_bit_batch().unwrap();
        assert_eq!(m.batch, 1);
        ps[0].handle_reconstruct_rand_bits(1, m.shares, from);
    }
    let progress = ps[0].reconstruct_rand_bit_batch(1);
    assert!(!progress.all_done);
    assert_eq!(progress.message.unwrap().batch, 2);
    assert!(ps[0].dispatch_next_rand_bit_batch().is_none());
    assert!(!ps[0].verify_rand_bit_reconstruction());
}

#[test]
fn nothing_to_reconstruct_without_shares() {
    let mut c = context(0, 4, 1);
    assert!(c.init_rand_bit_reconstruction().is_none());
    assert!(c.dispatch_next_rand_bit_batch().is_none());
    assert_eq!(c.mix_circuit_state.two_inverse.mul(fe(2)), fe(1));
}

#[test]
fn groups_list_the_core_set_in_ascending_order() {
    let mut c = context(0, 4, 1);
    let value = |dealer: usize, batch: usize, k: usize| secret(dealer, batch, k);
    for dealer in [3usize, 1, 0] {
        for batch in 0..6 {
            let shares: Vec<LargeField> = (0..3).map(|k| value(dealer, batch, k)).collect();
            let ser = serialize_elements(&shares);
            assert!(c.handle_acss_term_msg(batch, dealer, Some(ser.clone())));
            assert!(c.handle_sh2t_term_msg(batch, dealer, Some(ser)));
        }
    }
    // Dealer 1 is not in the core set.
    c.rand_sharings_state.acs_output = vec![3, 0];
    let groups = c.gen_2t_sharings();
    assert_eq!(groups.len(), 18);
    for batch in 0..6 {
        for k in 0..3 {
            assert_eq!(groups[batch * 3 + k], vec![value(0, batch, k), value(3, batch, k)]);
        }
    }
    let later = c.gen_random_sharings(2);
    assert_eq!(later.len(), 6);
    for batch in 2..4 {
        for k in 0..3 {
            assert_eq!(later[(batch - 2) * 3 + k], vec![value(0, batch, k), value(3, batch, k)]);
        }
    }
}
