use std::collections::HashMap;
use velox_mpc::acss::context::{ACSSABState, Context, TerminationAction};
use velox_mpc::acss::dealer::{
    blinding_commitment_inputs, combine_proof, commitment_inputs, commitments_and_dzk,
    dealer_core_cpu, generate_evaluation_points, DealerArtifacts, DealerPolynomials,
};
use velox_mpc::field::{LargeField, MODULUS};
use velox_mpc::poly::{
    inverse_vandermonde, matrix_vector_multiply, vandermonde_matrix, Polynomial,
};
use velox_mpc::types::{gen_roots_of_unity, Digest};

fn fe(x: u64) -> LargeField {
    LargeField::from_u64(x)
}

fn hash(bytes: &[u8]) -> Digest {
    let mut out = [0u8; 32];
    for lane in 0..4u64 {
        let mut h: u64 = 0xcbf29ce484222325 ^ lane.wrapping_mul(0x9e3779b97f4a7c15);
        for b in bytes {
            h = (h ^ *b as u64).wrapping_mul(0x100000001b3);
            h ^= h >> 29;
        }
        out[8 * lane as usize..8 * lane as usize + 8].copy_from_slice(&h.to_be_bytes());
    }
    out
}

fn hash_two(a: &Digest, b: &Digest) -> Digest {
    let mut bytes = a.to_vec();
    bytes.extend_from_slice(b);
    hash(&bytes)
}

fn root(leaves: &[Digest]) -> Digest {
    let bytes: Vec<u8> = leaves.iter().flat_map(|d| d.to_vec()).collect();
    hash(&bytes)
}

fn prf_row(secret: u64, tag: u64, t: usize) -> Vec<LargeField> {
    let mut row = vec![fe(secret)];
    for k in 0..t as u64 {
        row.push(fe(tag.wrapping_mul(0x2545f4914f6cdd1d) ^ (k + 1).wrapping_mul(0x9e3779b97f4a7c15)));
    }
    row
}

fn deal(n: usize, t: usize, secrets: &[u64]) -> (DealerPolynomials, Vec<Vec<u8>>, Vec<(Digest, Digest)>) {
    let rows: Vec<Vec<LargeField>> = secrets
        .iter()
        .enumerate()
        .map(|(i, s)| prf_row(*s, 100 + i as u64, t))
        .collect();
    let p = dealer_core_cpu(rows, prf_row(11, 1, t), prf_row(22, 2, t), prf_row(33, 3, t), t, n);
    let (_, inputs) = commitment_inputs(&p.evaluations, &p.nonce_evaluations, n);
    let blinding = blinding_commitment_inputs(
        &p.blinding_poly_evaluations,
        &p.nonce_blinding_poly_evaluations,
        n,
    );
    (p, inputs, blinding)
}

fn artifacts(n: usize, t: usize, secrets: &[u64]) -> (DealerArtifacts, Digest) {
    let (p, inputs, blinding) = deal(n, t, secrets);
    let commitments: Vec<Digest> = inputs.iter().map(|b| hash(b)).collect();
    let blinding_commitments: Vec<Digest> =
        blinding.iter().map(|pair| hash_two(&pair.0, &pair.1)).collect();
    let root_comm = hash_two(&root(&commitments), &root(&blinding_commitments));
    (commitments_and_dzk(p, n, commitments, blinding_commitments, &root_comm), root_comm)
}

fn context(myid: usize, n: usize, t: usize) -> Context {
    Context {
        myid,
        num_nodes: n,
        num_faults: t,
        use_fft: false,
        roots_of_unity: gen_roots_of_unity(n),
        avss_inst_id: 50,
        acss_ab_state: HashMap::new(),
    }
}

fn receive(c: &mut Context, dealer: usize, instance: usize, a: &DealerArtifacts) {
    let id = c.myid;
    let state = c.acss_ab_state.entry(instance).or_insert_with(ACSSABState::new);
    state.shares.insert(
        dealer,
        (
            a.party_wise_shares[id].clone(),
            a.nonce_evals_ser[id].clone(),
            a.blinding_nonce_evals_ser[id].clone(),
        ),
    );
    state.commitments.insert(
        dealer,
        (a.commitments.clone(), a.blinding_commitments.clone(), a.ser_dzk_coeffs.clone()),
    );
}

/// Runs a receiving party's checks.
fn verify(c: &mut Context, dealer: usize, instance: usize) -> bool {
    let request = c.verify_shares(dealer, instance).expect("everything has arrived");
    let root_comm = hash_two(&root(&request.share_commitments), &root(&request.blinding_commitments));
    let comm_hash = hash(&request.appended_share);
    match c.check_share_commitment(dealer, instance, &comm_hash, &root_comm) {
        None => false,
        Some(b) => {
            c.finish_verification(dealer, instance, &hash_two(&b.blinding_share, &b.blinding_nonce))
        }
    }
}

#[test]
fn sharing_polynomials_pass_through_secret_and_randomness() {
    let (n, t) = (7, 2);
    let rows = vec![prf_row(42, 9, t), prf_row(MODULUS - 1, 10, t)];
    let (evals, polys) = generate_evaluation_points(rows.clone(), t, n);
    for j in 0..2 {
        assert_eq!(polys[j].evaluate(&fe(0)), rows[j][0]);
        assert!(polys[j].coefficients.len() <= t + 1);
        // The first parties hold the random values themselves.
        assert_eq!(evals[j][0], rows[j][1]);
        assert_eq!(evals[j][1], rows[j][2]);
        for i in 0..n {
            assert_eq!(evals[j][i], polys[j].evaluate(&fe(i as u64 + 1)));
        }
    }
}

#[test]
fn any_quorum_reconstructs_the_secret() {
    let (n, t) = (10, 3);
    let (evals, _) = generate_evaluation_points(vec![prf_row(123_456_789, 5, t)], t, n);
    for picks in [[1usize, 2, 3, 4], [7, 8, 9, 10], [2, 5, 7, 10]] {
        let xs: Vec<LargeField> = picks.iter().map(|x| fe(*x as u64)).collect();
        let ys: Vec<LargeField> = picks.iter().map(|x| evals[0][x - 1]).collect();
        let c = matrix_vector_multiply(&inverse_vandermonde(vandermonde_matrix(xs)), &ys);
        assert_eq!(c[0], fe(123_456_789));
    }
}

#[test]
fn proof_weights_are_powers_of_the_challenge() {
    let blind = Polynomial::new(&[fe(1), fe(2)]);
    let polys = vec![Polynomial::new(&[fe(10)]), Polynomial::new(&[fe(0), fe(0), fe(1)])];
    // 1 + 2x + 3 * 10 + 9 * x^2
    assert_eq!(combine_proof(blind, &polys, fe(3)).coefficients, vec![fe(31), fe(2), fe(9)]);
    let alone = combine_proof(Polynomial::new(&[fe(4)]), &vec![], fe(3));
    assert_eq!(alone.coefficients, vec![fe(4)]);
}

#[test]
fn commitment_inputs_hold_shares_then_nonce() {
    let (p, inputs, blinding) = deal(4, 1, &[5, 6]);
    for i in 0..4 {
        let mut want = p.evaluations[0][i].to_bytes_be();
        want.extend(p.evaluations[1][i].to_bytes_be());
        want.extend(p.nonce_evaluations[i].to_bytes_be());
        assert_eq!(inputs[i], want);
        assert_eq!(blinding[i].0[24..].to_vec(), p.blinding_poly_evaluations[i].to_bytes_be());
        assert_eq!(blinding[i].0[..24].to_vec(), vec![0u8; 24]);
        assert_eq!(
            blinding[i].1[24..].to_vec(),
            p.nonce_blinding_poly_evaluations[i].to_bytes_be()
        );
    }
}

#[test]
fn honest_dealer_is_accepted_by_everyone() {
    let (n, t) = (7, 2);
    let (a, _) = artifacts(n, t, &[1, 2, 3, MODULUS - 5]);
    for i in 0..n {
        let mut c = context(i, n, t);
        receive(&mut c, 3, 8, &a);
        assert!(verify(&mut c, 3, 8));
        assert_eq!(c.acss_ab_state[&8].verification_status[&3], true);
        // Verified once only.
        assert!(c.verify_shares(3, 8).is_none());
    }
}

#[test]
fn altered_shares_are_rejected() {
    let (n, t) = (4, 1);
    let (mut a, _) = artifacts(n, t, &[1, 2]);
    a.party_wise_shares[2][1] = fe(77).to_bytes_be();
    let mut c = context(2, n, t);
    receive(&mut c, 0, 1, &a);
    assert!(!verify(&mut c, 0, 1));
    assert_eq!(c.acss_ab_state[&1].verification_status[&0], false);
}

#[test]
fn inconsistent_proof_is_rejected() {
    let (n, t) = (4, 1);
    let (mut a, _) = artifacts(n, t, &[1, 2]);
    a.ser_dzk_coeffs[0] = fe(123).to_bytes_be();
    let mut c = context(1, n, t);
    receive(&mut c, 0, 1, &a);
    assert!(!verify(&mut c, 0, 1));
    assert_eq!(c.acss_ab_state[&1].verification_status[&0], false);
}

#[test]
fn verification_waits_for_shares_and_commitments() {
    let (a, _) = artifacts(4, 1, &[9]);
    let mut c = context(0, 4, 1);
    assert!(c.verify_shares(1, 1).is_none());
    receive(&mut c, 1, 1, &a);
    c.acss_ab_state.get_mut(&1).unwrap().shares.remove(&1);
    assert!(c.verify_shares(1, 1).is_none());
}

#[test]
fn accepted_dealer_is_delivered_once() {
    let (n, t) = (4, 1);
    let (a, _) = artifacts(n, t, &[9, 10]);
    let mut c = context(2, n, t);
    receive(&mut c, 2, 1, &a);
    assert!(matches!(c.handle_ra_termination(1, 2, 1), TerminationAction::Wait));
    assert!(verify(&mut c, 2, 1));
    assert!(!c.own_dealer_done(2, 1));
    match c.check_termination(2, 1) {
        TerminationAction::Deliver { shares } => assert_eq!(shares, a.party_wise_shares[2]),
        _ => panic!("shares expected"),
    }
    assert!(c.own_dealer_done(2, 1));
    assert!(!c.own_dealer_done(3, 1));
    // The buffers are gone and nothing is delivered again.
    let state = &c.acss_ab_state[&1];
    assert!(state.shares.is_empty() && state.commitments.is_empty());
    assert!(matches!(c.handle_ra_termination(1, 2, 1), TerminationAction::Wait));
    assert!(matches!(c.check_termination(2, 1), TerminationAction::Wait));
}

#[test]
fn failed_dealer_is_rejected_after_agreement() {
    let (n, t) = (4, 1);
    let (mut a, _) = artifacts(n, t, &[9]);
    a.nonce_evals_ser[1] = fe(1).to_bytes_be();
    let mut c = context(1, n, t);
    receive(&mut c, 0, 1, &a);
    assert!(!verify(&mut c, 0, 1));
    assert!(matches!(c.handle_ra_termination(1, 0, 0), TerminationAction::Wait));
    assert!(matches!(c.handle_ra_termination(1, 0, 1), TerminationAction::Reject));
    assert!(matches!(c.handle_ra_termination(1, 0, 1), TerminationAction::Wait));
}

#[test]
fn verifiable_instance_keeps_the_proof() {
    let (n, t) = (4, 1);
    let (a, root_comm) = artifacts(n, t, &[9]);
    let mut c = context(1, n, t);
    receive(&mut c, 0, 50, &a);
    assert!(verify(&mut c, 0, 50));
    match c.handle_ra_termination(50, 0, 1) {
        TerminationAction::AvssReady { share_commitments, blinding_commitments } => {
            assert_eq!(share_commitments, a.commitments);
            assert_eq!(blinding_commitments, a.blinding_commitments);
        }
        _ => panic!("commitments expected"),
    }
    let share = c.complete_avss(0, 50, &root_comm);
    assert_eq!(share.0, a.party_wise_shares[1]);
    assert_eq!(share.1, a.nonce_evals_ser[1]);
    assert_eq!(share.2, a.blinding_nonce_evals_ser[1]);
    let state = &c.acss_ab_state[&50];
    assert!(state.commitment_root_fe.contains_key(&0));
    let coeffs: Vec<Vec<u8>> =
        state.dzk_poly[&0].coefficients.iter().map(|x| x.to_bytes_be()).collect();
    assert_eq!(coeffs, a.ser_dzk_coeffs);
}

#[test]
fn dealer_messages_have_the_wire_layout() {
    let c = context(0, 3, 1);
    let a = DealerArtifacts {
        party_wise_shares: vec![
            vec![vec![1; 8]],
            vec![vec![2; 8], vec![3; 8]],
            vec![],
        ],
        nonce_evals_ser: vec![vec![4; 8], vec![5; 8], vec![6; 8]],
        blinding_nonce_evals_ser: vec![vec![7; 8], vec![8; 8], vec![9; 8]],
        commitments: vec![[10; 32], [11; 32]],
        blinding_commitments: vec![[12; 32]],
        ser_dzk_coeffs: vec![vec![13; 8]],
    };
    let m = c.broadcast_dealer_artifacts(258, 2, a);
    let int = |x: u64| x.to_le_bytes().to_vec();
    let bytes = |b: u8| [int(8), vec![b; 8]].concat();
    let want = [
        int(258),
        int(2),
        vec![10; 32],
        vec![11; 32],
        int(1),
        vec![12; 32],
        int(1),
        bytes(13),
        int(2),
    ]
    .concat();
    assert_eq!(m.broadcast, want);
    // The first `t` parties derive their shares themselves.
    assert_eq!(m.shares.len(), 2);
    assert_eq!(m.shares[0].0, 1);
    let want = [int(258), int(2), bytes(2), bytes(3), bytes(5), bytes(8)].concat();
    assert_eq!(m.shares[0].1, Some(want));
    assert_eq!(m.shares[1].0, 2);
    let want = [int(258), int(0), bytes(6), bytes(9)].concat();
    assert_eq!(m.shares[1].1, Some(want));
}

#[test]
fn starting_to_deal_opens_the_instance() {
    let mut c = context(0, 4, 1);
    let p = c.init_acss_ab(
        6,
        vec![prf_row(5, 1, 1)],
        prf_row(11, 2, 1),
        prf_row(22, 3, 1),
        prf_row(33, 4, 1),
    );
    assert!(c.acss_ab_state.contains_key(&6));
    assert_eq!(p.evaluations.len(), 1);
    assert_eq!(p.evaluations[0].len(), 4);
    assert_eq!(p.coefficients[0].evaluate(&fe(0)), fe(5));
    assert_eq!(p.blinding_poly_coefficients.evaluate(&fe(0)), fe(22));
}

#[test]
fn own_point_is_used_in_the_proof_check() {
    let c = context(2, 4, 1);
    // 10 + x at point 3, minus 2 * 4 + 4 * 5.
    let p = Polynomial::new(&[fe(10), fe(1)]);
    let got = c.evaluate_dzk_poly(fe(2), 2, &p, &vec![fe(4), fe(5)]);
    assert_eq!(got, fe(13).sub(fe(28)));
}
