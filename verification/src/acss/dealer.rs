//! The dealer: sharing polynomials, commitment inputs, the zero-knowledge
//! proof polynomial and the messages that are dispersed.
use crate::field;
use crate::field::LargeField;
use crate::poly;
use crate::poly::Polynomial;
use crate::polynomial;
use crate::types;
use crate::types::{Digest, LargeFieldSer};
use crate::wire;
use vstd::arithmetic::div_mod::*;
use vstd::arithmetic::mul::*;
use vstd::prelude::*;

verus! {

/// The points through which a sharing polynomial is laid: the secret at zero,
/// one random value at each of `1..t`.
pub open spec fn sharing_points(t: nat) -> Seq<int> {
    Seq::new(t + 1, |k: int| k)
}

/// The point of party `i`.
pub open spec fn party_point(i: int) -> int {
    (i + 1) % field::p()
}

/// The polynomial through the values `row` at the sharing points.
pub open spec fn sharing_polynomial(row: Seq<int>, t: nat) -> Seq<int> {
    polynomial::trimmed(polynomial::interpolant(sharing_points(t), row))
}

pub proof fn lemma_sharing_points(t: nat)
    requires
        t < field::p(),
    ensures
        polynomial::distinct_points(sharing_points(t)),
        polynomial::all_reduced(sharing_points(t)),
{
    let xs = sharing_points(t);
    assert forall|i: int, j: int|
        0 <= i < xs.len() && 0 <= j < xs.len() && i != j implies !polynomial::cong(
        #[trigger] xs[i],
        #[trigger] xs[j],
    ) by {
        lemma_small_mod(xs[i] as nat, field::p() as nat);
        lemma_small_mod(xs[j] as nat, field::p() as nat);
    }
}

/// The matrix that turns the values at the sharing points into coefficients.
pub fn interpolation_for(num_faults: usize) -> (r: Vec<Vec<LargeField>>)
    requires
        num_faults < field::MODULUS - 1,
        num_faults < usize::MAX - 1,
    ensures
        polynomial::interpolation_matrix(poly::mat(r@), sharing_points(num_faults as nat)),
{
    let mut points: Vec<LargeField> = Vec::new();
    let mut x: u64 = 0;
    for k in 0..num_faults + 1
        invariant
            num_faults < field::MODULUS - 1,
            x == k,
            points@.len() == k,
            forall|i: int| 0 <= i < k ==> (#[trigger] points@[i])@ == i,
    {
        proof {
            lemma_small_mod(x as nat, field::p() as nat);
        }
        points.push(LargeField::from_u64(x));
        x = x + 1;
    }
    let ghost xs = field::vals(points@);
    proof {
        assert(xs =~= sharing_points(num_faults as nat));
        lemma_sharing_points(num_faults as nat);
        poly::lemma_points_of(xs);
    }
    poly::inverse_vandermonde(poly::vandermonde_matrix(points))
}

/// The sharing polynomials of the rows and their values at the points of all
/// parties. A row is a secret followed by the random values.
pub fn generate_evaluation_points(
    rows: Vec<Vec<LargeField>>,
    num_faults: usize,
    num_nodes: usize,
) -> (r: (Vec<Vec<LargeField>>, Vec<Polynomial>))
    requires
        num_faults < field::MODULUS - 1,
        num_faults < usize::MAX - 1,
        forall|j: int| 0 <= j < rows@.len() ==> (#[trigger] rows@[j])@.len() == num_faults + 1,
    ensures
        r.0@.len() == rows@.len(),
        r.1@.len() == rows@.len(),
        forall|j: int|
            0 <= j < rows@.len() ==> (#[trigger] r.1@[j])@ == sharing_polynomial(
                field::vals(rows@[j]@),
                num_faults as nat,
            ),
        forall|j: int| 0 <= j < rows@.len() ==> (#[trigger] r.0@[j])@.len() == num_nodes,
        forall|j: int, i: int|
            0 <= j < rows@.len() && 0 <= i < num_nodes ==> (#[trigger] r.0@[j]@[i])@
                == polynomial::feval(r.1@[j]@, party_point(i)),
{
    let inv = interpolation_for(num_faults);
    let ghost xs = sharing_points(num_faults as nat);
    let points = types::gen_roots_of_unity(num_nodes);
    let mut evaluations: Vec<Vec<LargeField>> = Vec::new();
    let mut coefficients: Vec<Polynomial> = Vec::new();
    for j in 0..rows.len()
        invariant
            num_faults < field::MODULUS - 1,
            xs == sharing_points(num_faults as nat),
            polynomial::interpolation_matrix(poly::mat(inv@), xs),
            points@.len() == num_nodes,
            forall|i: int| 0 <= i < num_nodes ==> (#[trigger] points@[i])@ == party_point(i),
            forall|k: int|
                0 <= k < rows@.len() ==> (#[trigger] rows@[k])@.len() == num_faults + 1,
            evaluations@.len() == j,
            coefficients@.len() == j,
            forall|k: int|
                0 <= k < j ==> (#[trigger] coefficients@[k])@ == sharing_polynomial(
                    field::vals(rows@[k]@),
                    num_faults as nat,
                ),
            forall|k: int| 0 <= k < j ==> (#[trigger] evaluations@[k])@.len() == num_nodes,
            forall|k: int, i: int|
                0 <= k < j && 0 <= i < num_nodes ==> (#[trigger] evaluations@[k]@[i])@
                    == polynomial::feval(coefficients@[k]@, party_point(i)),
    {
        let c = poly::matrix_vector_multiply(inv.as_slice(), rows[j].as_slice());
        proof {
            let ys = field::vals(rows@[j as int]@);
            let cs = field::vals(c@);
            poly::lemma_vals_reduced(rows@[j as int]@);
            assert forall|i: int| 0 <= i < cs.len() implies #[trigger] cs[i] == polynomial::dot(
                poly::mat(inv@)[i],
                ys,
            ) % field::p() by {
                assert(c@[i]@ == cs[i]);
            }
            polynomial::lemma_interpolation_matrix(poly::mat(inv@), xs, ys, cs);
            lemma_sharing_points(num_faults as nat);
            polynomial::lemma_interpolant(cs, xs, ys);
        }
        let polynomial = Polynomial::new(c.as_slice());
        let mut evals: Vec<LargeField> = Vec::new();
        for i in 0..num_nodes
            invariant
                points@.len() == num_nodes,
                forall|k: int| 0 <= k < num_nodes ==> (#[trigger] points@[k])@ == party_point(k),
                evals@.len() == i,
                forall|k: int|
                    0 <= k < i ==> (#[trigger] evals@[k])@ == polynomial::feval(
                        polynomial@,
                        party_point(k),
                    ),
        {
            evals.push(polynomial.evaluate(&points[i]));
        }
        evaluations.push(evals);
        coefficients.push(polynomial);
    }
    (evaluations, coefficients)
}

/// Everything the dealer knows before the commitments are hashed.
pub struct DealerPolynomials {
    /// `evaluations[j][i]` is party `i`'s share of secret `j`.
    pub evaluations: Vec<Vec<LargeField>>,
    pub coefficients: Vec<Polynomial>,
    pub nonce_evaluations: Vec<LargeField>,
    pub blinding_poly_evaluations: Vec<LargeField>,
    pub blinding_poly_coefficients: Polynomial,
    pub nonce_blinding_poly_evaluations: Vec<LargeField>,
}

impl DealerPolynomials {
    /// Whether there is a value for each of the `n` parties everywhere.
    pub open spec fn covers(&self, n: nat) -> bool {
        &&& forall|j: int|
            0 <= j < self.evaluations@.len() ==> (#[trigger] self.evaluations@[j])@.len() >= n
        &&& self.nonce_evaluations@.len() >= n
        &&& self.blinding_poly_evaluations@.len() >= n
        &&& self.nonce_blinding_poly_evaluations@.len() >= n
    }
}

/// The values of the sharing polynomial of `row` at the points of `n` parties.
pub open spec fn share_row(row: Seq<int>, t: nat, n: nat) -> Seq<int> {
    Seq::new(n, |i: int| polynomial::feval(sharing_polynomial(row, t), party_point(i)))
}

/// Whether the polynomials and shares are those of the rows of the secrets, the
/// nonce, the blinding and the blinding nonce, for `t` faults among `n`
/// parties.
pub open spec fn dealt_from(
    r: DealerPolynomials,
    rows: Seq<Seq<int>>,
    nonce: Seq<int>,
    blinding: Seq<int>,
    blinding_nonce: Seq<int>,
    t: nat,
    n: nat,
) -> bool {
    &&& r.covers(n)
    &&& r.evaluations@.len() == rows.len()
    &&& r.coefficients@.len() == rows.len()
    &&& forall|j: int|
        0 <= j < rows.len() ==> (#[trigger] r.coefficients@[j])@ == sharing_polynomial(rows[j], t)
    &&& forall|j: int|
        0 <= j < rows.len() ==> field::vals((#[trigger] r.evaluations@[j])@) == share_row(
            rows[j],
            t,
            n,
        )
    &&& field::vals(r.nonce_evaluations@) == share_row(nonce, t, n)
    &&& field::vals(r.blinding_poly_evaluations@) == share_row(blinding, t, n)
    &&& r.blinding_poly_coefficients@ == sharing_polynomial(blinding, t)
    &&& field::vals(r.nonce_blinding_poly_evaluations@) == share_row(blinding_nonce, t, n)
}

/// The sharing polynomial and shares of one row.
fn share_one(row: Vec<LargeField>, num_faults: usize, num_nodes: usize) -> (r: (
    Vec<LargeField>,
    Polynomial,
))
    requires
        num_faults < field::MODULUS - 1,
        num_faults < usize::MAX - 1,
        row@.len() == num_faults + 1,
    ensures
        r.1@ == sharing_polynomial(field::vals(row@), num_faults as nat),
        field::vals(r.0@) == share_row(field::vals(row@), num_faults as nat, num_nodes as nat),
{
    let mut rows: Vec<Vec<LargeField>> = Vec::new();
    rows.push(row);
    let (mut evaluations, mut coefficients) = generate_evaluation_points(
        rows,
        num_faults,
        num_nodes,
    );
    let polynomial = coefficients.remove(0);
    let shares = evaluations.remove(0);
    assert(field::vals(shares@) =~= share_row(
        field::vals(row@),
        num_faults as nat,
        num_nodes as nat,
    ));
    (shares, polynomial)
}

/// The dealer's polynomials from the pseudo-random rows of the secrets, the
/// nonce, the blinding and the blinding nonce.
pub fn dealer_core_cpu(
    evaluations_prf: Vec<Vec<LargeField>>,
    nonce_prf: Vec<LargeField>,
    blinding_prf: Vec<LargeField>,
    blinding_nonce_prf: Vec<LargeField>,
    num_faults: usize,
    num_nodes: usize,
) -> (r: DealerPolynomials)
    requires
        num_faults < field::MODULUS - 1,
        num_faults < usize::MAX - 1,
        forall|j: int|
            0 <= j < evaluations_prf@.len() ==> (#[trigger] evaluations_prf@[j])@.len()
                == num_faults + 1,
        nonce_prf@.len() == num_faults + 1,
        blinding_prf@.len() == num_faults + 1,
        blinding_nonce_prf@.len() == num_faults + 1,
    ensures
        dealt_from(
            r,
            poly::mat(evaluations_prf@),
            field::vals(nonce_prf@),
            field::vals(blinding_prf@),
            field::vals(blinding_nonce_prf@),
            num_faults as nat,
            num_nodes as nat,
        ),
{
    let ghost rows = evaluations_prf@;
    let (evaluations, coefficients) = generate_evaluation_points(
        evaluations_prf,
        num_faults,
        num_nodes,
    );
    let (nonce_evaluations, _) = share_one(nonce_prf, num_faults, num_nodes);
    let (blinding_poly_evaluations, blinding_poly_coefficients) = share_one(
        blinding_prf,
        num_faults,
        num_nodes,
    );
    let (nonce_blinding_poly_evaluations, _) = share_one(blinding_nonce_prf, num_faults, num_nodes);
    proof {
        assert forall|j: int| 0 <= j < rows.len() implies field::vals(
            (#[trigger] evaluations@[j])@,
        ) == share_row(field::vals(rows[j]@), num_faults as nat, num_nodes as nat) by {
            assert(coefficients@[j]@ == sharing_polynomial(
                field::vals(rows[j]@),
                num_faults as nat,
            ));
            assert(field::vals(evaluations@[j]@) =~= share_row(
                field::vals(rows[j]@),
                num_faults as nat,
                num_nodes as nat,
            ));
        }
        assert(field::vals(nonce_evaluations@).len() == num_nodes);
        assert(field::vals(blinding_poly_evaluations@).len() == num_nodes);
        assert(field::vals(nonce_blinding_poly_evaluations@).len() == num_nodes);
    }
    DealerPolynomials {
        evaluations,
        coefficients,
        nonce_evaluations,
        blinding_poly_evaluations,
        blinding_poly_coefficients,
        nonce_blinding_poly_evaluations,
    }
}

/// The serialized shares of party `i`, one for each secret.
pub open spec fn party_shares(evaluations: Seq<Vec<LargeField>>, i: int) -> Seq<Seq<u8>> {
    Seq::new(evaluations.len(), |j: int| types::ser(evaluations[j]@[i]@))
}

/// What is hashed into the share commitment of party `i`.
pub open spec fn commitment_input(
    evaluations: Seq<Vec<LargeField>>,
    nonces: Seq<LargeField>,
    i: int,
) -> Seq<u8> {
    wire::concat(party_shares(evaluations, i)) + types::ser(nonces[i]@)
}

/// The shares of every party, and for each party the bytes whose hash commits
/// to them.
pub fn commitment_inputs(
    evaluations: &Vec<Vec<LargeField>>,
    nonce_evaluations: &Vec<LargeField>,
    num_nodes: usize,
) -> (r: (Vec<Vec<LargeFieldSer>>, Vec<Vec<u8>>))
    requires
        forall|j: int|
            0 <= j < evaluations@.len() ==> (#[trigger] evaluations@[j])@.len() >= num_nodes,
        nonce_evaluations@.len() >= num_nodes,
    ensures
        r.0@.len() == num_nodes,
        r.1@.len() == num_nodes,
        forall|i: int|
            0 <= i < num_nodes ==> types::sers((#[trigger] r.0@[i])@) == party_shares(
                evaluations@,
                i,
            ),
        forall|i: int|
            0 <= i < num_nodes ==> (#[trigger] r.1@[i])@ == commitment_input(
                evaluations@,
                nonce_evaluations@,
                i,
            ),
{
    let mut party_wise_shares: Vec<Vec<LargeFieldSer>> = Vec::new();
    let mut party_appended_shares: Vec<Vec<u8>> = Vec::new();
    for i in 0..num_nodes
        invariant
            forall|j: int|
                0 <= j < evaluations@.len() ==> (#[trigger] evaluations@[j])@.len() >= num_nodes,
            nonce_evaluations@.len() >= num_nodes,
            party_wise_shares@.len() == i,
            party_appended_shares@.len() == i,
            forall|k: int|
                0 <= k < i ==> types::sers((#[trigger] party_wise_shares@[k])@) == party_shares(
                    evaluations@,
                    k,
                ),
            forall|k: int|
                0 <= k < i ==> (#[trigger] party_appended_shares@[k])@ == commitment_input(
                    evaluations@,
                    nonce_evaluations@,
                    k,
                ),
    {
        let mut shares: Vec<LargeFieldSer> = Vec::new();
        let mut appended: Vec<u8> = Vec::new();
        let ghost full = party_shares(evaluations@, i as int);
        assert(full.take(0) =~= Seq::<Seq<u8>>::empty());
        for j in 0..evaluations.len()
            invariant
                i < num_nodes,
                forall|k: int|
                    0 <= k < evaluations@.len() ==> (#[trigger] evaluations@[k])@.len()
                        >= num_nodes,
                full == party_shares(evaluations@, i as int),
                types::sers(shares@) == full.take(j as int),
                appended@ == wire::concat(full.take(j as int)),
        {
            let bytes = evaluations[j][i].to_bytes_be();
            proof {
                types::lemma_ser(bytes@);
                assert(full.take(j + 1) =~= full.take(j as int).push(bytes@));
                wire::lemma_concat_push(full.take(j as int), bytes@);
            }
            let mut copy = evaluations[j][i].to_bytes_be();
            proof {
                types::lemma_ser(copy@);
            }
            appended.append(&mut copy);
            let ghost before = shares@;
            shares.push(bytes);
            assert(types::sers(shares@) =~= types::sers(before).push(bytes@));
        }
        assert(full.take(full.len() as int) =~= full);
        let mut nonce = nonce_evaluations[i].to_bytes_be();
        proof {
            types::lemma_ser(nonce@);
        }
        appended.append(&mut nonce);
        party_wise_shares.push(shares);
        party_appended_shares.push(appended);
    }
    (party_wise_shares, party_appended_shares)
}

/// The two hash inputs that commit to party `i`'s blinding share: the share
/// and its nonce, both widened to the width of a digest.
pub fn blinding_commitment_inputs(
    blinding_poly_evaluations: &Vec<LargeField>,
    nonce_blinding_poly_evaluations: &Vec<LargeField>,
    num_nodes: usize,
) -> (r: Vec<(Digest, Digest)>)
    requires
        blinding_poly_evaluations@.len() >= num_nodes,
        nonce_blinding_poly_evaluations@.len() >= num_nodes,
    ensures
        r@.len() == num_nodes,
        forall|i: int|
            0 <= i < num_nodes ==> (#[trigger] r@[i]).0@ == types::hash_input(
                types::ser(blinding_poly_evaluations@[i]@),
            ) && r@[i].1@ == types::hash_input(types::ser(nonce_blinding_poly_evaluations@[i]@)),
{
    let mut out: Vec<(Digest, Digest)> = Vec::new();
    for i in 0..num_nodes
        invariant
            blinding_poly_evaluations@.len() >= num_nodes,
            nonce_blinding_poly_evaluations@.len() >= num_nodes,
            out@.len() == i,
            forall|k: int|
                0 <= k < i ==> (#[trigger] out@[k]).0@ == types::hash_input(
                    types::ser(blinding_poly_evaluations@[k]@),
                ) && out@[k].1@ == types::hash_input(
                    types::ser(nonce_blinding_poly_evaluations@[k]@),
                ),
    {
        let share = blinding_poly_evaluations[i].to_bytes_be();
        let nonce = nonce_blinding_poly_evaluations[i].to_bytes_be();
        proof {
            types::lemma_ser(share@);
            types::lemma_ser(nonce@);
        }
        out.push(
            (
                types::field_bytes_to_hash_input(share.as_slice()),
                types::field_bytes_to_hash_input(nonce.as_slice()),
            ),
        );
    }
    out
}

/// `blind + r * c_0 + r^2 * c_1 + ..` over the first `k` polynomials.
pub open spec fn proof_sum(blind: Seq<int>, polys: Seq<Seq<int>>, r: int, k: nat) -> Seq<int>
    decreases k,
{
    if k == 0 {
        blind
    } else {
        polynomial::poly_sum(
            proof_sum(blind, polys, r, (k - 1) as nat),
            polynomial::scaled(polys[k - 1], field::fpow(r, k)),
        )
    }
}

/// The coefficients of the proof polynomial for challenge `r`.
pub open spec fn proof_polynomial(blind: Seq<int>, polys: Seq<Seq<int>>, r: int) -> Seq<int> {
    if polys.len() == 0 {
        blind
    } else {
        polynomial::trimmed(polynomial::reduced(proof_sum(blind, polys, r, polys.len())))
    }
}

/// The views of a sequence of polynomials.
pub open spec fn poly_vals(polys: Seq<Polynomial>) -> Seq<Seq<int>> {
    Seq::new(polys.len(), |i: int| polys[i]@)
}

proof fn lemma_sum_coeff(a: Seq<int>, b: Seq<int>, i: int)
    ensures
        polynomial::coeff(polynomial::poly_sum(a, b), i) == polynomial::coeff(a, i)
            + polynomial::coeff(b, i),
{
}

proof fn lemma_reduced_coeff(a: Seq<int>, i: int)
    ensures
        polynomial::coeff(polynomial::reduced(a), i) == polynomial::coeff(a, i) % field::p(),
{
    lemma_small_mod(0, field::p() as nat);
}

/// One step of the accumulation keeps the accumulator equal to the reduced
/// and trimmed sum.
proof fn lemma_proof_step(acc: Seq<int>, full: Seq<int>, term: Seq<int>)
    requires
        forall|i: int|
            #[trigger] polynomial::coeff(acc, i) == polynomial::coeff(full, i) % field::p(),
    ensures
        polynomial::trimmed(
            polynomial::reduced(polynomial::poly_sum(acc, polynomial::reduced(term))),
        ) == polynomial::trimmed(polynomial::reduced(polynomial::poly_sum(full, term))),
        forall|i: int|
            #[trigger] polynomial::coeff(
                polynomial::trimmed(polynomial::reduced(polynomial::poly_sum(full, term))),
                i,
            ) == polynomial::coeff(polynomial::poly_sum(full, term), i) % field::p(),
{
    let a = polynomial::reduced(polynomial::poly_sum(acc, polynomial::reduced(term)));
    let b = polynomial::reduced(polynomial::poly_sum(full, term));
    assert forall|i: int| #[trigger] polynomial::coeff(a, i) == polynomial::coeff(b, i) by {
        lemma_reduced_coeff(polynomial::poly_sum(acc, polynomial::reduced(term)), i);
        lemma_reduced_coeff(polynomial::poly_sum(full, term), i);
        lemma_sum_coeff(acc, polynomial::reduced(term), i);
        lemma_sum_coeff(full, term, i);
        lemma_reduced_coeff(term, i);
        assert(polynomial::coeff(acc, i) == polynomial::coeff(full, i) % field::p());
        lemma_add_mod_noop(
            polynomial::coeff(full, i),
            polynomial::coeff(term, i),
            field::p(),
        );
    }
    polynomial::lemma_trimmed_unique(a, b);
    assert forall|i: int|
        #[trigger] polynomial::coeff(polynomial::trimmed(b), i) == polynomial::coeff(
            polynomial::poly_sum(full, term),
            i,
        ) % field::p() by {
        polynomial::lemma_trimmed_coeff(b, i);
        lemma_reduced_coeff(polynomial::poly_sum(full, term), i);
    }
}

/// The proof polynomial: the blinding polynomial plus the sharing polynomials
/// weighted with the powers `r, r^2, ..` of the challenge.
pub fn combine_proof(
    blinding: Polynomial,
    coefficients: &Vec<Polynomial>,
    challenge: LargeField,
) -> (r: Polynomial)
    ensures
        r@ == proof_polynomial(blinding@, poly_vals(coefficients@), challenge@),
{
    let ghost blind = blinding@;
    let ghost polys = poly_vals(coefficients@);
    let mut power = challenge;
    let mut acc = blinding;
    proof {
        assert(field::fpow(challenge@, 0) == 1);
        assert(challenge@ * 1 == challenge@);
        field::lemma_view_range(challenge);
        lemma_small_mod(challenge@ as nat, field::p() as nat);
        poly::lemma_vals_reduced(acc.coefficients@);
        assert forall|i: int|
            #[trigger] polynomial::coeff(blind, i) == polynomial::coeff(blind, i) % field::p() by {
            if 0 <= i < blind.len() {
                assert(0 <= blind[i] < field::p());
                lemma_small_mod(blind[i] as nat, field::p() as nat);
            } else {
                lemma_small_mod(0, field::p() as nat);
            }
        }
    }
    for j in 0..coefficients.len()
        invariant
            polys == poly_vals(coefficients@),
            power@ == field::fpow(challenge@, (j + 1) as nat),
            j == 0 ==> acc@ == blind,
            j > 0 ==> acc@ == polynomial::trimmed(
                polynomial::reduced(proof_sum(blind, polys, challenge@, j as nat)),
            ),
            forall|i: int|
                #[trigger] polynomial::coeff(acc@, i) == polynomial::coeff(
                    proof_sum(blind, polys, challenge@, j as nat),
                    i,
                ) % field::p(),
    {
        proof {
            lemma_proof_step(
                acc@,
                proof_sum(blind, polys, challenge@, j as nat),
                polynomial::scaled(polys[j as int], power@),
            );
            lemma_mul_is_commutative(challenge@, power@);
        }
        acc = acc.add(&coefficients[j].scale(&power));
        power = power.mul(challenge);
    }
    acc
}

/// Deterministic dealer outputs, shared by all dealer paths.
pub struct DealerArtifacts {
    pub party_wise_shares: Vec<Vec<LargeFieldSer>>,
    pub nonce_evals_ser: Vec<LargeFieldSer>,
    pub blinding_nonce_evals_ser: Vec<LargeFieldSer>,
    pub commitments: Vec<Digest>,
    pub blinding_commitments: Vec<Digest>,
    pub ser_dzk_coeffs: Vec<LargeFieldSer>,
}

/// Serialized values.
pub open spec fn ser_all(s: Seq<int>) -> Seq<Seq<u8>> {
    Seq::new(s.len(), |i: int| types::ser(s[i]))
}

/// Serialized values are in order: the element at place `i` is read back as value
/// `i`.
pub proof fn lemma_ser_all(s: Seq<int>, i: int)
    requires
        0 <= i < s.len(),
        0 <= s[i] < field::p(),
    ensures
        ser_all(s).len() == s.len(),
        ser_all(s)[i].len() == 8,
        field::be_value(ser_all(s)[i]) == s[i],
{
    types::lemma_element_round_trip(s[i]);
}

/// Whether the artifacts hold the shares and nonces of the polynomials and the
/// proof for the challenge that is derived from `root_comm`.
pub open spec fn packed_from(
    r: DealerArtifacts,
    polynomials: DealerPolynomials,
    n: nat,
    root_comm: Seq<u8>,
) -> bool {
    &&& r.party_wise_shares@.len() == n
    &&& forall|i: int|
        0 <= i < n ==> types::sers((#[trigger] r.party_wise_shares@[i])@) == party_shares(
            polynomials.evaluations@,
            i,
        )
    &&& types::sers(r.nonce_evals_ser@) == ser_all(field::vals(polynomials.nonce_evaluations@))
    &&& types::sers(r.blinding_nonce_evals_ser@) == ser_all(
        field::vals(polynomials.nonce_blinding_poly_evaluations@),
    )
    &&& types::sers(r.ser_dzk_coeffs@) == ser_all(
        proof_polynomial(
            polynomials.blinding_poly_coefficients@,
            poly_vals(polynomials.coefficients@),
            types::limb_fold(root_comm, 0),
        ),
    )
}

/// Common dealer tail: packs the shares, derives the challenge from the root
/// of the commitments and combines the proof polynomial. The commitments and
/// their root are the hashes of what `commitment_inputs` and
/// `blinding_commitment_inputs` gave.
pub fn commitments_and_dzk(
    polynomials: DealerPolynomials,
    num_nodes: usize,
    commitments: Vec<Digest>,
    blinding_commitments: Vec<Digest>,
    root_comm: &Digest,
) -> (r: DealerArtifacts)
    requires
        polynomials.covers(num_nodes as nat),
    ensures
        packed_from(r, polynomials, num_nodes as nat, root_comm@),
        r.commitments == commitments,
        r.blinding_commitments == blinding_commitments,
{
    let challenge = types::hash_to_field(root_comm.as_slice());
    let (party_wise_shares, _) = commitment_inputs(
        &polynomials.evaluations,
        &polynomials.nonce_evaluations,
        num_nodes,
    );
    let dzk = combine_proof(
        polynomials.blinding_poly_coefficients,
        &polynomials.coefficients,
        challenge,
    );
    let ser_dzk_coeffs = types::serialize_elements(&dzk.coefficients);
    let nonce_evals_ser = types::serialize_elements(&polynomials.nonce_evaluations);
    let blinding_nonce_evals_ser = types::serialize_elements(
        &polynomials.nonce_blinding_poly_evaluations,
    );
    assert(types::sers(ser_dzk_coeffs@) =~= ser_all(dzk@));
    assert(types::sers(nonce_evals_ser@) =~= ser_all(field::vals(polynomials.nonce_evaluations@)));
    assert(types::sers(blinding_nonce_evals_ser@) =~= ser_all(
        field::vals(polynomials.nonce_blinding_poly_evaluations@),
    ));
    DealerArtifacts {
        party_wise_shares,
        nonce_evals_ser,
        blinding_nonce_evals_ser,
        commitments,
        blinding_commitments,
        ser_dzk_coeffs,
    }
}

/// A sharing polynomial has at most `t + 1` coefficients, its value at zero is
/// the secret, and at the points `1..t` it takes the random values: the first
/// `t` parties hold these values themselves.
pub proof fn lemma_sharing_polynomial(row: Seq<int>, t: nat)
    requires
        t < field::p(),
        row.len() == t + 1,
        polynomial::all_reduced(row),
    ensures
        sharing_polynomial(row, t).len() <= t + 1,
        polynomial::feval(sharing_polynomial(row, t), 0) == row[0],
        forall|i: int|
            0 <= i < t && i + 1 < field::p() ==> polynomial::feval(
                sharing_polynomial(row, t),
                #[trigger] party_point(i),
            ) == row[i + 1],
{
    let xs = sharing_points(t);
    lemma_sharing_points(t);
    polynomial::lemma_interpolant_defined(xs, row);
    let c = polynomial::interpolant(xs, row);
    polynomial::lemma_trimmed_eval(c, 0);
    assert(polynomial::feval(c, xs[0]) == row[0]);
    assert forall|i: int| 0 <= i < t && i + 1 < field::p() implies polynomial::feval(
        sharing_polynomial(row, t),
        #[trigger] party_point(i),
    ) == row[i + 1] by {
        lemma_small_mod((i + 1) as nat, field::p() as nat);
        polynomial::lemma_trimmed_eval(c, party_point(i));
        assert(polynomial::feval(c, xs[i + 1]) == row[i + 1]);
    }
}

/// Any `t + 1` shares at different points determine the secret: the
/// polynomial through them is the sharing polynomial.
pub proof fn lemma_shares_reconstruct(row: Seq<int>, t: nat, xs: Seq<int>, shares: Seq<int>)
    requires
        t < field::p(),
        row.len() == t + 1,
        polynomial::all_reduced(row),
        xs.len() == t + 1,
        polynomial::distinct_points(xs),
        shares.len() == t + 1,
        forall|i: int|
            0 <= i < xs.len() ==> #[trigger] shares[i] == polynomial::feval(
                sharing_polynomial(row, t),
                xs[i],
            ),
    ensures
        polynomial::interpolant(xs, shares) == polynomial::interpolant(sharing_points(t), row),
        polynomial::interpolant(xs, shares)[0] == row[0],
{
    let ps = sharing_points(t);
    lemma_sharing_points(t);
    polynomial::lemma_interpolant_defined(ps, row);
    let c = polynomial::interpolant(ps, row);
    assert forall|m: int| 0 <= m < xs.len() implies polynomial::feval(c, #[trigger] xs[m])
        == shares[m] by {
        polynomial::lemma_trimmed_eval(c, xs[m]);
        assert(shares[m] == polynomial::feval(sharing_polynomial(row, t), xs[m]));
    }
    polynomial::lemma_interpolant(c, xs, shares);
    assert(polynomial::feval(c, ps[0]) == row[0]);
    polynomial::lemma_eval_at_zero(c);
    lemma_small_mod(c[0] as nat, field::p() as nat);
}

/// The coefficients of the proof polynomial are field elements.
pub proof fn lemma_proof_polynomial_reduced(blind: Seq<int>, polys: Seq<Seq<int>>, r: int)
    requires
        polynomial::all_reduced(blind),
    ensures
        polynomial::all_reduced(proof_polynomial(blind, polys, r)),
{
    let d = proof_polynomial(blind, polys, r);
    if polys.len() > 0 {
        let full = proof_sum(blind, polys, r, polys.len());
        let red = polynomial::reduced(full);
        assert forall|i: int| 0 <= i < d.len() implies 0 <= #[trigger] d[i] < field::p() by {
            polynomial::lemma_trimmed_coeff(red, i);
            polynomial::lemma_trimmed_eval(red, 0);
            lemma_mod_bound(full[i], field::p());
        }
    }
}

/// `r * s_0 + r^2 * s_1 + ..`: the shares weighted with the powers of the
/// challenge.
pub open spec fn weighted_shares(shares: Seq<int>, r: int) -> int
    decreases shares.len(),
{
    if shares.len() == 0 {
        0
    } else {
        weighted_shares(shares.drop_last(), r) + shares.last() * field::fpow(r, shares.len())
    }
}

proof fn lemma_proof_sum_eval(
    blind: Seq<int>,
    polys: Seq<Seq<int>>,
    r: int,
    x: int,
    shares: Seq<int>,
    k: nat,
)
    requires
        k <= polys.len(),
        shares.len() == polys.len(),
        forall|j: int| 0 <= j < polys.len() ==> #[trigger] shares[j] == polynomial::feval(polys[j], x),
    ensures
        polynomial::cong(
            polynomial::poly_eval(proof_sum(blind, polys, r, k), x),
            polynomial::poly_eval(blind, x) + weighted_shares(shares.take(k as int), r),
        ),
    decreases k,
{
    if k > 0 {
        let j = (k - 1) as nat;
        lemma_proof_sum_eval(blind, polys, r, x, shares, j);
        let prev = proof_sum(blind, polys, r, j);
        let w = field::fpow(r, k);
        let term = polynomial::scaled(polys[j as int], w);
        polynomial::lemma_eval_sum(prev, term, x);
        polynomial::lemma_eval_scaled(polys[j as int], w, x);
        assert(shares[j as int] == polynomial::feval(polys[j as int], x));
        polynomial::lemma_cong_mod(polynomial::poly_eval(polys[j as int], x));
        polynomial::lemma_cong_ops(
            w,
            w,
            polynomial::poly_eval(polys[j as int], x),
            shares[j as int],
        );
        lemma_mul_is_commutative(w, shares[j as int]);
        assert(shares.take(k as int).drop_last() =~= shares.take(j as int));
        polynomial::lemma_cong_ops(
            polynomial::poly_eval(prev, x),
            polynomial::poly_eval(blind, x) + weighted_shares(shares.take(j as int), r),
            w * polynomial::poly_eval(polys[j as int], x),
            shares[j as int] * w,
        );
    } else {
        assert(shares.take(0) =~= Seq::<int>::empty());
    }
}

/// An honest dealer is accepted: for shares on the sharing polynomials, the
/// value of the proof polynomial minus the weighted shares is the value of
/// the blinding polynomial, which is what the dealer committed to.
pub proof fn lemma_honest_proof_accepted(
    blind: Seq<int>,
    polys: Seq<Seq<int>>,
    r: int,
    x: int,
    shares: Seq<int>,
)
    requires
        shares.len() == polys.len(),
        forall|j: int| 0 <= j < polys.len() ==> #[trigger] shares[j] == polynomial::feval(polys[j], x),
    ensures
        field::fsub(
            polynomial::feval(proof_polynomial(blind, polys, r), x),
            weighted_shares(shares, r) % field::p(),
        ) == polynomial::feval(blind, x),
{
    let k = polys.len();
    let full = proof_sum(blind, polys, r, k);
    let d = polynomial::feval(proof_polynomial(blind, polys, r), x);
    lemma_proof_sum_eval(blind, polys, r, x, shares, k);
    assert(shares.take(k as int) =~= shares);
    polynomial::lemma_trimmed_eval(polynomial::reduced(full), x);
    polynomial::lemma_reduced_eval(full, x);
    let b = polynomial::poly_eval(blind, x);
    let w = weighted_shares(shares, r);
    polynomial::lemma_cong_mod(polynomial::poly_eval(full, x));
    polynomial::lemma_cong_mod(w);
    polynomial::lemma_cong_ops(d, b + w, w % field::p(), w);
}

/// What the parties receive for one row: the first `t` of them the random
/// values themselves, and any `t + 1` different parties can reconstruct the
/// secret by interpolating their shares at their numbers.
pub proof fn lemma_share_row_reconstructs(row: Seq<int>, t: nat, n: nat, parties: Seq<int>)
    requires
        t < n < field::p(),
        row.len() == t + 1,
        polynomial::all_reduced(row),
        parties.len() == t + 1,
        forall|i: int| 0 <= i < parties.len() ==> 0 <= #[trigger] parties[i] < n,
        forall|i: int, j: int|
            0 <= i < j < parties.len() ==> #[trigger] parties[i] != #[trigger] parties[j],
    ensures
        share_row(row, t, n).len() == n,
        forall|i: int| 0 <= i < t ==> #[trigger] share_row(row, t, n)[i] == row[i + 1],
        polynomial::interpolant(
            Seq::new(t + 1, |i: int| parties[i] + 1),
            Seq::new(t + 1, |i: int| share_row(row, t, n)[parties[i]]),
        )[0] == row[0],
{
    let xs = Seq::new(t + 1, |i: int| parties[i] + 1);
    let shares = Seq::new(t + 1, |i: int| share_row(row, t, n)[parties[i]]);
    lemma_sharing_polynomial(row, t);
    assert forall|i: int| 0 <= i < t implies #[trigger] share_row(row, t, n)[i] == row[i + 1] by {
        assert(polynomial::feval(sharing_polynomial(row, t), party_point(i)) == row[i + 1]);
    }
    assert forall|i: int| 0 <= i < xs.len() implies #[trigger] shares[i] == polynomial::feval(
        sharing_polynomial(row, t),
        xs[i],
    ) by {
        lemma_small_mod((parties[i] + 1) as nat, field::p() as nat);
    }
    assert forall|i: int, j: int|
        0 <= i < xs.len() && 0 <= j < xs.len() && i != j implies !polynomial::cong(
        #[trigger] xs[i],
        #[trigger] xs[j],
    ) by {
        lemma_small_mod((parties[i] + 1) as nat, field::p() as nat);
        lemma_small_mod((parties[j] + 1) as nat, field::p() as nat);
        if i < j {
            assert(parties[i] != parties[j]);
        } else {
            assert(parties[j] != parties[i]);
        }
    }
    lemma_shares_reconstruct(row, t, xs, shares);
}

/// The dealer gives every party one share of each kind, and none is mixed up:
/// party `i < t` gets the random values `i + 1` of the rows of the secrets, the
/// nonce, the blinding and the blinding nonce, every share of a secret is the
/// value of its polynomial at the party's number, and the polynomials hide the
/// secrets as constant terms.
pub proof fn lemma_dealt(
    r: DealerPolynomials,
    rows: Seq<Seq<int>>,
    nonce: Seq<int>,
    blinding: Seq<int>,
    blinding_nonce: Seq<int>,
    t: nat,
    n: nat,
    j: int,
    i: int,
)
    requires
        dealt_from(r, rows, nonce, blinding, blinding_nonce, t, n),
        t < n < field::p(),
        0 <= j < rows.len(),
        0 <= i < n,
        rows[j].len() == t + 1 && polynomial::all_reduced(rows[j]),
        nonce.len() == t + 1 && polynomial::all_reduced(nonce),
        blinding.len() == t + 1 && polynomial::all_reduced(blinding),
        blinding_nonce.len() == t + 1 && polynomial::all_reduced(blinding_nonce),
    ensures
        r.evaluations@.len() == rows.len(),
        r.coefficients@.len() == rows.len(),
        r.evaluations@[j]@.len() == n,
        r.nonce_evaluations@.len() == n,
        r.blinding_poly_evaluations@.len() == n,
        r.nonce_blinding_poly_evaluations@.len() == n,
        r.evaluations@[j]@[i]@ == polynomial::feval(r.coefficients@[j]@, i + 1),
        r.blinding_poly_evaluations@[i]@ == polynomial::feval(
            r.blinding_poly_coefficients@,
            i + 1,
        ),
        r.nonce_evaluations@[i]@ == polynomial::feval(sharing_polynomial(nonce, t), i + 1),
        r.nonce_blinding_poly_evaluations@[i]@ == polynomial::feval(
            sharing_polynomial(blinding_nonce, t),
            i + 1,
        ),
        r.coefficients@[j]@.len() <= t + 1,
        r.blinding_poly_coefficients@.len() <= t + 1,
        polynomial::feval(r.coefficients@[j]@, 0) == rows[j][0],
        polynomial::feval(r.blinding_poly_coefficients@, 0) == blinding[0],
        i < t ==> {
            &&& r.evaluations@[j]@[i]@ == rows[j][i + 1]
            &&& r.nonce_evaluations@[i]@ == nonce[i + 1]
            &&& r.blinding_poly_evaluations@[i]@ == blinding[i + 1]
            &&& r.nonce_blinding_poly_evaluations@[i]@ == blinding_nonce[i + 1]
        },
{
    lemma_sharing_polynomial(rows[j], t);
    lemma_sharing_polynomial(nonce, t);
    lemma_sharing_polynomial(blinding, t);
    lemma_sharing_polynomial(blinding_nonce, t);
    lemma_small_mod((i + 1) as nat, field::p() as nat);
    let party = party_point(i);
    assert(field::vals(r.evaluations@[j]@) == share_row(rows[j], t, n));
    assert(r.coefficients@[j]@ == sharing_polynomial(rows[j], t));
    assert(field::vals(r.evaluations@[j]@).len() == n);
    assert(field::vals(r.nonce_evaluations@).len() == n);
    assert(field::vals(r.blinding_poly_evaluations@).len() == n);
    assert(field::vals(r.nonce_blinding_poly_evaluations@).len() == n);
    assert(field::vals(r.evaluations@[j]@)[i] == r.evaluations@[j]@[i]@);
    assert(field::vals(r.nonce_evaluations@)[i] == r.nonce_evaluations@[i]@);
    assert(field::vals(r.blinding_poly_evaluations@)[i] == r.blinding_poly_evaluations@[i]@);
    assert(field::vals(r.nonce_blinding_poly_evaluations@)[i]
        == r.nonce_blinding_poly_evaluations@[i]@);
}

/// What a party reads from its artifacts: at place `j` of its list its own share
/// of secret `j`, and its own nonce and blinding nonce. The proof that is sent
/// to all is that of the challenge of the root: coefficient by coefficient.
pub proof fn lemma_packed(
    r: DealerArtifacts,
    polynomials: DealerPolynomials,
    n: nat,
    root_comm: Seq<u8>,
    i: int,
    j: int,
)
    requires
        packed_from(r, polynomials, n, root_comm),
        polynomials.covers(n),
        0 <= i < n,
        0 <= j < polynomials.evaluations@.len(),
    ensures
        r.party_wise_shares@.len() == n,
        r.party_wise_shares@[i]@.len() == polynomials.evaluations@.len(),
        field::be_value(r.party_wise_shares@[i]@[j]@) == polynomials.evaluations@[j]@[i]@,
        field::be_value(r.nonce_evals_ser@[i]@) == polynomials.nonce_evaluations@[i]@,
        field::be_value(r.blinding_nonce_evals_ser@[i]@)
            == polynomials.nonce_blinding_poly_evaluations@[i]@,
        ({
            let proof_coefficients = proof_polynomial(
                polynomials.blinding_poly_coefficients@,
                poly_vals(polynomials.coefficients@),
                types::limb_fold(root_comm, 0),
            );
            &&& r.ser_dzk_coeffs@.len() == proof_coefficients.len()
            &&& forall|k: int|
                0 <= k < proof_coefficients.len() ==> (#[trigger] r.ser_dzk_coeffs@[k])@
                    == types::ser(proof_coefficients[k])
        }),
{
    let share = polynomials.evaluations@[j]@[i];
    let nonce = polynomials.nonce_evaluations@[i];
    let blinding_nonce = polynomials.nonce_blinding_poly_evaluations@[i];
    field::lemma_view_range(share);
    field::lemma_view_range(nonce);
    field::lemma_view_range(blinding_nonce);
    types::lemma_element_round_trip(share@);
    types::lemma_element_round_trip(nonce@);
    types::lemma_element_round_trip(blinding_nonce@);
    let list = types::sers(r.party_wise_shares@[i]@);
    assert(list == party_shares(polynomials.evaluations@, i));
    assert(list.len() == r.party_wise_shares@[i]@.len());
    assert(list[j] == r.party_wise_shares@[i]@[j]@);
    let nonces = types::sers(r.nonce_evals_ser@);
    assert(nonces.len() == r.nonce_evals_ser@.len());
    assert(nonces[i] == r.nonce_evals_ser@[i]@);
    let blinding_nonces = types::sers(r.blinding_nonce_evals_ser@);
    assert(blinding_nonces.len() == r.blinding_nonce_evals_ser@.len());
    assert(blinding_nonces[i] == r.blinding_nonce_evals_ser@[i]@);
    let proofs = types::sers(r.ser_dzk_coeffs@);
    assert(proofs.len() == r.ser_dzk_coeffs@.len());
    assert forall|k: int| 0 <= k < proofs.len() implies (#[trigger] r.ser_dzk_coeffs@[k])@
        == proofs[k] by {}
}

/// Each share counts with its own power of the challenge: changing share `j` by
/// `d` changes the weighted sum by `d * r^(j + 1)`.
pub proof fn lemma_weight_of_share(shares: Seq<int>, r: int, j: int, y: int)
    requires
        0 <= j < shares.len(),
    ensures
        weighted_shares(shares.update(j, y), r) - weighted_shares(shares, r) == (y - shares[j])
            * field::fpow(r, (j + 1) as nat),
    decreases shares.len(),
{
    let changed = shares.update(j, y);
    if j == shares.len() - 1 {
        assert(changed.drop_last() =~= shares.drop_last());
        let w = field::fpow(r, shares.len());
        assert((y - shares[j]) * w == y * w - shares[j] * w) by (nonlinear_arith);
    } else {
        assert(changed.drop_last() =~= shares.drop_last().update(j, y));
        lemma_weight_of_share(shares.drop_last(), r, j, y);
    }
}

/// A power of an element that is not zero is not zero.
proof fn lemma_power_nonzero(r: int, n: nat)
    requires
        r % field::p() != 0,
    ensures
        field::fpow(r, n) % field::p() != 0,
    decreases n,
{
    lemma_small_mod(1, field::p() as nat);
    if n > 0 {
        let rest = field::fpow(r, (n - 1) as nat);
        lemma_power_nonzero(r, (n - 1) as nat);
        lemma_mod_twice(r * rest, field::p());
        if (r * rest) % field::p() == 0 {
            field::lemma_no_zero_divisors(r, rest);
        }
    }
}

/// A wrong share is noticed: for a challenge that is not zero, shares that
/// differ from the right ones in a single place lead to another blinding share.
pub proof fn lemma_wrong_share_noticed(value: int, shares: Seq<int>, r: int, j: int, y: int)
    requires
        r % field::p() != 0,
        0 <= j < shares.len(),
        y % field::p() != shares[j] % field::p(),
    ensures
        field::fsub(value, weighted_shares(shares.update(j, y), r) % field::p()) != field::fsub(
            value,
            weighted_shares(shares, r) % field::p(),
        ),
{
    let a = weighted_shares(shares.update(j, y), r);
    let b = weighted_shares(shares, r);
    let w = field::fpow(r, (j + 1) as nat);
    lemma_weight_of_share(shares, r, j, y);
    lemma_power_nonzero(r, (j + 1) as nat);
    if field::fsub(value, a % field::p()) == field::fsub(value, b % field::p()) {
        lemma_mod_equivalence(value - a % field::p(), value - b % field::p(), field::p());
        lemma_sub_mod_noop(b, a, field::p());
        assert(((b - a) % field::p()) == 0);
        assert((shares[j] - y) * w == b - a) by (nonlinear_arith)
            requires
                a - b == (y - shares[j]) * w,
        ;
        field::lemma_no_zero_divisors(shares[j] - y, w);
        lemma_mod_equivalence(shares[j], y, field::p());
    }
}

/// A commitment binds to everything that a party gets: if the bytes behind two
/// commitments are the same, so are the shares, one by one, and the nonces.
pub proof fn lemma_commitment_binds(
    one: Seq<Vec<LargeField>>,
    one_nonces: Seq<LargeField>,
    two: Seq<Vec<LargeField>>,
    two_nonces: Seq<LargeField>,
    i: int,
)
    requires
        one.len() == two.len(),
        commitment_input(one, one_nonces, i) == commitment_input(two, two_nonces, i),
    ensures
        forall|j: int| 0 <= j < one.len() ==> (#[trigger] one[j])@[i]@ == two[j]@[i]@,
        one_nonces[i]@ == two_nonces[i]@,
{
    let (a, b) = (party_shares(one, i), party_shares(two, i));
    let (x, y) = (types::ser(one_nonces[i]@), types::ser(two_nonces[i]@));
    assert forall|j: int| 0 <= j < a.len() implies (#[trigger] a[j]).len() == 8 by {
        field::lemma_view_range(one[j]@[i]);
        types::lemma_element_round_trip(one[j]@[i]@);
    }
    assert forall|j: int| 0 <= j < b.len() implies (#[trigger] b[j]).len() == 8 by {
        field::lemma_view_range(two[j]@[i]);
        types::lemma_element_round_trip(two[j]@[i]@);
    }
    field::lemma_view_range(one_nonces[i]);
    field::lemma_view_range(two_nonces[i]);
    types::lemma_element_round_trip(one_nonces[i]@);
    types::lemma_element_round_trip(two_nonces[i]@);
    wire::lemma_concat_parts(a, x, b, y);
    assert forall|j: int| 0 <= j < one.len() implies (#[trigger] one[j])@[i]@ == two[j]@[i]@ by {
        field::lemma_view_range(one[j]@[i]);
        types::lemma_element_round_trip(one[j]@[i]@);
        field::lemma_view_range(two[j]@[i]);
        types::lemma_element_round_trip(two[j]@[i]@);
        assert(a[j] == b[j]);
    }
}

} // verus!
