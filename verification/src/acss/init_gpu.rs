//! Host side of the device dealer: layout of what goes to the device and
//! comes back, the cache of device state, and the assembly of the artifacts.
use crate::acss::dealer;
use crate::acss::dealer::{DealerArtifacts, DealerPolynomials};
use crate::field;
use crate::field::LargeField;
use crate::gpu_ffi;
use crate::gpu_mem::DeviceBuffer;
use crate::poly;
use crate::polynomial;
use crate::types;
use crate::types::{Digest, LargeFieldSer};
use crate::wire;
use vstd::arithmetic::div_mod::*;
use vstd::arithmetic::mul::*;
use vstd::prelude::*;

verus! {

/// Width of a limb in the conversion between device and wire layout.
pub const LIMB_BYTES: usize = 8;

/// Every limb with its bytes in the opposite order.
pub open spec fn limb_swapped(b: Seq<u8>) -> Seq<u8> {
    Seq::new(b.len(), |k: int| b[k - k % 8 + 7 - k % 8])
}

/// Swaps the byte order of every limb: device layout to wire layout, and back.
pub fn swap_limbs_le_be(bytes: &mut Vec<u8>)
    requires
        old(bytes)@.len() % (LIMB_BYTES as nat) == 0,
    ensures
        final(bytes)@ == limb_swapped(old(bytes)@),
{
    let mut out: Vec<u8> = Vec::new();
    let len: usize = bytes.len();
    let ghost from = bytes@;
    for k in 0..len
        invariant
            len == bytes.len(),
            bytes@ == from,
            len % LIMB_BYTES == 0,
            out@.len() == k,
            forall|i: int| 0 <= i < k ==> #[trigger] out@[i] == limb_swapped(from)[i],
    {
        let low: usize = k % LIMB_BYTES;
        proof {
            lemma_fundamental_div_mod(len as int, 8);
            lemma_fundamental_div_mod(k as int, 8);
            assert(k - low + 8 <= len);
        }
        out.push(bytes[k - low + (LIMB_BYTES - 1 - low)]);
    }
    assert(out@ =~= limb_swapped(from));
    *bytes = out;
}

/// Swapping twice changes nothing.
pub proof fn lemma_swap_involution(b: Seq<u8>)
    requires
        b.len() % 8 == 0,
    ensures
        limb_swapped(limb_swapped(b)) == b,
{
    assert forall|k: int| 0 <= k < b.len() implies limb_swapped(limb_swapped(b))[k] == b[k] by {
        let low = k % 8;
        let other = k - low + 7 - low;
        assert(other % 8 == 7 - low);
        assert(other - other % 8 + 7 - other % 8 == k);
    }
    assert(limb_swapped(limb_swapped(b)) =~= b);
}

/// Swapping turns elements in device layout into their serialized form.
pub proof fn lemma_swap_native(vals: Seq<int>)
    requires
        polynomial::all_reduced(vals),
    ensures
        limb_swapped(gpu_ffi::native_row(vals)) == wire::concat(dealer::ser_all(vals)),
    decreases vals.len(),
{
    let b = gpu_ffi::native_row(vals);
    gpu_ffi::lemma_native_row_len(vals);
    if vals.len() == 0 {
        assert(limb_swapped(b) =~= Seq::<u8>::empty());
        assert(dealer::ser_all(vals) =~= Seq::<Seq<u8>>::empty());
    } else {
        let front = vals.drop_last();
        let fb = gpu_ffi::native_row(front);
        let last = types::ser(vals.last());
        lemma_swap_native(front);
        gpu_ffi::lemma_native_row_len(front);
        types::lemma_element_round_trip(vals.last());
        assert(dealer::ser_all(vals) =~= dealer::ser_all(front).push(last));
        wire::lemma_concat_push(dealer::ser_all(front), last);
        assert forall|k: int| 0 <= k < b.len() implies limb_swapped(b)[k] == (limb_swapped(fb)
            + last)[k] by {
            let low = k % 8;
            let other = k - low + 7 - low;
            lemma_fundamental_div_mod(k, 8);
            if k < fb.len() {
                assert(other < fb.len());
            } else {
                assert(low == k - fb.len());
                assert(b[other] == gpu_ffi::native(vals.last())[other - fb.len()]);
            }
        }
        assert(limb_swapped(b) =~= limb_swapped(fb) + last);
    }
}

/// Piece `i` of the pieces of `width` bytes that start at `offset`.
pub open spec fn piece(bytes: Seq<u8>, offset: int, width: int, i: int) -> Seq<u8> {
    bytes.subrange(offset + i * width, offset + i * width + width)
}

/// `count` pieces.
pub open spec fn pieces(bytes: Seq<u8>, offset: int, width: int, count: nat) -> Seq<Seq<u8>> {
    Seq::new(count, |i: int| piece(bytes, offset, width, i))
}

/// Cuts `count` pieces of `width` bytes, starting at `offset`.
fn cut(bytes: &[u8], offset: usize, width: usize, count: usize) -> (r: Vec<Vec<u8>>)
    requires
        offset + count * width <= bytes@.len(),
    ensures
        types::sers(r@) == pieces(bytes@, offset as int, width as int, count as nat),
{
    let mut out: Vec<Vec<u8>> = Vec::new();
    let mut at: usize = offset;
    assert(0 * width == 0) by (nonlinear_arith);
    for i in 0..count
        invariant
            offset + count * width <= bytes.len(),
            at == offset + i * width,
            out@.len() == i,
            forall|k: int|
                0 <= k < i ==> (#[trigger] out@[k])@ == piece(
                    bytes@,
                    offset as int,
                    width as int,
                    k,
                ),
    {
        proof {
            assert((i + 1) * width <= count * width) by (nonlinear_arith)
                requires
                    i < count,
            ;
            assert((i + 1) * width == i * width + width) by (nonlinear_arith);
        }
        let mut one: Vec<u8> = Vec::new();
        one.extend_from_slice(
            vstd::slice::slice_subrange(bytes, at, at + width),
        );
        assert(one@ =~= piece(bytes@, offset as int, width as int, i as int));
        out.push(one);
        at = at + width;
    }
    assert(types::sers(out@) =~= pieces(bytes@, offset as int, width as int, count as nat));
    out
}

/// The matrices that are uploaded to the device.
pub struct GemmMatrices {
    /// Turns values at the sharing points into coefficients.
    pub interpolation: Vec<Vec<LargeField>>,
    /// Turns coefficients into the values at the points of the parties.
    pub powers: Vec<Vec<LargeField>>,
}

/// Whether the matrices are those for `t` faults among `n` parties: one turns
/// values at the sharing points into coefficients, the other coefficients into
/// the values at the points of the parties.
pub open spec fn matrices_for(
    interpolation: Seq<Seq<int>>,
    powers: Seq<Seq<int>>,
    t: nat,
    n: nat,
) -> bool {
    &&& polynomial::interpolation_matrix(interpolation, dealer::sharing_points(t))
    &&& powers == polynomial::powers_rows(Seq::new(n, |i: int| dealer::party_point(i)), t + 1)
}

/// Reusable device state of the dealer. The two matrices depend only on the
/// number of faults and of parties.
pub struct AcssGemmCache {
    /// What the resident matrices were built for.
    pub key: Option<(usize, usize)>,
    /// The interpolation and powers matrices that were uploaded last.
    pub resident: Ghost<(Seq<Seq<int>>, Seq<Seq<int>>)>,
    pub d_y_matrix: DeviceBuffer,
    pub d_nonce_prfs: DeviceBuffer,
    pub d_party_bytes: DeviceBuffer,
    pub d_dzk_powers: DeviceBuffer,
    pub d_dzk_out: DeviceBuffer,
    /// The size of the pinned host buffer, if there is one.
    pub host_party_rows_cap: Option<usize>,
}

impl AcssGemmCache {
    /// The resident matrices are those that the key names, whatever the cache
    /// has been used for before.
    pub open spec fn wf(&self) -> bool {
        &&& self.key matches Some(k) ==> matrices_for(
            self.resident@.0,
            self.resident@.1,
            k.0 as nat,
            k.1 as nat,
        )
        &&& self.d_y_matrix.wf()
        &&& self.d_nonce_prfs.wf()
        &&& self.d_party_bytes.wf()
        &&& self.d_dzk_powers.wf()
        &&& self.d_dzk_out.wf()
    }

    /// A cache with nothing on the device.
    pub fn new() -> (r: AcssGemmCache)
        ensures
            r.wf(),
            r.key is None,
            r.host_party_rows_cap is None,
            r.d_y_matrix.ptr == 0,
            r.d_nonce_prfs.ptr == 0,
            r.d_party_bytes.ptr == 0,
            r.d_dzk_powers.ptr == 0,
            r.d_dzk_out.ptr == 0,
    {
        AcssGemmCache {
            key: None,
            resident: Ghost((Seq::empty(), Seq::empty())),
            d_y_matrix: DeviceBuffer::new(),
            d_nonce_prfs: DeviceBuffer::new(),
            d_party_bytes: DeviceBuffer::new(),
            d_dzk_powers: DeviceBuffer::new(),
            d_dzk_out: DeviceBuffer::new(),
            host_party_rows_cap: None,
        }
    }

    /// The matrices to upload for `t` faults among `n` parties, or nothing if
    /// they are resident. Until `matrices_uploaded` none are.
    pub fn ensure_matrices(&mut self, t: usize, n: usize) -> (r: Option<GemmMatrices>)
        requires
            t < field::MODULUS - 1,
            t < usize::MAX - 1,
        ensures
            old(self).wf() ==> final(self).wf(),
            r is None <==> old(self).key == Some((t, n)),
            r is None ==> *final(self) == *old(self),
            r is Some ==> *final(self) == (AcssGemmCache { key: None, ..*old(self) }),
            r matches Some(m) ==> matrices_for(
                poly::mat(m.interpolation@),
                poly::mat(m.powers@),
                t as nat,
                n as nat,
            ),
    {
        let resident = match self.key {
            Some(k) => k.0 == t && k.1 == n,
            None => false,
        };
        if resident {
            return None;
        }
        self.key = None;
        let interpolation = dealer::interpolation_for(t);
        let points = types::gen_roots_of_unity(n);
        assert(field::vals(points@) =~= Seq::new(n as nat, |i: int| dealer::party_point(i)));
        let powers = poly::powers_matrix(&points, t + 1);
        Some(GemmMatrices { interpolation, powers })
    }

    /// Records that the matrices, those for `t` and `n`, are resident.
    pub fn matrices_uploaded(&mut self, t: usize, n: usize, matrices: &GemmMatrices)
        requires
            matrices_for(
                poly::mat(matrices.interpolation@),
                poly::mat(matrices.powers@),
                t as nat,
                n as nat,
            ),
        ensures
            old(self).wf() ==> final(self).wf(),
            *final(self) == (AcssGemmCache {
                key: Some((t, n)),
                resident: Ghost((poly::mat(matrices.interpolation@), poly::mat(matrices.powers@))),
                ..*old(self)
            }),
    {
        self.key = Some((t, n));
        self.resident = Ghost((poly::mat(matrices.interpolation@), poly::mat(matrices.powers@)));
    }

    /// Whether the pinned host buffer is missing or smaller than `needed`.
    pub open spec fn host_rows_short(&self, needed: usize) -> bool {
        self.host_party_rows_cap is None || self.host_party_rows_cap->0 < needed
    }

    /// Whether a pinned host buffer of `needed` bytes has to be allocated.
    pub fn ensure_host_party_rows(&self, needed: usize) -> (r: bool)
        ensures
            r == self.host_rows_short(needed),
            !r <==> (self.host_party_rows_cap matches Some(cap) && cap >= needed),
    {
        match self.host_party_rows_cap {
            None => true,
            Some(cap) => cap < needed,
        }
    }

    /// Records the new pinned host buffer.
    pub fn host_party_rows_allocated(&mut self, needed: usize)
        ensures
            *final(self) == (AcssGemmCache { host_party_rows_cap: Some(needed), ..*old(self) }),
            !final(self).host_rows_short(needed),
    {
        self.host_party_rows_cap = Some(needed);
    }
}

#[derive(Debug, Clone, Copy, PartialEq, Eq, Structural)]
pub enum GpuDealerError {
    EmptyBatch,
}

/// Sizes of the buffers of one dealing.
#[derive(Debug, Clone, Copy, PartialEq, Eq, Structural)]
pub struct DealerLayout {
    pub num_polys: usize,
    pub n_coeffs: usize,
    /// Bytes of one party: its shares and the nonce.
    pub party_stride: usize,
    /// Where the nonce of a party starts.
    pub nonce_offset: usize,
    /// Bytes of all parties.
    pub total_rows_bytes: usize,
    /// Bytes of the nonce, blinding and blinding nonce values.
    pub nonce_bytes: usize,
    /// Bytes of the proof coefficients.
    pub dzk_bytes: usize,
}

/// Bytes of one party for `num_polys` secrets.
pub open spec fn stride(num_polys: int) -> int {
    8 * num_polys + 8
}

/// The sizes for `num_secrets` secrets. An empty batch is refused.
pub fn dealer_layout(num_secrets: usize, num_faults: usize, num_nodes: usize) -> (r: Result<
    DealerLayout,
    GpuDealerError,
>)
    requires
        stride(num_secrets as int) <= usize::MAX,
        num_nodes * stride(num_secrets as int) <= usize::MAX,
        24 * num_nodes <= usize::MAX,
        8 * (num_faults + 1) <= usize::MAX,
    ensures
        r is Ok <==> num_secrets > 0,
        r matches Err(e) ==> e == GpuDealerError::EmptyBatch,
        r matches Ok(l) ==> {
            &&& l.num_polys == num_secrets
            &&& l.n_coeffs == num_faults + 1
            &&& l.party_stride == stride(num_secrets as int)
            &&& l.nonce_offset == 8 * num_secrets
            &&& l.total_rows_bytes == num_nodes * stride(num_secrets as int)
            &&& l.nonce_bytes == 24 * num_nodes
            &&& l.dzk_bytes == 8 * (num_faults + 1)
        },
        r matches Ok(l) ==> l.party_stride == 8 * num_secrets + 8 && l.total_rows_bytes == num_nodes
            * (8 * num_secrets + 8),
{
    if num_secrets == 0 {
        return Err(GpuDealerError::EmptyBatch);
    }
    let nonce_offset: usize = num_secrets * 8;
    let party_stride: usize = nonce_offset + 8;
    Ok(
        DealerLayout {
            num_polys: num_secrets,
            n_coeffs: num_faults + 1,
            party_stride,
            nonce_offset,
            total_rows_bytes: num_nodes * party_stride,
            nonce_bytes: num_nodes * 24,
            dzk_bytes: (num_faults + 1) * 8,
        },
    )
}

/// The bytes whose hash commits to the shares of each party: the packed rows
/// as they come from the device. The buffer may be larger: what an earlier
/// batch has left behind them is not read.
pub fn party_rows(rows: &[u8], num_polys: usize, num_nodes: usize) -> (r: Vec<Vec<u8>>)
    requires
        stride(num_polys as int) <= usize::MAX,
        rows@.len() >= num_nodes * stride(num_polys as int),
    ensures
        types::sers(r@) == pieces(rows@, 0, stride(num_polys as int), num_nodes as nat),
        r@.len() == num_nodes,
        forall|i: int|
            0 <= i < num_nodes ==> (#[trigger] r@[i])@ == rows@.subrange(
                i * (8 * num_polys + 8),
                i * (8 * num_polys + 8) + (8 * num_polys + 8),
            ),
{
    let r = cut(rows, 0, num_polys * 8 + 8, num_nodes);
    proof {
        let want = pieces(rows@, 0, stride(num_polys as int), num_nodes as nat);
        assert(types::sers(r@).len() == r@.len());
        assert forall|i: int| 0 <= i < num_nodes implies (#[trigger] r@[i])@ == rows@.subrange(
            i * (8 * num_polys + 8),
            i * (8 * num_polys + 8) + (8 * num_polys + 8),
        ) by {
            assert(types::sers(r@)[i] == want[i]);
        }
    }
    r
}

/// The two hash inputs that commit to each party's blinding share. The values
/// are the nonces of all parties, then the blinding shares, then the blinding
/// nonces.
pub fn blinding_hash_inputs(nonce_evals_be: &Vec<u8>, num_nodes: usize) -> (r: Vec<(Digest, Digest)>)
    requires
        nonce_evals_be@.len() == 24 * num_nodes,
    ensures
        r@.len() == num_nodes,
        forall|i: int|
            0 <= i < num_nodes ==> (#[trigger] r@[i]).0@ == types::hash_input(
                piece(nonce_evals_be@, 8 * num_nodes, 8, i),
            ) && r@[i].1@ == types::hash_input(piece(nonce_evals_be@, 16 * num_nodes, 8, i)),
{
    let total: usize = nonce_evals_be.len();
    let blinding = cut(nonce_evals_be.as_slice(), total / 3, 8, num_nodes);
    let blinding_nonce = cut(nonce_evals_be.as_slice(), total / 3 + total / 3, 8, num_nodes);
    let mut out: Vec<(Digest, Digest)> = Vec::new();
    assert(types::sers(blinding@).len() == num_nodes);
    assert(types::sers(blinding_nonce@).len() == num_nodes);
    for i in 0..num_nodes
        invariant
            blinding@.len() == num_nodes,
            blinding_nonce@.len() == num_nodes,
            types::sers(blinding@) == pieces(
                nonce_evals_be@,
                8 * num_nodes,
                8,
                num_nodes as nat,
            ),
            types::sers(blinding_nonce@) == pieces(
                nonce_evals_be@,
                16 * num_nodes,
                8,
                num_nodes as nat,
            ),
            out@.len() == i,
            forall|k: int|
                0 <= k < i ==> (#[trigger] out@[k]).0@ == types::hash_input(
                    piece(nonce_evals_be@, 8 * num_nodes, 8, k),
                ) && out@[k].1@ == types::hash_input(piece(nonce_evals_be@, 16 * num_nodes, 8, k)),
    {
        assert(types::sers(blinding@)[i as int] == blinding@[i as int]@);
        assert(types::sers(blinding_nonce@)[i as int] == blinding_nonce@[i as int]@);
        out.push(
            (
                types::field_bytes_to_hash_input(blinding[i].as_slice()),
                types::field_bytes_to_hash_input(blinding_nonce[i].as_slice()),
            ),
        );
    }
    out
}

/// The weights `r, r^2, ..` of the sharing polynomials in the proof.
pub fn challenge_powers(challenge: LargeField, num_polys: usize) -> (r: Vec<LargeField>)
    ensures
        r@.len() == num_polys,
        forall|j: int|
            0 <= j < num_polys ==> (#[trigger] r@[j])@ == field::fpow(challenge@, (j + 1) as nat),
{
    let mut powers: Vec<LargeField> = Vec::new();
    let mut acc = challenge;
    proof {
        assert(field::fpow(challenge@, 0) == 1);
        assert(challenge@ * 1 == challenge@);
        field::lemma_view_range(challenge);
        lemma_small_mod(challenge@ as nat, field::p() as nat);
    }
    for j in 0..num_polys
        invariant
            acc@ == field::fpow(challenge@, (j + 1) as nat),
            powers@.len() == j,
            forall|k: int|
                0 <= k < j ==> (#[trigger] powers@[k])@ == field::fpow(
                    challenge@,
                    (k + 1) as nat,
                ),
    {
        powers.push(acc);
        proof {
            lemma_mul_is_commutative(challenge@, acc@);
        }
        acc = acc.mul(challenge);
    }
    powers
}

/// The serialized shares in the packed row of party `i`.
pub open spec fn row_shares(rows: Seq<u8>, num_polys: nat, i: int) -> Seq<Seq<u8>> {
    pieces(rows, i * stride(num_polys as int), 8, num_polys)
}

/// Whether the artifacts are cut out of what came from the device.
pub open spec fn split_from(
    r: DealerArtifacts,
    rows: Seq<u8>,
    nonce_evals_be: Seq<u8>,
    dzk_be: Seq<u8>,
    num_polys: nat,
    n_coeffs: nat,
    n: nat,
) -> bool {
    &&& r.party_wise_shares@.len() == n
    &&& forall|i: int|
        0 <= i < n ==> types::sers((#[trigger] r.party_wise_shares@[i])@) == row_shares(
            rows,
            num_polys,
            i,
        )
    &&& types::sers(r.nonce_evals_ser@) == pieces(nonce_evals_be, 0, 8, n)
    &&& types::sers(r.blinding_nonce_evals_ser@) == pieces(nonce_evals_be, 16 * n as int, 8, n)
    &&& types::sers(r.ser_dzk_coeffs@) == pieces(dzk_be, 0, 8, n_coeffs)
}

/// Splits what came from the device into the dealer's artifacts. `rows` are
/// the packed rows of all parties, in a buffer that may be larger, `nonce_evals_be` the nonce, blinding and
/// blinding nonce values, `dzk_be` the proof coefficients, all in wire layout.
pub fn dealer_core_gpu(
    rows: &[u8],
    nonce_evals_be: &Vec<u8>,
    dzk_be: &Vec<u8>,
    layout: DealerLayout,
    num_nodes: usize,
    commitments: Vec<Digest>,
    blinding_commitments: Vec<Digest>,
) -> (r: DealerArtifacts)
    requires
        stride(layout.num_polys as int) <= usize::MAX,
        rows@.len() >= num_nodes * stride(layout.num_polys as int),
        nonce_evals_be@.len() == 24 * num_nodes,
        dzk_be@.len() == 8 * layout.n_coeffs,
    ensures
        split_from(
            r,
            rows@,
            nonce_evals_be@,
            dzk_be@,
            layout.num_polys as nat,
            layout.n_coeffs as nat,
            num_nodes as nat,
        ),
        r.commitments == commitments,
        r.blinding_commitments == blinding_commitments,
{
    let num_polys: usize = layout.num_polys;
    let width: usize = num_polys * 8 + 8;
    let mut party_wise_shares: Vec<Vec<LargeFieldSer>> = Vec::new();
    let mut at: usize = 0;
    assert(0 * width == 0) by (nonlinear_arith);
    for i in 0..num_nodes
        invariant
            width == stride(num_polys as int),
            rows.len() >= num_nodes * width,
            at == i * width,
            party_wise_shares@.len() == i,
            forall|k: int|
                0 <= k < i ==> types::sers((#[trigger] party_wise_shares@[k])@) == row_shares(
                    rows@,
                    num_polys as nat,
                    k,
                ),
    {
        proof {
            assert((i + 1) * width <= num_nodes * width) by (nonlinear_arith)
                requires
                    i < num_nodes,
            ;
            assert((i + 1) * width == i * width + width) by (nonlinear_arith);
        }
        party_wise_shares.push(cut(rows, at, 8, num_polys));
        at = at + width;
    }
    let total: usize = nonce_evals_be.len();
    let nonce_evals_ser = cut(nonce_evals_be.as_slice(), 0, 8, num_nodes);
    assert(total / 3 + total / 3 == 16 * num_nodes);
    let blinding_nonce_evals_ser = cut(nonce_evals_be.as_slice(), total / 3 + total / 3, 8, num_nodes);
    let ser_dzk_coeffs = cut(dzk_be.as_slice(), 0, 8, layout.n_coeffs);
    DealerArtifacts {
        party_wise_shares,
        nonce_evals_ser,
        blinding_nonce_evals_ser,
        commitments,
        blinding_commitments,
        ser_dzk_coeffs,
    }
}

/// Where a part of width eight is found among others.
proof fn lemma_concat_piece(parts: Seq<Seq<u8>>, rest: Seq<u8>, j: int)
    requires
        forall|k: int| 0 <= k < parts.len() ==> (#[trigger] parts[k]).len() == 8,
        0 <= j < parts.len(),
    ensures
        wire::concat(parts).len() == 8 * parts.len(),
        (wire::concat(parts) + rest).subrange(8 * j, 8 * j + 8) == parts[j],
    decreases parts.len(),
{
    let front = parts.drop_last();
    assert(parts =~= front.push(parts.last()));
    wire::lemma_concat_push(front, parts.last());
    lemma_concat_len(front);
    lemma_concat_len(parts);
    if j < front.len() {
        lemma_concat_piece(front, parts.last() + rest, j);
        assert(wire::concat(parts) + rest =~= wire::concat(front) + (parts.last() + rest));
    } else {
        assert((wire::concat(parts) + rest).subrange(8 * j, 8 * j + 8) =~= parts[j]);
    }
}

proof fn lemma_concat_len(parts: Seq<Seq<u8>>)
    requires
        forall|k: int| 0 <= k < parts.len() ==> (#[trigger] parts[k]).len() == 8,
    ensures
        wire::concat(parts).len() == 8 * parts.len(),
    decreases parts.len(),
{
    if parts.len() > 0 {
        let rest = parts.drop_first();
        assert forall|k: int| 0 <= k < rest.len() implies (#[trigger] rest[k]).len() == 8 by {
            assert(rest[k] == parts[k + 1]);
        }
        assert(parts[0].len() == 8);
        lemma_concat_len(rest);
    }
}

/// The device computes the shares: interpolating a row with the interpolation
/// matrix and multiplying the coefficients with the powers of a party's point
/// gives the value of the sharing polynomial there.
pub proof fn lemma_device_shares(
    row: Seq<int>,
    t: nat,
    inv: Seq<Seq<int>>,
    coefficients: Seq<int>,
    i: int,
)
    requires
        t < field::p(),
        row.len() == t + 1,
        polynomial::all_reduced(row),
        polynomial::interpolation_matrix(inv, dealer::sharing_points(t)),
        coefficients.len() == t + 1,
        forall|c: int|
            0 <= c < coefficients.len() ==> #[trigger] coefficients[c] == polynomial::dot(
                inv[c],
                row,
            ) % field::p(),
    ensures
        polynomial::trimmed(coefficients) == dealer::sharing_polynomial(row, t),
        polynomial::dot(polynomial::powers(dealer::party_point(i), t + 1), coefficients)
            % field::p() == polynomial::feval(
            dealer::sharing_polynomial(row, t),
            dealer::party_point(i),
        ),
{
    let xs = dealer::sharing_points(t);
    let x = dealer::party_point(i);
    polynomial::lemma_interpolation_matrix(inv, xs, row, coefficients);
    dealer::lemma_sharing_points(t);
    polynomial::lemma_interpolant(coefficients, xs, row);
    polynomial::lemma_dot_powers(x, t + 1, coefficients);
    polynomial::lemma_trimmed_eval(coefficients, x);
}

/// Both dealers send the same shares: where the device packed for each party
/// what the host dealer hashes, the split rows are the host dealer's shares.
pub proof fn lemma_share_parity(
    evaluations: Seq<Vec<LargeField>>,
    nonces: Seq<LargeField>,
    rows: Seq<u8>,
    n: nat,
    i: int,
)
    requires
        0 <= i < n,
        rows.len() >= n * stride(evaluations.len() as int),
        piece(rows, 0, stride(evaluations.len() as int), i) == dealer::commitment_input(
            evaluations,
            nonces,
            i,
        ),
    ensures
        row_shares(rows, evaluations.len(), i) == dealer::party_shares(evaluations, i),
{
    let k = evaluations.len();
    let w = stride(k as int);
    let shares = dealer::party_shares(evaluations, i);
    let input = dealer::commitment_input(evaluations, nonces, i);
    assert forall|j: int| 0 <= j < shares.len() implies (#[trigger] shares[j]).len() == 8 by {
        field::lemma_view_range(evaluations[j]@[i]);
        types::lemma_element_round_trip(evaluations[j]@[i]@);
    }
    assert((i + 1) * w <= n * w) by (nonlinear_arith)
        requires
            i < n,
            0 <= w,
    ;
    assert((i + 1) * w == i * w + w) by (nonlinear_arith);
    assert(0 <= i * w) by (nonlinear_arith)
        requires
            0 <= i,
            0 <= w,
    ;
    assert forall|j: int| 0 <= j < k implies piece(rows, i * w, 8, j) == shares[j] by {
        lemma_concat_piece(shares, types::ser(nonces[i]@), j);
        assert(piece(rows, i * w, 8, j) =~= input.subrange(8 * j, 8 * j + 8));
    }
    assert(row_shares(rows, k, i) =~= shares);
}

/// Both dealers send the same nonces and commit to the same blinding shares:
/// the three kinds of values are found where they are cut.
pub proof fn lemma_nonce_parity(
    nonces: Seq<int>,
    blinding: Seq<int>,
    blinding_nonces: Seq<int>,
    bytes: Seq<u8>,
)
    requires
        blinding.len() == nonces.len(),
        blinding_nonces.len() == nonces.len(),
        polynomial::all_reduced(nonces),
        polynomial::all_reduced(blinding),
        polynomial::all_reduced(blinding_nonces),
        bytes == wire::concat(dealer::ser_all(nonces + blinding + blinding_nonces)),
    ensures
        pieces(bytes, 0, 8, nonces.len()) == dealer::ser_all(nonces),
        pieces(bytes, 8 * nonces.len() as int, 8, nonces.len()) == dealer::ser_all(blinding),
        pieces(bytes, 16 * nonces.len() as int, 8, nonces.len()) == dealer::ser_all(
            blinding_nonces,
        ),
{
    let n = nonces.len() as int;
    let all = nonces + blinding + blinding_nonces;
    let parts = dealer::ser_all(all);
    let none = Seq::<u8>::empty();
    assert forall|k: int| 0 <= k < parts.len() implies (#[trigger] parts[k]).len() == 8 by {
        assert(0 <= all[k] < field::p()) by {
            if k < n {
                assert(all[k] == nonces[k]);
            } else if k < 2 * n {
                assert(all[k] == blinding[k - n]);
            } else {
                assert(all[k] == blinding_nonces[k - 2 * n]);
            }
        }
        types::lemma_element_round_trip(all[k]);
    }
    assert(bytes + none =~= bytes);
    let first = pieces(bytes, 0, 8, nonces.len());
    let second = pieces(bytes, 8 * n, 8, nonces.len());
    let third = pieces(bytes, 16 * n, 8, nonces.len());
    assert forall|i: int| 0 <= i < n implies first[i] == dealer::ser_all(nonces)[i] && second[i]
        == dealer::ser_all(blinding)[i] && third[i] == dealer::ser_all(blinding_nonces)[i] by {
        lemma_concat_piece(parts, none, i);
        lemma_concat_piece(parts, none, n + i);
        lemma_concat_piece(parts, none, 2 * n + i);
        assert(all[i] == nonces[i]);
        assert(all[n + i] == blinding[i]);
        assert(all[2 * n + i] == blinding_nonces[i]);
    }
    assert(first =~= dealer::ser_all(nonces));
    assert(second =~= dealer::ser_all(blinding));
    assert(third =~= dealer::ser_all(blinding_nonces));
}

/// Coefficient `c` of the proof on the device, before reduction:
/// `blind[c] + r * rows[0][c] + r^2 * rows[1][c] + ..`.
pub open spec fn device_proof(blind: Seq<int>, rows: Seq<Seq<int>>, r: int, k: nat, c: int) -> int
    decreases k,
{
    if k == 0 {
        blind[c]
    } else {
        device_proof(blind, rows, r, (k - 1) as nat, c) + rows[k - 1][c] * field::fpow(r, k)
    }
}

proof fn lemma_device_proof(
    blind: Seq<int>,
    rows: Seq<Seq<int>>,
    polys: Seq<Seq<int>>,
    r: int,
    m: nat,
    k: nat,
    c: int,
)
    requires
        k <= rows.len(),
        polys.len() == rows.len(),
        blind.len() == m,
        forall|j: int|
            0 <= j < rows.len() ==> (#[trigger] rows[j]).len() == m && polys[j]
                == polynomial::trimmed(rows[j]),
    ensures
        polynomial::coeff(
            dealer::proof_sum(polynomial::trimmed(blind), polys, r, k),
            c,
        ) == if 0 <= c < m {
            device_proof(blind, rows, r, k, c)
        } else {
            0
        },
    decreases k,
{
    polynomial::lemma_trimmed_coeff(blind, c);
    if k > 0 {
        let j = k - 1;
        lemma_device_proof(blind, rows, polys, r, m, j as nat, c);
        assert(rows[j].len() == m);
        polynomial::lemma_trimmed_coeff(rows[j], c);
        let w = field::fpow(r, k);
        let prev = dealer::proof_sum(polynomial::trimmed(blind), polys, r, j as nat);
        let term = polynomial::scaled(polys[j], w);
        assert(polynomial::coeff(term, c) == w * polynomial::coeff(polys[j], c)) by {
            assert(w * 0 == 0);
        }
        assert(polynomial::coeff(polynomial::poly_sum(prev, term), c) == polynomial::coeff(prev, c)
            + polynomial::coeff(term, c));
        if 0 <= c < m {
            lemma_mul_is_commutative(w, rows[j][c]);
        } else {
            assert(w * 0 == 0);
        }
    }
}

/// Both dealers send the same proof: the coefficients from the device are
/// those of the proof polynomial, apart from zeros at the end.
pub proof fn lemma_proof_parity(
    blind: Seq<int>,
    rows: Seq<Seq<int>>,
    polys: Seq<Seq<int>>,
    r: int,
    dzk: Seq<int>,
)
    requires
        rows.len() > 0,
        polys.len() == rows.len(),
        blind.len() == dzk.len(),
        forall|j: int|
            0 <= j < rows.len() ==> (#[trigger] rows[j]).len() == dzk.len() && polys[j]
                == polynomial::trimmed(rows[j]),
        forall|c: int|
            0 <= c < dzk.len() ==> #[trigger] dzk[c] == device_proof(
                blind,
                rows,
                r,
                rows.len(),
                c,
            ) % field::p(),
    ensures
        polynomial::trimmed(dzk) == dealer::proof_polynomial(polynomial::trimmed(blind), polys, r),
{
    let full = dealer::proof_sum(polynomial::trimmed(blind), polys, r, polys.len());
    let red = polynomial::reduced(full);
    assert forall|c: int| #[trigger] polynomial::coeff(dzk, c) == polynomial::coeff(red, c) by {
        lemma_device_proof(blind, rows, polys, r, dzk.len(), rows.len(), c);
        lemma_small_mod(0, field::p() as nat);
    }
    polynomial::lemma_trimmed_unique(dzk, red);
}

/// The product of a matrix and a vector on the device.
pub open spec fn device_product(matrix: Seq<Seq<int>>, vector: Seq<int>) -> Seq<int> {
    Seq::new(matrix.len(), |i: int| polynomial::dot(matrix[i], vector) % field::p())
}

/// The shares that the device computes for a row.
pub open spec fn device_shares(
    interpolation: Seq<Seq<int>>,
    powers: Seq<Seq<int>>,
    row: Seq<int>,
) -> Seq<int> {
    device_product(powers, device_product(interpolation, row))
}

/// The packed row of party `i`: its shares of all secrets and of the nonce.
pub open spec fn device_row(
    interpolation: Seq<Seq<int>>,
    powers: Seq<Seq<int>>,
    rows: Seq<Seq<int>>,
    nonce: Seq<int>,
    i: int,
) -> Seq<u8> {
    wire::concat(
        dealer::ser_all(
            Seq::new(rows.len(), |j: int| device_shares(interpolation, powers, rows[j])[i]),
        ),
    ) + types::ser(device_shares(interpolation, powers, nonce)[i])
}

/// The coefficients of the proof that the device computes for challenge `r`.
pub open spec fn device_dzk(
    interpolation: Seq<Seq<int>>,
    rows: Seq<Seq<int>>,
    blinding: Seq<int>,
    r: int,
) -> Seq<int> {
    Seq::new(
        interpolation.len(),
        |c: int|
            device_proof(
                device_product(interpolation, blinding),
                Seq::new(rows.len(), |j: int| device_product(interpolation, rows[j])),
                r,
                rows.len(),
                c,
            ) % field::p(),
    )
}

/// The device and the host compute the same shares of a row.
proof fn lemma_device_row_shares(
    interpolation: Seq<Seq<int>>,
    powers: Seq<Seq<int>>,
    row: Seq<int>,
    t: nat,
    n: nat,
)
    requires
        t < field::p(),
        matrices_for(interpolation, powers, t, n),
        row.len() == t + 1,
        polynomial::all_reduced(row),
    ensures
        device_shares(interpolation, powers, row) == dealer::share_row(row, t, n),
        polynomial::trimmed(device_product(interpolation, row)) == dealer::sharing_polynomial(
            row,
            t,
        ),
        device_product(interpolation, row).len() == t + 1,
{
    let coefficients = device_product(interpolation, row);
    let shares = device_shares(interpolation, powers, row);
    assert forall|i: int| 0 <= i < n implies shares[i] == dealer::share_row(row, t, n)[i] by {
        lemma_device_shares(row, t, interpolation, coefficients, i);
        assert(powers[i] == polynomial::powers(dealer::party_point(i), t + 1));
    }
    lemma_device_shares(row, t, interpolation, coefficients, 0);
    assert(shares =~= dealer::share_row(row, t, n));
}

/// Elements that were serialized one after another are found where they are
/// cut.
proof fn lemma_cut_elements(values: Seq<int>)
    requires
        polynomial::all_reduced(values),
    ensures
        pieces(wire::concat(dealer::ser_all(values)), 0, 8, values.len()) == dealer::ser_all(
            values,
        ),
{
    let parts = dealer::ser_all(values);
    let bytes = wire::concat(parts);
    let none = Seq::<u8>::empty();
    assert forall|k: int| 0 <= k < parts.len() implies (#[trigger] parts[k]).len() == 8 by {
        types::lemma_element_round_trip(values[k]);
    }
    assert(bytes + none =~= bytes);
    assert forall|i: int| 0 <= i < values.len() implies pieces(bytes, 0, 8, values.len())[i]
        == parts[i] by {
        lemma_concat_piece(parts, none, i);
    }
    assert(pieces(bytes, 0, 8, values.len()) =~= parts);
}

/// Both dealers hash the same bytes: where the matrices on the device are those
/// for the numbers of faults and parties, its packed row of a party is what the
/// host dealer commits to.
pub proof fn lemma_commitment_parity(
    rows: Seq<Seq<int>>,
    nonce: Seq<int>,
    blinding: Seq<int>,
    blinding_nonce: Seq<int>,
    t: nat,
    n: nat,
    interpolation: Seq<Seq<int>>,
    powers: Seq<Seq<int>>,
    polynomials: DealerPolynomials,
    i: int,
)
    requires
        t < field::p(),
        forall|j: int|
            0 <= j < rows.len() ==> (#[trigger] rows[j]).len() == t + 1 && polynomial::all_reduced(
                rows[j],
            ),
        nonce.len() == t + 1 && polynomial::all_reduced(nonce),
        matrices_for(interpolation, powers, t, n),
        dealer::dealt_from(polynomials, rows, nonce, blinding, blinding_nonce, t, n),
        0 <= i < n,
    ensures
        device_row(interpolation, powers, rows, nonce, i) == dealer::commitment_input(
            polynomials.evaluations@,
            polynomials.nonce_evaluations@,
            i,
        ),
{
    let on_device = Seq::new(
        rows.len(),
        |j: int| device_shares(interpolation, powers, rows[j])[i],
    );
    let shares = dealer::party_shares(polynomials.evaluations@, i);
    assert forall|j: int| 0 <= j < rows.len() implies #[trigger] dealer::ser_all(on_device)[j]
        == shares[j] by {
        lemma_device_row_shares(interpolation, powers, rows[j], t, n);
        let host = polynomials.evaluations@[j]@;
        assert(field::vals(host) == dealer::share_row(rows[j], t, n));
        assert(field::vals(host)[i] == host[i]@);
    }
    assert(dealer::ser_all(on_device) =~= shares);
    lemma_device_row_shares(interpolation, powers, nonce, t, n);
    assert(field::vals(polynomials.nonce_evaluations@)[i]
        == polynomials.nonce_evaluations@[i]@);
}

/// Whether the digests are the hashes of the parties' bytes.
pub open spec fn hashes_of(
    digests: Seq<Seq<u8>>,
    inputs: Seq<Seq<u8>>,
    hash: spec_fn(Seq<u8>) -> Seq<u8>,
) -> bool {
    digests == Seq::new(inputs.len(), |i: int| hash(inputs[i]))
}

/// Whether the digests are the hashes of pairs of elements, each widened to the
/// width of a digest.
pub open spec fn pair_hashes_of(
    digests: Seq<Seq<u8>>,
    one: Seq<Seq<u8>>,
    two: Seq<Seq<u8>>,
    hash_two: spec_fn(Seq<u8>, Seq<u8>) -> Seq<u8>,
) -> bool {
    digests == Seq::new(
        one.len(),
        |i: int| hash_two(types::hash_input(one[i]), types::hash_input(two[i])),
    )
}

/// Both dealers give the same artifacts. `host` are those of the host dealer
/// and `device` those that were cut out of the device's packed rows, nonce
/// values and proof coefficients, all for the same pseudo-random rows and with
/// the same hash functions. Then shares, nonces and commitments agree byte for
/// byte, and so do the proof coefficients apart from zeros that the host dealer
/// drops at the end. The device state may be any that its operations lead to, as
/// long as it is set for `t` and `n`, and the buffer of the rows may hold more
/// than them: what was dealt before makes no difference.
pub proof fn lemma_dealer_parity(
    rows: Seq<Seq<int>>,
    nonce: Seq<int>,
    blinding: Seq<int>,
    blinding_nonce: Seq<int>,
    t: nat,
    n: nat,
    cache: AcssGemmCache,
    polynomials: DealerPolynomials,
    host: DealerArtifacts,
    packed: Seq<u8>,
    nonce_bytes: Seq<u8>,
    dzk_bytes: Seq<u8>,
    device: DealerArtifacts,
    hash: spec_fn(Seq<u8>) -> Seq<u8>,
    hash_two: spec_fn(Seq<u8>, Seq<u8>) -> Seq<u8>,
    root: spec_fn(Seq<Seq<u8>>, Seq<Seq<u8>>) -> Seq<u8>,
)
    requires
        t < field::p(),
        rows.len() > 0,
        forall|j: int|
            0 <= j < rows.len() ==> (#[trigger] rows[j]).len() == t + 1 && polynomial::all_reduced(
                rows[j],
            ),
        nonce.len() == t + 1 && polynomial::all_reduced(nonce),
        blinding.len() == t + 1 && polynomial::all_reduced(blinding),
        blinding_nonce.len() == t + 1 && polynomial::all_reduced(blinding_nonce),
        // The host dealer.
        dealer::dealt_from(polynomials, rows, nonce, blinding, blinding_nonce, t, n),
        hashes_of(
            types::digests(host.commitments@),
            Seq::new(
                n,
                |i: int|
                    dealer::commitment_input(
                        polynomials.evaluations@,
                        polynomials.nonce_evaluations@,
                        i,
                    ),
            ),
            hash,
        ),
        pair_hashes_of(
            types::digests(host.blinding_commitments@),
            dealer::ser_all(field::vals(polynomials.blinding_poly_evaluations@)),
            dealer::ser_all(field::vals(polynomials.nonce_blinding_poly_evaluations@)),
            hash_two,
        ),
        dealer::packed_from(
            host,
            polynomials,
            n,
            root(
                types::digests(host.commitments@),
                types::digests(host.blinding_commitments@),
            ),
        ),
        // The device dealer.
        cache.wf(),
        cache.key matches Some(k) && k.0 == t && k.1 == n,
        packed.len() >= n * stride(rows.len() as int),
        forall|i: int|
            0 <= i < n ==> #[trigger] piece(packed, 0, stride(rows.len() as int), i) == device_row(
                cache.resident@.0,
                cache.resident@.1,
                rows,
                nonce,
                i,
            ),
        nonce_bytes == limb_swapped(
            gpu_ffi::native_row(
                device_shares(cache.resident@.0, cache.resident@.1, nonce) + device_shares(
                    cache.resident@.0,
                    cache.resident@.1,
                    blinding,
                ) + device_shares(cache.resident@.0, cache.resident@.1, blinding_nonce),
            ),
        ),
        hashes_of(
            types::digests(device.commitments@),
            pieces(packed, 0, stride(rows.len() as int), n),
            hash,
        ),
        pair_hashes_of(
            types::digests(device.blinding_commitments@),
            pieces(nonce_bytes, 8 * n as int, 8, n),
            pieces(nonce_bytes, 16 * n as int, 8, n),
            hash_two,
        ),
        dzk_bytes == wire::concat(
            dealer::ser_all(
                device_dzk(
                    cache.resident@.0,
                    rows,
                    blinding,
                    types::limb_fold(
                        root(
                            types::digests(device.commitments@),
                            types::digests(device.blinding_commitments@),
                        ),
                        0,
                    ),
                ),
            ),
        ),
        split_from(device, packed, nonce_bytes, dzk_bytes, rows.len(), t + 1, n),
    ensures
        host.party_wise_shares@.len() == n,
        device.party_wise_shares@.len() == n,
        forall|i: int|
            0 <= i < n ==> types::sers((#[trigger] device.party_wise_shares@[i])@) == types::sers(
                host.party_wise_shares@[i]@,
            ),
        types::sers(device.nonce_evals_ser@) == types::sers(host.nonce_evals_ser@),
        types::sers(device.blinding_nonce_evals_ser@) == types::sers(
            host.blinding_nonce_evals_ser@,
        ),
        types::digests(device.commitments@) == types::digests(host.commitments@),
        types::digests(device.blinding_commitments@) == types::digests(host.blinding_commitments@),
        host.ser_dzk_coeffs@.len() <= t + 1,
        types::sers(device.ser_dzk_coeffs@) == types::sers(host.ser_dzk_coeffs@) + Seq::new(
            (t + 1 - host.ser_dzk_coeffs@.len()) as nat,
            |c: int| types::ser(0),
        ),
{
    let (interpolation, powers) = cache.resident@;
    let w = stride(rows.len() as int);
    let nonce_values = device_shares(interpolation, powers, nonce);
    let blinding_values = device_shares(interpolation, powers, blinding);
    let blinding_nonce_values = device_shares(interpolation, powers, blinding_nonce);
    lemma_device_row_shares(interpolation, powers, nonce, t, n);
    lemma_device_row_shares(interpolation, powers, blinding, t, n);
    lemma_device_row_shares(interpolation, powers, blinding_nonce, t, n);
    poly::lemma_vals_reduced(polynomials.nonce_evaluations@);
    poly::lemma_vals_reduced(polynomials.blinding_poly_evaluations@);
    poly::lemma_vals_reduced(polynomials.nonce_blinding_poly_evaluations@);
    let auxiliary = nonce_values + blinding_values + blinding_nonce_values;
    assert forall|i: int| 0 <= i < auxiliary.len() implies 0 <= #[trigger] auxiliary[i]
        < field::p() by {
        if i < n {
            assert(auxiliary[i] == nonce_values[i]);
        } else if i < 2 * n {
            assert(auxiliary[i] == blinding_values[i - n]);
        } else {
            assert(auxiliary[i] == blinding_nonce_values[i - 2 * n]);
        }
    }
    lemma_swap_native(auxiliary);
    lemma_nonce_parity(nonce_values, blinding_values, blinding_nonce_values, nonce_bytes);
    let inputs = Seq::new(
        n,
        |i: int|
            dealer::commitment_input(
                polynomials.evaluations@,
                polynomials.nonce_evaluations@,
                i,
            ),
    );
    assert forall|i: int| 0 <= i < n implies #[trigger] pieces(packed, 0, w, n)[i] == inputs[i] by {
        lemma_commitment_parity(
            rows,
            nonce,
            blinding,
            blinding_nonce,
            t,
            n,
            interpolation,
            powers,
            polynomials,
            i,
        );
    }
    assert(pieces(packed, 0, w, n) =~= inputs);
    assert forall|i: int| 0 <= i < n implies types::sers(
        (#[trigger] device.party_wise_shares@[i])@,
    ) == types::sers(host.party_wise_shares@[i]@) by {
        assert(pieces(packed, 0, w, n)[i] == inputs[i]);
        lemma_share_parity(
            polynomials.evaluations@,
            polynomials.nonce_evaluations@,
            packed,
            n,
            i,
        );
    }
    let r = types::limb_fold(
        root(types::digests(device.commitments@), types::digests(device.blinding_commitments@)),
        0,
    );
    lemma_dzk_parity(rows, blinding, t, n, interpolation, powers, r);
    let on_device = device_dzk(interpolation, rows, blinding, r);
    let proof_coefficients = dealer::proof_polynomial(
        polynomials.blinding_poly_coefficients@,
        dealer::poly_vals(polynomials.coefficients@),
        r,
    );
    assert(dealer::poly_vals(polynomials.coefficients@) =~= Seq::new(
        rows.len(),
        |j: int| dealer::sharing_polynomial(rows[j], t),
    ));
    assert(proof_coefficients == polynomial::trimmed(on_device));
    lemma_cut_elements(on_device);
    polynomial::lemma_trimmed_eval(on_device, 0);
    assert(types::sers(host.ser_dzk_coeffs@).len() == host.ser_dzk_coeffs@.len());
    let filled = types::sers(host.ser_dzk_coeffs@) + Seq::new(
        (t + 1 - host.ser_dzk_coeffs@.len()) as nat,
        |c: int| types::ser(0),
    );
    assert forall|c: int| 0 <= c < t + 1 implies #[trigger] dealer::ser_all(on_device)[c]
        == filled[c] by {
        polynomial::lemma_trimmed_coeff(on_device, c);
        assert(polynomial::coeff(on_device, c) == on_device[c]);
    }
    assert(dealer::ser_all(on_device) =~= filled);
}

/// The device and the host combine the same proof, apart from zeros at the end.
proof fn lemma_dzk_parity(
    rows: Seq<Seq<int>>,
    blinding: Seq<int>,
    t: nat,
    n: nat,
    interpolation: Seq<Seq<int>>,
    powers: Seq<Seq<int>>,
    r: int,
)
    requires
        t < field::p(),
        rows.len() > 0,
        forall|j: int|
            0 <= j < rows.len() ==> (#[trigger] rows[j]).len() == t + 1 && polynomial::all_reduced(
                rows[j],
            ),
        blinding.len() == t + 1 && polynomial::all_reduced(blinding),
        matrices_for(interpolation, powers, t, n),
    ensures
        polynomial::trimmed(device_dzk(interpolation, rows, blinding, r))
            == dealer::proof_polynomial(
            dealer::sharing_polynomial(blinding, t),
            Seq::new(rows.len(), |j: int| dealer::sharing_polynomial(rows[j], t)),
            r,
        ),
        device_dzk(interpolation, rows, blinding, r).len() == t + 1,
        polynomial::all_reduced(device_dzk(interpolation, rows, blinding, r)),
{
    let dzk = device_dzk(interpolation, rows, blinding, r);
    let blind = device_product(interpolation, blinding);
    let coefficients = Seq::new(rows.len(), |j: int| device_product(interpolation, rows[j]));
    let polys = Seq::new(rows.len(), |j: int| dealer::sharing_polynomial(rows[j], t));
    lemma_device_row_shares(interpolation, powers, blinding, t, n);
    assert forall|j: int| 0 <= j < coefficients.len() implies (#[trigger] coefficients[j]).len()
        == dzk.len() && polys[j] == polynomial::trimmed(coefficients[j]) by {
        lemma_device_row_shares(interpolation, powers, rows[j], t, n);
    }
    assert forall|c: int| 0 <= c < dzk.len() implies 0 <= #[trigger] dzk[c] < field::p() by {
        lemma_mod_bound(device_proof(blind, coefficients, r, rows.len(), c), field::p());
    }
    lemma_proof_parity(blind, coefficients, polys, r, dzk);
}

} // verus!
