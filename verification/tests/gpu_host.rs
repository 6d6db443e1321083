use velox_mpc::acss::dealer::{
    blinding_commitment_inputs, commitment_inputs, commitments_and_dzk, dealer_core_cpu,
    DealerArtifacts, DealerPolynomials,
};
use velox_mpc::acss::init_gpu::{
    blinding_hash_inputs, challenge_powers, dealer_core_gpu, dealer_layout, party_rows,
    swap_limbs_le_be, AcssGemmCache, GemmMatrices, GpuDealerError,
};
use velox_mpc::field::{LargeField, MODULUS};
use velox_mpc::gpu_aes_ffi::{AesError, CudaAES};
use velox_mpc::gpu_ffi::{
    flatten_rows_le, gemm_operands, gpu_matrix_matrix_multiply, read_elem_bytes, write_elem_bytes,
    CudaBn254Gemm, GemmError,
};
use velox_mpc::gpu_mem::{copy_result, DeviceBuffer, EnsureAction, MemoryError, PinnedHostBuffer};
use velox_mpc::poly::{matrix_matrix_multiply, Polynomial};
use velox_mpc::types::{hash_to_field, Digest};

fn fe(x: u64) -> LargeField {
    LargeField::from_u64(x)
}

fn fes(xs: &[u64]) -> Vec<LargeField> {
    xs.iter().map(|x| fe(*x)).collect()
}

fn mix(mut x: u64) -> u64 {
    x = (x ^ (x >> 30)).wrapping_mul(0xbf58476d1ce4e5b9);
    x = (x ^ (x >> 27)).wrapping_mul(0x94d049bb133111eb);
    x ^ (x >> 31)
}

fn hash(bytes: &[u8]) -> Digest {
    let mut h = [1u64, 2, 3, 4];
    for chunk in bytes.chunks(8) {
        let mut w = [0u8; 8];
        w[..chunk.len()].copy_from_slice(chunk);
        let v = u64::from_le_bytes(w);
        for lane in 0..4 {
            h[lane] = mix(h[lane] ^ v).wrapping_add(lane as u64);
        }
    }
    let mut out = [0u8; 32];
    for lane in 0..4 {
        out[8 * lane..8 * lane + 8].copy_from_slice(&h[lane].to_be_bytes());
    }
    out
}

fn hash_two(a: &Digest, b: &Digest) -> Digest {
    hash(&[a.to_vec(), b.to_vec()].concat())
}

fn root(leaves: &[Digest]) -> Digest {
    hash(&leaves.concat())
}

fn row(secret: LargeField, tag: u64, t: usize) -> Vec<LargeField> {
    let mut r = vec![secret];
    for k in 0..t {
        r.push(fe(mix(tag * 1000 + k as u64)));
    }
    r
}

fn secret_rows(count: usize, t: usize) -> Vec<Vec<LargeField>> {
    (0..count).map(|i| row(fe((i as u64).wrapping_add(12345)), 100 + i as u64, t)).collect()
}

fn host_dealer(n: usize, num_polys: usize) -> DealerArtifacts {
    let t = (n - 1) / 3;
    let p: DealerPolynomials = dealer_core_cpu(
        secret_rows(num_polys, t),
        row(fe(11), 1, t),
        row(fe(22), 2, t),
        row(fe(33), 3, t),
        t,
        n,
    );
    let (_, inputs) = commitment_inputs(&p.evaluations, &p.nonce_evaluations, n);
    let commitments: Vec<Digest> = inputs.iter().map(|b| hash(b)).collect();
    let blinding: Vec<Digest> = blinding_commitment_inputs(
        &p.blinding_poly_evaluations,
        &p.nonce_blinding_poly_evaluations,
        n,
    )
    .iter()
    .map(|pair| hash_two(&pair.0, &pair.1))
    .collect();
    let root_comm = hash_two(&root(&commitments), &root(&blinding));
    commitments_and_dzk(p, n, commitments, blinding, &root_comm)
}

/// Stands in for the device: the two matrix products, the packing of the rows
/// and the combination of the proof.
struct Device {
    cache: AcssGemmCache,
    matrices: Option<GemmMatrices>,
    uploads: usize,
    /// The pinned buffer, which keeps what earlier batches left in it.
    pinned: Vec<u8>,
}

fn device() -> Device {
    Device { cache: AcssGemmCache::new(), matrices: None, uploads: 0, pinned: Vec::new() }
}

fn device_dealer(n: usize, num_polys: usize, dev: &mut Device) -> DealerArtifacts {
    let t = (n - 1) / 3;
    let layout = dealer_layout(num_polys, t, n).expect("not empty");
    assert_eq!(layout.party_stride, 8 * num_polys + 8);
    if let Some(m) = dev.cache.ensure_matrices(t, n) {
        dev.cache.matrices_uploaded(t, n, &m);
        dev.matrices = Some(m);
        dev.uploads += 1;
    }
    let m = dev.matrices.as_ref().unwrap();
    let coeffs = matrix_matrix_multiply(&m.interpolation, &secret_rows(num_polys, t), false);
    let evals = matrix_matrix_multiply(&m.powers, &coeffs, false);
    let nonce_rows = vec![row(fe(11), 1, t), row(fe(22), 2, t), row(fe(33), 3, t)];
    let nonce_coeffs = matrix_matrix_multiply(&m.interpolation, &nonce_rows, false);
    let nonce_evals = matrix_matrix_multiply(&m.powers, &nonce_coeffs, false);

    let mut rows: Vec<u8> = Vec::new();
    for i in 0..n {
        for j in 0..num_polys {
            rows.extend(evals[j][i].to_bytes_be());
        }
        rows.extend(nonce_evals[0][i].to_bytes_be());
    }
    assert_eq!(rows.len(), layout.total_rows_bytes);
    if dev.cache.ensure_host_party_rows(rows.len()) {
        dev.cache.host_party_rows_allocated(rows.len());
        dev.pinned = vec![0xa5; rows.len()];
    }
    dev.pinned[..rows.len()].copy_from_slice(&rows);
    let rows = &dev.pinned;
    let mut nonce_be = flatten_rows_le(&nonce_evals);
    assert_eq!(nonce_be.len(), layout.nonce_bytes);
    swap_limbs_le_be(&mut nonce_be);

    let commitments: Vec<Digest> =
        party_rows(rows, num_polys, n).iter().map(|r| hash(r)).collect();
    let blinding: Vec<Digest> = blinding_hash_inputs(&nonce_be, n)
        .iter()
        .map(|pair| hash_two(&pair.0, &pair.1))
        .collect();
    let root_comm = hash_two(&root(&commitments), &root(&blinding));
    let powers = challenge_powers(hash_to_field(&root_comm), num_polys);
    let mut dzk: Vec<u8> = Vec::new();
    for c in 0..layout.n_coeffs {
        let mut acc = nonce_coeffs[1][c];
        for j in 0..num_polys {
            acc = acc.add(coeffs[j][c].mul(powers[j]));
        }
        dzk.extend(acc.to_bytes_be());
    }
    assert_eq!(dzk.len(), layout.dzk_bytes);
    dealer_core_gpu(rows, &nonce_be, &dzk, layout, n, commitments, blinding)
}

fn parse_coeffs(ser: &[Vec<u8>]) -> Vec<LargeField> {
    ser.iter().map(|c| LargeField::from_bytes_be(c).unwrap()).collect()
}

fn assert_artifacts_match(cpu: &DealerArtifacts, gpu: &DealerArtifacts, label: &str) {
    assert_eq!(
        cpu.party_wise_shares, gpu.party_wise_shares,
        "{}: party_wise_shares mismatch",
        label
    );
    assert_eq!(cpu.nonce_evals_ser, gpu.nonce_evals_ser, "{}: nonce_evals mismatch", label);
    assert_eq!(
        cpu.blinding_nonce_evals_ser, gpu.blinding_nonce_evals_ser,
        "{}: blinding_nonce_evals mismatch",
        label
    );
    assert_eq!(cpu.commitments, gpu.commitments, "{}: commitments mismatch", label);
    assert_eq!(
        cpu.blinding_commitments, gpu.blinding_commitments,
        "{}: blinding_commitments mismatch",
        label
    );
    // The host dealer trims trailing zeros of the proof coefficients.
    let mut dzk_cpu = parse_coeffs(&cpu.ser_dzk_coeffs);
    let mut dzk_gpu = parse_coeffs(&gpu.ser_dzk_coeffs);
    let len = dzk_cpu.len().max(dzk_gpu.len());
    dzk_cpu.resize(len, LargeField::zero());
    dzk_gpu.resize(len, LargeField::zero());
    assert_eq!(dzk_cpu, dzk_gpu, "{}: dzk coefficients mismatch", label);
}

#[test]
fn dealer_parity_across_sizes() {
    for &(n, num_polys) in &[(4usize, 1usize), (4, 100), (16, 100), (16, 4096)] {
        let mut dev = device();
        let cpu = host_dealer(n, num_polys);
        let gpu = device_dealer(n, num_polys, &mut dev);
        assert_artifacts_match(&cpu, &gpu, &format!("n={} polys={}", n, num_polys));
    }
}

#[test]
fn dealer_parity_large_batch() {
    let mut dev = device();
    let cpu = host_dealer(16, 100_000);
    let gpu = device_dealer(16, 100_000, &mut dev);
    assert_artifacts_match(&cpu, &gpu, "n=16 polys=100000");
}

#[test]
fn dealer_parity_with_cache_reuse() {
    let mut dev = device();
    for &num_polys in &[64usize, 4096, 128] {
        let cpu = host_dealer(16, num_polys);
        let gpu = device_dealer(16, num_polys, &mut dev);
        assert_artifacts_match(&cpu, &gpu, &format!("cache-reuse polys={}", num_polys));
    }
    // The matrices were uploaded once, the host buffer has its largest size.
    assert_eq!(dev.uploads, 1);
    assert_eq!(dev.cache.host_party_rows_cap, Some(16 * (8 * 4096 + 8)));
}

#[test]
fn gpu_dealer_passes_cpu_verifier() {
    let n = 16usize;
    let num_polys = 500usize;
    let mut dev = device();
    let gpu = device_dealer(n, num_polys, &mut dev);
    let root_comm = hash_two(&root(&gpu.commitments), &root(&gpu.blinding_commitments));
    let root_comm_fe = hash_to_field(&root_comm);
    let dzk_poly = Polynomial::new(parse_coeffs(&gpu.ser_dzk_coeffs).as_slice());
    for i in 0..n {
        let mut appended = Vec::new();
        for share in &gpu.party_wise_shares[i] {
            appended.extend_from_slice(share);
        }
        appended.extend_from_slice(&gpu.nonce_evals_ser[i]);
        assert_eq!(hash(&appended), gpu.commitments[i], "party {}: share commitment rejected", i);

        let dzk_point = dzk_poly.evaluate(&fe((i + 1) as u64));
        let mut agg = LargeField::zero();
        let mut r_pow = root_comm_fe;
        for share in &gpu.party_wise_shares[i] {
            let share_fe = LargeField::from_bytes_be(share).unwrap();
            agg = agg.add(share_fe.mul(r_pow));
            r_pow = r_pow.mul(root_comm_fe);
        }
        let widen = |b: &[u8]| {
            let mut d = [0u8; 32];
            d[24..].copy_from_slice(b);
            d
        };
        let blinding_hash = hash_two(
            &widen(&dzk_point.sub(agg).to_bytes_be()),
            &widen(&gpu.blinding_nonce_evals_ser[i]),
        );
        assert_eq!(blinding_hash, gpu.blinding_commitments[i], "party {}: DZK proof rejected", i);
    }
}

#[test]
fn empty_batch_is_refused() {
    assert_eq!(dealer_layout(0, 1, 4), Err(GpuDealerError::EmptyBatch));
}

#[test]
fn cache_rebuilds_for_other_parameters() {
    let mut cache = AcssGemmCache::new();
    let m = cache.ensure_matrices(1, 4).expect("nothing resident");
    assert_eq!(m.powers, vec![fes(&[1, 1]), fes(&[1, 2]), fes(&[1, 3]), fes(&[1, 4])]);
    assert_eq!(m.interpolation, vec![fes(&[1, 0]), fes(&[MODULUS - 1, 1])]);
    // Nothing is resident until the upload is reported.
    assert!(cache.ensure_matrices(1, 4).is_some());
    cache.matrices_uploaded(1, 4, &m);
    assert!(cache.ensure_matrices(1, 4).is_none());
    assert!(cache.ensure_matrices(2, 7).is_some());
    assert!(cache.ensure_matrices(1, 4).is_some());
    assert!(cache.ensure_host_party_rows(0));
    cache.host_party_rows_allocated(10);
    assert!(!cache.ensure_host_party_rows(10));
    assert!(cache.ensure_host_party_rows(11));
}

#[test]
fn limb_swap_is_an_involution() {
    let mut b: Vec<u8> = (0..24).collect();
    swap_limbs_le_be(&mut b);
    assert_eq!(b[..8].to_vec(), vec![7, 6, 5, 4, 3, 2, 1, 0]);
    assert_eq!(b[16..].to_vec(), vec![23, 22, 21, 20, 19, 18, 17, 16]);
    swap_limbs_le_be(&mut b);
    assert_eq!(b, (0..24).collect::<Vec<u8>>());
    let mut flat = flatten_rows_le(&[fes(&[1, 2]), fes(&[3, MODULUS - 1])]);
    swap_limbs_le_be(&mut flat);
    let wire: Vec<u8> =
        fes(&[1, 2, 3, MODULUS - 1]).iter().flat_map(|x| x.to_bytes_be()).collect();
    assert_eq!(flat, wire);
}

#[test]
fn device_layout_is_little_endian() {
    let mut buf = vec![9u8];
    write_elem_bytes(&fe(0x0102), &mut buf);
    assert_eq!(buf, vec![9, 2, 1, 0, 0, 0, 0, 0, 0]);
    assert_eq!(read_elem_bytes(&buf[1..]), fe(0x0102));
    assert_eq!(read_elem_bytes(&[255; 8]), fe(7));
}

#[test]
fn ctx_init_and_drop() {
    // Takes over a context by its address, then drops it.
    let _gemm = CudaBn254Gemm::new(1).expect("CUDA init failed (no GPU?)");
}

#[test]
fn product_context_checks_lengths() {
    assert_eq!(CudaBn254Gemm::new(0).err(), Some(GemmError::InitFailed));
    let mut g = CudaBn254Gemm::new(64).unwrap();
    assert_eq!((g.ctx.address, g.k, g.n), (64, 0, 0));
    assert_eq!(g.set_matrix(&[0; 48], 2, 3), Ok(()));
    assert_eq!(g.set_matrix(&[0; 47], 2, 3), Err(GemmError::WrongLength { expected: 48, got: 47 }));
    assert_eq!(g.set_matrix(&[], usize::MAX, 2), Err(GemmError::Overflow));
    assert_eq!(g.matrix_uploaded(2, 3, 5), Err(GemmError::CallFailed { rc: 5 }));
    assert_eq!((g.k, g.n), (0, 0));
    assert_eq!(g.matrix_uploaded(2, 3, 0), Ok(()));
    assert_eq!((g.k, g.n), (2, 3));
    assert_eq!(g.compute(&[0; 120], 5), Ok(80));
    assert_eq!(g.compute(&[0; 119], 5), Err(GemmError::WrongLength { expected: 120, got: 119 }));
    assert_eq!(g.compute(&[], usize::MAX), Err(GemmError::Overflow));
    assert_eq!(g.compute_result(0, vec![1]), Ok(vec![1]));
    assert_eq!(g.compute_result(-1, vec![1]), Err(GemmError::CallFailed { rc: -1 }));
}

#[test]
fn device_product_matches_the_host() {
    let matrix = vec![fes(&[1, 2, 3]), fes(&[4, 5, MODULUS - 6])];
    let vectors = vec![fes(&[7, 8, 9]), fes(&[10, 11, 12]), fes(&[0, 0, 1]), fes(&[1, 0, 0])];
    let o = gemm_operands(&matrix, &vectors).unwrap();
    assert_eq!((o.rows, o.columns, o.batch), (2, 3, 4));
    assert_eq!(o.v_bytes.len(), 48);
    assert_eq!(o.s_bytes.len(), 96);
    assert_eq!(read_elem_bytes(&o.v_bytes[40..48]), fe(MODULUS - 6));
    let device = flatten_rows_le(&matrix_matrix_multiply(&matrix, &vectors, false));
    for row_major in [true, false] {
        let want = matrix_matrix_multiply(&matrix, &vectors, row_major);
        assert_eq!(gpu_matrix_matrix_multiply(&matrix, &vectors, row_major, Some(&device)), want);
        assert_eq!(gpu_matrix_matrix_multiply(&matrix, &vectors, row_major, None), want);
    }
    let ragged = vec![fes(&[1]), fes(&[1, 2])];
    assert!(gemm_operands(&ragged, &vectors).is_none());
    assert!(gpu_matrix_matrix_multiply(&ragged, &vectors, true, None).is_empty());
}

#[test]
fn device_buffer_grows_only_when_needed() {
    let mut b = DeviceBuffer::new();
    assert_eq!((b.as_ptr(), b.as_mut_ptr(), b.capacity()), (0, 0, 0));
    assert_eq!(b.ensure(0), EnsureAction::Ready);
    assert_eq!(b.ensure(10), EnsureAction::Allocate { free: None, bytes: 10 });
    assert_eq!(
        b.allocated(10, 2, 0),
        Err(MemoryError::AllocationFailed { bytes: 10, rc: 2 })
    );
    assert_eq!(b.allocated(10, 0, 0), Err(MemoryError::AllocationFailed { bytes: 10, rc: 0 }));
    assert_eq!(b.capacity(), 0);
    assert_eq!(b.allocated(10, 0, 4096), Ok(()));
    assert_eq!((b.as_ptr(), b.capacity()), (4096, 10));
    assert_eq!(b.ensure(10), EnsureAction::Ready);
    assert_eq!(b.ensure(11), EnsureAction::Allocate { free: Some(4096), bytes: 11 });
    assert_eq!((b.as_ptr(), b.capacity()), (0, 0));
    assert_eq!(copy_result(0), Ok(()));
    assert_eq!(copy_result(7), Err(MemoryError::CopyFailed { rc: 7 }));
}

#[test]
fn empty_pinned_buffer_owns_nothing() {
    let e = PinnedHostBuffer::begin_alloc(0).unwrap();
    assert!(e.is_empty());
    assert_eq!(e.owned_memory(), None);
    assert!(PinnedHostBuffer::begin_alloc(5).is_none());
    let b = PinnedHostBuffer::allocated(5, 0, 99).unwrap();
    assert_eq!((b.len(), b.is_empty(), b.owned_memory()), (5, false, Some(99)));
    assert_eq!(
        PinnedHostBuffer::allocated(5, 1, 99).err(),
        Some(MemoryError::AllocationFailed { bytes: 5, rc: 1 })
    );
}

#[test]
fn aes_batches_have_whole_pairs() {
    assert_eq!(CudaAES::new(0).err(), Some(AesError::InitFailed));
    let a = CudaAES::new(77).unwrap();
    assert_eq!(a.ctx_mut_ptr(), 77);
    assert_eq!(a.set_key(0), Ok(()));
    assert_eq!(a.set_key(1), Err(AesError::SetKeyFailed));
    assert_eq!(a.hash_batch(&[0; 16], &[0; 16]), Ok(2));
    assert_eq!(a.hash_batch(&[0; 16], &[0; 8]), Err(AesError::LengthMismatch));
    assert_eq!(a.hash_batch(&[0; 9], &[0; 9]), Err(AesError::NotAMultiple));
    assert_eq!(a.hash_batch_result(0, vec![3]), Ok(vec![3]));
    assert_eq!(a.hash_batch_result(9, vec![3]), Err(AesError::HashFailed));
}
