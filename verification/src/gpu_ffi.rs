//! Host side of the device matrix product: layout of the operands, argument
//! rules of the product context and decoding of the result.
use crate::field;
use crate::field::LargeField;
use crate::poly;
use crate::polynomial;
use crate::types;
use vstd::prelude::*;

verus! {

/// The device layout of an element: its bytes from the lowest to the highest.
pub open spec fn native(x: int) -> Seq<u8> {
    types::ser(x).reverse()
}

/// The element that eight bytes in device layout stand for.
pub open spec fn native_value(b: Seq<u8>) -> int {
    field::be_value(b.reverse()) % field::p()
}

/// Elements in device layout, one after the other.
pub open spec fn native_row(vals: Seq<int>) -> Seq<u8>
    decreases vals.len(),
{
    if vals.len() == 0 {
        Seq::empty()
    } else {
        native_row(vals.drop_last()) + native(vals.last())
    }
}

/// Rows in device layout, one after the other.
pub open spec fn native_rows(rows: Seq<Seq<int>>) -> Seq<u8>
    decreases rows.len(),
{
    if rows.len() == 0 {
        Seq::empty()
    } else {
        native_rows(rows.drop_last()) + native_row(rows.last())
    }
}

/// The device layout can be read back.
pub proof fn lemma_native_round_trip(x: int)
    requires
        0 <= x < field::p(),
    ensures
        native(x).len() == field::FIELD_BYTES,
        native_value(native(x)) == x,
{
    types::lemma_element_round_trip(x);
    assert(native(x).reverse() =~= types::ser(x));
}

/// The device reads the lowest byte first: byte `k` is the `k`-th digit of the
/// element to the base 256.
pub proof fn lemma_native_digit(x: int, k: nat)
    requires
        0 <= x < field::p(),
        k < 8,
    ensures
        native(x).len() == 8,
        native(x)[k as int] == (x / vstd::arithmetic::power::pow(256, k)) % 256,
{
    types::lemma_element_round_trip(x);
    lemma_be_digit(types::ser(x), k);
}

/// A digit of the value of a byte string, counted from its end.
proof fn lemma_be_digit(b: Seq<u8>, k: nat)
    requires
        k < b.len(),
    ensures
        b[b.len() - 1 - k] == (field::be_value(b) / vstd::arithmetic::power::pow(256, k)) % 256,
    decreases k,
{
    reveal(vstd::arithmetic::power::pow);
    let x = field::be_value(b);
    let front = field::be_value(b.drop_last());
    field::lemma_be_value_bounds(b.drop_last());
    vstd::arithmetic::div_mod::lemma_fundamental_div_mod_converse(x, 256, front, b.last() as int);
    if k == 0 {
        vstd::arithmetic::power::lemma_pow0(256);
        assert(x / 1 == x);
    } else {
        let m = (k - 1) as nat;
        lemma_be_digit(b.drop_last(), m);
        let w = vstd::arithmetic::power::pow(256, m);
        vstd::arithmetic::power::lemma_pow_positive(256, m);
        assert(vstd::arithmetic::power::pow(256, k) == 256 * w);
        vstd::arithmetic::div_mod::lemma_div_denominator(x, 256, w);
    }
}

/// Where an element of a row is found.
pub proof fn lemma_native_row(vals: Seq<int>, k: int)
    requires
        polynomial::all_reduced(vals),
        0 <= k < vals.len(),
    ensures
        native_row(vals).len() == 8 * vals.len(),
        native_row(vals).subrange(8 * k, 8 * k + 8) == native(vals[k]),
    decreases vals.len(),
{
    lemma_native_row_len(vals);
    lemma_native_row_len(vals.drop_last());
    lemma_native_round_trip(vals.last());
    if k < vals.len() - 1 {
        lemma_native_row(vals.drop_last(), k);
        assert(native_row(vals).subrange(8 * k, 8 * k + 8) =~= native_row(
            vals.drop_last(),
        ).subrange(8 * k, 8 * k + 8));
    } else {
        assert(native_row(vals).subrange(8 * k, 8 * k + 8) =~= native(vals[k]));
    }
}

pub proof fn lemma_native_row_len(vals: Seq<int>)
    requires
        polynomial::all_reduced(vals),
    ensures
        native_row(vals).len() == 8 * vals.len(),
    decreases vals.len(),
{
    if vals.len() > 0 {
        lemma_native_row_len(vals.drop_last());
        lemma_native_round_trip(vals.last());
    }
}

/// Whether the rows hold elements and have the length `c`.
pub open spec fn uniform(rows: Seq<Seq<int>>, c: int) -> bool {
    forall|i: int|
        0 <= i < rows.len() ==> (#[trigger] rows[i]).len() == c && polynomial::all_reduced(rows[i])
}

pub proof fn lemma_native_rows_len(rows: Seq<Seq<int>>, c: int)
    requires
        uniform(rows, c),
    ensures
        native_rows(rows).len() == 8 * (rows.len() * c),
    decreases rows.len(),
{
    if rows.len() > 0 {
        lemma_native_rows_len(rows.drop_last(), c);
        lemma_native_row_len(rows.last());
        assert(rows.len() * c == (rows.len() - 1) * c + c) by (nonlinear_arith);
    } else {
        assert(rows.len() * c == 0) by (nonlinear_arith)
            requires
                rows.len() == 0,
        ;
    }
}

/// Where an element of rows of length `c` is found.
pub proof fn lemma_native_rows(rows: Seq<Seq<int>>, c: int, i: int, j: int)
    requires
        uniform(rows, c),
        0 <= i < rows.len(),
        0 <= j < c,
    ensures
        0 <= i * c + j < rows.len() * c,
        native_rows(rows).len() == 8 * (rows.len() * c),
        native_rows(rows).subrange(8 * (i * c + j), 8 * (i * c + j) + 8) == native(rows[i][j]),
    decreases rows.len(),
{
    lemma_native_rows_len(rows, c);
    let front = rows.drop_last();
    lemma_native_rows_len(front, c);
    lemma_native_row_len(rows.last());
    let at = 8 * (i * c + j);
    assert(0 <= i * c + j < rows.len() * c) by (nonlinear_arith)
        requires
            0 <= i < rows.len(),
            0 <= j < c,
    ;
    if i < rows.len() - 1 {
        lemma_native_rows(front, c, i, j);
        assert(native_rows(rows).subrange(at, at + 8) =~= native_rows(front).subrange(at, at + 8));
    } else {
        lemma_native_row(rows.last(), j);
        assert(native_rows(rows).subrange(at, at + 8) =~= native_row(rows.last()).subrange(
            8 * j,
            8 * j + 8,
        ));
    }
}

/// Appends an element in device layout.
pub fn write_elem_bytes(elem: &LargeField, buf: &mut Vec<u8>)
    ensures
        final(buf)@ == old(buf)@ + native(elem@),
{
    let be = elem.to_bytes_be();
    proof {
        types::lemma_ser(be@);
    }
    let ghost start = buf@;
    let width: usize = be.len();
    for i in 0..width
        invariant
            width == be@.len(),
            be@ == types::ser(elem@),
            buf@ == start + native(elem@).take(i as int),
    {
        buf.push(be[width - 1 - i]);
        assert(native(elem@).take(i + 1) =~= native(elem@).take(i as int).push(
            be@[width - 1 - i],
        ));
    }
    assert(native(elem@).take(width as int) =~= native(elem@));
}

/// The element that eight bytes in device layout stand for.
pub fn read_elem_bytes(bytes: &[u8]) -> (r: LargeField)
    requires
        bytes@.len() == field::FIELD_BYTES,
    ensures
        r@ == native_value(bytes@),
{
    let mut be: Vec<u8> = Vec::new();
    let width: usize = bytes.len();
    for i in 0..width
        invariant
            width == bytes@.len(),
            be@ == bytes@.reverse().take(i as int),
    {
        be.push(bytes[width - 1 - i]);
        assert(bytes@.reverse().take(i + 1) =~= bytes@.reverse().take(i as int).push(
            bytes@[width - 1 - i],
        ));
    }
    assert(be@ =~= bytes@.reverse());
    LargeField::from_be_digits(be.as_slice())
}

/// Rows in device layout.
pub fn flatten_rows_le(rows: &[Vec<LargeField>]) -> (r: Vec<u8>)
    ensures
        r@ == native_rows(poly::mat(rows@)),
{
    let mut flat: Vec<u8> = Vec::new();
    let ghost m = poly::mat(rows@);
    assert(m.take(0) =~= Seq::<Seq<int>>::empty());
    for i in 0..rows.len()
        invariant
            m == poly::mat(rows@),
            flat@ == native_rows(m.take(i as int)),
    {
        let ghost row = m[i as int];
        let ghost start = flat@;
        let width: usize = rows[i].len();
        assert(row.take(0) =~= Seq::<int>::empty());
        assert(flat@ =~= start + native_row(row.take(0)));
        for j in 0..width
            invariant
                i < rows@.len(),
                width == rows@[i as int]@.len(),
                row == field::vals(rows@[i as int]@),
                flat@ == start + native_row(row.take(j as int)),
        {
            write_elem_bytes(&rows[i][j], &mut flat);
            proof {
                assert(row.take(j + 1).drop_last() =~= row.take(j as int));
                assert(flat@ =~= start + native_row(row.take(j + 1)));
            }
        }
        proof {
            assert(row.take(width as int) =~= row);
            assert(m.take(i + 1).drop_last() =~= m.take(i as int));
        }
    }
    assert(m.take(m.len() as int) =~= m);
    flat
}

/// The device side of a matrix product, known by its address.
#[derive(Debug, Clone, Copy, PartialEq, Eq, Structural)]
pub struct Bn254GemmContext {
    pub address: usize,
}

#[derive(Debug, Clone, Copy, PartialEq, Eq, Structural)]
pub enum GemmError {
    InitFailed,
    Overflow,
    WrongLength { expected: usize, got: usize },
    CallFailed { rc: i32 },
}

/// A product context and the shape of the matrix that was uploaded last.
#[derive(Debug)]
pub struct CudaBn254Gemm {
    pub ctx: Bn254GemmContext,
    pub k: u32,
    pub n: u32,
}

/// The bytes of `a * b` elements.
pub open spec fn operand_bytes(a: int, b: int) -> int {
    a * b * field::FIELD_BYTES
}

/// The bytes of `a * b` elements, unless they overflow.
fn operand_len(a: usize, b: usize) -> (r: Option<usize>)
    ensures
        r is Some <==> operand_bytes(a as int, b as int) <= usize::MAX,
        r matches Some(len) ==> len == operand_bytes(a as int, b as int),
{
    match a.checked_mul(b) {
        Some(x) => x.checked_mul(field::FIELD_BYTES),
        None => None,
    }
}

impl CudaBn254Gemm {
    /// Takes over a context; address zero means that its creation failed.
    pub fn new(address: usize) -> (r: Result<CudaBn254Gemm, GemmError>)
        ensures
            r is Ok <==> address != 0,
            r matches Ok(g) ==> g.ctx.address == address && g.k == 0 && g.n == 0,
            r matches Err(e) ==> e == GemmError::InitFailed,
    {
        if address == 0 {
            return Err(GemmError::InitFailed);
        }
        Ok(CudaBn254Gemm { ctx: Bn254GemmContext { address }, k: 0, n: 0 })
    }

    /// Whether `v_bytes` can be uploaded as a `k * n` matrix.
    pub fn set_matrix(&self, v_bytes: &[u8], k: usize, n: usize) -> (r: Result<(), GemmError>)
        ensures
            r == if operand_bytes(k as int, n as int) > usize::MAX {
                Err::<(), GemmError>(GemmError::Overflow)
            } else if v_bytes@.len() != operand_bytes(k as int, n as int) {
                Err(
                    GemmError::WrongLength {
                        expected: operand_bytes(k as int, n as int) as usize,
                        got: v_bytes@.len() as usize,
                    },
                )
            } else {
                Ok(())
            },
            r is Ok <==> v_bytes@.len() == k * n * 8,
    {
        assert(v_bytes.len() == v_bytes@.len());
        match operand_len(k, n) {
            None => Err(GemmError::Overflow),
            Some(expected) => {
                if v_bytes.len() != expected {
                    return Err(GemmError::WrongLength { expected, got: v_bytes.len() });
                }
                Ok(())
            },
        }
    }

    /// Records the shape of the uploaded matrix if the upload succeeded.
    pub fn matrix_uploaded(&mut self, k: usize, n: usize, rc: i32) -> (r: Result<(), GemmError>)
        ensures
            r == if rc == 0 {
                Ok::<(), GemmError>(())
            } else {
                Err(GemmError::CallFailed { rc })
            },
            *final(self) == if rc == 0 {
                CudaBn254Gemm { ctx: old(self).ctx, k: k as u32, n: n as u32 }
            } else {
                *old(self)
            },
    {
        if rc != 0 {
            return Err(GemmError::CallFailed { rc });
        }
        self.k =
        #[verifier::truncate]
        (k as u32);
        self.n =
        #[verifier::truncate]
        (n as u32);
        Ok(())
    }

    /// The length of the product of the matrix with `batch` vectors.
    pub fn compute(&self, s_bytes: &[u8], batch: usize) -> (r: Result<usize, GemmError>)
        ensures
            r == if operand_bytes(batch as int, self.n as int) > usize::MAX {
                Err::<usize, GemmError>(GemmError::Overflow)
            } else if s_bytes@.len() != operand_bytes(batch as int, self.n as int) {
                Err(
                    GemmError::WrongLength {
                        expected: operand_bytes(batch as int, self.n as int) as usize,
                        got: s_bytes@.len() as usize,
                    },
                )
            } else if operand_bytes(batch as int, self.k as int) > usize::MAX {
                Err(GemmError::Overflow)
            } else {
                Ok(operand_bytes(batch as int, self.k as int) as usize)
            },
            r matches Ok(len) ==> s_bytes@.len() == batch * self.n * 8 && len == batch * self.k * 8,
            r is Ok <==> s_bytes@.len() == batch * self.n * 8 && batch * self.k * 8 <= usize::MAX,
    {
        assert(s_bytes.len() == s_bytes@.len());
        match operand_len(batch, self.n as usize) {
            None => Err(GemmError::Overflow),
            Some(expected) => {
                if s_bytes.len() != expected {
                    return Err(GemmError::WrongLength { expected, got: s_bytes.len() });
                }
                match operand_len(batch, self.k as usize) {
                    None => Err(GemmError::Overflow),
                    Some(len) => Ok(len),
                }
            },
        }
    }

    /// The product, from the return code and the bytes that were written.
    pub fn compute_result(&self, rc: i32, out: Vec<u8>) -> (r: Result<Vec<u8>, GemmError>)
        ensures
            r is Ok <==> rc == 0,
            r matches Ok(v) ==> v == out,
            r matches Err(e) ==> e == (GemmError::CallFailed { rc }),
    {
        if rc != 0 {
            Err(GemmError::CallFailed { rc })
        } else {
            Ok(out)
        }
    }
}

/// The operands of a device product.
pub struct GemmOperands {
    /// The matrix, `rows * columns` elements.
    pub v_bytes: Vec<u8>,
    /// The vectors, `batch * columns` elements.
    pub s_bytes: Vec<u8>,
    pub rows: usize,
    pub columns: usize,
    pub batch: usize,
}

/// The operands of the product of a matrix with vectors, or nothing if they
/// are empty or ragged.
pub fn gemm_operands(matrix: &[Vec<LargeField>], vectors: &[Vec<LargeField>]) -> (r: Option<
    GemmOperands,
>)
    ensures
        r is Some <==> poly::well_shaped(matrix@, vectors@),
        r matches Some(o) ==> o.rows == matrix@.len() && o.columns == matrix@[0]@.len() && o.batch
            == vectors@.len() && o.v_bytes@ == native_rows(poly::mat(matrix@)) && o.s_bytes@
            == native_rows(poly::mat(vectors@)),
{
    if matrix.len() == 0 || vectors.len() == 0 {
        return None;
    }
    let columns: usize = matrix[0].len();
    if !poly::all_of_length(matrix, columns) || !poly::all_of_length(vectors, columns) {
        return None;
    }
    Some(
        GemmOperands {
            v_bytes: flatten_rows_le(matrix),
            s_bytes: flatten_rows_le(vectors),
            rows: matrix.len(),
            columns,
            batch: vectors.len(),
        },
    )
}

/// Entry `(i, j)` of a device product with rows of length `width`.
pub open spec fn device_entry(o_bytes: Seq<u8>, width: int, i: int, j: int) -> int {
    native_value(o_bytes.subrange(8 * (i * width + j), 8 * (i * width + j) + 8))
}

/// Reads `batch` rows of `width` elements in device layout.
fn read_rows(o_bytes: &Vec<u8>, batch: usize, width: usize) -> (r: Vec<Vec<LargeField>>)
    requires
        o_bytes@.len() == operand_bytes(batch as int, width as int),
    ensures
        r@.len() == batch,
        forall|i: int| 0 <= i < batch ==> (#[trigger] r@[i])@.len() == width,
        forall|i: int, j: int|
            0 <= i < batch && 0 <= j < width ==> (#[trigger] r@[i]@[j])@ == device_entry(
                o_bytes@,
                width as int,
                i,
                j,
            ),
{
    let mut out: Vec<Vec<LargeField>> = Vec::new();
    let mut at: usize = 0;
    assert(0 * width == 0) by (nonlinear_arith);
    for i in 0..batch
        invariant
            o_bytes.len() == operand_bytes(batch as int, width as int),
            at == 8 * (i * width),
            out@.len() == i,
            forall|a: int| 0 <= a < i ==> (#[trigger] out@[a])@.len() == width,
            forall|a: int, j: int|
                0 <= a < i && 0 <= j < width ==> (#[trigger] out@[a]@[j])@ == device_entry(
                    o_bytes@,
                    width as int,
                    a,
                    j,
                ),
    {
        let mut row: Vec<LargeField> = Vec::new();
        proof {
            assert((i + 1) * width <= batch * width) by (nonlinear_arith)
                requires
                    i < batch,
            ;
            assert((i + 1) * width == i * width + width) by (nonlinear_arith);
        }
        for j in 0..width
            invariant
                o_bytes.len() == operand_bytes(batch as int, width as int),
                i < batch,
                i * width + width <= batch * width,
                at == 8 * (i * width + j),
                row@.len() == j,
                forall|b: int|
                    0 <= b < j ==> (#[trigger] row@[b])@ == device_entry(
                        o_bytes@,
                        width as int,
                        i as int,
                        b,
                    ),
        {
            let bytes = vstd::slice::slice_subrange(o_bytes.as_slice(), at, at + 8);
            row.push(read_elem_bytes(bytes));
            at = at + 8;
        }
        out.push(row);
    }
    out
}

/// Matrix product with the device. `o_bytes` is what the device gave for the
/// operands of `gemm_operands`, or nothing if it failed: then the product is
/// computed here. The layout is that of `poly::matrix_matrix_multiply`.
pub fn gpu_matrix_matrix_multiply(
    matrix: &[Vec<LargeField>],
    vectors: &[Vec<LargeField>],
    row_major: bool,
    o_bytes: Option<&Vec<u8>>,
) -> (r: Vec<Vec<LargeField>>)
    requires
        o_bytes matches Some(b) ==> poly::well_shaped(matrix@, vectors@) ==> b@.len()
            == operand_bytes(vectors@.len() as int, matrix@.len() as int),
    ensures
        !poly::well_shaped(matrix@, vectors@) ==> r@.len() == 0,
        poly::well_shaped(matrix@, vectors@) && row_major ==> {
            &&& r@.len() == matrix@.len()
            &&& forall|i: int| 0 <= i < r@.len() ==> (#[trigger] r@[i])@.len() == vectors@.len()
            &&& forall|i: int, j: int|
                0 <= i < matrix@.len() && 0 <= j < vectors@.len() ==> (#[trigger] r@[i]@[j])@
                    == product_entry(matrix@, vectors@, o_bytes, i, j)
        },
        poly::well_shaped(matrix@, vectors@) && !row_major ==> {
            &&& r@.len() == vectors@.len()
            &&& forall|j: int| 0 <= j < r@.len() ==> (#[trigger] r@[j])@.len() == matrix@.len()
            &&& forall|i: int, j: int|
                0 <= i < matrix@.len() && 0 <= j < vectors@.len() ==> (#[trigger] r@[j]@[i])@
                    == product_entry(matrix@, vectors@, o_bytes, i, j)
        },
{
    if matrix.len() == 0 || vectors.len() == 0 {
        return Vec::new();
    }
    let columns: usize = matrix[0].len();
    if !poly::all_of_length(matrix, columns) || !poly::all_of_length(vectors, columns) {
        return Vec::new();
    }
    match o_bytes {
        None => poly::matrix_matrix_multiply(matrix, vectors, row_major),
        Some(bytes) => {
            let out = read_rows(bytes, vectors.len(), matrix.len());
            if row_major {
                let ghost kr = out@;
                let t = poly::transpose(out);
                proof {
                    assert forall|i: int, j: int|
                        0 <= i < matrix@.len() && 0 <= j < vectors@.len() implies (
                    #[trigger] t@[i]@[j])@ == product_entry(matrix@, vectors@, o_bytes, i, j) by {
                        assert(t@[i]@[j] == kr[j]@[i]);
                    }
                }
                t
            } else {
                out
            }
        },
    }
}

/// What the product holds for matrix row `i` and vector `j`: the device's
/// entry, or their inner product if the device failed.
pub open spec fn product_entry(
    matrix: Seq<Vec<LargeField>>,
    vectors: Seq<Vec<LargeField>>,
    o_bytes: Option<&Vec<u8>>,
    i: int,
    j: int,
) -> int {
    match o_bytes {
        Some(b) => device_entry(b@, matrix.len() as int, j, i),
        None => polynomial::dot(field::vals(matrix[i]@), field::vals(vectors[j]@)) % field::p(),
    }
}

/// Both ways give the same product: where the device wrote the inner products
/// in its layout, its entries are the ones that are computed here.
pub proof fn lemma_device_product(
    matrix: Seq<Vec<LargeField>>,
    vectors: Seq<Vec<LargeField>>,
    product: Seq<Seq<int>>,
    o_bytes: &Vec<u8>,
    i: int,
    j: int,
)
    requires
        0 <= i < matrix.len(),
        0 <= j < vectors.len(),
        product.len() == vectors.len(),
        uniform(product, matrix.len() as int),
        forall|b: int, a: int|
            0 <= b < vectors.len() && 0 <= a < matrix.len() ==> #[trigger] product[b][a]
                == polynomial::dot(field::vals(matrix[a]@), field::vals(vectors[b]@)) % field::p(),
        o_bytes@ == native_rows(product),
    ensures
        product_entry(matrix, vectors, Some(o_bytes), i, j) == product_entry(
            matrix,
            vectors,
            None,
            i,
            j,
        ),
{
    lemma_native_rows(product, matrix.len() as int, j, i);
    assert(polynomial::all_reduced(product[j]));
    lemma_native_round_trip(product[j][i]);
}

} // verus!
