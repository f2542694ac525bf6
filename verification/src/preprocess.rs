//! The decoder: from a quantized matrix of 8-bit codes to an embedding of
//! normalized rows.
use vstd::prelude::*;
use vstd::slice::slice_subrange;
use crate::error::Error;
use crate::scalar::{exceeds_zero, is_positive};

verus! {

/// A decoded matrix, one row per catalog item, stored row after row.
///
/// The weights are bit patterns of single-precision values. An embedding
/// always has at least one vector and at least one dimension, and holds
/// exactly `n_vectors * dim` weights.
pub struct Embedding {
    weights: Vec<u32>,
    n_vectors: usize,
    dim: usize,
}

impl View for Embedding {
    type V = Seq<Seq<u32>>;

    /// The matrix as the sequence of its rows.
    open spec fn view(&self) -> Seq<Seq<u32>> {
        Seq::new(self.spec_n_vectors(), |i: int| self.spec_row(i))
    }
}

impl Embedding {
    #[verifier::type_invariant]
    spec fn well_formed(&self) -> bool {
        self.shaped()
    }

    /// All weights, row after row.
    pub closed spec fn spec_weights(&self) -> Seq<u32> {
        self.weights@
    }

    /// The number of rows.
    pub closed spec fn spec_n_vectors(&self) -> nat {
        self.n_vectors as nat
    }

    /// The length of each row.
    pub closed spec fn spec_dim(&self) -> nat {
        self.dim as nat
    }

    /// What holds of every embedding: both dimensions are positive and the
    /// weights fill the matrix exactly.
    pub open spec fn shaped(&self) -> bool {
        &&& self.spec_n_vectors() >= 1
        &&& self.spec_dim() >= 1
        &&& self.spec_weights().len() == self.spec_n_vectors() * self.spec_dim()
    }

    /// Row `i`: the `dim` weights that start at `i * dim`.
    pub open spec fn spec_row(&self, i: int) -> Seq<u32> {
        self.spec_weights().subrange(i * self.spec_dim(), i * self.spec_dim() + self.spec_dim())
    }

    /// An embedding of `n_vectors` rows of `dim` weights each, or `None` where
    /// a dimension is zero or the weights do not fill the matrix.
    pub fn new(weights: Vec<u32>, n_vectors: usize, dim: usize) -> (made: Option<Embedding>)
        ensures
            made is Some <==> n_vectors >= 1 && dim >= 1 && weights@.len() == n_vectors * dim,
            made matches Some(e) ==> e.shaped() && e.spec_weights() == weights@
                && e.spec_n_vectors() == n_vectors && e.spec_dim() == dim,
    {
        if n_vectors == 0 || dim == 0 {
            return None;
        }
        assert(weights@.len() == weights.len());
        match n_vectors.checked_mul(dim) {
            Some(total) => {
                if weights.len() == total {
                    Some(Embedding { weights, n_vectors, dim })
                } else {
                    None
                }
            },
            None => None,
        }
    }

    /// All weights, row after row.
    pub fn weights(&self) -> (w: &Vec<u32>)
        ensures
            w@ == self.spec_weights(),
            self.shaped(),
    {
        proof {
            use_type_invariant(self);
        }
        &self.weights
    }

    /// The number of rows.
    pub fn n_vectors(&self) -> (n: usize)
        ensures
            n == self.spec_n_vectors(),
            self.shaped(),
    {
        proof {
            use_type_invariant(self);
        }
        self.n_vectors
    }

    /// The length of each row.
    pub fn dim(&self) -> (d: usize)
        ensures
            d == self.spec_dim(),
            self.shaped(),
    {
        proof {
            use_type_invariant(self);
        }
        self.dim
    }

    /// Row `i` of an embedding that has one.
    pub(crate) fn row_at(&self, i: usize) -> (row: &[u32])
        requires
            i < self.spec_n_vectors(),
        ensures
            row@ == self@[i as int],
            row@.len() == self.spec_dim(),
            self.shaped(),
    {
        proof {
            use_type_invariant(self);
            row_bounds(i as int, self.n_vectors as int, self.dim as int);
            assert(self.weights@.len() == self.weights.len());
        }
        slice_subrange(self.weights.as_slice(), i * self.dim, i * self.dim + self.dim)
    }

    /// Row `i`, where there is one.
    pub fn row(&self, i: usize) -> (r: Option<&[u32]>)
        ensures
            r is Some <==> i < self.spec_n_vectors(),
            r matches Some(s) ==> s@ == self@[i as int] && s@.len() == self.spec_dim(),
            self.shaped(),
    {
        proof {
            use_type_invariant(self);
        }
        if i < self.n_vectors {
            Some(self.row_at(i))
        } else {
            None
        }
    }
}

/// Catalog metadata that travels with the weights. The decoder does not read
/// it; it is handed on to the host as it came.
pub struct Songs {
    pub titles: Vec<String>,
    pub artists: Vec<String>,
}

impl Songs {
    /// The label with which a load is acknowledged: the second title, where
    /// the catalog has one.
    pub fn label(&self) -> (label: Option<&String>)
        ensures
            label is Some <==> self.titles@.len() >= 2,
            label matches Some(title) ==> *title == self.titles@[1],
    {
        if self.titles.len() >= 2 {
            Some(&self.titles[1])
        } else {
            None
        }
    }
}

/// One load: the quantized weights and the metadata that came with them.
pub struct Data {
    pub weights: QuantizedWeights,
    pub songs: Songs,
}

/// A matrix of 8-bit codes as it arrives: `shape` holds the number of rows and
/// the number of columns, `quantized` the codes row after row. Every code `v`
/// stands for the value `v * scale + zero_point`; `scale` and `zero_point` are
/// bit patterns of single-precision values and hold for the whole matrix.
///
/// Such a value may be malformed: a matrix whose codes do not fill its shape
/// can be written down, and is turned down when it is decoded.
pub struct QuantizedWeights {
    pub quantized: Vec<u8>,
    pub shape: Vec<usize>,
    pub scale: u32,
    pub zero_point: u32,
}

impl QuantizedWeights {
    /// The shape has exactly two entries, both positive, and the number of
    /// codes is their product.
    pub open spec fn well_shaped(&self) -> bool {
        &&& self.shape@.len() == 2
        &&& self.shape@[0] >= 1
        &&& self.shape@[1] >= 1
        &&& self.quantized@.len() == self.shape@[0] * self.shape@[1]
    }

    /// The codes of row `i`.
    pub open spec fn codes(&self, i: int) -> Seq<u8> {
        self.quantized@.subrange(i * self.shape@[1], i * self.shape@[1] + self.shape@[1])
    }

    /// The number of rows and of columns, where the matrix is well shaped.
    pub fn dimensions(&self) -> (dims: Option<(usize, usize)>)
        ensures
            dims is Some <==> self.well_shaped(),
            dims matches Some((rows, cols)) ==> rows == self.shape@[0] && cols == self.shape@[1],
    {
        if self.shape.len() != 2 {
            return None;
        }
        let rows = self.shape[0];
        let cols = self.shape[1];
        if rows == 0 || cols == 0 {
            return None;
        }
        assert(self.quantized@.len() == self.quantized.len());
        match rows.checked_mul(cols) {
            Some(total) => {
                if self.quantized.len() == total {
                    Some((rows, cols))
                } else {
                    None
                }
            },
            None => None,
        }
    }
}

/// The dequantizing kernel can be called on every code of a matrix with this
/// scale and zero point.
pub open spec fn affine_ready<A: Fn(u8, u32, u32) -> u32>(
    affine: &A,
    scale: u32,
    zero_point: u32,
) -> bool {
    forall|v: u8| #[trigger] affine.requires((v, scale, zero_point))
}

/// The norm kernel can be called on every row of the given width.
pub open spec fn norm_ready<N: Fn(&[u32]) -> u32>(norm: &N, width: int) -> bool {
    forall|row: &[u32]| row@.len() == width ==> #[trigger] norm.requires((row,))
}

/// The dividing kernel can be called on every pair of values.
pub open spec fn divide_ready<D: Fn(u32, u32) -> u32>(divide: &D) -> bool {
    forall|x: u32, n: u32| #[trigger] divide.requires((x, n))
}

/// `row` is what the dequantizing kernel gave for `codes`, entry by entry.
pub open spec fn dequantized<A: Fn(u8, u32, u32) -> u32>(
    affine: &A,
    codes: Seq<u8>,
    scale: u32,
    zero_point: u32,
    row: Seq<u32>,
) -> bool {
    &&& row.len() == codes.len()
    &&& forall|j: int|
        0 <= j < codes.len() ==> affine.ensures((codes[j], scale, zero_point), #[trigger] row[j])
}

/// `n` is what the norm kernel gave for `row`.
pub open spec fn norm_of<N: Fn(&[u32]) -> u32>(norm: &N, row: Seq<u32>, n: u32) -> bool {
    exists|s: &[u32]| s@ == row && #[trigger] norm.ensures((s,), n)
}

/// `out` is `row` scaled by the norm `n`: every entry divided by `n` where
/// `n` is greater than zero, and `row` itself where it is not.
pub open spec fn scaled_by<D: Fn(u32, u32) -> u32>(
    divide: &D,
    row: Seq<u32>,
    n: u32,
    out: Seq<u32>,
) -> bool {
    &&& out.len() == row.len()
    &&& is_positive(n) ==> forall|j: int|
        0 <= j < row.len() ==> divide.ensures((row[j], n), #[trigger] out[j])
    &&& !is_positive(n) ==> out == row
}

/// `out` is `row` after normalization with these kernels.
pub open spec fn normalized<N: Fn(&[u32]) -> u32, D: Fn(u32, u32) -> u32>(
    norm: &N,
    divide: &D,
    row: Seq<u32>,
    out: Seq<u32>,
) -> bool {
    exists|n: u32| #[trigger] norm_of(norm, row, n) && scaled_by(divide, row, n, out)
}

/// `out` is the decoded form of one row of codes: dequantized, then
/// normalized.
pub open spec fn row_decoded<A: Fn(u8, u32, u32) -> u32, N: Fn(&[u32]) -> u32, D: Fn(u32, u32) -> u32>(
    affine: &A,
    norm: &N,
    divide: &D,
    codes: Seq<u8>,
    scale: u32,
    zero_point: u32,
    out: Seq<u32>,
) -> bool {
    exists|raw: Seq<u32>| #[trigger]
        dequantized(affine, codes, scale, zero_point, raw) && normalized(norm, divide, raw, out)
}

/// `embedding` is a decoded form of `data`: it has the shape of `data`, and
/// each of its rows is the decoded form of the codes of that row.
pub open spec fn decodes_to<A: Fn(u8, u32, u32) -> u32, N: Fn(&[u32]) -> u32, D: Fn(u32, u32) -> u32>(
    data: &QuantizedWeights,
    affine: &A,
    norm: &N,
    divide: &D,
    embedding: &Embedding,
) -> bool {
    &&& embedding.shaped()
    &&& embedding.spec_n_vectors() == data.shape@[0]
    &&& embedding.spec_dim() == data.shape@[1]
    &&& forall|i: int|
        0 <= i < data.shape@[0] ==> row_decoded(
            affine,
            norm,
            divide,
            data.codes(i),
            data.scale,
            data.zero_point,
            #[trigger] embedding@[i],
        )
}

/// Turns each code `v` of a row into the value that stands for
/// `v * scale + zero_point`, as the kernel `affine` computes it.
pub fn dequantize<A: Fn(u8, u32, u32) -> u32>(
    q: &[u8],
    scale: u32,
    zero_point: u32,
    affine: &A,
) -> (row: Vec<u32>)
    requires
        affine_ready(affine, scale, zero_point),
    ensures
        dequantized(affine, q@, scale, zero_point, row@),
{
    let mut row: Vec<u32> = Vec::with_capacity(q.len());
    let mut j: usize = 0;
    while j < q.len()
        invariant
            j <= q@.len(),
            affine_ready(affine, scale, zero_point),
            dequantized(affine, q@.take(j as int), scale, zero_point, row@),
        decreases q@.len() - j,
    {
        let value = affine(q[j], scale, zero_point);
        row.push(value);
        j = j + 1;
    }
    assert(q@.take(j as int) == q@);
    row
}

/// Brings a row to unit length: where its norm, as the kernel `norm` computes
/// it, is greater than zero, every entry is divided by it with the kernel
/// `divide`. A row whose norm is zero, or no number, is returned as it is.
pub fn normalize_rows<N: Fn(&[u32]) -> u32, D: Fn(u32, u32) -> u32>(
    row: &[u32],
    norm: &N,
    divide: &D,
) -> (out: Vec<u32>)
    requires
        norm_ready(norm, row@.len() as int),
        divide_ready(divide),
    ensures
        normalized(norm, divide, row@, out@),
{
    let n = norm(row);
    assert(norm_of(norm, row@, n));
    let mut out: Vec<u32> = Vec::with_capacity(row.len());
    let positive = exceeds_zero(n);
    let mut j: usize = 0;
    assert(out@ =~= row@.take(0));
    while j < row.len()
        invariant
            j <= row@.len(),
            divide_ready(divide),
            positive == is_positive(n),
            scaled_by(divide, row@.take(j as int), n, out@),
        decreases row@.len() - j,
    {
        let value = if positive {
            divide(row[j], n)
        } else {
            row[j]
        };
        proof {
            if !positive {
                assert(out@.push(value) =~= row@.take(j + 1));
            }
        }
        out.push(value);
        j = j + 1;
    }
    assert(row@.take(j as int) == row@);
    out
}

/// Decodes a quantized matrix: every row of codes is dequantized and brought
/// to unit length, and the rows are laid out one after the other in the
/// order of the matrix.
///
/// The arithmetic is done by three kernels on bit patterns: `affine` gives
/// the value of a code, `norm` the length of a row, `divide` one entry
/// divided by that length. A matrix that is not well shaped is turned down,
/// and nothing is decoded of it.
pub fn reshape_flat_vec<A: Fn(u8, u32, u32) -> u32, N: Fn(&[u32]) -> u32, D: Fn(u32, u32) -> u32>(
    data: &QuantizedWeights,
    affine: &A,
    norm: &N,
    divide: &D,
) -> (decoded: Result<Embedding, Error>)
    requires
        affine_ready(affine, data.scale, data.zero_point),
        data.shape@.len() == 2 ==> norm_ready(norm, data.shape@[1] as int),
        divide_ready(divide),
    ensures
        decoded is Ok <==> data.well_shaped(),
        decoded matches Ok(embedding) ==> decodes_to(data, affine, norm, divide, &embedding),
        decoded matches Err(error) ==> error == Error::MalformedInput,
{
    let (rows, cols) = match data.dimensions() {
        Some(dims) => dims,
        None => {
            return Err(Error::MalformedInput);
        },
    };
    let mut weights: Vec<u32> = Vec::with_capacity(data.quantized.len());
    let mut row_idx: usize = 0;
    while row_idx < rows
        invariant
            row_idx <= rows,
            data.well_shaped(),
            rows == data.shape@[0],
            cols == data.shape@[1],
            affine_ready(affine, data.scale, data.zero_point),
            norm_ready(norm, cols as int),
            divide_ready(divide),
            weights@.len() == row_idx * cols,
            forall|i: int|
                0 <= i < row_idx ==> row_decoded(
                    affine,
                    norm,
                    divide,
                    data.codes(i),
                    data.scale,
                    data.zero_point,
                    #[trigger] weights@.subrange(i * cols, i * cols + cols),
                ),
        decreases rows - row_idx,
    {
        proof {
            row_bounds(row_idx as int, rows as int, cols as int);
            assert(data.quantized@.len() == data.quantized.len());
        }
        let start = row_idx * cols;
        let end = start + cols;
        let quantized = slice_subrange(data.quantized.as_slice(), start, end);
        let dequantized = dequantize(quantized, data.scale, data.zero_point, affine);
        let normalized = normalize_rows(dequantized.as_slice(), norm, divide);
        let ghost before = weights@;
        weights.extend_from_slice(normalized.as_slice());
        proof {
            assert(weights@ =~= before + normalized@);
            assert(row_idx * cols + cols == (row_idx + 1) * cols) by (nonlinear_arith);
            assert forall|i: int| 0 <= i < row_idx + 1 implies row_decoded(
                affine,
                norm,
                divide,
                data.codes(i),
                data.scale,
                data.zero_point,
                #[trigger] weights@.subrange(i * cols, i * cols + cols),
            ) by {
                if i < row_idx {
                    row_bounds(i, row_idx as int, cols as int);
                    assert(weights@.subrange(i * cols, i * cols + cols) =~= before.subrange(
                        i * cols,
                        i * cols + cols,
                    ));
                } else {
                    assert(weights@.subrange(i * cols, i * cols + cols) =~= normalized@);
                }
            }
        }
        row_idx = row_idx + 1;
    }
    let embedding = Embedding { weights, n_vectors: rows, dim: cols };
    assert(decodes_to(data, affine, norm, divide, &embedding));
    Ok(embedding)
}

/// The three kernels are functions: called twice on the same values, each
/// gives the same result.
pub open spec fn single_valued<A: Fn(u8, u32, u32) -> u32, N: Fn(&[u32]) -> u32, D: Fn(u32, u32) -> u32>(
    affine: &A,
    norm: &N,
    divide: &D,
) -> bool {
    &&& forall|v: u8, scale: u32, zero_point: u32, r1: u32, r2: u32|
        #[trigger] affine.ensures((v, scale, zero_point), r1) && #[trigger] affine.ensures(
            (v, scale, zero_point),
            r2,
        ) ==> r1 == r2
    &&& forall|row: &[u32], r1: u32, r2: u32|
        #[trigger] norm.ensures((row,), r1) && #[trigger] norm.ensures((row,), r2) ==> r1 == r2
    &&& forall|x: u32, n: u32, r1: u32, r2: u32|
        #[trigger] divide.ensures((x, n), r1) && #[trigger] divide.ensures((x, n), r2) ==> r1
            == r2
}

/// With kernels that are functions, one row of codes has one decoded form.
proof fn lemma_row_decoded_once<A: Fn(u8, u32, u32) -> u32, N: Fn(&[u32]) -> u32, D: Fn(u32, u32) -> u32>(
    affine: &A,
    norm: &N,
    divide: &D,
    codes: Seq<u8>,
    scale: u32,
    zero_point: u32,
    first: Seq<u32>,
    second: Seq<u32>,
)
    requires
        single_valued(affine, norm, divide),
        row_decoded(affine, norm, divide, codes, scale, zero_point, first),
        row_decoded(affine, norm, divide, codes, scale, zero_point, second),
    ensures
        first == second,
{
    let raw = choose|raw: Seq<u32>| #[trigger]
        dequantized(affine, codes, scale, zero_point, raw) && normalized(norm, divide, raw, first);
    let again = choose|raw: Seq<u32>| #[trigger]
        dequantized(affine, codes, scale, zero_point, raw) && normalized(norm, divide, raw, second);
    assert(raw =~= again);
    let n = choose|n: u32| #[trigger] norm_of(norm, raw, n) && scaled_by(divide, raw, n, first);
    let m = choose|m: u32| #[trigger] norm_of(norm, raw, m) && scaled_by(divide, raw, m, second);
    let s = choose|s: &[u32]| s@ == raw && #[trigger] norm.ensures((s,), n);
    let t = choose|t: &[u32]| t@ == raw && #[trigger] norm.ensures((t,), m);
    assert(s =~= t);
    assert(n == m);
    assert(first =~= second);
}

/// Decoding is deterministic: with kernels that are functions, any two
/// decoded forms of the same quantized matrix have the same shape and the
/// same weights, bit for bit.
pub proof fn decoding_is_deterministic<A: Fn(u8, u32, u32) -> u32, N: Fn(&[u32]) -> u32, D: Fn(u32, u32) -> u32>(
    data: &QuantizedWeights,
    affine: &A,
    norm: &N,
    divide: &D,
    first: &Embedding,
    second: &Embedding,
)
    requires
        single_valued(affine, norm, divide),
        decodes_to(data, affine, norm, divide, first),
        decodes_to(data, affine, norm, divide, second),
    ensures
        first.spec_n_vectors() == second.spec_n_vectors(),
        first.spec_dim() == second.spec_dim(),
        first.spec_weights() == second.spec_weights(),
        first@ == second@,
{
    let rows = first.spec_n_vectors() as int;
    let cols = first.spec_dim() as int;
    assert forall|i: int| 0 <= i < rows implies #[trigger] first@[i] == second@[i] by {
        lemma_row_decoded_once(
            affine,
            norm,
            divide,
            data.codes(i),
            data.scale,
            data.zero_point,
            first@[i],
            second@[i],
        );
    }
    assert(first@ =~= second@);
    assert forall|t: int| 0 <= t < rows * cols implies first.spec_weights()[t]
        == second.spec_weights()[t] by {
        let i = t / cols;
        let j = t % cols;
        assert(0 <= i < rows && 0 <= j < cols && t == i * cols + j) by (nonlinear_arith)
            requires
                0 <= t < rows * cols,
                cols >= 1,
                i == t / cols,
                j == t % cols,
        ;
        row_bounds(i, rows, cols);
        assert(first@[i][j] == first.spec_weights()[t]);
        assert(second@[i][j] == second.spec_weights()[t]);
    }
    assert(first.spec_weights() =~= second.spec_weights());
}

/// Row `i` of a matrix of `n` rows of `width` entries lies inside the matrix.
pub proof fn row_bounds(i: int, n: int, width: int)
    requires
        0 <= i < n,
        0 <= width,
    ensures
        0 <= i * width,
        i * width + width <= n * width,
{
    assert(0 <= i * width && i * width + width <= n * width) by (nonlinear_arith)
        requires
            0 <= i < n,
            0 <= width,
    ;
}

} // verus!
