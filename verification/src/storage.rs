//! Matrix storage: the `N x D` table of row vectors.
//!
//! Dense storage materializes every row; quantized storage keeps one
//! code per segment per row and reconstructs a row from a shared
//! centroid table.  Only dense storage is viewable: ranking queries
//! touch every row and are reserved for it, while quantized storage
//! still answers plain lookups by reconstruction.

use vstd::prelude::*;

use crate::Error;

verus! {

/// Fully materialized row-major storage.
pub struct DenseStorage {
    /// Number of rows.
    pub rows: usize,
    /// Components per row.
    pub dims: usize,
    /// The matrix, row-major, `rows * dims` long.
    pub data: Vec<u32>,
}

/// Storage compressed by per-segment vector quantization.
pub struct QuantizedStorage {
    /// Number of rows.
    pub rows: usize,
    /// Components per row.
    pub dims: usize,
    /// Number of segments a row is split into.
    pub n_segments: usize,
    /// Components per segment; `dims == n_segments * seg_len`.
    pub seg_len: usize,
    /// Codebook entries per segment.
    pub n_centroids: usize,
    /// The centroid table: `n_segments * n_centroids` entries of
    /// `seg_len` components each, grouped by segment.
    pub centroids: Vec<u32>,
    /// One code per segment per row, `rows * n_segments` long.
    pub codes: Vec<u8>,
}

/// One of the two storage variants.
pub enum StorageWrap {
    /// Fully materialized, viewable storage.
    Dense(DenseStorage),
    /// Quantized storage; rows are reconstructed on demand.
    Quantized(QuantizedStorage),
}

impl DenseStorage {
    /// Well-formedness: the buffer covers exactly `rows * dims` cells.
    pub open spec fn wf(&self) -> bool {
        self.data@.len() == self.rows * self.dims
    }

    /// Row `i` of the matrix.
    pub open spec fn row_of(&self, i: int) -> Seq<u32> {
        self.data@.subrange(i * self.dims, i * self.dims + self.dims)
    }

    /// Builds dense storage after checking the buffer length.
    pub fn new(rows: usize, dims: usize, data: Vec<u32>) -> (r: Result<DenseStorage, Error>)
        ensures
            match r {
                Ok(s) => s.wf() && s.rows == rows && s.dims == dims && s.data@ == data@,
                Err(e) => e == Error::InvalidShape && data@.len() != rows * dims,
            },
    {
        let dlen = data.len();
        if dims != 0 && rows > usize::MAX / dims {
            proof {
                assert(rows * dims > usize::MAX) by (nonlinear_arith)
                    requires
                        dims != 0 && rows > usize::MAX / dims && rows >= 0 && dims >= 0,
                ;
            }
            return Err(Error::InvalidShape);
        }
        let expected: usize = if dims == 0 {
            0
        } else {
            proof {
                assert(rows * dims <= usize::MAX) by (nonlinear_arith)
                    requires
                        dims != 0 && rows <= usize::MAX / dims && rows >= 0 && dims >= 0,
                ;
            }
            rows * dims
        };
        if dlen == expected {
            Ok(DenseStorage { rows, dims, data })
        } else {
            Err(Error::InvalidShape)
        }
    }

    /// Copies row `i` out of the buffer.
    #[verifier::loop_isolation(false)]
    pub fn row_copy(&self, i: usize) -> (r: Vec<u32>)
        requires
            self.wf(),
            i < self.rows,
        ensures
            r@ == self.row_of(i as int),
    {
        let dlen = self.data.len();
        proof {
            assert(i * self.dims + self.dims <= self.rows * self.dims) by (nonlinear_arith)
                requires
                    0 <= i && i < self.rows && 0 <= self.dims,
            ;
        }
        let base: usize = i * self.dims;
        let mut out: Vec<u32> = Vec::new();
        let mut t: usize = 0;
        while t < self.dims
            invariant
                t <= self.dims,
                base == i * self.dims,
                base + self.dims <= dlen == self.data@.len(),
                out@.len() == t,
                forall|j: int| 0 <= j < t ==> out@[j] == self.data@[base + j],
            decreases self.dims - t,
        {
            out.push(self.data[base + t]);
            t = t + 1;
        }
        proof {
            assert(out@ =~= self.row_of(i as int));
        }
        out
    }
}

/// The shape conditions a quantized table must meet.
pub open spec fn quantized_params_ok(
    rows: int,
    dims: int,
    n_segments: int,
    seg_len: int,
    n_centroids: int,
    centroids: Seq<u32>,
    codes: Seq<u8>,
) -> bool {
    &&& n_segments >= 1
    &&& seg_len >= 1
    &&& 1 <= n_centroids <= 256
    &&& dims == n_segments * seg_len
    &&& centroids.len() == n_segments * n_centroids * seg_len
    &&& codes.len() == rows * n_segments
    &&& forall|k: int| 0 <= k < codes.len() ==> (#[trigger] codes[k]) < n_centroids
}

impl QuantizedStorage {
    /// Well-formedness: consistent table sizes and every code inside the
    /// codebook.
    pub open spec fn wf(&self) -> bool {
        &&& self.n_segments >= 1
        &&& self.seg_len >= 1
        &&& 1 <= self.n_centroids <= 256
        &&& self.dims == self.n_segments * self.seg_len
        &&& self.centroids@.len() == self.n_segments * self.n_centroids * self.seg_len
        &&& self.codes@.len() == self.rows * self.n_segments
        &&& forall|k: int| 0 <= k < self.codes@.len() ==> (#[trigger] self.codes@[k]) < self.n_centroids
    }

    /// The code of row `i` for segment `s`.
    pub open spec fn code_at(&self, i: int, s: int) -> int {
        self.codes@[i * self.n_segments + s] as int
    }

    /// Where component `j` of row `i` sits in the centroid table.
    pub open spec fn cent_index(&self, i: int, j: int) -> int {
        let s = j / (self.seg_len as int);
        let t = j % (self.seg_len as int);
        (s * self.n_centroids + self.code_at(i, s)) * self.seg_len + t
    }

    /// Row `i`, reconstructed from the centroid table.
    pub open spec fn row_of(&self, i: int) -> Seq<u32> {
        Seq::new(self.dims as nat, |j: int| self.centroids@[self.cent_index(i, j)])
    }

    /// Builds quantized storage after checking table sizes and codes.
    #[verifier::loop_isolation(false)]
    pub fn new(
        rows: usize,
        dims: usize,
        n_segments: usize,
        seg_len: usize,
        n_centroids: usize,
        centroids: Vec<u32>,
        codes: Vec<u8>,
    ) -> (r: Result<QuantizedStorage, Error>)
        ensures
            match r {
                Ok(s) => {
                    &&& s.wf()
                    &&& s.rows == rows
                    &&& s.dims == dims
                    &&& s.n_segments == n_segments
                    &&& s.seg_len == seg_len
                    &&& s.n_centroids == n_centroids
                    &&& s.centroids@ == centroids@
                    &&& s.codes@ == codes@
                },
                Err(e) => e == Error::InvalidShape && !quantized_params_ok(
                    rows as int,
                    dims as int,
                    n_segments as int,
                    seg_len as int,
                    n_centroids as int,
                    centroids@,
                    codes@,
                ),
            },
    {
        let clen = centroids.len();
        let klen = codes.len();
        if n_segments < 1 || seg_len < 1 || n_centroids < 1 || n_centroids > 256 {
            return Err(Error::InvalidShape);
        }
        if n_segments > usize::MAX / seg_len {
            proof {
                assert(n_segments * seg_len > usize::MAX) by (nonlinear_arith)
                    requires
                        seg_len >= 1 && n_segments > usize::MAX / seg_len && n_segments >= 0
                            && seg_len >= 0,
                ;
            }
            return Err(Error::InvalidShape);
        }
        proof {
            assert(n_segments * seg_len <= usize::MAX) by (nonlinear_arith)
                requires
                    seg_len >= 1 && n_segments <= usize::MAX / seg_len && n_segments >= 0
                        && seg_len >= 0,
            ;
        }
        if dims != n_segments * seg_len {
            return Err(Error::InvalidShape);
        }
        if n_segments > usize::MAX / n_centroids {
            proof {
                assert(n_segments * n_centroids > usize::MAX) by (nonlinear_arith)
                    requires
                        n_centroids >= 1 && n_segments > usize::MAX / n_centroids && n_segments
                            >= 0 && n_centroids >= 0,
                ;
                assert(n_segments * n_centroids * seg_len >= n_segments * n_centroids)
                    by (nonlinear_arith)
                    requires
                        seg_len >= 1 && n_segments * n_centroids >= 0,
                ;
            }
            return Err(Error::InvalidShape);
        }
        proof {
            assert(n_segments * n_centroids <= usize::MAX) by (nonlinear_arith)
                requires
                    n_centroids >= 1 && n_segments <= usize::MAX / n_centroids && n_segments >= 0
                        && n_centroids >= 0,
            ;
        }
        let table = n_segments * n_centroids;
        if table > usize::MAX / seg_len {
            proof {
                assert(table * seg_len > usize::MAX) by (nonlinear_arith)
                    requires
                        seg_len >= 1 && table > usize::MAX / seg_len && table >= 0 && seg_len
                            >= 0,
                ;
            }
            return Err(Error::InvalidShape);
        }
        proof {
            assert(table * seg_len <= usize::MAX) by (nonlinear_arith)
                requires
                    seg_len >= 1 && table <= usize::MAX / seg_len && table >= 0 && seg_len >= 0,
            ;
        }
        if clen != table * seg_len {
            return Err(Error::InvalidShape);
        }
        if n_segments >= 1 && rows > usize::MAX / n_segments {
            proof {
                assert(rows * n_segments > usize::MAX) by (nonlinear_arith)
                    requires
                        n_segments >= 1 && rows > usize::MAX / n_segments && rows >= 0
                            && n_segments >= 0,
                ;
            }
            return Err(Error::InvalidShape);
        }
        proof {
            assert(rows * n_segments <= usize::MAX) by (nonlinear_arith)
                requires
                    n_segments >= 1 && rows <= usize::MAX / n_segments && rows >= 0 && n_segments
                        >= 0,
            ;
        }
        if klen != rows * n_segments {
            return Err(Error::InvalidShape);
        }
        let mut k: usize = 0;
        while k < klen
            invariant
                k <= klen,
                forall|t: int| 0 <= t < k ==> (#[trigger] codes@[t]) < n_centroids,
            decreases klen - k,
        {
            if (codes[k] as usize) >= n_centroids {
                return Err(Error::InvalidShape);
            }
            k = k + 1;
        }
        Ok(
            QuantizedStorage {
                rows,
                dims,
                n_segments,
                seg_len,
                n_centroids,
                centroids,
                codes,
            },
        )
    }

    /// Reconstructs row `i`, one centroid segment at a time.
    #[verifier::loop_isolation(false)]
    pub fn row_copy(&self, i: usize) -> (r: Vec<u32>)
        requires
            self.wf(),
            i < self.rows,
        ensures
            r@ == self.row_of(i as int),
    {
        let ghost gi = i as int;
        let ghost gseg = self.n_segments as int;
        let ghost glen = self.seg_len as int;
        let ghost gcent = self.n_centroids as int;
        let codes_len = self.codes.len();
        let cents_len = self.centroids.len();
        let mut out: Vec<u32> = Vec::new();
        let mut s: usize = 0;
        while s < self.n_segments
            invariant
                s <= self.n_segments,
                codes_len == self.codes@.len(),
                cents_len == self.centroids@.len(),
                out@.len() == s * glen,
                out@.len() <= self.dims,
                forall|j: int| 0 <= j < out@.len() ==> out@[j] == self.row_of(gi)[j],
            decreases self.n_segments - s,
        {
            proof {
                assert(gi * gseg + s < self.codes@.len()) by (nonlinear_arith)
                    requires
                        0 <= gi < self.rows,
                        0 <= s < gseg,
                        self.codes@.len() == self.rows * gseg,
                ;
            }
            let code: usize = self.codes[i * self.n_segments + s] as usize;
            proof {
                assert((s * gcent + code) * glen + glen <= self.centroids@.len() && 0 <= s
                    * gcent && s * gcent + code <= (s * gcent + code) * glen)
                    by (nonlinear_arith)
                    requires
                        0 <= s < gseg,
                        0 <= code < gcent,
                        glen >= 1,
                        self.centroids@.len() == gseg * gcent * glen,
                ;
            }
            let base: usize = (s * self.n_centroids + code) * self.seg_len;
            let mut t: usize = 0;
            while t < self.seg_len
                invariant
                    t <= self.seg_len,
                    s < self.n_segments,
                    cents_len == self.centroids@.len(),
                    code == self.code_at(gi, s as int),
                    base == (s * gcent + code) * glen,
                    base + glen <= self.centroids@.len(),
                    out@.len() == s * glen + t,
                    out@.len() <= self.dims,
                    forall|j: int| 0 <= j < out@.len() ==> out@[j] == self.row_of(gi)[j],
                decreases self.seg_len - t,
            {
                proof {
                    let j = s * glen + t;
                    assert(j < self.dims) by (nonlinear_arith)
                        requires
                            0 <= t < glen,
                            0 <= s < gseg,
                            self.dims == gseg * glen,
                            j == s * glen + t,
                    ;
                    vstd::arithmetic::div_mod::lemma_fundamental_div_mod_converse(
                        j,
                        glen,
                        s as int,
                        t as int,
                    );
                    assert(self.cent_index(gi, j) == base + t);
                }
                out.push(self.centroids[base + t]);
                t = t + 1;
            }
            s = s + 1;
            proof {
                assert(s * glen == (s - 1) * glen + glen) by (nonlinear_arith)
                    requires
                        s >= 1,
                ;
            }
        }
        proof {
            assert(out@.len() == self.dims) by (nonlinear_arith)
                requires
                    out@.len() == gseg * glen || out@.len() == self.n_segments as int * glen,
                    self.dims == gseg * glen,
                    gseg == self.n_segments as int,
            ;
            assert(out@ =~= self.row_of(gi));
        }
        out
    }
}

impl StorageWrap {
    /// Well-formedness of the wrapped storage.
    pub open spec fn wf(&self) -> bool {
        match self {
            StorageWrap::Dense(s) => s.wf(),
            StorageWrap::Quantized(s) => s.wf(),
        }
    }

    /// Number of rows.
    pub open spec fn spec_rows(&self) -> int {
        match self {
            StorageWrap::Dense(s) => s.rows as int,
            StorageWrap::Quantized(s) => s.rows as int,
        }
    }

    /// Components per row.
    pub open spec fn spec_dims(&self) -> int {
        match self {
            StorageWrap::Dense(s) => s.dims as int,
            StorageWrap::Quantized(s) => s.dims as int,
        }
    }

    /// Row `i` of the matrix, whichever variant holds it.
    pub open spec fn row_of(&self, i: int) -> Seq<u32> {
        match self {
            StorageWrap::Dense(s) => s.row_of(i),
            StorageWrap::Quantized(s) => s.row_of(i),
        }
    }

    /// Whether rows can be viewed in place rather than reconstructed.
    pub open spec fn spec_viewable(&self) -> bool {
        match self {
            StorageWrap::Dense(_) => true,
            StorageWrap::Quantized(_) => false,
        }
    }

    /// Whether rows can be viewed in place rather than reconstructed.
    pub fn is_viewable(&self) -> (r: bool)
        ensures
            r == self.spec_viewable(),
    {
        match self {
            StorageWrap::Dense(_) => true,
            StorageWrap::Quantized(_) => false,
        }
    }

    /// The storage shape `(rows, dims)`.
    pub fn shape(&self) -> (r: (usize, usize))
        ensures
            r.0 == self.spec_rows(),
            r.1 == self.spec_dims(),
    {
        match self {
            StorageWrap::Dense(s) => (s.rows, s.dims),
            StorageWrap::Quantized(s) => (s.rows, s.dims),
        }
    }

    /// Every row of a well-formed dense storage has `dims` components;
    /// for quantized storage the same holds by construction.
    pub proof fn lemma_row_len(&self, i: int)
        requires
            self.wf(),
            0 <= i < self.spec_rows(),
        ensures
            self.row_of(i).len() == self.spec_dims(),
    {
        match self {
            StorageWrap::Dense(s) => {
                assert(i * s.dims + s.dims <= s.rows * s.dims) by (nonlinear_arith)
                    requires
                        0 <= i && i < s.rows && 0 <= s.dims,
                ;
                assert(0 <= i * s.dims) by (nonlinear_arith)
                    requires
                        0 <= i && 0 <= s.dims,
                ;
            },
            StorageWrap::Quantized(_) => {},
        }
    }

    /// Copies row `i`, known to be in bounds.
    pub fn row_copy(&self, i: usize) -> (r: Vec<u32>)
        requires
            self.wf(),
            i < self.spec_rows(),
        ensures
            r@ == self.row_of(i as int),
    {
        match self {
            StorageWrap::Dense(s) => s.row_copy(i),
            StorageWrap::Quantized(s) => s.row_copy(i),
        }
    }

    /// Copies row `i`, bounds-checked.
    pub fn row(&self, i: usize) -> (r: Result<Vec<u32>, Error>)
        requires
            self.wf(),
        ensures
            match r {
                Ok(v) => i < self.spec_rows() && v@ == self.row_of(i as int),
                Err(e) => e == Error::IndexOutOfRange && i >= self.spec_rows(),
            },
    {
        let (rows, _) = self.shape();
        if i < rows {
            Ok(self.row_copy(i))
        } else {
            Err(Error::IndexOutOfRange)
        }
    }

    /// Materializes the whole matrix, row by row.
    #[verifier::loop_isolation(false)]
    pub fn matrix_copy(&self) -> (r: Vec<Vec<u32>>)
        requires
            self.wf(),
        ensures
            r@.len() == self.spec_rows(),
            forall|i: int| 0 <= i < r@.len() ==> (#[trigger] r@[i])@ == self.row_of(i),
    {
        let (rows, _) = self.shape();
        let mut out: Vec<Vec<u32>> = Vec::new();
        let mut i: usize = 0;
        while i < rows
            invariant
                i <= rows,
                out@.len() == i,
                forall|j: int| 0 <= j < i ==> (#[trigger] out@[j])@ == self.row_of(j),
            decreases rows - i,
        {
            out.push(self.row_copy(i));
            i = i + 1;
        }
        out
    }
}

/// Precomputed per-row L2 norms, aligned with the word rows.
pub struct NormCache {
    /// One norm bit pattern per word row.
    pub norms: Vec<u32>,
}

impl NormCache {
    /// Wraps a norm table.
    pub fn new(norms: Vec<u32>) -> (r: NormCache)
        ensures
            r.norms@ == norms@,
    {
        NormCache { norms }
    }

    /// The number of cached norms.
    pub fn len(&self) -> (r: usize)
        ensures
            r == self.norms@.len(),
    {
        self.norms.len()
    }

    /// The cached norm of row `i`.
    pub fn norm(&self, i: usize) -> (r: u32)
        requires
            i < self.norms@.len(),
        ensures
            r == self.norms@[i as int],
    {
        self.norms[i]
    }
}

} // verus!
