//! Verified vector arithmetic over scalar bit patterns.
//!
//! Each executable function mirrors a spec function built from the named
//! scalar operations, so a caller knows the exact sequence of IEEE
//! operations a result went through: dot products accumulate left to
//! right from 0.0, means sum rows in order and divide by the row count,
//! and norms apply a Newton square-root iteration to the self dot
//! product.

use vstd::prelude::*;

use crate::scalar::add_of;
use crate::scalar::div_of;
use crate::scalar::float_of;
use crate::scalar::mul_of;
use crate::scalar::sub_of;
use crate::scalar::bits_add;
use crate::scalar::bits_div;
use crate::scalar::bits_from_count;
use crate::scalar::bits_mul;
use crate::scalar::bits_sub;
use crate::scalar::HALF_BITS;
use crate::scalar::ZERO_BITS;

verus! {

/// The dot product of two equally long vectors: products accumulated left
/// to right onto 0.0.
pub open spec fn dot_of(a: Seq<u32>, b: Seq<u32>) -> u32
    decreases a.len(),
{
    if a.len() == 0 {
        ZERO_BITS
    } else {
        add_of(dot_of(a.drop_last(), b.drop_last()), mul_of(a.last(), b.last()))
    }
}

/// Pointwise sum of two equally long vectors.
pub open spec fn vadd_of(a: Seq<u32>, b: Seq<u32>) -> Seq<u32> {
    Seq::new(a.len(), |j: int| add_of(a[j], b[j]))
}

/// Pointwise difference of two equally long vectors.
pub open spec fn vsub_of(a: Seq<u32>, b: Seq<u32>) -> Seq<u32> {
    Seq::new(a.len(), |j: int| sub_of(a[j], b[j]))
}

/// Component `j` of the sum of a sequence of vectors, accumulated in
/// sequence order onto 0.0.
pub open spec fn vsum_of(rows: Seq<Seq<u32>>, j: int) -> u32
    decreases rows.len(),
{
    if rows.len() == 0 {
        ZERO_BITS
    } else {
        add_of(vsum_of(rows.drop_last(), j), rows.last()[j])
    }
}

/// The views of a list of vectors.
pub open spec fn rows_view(rs: Seq<Vec<u32>>) -> Seq<Seq<u32>> {
    Seq::new(rs.len(), |i: int| rs[i]@)
}

/// The arithmetic mean of a sequence of vectors of length `dims`: the
/// componentwise sum divided by the number of vectors.
pub open spec fn mean_of(rows: Seq<Seq<u32>>, dims: int) -> Seq<u32> {
    Seq::new(dims as nat, |j: int| div_of(vsum_of(rows, j), float_of(rows.len() as u32)))
}

/// One Newton step for the square root of `x`: `0.5 * (y + x / y)`.
pub open spec fn sqrt_step_of(x: u32, y: u32) -> u32 {
    mul_of(HALF_BITS, add_of(y, div_of(x, y)))
}

/// The square root of `x`, approximated by five Newton steps from a
/// bit-level initial estimate.
pub open spec fn sqrt_of(x: u32) -> u32 {
    sqrt_step_of(
        x,
        sqrt_step_of(x, sqrt_step_of(x, sqrt_step_of(x, sqrt_step_of(x, sqrt_seed_of(x))))),
    )
}

/// The initial estimate of the square root of `x`: halving the exponent
/// and re-centering the bias gives a value within a factor of two of the
/// root for every positive finite `x`.
pub open spec fn sqrt_seed_of(x: u32) -> u32 {
    (x / 2 + 0x1FC0_0000) as u32
}

/// The L2 norm of a vector: the square root of its self dot product.
pub open spec fn norm_of(v: Seq<u32>) -> u32 {
    sqrt_of(dot_of(v, v))
}

/// The cosine similarity of a query with norm `qn` against a row with
/// norm `rn`: their dot product divided by the product of the norms.
pub open spec fn cos_of(q: Seq<u32>, qn: u32, row: Seq<u32>, rn: u32) -> u32 {
    div_of(dot_of(q, row), mul_of(qn, rn))
}

/// Copies a vector of components.
#[verifier::loop_isolation(false)]
pub fn copy_components(v: &Vec<u32>) -> (r: Vec<u32>)
    ensures
        r@ == v@,
{
    let mut out: Vec<u32> = Vec::new();
    let mut i: usize = 0;
    while i < v.len()
        invariant
            i <= v@.len(),
            out@.len() == i,
            forall|j: int| 0 <= j < i ==> out@[j] == v@[j],
        decreases v@.len() - i,
    {
        out.push(v[i]);
        i = i + 1;
    }
    proof {
        assert(out@ =~= v@);
    }
    out
}

/// Computes the dot product of two equally long vectors.
#[verifier::loop_isolation(false)]
pub fn dot(a: &Vec<u32>, b: &Vec<u32>) -> (r: u32)
    requires
        a@.len() == b@.len(),
    ensures
        r == dot_of(a@, b@),
{
    let mut acc: u32 = ZERO_BITS;
    let mut i: usize = 0;
    while i < a.len()
        invariant
            i <= a@.len(),
            acc == dot_of(a@.take(i as int), b@.take(i as int)),
        decreases a@.len() - i,
    {
        let p = bits_mul(a[i], b[i]);
        acc = bits_add(acc, p);
        i = i + 1;
        proof {
            assert(a@.take(i as int).drop_last() =~= a@.take(i - 1));
            assert(b@.take(i as int).drop_last() =~= b@.take(i - 1));
        }
    }
    proof {
        assert(a@.take(a@.len() as int) =~= a@);
        assert(b@.take(b@.len() as int) =~= b@);
    }
    acc
}

/// Computes the pointwise sum of two equally long vectors.
#[verifier::loop_isolation(false)]
pub fn vec_add(a: &Vec<u32>, b: &Vec<u32>) -> (r: Vec<u32>)
    requires
        a@.len() == b@.len(),
    ensures
        r@ == vadd_of(a@, b@),
{
    let mut out: Vec<u32> = Vec::new();
    let mut i: usize = 0;
    while i < a.len()
        invariant
            i <= a@.len(),
            out@.len() == i,
            forall|j: int| 0 <= j < i ==> out@[j] == add_of(a@[j], b@[j]),
        decreases a@.len() - i,
    {
        out.push(bits_add(a[i], b[i]));
        i = i + 1;
    }
    proof {
        assert(out@ =~= vadd_of(a@, b@));
    }
    out
}

/// Computes the pointwise difference of two equally long vectors.
#[verifier::loop_isolation(false)]
pub fn vec_sub(a: &Vec<u32>, b: &Vec<u32>) -> (r: Vec<u32>)
    requires
        a@.len() == b@.len(),
    ensures
        r@ == vsub_of(a@, b@),
{
    let mut out: Vec<u32> = Vec::new();
    let mut i: usize = 0;
    while i < a.len()
        invariant
            i <= a@.len(),
            out@.len() == i,
            forall|j: int| 0 <= j < i ==> out@[j] == sub_of(a@[j], b@[j]),
        decreases a@.len() - i,
    {
        out.push(bits_sub(a[i], b[i]));
        i = i + 1;
    }
    proof {
        assert(out@ =~= vsub_of(a@, b@));
    }
    out
}

/// Computes the arithmetic mean of a non-empty collection of equally long
/// vectors.
#[verifier::loop_isolation(false)]
pub fn mean_rows(rows: &Vec<Vec<u32>>, dims: usize) -> (r: Vec<u32>)
    requires
        1 <= rows@.len() <= u32::MAX,
        forall|i: int| 0 <= i < rows@.len() ==> (#[trigger] rows@[i])@.len() == dims,
    ensures
        r@ == mean_of(rows_view(rows@), dims as int),
{
    let mut sums: Vec<u32> = Vec::new();
    let mut j: usize = 0;
    while j < dims
        invariant
            j <= dims,
            sums@.len() == j,
            forall|t: int| 0 <= t < j ==> sums@[t] == ZERO_BITS,
        decreases dims - j,
    {
        sums.push(ZERO_BITS);
        j = j + 1;
    }
    proof {
        assert(rows_view(rows@).take(0) =~= Seq::<Seq<u32>>::empty());
    }
    let mut k: usize = 0;
    while k < rows.len()
        invariant
            k <= rows@.len(),
            sums@.len() == dims,
            forall|t: int| 0 <= t < dims ==> sums@[t] == vsum_of(rows_view(rows@).take(k as int), t),
        decreases rows@.len() - k,
    {
        let row = &rows[k];
        let mut j2: usize = 0;
        while j2 < dims
            invariant
                j2 <= dims,
                sums@.len() == dims,
                forall|t: int|
                    0 <= t < j2 ==> sums@[t] == add_of(
                        vsum_of(rows_view(rows@).take(k as int), t),
                        rows_view(rows@)[k as int][t],
                    ),
                forall|t: int|
                    j2 <= t < dims ==> sums@[t] == vsum_of(rows_view(rows@).take(k as int), t),
            decreases dims - j2,
        {
            let v = bits_add(sums[j2], row[j2]);
            sums.set(j2, v);
            j2 = j2 + 1;
        }
        k = k + 1;
        proof {
            let rs = rows_view(rows@);
            assert(rs.take(k as int).drop_last() =~= rs.take(k - 1));
            assert(forall|t: int| 0 <= t < dims ==> sums@[t] == vsum_of(rs.take(k as int), t));
        }
    }
    proof {
        assert(rows_view(rows@).take(rows@.len() as int) =~= rows_view(rows@));
    }
    let nf = bits_from_count(rows.len() as u32);
    let mut out: Vec<u32> = Vec::new();
    let mut j3: usize = 0;
    while j3 < dims
        invariant
            j3 <= dims,
            out@.len() == j3,
            nf == float_of(rows@.len() as u32),
            sums@.len() == dims,
            forall|t: int| 0 <= t < dims ==> sums@[t] == vsum_of(rows_view(rows@), t),
            forall|t: int|
                0 <= t < j3 ==> out@[t] == div_of(vsum_of(rows_view(rows@), t), nf),
        decreases dims - j3,
    {
        out.push(bits_div(sums[j3], nf));
        j3 = j3 + 1;
    }
    proof {
        assert(out@ =~= mean_of(rows_view(rows@), dims as int));
    }
    out
}

/// Approximates the square root of `x` by five Newton steps.
pub fn sqrt_bits(x: u32) -> (r: u32)
    ensures
        r == sqrt_of(x),
{
    let mut y: u32 = x / 2 + 0x1FC0_0000;
    let mut k: usize = 0;
    while k < 5
        invariant
            k <= 5,
            y == iterate_sqrt_of(x, k as nat),
        decreases 5 - k,
    {
        y = bits_mul(HALF_BITS, bits_add(y, bits_div(x, y)));
        k = k + 1;
    }
    proof {
        reveal_with_fuel(iterate_sqrt_of, 6);
        assert(iterate_sqrt_of(x, 5) == sqrt_of(x));
    }
    y
}

/// `k` Newton steps from the initial estimate; five steps give `sqrt_of`.
pub open spec fn iterate_sqrt_of(x: u32, k: nat) -> u32
    decreases k,
{
    if k == 0 {
        sqrt_seed_of(x)
    } else {
        sqrt_step_of(x, iterate_sqrt_of(x, (k - 1) as nat))
    }
}

/// Computes the L2 norm of a vector.
pub fn norm(v: &Vec<u32>) -> (r: u32)
    ensures
        r == norm_of(v@),
{
    let d = dot(v, v);
    sqrt_bits(d)
}

/// Computes the cosine similarity of a query against a row from their dot
/// product and their two norms.
pub fn cosine(q: &Vec<u32>, qn: u32, row: &Vec<u32>, rn: u32) -> (r: u32)
    requires
        q@.len() == row@.len(),
    ensures
        r == cos_of(q@, qn, row@, rn),
{
    let d = dot(q, row);
    bits_div(d, bits_mul(qn, rn))
}

} // verus!
