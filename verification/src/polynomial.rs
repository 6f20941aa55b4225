//! Simple dense polynomials with integer coefficients, stored lowest degree
//! first in a small-vector that keeps short coefficient lists inline.
//!
//! Multiplication walks the anti-diagonals of the coefficient product grid
//! and sums each one, so the product's coefficient of degree `k` is the
//! convolution of the factors' coefficients.

use vstd::prelude::*;
use smallvec::SmallVec;

verus! {

/// Marker for the variable name a polynomial is written in.
pub trait Axis {
    fn axis() -> &'static str;
}

/// The coefficient store: a small-vector that keeps up to five
/// coefficients inline before spilling to the heap.  Opaque to
/// verification; its contents are reached through `coef_elems` and the
/// trusted accessors below.
#[verifier::external_body]
#[derive(Debug)]
pub struct CoefStore {
    store: SmallVec<[i64; 5]>,
}

/// What a coefficient store holds, lowest degree first.
pub uninterp spec fn coef_elems(v: CoefStore) -> Seq<i64>;

/// Relies on smallvec::SmallVec::new: a fresh store holds nothing.
#[verifier::external_body]
fn coefs_new() -> (v: CoefStore)
    ensures
        coef_elems(v) == Seq::<i64>::empty(),
{
    CoefStore { store: SmallVec::new() }
}

/// Relies on smallvec::SmallVec::push: appends one element at the end.
#[verifier::external_body]
fn coefs_push(v: &mut CoefStore, x: i64)
    ensures
        coef_elems(*final (v)) == coef_elems(*old(v)).push(x),
{
    v.store.push(x);
}

/// Relies on smallvec::SmallVec::len: the number of stored elements.
#[verifier::external_body]
fn coefs_len(v: &CoefStore) -> (n: usize)
    ensures
        n == coef_elems(*v).len(),
{
    v.store.len()
}

/// Relies on smallvec::SmallVec's slice indexing (through Deref).
#[verifier::external_body]
fn coefs_get(v: &CoefStore, i: usize) -> (x: i64)
    requires
        i < coef_elems(*v).len(),
    ensures
        x == coef_elems(*v)[i as int],
{
    v.store[i]
}

/// A simple polynomial type over an axis marker.
#[derive(Debug)]
pub struct Polynomial<TAxis> {
    pub coefs: CoefStore,
    pub _phantom: core::marker::PhantomData<TAxis>,
}

/// The coefficient of degree `i`, treating missing entries as zero.
pub open spec fn coef_at(s: Seq<i64>, i: int) -> int {
    if 0 <= i < s.len() {
        s[i] as int
    } else {
        0
    }
}

/// The degree-`k` coefficient of the product of two coefficient lists,
/// summed over the first `n` coefficients of the left factor.
pub open spec fn conv_upto(a: Seq<i64>, b: Seq<i64>, k: int, n: int) -> int
    decreases n,
{
    if n <= 0 {
        0
    } else {
        conv_upto(a, b, k, n - 1) + coef_at(a, n - 1) * coef_at(b, k - (n - 1))
    }
}

/// The degree-`k` coefficient of the product of two coefficient lists.
pub open spec fn conv_at(a: Seq<i64>, b: Seq<i64>, k: int) -> int {
    conv_upto(a, b, k, a.len() as int)
}

impl<TAxis> Polynomial<TAxis> {
    /// The coefficients as a mathematical sequence, lowest degree first.
    pub open spec fn spec_coefs(self) -> Seq<i64> {
        coef_elems(self.coefs)
    }

    /// Number of stored coefficients.
    pub fn len(&self) -> (n: usize)
        ensures
            n == self.spec_coefs().len(),
    {
        coefs_len(&self.coefs)
    }

    /// Build a polynomial from a coefficient list, lowest degree first.
    pub fn new(coefs: Vec<i64>) -> (p: Polynomial<TAxis>)
        ensures
            p.spec_coefs() == coefs@,
    {
        let mut store = coefs_new();
        let n = coefs.len();
        let mut i: usize = 0;
        while i < n
            invariant
                i <= n,
                n == coefs@.len(),
                coef_elems(store) == coefs@.take(i as int),
            decreases n - i,
        {
            coefs_push(&mut store, coefs[i]);
            proof {
                assert(coefs@.take(i as int).push(coefs@[i as int]) =~= coefs@.take(
                    i as int + 1));
            }
            i = i + 1;
        }
        proof {
            assert(coefs@.take(n as int) =~= coefs@);
        }
        Polynomial { coefs: store, _phantom: core::marker::PhantomData }
    }

    /// Build a polynomial from a fixed-size coefficient array.
    pub fn from_array<const N: usize>(array: [i64; N]) -> (p: Polynomial<TAxis>)
        ensures
            p.spec_coefs() == array@,
    {
        let mut store = coefs_new();
        let mut i: usize = 0;
        while i < N
            invariant
                i <= N,
                coef_elems(store) == array@.take(i as int),
            decreases N - i,
        {
            coefs_push(&mut store, array[i]);
            proof {
                assert(array@.take(i as int).push(array@[i as int]) =~= array@.take(
                    i as int + 1));
            }
            i = i + 1;
        }
        proof {
            assert(array@.take(N as int) =~= array@);
        }
        Polynomial { coefs: store, _phantom: core::marker::PhantomData }
    }

    /// The coefficient of degree `i`, or `None` past the end.
    pub fn get(&self, i: usize) -> (r: Option<i64>)
        ensures
            i < self.spec_coefs().len() ==> r == Some(self.spec_coefs()[i as int]),
            i >= self.spec_coefs().len() ==> r is None,
    {
        if i < coefs_len(&self.coefs) {
            Some(coefs_get(&self.coefs, i))
        } else {
            None
        }
    }

    /// The coefficient of degree `i`, zero past the end.
    fn coef_or_zero(&self, i: usize) -> (r: i64)
        ensures
            r == coef_at(self.spec_coefs(), i as int),
    {
        if i < coefs_len(&self.coefs) {
            coefs_get(&self.coefs, i)
        } else {
            0
        }
    }

    /// Sum of two polynomials, coefficient by coefficient; the shorter one
    /// is padded with zeros.
    pub fn add(self, other: Polynomial<TAxis>) -> (r: Polynomial<TAxis>)
        requires
            forall|i: int|
                0 <= i < self.spec_coefs().len() ==> -4611686018427387903
                    <= #[trigger] self.spec_coefs()[i] <= 4611686018427387903,
            forall|i: int|
                0 <= i < other.spec_coefs().len() ==> -4611686018427387903
                    <= #[trigger] other.spec_coefs()[i] <= 4611686018427387903,
        ensures
            r.spec_coefs().len() == if self.spec_coefs().len() >= other.spec_coefs().len() {
                self.spec_coefs().len()
            } else {
                other.spec_coefs().len()
            },
            forall|i: int|
                0 <= i < r.spec_coefs().len() ==> #[trigger] r.spec_coefs()[i] == coef_at(
                    self.spec_coefs(), i) + coef_at(other.spec_coefs(), i),
    {
        let n1 = coefs_len(&self.coefs);
        let n2 = coefs_len(&other.coefs);
        let n = if n1 >= n2 {
            n1
        } else {
            n2
        };
        let mut store = coefs_new();
        let mut i: usize = 0;
        while i < n
            invariant
                i <= n,
                n == if self.spec_coefs().len() >= other.spec_coefs().len() {
                    self.spec_coefs().len()
                } else {
                    other.spec_coefs().len()
                },
                forall|j: int|
                    0 <= j < self.spec_coefs().len() ==> -4611686018427387903
                        <= #[trigger] self.spec_coefs()[j] <= 4611686018427387903,
                forall|j: int|
                    0 <= j < other.spec_coefs().len() ==> -4611686018427387903
                        <= #[trigger] other.spec_coefs()[j] <= 4611686018427387903,
                coef_elems(store).len() == i,
                forall|j: int|
                    0 <= j < i ==> #[trigger] coef_elems(store)[j] == coef_at(self.spec_coefs(),
                        j) + coef_at(other.spec_coefs(), j),
            decreases n - i,
        {
            let a = self.coef_or_zero(i);
            let b = other.coef_or_zero(i);
            coefs_push(&mut store, a + b);
            i = i + 1;
        }
        Polynomial { coefs: store, _phantom: core::marker::PhantomData }
    }

    /// Difference of two polynomials, coefficient by coefficient; the
    /// shorter one is padded with zeros.
    pub fn sub(self, other: Polynomial<TAxis>) -> (r: Polynomial<TAxis>)
        requires
            forall|i: int|
                0 <= i < self.spec_coefs().len() ==> -4611686018427387903
                    <= #[trigger] self.spec_coefs()[i] <= 4611686018427387903,
            forall|i: int|
                0 <= i < other.spec_coefs().len() ==> -4611686018427387903
                    <= #[trigger] other.spec_coefs()[i] <= 4611686018427387903,
        ensures
            r.spec_coefs().len() == if self.spec_coefs().len() >= other.spec_coefs().len() {
                self.spec_coefs().len()
            } else {
                other.spec_coefs().len()
            },
            forall|i: int|
                0 <= i < r.spec_coefs().len() ==> #[trigger] r.spec_coefs()[i] == coef_at(
                    self.spec_coefs(), i) - coef_at(other.spec_coefs(), i),
    {
        let n1 = coefs_len(&self.coefs);
        let n2 = coefs_len(&other.coefs);
        let n = if n1 >= n2 {
            n1
        } else {
            n2
        };
        let mut store = coefs_new();
        let mut i: usize = 0;
        while i < n
            invariant
                i <= n,
                n == if self.spec_coefs().len() >= other.spec_coefs().len() {
                    self.spec_coefs().len()
                } else {
                    other.spec_coefs().len()
                },
                forall|j: int|
                    0 <= j < self.spec_coefs().len() ==> -4611686018427387903
                        <= #[trigger] self.spec_coefs()[j] <= 4611686018427387903,
                forall|j: int|
                    0 <= j < other.spec_coefs().len() ==> -4611686018427387903
                        <= #[trigger] other.spec_coefs()[j] <= 4611686018427387903,
                coef_elems(store).len() == i,
                forall|j: int|
                    0 <= j < i ==> #[trigger] coef_elems(store)[j] == coef_at(self.spec_coefs(),
                        j) - coef_at(other.spec_coefs(), j),
            decreases n - i,
        {
            let a = self.coef_or_zero(i);
            let b = other.coef_or_zero(i);
            coefs_push(&mut store, a - b);
            i = i + 1;
        }
        Polynomial { coefs: store, _phantom: core::marker::PhantomData }
    }

    /// Product of two polynomials: the degree-`k` coefficient of the
    /// result is the convolution of the factors' coefficients.
    pub fn mul(self, other: Polynomial<TAxis>) -> (r: Polynomial<TAxis>)
        requires
            self.spec_coefs().len() >= 1,
            other.spec_coefs().len() >= 1,
            self.spec_coefs().len() <= 1024,
            other.spec_coefs().len() <= 1024,
            forall|i: int|
                0 <= i < self.spec_coefs().len() ==> -1048576 <= #[trigger] self.spec_coefs()[i]
                    <= 1048576,
            forall|i: int|
                0 <= i < other.spec_coefs().len() ==> -1048576
                    <= #[trigger] other.spec_coefs()[i] <= 1048576,
        ensures
            r.spec_coefs().len() == self.spec_coefs().len() + other.spec_coefs().len() - 1,
            forall|k: int|
                0 <= k < r.spec_coefs().len() ==> #[trigger] r.spec_coefs()[k] == conv_at(
                    self.spec_coefs(), other.spec_coefs(), k),
    {
        let n1 = coefs_len(&self.coefs);
        let n2 = coefs_len(&other.coefs);
        let n = n1 + n2 - 1;
        let mut store = coefs_new();
        let mut k: usize = 0;
        while k < n
            invariant
                k <= n,
                n == self.spec_coefs().len() + other.spec_coefs().len() - 1,
                n1 == self.spec_coefs().len(),
                1 <= n1 <= 1024,
                1 <= other.spec_coefs().len() <= 1024,
                forall|j: int|
                    0 <= j < self.spec_coefs().len() ==> -1048576
                        <= #[trigger] self.spec_coefs()[j] <= 1048576,
                forall|j: int|
                    0 <= j < other.spec_coefs().len() ==> -1048576
                        <= #[trigger] other.spec_coefs()[j] <= 1048576,
                coef_elems(store).len() == k,
                forall|j: int|
                    0 <= j < k ==> #[trigger] coef_elems(store)[j] == conv_at(self.spec_coefs(),
                        other.spec_coefs(), j),
            decreases n - k,
        {
            let mut acc: i64 = 0;
            let mut i: usize = 0;
            while i < n1
                invariant
                    i <= n1,
                    n1 == self.spec_coefs().len(),
                    1 <= n1 <= 1024,
                    1 <= other.spec_coefs().len() <= 1024,
                    forall|j: int|
                        0 <= j < self.spec_coefs().len() ==> -1048576
                            <= #[trigger] self.spec_coefs()[j] <= 1048576,
                    forall|j: int|
                        0 <= j < other.spec_coefs().len() ==> -1048576
                            <= #[trigger] other.spec_coefs()[j] <= 1048576,
                    acc == conv_upto(self.spec_coefs(), other.spec_coefs(), k as int, i as int),
                    -1125899906842624 * (i as int) <= acc <= 1125899906842624 * (i as int),
                decreases n1 - i,
            {
                let a = coefs_get(&self.coefs, i);
                let b = if k >= i && k - i < coefs_len(&other.coefs) {
                    coefs_get(&other.coefs, k - i)
                } else {
                    0
                };
                proof {
                    assert(-1125899906842624 <= a * b <= 1125899906842624) by (nonlinear_arith)
                        requires
                            -1048576 <= a <= 1048576,
                            -1048576 <= b <= 1048576,
                    ;
                    assert(b == coef_at(other.spec_coefs(), k as int - i as int));
                }
                acc = acc + a * b;
                i = i + 1;
            }
            coefs_push(&mut store, acc);
            k = k + 1;
        }
        Polynomial { coefs: store, _phantom: core::marker::PhantomData }
    }
}

impl<TAxis> PartialEq for Polynomial<TAxis> {
    /// Two polynomials are equal when they store the same coefficients.
    fn eq(&self, other: &Polynomial<TAxis>) -> (r: bool) {
        let n1 = coefs_len(&self.coefs);
        let n2 = coefs_len(&other.coefs);
        if n1 != n2 {
            proof {
                assert(self.spec_coefs().len() != other.spec_coefs().len());
            }
            return false;
        }
        let mut i: usize = 0;
        while i < n1
            invariant
                i <= n1,
                n1 == self.spec_coefs().len(),
                n1 == other.spec_coefs().len(),
                forall|j: int|
                    0 <= j < i ==> #[trigger] self.spec_coefs()[j] == other.spec_coefs()[j],
            decreases n1 - i,
        {
            if coefs_get(&self.coefs, i) != coefs_get(&other.coefs, i) {
                proof {
                    assert(self.spec_coefs()[i as int] != other.spec_coefs()[i as int]);
                }
                return false;
            }
            i = i + 1;
        }
        proof {
            assert(self.spec_coefs() =~= other.spec_coefs());
        }
        true
    }
}

impl<TAxis> vstd::std_specs::cmp::PartialEqSpecImpl for Polynomial<TAxis> {
    open spec fn obeys_eq_spec() -> bool {
        true
    }

    open spec fn eq_spec(&self, other: &Polynomial<TAxis>) -> bool {
        self.spec_coefs() == other.spec_coefs()
    }
}

/// The anti-diagonal `k` of a grid of rows: the entries `rows[i][k - i]`
/// for ascending `i`, where they exist.
pub open spec fn diag_upto(rows: Seq<Seq<i64>>, k: int, n: int) -> Seq<i64>
    decreases n,
{
    if n <= 0 {
        Seq::empty()
    } else {
        diag_upto(rows, k, n - 1) + (if 0 <= k - (n - 1) < rows[n - 1].len() {
            seq![rows[n - 1][k - (n - 1)]]
        } else {
            Seq::empty()
        })
    }
}

/// The number of anti-diagonals a grid of rows has.
pub open spec fn diag_count(rows: Seq<Seq<i64>>) -> int
    decreases rows.len(),
{
    if rows.len() == 0 {
        0
    } else {
        let rest = diag_count(rows.drop_last());
        let own = rows.len() - 1 + rows.last().len();
        if own >= rest {
            own
        } else {
            rest
        }
    }
}

/// Walk a grid of rows by anti-diagonals: output `k` holds the entries
/// `rows[i][k - i]` in ascending row order.
pub fn diamondize(rows: &Vec<Vec<i64>>) -> (r: Vec<Vec<i64>>)
    requires
        rows@.len() <= 65536,
        forall|i: int| 0 <= i < rows@.len() ==> (#[trigger] rows@[i])@.len() <= 65536,
    ensures
        r@.len() == diag_count(rows@.map_values(|v: Vec<i64>| v@)),
        forall|k: int|
            0 <= k < r@.len() ==> (#[trigger] r@[k])@ == diag_upto(rows@.map_values(
                |v: Vec<i64>| v@), k, rows@.len() as int),
{
    let ghost grid = rows@.map_values(|v: Vec<i64>| v@);
    let nr = rows.len();
    let mut count: usize = 0;
    let mut i: usize = 0;
    proof {
        assert(diag_count(grid.take(0)) == 0);
    }
    while i < nr
        invariant
            i <= nr,
            nr == rows@.len() <= 65536,
            grid == rows@.map_values(|v: Vec<i64>| v@),
            forall|j: int| 0 <= j < rows@.len() ==> (#[trigger] rows@[j])@.len() <= 65536,
            count == diag_count(grid.take(i as int)),
            count <= 131072,
        decreases nr - i,
    {
        let own = i + rows[i].len();
        proof {
            assert(grid.take(i as int + 1).drop_last() =~= grid.take(i as int));
            assert(grid.take(i as int + 1).last() == grid[i as int]);
            assert(grid[i as int] == rows@[i as int]@);
        }
        if own >= count {
            count = own;
        }
        i = i + 1;
    }
    proof {
        assert(grid.take(nr as int) =~= grid);
    }
    let mut r: Vec<Vec<i64>> = Vec::new();
    let mut k: usize = 0;
    while k < count
        invariant
            k <= count,
            count == diag_count(grid),
            nr == rows@.len() <= 65536,
            grid == rows@.map_values(|v: Vec<i64>| v@),
            forall|j: int| 0 <= j < rows@.len() ==> (#[trigger] rows@[j])@.len() <= 65536,
            r@.len() == k,
            forall|m: int|
                0 <= m < k ==> (#[trigger] r@[m])@ == diag_upto(grid, m, rows@.len() as int),
        decreases count - k,
    {
        let mut row: Vec<i64> = Vec::new();
        let mut i: usize = 0;
        proof {
            assert(row@ =~= diag_upto(grid, k as int, 0));
        }
        while i < nr
            invariant
                i <= nr,
                nr == rows@.len(),
                grid == rows@.map_values(|v: Vec<i64>| v@),
                row@ == diag_upto(grid, k as int, i as int),
            decreases nr - i,
        {
            proof {
                assert(grid[i as int] == rows@[i as int]@);
            }
            if k >= i && k - i < rows[i].len() {
                row.push(rows[i][k - i]);
            }
            i = i + 1;
        }
        r.push(row);
        k = k + 1;
    }
    r
}

} // verus!
