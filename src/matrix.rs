//! Rectangular matrices over GF(2^8).
use vstd::prelude::*;
use crate::error::RsError;
use crate::finite_field::Field256;
use crate::gf::{gf_add, gf_inv, gf_mul, gf_pow, lemma_mul_identities, lemma_xor};

verus! {

/// `sum_{k < n} row[k] * b[k][j]`.
pub open spec fn dot(row: Seq<u8>, b: Seq<Seq<u8>>, j: int, n: nat) -> u8
    decreases n,
{
    if n == 0 {
        0
    } else {
        gf_add(dot(row, b, j, (n - 1) as nat), gf_mul(row[n - 1], b[n - 1][j]))
    }
}

/// `sum_{k < n} row[k] * x[k]`.
pub open spec fn vec_dot(row: Seq<u8>, x: Seq<u8>, n: nat) -> u8
    decreases n,
{
    if n == 0 {
        0
    } else {
        gf_add(vec_dot(row, x, (n - 1) as nat), gf_mul(row[n - 1], x[n - 1]))
    }
}

/// The product of an `rows x inner` and an `inner x cols` matrix.
pub open spec fn mat_mul(a: Seq<Seq<u8>>, b: Seq<Seq<u8>>, rows: nat, cols: nat, inner: nat) -> Seq<
    Seq<u8>,
> {
    Seq::new(rows, |i: int| Seq::new(cols, |j: int| dot(a[i], b, j, inner)))
}

/// The product of a `rows x cols` matrix with a vector.
pub open spec fn mat_vec(a: Seq<Seq<u8>>, x: Seq<u8>, rows: nat, cols: nat) -> Seq<u8> {
    Seq::new(rows, |i: int| vec_dot(a[i], x, cols))
}

/// The `n x n` identity.
pub open spec fn identity_seq(n: nat) -> Seq<Seq<u8>> {
    Seq::new(n, |i: int| Seq::new(n, |j: int| if i == j { 1u8 } else { 0u8 }))
}

/// The `rows x cols` zero matrix.
pub open spec fn zero_seq(rows: nat, cols: nat) -> Seq<Seq<u8>> {
    Seq::new(rows, |i: int| Seq::new(cols, |j: int| 0u8))
}

/// The indices `i < mask.len()` with `mask[i]`, in increasing order.
pub open spec fn selected(mask: Seq<bool>) -> Seq<int>
    decreases mask.len(),
{
    if mask.len() == 0 {
        Seq::empty()
    } else {
        let s = selected(mask.drop_last());
        if mask.last() {
            s.push(mask.len() - 1)
        } else {
            s
        }
    }
}

/// Row `i`, column `j` of the Vandermonde matrix whose rows start at `start`.
pub open spec fn vandermonde_entry(start: int, i: int, j: int) -> u8 {
    gf_pow((start + i) as u8, j as nat)
}

/// Row `i`, column `j` of the Cauchy matrix `1 / (x_i + y_j)` with `x_i = start + i` and
/// `y_j = j`.
pub open spec fn cauchy_entry(start: int, i: int, j: int) -> u8 {
    gf_inv(gf_add((start + i) as u8, j as u8))
}

/// A matrix of field elements, stored by rows.
#[derive(Debug, PartialEq, Eq)]
pub struct Matrix {
    pub rows: usize,
    pub cols: usize,
    pub mat: Vec<Vec<u8>>,
}

impl View for Matrix {
    type V = Seq<Seq<u8>>;

    open spec fn view(&self) -> Seq<Seq<u8>> {
        self.mat@.map_values(|r: Vec<u8>| r@)
    }
}

proof fn lemma_identity_dot_left(i: int, m: Seq<Seq<u8>>, j: int, n: nat, size: nat)
    requires
        n <= size,
        0 <= i < size,
        m.len() >= size,
    ensures
        dot(identity_seq(size)[i], m, j, n) == if i < n { m[i][j] } else { 0u8 },
    decreases n,
{
    if n > 0 {
        lemma_identity_dot_left(i, m, j, (n - 1) as nat, size);
        lemma_mul_identities(m[n - 1][j]);
        lemma_xor(m[i][j], 0, 0);
        lemma_xor(0, 0, 0);
        lemma_xor(m[n - 1][j], 0, 0);
    }
}

proof fn lemma_identity_dot_right(row: Seq<u8>, j: int, n: nat, size: nat)
    requires
        n <= size,
        0 <= j < size,
        row.len() >= size,
    ensures
        dot(row, identity_seq(size), j, n) == if j < n { row[j] } else { 0u8 },
    decreases n,
{
    if n > 0 {
        lemma_identity_dot_right(row, j, (n - 1) as nat, size);
        lemma_mul_identities(row[n - 1]);
        lemma_xor(row[j], 0, 0);
        lemma_xor(0, 0, 0);
        lemma_xor(row[n - 1], 0, 0);
    }
}

/// The identity is neutral for multiplication on either side.
pub proof fn lemma_identity_neutral(m: Seq<Seq<u8>>, rows: nat, cols: nat)
    requires
        m.len() == rows,
        forall|i: int| 0 <= i < rows ==> #[trigger] m[i].len() == cols,
    ensures
        mat_mul(identity_seq(rows), m, rows, cols, rows) == m,
        mat_mul(m, identity_seq(cols), rows, cols, cols) == m,
{
    assert forall|i: int, j: int| 0 <= i < rows && 0 <= j < cols implies #[trigger] mat_mul(
        identity_seq(rows),
        m,
        rows,
        cols,
        rows,
    )[i][j] == m[i][j] by {
        lemma_identity_dot_left(i, m, j, rows, rows);
    }
    assert(mat_mul(identity_seq(rows), m, rows, cols, rows) =~~= m);
    assert forall|i: int, j: int| 0 <= i < rows && 0 <= j < cols implies #[trigger] mat_mul(
        m,
        identity_seq(cols),
        rows,
        cols,
        cols,
    )[i][j] == m[i][j] by {
        lemma_identity_dot_right(m[i], j, cols, cols);
    }
    assert(mat_mul(m, identity_seq(cols), rows, cols, cols) =~~= m);
}

/// A fresh `n`-element row that is zero except for a 1 at `one` (if `one < n`).
fn unit_row(n: usize, one: usize) -> (r: Vec<u8>)
    ensures
        r@ == Seq::new(n as nat, |j: int| if j == one { 1u8 } else { 0u8 }),
{
    let mut row: Vec<u8> = Vec::new();
    let mut j: usize = 0;
    while j < n
        invariant
            j <= n,
            row@ == Seq::new(j as nat, |t: int| if t == one { 1u8 } else { 0u8 }),
        decreases n - j,
    {
        row.push(if j == one { 1u8 } else { 0u8 });
        j = j + 1;
    }
    row
}

impl Matrix {
    /// Every row is stored and has `cols` entries.
    pub open spec fn wf(&self) -> bool {
        &&& self.mat@.len() == self.rows
        &&& forall|i: int| 0 <= i < self.rows ==> #[trigger] self.mat@[i]@.len() == self.cols
    }

    pub fn zero(rows: usize, cols: usize) -> (r: Matrix)
        ensures
            r.wf(),
            r.rows == rows,
            r.cols == cols,
            r@ == zero_seq(rows as nat, cols as nat),
    {
        let mut mat: Vec<Vec<u8>> = Vec::new();
        let mut i: usize = 0;
        while i < rows
            invariant
                i <= rows,
                mat@.len() == i,
                forall|a: int| 0 <= a < i ==> #[trigger] mat@[a]@ == Seq::new(cols as nat, |j: int| 0u8),
            decreases rows - i,
        {
            let mut row: Vec<u8> = Vec::new();
            let mut j: usize = 0;
            while j < cols
                invariant
                    j <= cols,
                    row@ == Seq::new(j as nat, |t: int| 0u8),
                decreases cols - j,
            {
                row.push(0);
                j = j + 1;
            }
            mat.push(row);
            i = i + 1;
        }
        let r = Matrix { rows, cols, mat };
        proof {
            assert(r@ =~~= zero_seq(rows as nat, cols as nat));
        }
        r
    }

    pub fn identity(n: usize) -> (r: Matrix)
        ensures
            r.wf(),
            r.rows == n,
            r.cols == n,
            r@ == identity_seq(n as nat),
    {
        let mut mat: Vec<Vec<u8>> = Vec::new();
        let mut i: usize = 0;
        while i < n
            invariant
                i <= n,
                mat@.len() == i,
                forall|a: int| 0 <= a < i ==> #[trigger] mat@[a]@ == identity_seq(n as nat)[a],
            decreases n - i,
        {
            let row = unit_row(n, i);
            proof {
                assert(row@ =~= identity_seq(n as nat)[i as int]);
            }
            mat.push(row);
            i = i + 1;
        }
        let r = Matrix { rows: n, cols: n, mat };
        proof {
            assert(r@ =~~= identity_seq(n as nat));
        }
        r
    }

    /// The matrix product `self * other`.
    #[verifier::rlimit(100)]
    pub fn mul<F: Field256>(&self, other: &Self, field: &F) -> (r: Matrix)
        requires
            self.wf(),
            other.wf(),
            self.cols == other.rows,
        ensures
            r.wf(),
            r.rows == self.rows,
            r.cols == other.cols,
            r@ == mat_mul(self@, other@, self.rows as nat, other.cols as nat, self.cols as nat),
    {
        let mut mat: Vec<Vec<u8>> = Vec::new();
        let mut i: usize = 0;
        while i < self.rows
            invariant
                self.wf(),
                other.wf(),
                self.cols == other.rows,
                i <= self.rows,
                mat@.len() == i,
                forall|a: int|
                    0 <= a < i ==> #[trigger] mat@[a]@ == mat_mul(
                        self@,
                        other@,
                        self.rows as nat,
                        other.cols as nat,
                        self.cols as nat,
                    )[a],
            decreases self.rows - i,
        {
            let mut row: Vec<u8> = Vec::new();
            let mut j: usize = 0;
            while j < other.cols
                invariant
                    self.wf(),
                    other.wf(),
                    self.cols == other.rows,
                    i < self.rows,
                    j <= other.cols,
                    row@.len() == j,
                    forall|b: int|
                        0 <= b < j ==> #[trigger] row@[b] == dot(
                            self@[i as int],
                            other@,
                            b,
                            self.cols as nat,
                        ),
                decreases other.cols - j,
            {
                let mut acc: u8 = 0;
                let mut k: usize = 0;
                while k < self.cols
                    invariant
                        self.wf(),
                        other.wf(),
                        self.cols == other.rows,
                        i < self.rows,
                        j < other.cols,
                        k <= self.cols,
                        acc == dot(self@[i as int], other@, j as int, k as nat),
                    decreases self.cols - k,
                {
                    acc = F::add(acc, field.mul(self.mat[i][k], other.mat[k][j]));
                    k = k + 1;
                }
                row.push(acc);
                j = j + 1;
            }
            proof {
                assert(row@ =~= mat_mul(
                    self@,
                    other@,
                    self.rows as nat,
                    other.cols as nat,
                    self.cols as nat,
                )[i as int]);
            }
            mat.push(row);
            i = i + 1;
        }
        let r = Matrix { rows: self.rows, cols: other.cols, mat };
        proof {
            assert(r@ =~~= mat_mul(
                self@,
                other@,
                self.rows as nat,
                other.cols as nat,
                self.cols as nat,
            ));
        }
        r
    }

    /// Writes `self * x` into `out`, whose length is the number of rows.
    pub fn mul_vec<F: Field256>(&self, x: &[u8], out: &mut Vec<u8>, field: &F)
        requires
            self.wf(),
            x@.len() == self.cols,
            old(out)@.len() == self.rows,
        ensures
            final(out)@ == mat_vec(self@, x@, self.rows as nat, self.cols as nat),
    {
        let mut i: usize = 0;
        while i < self.rows
            invariant
                self.wf(),
                x@.len() == self.cols,
                out@.len() == self.rows,
                i <= self.rows,
                forall|a: int| 0 <= a < i ==> #[trigger] out@[a] == vec_dot(self@[a], x@, self.cols as nat),
            decreases self.rows - i,
        {
            let mut acc: u8 = 0;
            let mut k: usize = 0;
            while k < self.cols
                invariant
                    self.wf(),
                    x@.len() == self.cols,
                    i < self.rows,
                    k <= self.cols,
                    acc == vec_dot(self@[i as int], x@, k as nat),
                decreases self.cols - k,
            {
                acc = F::add(acc, field.mul(self.mat[i][k], x[k]));
                k = k + 1;
            }
            out[i] = acc;
            i = i + 1;
        }
        proof {
            assert(out@ =~= mat_vec(self@, x@, self.rows as nat, self.cols as nat));
        }
    }

    pub fn transpose(&self) -> (r: Matrix)
        requires
            self.wf(),
        ensures
            r.wf(),
            r.rows == self.cols,
            r.cols == self.rows,
            forall|i: int, j: int|
                0 <= i < self.cols && 0 <= j < self.rows ==> #[trigger] r@[i][j] == self@[j][i],
    {
        let mut mat: Vec<Vec<u8>> = Vec::new();
        let mut i: usize = 0;
        while i < self.cols
            invariant
                self.wf(),
                i <= self.cols,
                mat@.len() == i,
                forall|a: int| 0 <= a < i ==> #[trigger] mat@[a]@.len() == self.rows,
                forall|a: int, b: int|
                    0 <= a < i && 0 <= b < self.rows ==> #[trigger] mat@[a]@[b] == self@[b][a],
            decreases self.cols - i,
        {
            let mut row: Vec<u8> = Vec::new();
            let mut j: usize = 0;
            while j < self.rows
                invariant
                    self.wf(),
                    i < self.cols,
                    j <= self.rows,
                    row@.len() == j,
                    forall|b: int| 0 <= b < j ==> #[trigger] row@[b] == self@[b][i as int],
                decreases self.rows - j,
            {
                row.push(self.mat[j][i]);
                j = j + 1;
            }
            mat.push(row);
            i = i + 1;
        }
        Matrix { rows: self.cols, cols: self.rows, mat }
    }

    /// Exchanges the stored rows `from_row` and `to_row`.
    pub fn swap_row(&mut self, from_row: usize, to_row: usize)
        requires
            old(self).wf(),
            from_row < old(self).rows,
            to_row < old(self).rows,
        ensures
            final(self).wf(),
            final(self).rows == old(self).rows,
            final(self).cols == old(self).cols,
            final(self)@ == old(self)@.update(from_row as int, old(self)@[to_row as int]).update(
                to_row as int,
                old(self)@[from_row as int],
            ),
    {
        if from_row == to_row {
            proof {
                assert(self@.update(from_row as int, self@[to_row as int]).update(
                    to_row as int,
                    self@[from_row as int],
                ) =~~= self@);
            }
            return;
        }
        let mut tmp: Vec<u8> = Vec::new();
        core::mem::swap(&mut self.mat[from_row], &mut tmp);
        core::mem::swap(&mut self.mat[to_row], &mut tmp);
        core::mem::swap(&mut self.mat[from_row], &mut tmp);
        proof {
            assert(self@ =~~= old(self)@.update(from_row as int, old(self)@[to_row as int]).update(
                to_row as int,
                old(self)@[from_row as int],
            ));
        }
    }

    /// Multiplies every entry of row `row` by `scale`.
    pub fn scale_row<F: Field256>(&mut self, row: usize, scale: u8, field: &F)
        requires
            old(self).wf(),
            row < old(self).rows,
        ensures
            final(self).wf(),
            final(self).rows == old(self).rows,
            final(self).cols == old(self).cols,
            final(self)@ == old(self)@.update(
                row as int,
                Seq::new(old(self).cols as nat, |j: int| gf_mul(old(self)@[row as int][j], scale)),
            ),
    {
        let mut new_row: Vec<u8> = Vec::new();
        let mut i: usize = 0;
        while i < self.cols
            invariant
                self.wf(),
                row < self.rows,
                i <= self.cols,
                new_row@ == Seq::new(i as nat, |j: int| gf_mul(self@[row as int][j], scale)),
            decreases self.cols - i,
        {
            new_row.push(field.mul(self.mat[row][i], scale));
            i = i + 1;
        }
        self.mat[row] = new_row;
        proof {
            assert(self@ =~~= old(self)@.update(
                row as int,
                Seq::new(old(self).cols as nat, |j: int| gf_mul(old(self)@[row as int][j], scale)),
            ));
        }
    }

    /// Adds `scale` times row `from_row` to row `to_row`.
    pub fn add_scaled_row<F: Field256>(&mut self, from_row: usize, to_row: usize, scale: u8, field: &F)
        requires
            old(self).wf(),
            from_row < old(self).rows,
            to_row < old(self).rows,
        ensures
            final(self).wf(),
            final(self).rows == old(self).rows,
            final(self).cols == old(self).cols,
            final(self)@ == old(self)@.update(
                to_row as int,
                Seq::new(
                    old(self).cols as nat,
                    |j: int|
                        gf_add(
                            old(self)@[to_row as int][j],
                            gf_mul(old(self)@[from_row as int][j], scale),
                        ),
                ),
            ),
    {
        let mut new_row: Vec<u8> = Vec::new();
        let mut i: usize = 0;
        while i < self.cols
            invariant
                self.wf(),
                from_row < self.rows,
                to_row < self.rows,
                i <= self.cols,
                new_row@ == Seq::new(
                    i as nat,
                    |j: int|
                        gf_add(self@[to_row as int][j], gf_mul(self@[from_row as int][j], scale)),
                ),
            decreases self.cols - i,
        {
            let p = field.mul(self.mat[from_row][i], scale);
            new_row.push(F::add(self.mat[to_row][i], p));
            i = i + 1;
        }
        self.mat[to_row] = new_row;
        proof {
            assert(self@ =~~= old(self)@.update(
                to_row as int,
                Seq::new(
                    old(self).cols as nat,
                    |j: int|
                        gf_add(
                            old(self)@[to_row as int][j],
                            gf_mul(old(self)@[from_row as int][j], scale),
                        ),
                ),
            ));
        }
    }

    /// Appends the `rows x rows` identity to the right of a square matrix.
    #[verifier::rlimit(100)]
    pub fn augment_with_identity(&mut self)
        requires
            old(self).wf(),
            old(self).rows == old(self).cols,
            old(self).cols <= usize::MAX / 2,
        ensures
            final(self).wf(),
            final(self).rows == old(self).rows,
            final(self).cols == 2 * old(self).cols,
            forall|i: int|
                0 <= i < old(self).rows ==> #[trigger] final(self)@[i] == old(self)@[i] + identity_seq(
                    old(self).rows as nat,
                )[i],
    {
        let n = self.rows;
        let mut i: usize = 0;
        while i < n
            invariant
                n == self.rows,
                n == old(self).rows,
                n == old(self).cols,
                self.cols == old(self).cols,
                self.mat@.len() == n,
                i <= n,
                forall|r: int| 0 <= r < i ==> #[trigger] self@[r] == old(self)@[r] + identity_seq(n as nat)[r],
                forall|r: int| i <= r < n ==> #[trigger] self@[r] == old(self)@[r],
                old(self).wf(),
            decreases n - i,
        {
            let mut new_row: Vec<u8> = Vec::new();
            let mut j: usize = 0;
            while j < n
                invariant
                    n == self.rows,
                    self.mat@.len() == n,
                    i < n,
                    j <= n,
                    new_row@ == self@[i as int].subrange(0, j as int),
                    self@[i as int].len() == n,
                decreases n - j,
            {
                new_row.push(self.mat[i][j]);
                j = j + 1;
            }
            let unit = unit_row(n, i);
            let mut j: usize = 0;
            while j < n
                invariant
                    n == self.rows,
                    self.mat@.len() == n,
                    i < n,
                    j <= n,
                    new_row@ == self@[i as int] + unit@.subrange(0, j as int),
                    self@[i as int].len() == n,
                    unit@.len() == n,
                decreases n - j,
            {
                new_row.push(unit[j]);
                proof {
                    assert(self@[i as int] + unit@.subrange(0, j + 1) =~= (self@[i as int] + unit@.subrange(0, j as int)).push(unit@[j as int]));
                }
                j = j + 1;
            }
            proof {
                assert(self@[i as int].subrange(0, n as int) =~= self@[i as int]);
                assert(unit@.subrange(0, n as int) =~= identity_seq(n as nat)[i as int]);
            }
            let ghost before = self@;
            self.mat[i] = new_row;
            proof {
                assert(self@ =~~= before.update(i as int, before[i as int] + identity_seq(n as nat)[i as int]));
            }
            i = i + 1;
        }
        let ghost done = self.mat@;
        proof {
            assert forall|r: int| 0 <= r < n implies #[trigger] done[r]@ == old(self)@[r] + identity_seq(n as nat)[r] by {
                assert(self@[r] == done[r]@);
            }
        }
        self.cols = 2 * n;
        proof {
            assert(self.mat@ == done);
            assert forall|r: int| 0 <= r < n implies #[trigger] self.mat@[r]@.len() == self.cols by {
                assert(self@[r] == self.mat@[r]@);
                assert(old(self)@[r].len() == n);
            }
        }
    }
}

/// A copy of a byte vector.
pub(crate) fn copy_bytes(v: &Vec<u8>) -> (r: Vec<u8>)
    ensures
        r@ == v@,
{
    let mut r: Vec<u8> = Vec::new();
    let mut i: usize = 0;
    while i < v.len()
        invariant
            i <= v@.len(),
            r@ == v@.subrange(0, i as int),
        decreases v.len() - i,
    {
        r.push(v[i]);
        i = i + 1;
    }
    proof {
        assert(r@ == v@);
    }
    r
}

impl Clone for Matrix {
    fn clone(&self) -> (r: Self)
        ensures
            r.rows == self.rows,
            r.cols == self.cols,
            r@ == self@,
            self.wf() ==> r.wf(),
    {
        let mut mat: Vec<Vec<u8>> = Vec::new();
        let mut i: usize = 0;
        while i < self.mat.len()
            invariant
                i <= self.mat@.len(),
                mat@.len() == i,
                forall|a: int| 0 <= a < i ==> #[trigger] mat@[a]@ == self.mat@[a]@,
            decreases self.mat.len() - i,
        {
            mat.push(copy_bytes(&self.mat[i]));
            i = i + 1;
        }
        let r = Matrix { rows: self.rows, cols: self.cols, mat };
        proof {
            assert(r@ =~~= self@);
            if self.wf() {
                assert forall|a: int| 0 <= a < r.rows implies #[trigger] r.mat@[a]@.len() == r.cols by {
                    assert(r.mat@[a]@ == self.mat@[a]@);
                }
            }
        }
        r
    }
}


impl Matrix {
    /// Builds a matrix from its rows, which must all have the length of the first; fails on
    /// zero rows or columns and on ragged rows.
    pub fn from_rows(elems: Vec<Vec<u8>>) -> (r: Result<Matrix, RsError>)
        ensures
            match r {
                Ok(m) => m.wf() && m.rows == elems@.len() && m.cols == elems@[0]@.len() && m.rows
                    >= 1 && m.cols >= 1 && m@ == elems@.map_values(|row: Vec<u8>| row@),
                Err(e) => e == RsError::DimensionMismatch && (elems@.len() == 0 || elems@[0]@.len()
                    == 0 || exists|i: int|
                    0 <= i < elems@.len() && #[trigger] elems@[i]@.len() != elems@[0]@.len()),
            },
    {
        let rows = elems.len();
        if rows == 0 {
            return Err(RsError::DimensionMismatch);
        }
        let cols = elems[0].len();
        if cols == 0 {
            return Err(RsError::DimensionMismatch);
        }
        let mut i: usize = 0;
        while i < rows
            invariant
                rows == elems@.len(),
                cols == elems@[0]@.len(),
                i <= rows,
                forall|a: int| 0 <= a < i ==> #[trigger] elems@[a]@.len() == cols,
            decreases rows - i,
        {
            if elems[i].len() != cols {
                return Err(RsError::DimensionMismatch);
            }
            i = i + 1;
        }
        Ok(Matrix { rows, cols, mat: elems })
    }

    /// Whether the matrix is the square identity.
    pub fn is_identity(&self) -> (r: bool)
        requires
            self.wf(),
        ensures
            r <==> (self.rows == self.cols && self@ == identity_seq(self.rows as nat)),
    {
        if self.rows != self.cols {
            return false;
        }
        let n = self.rows;
        let mut i: usize = 0;
        while i < n
            invariant
                self.wf(),
                n == self.rows,
                n == self.cols,
                i <= n,
                forall|a: int, b: int|
                    0 <= a < i && 0 <= b < n ==> #[trigger] self@[a][b] == identity_seq(n as nat)[a][b],
            decreases n - i,
        {
            let mut j: usize = 0;
            while j < n
                invariant
                    self.wf(),
                    n == self.rows,
                    n == self.cols,
                    i < n,
                    j <= n,
                    forall|a: int, b: int|
                        0 <= a < i && 0 <= b < n ==> #[trigger] self@[a][b] == identity_seq(n as nat)[a][b],
                    forall|b: int| 0 <= b < j ==> #[trigger] self@[i as int][b] == identity_seq(n as nat)[i as int][b],
                decreases n - j,
            {
                let expected: u8 = if i == j { 1 } else { 0 };
                if self.mat[i][j] != expected {
                    proof {
                        assert(self@[i as int][j as int] != identity_seq(n as nat)[i as int][j as int]);
                    }
                    return false;
                }
                j = j + 1;
            }
            i = i + 1;
        }
        proof {
            assert(self@ =~~= identity_seq(n as nat));
        }
        true
    }

    /// The inverse, by Gauss-Jordan elimination (see `eliminate`). `Singular` comes exactly when
    /// the matrix has neither a left nor a right inverse: when elimination finds no pivot, it is
    /// run on the transpose as well, whose inverse, if it had one, transposes to the inverse. A
    /// non-square matrix gives `DimensionMismatch`.
    pub fn invert<F: Field256>(&self, field: &F) -> (r: Result<Matrix, RsError>)
        requires
            self.wf(),
        ensures
            match r {
                Ok(inv) => {
                    &&& self.rows == self.cols
                    &&& inv.wf()
                    &&& inv.rows == self.rows
                    &&& inv.cols == self.cols
                    &&& mat_mul(self@, inv@, self.rows as nat, self.rows as nat, self.rows as nat)
                        == identity_seq(self.rows as nat)
                    &&& mat_mul(inv@, self@, self.rows as nat, self.rows as nat, self.rows as nat)
                        == identity_seq(self.rows as nat)
                },
                Err(e) => (e == RsError::DimensionMismatch <==> self.rows != self.cols) && (e
                    == RsError::DimensionMismatch || e == RsError::Singular),
            },
            self.rows == self.cols && (exists|t: Seq<Seq<u8>>|
                #[trigger] mat_mul(t, self@, self.rows as nat, self.rows as nat, self.rows as nat)
                    == identity_seq(self.rows as nat)) ==> r is Ok,
            self.rows == self.cols && (exists|x: Seq<Seq<u8>>|
                #[trigger] mat_mul(self@, x, self.rows as nat, self.rows as nat, self.rows as nat)
                    == identity_seq(self.rows as nat)) ==> r is Ok,
            self.rows == self.cols && self@ == identity_seq(self.rows as nat) ==> (r matches Ok(inv)
                && inv@ == identity_seq(self.rows as nat)),
    {
        if self.rows != self.cols {
            return Err(RsError::DimensionMismatch);
        }
        let ghost n = self.rows as nat;
        let ghost m = self@;
        match self.eliminate(field) {
            Ok(inv) => Ok(inv),
            Err(_) => {
                let t = self.transpose();
                proof {
                    lemma_wf_square(*self);
                    assert(t@ =~~= transpose_seq(m, n));
                    lemma_wf_square(t);
                }
                match t.eliminate(field) {
                    Ok(y) => {
                        let inv = y.transpose();
                        proof {
                            lemma_wf_square(y);
                            assert(inv@ =~~= transpose_seq(y@, n));
                            lemma_transpose_mul(y@, t@, n);
                            lemma_transpose_mul(t@, y@, n);
                            lemma_transpose_twice(m, n);
                            lemma_transpose_identity(n);
                        }
                        Ok(inv)
                    },
                    Err(_) => {
                        proof {
                            assert forall|x: Seq<Seq<u8>>|
                                #[trigger] mat_mul(m, x, n, n, n) != identity_seq(n) by {
                                lemma_transpose_mul(m, x, n);
                                lemma_transpose_identity(n);
                                assert(mat_mul(transpose_seq(x, n), t@, n, n, n) != identity_seq(n));
                            }
                        }
                        Err(RsError::Singular)
                    },
                }
            },
        }
    }

    /// Gauss-Jordan elimination: the row operations that reduce `self` to the identity turn the
    /// identity into the inverse. For each column, a row with a non-zero entry there is moved into
    /// place, scaled to a leading 1, and the column is cleared in every other row. When some column
    /// has no pivot, the matrix has no left inverse.
    #[verifier::rlimit(100)]
    fn eliminate<F: Field256>(&self, field: &F) -> (r: Result<Matrix, RsError>)
        requires
            self.wf(),
        ensures
            match r {
                Ok(inv) => {
                    &&& self.rows == self.cols
                    &&& inv.wf()
                    &&& inv.rows == self.rows
                    &&& inv.cols == self.cols
                    &&& mat_mul(self@, inv@, self.rows as nat, self.rows as nat, self.rows as nat)
                        == identity_seq(self.rows as nat)
                    &&& mat_mul(inv@, self@, self.rows as nat, self.rows as nat, self.rows as nat)
                        == identity_seq(self.rows as nat)
                },
                Err(e) => (e == RsError::DimensionMismatch <==> self.rows != self.cols) && (e
                    == RsError::DimensionMismatch || e == RsError::Singular),
            },
            r matches Err(e) && e == RsError::Singular ==> forall|t: Seq<Seq<u8>>|
                #[trigger] mat_mul(t, self@, self.rows as nat, self.rows as nat, self.rows as nat)
                    != identity_seq(self.rows as nat),
            self.rows == self.cols && self@ == identity_seq(self.rows as nat) ==> (r matches Ok(inv)
                && inv@ == identity_seq(self.rows as nat)),
    {
        if self.rows != self.cols {
            return Err(RsError::DimensionMismatch);
        }
        let n = self.rows;
        let ghost nn = n as nat;
        let ghost m = self@;
        let mut res = self.clone();
        let mut inv = Matrix::identity(n);
        let ghost mut f = identity_seq(nn);
        proof {
            lemma_wf_square(*self);
            lemma_identity_neutral(m, nn, nn);
            lemma_identity_neutral(identity_seq(nn), nn, nn);
        }
        let mut i: usize = 0;
        while i < n
            invariant
                n == self.rows,
                n == self.cols,
                nn == n as nat,
                m == self@,
                elimination_state(m, f, res, inv, nn),
                i <= n,
                unit_columns(res@, nn, i as int),
            decreases n - i,
        {
            let j = find_pivot(&res, i);
            if j == n {
                proof {
                    lemma_wf_square(res);
                    lemma_no_pivot(m, f, res@, nn, i as int);
                    assert(is_square(m, nn));
                    lemma_identity_neutral(m, nn, nn);
                    assert(mat_mul(identity_seq(nn), m, nn, nn, nn) != identity_seq(nn));
                }
                return Err(RsError::Singular);
            }
            let g = swap_step(&mut res, &mut inv, i, j, Ghost(m), Ghost(f));
            proof {
                f = g@;
            }
            let g = scale_step(&mut res, &mut inv, i, Ghost(m), Ghost(f), field);
            proof {
                f = g@;
            }
            let g = clear_column(&mut res, &mut inv, i, Ghost(m), Ghost(f), field);
            proof {
                f = g@;
            }
            i = i + 1;
        }
        proof {
            lemma_wf_square(res);
            lemma_wf_square(inv);
            assert forall|r: int, c: int| 0 <= r < nn && 0 <= c < nn implies #[trigger] res@[r][c] == identity_seq(nn)[r][c] by {
                assert(unit_columns(res@, nn, nn as int));
            }
            assert(res@ =~~= identity_seq(nn));
            lemma_identity_neutral(f, nn, nn);
            lemma_identity_neutral(inv@, nn, nn);
        }
        Ok(inv)
    }
}

/// The `rows x cols` Vandermonde matrix whose row `i` holds the powers of `start + i`:
/// entry `[i][j]` is `(start + i)^j`. Fails with `DimensionMismatch` on zero rows or columns.
#[allow(non_snake_case)]
pub fn VandermondeMatrix<F: Field256>(start: usize, rows: usize, cols: usize, field: &F) -> (r:
    Result<Matrix, RsError>)
    requires
        start + rows <= 256,
        cols <= 256,
    ensures
        match r {
            Ok(m) => {
                &&& rows >= 1 && cols >= 1
                &&& m.wf()
                &&& m.rows == rows
                &&& m.cols == cols
                &&& forall|i: int, j: int|
                    0 <= i < rows && 0 <= j < cols ==> #[trigger] m@[i][j] == vandermonde_entry(
                        start as int,
                        i,
                        j,
                    )
            },
            Err(e) => e == RsError::DimensionMismatch && (rows == 0 || cols == 0),
        },
{
    if rows == 0 || cols == 0 {
        return Err(RsError::DimensionMismatch);
    }
    let mut mat: Vec<Vec<u8>> = Vec::new();
    let mut i: usize = 0;
    while i < rows
        invariant
            start + rows <= 256,
            cols <= 256,
            i <= rows,
            mat@.len() == i,
            forall|a: int| 0 <= a < i ==> #[trigger] mat@[a]@.len() == cols,
            forall|a: int, b: int|
                0 <= a < i && 0 <= b < cols ==> #[trigger] mat@[a]@[b] == vandermonde_entry(
                    start as int,
                    a,
                    b,
                ),
        decreases rows - i,
    {
        let mut row: Vec<u8> = Vec::new();
        let mut j: usize = 0;
        while j < cols
            invariant
                start + rows <= 256,
                cols <= 256,
                i < rows,
                j <= cols,
                row@.len() == j,
                forall|b: int| 0 <= b < j ==> #[trigger] row@[b] == vandermonde_entry(start as int, i as int, b),
            decreases cols - j,
        {
            row.push(field.exp((start + i) as u8, j as u8));
            j = j + 1;
        }
        mat.push(row);
        i = i + 1;
    }
    Ok(Matrix { rows, cols, mat })
}

/// The rows of `VandermondeMatrix(0, mask.len(), cols)` at the indices where `mask` holds.
/// Fails with `DimensionMismatch` when no index is selected or `cols` is zero.
#[allow(non_snake_case)]
#[verifier::rlimit(100)]
pub fn PartialVandermondeMatrix<F: Field256>(mask: &[bool], cols: usize, field: &F) -> (r: Result<
    Matrix,
    RsError,
>)
    requires
        mask@.len() <= 256,
        cols <= 256,
    ensures
        match r {
            Ok(m) => {
                &&& m.wf()
                &&& m.rows == selected(mask@).len()
                &&& m.rows >= 1
                &&& m.cols == cols
                &&& cols >= 1
                &&& forall|i: int, j: int|
                    0 <= i < m.rows && 0 <= j < cols ==> #[trigger] m@[i][j] == vandermonde_entry(
                        0,
                        selected(mask@)[i],
                        j,
                    )
            },
            Err(e) => e == RsError::DimensionMismatch && (selected(mask@).len() == 0 || cols == 0),
        },
{
    let mut mat: Vec<Vec<u8>> = Vec::new();
    let mut i: usize = 0;
    proof {
        lemma_selected_bounds(mask@);
    }
    while i < mask.len()
        invariant
            mask@.len() <= 256,
            cols <= 256,
            i <= mask@.len(),
            mat@.len() == selected(mask@.subrange(0, i as int)).len(),
            forall|a: int| 0 <= a < mat@.len() ==> #[trigger] mat@[a]@.len() == cols,
            forall|a: int, b: int|
                0 <= a < mat@.len() && 0 <= b < cols ==> #[trigger] mat@[a]@[b] == vandermonde_entry(
                    0,
                    selected(mask@.subrange(0, i as int))[a],
                    b,
                ),
        decreases mask.len() - i,
    {
        proof {
            assert(mask@.subrange(0, i + 1).drop_last() =~= mask@.subrange(0, i as int));
        }
        if mask[i] {
            let mut row: Vec<u8> = Vec::new();
            let mut j: usize = 0;
            while j < cols
                invariant
                    mask@.len() <= 256,
                    cols <= 256,
                    i < mask@.len(),
                    j <= cols,
                    row@.len() == j,
                    forall|b: int| 0 <= b < j ==> #[trigger] row@[b] == vandermonde_entry(0, i as int, b),
                decreases cols - j,
            {
                row.push(field.exp(i as u8, j as u8));
                j = j + 1;
            }
            mat.push(row);
        }
        i = i + 1;
    }
    proof {
        assert(mask@.subrange(0, mask@.len() as int) =~= mask@);
    }
    let rows = mat.len();
    if rows == 0 || cols == 0 {
        return Err(RsError::DimensionMismatch);
    }
    Ok(Matrix { rows, cols, mat })
}

/// The selected indices are increasing and below the mask's length.
pub proof fn lemma_selected_bounds(mask: Seq<bool>)
    ensures
        selected(mask).len() <= mask.len(),
        forall|a: int| 0 <= a < selected(mask).len() ==> 0 <= #[trigger] selected(mask)[a] < mask.len(),
        forall|a: int| 0 <= a < selected(mask).len() ==> mask[#[trigger] selected(mask)[a]],
        forall|a: int, b: int|
            0 <= a < b < selected(mask).len() ==> #[trigger] selected(mask)[a] < #[trigger] selected(mask)[b],
    decreases mask.len(),
{
    if mask.len() > 0 {
        lemma_selected_bounds(mask.drop_last());
    }
}

/// The `rows x cols` Cauchy matrix with entry `[i][j] = 1 / ((start + i) + j)`. The row points
/// `start..start + rows` and the column points `0..cols` are disjoint, so no sum is zero.
pub fn cauchy_matrix<F: Field256>(start: usize, rows: usize, cols: usize, field: &F) -> (r: Result<
    Matrix,
    RsError,
>)
    requires
        cols <= start,
        start + rows <= 256,
    ensures
        match r {
            Ok(m) => {
                &&& rows >= 1 && cols >= 1
                &&& m.wf()
                &&& m.rows == rows
                &&& m.cols == cols
                &&& forall|i: int, j: int|
                    0 <= i < rows && 0 <= j < cols ==> #[trigger] m@[i][j] == cauchy_entry(
                        start as int,
                        i,
                        j,
                    )
            },
            Err(e) => e == RsError::DimensionMismatch && (rows == 0 || cols == 0),
        },
{
    if rows == 0 || cols == 0 {
        return Err(RsError::DimensionMismatch);
    }
    let mut mat: Vec<Vec<u8>> = Vec::new();
    let mut i: usize = 0;
    while i < rows
        invariant
            cols <= start,
            start + rows <= 256,
            i <= rows,
            mat@.len() == i,
            forall|a: int| 0 <= a < i ==> #[trigger] mat@[a]@.len() == cols,
            forall|a: int, b: int|
                0 <= a < i && 0 <= b < cols ==> #[trigger] mat@[a]@[b] == cauchy_entry(
                    start as int,
                    a,
                    b,
                ),
        decreases rows - i,
    {
        let mut row: Vec<u8> = Vec::new();
        let mut j: usize = 0;
        while j < cols
            invariant
                cols <= start,
                start + rows <= 256,
                i < rows,
                j <= cols,
                row@.len() == j,
                forall|b: int| 0 <= b < j ==> #[trigger] row@[b] == cauchy_entry(start as int, i as int, b),
            decreases cols - j,
        {
            let sum = F::add((start + i) as u8, j as u8);
            row.push(field.inv(sum));
            j = j + 1;
        }
        mat.push(row);
        i = i + 1;
    }
    Ok(Matrix { rows, cols, mat })
}

/// A row that is zero on the first `n` entries contributes nothing.
proof fn lemma_vec_dot_zero_row(row: Seq<u8>, x: Seq<u8>, n: nat)
    requires
        forall|c: int| 0 <= c < n ==> #[trigger] row[c] == 0,
    ensures
        vec_dot(row, x, n) == 0,
    decreases n,
{
    if n > 0 {
        lemma_vec_dot_zero_row(row, x, (n - 1) as nat);
        lemma_mul_identities(x[n - 1]);
        lemma_xor(0, 0, 0);
    }
}

/// The dot product is additive in the row.
proof fn lemma_vec_dot_add_rows(r1: Seq<u8>, r2: Seq<u8>, r3: Seq<u8>, x: Seq<u8>, n: nat)
    requires
        forall|c: int| 0 <= c < n ==> #[trigger] r3[c] == gf_add(r1[c], r2[c]),
    ensures
        vec_dot(r3, x, n) == gf_add(vec_dot(r1, x, n), vec_dot(r2, x, n)),
    decreases n,
{
    if n > 0 {
        let m = (n - 1) as nat;
        lemma_vec_dot_add_rows(r1, r2, r3, x, m);
        crate::gf::lemma_mul_distributes(x[m as int], r1[m as int], r2[m as int]);
        let (a, b, c, d) = (vec_dot(r1, x, m), vec_dot(r2, x, m), gf_mul(r1[m as int], x[m as int]), gf_mul(r2[m as int], x[m as int]));
        assert(r3[m as int] == gf_add(r1[m as int], r2[m as int]));
        assert(gf_mul(r3[m as int], x[m as int]) == c ^ d);
        assert(vec_dot(r3, x, n) == gf_add(vec_dot(r3, x, m), gf_mul(r3[m as int], x[m as int])));
        assert(vec_dot(r1, x, n) == a ^ c);
        assert(vec_dot(r2, x, n) == b ^ d);
        assert((a ^ b) ^ (c ^ d) == (a ^ c) ^ (b ^ d)) by (bit_vector);
    } else {
        lemma_xor(0, 0, 0);
    }
}

/// Scaling the row scales the dot product.
proof fn lemma_vec_dot_scale_row(a: u8, r1: Seq<u8>, r2: Seq<u8>, x: Seq<u8>, n: nat)
    requires
        forall|c: int| 0 <= c < n ==> #[trigger] r2[c] == gf_mul(a, r1[c]),
    ensures
        vec_dot(r2, x, n) == gf_mul(a, vec_dot(r1, x, n)),
    decreases n,
{
    if n > 0 {
        let m = (n - 1) as nat;
        lemma_vec_dot_scale_row(a, r1, r2, x, m);
        crate::gf::lemma_mul_distributes(a, vec_dot(r1, x, m), gf_mul(r1[m as int], x[m as int]));
        crate::gf::lemma_mul_associative(a, r1[m as int], x[m as int]);
    } else {
        lemma_mul_identities(a);
    }
}

/// A unit row picks one entry.
pub proof fn lemma_vec_dot_unit(size: nat, i: int, x: Seq<u8>, n: nat)
    requires
        0 <= i < size,
        n <= size,
    ensures
        vec_dot(identity_seq(size)[i], x, n) == if i < n { x[i] } else { 0u8 },
    decreases n,
{
    if n > 0 {
        lemma_vec_dot_unit(size, i, x, (n - 1) as nat);
        lemma_mul_identities(x[n - 1]);
        lemma_xor(x[i], 0, 0);
        lemma_xor(0, 0, 0);
        lemma_xor(x[n - 1], 0, 0);
    }
}

/// Multiplying a vector by `b` and then by `a` is multiplying it by `a * b` (for square
/// matrices of size `k`), entry `i`.
#[verifier::rlimit(100)]
proof fn lemma_mat_vec_assoc_entry(a: Seq<Seq<u8>>, b: Seq<Seq<u8>>, x: Seq<u8>, k: nat, i: int, n: nat)
    requires
        n <= k,
    ensures
        vec_dot(a[i], mat_vec(b, x, k, k), n) == vec_dot(
            Seq::new(k, |c: int| dot(a[i], b, c, n)),
            x,
            k,
        ),
    decreases n,
{
    let row_n = Seq::new(k, |c: int| dot(a[i], b, c, n));
    if n == 0 {
        lemma_vec_dot_zero_row(row_n, x, k);
    } else {
        let m = (n - 1) as nat;
        lemma_mat_vec_assoc_entry(a, b, x, k, i, m);
        let row_m = Seq::new(k, |c: int| dot(a[i], b, c, m));
        let coef = a[i][m as int];
        let scaled = Seq::new(k, |c: int| gf_mul(coef, b[m as int][c]));
        let shifted = Seq::new(k, |c: int| gf_mul(b[m as int][c], coef));
        assert forall|c: int| 0 <= c < k implies #[trigger] row_n[c] == gf_add(row_m[c], shifted[c]) by {
            crate::gf::lemma_mul_commutative(coef, b[m as int][c]);
        }
        lemma_vec_dot_add_rows(row_m, shifted, row_n, x, k);
        assert forall|c: int| 0 <= c < k implies #[trigger] shifted[c] == gf_mul(coef, b[m as int][c]) by {
            crate::gf::lemma_mul_commutative(coef, b[m as int][c]);
        }
        lemma_vec_dot_scale_row(coef, b[m as int], shifted, x, k);
        crate::gf::lemma_mul_commutative(coef, mat_vec(b, x, k, k)[m as int]);
    }
}

/// `a * (b * x) == (a * b) * x` for `k x k` matrices.
pub proof fn lemma_mat_vec_assoc(a: Seq<Seq<u8>>, b: Seq<Seq<u8>>, x: Seq<u8>, k: nat)
    ensures
        mat_vec(a, mat_vec(b, x, k, k), k, k) == mat_vec(mat_mul(a, b, k, k, k), x, k, k),
{
    assert forall|i: int| 0 <= i < k implies #[trigger] mat_vec(a, mat_vec(b, x, k, k), k, k)[i]
        == mat_vec(mat_mul(a, b, k, k, k), x, k, k)[i] by {
        lemma_mat_vec_assoc_entry(a, b, x, k, i, k);
        assert(mat_mul(a, b, k, k, k)[i] =~= Seq::new(k, |c: int| dot(a[i], b, c, k)));
    }
    assert(mat_vec(a, mat_vec(b, x, k, k), k, k) =~= mat_vec(mat_mul(a, b, k, k, k), x, k, k));
}

/// The identity leaves a vector unchanged.
pub proof fn lemma_mat_vec_identity(x: Seq<u8>, k: nat)
    requires
        x.len() == k,
    ensures
        mat_vec(identity_seq(k), x, k, k) == x,
{
    assert forall|i: int| 0 <= i < k implies #[trigger] mat_vec(identity_seq(k), x, k, k)[i] == x[i] by {
        lemma_vec_dot_unit(k, i, x, k);
    }
    assert(mat_vec(identity_seq(k), x, k, k) =~= x);
}

/// Column `j` of a matrix with `n` rows.
pub open spec fn column(m: Seq<Seq<u8>>, j: int, n: nat) -> Seq<u8> {
    Seq::new(n, |c: int| m[c][j])
}

proof fn lemma_dot_is_vec_dot(row: Seq<u8>, m: Seq<Seq<u8>>, j: int, n: nat, size: nat)
    requires
        n <= size,
    ensures
        dot(row, m, j, n) == vec_dot(row, column(m, j, size), n),
    decreases n,
{
    if n > 0 {
        lemma_dot_is_vec_dot(row, m, j, (n - 1) as nat, size);
    }
}

/// `(a * b) * c == a * (b * c)` for an `r x k` matrix `a` and `k x k` matrices `b`, `c`.
#[verifier::rlimit(100)]
pub proof fn lemma_mat_mul_assoc(a: Seq<Seq<u8>>, b: Seq<Seq<u8>>, c: Seq<Seq<u8>>, r: nat, k: nat)
    ensures
        mat_mul(mat_mul(a, b, r, k, k), c, r, k, k) == mat_mul(a, mat_mul(b, c, k, k, k), r, k, k),
{
    let ab = mat_mul(a, b, r, k, k);
    let bc = mat_mul(b, c, k, k, k);
    assert forall|i: int, j: int| 0 <= i < r && 0 <= j < k implies #[trigger] mat_mul(ab, c, r, k, k)[i][j]
        == mat_mul(a, bc, r, k, k)[i][j] by {
        let col = column(c, j, k);
        lemma_dot_is_vec_dot(ab[i], c, j, k, k);
        lemma_dot_is_vec_dot(a[i], bc, j, k, k);
        assert forall|e: int| 0 <= e < k implies #[trigger] column(bc, j, k)[e] == mat_vec(b, col, k, k)[e] by {
            lemma_dot_is_vec_dot(b[e], c, j, k, k);
        }
        assert(column(bc, j, k) =~= mat_vec(b, col, k, k));
        lemma_mat_vec_assoc_entry(a, b, col, k, i, k);
        assert(ab[i] =~= Seq::new(k, |t: int| dot(a[i], b, t, k)));
    }
    assert(mat_mul(ab, c, r, k, k) =~~= mat_mul(a, bc, r, k, k));
}

// ---------------------------------------------------------------------------------------------
// Row operations as matrix algebra, for Gauss-Jordan elimination.
/// Rows `a` and `b` exchanged.
pub open spec fn swap_rows(m: Seq<Seq<u8>>, a: int, b: int) -> Seq<Seq<u8>> {
    m.update(a, m[b]).update(b, m[a])
}

/// Row `a` multiplied by `c`.
pub open spec fn scale_row_seq(m: Seq<Seq<u8>>, a: int, c: u8, n: nat) -> Seq<Seq<u8>> {
    m.update(a, Seq::new(n, |j: int| gf_mul(m[a][j], c)))
}

/// `c` times row `a` added to row `t`.
pub open spec fn add_row_seq(m: Seq<Seq<u8>>, a: int, t: int, c: u8, n: nat) -> Seq<Seq<u8>> {
    m.update(t, Seq::new(n, |j: int| gf_add(m[t][j], gf_mul(m[a][j], c))))
}

/// Columns `a` and `b` exchanged.
pub open spec fn swap_cols(f: Seq<Seq<u8>>, a: int, b: int, n: nat) -> Seq<Seq<u8>> {
    Seq::new(n, |r: int| f[r].update(a, f[r][b]).update(b, f[r][a]))
}

/// Column `a` multiplied by `c`.
pub open spec fn scale_col(f: Seq<Seq<u8>>, a: int, c: u8, n: nat) -> Seq<Seq<u8>> {
    Seq::new(n, |r: int| f[r].update(a, gf_mul(f[r][a], c)))
}

/// `c` times column `t` added to column `a`.
pub open spec fn add_col(f: Seq<Seq<u8>>, a: int, t: int, c: u8, n: nat) -> Seq<Seq<u8>> {
    Seq::new(n, |r: int| f[r].update(a, gf_add(f[r][a], gf_mul(f[r][t], c))))
}

/// A square `n x n` matrix.
pub open spec fn is_square(m: Seq<Seq<u8>>, n: nat) -> bool {
    m.len() == n && forall|i: int| 0 <= i < n ==> #[trigger] m[i].len() == n
}

proof fn lemma_dot_termwise(r1: Seq<u8>, m1: Seq<Seq<u8>>, r2: Seq<u8>, m2: Seq<Seq<u8>>, j: int, n: nat)
    requires
        forall|k: int| 0 <= k < n ==> #[trigger] gf_mul(r1[k], m1[k][j]) == gf_mul(r2[k], m2[k][j]),
    ensures
        dot(r1, m1, j, n) == dot(r2, m2, j, n),
    decreases n,
{
    if n > 0 {
        lemma_dot_termwise(r1, m1, r2, m2, j, (n - 1) as nat);
        assert(gf_mul(r1[n - 1], m1[n - 1][j]) == gf_mul(r2[n - 1], m2[n - 1][j]));
    }
}

proof fn lemma_xor4(a: u8, b: u8, c: u8, d: u8)
    ensures
        (a ^ b) ^ (c ^ d) == (a ^ c) ^ (b ^ d),
{
    assert((a ^ b) ^ (c ^ d) == (a ^ c) ^ (b ^ d)) by (bit_vector);
}

/// Two dot products whose terms agree except at `a` and `b`, where the pairs have the same sum.
#[verifier::rlimit(100)]
proof fn lemma_dot_two_terms_diff(r1: Seq<u8>, m1: Seq<Seq<u8>>, r2: Seq<u8>, m2: Seq<Seq<u8>>, j: int, n: nat, a: int, b: int)
    requires
        forall|k: int| 0 <= k < n && k != a && k != b ==> #[trigger] gf_mul(r1[k], m1[k][j]) == gf_mul(r2[k], m2[k][j]),
        a != b,
    ensures
        gf_add(dot(r1, m1, j, n), dot(r2, m2, j, n)) == gf_add(
            if 0 <= a < n { gf_add(gf_mul(r1[a], m1[a][j]), gf_mul(r2[a], m2[a][j])) } else { 0u8 },
            if 0 <= b < n { gf_add(gf_mul(r1[b], m1[b][j]), gf_mul(r2[b], m2[b][j])) } else { 0u8 },
        ),
    decreases n,
{
    if n == 0 {
        lemma_xor(0, 0, 0);
    } else {
        let k = n - 1;
        lemma_dot_two_terms_diff(r1, m1, r2, m2, j, (n - 1) as nat, a, b);
        let d1 = dot(r1, m1, j, (n - 1) as nat);
        let d2 = dot(r2, m2, j, (n - 1) as nat);
        let t1 = gf_mul(r1[k], m1[k][j]);
        let t2 = gf_mul(r2[k], m2[k][j]);
        lemma_xor4(d1, t1, d2, t2);
        let pa = if 0 <= a < n - 1 { gf_add(gf_mul(r1[a], m1[a][j]), gf_mul(r2[a], m2[a][j])) } else { 0u8 };
        let pb = if 0 <= b < n - 1 { gf_add(gf_mul(r1[b], m1[b][j]), gf_mul(r2[b], m2[b][j])) } else { 0u8 };
        let q = t1 ^ t2;
        assert((d1 ^ t1) ^ (d2 ^ t2) == (d1 ^ d2) ^ q);
        if k == a {
            assert(pa == 0u8);
            assert(((0u8 ^ pb) ^ q) == (q ^ pb)) by (bit_vector);
        } else if k == b {
            assert(pb == 0u8);
            assert(((pa ^ 0u8) ^ q) == (pa ^ q)) by (bit_vector);
        } else {
            assert(t1 == t2);
            assert(((pa ^ pb) ^ (t1 ^ t1)) == (pa ^ pb)) by (bit_vector);
        }
    }
}

/// Two dot products whose terms agree except at `a` and `b`, where the pairs have the same sum,
/// are equal.
proof fn lemma_dot_two_terms(r1: Seq<u8>, m1: Seq<Seq<u8>>, r2: Seq<u8>, m2: Seq<Seq<u8>>, j: int, n: nat, a: int, b: int)
    requires
        forall|k: int| 0 <= k < n && k != a && k != b ==> #[trigger] gf_mul(r1[k], m1[k][j]) == gf_mul(r2[k], m2[k][j]),
        a != b,
        0 <= a < n,
        0 <= b < n,
        gf_add(gf_mul(r1[a], m1[a][j]), gf_mul(r1[b], m1[b][j])) == gf_add(gf_mul(r2[a], m2[a][j]), gf_mul(r2[b], m2[b][j])),
    ensures
        dot(r1, m1, j, n) == dot(r2, m2, j, n),
{
    lemma_dot_two_terms_diff(r1, m1, r2, m2, j, n, a, b);
    let (x1, y1, x2, y2) = (gf_mul(r1[a], m1[a][j]), gf_mul(r1[b], m1[b][j]), gf_mul(r2[a], m2[a][j]), gf_mul(r2[b], m2[b][j]));
    let (d1, d2) = (dot(r1, m1, j, n), dot(r2, m2, j, n));
    assert((x1 ^ y1) == (x2 ^ y2) && (d1 ^ d2) == ((x1 ^ x2) ^ (y1 ^ y2)) ==> d1 == d2) by (bit_vector);
}

/// Scaling a row scales its dot products.
proof fn lemma_dot_scale(row: Seq<u8>, srow: Seq<u8>, m: Seq<Seq<u8>>, c: u8, j: int, n: nat)
    requires
        forall|k: int| 0 <= k < n ==> #[trigger] srow[k] == gf_mul(row[k], c),
    ensures
        dot(srow, m, j, n) == gf_mul(dot(row, m, j, n), c),
    decreases n,
{
    if n == 0 {
        lemma_mul_identities(c);
    } else {
        let k = n - 1;
        lemma_dot_scale(row, srow, m, c, j, (n - 1) as nat);
        crate::gf::lemma_mul_associative(row[k], c, m[k][j]);
        crate::gf::lemma_mul_commutative(c, m[k][j]);
        crate::gf::lemma_mul_associative(row[k], m[k][j], c);
        crate::gf::lemma_mul_distributes(c, dot(row, m, j, (n - 1) as nat), gf_mul(row[k], m[k][j]));
    }
}

/// Adding a scaled row adds its scaled dot products.
proof fn lemma_dot_add(r1: Seq<u8>, r2: Seq<u8>, sum: Seq<u8>, m: Seq<Seq<u8>>, c: u8, j: int, n: nat)
    requires
        forall|k: int| 0 <= k < n ==> #[trigger] sum[k] == gf_add(r1[k], gf_mul(r2[k], c)),
    ensures
        dot(sum, m, j, n) == gf_add(dot(r1, m, j, n), gf_mul(dot(r2, m, j, n), c)),
    decreases n,
{
    let scaled = Seq::new(n, |k: int| gf_mul(r2[k], c));
    lemma_dot_scale(r2, scaled, m, c, j, n);
    lemma_dot_add_rows(r1, scaled, sum, m, j, n);
}

proof fn lemma_dot_add_rows(r1: Seq<u8>, r2: Seq<u8>, sum: Seq<u8>, m: Seq<Seq<u8>>, j: int, n: nat)
    requires
        forall|k: int| 0 <= k < n ==> #[trigger] sum[k] == gf_add(r1[k], r2[k]),
    ensures
        dot(sum, m, j, n) == gf_add(dot(r1, m, j, n), dot(r2, m, j, n)),
    decreases n,
{
    if n == 0 {
        lemma_xor(0, 0, 0);
    } else {
        let k = n - 1;
        lemma_dot_add_rows(r1, r2, sum, m, j, (n - 1) as nat);
        crate::gf::lemma_mul_distributes(m[k][j], r1[k], r2[k]);
        lemma_xor4(dot(r1, m, j, (n - 1) as nat), dot(r2, m, j, (n - 1) as nat), gf_mul(r1[k], m[k][j]), gf_mul(r2[k], m[k][j]));
    }
}

/// A row operation on the left factor is the same row operation on the product.
pub proof fn lemma_left_row_ops(x: Seq<Seq<u8>>, m: Seq<Seq<u8>>, n: nat, a: int, t: int, c: u8)
    requires
        is_square(x, n),
        0 <= a < n,
        0 <= t < n,
    ensures
        mat_mul(swap_rows(x, a, t), m, n, n, n) == swap_rows(mat_mul(x, m, n, n, n), a, t),
        mat_mul(scale_row_seq(x, a, c, n), m, n, n, n) == scale_row_seq(mat_mul(x, m, n, n, n), a, c, n),
        mat_mul(add_row_seq(x, a, t, c, n), m, n, n, n) == add_row_seq(mat_mul(x, m, n, n, n), a, t, c, n),
{
    let p = mat_mul(x, m, n, n, n);
    assert(mat_mul(swap_rows(x, a, t), m, n, n, n) =~~= swap_rows(p, a, t));
    assert forall|j: int| 0 <= j < n implies #[trigger] mat_mul(scale_row_seq(x, a, c, n), m, n, n, n)[a][j]
        == gf_mul(p[a][j], c) by {
        lemma_dot_scale(x[a], scale_row_seq(x, a, c, n)[a], m, c, j, n);
    }
    assert(mat_mul(scale_row_seq(x, a, c, n), m, n, n, n) =~~= scale_row_seq(p, a, c, n));
    assert forall|j: int| 0 <= j < n implies #[trigger] mat_mul(add_row_seq(x, a, t, c, n), m, n, n, n)[t][j]
        == gf_add(p[t][j], gf_mul(p[a][j], c)) by {
        lemma_dot_add(x[t], x[a], add_row_seq(x, a, t, c, n)[t], m, c, j, n);
    }
    assert(mat_mul(add_row_seq(x, a, t, c, n), m, n, n, n) =~~= add_row_seq(p, a, t, c, n));
}

/// Undoing a row swap on the columns of the left factor keeps the product.
pub proof fn lemma_right_swap(f: Seq<Seq<u8>>, x: Seq<Seq<u8>>, n: nat, a: int, b: int)
    requires
        is_square(f, n),
        is_square(x, n),
        0 <= a < n,
        0 <= b < n,
    ensures
        mat_mul(swap_cols(f, a, b, n), swap_rows(x, a, b), n, n, n) == mat_mul(f, x, n, n, n),
{
    let f2 = swap_cols(f, a, b, n);
    let x2 = swap_rows(x, a, b);
    assert forall|r: int, j: int| 0 <= r < n && 0 <= j < n implies #[trigger] mat_mul(f2, x2, n, n, n)[r][j]
        == mat_mul(f, x, n, n, n)[r][j] by {
        if a == b {
            lemma_dot_termwise(f2[r], x2, f[r], x, j, n);
        } else {
            lemma_xor(gf_mul(f[r][a], x[a][j]), gf_mul(f[r][b], x[b][j]), 0);
            lemma_dot_two_terms(f2[r], x2, f[r], x, j, n, a, b);
        }
    }
    assert(mat_mul(f2, x2, n, n, n) =~~= mat_mul(f, x, n, n, n));
}

/// Undoing a row scaling on the columns of the left factor keeps the product.
pub proof fn lemma_right_scale(f: Seq<Seq<u8>>, x: Seq<Seq<u8>>, n: nat, a: int, c: u8)
    requires
        is_square(f, n),
        is_square(x, n),
        0 <= a < n,
        c != 0,
    ensures
        mat_mul(scale_col(f, a, gf_inv(c), n), scale_row_seq(x, a, c, n), n, n, n) == mat_mul(f, x, n, n, n),
{
    let f2 = scale_col(f, a, gf_inv(c), n);
    let x2 = scale_row_seq(x, a, c, n);
    crate::gf::lemma_inverse(c);
    assert forall|r: int, j: int| 0 <= r < n && 0 <= j < n implies #[trigger] mat_mul(f2, x2, n, n, n)[r][j]
        == mat_mul(f, x, n, n, n)[r][j] by {
        assert forall|k: int| 0 <= k < n implies #[trigger] gf_mul(f2[r][k], x2[k][j]) == gf_mul(f[r][k], x[k][j]) by {
            if k == a {
                // (f * c^-1) * (x * c) == f * x
                crate::gf::lemma_mul_associative(f[r][a], gf_inv(c), gf_mul(x[a][j], c));
                crate::gf::lemma_mul_commutative(x[a][j], c);
                crate::gf::lemma_mul_associative(gf_inv(c), c, x[a][j]);
                crate::gf::lemma_mul_identities(x[a][j]);
            }
        }
        lemma_dot_termwise(f2[r], x2, f[r], x, j, n);
    }
    assert(mat_mul(f2, x2, n, n, n) =~~= mat_mul(f, x, n, n, n));
}

/// Undoing a row addition on the columns of the left factor keeps the product.
pub proof fn lemma_right_add(f: Seq<Seq<u8>>, x: Seq<Seq<u8>>, n: nat, a: int, t: int, c: u8)
    requires
        is_square(f, n),
        is_square(x, n),
        0 <= a < n,
        0 <= t < n,
        a != t,
    ensures
        mat_mul(add_col(f, a, t, c, n), add_row_seq(x, a, t, c, n), n, n, n) == mat_mul(f, x, n, n, n),
{
    let f2 = add_col(f, a, t, c, n);
    let x2 = add_row_seq(x, a, t, c, n);
    assert forall|r: int, j: int| 0 <= r < n && 0 <= j < n implies #[trigger] mat_mul(f2, x2, n, n, n)[r][j]
        == mat_mul(f, x, n, n, n)[r][j] by {
        let (fa, ft, xa, xt) = (f[r][a], f[r][t], x[a][j], x[t][j]);
        // (fa + ft c) xa + ft (xt + xa c) == fa xa + ft xt
        crate::gf::lemma_mul_distributes(xa, fa, gf_mul(ft, c));
        crate::gf::lemma_mul_distributes(ft, xt, gf_mul(xa, c));
        crate::gf::lemma_mul_associative(ft, c, xa);
        crate::gf::lemma_mul_commutative(c, xa);
        crate::gf::lemma_mul_associative(ft, xa, c);
        crate::gf::lemma_mul_commutative(gf_add(fa, gf_mul(ft, c)), xa);
        crate::gf::lemma_mul_commutative(fa, xa);
        crate::gf::lemma_mul_commutative(gf_mul(ft, c), xa);
        crate::gf::lemma_mul_associative(ft, c, xa);
        let (p, q, u) = (gf_mul(fa, xa), gf_mul(gf_mul(ft, c), xa), gf_mul(ft, xt));
        assert(((p ^ q) ^ (u ^ q)) == (p ^ u)) by (bit_vector);
        lemma_dot_two_terms(f2[r], x2, f[r], x, j, n, a, t);
    }
    assert(mat_mul(f2, x2, n, n, n) =~~= mat_mul(f, x, n, n, n));
}

proof fn lemma_vec_dot_zero_vec(row: Seq<u8>, x: Seq<u8>, n: nat)
    requires
        forall|c: int| 0 <= c < n ==> #[trigger] x[c] == 0,
    ensures
        vec_dot(row, x, n) == 0,
    decreases n,
{
    if n > 0 {
        lemma_vec_dot_zero_vec(row, x, (n - 1) as nat);
        lemma_mul_identities(row[n - 1]);
        lemma_xor(0, 0, 0);
    }
}

/// A row that is unit on the first `i` columns, against the vector that cancels column `i`.
proof fn lemma_row_cancels(row: Seq<u8>, v: Seq<u8>, r: int, i: int, k: nat)
    requires
        0 <= i,
        forall|c: int| 0 <= c < i ==> #[trigger] row[c] == (if r == c { 1u8 } else { 0u8 }),
        0 <= r < i ==> v[r] == row[i],
        v[i] == 1,
        forall|c: int| i < c < k ==> #[trigger] v[c] == 0,
    ensures
        vec_dot(row, v, k) == gf_add(
            if 0 <= r < i && r < k { row[i] } else { 0u8 },
            if i < k { row[i] } else { 0u8 },
        ),
    decreases k,
{
    if k == 0 {
        lemma_xor(0, 0, 0);
    } else {
        let c = k - 1;
        lemma_row_cancels(row, v, r, i, (k - 1) as nat);
        let pa = if 0 <= r < i && r < k - 1 { row[i] } else { 0u8 };
        let pb = if i < k - 1 { row[i] } else { 0u8 };
        let term = gf_mul(row[c], v[c]);
        if c < i {
            lemma_mul_identities(v[c]);
            if c == r {
                assert(pa == 0u8 && pb == 0u8);
                assert(((0u8 ^ 0u8) ^ term) == (term ^ 0u8)) by (bit_vector);
            } else {
                assert(((pa ^ pb) ^ 0u8) == (pa ^ pb)) by (bit_vector);
            }
        } else if c == i {
            lemma_mul_identities(row[c]);
            assert(pb == 0u8);
            assert(((pa ^ 0u8) ^ term) == (pa ^ term)) by (bit_vector);
        } else {
            lemma_mul_identities(row[c]);
            assert(((pa ^ pb) ^ 0u8) == (pa ^ pb)) by (bit_vector);
        }
    }
}

/// If Gauss-Jordan finds no pivot in column `i`, with `m == f * res` and the first `i` columns
/// of `res` already unit columns, then `m` has no left inverse (hence no inverse).
pub proof fn lemma_no_pivot(m: Seq<Seq<u8>>, f: Seq<Seq<u8>>, res: Seq<Seq<u8>>, n: nat, i: int)
    requires
        is_square(res, n),
        0 <= i < n,
        forall|r: int, c: int| 0 <= r < n && 0 <= c < i ==> #[trigger] res[r][c] == identity_seq(n)[r][c],
        forall|j: int| i <= j < n ==> #[trigger] res[j][i] == 0,
        mat_mul(f, res, n, n, n) == m,
    ensures
        forall|t: Seq<Seq<u8>>| #[trigger] mat_mul(t, m, n, n, n) != identity_seq(n),
{
    let v = Seq::new(n, |c: int| if c < i { res[c][i] } else if c == i { 1u8 } else { 0u8 });
    let zero = Seq::new(n, |c: int| 0u8);
    assert forall|r: int| 0 <= r < n implies #[trigger] mat_vec(res, v, n, n)[r] == zero[r] by {
        assert forall|c: int| 0 <= c < i implies #[trigger] res[r][c] == (if r == c { 1u8 } else { 0u8 }) by {
            assert(res[r][c] == identity_seq(n)[r][c]);
        }
        lemma_row_cancels(res[r], v, r, i, n);
        lemma_xor(res[r][i], 0, 0);
        lemma_xor(0, 0, 0);
    }
    assert(mat_vec(res, v, n, n) =~= zero);
    lemma_mat_vec_assoc(f, res, v, n);
    assert forall|r: int| 0 <= r < n implies #[trigger] mat_vec(f, zero, n, n)[r] == zero[r] by {
        lemma_vec_dot_zero_vec(f[r], zero, n);
    }
    assert(mat_vec(f, zero, n, n) =~= zero);
    lemma_mat_vec_identity(v, n);
    assert forall|t: Seq<Seq<u8>>| #[trigger] mat_mul(t, m, n, n, n) != identity_seq(n) by {
        if mat_mul(t, m, n, n, n) == identity_seq(n) {
            lemma_mat_vec_assoc(t, m, v, n);
            assert forall|r: int| 0 <= r < n implies #[trigger] mat_vec(t, zero, n, n)[r] == zero[r] by {
                lemma_vec_dot_zero_vec(t[r], zero, n);
            }
            assert(mat_vec(t, zero, n, n) =~= zero);
            assert(v[i] == zero[i]);
        }
    }
}

/// A well-formed square matrix as a square sequence.
pub proof fn lemma_wf_square(m: Matrix)
    requires
        m.wf(),
        m.rows == m.cols,
    ensures
        is_square(m@, m.rows as nat),
{
    assert forall|i: int| 0 <= i < m.rows implies #[trigger] m@[i].len() == m.rows by {
        assert(m@[i] == m.mat@[i]@);
    }
}

/// The state of Gauss-Jordan elimination on `m`: `res` is `inv * m`, and the ghost `f` undoes
/// the row operations so far: `f * res == m` and `f * inv == I`.
pub open spec fn elimination_state(m: Seq<Seq<u8>>, f: Seq<Seq<u8>>, res: Matrix, inv: Matrix, n: nat) -> bool {
    &&& is_square(m, n)
    &&& res.wf() && res.rows == n && res.cols == n
    &&& inv.wf() && inv.rows == n && inv.cols == n
    &&& is_square(f, n)
    &&& mat_mul(f, res@, n, n, n) == m
    &&& mat_mul(f, inv@, n, n, n) == identity_seq(n)
    &&& mat_mul(inv@, m, n, n, n) == res@
}

/// The first `i` columns of `res` are those of the identity.
pub open spec fn unit_columns(res: Seq<Seq<u8>>, n: nat, i: int) -> bool {
    forall|r: int, c: int| 0 <= r < n && 0 <= c < i ==> #[trigger] res[r][c] == identity_seq(n)[r][c]
}

/// Moves the pivot row `j` into place `i`.
#[verifier::rlimit(100)]
fn swap_step(res: &mut Matrix, inv: &mut Matrix, i: usize, j: usize, m: Ghost<Seq<Seq<u8>>>, f: Ghost<Seq<Seq<u8>>>) -> (g: Ghost<Seq<Seq<u8>>>)
    requires
        elimination_state(m@, f@, *old(res), *old(inv), old(res).rows as nat),
        i <= j < old(res).rows,
        unit_columns(old(res)@, old(res).rows as nat, i as int),
        old(res)@[j as int][i as int] != 0,
    ensures
        final(res).rows == old(res).rows,
        elimination_state(m@, g@, *final(res), *final(inv), old(res).rows as nat),
        unit_columns(final(res)@, old(res).rows as nat, i as int),
        final(res)@[i as int][i as int] != 0,
{
    let ghost n = res.rows as nat;
    proof {
        lemma_wf_square(*res);
        lemma_wf_square(*inv);
        lemma_left_row_ops(inv@, m@, n, i as int, j as int, 0);
        lemma_right_swap(f@, res@, n, i as int, j as int);
        lemma_right_swap(f@, inv@, n, i as int, j as int);
    }
    let ghost old_res = res@;
    res.swap_row(i, j);
    inv.swap_row(i, j);
    let ghost g = swap_cols(f@, i as int, j as int, n);
    proof {
        assert(res@ == swap_rows(old_res, i as int, j as int));
        assert forall|r: int, c: int| 0 <= r < n && 0 <= c < i implies #[trigger] res@[r][c] == identity_seq(n)[r][c] by {
            if r == i {
                assert(res@[r][c] == old_res[j as int][c]);
                assert(old_res[j as int][c] == identity_seq(n)[j as int][c]);
            } else if r == j {
                assert(res@[r][c] == old_res[i as int][c]);
                assert(old_res[i as int][c] == identity_seq(n)[i as int][c]);
            } else {
                assert(res@[r][c] == old_res[r][c]);
            }
        }
        assert(res@[i as int][i as int] == old_res[j as int][i as int]);
    }
    Ghost(g)
}

/// Scales the pivot row so that the pivot is 1.
#[verifier::rlimit(100)]
fn scale_step<F: Field256>(res: &mut Matrix, inv: &mut Matrix, i: usize, m: Ghost<Seq<Seq<u8>>>, f: Ghost<Seq<Seq<u8>>>, field: &F) -> (g: Ghost<Seq<Seq<u8>>>)
    requires
        elimination_state(m@, f@, *old(res), *old(inv), old(res).rows as nat),
        i < old(res).rows,
        unit_columns(old(res)@, old(res).rows as nat, i as int),
        old(res)@[i as int][i as int] != 0,
    ensures
        final(res).rows == old(res).rows,
        elimination_state(m@, g@, *final(res), *final(inv), old(res).rows as nat),
        unit_columns(final(res)@, old(res).rows as nat, i as int),
        final(res)@[i as int][i as int] == 1,
{
    let ghost n = res.rows as nat;
    let pivot = res.mat[i][i];
    let s = field.inv(pivot);
    proof {
        crate::gf::lemma_inverse(pivot);
        lemma_wf_square(*res);
        lemma_wf_square(*inv);
        lemma_left_row_ops(inv@, m@, n, i as int, i as int, s);
        lemma_right_scale(f@, res@, n, i as int, s);
        lemma_right_scale(f@, inv@, n, i as int, s);
    }
    let ghost before = res@;
    res.scale_row(i, s, field);
    inv.scale_row(i, s, field);
    let ghost g = scale_col(f@, i as int, gf_inv(s), n);
    proof {
        assert(res@ == scale_row_seq(before, i as int, s, n));
        assert forall|r: int, c: int| 0 <= r < n && 0 <= c < i implies #[trigger] res@[r][c] == identity_seq(n)[r][c] by {
            if r == i {
                lemma_mul_identities(s);
                assert(before[r][c] == identity_seq(n)[r][c]);
            }
        }
    }
    Ghost(g)
}

/// Clears column `i` in row `t` by adding a multiple of the pivot row.
#[verifier::rlimit(100)]
fn clear_step<F: Field256>(res: &mut Matrix, inv: &mut Matrix, i: usize, t: usize, m: Ghost<Seq<Seq<u8>>>, f: Ghost<Seq<Seq<u8>>>, field: &F) -> (g: Ghost<Seq<Seq<u8>>>)
    requires
        elimination_state(m@, f@, *old(res), *old(inv), old(res).rows as nat),
        i < old(res).rows,
        t < old(res).rows,
        t != i,
        unit_columns(old(res)@, old(res).rows as nat, i as int),
        old(res)@[i as int][i as int] == 1,
    ensures
        final(res).rows == old(res).rows,
        elimination_state(m@, g@, *final(res), *final(inv), old(res).rows as nat),
        unit_columns(final(res)@, old(res).rows as nat, i as int),
        final(res)@[i as int][i as int] == 1,
        final(res)@[t as int][i as int] == 0,
        forall|r: int| 0 <= r < old(res).rows && r != t ==> #[trigger] final(res)@[r] == old(res)@[r],
{
    let ghost n = res.rows as nat;
    let c = res.mat[t][i];
    if c == 0 {
        return f;
    }
    proof {
        lemma_wf_square(*res);
        lemma_wf_square(*inv);
        lemma_left_row_ops(inv@, m@, n, i as int, t as int, c);
        lemma_right_add(f@, res@, n, i as int, t as int, c);
        lemma_right_add(f@, inv@, n, i as int, t as int, c);
    }
    let ghost before = res@;
    res.add_scaled_row(i, t, c, field);
    inv.add_scaled_row(i, t, c, field);
    let ghost g = add_col(f@, i as int, t as int, c, n);
    proof {
        assert(res@ == add_row_seq(before, i as int, t as int, c, n));
        assert forall|r: int, k: int| 0 <= r < n && 0 <= k < i implies #[trigger] res@[r][k] == identity_seq(n)[r][k] by {
            if r == t {
                assert(before[i as int][k] == identity_seq(n)[i as int][k]);
                lemma_mul_identities(c);
                lemma_xor(before[r][k], 0, 0);
                assert(before[r][k] == identity_seq(n)[r][k]);
            }
        }
        lemma_mul_identities(c);
        lemma_xor(c, 0, 0);
    }
    Ghost(g)
}

/// The first row from `i` on with a non-zero entry in column `i`, or the number of rows.
fn find_pivot(res: &Matrix, i: usize) -> (j: usize)
    requires
        res.wf(),
        res.rows == res.cols,
        i < res.rows,
    ensures
        i <= j <= res.rows,
        j < res.rows ==> res@[j as int][i as int] != 0,
        j == res.rows ==> forall|q: int| i <= q < res.rows ==> #[trigger] res@[q][i as int] == 0,
{
    let n = res.rows;
    let mut j: usize = i;
    while j < n && res.mat[j][i] == 0
        invariant
            res.wf(),
            res.rows == n,
            res.cols == n,
            i < n,
            i <= j <= n,
            forall|q: int| i <= q < j ==> #[trigger] res@[q][i as int] == 0,
        decreases n - j,
    {
        j = j + 1;
    }
    j
}

/// Clears column `i` in every row but the pivot row.
#[verifier::rlimit(100)]
fn clear_column<F: Field256>(res: &mut Matrix, inv: &mut Matrix, i: usize, m: Ghost<Seq<Seq<u8>>>, f: Ghost<Seq<Seq<u8>>>, field: &F) -> (g: Ghost<Seq<Seq<u8>>>)
    requires
        elimination_state(m@, f@, *old(res), *old(inv), old(res).rows as nat),
        i < old(res).rows,
        unit_columns(old(res)@, old(res).rows as nat, i as int),
        old(res)@[i as int][i as int] == 1,
    ensures
        final(res).rows == old(res).rows,
        elimination_state(m@, g@, *final(res), *final(inv), old(res).rows as nat),
        unit_columns(final(res)@, old(res).rows as nat, i + 1),
{
    let n = res.rows;
    let ghost nn = n as nat;
    let ghost mut h = f@;
    let mut t: usize = 0;
    while t < n
        invariant
            n == res.rows,
            nn == n as nat,
            elimination_state(m@, h, *res, *inv, nn),
            i < n,
            t <= n,
            unit_columns(res@, nn, i as int),
            res@[i as int][i as int] == 1,
            forall|r: int| 0 <= r < t && r != i ==> #[trigger] res@[r][i as int] == 0,
        decreases n - t,
    {
        if t != i {
            let ghost before = res@;
            let g = clear_step(res, inv, i, t, Ghost(m@), Ghost(h), field);
            proof {
                h = g@;
                assert forall|r: int| 0 <= r < t + 1 && r != i implies #[trigger] res@[r][i as int] == 0 by {
                    if r != t {
                        assert(res@[r] == before[r]);
                    }
                }
            }
        }
        t = t + 1;
    }
    proof {
        assert forall|r: int, c: int| 0 <= r < nn && 0 <= c < i + 1 implies #[trigger] res@[r][c] == identity_seq(nn)[r][c] by {
            if c < i {
                assert(unit_columns(res@, nn, i as int));
            } else if r != i {
                assert(res@[r][i as int] == 0);
            }
        }
    }
    Ghost(h)
}

/// The transpose of an `n x n` matrix.
pub open spec fn transpose_seq(a: Seq<Seq<u8>>, n: nat) -> Seq<Seq<u8>> {
    Seq::new(n, |i: int| Seq::new(n, |j: int| a[j][i]))
}

/// `(a * b)^T == b^T * a^T`.
pub proof fn lemma_transpose_mul(a: Seq<Seq<u8>>, b: Seq<Seq<u8>>, n: nat)
    ensures
        transpose_seq(mat_mul(a, b, n, n, n), n) == mat_mul(transpose_seq(b, n), transpose_seq(a, n), n, n, n),
{
    let bt = transpose_seq(b, n);
    let at = transpose_seq(a, n);
    assert forall|i: int, j: int| 0 <= i < n && 0 <= j < n implies #[trigger] mat_mul(bt, at, n, n, n)[i][j]
        == transpose_seq(mat_mul(a, b, n, n, n), n)[i][j] by {
        assert forall|k: int| 0 <= k < n implies #[trigger] gf_mul(bt[i][k], at[k][j]) == gf_mul(a[j][k], b[k][i]) by {
            crate::gf::lemma_mul_commutative(b[k][i], a[j][k]);
        }
        lemma_dot_termwise_cols(bt[i], at, j, a[j], b, i, n);
    }
    assert(mat_mul(bt, at, n, n, n) =~~= transpose_seq(mat_mul(a, b, n, n, n), n));
}

/// Dot products of different columns whose terms agree.
proof fn lemma_dot_termwise_cols(r1: Seq<u8>, m1: Seq<Seq<u8>>, j1: int, r2: Seq<u8>, m2: Seq<Seq<u8>>, j2: int, n: nat)
    requires
        forall|k: int| 0 <= k < n ==> #[trigger] gf_mul(r1[k], m1[k][j1]) == gf_mul(r2[k], m2[k][j2]),
    ensures
        dot(r1, m1, j1, n) == dot(r2, m2, j2, n),
    decreases n,
{
    if n > 0 {
        lemma_dot_termwise_cols(r1, m1, j1, r2, m2, j2, (n - 1) as nat);
        assert(gf_mul(r1[n - 1], m1[n - 1][j1]) == gf_mul(r2[n - 1], m2[n - 1][j2]));
    }
}

/// Transposing twice gives back a square matrix.
pub proof fn lemma_transpose_twice(a: Seq<Seq<u8>>, n: nat)
    requires
        is_square(a, n),
    ensures
        transpose_seq(transpose_seq(a, n), n) == a,
{
    assert(transpose_seq(transpose_seq(a, n), n) =~~= a);
}

/// The identity is its own transpose.
pub proof fn lemma_transpose_identity(n: nat)
    ensures
        transpose_seq(identity_seq(n), n) == identity_seq(n),
{
    assert(transpose_seq(identity_seq(n), n) =~~= identity_seq(n));
}

} // verus!
