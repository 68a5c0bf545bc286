//! Reed-Solomon erasure coding of byte buffers into stripes of `k` data and `m` code symbols.
use vstd::prelude::*;
use crate::encoding::Encoding;
use crate::error::RsError;
use crate::finite_field::Field256;
use crate::gf::{gf_add, gf_inv, gf_mul, gf_pow};
use crate::matrix::{
    cauchy_entry, cauchy_matrix, identity_seq, lemma_identity_neutral, lemma_mat_mul_assoc,
    lemma_mat_vec_assoc, lemma_mat_vec_identity,
    lemma_selected_bounds, lemma_vec_dot_unit, mat_mul, mat_vec, selected, vandermonde_entry,
    vec_dot, Matrix, VandermondeMatrix,
};
use crate::polynomial::{
    basis, basis_sum, coef, distinct_xs, eval_upto, indexed_points, lagrange, lemma_eval_term_other,
    lemma_eval_term_own, lemma_eval_upto_extend, lemma_interpolate_values, lemma_lagrange_basis_sum,
    lemma_poly_eval_upto, lemma_reinterpolate, lemma_term_len, lemma_term_xs_only, poly_eval,
    Polynomial,
};

verus! {

/// Reed-Solomon coded data: stripes of `k + m` symbols, the unpadded length, and which columns
/// can be trusted (`valid[i]` for column `i`; empty means every column).
#[derive(Debug, PartialEq)]
pub struct RSStream {
    pub length: usize,
    pub encoding: Encoding,
    pub codes: Vec<Vec<u8>>,
    pub valid: Vec<bool>,
}

/// Byte `t` of `bytes` padded with zeros.
pub open spec fn padded(bytes: Seq<u8>, t: int) -> u8 {
    if 0 <= t < bytes.len() {
        bytes[t]
    } else {
        0
    }
}

/// Stripe `r`'s data: `k` bytes of `bytes` from `r * k`, zero-padded.
pub open spec fn chunk(bytes: Seq<u8>, k: nat, r: int) -> Seq<u8> {
    Seq::new(k, |c: int| padded(bytes, r * k + c))
}

/// The number of stripes that `len` bytes fill, `ceil(len / k)`.
pub open spec fn stripe_count(len: nat, k: nat) -> nat {
    ((len + k - 1) / k as int) as nat
}

/// The stripes as sequences.
pub open spec fn stripes(s: &RSStream) -> Seq<Seq<u8>> {
    s.codes@.map_values(|row: Vec<u8>| row@)
}

/// The stream is consistent: at least one data symbol, at most 255 symbols, every stripe
/// `k + m` long, enough stripes for `length`, and a mask that is empty or covers every column.
pub open spec fn stream_wf(s: &RSStream) -> bool {
    let k = s.encoding.data_chunks as int;
    let n = s.encoding.data_chunks + s.encoding.code_chunks;
    &&& k >= 1
    &&& n <= 255
    &&& forall|r: int| 0 <= r < s.codes@.len() ==> #[trigger] s.codes@[r]@.len() == n
    &&& s.length <= s.codes@.len() * k
    &&& (s.valid@.len() == 0 || s.valid@.len() == n)
}

/// Which of the `n` columns can be used: all when the mask is empty.
pub open spec fn usable(valid: Seq<bool>, n: nat) -> Seq<bool> {
    Seq::new(n, |i: int| valid.len() == 0 || valid[i])
}

/// The usable columns in increasing order.
pub open spec fn usable_columns(s: &RSStream) -> Seq<int> {
    selected(usable(s.valid@, (s.encoding.data_chunks + s.encoding.code_chunks) as nat))
}

/// The `k` lowest usable columns, from which a stripe is recovered.
pub open spec fn chosen_columns(s: &RSStream) -> Seq<int> {
    usable_columns(s).take(s.encoding.data_chunks as int)
}

/// No data column is erased: the chosen columns are `0 .. k`.
pub open spec fn data_intact(s: &RSStream) -> bool {
    forall|c: int| 0 <= c < s.encoding.data_chunks ==> #[trigger] chosen_columns(s)[c] == c
}

/// The data columns read in order, cut to `length`.
pub open spec fn data_columns(s: &RSStream) -> Seq<u8> {
    let k = s.encoding.data_chunks as int;
    Seq::new(s.length as nat, |t: int| stripes(s)[t / k][t % k])
}

/// The stream holds `bytes`: its length, and data columns that are `bytes` zero-padded.
pub open spec fn holds_data(s: &RSStream, bytes: Seq<u8>) -> bool {
    let k = s.encoding.data_chunks as nat;
    &&& s.length == bytes.len()
    &&& s.codes@.len() == stripe_count(bytes.len(), k)
    &&& forall|r: int, c: int|
        0 <= r < s.codes@.len() && 0 <= c < k ==> #[trigger] stripes(s)[r][c] == padded(
            bytes,
            r * k + c,
        )
}

/// What every encoder returns for `bytes`: a well-formed stream with no mask that holds them.
pub open spec fn encoded(s: &RSStream, encoding: Encoding, bytes: Seq<u8>) -> bool {
    &&& s.encoding == encoding
    &&& s.valid@.len() == 0
    &&& stream_wf(s)
    &&& holds_data(s, bytes)
}

/// The points `(c, stripe[c])` for the columns `cols`.
pub open spec fn stripe_points(stripe: Seq<u8>, cols: Seq<int>) -> Seq<(u8, u8)> {
    Seq::new(cols.len(), |e: int| (cols[e] as u8, stripe[cols[e]]))
}

/// The symbols of `stripe` at the columns `cols`.
pub open spec fn gather(stripe: Seq<u8>, cols: Seq<int>) -> Seq<u8> {
    Seq::new(cols.len(), |e: int| stripe[cols[e]])
}

/// Byte `t` of what interpolating through the chosen columns recovers.
pub open spec fn lagrange_recovered(s: &RSStream, t: int) -> u8 {
    let k = s.encoding.data_chunks as int;
    poly_eval(lagrange(stripe_points(stripes(s)[t / k], chosen_columns(s))), (t % k) as u8)
}

/// The points `(i, 0)` for `i < k`: the data columns as interpolation points.
pub open spec fn data_points(k: nat) -> Seq<(u8, u8)> {
    Seq::new(k, |i: int| (i as u8, 0u8))
}

/// The inverse of the top `k x k` Vandermonde block: column `c` holds the coefficients of the
/// Lagrange basis polynomial of data column `c`.
pub open spec fn vandermonde_top_inverse(k: nat) -> Seq<Seq<u8>> {
    Seq::new(k, |j: int| Seq::new(k, |c: int| coef(basis(data_points(k), c), j)))
}

/// The top `k x k` block of the Vandermonde matrix: row `i` holds the powers of `i`.
pub open spec fn vandermonde_top(k: nat) -> Seq<Seq<u8>> {
    Seq::new(k, |i: int| Seq::new(k, |j: int| vandermonde_entry(0, i, j)))
}

/// The parity rows of the Vandermonde code, `V_bottom * V_top^-1`, where row `i` of `V` holds
/// the powers of `i` and the bottom block has rows `k .. k + m`.
pub open spec fn vandermonde_parity(k: nat, m: nat) -> Seq<Seq<u8>> {
    let bottom = Seq::new(m, |i: int| Seq::new(k, |j: int| vandermonde_entry(k as int, i, j)));
    mat_mul(bottom, vandermonde_top_inverse(k), m, k, k)
}

/// `prod_{j < n, j != skip} (x + j)`.
pub open spec fn product_of_differences(x: u8, n: nat, skip: int) -> u8
    decreases n,
{
    if n == 0 {
        1
    } else {
        let rest = product_of_differences(x, (n - 1) as nat, skip);
        if n - 1 == skip {
            rest
        } else {
            gf_mul(rest, gf_add(x, (n - 1) as u8))
        }
    }
}

/// Entry `[i][c]` of the Cauchy parity rows: the Cauchy entry `1 / (x_i + c)` with
/// `x_i = k + i`, scaled by `prod_j (x_i + j)` and by `1 / prod_{j != c} (c + j)`. These are the
/// Lagrange basis polynomials of the data columns evaluated at the code columns, so the code
/// symbols agree with the other encoders.
pub open spec fn cauchy_parity_entry(k: nat, i: int, c: int) -> u8 {
    let x = (k + i) as u8;
    gf_mul(
        gf_mul(
            product_of_differences(x, k, k as int),
            gf_inv(product_of_differences(c as u8, k, c)),
        ),
        cauchy_entry(k as int, i, c),
    )
}

impl RSStream {
    /// The stream of an empty buffer.
    pub fn empty(encoding: Encoding) -> (r: Self)
        ensures
            r.length == 0,
            r.encoding == encoding,
            r.codes@.len() == 0,
            r.valid@.len() == 0,
    {
        RSStream { length: 0, encoding: encoding, codes: Vec::new(), valid: Vec::new() }
    }
}

/// Stripe `r`'s data: `k` bytes from `r * k`, zero-padded.
fn chunk_of(bytes: &[u8], k: usize, r: usize) -> (v: Vec<u8>)
    requires
        r * k <= bytes@.len(),
    ensures
        v@ == chunk(bytes@, k as nat, r as int),
{
    let len = bytes.len();
    let base = r * k;
    let avail = len - base;
    let mut v: Vec<u8> = Vec::new();
    let mut c: usize = 0;
    while c < k
        invariant
            len == bytes@.len(),
            base == r * k,
            base + avail == bytes@.len(),
            c <= k,
            v@ == chunk(bytes@, k as nat, r as int).subrange(0, c as int),
        decreases k - c,
    {
        let b = if c < avail {
            bytes[base + c]
        } else {
            0
        };
        v.push(b);
        proof {
            assert(chunk(bytes@, k as nat, r as int).subrange(0, c + 1) =~= chunk(
                bytes@,
                k as nat,
                r as int,
            ).subrange(0, c as int).push(b));
        }
        c = c + 1;
    }
    proof {
        assert(chunk(bytes@, k as nat, r as int).subrange(0, k as int) =~= chunk(
            bytes@,
            k as nat,
            r as int,
        ));
    }
    v
}

/// The number of stripes that `len` bytes fill, computed without overflow.
fn stripes_for(len: usize, k: usize) -> (c: usize)
    requires
        k >= 1,
    ensures
        c == stripe_count(len as nat, k as nat),
{
    let q = len / k;
    let r = len % k;
    proof {
        vstd::arithmetic::div_mod::lemma_fundamental_div_mod(len as int, k as int);
        vstd::arithmetic::div_mod::lemma_mod_pos_bound(len as int, k as int);
        assert(len as int == k * q + r);
        assert(q * k == k * q) by (nonlinear_arith);
        if r == 0 {
            vstd::arithmetic::div_mod::lemma_fundamental_div_mod_converse(
                (len + k - 1) as int, k as int, q as int, (k - 1) as int);
        } else {
            assert((len + k - 1) as int == (q + 1) * k + (r - 1)) by (nonlinear_arith)
                requires
                    len as int == k * q + r,
            ;
            vstd::arithmetic::div_mod::lemma_fundamental_div_mod_converse(
                (len + k - 1) as int, k as int, (q + 1) as int, (r - 1) as int);
            assert(q + 1 <= len) by (nonlinear_arith)
                requires
                    len as int == k * q + r,
                    r >= 1,
                    k >= 1,
                    q >= 0,
            ;
        }
    }
    if r == 0 {
        q
    } else {
        q + 1
    }
}


/// Index facts for a byte `t` in stripe `t / k`.
proof fn lemma_stripe_index(t: int, k: int, rows: int)
    requires
        k >= 1,
        0 <= t < rows * k,
    ensures
        0 <= t / k < rows,
        0 <= t % k < k,
        (t / k) * k + t % k == t,
{
    vstd::arithmetic::div_mod::lemma_fundamental_div_mod(t, k);
    vstd::arithmetic::div_mod::lemma_div_pos_is_pos(t, k);
    vstd::arithmetic::div_mod::lemma_mod_pos_bound(t, k);
    assert((t / k) * k == k * (t / k)) by (nonlinear_arith);
    if t / k >= rows {
        vstd::arithmetic::mul::lemma_mul_inequality(rows, t / k, k);
        assert((t / k) * k == k * (t / k)) by (nonlinear_arith);
    }
}

proof fn lemma_stripe_count(len: nat, k: nat)
    requires
        k >= 1,
    ensures
        stripe_count(len, k) * k >= len,
        stripe_count(len, k) * k < len + k,
        len > 0 ==> stripe_count(len, k) >= 1,
{
    let q = stripe_count(len, k);
    vstd::arithmetic::div_mod::lemma_fundamental_div_mod((len + k - 1) as int, k as int);
    vstd::arithmetic::div_mod::lemma_mod_pos_bound((len + k - 1) as int, k as int);
    assert(q * k == k * q) by (nonlinear_arith);
    if q == 0 {
        assert(q * k == 0) by (nonlinear_arith)
            requires
                q == 0,
        ;
    }
}

/// An empty buffer fills no stripe.
proof fn lemma_no_stripes(k: nat)
    requires
        k >= 1,
    ensures
        stripe_count(0, k) == 0,
{
    vstd::arithmetic::div_mod::lemma_basic_div((k - 1) as int, k as int);
}

/// Encodes with the parity rows `generator` (`m x k`): each stripe is its data chunk followed
/// by `generator * chunk`.
#[verifier::rlimit(100)]
fn encode_bytes_matrix<F: Field256>(encoding: Encoding, generator: &Matrix, field: &F, bytes: &[u8]) -> (r:
    RSStream)
    requires
        encoding.data_chunks >= 1,
        encoding.data_chunks + encoding.code_chunks <= 255,
        generator.wf(),
        generator.rows == encoding.code_chunks,
        generator.cols == encoding.data_chunks,
    ensures
        encoded(&r, encoding, bytes@),
        forall|row: int, i: int|
            0 <= row < r.codes@.len() && 0 <= i < encoding.code_chunks ==> #[trigger] stripes(
                &r,
            )[row][encoding.data_chunks + i] == vec_dot(
                generator@[i],
                chunk(bytes@, encoding.data_chunks as nat, row),
                encoding.data_chunks as nat,
            ),
{
    let k = encoding.data_chunks as usize;
    let m = encoding.code_chunks as usize;
    let ghost kn = k as nat;
    let count = stripes_for(bytes.len(), k);
    proof {
        lemma_stripe_count(bytes@.len(), kn);
        assert(count * k <= bytes@.len() + k);
    }
    let mut buffer: Vec<u8> = Vec::new();
    let mut t: usize = 0;
    while t < m
        invariant
            t <= m,
            buffer@.len() == t,
        decreases m - t,
    {
        buffer.push(0);
        t = t + 1;
    }
    let mut output: Vec<Vec<u8>> = Vec::new();
    let mut row: usize = 0;
    while row < count
        invariant
            k == encoding.data_chunks,
            m == encoding.code_chunks,
            k >= 1,
            k + m <= 255,
            kn == k as nat,
            count == stripe_count(bytes@.len(), kn),
            count * k <= bytes@.len() + k,
            count * k >= bytes@.len(),
                generator.wf(),
            generator.rows == m,
            generator.cols == k,
            buffer@.len() == m,
            row <= count,
            output@.len() == row,
            forall|a: int| 0 <= a < row ==> #[trigger] output@[a]@ == chunk(bytes@, kn, a) + mat_vec(
                generator@,
                chunk(bytes@, kn, a),
                m as nat,
                kn,
            ),
        decreases count - row,
    {
        proof {
            assert(row * k <= bytes@.len()) by (nonlinear_arith)
                requires
                    row < count,
                    count * k <= bytes@.len() + k,
                    count * k >= bytes@.len(),
                    k >= 1,
            ;
        }
        let data = chunk_of(bytes, k, row);
        let ghost old_output = output@;
        let ds = data.as_slice();
        generator.mul_vec(ds, &mut buffer, field);
        assert(ds@ == data@);
        assert(buffer@ == mat_vec(generator@, data@, m as nat, kn));
        let mut stripe: Vec<u8> = Vec::new();
        let mut c: usize = 0;
        while c < k
            invariant
                c <= k,
                data@.len() == k,
                stripe@ == data@.subrange(0, c as int),
            decreases k - c,
        {
            stripe.push(data[c]);
            c = c + 1;
        }
        let mut c: usize = 0;
        while c < m
            invariant
                c <= m,
                data@.len() == k,
                buffer@.len() == m,
                stripe@ == data@ + buffer@.subrange(0, c as int),
            decreases m - c,
        {
            stripe.push(buffer[c]);
            proof {
                assert(data@ + buffer@.subrange(0, c + 1) =~= (data@ + buffer@.subrange(0, c as int)).push(buffer@[c as int]));
            }
            c = c + 1;
        }
        proof {
            assert(data@.subrange(0, k as int) =~= data@);
            assert(buffer@.subrange(0, m as int) =~= buffer@);
        }
        assert(stripe@ == chunk(bytes@, kn, row as int) + mat_vec(generator@, chunk(bytes@, kn, row as int), m as nat, kn));
        output.push(stripe);
        assert(output@[row as int]@ == stripe@);
        assert(forall|a: int| 0 <= a < row ==> output@[a] == old_output[a]);
        row = row + 1;
    }
    let r = RSStream { length: bytes.len(), encoding: encoding, codes: output, valid: Vec::new() };
    proof {
        assert forall|a: int, c: int|
            0 <= a < r.codes@.len() && 0 <= c < kn implies #[trigger] stripes(&r)[a][c] == padded(
            bytes@,
            a * kn + c,
        ) by {
            assert(stripes(&r)[a] == output@[a]@);
        }
        assert forall|a: int, i: int|
            0 <= a < r.codes@.len() && 0 <= i < m implies #[trigger] stripes(&r)[a][k + i] == vec_dot(
            generator@[i],
            chunk(bytes@, kn, a),
            kn,
        ) by {
            assert(stripes(&r)[a] == output@[a]@);
        }
        assert(count * k >= bytes@.len());
    }
    r
}

/// Reads the data columns in order up to `length`.
fn data_columns_of(stream: &RSStream) -> (r: Vec<u8>)
    requires
        stream_wf(stream),
    ensures
        r@ == data_columns(stream),
{
    let k = stream.encoding.data_chunks as usize;
    let mut res: Vec<u8> = Vec::new();
    let mut t: usize = 0;
    while t < stream.length
        invariant
            stream_wf(stream),
            k == stream.encoding.data_chunks,
            t <= stream.length,
            res@ == data_columns(stream).subrange(0, t as int),
        decreases stream.length - t,
    {
        proof {
            lemma_stripe_index(t as int, k as int, stream.codes@.len() as int);
        }
        let v = stream.codes[t / k][t % k];
        res.push(v);
        proof {
            assert(data_columns(stream).subrange(0, t + 1) =~= data_columns(stream).subrange(0, t as int).push(v));
        }
        t = t + 1;
    }
    proof {
        assert(data_columns(stream).subrange(0, stream.length as int) =~= data_columns(stream));
    }
    res
}

/// The usable columns, and whether there are at least `k` of them, as the first `k`.
#[verifier::rlimit(100)]
fn choose_columns(stream: &RSStream) -> (r: Vec<usize>)
    requires
        stream_wf(stream),
    ensures
        r@.len() == if usable_columns(stream).len() >= stream.encoding.data_chunks {
            stream.encoding.data_chunks as int
        } else {
            usable_columns(stream).len() as int
        },
        forall|e: int| 0 <= e < r@.len() ==> #[trigger] r@[e] as int == usable_columns(stream)[e],
{
    let k = stream.encoding.data_chunks as usize;
    let n = k + stream.encoding.code_chunks as usize;
    let ghost mask = usable(stream.valid@, n as nat);
    let mut cols: Vec<usize> = Vec::new();
    let mut i: usize = 0;
    while i < n && cols.len() < k
        invariant
            stream_wf(stream),
            k == stream.encoding.data_chunks,
            n == k + stream.encoding.code_chunks,
            mask == usable(stream.valid@, n as nat),
            i <= n,
            cols@.len() <= k,
            cols@.len() == if selected(mask.subrange(0, i as int)).len() >= k {
                k as int
            } else {
                selected(mask.subrange(0, i as int)).len() as int
            },
            forall|e: int| 0 <= e < cols@.len() ==> #[trigger] cols@[e] as int == selected(mask.subrange(0, i as int))[e],
            cols@.len() < k ==> selected(mask.subrange(0, i as int)).len() == cols@.len(),
        decreases n - i,
    {
        proof {
            assert(mask.subrange(0, i + 1).drop_last() =~= mask.subrange(0, i as int));
        }
        let ok = stream.valid.len() == 0 || stream.valid[i];
        if ok {
            cols.push(i);
        }
        i = i + 1;
    }
    proof {
        lemma_selected_prefix(mask, i as nat);
        if i == n {
            assert(mask.subrange(0, n as int) =~= mask);
        }
    }
    cols
}

/// Selecting over a prefix of the mask gives a prefix of the selection.
proof fn lemma_selected_prefix(mask: Seq<bool>, i: nat)
    requires
        i <= mask.len(),
    ensures
        selected(mask.subrange(0, i as int)).len() <= selected(mask).len(),
        forall|e: int|
            0 <= e < selected(mask.subrange(0, i as int)).len() ==> #[trigger] selected(
                mask.subrange(0, i as int),
            )[e] == selected(mask)[e],
    decreases mask.len() - i,
{
    if i < mask.len() {
        lemma_selected_prefix(mask, (i + 1) as nat);
        let longer = mask.subrange(0, i + 1 as int);
        assert(longer.drop_last() =~= mask.subrange(0, i as int));
        assert forall|e: int|
            0 <= e < selected(mask.subrange(0, i as int)).len() implies #[trigger] selected(
                mask.subrange(0, i as int),
            )[e] == selected(longer)[e] by {}
    } else {
        assert(mask.subrange(0, i as int) =~= mask);
    }
}

/// Byte `t = r * k + c` lies in stripe `r` at column `c`.
proof fn lemma_byte_position(r: int, c: int, k: int)
    requires
        k >= 1,
        r >= 0,
        0 <= c < k,
    ensures
        (r * k + c) / k == r,
        (r * k + c) % k == c,
{
    vstd::arithmetic::div_mod::lemma_fundamental_div_mod_converse(r * k + c, k, r, c);
}

/// The decoding outcome shared by every decoder: nothing to do for an empty stream,
/// `TooManyErasures` exactly when fewer than `k` columns are usable, and otherwise a buffer of
/// the right length, which is the data columns themselves when none of them is erased.
pub open spec fn decode_outcome(s: &RSStream, r: Result<Vec<u8>, RsError>) -> bool {
    let enough = usable_columns(s).len() >= s.encoding.data_chunks;
    &&& s.length == 0 ==> (r matches Ok(out) && out@.len() == 0)
    &&& s.length > 0 && !enough ==> r == Err::<Vec<u8>, RsError>(RsError::TooManyErasures)
    &&& s.length > 0 && enough ==> (r matches Ok(out) && out@.len() == s.length)
    &&& s.length > 0 && enough && data_intact(s) ==> (r matches Ok(out) && out@ == data_columns(s))
}

/// With a data column erased, byte `t` is the polynomial through the chosen columns of its
/// stripe evaluated at its data column.
pub open spec fn interpolated(s: &RSStream, out: Seq<u8>) -> bool {
    forall|t: int| 0 <= t < out.len() ==> #[trigger] out[t] == lagrange_recovered(s, t)
}

/// The column indices as integers.
pub open spec fn as_columns(cols: Seq<usize>) -> Seq<int> {
    Seq::new(cols.len(), |e: int| cols[e] as int)
}

/// Byte `t` of what applying `recovery` to the symbols of each stripe at `cols` gives.
pub open spec fn applied(s: &RSStream, recovery: Seq<Seq<u8>>, cols: Seq<int>, t: int) -> u8 {
    let k = s.encoding.data_chunks as int;
    mat_vec(recovery, gather(stripes(s)[t / k], cols), k as nat, k as nat)[t % k]
}

/// Applies `recovery` to the symbols of each stripe at `cols`, keeping the first `length` bytes.
#[verifier::rlimit(100)]
fn decode_bytes_matrix<F: Field256>(stream: &RSStream, recovery: &Matrix, cols: &[usize], field: &F) -> (r:
    Vec<u8>)
    requires
        stream_wf(stream),
        recovery.wf(),
        recovery.rows == stream.encoding.data_chunks,
        recovery.cols == stream.encoding.data_chunks,
        cols@.len() == stream.encoding.data_chunks,
        forall|e: int|
            0 <= e < cols@.len() ==> #[trigger] cols@[e] < stream.encoding.data_chunks
                + stream.encoding.code_chunks,
    ensures
        r@.len() == stream.length,
        forall|t: int|
            0 <= t < stream.length ==> #[trigger] r@[t] == applied(stream, recovery@, as_columns(cols@), t),
{
    let k = stream.encoding.data_chunks as usize;
    let n = k + stream.encoding.code_chunks as usize;
    let length = stream.length;
    let ghost chosen = as_columns(cols@);
    let mut buffer: Vec<u8> = Vec::new();
    let mut e: usize = 0;
    while e < k
        invariant
            e <= k,
            buffer@.len() == e,
        decreases k - e,
    {
        buffer.push(0);
        e = e + 1;
    }
    let mut res: Vec<u8> = Vec::new();
    let count = stripes_for(length, k);
    proof {
        lemma_stripe_count(length as nat, k as nat);
    }
    let mut row: usize = 0;
    while row < count
        invariant
            stream_wf(stream),
            k == stream.encoding.data_chunks,
            n == k + stream.encoding.code_chunks,
            length == stream.length,
            recovery.wf(),
            recovery.rows == k,
            recovery.cols == k,
            cols@.len() == k,
            chosen == as_columns(cols@),
            chosen.len() == k,
            forall|e: int| 0 <= e < k ==> #[trigger] cols@[e] as int == chosen[e],
            forall|e: int| 0 <= e < k ==> 0 <= #[trigger] chosen[e] < n,
            buffer@.len() == k,
            row <= count,
            count == stripe_count(length as nat, k as nat),
            count * k >= length,
            count * k < length + k,
            res@.len() == if row * k <= length { row * k } else { length as int },
            forall|t: int| 0 <= t < res@.len() ==> #[trigger] res@[t] == applied(stream, recovery@, chosen, t),
        decreases count - row,
    {
        proof {
            assert(row * k < length) by (nonlinear_arith)
                requires
                    row < count,
                    count * k < length + k,
                    k >= 1,
            ;
            assert(row < stream.codes@.len()) by (nonlinear_arith)
                requires
                    row * k < length,
                    length <= stream.codes@.len() * k,
                    k >= 1,
            ;
        }
        let mut symbols: Vec<u8> = Vec::new();
        let mut e: usize = 0;
        while e < k
            invariant
                stream_wf(stream),
                k == stream.encoding.data_chunks,
                n == k + stream.encoding.code_chunks,
                row < stream.codes@.len(),
                cols@.len() == k,
                forall|e: int| 0 <= e < k ==> #[trigger] cols@[e] as int == chosen[e],
                forall|e: int| 0 <= e < k ==> 0 <= #[trigger] chosen[e] < n,
                e <= k,
                symbols@ == gather(stripes(stream)[row as int], chosen).subrange(0, e as int),
                chosen.len() == k,
            decreases k - e,
        {
            let j = cols[e];
            proof {
                assert(stream.codes@[row as int]@.len() == n);
            }
            let v = stream.codes[row][j];
            symbols.push(v);
            proof {
                assert(gather(stripes(stream)[row as int], chosen).subrange(0, e + 1) =~= gather(
                    stripes(stream)[row as int],
                    chosen,
                ).subrange(0, e as int).push(v));
            }
            e = e + 1;
        }
        proof {
            assert(gather(stripes(stream)[row as int], chosen).subrange(0, k as int) =~= gather(
                stripes(stream)[row as int],
                chosen,
            ));
        }
        let ss = symbols.as_slice();
        recovery.mul_vec(ss, &mut buffer, field);
        proof {
            assert(ss@ == symbols@);
        }
        let mut c: usize = 0;
        while c < k
            invariant
                stream_wf(stream),
                k == stream.encoding.data_chunks,
                length == stream.length,
                buffer@ == mat_vec(recovery@, gather(stripes(stream)[row as int], chosen), k as nat, k as nat),
                chosen == as_columns(cols@),
                row < stream.codes@.len(),
                row * k < length,
                    c <= k,
                res@.len() == if row * k + c <= length { row * k + c } else { length as int },
                forall|t: int| 0 <= t < res@.len() ==> #[trigger] res@[t] == applied(stream, recovery@, chosen, t),
            decreases k - c,
        {
            if c < length - row * k {
                proof {
                    lemma_byte_position(row as int, c as int, k as int);
                }
                res.push(buffer[c]);
            }
            c = c + 1;
        }
        proof {
            assert(row * k + k == (row + 1) * k) by (nonlinear_arith);
            assert(row <= row * k) by (nonlinear_arith)
                requires
                    k >= 1,
            ;
        }
        row = row + 1;
    }
    res
}

/// Whether the chosen columns are `0 .. k`, i.e. no data column is erased.
#[verifier::rlimit(100)]
fn columns_intact(stream: &RSStream, cols: &Vec<usize>) -> (r: bool)
    requires
        stream_wf(stream),
        cols@.len() == stream.encoding.data_chunks,
        usable_columns(stream).len() >= stream.encoding.data_chunks,
        forall|e: int| 0 <= e < cols@.len() ==> #[trigger] cols@[e] as int == usable_columns(stream)[e],
    ensures
        r == data_intact(stream),
{
    let k = stream.encoding.data_chunks as usize;
    let ghost chosen = chosen_columns(stream);
    let mut intact = true;
    let mut e: usize = 0;
    while e < k
        invariant
            k == stream.encoding.data_chunks,
            cols@.len() == k,
            chosen == chosen_columns(stream),
            usable_columns(stream).len() >= k,
            forall|e: int| 0 <= e < k ==> #[trigger] cols@[e] as int == usable_columns(stream)[e],
            e <= k,
            intact == forall|c: int| 0 <= c < e ==> #[trigger] chosen[c] == c,
        decreases k - e,
    {
        proof {
            assert(chosen[e as int] == usable_columns(stream)[e as int]);
        }
        if cols[e] != e {
            intact = false;
        }
        e = e + 1;
    }
    intact
}

/// The points `(i, 0)` for `i < k`.
fn data_points_exec(k: usize) -> (r: Vec<(u8, u8)>)
    requires
        k <= 256,
    ensures
        r@ == data_points(k as nat),
{
    let mut r: Vec<(u8, u8)> = Vec::new();
    let mut i: usize = 0;
    while i < k
        invariant
            k <= 256,
            i <= k,
            r@ == data_points(k as nat).subrange(0, i as int),
        decreases k - i,
    {
        r.push((i as u8, 0u8));
        proof {
            assert(data_points(k as nat).subrange(0, i + 1) =~= data_points(k as nat).subrange(0, i as int).push((i as u8, 0u8)));
        }
        i = i + 1;
    }
    proof {
        assert(data_points(k as nat).subrange(0, k as int) =~= data_points(k as nat));
    }
    r
}

/// The Lagrange basis polynomials of the points, one per point.
fn basis_polynomials<F: Field256>(points: &Vec<(u8, u8)>, field: &F) -> (r: Vec<Polynomial>)
    requires
        points@.len() < 256,
    ensures
        r@.len() == points@.len(),
        forall|e: int| 0 <= e < points@.len() ==> (#[trigger] r@[e])@ == basis(points@, e),
{
    let mut r: Vec<Polynomial> = Vec::new();
    let mut e: usize = 0;
    while e < points.len()
        invariant
            points@.len() < 256,
            e <= points@.len(),
            r@.len() == e,
            forall|a: int| 0 <= a < e ==> (#[trigger] r@[a])@ == basis(points@, a),
        decreases points.len() - e,
    {
        let p = Polynomial::single_term(points.as_slice(), (points[e].0, 1u8), field);
        r.push(p);
        e = e + 1;
    }
    r
}

/// The inverse of the top Vandermonde block, from the coefficients of the Lagrange basis.
#[verifier::rlimit(100)]
fn vandermonde_top_inverse_exec<F: Field256>(k: usize, field: &F) -> (t: Matrix)
    requires
        1 <= k <= 255,
    ensures
        t.wf(),
        t.rows == k,
        t.cols == k,
        t@ == vandermonde_top_inverse(k as nat),
{
    let points = data_points_exec(k);
    let polys = basis_polynomials(&points, field);
    let mut coefs: Vec<Vec<u8>> = Vec::new();
    let mut c: usize = 0;
    while c < k
        invariant
            polys@.len() == k,
            points@ == data_points(k as nat),
            forall|e: int| 0 <= e < k ==> (#[trigger] polys@[e])@ == basis(points@, e),
            c <= k,
            coefs@.len() == c,
            forall|a: int| 0 <= a < c ==> (#[trigger] coefs@[a])@ == basis(data_points(k as nat), a),
        decreases k - c,
    {
        coefs.push(polys[c].coefficients());
        c = c + 1;
    }
    let mut mat: Vec<Vec<u8>> = Vec::new();
    let mut j: usize = 0;
    while j < k
        invariant
            coefs@.len() == k,
            forall|a: int| 0 <= a < k ==> (#[trigger] coefs@[a])@ == basis(data_points(k as nat), a),
            j <= k,
            mat@.len() == j,
            forall|a: int| 0 <= a < j ==> (#[trigger] mat@[a])@ == vandermonde_top_inverse(k as nat)[a],
        decreases k - j,
    {
        let mut row: Vec<u8> = Vec::new();
        let mut c: usize = 0;
        while c < k
            invariant
                coefs@.len() == k,
                forall|a: int| 0 <= a < k ==> (#[trigger] coefs@[a])@ == basis(data_points(k as nat), a),
                j < k,
                c <= k,
                row@ == vandermonde_top_inverse(k as nat)[j as int].subrange(0, c as int),
            decreases k - c,
        {
            let v = if j < coefs[c].len() {
                coefs[c][j]
            } else {
                0
            };
            row.push(v);
            proof {
                assert(vandermonde_top_inverse(k as nat)[j as int].subrange(0, c + 1) =~= vandermonde_top_inverse(
                    k as nat,
                )[j as int].subrange(0, c as int).push(v));
            }
            c = c + 1;
        }
        proof {
            assert(vandermonde_top_inverse(k as nat)[j as int].subrange(0, k as int) =~= vandermonde_top_inverse(
                k as nat,
            )[j as int]);
        }
        mat.push(row);
        j = j + 1;
    }
    let t = Matrix { rows: k, cols: k, mat };
    proof {
        assert(t@ =~~= vandermonde_top_inverse(k as nat));
        assert forall|a: int| 0 <= a < k implies #[trigger] t.mat@[a]@.len() == k by {
            assert(t.mat@[a]@ == vandermonde_top_inverse(k as nat)[a]);
        }
    }
    t
}

/// The parity rows of the Vandermonde code.
fn vandermonde_generator<F: Field256>(k: usize, m: usize, field: &F) -> (g: Matrix)
    requires
        1 <= k,
        k + m <= 255,
    ensures
        g.wf(),
        g.rows == m,
        g.cols == k,
        g@ == vandermonde_parity(k as nat, m as nat),
{
    let ghost bottom_seq = Seq::new(m as nat, |i: int| Seq::new(k as nat, |j: int| vandermonde_entry(k as int, i, j)));
    let t = vandermonde_top_inverse_exec(k, field);
    if m == 0 {
        let g = Matrix::zero(0, k);
        proof {
            assert(g@ =~~= vandermonde_parity(k as nat, m as nat));
        }
        return g;
    }
    let bottom = match VandermondeMatrix(k, m, k, field) {
        Ok(b) => b,
        Err(_) => {
            proof {
                assert(false);
            }
            return Matrix::zero(m, k);
        },
    };
    proof {
        assert(bottom@ =~~= bottom_seq);
    }
    bottom.mul(&t, field)
}

/// The points `(cols[e], 0)`.
pub open spec fn column_points(cols: Seq<int>) -> Seq<(u8, u8)> {
    Seq::new(cols.len(), |e: int| (cols[e] as u8, 0u8))
}

/// The recovery matrix for the columns `cols`: row `c` holds the Lagrange basis polynomials of
/// those columns evaluated at data column `c`. Applied to the symbols at `cols`, it interpolates
/// the stripe's polynomial and reads its value at each data column; it is the inverse of the
/// generator rows at `cols`.
#[verifier::rlimit(100)]
fn recovery_matrix<F: Field256>(cols: &Vec<usize>, k: usize, field: &F) -> (r: Matrix)
    requires
        cols@.len() == k,
        1 <= k <= 255,
        forall|e: int| 0 <= e < k ==> #[trigger] cols@[e] < 256,
    ensures
        r.wf(),
        r.rows == k,
        r.cols == k,
        forall|c: int, e: int|
            0 <= c < k && 0 <= e < k ==> #[trigger] r@[c][e] == poly_eval(
                basis(column_points(as_columns(cols@)), e),
                c as u8,
            ),
{
    let ghost pts = column_points(as_columns(cols@));
    let mut points: Vec<(u8, u8)> = Vec::new();
    let mut e: usize = 0;
    while e < k
        invariant
            cols@.len() == k,
            k <= 255,
            pts == column_points(as_columns(cols@)),
            forall|e: int| 0 <= e < k ==> #[trigger] cols@[e] < 256,
            e <= k,
            points@ == pts.subrange(0, e as int),
        decreases k - e,
    {
        let pt = (cols[e] as u8, 0u8);
        points.push(pt);
        proof {
            assert(pts.subrange(0, e + 1) =~= pts.subrange(0, e as int).push(pt));
        }
        e = e + 1;
    }
    proof {
        assert(pts.subrange(0, k as int) =~= pts);
    }
    let polys = basis_polynomials(&points, field);
    let mut mat: Vec<Vec<u8>> = Vec::new();
    let mut c: usize = 0;
    while c < k
        invariant
            k <= 255,
            points@ == pts,
            pts.len() == k,
            polys@.len() == k,
            forall|e: int| 0 <= e < k ==> (#[trigger] polys@[e])@ == basis(pts, e),
            c <= k,
            mat@.len() == c,
            forall|a: int| 0 <= a < c ==> #[trigger] mat@[a]@.len() == k,
            forall|a: int, e: int|
                0 <= a < c && 0 <= e < k ==> #[trigger] mat@[a]@[e] == poly_eval(basis(pts, e), a as u8),
        decreases k - c,
    {
        let mut row: Vec<u8> = Vec::new();
        let mut e: usize = 0;
        while e < k
            invariant
                k <= 255,
                polys@.len() == k,
                forall|e: int| 0 <= e < k ==> (#[trigger] polys@[e])@ == basis(pts, e),
                c < k,
                e <= k,
                row@.len() == e,
                forall|b: int| 0 <= b < e ==> #[trigger] row@[b] == poly_eval(basis(pts, b), c as u8),
            decreases k - e,
        {
            row.push(polys[e].evaluate(c as u8, field));
            e = e + 1;
        }
        mat.push(row);
        c = c + 1;
    }
    Matrix { rows: k, cols: k, mat }
}

/// A row of basis values against the values of the points is the basis sum.
proof fn lemma_vec_dot_basis(row: Seq<u8>, v: Seq<u8>, points: Seq<(u8, u8)>, x: u8, n: nat)
    requires
        n <= points.len(),
        forall|e: int| 0 <= e < n ==> #[trigger] row[e] == poly_eval(basis(points, e), x),
        forall|e: int| 0 <= e < n ==> #[trigger] v[e] == points[e].1,
    ensures
        vec_dot(row, v, n) == basis_sum(points, x, n),
    decreases n,
{
    if n > 0 {
        lemma_vec_dot_basis(row, v, points, x, (n - 1) as nat);
    }
}

/// Applying the recovery matrix of the chosen columns is interpolating through them.
#[verifier::rlimit(100)]
proof fn lemma_applied_is_interpolated(s: &RSStream, recovery: Seq<Seq<u8>>, t: int)
    requires
        stream_wf(s),
        0 <= t < s.length,
        usable_columns(s).len() >= s.encoding.data_chunks,
        forall|c: int, e: int|
            0 <= c < s.encoding.data_chunks && 0 <= e < s.encoding.data_chunks ==> #[trigger] recovery[c][e]
                == poly_eval(basis(column_points(chosen_columns(s)), e), c as u8),
    ensures
        applied(s, recovery, chosen_columns(s), t) == lagrange_recovered(s, t),
{
    let k = s.encoding.data_chunks as nat;
    let n = (s.encoding.data_chunks + s.encoding.code_chunks) as nat;
    let chosen = chosen_columns(s);
    lemma_selected_bounds(usable(s.valid@, n));
    lemma_stripe_index(t, k as int, s.codes@.len() as int);
    let r = t / (k as int);
    let c = t % (k as int);
    let stripe = stripes(s)[r];
    let pts = stripe_points(stripe, chosen);
    let cps = column_points(chosen);
    assert forall|e: int| 0 <= e < k implies #[trigger] basis(cps, e) == basis(pts, e) by {
        assert forall|j: int| 0 <= j < k implies #[trigger] cps[j].0 == pts[j].0 by {}
        lemma_term_xs_only(cps, pts, cps[e].0, 1, k);
    }
    lemma_vec_dot_basis(recovery[c], gather(stripe, chosen), pts, c as u8, k);
    lemma_lagrange_basis_sum(pts, k, c as u8);
}

/// The decoder shared by the matrix codecs: the data columns when none is erased, else the
/// recovery matrix of the `k` lowest usable columns applied to each stripe.
fn decode_through_recovery<F: Field256>(stream: &RSStream, field: &F) -> (r: Result<Vec<u8>, RsError>)
    requires
        stream_wf(stream),
    ensures
        decode_outcome(stream, r),
        r matches Ok(out) ==> (stream.length > 0 && !data_intact(stream) ==> interpolated(stream, out@)),
{
    if stream.length == 0 {
        return Ok(Vec::new());
    }
    let k = stream.encoding.data_chunks as usize;
    let n = k + stream.encoding.code_chunks as usize;
    let cols = choose_columns(stream);
    proof {
        lemma_selected_bounds(usable(stream.valid@, n as nat));
    }
    if cols.len() < k {
        return Err(RsError::TooManyErasures);
    }
    if columns_intact(stream, &cols) {
        return Ok(data_columns_of(stream));
    }
    proof {
        assert(as_columns(cols@) =~= chosen_columns(stream));
    }
    let recovery = recovery_matrix(&cols, k, field);
    let out = decode_bytes_matrix(stream, &recovery, cols.as_slice(), field);
    proof {
        assert forall|t: int| 0 <= t < out@.len() implies #[trigger] out@[t] == lagrange_recovered(stream, t) by {
            lemma_applied_is_interpolated(stream, recovery@, t);
        }
    }
    Ok(out)
}

/// `prod_{j < n, j != skip} (x + j)`.
fn product_of_differences_exec<F: Field256>(x: u8, n: usize, skip: usize, field: &F) -> (r: u8)
    requires
        n <= 256,
    ensures
        r == product_of_differences(x, n as nat, skip as int),
{
    let mut acc: u8 = 1;
    let mut j: usize = 0;
    while j < n
        invariant
            n <= 256,
            j <= n,
            acc == product_of_differences(x, j as nat, skip as int),
        decreases n - j,
    {
        if j != skip {
            acc = field.mul(acc, F::add(x, j as u8));
        }
        j = j + 1;
    }
    acc
}

/// The Cauchy parity rows as sequences.
pub open spec fn cauchy_parity(k: nat, m: nat) -> Seq<Seq<u8>> {
    Seq::new(m, |i: int| Seq::new(k, |c: int| cauchy_parity_entry(k, i, c)))
}

/// The parity rows of the Cauchy code: a Cauchy matrix with scaled rows and columns.
#[verifier::rlimit(100)]
fn cauchy_generator<F: Field256>(k: usize, m: usize, field: &F) -> (g: Matrix)
    requires
        1 <= k,
        k + m <= 255,
    ensures
        g.wf(),
        g.rows == m,
        g.cols == k,
        g@ == cauchy_parity(k as nat, m as nat),
{
    if m == 0 {
        let g = Matrix::zero(0, k);
        proof {
            assert(g@ =~~= cauchy_parity(k as nat, m as nat));
        }
        return g;
    }
    let c = match cauchy_matrix(k, m, k, field) {
        Ok(c) => c,
        Err(_) => {
            proof {
                assert(false);
            }
            return Matrix::zero(m, k);
        },
    };
    let mut mat: Vec<Vec<u8>> = Vec::new();
    let mut i: usize = 0;
    while i < m
        invariant
            1 <= k,
            k + m <= 255,
            c.wf(),
            c.rows == m,
            c.cols == k,
            forall|a: int, b: int|
                0 <= a < m && 0 <= b < k ==> #[trigger] c@[a][b] == cauchy_entry(k as int, a, b),
            i <= m,
            mat@.len() == i,
            forall|a: int| 0 <= a < i ==> #[trigger] mat@[a]@ == cauchy_parity(k as nat, m as nat)[a],
        decreases m - i,
    {
        let row_scale = product_of_differences_exec((k + i) as u8, k, k, field);
        let mut row: Vec<u8> = Vec::new();
        let mut j: usize = 0;
        while j < k
            invariant
                1 <= k,
                k + m <= 255,
                c.wf(),
                c.rows == m,
                c.cols == k,
                forall|a: int, b: int|
                    0 <= a < m && 0 <= b < k ==> #[trigger] c@[a][b] == cauchy_entry(k as int, a, b),
                i < m,
                j <= k,
                row_scale == product_of_differences((k + i) as u8, k as nat, k as int),
                row@ == cauchy_parity(k as nat, m as nat)[i as int].subrange(0, j as int),
            decreases k - j,
        {
            let p = product_of_differences_exec(j as u8, k, j, field);
            let col_scale = field.inv(p);
            let scale = field.mul(row_scale, col_scale);
            let v = field.mul(scale, c.mat[i][j]);
            proof {
                assert(c@[i as int][j as int] == cauchy_entry(k as int, i as int, j as int));
                assert(v == cauchy_parity_entry(k as nat, i as int, j as int));
            }
            row.push(v);
            proof {
                assert(cauchy_parity(k as nat, m as nat)[i as int].subrange(0, j + 1) =~= cauchy_parity(
                    k as nat,
                    m as nat,
                )[i as int].subrange(0, j as int).push(v));
            }
            j = j + 1;
        }
        proof {
            assert(cauchy_parity(k as nat, m as nat)[i as int].subrange(0, k as int) =~= cauchy_parity(
                k as nat,
                m as nat,
            )[i as int]);
        }
        mat.push(row);
        i = i + 1;
    }
    let g = Matrix { rows: m, cols: k, mat };
    proof {
        assert(g@ =~~= cauchy_parity(k as nat, m as nat));
    }
    g
}

/// The code columns hold the chunk's interpolation polynomial evaluated at the code columns.
pub open spec fn lagrange_parity(s: &RSStream, bytes: Seq<u8>) -> bool {
    let k = s.encoding.data_chunks as nat;
    forall|r: int, i: int|
        0 <= r < s.codes@.len() && 0 <= i < s.encoding.code_chunks ==> #[trigger] stripes(s)[r][k + i]
            == poly_eval(lagrange(indexed_points(chunk(bytes, k, r))), (k + i) as u8)
}

/// A Reed-Solomon codec: encodes a buffer into stripes and recovers it from any `k` columns.
pub trait RSEncoder {
    /// What the code symbols of an encoded stream hold.
    spec fn parity_holds(&self, s: &RSStream, bytes: Seq<u8>) -> bool;

    /// Splits `bytes` into zero-padded chunks of `k` and appends `m` code symbols to each.
    fn encode_bytes<F: Field256>(&self, encoding: Encoding, field: &F, bytes: &[u8]) -> (r: Result<
        RSStream,
        RsError,
    >)
        requires
            encoding.data_chunks >= 1,
            encoding.data_chunks + encoding.code_chunks <= 255,
            ensures
            r matches Ok(s) && encoded(&s, encoding, bytes@) && self.parity_holds(&s, bytes@),
    ;

    /// Recovers the buffer from the `k` lowest usable columns: when a data column is erased,
    /// by interpolating through them.
    fn decode_bytes<F: Field256>(&self, stream: &RSStream, field: &F) -> (r: Result<Vec<u8>, RsError>)
        requires
            stream_wf(stream),
            ensures
            decode_outcome(stream, r),
            r matches Ok(out) ==> (stream.length > 0 && !data_intact(stream) ==> interpolated(
                stream,
                out@,
            )),
    ;
}

/// Encoder that interpolates each chunk's polynomial and evaluates it at the code columns.
#[derive(Debug, Default, PartialEq, Eq, Clone, Copy)]
pub struct LagrangeInterpolationEncoder;

/// Encoder whose parity rows come from Vandermonde matrices.
#[derive(Debug, Default, PartialEq, Eq, Clone, Copy)]
pub struct VandermondeEncoder {}

/// Encoder whose parity rows come from a scaled Cauchy matrix.
#[derive(Debug, Default, PartialEq, Eq, Clone, Copy)]
pub struct CauchyEncoder {}

impl RSEncoder for LagrangeInterpolationEncoder {
    open spec fn parity_holds(&self, s: &RSStream, bytes: Seq<u8>) -> bool {
        lagrange_parity(s, bytes)
    }

    fn encode_bytes<F: Field256>(&self, encoding: Encoding, field: &F, bytes: &[u8]) -> (r: Result<
        RSStream,
        RsError,
    >) {
        if bytes.len() == 0 {
            proof {
                lemma_no_stripes(encoding.data_chunks as nat);
            }
            return Ok(RSStream::empty(encoding));
        }
        let k = encoding.data_chunks as usize;
        let m = encoding.code_chunks as usize;
        let ghost kn = k as nat;
        let count = stripes_for(bytes.len(), k);
        proof {
            lemma_stripe_count(bytes@.len(), kn);
            assert(count * k <= bytes@.len() + k);
        }
        let mut output: Vec<Vec<u8>> = Vec::new();
        let mut row: usize = 0;
        while row < count
            invariant
                k == encoding.data_chunks,
                m == encoding.code_chunks,
                kn == k as nat,
                k >= 1,
                k + m <= 255,
                count == stripe_count(bytes@.len(), kn),
                count * k <= bytes@.len() + k,
            count * k >= bytes@.len(),
                        row <= count,
                output@.len() == row,
                forall|a: int| 0 <= a < row ==> #[trigger] output@[a]@.len() == k + m,
                forall|a: int, c: int| 0 <= a < row && 0 <= c < k ==> #[trigger] output@[a]@[c] == padded(bytes@, a * k + c),
                forall|a: int, i: int|
                    0 <= a < row && 0 <= i < m ==> #[trigger] output@[a]@[k + i] == poly_eval(
                        lagrange(indexed_points(chunk(bytes@, kn, a))),
                        (k + i) as u8,
                    ),
            decreases count - row,
        {
            proof {
                assert(row * k <= bytes@.len()) by (nonlinear_arith)
                    requires
                        row < count,
                        count * k <= bytes@.len() + k,
                        count * k >= bytes@.len(),
                        k >= 1,
                ;
            }
            let data = chunk_of(bytes, k, row);
            let p = Polynomial::interpolate(data.as_slice(), field);
            let mut stripe: Vec<u8> = Vec::new();
            let mut c: usize = 0;
            while c < k
                invariant
                    c <= k,
                    data@.len() == k,
                    stripe@ == data@.subrange(0, c as int),
                decreases k - c,
            {
                stripe.push(data[c]);
                c = c + 1;
            }
            let mut i: usize = 0;
            while i < m
                invariant
                    k + m <= 255,
                    i <= m,
                    stripe@.len() == k + i,
                    forall|c: int| 0 <= c < k ==> #[trigger] stripe@[c] == data@[c],
                    forall|t: int| 0 <= t < i ==> #[trigger] stripe@[k + t] == poly_eval(p@, (k + t) as u8),
                decreases m - i,
            {
                let v = p.evaluate((k + i) as u8, field);
                stripe.push(v);
                i = i + 1;
            }
            output.push(stripe);
            row = row + 1;
        }
        let r = RSStream { length: bytes.len(), encoding: encoding, codes: output, valid: Vec::new() };
        proof {
            assert forall|a: int, c: int|
                0 <= a < r.codes@.len() && 0 <= c < kn implies #[trigger] stripes(&r)[a][c] == padded(
                bytes@,
                a * kn + c,
            ) by {
                assert(stripes(&r)[a] == output@[a]@);
            }
            assert forall|a: int, i: int|
                0 <= a < r.codes@.len() && 0 <= i < m implies #[trigger] stripes(&r)[a][kn + i]
                == poly_eval(lagrange(indexed_points(chunk(bytes@, kn, a))), (kn + i) as u8) by {
                assert(stripes(&r)[a] == output@[a]@);
            }
        }
        Ok(r)
    }

    fn decode_bytes<F: Field256>(&self, stream: &RSStream, field: &F) -> (r: Result<Vec<u8>, RsError>) {
        if stream.length == 0 {
            return Ok(Vec::new());
        }
        let k = stream.encoding.data_chunks as usize;
        let n = k + stream.encoding.code_chunks as usize;
        let length = stream.length;
        let cols = choose_columns(stream);
        proof {
            lemma_selected_bounds(usable(stream.valid@, n as nat));
        }
        if cols.len() < k {
            return Err(RsError::TooManyErasures);
        }
        if columns_intact(stream, &cols) {
            return Ok(data_columns_of(stream));
        }
        let ghost chosen = chosen_columns(stream);
        proof {
            assert(chosen.len() == k);
        }
        let mut res: Vec<u8> = Vec::new();
        let count = stripes_for(length, k);
        proof {
            lemma_stripe_count(length as nat, k as nat);
        }
        let mut row: usize = 0;
        while row < count
            invariant
                stream_wf(stream),
                k == stream.encoding.data_chunks,
                n == k + stream.encoding.code_chunks,
                length == stream.length,
                    cols@.len() == k,
                chosen == chosen_columns(stream),
                chosen.len() == k,
                forall|e: int| 0 <= e < k ==> #[trigger] cols@[e] as int == chosen[e],
                forall|e: int| 0 <= e < k ==> 0 <= #[trigger] chosen[e] < n,
                row <= count,
            count == stripe_count(length as nat, k as nat),
            count * k >= length,
            count * k < length + k,
                res@.len() == if row * k <= length { row * k } else { length as int },
                forall|t: int| 0 <= t < res@.len() ==> #[trigger] res@[t] == lagrange_recovered(stream, t),
            decreases count - row,
        {
            proof {
                assert(row * k < length) by (nonlinear_arith)
                    requires
                        row < count,
                        count * k < length + k,
                        k >= 1,
                ;
                assert(row < stream.codes@.len()) by (nonlinear_arith)
                    requires
                        row * k < length,
                        length <= stream.codes@.len() * k,
                        k >= 1,
                ;
            }
            let mut points: Vec<(u8, u8)> = Vec::new();
            let mut e: usize = 0;
            while e < k
                invariant
                    stream_wf(stream),
                    k == stream.encoding.data_chunks,
                    n == k + stream.encoding.code_chunks,
                    row < stream.codes@.len(),
                    cols@.len() == k,
                    chosen.len() == k,
                    forall|e: int| 0 <= e < k ==> #[trigger] cols@[e] as int == chosen[e],
                    forall|e: int| 0 <= e < k ==> 0 <= #[trigger] chosen[e] < n,
                    e <= k,
                    points@ == stripe_points(stripes(stream)[row as int], chosen).subrange(0, e as int),
                decreases k - e,
            {
                let j = cols[e];
                proof {
                    assert(stream.codes@[row as int]@.len() == n);
                }
                let pt = (j as u8, stream.codes[row][j]);
                points.push(pt);
                proof {
                    assert(stripe_points(stripes(stream)[row as int], chosen).subrange(0, e + 1) =~= stripe_points(
                        stripes(stream)[row as int],
                        chosen,
                    ).subrange(0, e as int).push(pt));
                }
                e = e + 1;
            }
            proof {
                assert(stripe_points(stripes(stream)[row as int], chosen).subrange(0, k as int) =~= stripe_points(
                    stripes(stream)[row as int],
                    chosen,
                ));
            }
            let p = Polynomial::interpolate_points(points.as_slice(), field);
            let mut c: usize = 0;
            while c < k
                invariant
                    stream_wf(stream),
                    k == stream.encoding.data_chunks,
                    length == stream.length,
                    p@ == lagrange(stripe_points(stripes(stream)[row as int], chosen)),
                    chosen == chosen_columns(stream),
                    row < stream.codes@.len(),
                    row * k < length,
                            c <= k,
                    res@.len() == if row * k + c <= length { row * k + c } else { length as int },
                    forall|t: int| 0 <= t < res@.len() ==> #[trigger] res@[t] == lagrange_recovered(stream, t),
                decreases k - c,
            {
                if c < length - row * k {
                    proof {
                        lemma_byte_position(row as int, c as int, k as int);
                    }
                    let v = p.evaluate(c as u8, field);
                    res.push(v);
                }
                c = c + 1;
            }
            proof {
                assert(row * k + k == (row + 1) * k) by (nonlinear_arith);
                assert(row <= row * k) by (nonlinear_arith)
                    requires
                        k >= 1,
                ;
            }
            row = row + 1;
        }
        Ok(res)
    }
}

impl RSEncoder for VandermondeEncoder {
    open spec fn parity_holds(&self, s: &RSStream, bytes: Seq<u8>) -> bool {
        let k = s.encoding.data_chunks as nat;
        let m = s.encoding.code_chunks as nat;
        forall|r: int, i: int|
            0 <= r < s.codes@.len() && 0 <= i < m ==> #[trigger] stripes(s)[r][k + i] == vec_dot(
                vandermonde_parity(k, m)[i],
                chunk(bytes, k, r),
                k,
            )
    }

    fn encode_bytes<F: Field256>(&self, encoding: Encoding, field: &F, bytes: &[u8]) -> (r: Result<
        RSStream,
        RsError,
    >) {
        if bytes.len() == 0 {
            proof {
                lemma_no_stripes(encoding.data_chunks as nat);
            }
            return Ok(RSStream::empty(encoding));
        }
        let g = vandermonde_generator(encoding.data_chunks as usize, encoding.code_chunks as usize, field);
        Ok(encode_bytes_matrix(encoding, &g, field, bytes))
    }

    fn decode_bytes<F: Field256>(&self, stream: &RSStream, field: &F) -> (r: Result<Vec<u8>, RsError>) {
        decode_through_recovery(stream, field)
    }
}

impl RSEncoder for CauchyEncoder {
    open spec fn parity_holds(&self, s: &RSStream, bytes: Seq<u8>) -> bool {
        let k = s.encoding.data_chunks as nat;
        let m = s.encoding.code_chunks as nat;
        forall|r: int, i: int|
            0 <= r < s.codes@.len() && 0 <= i < m ==> #[trigger] stripes(s)[r][k + i] == vec_dot(
                cauchy_parity(k, m)[i],
                chunk(bytes, k, r),
                k,
            )
    }

    fn encode_bytes<F: Field256>(&self, encoding: Encoding, field: &F, bytes: &[u8]) -> (r: Result<
        RSStream,
        RsError,
    >) {
        if bytes.len() == 0 {
            proof {
                lemma_no_stripes(encoding.data_chunks as nat);
            }
            return Ok(RSStream::empty(encoding));
        }
        let g = cauchy_generator(encoding.data_chunks as usize, encoding.code_chunks as usize, field);
        Ok(encode_bytes_matrix(encoding, &g, field, bytes))
    }

    fn decode_bytes<F: Field256>(&self, stream: &RSStream, field: &F) -> (r: Result<Vec<u8>, RsError>) {
        decode_through_recovery(stream, field)
    }
}

proof fn lemma_select_all(n: nat)
    ensures
        selected(Seq::new(n, |i: int| true)) == Seq::new(n, |i: int| i),
    decreases n,
{
    if n > 0 {
        lemma_select_all((n - 1) as nat);
        assert(Seq::new(n, |i: int| true).drop_last() =~= Seq::new((n - 1) as nat, |i: int| true));
        assert(Seq::new((n - 1) as nat, |i: int| i).push(n - 1) =~= Seq::new(n, |i: int| i));
    }
}

/// The entries of a mask that hold and those that do not add up to its length.
pub proof fn lemma_selected_complement(mask: Seq<bool>)
    ensures
        selected(mask).len() + selected(mask.map_values(|b: bool| !b)).len() == mask.len(),
    decreases mask.len(),
{
    if mask.len() > 0 {
        lemma_selected_complement(mask.drop_last());
        assert(mask.map_values(|b: bool| !b).drop_last() =~= mask.drop_last().map_values(
            |b: bool| !b,
        ));
    }
}

/// Round trip: a stream that holds `bytes` and whose columns are all usable (as an encoder
/// returns it, or with every mask entry true) has enough columns, no erased data column, and
/// data columns equal to `bytes`; so every decoder returns exactly `bytes` for it.
#[verifier::rlimit(100)]
pub proof fn lemma_round_trip(s: RSStream, bytes: Seq<u8>)
    requires
        stream_wf(&s),
        holds_data(&s, bytes),
        forall|i: int| 0 <= i < s.valid@.len() ==> #[trigger] s.valid@[i],
    ensures
        usable_columns(&s).len() >= s.encoding.data_chunks,
        data_intact(&s),
        data_columns(&s) == bytes,
{
    let k = s.encoding.data_chunks as nat;
    let n = (s.encoding.data_chunks + s.encoding.code_chunks) as nat;
    assert(usable(s.valid@, n) =~= Seq::new(n, |i: int| true));
    lemma_select_all(n);
    assert forall|t: int| 0 <= t < s.length implies #[trigger] data_columns(&s)[t] == bytes[t] by {
        lemma_stripe_index(t, k as int, s.codes@.len() as int);
    }
    assert(data_columns(&s) =~= bytes);
}

/// With a full mask of `k + m` entries, `m + 1` erased columns leave fewer than `k` usable.
pub proof fn lemma_too_many_erasures(s: RSStream)
    requires
        stream_wf(&s),
        s.valid@.len() == s.encoding.data_chunks + s.encoding.code_chunks,
        selected(s.valid@.map_values(|b: bool| !b)).len() >= s.encoding.code_chunks + 1,
    ensures
        usable_columns(&s).len() < s.encoding.data_chunks,
{
    let n = (s.encoding.data_chunks + s.encoding.code_chunks) as nat;
    assert(usable(s.valid@, n) =~= s.valid@);
    lemma_selected_complement(s.valid@);
}

/// `damaged` is `s` with its own mask and anything changed outside its usable columns.
pub open spec fn agrees_on_usable(damaged: &RSStream, s: &RSStream) -> bool {
    &&& damaged.length == s.length
    &&& damaged.encoding == s.encoding
    &&& damaged.codes@.len() == s.codes@.len()
    &&& forall|r: int, e: int|
        0 <= r < s.codes@.len() && 0 <= e < usable_columns(damaged).len() ==> #[trigger] stripes(
            damaged,
        )[r][usable_columns(damaged)[e]] == stripes(s)[r][usable_columns(damaged)[e]]
}

/// Erasure recovery: for a stream whose code columns are interpolation values (as every
/// codec produces them) and that lost columns but kept `k` usable ones, what `decode_bytes`
/// returns, which it must return as `Ok`, is `bytes`.
#[verifier::rlimit(100)]
pub proof fn lemma_lagrange_erasure_recovery(s: RSStream, damaged: RSStream, bytes: Seq<u8>, out: Seq<u8>)
    requires
        encoded(&s, s.encoding, bytes),
        lagrange_parity(&s, bytes),
        stream_wf(&damaged),
        agrees_on_usable(&damaged, &s),
        damaged.length > 0,
        usable_columns(&damaged).len() >= damaged.encoding.data_chunks,
        out.len() == damaged.length,
        data_intact(&damaged) ==> out == data_columns(&damaged),
        !data_intact(&damaged) ==> interpolated(&damaged, out),
    ensures
        out == bytes,
{
    let k = damaged.encoding.data_chunks as nat;
    let n = (damaged.encoding.data_chunks + damaged.encoding.code_chunks) as nat;
    let chosen = chosen_columns(&damaged);
    lemma_selected_bounds(usable(damaged.valid@, n));
    assert forall|t: int| 0 <= t < out.len() implies #[trigger] out[t] == bytes[t] by {
        lemma_stripe_index(t, k as int, damaged.codes@.len() as int);
        let r = t / (k as int);
        let c = t % (k as int);
        if data_intact(&damaged) {
            assert(chosen[c] == c);
            assert(usable_columns(&damaged)[c] == c);
            assert(stripes(&damaged)[r][c] == stripes(&s)[r][c]);
        } else {
            let d = chunk(bytes, k, r);
            let p = lagrange(indexed_points(d));
            let pts = stripe_points(stripes(&damaged)[r], chosen);
            lemma_interpolate_values(d);
            assert forall|e: int| 0 <= e < pts.len() implies #[trigger] pts[e].1 == poly_eval(p, pts[e].0) by {
                let col = chosen[e];
                assert(col == usable_columns(&damaged)[e]);
                assert(stripes(&damaged)[r][col] == stripes(&s)[r][col]);
                if col < k {
                    assert(d[col] == poly_eval(p, col as u8));
                } else {
                    assert(stripes(&s)[r][k + (col - k)] == poly_eval(p, (k + (col - k)) as u8));
                }
            }
            assert(distinct_xs(pts)) by {
                assert forall|a: int, b: int| 0 <= a < b < pts.len() implies #[trigger] pts[a].0 != #[trigger] pts[b].0 by {
                    assert(usable_columns(&damaged)[a] < usable_columns(&damaged)[b]);
                }
            }
            lemma_reinterpolate(d, pts, c as u8);
            assert(d[c] == poly_eval(p, c as u8));
        }
    }
    assert(out =~= bytes);
}

/// A row of powers of `x` against coefficient column `c` is the polynomial's value at `x`.
proof fn lemma_dot_is_eval(row: Seq<u8>, t: Seq<Seq<u8>>, c: int, s: Seq<u8>, x: u8, n: nat)
    requires
        forall|j: int| 0 <= j < n ==> #[trigger] row[j] == gf_pow(x, j as nat),
        forall|j: int| 0 <= j < n ==> #[trigger] t[j][c] == coef(s, j),
    ensures
        crate::matrix::dot(row, t, c, n) == eval_upto(s, x, n),
    decreases n,
{
    if n > 0 {
        lemma_dot_is_eval(row, t, c, s, x, (n - 1) as nat);
    }
}

/// Basis polynomial `c` of the data columns, evaluated at `x`, through its coefficients.
proof fn lemma_basis_column(k: nat, c: int, row: Seq<u8>, x: u8)
    requires
        1 <= k <= 255,
        0 <= c < k,
        forall|j: int| 0 <= j < k ==> #[trigger] row[j] == gf_pow(x, j as nat),
    ensures
        crate::matrix::dot(row, vandermonde_top_inverse(k), c, k) == poly_eval(basis(data_points(k), c), x),
{
    let pts = data_points(k);
    let b = basis(pts, c);
    lemma_dot_is_eval(row, vandermonde_top_inverse(k), c, b, x, k);
    lemma_term_len(pts, pts[c].0, 1, k);
    assert(pts[c].0 == pts[c].0);
    lemma_poly_eval_upto(b, x);
    lemma_eval_upto_extend(b, x, k);
}

/// The explicit inverse is a right inverse of the top Vandermonde block, so the generator's top
/// block is the identity.
pub proof fn lemma_vandermonde_top_inverse(k: nat)
    requires
        1 <= k <= 255,
    ensures
        mat_mul(vandermonde_top(k), vandermonde_top_inverse(k), k, k, k) == identity_seq(k),
{
    let pts = data_points(k);
    assert forall|i: int, c: int| 0 <= i < k && 0 <= c < k implies #[trigger] mat_mul(
        vandermonde_top(k),
        vandermonde_top_inverse(k),
        k,
        k,
        k,
    )[i][c] == identity_seq(k)[i][c] by {
        lemma_basis_column(k, c, vandermonde_top(k)[i], i as u8);
        if i == c {
            lemma_eval_term_own(pts, pts[c].0, 1, k);
        } else {
            assert(pts[i].0 != pts[c].0);
            lemma_eval_term_other(pts, pts[c].0, 1, k, i);
        }
    }
    assert(mat_mul(vandermonde_top(k), vandermonde_top_inverse(k), k, k, k) =~~= identity_seq(k));
}

/// The Vandermonde code symbols are the interpolation values: Vandermonde and Lagrange
/// encoders produce the same codes.
#[verifier::rlimit(100)]
pub proof fn lemma_vandermonde_is_lagrange(d: Seq<u8>, k: nat, m: nat, i: int)
    requires
        d.len() == k,
        1 <= k,
        k + m <= 255,
        0 <= i < m,
    ensures
        vec_dot(vandermonde_parity(k, m)[i], d, k) == poly_eval(lagrange(indexed_points(d)), (k + i) as u8),
{
    let x = (k + i) as u8;
    let pts = data_points(k);
    let ipts = indexed_points(d);
    let bottom = Seq::new(m, |a: int| Seq::new(k, |j: int| vandermonde_entry(k as int, a, j)));
    let row = vandermonde_parity(k, m)[i];
    assert forall|c: int| 0 <= c < k implies #[trigger] row[c] == poly_eval(basis(ipts, c), x) by {
        lemma_basis_column(k, c, bottom[i], x);
        assert forall|j: int| 0 <= j < k implies #[trigger] pts[j].0 == ipts[j].0 by {}
        lemma_term_xs_only(pts, ipts, pts[c].0, 1, k);
    }
    lemma_vec_dot_basis(row, d, ipts, x, k);
    lemma_lagrange_basis_sum(ipts, k, x);
}

/// A Vandermonde-encoded stream satisfies the interpolation form of its code columns.
pub proof fn lemma_vandermonde_codes(s: RSStream, bytes: Seq<u8>)
    requires
        encoded(&s, s.encoding, bytes),
        (VandermondeEncoder {}).parity_holds(&s, bytes),
    ensures
        lagrange_parity(&s, bytes),
{
    let k = s.encoding.data_chunks as nat;
    let m = s.encoding.code_chunks as nat;
    assert forall|r: int, i: int| 0 <= r < s.codes@.len() && 0 <= i < m implies #[trigger] stripes(&s)[r][k + i]
        == poly_eval(lagrange(indexed_points(chunk(bytes, k, r))), (k + i) as u8) by {
        lemma_vandermonde_is_lagrange(chunk(bytes, k, r), k, m, i);
    }
}

/// Erasure recovery for the Vandermonde codec.
pub proof fn lemma_vandermonde_erasure_recovery(s: RSStream, damaged: RSStream, bytes: Seq<u8>, out: Seq<u8>)
    requires
        encoded(&s, s.encoding, bytes),
        (VandermondeEncoder {}).parity_holds(&s, bytes),
        stream_wf(&damaged),
        agrees_on_usable(&damaged, &s),
        damaged.length > 0,
        usable_columns(&damaged).len() >= damaged.encoding.data_chunks,
        out.len() == damaged.length,
        data_intact(&damaged) ==> out == data_columns(&damaged),
        !data_intact(&damaged) ==> interpolated(&damaged, out),
    ensures
        out == bytes,
{
    lemma_vandermonde_codes(s, bytes);
    lemma_lagrange_erasure_recovery(s, damaged, bytes, out);
}

/// Four factors can be regrouped.
proof fn lemma_mul_regroup(a: u8, b: u8, c: u8, d: u8)
    ensures
        gf_mul(gf_mul(a, b), gf_mul(c, d)) == gf_mul(gf_mul(a, c), gf_mul(b, d)),
{
    crate::gf::lemma_mul_associative(a, b, gf_mul(c, d));
    crate::gf::lemma_mul_associative(b, c, d);
    crate::gf::lemma_mul_commutative(b, c);
    crate::gf::lemma_mul_associative(c, b, d);
    crate::gf::lemma_mul_associative(a, c, gf_mul(b, d));
}

/// The inverse of a product of non-zero factors is the product of the inverses.
proof fn lemma_inv_mul(a: u8, b: u8)
    requires
        a != 0,
        b != 0,
    ensures
        gf_inv(gf_mul(a, b)) == gf_mul(gf_inv(a), gf_inv(b)),
{
    crate::gf::lemma_inverse(a);
    crate::gf::lemma_inverse(b);
    crate::gf::lemma_mul_no_zero_divisors(a, b);
    crate::gf::lemma_inverse(gf_mul(a, b));
    lemma_mul_regroup(a, b, gf_inv(a), gf_inv(b));
    crate::gf::lemma_mul_identities(1);
}

/// The products of differences from another point are non-zero.
proof fn lemma_product_nonzero(x: u8, n: nat, skip: int)
    requires
        n <= 256,
        0 <= skip < 256,
        x == skip as u8,
    ensures
        product_of_differences(x, n, skip) != 0,
    decreases n,
{
    if n > 0 {
        lemma_product_nonzero(x, (n - 1) as nat, skip);
        if n - 1 != skip {
            crate::gf::lemma_xor(x, (n - 1) as u8, 0);
            crate::gf::lemma_mul_no_zero_divisors(
                product_of_differences(x, (n - 1) as nat, skip),
                gf_add(x, (n - 1) as u8),
            );
        }
    }
}

/// The full product is the product skipping `c` times the factor for `c`.
proof fn lemma_product_split(x: u8, n: nat, k: nat, c: int)
    requires
        n <= k,
        0 <= c < k,
    ensures
        n <= c ==> product_of_differences(x, n, k as int) == product_of_differences(x, n, c),
        n > c ==> product_of_differences(x, n, k as int) == gf_mul(
            product_of_differences(x, n, c),
            gf_add(x, c as u8),
        ),
    decreases n,
{
    if n > 0 {
        let m = (n - 1) as nat;
        lemma_product_split(x, m, k, c);
        if m as int != c && m > c {
            let p = product_of_differences(x, m, c);
            crate::gf::lemma_mul_associative(p, gf_add(x, c as u8), gf_add(x, m as u8));
            crate::gf::lemma_mul_commutative(gf_add(x, c as u8), gf_add(x, m as u8));
            crate::gf::lemma_mul_associative(p, gf_add(x, m as u8), gf_add(x, c as u8));
        }
    }
}

/// Basis polynomial `c` of the data columns evaluated at `x`, as a ratio of products.
#[verifier::rlimit(100)]
proof fn lemma_basis_value(k: nat, c: int, x: u8, n: nat)
    requires
        n <= k <= 255,
        0 <= c < k,
    ensures
        poly_eval(crate::polynomial::lagrange_term(data_points(k), c as u8, 1, n), x) == gf_mul(
            product_of_differences(x, n, c),
            gf_inv(product_of_differences(c as u8, n, c)),
        ),
    decreases n,
{
    let dp = data_points(k);
    if n == 0 {
        let one = seq![1u8];
        crate::polynomial::lemma_eval_trim(one, x);
        assert(one.drop_last() =~= Seq::<u8>::empty());
        assert(poly_eval(one, x) == gf_add(poly_eval(Seq::<u8>::empty(), x), gf_mul(gf_pow(x, 0), 1u8)));
        crate::gf::lemma_mul_identities(1);
        crate::gf::lemma_xor(1, 0, 0);
        crate::gf::lemma_inverse(1);
    } else {
        let m = (n - 1) as nat;
        lemma_basis_value(k, c, x, m);
        let xj = dp[m as int].0;
        assert(xj == m as u8);
        if m as int != c {
            let prev = crate::polynomial::lagrange_term(dp, c as u8, 1, m);
            let f = crate::polynomial::lagrange_factor(c as u8, xj);
            assert(crate::polynomial::lagrange_term(dp, c as u8, 1, n) == crate::polynomial::poly_mul(prev, f));
            crate::polynomial::lemma_eval_mul(prev, f, x);
            crate::polynomial::lemma_eval_factor(c as u8, xj, x);
            let px = product_of_differences(x, m, c);
            let pc = product_of_differences(c as u8, m, c);
            let d = gf_add(c as u8, xj);
            lemma_product_nonzero(c as u8, m, c);
            crate::gf::lemma_xor(c as u8, xj, 0);
            lemma_inv_mul(pc, d);
            crate::gf::lemma_xor(xj, x, 0);
            lemma_mul_regroup(px, gf_inv(pc), gf_add(xj, x), gf_inv(d));
        }
    }
}

/// The Cauchy parity entries are the data columns' basis polynomials at the code columns.
#[verifier::rlimit(100)]
proof fn lemma_cauchy_entry_is_basis(k: nat, m: nat, i: int, c: int)
    requires
        1 <= k,
        k + m <= 255,
        0 <= i < m,
        0 <= c < k,
    ensures
        cauchy_parity_entry(k, i, c) == poly_eval(basis(data_points(k), c), (k + i) as u8),
{
    let x = (k + i) as u8;
    lemma_basis_value(k, c, x, k);
    lemma_product_split(x, k, k, c);
    let ps = product_of_differences(x, k, c);
    let a = gf_add(x, c as u8);
    let ipc = gf_inv(product_of_differences(c as u8, k, c));
    crate::gf::lemma_xor(x, c as u8, 0);
    crate::gf::lemma_inverse(a);
    // ((ps * a) * ipc) * inv(a) == ps * ipc
    lemma_mul_regroup(ps, a, ipc, 1);
    crate::gf::lemma_mul_identities(ipc);
    crate::gf::lemma_mul_associative(gf_mul(ps, a), ipc, gf_inv(a));
    crate::gf::lemma_mul_commutative(ipc, gf_inv(a));
    crate::gf::lemma_mul_associative(gf_mul(ps, a), gf_inv(a), ipc);
    crate::gf::lemma_mul_associative(ps, a, gf_inv(a));
    crate::gf::lemma_mul_identities(ps);
    assert(cauchy_entry(k as int, i, c) == gf_inv(a));
}

/// The Cauchy code symbols are the interpolation values: Cauchy and Lagrange encoders produce
/// the same codes.
#[verifier::rlimit(100)]
pub proof fn lemma_cauchy_is_lagrange(d: Seq<u8>, k: nat, m: nat, i: int)
    requires
        d.len() == k,
        1 <= k,
        k + m <= 255,
        0 <= i < m,
    ensures
        vec_dot(cauchy_parity(k, m)[i], d, k) == poly_eval(lagrange(indexed_points(d)), (k + i) as u8),
{
    let x = (k + i) as u8;
    let pts = data_points(k);
    let ipts = indexed_points(d);
    let row = cauchy_parity(k, m)[i];
    assert forall|c: int| 0 <= c < k implies #[trigger] row[c] == poly_eval(basis(ipts, c), x) by {
        lemma_cauchy_entry_is_basis(k, m, i, c);
        assert forall|j: int| 0 <= j < k implies #[trigger] pts[j].0 == ipts[j].0 by {}
        lemma_term_xs_only(pts, ipts, pts[c].0, 1, k);
    }
    lemma_vec_dot_basis(row, d, ipts, x, k);
    lemma_lagrange_basis_sum(ipts, k, x);
}

/// A Cauchy-encoded stream satisfies the interpolation form of its code columns.
pub proof fn lemma_cauchy_codes(s: RSStream, bytes: Seq<u8>)
    requires
        encoded(&s, s.encoding, bytes),
        (CauchyEncoder {}).parity_holds(&s, bytes),
    ensures
        lagrange_parity(&s, bytes),
{
    let k = s.encoding.data_chunks as nat;
    let m = s.encoding.code_chunks as nat;
    assert forall|r: int, i: int| 0 <= r < s.codes@.len() && 0 <= i < m implies #[trigger] stripes(&s)[r][k + i]
        == poly_eval(lagrange(indexed_points(chunk(bytes, k, r))), (k + i) as u8) by {
        lemma_cauchy_is_lagrange(chunk(bytes, k, r), k, m, i);
    }
}

/// Erasure recovery for the Cauchy codec.
pub proof fn lemma_cauchy_erasure_recovery(s: RSStream, damaged: RSStream, bytes: Seq<u8>, out: Seq<u8>)
    requires
        encoded(&s, s.encoding, bytes),
        (CauchyEncoder {}).parity_holds(&s, bytes),
        stream_wf(&damaged),
        agrees_on_usable(&damaged, &s),
        damaged.length > 0,
        usable_columns(&damaged).len() >= damaged.encoding.data_chunks,
        out.len() == damaged.length,
        data_intact(&damaged) ==> out == data_columns(&damaged),
        !data_intact(&damaged) ==> interpolated(&damaged, out),
    ensures
        out == bytes,
{
    lemma_cauchy_codes(s, bytes);
    lemma_lagrange_erasure_recovery(s, damaged, bytes, out);
}

} // verus!
