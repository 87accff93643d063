//! Chunk buffers: the data and parity chunks that one code encodes and repairs.
use vstd::prelude::*;
use crate::error::LrcError;
use crate::gf::gf_mul;
use crate::gf::{gf_mul_spec, lemma_xor_pair};
use crate::lrc::{count_true, indices_of, indices_valid, lemma_indices_bounds, true_indices, lemma_count_at_least, lemma_group_range, lost_map, valid_shape, Lrc};

verus! {

/// The byte contents of a list of chunks.
pub open spec fn chunk_bytes(v: Seq<Vec<u8>>) -> Seq<Seq<u8>> {
    v.map_values(|c: Vec<u8>| c@)
}

/// Byte `c` of parity row `r`, summed over data chunks `[0, upto)` of `d`.
pub open spec fn row_sum(code: Lrc, r: int, d: Seq<Seq<u8>>, upto: int, c: int) -> u8
    decreases upto,
{
    if upto <= 0 {
        0
    } else {
        row_sum(code, r, d, upto - 1, c) ^ gf_mul_spec(d[upto - 1][c], code.coef(r, upto - 1))
    }
}

/// Every parity chunk holds its row's sum over the data chunks.
pub open spec fn is_encoded(code: Lrc, ch: Seq<Seq<u8>>) -> bool {
    forall|r: int, c: int|
        0 <= r < code.m() && 0 <= c < ch[code.k() + r].len() ==> #[trigger] ch[code.k()
            + r][c] == row_sum(code, r, ch, code.k(), c)
}

/// A row sum reads only the data chunks below `upto`.
pub proof fn lemma_row_sum_data(code: Lrc, r: int, d1: Seq<Seq<u8>>, d2: Seq<Seq<u8>>, upto: int, c: int)
    requires
        upto <= d1.len(),
        upto <= d2.len(),
        forall|i: int| 0 <= i < upto ==> #[trigger] d1[i] == d2[i],
    ensures
        row_sum(code, r, d1, upto, c) == row_sum(code, r, d2, upto, c),
    decreases upto,
{
    if upto > 0 {
        lemma_row_sum_data(code, r, d1, d2, upto - 1, c);
    }
}

impl Lrc {
    /// A buffer of zeroed chunks of `chunk_size` bytes each for this code.
    pub fn new_buf(&self, chunk_size: usize) -> (r: Result<LrcBuf<'_>, LrcError>)
        requires
            self.wf(),
        ensures
            chunk_size == 0 ==> r == Err::<LrcBuf<'_>, LrcError>(LrcError::LrcInvalidArgument),
            chunk_size > 0 ==> (r matches Ok(b) && {
                &&& b.wf()
                &&& b.code() == *self
                &&& b.size() == chunk_size
                &&& forall|i: int, c: int|
                    0 <= i < self.n() && 0 <= c < chunk_size ==> #[trigger] b.chunks()[i][c] == 0
            }),
    {
        if chunk_size == 0 {
            return Err(LrcError::LrcInvalidArgument);
        }
        let n = self.total_chunk_count();
        let mut chunks: Vec<Vec<u8>> = Vec::new();
        let mut i: usize = 0;
        while i < n
            invariant
                i <= n,
                chunks@.len() == i,
                forall|q: int| 0 <= q < i ==> (#[trigger] chunks@[q])@.len() == chunk_size,
                forall|q: int, c: int| 0 <= q < i && 0 <= c < chunk_size ==> #[trigger] chunks@[q]@[c] == 0,
            decreases n - i,
        {
            let mut chunk: Vec<u8> = Vec::new();
            let mut c: usize = 0;
            while c < chunk_size
                invariant
                    c <= chunk_size,
                    chunk@.len() == c,
                    forall|q: int| 0 <= q < c ==> #[trigger] chunk@[q] == 0,
                decreases chunk_size - c,
            {
                chunk.push(0);
                c = c + 1;
            }
            chunks.push(chunk);
            i = i + 1;
        }
        Ok(LrcBuf { lrc: self, chunk_size, chunks })
    }
}

/// Encoding is idempotent: two encoded chunk lists with the same data chunks, of the
/// same shape, are identical, so encoding again changes nothing.
pub proof fn lemma_encode_idempotent(code: Lrc, a: Seq<Seq<u8>>, b: Seq<Seq<u8>>)
    requires
        code.wf(),
        a.len() == code.n(),
        b.len() == code.n(),
        forall|i: int| 0 <= i < code.n() ==> #[trigger] a[i].len() == b[i].len(),
        forall|i: int| 0 <= i < code.k() ==> #[trigger] a[i] == b[i],
        is_encoded(code, a),
        is_encoded(code, b),
    ensures
        a == b,
{
    code.lemma_wf_facts();
    assert forall|i: int| 0 <= i < code.n() implies #[trigger] a[i] == b[i] by {
        if i >= code.k() {
            let q = i - code.k();
            assert forall|c: int| 0 <= c < a[i].len() implies a[i][c] == b[i][c] by {
                assert(a[code.k() + q][c] == row_sum(code, q, a, code.k(), c));
                assert(b[code.k() + q][c] == row_sum(code, q, b, code.k(), c));
                lemma_row_sum_data(code, q, a, b, code.k(), c);
            }
            assert(a[i] =~= b[i]);
        }
    }
    assert(a =~= b);
}

/// Two data lists that differ, within group `gi`, at most at chunk `e` give local row
/// sums that differ by exactly the difference at `e`.
proof fn lemma_local_row_diff(
    code: Lrc,
    gi: int,
    w: Seq<Seq<u8>>,
    v: Seq<Seq<u8>>,
    e: int,
    upto: int,
    c: int,
)
    requires
        code.wf(),
        0 <= gi < code.g(),
        0 <= upto <= code.k(),
        upto <= w.len(),
        upto <= v.len(),
        forall|i: int|
            0 <= i < upto && i != e && #[trigger] (i / code.cpg()) == gi ==> w[i][c] == v[i][c],
    ensures
        row_sum(code, gi, w, upto, c) ^ row_sum(code, gi, v, upto, c) == if 0 <= e < upto && e
            / code.cpg() == gi {
            w[e][c] ^ v[e][c]
        } else {
            0u8
        },
    decreases upto,
{
    if upto == 0 {
        lemma_xor_pair(0u8, 0u8, 0u8, 0u8);
    } else {
        let i = upto - 1;
        lemma_local_row_diff(code, gi, w, v, e, i, c);
        let a = row_sum(code, gi, w, i, c);
        let b = row_sum(code, gi, v, i, c);
        crate::gf::lemma_mul_by_unit(w[i][c]);
        crate::gf::lemma_mul_by_unit(v[i][c]);
        let x = gf_mul_spec(w[i][c], code.coef(gi, i));
        let y = gf_mul_spec(v[i][c], code.coef(gi, i));
        lemma_xor_pair(a, x, b, y);
        crate::gf::lemma_xor_zero(a ^ b);
        crate::gf::lemma_xor_zero(x ^ y);
        lemma_xor_pair(a, x, a, x);
    }
}

/// With at most one lost member per group, the other members of a lost data chunk's
/// group, its local parity included, survive.
pub proof fn lemma_local_group_survivors(code: Lrc, lost: Seq<bool>, e: int, i: int)
    requires
        code.wf(),
        lost.len() == code.n(),
        code.local_repairable(lost),
        0 <= e < code.k(),
        lost[e],
        (0 <= i < code.k() && i != e && i / code.cpg() == e / code.cpg()) || i == code.k() + e
            / code.cpg(),
    ensures
        !lost[i],
{
    code.lemma_wf_facts();
    let k = code.k();
    let cpg = code.cpg();
    let gi = e / cpg;
    let lo = gi * cpg;
    assert(0 <= e / code.cpg() < code.g());
    assert(lo <= e < lo + cpg);
    lemma_group_range(k, code.g(), cpg, gi);
    let sub = lost.subrange(lo, lo + cpg);
    assert(code.group_losses(lost, gi) <= 1);
    assert(sub[e - lo]);
    lemma_count_at_least(sub, e - lo, e - lo);
    if i < k && lost[i] {
        assert(0 <= i / code.cpg() < code.g());
        assert(lo <= i < lo + cpg);
        assert(sub[i - lo]);
        lemma_count_at_least(sub, e - lo, i - lo);
    }
}

/// Round trip and sufficiency of the sources for losses that local parity repairs: two
/// encoded codewords of one shape that agree on the chunks the solver names as sources,
/// where each group lost at most one member, agree on every lost chunk too. So the
/// sources alone determine what a decode must restore.
pub proof fn lemma_local_round_trip(code: Lrc, size: int, w: Seq<Seq<u8>>, v: Seq<Seq<u8>>, lost: Seq<bool>)
    requires
        code.wf(),
        lost.len() == code.n(),
        code.local_repairable(lost),
        codeword_agrees(code, size, w, v, code.local_source(lost)),
        codeword_agrees(code, size, v, v, code.local_source(lost)),
    ensures
        forall|i: int| 0 <= i < code.n() && lost[i] ==> #[trigger] w[i] == v[i],
{
    code.lemma_wf_facts();
    let k = code.k();
    let cpg = code.cpg();
    let src = code.local_source(lost);
    assert forall|e: int| 0 <= e < k && lost[e] implies #[trigger] w[e] == v[e] by {
        let gi = e / cpg;
        assert(0 <= e / code.cpg() < code.g());
        lemma_local_group_survivors(code, lost, e, k + gi);
        lemma_group_hit(code, lost, gi, e);
        assert(src[k + gi]);
        assert forall|i: int| 0 <= i < k && i != e && #[trigger] (i / cpg) == gi implies w[i] == v[i] by {
            lemma_local_group_survivors(code, lost, e, i);
            assert(src[i]);
        }
        assert forall|c: int| 0 <= c < size implies w[e][c] == v[e][c] by {
            lemma_local_row_diff(code, gi, w, v, e, k, c);
            assert(w[k + gi][c] == row_sum(code, gi, w, k, c));
            assert(v[k + gi][c] == row_sum(code, gi, v, k, c));
            assert(w[k + gi][c] == v[k + gi][c]);
            lemma_xor_pair(0u8, row_sum(code, gi, w, k, c), 0u8, row_sum(code, gi, w, k, c));
            lemma_xor_pair(0u8, w[e][c], 0u8, v[e][c]);
        }
        assert(w[e] =~= v[e]);
    }
    assert forall|i: int| 0 <= i < code.n() && lost[i] implies #[trigger] w[i] == v[i] by {
        if i >= k {
            let q = i - k;
            assert forall|c: int| 0 <= c < size implies #[trigger] w[k + q][c] == v[k + q][c] by {
                assert(w[k + q][c] == row_sum(code, q, w, k, c));
                assert(v[k + q][c] == row_sum(code, q, v, k, c));
                if q < code.g() {
                    lemma_group_hit(code, lost, q, k + q);
                    assert forall|d: int| 0 <= d < k && #[trigger] (d / code.cpg()) == q implies w[d][c] == v[d][c] by {
                        lemma_local_source_data(code, lost, d);
                        if lost[d] {
                            assert(w[d] == v[d]);
                        }
                    }
                    lemma_local_row_eq(code, q, w, v, c);
                } else {
                    lemma_global_hit(code, lost, k + q);
                    assert forall|d: int| 0 <= d < k implies #[trigger] w[d] == v[d] by {
                        lemma_local_source_data(code, lost, d);
                        if lost[d] {
                            assert(w[d] == v[d]);
                        }
                    }
                    lemma_row_sum_data(code, q, w, v, k, c);
                }
            }
            assert(w[i] =~= v[i]);
        }
    }
}

/// Zero-initialised chunks for one code, all of one size.
pub struct LrcBuf<'a> {
    lrc: &'a Lrc,
    chunk_size: usize,
    chunks: Vec<Vec<u8>>,
}

/// Byte `c` of parity row `r` over the data chunks of `chunks`.
fn row_byte(lrc: &Lrc, chunks: &Vec<Vec<u8>>, r: usize, c: usize) -> (b: u8)
    requires
        lrc.wf(),
        r < lrc.m(),
        chunks@.len() >= lrc.k(),
        forall|i: int| 0 <= i < lrc.k() ==> c < (#[trigger] chunks@[i])@.len(),
    ensures
        b == row_sum(*lrc, r as int, chunk_bytes(chunks@), lrc.k(), c as int),
{
    let k = lrc.data_count();
    let mut acc: u8 = 0;
    let mut i: usize = 0;
    while i < k
        invariant
            lrc.wf(),
            k == lrc.k(),
            r < lrc.m(),
            i <= k,
            chunks@.len() >= k,
            forall|q: int| 0 <= q < k ==> c < (#[trigger] chunks@[q])@.len(),
            acc == row_sum(*lrc, r as int, chunk_bytes(chunks@), i as int, c as int),
        decreases k - i,
    {
        acc = acc ^ gf_mul(chunks[i][c], lrc.coefficient(r, i));
        i = i + 1;
    }
    acc
}

/// A full parity chunk of row `r` over the data chunks of `chunks`.
fn row_chunk(lrc: &Lrc, chunks: &Vec<Vec<u8>>, r: usize, size: usize) -> (out: Vec<u8>)
    requires
        lrc.wf(),
        r < lrc.m(),
        chunks@.len() >= lrc.k(),
        forall|i: int| 0 <= i < lrc.k() ==> size <= (#[trigger] chunks@[i])@.len(),
    ensures
        out@.len() == size,
        forall|c: int|
            0 <= c < size ==> #[trigger] out@[c] == row_sum(
                *lrc,
                r as int,
                chunk_bytes(chunks@),
                lrc.k(),
                c,
            ),
{
    let mut out: Vec<u8> = Vec::new();
    let mut c: usize = 0;
    while c < size
        invariant
            lrc.wf(),
            r < lrc.m(),
            c <= size,
            chunks@.len() >= lrc.k(),
            forall|i: int| 0 <= i < lrc.k() ==> size <= (#[trigger] chunks@[i])@.len(),
            out@.len() == c,
            forall|q: int|
                0 <= q < c ==> #[trigger] out@[q] == row_sum(
                    *lrc,
                    r as int,
                    chunk_bytes(chunks@),
                    lrc.k(),
                    q,
                ),
        decreases size - c,
    {
        out.push(row_byte(lrc, chunks, r, c));
        c = c + 1;
    }
    out
}


/// A square byte matrix of order `u`.
pub open spec fn square(a: Seq<Vec<u8>>, u: int) -> bool {
    a.len() == u && forall|j: int| 0 <= j < u ==> (#[trigger] a[j])@.len() == u
}

/// The coefficients of parity rows `rows` on data chunks `cols`.
pub open spec fn sub_matrix(code: Lrc, rows: Seq<i32>, cols: Seq<i32>) -> Seq<Seq<u8>> {
    Seq::new(
        rows.len(),
        |j: int| Seq::new(cols.len(), |l: int| code.coef(rows[j] as int, cols[l] as int)),
    )
}

/// The parity rows that `src` selects, restricted to the lost data chunks, form a square
/// matrix with an inverse: the selected parity chunks fix the lost data chunks.
pub open spec fn selection_invertible(code: Lrc, lost: Seq<bool>, src: Seq<bool>) -> bool {
    let cols = indices_of(lost.subrange(0, code.k()));
    let rows = indices_of(src.subrange(code.k(), code.n()));
    rows.len() == cols.len() && exists|b: Seq<Vec<u8>>|
        square(b, cols.len() as int) && is_inverse(sub_matrix(code, rows, cols), b, cols.len() as int)
}

/// The entries of `v` in `[lo, hi)`.
fn bool_range(v: &Vec<bool>, lo: usize, hi: usize) -> (out: Vec<bool>)
    requires
        lo <= hi <= v@.len(),
    ensures
        out@ == v@.subrange(lo as int, hi as int),
{
    let mut out: Vec<bool> = Vec::new();
    let mut i: usize = lo;
    while i < hi
        invariant
            lo <= i <= hi <= v@.len(),
            out@ == v@.subrange(lo as int, i as int),
        decreases hi - i,
    {
        out.push(v[i]);
        i = i + 1;
    }
    out
}

/// Tries to invert the parity rows that `src` selects on the lost data chunks; true only
/// when an inverse was found.
pub(crate) fn selection_check(lrc: &Lrc, lost: &Vec<bool>, src: &Vec<bool>) -> (r: bool)
    requires
        lrc.wf(),
        lost@.len() == lrc.n(),
        src@.len() == lrc.n(),
    ensures
        r ==> selection_invertible(*lrc, lost@, src@),
{
    proof {
        lrc.lemma_wf_facts();
    }
    let k = lrc.data_count();
    let n = lrc.total_chunk_count();
    let lsub = bool_range(lost, 0, k);
    let ssub = bool_range(src, k, n);
    let cols = true_indices(&lsub);
    let rows = true_indices(&ssub);
    proof {
        lemma_indices_bounds(lsub@);
        lemma_indices_bounds(ssub@);
    }
    if rows.len() != cols.len() {
        return false;
    }
    let u = cols.len();
    let ghost want = sub_matrix(*lrc, rows@, cols@);
    let mut a: Vec<Vec<u8>> = Vec::new();
    let mut j: usize = 0;
    while j < u
        invariant
            lrc.wf(),
            j <= u,
            u == rows@.len(),
            u == cols@.len(),
            k == lrc.k(),
            n == lrc.n(),
            forall|q: int| 0 <= q < rows@.len() ==> 0 <= #[trigger] rows@[q] < n - k,
            forall|q: int| 0 <= q < cols@.len() ==> 0 <= #[trigger] cols@[q] < k,
            want == sub_matrix(*lrc, rows@, cols@),
            a@.len() == j,
            forall|q: int| 0 <= q < j ==> (#[trigger] a@[q])@ == want[q],
        decreases u - j,
    {
        let mut row: Vec<u8> = Vec::new();
        let mut l: usize = 0;
        while l < u
            invariant
                lrc.wf(),
                j < u,
                l <= u,
                u == rows@.len(),
                u == cols@.len(),
                k == lrc.k(),
                n == lrc.n(),
                forall|q: int| 0 <= q < rows@.len() ==> 0 <= #[trigger] rows@[q] < n - k,
                forall|q: int| 0 <= q < cols@.len() ==> 0 <= #[trigger] cols@[q] < k,
                want == sub_matrix(*lrc, rows@, cols@),
                row@ == want[j as int].subrange(0, l as int),
            decreases u - l,
        {
            row.push(lrc.coefficient(rows[j] as usize, cols[l] as usize));
            l = l + 1;
        }
        assert(row@ =~= want[j as int]);
        a.push(row);
        j = j + 1;
    }
    assert(chunk_bytes(a@) =~= want);
    match invert(a, u) {
        None => false,
        Some(b) => true,
    }
}

/// `dst + f * src`, entry by entry.
fn add_scaled(dst: &Vec<u8>, src: &Vec<u8>, f: u8) -> (out: Vec<u8>)
    requires
        dst@.len() == src@.len(),
    ensures
        out@.len() == dst@.len(),
        forall|i: int| 0 <= i < dst@.len() ==> #[trigger] out@[i] == dst@[i] ^ gf_mul_spec(src@[i], f),
{
    let mut out: Vec<u8> = Vec::new();
    let mut i: usize = 0;
    while i < dst.len()
        invariant
            dst@.len() == src@.len(),
            i <= dst@.len(),
            out@.len() == i,
            forall|q: int| 0 <= q < i ==> #[trigger] out@[q] == dst@[q] ^ gf_mul_spec(src@[q], f),
        decreases dst@.len() - i,
    {
        out.push(dst[i] ^ gf_mul(src[i], f));
        i = i + 1;
    }
    out
}

/// A copy of `src`.
fn copy_row(src: &Vec<u8>) -> (out: Vec<u8>)
    ensures
        out@ == src@,
{
    let mut out: Vec<u8> = Vec::new();
    let mut i: usize = 0;
    while i < src.len()
        invariant
            i <= src@.len(),
            out@ == src@.subrange(0, i as int),
        decreases src@.len() - i,
    {
        out.push(src[i]);
        i = i + 1;
    }
    assert(out@ =~= src@);
    out
}

/// `f * src`, entry by entry.
fn scaled(src: &Vec<u8>, f: u8) -> (out: Vec<u8>)
    ensures
        out@.len() == src@.len(),
        forall|i: int| 0 <= i < src@.len() ==> #[trigger] out@[i] == gf_mul_spec(src@[i], f),
{
    let mut out: Vec<u8> = Vec::new();
    let mut i: usize = 0;
    while i < src.len()
        invariant
            i <= src@.len(),
            out@.len() == i,
            forall|q: int| 0 <= q < i ==> #[trigger] out@[q] == gf_mul_spec(src@[q], f),
        decreases src@.len() - i,
    {
        out.push(gf_mul(src[i], f));
        i = i + 1;
    }
    out
}

/// Entry `j` of row `row` times matrix `b`, summed over the first `upto` terms.
pub open spec fn row_times(row: Seq<u8>, b: Seq<Vec<u8>>, j: int, upto: int) -> u8
    decreases upto,
{
    if upto <= 0 {
        0
    } else {
        row_times(row, b, j, upto - 1) ^ gf_mul_spec(row[upto - 1], b[upto - 1]@[j])
    }
}

/// `b` is a right inverse of `a`: their product is the identity matrix of order `u`.
pub open spec fn is_inverse(a: Seq<Seq<u8>>, b: Seq<Vec<u8>>, u: int) -> bool {
    forall|i: int, j: int|
        0 <= i < u && 0 <= j < u ==> #[trigger] row_times(a[i], b, j, u) == if i == j {
            1u8
        } else {
            0u8
        }
}

/// Entry `(i, j)` of the product of `a` and `b`.
fn product_entry(a: &Vec<Vec<u8>>, b: &Vec<Vec<u8>>, u: usize, i: usize, j: usize) -> (r: u8)
    requires
        square(a@, u as int),
        square(b@, u as int),
        i < u,
        j < u,
    ensures
        r == row_times(a@[i as int]@, b@, j as int, u as int),
{
    let mut acc: u8 = 0;
    let mut l: usize = 0;
    while l < u
        invariant
            square(a@, u as int),
            square(b@, u as int),
            i < u,
            j < u,
            l <= u,
            acc == row_times(a@[i as int]@, b@, j as int, l as int),
        decreases u - l,
    {
        acc = acc ^ gf_mul(a[i][l], b[l][j]);
        l = l + 1;
    }
    acc
}

/// The inverse of the square matrix `a` of order `u`, by Gauss-Jordan elimination and
/// checked by multiplication; none when a pivot is missing.
fn invert(a: Vec<Vec<u8>>, u: usize) -> (r: Option<Vec<Vec<u8>>>)
    requires
        square(a@, u as int),
    ensures
        r matches Some(b) ==> square(b@, u as int) && is_inverse(chunk_bytes(a@), b@, u as int),
{
    let mut orig: Vec<Vec<u8>> = Vec::new();
    let mut j: usize = 0;
    while j < u
        invariant
            square(a@, u as int),
            j <= u,
            orig@.len() == j,
            forall|q: int| 0 <= q < j ==> #[trigger] orig@[q]@ == a@[q]@,
        decreases u - j,
    {
        orig.push(copy_row(&a[j]));
        j = j + 1;
    }
    let ghost a0 = chunk_bytes(a@);
    let mut a = a;
    let mut b: Vec<Vec<u8>> = Vec::new();
    let mut j: usize = 0;
    while j < u
        invariant
            j <= u,
            b@.len() == j,
            forall|q: int| 0 <= q < j ==> (#[trigger] b@[q])@.len() == u,
        decreases u - j,
    {
        let mut row: Vec<u8> = Vec::new();
        let mut l: usize = 0;
        while l < u
            invariant
                l <= u,
                row@.len() == l,
            decreases u - l,
        {
            row.push(if l == j { 1 } else { 0 });
            l = l + 1;
        }
        b.push(row);
        j = j + 1;
    }
    let mut col: usize = 0;
    while col < u
        invariant
            col <= u,
            square(a@, u as int),
            square(b@, u as int),
        decreases u - col,
    {
        let mut p: usize = col;
        while p < u && a[p][col] == 0
            invariant
                col <= p <= u,
                square(a@, u as int),
            decreases u - p,
        {
            p = p + 1;
        }
        if p == u {
            return None;
        }
        let ap = copy_row(&a[p]);
        let ac = copy_row(&a[col]);
        a.set(col, ap);
        a.set(p, ac);
        let bp = copy_row(&b[p]);
        let bc = copy_row(&b[col]);
        b.set(col, bp);
        b.set(p, bc);
        let f = match crate::gf::gf_inv(a[col][col]) {
            None => {
                return None;
            },
            Some(f) => f,
        };
        let na = scaled(&a[col], f);
        a.set(col, na);
        let nb = scaled(&b[col], f);
        b.set(col, nb);
        let mut q: usize = 0;
        while q < u
            invariant
                col < u,
                q <= u,
                square(a@, u as int),
                square(b@, u as int),
            decreases u - q,
        {
            if q != col {
                let t = a[q][col];
                if t != 0 {
                    let na = add_scaled(&a[q], &a[col], t);
                    a.set(q, na);
                    let nb = add_scaled(&b[q], &b[col], t);
                    b.set(q, nb);
                }
            }
            q = q + 1;
        }
        col = col + 1;
    }
    let mut i: usize = 0;
    while i < u
        invariant
            square(orig@, u as int),
            square(b@, u as int),
            forall|q: int| 0 <= q < u ==> #[trigger] orig@[q]@ == a0[q],
            i <= u,
            forall|x: int, y: int|
                0 <= x < i && 0 <= y < u ==> #[trigger] row_times(a0[x], b@, y, u as int) == if x == y {
                    1u8
                } else {
                    0u8
                },
        decreases u - i,
    {
        let mut j: usize = 0;
        while j < u
            invariant
                square(orig@, u as int),
                square(b@, u as int),
                forall|q: int| 0 <= q < u ==> #[trigger] orig@[q]@ == a0[q],
                i < u,
                j <= u,
                forall|x: int, y: int|
                    0 <= x < i && 0 <= y < u ==> #[trigger] row_times(a0[x], b@, y, u as int) == if x == y {
                        1u8
                    } else {
                        0u8
                    },
                forall|y: int|
                    0 <= y < j ==> #[trigger] row_times(a0[i as int], b@, y, u as int) == if i == y {
                        1u8
                    } else {
                        0u8
                    },
            decreases u - j,
        {
            let want: u8 = if i == j { 1 } else { 0 };
            if product_entry(&orig, &b, u, i, j) != want {
                return None;
            }
            j = j + 1;
        }
        i = i + 1;
    }
    Some(b)
}

/// `w` is an encoded codeword of chunks of `size` bytes that agrees with `ch` on every
/// chunk that `src` marks.
pub open spec fn codeword_agrees(code: Lrc, size: int, w: Seq<Seq<u8>>, ch: Seq<Seq<u8>>, src: Seq<bool>) -> bool {
    &&& w.len() == code.n()
    &&& forall|i: int| 0 <= i < code.n() ==> (#[trigger] w[i]).len() == size
    &&& is_encoded(code, w)
    &&& forall|i: int| 0 <= i < code.n() && src[i] ==> #[trigger] w[i] == ch[i]
}

/// A local parity row reads only its own group's data chunks.
proof fn lemma_local_row_eq(code: Lrc, gi: int, x: Seq<Seq<u8>>, y: Seq<Seq<u8>>, c: int)
    requires
        code.wf(),
        0 <= gi < code.g(),
        code.k() <= x.len(),
        code.k() <= y.len(),
        forall|i: int| 0 <= i < code.k() && #[trigger] (i / code.cpg()) == gi ==> x[i][c] == y[i][c],
    ensures
        row_sum(code, gi, x, code.k(), c) == row_sum(code, gi, y, code.k(), c),
{
    code.lemma_wf_facts();
    lemma_local_row_diff(code, gi, x, y, -1, code.k(), c);
    lemma_xor_pair(0u8, row_sum(code, gi, x, code.k(), c), 0u8, row_sum(code, gi, y, code.k(), c));
}

/// Under local repair, every data chunk of a group that lost a member is lost or a
/// source; with a global parity lost, every data chunk is.
proof fn lemma_local_source_data(code: Lrc, lost: Seq<bool>, i: int)
    requires
        code.wf(),
        lost.len() == code.n(),
        0 <= i < code.k(),
        code.group_losses(lost, i / code.cpg()) >= 1 || code.global_lost(lost),
    ensures
        lost[i] || code.local_source(lost)[i],
{
    code.lemma_wf_facts();
}

/// A lost member makes its group count a loss.
proof fn lemma_group_hit(code: Lrc, lost: Seq<bool>, gi: int, i: int)
    requires
        code.wf(),
        lost.len() == code.n(),
        0 <= gi < code.g(),
        (0 <= i < code.k() && i / code.cpg() == gi) || i == code.k() + gi,
        lost[i],
    ensures
        code.group_losses(lost, gi) >= 1,
{
    code.lemma_wf_facts();
    if i < code.k() {
        let lo = gi * code.cpg();
        assert(0 <= i / code.cpg() < code.g());
        assert(lo <= i < lo + code.cpg());
        lemma_group_range(code.k(), code.g(), code.cpg(), gi);
        let sub = lost.subrange(lo, lo + code.cpg());
        assert(sub[i - lo]);
        lemma_count_at_least(sub, i - lo, i - lo);
    }
}

/// A lost global parity chunk shows in `global_lost`.
proof fn lemma_global_hit(code: Lrc, lost: Seq<bool>, i: int)
    requires
        code.wf(),
        lost.len() == code.n(),
        code.k() + code.g() <= i < code.n(),
        lost[i],
    ensures
        code.global_lost(lost),
{
    code.lemma_wf_facts();
    let sub = lost.subrange(code.k() + code.g(), code.n());
    assert(sub[i - code.k() - code.g()]);
    lemma_count_at_least(sub, i - code.k() - code.g(), i - code.k() - code.g());
}

/// Rebuilds each lost data chunk from the rest of its group and the group's local
/// parity. Surviving chunks are kept; where the survivors belong to an encoded codeword,
/// the rebuilt data chunks are that codeword's.
#[verifier::loop_isolation(false)]
fn local_fill(lrc: &Lrc, lost: &Vec<bool>, src: &Vec<bool>, work: Vec<Vec<u8>>, cs: usize) -> (out: Vec<Vec<u8>>)
    requires
        lrc.wf(),
        cs >= 1,
        lost@.len() == lrc.n(),
        lrc.local_repairable(lost@),
        src@ == lrc.local_source(lost@),
        work@.len() == lrc.n(),
        forall|q: int| 0 <= q < lrc.n() ==> (#[trigger] work@[q])@.len() == cs,
    ensures
        out@.len() == lrc.n(),
        forall|q: int| 0 <= q < lrc.n() ==> (#[trigger] out@[q])@.len() == cs,
        forall|q: int|
            0 <= q < lrc.n() && !lost@[q] ==> #[trigger] chunk_bytes(out@)[q] == chunk_bytes(work@)[q],
        forall|w: Seq<Seq<u8>>|
            codeword_agrees(*lrc, cs as int, w, chunk_bytes(work@), src@) ==> forall|q: int|
                0 <= q < lrc.k() && lost@[q] ==> #[trigger] chunk_bytes(out@)[q] == w[q],
{
    proof {
        lrc.lemma_wf_facts();
    }
    let ghost orig = chunk_bytes(work@);
    let mut work = work;
    let k = lrc.data_count();
    let cpg = lrc.chunks_per_group();
    let mut e: usize = 0;
    while e < k
        invariant
            k == lrc.k(),
            cpg == lrc.cpg(),
            e <= k,
            work@.len() == lrc.n(),
            forall|q: int| 0 <= q < lrc.n() ==> (#[trigger] work@[q])@.len() == cs,
            forall|q: int| 0 <= q < lrc.n() && !lost@[q] ==> #[trigger] chunk_bytes(work@)[q] == orig[q],
            forall|w: Seq<Seq<u8>>|
                codeword_agrees(*lrc, cs as int, w, orig, src@) ==> forall|q: int|
                    0 <= q < e && lost@[q] ==> #[trigger] chunk_bytes(work@)[q] == w[q],
        decreases k - e,
    {
        if lost[e] {
            let gi = e / cpg;
            proof {
                assert(0 <= (e as int) / lrc.cpg() < lrc.g());
            }
            let mut zero: Vec<u8> = Vec::new();
            let mut c: usize = 0;
            while c < cs
                invariant
                    c <= cs,
                    zero@.len() == c,
                    forall|x: int| 0 <= x < c ==> #[trigger] zero@[x] == 0u8,
                decreases cs - c,
            {
                zero.push(0);
                c = c + 1;
            }
            let ghost prev = chunk_bytes(work@);
            work.set(e, zero);
            assert(chunk_bytes(work@) =~= prev.update(e as int, zero@));
            let ghost zw = chunk_bytes(work@);
            let mut chunk: Vec<u8> = Vec::new();
            let mut c: usize = 0;
            while c < cs
                invariant
                    c <= cs,
                    zw == chunk_bytes(work@),
                    chunk@.len() == c,
                    forall|w: Seq<Seq<u8>>|
                        codeword_agrees(*lrc, cs as int, w, orig, src@) ==> forall|x: int|
                            0 <= x < c ==> #[trigger] chunk@[x] == w[e as int][x],
                decreases cs - c,
            {
                let b = work[k + gi][c] ^ row_byte(lrc, &work, gi, c);
                proof {
                    assert forall|w: Seq<Seq<u8>>| codeword_agrees(*lrc, cs as int, w, orig, src@) implies b
                        == w[e as int][c as int] by {
                        lemma_local_group_survivors(*lrc, lost@, e as int, k + gi);
                        lemma_group_hit(*lrc, lost@, gi as int, e as int);
                        assert(src@[k + gi]);
                        assert forall|i: int|
                            0 <= i < k && i != e && #[trigger] (i / lrc.cpg()) == gi implies w[i][c as int]
                            == zw[i][c as int] by {
                            lemma_local_group_survivors(*lrc, lost@, e as int, i);
                            assert(src@[i]);
                        }
                        lemma_local_row_diff(*lrc, gi as int, w, zw, e as int, k as int, c as int);
                        assert(w[k + gi][c as int] == row_sum(*lrc, gi as int, w, k as int, c as int));
                        crate::gf::lemma_xor_zero(w[e as int][c as int]);
                        lemma_xor_pair(row_sum(*lrc, gi as int, w, k as int, c as int), 0u8,
                            row_sum(*lrc, gi as int, zw, k as int, c as int), 0u8);
                        assert(zw[k + gi] == w[k + gi]);
                        lemma_xor_pair(0u8, w[e as int][c as int], 0u8, 0u8);
                        crate::gf::lemma_xor_zero(row_sum(*lrc, gi as int, w, k as int, c as int));
                        crate::gf::lemma_xor_zero(row_sum(*lrc, gi as int, zw, k as int, c as int));
                    }
                }
                chunk.push(b);
                c = c + 1;
            }
            let ghost prev = chunk_bytes(work@);
            work.set(e, chunk);
            assert(chunk_bytes(work@) =~= prev.update(e as int, chunk@));
            proof {
                assert forall|w: Seq<Seq<u8>>| codeword_agrees(*lrc, cs as int, w, orig, src@) implies
                    chunk_bytes(work@)[e as int] == w[e as int] by {
                    assert(chunk@ =~= w[e as int]);
                }
            }
        }
        e = e + 1;
    }
    work
}

/// Rebuilds the lost data chunks of `work` by solving the system of the parity rows
/// that `src` selects; none when that system has no unique solution. Surviving chunks
/// are kept.
#[verifier::loop_isolation(false)]
fn global_fill(lrc: &Lrc, lost: &Vec<bool>, src: &Vec<bool>, work: Vec<Vec<u8>>, cs: usize) -> (r: Option<Vec<Vec<u8>>>)
    requires
        lrc.wf(),
        cs >= 1,
        lost@.len() == lrc.n(),
        src@.len() == lrc.n(),
        work@.len() == lrc.n(),
        forall|q: int| 0 <= q < lrc.n() ==> (#[trigger] work@[q])@.len() == cs,
    ensures
        r matches Some(out) ==> {
            &&& out@.len() == lrc.n()
            &&& forall|q: int| 0 <= q < lrc.n() ==> (#[trigger] out@[q])@.len() == cs
            &&& forall|q: int|
                0 <= q < lrc.n() && !lost@[q] ==> #[trigger] chunk_bytes(out@)[q] == chunk_bytes(work@)[q]
        },
{
    proof {
        lrc.lemma_wf_facts();
    }
    let ghost before = chunk_bytes(work@);
    let mut work = work;
    let k = lrc.data_count();
    let m = lrc.total_parity_count();
    let n = k + m;
    let mut unknowns: Vec<usize> = Vec::new();
    let mut i: usize = 0;
    while i < k
        invariant
            i <= k,
            k + m == n,
            lost@.len() == n,
            forall|j: int| 0 <= j < unknowns@.len() ==> #[trigger] unknowns@[j] < k && lost@[unknowns@[j] as int],
        decreases k - i,
    {
        if lost[i] {
            unknowns.push(i);
        }
        i = i + 1;
    }
    let mut rows: Vec<usize> = Vec::new();
    let mut r: usize = 0;
    while r < m
        invariant
            r <= m,
            k + m == n,
            src@.len() == n,
            lost@.len() == n,
            forall|j: int| 0 <= j < rows@.len() ==> #[trigger] rows@[j] < m,
        decreases m - r,
    {
        if src[k + r] {
            rows.push(r);
        }
        r = r + 1;
    }
    if rows.len() != unknowns.len() {
        return None;
    }
    let u = unknowns.len();
    let mut a: Vec<Vec<u8>> = Vec::new();
    let mut j: usize = 0;
    while j < u
        invariant
            lrc.wf(),
            k == lrc.k(),
            m == lrc.m(),
            j <= u,
            u == rows@.len(),
            u == unknowns@.len(),
            forall|q: int| 0 <= q < rows@.len() ==> #[trigger] rows@[q] < m,
            forall|q: int| 0 <= q < unknowns@.len() ==> #[trigger] unknowns@[q] < k,
            a@.len() == j,
            forall|q: int| 0 <= q < j ==> (#[trigger] a@[q])@.len() == u,
        decreases u - j,
    {
        let mut row: Vec<u8> = Vec::new();
        let mut l: usize = 0;
        while l < u
            invariant
                lrc.wf(),
                k == lrc.k(),
                m == lrc.m(),
                j < u,
                l <= u,
                u == rows@.len(),
                u == unknowns@.len(),
                forall|q: int| 0 <= q < rows@.len() ==> #[trigger] rows@[q] < m,
                forall|q: int| 0 <= q < unknowns@.len() ==> #[trigger] unknowns@[q] < k,
                row@.len() == l,
            decreases u - l,
        {
            row.push(lrc.coefficient(rows[j], unknowns[l]));
            l = l + 1;
        }
        a.push(row);
        j = j + 1;
    }
    let inv = match invert(a, u) {
        None => {
            return None;
        },
        Some(b) => b,
    };
    let mut l: usize = 0;
    while l < u
        invariant
            lrc.wf(),
            k == lrc.k(),
            m == lrc.m(),
            n == k + m,
            cs >= 1,
            l <= u,
            u == rows@.len(),
            u == unknowns@.len(),
            lost@.len() == n,
            forall|q: int| 0 <= q < rows@.len() ==> #[trigger] rows@[q] < m,
            forall|q: int| 0 <= q < unknowns@.len() ==> #[trigger] unknowns@[q] < k && lost@[unknowns@[q] as int],
            square(inv@, u as int),
            work@.len() == n,
            forall|q: int| 0 <= q < n ==> (#[trigger] work@[q])@.len() == cs,
            forall|q: int| 0 <= q < n && !lost@[q] ==> #[trigger] chunk_bytes(work@)[q] == before[q],
        decreases u - l,
    {
        let mut chunk: Vec<u8> = Vec::new();
        let mut c: usize = 0;
        while c < cs
            invariant
                lrc.wf(),
                k == lrc.k(),
                m == lrc.m(),
                n == k + m,
                l < u,
                c <= cs,
                u == rows@.len(),
                lost@.len() == n,
                forall|q: int| 0 <= q < rows@.len() ==> #[trigger] rows@[q] < m,
                square(inv@, u as int),
                work@.len() == n,
                forall|q: int| 0 <= q < n ==> (#[trigger] work@[q])@.len() == cs,
                chunk@.len() == c,
            decreases cs - c,
        {
            let mut x: u8 = 0;
            let mut j: usize = 0;
            while j < u
                invariant
                    lrc.wf(),
                    k == lrc.k(),
                    m == lrc.m(),
                    n == k + m,
                    l < u,
                    c < cs,
                    j <= u,
                    u == rows@.len(),
                    lost@.len() == n,
                    forall|q: int| 0 <= q < rows@.len() ==> #[trigger] rows@[q] < m,
                    square(inv@, u as int),
                    work@.len() == n,
                    forall|q: int| 0 <= q < n ==> (#[trigger] work@[q])@.len() == cs,
                decreases u - j,
            {
                let row = rows[j];
                let mut rhs: u8 = work[k + row][c];
                let mut d: usize = 0;
                while d < k
                    invariant
                        lrc.wf(),
                        k == lrc.k(),
                        m == lrc.m(),
                        n == k + m,
                        row < m,
                        c < cs,
                        d <= k,
                        lost@.len() == n,
                        work@.len() == n,
                        forall|q: int| 0 <= q < n ==> (#[trigger] work@[q])@.len() == cs,
                    decreases k - d,
                {
                    if !lost[d] {
                        rhs = rhs ^ gf_mul(work[d][c], lrc.coefficient(row, d));
                    }
                    d = d + 1;
                }
                x = x ^ gf_mul(rhs, inv[l][j]);
                j = j + 1;
            }
            chunk.push(x);
            c = c + 1;
        }
        let ghost prev = chunk_bytes(work@);
        work.set(unknowns[l], chunk);
        assert(chunk_bytes(work@) =~= prev.update(unknowns@[l as int] as int, chunk@));
        l = l + 1;
    }
    Some(work)
}

impl<'a> LrcBuf<'a> {
    /// The code this buffer belongs to.
    pub closed spec fn code(&self) -> Lrc {
        *self.lrc
    }

    /// Size in bytes of every chunk.
    pub closed spec fn size(&self) -> int {
        self.chunk_size as int
    }

    /// Contents of every chunk: data, then local parity, then global parity.
    pub closed spec fn chunks(&self) -> Seq<Seq<u8>> {
        chunk_bytes(self.chunks@)
    }

    pub closed spec fn wf(&self) -> bool {
        &&& self.lrc.wf()
        &&& self.chunk_size >= 1
        &&& self.chunks@.len() == self.lrc.n()
        &&& forall|i: int|
            0 <= i < self.chunks@.len() ==> (#[trigger] self.chunks@[i])@.len() == self.chunk_size
    }

    /// Shape facts of a well-formed buffer.
    pub proof fn lemma_shape(&self)
        requires
            self.wf(),
        ensures
            self.code().wf(),
            valid_shape(self.code().k(), self.code().g(), self.code().gp()),
            self.size() >= 1,
            self.chunks().len() == self.code().n(),
            forall|i: int| 0 <= i < self.code().n() ==> (#[trigger] self.chunks()[i]).len() == self.size(),
    {
        self.lrc.lemma_wf_facts();
    }

    /// Size in bytes of every chunk.
    pub fn chunk_size(&self) -> (r: usize)
        ensures
            r == self.size(),
    {
        self.chunk_size
    }

    /// All chunks after `bytes` are copied to the front of data chunk `index`.
    pub open spec fn with_data(&self, index: int, bytes: Seq<u8>) -> Seq<Seq<u8>> {
        self.chunks().update(index, bytes + self.chunks()[index].subrange(bytes.len() as int, self.size()))
    }

    /// Copies `bytes` to the front of data chunk `index`; the rest of the chunk is kept.
    pub fn set_data(&mut self, index: i32, bytes: &[u8]) -> (r: Result<(), LrcError>)
        requires
            old(self).wf(),
        ensures
            final(self).wf(),
            final(self).code() == old(self).code(),
            final(self).size() == old(self).size(),
            (index < 0 || index >= old(self).code().k()) ==> r == Err::<(), LrcError>(LrcError::LrcIndexOverflow),
            (0 <= index < old(self).code().k() && bytes@.len() > old(self).size()) ==> r == Err::<(), LrcError>(LrcError::LrcBufOverflow),
            (0 <= index < old(self).code().k() && bytes@.len() <= old(self).size()) ==> r is Ok,
            r is Ok ==> final(self).chunks() == old(self).with_data(index as int, bytes@),
            r is Err ==> final(self).chunks() == old(self).chunks(),
    {
        proof {
            self.lemma_shape();
        }
        if index < 0 || index as usize >= self.lrc.data_count() {
            return Err(LrcError::LrcIndexOverflow);
        }
        if bytes.len() > self.chunk_size {
            return Err(LrcError::LrcBufOverflow);
        }
        let i = index as usize;
        let mut chunk: Vec<u8> = Vec::new();
        let mut c: usize = 0;
        while c < self.chunk_size
            invariant
                self.wf(),
                i < self.chunks@.len(),
                bytes@.len() <= self.chunk_size,
                c <= self.chunk_size,
                chunk@ == (bytes@ + self.chunks()[i as int].subrange(bytes@.len() as int, self.size())).subrange(0, c as int),
            decreases self.chunk_size - c,
        {
            let b = if c < bytes.len() { bytes[c] } else { self.chunks[i][c] };
            chunk.push(b);
            c = c + 1;
        }
        assert(chunk@ =~= bytes@ + self.chunks()[i as int].subrange(bytes@.len() as int, self.size()));
        let ghost before = self.chunks();
        self.chunks.set(i, chunk);
        assert(self.chunks() =~= before.update(i as int, chunk@));
        Ok(())
    }

    /// Chunk `index`, counting data, then local parity, then global parity.
    pub fn get_chunk(&self, index: i32) -> (r: Result<&[u8], LrcError>)
        requires
            self.wf(),
        ensures
            (0 <= index < self.code().n()) ==> (r matches Ok(s) && s@ == self.chunks()[index as int]),
            !(0 <= index < self.code().n()) ==> r == Err::<&[u8], LrcError>(LrcError::LrcIndexOverflow),
    {
        if index < 0 || index as usize >= self.chunks.len() {
            return Err(LrcError::LrcIndexOverflow);
        }
        Ok(self.chunks[index as usize].as_slice())
    }

    /// Parity chunk `index`, counting local parity first, then global parity.
    pub fn get_code(&self, index: i32) -> (r: Result<&[u8], LrcError>)
        requires
            self.wf(),
        ensures
            (0 <= index < self.code().m()) ==> (r matches Ok(s) && s@ == self.chunks()[self.code().k() + index]),
            !(0 <= index < self.code().m()) ==> r == Err::<&[u8], LrcError>(LrcError::LrcIndexOverflow),
    {
        proof {
            self.lemma_shape();
        }
        let k = self.lrc.data_count();
        if index < 0 || index as usize >= self.chunks.len() - k {
            return Err(LrcError::LrcIndexOverflow);
        }
        Ok(self.chunks[k + index as usize].as_slice())
    }

    /// Recomputes every parity chunk from the data chunks; the data chunks are kept.
    pub fn encode(&mut self) -> (r: Result<(), LrcError>)
        requires
            old(self).wf(),
        ensures
            final(self).wf(),
            r is Ok,
            final(self).code() == old(self).code(),
            final(self).size() == old(self).size(),
            forall|i: int| 0 <= i < old(self).code().k() ==> #[trigger] final(self).chunks()[i] == old(self).chunks()[i],
            is_encoded(final(self).code(), final(self).chunks()),
    {
        proof {
            self.lemma_shape();
        }
        let k = self.lrc.data_count();
        let m = self.lrc.total_parity_count();
        let ghost data = self.chunks();
        let mut r: usize = 0;
        while r < m
            invariant
                self.wf(),
                k == self.lrc.k(),
                m == self.lrc.m(),
                r <= m,
                self.lrc == old(self).lrc,
                self.chunk_size == old(self).chunk_size,
                data == old(self).chunks(),
                data.len() == k + m,
                k + m <= 255,
                self.chunks().len() == k + m,
                forall|i: int| 0 <= i < k ==> #[trigger] self.chunks()[i] == data[i],
                forall|q: int, c: int|
                    0 <= q < r && 0 <= c < self.chunk_size ==> #[trigger] self.chunks()[k + q][c]
                        == row_sum(*self.lrc, q, data, k as int, c),
            decreases m - r,
        {
            let chunk = row_chunk(self.lrc, &self.chunks, r, self.chunk_size);
            proof {
                assert forall|c: int| 0 <= c < self.chunk_size implies row_sum(*self.lrc, r as int, self.chunks(), k as int, c)
                    == row_sum(*self.lrc, r as int, data, k as int, c) by {
                    lemma_row_sum_data(*self.lrc, r as int, self.chunks(), data, k as int, c);
                }
            }
            let ghost before = self.chunks();
            self.chunks.set(k + r, chunk);
            assert(self.chunks() =~= before.update(k + r, chunk@));
            r = r + 1;
        }
        proof {
            assert forall|q: int, c: int|
                0 <= q < m && 0 <= c < self.chunks()[k + q].len() implies #[trigger] self.chunks()[k + q][c]
                    == row_sum(*self.lrc, q, self.chunks(), k as int, c) by {
                lemma_row_sum_data(*self.lrc, q, self.chunks(), data, k as int, c);
            }
        }
        Ok(())
    }

    /// Rebuilds the chunks listed in `erased` from the sources that `get_source` names:
    /// lost data chunks by solving the selected parity rows, lost parity chunks from the
    /// data. Chunks that are neither lost nor sources are not read. On success the
    /// survivors are kept; on failure the buffer is unchanged. A loss within capacity that
    /// local parity repairs, with sources taken from an encoded codeword, always succeeds
    /// and restores that codeword's lost chunks exactly.
    #[verifier::loop_isolation(false)]
    pub fn decode(&mut self, erased: Vec<i32>) -> (r: Result<(), LrcError>)
        requires
            old(self).wf(),
        ensures
            final(self).wf(),
            final(self).code() == old(self).code(),
            final(self).size() == old(self).size(),
            !indices_valid(old(self).code().n(), erased@) <==> r == Err::<(), LrcError>(LrcError::LrcInvalidArgument),
            indices_valid(old(self).code().n(), erased@) && old(self).code().source_map(
                lost_map(old(self).code().n(), erased@),
            ) is None ==> r == Err::<(), LrcError>(LrcError::LrcUnrecoverable),
            indices_valid(old(self).code().n(), erased@) && count_true(
                lost_map(old(self).code().n(), erased@),
            ) > old(self).code().m() ==> r == Err::<(), LrcError>(LrcError::LrcUnrecoverable),
            r matches Err(e) ==> e == LrcError::LrcInvalidArgument || e == LrcError::LrcUnrecoverable,
            r is Err ==> final(self).chunks() == old(self).chunks(),
            r is Ok ==> indices_valid(old(self).code().n(), erased@),
            r is Ok ==> old(self).code().local_repairable(lost_map(old(self).code().n(), erased@))
                || (old(self).code().source_map(lost_map(old(self).code().n(), erased@)) matches Some(
                s,
            ) && selection_invertible(old(self).code(), lost_map(old(self).code().n(), erased@), s)),
            r is Ok ==> (old(self).code().source_map(
                lost_map(old(self).code().n(), erased@),
            ) matches Some(s) && {
                let lm = lost_map(old(self).code().n(), erased@);
                let k = old(self).code().k();
                &&& forall|i: int|
                    0 <= i < old(self).code().n() && !lm[i] ==> #[trigger] final(self).chunks()[i]
                        == old(self).chunks()[i]
                &&& forall|q: int, c: int|
                    0 <= q < old(self).code().m() && 0 <= c < old(self).size() && (lm[k + q] || s[k
                        + q]) ==> #[trigger] final(self).chunks()[k + q][c] == row_sum(
                        old(self).code(),
                        q,
                        final(self).chunks(),
                        k,
                        c,
                    )
            }),
            forall|w: Seq<Seq<u8>>|
                indices_valid(old(self).code().n(), erased@) && count_true(
                    lost_map(old(self).code().n(), erased@),
                ) <= old(self).code().m() && old(self).code().local_repairable(
                    lost_map(old(self).code().n(), erased@),
                ) && codeword_agrees(
                    old(self).code(),
                    old(self).size(),
                    w,
                    old(self).chunks(),
                    old(self).code().local_source(lost_map(old(self).code().n(), erased@)),
                ) ==> r is Ok && forall|i: int|
                    0 <= i < old(self).code().n() && lost_map(old(self).code().n(), erased@)[i]
                        ==> #[trigger] final(self).chunks()[i] == w[i],
    {
        proof {
            self.lemma_shape();
        }
        let lrc = self.lrc;
        let lost = match lrc.lost_vec(&erased) {
            Ok(v) => v,
            Err(e) => {
                return Err(e);
            },
        };
        let src = match lrc.solve(&lost) {
            None => {
                return Err(LrcError::LrcUnrecoverable);
            },
            Some(s) => s,
        };
        let k = lrc.data_count();
        let m = lrc.total_parity_count();
        let n = k + m;
        let cs = self.chunk_size;
        let ghost before = self.chunks();
        let ghost local_ok = count_true(lost@) <= lrc.m() && lrc.local_repairable(lost@);
        let mut work: Vec<Vec<u8>> = Vec::new();
        let mut i: usize = 0;
        while i < n
            invariant
                self.wf(),
                n == self.lrc.n(),
                before == self.chunks(),
                i <= n,
                work@.len() == i,
                forall|q: int| 0 <= q < i ==> #[trigger] chunk_bytes(work@)[q] == before[q],
                forall|q: int| 0 <= q < i ==> (#[trigger] work@[q])@.len() == cs,
            decreases n - i,
        {
            let c = copy_row(&self.chunks[i]);
            let ghost prev = chunk_bytes(work@);
            work.push(c);
            assert(chunk_bytes(work@) =~= prev.push(c@));
            i = i + 1;
        }
        assert(chunk_bytes(work@) =~= before);
        let dl = lrc.group_data_loss_counts(&lost);
        let work = if lrc.is_local(&lost, &dl) {
            local_fill(lrc, &lost, &src, work, cs)
        } else {
            if !selection_check(lrc, &lost, &src) {
                return Err(LrcError::LrcUnrecoverable);
            }
            match global_fill(lrc, &lost, &src, work, cs) {
                None => {
                    return Err(LrcError::LrcUnrecoverable);
                },
                Some(w) => w,
            }
        };
        let mut work = work;
        proof {
            assert forall|w: Seq<Seq<u8>>|
                local_ok && codeword_agrees(*lrc, cs as int, w, before, src@) implies forall|q: int|
                    0 <= q < k && (lost@[q] || src@[q]) ==> #[trigger] chunk_bytes(work@)[q] == w[q] by {
                assert forall|q: int| 0 <= q < k && (lost@[q] || src@[q]) implies #[trigger] chunk_bytes(work@)[q] == w[q] by {
                    if !lost@[q] {
                        assert(w[q] == before[q]);
                    }
                }
            }
        }
        let ghost data0 = chunk_bytes(work@);
        let mut r: usize = 0;
        while r < m
            invariant
                lrc.wf(),
                k == lrc.k(),
                m == lrc.m(),
                n == k + m,
                r <= m,
                lost@.len() == n,
                src@.len() == n,
                local_ok ==> src@ == lrc.local_source(lost@),
                work@.len() == n,
                forall|q: int| 0 <= q < n ==> (#[trigger] work@[q])@.len() == cs,
                forall|q: int| 0 <= q < n && !lost@[q] ==> #[trigger] chunk_bytes(work@)[q] == before[q],
                forall|q: int| 0 <= q < k ==> #[trigger] chunk_bytes(work@)[q] == data0[q],
                forall|q: int, c: int|
                    0 <= q < r && 0 <= c < cs && (lost@[k + q] || src@[k + q]) ==> #[trigger] chunk_bytes(
                        work@,
                    )[k + q][c] == row_sum(*lrc, q, chunk_bytes(work@), k as int, c),
                forall|w: Seq<Seq<u8>>|
                    local_ok && codeword_agrees(*lrc, cs as int, w, before, src@) ==> forall|q: int|
                        0 <= q < k && (lost@[q] || src@[q]) ==> #[trigger] chunk_bytes(work@)[q] == w[q],
                forall|w: Seq<Seq<u8>>|
                    local_ok && codeword_agrees(*lrc, cs as int, w, before, src@) ==> forall|q: int|
                        0 <= q < r && lost@[k + q] ==> #[trigger] chunk_bytes(work@)[k + q] == w[k + q],
            decreases m - r,
        {
            if lost[k + r] {
                let chunk = row_chunk(lrc, &work, r, cs);
                let ghost prev = chunk_bytes(work@);
                work.set(k + r, chunk);
                assert(chunk_bytes(work@) =~= prev.update(k + r, chunk@));
                proof {
                    assert forall|q: int, c: int| 0 <= q < m && 0 <= c < cs implies row_sum(*lrc, q, chunk_bytes(work@), k as int, c)
                        == row_sum(*lrc, q, prev, k as int, c) by {
                        lemma_row_sum_data(*lrc, q, chunk_bytes(work@), prev, k as int, c);
                    }
                    assert forall|w: Seq<Seq<u8>>|
                        local_ok && codeword_agrees(*lrc, cs as int, w, before, src@) implies chunk@ == w[k + r] by {
                        assert forall|c: int| 0 <= c < cs implies chunk@[c] == w[k + r][c] by {
                            assert(w[k + r][c] == row_sum(*lrc, r as int, w, k as int, c));
                            if r < lrc.g() {
                                lemma_group_hit(*lrc, lost@, r as int, k + r);
                                assert forall|i: int| 0 <= i < k && #[trigger] (i / lrc.cpg()) == r implies prev[i][c] == w[i][c] by {
                                    lemma_local_source_data(*lrc, lost@, i);
                                }
                                lemma_local_row_eq(*lrc, r as int, prev, w, c);
                            } else {
                                lemma_global_hit(*lrc, lost@, k + r);
                                assert forall|i: int| 0 <= i < k implies #[trigger] prev[i] == w[i] by {
                                    lemma_local_source_data(*lrc, lost@, i);
                                }
                                lemma_row_sum_data(*lrc, r as int, prev, w, k as int, c);
                            }
                        }
                        assert(chunk@ =~= w[k + r]);
                    }
                }
            } else if src[k + r] {
                let mut c: usize = 0;
                while c < cs
                    invariant
                        lrc.wf(),
                        k == lrc.k(),
                        m == lrc.m(),
                        n == k + m,
                        r < m,
                        c <= cs,
                        !lost@[k + r],
                        src@[k + r],
                        work@.len() == n,
                        forall|q: int| 0 <= q < n ==> (#[trigger] work@[q])@.len() == cs,
                        forall|x: int|
                            0 <= x < c ==> #[trigger] chunk_bytes(work@)[k + r][x] == row_sum(
                                *lrc,
                                r as int,
                                chunk_bytes(work@),
                                k as int,
                                x,
                            ),
                    decreases cs - c,
                {
                    let expected = row_byte(lrc, &work, r, c);
                    if work[k + r][c] != expected {
                        proof {
                            assert forall|w: Seq<Seq<u8>>|
                                !(local_ok && codeword_agrees(*lrc, cs as int, w, before, src@)) by {
                                if local_ok && codeword_agrees(*lrc, cs as int, w, before, src@) {
                                    let cur = chunk_bytes(work@);
                                    lrc.lemma_wf_facts();
                                    assert(lrc.local_source(lost@)[k + r]);
                                    assert(r < lrc.g());
                                    assert(lrc.group_losses(lost@, r as int) >= 1);
                                    assert forall|i: int| 0 <= i < k && #[trigger] (i / lrc.cpg()) == r implies cur[i][c as int] == w[i][c as int] by {
                                        lemma_local_source_data(*lrc, lost@, i);
                                    }
                                    lemma_local_row_eq(*lrc, r as int, cur, w, c as int);
                                    assert(expected == row_sum(*lrc, r as int, w, k as int, c as int));
                                    assert(w[k + r][c as int] == row_sum(*lrc, r as int, w, k as int, c as int));
                                    assert(w[k + r] == before[k + r]);
                                    assert(cur[k + r] == before[k + r]);
                                    assert(cur[k + r][c as int] == expected);
                                }
                            }
                        }
                        return Err(LrcError::LrcUnrecoverable);
                    }
                    c = c + 1;
                }
            }
            r = r + 1;
        }
        self.chunks = work;
        proof {
            assert(self.chunks() == chunk_bytes(work@));
            assert(lost@ == lost_map(n as int, erased@));
            assert forall|w: Seq<Seq<u8>>|
                local_ok && codeword_agrees(*lrc, cs as int, w, before, src@) implies forall|i: int|
                    0 <= i < n && lost@[i] ==> #[trigger] self.chunks()[i] == w[i] by {
                assert forall|i: int| 0 <= i < n && lost@[i] implies #[trigger] self.chunks()[i] == w[i] by {
                    if i >= k {
                        assert(chunk_bytes(work@)[k + (i - k)] == w[k + (i - k)]);
                    }
                }
            }
        }
        Ok(())
    }
}

} // verus!
