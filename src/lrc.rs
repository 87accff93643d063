//! Local reconstruction code: topology, coefficient rows and the erasure solver.
use vstd::prelude::*;
use crate::buf::{selection_check, selection_invertible};
use crate::error::LrcError;
use crate::gf::{gf_exp, gf_exp_spec, gf_pow, gf_pow_spec};

verus! {

/// Largest number of chunks (data and parity) that one code can have. Each data chunk
/// needs its own nonzero power of x in GF(2^8), of which there are 255.
pub const MAX_CHUNKS: usize = 255;

/// Parameters accepted by `Lrc::new`.
pub open spec fn valid_shape(data_cnt: int, group_cnt: int, global_cnt: int) -> bool {
    &&& 0 < data_cnt
    &&& 0 < group_cnt
    &&& 0 <= global_cnt
    &&& data_cnt % group_cnt == 0
    &&& data_cnt + group_cnt + global_cnt <= MAX_CHUNKS
}

/// Coefficient of data chunk `i` in parity row `r`: row `r < g` is the local parity of
/// group `r` (ones on that group's data chunks), row `g + j` is global parity `j`, whose
/// coefficient on data chunk `i` is (x^i)^(j+1).
pub open spec fn coef_spec(g: int, cpg: int, r: int, i: int) -> u8 {
    if r < g {
        if i / cpg == r {
            1
        } else {
            0
        }
    } else {
        gf_pow_spec(gf_exp_spec(i as nat), (r - g + 1) as nat)
    }
}

/// Number of `true` entries.
pub open spec fn count_true(s: Seq<bool>) -> nat
    decreases s.len(),
{
    if s.len() == 0 {
        0
    } else {
        count_true(s.drop_last()) + if s.last() {
            1nat
        } else {
            0nat
        }
    }
}

/// A sequence with a `true` at `a` counts at least one; with `true` at two distinct
/// positions, at least two.
pub proof fn lemma_count_at_least(s: Seq<bool>, a: int, b: int)
    requires
        0 <= a < s.len(),
        0 <= b < s.len(),
        s[a],
        s[b],
    ensures
        count_true(s) >= 1,
        a != b ==> count_true(s) >= 2,
    decreases s.len(),
{
    let t = s.drop_last();
    let last = s.len() - 1;
    if a < last && b < last {
        lemma_count_at_least(t, a, b);
    } else if a < last {
        lemma_count_at_least(t, a, a);
    } else if b < last {
        lemma_count_at_least(t, b, b);
    }
}

/// The positions holding `true`, in increasing order.
pub open spec fn indices_of(s: Seq<bool>) -> Seq<i32>
    decreases s.len(),
{
    if s.len() == 0 {
        Seq::empty()
    } else if s.last() {
        indices_of(s.drop_last()).push((s.len() - 1) as i32)
    } else {
        indices_of(s.drop_last())
    }
}

/// The positions that `indices_of` lists lie inside the sequence, and there are at most
/// as many as its length.
pub proof fn lemma_indices_bounds(s: Seq<bool>)
    requires
        s.len() <= MAX_CHUNKS,
    ensures
        indices_of(s).len() <= s.len(),
        forall|j: int| 0 <= j < indices_of(s).len() ==> 0 <= #[trigger] indices_of(s)[j] < s.len(),
    decreases s.len(),
{
    if s.len() > 0 {
        lemma_indices_bounds(s.drop_last());
        let t = indices_of(s.drop_last());
        if s.last() {
            assert(indices_of(s) == t.push((s.len() - 1) as i32));
        }
    }
}

/// Every index of `e` names a chunk of an `n`-chunk code.
pub open spec fn indices_valid(n: int, e: Seq<i32>) -> bool {
    forall|j: int| 0 <= j < e.len() ==> 0 <= #[trigger] e[j] < n
}

/// Chunk `i` is lost exactly when `e` lists it.
pub open spec fn lost_map(n: int, e: Seq<i32>) -> Seq<bool> {
    Seq::new(n as nat, |i: int| e.contains(i as i32))
}

/// Number of `true` entries of `v` in `[lo, hi)`.
pub fn count_range(v: &Vec<bool>, lo: usize, hi: usize) -> (r: usize)
    requires
        lo <= hi <= v@.len(),
    ensures
        r == count_true(v@.subrange(lo as int, hi as int)),
        r <= hi - lo,
{
    let mut cnt: usize = 0;
    let mut i: usize = lo;
    while i < hi
        invariant
            lo <= i <= hi <= v@.len(),
            cnt == count_true(v@.subrange(lo as int, i as int)),
            cnt <= i - lo,
        decreases hi - i,
    {
        assert(v@.subrange(lo as int, i + 1).drop_last() =~= v@.subrange(lo as int, i as int));
        if v[i] {
            cnt = cnt + 1;
        }
        i = i + 1;
    }
    cnt
}

/// The positions of `s` that hold `true`, in increasing order.
pub fn true_indices(s: &Vec<bool>) -> (r: Vec<i32>)
    requires
        s@.len() <= MAX_CHUNKS,
    ensures
        r@ == indices_of(s@),
{
    let mut out: Vec<i32> = Vec::new();
    let mut i: usize = 0;
    while i < s.len()
        invariant
            i <= s@.len() <= MAX_CHUNKS,
            out@ == indices_of(s@.subrange(0, i as int)),
        decreases s@.len() - i,
    {
        assert(s@.subrange(0, i + 1).drop_last() =~= s@.subrange(0, i as int));
        if s[i] {
            out.push(i as i32);
        }
        i = i + 1;
    }
    assert(s@.subrange(0, s@.len() as int) =~= s@);
    out
}

/// Group `gi` spans data chunks `[gi * cpg, gi * cpg + cpg)`, inside `[0, k)`.
pub proof fn lemma_group_range(k: int, g: int, cpg: int, gi: int)
    requires
        0 < g,
        0 < k,
        k % g == 0,
        cpg == k / g,
        0 <= gi < g,
    ensures
        0 <= gi * cpg,
        gi * cpg + cpg <= k,
{
    assert(0 <= gi * cpg && gi * cpg + cpg <= k) by (nonlinear_arith)
        requires
            0 < g,
            0 < k,
            k % g == 0,
            cpg == k / g,
            0 <= gi < g,
    ;
}

/// Group layout and parity rows of one code.
pub struct Lrc {
    k: usize,
    g: usize,
    gp: usize,
    matrix: Vec<Vec<u8>>,
}

impl Lrc {
    /// The solver is deterministic: erasure lists naming the same chunks, in any order
    /// and with any repetition, get the same answer.
    pub proof fn lemma_source_deterministic(&self, e1: Seq<i32>, e2: Seq<i32>)
        requires
            forall|x: i32| e1.contains(x) <==> e2.contains(x),
        ensures
            self.source_result(e1) == self.source_result(e2),
    {
        assert(indices_valid(self.n(), e1) <==> indices_valid(self.n(), e2)) by {
            if indices_valid(self.n(), e1) {
                assert forall|j: int| 0 <= j < e2.len() implies 0 <= #[trigger] e2[j] < self.n() by {
                    assert(e2.contains(e2[j]));
                    let q = choose|q: int| 0 <= q < e1.len() && e1[q] == e2[j];
                    assert(e1[q] == e2[j]);
                }
            }
            if indices_valid(self.n(), e2) {
                assert forall|j: int| 0 <= j < e1.len() implies 0 <= #[trigger] e1[j] < self.n() by {
                    assert(e1.contains(e1[j]));
                    let q = choose|q: int| 0 <= q < e2.len() && e2[q] == e1[j];
                    assert(e2[q] == e1[j]);
                }
            }
        }
        assert(lost_map(self.n(), e1) =~= lost_map(self.n(), e2));
    }

    /// Number of data chunks.
    pub closed spec fn k(&self) -> int {
        self.k as int
    }

    /// Number of local groups, which is also the number of local parity chunks.
    pub closed spec fn g(&self) -> int {
        self.g as int
    }

    /// Number of global parity chunks.
    pub closed spec fn gp(&self) -> int {
        self.gp as int
    }

    pub open spec fn cpg(&self) -> int {
        self.k() / self.g()
    }

    pub open spec fn m(&self) -> int {
        self.g() + self.gp()
    }

    pub open spec fn n(&self) -> int {
        self.k() + self.m()
    }

    pub open spec fn coef(&self, r: int, i: int) -> u8 {
        coef_spec(self.g(), self.cpg(), r, i)
    }

    pub closed spec fn wf(&self) -> bool {
        &&& valid_shape(self.k(), self.g(), self.gp())
        &&& self.matrix@.len() == self.m()
        &&& forall|r: int|
            0 <= r < self.m() ==> {
                &&& (#[trigger] self.matrix@[r])@.len() == self.k()
                &&& forall|i: int| 0 <= i < self.k() ==> self.matrix@[r]@[i] == self.coef(r, i)
            }
    }

    /// Number of lost data chunks in group `gi`.
    pub open spec fn group_data_losses(&self, lost: Seq<bool>, gi: int) -> nat {
        count_true(lost.subrange(gi * self.cpg(), gi * self.cpg() + self.cpg()))
    }

    /// Number of lost members of group `gi`: its data chunks and its local parity.
    pub open spec fn group_losses(&self, lost: Seq<bool>, gi: int) -> nat {
        self.group_data_losses(lost, gi) + if lost[self.k() + gi] {
            1nat
        } else {
            0nat
        }
    }

    /// Each group has at most one lost member, so local parities suffice.
    pub open spec fn local_repairable(&self, lost: Seq<bool>) -> bool {
        forall|gi: int| 0 <= gi < self.g() ==> #[trigger] self.group_losses(lost, gi) <= 1
    }

    /// Some global parity chunk is lost.
    pub open spec fn global_lost(&self, lost: Seq<bool>) -> bool {
        count_true(lost.subrange(self.k() + self.g(), self.n())) > 0
    }

    /// Local-only sources: the survivors of each group that lost a member, and all
    /// surviving data when a global parity is lost.
    pub open spec fn local_source(&self, lost: Seq<bool>) -> Seq<bool> {
        Seq::new(
            self.n() as nat,
            |i: int|
                if i < self.k() {
                    !lost[i] && (self.group_losses(lost, i / self.cpg()) >= 1 || self.global_lost(
                        lost,
                    ))
                } else if i < self.k() + self.g() {
                    !lost[i] && self.group_losses(lost, i - self.k()) >= 1
                } else {
                    false
                },
        )
    }

    /// Parity row `r` may serve a global reconstruction: it survives, and a local row
    /// only for a group that lost data.
    pub open spec fn candidate(&self, lost: Seq<bool>, r: int) -> bool {
        !lost[self.k() + r] && (r < self.g() ==> self.group_data_losses(lost, r) >= 1)
    }

    pub open spec fn candidates(&self, lost: Seq<bool>) -> Seq<bool> {
        Seq::new(self.m() as nat, |r: int| self.candidate(lost, r))
    }

    /// Number of lost data chunks.
    pub open spec fn lost_data(&self, lost: Seq<bool>) -> nat {
        count_true(lost.subrange(0, self.k()))
    }

    /// Global sources: all surviving data, and the first candidate rows, as many as
    /// there are lost data chunks.
    pub open spec fn global_source(&self, lost: Seq<bool>) -> Seq<bool> {
        Seq::new(
            self.n() as nat,
            |i: int|
                !lost[i] && (i < self.k() || (self.candidate(lost, i - self.k()) && count_true(
                    self.candidates(lost).subrange(0, i - self.k()),
                ) < self.lost_data(lost))),
        )
    }

    /// The solver: which surviving chunks rebuild the lost ones, or none when the
    /// loss exceeds the code's capacity.
    pub open spec fn source_map(&self, lost: Seq<bool>) -> Option<Seq<bool>> {
        if count_true(lost) > self.m() {
            None
        } else if self.local_repairable(lost) {
            Some(self.local_source(lost))
        } else if count_true(self.candidates(lost)) < self.lost_data(lost) {
            None
        } else {
            Some(self.global_source(lost))
        }
    }

    /// What `get_source` returns for the erasure list `e`.
    pub open spec fn source_result(&self, e: Seq<i32>) -> Result<Seq<i32>, LrcError> {
        if !indices_valid(self.n(), e) {
            Err(LrcError::LrcInvalidArgument)
        } else {
            match self.source_map(lost_map(self.n(), e)) {
                None => Err(LrcError::LrcUnrecoverable),
                Some(s) => Ok(indices_of(s)),
            }
        }
    }

    fn coef_at(g: usize, cpg: usize, r: usize, i: usize) -> (c: u8)
        requires
            0 < cpg,
            i < MAX_CHUNKS,
            r < MAX_CHUNKS,
        ensures
            c == coef_spec(g as int, cpg as int, r as int, i as int),
    {
        if r < g {
            if i / cpg == r {
                1
            } else {
                0
            }
        } else {
            gf_pow(gf_exp(i), r - g + 1)
        }
    }

    /// Builds the code for `data_cnt` data chunks in `group_cnt` equal groups with
    /// `global_cnt` global parity chunks.
    pub fn new(data_cnt: i32, group_cnt: i32, global_cnt: i32) -> (r: Result<Self, LrcError>)
        ensures
            r is Ok <==> valid_shape(data_cnt as int, group_cnt as int, global_cnt as int),
            r matches Ok(l) ==> {
                &&& l.wf()
                &&& l.k() == data_cnt
                &&& l.g() == group_cnt
                &&& l.gp() == global_cnt
            },
            r matches Err(e) ==> e == LrcError::LrcInvalidArgument,
    {
        if data_cnt <= 0 || group_cnt <= 0 || global_cnt < 0 || data_cnt % group_cnt != 0 {
            return Err(LrcError::LrcInvalidArgument);
        }
        if data_cnt as i64 + group_cnt as i64 + global_cnt as i64 > MAX_CHUNKS as i64 {
            return Err(LrcError::LrcInvalidArgument);
        }
        let k = data_cnt as usize;
        let g = group_cnt as usize;
        let gp = global_cnt as usize;
        let cpg = k / g;
        assert(cpg > 0) by (nonlinear_arith)
            requires
                cpg == k / g,
                0 < g,
                0 < k,
                k % g == 0,
        ;
        let m = g + gp;
        let mut matrix: Vec<Vec<u8>> = Vec::new();
        let mut r: usize = 0;
        while r < m
            invariant
                r <= m,
                m == g + gp,
                k + m <= MAX_CHUNKS,
                0 < cpg,
                cpg == k / g,
                matrix@.len() == r,
                forall|q: int|
                    0 <= q < r ==> {
                        &&& (#[trigger] matrix@[q])@.len() == k
                        &&& forall|i: int|
                            0 <= i < k ==> matrix@[q]@[i] == coef_spec(
                                g as int,
                                cpg as int,
                                q,
                                i,
                            )
                    },
            decreases m - r,
        {
            let mut row: Vec<u8> = Vec::new();
            let mut i: usize = 0;
            while i < k
                invariant
                    i <= k,
                    r < m,
                    k + m <= MAX_CHUNKS,
                    0 < cpg,
                    row@.len() == i,
                    forall|j: int|
                        0 <= j < i ==> row@[j] == coef_spec(g as int, cpg as int, r as int, j),
                decreases k - i,
            {
                row.push(Self::coef_at(g, cpg, r, i));
                i = i + 1;
            }
            matrix.push(row);
            r = r + 1;
        }
        Ok(Lrc { k, g, gp, matrix })
    }

    /// Facts that follow from well-formedness: groups are non-empty and evenly sized,
    /// and every data chunk falls in a group.
    pub proof fn lemma_wf_facts(&self)
        requires
            self.wf(),
        ensures
            valid_shape(self.k(), self.g(), self.gp()),
            0 < self.cpg(),
            self.k() == self.g() * self.cpg(),
            self.n() <= MAX_CHUNKS,
            forall|i: int| 0 <= i < self.k() ==> 0 <= #[trigger] (i / self.cpg()) < self.g(),
            forall|i: int|
                0 <= i < self.k() ==> (i / self.cpg()) * self.cpg() <= i < (#[trigger] (i
                    / self.cpg())) * self.cpg() + self.cpg(),
    {
        let k = self.k();
        let g = self.g();
        let cpg = self.cpg();
        assert(0 < cpg && k == g * cpg) by (nonlinear_arith)
            requires
                0 < g,
                0 < k,
                k % g == 0,
                cpg == k / g,
        ;
        assert forall|i: int| 0 <= i < k implies 0 <= #[trigger] (i / cpg) < g && (i / cpg) * cpg
            <= i < (i / cpg) * cpg + cpg by {
            assert(0 <= i / cpg < g) by (nonlinear_arith)
                requires
                    0 <= i < k,
                    k == g * cpg,
                    0 < cpg,
            ;
            assert((i / cpg) * cpg <= i < (i / cpg) * cpg + cpg) by (nonlinear_arith)
                requires
                    0 <= i,
                    0 < cpg,
            ;
        }
    }

    /// Marks the chunks that `erased` lists, or rejects an index outside the code.
    pub(crate) fn lost_vec(&self, erased: &Vec<i32>) -> (r: Result<Vec<bool>, LrcError>)
        requires
            self.wf(),
        ensures
            r is Err <==> !indices_valid(self.n(), erased@),
            r matches Err(e) ==> e == LrcError::LrcInvalidArgument,
            r matches Ok(v) ==> v@ == lost_map(self.n(), erased@),
    {
        proof {
            self.lemma_wf_facts();
        }
        let n = self.k + self.g + self.gp;
        let mut j: usize = 0;
        while j < erased.len()
            invariant
                n == self.n(),
                n <= MAX_CHUNKS,
                j <= erased@.len(),
                forall|q: int| 0 <= q < j ==> 0 <= #[trigger] erased@[q] < n,
            decreases erased@.len() - j,
        {
            if erased[j] < 0 || erased[j] as i64 >= n as i64 {
                assert(!(0 <= erased@[j as int] < n));
                return Err(LrcError::LrcInvalidArgument);
            }
            j = j + 1;
        }
        let mut lost: Vec<bool> = Vec::new();
        let mut i: usize = 0;
        while i < n
            invariant
                n == self.n(),
                n <= MAX_CHUNKS,
                i <= n,
                lost@.len() == i,
                forall|q: int| 0 <= q < i ==> #[trigger] lost@[q] == erased@.contains(q as i32),
            decreases n - i,
        {
            let mut hit = false;
            let mut j: usize = 0;
            while j < erased.len()
                invariant
                    i < n <= MAX_CHUNKS,
                    j <= erased@.len(),
                    hit <==> exists|q: int| 0 <= q < j && erased@[q] == i as i32,
                decreases erased@.len() - j,
            {
                if erased[j] == i as i32 {
                    hit = true;
                }
                j = j + 1;
            }
            lost.push(hit);
            i = i + 1;
        }
        assert(lost@ =~= lost_map(self.n(), erased@));
        Ok(lost)
    }

    /// Number of lost data chunks of each group.
    pub(crate) fn group_data_loss_counts(&self, lost: &Vec<bool>) -> (r: Vec<usize>)
        requires
            self.wf(),
            lost@.len() == self.n(),
        ensures
            r@.len() == self.g(),
            forall|gi: int| 0 <= gi < self.g() ==> #[trigger] r@[gi] == self.group_data_losses(lost@, gi),
            forall|gi: int| 0 <= gi < self.g() ==> #[trigger] r@[gi] <= self.cpg(),
    {
        proof {
            self.lemma_wf_facts();
        }
        let cpg = self.k / self.g;
        let mut out: Vec<usize> = Vec::new();
        let mut gi: usize = 0;
        while gi < self.g
            invariant
                self.wf(),
                lost@.len() == self.n(),
                cpg == self.cpg(),
                gi <= self.g,
                out@.len() == gi,
                forall|q: int| 0 <= q < gi ==> #[trigger] out@[q] == self.group_data_losses(lost@, q),
                forall|q: int| 0 <= q < gi ==> #[trigger] out@[q] <= cpg,
            decreases self.g - gi,
        {
            proof {
                lemma_group_range(self.k(), self.g(), cpg as int, gi as int);
            }
            let lo = gi * cpg;
            out.push(count_range(lost, lo, lo + cpg));
            gi = gi + 1;
        }
        out
    }

    /// Whether each group lost at most one member, given the per-group data losses.
    pub(crate) fn is_local(&self, lost: &Vec<bool>, dl: &Vec<usize>) -> (r: bool)
        requires
            self.wf(),
            lost@.len() == self.n(),
            dl@.len() == self.g(),
            forall|q: int| 0 <= q < self.g() ==> #[trigger] dl@[q] == self.group_data_losses(lost@, q),
            forall|q: int| 0 <= q < self.g() ==> #[trigger] dl@[q] <= self.cpg(),
        ensures
            r == self.local_repairable(lost@),
    {
        proof {
            self.lemma_wf_facts();
        }
        let k = self.k;
        let g = self.g;
        let mut local = true;
        let mut gi: usize = 0;
        while gi < g
            invariant
                self.wf(),
                self.n() <= MAX_CHUNKS,
                0 < self.cpg(),
                lost@.len() == self.n(),
                k == self.k(),
                g == self.g(),
                gi <= g,
                dl@.len() == g,
                forall|q: int| 0 <= q < g ==> #[trigger] dl@[q] == self.group_data_losses(lost@, q),
                forall|q: int| 0 <= q < g ==> #[trigger] dl@[q] <= self.cpg(),
                local <==> forall|q: int| 0 <= q < gi ==> #[trigger] self.group_losses(lost@, q) <= 1,
            decreases g - gi,
        {
            let here: usize = if lost[k + gi] { dl[gi] + 1 } else { dl[gi] };
            assert(here == self.group_losses(lost@, gi as int));
            if here > 1 {
                local = false;
            }
            gi = gi + 1;
        }
        local
    }

    /// The solver over a loss map; see `source_map`.
    pub(crate) fn solve(&self, lost: &Vec<bool>) -> (r: Option<Vec<bool>>)
        requires
            self.wf(),
            lost@.len() == self.n(),
        ensures
            match self.source_map(lost@) {
                None => r is None,
                Some(s) => r matches Some(v) && v@ == s,
            },
    {
        proof {
            self.lemma_wf_facts();
        }
        let k = self.k;
        let g = self.g;
        let m = self.g + self.gp;
        let n = k + m;
        let cpg = k / g;
        if count_range(lost, 0, n) > m {
            assert(lost@.subrange(0, n as int) =~= lost@);
            return None;
        }
        assert(lost@.subrange(0, n as int) =~= lost@);
        let dl = self.group_data_loss_counts(lost);
        let local = self.is_local(lost, &dl);
        if local {
            let gl = count_range(lost, k + g, n) > 0;
            let mut src: Vec<bool> = Vec::new();
            let mut i: usize = 0;
            while i < n
                invariant
                    self.wf(),
                    lost@.len() == self.n(),
                    k == self.k(),
                    g == self.g(),
                    n == self.n(),
                    cpg == self.cpg(),
                    0 < cpg,
                    i <= n,
                    dl@.len() == g,
                    forall|q: int| 0 <= q < g ==> #[trigger] dl@[q] == self.group_data_losses(lost@, q),
                    forall|q: int| 0 <= q < g ==> #[trigger] dl@[q] <= self.cpg(),
                    gl == self.global_lost(lost@),
                    src@.len() == i,
                    forall|q: int| 0 <= q < i ==> #[trigger] src@[q] == self.local_source(lost@)[q],
                decreases n - i,
            {
                let b = if i < k {
                    let gq = i / cpg;
                    proof {
                        self.lemma_wf_facts();
                        assert(0 <= (i as int) / self.cpg() < self.g());
                    }
                    let losses: usize = if lost[k + gq] { dl[gq] + 1 } else { dl[gq] };
                    !lost[i] && (losses >= 1 || gl)
                } else if i < k + g {
                    let losses: usize = if lost[i] { dl[i - k] + 1 } else { dl[i - k] };
                    !lost[i] && losses >= 1
                } else {
                    false
                };
                src.push(b);
                i = i + 1;
            }
            assert(src@ =~= self.local_source(lost@));
            return Some(src);
        }
        let lost_data = count_range(lost, 0, k);
        let mut cands: Vec<bool> = Vec::new();
        let mut r: usize = 0;
        while r < m
            invariant
                self.wf(),
                lost@.len() == self.n(),
                k == self.k(),
                g == self.g(),
                m == self.m(),
                r <= m,
                dl@.len() == g,
                forall|q: int| 0 <= q < g ==> #[trigger] dl@[q] == self.group_data_losses(lost@, q),
                cands@.len() == r,
                forall|q: int| 0 <= q < r ==> #[trigger] cands@[q] == self.candidate(lost@, q),
            decreases m - r,
        {
            cands.push(!lost[k + r] && (r >= g || dl[r] >= 1));
            r = r + 1;
        }
        assert(cands@ =~= self.candidates(lost@));
        assert(cands@.subrange(0, m as int) =~= cands@);
        if count_range(&cands, 0, m) < lost_data {
            return None;
        }
        let mut src: Vec<bool> = Vec::new();
        let mut i: usize = 0;
        while i < k
            invariant
                lost@.len() == self.n(),
                k == self.k(),
                i <= k,
                src@.len() == i,
                forall|q: int| 0 <= q < i ==> #[trigger] src@[q] == self.global_source(lost@)[q],
            decreases k - i,
        {
            src.push(!lost[i]);
            i = i + 1;
        }
        let mut before: usize = 0;
        let mut r: usize = 0;
        while r < m
            invariant
                lost@.len() == self.n(),
                k == self.k(),
                m == self.m(),
                r <= m,
                cands@ == self.candidates(lost@),
                lost_data == self.lost_data(lost@),
                before == count_true(cands@.subrange(0, r as int)),
                before <= r,
                src@.len() == k + r,
                forall|q: int| 0 <= q < k + r ==> #[trigger] src@[q] == self.global_source(lost@)[q],
            decreases m - r,
        {
            assert(cands@.subrange(0, r + 1).drop_last() =~= cands@.subrange(0, r as int));
            src.push(cands[r] && before < lost_data);
            if cands[r] {
                before = before + 1;
            }
            r = r + 1;
        }
        assert(src@ =~= self.global_source(lost@));
        Some(src)
    }

    /// Number of data chunks.
    pub fn data_count(&self) -> (r: usize)
        ensures
            r == self.k(),
    {
        self.k
    }

    /// Number of local groups.
    pub fn group_count(&self) -> (r: usize)
        ensures
            r == self.g(),
    {
        self.g
    }

    /// Number of global parity chunks.
    pub fn global_parity_count(&self) -> (r: usize)
        ensures
            r == self.gp(),
    {
        self.gp
    }

    /// Number of data chunks in each group.
    pub fn chunks_per_group(&self) -> (r: usize)
        requires
            self.wf(),
        ensures
            r == self.cpg(),
    {
        self.k / self.g
    }

    /// Number of local parity chunks: one per group.
    pub fn local_parity_count(&self) -> (r: usize)
        ensures
            r == self.g(),
    {
        self.g
    }

    /// Number of parity chunks, local and global.
    pub fn total_parity_count(&self) -> (r: usize)
        requires
            self.wf(),
        ensures
            r == self.m(),
    {
        self.g + self.gp
    }

    /// Number of chunks, data and parity.
    pub fn total_chunk_count(&self) -> (r: usize)
        requires
            self.wf(),
        ensures
            r == self.n(),
    {
        self.k + self.g + self.gp
    }

    /// Coefficient of data chunk `i` in parity row `r`.
    pub fn coefficient(&self, r: usize, i: usize) -> (c: u8)
        requires
            self.wf(),
            r < self.m(),
            i < self.k(),
        ensures
            c == self.coef(r as int, i as int),
    {
        self.matrix[r][i]
    }

    /// The surviving chunks that rebuild the chunks listed in `erased`, in increasing
    /// order.
    pub fn get_source(&self, erased: &Vec<i32>) -> (r: Result<Vec<i32>, LrcError>)
        requires
            self.wf(),
        ensures
            match self.source_result(erased@) {
                Ok(s) => (r matches Ok(v) && v@ == s) || r == Err::<Vec<i32>, LrcError>(
                    LrcError::LrcUnrecoverable,
                ),
                Err(e) => r == Err::<Vec<i32>, LrcError>(e),
            },
            indices_valid(self.n(), erased@) && count_true(lost_map(self.n(), erased@)) <= self.m()
                && self.local_repairable(lost_map(self.n(), erased@)) ==> r is Ok,
            r is Ok ==> self.local_repairable(lost_map(self.n(), erased@)) || (self.source_map(
                lost_map(self.n(), erased@),
            ) matches Some(src) && selection_invertible(*self, lost_map(self.n(), erased@), src)),
    {
        let lost = match self.lost_vec(erased) {
            Ok(v) => v,
            Err(e) => {
                return Err(e);
            },
        };
        match self.solve(&lost) {
            None => Err(LrcError::LrcUnrecoverable),
            Some(src) => {
                proof {
                    self.lemma_wf_facts();
                }
                let dl = self.group_data_loss_counts(&lost);
                if !self.is_local(&lost, &dl) && !selection_check(self, &lost, &src) {
                    return Err(LrcError::LrcUnrecoverable);
                }
                let out = true_indices(&src);
                Ok(out)
            },
        }
    }
}

} // verus!
