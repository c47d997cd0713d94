//! Sparse-matrix primitives: identity construction, triplet iteration,
//! row gather and block-diagonal replication against an identity.
//!
//! A matrix is an immutable-once-built list of `(row, col, value)` triplets
//! held in strict column-major order (all of column 0 before column 1, and
//! rows ascending within a column), together with its dimensions.  The value
//! component is an opaque 64-bit word that the index logic carries unchanged.

use vstd::prelude::*;

verus! {

broadcast use vstd::seq_lib::group_to_multiset_ensures;

/// One stored nonzero: `(row, col, value word)`.
pub type Triplet = (u64, u64, u64);

/// The value word of the scalar one (the IEEE 754 double-precision bit
/// pattern of one); `eye` fills its diagonal with it.
pub const ONE_WORD: u64 = 0x3FF0_0000_0000_0000;

/// Strict column-major order: `a` is stored before `b`.
pub open spec fn tri_before(a: Triplet, b: Triplet) -> bool {
    a.1 < b.1 || (a.1 == b.1 && a.0 < b.0)
}

/// Adjacent entries are in strict column-major order (hence all `(row, col)`
/// positions are distinct).
pub open spec fn sorted_triplets(s: Seq<Triplet>) -> bool {
    forall|i: int| 0 < i < s.len() ==> tri_before(s[i - 1], #[trigger] s[i])
}

/// Every triplet's indices lie inside an `nrows` by `ncols` matrix.
pub open spec fn triplets_in_range(s: Seq<Triplet>, nrows: u64, ncols: u64) -> bool {
    forall|i: int| 0 <= i < s.len() ==> (#[trigger] s[i]).0 < nrows && s[i].1 < ncols
}

/// No two triplets address the same `(row, col)` position.
pub open spec fn no_duplicate_positions(s: Seq<Triplet>) -> bool {
    forall|i: int, j: int|
        0 <= i < j < s.len() ==> !((#[trigger] s[i]).0 == (#[trigger] s[j]).0 && s[i].1 == s[j].1)
}

/// The inputs from which a matrix can be built: in-range indices and no
/// conflicting duplicate positions.
pub open spec fn can_build(nrows: u64, ncols: u64, s: Seq<Triplet>) -> bool {
    triplets_in_range(s, nrows, ncols) && no_duplicate_positions(s)
}

/// A construction error: the triplet data handed to a matrix constructor
/// cannot form a matrix.  It is always surfaced to the caller; nothing is
/// silently clipped or repaired.
#[derive(Debug)]
pub enum MatrixError {
    /// A row or column index lies outside the requested dimensions.
    OutOfRange,
    /// Two triplets address the same `(row, col)` position.
    Duplicate,
}

/// An immutable-once-built column-major sparse matrix.
pub struct SparseMatrix {
    pub nrows: u64,
    pub ncols: u64,
    /// The stored nonzeros, in strict column-major order.
    pub entries: Vec<Triplet>,
}

impl SparseMatrix {
    /// Well-formedness: entries in range and in strict column-major order.
    pub open spec fn wf(self) -> bool {
        triplets_in_range(self.entries@, self.nrows, self.ncols) && sorted_triplets(self.entries@)
    }

    /// The number of stored nonzeros.
    pub open spec fn nnz(self) -> nat {
        self.entries@.len()
    }

    /// Whether `t` is one of the stored triplets.
    pub open spec fn has_triplet(self, t: Triplet) -> bool {
        self.entries@.contains(t)
    }
}

/// Adjacent ordering extends to any two positions.
pub proof fn lemma_sorted_pairwise(s: Seq<Triplet>)
    requires
        sorted_triplets(s),
    ensures
        forall|i: int, j: int| 0 <= i < j < s.len() ==> tri_before(#[trigger] s[i], #[trigger] s[j]),
{
    assert forall|i: int, j: int| 0 <= i < j < s.len() implies tri_before(#[trigger] s[i], #[trigger] s[j]) by {
        lemma_sorted_step(s, i, j);
    }
}

proof fn lemma_sorted_step(s: Seq<Triplet>, i: int, j: int)
    requires
        sorted_triplets(s),
        0 <= i < j < s.len(),
    ensures
        tri_before(s[i], s[j]),
    decreases j - i,
{
    if i + 1 < j {
        lemma_sorted_step(s, i, j - 1);
    }
}

/// A well-formed matrix stores at most one value per position, and every
/// stored triplet is in range.
pub proof fn lemma_triplet_bounds(a: SparseMatrix, t: Triplet)
    requires
        a.wf(),
        a.has_triplet(t),
    ensures
        t.0 < a.nrows,
        t.1 < a.ncols,
{
    let i = choose|i: int| 0 <= i < a.entries@.len() && a.entries@[i] == t;
    assert(a.entries@[i].0 < a.nrows);
}

/// Builds the `n` by `n` identity: exactly `n` nonzeros, one per column,
/// the diagonal filled with the value word of one.
pub fn eye(n: u64) -> (r: SparseMatrix)
    ensures
        r.wf(),
        r.nrows == n,
        r.ncols == n,
        r.nnz() == n,
        forall|i: int| 0 <= i < n ==> r.entries@[i] == (i as u64, i as u64, ONE_WORD),
{
    let mut entries: Vec<Triplet> = Vec::new();
    let mut i: u64 = 0;
    while i < n
        invariant
            i <= n,
            entries@.len() == i,
            forall|k: int| 0 <= k < i ==> entries@[k] == (k as u64, k as u64, ONE_WORD),
        decreases n - i,
    {
        entries.push((i, i, ONE_WORD));
        i = i + 1;
    }
    SparseMatrix { nrows: n, ncols: n, entries }
}

/// Re-emits the stored triplets in column-major order.  The sequence is
/// re-derived from the matrix and carries no separate state.
pub fn to_triplets_iter(a: &SparseMatrix) -> (r: Vec<Triplet>)
    ensures
        r@ == a.entries@,
{
    let mut r: Vec<Triplet> = Vec::new();
    let mut i: usize = 0;
    while i < a.entries.len()
        invariant
            i <= a.entries@.len(),
            r@ == a.entries@.subrange(0, i as int),
        decreases a.entries@.len() - i,
    {
        r.push(a.entries[i]);
        i = i + 1;
    }
    assert(r@ =~= a.entries@);
    r
}

/// Looks up the value word stored at `(row, col)`, scanning the triplets.
fn get_entry(a: &SparseMatrix, row: u64, col: u64) -> (res: Option<u64>)
    ensures
        match res {
            Some(v) => a.has_triplet((row, col, v)),
            None => forall|v: u64| !a.has_triplet((row, col, v)),
        },
{
    let mut i: usize = 0;
    while i < a.entries.len()
        invariant
            i <= a.entries@.len(),
            forall|k: int|
                0 <= k < i ==> !((#[trigger] a.entries@[k]).0 == row && a.entries@[k].1 == col),
        decreases a.entries@.len() - i,
    {
        let t = a.entries[i];
        if t.0 == row && t.1 == col {
            assert(a.entries@[i as int] == (row, col, t.2));
            return Some(t.2);
        }
        i = i + 1;
    }
    assert forall|v: u64| !a.has_triplet((row, col, v)) by {
        if a.entries@.contains((row, col, v)) {
            let k = choose|k: int| 0 <= k < a.entries@.len() && a.entries@[k] == (row, col, v);
            assert(!(a.entries@[k].0 == row && a.entries@[k].1 == col));
        }
    }
    None
}

/// Whether every requested row index lies inside `a`.
pub open spec fn select_ok(a: SparseMatrix, rows: Seq<u64>) -> bool {
    forall|i: int| 0 <= i < rows.len() ==> #[trigger] rows[i] < a.nrows
}

/// Row gather: builds the matrix whose row `i` equals `a`'s row `rows[i]`,
/// in the order `rows` is given; repeats and non-monotonic orders are legal.
/// Fails with a construction error when a requested row is out of range.
pub fn select_rows(a: &SparseMatrix, rows: &Vec<u64>) -> (res: Result<SparseMatrix, MatrixError>)
    requires
        a.wf(),
        rows@.len() <= u64::MAX,
    ensures
        match res {
            Ok(m) => {
                &&& select_ok(*a, rows@)
                &&& m.wf()
                &&& m.nrows == rows@.len()
                &&& m.ncols == a.ncols
                &&& forall|i: u64, j: u64, v: u64|
                    m.has_triplet((i, j, v)) <==> i < rows@.len() && a.has_triplet(
                        (rows@[i as int], j, v),
                    )
            },
            Err(e) => !select_ok(*a, rows@) && e == MatrixError::OutOfRange,
        },
{
    let mut i: usize = 0;
    while i < rows.len()
        invariant
            i <= rows@.len(),
            forall|k: int| 0 <= k < i ==> #[trigger] rows@[k] < a.nrows,
        decreases rows@.len() - i,
    {
        if rows[i] >= a.nrows {
            return Err(MatrixError::OutOfRange);
        }
        i = i + 1;
    }

    let nrows_out: u64 = rows.len() as u64;
    let mut entries: Vec<Triplet> = Vec::new();
    let mut j: u64 = 0;
    while j < a.ncols
        invariant
            a.wf(),
            select_ok(*a, rows@),
            rows@.len() == nrows_out,
            nrows_out <= u64::MAX,
            j <= a.ncols,
            triplets_in_range(entries@, nrows_out, a.ncols),
            sorted_triplets(entries@),
            forall|k: int| 0 <= k < entries@.len() ==> (#[trigger] entries@[k]).1 < j,
            forall|i2: u64, j2: u64, v: u64|
                entries@.contains((i2, j2, v)) <==> i2 < rows@.len() && j2 < j && a.has_triplet(
                    (rows@[i2 as int], j2, v),
                ),
        decreases a.ncols - j,
    {
        let mut i: usize = 0;
        while i < rows.len()
            invariant
                a.wf(),
                select_ok(*a, rows@),
                rows@.len() == nrows_out,
                nrows_out <= u64::MAX,
                j < a.ncols,
                i <= rows@.len(),
                triplets_in_range(entries@, nrows_out, a.ncols),
                sorted_triplets(entries@),
                forall|k: int|
                    0 <= k < entries@.len() ==> (#[trigger] entries@[k]).1 < j || (
                    entries@[k].1 == j && entries@[k].0 < i),
                forall|i2: u64, j2: u64, v: u64|
                    entries@.contains((i2, j2, v)) <==> i2 < rows@.len() && a.has_triplet(
                        (rows@[i2 as int], j2, v),
                    ) && (j2 < j || (j2 == j && i2 < i)),
            decreases rows@.len() - i,
        {
            match get_entry(a, rows[i], j) {
                Some(v) => {
                    let ghost pre = entries@;
                    entries.push((i as u64, j, v));
                    proof {
                        assert forall|i2: u64, j2: u64, v2: u64|
                            entries@.contains((i2, j2, v2)) <==> i2 < rows@.len() && a.has_triplet(
                                (rows@[i2 as int], j2, v2),
                            ) && (j2 < j || (j2 == j && i2 < i + 1)) by {
                            if entries@.contains((i2, j2, v2)) {
                                let k = choose|k: int|
                                    0 <= k < entries@.len() && entries@[k] == (i2, j2, v2);
                                if k < pre.len() {
                                    assert(pre.contains((i2, j2, v2)));
                                }
                            }
                            if i2 < rows@.len() && a.has_triplet((rows@[i2 as int], j2, v2)) && (j2
                                < j || (j2 == j && i2 < i + 1)) {
                                if j2 < j || (j2 == j && i2 < i) {
                                    assert(pre.contains((i2, j2, v2)));
                                    let k = choose|k: int|
                                        0 <= k < pre.len() && pre[k] == (i2, j2, v2);
                                    assert(entries@[k] == (i2, j2, v2));
                                } else {
                                    // the just-pushed triplet: positions are unique in `a`
                                    assert(i2 == i && j2 == j);
                                    lemma_sorted_pairwise(a.entries@);
                                    let k1 = choose|k: int|
                                        0 <= k < a.entries@.len() && a.entries@[k] == (
                                        rows@[i2 as int],
                                        j2,
                                        v2,
                                        );
                                    let k2 = choose|k: int|
                                        0 <= k < a.entries@.len() && a.entries@[k] == (
                                        rows@[i as int],
                                        j,
                                        v,
                                        );
                                    assert(k1 == k2);
                                    assert(entries@.last() == (i as u64, j, v));
                                }
                            }
                        }
                    }
                },
                None => {
                    proof {
                        assert forall|i2: u64, j2: u64, v2: u64|
                            entries@.contains((i2, j2, v2)) <==> i2 < rows@.len() && a.has_triplet(
                                (rows@[i2 as int], j2, v2),
                            ) && (j2 < j || (j2 == j && i2 < i + 1)) by {
                            if i2 < rows@.len() && a.has_triplet((rows@[i2 as int], j2, v2)) && (j2
                                < j || (j2 == j && i2 < i + 1)) && !(j2 < j || (j2 == j && i2
                                < i)) {
                                assert(i2 == i && j2 == j);
                                assert(!a.has_triplet((rows@[i as int], j, v2)));
                            }
                        }
                    }
                },
            }
            i = i + 1;
        }
        j = j + 1;
    }
    let m = SparseMatrix { nrows: nrows_out, ncols: a.ncols, entries };
    proof {
        assert forall|i2: u64, j2: u64, v: u64|
            m.has_triplet((i2, j2, v)) <==> i2 < rows@.len() && a.has_triplet(
                (rows@[i2 as int], j2, v),
            ) by {
            if i2 < rows@.len() && a.has_triplet((rows@[i2 as int], j2, v)) {
                lemma_triplet_bounds(*a, (rows@[i2 as int], j2, v));
            }
        }
    }
    Ok(m)
}

/// In strict column-major order no two entries share a position.
pub proof fn lemma_sorted_no_duplicates(s: Seq<Triplet>)
    requires
        sorted_triplets(s),
    ensures
        no_duplicate_positions(s),
{
    lemma_sorted_pairwise(s);
}

/// General constructor: builds a matrix from triplets given in any order.
/// Succeeds exactly when every index is in range and no two triplets address
/// the same position; the stored entries are then the input re-emitted in
/// strict column-major order (the input itself, when it already is sorted).
#[verifier::loop_isolation(false)]
pub fn try_new_from_triplets(nrows: u64, ncols: u64, triplets: &Vec<Triplet>) -> (res: Result<
    SparseMatrix,
    MatrixError,
>)
    ensures
        match res {
            Ok(m) => {
                &&& can_build(nrows, ncols, triplets@)
                &&& m.wf()
                &&& m.nrows == nrows
                &&& m.ncols == ncols
                &&& m.entries@.to_multiset() == triplets@.to_multiset()
                &&& (sorted_triplets(triplets@) ==> m.entries@ == triplets@)
            },
            Err(MatrixError::OutOfRange) => !triplets_in_range(triplets@, nrows, ncols),
            Err(MatrixError::Duplicate) => triplets_in_range(triplets@, nrows, ncols)
                && !no_duplicate_positions(triplets@),
        },
{
    let mut i: usize = 0;
    while i < triplets.len()
        invariant
            i <= triplets@.len(),
            forall|k: int|
                0 <= k < i ==> (#[trigger] triplets@[k]).0 < nrows && triplets@[k].1 < ncols,
        decreases triplets@.len() - i,
    {
        let t = triplets[i];
        if t.0 >= nrows || t.1 >= ncols {
            proof {
                assert(triplets@[i as int] == t);
            }
            return Err(MatrixError::OutOfRange);
        }
        i = i + 1;
    }

    let mut out: Vec<Triplet> = Vec::new();
    let mut n: usize = 0;
    while n < triplets.len()
        invariant
            n <= triplets@.len(),
            triplets_in_range(triplets@, nrows, ncols),
            triplets_in_range(out@, nrows, ncols),
            sorted_triplets(out@),
            out@.to_multiset() == triplets@.subrange(0, n as int).to_multiset(),
            no_duplicate_positions(triplets@.subrange(0, n as int)),
            sorted_triplets(triplets@) ==> out@ == triplets@.subrange(0, n as int),
        decreases triplets@.len() - n,
    {
        let t = triplets[n];
        let ghost prefix = triplets@.subrange(0, n as int);
        let mut k: usize = out.len();
        #[verifier::loop_isolation(true)]
        loop
            invariant
                triplets_in_range(triplets@, nrows, ncols),
                n < triplets@.len(),
                t == triplets@[n as int],
                prefix == triplets@.subrange(0, n as int),
                out@.to_multiset() == prefix.to_multiset(),
                k <= out@.len(),
                sorted_triplets(out@),
                forall|m: int| k <= m < out@.len() ==> tri_before(t, #[trigger] out@[m]),
            ensures
                k <= out@.len(),
                forall|m: int| k <= m < out@.len() ==> tri_before(t, #[trigger] out@[m]),
                k > 0 ==> tri_before(out@[k - 1], t),
                forall|m: int|
                    0 <= m < out@.len() ==> !((#[trigger] out@[m]).0 == t.0 && out@[m].1 == t.1),
            decreases k,
        {
            if k == 0 {
                break ;
            }
            let prev = out[k - 1];
            if prev.0 == t.0 && prev.1 == t.1 {
                // a conflicting duplicate: `prev` also came from the input
                proof {
                    assert(out@[k - 1] == prev);
                    assert(out@.contains(prev));
                    assert(out@.to_multiset().contains(prev));
                    assert(prefix.to_multiset().contains(prev));
                    assert(prefix.contains(prev));
                    let p = choose|p: int| 0 <= p < prefix.len() && prefix[p] == prev;
                    assert(triplets@[p] == prev);
                    assert(triplets@[n as int] == t);
                    assert(!no_duplicate_positions(triplets@));
                }
                return Err(MatrixError::Duplicate);
            }
            if t.1 < prev.1 || (t.1 == prev.1 && t.0 < prev.0) {
                k = k - 1;
            } else {
                proof {
                    lemma_sorted_pairwise(out@);
                    assert(tri_before(out@[k - 1], t));
                    assert forall|m: int|
                        0 <= m < out@.len() implies !((#[trigger] out@[m]).0 == t.0 && out@[m].1
                        == t.1) by {
                        if m < k - 1 {
                            assert(tri_before(out@[m], out@[k - 1]));
                        }
                    }
                }
                break ;
            }
        }
        let ghost pre = out@;
        out.insert(k, t);
        proof {
            assert(out@ == pre.insert(k as int, t));
            // order is kept on both sides of the insertion point
            assert forall|m: int| 0 < m < out@.len() implies tri_before(
                out@[m - 1],
                #[trigger] out@[m],
            ) by {
                if m < k {
                    assert(out@[m - 1] == pre[m - 1] && out@[m] == pre[m]);
                } else if m == k {
                    assert(out@[m - 1] == pre[m - 1] && out@[m] == t);
                } else if m == k + 1 {
                    assert(out@[m - 1] == t && out@[m] == pre[m - 1]);
                } else {
                    assert(out@[m - 1] == pre[m - 2] && out@[m] == pre[m - 1]);
                }
            }
            assert(triplets@.subrange(0, n + 1) =~= prefix.push(t));
            assert(out@.to_multiset() == triplets@.subrange(0, n + 1).to_multiset());
            // the extended prefix still has no duplicate positions
            assert forall|p: int, q: int| 0 <= p < q < n + 1 implies !((#[trigger] triplets@[p]).0
                == (#[trigger] triplets@[q]).0 && triplets@[p].1 == triplets@[q].1) by {
                if q == n {
                    assert(prefix[p] == triplets@[p]);
                    assert(prefix.contains(triplets@[p]));
                    assert(prefix.to_multiset().contains(triplets@[p]));
                    assert(pre.to_multiset().contains(triplets@[p]));
                    assert(pre.contains(triplets@[p]));
                    let m = choose|m: int| 0 <= m < pre.len() && pre[m] == triplets@[p];
                    assert(!(pre[m].0 == t.0 && pre[m].1 == t.1));
                } else {
                    assert(prefix[p] == triplets@[p] && prefix[q] == triplets@[q]);
                }
            }
            if sorted_triplets(triplets@) {
                // sorted input goes in at the end, so the output tracks it
                if k < pre.len() {
                    assert(tri_before(t, pre[k as int]));
                    assert(pre[k as int] == triplets@[k as int]);
                    lemma_sorted_pairwise(triplets@);
                    assert(tri_before(triplets@[k as int], triplets@[n as int]));
                    assert(false);
                }
                assert(out@ =~= pre.push(t));
                assert(out@ =~= triplets@.subrange(0, n + 1));
            }
        }
        n = n + 1;
    }
    proof {
        assert(triplets@.subrange(0, triplets@.len() as int) =~= triplets@);
    }
    Ok(SparseMatrix { nrows, ncols, entries: out })
}

/// Direct constructor for buffers assembled incrementally in column-major
/// order: no re-sorting, no validation pass; the caller proves both.
pub fn from_sorted_triplets(nrows: u64, ncols: u64, entries: Vec<Triplet>) -> (r: SparseMatrix)
    requires
        sorted_triplets(entries@),
        triplets_in_range(entries@, nrows, ncols),
    ensures
        r.wf(),
        r.nrows == nrows,
        r.ncols == ncols,
        r.entries == entries,
{
    SparseMatrix { nrows, ncols, entries }
}

/// `t` shifted down by `dr` rows and right by `dc` columns.
pub open spec fn shift_triplet(t: Triplet, dr: u64, dc: u64) -> Triplet {
    (((t.0 + dr) as u64), ((t.1 + dc) as u64), t.2)
}

/// Every triplet of `s` shifted by `(dr, dc)`.
pub open spec fn shifted_triplets(s: Seq<Triplet>, dr: u64, dc: u64) -> Seq<Triplet> {
    s.map_values(|t: Triplet| shift_triplet(t, dr, dc))
}

/// The triplets of the block-diagonal replication of `a`, replicate-major:
/// copy `r` is `a`'s triplet list shifted by `(r * nrows, r * ncols)`.
pub open spec fn kron_entries(reps: u64, a: SparseMatrix) -> Seq<Triplet>
    decreases reps,
{
    if reps == 0 {
        Seq::empty()
    } else {
        kron_entries((reps - 1) as u64, a) + shifted_triplets(
            a.entries@,
            ((reps - 1) * a.nrows) as u64,
            ((reps - 1) * a.ncols) as u64,
        )
    }
}

/// Shape of the replicated triplet list: its length, each element by index,
/// strict column-major order, and index ranges.
pub proof fn lemma_kron_properties(reps: u64, a: SparseMatrix)
    requires
        a.wf(),
        reps * a.nrows <= u64::MAX,
        reps * a.ncols <= u64::MAX,
    ensures
        kron_entries(reps, a).len() == reps * a.nnz(),
        forall|r: int, k: int|
            0 <= r < reps && 0 <= k < a.nnz() ==> kron_entries(reps, a)[r * a.nnz() + k]
                == #[trigger] shift_triplet(
                a.entries@[k],
                (r * a.nrows) as u64,
                (r * a.ncols) as u64,
            ),
        sorted_triplets(kron_entries(reps, a)),
        triplets_in_range(kron_entries(reps, a), (reps * a.nrows) as u64, (reps * a.ncols) as u64),
    decreases reps,
{
    if reps == 0 {
    } else {
        let prev = (reps - 1) as u64;
        assert(prev * a.nrows <= reps * a.nrows && prev * a.ncols <= reps * a.ncols) by (nonlinear_arith)
            requires prev < reps, prev == reps - 1;
        lemma_kron_properties(prev, a);
        let whole = kron_entries(reps, a);
        let old_part = kron_entries(prev, a);
        let block = shifted_triplets(a.entries@, (prev * a.nrows) as u64, (prev * a.ncols) as u64);
        let nnz = a.nnz() as int;
        assert(old_part.len() == prev * nnz);
        assert(whole.len() == prev * nnz + nnz);
        assert(whole.len() == reps * nnz) by (nonlinear_arith)
            requires whole.len() == prev * nnz + nnz, prev == reps - 1;

        assert(prev * a.nrows + a.nrows == reps * a.nrows) by (nonlinear_arith)
            requires prev == reps - 1;
        assert(prev * a.ncols + a.ncols == reps * a.ncols) by (nonlinear_arith)
            requires prev == reps - 1;

        assert forall|r: int, k: int| 0 <= r < reps && 0 <= k < nnz implies whole[r * nnz + k]
            == #[trigger] shift_triplet(
            a.entries@[k],
            (r * a.nrows) as u64,
            (r * a.ncols) as u64,
        ) by {
            if r < prev {
                assert(0 <= r * nnz + k < prev * nnz) by (nonlinear_arith)
                    requires 0 <= r < prev, 0 <= k < nnz;
                assert(whole[r * nnz + k] == old_part[r * nnz + k]);
            } else {
                assert(r == prev);
                assert(r * nnz + k - old_part.len() == k);
                assert(whole[r * nnz + k] == block[k]);
            }
        }

        assert forall|i: int| 0 <= i < whole.len() implies (#[trigger] whole[i]).0 < (reps
            * a.nrows) as u64 && whole[i].1 < (reps * a.ncols) as u64 by {
            if i < old_part.len() {
                assert(whole[i] == old_part[i]);
                assert(old_part[i].0 < (prev * a.nrows) as u64 && old_part[i].1 < (prev
                    * a.ncols) as u64);
            } else {
                let k = i - old_part.len();
                assert(whole[i] == block[k]);
                assert(block[k] == shift_triplet(
                    a.entries@[k],
                    (prev * a.nrows) as u64,
                    (prev * a.ncols) as u64,
                ));
                assert(a.entries@[k].0 < a.nrows && a.entries@[k].1 < a.ncols);
            }
        }

        assert forall|i: int| 0 < i < whole.len() implies tri_before(
            whole[i - 1],
            #[trigger] whole[i],
        ) by {
            if i < old_part.len() {
                assert(whole[i - 1] == old_part[i - 1] && whole[i] == old_part[i]);
            } else if i == old_part.len() {
                // boundary: every column of the earlier copies lies strictly
                // below the new copy's column range
                assert(whole[i] == block[0]);
                assert(whole[i - 1] == old_part[i - 1]);
                assert(old_part[i - 1].1 < (prev * a.ncols) as u64);
                assert(block[0] == shift_triplet(
                    a.entries@[0],
                    (prev * a.nrows) as u64,
                    (prev * a.ncols) as u64,
                ));
            } else {
                let k = i - old_part.len();
                assert(whole[i - 1] == block[k - 1] && whole[i] == block[k]);
                assert(tri_before(a.entries@[k - 1], a.entries@[k]));
                assert(block[k - 1] == shift_triplet(
                    a.entries@[k - 1],
                    (prev * a.nrows) as u64,
                    (prev * a.ncols) as u64,
                ));
                assert(block[k] == shift_triplet(
                    a.entries@[k],
                    (prev * a.nrows) as u64,
                    (prev * a.ncols) as u64,
                ));
            }
        }
    }
}

/// Law: a single replication is a no-op — the replicated triplet list is
/// exactly the original matrix's triplet list.
pub proof fn lemma_identity_kron_single(a: SparseMatrix)
    requires
        a.wf(),
    ensures
        kron_entries(1, a) == a.entries@,
{
    assert(kron_entries(0, a) == Seq::<Triplet>::empty());
    assert(kron_entries(1, a) == kron_entries(0, a) + shifted_triplets(
        a.entries@,
        ((1 - 1) * a.nrows) as u64,
        ((1 - 1) * a.ncols) as u64,
    ));
    let zero = shifted_triplets(a.entries@, 0, 0);
    assert(kron_entries(1, a) =~= zero);
    assert forall|i: int| 0 <= i < zero.len() implies zero[i] == a.entries@[i] by {
        assert(zero[i] == shift_triplet(a.entries@[i], 0, 0));
        let t = a.entries@[i];
        assert(shift_triplet(t, 0, 0) == ((t.0 + 0) as u64, (t.1 + 0) as u64, t.2));
    }
    assert(zero =~= a.entries@);
}

/// Law: replicate `r` of the block-diagonal replication is the original
/// triplet list, every entry shifted by `(r * nrows, r * ncols)`; there are
/// `reps * nnz` triplets in all.
pub proof fn lemma_identity_kron_blocks(reps: u64, a: SparseMatrix, r: u64)
    requires
        a.wf(),
        r < reps,
        reps * a.nrows <= u64::MAX,
        reps * a.ncols <= u64::MAX,
    ensures
        kron_entries(reps, a).len() == reps * a.nnz(),
        kron_entries(reps, a).subrange(
            r * a.nnz() as int,
            (r + 1) * a.nnz() as int,
        ) == shifted_triplets(a.entries@, (r * a.nrows) as u64, (r * a.ncols) as u64),
{
    lemma_kron_properties(reps, a);
    let nnz = a.nnz() as int;
    assert(0 <= r * nnz && (r + 1) * nnz <= reps * nnz) by (nonlinear_arith)
        requires 0 <= r < reps, nnz >= 0;
    let sub = kron_entries(reps, a).subrange(r * nnz, (r + 1) * nnz);
    assert((r + 1) * nnz - r * nnz == nnz) by (nonlinear_arith);
    assert forall|k: int| 0 <= k < nnz implies sub[k] == shift_triplet(
        a.entries@[k],
        (r * a.nrows) as u64,
        (r * a.ncols) as u64,
    ) by {
        assert(sub[k] == kron_entries(reps, a)[r * nnz + k]);
    }
    assert(sub =~= shifted_triplets(a.entries@, (r * a.nrows) as u64, (r * a.ncols) as u64));
}

/// Block-diagonal replication of `lhs` against a `reps` by `reps` identity,
/// by the generic path: a single replication hands `lhs` back untouched;
/// otherwise the shifted triplets are gathered replicate-major and rebuilt
/// through the general constructor.  The result is pinned to the same
/// sequence `kron_entries` as the direct path `identity_kron2` builds.
pub fn identity_kron(reps: u64, lhs: SparseMatrix) -> (r: SparseMatrix)
    requires
        lhs.wf(),
        reps * lhs.nrows <= u64::MAX,
        reps * lhs.ncols <= u64::MAX,
    ensures
        r.wf(),
        r.nrows == reps * lhs.nrows,
        r.ncols == reps * lhs.ncols,
        r.entries@ == kron_entries(reps, lhs),
{
    if reps == 1 {
        proof {
            lemma_identity_kron_single(lhs);
        }
        lhs
    } else {
        let triplets = build_kron_triplets(reps, &lhs);
        proof {
            lemma_kron_properties(reps, lhs);
            lemma_sorted_no_duplicates(kron_entries(reps, lhs));
        }
        match try_new_from_triplets(reps * lhs.nrows, reps * lhs.ncols, &triplets) {
            Ok(m) => m,
            Err(_) => {
                proof {
                    assert(false);
                }
                vstd::pervasive::unreached()
            },
        }
    }
}

/// Block-diagonal replication by the direct path: the buffer of shifted
/// triplets is assembled incrementally, replicate-major then column-major,
/// and installed without re-sorting.  The result is pinned to the same
/// sequence `kron_entries` as the generic path `identity_kron` builds.
pub fn identity_kron2(reps: u64, a: SparseMatrix) -> (r: SparseMatrix)
    requires
        a.wf(),
        reps * a.nrows <= u64::MAX,
        reps * a.ncols <= u64::MAX,
    ensures
        r.wf(),
        r.nrows == reps * a.nrows,
        r.ncols == reps * a.ncols,
        r.entries@ == kron_entries(reps, a),
{
    let entries = build_kron_triplets(reps, &a);
    proof {
        lemma_kron_properties(reps, a);
    }
    from_sorted_triplets(reps * a.nrows, reps * a.ncols, entries)
}

/// Gathers the shifted triplets of every replicate, replicate-major.
#[verifier::loop_isolation(false)]
fn build_kron_triplets(reps: u64, a: &SparseMatrix) -> (r: Vec<Triplet>)
    requires
        a.wf(),
        reps * a.nrows <= u64::MAX,
        reps * a.ncols <= u64::MAX,
    ensures
        r@ == kron_entries(reps, *a),
{
    let mut triplets: Vec<Triplet> = Vec::new();
    let mut rep: u64 = 0;
    while rep < reps
        invariant
            a.wf(),
            reps * a.nrows <= u64::MAX,
            reps * a.ncols <= u64::MAX,
            rep <= reps,
            triplets@ == kron_entries(rep, *a),
        decreases reps - rep,
    {
        proof {
            assert(rep * a.nrows + a.nrows <= reps * a.nrows && rep * a.ncols + a.ncols <= reps
                * a.ncols) by (nonlinear_arith)
                requires rep < reps, a.nrows >= 0, a.ncols >= 0;
        }
        let dr = rep * a.nrows;
        let dc = rep * a.ncols;
        let mut k: usize = 0;
        while k < a.entries.len()
            invariant
                a.wf(),
                dr == rep * a.nrows,
                dc == rep * a.ncols,
                dr + a.nrows <= u64::MAX,
                dc + a.ncols <= u64::MAX,
                k <= a.entries@.len(),
                triplets@ == kron_entries(rep, *a) + shifted_triplets(
                    a.entries@.subrange(0, k as int),
                    dr,
                    dc,
                ),
            decreases a.entries@.len() - k,
        {
            let t = a.entries[k];
            triplets.push((t.0 + dr, t.1 + dc, t.2));
            proof {
                assert(a.entries@.subrange(0, k + 1) =~= a.entries@.subrange(0, k as int).push(t));
                assert(shifted_triplets(a.entries@.subrange(0, k + 1), dr, dc) =~= shifted_triplets(
                    a.entries@.subrange(0, k as int),
                    dr,
                    dc,
                ).push(shift_triplet(t, dr, dc)));
                assert(triplets@ =~= kron_entries(rep, *a) + shifted_triplets(
                    a.entries@.subrange(0, k + 1),
                    dr,
                    dc,
                ));
            }
            k = k + 1;
        }
        proof {
            assert(a.entries@.subrange(0, a.entries@.len() as int) =~= a.entries@);
            assert(kron_entries((rep + 1) as u64, *a) == kron_entries(rep, *a) + shifted_triplets(
                a.entries@,
                (rep * a.nrows) as u64,
                (rep * a.ncols) as u64,
            ));
        }
        rep = rep + 1;
    }
    triplets
}

} // verus!
