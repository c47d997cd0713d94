//! The per-expression view: a container of sparse coefficient matrices keyed
//! by (variable, parameter), read-only offset bookkeeping shared across one
//! compilation pass, and the flattening of the stored matrices into one flat
//! coordinate-list tensor.

use crate::sparse::SparseMatrix;
use crate::sparse::Triplet;
use crate::tensor_representation::combined_quads;
use crate::tensor_representation::quads_of;
use crate::tensor_representation::Quad;
use crate::tensor_representation::TensorRepresentation;
use std::collections::HashMap;
use vstd::prelude::*;
use vstd::view::View as _;

verus! {

broadcast use vstd::std_specs::hash::group_hash_axioms;

/// Integer-keyed lookup table for offset bookkeeping; looking up an unknown
/// key is a caller bug.
pub type IdxMap = HashMap<i64, i64>;

/// Looks a key up in an offset table.  The key must be present: an unknown
/// key is a caller bug, not a recoverable condition.
pub fn idx_lookup(m: &IdxMap, k: i64) -> (r: i64)
    requires
        m@.contains_key(k),
    ensures
        r == m@[k],
{
    match m.get(&k) {
        Some(v) => *v,
        None => vstd::pervasive::unreached(),
    }
}

/// Immutable offset ledger computed once per compilation pass; every view of
/// the pass reads it, none mutates it.
pub struct ViewContext {
    /// Maps variable id to the first global column of its entries.
    pub id_to_col: IdxMap,
    /// Maps parameter id to the number of scalar instances it ranges over.
    pub param_to_size: IdxMap,
    /// Maps parameter id to the first parameter slot of its instances.
    pub param_to_col: IdxMap,
    /// Total number of parameter slots, plus one.
    pub param_size_plus_one: i64,
    /// Total number of columns across all variables.
    pub var_length: i64,
}

/// Nested association list: variable id to parameter id to coefficient
/// matrix.  Keys are unique and kept in ascending order at both levels, so
/// iteration is deterministic (ascending by `(variable, parameter)`).
pub struct Tensor {
    pub entries: Vec<(i64, Vec<(i64, SparseMatrix)>)>,
}

impl Tensor {
    /// Keys strictly ascending at both levels.
    pub open spec fn wf(self) -> bool {
        (forall|i: int|
            0 < i < self.entries@.len() ==> (#[trigger] self.entries@[i]).0 > self.entries@[i
                - 1].0) && (forall|i: int, j: int|
            0 <= i < self.entries@.len() && 0 < j < self.entries@[i].1@.len() ==> (
            #[trigger] self.entries@[i].1@[j]).0 > self.entries@[i].1@[j - 1].0)
    }

    /// The set of (variable, parameter) keys that hold a matrix.
    pub open spec fn keys(self) -> Set<(i64, i64)> {
        Set::new(
            |vk: (i64, i64)|
                exists|i: int, j: int|
                    0 <= i < self.entries@.len() && 0 <= j < self.entries@[i].1@.len()
                        && self.entries@[i].0 == vk.0 && (#[trigger] self.entries@[i].1@[j]).0
                        == vk.1,
        )
    }

    /// An empty tensor.
    pub fn new() -> (r: Tensor)
        ensures
            r.entries@.len() == 0,
            r.wf(),
    {
        Tensor { entries: Vec::new() }
    }
}

/// The error of the cross-variable accumulation path, which is an open
/// design question: it fails with a distinct signal rather than silently
/// approximating a result.
#[derive(Debug)]
pub enum ViewError {
    NotImplemented,
}

/// Per-expression-node container of coefficient matrices, built at a leaf,
/// transformed bottom-up, and flattened once at its final use.
pub struct View<'a> {
    /// The variable ids touched by this expression node.
    pub variables: Vec<i64>,
    /// The stored coefficient matrices, keyed by (variable, parameter).
    pub tensor: Tensor,
    /// Whether no genuine parameter occurs in this expression.
    pub is_parameter_free: bool,
    /// The pass-wide offset ledger; outlives the view.
    pub context: &'a ViewContext,
}

/// One flattened nonzero of a stored matrix: the value word is carried
/// unchanged, the row is folded into the parameter instance's block and
/// shifted by `row_offset`, the column is shifted to the variable's global
/// columns, and the parameter slot is the instance index plus the
/// parameter's first slot.
pub open spec fn quad_of(t: Triplet, m: int, ro: u64, co: u64, po: u64) -> Quad {
    (t.2, (t.0 as int % m + ro) as u64, (t.1 + co) as u64, (t.0 as int / m + po) as u64)
}

/// The flattened quads of one stored matrix under a parameter of size `p`.
pub open spec fn mat_quads(mat: SparseMatrix, p: int, ro: u64, co: u64, po: u64) -> Seq<Quad> {
    mat.entries@.map_values(|t: Triplet| quad_of(t, mat.nrows as int / p, ro, co, po))
}

/// The flattened quads of the matrix stored under `(v, k)`, with the offsets
/// the context assigns to `v` and `k`.
pub open spec fn entry_quads(ctx: ViewContext, v: i64, k: i64, mat: SparseMatrix, ro: u64) -> Seq<
    Quad,
> {
    mat_quads(
        mat,
        ctx.param_to_size@[k] as int,
        ro,
        ctx.id_to_col@[v] as u64,
        ctx.param_to_col@[k] as u64,
    )
}

/// The flattened quads of one variable's parameter matrices, in stored order.
pub open spec fn inner_quads(
    ctx: ViewContext,
    v: i64,
    params: Seq<(i64, SparseMatrix)>,
    ro: u64,
) -> Seq<Quad>
    decreases params.len(),
{
    if params.len() == 0 {
        Seq::empty()
    } else {
        inner_quads(ctx, v, params.drop_last(), ro) + entry_quads(
            ctx,
            v,
            params.last().0,
            params.last().1,
            ro,
        )
    }
}

/// The flattened quads of a whole tensor, in stored (ascending) order.
pub open spec fn tensor_quads(
    ctx: ViewContext,
    entries: Seq<(i64, Vec<(i64, SparseMatrix)>)>,
    ro: u64,
) -> Seq<Quad>
    decreases entries.len(),
{
    if entries.len() == 0 {
        Seq::empty()
    } else {
        tensor_quads(ctx, entries.drop_last(), ro) + inner_quads(
            ctx,
            entries.last().0,
            entries.last().1@,
            ro,
        )
    }
}

/// What flattening one stored matrix needs of the context and the machine:
/// the keys are known, the offsets are non-negative, the stacking invariant
/// holds (`p` divides the row count), and the shifted indices fit in 64 bits.
pub open spec fn entry_ready(ctx: ViewContext, v: i64, k: i64, mat: SparseMatrix, ro: u64) -> bool {
    &&& mat.wf()
    &&& ctx.id_to_col@.contains_key(v)
    &&& ctx.param_to_size@.contains_key(k)
    &&& ctx.param_to_col@.contains_key(k)
    &&& 0 <= ctx.id_to_col@[v]
    &&& 0 <= ctx.param_to_col@[k]
    &&& 1 <= ctx.param_to_size@[k]
    &&& mat.nrows as int % ctx.param_to_size@[k] as int == 0
    &&& mat.nrows as int / ctx.param_to_size@[k] as int + ro <= u64::MAX
    &&& ctx.id_to_col@[v] + mat.ncols <= u64::MAX
    &&& ctx.param_to_col@[k] + ctx.param_to_size@[k] <= u64::MAX
}

impl<'a> View<'a> {
    /// Flattening is ready: every stored matrix is well-formed, obeys the
    /// stacking invariant, and its context offsets are known and fit.
    pub open spec fn flatten_ready(self, ro: u64) -> bool {
        forall|i: int, j: int|
            0 <= i < self.tensor.entries@.len() && 0 <= j < self.tensor.entries@[i].1@.len()
                ==> entry_ready(
                *self.context,
                self.tensor.entries@[i].0,
                (#[trigger] self.tensor.entries@[i].1@[j]).0,
                self.tensor.entries@[i].1@[j].1,
                ro,
            )
    }

    /// A fresh view at an expression leaf: empty tensor, no variables,
    /// parameter-free.
    pub fn new(context: &'a ViewContext) -> (r: View<'a>)
        ensures
            r.variables@.len() == 0,
            r.tensor.entries@.len() == 0,
            r.is_parameter_free,
            r.context == context,
    {
        View { variables: Vec::new(), tensor: Tensor::new(), is_parameter_free: true, context }
    }

    /// The per-instance row count `m` of this view, read from the first
    /// stored matrix: its row count divided by its parameter's size.  A view
    /// with no variables or no parameters has no row count; calling this on
    /// one is a contract violation.
    pub fn rows(&self) -> (r: u64)
        requires
            self.tensor.entries@.len() > 0,
            self.tensor.entries@[0].1@.len() > 0,
            self.context.param_to_size@.contains_key(self.tensor.entries@[0].1@[0].0),
            1 <= self.context.param_to_size@[self.tensor.entries@[0].1@[0].0],
        ensures
            r == self.tensor.entries@[0].1@[0].1.nrows as int
                / self.context.param_to_size@[self.tensor.entries@[0].1@[0].0] as int,
    {
        let first_param = self.tensor.entries[0].1[0].0;
        let p = idx_lookup(&self.context.param_to_size, first_param) as u64;
        self.tensor.entries[0].1[0].1.nrows / p
    }

    /// The central flattening: every stored matrix's triplets are re-indexed
    /// by the formula of `quad_of` — row folded into the block and shifted by
    /// `row_offset`, column shifted to the variable's global columns, the
    /// parameter slot from the block index — and the per-pair partial tensors
    /// are combined in ascending key order.
    #[verifier::loop_isolation(false)]
    pub fn get_tensor_representation(&self, row_offset: i64) -> (r: TensorRepresentation)
        requires
            0 <= row_offset,
            self.flatten_ready(row_offset as u64),
        ensures
            r.wf(),
            r.quads() == tensor_quads(*self.context, self.tensor.entries@, row_offset as u64),
    {
        let ro = row_offset as u64;
        let ghost ctxg = *self.context;
        let mut parts: Vec<TensorRepresentation> = Vec::new();
        let mut i: usize = 0;
        while i < self.tensor.entries.len()
            invariant
                i <= self.tensor.entries@.len(),
                forall|n: int| 0 <= n < parts@.len() ==> (#[trigger] parts@[n]).wf(),
                combined_quads(parts@) == tensor_quads(
                    ctxg,
                    self.tensor.entries@.subrange(0, i as int),
                    ro,
                ),
            decreases self.tensor.entries@.len() - i,
        {
            let vkey = self.tensor.entries[i].0;
            let ghost params = self.tensor.entries@[i as int].1@;
            let ghost done = tensor_quads(ctxg, self.tensor.entries@.subrange(0, i as int), ro);
            let mut j: usize = 0;
            while j < self.tensor.entries[i].1.len()
                invariant
                    j <= params.len(),
                    forall|n: int| 0 <= n < parts@.len() ==> (#[trigger] parts@[n]).wf(),
                    combined_quads(parts@) == done + inner_quads(
                        ctxg,
                        vkey,
                        params.subrange(0, j as int),
                        ro,
                    ),
                decreases params.len() - j,
            {
                let pk = self.tensor.entries[i].1[j].0;
                let mat = &self.tensor.entries[i].1[j].1;
                proof {
                    assert(entry_ready(ctxg, vkey, pk, *mat, ro));
                }
                let p = idx_lookup(&self.context.param_to_size, pk) as u64;
                let co = idx_lookup(&self.context.id_to_col, vkey) as u64;
                let po = idx_lookup(&self.context.param_to_col, pk) as u64;
                let part = flatten_matrix(mat, p, ro, co, po);
                let ghost parts0 = parts@;
                parts.push(part);
                proof {
                    assert(parts@.drop_last() =~= parts0);
                    assert(combined_quads(parts@) == combined_quads(parts0) + part.quads());
                    assert(part.quads() == entry_quads(ctxg, vkey, pk, *mat, ro));
                    assert(params.subrange(0, j + 1).drop_last() =~= params.subrange(0, j as int));
                    assert(params.subrange(0, j + 1).last() == params[j as int]);
                    assert(inner_quads(ctxg, vkey, params.subrange(0, j + 1), ro) == inner_quads(
                        ctxg,
                        vkey,
                        params.subrange(0, j as int),
                        ro,
                    ) + entry_quads(ctxg, vkey, pk, *mat, ro));
                }
                j = j + 1;
            }
            proof {
                assert(params.subrange(0, params.len() as int) =~= params);
                assert(self.tensor.entries@.subrange(0, i + 1).drop_last()
                    =~= self.tensor.entries@.subrange(0, i as int));
                assert(self.tensor.entries@.subrange(0, i + 1).last()
                    == self.tensor.entries@[i as int]);
            }
            i = i + 1;
        }
        proof {
            assert(self.tensor.entries@.subrange(0, self.tensor.entries@.len() as int)
                =~= self.tensor.entries@);
        }
        TensorRepresentation::combine(parts)
    }

    /// Every stored parameter key is known to the context's size table.
    pub open spec fn keys_ready(self) -> bool {
        forall|i: int, j: int|
            0 <= i < self.tensor.entries@.len() && 0 <= j < self.tensor.entries@[i].1@.len()
                ==> self.context.param_to_size@.contains_key(
                (#[trigger] self.tensor.entries@[i].1@[j]).0,
            )
    }

    /// Applies `func(matrix, param_size)` to every stored matrix in place,
    /// replacing it with `func`'s result.  The set of (variable, parameter)
    /// keys is preserved exactly: no key is inserted or removed, only the
    /// stored values are transformed.
    #[verifier::loop_isolation(false)]
    pub fn apply_all<F: Fn(SparseMatrix, i64) -> SparseMatrix>(&mut self, func: F)
        requires
            forall|arg: (SparseMatrix, i64)| #[trigger] call_requires(func, arg),
            old(self).keys_ready(),
        ensures
            final(self).variables == old(self).variables,
            final(self).is_parameter_free == old(self).is_parameter_free,
            final(self).context == old(self).context,
            final(self).tensor.entries@.len() == old(self).tensor.entries@.len(),
            forall|i: int|
                0 <= i < old(self).tensor.entries@.len() ==> (
                #[trigger] final(self).tensor.entries@[i]).0 == old(self).tensor.entries@[i].0
                    && final(self).tensor.entries@[i].1@.len()
                    == old(self).tensor.entries@[i].1@.len(),
            forall|i: int, j: int|
                0 <= i < old(self).tensor.entries@.len() && 0 <= j
                    < old(self).tensor.entries@[i].1@.len() ==> {
                    let oldp = old(self).tensor.entries@[i].1@[j];
                    let newp = (#[trigger] final(self).tensor.entries@[i].1@[j]);
                    newp.0 == oldp.0 && call_ensures(
                        func,
                        (oldp.1, old(self).context.param_to_size@[oldp.0]),
                        newp.1,
                    )
                },
            final(self).tensor.keys() == old(self).tensor.keys(),
    {
        let mut work: Vec<(i64, Vec<(i64, SparseMatrix)>)> = Vec::new();
        core::mem::swap(&mut work, &mut self.tensor.entries);
        let ghost orig = work@;
        let mut done: Vec<(i64, Vec<(i64, SparseMatrix)>)> = Vec::new();
        while work.len() > 0
            invariant
                done@.len() + work@.len() == orig.len(),
                work@ == orig.subrange(done@.len() as int, orig.len() as int),
                forall|i: int|
                    0 <= i < done@.len() ==> (#[trigger] done@[i]).0 == orig[i].0
                        && done@[i].1@.len() == orig[i].1@.len(),
                forall|i: int, j: int|
                    0 <= i < done@.len() && 0 <= j < orig[i].1@.len() ==> {
                        let oldp = orig[i].1@[j];
                        let newp = (#[trigger] done@[i].1@[j]);
                        newp.0 == oldp.0 && call_ensures(
                            func,
                            (oldp.1, old(self).context.param_to_size@[oldp.0]),
                            newp.1,
                        )
                    },
            decreases work@.len(),
        {
            let ghost di = done@.len() as int;
            let head = work.remove(0);
            proof {
                assert(head == orig[di]);
                assert(work@ =~= orig.subrange(di + 1, orig.len() as int));
            }
            let vkey = head.0;
            let mut inner = head.1;
            let ghost inner_orig = inner@;
            let mut new_inner: Vec<(i64, SparseMatrix)> = Vec::new();
            while inner.len() > 0
                invariant
                    inner_orig == orig[di].1@,
                    0 <= di < orig.len(),
                    new_inner@.len() + inner@.len() == inner_orig.len(),
                    inner@ == inner_orig.subrange(
                        new_inner@.len() as int,
                        inner_orig.len() as int,
                    ),
                    forall|j: int|
                        0 <= j < new_inner@.len() ==> {
                            let oldp = inner_orig[j];
                            let newp = (#[trigger] new_inner@[j]);
                            newp.0 == oldp.0 && call_ensures(
                                func,
                                (oldp.1, old(self).context.param_to_size@[oldp.0]),
                                newp.1,
                            )
                        },
                decreases inner@.len(),
            {
                let ghost ji = new_inner@.len() as int;
                let kv = inner.remove(0);
                proof {
                    assert(kv == inner_orig[ji]);
                    assert(inner@ =~= inner_orig.subrange(ji + 1, inner_orig.len() as int));
                    assert(old(self).tensor.entries@[di].1@[ji] == kv);
                }
                let p = idx_lookup(&self.context.param_to_size, kv.0);
                let new_mat = func(kv.1, p);
                new_inner.push((kv.0, new_mat));
            }
            proof {
                assert(inner_orig.subrange(0, inner_orig.len() as int) =~= inner_orig);
            }
            done.push((vkey, new_inner));
        }
        self.tensor.entries = done;
        proof {
            assert forall|vk: (i64, i64)|
                self.tensor.keys().contains(vk) <==> #[trigger] old(self).tensor.keys().contains(
                    vk,
                ) by {
                if old(self).tensor.keys().contains(vk) {
                    let (i, j) = choose|i: int, j: int|
                        0 <= i < orig.len() && 0 <= j < orig[i].1@.len() && orig[i].0 == vk.0 && (
                        #[trigger] orig[i].1@[j]).0 == vk.1;
                    assert(self.tensor.entries@[i].0 == vk.0 && self.tensor.entries@[i].1@[j].0
                        == vk.1);
                }
                if self.tensor.keys().contains(vk) {
                    let (i, j) = choose|i: int, j: int|
                        0 <= i < self.tensor.entries@.len() && 0 <= j
                            < self.tensor.entries@[i].1@.len() && self.tensor.entries@[i].0 == vk.0
                            && (#[trigger] self.tensor.entries@[i].1@[j]).0 == vk.1;
                    assert(orig[i].0 == vk.0 && orig[i].1@[j].0 == vk.1);
                }
            }
            assert(self.tensor.keys() =~= old(self).tensor.keys());
        }
    }

    /// Row selection is ready: every stored matrix is well-formed, obeys the
    /// stacking invariant, every requested row index lies inside the
    /// per-instance block, and the expanded selection fits in 64 bits.
    pub open spec fn select_ready(self, rows: Seq<u64>) -> bool {
        &&& rows.len() <= u64::MAX
        &&& forall|i: int, j: int|
            0 <= i < self.tensor.entries@.len() && 0 <= j < self.tensor.entries@[i].1@.len() ==> {
                let k = (#[trigger] self.tensor.entries@[i].1@[j]).0;
                let mat = self.tensor.entries@[i].1@[j].1;
                let p = self.context.param_to_size@[k] as int;
                &&& mat.wf()
                &&& self.context.param_to_size@.contains_key(k)
                &&& 1 <= p
                &&& mat.nrows as int % p == 0
                &&& p * rows.len() <= u64::MAX
                &&& forall|r: int|
                    0 <= r < rows.len() ==> (#[trigger] rows[r]) < mat.nrows as int / p
            }
    }

    /// Restricts every stored matrix to a row subset: for a parameter of
    /// size one, a direct row gather; for a larger size, the same relative
    /// subset is taken from every one of the `p` stacked blocks, preserving
    /// the block structure.
    #[verifier::loop_isolation(false)]
    pub fn select_rows(&mut self, rows: &Vec<u64>)
        requires
            old(self).select_ready(rows@),
        ensures
            final(self).variables == old(self).variables,
            final(self).is_parameter_free == old(self).is_parameter_free,
            final(self).context == old(self).context,
            final(self).tensor.entries@.len() == old(self).tensor.entries@.len(),
            forall|i: int|
                0 <= i < old(self).tensor.entries@.len() ==> (
                #[trigger] final(self).tensor.entries@[i]).0 == old(self).tensor.entries@[i].0
                    && final(self).tensor.entries@[i].1@.len()
                    == old(self).tensor.entries@[i].1@.len(),
            forall|i: int, j: int|
                0 <= i < old(self).tensor.entries@.len() && 0 <= j
                    < old(self).tensor.entries@[i].1@.len() ==> {
                    let oldp = old(self).tensor.entries@[i].1@[j];
                    let newp = (#[trigger] final(self).tensor.entries@[i].1@[j]);
                    let p = old(self).context.param_to_size@[oldp.0] as int;
                    let m = (oldp.1.nrows as int / p) as u64;
                    &&& newp.0 == oldp.0
                    &&& newp.1.wf()
                    &&& newp.1.nrows == p * rows@.len()
                    &&& newp.1.ncols == oldp.1.ncols
                    &&& forall|i2: u64, j2: u64, v: u64|
                        #[trigger] newp.1.has_triplet((i2, j2, v)) <==> i2 < p * rows@.len()
                            && oldp.1.has_triplet(
                            (expanded_rows(rows@, m, p)[i2 as int], j2, v),
                        )
                },
    {
        let mut work: Vec<(i64, Vec<(i64, SparseMatrix)>)> = Vec::new();
        core::mem::swap(&mut work, &mut self.tensor.entries);
        let ghost orig = work@;
        let mut done: Vec<(i64, Vec<(i64, SparseMatrix)>)> = Vec::new();
        while work.len() > 0
            invariant
                done@.len() + work@.len() == orig.len(),
                work@ == orig.subrange(done@.len() as int, orig.len() as int),
                forall|i: int|
                    0 <= i < done@.len() ==> (#[trigger] done@[i]).0 == orig[i].0
                        && done@[i].1@.len() == orig[i].1@.len(),
                forall|i: int, j: int|
                    0 <= i < done@.len() && 0 <= j < orig[i].1@.len() ==> {
                        let oldp = orig[i].1@[j];
                        let newp = (#[trigger] done@[i].1@[j]);
                        let p = old(self).context.param_to_size@[oldp.0] as int;
                        let m = (oldp.1.nrows as int / p) as u64;
                        &&& newp.0 == oldp.0
                        &&& newp.1.wf()
                        &&& newp.1.nrows == p * rows@.len()
                        &&& newp.1.ncols == oldp.1.ncols
                        &&& forall|i2: u64, j2: u64, v: u64|
                            #[trigger] newp.1.has_triplet((i2, j2, v)) <==> i2 < p * rows@.len()
                                && oldp.1.has_triplet(
                                (expanded_rows(rows@, m, p)[i2 as int], j2, v),
                            )
                    },
            decreases work@.len(),
        {
            let ghost di = done@.len() as int;
            let head = work.remove(0);
            proof {
                assert(head == orig[di]);
                assert(work@ =~= orig.subrange(di + 1, orig.len() as int));
            }
            let vkey = head.0;
            let mut inner = head.1;
            let ghost inner_orig = inner@;
            let mut new_inner: Vec<(i64, SparseMatrix)> = Vec::new();
            while inner.len() > 0
                invariant
                    inner_orig == orig[di].1@,
                    0 <= di < orig.len(),
                    new_inner@.len() + inner@.len() == inner_orig.len(),
                    inner@ == inner_orig.subrange(
                        new_inner@.len() as int,
                        inner_orig.len() as int,
                    ),
                    forall|j: int|
                        0 <= j < new_inner@.len() ==> {
                            let oldp = inner_orig[j];
                            let newp = (#[trigger] new_inner@[j]);
                            let p = old(self).context.param_to_size@[oldp.0] as int;
                            let m = (oldp.1.nrows as int / p) as u64;
                            &&& newp.0 == oldp.0
                            &&& newp.1.wf()
                            &&& newp.1.nrows == p * rows@.len()
                            &&& newp.1.ncols == oldp.1.ncols
                            &&& forall|i2: u64, j2: u64, v: u64|
                                #[trigger] newp.1.has_triplet((i2, j2, v)) <==> i2 < p
                                    * rows@.len() && oldp.1.has_triplet(
                                    (expanded_rows(rows@, m, p)[i2 as int], j2, v),
                                )
                        },
                decreases inner@.len(),
            {
                let ghost ji = new_inner@.len() as int;
                let kv = inner.remove(0);
                proof {
                    assert(kv == inner_orig[ji]);
                    assert(inner@ =~= inner_orig.subrange(ji + 1, inner_orig.len() as int));
                    assert(old(self).tensor.entries@[di].1@[ji] == kv);
                }
                let pk = kv.0;
                let mat = kv.1;
                let p = idx_lookup(&self.context.param_to_size, pk) as u64;
                let m = mat.nrows / p;
                proof {
                    vstd::arithmetic::div_mod::lemma_fundamental_div_mod(
                        mat.nrows as int,
                        p as int,
                    );
                    assert(mat.nrows as int == p as int * m as int);
                    lemma_expanded_rows_bound(rows@, m, p, mat.nrows);
                }
                let new_mat = if p == 1 {
                    // one block: a direct row gather on the matrix
                    proof {
                        lemma_expanded_rows_single(rows@, m);
                    }
                    match crate::sparse::select_rows(&mat, rows) {
                        Ok(nm) => nm,
                        Err(_) => {
                            proof {
                                assert(false);
                            }
                            vstd::pervasive::unreached()
                        },
                    }
                } else {
                    let new_rows = expand_rows(rows, m, p);
                    match crate::sparse::select_rows(&mat, &new_rows) {
                        Ok(nm) => nm,
                        Err(_) => {
                            proof {
                                assert forall|r: int| 0 <= r < new_rows@.len() implies (
                                #[trigger] new_rows@[r]) < mat.nrows by {
                                    assert(new_rows@[r] == expanded_rows(rows@, m, p as int)[r]);
                                }
                                assert(false);
                            }
                            vstd::pervasive::unreached()
                        },
                    }
                };
                new_inner.push((pk, new_mat));
            }
            proof {
                assert(inner_orig.subrange(0, inner_orig.len() as int) =~= inner_orig);
            }
            done.push((vkey, new_inner));
        }
        self.tensor.entries = done;
    }

    /// Cross-variable accumulation for non-additive operators: an open
    /// design question.  Until it is designed it fails with the distinct
    /// not-implemented signal instead of approximating a result.
    pub fn accumulate_over_variables<F: Fn(SparseMatrix, u64) -> SparseMatrix>(
        self,
        func: F,
        is_parameter_free_function: bool,
    ) -> (r: Result<View<'a>, ViewError>)
        ensures
            r matches Err(ViewError::NotImplemented),
    {
        let _ = func;
        let _ = is_parameter_free_function;
        let _ = self;
        Err(ViewError::NotImplemented)
    }

    /// Folding one variable's parameter matrices: part of the accumulation
    /// path, an open design question; fails with the distinct
    /// not-implemented signal.
    pub fn apply_to_parameters<F: Fn(SparseMatrix, u64) -> SparseMatrix>(
        &self,
        func: F,
        params: &Vec<(i64, SparseMatrix)>,
    ) -> (r: Result<Vec<(i64, SparseMatrix)>, ViewError>)
        ensures
            r matches Err(ViewError::NotImplemented),
    {
        let _ = func;
        let _ = params;
        Err(ViewError::NotImplemented)
    }
}

/// Law: flattening a single stored matrix under a parameter of size one at
/// row offset zero recovers the matrix's rows and columns unchanged, except
/// that the variable's first global column is added to each column index;
/// every nonzero lands in the parameter's first slot, and the value words
/// are carried unchanged.
pub proof fn lemma_flatten_single_parameter_free(
    ctx: ViewContext,
    v: i64,
    k: i64,
    mat: SparseMatrix,
)
    requires
        entry_ready(ctx, v, k, mat, 0),
        ctx.param_to_size@[k] == 1,
    ensures
        entry_quads(ctx, v, k, mat, 0).len() == mat.entries@.len(),
        forall|n: int|
            0 <= n < mat.entries@.len() ==> #[trigger] entry_quads(ctx, v, k, mat, 0)[n] == (
                mat.entries@[n].2,
                mat.entries@[n].0,
                (mat.entries@[n].1 + ctx.id_to_col@[v]) as u64,
                ctx.param_to_col@[k] as u64,
            ),
{
    let q = entry_quads(ctx, v, k, mat, 0);
    vstd::arithmetic::div_mod::lemma_fundamental_div_mod_converse(
        mat.nrows as int,
        1,
        mat.nrows as int,
        0,
    );
    let m = mat.nrows as int;
    assert forall|n: int| 0 <= n < mat.entries@.len() implies #[trigger] entry_quads(
        ctx,
        v,
        k,
        mat,
        0,
    )[n] == (
        mat.entries@[n].2,
        mat.entries@[n].0,
        (mat.entries@[n].1 + ctx.id_to_col@[v]) as u64,
        ctx.param_to_col@[k] as u64,
    ) by {
        let t = mat.entries@[n];
        assert(t.0 < mat.nrows);
        vstd::arithmetic::div_mod::lemma_fundamental_div_mod_converse(
            t.0 as int,
            m,
            0,
            t.0 as int,
        );
        assert(q[n] == quad_of(t, m, 0, ctx.id_to_col@[v] as u64, ctx.param_to_col@[k] as u64));
    }
}

/// The per-block expansion of a row selection over `p` stacked blocks of `m`
/// rows each: entry `t * rows.len() + i` selects row `rows[i] + t * m`, so
/// the same relative subset is taken from every block.
pub open spec fn expanded_rows(rows: Seq<u64>, m: u64, p: int) -> Seq<u64> {
    Seq::new(
        (p * rows.len()) as nat,
        |i: int| ((rows[i % rows.len() as int] + m * (i / rows.len() as int)) as u64),
    )
}

/// With one block the expansion is the selection itself.
pub proof fn lemma_expanded_rows_single(rows: Seq<u64>, m: u64)
    ensures
        expanded_rows(rows, m, 1) == rows,
{
    let ex = expanded_rows(rows, m, 1);
    assert forall|i: int| 0 <= i < ex.len() implies ex[i] == rows[i] by {
        vstd::arithmetic::div_mod::lemma_fundamental_div_mod_converse(
            i,
            rows.len() as int,
            0,
            i,
        );
    }
    assert(ex =~= rows);
}

/// Every expanded row index lies inside the stacked matrix.
pub proof fn lemma_expanded_rows_bound(rows: Seq<u64>, m: u64, p: u64, nrows: u64)
    requires
        1 <= p,
        nrows == p * m,
        forall|r: int| 0 <= r < rows.len() ==> (#[trigger] rows[r]) < m,
    ensures
        expanded_rows(rows, m, p as int).len() == p * rows.len(),
        forall|i: int|
            0 <= i < expanded_rows(rows, m, p as int).len() ==> (#[trigger] expanded_rows(
                rows,
                m,
                p as int,
            )[i]) < nrows,
{
    let ex = expanded_rows(rows, m, p as int);
    let len = rows.len() as int;
    assert forall|i: int| 0 <= i < ex.len() implies (#[trigger] ex[i]) < nrows by {
        assert(len > 0) by (nonlinear_arith)
            requires 0 <= i < (p as int) * len, 0 <= len;
        vstd::arithmetic::div_mod::lemma_fundamental_div_mod(i, len);
        let s = i % len;
        let t = i / len;
        assert(0 <= s < len);
        assert(t < p as int) by (nonlinear_arith)
            requires len >= 1, i < (p as int) * len, i == len * t + s, 0 <= s;
        assert(t >= 0) by (nonlinear_arith)
            requires len >= 1, i >= 0, i == len * t + s, s < len;
        assert(rows[s] < m);
        assert(rows[s] + (m as int) * t < (p as int) * (m as int)) by (nonlinear_arith)
            requires rows[s] < m, 0 <= t < p as int, m >= 0;
    }
}

/// Builds the expanded row list of `expanded_rows`: for each block in turn,
/// every requested row shifted into that block.
#[verifier::loop_isolation(false)]
fn expand_rows(rows: &Vec<u64>, m: u64, p: u64) -> (r: Vec<u64>)
    requires
        1 <= p,
        p * m <= u64::MAX,
        p * rows@.len() <= u64::MAX,
        forall|i: int| 0 <= i < rows@.len() ==> (#[trigger] rows@[i]) < m,
    ensures
        r@ == expanded_rows(rows@, m, p as int),
{
    let ghost ex = expanded_rows(rows@, m, p as int);
    let mut out: Vec<u64> = Vec::new();
    let mut t: u64 = 0;
    while t < p
        invariant
            t <= p,
            out@.len() == t * rows@.len(),
            forall|n: int| 0 <= n < out@.len() ==> (#[trigger] out@[n]) == ex[n],
        decreases p - t,
    {
        proof {
            assert((t + 1) * rows@.len() <= p * rows@.len() && t * m + m <= p * m)
                by (nonlinear_arith)
                requires t < p, 0 <= rows@.len(), 0 <= m;
        }
        let shift = t * m;
        let mut i: usize = 0;
        while i < rows.len()
            invariant
                i <= rows@.len(),
                shift == t * m,
                out@.len() == t * rows@.len() + i,
                forall|n: int| 0 <= n < out@.len() ==> (#[trigger] out@[n]) == ex[n],
            decreases rows@.len() - i,
        {
            let ghost n = out@.len() as int;
            out.push(rows[i] + shift);
            proof {
                vstd::arithmetic::div_mod::lemma_fundamental_div_mod_converse(
                    n,
                    rows@.len() as int,
                    t as int,
                    i as int,
                );
                assert(n < ex.len()) by (nonlinear_arith)
                    requires
                        n == (t as int) * rows@.len() + i,
                        i < rows@.len(),
                        t < p,
                        ex.len() == (p as int) * rows@.len(),
                ;
                assert((m as int) * (t as int) == (t as int) * (m as int)) by (nonlinear_arith);
                assert(ex[n] == ((rows@[i as int] + (m as int) * (t as int)) as u64));
                assert(out@[n] == rows@[i as int] + shift);
                assert(out@[n] == ex[n]);
            }
            i = i + 1;
        }
        proof {
            assert((t as int + 1) * rows@.len() == (t as int) * rows@.len() + rows@.len())
                by (nonlinear_arith);
        }
        t = t + 1;
    }
    proof {
        assert(out@.len() == ex.len()) by (nonlinear_arith)
            requires
                out@.len() == (p as int) * rows@.len(),
                ex.len() == (p as int) * rows@.len(),
        ;
        assert(out@ =~= ex);
    }
    out
}

/// Flattens one stored matrix under a parameter of size `p`: each triplet
/// `(i, j, value)` becomes the quad `(value, i mod m + ro, j + co,
/// i div m + po)` where `m = nrows / p` is the per-instance row count.
#[verifier::loop_isolation(false)]
fn flatten_matrix(mat: &SparseMatrix, p: u64, ro: u64, co: u64, po: u64) -> (r:
    TensorRepresentation)
    requires
        mat.wf(),
        1 <= p,
        mat.nrows as int % p as int == 0,
        mat.nrows as int / p as int + ro <= u64::MAX,
        co + mat.ncols <= u64::MAX,
        po + p <= u64::MAX,
    ensures
        r.wf(),
        r.quads() == mat_quads(*mat, p as int, ro, co, po),
{
    let m = mat.nrows / p;
    proof {
        vstd::arithmetic::div_mod::lemma_fundamental_div_mod(mat.nrows as int, p as int);
        assert(mat.nrows as int == p as int * m as int);
    }
    let mut data: Vec<u64> = Vec::new();
    let mut row: Vec<u64> = Vec::new();
    let mut col: Vec<u64> = Vec::new();
    let mut parameter_offset: Vec<u64> = Vec::new();
    let ghost whole = mat_quads(*mat, p as int, ro, co, po);
    let mut e: usize = 0;
    while e < mat.entries.len()
        invariant
            e <= mat.entries@.len(),
            row@.len() == data@.len(),
            col@.len() == data@.len(),
            parameter_offset@.len() == data@.len(),
            quads_of(data@, row@, col@, parameter_offset@) == whole.subrange(0, e as int),
        decreases mat.entries@.len() - e,
    {
        let t = mat.entries[e];
        proof {
            assert(t.0 < mat.nrows && t.1 < mat.ncols);
            // the matrix holds an entry, so each block holds at least one row
            assert(m >= 1) by (nonlinear_arith)
                requires
                    mat.nrows as int == p as int * m as int,
                    t.0 < mat.nrows,
                    m >= 0,
            ;
            vstd::arithmetic::div_mod::lemma_fundamental_div_mod(t.0 as int, m as int);
            assert(((t.0 as int) / (m as int)) < p as int) by (nonlinear_arith)
                requires
                    m >= 1,
                    (t.0 as int) < (p as int) * (m as int),
                    t.0 as int == (m as int) * (t.0 as int / m as int) + (t.0 as int % m as int),
                    0 <= t.0 as int % m as int,
            ;
        }
        let ghost d0 = data@;
        let ghost r0 = row@;
        let ghost c0 = col@;
        let ghost p0 = parameter_offset@;
        data.push(t.2);
        row.push(t.0 % m + ro);
        col.push(t.1 + co);
        parameter_offset.push(t.0 / m + po);
        proof {
            let q = quad_of(t, m as int, ro, co, po);
            crate::tensor_representation::lemma_quads_of_push(d0, r0, c0, p0, q);
            assert(whole[e as int] == q);
            assert(whole.subrange(0, e + 1) =~= whole.subrange(0, e as int).push(q));
        }
        e = e + 1;
    }
    proof {
        assert(whole.subrange(0, whole.len() as int) =~= whole);
    }
    TensorRepresentation { data, row, col, parameter_offset }
}

} // verus!
