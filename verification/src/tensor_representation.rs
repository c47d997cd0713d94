//! The flat coordinate-list ("tensor") data contract handed to the
//! downstream problem-data assembler: four parallel sequences of equal
//! length, index `n` describing one nonzero, and the order-preserving
//! combination of several such lists.

use vstd::prelude::*;

verus! {

/// One flattened nonzero: `(value word, global row, global column,
/// parameter slot)`.
pub type Quad = (u64, u64, u64, u64);

/// Flat coordinate list describing the nonzeros of a matrix destined for
/// solver assembly.
pub struct TensorRepresentation {
    pub data: Vec<u64>,
    pub row: Vec<u64>,
    pub col: Vec<u64>,
    pub parameter_offset: Vec<u64>,
}

impl TensorRepresentation {
    /// The four parallel sequences have equal length.
    pub open spec fn wf(self) -> bool {
        self.row@.len() == self.data@.len() && self.col@.len() == self.data@.len()
            && self.parameter_offset@.len() == self.data@.len()
    }

    /// The list read as one sequence of quadruples.
    pub open spec fn quads(self) -> Seq<Quad> {
        quads_of(self.data@, self.row@, self.col@, self.parameter_offset@)
    }
}

/// Four parallel sequences read as one sequence of quadruples.
pub open spec fn quads_of(data: Seq<u64>, row: Seq<u64>, col: Seq<u64>, po: Seq<u64>) -> Seq<
    Quad,
> {
    Seq::new(data.len(), |i: int| (data[i], row[i], col[i], po[i]))
}

/// Appending one nonzero to all four lists appends its quadruple.
pub proof fn lemma_quads_of_push(d: Seq<u64>, r: Seq<u64>, c: Seq<u64>, p: Seq<u64>, q: Quad)
    requires
        r.len() == d.len(),
        c.len() == d.len(),
        p.len() == d.len(),
    ensures
        quads_of(d.push(q.0), r.push(q.1), c.push(q.2), p.push(q.3)) == quads_of(d, r, c, p).push(
            q,
        ),
{
    assert(quads_of(d.push(q.0), r.push(q.1), c.push(q.2), p.push(q.3)) =~= quads_of(
        d,
        r,
        c,
        p,
    ).push(q));
}

/// The quads of `parts`, concatenated in the order given.
pub open spec fn combined_quads(parts: Seq<TensorRepresentation>) -> Seq<Quad>
    decreases parts.len(),
{
    if parts.len() == 0 {
        Seq::empty()
    } else {
        combined_quads(parts.drop_last()) + parts.last().quads()
    }
}

impl TensorRepresentation {
    /// An empty coordinate list.
    pub fn new() -> (r: TensorRepresentation)
        ensures
            r.wf(),
            r.quads() == Seq::<Quad>::empty(),
    {
        let r = TensorRepresentation {
            data: Vec::new(),
            row: Vec::new(),
            col: Vec::new(),
            parameter_offset: Vec::new(),
        };
        proof {
            assert(r.quads() =~= Seq::<Quad>::empty());
        }
        r
    }

    /// Order-preserving combination: the coordinate lists are concatenated
    /// exactly in the order given, so a deterministic input order yields a
    /// deterministic result.
    #[verifier::loop_isolation(false)]
    pub fn combine(tensors: Vec<TensorRepresentation>) -> (r: TensorRepresentation)
        requires
            forall|i: int| 0 <= i < tensors@.len() ==> (#[trigger] tensors@[i]).wf(),
        ensures
            r.wf(),
            r.quads() == combined_quads(tensors@),
    {
        let mut data: Vec<u64> = Vec::new();
        let mut row: Vec<u64> = Vec::new();
        let mut col: Vec<u64> = Vec::new();
        let mut parameter_offset: Vec<u64> = Vec::new();
        let mut i: usize = 0;
        while i < tensors.len()
            invariant
                i <= tensors@.len(),
                row@.len() == data@.len(),
                col@.len() == data@.len(),
                parameter_offset@.len() == data@.len(),
                quads_of(data@, row@, col@, parameter_offset@) == combined_quads(
                    tensors@.subrange(0, i as int),
                ),
            decreases tensors@.len() - i,
        {
            let part = &tensors[i];
            let ghost done = combined_quads(tensors@.subrange(0, i as int));
            proof {
                assert(quads_of(data@, row@, col@, parameter_offset@) =~= done
                    + part.quads().subrange(0, 0));
            }
            let mut k: usize = 0;
            while k < part.data.len()
                invariant
                    part == &tensors@[i as int],
                    part.wf(),
                    k <= part.data@.len(),
                    row@.len() == data@.len(),
                    col@.len() == data@.len(),
                    parameter_offset@.len() == data@.len(),
                    quads_of(data@, row@, col@, parameter_offset@) == done
                        + part.quads().subrange(0, k as int),
                decreases part.data@.len() - k,
            {
                let ghost d0 = data@;
                let ghost r0 = row@;
                let ghost c0 = col@;
                let ghost p0 = parameter_offset@;
                let ghost q = part.quads()[k as int];
                data.push(part.data[k]);
                row.push(part.row[k]);
                col.push(part.col[k]);
                parameter_offset.push(part.parameter_offset[k]);
                proof {
                    assert(q == (
                        part.data@[k as int],
                        part.row@[k as int],
                        part.col@[k as int],
                        part.parameter_offset@[k as int],
                    ));
                    lemma_quads_of_push(d0, r0, c0, p0, q);
                    assert(part.quads().subrange(0, k + 1) =~= part.quads().subrange(
                        0,
                        k as int,
                    ).push(q));
                    assert((done + part.quads().subrange(0, k as int)).push(q) =~= done
                        + part.quads().subrange(0, k + 1));
                    assert(quads_of(data@, row@, col@, parameter_offset@) == done
                        + part.quads().subrange(0, k + 1));
                }
                k = k + 1;
            }
            proof {
                assert(part.quads().subrange(0, part.data@.len() as int) =~= part.quads());
                assert(tensors@.subrange(0, i + 1).drop_last() =~= tensors@.subrange(0, i as int));
                assert(tensors@.subrange(0, i + 1).last() == tensors@[i as int]);
            }
            i = i + 1;
        }
        proof {
            assert(tensors@.subrange(0, tensors@.len() as int) =~= tensors@);
        }
        TensorRepresentation { data, row, col, parameter_offset }
    }
}

} // verus!
