//! A stream of the evaluations of d multilinear polynomials over {0,1}^l, read chunk
//! by chunk, and its in-memory implementation.
use crate::ark_field::mle_evaluate;
use crate::bigint_field::StdFr2;
use crate::sc_verifier::elems_canonical;
use crate::sumcheck_model::{elems_values, mle_eval, table_values};
use vstd::arithmetic::power2::pow2;
use vstd::prelude::*;

verus! {

/// The end of the chunk that starts at `start`: start + size, or the end of the tables.
pub open spec fn chunk_end(start: nat, size: nat, total: nat) -> nat {
    if start + size < total {
        start + size
    } else {
        total
    }
}

/// The tables hold 2^l canonical evaluations each.
pub open spec fn tables_wf(tables: Seq<Seq<StdFr2>>, vars: nat) -> bool {
    &&& vars < usize::BITS
    &&& forall|k: int| 0 <= k < tables.len() ==> (#[trigger] tables[k]).len() == pow2(vars)
    &&& forall|k: int| 0 <= k < tables.len() ==> elems_canonical(#[trigger] tables[k])
}

/// The evaluations of d polynomials over {0,1}^l, consumed chunk by chunk.
pub trait PolynomialStream {
    /// The evaluation tables, one per polynomial.
    spec fn tables(&self) -> Seq<Seq<StdFr2>>;

    /// The number of variables l.
    spec fn vars(&self) -> nat;

    /// Where the next chunk starts.
    spec fn position(&self) -> nat;


    /// The number of variables l.
    fn num_vars(&self) -> (n: usize)
        ensures
            n == self.vars(),
    ;

    /// The number of polynomials d.
    fn degree(&self) -> (d: usize)
        ensures
            d == self.tables().len(),
    ;

    /// The next chunk of `chunk_size` evaluations of every polynomial (fewer at the end),
    /// or `None` once the 2^l evaluations have all been read.
    fn next_chunk(&mut self, chunk_size: usize) -> (r: Option<Vec<Vec<StdFr2>>>)
        requires
            tables_wf(old(self).tables(), old(self).vars()),
            old(self).position() < pow2(old(self).vars()) ==> old(self).position() + chunk_size <= usize::MAX,
        ensures
            tables_wf(final(self).tables(), final(self).vars()),
            final(self).tables() == old(self).tables(),
            final(self).vars() == old(self).vars(),
            old(self).position() >= pow2(old(self).vars()) ==> r is None && final(self).position()
                == old(self).position(),
            old(self).position() < pow2(old(self).vars()) ==> final(self).position() == old(self).position()
                + chunk_size && (r matches Some(chunk) && chunk@.len() == old(self).tables().len() && forall|k: int|
                0 <= k < chunk@.len() ==> (#[trigger] chunk@[k])@ == old(self).tables()[k].subrange(
                old(self).position() as int,
                chunk_end(old(self).position(), chunk_size as nat, pow2(old(self).vars())) as int,
            )),
    ;

    /// The chunk of index `chunk_idx`, without moving the cursor.
    fn chunk_at(&self, chunk_idx: usize, chunk_size: usize) -> (chunk: Vec<Vec<StdFr2>>)
        requires
            tables_wf(self.tables(), self.vars()),
            (chunk_idx + 1) * chunk_size <= pow2(self.vars()),
        ensures
            chunk@.len() == self.tables().len(),
            forall|k: int| 0 <= k < chunk@.len() ==> (#[trigger] chunk@[k])@ == self.tables()[k].subrange(
                chunk_idx * chunk_size,
                (chunk_idx + 1) * chunk_size,
            ),
    ;

    /// Back to the first chunk.
    fn rewind(&mut self)
        requires
            tables_wf(old(self).tables(), old(self).vars()),
        ensures
            tables_wf(final(self).tables(), final(self).vars()),
            final(self).tables() == old(self).tables(),
            final(self).vars() == old(self).vars(),
            final(self).position() == 0,
    ;

    /// Every polynomial's multilinear extension at a full point (r_1, ..., r_l).
    fn evaluate_at_point(&self, point: &[StdFr2]) -> (r: Vec<StdFr2>)
        requires
            tables_wf(self.tables(), self.vars()),
            point@.len() == self.vars(),
            elems_canonical(point@),
        ensures
            r@.len() == self.tables().len(),
            elems_canonical(r@),
            forall|k: int| 0 <= k < r@.len() ==> (#[trigger] r@[k]).value() == mle_eval(
                table_values(self.tables()[k]),
                elems_values(point@),
            ),
    ;
}

/// A stream over tables held in memory: d tables in `data`, read from `cursor` on.
pub struct MockStream {
    pub(crate) l: usize,
    pub(crate) d: usize,
    pub(crate) data: Vec<Vec<StdFr2>>,
    pub(crate) cursor: usize,
}

/// A copy of the entries [start, end) of a table.
fn copy_range(t: &Vec<StdFr2>, start: usize, end: usize) -> (r: Vec<StdFr2>)
    requires
        start <= end <= t@.len(),
    ensures
        r@ == t@.subrange(start as int, end as int),
{
    vstd::slice::slice_to_vec(vstd::slice::slice_subrange(t.as_slice(), start, end))
}

impl MockStream {
    /// The stream holds as many tables as it declares polynomials.
    #[verifier::type_invariant]
    spec fn holds_d_tables(&self) -> bool {
        self.d == self.data@.len()
    }

    /// A stream over d tables of 2^l evaluations each, starting at the first chunk.
    pub fn new(l: usize, d: usize, data: Vec<Vec<StdFr2>>) -> (s: Self)
        requires
            data@.len() == d,
            l < usize::BITS,
            forall|k: int| 0 <= k < d ==> (#[trigger] data@[k])@.len() == pow2(l as nat),
            forall|k: int| 0 <= k < d ==> elems_canonical(#[trigger] data@[k]@),
        ensures
            tables_wf(s.tables(), s.vars()),
            s.tables() == data@.map_values(|v: Vec<StdFr2>| v@),
            s.vars() == l,
            s.position() == 0,
    {
        MockStream { l, d, data, cursor: 0 }
    }
}

impl PolynomialStream for MockStream {
    closed spec fn tables(&self) -> Seq<Seq<StdFr2>> {
        self.data@.map_values(|v: Vec<StdFr2>| v@)
    }

    closed spec fn vars(&self) -> nat {
        self.l as nat
    }

    closed spec fn position(&self) -> nat {
        self.cursor as nat
    }

    fn num_vars(&self) -> (n: usize) {
        self.l
    }

    fn degree(&self) -> (d: usize) {
        proof {
            use_type_invariant(self);
        }
        self.d
    }

    fn next_chunk(&mut self, chunk_size: usize) -> (r: Option<Vec<Vec<StdFr2>>>) {
        proof {
            use_type_invariant(&*self);
            vstd::bits::lemma_usize_pow2_no_overflow(self.l as nat);
            vstd::bits::lemma_usize_shl_is_mul(1, self.l);
        }
        let total_size = 1usize << self.l;
        if self.cursor >= total_size {
            return None;
        }
        let mut chunk_result: Vec<Vec<StdFr2>> = Vec::new();
        let start = self.cursor;
        let end = if start + chunk_size < total_size {
            start + chunk_size
        } else {
            total_size
        };
        for k in 0..self.data.len()
            invariant
                tables_wf(self.tables(), self.vars()),
                total_size == pow2(self.l as nat),
                start <= end <= total_size,
                chunk_result@.len() == k,
                forall|kk: int| 0 <= kk < k ==> (#[trigger] chunk_result@[kk])@ == self.tables()[kk].subrange(
                    start as int,
                    end as int,
                ),
        {
            proof {
                assert(self.tables()[k as int] == self.data@[k as int]@);
            }
            chunk_result.push(copy_range(&self.data[k], start, end));
        }
        self.cursor = self.cursor + chunk_size;
        proof {
            assert(self.tables() =~= old(self).tables());
        }
        Some(chunk_result)
    }

    fn chunk_at(&self, chunk_idx: usize, chunk_size: usize) -> (chunk: Vec<Vec<StdFr2>>) {
        proof {
            vstd::arithmetic::mul::lemma_mul_inequality(chunk_idx as int, (chunk_idx + 1) as int, chunk_size as int);
            vstd::bits::lemma_usize_pow2_no_overflow(self.l as nat);
            assert((chunk_idx + 1) * chunk_size == chunk_idx * chunk_size + chunk_size) by (nonlinear_arith);
        }
        let start = chunk_idx * chunk_size;
        let end = start + chunk_size;
        let mut chunk: Vec<Vec<StdFr2>> = Vec::new();
        for k in 0..self.data.len()
            invariant
                tables_wf(self.tables(), self.vars()),
                start == chunk_idx * chunk_size,
                end == (chunk_idx + 1) * chunk_size,
                end <= pow2(self.l as nat),
                start <= end,
                chunk@.len() == k,
                forall|kk: int| 0 <= kk < k ==> (#[trigger] chunk@[kk])@ == self.tables()[kk].subrange(
                    start as int,
                    end as int,
                ),
        {
            proof {
                assert(self.tables()[k as int] == self.data@[k as int]@);
            }
            chunk.push(copy_range(&self.data[k], start, end));
        }
        chunk
    }

    fn rewind(&mut self) {
        proof {
            use_type_invariant(&*self);
        }
        self.cursor = 0;
        proof {
            assert(self.tables() =~= old(self).tables());
        }
    }

    fn evaluate_at_point(&self, point: &[StdFr2]) -> (r: Vec<StdFr2>) {
        let mut r: Vec<StdFr2> = Vec::new();
        for k in 0..self.data.len()
            invariant
                tables_wf(self.tables(), self.vars()),
                point@.len() == self.l,
                elems_canonical(point@),
                r@.len() == k,
                elems_canonical(r@),
                forall|kk: int| 0 <= kk < k ==> (#[trigger] r@[kk]).value() == mle_eval(
                    table_values(self.tables()[kk]),
                    elems_values(point@),
                ),
        {
            proof {
                assert(self.tables()[k as int] == self.data@[k as int]@);
            }
            r.push(mle_evaluate(self.data[k].as_slice(), point));
        }
        r
    }
}

} // verus!
