use vstd::prelude::*;
use crate::params::fold_pow;
use crate::transcript::WriteIop;

verus! {

/// The index `i` with its lowest `k` bits in reverse order.
pub open spec fn rev_bits(i: nat, k: nat) -> nat
    decreases k,
{
    if k == 0 {
        0
    } else {
        (i % 2) * fold_pow(2, (k - 1) as nat) + rev_bits(i / 2, (k - 1) as nat)
    }
}

/// The buffer of extension elements `s`, `ext` entries each, `2^k` of
/// them, with element `i` moved to position `rev_bits(i, k)`.
pub open spec fn bit_reversed(s: Seq<u32>, ext: nat, k: nat) -> Seq<u32> {
    Seq::new(
        s.len(),
        |x: int| s[rev_bits((x / ext as int) as nat, k) * ext + x % ext as int],
    )
}

/// The execution backend that the prover drives: field arithmetic and
/// transforms over buffers of base field elements, where one extension
/// element occupies `ext_size` consecutive entries.
pub trait Hal {
    /// Zero-pads the polynomial with coefficients `coeffs` to `domain`
    /// extension elements and evaluates it on a domain `inv_rate` times
    /// larger than its coefficient count.
    fn expand_evaluate(&self, coeffs: &Vec<u32>, ext_size: usize, domain: usize, inv_rate: usize) -> (r: Vec<u32>)
        requires
            ext_size >= 1,
            coeffs.len() % ext_size == 0,
            domain == coeffs.len() / ext_size * inv_rate,
            domain * ext_size <= usize::MAX,
        ensures
            r.len() == domain * ext_size,
    ;

    /// Combines each group of `fold` interleaved coefficient slices into one,
    /// weighted by the powers of the extension element `mix`.
    fn fri_fold(&self, coeffs: &Vec<u32>, mix: &Vec<u32>, ext_size: usize, fold: usize) -> (r: Vec<u32>)
        requires
            ext_size >= 1,
            fold >= 1,
            coeffs.len() % ext_size == 0,
            mix.len() == ext_size,
        ensures
            r.len() == coeffs.len() / ext_size / fold * ext_size,
    ;

    /// Puts a buffer of extension elements into bit-reversed order; for a
    /// power-of-two count this is the index bit-reversal permutation.
    fn bit_reverse(&self, coeffs: &Vec<u32>, ext_size: usize) -> (r: Vec<u32>)
        requires
            ext_size >= 1,
            coeffs.len() % ext_size == 0,
        ensures
            r.len() == coeffs.len(),
            forall|k: nat|
                coeffs.len() == #[trigger] fold_pow(2, k) * ext_size ==> r@ == bit_reversed(
                    coeffs@,
                    ext_size as nat,
                    k,
                ),
    ;
}

/// The outer protocol's contribution to each query: proof data for one
/// position of the initial evaluation domain, appended to the transcript
/// without rewriting what it already holds.
/// A hook keeps a record of the positions it was called with, and it does
/// not draw from the transcript's generator.
pub trait QueryHook {
    /// The positions this hook has been called with, in order.
    spec fn calls(&self) -> Seq<usize>;

    fn on_query(&mut self, iop: &mut WriteIop, pos: usize)
        requires
            old(iop).wf(),
        ensures
            final(iop).wf(),
            final(self).calls() == old(self).calls().push(pos),
            final(iop).pool_view() == old(iop).pool_view(),
            old(iop).event_view().is_prefix_of(final(iop).event_view()),
            old(iop).words_view().is_prefix_of(final(iop).words_view()),
    ;
}

/// A hook that contributes nothing to the transcript and keeps the
/// positions it was called with.
pub struct PositionLog {
    pub positions: Vec<usize>,
}

impl PositionLog {
    pub fn new() -> (r: PositionLog)
        ensures
            r.positions@ == Seq::<usize>::empty(),
    {
        PositionLog { positions: Vec::new() }
    }
}

impl QueryHook for PositionLog {
    open spec fn calls(&self) -> Seq<usize> {
        self.positions@
    }

    fn on_query(&mut self, iop: &mut WriteIop, pos: usize) {
        self.positions.push(pos);
        proof {
            assert(iop.event_view().subrange(0, iop.event_view().len() as int) =~= iop.event_view());
            assert(iop.words_view().subrange(0, iop.words_view().len() as int) =~= iop.words_view());
        }
    }
}

/// A hook that appends each position it is called with to the transcript
/// as one word, and keeps the positions.
pub struct PositionWriter {
    pub positions: Vec<usize>,
}

impl PositionWriter {
    pub fn new() -> (r: PositionWriter)
        ensures
            r.positions@ == Seq::<usize>::empty(),
    {
        PositionWriter { positions: Vec::new() }
    }
}

impl QueryHook for PositionWriter {
    open spec fn calls(&self) -> Seq<usize> {
        self.positions@
    }

    fn on_query(&mut self, iop: &mut WriteIop, pos: usize) {
        self.positions.push(pos);
        let mut w: Vec<u32> = Vec::new();
        w.push(pos as u32);
        iop.write_words(&w);
        proof {
            assert(iop.event_view().subrange(0, old(iop).event_view().len() as int) =~= old(iop).event_view());
            assert(iop.words_view().subrange(0, old(iop).words_view().len() as int) =~= old(iop).words_view());
        }
    }
}

} // verus!
