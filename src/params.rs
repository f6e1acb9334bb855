use vstd::prelude::*;
use vstd::arithmetic::div_mod::{lemma_mod_mod, lemma_div_multiples_vanish};

verus! {

/// Base field components of one extension field element.
pub const EXT_SIZE: usize = 4;
/// Number of coefficient slices combined by one folding round.
pub const FRI_FOLD: usize = 16;
/// Largest coefficient count that is revealed instead of folded.
pub const FRI_MIN_DEGREE: usize = 256;
/// Reed-Solomon blow-up factor (inverse rate).
pub const INV_RATE: usize = 4;
/// Number of spot-check queries per proof.
pub const QUERIES: usize = 50;

/// The protocol constants shared by prover and verifier.
#[derive(Clone, Copy, Debug, PartialEq, Eq, Structural)]
pub struct FriParams {
    pub ext_size: usize,
    pub fold: usize,
    pub min_degree: usize,
    pub inv_rate: usize,
    pub queries: usize,
}

impl FriParams {
    /// Constants are usable when every size stays positive: the extension
    /// degree and blow-up are at least one, a round folds at least two
    /// slices, and the smallest folded domain still holds one leaf group.
    pub open spec fn wf(&self) -> bool {
        &&& self.ext_size >= 1
        &&& self.fold >= 2
        &&& self.min_degree >= 1
        &&& self.inv_rate >= 1
        &&& (self.min_degree + 1) * self.inv_rate >= self.fold
        &&& self.ext_size * 6 <= usize::MAX
        &&& self.fold * self.ext_size <= usize::MAX
    }

    /// The standard protocol constants.
    pub fn standard() -> (r: FriParams)
        ensures
            r.wf(),
            r == (FriParams {
                ext_size: EXT_SIZE,
                fold: FRI_FOLD,
                min_degree: FRI_MIN_DEGREE,
                inv_rate: INV_RATE,
                queries: QUERIES,
            }),
    {
        FriParams {
            ext_size: EXT_SIZE,
            fold: FRI_FOLD,
            min_degree: FRI_MIN_DEGREE,
            inv_rate: INV_RATE,
            queries: QUERIES,
        }
    }
}

/// Coefficient count (in extension elements) after `i` folds of `n`.
pub open spec fn size_at(n: nat, fold: nat, i: nat) -> nat
    decreases i,
{
    if i == 0 {
        n
    } else if fold == 0 {
        0
    } else {
        size_at(n, fold, (i - 1) as nat) / fold
    }
}

/// Number of folding rounds: how often `n` is divided by `fold` before it
/// is at most `min_degree`.
pub open spec fn spec_rounds(n: nat, fold: nat, min_degree: nat) -> nat
    decreases n via spec_rounds_decreases
{
    if n <= min_degree || fold < 2 {
        0
    } else {
        1 + spec_rounds(n / fold, fold, min_degree)
    }
}

#[via_fn]
proof fn spec_rounds_decreases(n: nat, fold: nat, min_degree: nat) {
    if !(n <= min_degree || fold < 2) {
        assert(n / fold < n) by (nonlinear_arith)
            requires
                n > 0,
                fold >= 2,
        ;
    }
}

/// The evaluation domain of round `i` for `n` initial extension elements.
pub open spec fn round_domain(n: nat, p: FriParams, i: nat) -> nat {
    size_at(n, p.fold as nat, i) * p.inv_rate as nat
}

/// The position used in round `i` when a query starts at `pos`: each round
/// reduces it modulo its domain divided by the fold factor.
pub open spec fn reduced_position(pos: nat, n: nat, p: FriParams, i: nat) -> nat
    decreases i,
{
    if i == 0 {
        pos
    } else {
        let d = round_domain(n, p, (i - 1) as nat) / p.fold as nat;
        if d == 0 { 0 } else { reduced_position(pos, n, p, (i - 1) as nat) % d }
    }
}

/// Number of folding rounds for a buffer of `len` base elements.
pub fn num_rounds(len: usize, p: &FriParams) -> (r: usize)
    requires
        p.wf(),
    ensures
        r == spec_rounds((len / p.ext_size) as nat, p.fold as nat, p.min_degree as nat),
        size_at((len / p.ext_size) as nat, p.fold as nat, r as nat) <= p.min_degree,
{
    let mut n: usize = len / p.ext_size;
    let mut r: usize = 0;
    while n > p.min_degree
        invariant
            p.wf(),
            n == size_at((len / p.ext_size) as nat, p.fold as nat, r as nat),
            r + spec_rounds(n as nat, p.fold as nat, p.min_degree as nat)
                == spec_rounds((len / p.ext_size) as nat, p.fold as nat, p.min_degree as nat),
            r + n <= len / p.ext_size,
        decreases n,
    {
        n = n / p.fold;
        r = r + 1;
    }
    r
}

/// The number of folding rounds is the number of divisions of the initial
/// size by the fold factor needed to reach at most the minimum degree:
/// after that many folds the size is at most the minimum degree, and after
/// one fold fewer it was still above it.
pub proof fn lemma_round_count(n: nat, p: FriParams)
    requires
        p.wf(),
    ensures
        size_at(n, p.fold as nat, spec_rounds(n, p.fold as nat, p.min_degree as nat))
            <= p.min_degree,
        forall|i: nat|
            i < spec_rounds(n, p.fold as nat, p.min_degree as nat) ==> size_at(n, p.fold as nat, i)
                > p.min_degree,
    decreases n,
{
    if n > p.min_degree {
        lemma_round_count(n / p.fold as nat, p);
        assert forall|i: nat| i < spec_rounds(n, p.fold as nat, p.min_degree as nat) implies
            size_at(n, p.fold as nat, i) > p.min_degree by {
            if i > 0 {
                lemma_size_shift(n, p.fold as nat, (i - 1) as nat);
            }
        }
        lemma_size_shift(n, p.fold as nat, (spec_rounds(n, p.fold as nat, p.min_degree as nat) - 1) as nat);
    }
}

/// Folding `i + 1` times is one fold followed by `i` more.
pub proof fn lemma_size_shift(n: nat, fold: nat, i: nat)
    requires
        fold >= 2,
    ensures
        size_at(n, fold, i + 1) == size_at(n / fold, fold, i),
    decreases i,
{
    if i > 0 {
        lemma_size_shift(n, fold, (i - 1) as nat);
        assert(size_at(n, fold, i + 1) == size_at(n, fold, i) / fold);
        assert(size_at(n / fold, fold, i) == size_at(n / fold, fold, (i - 1) as nat) / fold);
    } else {
        assert(size_at(n, fold, 1) == size_at(n, fold, 0) / fold);
    }
}

/// When the coefficient counts of rounds `0..=i` all divide evenly by the
/// fold factor, the position that the step-by-step reduction yields after
/// round `i` equals the starting position reduced directly modulo round
/// `i`'s domain divided by the fold factor.
pub proof fn lemma_position_reduction(pos: nat, n: nat, p: FriParams, i: nat)
    requires
        p.wf(),
        i < spec_rounds(n, p.fold as nat, p.min_degree as nat),
        forall|j: nat| j <= i ==> #[trigger] size_at(n, p.fold as nat, j) % (p.fold as nat) == 0,
    ensures
        round_domain(n, p, i) / (p.fold as nat) > 0,
        reduced_position(pos, n, p, i + 1) == pos % (round_domain(n, p, i) / (p.fold as nat)),
    decreases i,
{
    let f = p.fold as nat;
    let b = p.inv_rate as nat;
    lemma_round_count(n, p);
    let si = size_at(n, f, i);
    assert(si > p.min_degree);
    assert(si * b >= (p.min_degree + 1) * b) by (nonlinear_arith)
        requires si > p.min_degree;
    assert(round_domain(n, p, i) / f > 0) by (nonlinear_arith)
        requires round_domain(n, p, i) >= f, f >= 2;
    if i > 0 {
        lemma_position_reduction(pos, n, p, (i - 1) as nat);
        let sp = size_at(n, f, (i - 1) as nat);
        assert(sp % f == 0);
        assert(si % f == 0);
        assert(si == sp / f);
        let t = si / f;
        assert(sp == f * si) by (nonlinear_arith)
            requires sp % f == 0, si == sp / f, f > 0;
        assert(si == f * t) by (nonlinear_arith)
            requires si % f == 0, t == si / f, f > 0;
        let di = round_domain(n, p, i) / f;
        let dp = round_domain(n, p, (i - 1) as nat) / f;
        assert(round_domain(n, p, i) == f * (t * b)) by (nonlinear_arith)
            requires round_domain(n, p, i) == si * b, si == f * t;
        lemma_div_multiples_vanish((t * b) as int, f as int);
        assert(di == t * b);
        assert(round_domain(n, p, (i - 1) as nat) == f * (si * b)) by (nonlinear_arith)
            requires round_domain(n, p, (i - 1) as nat) == sp * b, sp == f * si;
        lemma_div_multiples_vanish((si * b) as int, f as int);
        assert(dp == si * b);
        assert(dp == di * f) by (nonlinear_arith)
            requires dp == si * b, di == t * b, si == f * t;
        assert(di > 0);
        lemma_mod_mod(pos as int, di as int, f as int);
        assert(reduced_position(pos, n, p, i) == pos % dp);
        assert(reduced_position(pos, n, p, i + 1) == reduced_position(pos, n, p, i) % di);
        assert((pos % (di * f)) % di == pos % di);
    } else {
        assert(reduced_position(pos, n, p, 1) == reduced_position(pos, n, p, 0) % (round_domain(n, p, 0) / f));
    }
}

/// `f` raised to the power `k`.
pub open spec fn fold_pow(f: nat, k: nat) -> nat
    decreases k,
{
    if k == 0 { 1 } else { f * fold_pow(f, (k - 1) as nat) }
}

/// When the initial size is the minimum degree times a power `k` of the
/// fold factor, the proof has exactly `k` rounds and the terminal
/// polynomial has exactly the minimum degree.
pub proof fn lemma_terminal_size(p: FriParams, k: nat)
    requires
        p.wf(),
    ensures
        spec_rounds(p.min_degree as nat * fold_pow(p.fold as nat, k), p.fold as nat, p.min_degree as nat)
            == k,
        size_at(p.min_degree as nat * fold_pow(p.fold as nat, k), p.fold as nat, k) == p.min_degree,
    decreases k,
{
    let f = p.fold as nat;
    let m = p.min_degree as nat;
    if k > 0 {
        lemma_terminal_size(p, (k - 1) as nat);
        let prev = fold_pow(f, (k - 1) as nat);
        lemma_fold_pow_positive(f, (k - 1) as nat);
        let n = m * fold_pow(f, k);
        assert(n == f * (m * prev)) by (nonlinear_arith)
            requires n == m * fold_pow(f, k), fold_pow(f, k) == f * prev;
        lemma_div_multiples_vanish((m * prev) as int, f as int);
        assert(n / f == m * prev);
        assert(n > m) by (nonlinear_arith)
            requires n == f * (m * prev), prev >= 1, f >= 2, m >= 1;
        lemma_size_shift(n, f, (k - 1) as nat);
        assert(size_at(n, f, k) == size_at(m * prev, f, (k - 1) as nat));
        assert(spec_rounds(n, f, m) == 1 + spec_rounds(n / f, f, m));
    } else {
        assert(fold_pow(f, 0) == 1);
        assert(m * fold_pow(f, k) == m) by (nonlinear_arith)
            requires fold_pow(f, k) == 1;
    }
}

proof fn lemma_fold_pow_positive(b: nat, e: nat)
    requires
        b >= 1,
    ensures
        fold_pow(b, e) >= 1,
    decreases e,
{
    if e > 0 {
        lemma_fold_pow_positive(b, (e - 1) as nat);
        assert(b * fold_pow(b, (e - 1) as nat) >= 1) by (nonlinear_arith)
            requires b >= 1, fold_pow(b, (e - 1) as nat) >= 1;
    }
}

} // verus!
