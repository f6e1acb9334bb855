use vstd::prelude::*;
use crate::hal::{bit_reversed, Hal, QueryHook};
use crate::merkle::{row_opening, MerkleTreeProver};
use crate::params::{
    lemma_round_count, reduced_position, round_domain, size_at, spec_rounds,
    fold_pow, FriParams,
};
use crate::transcript::{
    digest_words, draw_value, draws, hash_words, lemma_draw_shift, lemma_pool_after_add, sha256_of,
    word_bytes, mixed_pool, pool_after, sampled_ext, IopEvent, WriteIop,
    WORDS_PER_ELEM,
};

verus! {

/// One folding round: its evaluation domain, the commitment to its
/// evaluations, and the folded coefficients handed to the next round.
pub struct ProveRoundInfo {
    /// Size of this round's evaluation domain, in extension elements.
    pub domain: usize,
    /// Coefficients of the folded polynomial.
    pub coeffs: Vec<u32>,
    /// Merkle tree over this round's evaluations.
    pub merkle: MerkleTreeProver,
    /// The tree's root, as committed to the transcript.
    pub root: Vec<u8>,
    /// The challenge that weighted the folded slices.
    pub fold_mix: Vec<u32>,
}

/// What a completed proof consisted of.
pub struct FriReport {
    /// Number of folding rounds.
    pub rounds: usize,
    /// Size of the first round's evaluation domain.
    pub orig_domain: usize,
    /// Evaluation domain of each round, in order.
    pub domains: Vec<usize>,
    /// Per query: the word drawn from the transcript to pick its position.
    pub draws: Vec<u32>,
    /// Per query: its starting position, then the position opened in each round.
    pub positions: Vec<Vec<usize>>,
    /// Number of Merkle openings written.
    pub openings: usize,
    /// The folding rounds, in order, with their trees.
    pub round_info: Vec<ProveRoundInfo>,
    /// Per query: the transcript word offset where its round openings begin.
    pub marks: Vec<usize>,
    /// Per query: the transcript word offset where it begins.
    pub starts: Vec<usize>,
    /// Per query: the index of the event that drew its position.
    pub draw_events: Vec<usize>,
    /// Per query: the index of the event of its first round opening.
    pub open_events: Vec<usize>,
    /// Number of base field entries of the revealed terminal polynomial.
    pub terminal_len: usize,
    /// The revealed terminal polynomial, in natural order.
    pub terminal: Vec<u32>,
}

/// The retained rounds are the first rounds of the proof for `n` initial
/// extension elements: round `i` has domain `round_domain(n, p, i)`,
/// recorded in `domains`, and holds at least one leaf group.
pub open spec fn rounds_match(
    rounds: Seq<ProveRoundInfo>,
    domains: Seq<usize>,
    n: nat,
    p: FriParams,
) -> bool {
    &&& domains.len() == rounds.len()
    &&& forall|i: int|
        #![trigger domains[i]]
        #![trigger rounds[i]]
        0 <= i < rounds.len() ==> domains[i] == round_domain(n, p, i as nat) && rounds[i].domain
            == domains[i] && rounds[i].wf(p) && rounds[i].root@ == rounds[i].merkle.root_view()
}

/// The openings that the first `i` rounds append for a query whose trail of
/// positions is `trail`: round `k` opens the group `trail[k + 1]`.
pub open spec fn query_openings(rounds: Seq<ProveRoundInfo>, trail: Seq<usize>, i: nat) -> Seq<u32>
    decreases i,
{
    if i == 0 {
        Seq::empty()
    } else {
        query_openings(rounds, trail, (i - 1) as nat) + rounds[i - 1].opening(trail[i as int] as nat)
    }
}

/// The events that the first `i` round openings of a query append.
pub open spec fn query_events(rounds: Seq<ProveRoundInfo>, trail: Seq<usize>, i: nat) -> Seq<IopEvent>
    decreases i,
{
    if i == 0 {
        Seq::empty()
    } else {
        query_events(rounds, trail, (i - 1) as nat).push(
            IopEvent::Write(rounds[i - 1].opening(trail[i as int] as nat).len() as usize),
        )
    }
}

/// The generator pool after the first `k` folding rounds, starting from
/// `pool`: each round mixes in its root and then draws `per_round` words.
pub open spec fn fold_pool(pool: Seq<u8>, rounds: Seq<ProveRoundInfo>, k: nat, per_round: nat) -> Seq<u8>
    decreases k,
{
    if k == 0 {
        pool
    } else {
        pool_after(mixed_pool(fold_pool(pool, rounds, (k - 1) as nat, per_round), rounds[k - 1].root@), per_round)
    }
}

/// The generator pool from which the queries draw: the pool after the
/// folding rounds with the terminal polynomial's digest mixed in.
pub open spec fn query_pool(pool: Seq<u8>, rounds: Seq<ProveRoundInfo>, terminal: Seq<u32>, per_round: nat) -> Seq<u8> {
    mixed_pool(fold_pool(pool, rounds, rounds.len(), per_round), sha256_of(word_bytes(terminal)))
}

/// The words that the first `k` rounds append: their roots, in order.
pub open spec fn roots_words(rounds: Seq<ProveRoundInfo>, k: nat) -> Seq<u32>
    decreases k,
{
    if k == 0 {
        Seq::empty()
    } else {
        roots_words(rounds, (k - 1) as nat) + digest_words(rounds[k - 1].root@)
    }
}

/// The words before the first query: the round roots, the terminal
/// polynomial, and the digest of its little-endian bytes.
pub open spec fn fold_phase_words(rounds: Seq<ProveRoundInfo>, terminal: Seq<u32>) -> Seq<u32> {
    roots_words(rounds, rounds.len()) + terminal + digest_words(sha256_of(word_bytes(terminal)))
}

/// The events of `k` folding rounds, each a commitment followed by the
/// `per_round` draws of its challenge.
pub open spec fn fold_events(k: nat, per_round: nat) -> Seq<IopEvent>
    decreases k,
{
    if k == 0 {
        Seq::empty()
    } else {
        fold_events((k - 1) as nat, per_round).push(IopEvent::Commit) + draws(per_round)
    }
}

/// The events before the first query: the folding rounds, then the revealed
/// terminal polynomial and the commitment to its digest.
pub open spec fn fold_phase_events(k: nat, per_round: nat, terminal_len: usize) -> Seq<IopEvent> {
    fold_events(k, per_round).push(IopEvent::Write(terminal_len)).push(IopEvent::Commit)
}

impl ProveRoundInfo {
    /// The round's tree has one row per leaf group of its domain, each row
    /// holding `p.fold` extension elements.
    pub open spec fn wf(&self, p: FriParams) -> bool {
        &&& self.domain / p.fold > 0
        &&& self.merkle.wf()
        &&& self.merkle.rows_view() == self.domain / p.fold
        &&& self.merkle.cols_view() == p.fold * p.ext_size
    }

    /// The opening of the leaf group `group` of this round's tree.
    pub open spec fn opening(&self, group: nat) -> Seq<u32> {
        row_opening(self.merkle.values_view(), self.merkle.rows_view(), self.merkle.cols_view(), group)
    }

    /// Computes a round of folding: evaluates the polynomial on a larger
    /// domain, commits to the evaluations, draws the mixing challenge from
    /// the transcript and folds the coefficients with it.
    pub fn new<H: Hal>(hal: &H, iop: &mut WriteIop, coeffs: &Vec<u32>, p: &FriParams) -> (r: Self)
        requires
            old(iop).wf(),
            p.wf(),
            coeffs.len() % p.ext_size == 0,
            coeffs.len() / p.ext_size * p.inv_rate >= p.fold,
            coeffs.len() * p.inv_rate <= usize::MAX,
        ensures
            final(iop).wf(),
            r.domain == coeffs.len() / p.ext_size * p.inv_rate,
            r.wf(*p),
            r.merkle.values_view().len() == r.domain * p.ext_size,
            r.root@ == r.merkle.root_view(),
            r.coeffs.len() == coeffs.len() / p.ext_size / p.fold * p.ext_size,
            r.root@.len() == 32,
            final(iop).words_view() == old(iop).words_view() + digest_words(r.root@),
            r.fold_mix@ == sampled_ext(mixed_pool(old(iop).pool_view(), r.root@), p.ext_size as nat),
            final(iop).pool_view() == pool_after(
                mixed_pool(old(iop).pool_view(), r.root@),
                (p.ext_size * WORDS_PER_ELEM) as nat,
            ),
            final(iop).event_view() == old(iop).event_view().push(IopEvent::Commit) + draws(
                (p.ext_size * WORDS_PER_ELEM) as nat,
            ),
    {
        let ext_size = p.ext_size;
        let size = coeffs.len() / ext_size;
        proof {
            assert(size * ext_size <= coeffs.len()) by (nonlinear_arith)
                requires size == coeffs.len() / ext_size, ext_size >= 1;
            assert(size * p.inv_rate * ext_size <= coeffs.len() * p.inv_rate) by (nonlinear_arith)
                requires size * ext_size <= coeffs.len();
            assert(size * p.inv_rate <= size * p.inv_rate * ext_size) by (nonlinear_arith)
                requires ext_size >= 1;
        }
        let domain = size * p.inv_rate;
        proof {
            assert(domain / p.fold > 0) by (nonlinear_arith)
                requires domain >= p.fold, p.fold >= 2;
        }
        let evaluated = hal.expand_evaluate(coeffs, ext_size, domain, p.inv_rate);
        let rows = domain / p.fold;
        let cols = p.fold * ext_size;
        proof {
            assert(rows * cols <= evaluated.len()) by (nonlinear_arith)
                requires rows == domain / p.fold, cols == p.fold * ext_size,
                    evaluated.len() == domain * ext_size, p.fold >= 2;
            assert(2 * rows <= domain) by (nonlinear_arith)
                requires rows == domain / p.fold, p.fold >= 2;
        }
        let merkle = MerkleTreeProver::new(evaluated, rows, cols);
        let root = merkle.root();
        iop.commit(&root);
        let fold_mix = iop.random_ext(ext_size);
        let out_coeffs = hal.fri_fold(coeffs, &fold_mix, ext_size, p.fold);
        ProveRoundInfo { domain, coeffs: out_coeffs, merkle, root, fold_mix }
    }

    /// Opens the leaf group that holds `pos` in this round's evaluation
    /// domain, appends the opening to the transcript, and reduces `pos` to
    /// that group for the next round.
    pub fn prove_query(&self, iop: &mut WriteIop, pos: &mut usize, p: &FriParams)
        requires
            old(iop).wf(),
            p.wf(),
            self.wf(*p),
        ensures
            final(iop).wf(),
            *final(pos) == *old(pos) % (self.domain / p.fold),
            final(iop).words_view() == old(iop).words_view() + self.opening(*final(pos) as nat),
            final(iop).pool_view() == old(iop).pool_view(),
            final(iop).event_view() == old(iop).event_view().push(
                IopEvent::Write(self.opening(*final(pos) as nat).len() as usize),
            ),
    {
        let group = *pos % (self.domain / p.fold);
        let opening = self.merkle.open(group);
        iop.write_words(&opening);
        *pos = group;
    }
}

/// Proves that the polynomial with coefficients `coeffs` is of low degree:
/// folds it round by round until at most `p.min_degree` extension elements
/// remain, reveals and commits that terminal polynomial in natural order,
/// then runs `p.queries` queries, each drawing a position of the initial
/// evaluation domain, handing it to `hook`, and opening every round at the
/// position reduced for that round.
#[verifier::rlimit(60)]
pub fn fri_prove<H: Hal, F: QueryHook>(
    hal: &H,
    iop: &mut WriteIop,
    coeffs: &Vec<u32>,
    hook: &mut F,
    p: &FriParams,
) -> (r: FriReport)
    requires
        old(iop).wf(),
        p.wf(),
        coeffs.len() % p.ext_size == 0,
        coeffs.len() >= p.ext_size,
        coeffs.len() / p.ext_size >= p.min_degree,
        coeffs.len() * p.inv_rate <= usize::MAX,
        p.queries * spec_rounds((coeffs.len() / p.ext_size) as nat, p.fold as nat, p.min_degree as nat)
            <= usize::MAX,
    ensures
        final(iop).wf(),
        r.rounds == spec_rounds((coeffs.len() / p.ext_size) as nat, p.fold as nat, p.min_degree as nat),
        r.orig_domain == coeffs.len() / p.ext_size * p.inv_rate,
        r.domains@.len() == r.rounds,
        forall|i: int|
            0 <= i < r.rounds ==> r.domains@[i] == round_domain(
                (coeffs.len() / p.ext_size) as nat,
                *p,
                i as nat,
            ),
        r.positions@.len() == p.queries,
        r.draws@.len() == p.queries,
        forall|q: int|
            #![trigger r.positions@[q]]
            0 <= q < p.queries ==> {
                &&& r.positions@[q]@.len() == r.rounds + 1
                &&& r.positions@[q]@[0] < r.orig_domain
                &&& r.positions@[q]@[0] == r.draws@[q] as usize % r.orig_domain
                &&& forall|i: int|
                    0 <= i <= r.rounds ==> #[trigger] r.positions@[q]@[i] == reduced_position(
                        r.positions@[q]@[0] as nat,
                        (coeffs.len() / p.ext_size) as nat,
                        *p,
                        i as nat,
                    )
            },
        r.openings == p.queries * r.rounds,
        r.terminal_len == size_at((coeffs.len() / p.ext_size) as nat, p.fold as nat, r.rounds as nat)
            * p.ext_size,
        r.terminal_len <= p.min_degree * p.ext_size,
        r.round_info@.len() == r.rounds,
        r.terminal@.len() == r.terminal_len,
        forall|k: nat|
            #![trigger fold_pow(2, k)]
            ({
                let last = if r.rounds == 0 {
                    coeffs@
                } else {
                    r.round_info@[r.rounds - 1].coeffs@
                };
                last.len() == fold_pow(2, k) * p.ext_size ==> r.terminal@ == bit_reversed(
                    last,
                    p.ext_size as nat,
                    k,
                )
            }),
        (old(iop).words_view() + fold_phase_words(r.round_info@, r.terminal@)).is_prefix_of(
            final(iop).words_view(),
        ),
        rounds_match(
            r.round_info@,
            r.domains@,
            (coeffs.len() / p.ext_size) as nat,
            *p,
        ),
        r.marks@.len() == p.queries,
        r.starts@.len() == p.queries,
        final(hook).calls() == old(hook).calls() + Seq::new(p.queries as nat, |q: int| r.positions@[q]@[0]),
        forall|q: int|
            0 <= q < p.queries ==> #[trigger] r.draws@[q] == draw_value(
                query_pool(
                    old(iop).pool_view(),
                    r.round_info@,
                    r.terminal@,
                    (p.ext_size * WORDS_PER_ELEM) as nat,
                ),
                q as nat,
            ),
        forall|q: int|
            #![trigger r.starts@[q]]
            0 <= q < p.queries ==> {
                &&& r.starts@[q] <= r.marks@[q]
                &&& q == 0 ==> r.starts@[q] == (old(iop).words_view() + fold_phase_words(
                    r.round_info@,
                    r.terminal@,
                )).len() && r.draw_events@[q] == (old(iop).event_view() + fold_phase_events(
                    r.rounds as nat,
                    (p.ext_size * WORDS_PER_ELEM) as nat,
                    r.terminal_len,
                )).len()
                &&& q > 0 ==> r.starts@[q] == r.marks@[q - 1] + query_openings(
                    r.round_info@,
                    r.positions@[q - 1]@,
                    r.rounds as nat,
                ).len() && r.draw_events@[q] == r.open_events@[q - 1] + r.rounds
            },
        p.queries == 0 ==> final(iop).words_view().len() == (old(iop).words_view() + fold_phase_words(
            r.round_info@,
            r.terminal@,
        )).len() && final(iop).event_view().len() == (old(iop).event_view() + fold_phase_events(
            r.rounds as nat,
            (p.ext_size * WORDS_PER_ELEM) as nat,
            r.terminal_len,
        )).len(),
        p.queries > 0 ==> final(iop).words_view().len() == r.marks@[p.queries - 1] + query_openings(
            r.round_info@,
            r.positions@[p.queries - 1]@,
            r.rounds as nat,
        ).len() && final(iop).event_view().len() == r.open_events@[p.queries - 1] + r.rounds,
        r.draw_events@.len() == p.queries,
        r.open_events@.len() == p.queries,
        forall|q: int|
            #![trigger r.open_events@[q]]
            0 <= q < p.queries ==> {
                let evs = query_events(r.round_info@, r.positions@[q]@, r.rounds as nat);
                &&& r.draw_events@[q] < r.open_events@[q]
                &&& r.open_events@[q] + evs.len() <= final(iop).event_view().len()
                &&& final(iop).event_view()[r.draw_events@[q] as int] == IopEvent::Draw
                &&& final(iop).event_view().subrange(r.open_events@[q] as int, r.open_events@[q] + evs.len())
                    == evs
                &&& q + 1 < p.queries ==> r.open_events@[q] + evs.len() <= r.draw_events@[q + 1]
            },
        forall|q: int|
            #![trigger r.marks@[q]]
            0 <= q < p.queries ==> {
                let ops = query_openings(r.round_info@, r.positions@[q]@, r.rounds as nat);
                &&& r.marks@[q] + ops.len() <= final(iop).words_view().len()
                &&& final(iop).words_view().subrange(r.marks@[q] as int, r.marks@[q] + ops.len()) == ops
            },
        (old(iop).event_view() + fold_phase_events(
            r.rounds as nat,
            (p.ext_size * WORDS_PER_ELEM) as nat,
            r.terminal_len,
        )).is_prefix_of(final(iop).event_view()),
{
    let ext_size = p.ext_size;
    let ghost n = (coeffs.len() / ext_size) as nat;
    let ghost total = spec_rounds(n, p.fold as nat, p.min_degree as nat);
    let size = coeffs.len() / ext_size;
    proof {
        assert(n * ext_size <= coeffs.len()) by (nonlinear_arith)
            requires n == coeffs.len() / ext_size, ext_size >= 1;
        assert(n * p.inv_rate <= coeffs.len() * p.inv_rate) by (nonlinear_arith)
            requires n * ext_size <= coeffs.len(), ext_size >= 1;
        assert(n * p.inv_rate <= n * p.inv_rate * ext_size) by (nonlinear_arith)
            requires ext_size >= 1;
    }
    let orig_domain = size * p.inv_rate;
    proof {
        assert(n >= 1) by (nonlinear_arith)
            requires n == coeffs.len() / ext_size, coeffs.len() >= ext_size, ext_size >= 1;
        assert(orig_domain > 0) by (nonlinear_arith)
            requires orig_domain == n * p.inv_rate, n >= 1, p.inv_rate >= 1;
        lemma_round_count(n, *p);
    }
    let mut rounds: Vec<ProveRoundInfo> = Vec::new();
    let mut domains: Vec<usize> = Vec::new();
    let mut cur: Vec<u32> = coeffs.clone();
    while cur.len() / ext_size > p.min_degree
        invariant
            iop.wf(),
            p.wf(),
            ext_size == p.ext_size,
            coeffs.len() * p.inv_rate <= usize::MAX,
            n == coeffs.len() / ext_size,
            total == spec_rounds(n, p.fold as nat, p.min_degree as nat),
            cur.len() % ext_size == 0,
            cur.len() <= coeffs.len(),
            iop.event_view() == old(iop).event_view() + fold_events(
                rounds.len() as nat,
                (ext_size * WORDS_PER_ELEM) as nat,
            ),
            iop.words_view() == old(iop).words_view() + roots_words(rounds@, rounds.len() as nat),
            rounds.len() == 0 ==> cur@ == coeffs@,
            rounds.len() > 0 ==> cur@ == rounds@[rounds.len() - 1].coeffs@,
            iop.pool_view() == fold_pool(
                old(iop).pool_view(),
                rounds@,
                rounds.len() as nat,
                (ext_size * WORDS_PER_ELEM) as nat,
            ),
            cur.len() / ext_size == size_at(n, p.fold as nat, rounds.len() as nat),
            rounds.len() + spec_rounds((cur.len() / ext_size) as nat, p.fold as nat, p.min_degree as nat)
                == total,
            domains@.len() == rounds.len(),
            rounds_match(rounds@, domains@, n, *p),
        decreases cur.len(),
    {
        proof {
            assert(cur.len() * p.inv_rate <= coeffs.len() * p.inv_rate) by (nonlinear_arith)
                requires cur.len() <= coeffs.len();
            assert(cur.len() / ext_size * p.inv_rate >= p.fold) by (nonlinear_arith)
                requires cur.len() / ext_size > p.min_degree, (p.min_degree + 1) * p.inv_rate >= p.fold;
        }
        let ghost k_old = (cur.len() / ext_size) as nat;
        let ghost old_rounds = rounds@;
        let ghost old_events = iop.event_view();
        let ghost old_domains = domains@;
        let round: ProveRoundInfo = ProveRoundInfo::new(hal, iop, &cur, p);
        assert(round.domain == k_old * p.inv_rate);
        assert(round.domain == round_domain(n, *p, rounds.len() as nat));
        proof {
            let k = (cur.len() / ext_size) as nat;
            let k2 = k / p.fold as nat;
            assert(k2 * ext_size <= k * ext_size) by (nonlinear_arith)
                requires k2 == k / p.fold as nat, p.fold >= 2;
            assert(k * ext_size == cur.len()) by (nonlinear_arith)
                requires k == cur.len() / ext_size, cur.len() % ext_size == 0, ext_size >= 1;
            assert(k2 * ext_size < cur.len()) by (nonlinear_arith)
                requires k2 == k / p.fold as nat, p.fold >= 2, k * ext_size == cur.len(), k >= 1,
                    ext_size >= 1;
            assert((k2 * ext_size) / (ext_size as int) == k2) by (nonlinear_arith)
                requires ext_size >= 1;
            assert((k2 * ext_size) % (ext_size as int) == 0) by (nonlinear_arith)
                requires ext_size >= 1;
            assert(size_at(n, p.fold as nat, (rounds.len() + 1) as nat) == k2);
        }
        cur = round.coeffs.clone();
        proof {
            assert(cur@ == round.coeffs@);
        }
        domains.push(round.domain);
        rounds.push(round);
        proof {
            assert(k_old == size_at(n, p.fold as nat, (rounds.len() - 1) as nat));
            let per = (ext_size * WORDS_PER_ELEM) as nat;
            assert(iop.event_view() =~= old(iop).event_view() + fold_events(rounds.len() as nat, per));
            lemma_roots_words_prefix(old_rounds, rounds@, (rounds.len() - 1) as nat);
            lemma_fold_pool_prefix(old(iop).pool_view(), old_rounds, rounds@, (rounds.len() - 1) as nat, per);
            assert(iop.words_view() =~= old(iop).words_view() + roots_words(rounds@, rounds.len() as nat));
            assert forall|i: int| #![trigger domains@[i]] #![trigger rounds@[i]]
                0 <= i < rounds.len() implies domains@[i] == round_domain(n, *p, i as nat)
                && rounds@[i].domain == domains@[i] && rounds@[i].domain / p.fold > 0 by {
                if i < rounds.len() - 1 {
                    assert(rounds@[i] == old_rounds[i]);
                    assert(domains@[i] == old_domains[i]);
                } else {
                    assert(i == rounds.len() - 1);
                    assert(rounds@[i] == round);
                    assert(domains@[i] == round.domain);
                }
            }
            assert(rounds@[rounds.len() - 1].domain == round_domain(n, *p, (rounds.len() - 1) as nat));
            assert(spec_rounds(k_old, p.fold as nat, p.min_degree as nat) == 1 + spec_rounds(
                k_old / p.fold as nat, p.fold as nat, p.min_degree as nat));
        }
    }
    let final_coeffs = hal.bit_reverse(&cur, ext_size);
    iop.write_words(&final_coeffs);
    let digest = hash_words(&final_coeffs);
    iop.commit(&digest);
    let terminal_len = final_coeffs.len();
    let ghost head = old(iop).event_view() + fold_phase_events(
        rounds.len() as nat,
        (ext_size * WORDS_PER_ELEM) as nat,
        terminal_len,
    );
    assert(iop.event_view() =~= head);
    let ghost head_words = old(iop).words_view() + fold_phase_words(rounds@, final_coeffs@);
    let ghost qpool = iop.pool_view();
    assert(qpool == query_pool(
        old(iop).pool_view(),
        rounds@,
        final_coeffs@,
        (ext_size * WORDS_PER_ELEM) as nat,
    ));
    assert(iop.words_view() =~= head_words);
    assert(iop.words_view().subrange(0, head_words.len() as int) =~= head_words);
    assert(iop.event_view().subrange(0, head.len() as int) =~= head);
    proof {
        assert(rounds.len() == total);
        assert(cur.len() == size_at(n, p.fold as nat, total) * ext_size) by (nonlinear_arith)
            requires cur.len() / ext_size == size_at(n, p.fold as nat, total), cur.len() % ext_size == 0,
                ext_size >= 1;
        assert(terminal_len <= p.min_degree * ext_size) by (nonlinear_arith)
            requires terminal_len == size_at(n, p.fold as nat, total) * ext_size,
                size_at(n, p.fold as nat, total) <= p.min_degree;
    }
    let mut positions: Vec<Vec<usize>> = Vec::new();
    let mut draws: Vec<u32> = Vec::new();
    let mut marks: Vec<usize> = Vec::new();
    let mut starts: Vec<usize> = Vec::new();
    let mut draw_events: Vec<usize> = Vec::new();
    let mut open_events: Vec<usize> = Vec::new();
    let mut openings: usize = 0;
    let mut q: usize = 0;
    while q < p.queries
        invariant
            iop.wf(),
            q <= p.queries,
            orig_domain > 0,
            head.is_prefix_of(iop.event_view()),
            head_words.is_prefix_of(iop.words_view()),
            p.wf(),
            rounds.len() == total,
            domains@.len() == rounds.len(),
            p.queries * total <= usize::MAX,
            openings == q * total,
            positions@.len() == q,
            draws@.len() == q,
            marks@.len() == q,
            starts@.len() == q,
            hook.calls() == old(hook).calls() + Seq::new(q as nat, |j: int| positions@[j]@[0]),
            iop.pool_view() == pool_after(qpool, q as nat),
            forall|j: int| 0 <= j < q ==> #[trigger] draws@[j] == draw_value(qpool, j as nat),
            q == 0 ==> iop.words_view().len() == head_words.len() && iop.event_view().len() == head.len(),
            q > 0 ==> iop.words_view().len() == marks@[q - 1] + query_openings(
                rounds@,
                positions@[q - 1]@,
                total,
            ).len() && iop.event_view().len() == open_events@[q - 1] + total,
            forall|j: int|
                #![trigger starts@[j]]
                0 <= j < q ==> {
                    &&& starts@[j] <= marks@[j]
                    &&& j == 0 ==> starts@[j] == head_words.len() && draw_events@[j] == head.len()
                    &&& j > 0 ==> starts@[j] == marks@[j - 1] + query_openings(
                        rounds@,
                        positions@[j - 1]@,
                        total,
                    ).len() && draw_events@[j] == open_events@[j - 1] + total
                },
            draw_events@.len() == q,
            open_events@.len() == q,
            q > 0 ==> open_events@[q - 1] + query_events(rounds@, positions@[q - 1]@, total).len()
                <= iop.event_view().len(),
            forall|j: int|
                #![trigger open_events@[j]]
                0 <= j < q ==> {
                    let evs = query_events(rounds@, positions@[j]@, total);
                    &&& draw_events@[j] < open_events@[j]
                    &&& open_events@[j] + evs.len() <= iop.event_view().len()
                    &&& iop.event_view()[draw_events@[j] as int] == IopEvent::Draw
                    &&& iop.event_view().subrange(open_events@[j] as int, open_events@[j] + evs.len())
                        == evs
                    &&& j + 1 < q ==> open_events@[j] + evs.len() <= draw_events@[j + 1]
                },
            forall|j: int|
                #![trigger marks@[j]]
                0 <= j < q ==> {
                    let ops = query_openings(rounds@, positions@[j]@, total);
                    &&& marks@[j] + ops.len() <= iop.words_view().len()
                    &&& iop.words_view().subrange(marks@[j] as int, marks@[j] + ops.len()) == ops
                },
            rounds_match(rounds@, domains@, n, *p),
            forall|j: int|
                #![trigger positions@[j]]
                0 <= j < q ==> {
                    &&& positions@[j]@.len() == total + 1
                    &&& positions@[j]@[0] < orig_domain
                    &&& positions@[j]@[0] == draws@[j] as usize % orig_domain
                    &&& forall|i: int|
                        0 <= i <= total ==> #[trigger] positions@[j]@[i] == reduced_position(
                            positions@[j]@[0] as nat,
                            n,
                            *p,
                            i as nat,
                        )
                },
        decreases p.queries - q,
    {
        let ghost w_start = iop.words_view();
        let ghost calls_before = hook.calls();
        let word_start = iop.proof_words().len();
        let ghost e0 = iop.event_view();
        let draw_at = iop.events().len();
        let draw = iop.next_u32();
        proof {
            lemma_draw_shift(qpool, q as nat);
            lemma_pool_after_add(qpool, q as nat, 1);
        }
        proof {
            lemma_prefix_push(head, e0, IopEvent::Draw);
        }
        let ghost e1 = iop.event_view();
        let mut pos: usize = draw as usize % orig_domain;
        let start = pos;
        hook.on_query(iop, pos);
        assert(hook.calls() == calls_before.push(pos));
        proof {
            lemma_prefix_trans(head, e1, iop.event_view());
        }
        let mark = iop.proof_words().len();
        let open_at = iop.events().len();
        let ghost e_mark = iop.event_view();
        proof {
            assert(e_mark + query_events(rounds@, seq![pos], 0) =~= e_mark);
        }
        let ghost w_mark = iop.words_view();
        assert(w_mark + query_openings(rounds@, seq![pos], 0) =~= w_mark);
        let mut trail: Vec<usize> = Vec::new();
        trail.push(pos);
        let mut i: usize = 0;
        proof {
            assert(q * total + total <= p.queries * total) by (nonlinear_arith)
                requires q < p.queries;
        }
        while i < rounds.len()
            invariant
                iop.wf(),
                head.is_prefix_of(iop.event_view()),
                iop.words_view() == w_mark + query_openings(rounds@, trail@, i as nat),
                iop.pool_view() == pool_after(qpool, (q + 1) as nat),
                iop.event_view() == e_mark + query_events(rounds@, trail@, i as nat),
                i <= rounds.len(),
                p.wf(),
                rounds.len() == total,
                domains@.len() == rounds.len(),
                openings == q * total + i,
                q * total + total <= usize::MAX,
                trail@.len() == i + 1,
                trail@[0] == start,
                pos == trail@[i as int],
                rounds_match(rounds@, domains@, n, *p),
                forall|k: int|
                    0 <= k <= i ==> trail@[k] == reduced_position(start as nat, n, *p, k as nat),
            decreases rounds.len() - i,
        {
            let ghost e2 = iop.event_view();
            let ghost t_old = trail@;
            rounds[i].prove_query(iop, &mut pos, p);
            proof {
                lemma_prefix_push(head, e2, iop.event_view().last());
            }
            trail.push(pos);
            openings = openings + 1;
            i = i + 1;
            proof {
                lemma_query_openings_prefix(rounds@, t_old, trail@, (i - 1) as nat);
                lemma_query_events_prefix(rounds@, t_old, trail@, (i - 1) as nat);
                assert(iop.event_view() =~= e_mark + query_events(rounds@, trail@, i as nat));
                assert(iop.words_view() =~= w_mark + query_openings(rounds@, trail@, i as nat));
                assert(rounds@[i - 1].domain == round_domain(n, *p, (i - 1) as nat));
                assert(trail@[i as int] == reduced_position(start as nat, n, *p, i as nat));
            }
        }
        proof {
            let ops = query_openings(rounds@, trail@, total);
            assert(iop.words_view().subrange(mark as int, mark + ops.len()) =~= ops);
            lemma_prefix_trans(w_start, w_mark, iop.words_view());
            lemma_prefix_trans(head_words, w_start, iop.words_view());
            let evs = query_events(rounds@, trail@, total);
            assert(iop.event_view().subrange(open_at as int, open_at + evs.len()) =~= evs);
            assert(e1[draw_at as int] == IopEvent::Draw);
            assert(e1.is_prefix_of(e_mark));
            assert(e_mark.is_prefix_of(iop.event_view())) by {
                assert(iop.event_view().subrange(0, e_mark.len() as int) =~= e_mark);
            }
            assert(e1.subrange(0, e0.len() as int) =~= e0);
            lemma_prefix_trans(e0, e1, e_mark);
            lemma_prefix_trans(e0, e_mark, iop.event_view());
            lemma_prefix_trans(e1, e_mark, iop.event_view());
            assert(iop.event_view()[draw_at as int] == e1[draw_at as int]) by {
                assert(iop.event_view().subrange(0, e1.len() as int) == e1);
            }
            assert forall|j: int| #![trigger open_events@[j]] 0 <= j < q implies {
                let evs = query_events(rounds@, positions@[j]@, total);
                &&& draw_events@[j] < open_events@[j]
                &&& open_events@[j] + evs.len() <= iop.event_view().len()
                &&& iop.event_view()[draw_events@[j] as int] == IopEvent::Draw
                &&& iop.event_view().subrange(open_events@[j] as int, open_events@[j] + evs.len()) == evs
                &&& j + 1 < q ==> open_events@[j] + evs.len() <= draw_events@[j + 1]
            } by {
                let evs = query_events(rounds@, positions@[j]@, total);
                lemma_subrange_of_prefix(e0, iop.event_view(), open_events@[j] as int, open_events@[j] + evs.len());
                assert(iop.event_view()[draw_events@[j] as int] == e0[draw_events@[j] as int]) by {
                    assert(iop.event_view().subrange(0, e0.len() as int) == e0);
                }
            }
            assert forall|j: int| #![trigger marks@[j]] 0 <= j < q implies {
                let ops = query_openings(rounds@, positions@[j]@, total);
                &&& marks@[j] + ops.len() <= iop.words_view().len()
                &&& iop.words_view().subrange(marks@[j] as int, marks@[j] + ops.len()) == ops
            } by {
                let ops = query_openings(rounds@, positions@[j]@, total);
                lemma_subrange_of_prefix(w_start, iop.words_view(), marks@[j] as int, marks@[j] + ops.len());
            }
        }
        proof {
            lemma_query_events_len(rounds@, trail@, total);
        }
        let ghost old_positions = positions@;
        let ghost old_starts = starts@;
        let ghost old_marks = marks@;
        let ghost old_draw_events = draw_events@;
        let ghost old_open_events = open_events@;
        positions.push(trail);
        draws.push(draw);
        marks.push(mark);
        starts.push(word_start);
        draw_events.push(draw_at);
        open_events.push(open_at);
        proof {
            assert(draw_events@[q as int] == draw_at);
            assert(positions@[q as int] == trail);
            assert forall|j: int| 0 <= j < q implies #[trigger] positions@[j] == old_positions[j] by {}
            assert(w_start.is_prefix_of(w_mark));
            assert(word_start <= mark);
            assert(starts@[q as int] <= marks@[q as int]);
            if q > 0 {
                assert(positions@[q - 1] == old_positions[q - 1]);
                assert(starts@[q as int] == marks@[q - 1] + query_openings(rounds@, positions@[q - 1]@, total).len());
                assert(draw_events@[q as int] == open_events@[q - 1] + total);
            }
            assert forall|j: int|
                #![trigger starts@[j]]
                0 <= j < q + 1 implies {
                    &&& starts@[j] <= marks@[j]
                    &&& j == 0 ==> starts@[j] == head_words.len() && draw_events@[j] == head.len()
                    &&& j > 0 ==> starts@[j] == marks@[j - 1] + query_openings(
                        rounds@,
                        positions@[j - 1]@,
                        total,
                    ).len() && draw_events@[j] == open_events@[j - 1] + total
                } by {
                if j < q {
                    assert(starts@[j] == old_starts[j]);
                    assert(marks@[j] == old_marks[j]);
                    assert(draw_events@[j] == old_draw_events[j]);
                    assert(old_starts[j] <= old_marks[j]);
                    if j > 0 {
                        assert(positions@[j - 1] == old_positions[j - 1]);
                        assert(marks@[j - 1] == old_marks[j - 1]);
                        assert(open_events@[j - 1] == old_open_events[j - 1]);
                    }
                }
            }
            assert(hook.calls() =~= old(hook).calls() + Seq::new((q + 1) as nat, |j: int| positions@[j]@[0]));
        }
        q = q + 1;
        proof {
            assert(openings == q * total) by (nonlinear_arith)
                requires openings == (q - 1) * total + total;
        }
    }
    proof {
        assert forall|j: int|
            #![trigger starts@[j]]
            0 <= j < p.queries implies {
                &&& starts@[j] <= marks@[j]
                &&& j == 0 ==> starts@[j] == (old(iop).words_view() + fold_phase_words(
                    rounds@,
                    final_coeffs@,
                )).len() && draw_events@[j] == (old(iop).event_view() + fold_phase_events(
                    rounds.len() as nat,
                    (p.ext_size * WORDS_PER_ELEM) as nat,
                    terminal_len,
                )).len()
                &&& j > 0 ==> starts@[j] == marks@[j - 1] + query_openings(
                    rounds@,
                    positions@[j - 1]@,
                    rounds.len() as nat,
                ).len() && draw_events@[j] == open_events@[j - 1] + rounds.len()
            } by {
            assert(0 <= j < q);
        }
    }
    let ghost rounds_ghost = rounds@;
    let ghost starts_ghost = starts@;
    let nrounds = rounds.len();
    let report = FriReport {
        rounds: nrounds,
        orig_domain,
        domains,
        draws,
        positions,
        openings,
        round_info: rounds,
        marks,
        starts,
        draw_events,
        open_events,
        terminal_len,
        terminal: final_coeffs,
    };
    proof {
        assert(report.round_info@ == rounds_ghost);
        assert forall|q: int|
            #![trigger report.starts@[q]]
            0 <= q < p.queries implies {
                &&& report.starts@[q] <= report.marks@[q]
                &&& q == 0 ==> report.starts@[q] == (old(iop).words_view() + fold_phase_words(
                    report.round_info@,
                    report.terminal@,
                )).len() && report.draw_events@[q] == (old(iop).event_view() + fold_phase_events(
                    report.rounds as nat,
                    (p.ext_size * WORDS_PER_ELEM) as nat,
                    report.terminal_len,
                )).len()
                &&& q > 0 ==> report.starts@[q] == report.marks@[q - 1] + query_openings(
                    report.round_info@,
                    report.positions@[q - 1]@,
                    report.rounds as nat,
                ).len() && report.draw_events@[q] == report.open_events@[q - 1] + report.rounds
            } by {
            assert(report.starts@[q] == starts_ghost[q]);
        }
    }
    report
}

/// Position of the `t`-th event of round `j` among the folding events,
/// with `per_round` draws per round.
pub open spec fn event_index(j: nat, t: nat, per_round: nat) -> int {
    (j * (per_round + 1) + t) as int
}

/// Commit before challenge: in the folding phase every round's events are
/// its commitment followed by the draws of its challenge, so each draw comes
/// after the commitment of the round it belongs to.
pub proof fn lemma_commit_before_challenge(k: nat, per_round: nat)
    ensures
        fold_events(k, per_round).len() == k * (per_round + 1),
        forall|j: nat, t: nat|
            j < k && t <= per_round ==> #[trigger] fold_events(k, per_round)[event_index(j, t, per_round)]
                == if t == 0 {
                IopEvent::Commit
            } else {
                IopEvent::Draw
            },
    decreases k,
{
    let d = per_round;
    if k > 0 {
        let km = (k - 1) as nat;
        lemma_commit_before_challenge(km, d);
        let prev = fold_events(km, d);
        let cur = fold_events(k, d);
        assert(cur == prev.push(IopEvent::Commit) + draws(d));
        assert(cur.len() == k * (d + 1)) by (nonlinear_arith)
            requires cur.len() == prev.len() + 1 + d, prev.len() == km * (d + 1), k == km + 1;
        assert forall|j: nat, t: nat| j < k && t <= d implies #[trigger] cur[event_index(j, t, d)]
            == if t == 0 {
            IopEvent::Commit
        } else {
            IopEvent::Draw
        } by {
            if j < km {
                assert(event_index(j, t, d) < km * (d + 1)) by (nonlinear_arith)
                    requires j < km, t <= d, event_index(j, t, d) == j * (d + 1) + t;
                assert(cur[event_index(j, t, d)] == prev[event_index(j, t, d)]);
            } else {
                assert(event_index(j, t, d) == km * (d + 1) + t);
            }
        }
    }
}

proof fn lemma_prefix_push(h: Seq<IopEvent>, a: Seq<IopEvent>, x: IopEvent)
    requires
        h.is_prefix_of(a),
    ensures
        h.is_prefix_of(a.push(x)),
{
    assert(a.push(x).subrange(0, h.len() as int) =~= a.subrange(0, h.len() as int));
}

proof fn lemma_prefix_trans<A>(h: Seq<A>, a: Seq<A>, b: Seq<A>)
    requires
        h.is_prefix_of(a),
        a.is_prefix_of(b),
    ensures
        h.is_prefix_of(b),
{
    assert(b.subrange(0, h.len() as int) =~= a.subrange(0, h.len() as int));
}

proof fn lemma_subrange_of_prefix<A>(a: Seq<A>, b: Seq<A>, s: int, e: int)
    requires
        a.is_prefix_of(b),
        0 <= s <= e <= a.len(),
    ensures
        e <= b.len(),
        b.subrange(s, e) == a.subrange(s, e),
{
    assert(b.subrange(s, e) =~= a.subrange(s, e));
}

proof fn lemma_query_openings_prefix(rounds: Seq<ProveRoundInfo>, t1: Seq<usize>, t2: Seq<usize>, i: nat)
    requires
        i < t1.len(),
        i < t2.len(),
        forall|k: int| 0 <= k <= i ==> t1[k] == t2[k],
    ensures
        query_openings(rounds, t1, i) == query_openings(rounds, t2, i),
    decreases i,
{
    if i > 0 {
        lemma_query_openings_prefix(rounds, t1, t2, (i - 1) as nat);
    }
}

proof fn lemma_roots_words_prefix(r1: Seq<ProveRoundInfo>, r2: Seq<ProveRoundInfo>, k: nat)
    requires
        k <= r1.len(),
        k <= r2.len(),
        forall|i: int| 0 <= i < k ==> r1[i] == r2[i],
    ensures
        roots_words(r1, k) == roots_words(r2, k),
    decreases k,
{
    if k > 0 {
        lemma_roots_words_prefix(r1, r2, (k - 1) as nat);
    }
}

proof fn lemma_query_events_prefix(rounds: Seq<ProveRoundInfo>, t1: Seq<usize>, t2: Seq<usize>, i: nat)
    requires
        i < t1.len(),
        i < t2.len(),
        forall|k: int| 0 <= k <= i ==> t1[k] == t2[k],
    ensures
        query_events(rounds, t1, i) == query_events(rounds, t2, i),
    decreases i,
{
    if i > 0 {
        lemma_query_events_prefix(rounds, t1, t2, (i - 1) as nat);
    }
}

proof fn lemma_query_events_len(rounds: Seq<ProveRoundInfo>, trail: Seq<usize>, i: nat)
    ensures
        query_events(rounds, trail, i).len() == i,
    decreases i,
{
    if i > 0 {
        lemma_query_events_len(rounds, trail, (i - 1) as nat);
    }
}

proof fn lemma_fold_pool_prefix(
    pool: Seq<u8>,
    r1: Seq<ProveRoundInfo>,
    r2: Seq<ProveRoundInfo>,
    k: nat,
    per_round: nat,
)
    requires
        k <= r1.len(),
        k <= r2.len(),
        forall|i: int| 0 <= i < k ==> r1[i] == r2[i],
    ensures
        fold_pool(pool, r1, k, per_round) == fold_pool(pool, r2, k, per_round),
    decreases k,
{
    if k > 0 {
        lemma_fold_pool_prefix(pool, r1, r2, (k - 1) as nat, per_round);
    }
}

} // verus!
