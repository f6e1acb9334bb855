use risc0_fri::fri::{fri_prove, ProveRoundInfo};
use risc0_fri::guest::GuestOptions;
use risc0_fri::hal::{Hal, PositionLog, PositionWriter};
use risc0_fri::params::{num_rounds, FriParams, EXT_SIZE, FRI_FOLD, FRI_MIN_DEGREE, INV_RATE, QUERIES};
use risc0_fri::transcript::{digest_to_words, hash_words, IopEvent, WriteIop, FIELD_P};

/// A small backend: evaluation pads with zeros, folding sums each group of
/// slices weighted by the first challenge component.
struct ToyHal;

impl Hal for ToyHal {
    fn expand_evaluate(&self, coeffs: &Vec<u32>, ext_size: usize, domain: usize, _inv_rate: usize) -> Vec<u32> {
        let mut out = coeffs.clone();
        out.resize(domain * ext_size, 0);
        out
    }

    fn fri_fold(&self, coeffs: &Vec<u32>, mix: &Vec<u32>, ext_size: usize, fold: usize) -> Vec<u32> {
        let n = coeffs.len() / ext_size / fold;
        let mut out = vec![0u32; n * ext_size];
        for i in 0..n * ext_size {
            let mut acc: u64 = 0;
            for k in 0..fold {
                acc = (acc * mix[0] as u64 + coeffs[k * n * ext_size + i] as u64) % FIELD_P as u64;
            }
            out[i] = acc as u32;
        }
        out
    }

    fn bit_reverse(&self, coeffs: &Vec<u32>, ext_size: usize) -> Vec<u32> {
        let n = coeffs.len() / ext_size;
        if !n.is_power_of_two() {
            return coeffs.clone();
        }
        let bits = n.trailing_zeros();
        let mut out = vec![0u32; coeffs.len()];
        for i in 0..n {
            let j = if bits == 0 { 0 } else { i.reverse_bits() >> (usize::BITS - bits) };
            out[j * ext_size..(j + 1) * ext_size].copy_from_slice(&coeffs[i * ext_size..(i + 1) * ext_size]);
        }
        out
    }
}

fn small_params(queries: usize) -> FriParams {
    FriParams { ext_size: 4, fold: 2, min_degree: 2, inv_rate: 2, queries }
}

fn coeffs(len: usize) -> Vec<u32> {
    (0..len as u32).map(|i| i * 7 + 1).collect()
}

#[test]
fn round_count_example() {
    let p = FriParams { ext_size: 1, fold: 8, min_degree: 16, inv_rate: 4, queries: 1 };
    assert_eq!(num_rounds(1024, &p), 2);
    assert_eq!(num_rounds(16, &p), 0);
    assert_eq!(num_rounds(17, &p), 1);
}

#[test]
fn round_count_counts_extension_elements() {
    let p = small_params(1);
    assert_eq!(num_rounds(32, &p), 2);
    assert_eq!(num_rounds(8, &p), 0);
}

#[test]
fn standard_params_are_the_protocol_constants() {
    let p = FriParams::standard();
    assert_eq!(p.ext_size, EXT_SIZE);
    assert_eq!(p.fold, FRI_FOLD);
    assert_eq!(p.min_degree, FRI_MIN_DEGREE);
    assert_eq!(p.inv_rate, INV_RATE);
    assert_eq!(p.queries, QUERIES);
}

#[test]
fn end_to_end_small_configuration() {
    let p = small_params(3);
    let mut iop = WriteIop::new(&b"seed".to_vec());
    let report = fri_prove(&ToyHal, &mut iop, &coeffs(32), &mut PositionLog::new(), &p);
    assert_eq!(report.orig_domain, 16);
    assert_eq!(report.rounds, 2);
    assert_eq!(report.domains, vec![16, 8]);
    assert_eq!(report.terminal_len, 2 * 4);
    assert_eq!(report.openings, 3 * 2);
    // Two roots, the terminal polynomial and its digest, then per query one
    // opening in each tree: a row of fold * ext_size entries and a path of
    // three digests (eight rows) or two digests (four rows).
    assert_eq!(iop.proof_words().len(), 2 * 8 + 8 + 8 + 3 * ((8 + 3 * 8) + (8 + 2 * 8)));
}

#[test]
fn positions_reduce_modulo_folded_domain() {
    let p = small_params(5);
    let mut iop = WriteIop::new(&b"positions".to_vec());
    let report = fri_prove(&ToyHal, &mut iop, &coeffs(32), &mut PositionLog::new(), &p);
    assert_eq!(report.positions.len(), 5);
    for (q, trail) in report.positions.iter().enumerate() {
        assert_eq!(trail[0], report.draws[q] as usize % 16);
        assert_eq!(trail.len(), 3);
        let start = trail[0];
        assert!(start < 16);
        assert_eq!(trail[1], start % 8);
        assert_eq!(trail[2], start % 4);
    }
}

#[test]
fn proving_is_deterministic() {
    let p = small_params(4);
    let mut a = WriteIop::new(&b"same".to_vec());
    let mut b = WriteIop::new(&b"same".to_vec());
    let ra = fri_prove(&ToyHal, &mut a, &coeffs(32), &mut PositionLog::new(), &p);
    let rb = fri_prove(&ToyHal, &mut b, &coeffs(32), &mut PositionLog::new(), &p);
    assert_eq!(a.proof_words(), b.proof_words());
    assert_eq!(a.events(), b.events());
    assert_eq!(ra.positions, rb.positions);
}

#[test]
fn different_seeds_give_different_proofs() {
    let p = small_params(4);
    let mut a = WriteIop::new(&b"one".to_vec());
    let mut b = WriteIop::new(&b"two".to_vec());
    fri_prove(&ToyHal, &mut a, &coeffs(32), &mut PositionLog::new(), &p);
    fri_prove(&ToyHal, &mut b, &coeffs(32), &mut PositionLog::new(), &p);
    assert_ne!(a.proof_words(), b.proof_words());
}

#[test]
fn round_commits_before_drawing_challenge() {
    let p = small_params(1);
    let mut iop = WriteIop::new(&b"round".to_vec());
    let round: ProveRoundInfo = ProveRoundInfo::new(&ToyHal, &mut iop, &coeffs(32), &p);
    let events = iop.events();
    assert_eq!(events.len(), 1 + 4 * 6);
    assert_eq!(events[0], IopEvent::Commit);
    assert!(events[1..].iter().all(|e| *e == IopEvent::Draw));
    assert_eq!(round.domain, 16);
    assert_eq!(round.coeffs.len(), 16);
    assert_eq!(round.fold_mix.len(), 4);
    assert!(round.fold_mix.iter().all(|x| *x < FIELD_P));
    assert_eq!(iop.proof_words().len(), 8);
}

#[test]
fn query_opens_group_and_reduces_position() {
    let p = small_params(1);
    let mut iop = WriteIop::new(&b"query".to_vec());
    let round: ProveRoundInfo = ProveRoundInfo::new(&ToyHal, &mut iop, &coeffs(32), &p);
    let before = iop.proof_words().len();
    let mut pos: usize = 13;
    round.prove_query(&mut iop, &mut pos, &p);
    assert_eq!(pos, 13 % 8);
    assert_eq!(iop.proof_words().len(), before + 8 + 3 * 8);
    assert_eq!(*iop.events().last().unwrap(), IopEvent::Write(32));
    // The opened row holds the entries of group 5 in each column.
    let words = iop.proof_words();
    let c = coeffs(32);
    for col in 0..8 {
        let idx = col * 8 + 5;
        let expected = if idx < 32 { c[idx] } else { 0 };
        assert_eq!(words[before + col], expected);
    }
}

#[test]
fn hook_runs_once_per_query_before_openings() {
    let p = small_params(3);
    let mut iop = WriteIop::new(&b"hook".to_vec());
    let mut hook = PositionWriter::new();
    let report = fri_prove(&ToyHal, &mut iop, &coeffs(32), &mut hook, &p);
    let starts: Vec<usize> = report.positions.iter().map(|t| t[0]).collect();
    assert_eq!(hook.positions, starts);
    // Each query: a draw, the hook's write, then one write per round.
    let tail: Vec<IopEvent> = iop.events()[iop.events().len() - 4..].to_vec();
    assert_eq!(tail, vec![IopEvent::Draw, IopEvent::Write(1), IopEvent::Write(32), IopEvent::Write(24)]);
}

#[test]
fn terminal_already_small_has_no_rounds() {
    let p = small_params(2);
    let mut iop = WriteIop::new(&b"small".to_vec());
    let report = fri_prove(&ToyHal, &mut iop, &coeffs(8), &mut PositionLog::new(), &p);
    assert_eq!(report.rounds, 0);
    assert_eq!(report.orig_domain, 4);
    assert_eq!(report.terminal_len, 8);
    assert_eq!(report.openings, 0);
    assert_eq!(report.positions, vec![vec![report.positions[0][0]], vec![report.positions[1][0]]]);
}

#[test]
fn standard_configuration_single_round() {
    let p = FriParams::standard();
    let mut iop = WriteIop::new(&Vec::new());
    let report = fri_prove(&ToyHal, &mut iop, &coeffs(4096 * 4), &mut PositionLog::new(), &p);
    assert_eq!(report.rounds, 1);
    assert_eq!(report.orig_domain, 16384);
    assert_eq!(report.terminal_len, 256 * 4);
    assert_eq!(report.openings, 50);
}

#[test]
fn hash_words_is_sha256_of_le_bytes() {
    let d = hash_words(&vec![0x6463_6261]);
    let expected: Vec<u8> = vec![
        0x88, 0xd4, 0x26, 0x6f, 0xd4, 0xe6, 0x33, 0x8d, 0x13, 0xb8, 0x45, 0xfc, 0xf2, 0x89, 0x57, 0x9d,
        0x20, 0x9c, 0x89, 0x78, 0x23, 0xb9, 0x21, 0x7d, 0xa3, 0xe1, 0x61, 0x93, 0x6f, 0x03, 0x15, 0x89,
    ];
    assert_eq!(d, expected);
}

#[test]
fn commit_appends_digest_words() {
    let mut iop = WriteIop::new(&Vec::new());
    let digest: Vec<u8> = (0u8..32).collect();
    iop.commit(&digest);
    assert_eq!(iop.proof_words().len(), 8);
    assert_eq!(iop.proof_words()[0], 0x0302_0100);
    assert_eq!(iop.proof_words()[7], 0x1f1e_1d1c);
    assert_eq!(iop.events(), &vec![IopEvent::Commit]);
}

#[test]
fn commit_changes_the_draws() {
    let mut a = WriteIop::new(&Vec::new());
    let mut b = WriteIop::new(&Vec::new());
    b.commit(&vec![1u8; 32]);
    assert_ne!(a.next_u32(), b.next_u32());
}

#[test]
fn successive_draws_differ() {
    let mut iop = WriteIop::new(&b"draws".to_vec());
    let x = iop.next_u32();
    let y = iop.next_u32();
    assert_ne!(x, y);
    assert_eq!(iop.events().len(), 2);
}

#[test]
fn random_elements_are_reduced() {
    let mut iop = WriteIop::new(&b"elems".to_vec());
    for _ in 0..20 {
        assert!(iop.random_elem() < FIELD_P);
    }
    assert_eq!(iop.events().len(), 20 * 6);
    let ext = iop.random_ext(4);
    assert_eq!(ext.len(), 4);
}

#[test]
fn guest_options_default() {
    let o = GuestOptions::default();
    assert!(o.features.is_empty());
    assert!(o.std);
}

#[test]
fn folding_phase_commits_before_each_challenge() {
    let p = small_params(2);
    let mut iop = WriteIop::new(&b"phase".to_vec());
    let report = fri_prove(&ToyHal, &mut iop, &coeffs(32), &mut PositionLog::new(), &p);
    let events = iop.events();
    let per_round = 1 + 4 * 6;
    for r in 0..report.rounds {
        assert_eq!(events[r * per_round], IopEvent::Commit);
        for t in 1..per_round {
            assert_eq!(events[r * per_round + t], IopEvent::Draw);
        }
    }
    let after = report.rounds * per_round;
    assert_eq!(events[after], IopEvent::Write(report.terminal_len));
    assert_eq!(events[after + 1], IopEvent::Commit);
    assert_eq!(events.len(), after + 2 + 2 * (1 + report.rounds));
}

#[test]
fn transcript_holds_roots_terminal_digest_and_openings() {
    let p = small_params(2);
    let mut iop = WriteIop::new(&b"layout".to_vec());
    let report = fri_prove(&ToyHal, &mut iop, &coeffs(32), &mut PositionLog::new(), &p);
    let words = iop.proof_words().clone();
    assert_eq!(report.round_info.len(), 2);
    let mut at = 0;
    for round in &report.round_info {
        let root = round.merkle.root();
        assert_eq!(root, round.root);
        assert_eq!(words[at..at + 8].to_vec(), digest_to_words(&root));
        at += 8;
    }
    assert_eq!(words[at..at + report.terminal_len].to_vec(), report.terminal);
    at += report.terminal_len;
    assert_eq!(words[at..at + 8].to_vec(), digest_to_words(&hash_words(&report.terminal)));
    for q in 0..2 {
        let mut m = report.marks[q];
        for (i, round) in report.round_info.iter().enumerate() {
            let opening = round.merkle.open(report.positions[q][i + 1]);
            assert_eq!(words[m..m + opening.len()].to_vec(), opening);
            m += opening.len();
        }
    }
}

#[test]
fn each_query_draws_then_hooks_then_opens_every_round() {
    let p = small_params(3);
    let mut iop = WriteIop::new(&b"order".to_vec());
    let mut hook = PositionWriter::new();
    let report = fri_prove(&ToyHal, &mut iop, &coeffs(32), &mut hook, &p);
    let events = iop.events();
    for q in 0..3 {
        let d = report.draw_events[q];
        let o = report.open_events[q];
        assert_eq!(events[d], IopEvent::Draw);
        assert_eq!(events[d + 1], IopEvent::Write(1));
        assert_eq!(o, d + 2);
        assert_eq!(events[o..o + 2].to_vec(), vec![IopEvent::Write(32), IopEvent::Write(24)]);
        assert_eq!(hook.positions[q], report.draws[q] as usize % 16);
    }
}

#[test]
fn hook_log_and_draws_and_layout() {
    let p = small_params(4);
    let mut iop = WriteIop::new(&b"exact".to_vec());
    let mut hook = PositionLog::new();
    let report = fri_prove(&ToyHal, &mut iop, &coeffs(32), &mut hook, &p);
    let starts: Vec<usize> = report.positions.iter().map(|t| t[0]).collect();
    assert_eq!(hook.positions, starts);
    assert!(hook.positions.iter().all(|x| *x < 16));
    // The query draws continue the generator after the terminal commitment.
    let mut replay = WriteIop::new(&b"exact".to_vec());
    for round in &report.round_info {
        replay.commit(&round.root);
        replay.random_ext(4);
    }
    replay.commit(&hash_words(&report.terminal));
    for q in 0..4 {
        assert_eq!(replay.next_u32(), report.draws[q]);
    }
    // Without a hook's words, each query's openings start where it begins.
    assert_eq!(report.starts[0], 2 * 8 + 8 + 8);
    for q in 0..4 {
        assert_eq!(report.starts[q], report.marks[q]);
    }
    assert_eq!(iop.proof_words().len(), report.marks[3] + 32 + 24);
    assert_eq!(report.draw_events[0], 2 * 25 + 2);
    assert_eq!(iop.events().len(), report.open_events[3] + 2);
}

#[test]
fn terminal_is_bit_reversal_of_last_round() {
    let p = FriParams { ext_size: 1, fold: 2, min_degree: 4, inv_rate: 2, queries: 1 };
    let mut iop = WriteIop::new(&b"terminal".to_vec());
    let report = fri_prove(&ToyHal, &mut iop, &coeffs(16), &mut PositionLog::new(), &p);
    assert_eq!(report.rounds, 2);
    let last = &report.round_info[1].coeffs;
    assert_eq!(last.len(), 4);
    assert_eq!(report.terminal, vec![last[0], last[2], last[1], last[3]]);
}
