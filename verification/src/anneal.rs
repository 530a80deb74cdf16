//! Search over symbol-to-letter assignments: steepest-ascent polishing and
//! the integer skeleton of simulated annealing. The temperature schedule is
//! supplied by the caller as an acceptance rule.
use vstd::prelude::*;
use crate::model::{ALPHABET, MAX_TEXT_LEN, ModelView, NgramModel, all_letters};
use crate::rng::{
    Rng,
    RngState,
    derived_seed,
    scale_below,
    seeded_state,
    xoshiro_advance,
    xoshiro_output,
    xoshiro_step,
};
use crate::score_spec::{cipher_score, decipher, symbol_count};
use crate::cipher::decrypt_with;
use std::time::Duration;
use crate::scorer::{LnFactorials, Scorer};

verus! {

/// Random moves used to measure the typical score loss of a move.
pub const CALIBRATION_MOVES: usize = 400;

/// Smallest and largest default move budgets.
pub const MIN_AUTO_ITERATIONS: u64 = 200_000;

pub const MAX_AUTO_ITERATIONS: u64 = 20_000_000;

/// Default budget per symbol and letter.
pub const SWEEPS_PER_ASSIGNMENT: u64 = 800;

/// The default move budget for `num_symbols` symbols.
pub open spec fn auto_iterations_spec(num_symbols: nat) -> int {
    let n = if num_symbols == 0 {
        1
    } else {
        num_symbols
    };
    let raw = n * 26 * 800;
    if raw < 200_000 {
        200_000
    } else if raw > 20_000_000 {
        20_000_000
    } else {
        raw as int
    }
}

/// Default move budget: enough sweeps over (symbol, letter) pairs that every
/// assignment is tried many times while the temperature falls.
pub fn auto_iterations(num_symbols: usize) -> (r: u64)
    requires
        num_symbols * 26 * 800 <= u64::MAX,
    ensures
        r == auto_iterations_spec(num_symbols as nat),
{
    let n: u64 = if num_symbols == 0 {
        1
    } else {
        num_symbols as u64
    };
    let raw = n * (ALPHABET as u64) * SWEEPS_PER_ASSIGNMENT;
    if raw < MIN_AUTO_ITERATIONS {
        MIN_AUTO_ITERATIONS
    } else if raw > MAX_AUTO_ITERATIONS {
        MAX_AUTO_ITERATIONS
    } else {
        raw
    }
}

/// The restarts and the moves per restart a solve runs: at least one
/// restart, and `iterations` moves, or the default budget when it is 0.
pub fn run_plan(restarts: usize, iterations: u64, num_symbols: usize) -> (r: (usize, u64))
    ensures
        r.0 == if restarts == 0 {
            1
        } else {
            restarts
        },
        r.1 == if iterations == 0 {
            auto_iterations_spec(num_symbols as nat)
        } else {
            iterations as int
        },
{
    let runs = if restarts == 0 {
        1
    } else {
        restarts
    };
    let moves = if iterations != 0 {
        iterations
    } else if num_symbols > 20_000_000 {
        MAX_AUTO_ITERATIONS
    } else {
        auto_iterations(num_symbols)
    };
    (runs, moves)
}

/// The letter a draw below 25 picks among the letters other than `current`.
pub open spec fn other_letter(current: u8, d: int) -> int {
    if d >= current {
        d + 1
    } else {
        d
    }
}

/// A uniformly chosen letter different from `current`.
pub fn random_other_letter(current: u8, rng: &mut Rng) -> (r: u8)
    requires
        current < 26,
    ensures
        r < 26,
        r != current,
        r as int == other_letter(current, scale_below(xoshiro_output(old(rng)@), 25)),
        final(rng)@ == xoshiro_step(old(rng)@),
{
    let l = rng.below(ALPHABET - 1) as u8;
    if l >= current {
        l + 1
    } else {
        l
    }
}

/// No single reassignment of a symbol of `active` raises the score of `key`.
pub open spec fn locally_optimal(sc: &Scorer, key: Seq<u8>, active: Seq<usize>) -> bool {
    forall|i: int, l: u8|
        0 <= i < active.len() && l < 26 ==> #[trigger] sc.score_of(key.update(active[i] as int, l))
            <= sc.score_of(key)
}

/// The scorer's unchanging parts are as they were.
pub open spec fn same_problem(a: &Scorer, b: &Scorer) -> bool {
    &&& a.ciphertext() == b.ciphertext()
    &&& a.model_view() == b.model_view()
    &&& a.ln_view() == b.ln_view()
}

/// The letter a polishing step gives `symbol` in `key`, and its score
/// gain, looking at the letters below `upto`: the first letter other than
/// the current one with the largest gain, if that gain is positive; else
/// the current letter with gain 0.
pub open spec fn best_from(
    tbl: Seq<i16>,
    ord: nat,
    c: Seq<u16>,
    lnf: Seq<i64>,
    key: Seq<u8>,
    symbol: int,
    upto: nat,
) -> (u8, int)
    decreases upto,
{
    if upto == 0 {
        (key[symbol], 0)
    } else {
        let (bl, bd) = best_from(tbl, ord, c, lnf, key, symbol, (upto - 1) as nat);
        let l = (upto - 1) as u8;
        let d = cipher_score(tbl, ord, c, lnf, key.update(symbol, l)) - cipher_score(
            tbl,
            ord,
            c,
            lnf,
            key,
        );
        if l != key[symbol] && d > bd {
            (l, d)
        } else {
            (bl, bd)
        }
    }
}

/// One pass of polishing over the first `i` symbols of `active`, in order:
/// each gets its best letter (see [`best_from`]) given the changes before it.
pub open spec fn sweep(
    tbl: Seq<i16>,
    ord: nat,
    c: Seq<u16>,
    lnf: Seq<i64>,
    key: Seq<u8>,
    active: Seq<usize>,
    i: nat,
) -> Seq<u8>
    decreases i,
{
    if i == 0 {
        key
    } else {
        let k = sweep(tbl, ord, c, lnf, key, active, (i - 1) as nat);
        let symbol = active[i - 1] as int;
        let b = best_from(tbl, ord, c, lnf, k, symbol, 26).0;
        if b != k[symbol] {
            k.update(symbol, b)
        } else {
            k
        }
    }
}

/// The key after `p` full passes of polishing from `key`.
pub open spec fn polish_passes(
    tbl: Seq<i16>,
    ord: nat,
    c: Seq<u16>,
    lnf: Seq<i64>,
    key: Seq<u8>,
    active: Seq<usize>,
    p: nat,
) -> Seq<u8>
    decreases p,
{
    if p == 0 {
        key
    } else {
        sweep(tbl, ord, c, lnf, polish_passes(tbl, ord, c, lnf, key, active, (p - 1) as nat), active, active.len())
    }
}

/// `result` is what polishing `start` ends at: some number of full passes,
/// after which a pass changes nothing.
pub open spec fn polished(
    tbl: Seq<i16>,
    ord: nat,
    c: Seq<u16>,
    lnf: Seq<i64>,
    start: Seq<u8>,
    active: Seq<usize>,
    result: Seq<u8>,
) -> bool {
    exists|p: nat|
        #![trigger polish_passes(tbl, ord, c, lnf, start, active, p)]
        {
            &&& polish_passes(tbl, ord, c, lnf, start, active, p) == result
            &&& sweep(tbl, ord, c, lnf, result, active, active.len()) == result
        }
}

/// Steepest-ascent polish: for each symbol take its best letter, until no
/// single reassignment improves the score.
pub fn hill_climb(scorer: &mut Scorer, active: &[usize])
    requires
        old(scorer).inv(),
        old(scorer).pending() is None,
        forall|i: int| 0 <= i < active@.len() ==> #[trigger] active@[i] < old(scorer).current_key().len(),
    ensures
        final(scorer).inv(),
        final(scorer).pending() is None,
        same_problem(final(scorer), old(scorer)),
        final(scorer).current_key().len() == old(scorer).current_key().len(),
        final(scorer).committed_score() == final(scorer).score_of(final(scorer).current_key()),
        final(scorer).committed_score() >= old(scorer).committed_score(),
        locally_optimal(final(scorer), final(scorer).current_key(), active@),
        forall|t: int|
            0 <= t < old(scorer).current_key().len() && !active@.contains(t as usize) ==> #[trigger] final(scorer).current_key()[t] == old(scorer).current_key()[t],
        polished(
            old(scorer).model_view().table,
            old(scorer).model_view().order,
            old(scorer).ciphertext(),
            old(scorer).ln_view(),
            old(scorer).current_key(),
            active@,
            final(scorer).current_key(),
        ),
{
    let n = active.len();
    let ghost s0 = scorer.committed_score();
    let ghost tbl = scorer.model_view().table;
    let ghost ord = scorer.model_view().order;
    let ghost c = scorer.ciphertext();
    let ghost lnf = scorer.ln_view();
    let ghost start = scorer.current_key();
    let ghost mut passes: nat = 0;
    loop
        invariant
            scorer.current_key() == polish_passes(tbl, ord, c, lnf, start, active@, passes),
            start == old(scorer).current_key(),
            scorer.inv(),
            scorer.pending() is None,
            same_problem(scorer, old(scorer)),
            tbl == scorer.model_view().table,
            ord == scorer.model_view().order,
            c == scorer.ciphertext(),
            lnf == scorer.ln_view(),
            scorer.current_key().len() == old(scorer).current_key().len(),
            n == active@.len(),
            forall|i: int| 0 <= i < n ==> #[trigger] active@[i] < scorer.current_key().len(),
            scorer.committed_score() >= s0,
            s0 == old(scorer).committed_score(),
            forall|t: int|
                0 <= t < old(scorer).current_key().len() && !active@.contains(t as usize) ==> #[trigger] scorer.current_key()[t] == old(scorer).current_key()[t],
        ensures
            scorer.inv(),
            scorer.pending() is None,
            same_problem(scorer, old(scorer)),
            scorer.current_key().len() == old(scorer).current_key().len(),
            scorer.committed_score() >= s0,
            locally_optimal(scorer, scorer.current_key(), active@),
            forall|t: int|
                0 <= t < old(scorer).current_key().len() && !active@.contains(t as usize) ==> #[trigger] scorer.current_key()[t] == old(scorer).current_key()[t],
            polished(tbl, ord, c, lnf, start, active@, scorer.current_key()),
        decreases 0x20_0000_0000_0000 - scorer.committed_score(),
    {
        proof {
            crate::scorer::lemma_incremental_score_is_exact(scorer);
            scorer.lemma_scores_bounded(scorer.current_key());
        }
        let ghost pass_key = scorer.current_key();
        let ghost pass_score = scorer.committed_score();
        let mut improved = false;
        let mut i: usize = 0;
        while i < n
            invariant
                scorer.inv(),
                scorer.pending() is None,
                same_problem(scorer, old(scorer)),
                tbl == scorer.model_view().table,
                ord == scorer.model_view().order,
                c == scorer.ciphertext(),
                lnf == scorer.ln_view(),
                scorer.current_key().len() == pass_key.len() == old(scorer).current_key().len(),
                n == active@.len(),
                forall|j: int| 0 <= j < n ==> #[trigger] active@[j] < scorer.current_key().len(),
                i <= n,
                pass_score == cipher_score(tbl, ord, c, lnf, pass_key),
                scorer.committed_score() == cipher_score(tbl, ord, c, lnf, scorer.current_key()),
                scorer.committed_score() >= pass_score,
                improved ==> scorer.committed_score() > pass_score,
                forall|t: int|
                    0 <= t < old(scorer).current_key().len() && !active@.contains(t as usize) ==> #[trigger] scorer.current_key()[t] == old(scorer).current_key()[t],
                !improved ==> scorer.current_key() == pass_key,
                scorer.current_key() == sweep(tbl, ord, c, lnf, pass_key, active@, i as nat),
                !improved ==> forall|j: int, l: u8|
                    0 <= j < i && l < 26 ==> #[trigger] cipher_score(
                        tbl,
                        ord,
                        c,
                        lnf,
                        pass_key.update(active@[j] as int, l),
                    ) <= pass_score,
            decreases n - i,
        {
            let symbol = active[i];
            proof {
                crate::scorer::lemma_incremental_score_is_exact(scorer);
            }
            let current = scorer.key()[symbol];
            let ghost key = scorer.current_key();
            let mut best_d: i64 = 0;
            let mut best_l: u8 = current;
            let mut letter: u8 = 0;
            while letter < 26
                invariant
                    scorer.inv(),
                    scorer.pending() is None,
                    same_problem(scorer, old(scorer)),
                    tbl == scorer.model_view().table,
                    ord == scorer.model_view().order,
                    c == scorer.ciphertext(),
                    lnf == scorer.ln_view(),
                    scorer.current_key() == key,
                    symbol < key.len(),
                    current == key[symbol as int],
                    current < 26,
                    scorer.committed_score() == cipher_score(tbl, ord, c, lnf, key),
                    letter <= 26,
                    best_d >= 0,
                    best_l < 26,
                    best_l == current ==> best_d == 0,
                    (best_l, best_d as int) == best_from(
                        tbl,
                        ord,
                        c,
                        lnf,
                        key,
                        symbol as int,
                        letter as nat,
                    ),
                    best_l != current ==> best_d > 0 && best_d == cipher_score(
                        tbl,
                        ord,
                        c,
                        lnf,
                        key.update(symbol as int, best_l),
                    ) - cipher_score(tbl, ord, c, lnf, key),
                    forall|l: u8|
                        l < letter ==> #[trigger] cipher_score(
                            tbl,
                            ord,
                            c,
                            lnf,
                            key.update(symbol as int, l),
                        ) - cipher_score(tbl, ord, c, lnf, key) <= best_d,
                decreases 26 - letter,
            {
                if letter != current {
                    let d = scorer.propose(symbol, letter);
                    scorer.rollback();
                    proof {
                        assert(key.update(symbol as int, letter).update(symbol as int, current)
                            =~= key);
                    }
                    if d > best_d {
                        best_d = d;
                        best_l = letter;
                    }
                } else {
                    proof {
                        assert(key.update(symbol as int, letter) =~= key);
                    }
                }
                letter = letter + 1;
            }
            if best_l != current {
                scorer.apply(symbol, best_l);
                improved = true;
                proof {
                    assert(active@.contains(active@[i as int]));
                }
            }
            i = i + 1;
        }
        if !improved {
            proof {
                assert(polish_passes(tbl, ord, c, lnf, start, active@, passes) == scorer.current_key());
            }
            return ;
        }
        proof {
            passes = passes + 1;
            crate::scorer::lemma_incremental_score_is_exact(scorer);
            scorer.lemma_scores_bounded(scorer.current_key());
        }
    }
}

/// The score of `key` for ciphertext `c` under model `m` and the quantised
/// `ln x!` table `lnf`.
pub open spec fn key_score(m: ModelView, c: Seq<u16>, lnf: Seq<i64>, key: Seq<u8>) -> int {
    cipher_score(m.table, m.order, c, lnf, key)
}

/// The symbol and other letter of a random move from `key` drawn from state
/// `s`: the symbol from the first draw, the letter from the second.
pub open spec fn random_move(key: Seq<u8>, active: Seq<usize>, s: RngState) -> (int, u8) {
    let symbol = active[scale_below(xoshiro_output(s), active.len() as usize)] as int;
    let letter = other_letter(key[symbol], scale_below(xoshiro_output(xoshiro_step(s)), 25));
    (symbol, letter as u8)
}

/// The score change of calibration move `k` from `key`: its symbol comes
/// from draw `2k` after state `s` and its other letter from draw `2k + 1`.
pub open spec fn calibration_delta(
    m: ModelView,
    c: Seq<u16>,
    lnf: Seq<i64>,
    key: Seq<u8>,
    active: Seq<usize>,
    s: RngState,
    k: nat,
) -> int {
    let (symbol, letter) = random_move(key, active, xoshiro_advance(s, 2 * k));
    key_score(m, c, lnf, key.update(symbol, letter)) - key_score(m, c, lnf, key)
}

/// The summed loss of the worsening moves among the first `k` calibration
/// moves, and their number.
pub open spec fn calibration_totals(
    m: ModelView,
    c: Seq<u16>,
    lnf: Seq<i64>,
    key: Seq<u8>,
    active: Seq<usize>,
    s: RngState,
    k: nat,
) -> (int, int)
    decreases k,
{
    if k == 0 {
        (0, 0)
    } else {
        let (loss, n) = calibration_totals(m, c, lnf, key, active, s, (k - 1) as nat);
        let d = calibration_delta(m, c, lnf, key, active, s, (k - 1) as nat);
        if d < 0 {
            (loss - d, n + 1)
        } else {
            (loss, n)
        }
    }
}

/// Runs `CALIBRATION_MOVES` random moves from the current key, each rolled
/// back, and returns the summed score loss of the worsening ones and their
/// number. A move's score change grows with how often the symbol occurs and
/// with the model order, so this measures the scale of the search.
pub fn calibrate(scorer: &mut Scorer, active: &[usize], rng: &mut Rng) -> (r: (u64, u64))
    requires
        old(scorer).inv(),
        old(scorer).pending() is None,
        active@.len() > 0,
        forall|i: int| 0 <= i < active@.len() ==> #[trigger] active@[i] < old(scorer).current_key().len(),
    ensures
        final(scorer).inv(),
        final(scorer).pending() is None,
        same_problem(final(scorer), old(scorer)),
        final(scorer).current_key() == old(scorer).current_key(),
        final(scorer).committed_score() == old(scorer).committed_score(),
        (r.0 as int, r.1 as int) == calibration_totals(
            old(scorer).model_view(),
            old(scorer).ciphertext(),
            old(scorer).ln_view(),
            old(scorer).current_key(),
            active@,
            old(rng)@,
            CALIBRATION_MOVES as nat,
        ),
        final(rng)@ == xoshiro_advance(old(rng)@, 2 * CALIBRATION_MOVES as nat),
        r.1 <= CALIBRATION_MOVES,
        r.1 == 0 ==> r.0 == 0,
{
    let mut loss: u64 = 0;
    let mut losses: u64 = 0;
    let ghost key = scorer.current_key();
    let ghost s0 = rng@;
    let mut k: usize = 0;
    while k < CALIBRATION_MOVES
        invariant
            scorer.inv(),
            scorer.pending() is None,
            same_problem(scorer, old(scorer)),
            scorer.current_key() == key,
            key == old(scorer).current_key(),
            scorer.committed_score() == old(scorer).committed_score(),
            active@.len() > 0,
            forall|i: int| 0 <= i < active@.len() ==> #[trigger] active@[i] < key.len(),
            k <= CALIBRATION_MOVES,
            losses <= k,
            loss <= k * 0x40_0000_0000_0000,
            losses == 0 ==> loss == 0,
            rng@ == xoshiro_advance(s0, 2 * k as nat),
            (loss as int, losses as int) == calibration_totals(
                old(scorer).model_view(),
                old(scorer).ciphertext(),
                old(scorer).ln_view(),
                key,
                active@,
                s0,
                k as nat,
            ),
        decreases CALIBRATION_MOVES - k,
    {
        proof {
            crate::scorer::lemma_incremental_score_is_exact(scorer);
        }
        let ghost here = rng@;
        let symbol = active[rng.below(active.len())];
        let ghost mid = rng@;
        let letter = random_other_letter(scorer.key()[symbol], rng);
        proof {
            assert(mid == xoshiro_advance(s0, (2 * k + 1) as nat));
            assert(rng@ == xoshiro_advance(s0, (2 * k + 2) as nat));
        }
        proof {
            scorer.lemma_scores_bounded(key);
            scorer.lemma_scores_bounded(key.update(symbol as int, letter));
        }
        let d = scorer.propose(symbol, letter);
        scorer.rollback();
        proof {
            assert(key.update(symbol as int, letter).update(symbol as int, key[symbol as int])
                =~= key);
        }
        proof {
            assert(d == calibration_delta(
                old(scorer).model_view(),
                old(scorer).ciphertext(),
                old(scorer).ln_view(),
                key,
                active@,
                s0,
                k as nat,
            ));
        }
        if d < 0 {
            loss = loss + ((0 - d) as u64);
            losses = losses + 1;
        }
        k = k + 1;
    }
    (loss, losses)
}

/// Symbols below `ns` that occur in `c`, ascending.
pub open spec fn lists_occurring(active: Seq<usize>, c: Seq<u16>, ns: nat) -> bool {
    &&& forall|i: int| 0 <= i < active.len() ==> #[trigger] active[i] < ns && symbol_count(
        c,
        active[i] as int,
    ) > 0
    &&& forall|s: int|
        0 <= s < ns && #[trigger] symbol_count(c, s) > 0 ==> exists|i: int|
            0 <= i < active.len() && active[i] == s
}

/// The symbols below `ns` that occur in `c`, ascending.
pub open spec fn occurring_symbols(c: Seq<u16>, ns: nat) -> Seq<usize>
    decreases ns,
{
    if ns == 0 {
        Seq::empty()
    } else {
        let prev = occurring_symbols(c, (ns - 1) as nat);
        if symbol_count(c, ns - 1) > 0 {
            prev.push((ns - 1) as usize)
        } else {
            prev
        }
    }
}

/// Where an annealing run stands: the key, the generator state, and the
/// best key seen so far.
pub struct AnnealState {
    pub key: Seq<u8>,
    pub rng: RngState,
    pub best: Seq<u8>,
}

/// Step `k` of an annealing run, from `states[k]` to `states[k + 1]`. A
/// random move (two draws) changes the score by `d`. A move with `d >= 0` is
/// taken; otherwise a third draw is made and the move is taken exactly when
/// `accept(loss_sum, losses, k, d, draw)` said so. The best key is replaced
/// when a taken move scores strictly higher than it.
pub open spec fn anneal_step<A: Fn(u64, u64, u64, i64, u64) -> bool>(
    m: ModelView,
    c: Seq<u16>,
    lnf: Seq<i64>,
    active: Seq<usize>,
    accept: A,
    loss_sum: u64,
    losses: u64,
    states: Seq<AnnealState>,
    k: int,
) -> bool {
    let st = states[k];
    let next = states[k + 1];
    let (symbol, letter) = random_move(st.key, active, st.rng);
    let moved = st.key.update(symbol, letter);
    let d = key_score(m, c, lnf, moved) - key_score(m, c, lnf, st.key);
    let after = xoshiro_step(xoshiro_step(st.rng));
    let best = if key_score(m, c, lnf, moved) > key_score(m, c, lnf, st.best) {
        moved
    } else {
        st.best
    };
    if d >= 0 {
        &&& next.key == moved
        &&& next.rng == after
        &&& next.best == best
    } else {
        exists|take: bool|
            #![trigger call_ensures(accept, (loss_sum, losses, k as u64, d as i64, xoshiro_output(after)), take)]
            {
                &&& call_ensures(
                    accept,
                    (loss_sum, losses, k as u64, d as i64, xoshiro_output(after)),
                    take,
                )
                &&& next.rng == xoshiro_step(after)
                &&& next.key == if take {
                    moved
                } else {
                    st.key
                }
                &&& next.best == if take {
                    best
                } else {
                    st.best
                }
            }
    }
}

/// Every step of `states` is a step of the annealing run.
pub open spec fn anneal_run<A: Fn(u64, u64, u64, i64, u64) -> bool>(
    m: ModelView,
    c: Seq<u16>,
    lnf: Seq<i64>,
    active: Seq<usize>,
    accept: A,
    loss_sum: u64,
    losses: u64,
    states: Seq<AnnealState>,
) -> bool {
    forall|k: int|
        0 <= k < states.len() - 1 ==> #[trigger] anneal_step(
            m,
            c,
            lnf,
            active,
            accept,
            loss_sum,
            losses,
            states,
            k,
        )
}

/// `key` with score `score` is what polishing the best key of an annealing
/// run of `iterations` steps from `first` gives (see [`polished`]): it
/// scores at least as much as that best key and agrees with it on every
/// symbol outside `active`.
pub open spec fn annealed<A: Fn(u64, u64, u64, i64, u64) -> bool>(
    m: ModelView,
    c: Seq<u16>,
    lnf: Seq<i64>,
    active: Seq<usize>,
    accept: A,
    loss_sum: u64,
    losses: u64,
    first: AnnealState,
    iterations: nat,
    key: Seq<u8>,
    score: int,
) -> bool {
    exists|states: Seq<AnnealState>|
        #![trigger anneal_run(m, c, lnf, active, accept, loss_sum, losses, states)]
        {
            &&& states.len() == iterations + 1
            &&& states[0] == first
            &&& anneal_run(m, c, lnf, active, accept, loss_sum, losses, states)
            &&& score >= key_score(m, c, lnf, states.last().best)
            &&& key.len() == states.last().best.len()
            &&& forall|t: int|
                0 <= t < key.len() && !active.contains(t as usize) ==> #[trigger] key[t]
                    == states.last().best[t]
            &&& polished(m.table, m.order, c, lnf, states.last().best, active, key)
        }
}

/// The key an annealing run starts from: one uniform draw below 26 per
/// symbol, from generator state `s`.
pub open spec fn starting_key(s: RngState, num_symbols: nat) -> Seq<u8> {
    Seq::new(num_symbols, |i: int| scale_below(xoshiro_output(xoshiro_advance(s, i as nat)), 26) as u8)
}

/// One more step of an annealing run: appending a state that `anneal_step`
/// allows keeps the whole sequence a run.
proof fn lemma_extend_run<A: Fn(u64, u64, u64, i64, u64) -> bool>(
    m: ModelView,
    c: Seq<u16>,
    lnf: Seq<i64>,
    active: Seq<usize>,
    accept: A,
    loss_sum: u64,
    losses: u64,
    states: Seq<AnnealState>,
    next: AnnealState,
)
    requires
        states.len() >= 1,
        anneal_run(m, c, lnf, active, accept, loss_sum, losses, states),
        anneal_step(m, c, lnf, active, accept, loss_sum, losses, states.push(next), states.len() - 1),
    ensures
        anneal_run(m, c, lnf, active, accept, loss_sum, losses, states.push(next)),
{
    let longer = states.push(next);
    assert forall|j: int| 0 <= j < longer.len() - 1 implies #[trigger] anneal_step(
        m,
        c,
        lnf,
        active,
        accept,
        loss_sum,
        losses,
        longer,
        j,
    ) by {
        if j < states.len() - 1 {
            assert(anneal_step(m, c, lnf, active, accept, loss_sum, losses, states, j));
            assert(longer[j] == states[j]);
            assert(longer[j + 1] == states[j + 1]);
        }
    }
}

/// The state after one loop iteration is an annealing step from the last one.
proof fn lemma_anneal_step<A: Fn(u64, u64, u64, i64, u64) -> bool>(
    m: ModelView,
    c: Seq<u16>,
    lnf: Seq<i64>,
    active: Seq<usize>,
    accept: A,
    loss_sum: u64,
    losses: u64,
    states: Seq<AnnealState>,
    next: AnnealState,
    symbol: int,
    letter: u8,
    d: i64,
    take: bool,
)
    requires
        states.len() >= 1,
        random_move(states.last().key, active, states.last().rng) == (symbol, letter),
        d == key_score(m, c, lnf, states.last().key.update(symbol, letter)) - key_score(
            m,
            c,
            lnf,
            states.last().key,
        ),
        d >= 0 ==> take,
        d < 0 ==> call_ensures(
            accept,
            (
                loss_sum,
                losses,
                (states.len() - 1) as u64,
                d,
                xoshiro_output(xoshiro_step(xoshiro_step(states.last().rng))),
            ),
            take,
        ),
        next.rng == if d >= 0 {
            xoshiro_step(xoshiro_step(states.last().rng))
        } else {
            xoshiro_step(xoshiro_step(xoshiro_step(states.last().rng)))
        },
        next.key == if take {
            states.last().key.update(symbol, letter)
        } else {
            states.last().key
        },
        next.best == if take && key_score(m, c, lnf, states.last().key.update(symbol, letter))
            > key_score(m, c, lnf, states.last().best) {
            states.last().key.update(symbol, letter)
        } else {
            states.last().best
        },
    ensures
        anneal_step(m, c, lnf, active, accept, loss_sum, losses, states.push(next), states.len() - 1),
{
    let longer = states.push(next);
    let k = states.len() - 1;
    assert(longer[k] == states.last());
    assert(longer[k + 1] == next);
    assert((d as int) as i64 == d);
}

/// The outcome of [`anneal`] from generator state `s0` when there is at
/// least one window and one occurring symbol: `ns` draws give the starting
/// key, calibration takes the next `2 * CALIBRATION_MOVES` draws, and the
/// run of `iterations` steps starts from the starting key.
pub open spec fn anneal_outcome<A: Fn(u64, u64, u64, i64, u64) -> bool>(
    m: ModelView,
    c: Seq<u16>,
    lnf: Seq<i64>,
    ns: nat,
    iterations: nat,
    accept: A,
    s0: RngState,
    key: Seq<u8>,
    score: int,
) -> bool {
    let start = starting_key(s0, ns);
    let active = occurring_symbols(c, ns);
    let seeded = xoshiro_advance(s0, ns);
    let totals = calibration_totals(m, c, lnf, start, active, seeded, CALIBRATION_MOVES as nat);
    let first = AnnealState {
        key: start,
        rng: xoshiro_advance(seeded, 2 * CALIBRATION_MOVES as nat),
        best: start,
    };
    annealed(m, c, lnf, active, accept, totals.0 as u64, totals.1 as u64, first, iterations, key, score)
}

/// What [`anneal`] returns from generator state `s0`: the key with its
/// exact score; the starting key itself when there is no window or no
/// occurring symbol, and otherwise the polish of the best key of the run.
pub open spec fn anneal_result<A: Fn(u64, u64, u64, i64, u64) -> bool>(
    m: ModelView,
    c: Seq<u16>,
    lnf: Seq<i64>,
    ns: nat,
    iterations: nat,
    accept: A,
    s0: RngState,
    key: Seq<u8>,
    score: int,
) -> bool {
    &&& score == key_score(m, c, lnf, key)
    &&& if c.len() >= m.order && occurring_symbols(c, ns).len() > 0 {
        anneal_outcome(m, c, lnf, ns, iterations, accept, s0, key, score)
    } else {
        key == starting_key(s0, ns)
    }
}

/// `accept` answers the same question the same way every time.
pub open spec fn accept_is_function<A: Fn(u64, u64, u64, i64, u64) -> bool>(accept: A) -> bool {
    forall|args: (u64, u64, u64, i64, u64), t1: bool, t2: bool|
        #[trigger] call_ensures(accept, args, t1) && #[trigger] call_ensures(accept, args, t2) ==> t1
            == t2
}

/// Two runs from the same state, with an acceptance rule that is a
/// function, agree state by state.
proof fn lemma_runs_agree<A: Fn(u64, u64, u64, i64, u64) -> bool>(
    m: ModelView,
    c: Seq<u16>,
    lnf: Seq<i64>,
    active: Seq<usize>,
    accept: A,
    loss_sum: u64,
    losses: u64,
    a: Seq<AnnealState>,
    b: Seq<AnnealState>,
    k: int,
)
    requires
        accept_is_function(accept),
        a.len() == b.len(),
        0 <= k < a.len(),
        a[0] == b[0],
        anneal_run(m, c, lnf, active, accept, loss_sum, losses, a),
        anneal_run(m, c, lnf, active, accept, loss_sum, losses, b),
    ensures
        a[k] == b[k],
    decreases k,
{
    if k > 0 {
        lemma_runs_agree(m, c, lnf, active, accept, loss_sum, losses, a, b, k - 1);
        assert(anneal_step(m, c, lnf, active, accept, loss_sum, losses, a, k - 1));
        assert(anneal_step(m, c, lnf, active, accept, loss_sum, losses, b, k - 1));
        let st = a[k - 1];
        let (symbol, letter) = random_move(st.key, active, st.rng);
        let moved = st.key.update(symbol, letter);
        let d = key_score(m, c, lnf, moved) - key_score(m, c, lnf, st.key);
        let after = xoshiro_step(xoshiro_step(st.rng));
        if d < 0 {
            let args = (loss_sum, losses, (k - 1) as u64, d as i64, xoshiro_output(after));
            let ta = choose|take: bool|
                {
                    &&& call_ensures(accept, args, take)
                    &&& a[k].rng == xoshiro_step(after)
                    &&& a[k].key == if take {
                        moved
                    } else {
                        st.key
                    }
                    &&& a[k].best == if take {
                        if key_score(m, c, lnf, moved) > key_score(m, c, lnf, st.best) {
                            moved
                        } else {
                            st.best
                        }
                    } else {
                        st.best
                    }
                };
            let tb = choose|take: bool|
                {
                    &&& call_ensures(accept, args, take)
                    &&& b[k].rng == xoshiro_step(after)
                    &&& b[k].key == if take {
                        moved
                    } else {
                        st.key
                    }
                    &&& b[k].best == if take {
                        if key_score(m, c, lnf, moved) > key_score(m, c, lnf, st.best) {
                            moved
                        } else {
                            st.best
                        }
                    } else {
                        st.best
                    }
                };
            assert(ta == tb);
        }
        assert(a[k].key == b[k].key && a[k].rng == b[k].rng && a[k].best == b[k].best);
    }
}

/// Once a pass changes nothing, further passes change nothing.
proof fn lemma_passes_settle(
    tbl: Seq<i16>,
    ord: nat,
    c: Seq<u16>,
    lnf: Seq<i64>,
    start: Seq<u8>,
    active: Seq<usize>,
    p: nat,
    q: nat,
)
    requires
        p <= q,
        sweep(tbl, ord, c, lnf, polish_passes(tbl, ord, c, lnf, start, active, p), active, active.len())
            == polish_passes(tbl, ord, c, lnf, start, active, p),
    ensures
        polish_passes(tbl, ord, c, lnf, start, active, q) == polish_passes(
            tbl,
            ord,
            c,
            lnf,
            start,
            active,
            p,
        ),
    decreases q - p,
{
    if q > p {
        lemma_passes_settle(tbl, ord, c, lnf, start, active, p, (q - 1) as nat);
    }
}

/// Polishing a key ends at one key.
pub proof fn lemma_polished_unique(
    tbl: Seq<i16>,
    ord: nat,
    c: Seq<u16>,
    lnf: Seq<i64>,
    start: Seq<u8>,
    active: Seq<usize>,
    r1: Seq<u8>,
    r2: Seq<u8>,
)
    requires
        polished(tbl, ord, c, lnf, start, active, r1),
        polished(tbl, ord, c, lnf, start, active, r2),
    ensures
        r1 == r2,
{
    let p1 = choose|p: nat|
        {
            &&& polish_passes(tbl, ord, c, lnf, start, active, p) == r1
            &&& sweep(tbl, ord, c, lnf, r1, active, active.len()) == r1
        };
    let p2 = choose|p: nat|
        {
            &&& polish_passes(tbl, ord, c, lnf, start, active, p) == r2
            &&& sweep(tbl, ord, c, lnf, r2, active, active.len()) == r2
        };
    if p1 <= p2 {
        lemma_passes_settle(tbl, ord, c, lnf, start, active, p1, p2);
    } else {
        lemma_passes_settle(tbl, ord, c, lnf, start, active, p2, p1);
    }
}

/// An annealing run is reproducible: from the same generator state, with
/// an acceptance rule that is a function, it returns the same key and
/// score every time.
pub proof fn lemma_anneal_reproducible<A: Fn(u64, u64, u64, i64, u64) -> bool>(
    m: ModelView,
    c: Seq<u16>,
    lnf: Seq<i64>,
    ns: nat,
    iterations: nat,
    accept: A,
    s0: RngState,
    k1: Seq<u8>,
    score1: int,
    k2: Seq<u8>,
    score2: int,
)
    requires
        accept_is_function(accept),
        anneal_result(m, c, lnf, ns, iterations, accept, s0, k1, score1),
        anneal_result(m, c, lnf, ns, iterations, accept, s0, k2, score2),
    ensures
        k1 == k2,
        score1 == score2,
{
    if c.len() >= m.order && occurring_symbols(c, ns).len() > 0 {
        let start = starting_key(s0, ns);
        let active = occurring_symbols(c, ns);
        let seeded = xoshiro_advance(s0, ns);
        let totals = calibration_totals(m, c, lnf, start, active, seeded, CALIBRATION_MOVES as nat);
        let ls = totals.0 as u64;
        let lc = totals.1 as u64;
        let first = AnnealState {
            key: start,
            rng: xoshiro_advance(seeded, 2 * CALIBRATION_MOVES as nat),
            best: start,
        };
        assert(annealed(m, c, lnf, active, accept, ls, lc, first, iterations, k1, score1));
        assert(annealed(m, c, lnf, active, accept, ls, lc, first, iterations, k2, score2));
        let a = choose|states: Seq<AnnealState>|
            {
                &&& states.len() == iterations + 1
                &&& states[0] == first
                &&& anneal_run(m, c, lnf, active, accept, ls, lc, states)
                &&& score1 >= key_score(m, c, lnf, states.last().best)
                &&& k1.len() == states.last().best.len()
                &&& forall|t: int|
                    0 <= t < k1.len() && !active.contains(t as usize) ==> #[trigger] k1[t]
                        == states.last().best[t]
                &&& polished(m.table, m.order, c, lnf, states.last().best, active, k1)
            };
        let b = choose|states: Seq<AnnealState>|
            {
                &&& states.len() == iterations + 1
                &&& states[0] == first
                &&& anneal_run(m, c, lnf, active, accept, ls, lc, states)
                &&& score2 >= key_score(m, c, lnf, states.last().best)
                &&& k2.len() == states.last().best.len()
                &&& forall|t: int|
                    0 <= t < k2.len() && !active.contains(t as usize) ==> #[trigger] k2[t]
                        == states.last().best[t]
                &&& polished(m.table, m.order, c, lnf, states.last().best, active, k2)
            };
        lemma_runs_agree(m, c, lnf, active, accept, ls, lc, a, b, iterations as int);
        lemma_polished_unique(m.table, m.order, c, lnf, a.last().best, active, k1, k2);
    }
}

/// Restarts are reproducible whatever order they run in: if result `r` of
/// both lists comes from the annealing run on stream `r` of `seed`, with an
/// acceptance rule that is a function, the two lists are equal, so
/// [`Solution::from_restarts`] keeps the same solution from both.
pub proof fn lemma_restarts_reproducible<A: Fn(u64, u64, u64, i64, u64) -> bool>(
    m: ModelView,
    c: Seq<u16>,
    lnf: Seq<i64>,
    ns: nat,
    iterations: nat,
    accept: A,
    seed: u64,
    a: Seq<(Seq<u8>, int)>,
    b: Seq<(Seq<u8>, int)>,
)
    requires
        accept_is_function(accept),
        a.len() == b.len(),
        a.len() <= u64::MAX,
        forall|r: int|
            0 <= r < a.len() ==> anneal_result(
                m,
                c,
                lnf,
                ns,
                iterations,
                accept,
                seeded_state(derived_seed(seed, r as u64)),
                #[trigger] a[r].0,
                a[r].1,
            ),
        forall|r: int|
            0 <= r < b.len() ==> anneal_result(
                m,
                c,
                lnf,
                ns,
                iterations,
                accept,
                seeded_state(derived_seed(seed, r as u64)),
                #[trigger] b[r].0,
                b[r].1,
            ),
    ensures
        a == b,
{
    assert forall|r: int| 0 <= r < a.len() implies #[trigger] a[r] == b[r] by {
        lemma_anneal_reproducible(
            m,
            c,
            lnf,
            ns,
            iterations,
            accept,
            seeded_state(derived_seed(seed, r as u64)),
            a[r].0,
            a[r].1,
            b[r].0,
            b[r].1,
        );
    }
    assert(a =~= b);
}

/// One annealing run from a random key. Returns the best key found, polished
/// by [`hill_climb`], and its score.
///
/// Moves that do not lower the score are always taken. A worsening move by
/// `d` is taken when `accept(loss_sum, losses, step, d, draw)` says so, where
/// `loss_sum / losses` is the mean loss measured by [`calibrate`] and `draw`
/// a fresh 64-bit value from `rng`; this is where the temperature schedule
/// lives.
pub fn anneal<A: Fn(u64, u64, u64, i64, u64) -> bool>(
    model: &NgramModel,
    ciphertext: &[u16],
    num_symbols: usize,
    iterations: u64,
    ln_factorial: &LnFactorials,
    accept: A,
    rng: &mut Rng,
) -> (r: (Vec<u8>, i64))
    requires
        forall|i: int| 0 <= i < ciphertext@.len() ==> (#[trigger] ciphertext@[i] as int) < num_symbols,
        ciphertext@.len() <= MAX_TEXT_LEN,
        ln_factorial@.len() > ciphertext@.len() + num_symbols,
        forall|a: u64, b: u64, i: u64, d: i64, x: u64| #[trigger] accept.requires((a, b, i, d, x)),
    ensures
        r.0@.len() == num_symbols,
        all_letters(r.0@),
        r.1 == cipher_score(model@.table, model@.order, ciphertext@, ln_factorial@, r.0@),
        ciphertext@.len() >= model@.order ==> forall|s: int, l: u8|
            0 <= s < num_symbols && symbol_count(ciphertext@, s) > 0 && l < 26
                ==> #[trigger] cipher_score(
                model@.table,
                model@.order,
                ciphertext@,
                ln_factorial@,
                r.0@.update(s, l),
            ) <= r.1,
        r.1 >= cipher_score(
            model@.table,
            model@.order,
            ciphertext@,
            ln_factorial@,
            starting_key(old(rng)@, num_symbols as nat),
        ),
        !(ciphertext@.len() >= model@.order && occurring_symbols(ciphertext@, num_symbols as nat).len()
            > 0) ==> r.0@ == starting_key(old(rng)@, num_symbols as nat) && final(rng)@
            == xoshiro_advance(old(rng)@, num_symbols as nat),
        anneal_result(
            model@,
            ciphertext@,
            ln_factorial@,
            num_symbols as nat,
            iterations as nat,
            accept,
            old(rng)@,
            r.0@,
            r.1 as int,
        ),
        ciphertext@.len() >= model@.order && occurring_symbols(ciphertext@, num_symbols as nat).len()
            > 0 ==> anneal_outcome(
            model@,
            ciphertext@,
            ln_factorial@,
            num_symbols as nat,
            iterations as nat,
            accept,
            old(rng)@,
            r.0@,
            r.1 as int,
        ),
{
    let ghost c = ciphertext@;
    let ghost s0 = rng@;
    let mut key: Vec<u8> = Vec::new();
    let mut s: usize = 0;
    while s < num_symbols
        invariant
            s <= num_symbols,
            key@.len() == s,
            all_letters(key@),
            rng@ == xoshiro_advance(s0, s as nat),
            forall|j: int| 0 <= j < s ==> #[trigger] key@[j] == starting_key(s0, num_symbols as nat)[j],
        decreases num_symbols - s,
    {
        key.push(rng.below(ALPHABET) as u8);
        s = s + 1;
    }
    let ghost start = key@;
    proof {
        assert(start =~= starting_key(s0, num_symbols as nat));
    }
    let mut scorer = Scorer::new(model, ciphertext, key, ln_factorial);
    let mut active: Vec<usize> = Vec::new();
    // `place[t]` is where symbol `t` sits in `active`, or -1.
    let ghost mut place: Seq<int> = Seq::empty();
    let mut s: usize = 0;
    while s < num_symbols
        invariant
            scorer.inv(),
            scorer.pending() is None,
            scorer.ciphertext() == c,
            scorer.model_view() == model@,
            scorer.ln_view() == ln_factorial@,
            scorer.current_key() == start,
            start.len() == num_symbols,
            scorer.committed_score() == scorer.score_of(start),
            s <= num_symbols,
            rng@ == xoshiro_advance(s0, num_symbols as nat),
            active@ == occurring_symbols(c, s as nat),
            place.len() == s,
            forall|i: int| 0 <= i < active@.len() ==> #[trigger] active@[i] < s && symbol_count(
                c,
                active@[i] as int,
            ) > 0,
            forall|t: int|
                0 <= t < s && symbol_count(c, t) > 0 ==> 0 <= #[trigger] place[t] < active@.len()
                    && active@[place[t]] == t,
        decreases num_symbols - s,
    {
        let m = scorer.occurrences(s);
        if m > 0 {
            proof {
                place = place.push(active@.len() as int);
            }
            active.push(s);
        } else {
            proof {
                place = place.push(-1);
            }
        }
        s = s + 1;
    }
    proof {
        assert(lists_occurring(active@, c, num_symbols as nat)) by {
            assert forall|t: int|
                0 <= t < num_symbols && #[trigger] symbol_count(c, t) > 0 implies exists|i: int|
                0 <= i < active@.len() && active@[i] == t by {
                assert(active@[place[t]] == t);
            }
        }
    }
    if active.len() == 0 || ciphertext.len() < model.order() {
        proof {
            crate::scorer::lemma_incremental_score_is_exact(&scorer);
        }
        let score = scorer.score();
        return (vstd::slice::slice_to_vec(scorer.key()), score);
    }
    let ghost seeded = rng@;
    let (loss_sum, losses) = calibrate(&mut scorer, active.as_slice(), rng);
    proof {
        crate::scorer::lemma_incremental_score_is_exact(&scorer);
    }
    let mut best_key = vstd::slice::slice_to_vec(scorer.key());
    let mut best_score = scorer.score();
    let ghost first = AnnealState { key: start, rng: rng@, best: start };
    let ghost mut states: Seq<AnnealState> = seq![first];
    let mut i: u64 = 0;
    while i < iterations
        invariant
            i <= iterations,
            states.len() == i + 1,
            states[0] == first,
            anneal_run(model@, c, ln_factorial@, active@, accept, loss_sum, losses, states),
            states.last().key == scorer.current_key(),
            states.last().rng == rng@,
            states.last().best == best_key@,
            scorer.inv(),
            scorer.pending() is None,
            scorer.ciphertext() == c,
            scorer.model_view() == model@,
            scorer.ln_view() == ln_factorial@,
            scorer.current_key().len() == num_symbols,
            active@.len() > 0,
            forall|j: int| 0 <= j < active@.len() ==> #[trigger] active@[j] < num_symbols,
            best_key@.len() == num_symbols,
            all_letters(best_key@),
            best_score == scorer.score_of(best_key@),
            best_score >= scorer.score_of(start),
            forall|a: u64, b: u64, k: u64, d: i64, x: u64| #[trigger] accept.requires((a, b, k, d, x)),
        decreases iterations - i,
    {
        proof {
            crate::scorer::lemma_incremental_score_is_exact(&scorer);
        }
        let ghost st = states.last();
        let symbol = active[rng.below(active.len())];
        let letter = random_other_letter(scorer.key()[symbol], rng);
        let ghost moved = st.key.update(symbol as int, letter);
        proof {
            assert(random_move(st.key, active@, st.rng) == (symbol as int, letter));
        }
        let d = scorer.propose(symbol, letter);
        let ghost after = rng@;
        let ghost mut taken: bool = true;
        let take = if d >= 0 {
            true
        } else {
            let draw = rng.next_u64();
            let t = accept(loss_sum, losses, i, d, draw);
            proof {
                taken = t;
            }
            t
        };
        if take {
            scorer.commit();
            proof {
                crate::scorer::lemma_incremental_score_is_exact(&scorer);
            }
            if scorer.score() > best_score {
                best_score = scorer.score();
                best_key = vstd::slice::slice_to_vec(scorer.key());
            }
        } else {
            scorer.rollback();
            proof {
                assert(moved.update(symbol as int, st.key[symbol as int]) =~= st.key);
            }
        }
        proof {
            let next = AnnealState { key: scorer.current_key(), rng: rng@, best: best_key@ };
            lemma_anneal_step(
                model@,
                c,
                ln_factorial@,
                active@,
                accept,
                loss_sum,
                losses,
                states,
                next,
                symbol as int,
                letter,
                d,
                taken,
            );
            lemma_extend_run(model@, c, ln_factorial@, active@, accept, loss_sum, losses, states, next);
            states = states.push(next);
        }
        i = i + 1;
    }
    scorer.set_key(best_key.as_slice());
    let ghost best = best_key@;
    hill_climb(&mut scorer, active.as_slice());
    proof {
        crate::scorer::lemma_incremental_score_is_exact(&scorer);
        let key = scorer.current_key();
        assert(seeded == xoshiro_advance(s0, num_symbols as nat));
        assert(annealed(
            model@,
            c,
            ln_factorial@,
            active@,
            accept,
            loss_sum,
            losses,
            first,
            iterations as nat,
            key,
            scorer.committed_score(),
        )) by {
            assert(states.len() == iterations + 1);
            assert(states.last().best == best);
            assert(key.len() == best.len());
            assert(polished(model@.table, model@.order, c, ln_factorial@, best, active@, key));
        }
        let k = scorer.current_key();
        assert forall|t: int, l: u8|
            0 <= t < num_symbols && symbol_count(c, t) > 0 && l < 26 implies #[trigger] cipher_score(
            model@.table,
            model@.order,
            c,
            ln_factorial@,
            k.update(t, l),
        ) <= scorer.committed_score() by {
            let j = choose|j: int| 0 <= j < active@.len() && active@[j] == t;
            assert(scorer.score_of(k.update(active@[j] as int, l)) <= scorer.score_of(k));
        }
    }
    let score = scorer.score();
    (vstd::slice::slice_to_vec(scorer.key()), score)
}

/// The result of several annealing restarts.
#[derive(Debug)]
pub struct Solution {
    /// Letter for each symbol. Symbols that never occur keep an arbitrary letter.
    pub key: Vec<u8>,
    pub plaintext: Vec<u8>,
    /// Log-likelihood of the ciphertext under `key`, in millinats.
    pub score: i64,
    /// Index of the restart that produced this solution.
    pub best_restart: usize,
    pub restart_scores: Vec<i64>,
    pub iterations_per_restart: u64,
    pub elapsed: Duration,
}

impl Solution {
    /// Keeps the best of the restarts' `(key, score)` results: the highest
    /// score, and among equal scores the earliest restart.
    pub fn from_restarts(
        results: Vec<(Vec<u8>, i64)>,
        ciphertext: &[u16],
        iterations_per_restart: u64,
        elapsed: Duration,
    ) -> (sol: Self)
        requires
            results@.len() > 0,
            forall|r: int, i: int|
                0 <= r < results@.len() && 0 <= i < ciphertext@.len() ==> (#[trigger] ciphertext@[i]
                    as int) < (#[trigger] results@[r]).0@.len(),
        ensures
            sol.restart_scores@.len() == results@.len(),
            forall|r: int| 0 <= r < results@.len() ==> #[trigger] sol.restart_scores@[r] == results@[r].1,
            sol.best_restart < results@.len(),
            forall|r: int| 0 <= r < results@.len() ==> #[trigger] results@[r].1 <= sol.score,
            forall|r: int| 0 <= r < sol.best_restart ==> #[trigger] results@[r].1 < sol.score,
            sol.score == results@[sol.best_restart as int].1,
            sol.key@ == results@[sol.best_restart as int].0@,
            sol.plaintext@ == decipher(ciphertext@, sol.key@),
            sol.iterations_per_restart == iterations_per_restart,
            sol.elapsed == elapsed,
    {
        let n = results.len();
        let mut scores: Vec<i64> = Vec::new();
        let mut best: usize = 0;
        let mut i: usize = 0;
        while i < n
            invariant
                n == results@.len() > 0,
                i <= n,
                best < n,
                i > 0 ==> best < i,
                scores@.len() == i,
                forall|r: int| 0 <= r < i ==> #[trigger] scores@[r] == results@[r].1,
                i > 0 ==> forall|r: int| 0 <= r < i ==> #[trigger] results@[r].1 <= results@[best as int].1,
                forall|r: int| 0 <= r < best ==> #[trigger] results@[r].1 < results@[best as int].1,
            decreases n - i,
        {
            let sc = results[i].1;
            if i == 0 || sc > results[best].1 {
                best = i;
            }
            scores.push(sc);
            i = i + 1;
        }
        let key = vstd::slice::slice_to_vec(results[best].0.as_slice());
        let plaintext = decrypt_with(key.as_slice(), ciphertext);
        let score = results[best].1;
        Solution {
            key,
            plaintext,
            score,
            best_restart: best,
            restart_scores: scores,
            iterations_per_restart,
            elapsed,
        }
    }
}

} // verus!
