//! The log-likelihood of a ciphertext under a key, as plain mathematics:
//!
//! ```text
//! score = Σ windows  table[hash(window)]                     n-gram term
//!       + Σ letters  lnf[k_l - 1] − lnf[n_l + k_l - 1]      homophone term
//!       + Σ symbols  lnf[n_s]
//! ```
//!
//! `n_l` is how often letter `l` occurs in the decryption, `k_l` how many
//! occurring symbols map to it, `n_s` how often symbol `s` occurs and `lnf[x]`
//! the quantised `ln x!`.
use vstd::prelude::*;
use crate::model::{ALPHABET, MAX_TEXT_LEN, text_score, window_count, window_hash, windows_sum, lemma_windows_sum_bound};

verus! {

/// Largest magnitude of a quantised `ln x!`, per unit of `x`.
pub const LN_FACTORIAL_SLOPE: i64 = 32768;

/// Occurrences of symbol `s` in `c`.
pub open spec fn symbol_count(c: Seq<u16>, s: int) -> nat
    decreases c.len(),
{
    if c.len() == 0 {
        0
    } else {
        symbol_count(c.drop_last(), s) + if c.last() as int == s {
            1nat
        } else {
            0nat
        }
    }
}

/// Positions of `c` holding a symbol below `u`.
pub open spec fn count_below(c: Seq<u16>, u: int) -> nat
    decreases c.len(),
{
    if c.len() == 0 {
        0
    } else {
        count_below(c.drop_last(), u) + if (c.last() as int) < u {
            1nat
        } else {
            0nat
        }
    }
}

/// `Σ_{s < u} symbol_count(c, s)`.
pub open spec fn symbols_total(c: Seq<u16>, u: nat) -> nat
    decreases u,
{
    if u == 0 {
        0
    } else {
        symbols_total(c, (u - 1) as nat) + symbol_count(c, u - 1)
    }
}

/// Occurrences of letter `l` in `text`.
pub open spec fn letter_count(text: Seq<u8>, l: int) -> nat
    decreases text.len(),
{
    if text.len() == 0 {
        0
    } else {
        letter_count(text.drop_last(), l) + if text.last() as int == l {
            1nat
        } else {
            0nat
        }
    }
}

/// The decryption of `c` under `key`.
pub open spec fn decipher(c: Seq<u16>, key: Seq<u8>) -> Seq<u8> {
    Seq::new(c.len(), |i: int| key[c[i] as int])
}

/// Symbols below `u` that occur in `c` and map to letter `l`.
pub open spec fn active_symbols(c: Seq<u16>, key: Seq<u8>, l: int, u: nat) -> nat
    decreases u,
{
    if u == 0 {
        0
    } else {
        active_symbols(c, key, l, (u - 1) as nat) + if symbol_count(c, u - 1) > 0 && key[u
            - 1] as int == l {
            1nat
        } else {
            0nat
        }
    }
}

/// `Σ_{s < u, n_s > 0} lnf[n_s]`.
pub open spec fn symbol_term(lnf: Seq<i64>, c: Seq<u16>, u: nat) -> int
    decreases u,
{
    if u == 0 {
        0
    } else {
        symbol_term(lnf, c, (u - 1) as nat) + if symbol_count(c, u - 1) > 0 {
            lnf[symbol_count(c, u - 1) as int] as int
        } else {
            0
        }
    }
}

/// `ln Γ(k) − ln Γ(n + k)` for a letter with `n` occurrences over `k` symbols;
/// a letter no symbol maps to contributes nothing.
pub open spec fn letter_term(lnf: Seq<i64>, n: int, k: int) -> int {
    if k == 0 {
        0
    } else {
        lnf[k - 1] as int - lnf[n + k - 1] as int
    }
}

/// The letter term of letter `l`.
pub open spec fn letter_term_of(lnf: Seq<i64>, c: Seq<u16>, key: Seq<u8>, l: int) -> int {
    letter_term(
        lnf,
        letter_count(decipher(c, key), l) as int,
        active_symbols(c, key, l, key.len()) as int,
    )
}

/// `Σ_{l < u}` of the letter terms.
pub open spec fn letters_term(lnf: Seq<i64>, c: Seq<u16>, key: Seq<u8>, u: nat) -> int
    decreases u,
{
    if u == 0 {
        0
    } else {
        letters_term(lnf, c, key, (u - 1) as nat) + letter_term_of(lnf, c, key, u - 1)
    }
}

/// Log-likelihood (millinats) of ciphertext `c` under `key`.
pub open spec fn cipher_score(
    table: Seq<i16>,
    n: nat,
    c: Seq<u16>,
    lnf: Seq<i64>,
    key: Seq<u8>,
) -> int {
    text_score(table, decipher(c, key), n) + symbol_term(lnf, c, key.len()) + letters_term(
        lnf,
        c,
        key,
        ALPHABET as nat,
    )
}

/// Every entry of a quantised `ln x!` table lies in `0..=32768 x`.
pub open spec fn ln_factorials_bounded(lnf: Seq<i64>) -> bool {
    forall|x: int| 0 <= x < lnf.len() ==> 0 <= #[trigger] lnf[x] <= LN_FACTORIAL_SLOPE * x
}

/// Window `w` of `n` letters contains an occurrence of symbol `s`.
pub open spec fn covers(c: Seq<u16>, s: int, w: int, n: nat) -> bool {
    exists|p: int| w <= p < w + n && 0 <= p < c.len() && #[trigger] c[p] as int == s
}

/// Sum over the first `k` windows of those that contain symbol `s`.
pub open spec fn touched_prefix(
    table: Seq<i16>,
    text: Seq<u8>,
    n: nat,
    c: Seq<u16>,
    s: int,
    k: nat,
) -> int
    decreases k,
{
    if k == 0 {
        0
    } else {
        touched_prefix(table, text, n, c, s, (k - 1) as nat) + if covers(c, s, k - 1, n) {
            table[window_hash(text, k - 1, n) as int] as int
        } else {
            0
        }
    }
}

/// Sum over the first `k` windows of those that do not contain symbol `s`.
pub open spec fn untouched_prefix(
    table: Seq<i16>,
    text: Seq<u8>,
    n: nat,
    c: Seq<u16>,
    s: int,
    k: nat,
) -> int
    decreases k,
{
    if k == 0 {
        0
    } else {
        untouched_prefix(table, text, n, c, s, (k - 1) as nat) + if covers(c, s, k - 1, n) {
            0
        } else {
            table[window_hash(text, k - 1, n) as int] as int
        }
    }
}

/// Sum of the windows of `text` that contain symbol `s`.
pub open spec fn touched_total(table: Seq<i16>, text: Seq<u8>, n: nat, c: Seq<u16>, s: int) -> int {
    touched_prefix(table, text, n, c, s, window_count(text.len(), n))
}

// ---------------------------------------------------------------- lemmas

pub proof fn lemma_windows_split(
    table: Seq<i16>,
    text: Seq<u8>,
    n: nat,
    c: Seq<u16>,
    s: int,
    k: nat,
)
    ensures
        windows_sum(table, text, n, k) == touched_prefix(table, text, n, c, s, k)
            + untouched_prefix(table, text, n, c, s, k),
    decreases k,
{
    if k > 0 {
        lemma_windows_split(table, text, n, c, s, (k - 1) as nat);
    }
}

/// Windows free of symbol `s` read the same letters in two texts that agree
/// wherever `s` does not occur.
pub proof fn lemma_untouched_agree(
    table: Seq<i16>,
    t1: Seq<u8>,
    t2: Seq<u8>,
    n: nat,
    c: Seq<u16>,
    s: int,
    k: nat,
)
    requires
        t1.len() == t2.len() == c.len(),
        k <= window_count(t1.len(), n),
        forall|p: int| 0 <= p < c.len() && c[p] as int != s ==> #[trigger] t1[p] == t2[p],
    ensures
        untouched_prefix(table, t1, n, c, s, k) == untouched_prefix(table, t2, n, c, s, k),
    decreases k,
{
    if k > 0 {
        lemma_untouched_agree(table, t1, t2, n, c, s, (k - 1) as nat);
        let w = k - 1;
        if !covers(c, s, w, n) {
            assert(t1.subrange(w, w + n) =~= t2.subrange(w, w + n)) by {
                assert forall|j: int| 0 <= j < n implies #[trigger] t1.subrange(w, w + n)[j]
                    == t2.subrange(w, w + n)[j] by {
                    if c[w + j] as int == s {
                        assert(covers(c, s, w, n));
                    }
                }
            }
        }
    }
}

/// Windows in `[from, to)` without symbol `s` add nothing.
pub proof fn lemma_touched_skip(
    table: Seq<i16>,
    text: Seq<u8>,
    n: nat,
    c: Seq<u16>,
    s: int,
    from: nat,
    to: nat,
)
    requires
        from <= to,
        forall|w: int| from <= w < to ==> !covers(c, s, w, n),
    ensures
        touched_prefix(table, text, n, c, s, to) == touched_prefix(table, text, n, c, s, from),
    decreases to,
{
    if to > from {
        lemma_touched_skip(table, text, n, c, s, from, (to - 1) as nat);
    }
}

pub proof fn lemma_touched_bound(
    table: Seq<i16>,
    text: Seq<u8>,
    n: nat,
    c: Seq<u16>,
    s: int,
    k: nat,
)
    ensures
        -32768 * k <= touched_prefix(table, text, n, c, s, k) <= 32768 * k,
    decreases k,
{
    if k > 0 {
        lemma_touched_bound(table, text, n, c, s, (k - 1) as nat);
    }
}

pub proof fn lemma_symbol_count_bound(c: Seq<u16>, s: int)
    ensures
        symbol_count(c, s) <= c.len(),
        s < 0 || s >= 0x10000 ==> symbol_count(c, s) == 0,
    decreases c.len(),
{
    if c.len() > 0 {
        lemma_symbol_count_bound(c.drop_last(), s);
    }
}

pub proof fn lemma_symbol_count_push(c: Seq<u16>, x: u16, s: int)
    ensures
        symbol_count(c.push(x), s) == symbol_count(c, s) + if x as int == s {
            1nat
        } else {
            0nat
        },
{
    assert(c.push(x).drop_last() =~= c);
}

pub proof fn lemma_letter_count_push(t: Seq<u8>, x: u8, l: int)
    ensures
        letter_count(t.push(x), l) == letter_count(t, l) + if x as int == l {
            1nat
        } else {
            0nat
        },
{
    assert(t.push(x).drop_last() =~= t);
}

pub proof fn lemma_count_below_step(c: Seq<u16>, u: int)
    ensures
        count_below(c, u + 1) == count_below(c, u) + symbol_count(c, u),
    decreases c.len(),
{
    if c.len() > 0 {
        lemma_count_below_step(c.drop_last(), u);
    }
}

pub proof fn lemma_symbols_total(c: Seq<u16>, u: nat)
    ensures
        symbols_total(c, u) == count_below(c, u as int),
        symbols_total(c, u) <= c.len(),
    decreases u,
{
    if u == 0 {
        lemma_count_below_zero(c);
    } else {
        lemma_symbols_total(c, (u - 1) as nat);
        lemma_count_below_step(c, u - 1);
    }
    lemma_count_below_bound(c, u as int);
}

pub proof fn lemma_count_below_zero(c: Seq<u16>)
    ensures
        count_below(c, 0) == 0,
    decreases c.len(),
{
    if c.len() > 0 {
        lemma_count_below_zero(c.drop_last());
    }
}

pub proof fn lemma_count_below_bound(c: Seq<u16>, u: int)
    ensures
        count_below(c, u) <= c.len(),
        (forall|i: int| 0 <= i < c.len() ==> (#[trigger] c[i] as int) < u) ==> count_below(c, u)
            == c.len(),
    decreases c.len(),
{
    if c.len() > 0 {
        let d = c.drop_last();
        lemma_count_below_bound(d, u);
        if forall|i: int| 0 <= i < c.len() ==> (#[trigger] c[i] as int) < u {
            assert forall|i: int| 0 <= i < d.len() implies (#[trigger] d[i] as int) < u by {
                assert(d[i] == c[i]);
            }
            assert(c.last() == c[c.len() - 1]);
        }
    }
}

pub proof fn lemma_symbols_total_monotone(c: Seq<u16>, a: nat, b: nat)
    requires
        a <= b,
    ensures
        symbols_total(c, a) <= symbols_total(c, b),
    decreases b,
{
    if b > a {
        lemma_symbols_total_monotone(c, a, (b - 1) as nat);
    }
}

pub proof fn lemma_symbol_term_bound(lnf: Seq<i64>, c: Seq<u16>, u: nat)
    requires
        ln_factorials_bounded(lnf),
        lnf.len() > c.len(),
    ensures
        0 <= symbol_term(lnf, c, u) <= LN_FACTORIAL_SLOPE * symbols_total(c, u),
    decreases u,
{
    if u > 0 {
        lemma_symbol_term_bound(lnf, c, (u - 1) as nat);
        lemma_symbol_count_bound(c, u - 1);
        let m = symbol_count(c, u - 1) as int;
        assert(0 <= lnf[m] <= LN_FACTORIAL_SLOPE * m);
    }
}

pub proof fn lemma_active_bound(c: Seq<u16>, key: Seq<u8>, l: int, u: nat)
    ensures
        active_symbols(c, key, l, u) <= u,
        active_symbols(c, key, l, u) <= 0x10000,
    decreases u,
{
    if u > 0 {
        lemma_active_bound(c, key, l, (u - 1) as nat);
        lemma_symbol_count_bound(c, u - 1);
        if u > 0x10000 {
            lemma_active_flat(c, key, l, u);
        }
    }
}

/// Symbols at or above 65536 never occur.
proof fn lemma_active_flat(c: Seq<u16>, key: Seq<u8>, l: int, u: nat)
    requires
        u >= 0x10000,
    ensures
        active_symbols(c, key, l, u) == active_symbols(c, key, l, 0x10000),
    decreases u,
{
    if u > 0x10000 {
        lemma_symbol_count_bound(c, u - 1);
        lemma_active_flat(c, key, l, (u - 1) as nat);
    }
}

pub proof fn lemma_letter_count_bound(t: Seq<u8>, l: int)
    ensures
        letter_count(t, l) <= t.len(),
    decreases t.len(),
{
    if t.len() > 0 {
        lemma_letter_count_bound(t.drop_last(), l);
    }
}

/// Bounds of one letter term.
pub proof fn lemma_letter_term_bound(lnf: Seq<i64>, n: int, k: int, len: int)
    requires
        ln_factorials_bounded(lnf),
        0 <= n <= len,
        0 <= k <= 0x10000,
        n + k - 1 < lnf.len(),
        len <= MAX_TEXT_LEN,
    ensures
        -0x1_0000_0000_0000 <= letter_term(lnf, n, k) <= 0x1_0000_0000_0000,
{
    if k > 0 {
        assert(0 <= lnf[k - 1] <= LN_FACTORIAL_SLOPE * (k - 1));
        assert(0 <= lnf[n + k - 1] <= LN_FACTORIAL_SLOPE * (n + k - 1));
        assert(LN_FACTORIAL_SLOPE * (n + k - 1) <= 0x1_0000_0000_0000) by (nonlinear_arith)
            requires
                0 <= n <= len <= MAX_TEXT_LEN,
                0 <= k <= 0x10000,
        {}
    }
}

pub proof fn lemma_letters_term_bound(lnf: Seq<i64>, c: Seq<u16>, key: Seq<u8>, u: nat)
    requires
        ln_factorials_bounded(lnf),
        lnf.len() > c.len() + key.len(),
        c.len() <= MAX_TEXT_LEN,
    ensures
        -0x1_0000_0000_0000 * u <= letters_term(lnf, c, key, u) <= 0x1_0000_0000_0000 * u,
    decreases u,
{
    if u > 0 {
        lemma_letters_term_bound(lnf, c, key, (u - 1) as nat);
        let t = decipher(c, key);
        lemma_letter_count_bound(t, u - 1);
        lemma_active_bound(c, key, u - 1, key.len());
        lemma_letter_term_bound(
            lnf,
            letter_count(t, u - 1) as int,
            active_symbols(c, key, u - 1, key.len()) as int,
            c.len() as int,
        );
    }
}

/// The whole score fits comfortably in an `i64`.
pub proof fn lemma_cipher_score_bound(
    table: Seq<i16>,
    n: nat,
    c: Seq<u16>,
    lnf: Seq<i64>,
    key: Seq<u8>,
)
    requires
        ln_factorials_bounded(lnf),
        lnf.len() > c.len() + key.len(),
        c.len() <= MAX_TEXT_LEN,
        n >= 1,
    ensures
        -0x20_0000_0000_0000 <= cipher_score(table, n, c, lnf, key) <= 0x20_0000_0000_0000,
{
    let t = decipher(c, key);
    let w = window_count(t.len(), n);
    lemma_windows_sum_bound(table, t, n, w);
    lemma_symbol_term_bound(lnf, c, key.len());
    lemma_symbols_total(c, key.len());
    lemma_letters_term_bound(lnf, c, key, 26);
    let st = symbols_total(c, key.len()) as int;
    assert(w <= c.len());
    assert(32768 * w <= 0x8000_0000_0000) by (nonlinear_arith)
        requires
            w <= MAX_TEXT_LEN,
    {}
    assert(LN_FACTORIAL_SLOPE * st <= 0x8000_0000_0000) by (nonlinear_arith)
        requires
            st <= MAX_TEXT_LEN,
    {}
}

// ------------------------------------------------ moving one symbol

/// Reassigning a symbol moves its occurrences from the old letter to the new.
pub proof fn lemma_move_letter_counts(c: Seq<u16>, key: Seq<u8>, s: int, b: u8, l: int)
    requires
        0 <= s < key.len(),
        forall|i: int| 0 <= i < c.len() ==> (#[trigger] c[i] as int) < key.len(),
    ensures
        letter_count(decipher(c, key.update(s, b)), l) + if key[s] as int == l {
            symbol_count(c, s)
        } else {
            0
        } == letter_count(decipher(c, key), l) + if b as int == l {
            symbol_count(c, s)
        } else {
            0
        },
    decreases c.len(),
{
    if c.len() > 0 {
        let d = c.drop_last();
        assert forall|i: int| 0 <= i < d.len() implies (#[trigger] d[i] as int) < key.len() by {
            assert(d[i] == c[i]);
        }
        lemma_move_letter_counts(d, key, s, b, l);
        assert(decipher(c, key.update(s, b)).drop_last() =~= decipher(d, key.update(s, b)));
        assert(decipher(c, key).drop_last() =~= decipher(d, key));
        assert(c.last() == c[c.len() - 1]);
    }
}

/// Reassigning an occurring symbol moves it between the two letters' symbol counts.
pub proof fn lemma_move_active(c: Seq<u16>, key: Seq<u8>, s: int, b: u8, l: int, u: nat)
    requires
        0 <= s < key.len(),
        u <= key.len(),
    ensures
        active_symbols(c, key.update(s, b), l, u) + if s < u && symbol_count(c, s) > 0
            && key[s] as int == l {
            1nat
        } else {
            0nat
        } == active_symbols(c, key, l, u) + if s < u && symbol_count(c, s) > 0 && b as int
            == l {
            1nat
        } else {
            0nat
        },
    decreases u,
{
    if u > 0 {
        lemma_move_active(c, key, s, b, l, (u - 1) as nat);
    }
}

/// Two letter-term sums that differ only at letters `a` and `b`.
pub proof fn lemma_letters_term_two(
    lnf: Seq<i64>,
    c: Seq<u16>,
    k1: Seq<u8>,
    k2: Seq<u8>,
    a: int,
    b: int,
    u: nat,
)
    requires
        a != b,
        forall|l: int| 0 <= l < u && l != a && l != b ==> letter_term_of(lnf, c, k1, l)
            == letter_term_of(lnf, c, k2, l),
    ensures
        letters_term(lnf, c, k2, u) == letters_term(lnf, c, k1, u) + (if 0 <= a < u {
            letter_term_of(lnf, c, k2, a) - letter_term_of(lnf, c, k1, a)
        } else {
            0
        }) + (if 0 <= b < u {
            letter_term_of(lnf, c, k2, b) - letter_term_of(lnf, c, k1, b)
        } else {
            0
        }),
    decreases u,
{
    if u > 0 {
        lemma_letters_term_two(lnf, c, k1, k2, a, b, (u - 1) as nat);
    }
}

/// A symbol that never occurs leaves the decryption unchanged when moved.
pub proof fn lemma_absent_symbol_move(c: Seq<u16>, key: Seq<u8>, s: int, b: u8)
    requires
        0 <= s < key.len(),
        forall|i: int| 0 <= i < c.len() ==> (#[trigger] c[i] as int) < key.len(),
        symbol_count(c, s) == 0,
    ensures
        decipher(c, key.update(s, b)) == decipher(c, key),
{
    lemma_absent_symbol(c, s);
    assert(decipher(c, key.update(s, b)) =~= decipher(c, key));
}

pub proof fn lemma_absent_symbol(c: Seq<u16>, s: int)
    requires
        symbol_count(c, s) == 0,
    ensures
        forall|i: int| 0 <= i < c.len() ==> #[trigger] c[i] as int != s,
    decreases c.len(),
{
    if c.len() > 0 {
        let d = c.drop_last();
        lemma_absent_symbol(d, s);
        assert forall|i: int| 0 <= i < c.len() implies #[trigger] c[i] as int != s by {
            if i < d.len() {
                assert(c[i] == d[i]);
            }
        }
    }
}

/// The score change of reassigning symbol `s` from its letter to `b`.
pub proof fn lemma_move_score(
    table: Seq<i16>,
    n: nat,
    c: Seq<u16>,
    lnf: Seq<i64>,
    key: Seq<u8>,
    s: int,
    b: u8,
)
    requires
        0 <= s < key.len(),
        key[s] != b,
        key[s] < 26,
        b < 26,
        forall|i: int| 0 <= i < c.len() ==> (#[trigger] c[i] as int) < key.len(),
    ensures
        ({
            let k2 = key.update(s, b);
            let a = key[s] as int;
            let m = symbol_count(c, s) as int;
            let t1 = decipher(c, key);
            let t2 = decipher(c, k2);
            let na = letter_count(t1, a) as int;
            let nb = letter_count(t1, b as int) as int;
            let ka = active_symbols(c, key, a, key.len()) as int;
            let kb = active_symbols(c, key, b as int, key.len()) as int;
            &&& m > 0 ==> na >= m && ka >= 1
            &&& cipher_score(table, n, c, lnf, k2) - cipher_score(table, n, c, lnf, key) == (
            touched_total(table, t2, n, c, s) - touched_total(table, t1, n, c, s)) + if m == 0 {
                0
            } else {
                letter_term(lnf, na - m, ka - 1) + letter_term(lnf, nb + m, kb + 1)
                    - letter_term(lnf, na, ka) - letter_term(lnf, nb, kb)
            }
        }),
{
    let k2 = key.update(s, b);
    let a = key[s] as int;
    let m = symbol_count(c, s) as int;
    let t1 = decipher(c, key);
    let t2 = decipher(c, k2);
    let w = window_count(t1.len(), n);
    // n-gram term: only windows containing `s` change.
    lemma_windows_split(table, t1, n, c, s, w);
    lemma_windows_split(table, t2, n, c, s, w);
    assert forall|p: int| 0 <= p < c.len() && c[p] as int != s implies #[trigger] t1[p] == t2[p] by {
    }
    lemma_untouched_agree(table, t1, t2, n, c, s, w);
    // homophone term: only letters `a` and `b` change.
    assert(k2.len() == key.len());
    assert forall|l: int| 0 <= l < 26 && l != a && l != b as int implies letter_term_of(
        lnf,
        c,
        key,
        l,
    ) == letter_term_of(lnf, c, k2, l) by {
        lemma_move_letter_counts(c, key, s, b, l);
        lemma_move_active(c, key, s, b, l, key.len());
    }
    lemma_letters_term_two(lnf, c, key, k2, a, b as int, 26);
    lemma_move_letter_counts(c, key, s, b, a);
    lemma_move_letter_counts(c, key, s, b, b as int);
    lemma_move_active(c, key, s, b, a, key.len());
    lemma_move_active(c, key, s, b, b as int, key.len());
    assert(symbol_term(lnf, c, k2.len()) == symbol_term(lnf, c, key.len()));
    assert(text_score(table, t2, n) - text_score(table, t1, n) == touched_total(table, t2, n, c, s)
        - touched_total(table, t1, n, c, s));
    let na = letter_count(t1, a) as int;
    let nb = letter_count(t1, b as int) as int;
    let ka = active_symbols(c, key, a, key.len()) as int;
    let kb = active_symbols(c, key, b as int, key.len()) as int;
    if m == 0 {
        lemma_absent_symbol_move(c, key, s, b);
        assert(t1 == t2);
        assert(letter_term_of(lnf, c, k2, a) == letter_term_of(lnf, c, key, a));
        assert(letter_term_of(lnf, c, k2, b as int) == letter_term_of(lnf, c, key, b as int));
    } else {
        assert(letter_count(t2, a) == na - m);
        assert(letter_count(t2, b as int) == nb + m);
        assert(active_symbols(c, k2, a, k2.len()) == ka - 1);
        assert(active_symbols(c, k2, b as int, k2.len()) == kb + 1);
        assert(letter_term_of(lnf, c, k2, a) == letter_term(lnf, na - m, ka - 1));
        assert(letter_term_of(lnf, c, k2, b as int) == letter_term(lnf, nb + m, kb + 1));
    }
}

} // verus!
