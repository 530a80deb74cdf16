//! Incremental scorer: keeps the decryption and its score in sync with a
//! symbol-to-letter key, and rescores only the windows a move touches.
//!
//! The score is the log-likelihood of the *ciphertext* under a key (see
//! `score_spec`). Without the homophone term, mapping every symbol to one
//! letter that loops on itself in the model outscores the true key; with it,
//! piling symbols onto one letter costs what it should. It is O(1) to update
//! per move.
use vstd::prelude::*;
use crate::model::{
    ALPHABET,
    MAX_TEXT_LEN,
    ModelView,
    NgramModel,
    alphabet_pow,
    all_letters,
    lemma_alphabet_pow_values,
    lemma_roll,
    lemma_window_hash_bound,
    model_shape,
    window_count,
    window_hash,
    window_hash_at,
};
use crate::score_spec::{
    active_symbols,
    cipher_score,
    covers,
    decipher,
    lemma_active_bound,
    lemma_cipher_score_bound,
    lemma_letter_count_bound,
    lemma_letter_count_push,
    lemma_letter_term_bound,
    lemma_move_active,
    lemma_move_letter_counts,
    lemma_move_score,
    lemma_absent_symbol_move,
    lemma_symbol_count_bound,
    lemma_symbol_count_push,
    lemma_symbol_term_bound,
    lemma_symbols_total,
    lemma_symbols_total_monotone,
    lemma_count_below_bound,
    lemma_touched_bound,
    lemma_touched_skip,
    letter_count,
    letter_term,
    letters_term,
    ln_factorials_bounded,
    symbol_count,
    symbol_term,
    symbols_total,
    touched_prefix,
    touched_total,
};

verus! {

/// A table of quantised `ln x!` values, `round(1000 ln x!)`, each in
/// `0..=32768 x`.
pub struct LnFactorials {
    values: Vec<i64>,
}

impl View for LnFactorials {
    type V = Seq<i64>;

    closed spec fn view(&self) -> Seq<i64> {
        self.values@
    }
}

impl LnFactorials {
    #[verifier::type_invariant]
    spec fn bounded(self) -> bool {
        ln_factorials_bounded(self.values@)
    }

    /// Accepts the table when every entry lies in `0..=32768 x`.
    pub fn from_values(values: Vec<i64>) -> (r: Option<Self>)
        ensures
            r is Some <==> ln_factorials_bounded(values@),
            r matches Some(t) ==> t@ == values@,
    {
        let n = values.len();
        let mut x: usize = 0;
        while x < n
            invariant
                n == values@.len(),
                x <= n,
                forall|y: int| 0 <= y < x ==> 0 <= #[trigger] values@[y] <= 32768 * y,
            decreases n - x,
        {
            let v = values[x];
            if v < 0 || (v as i128) > 32768 * (x as i128) {
                return None;
            }
            x = x + 1;
        }
        Some(LnFactorials { values })
    }

    pub fn len(&self) -> (r: usize)
        ensures
            r == self@.len(),
    {
        self.values.len()
    }

    pub fn get(&self, x: usize) -> (r: i64)
        requires
            x < self@.len(),
        ensures
            r == self@[x as int],
            0 <= r <= 32768 * x,
    {
        proof {
            use_type_invariant(self);
        }
        self.values[x]
    }
}

const NO_PENDING: usize = usize::MAX;

pub struct Scorer<'m> {
    model: &'m NgramModel,
    ln_factorial: &'m LnFactorials,
    order: usize,
    high: usize,
    /// Positions of symbol `s` are `positions[offsets[s]..offsets[s + 1]]`,
    /// ascending.
    offsets: Vec<u32>,
    positions: Vec<u32>,
    key: Vec<u8>,
    plain: Vec<u8>,
    /// Occurrences of each letter in the decryption under the committed key.
    letter_counts: Vec<u32>,
    /// Number of occurring symbols the committed key maps to each letter.
    letter_symbols: Vec<u32>,
    score: i64,
    pending_symbol: usize,
    pending_old: u8,
    pending_delta: i64,
    cipher: Ghost<Seq<u16>>,
    /// `slot[p]` is the index in `positions` that holds position `p`.
    slot: Ghost<Seq<int>>,
}

/// The position index: symbol ranges in `offsets`, ascending positions in
/// each range, and `slot` inverting it.
#[verifier::opaque]
pub open spec fn position_index(
    c: Seq<u16>,
    ns: nat,
    offsets: Seq<u32>,
    positions: Seq<u32>,
    slot: Seq<int>,
) -> bool {
    &&& offsets.len() == ns + 1
    &&& offsets[0] == 0
    &&& offsets[ns as int] == c.len()
    &&& forall|s: int, t: int|
        0 <= s <= t <= ns ==> #[trigger] offsets[s] <= #[trigger] offsets[t]
    &&& forall|s: int| 0 <= s < ns ==> offsets[s + 1] - offsets[s] == #[trigger] symbol_count(c, s)
    &&& positions.len() == c.len()
    &&& forall|s: int, i: int|
        #![trigger offsets[s], positions[i]]
        0 <= s < ns && offsets[s] <= i < offsets[s + 1] ==> positions[i] < c.len() && c[positions[i] as int] as int == s
    &&& forall|s: int, i: int, j: int|
        #![trigger offsets[s], positions[i], positions[j]]
        0 <= s < ns && offsets[s] <= i < j < offsets[s + 1] ==> positions[i] < positions[j]
    &&& slot.len() == c.len()
    &&& forall|p: int|
        0 <= p < c.len() ==> offsets[c[p] as int] <= #[trigger] slot[p] < offsets[c[p] + 1]
            && positions[slot[p]] == p
}

impl<'m> Scorer<'m> {
    pub closed spec fn ciphertext(&self) -> Seq<u16> {
        self.cipher@
    }

    pub closed spec fn model_view(&self) -> ModelView {
        self.model@
    }

    pub closed spec fn ln_view(&self) -> Seq<i64> {
        self.ln_factorial@
    }

    /// The key as it stands, including a pending proposal.
    pub closed spec fn current_key(&self) -> Seq<u8> {
        self.key@
    }

    /// The symbol of an unresolved proposal and the letter it had before.
    pub closed spec fn pending(&self) -> Option<(int, u8)> {
        if self.pending_symbol == NO_PENDING {
            None
        } else {
            Some((self.pending_symbol as int, self.pending_old))
        }
    }

    /// The score kept for the committed key.
    pub closed spec fn committed_score(&self) -> int {
        self.score as int
    }

    /// The key without its pending proposal.
    pub open spec fn committed_key(&self) -> Seq<u8> {
        match self.pending() {
            None => self.current_key(),
            Some((s, l)) => self.current_key().update(s, l),
        }
    }

    /// Log-likelihood of this scorer's ciphertext under `key`.
    pub open spec fn score_of(&self, key: Seq<u8>) -> int {
        cipher_score(
            self.model_view().table,
            self.model_view().order,
            self.ciphertext(),
            self.ln_view(),
            key,
        )
    }

    /// Everything but the counts and the score.
    closed spec fn structure(&self) -> bool {
        let c = self.cipher@;
        let ns = self.key@.len();
        &&& ns + 1 <= usize::MAX
        &&& model_shape(self.model@)
        &&& self.order as nat == self.model@.order
        &&& self.high as nat == alphabet_pow((self.order - 1) as nat)
        &&& c.len() <= MAX_TEXT_LEN
        &&& ln_factorials_bounded(self.ln_factorial@)
        &&& self.ln_factorial@.len() > c.len() + ns
        &&& forall|i: int| 0 <= i < c.len() ==> (#[trigger] c[i] as int) < ns
        &&& position_index(c, ns, self.offsets@, self.positions@, self.slot@)
        &&& all_letters(self.key@)
        &&& self.plain@ == decipher(c, self.key@)
        &&& self.letter_counts@.len() == ALPHABET
        &&& self.letter_symbols@.len() == ALPHABET
    }

    /// Counts and score describe the committed key; a pending proposal
    /// carries its score change.
    pub closed spec fn inv(&self) -> bool {
        let c = self.cipher@;
        let ns = self.key@.len();
        let k = self.committed_key();
        &&& self.structure()
        &&& self.pending_symbol == NO_PENDING || (self.pending_symbol < ns && self.pending_old
            < 26)
        &&& forall|l: int|
            0 <= l < 26 ==> #[trigger] self.letter_counts@[l] == letter_count(decipher(c, k), l)
        &&& forall|l: int|
            0 <= l < 26 ==> #[trigger] self.letter_symbols@[l] == active_symbols(c, k, l, ns)
        &&& self.score == self.score_of(k)
        &&& self.pending_symbol != NO_PENDING ==> self.pending_delta == self.score_of(
            self.current_key(),
        ) - self.score_of(k)
    }

    /// `key[s]` is the initial letter of symbol `s`; every symbol in
    /// `ciphertext` must be below `key.len()`.
    pub fn new(
        model: &'m NgramModel,
        ciphertext: &[u16],
        key: Vec<u8>,
        ln_factorial: &'m LnFactorials,
    ) -> (sc: Self)
        requires
            all_letters(key@),
            forall|i: int| 0 <= i < ciphertext@.len() ==> (#[trigger] ciphertext@[i] as int) < key@.len(),
            ciphertext@.len() <= MAX_TEXT_LEN,
            ln_factorial@.len() > ciphertext@.len() + key@.len(),
        ensures
            sc.inv(),
            sc.pending() is None,
            sc.ciphertext() == ciphertext@,
            sc.current_key() == key@,
            sc.model_view() == model@,
            sc.ln_view() == ln_factorial@,
            sc.committed_score() == sc.score_of(key@),
    {
        proof {
            use_type_invariant(ln_factorial);
        }
        let order = model.order();
        let ghost c = ciphertext@;
        let ns = key.len();
        let len = ciphertext.len();
        let lfl = ln_factorial.len();
        assert(ns < lfl);
        let offsets = symbol_offsets(ciphertext, ns);
        let (positions, slot) = scatter_positions(ciphertext, &offsets, ns);
        // The decryption.
        let mut plain: Vec<u8> = Vec::new();
        let mut p: usize = 0;
        while p < len
            invariant
                c == ciphertext@,
                len == c.len(),
                ns == key@.len(),
                p <= len,
                forall|i: int| 0 <= i < len ==> (#[trigger] c[i] as int) < ns,
                plain@ =~= decipher(c.subrange(0, p as int), key@),
            decreases len - p,
        {
            plain.push(key[ciphertext[p] as usize]);
            p = p + 1;
        }
        proof {
            assert(c.subrange(0, len as int) =~= c);
            lemma_alphabet_pow_values();
        }
        let mut sc = Scorer {
            model,
            ln_factorial,
            order,
            high: crate::model::alphabet_power(order - 1),
            offsets,
            positions,
            key,
            plain,
            letter_counts: vec![0u32; ALPHABET],
            letter_symbols: vec![0u32; ALPHABET],
            score: 0,
            pending_symbol: NO_PENDING,
            pending_old: 0,
            pending_delta: 0,
            cipher: Ghost(c),
            slot,
        };
        sc.recount();
        sc
    }

    pub fn score(&self) -> (r: i64)
        ensures
            r == self.committed_score(),
    {
        self.score
    }

    pub fn key(&self) -> (r: &[u8])
        ensures
            r@ == self.current_key(),
    {
        self.key.as_slice()
    }

    pub fn plaintext(&self) -> (r: &[u8])
        requires
            self.inv(),
        ensures
            r@ == decipher(self.ciphertext(), self.current_key()),
    {
        self.plain.as_slice()
    }

    pub fn num_symbols(&self) -> (r: usize)
        ensures
            r == self.current_key().len(),
    {
        self.key.len()
    }

    pub fn occurrences(&self, symbol: usize) -> (r: usize)
        requires
            self.inv(),
            symbol < self.current_key().len(),
        ensures
            r == symbol_count(self.ciphertext(), symbol as int),
    {
        self.occurrences_of(symbol)
    }

    fn occurrences_of(&self, symbol: usize) -> (r: usize)
        requires
            self.structure(),
            symbol < self.key@.len(),
        ensures
            r == symbol_count(self.cipher@, symbol as int),
    {
        proof {
            lemma_index_offsets(
                self.cipher@,
                self.key@.len(),
                self.offsets@,
                self.positions@,
                self.slot@,
                symbol as int,
            );
        }
        (self.offsets[symbol + 1] - self.offsets[symbol]) as usize
    }

    /// Score of the current decryption recomputed from nothing but the
    /// ciphertext, the key and the model.
    pub fn full_rescore(&self) -> (r: i64)
        requires
            self.inv(),
        ensures
            r == self.score_of(self.current_key()),
    {
        self.rescore_structure()
    }

    fn rescore_structure(&self) -> (r: i64)
        requires
            self.structure(),
        ensures
            r == self.score_of(self.key@),
    {
        let ghost c = self.cipher@;
        let ghost key = self.key@;
        let ghost lnf = self.ln_factorial@;
        let len = self.plain.len();
        let ns = self.key.len();
        proof {
            lemma_cipher_score_bound(self.model@.table, self.model@.order, c, lnf, key);
        }
        let mut letters: Vec<usize> = vec![0usize; ALPHABET];
        let mut p: usize = 0;
        while p < len
            invariant
                self.structure(),
                c == self.cipher@,
                key == self.key@,
                len == self.plain@.len() == c.len(),
                p <= len,
                letters@.len() == 26,
                forall|l: int|
                    0 <= l < 26 ==> #[trigger] letters@[l] == letter_count(
                        self.plain@.subrange(0, p as int),
                        l,
                    ),
            decreases len - p,
        {
            let l = self.plain[p];
            proof {
                let pre = self.plain@.subrange(0, p as int);
                assert(self.plain@.subrange(0, p + 1) =~= pre.push(l));
                assert forall|m: int| 0 <= m < 26 implies #[trigger] letter_count(
                    self.plain@.subrange(0, p + 1),
                    m,
                ) == letter_count(pre, m) + if l as int == m {
                    1nat
                } else {
                    0nat
                } by {
                    lemma_letter_count_push(pre, l, m);
                }
                lemma_letter_count_bound(pre, l as int);
                assert(l < 26);
            }
            letters[l as usize] = letters[l as usize] + 1;
            p = p + 1;
        }
        proof {
            assert(self.plain@.subrange(0, len as int) =~= self.plain@);
        }
        let mut spl: Vec<usize> = vec![0usize; ALPHABET];
        let mut sym: i64 = 0;
        let mut s: usize = 0;
        while s < ns
            invariant
                self.structure(),
                c == self.cipher@,
                key == self.key@,
                lnf == self.ln_factorial@,
                len == c.len(),
                ns == key.len(),
                s <= ns,
                spl@.len() == 26,
                forall|l: int|
                    0 <= l < 26 ==> #[trigger] spl@[l] == active_symbols(c, key, l, s as nat),
                sym == symbol_term(lnf, c, s as nat),
            decreases ns - s,
        {
            let m = self.occurrences_of(s);
            proof {
                lemma_symbol_term_bound(lnf, c, (s + 1) as nat);
                lemma_symbols_total(c, (s + 1) as nat);
                lemma_symbol_count_bound(c, s as int);
                assert forall|l: int| 0 <= l < 26 implies #[trigger] active_symbols(
                    c,
                    key,
                    l,
                    s as nat,
                ) <= 0x10000 by {
                    lemma_active_bound(c, key, l, s as nat);
                }
            }
            if m > 0 {
                let l = self.key[s] as usize;
                spl[l] = spl[l] + 1;
                sym = sym + self.ln_factorial.get(m);
            }
            s = s + 1;
        }
        let mut lsum: i64 = 0;
        let mut l: usize = 0;
        while l < ALPHABET
            invariant
                self.structure(),
                c == self.cipher@,
                key == self.key@,
                lnf == self.ln_factorial@,
                len == c.len(),
                ns == key.len(),
                l <= 26,
                letters@.len() == 26,
                spl@.len() == 26,
                forall|m: int|
                    0 <= m < 26 ==> #[trigger] letters@[m] == letter_count(decipher(c, key), m),
                forall|m: int|
                    0 <= m < 26 ==> #[trigger] spl@[m] == active_symbols(c, key, m, ns as nat),
                lsum == letters_term(lnf, c, key, l as nat),
                -0x1_0000_0000_0000 * l <= lsum <= 0x1_0000_0000_0000 * l,
            decreases 26 - l,
        {
            proof {
                lemma_letter_count_bound(decipher(c, key), l as int);
                lemma_active_bound(c, key, l as int, ns as nat);
            }
            lsum = lsum + self.letter_term(letters[l], spl[l]);
            l = l + 1;
        }
        let ngrams = self.model.score_text(self.plain.as_slice());
        ngrams + sym + lsum
    }

    /// `ln Γ(k) − ln Γ(n + k)`; a letter no symbol maps to contributes nothing.
    fn letter_term(&self, n: usize, k: usize) -> (r: i64)
        requires
            self.structure(),
            n <= self.cipher@.len(),
            k <= 0x10000,
            k <= self.key@.len(),
        ensures
            r == letter_term(self.ln_factorial@, n as int, k as int),
            -0x1_0000_0000_0000 <= r <= 0x1_0000_0000_0000,
    {
        let lfl = self.ln_factorial.len();
        proof {
            assert(n + k <= lfl);
            lemma_letter_term_bound(
                self.ln_factorial@,
                n as int,
                k as int,
                self.cipher@.len() as int,
            );
        }
        if k == 0 {
            0
        } else {
            self.ln_factorial.get(k - 1) - self.ln_factorial.get(n + k - 1)
        }
    }

    /// Tentatively assigns `letter` to `symbol` and returns the score change.
    /// Must be followed by [`commit`](Self::commit) or
    /// [`rollback`](Self::rollback) before the next proposal.
    pub fn propose(&mut self, symbol: usize, letter: u8) -> (d: i64)
        requires
            old(self).inv(),
            old(self).pending() is None,
            symbol < old(self).current_key().len(),
            letter < 26,
        ensures
            final(self).inv(),
            final(self).pending() == Some((symbol as int, old(self).current_key()[symbol as int])),
            final(self).current_key() == old(self).current_key().update(symbol as int, letter),
            final(self).committed_score() == old(self).committed_score(),
            final(self).ciphertext() == old(self).ciphertext(),
            final(self).model_view() == old(self).model_view(),
            final(self).ln_view() == old(self).ln_view(),
            d == old(self).score_of(final(self).current_key()) - old(self).score_of(
                old(self).current_key(),
            ),
    {
        let ghost c = self.cipher@;
        let ghost key0 = self.key@;
        let ghost lnf = self.ln_factorial@;
        let ghost table = self.model@.table;
        let ghost n = self.model@.order;
        let old_letter = self.key[symbol];
        if old_letter == letter {
            self.pending_symbol = symbol;
            self.pending_old = old_letter;
            self.pending_delta = 0;
            proof {
                assert(key0.update(symbol as int, old_letter) =~= key0);
            }
            return 0;
        }
        let ghost key1 = key0.update(symbol as int, letter);
        proof {
            lemma_move_score(table, n, c, lnf, key0, symbol as int, letter);
            lemma_cipher_score_bound(table, n, c, lnf, key0);
            lemma_cipher_score_bound(table, n, c, lnf, key1);
            let w = window_count(c.len(), n);
            lemma_touched_bound(table, decipher(c, key0), n, c, symbol as int, w);
            lemma_touched_bound(table, decipher(c, key1), n, c, symbol as int, w);
            assert(32768 * w <= 0x8000_0000_0000) by (nonlinear_arith)
                requires
                    w <= MAX_TEXT_LEN,
            {}
        }
        let before = self.touched_sum(symbol);
        self.write_symbol(symbol, letter);
        let after = self.touched_sum(symbol);
        let m = self.occurrences_of(symbol);
        let hd: i64 = if m == 0 {
            0
        } else {
            let a = old_letter as usize;
            let b = letter as usize;
            let na = self.letter_counts[a] as usize;
            let ka = self.letter_symbols[a] as usize;
            let nb = self.letter_counts[b] as usize;
            let kb = self.letter_symbols[b] as usize;
            proof {
                let t0 = decipher(c, key0);
                let t1 = decipher(c, key1);
                lemma_move_letter_counts(c, key0, symbol as int, letter, b as int);
                lemma_move_active(c, key0, symbol as int, letter, b as int, key0.len());
                lemma_letter_count_bound(t0, a as int);
                lemma_letter_count_bound(t1, b as int);
                lemma_active_bound(c, key0, a as int, key0.len());
                lemma_active_bound(c, key1, b as int, key1.len());
            }
            self.letter_term(na - m, ka - 1) + self.letter_term(nb + m, kb + 1) - self.letter_term(
                na,
                ka,
            ) - self.letter_term(nb, kb)
        };
        self.pending_delta = after - before + hd;
        self.pending_symbol = symbol;
        self.pending_old = old_letter;
        proof {
            assert(key1.update(symbol as int, old_letter) =~= key0);
        }
        self.pending_delta
    }

    /// Accepts the pending proposal.
    pub fn commit(&mut self)
        requires
            old(self).inv(),
            old(self).pending() is Some,
        ensures
            final(self).inv(),
            final(self).pending() is None,
            final(self).current_key() == old(self).current_key(),
            final(self).committed_score() == old(self).score_of(old(self).current_key()),
            final(self).ciphertext() == old(self).ciphertext(),
            final(self).model_view() == old(self).model_view(),
            final(self).ln_view() == old(self).ln_view(),
    {
        let ghost c = self.cipher@;
        let ghost key1 = self.key@;
        let symbol = self.pending_symbol;
        let ghost key0 = key1.update(symbol as int, self.pending_old);
        let m = self.occurrences_of(symbol);
        let a = self.pending_old as usize;
        let b = self.key[symbol] as usize;
        proof {
            assert(key0.update(symbol as int, b as u8) =~= key1);
            lemma_cipher_score_bound(
                self.model@.table,
                self.model@.order,
                c,
                self.ln_factorial@,
                key1,
            );
        }
        if m > 0 && a != b {
            proof {
                let t0 = decipher(c, key0);
                let t1 = decipher(c, key1);
                assert forall|l: int| 0 <= l < 26 implies #[trigger] letter_count(t1, l) + (if a
                    == l {
                    symbol_count(c, symbol as int)
                } else {
                    0
                }) == letter_count(t0, l) + if b == l {
                    symbol_count(c, symbol as int)
                } else {
                    0
                } by {
                    lemma_move_letter_counts(c, key0, symbol as int, b as u8, l);
                }
                assert forall|l: int| 0 <= l < 26 implies #[trigger] active_symbols(
                    c,
                    key1,
                    l,
                    key1.len(),
                ) + (if a == l {
                    1nat
                } else {
                    0nat
                }) == active_symbols(c, key0, l, key0.len()) + if b == l {
                    1nat
                } else {
                    0nat
                } by {
                    lemma_move_active(c, key0, symbol as int, b as u8, l, key0.len());
                }
                lemma_letter_count_bound(t1, b as int);
                lemma_active_bound(c, key1, b as int, key1.len());
                lemma_move_letter_counts(c, key0, symbol as int, b as u8, a as int);
                lemma_move_active(c, key0, symbol as int, b as u8, a as int, key0.len());
                assert(self.letter_counts@[a as int] == letter_count(t0, a as int));
                assert(self.letter_symbols@[a as int] == active_symbols(c, key0, a as int, key0.len()));
                assert(letter_count(t0, a as int) >= m);
            }
            let mu = m as u32;
            self.letter_counts[a] = self.letter_counts[a] - mu;
            self.letter_counts[b] = self.letter_counts[b] + mu;
            self.letter_symbols[a] = self.letter_symbols[a] - 1;
            self.letter_symbols[b] = self.letter_symbols[b] + 1;
        } else {
            proof {
                if a != b {
                    lemma_absent_symbol_move(c, key0, symbol as int, b as u8);
                    assert forall|l: int| 0 <= l < 26 implies #[trigger] active_symbols(
                        c,
                        key1,
                        l,
                        key1.len(),
                    ) == active_symbols(c, key0, l, key0.len()) by {
                        lemma_move_active(c, key0, symbol as int, b as u8, l, key0.len());
                    }
                } else {
                    assert(key0 =~= key1);
                }
            }
        }
        self.score = self.score + self.pending_delta;
        self.pending_symbol = NO_PENDING;
    }

    /// Drops the pending proposal, restoring the key and the decryption.
    pub fn rollback(&mut self)
        requires
            old(self).inv(),
            old(self).pending() is Some,
        ensures
            final(self).inv(),
            final(self).pending() is None,
            final(self).current_key() == old(self).committed_key(),
            final(self).committed_score() == old(self).committed_score(),
            final(self).ciphertext() == old(self).ciphertext(),
            final(self).model_view() == old(self).model_view(),
            final(self).ln_view() == old(self).ln_view(),
    {
        let symbol = self.pending_symbol;
        let letter = self.pending_old;
        self.write_symbol(symbol, letter);
        self.pending_symbol = NO_PENDING;
    }

    /// Unconditionally applies a move and returns the score change.
    pub fn apply(&mut self, symbol: usize, letter: u8) -> (d: i64)
        requires
            old(self).inv(),
            old(self).pending() is None,
            symbol < old(self).current_key().len(),
            letter < 26,
        ensures
            final(self).inv(),
            final(self).pending() is None,
            final(self).current_key() == old(self).current_key().update(symbol as int, letter),
            final(self).committed_score() == old(self).score_of(final(self).current_key()),
            d == final(self).committed_score() - old(self).committed_score(),
            final(self).ciphertext() == old(self).ciphertext(),
            final(self).model_view() == old(self).model_view(),
            final(self).ln_view() == old(self).ln_view(),
    {
        let delta = self.propose(symbol, letter);
        self.commit();
        delta
    }

    /// Replaces the whole key, e.g. to restore the best key seen so far.
    pub fn set_key(&mut self, key: &[u8])
        requires
            old(self).inv(),
            old(self).pending() is None,
            key@.len() == old(self).current_key().len(),
            all_letters(key@),
        ensures
            final(self).inv(),
            final(self).pending() is None,
            final(self).current_key() == key@,
            final(self).committed_score() == old(self).score_of(key@),
            final(self).ciphertext() == old(self).ciphertext(),
            final(self).model_view() == old(self).model_view(),
            final(self).ln_view() == old(self).ln_view(),
    {
        let ns = self.key.len();
        let mut s: usize = 0;
        while s < ns
            invariant
                self.structure(),
                ns == self.key@.len() == key@.len(),
                s <= ns,
                all_letters(key@),
                self.cipher@ == old(self).cipher@,
                self.model == old(self).model,
                self.ln_factorial == old(self).ln_factorial,
                forall|j: int| 0 <= j < s ==> #[trigger] self.key@[j] == key@[j],
                forall|j: int| s <= j < ns ==> #[trigger] self.key@[j] == old(self).key@[j],
            decreases ns - s,
        {
            if self.key[s] != key[s] {
                self.write_symbol(s, key[s]);
            }
            s = s + 1;
        }
        proof {
            assert(self.key@ =~= key@);
        }
        self.recount();
    }

    /// Every score of a key of this scorer's length lies within `±2^53`.
    pub proof fn lemma_scores_bounded(&self, key: Seq<u8>)
        requires
            self.inv(),
            key.len() == self.current_key().len(),
        ensures
            -0x20_0000_0000_0000 <= self.score_of(key) <= 0x20_0000_0000_0000,
    {
        lemma_cipher_score_bound(
            self.model@.table,
            self.model@.order,
            self.cipher@,
            self.ln_factorial@,
            key,
        );
    }

    /// Recomputes the counts and the score from the key.
    fn recount(&mut self)
        requires
            old(self).structure(),
        ensures
            final(self).inv(),
            final(self).pending() is None,
            final(self).key@ == old(self).key@,
            final(self).cipher@ == old(self).cipher@,
            final(self).model@ == old(self).model@,
            final(self).ln_factorial@ == old(self).ln_factorial@,
    {
        let ghost c = self.cipher@;
        let ghost key = self.key@;
        let len = self.plain.len();
        let ns = self.key.len();
        let mut counts: Vec<u32> = vec![0u32; ALPHABET];
        let mut p: usize = 0;
        while p < len
            invariant
                self.structure(),
                c == self.cipher@,
                key == self.key@,
                len == self.plain@.len() == c.len(),
                p <= len,
                counts@.len() == 26,
                forall|l: int|
                    0 <= l < 26 ==> #[trigger] counts@[l] == letter_count(
                        self.plain@.subrange(0, p as int),
                        l,
                    ),
            decreases len - p,
        {
            let l = self.plain[p];
            proof {
                let pre = self.plain@.subrange(0, p as int);
                assert(self.plain@.subrange(0, p + 1) =~= pre.push(l));
                assert forall|m: int| 0 <= m < 26 implies #[trigger] letter_count(
                    self.plain@.subrange(0, p + 1),
                    m,
                ) == letter_count(pre, m) + if l as int == m {
                    1nat
                } else {
                    0nat
                } by {
                    lemma_letter_count_push(pre, l, m);
                }
                lemma_letter_count_bound(pre, l as int);
                assert(l < 26);
            }
            counts[l as usize] = counts[l as usize] + 1;
            p = p + 1;
        }
        proof {
            assert(self.plain@.subrange(0, len as int) =~= self.plain@);
        }
        let mut spl: Vec<u32> = vec![0u32; ALPHABET];
        let mut s: usize = 0;
        while s < ns
            invariant
                self.structure(),
                c == self.cipher@,
                key == self.key@,
                ns == key.len(),
                s <= ns,
                spl@.len() == 26,
                forall|l: int|
                    0 <= l < 26 ==> #[trigger] spl@[l] == active_symbols(c, key, l, s as nat),
            decreases ns - s,
        {
            let m = self.occurrences_of(s);
            proof {
                assert forall|l: int| 0 <= l < 26 implies #[trigger] active_symbols(
                    c,
                    key,
                    l,
                    s as nat,
                ) <= 0x10000 by {
                    lemma_active_bound(c, key, l, s as nat);
                }
            }
            if m > 0 {
                let l = self.key[s] as usize;
                spl[l] = spl[l] + 1;
            }
            s = s + 1;
        }
        let total = self.rescore_structure();
        self.letter_counts = counts;
        self.letter_symbols = spl;
        self.score = total;
        self.pending_symbol = NO_PENDING;
    }

    /// Sets the letter of `symbol` in the key and the decryption.
    fn write_symbol(&mut self, symbol: usize, letter: u8)
        requires
            old(self).structure(),
            symbol < old(self).key@.len(),
            letter < 26,
        ensures
            final(self).structure(),
            final(self).key@ == old(self).key@.update(symbol as int, letter),
            final(self).cipher@ == old(self).cipher@,
            final(self).model == old(self).model,
            final(self).ln_factorial == old(self).ln_factorial,
            final(self).letter_counts == old(self).letter_counts,
            final(self).letter_symbols == old(self).letter_symbols,
            final(self).score == old(self).score,
            final(self).pending_symbol == old(self).pending_symbol,
            final(self).pending_old == old(self).pending_old,
            final(self).pending_delta == old(self).pending_delta,
    {
        let ghost c = self.cipher@;
        let ghost old_plain = self.plain@;
        let ghost new_key = self.key@.update(symbol as int, letter);
        self.key[symbol] = letter;
        proof {
            lemma_index_offsets(
                c,
                new_key.len(),
                self.offsets@,
                self.positions@,
                self.slot@,
                symbol as int,
            );
        }
        proof {
            lemma_index_slots(c, new_key.len(), self.offsets@, self.positions@, self.slot@);
        }
        let a = self.offsets[symbol] as usize;
        let b = self.offsets[symbol + 1] as usize;
        let mut i = a;
        while i < b
            invariant
                c == self.cipher@,
                self.key@ == new_key,
                self.model == old(self).model,
                self.ln_factorial == old(self).ln_factorial,
                self.order == old(self).order,
                self.high == old(self).high,
                self.offsets == old(self).offsets,
                self.positions == old(self).positions,
                self.slot == old(self).slot,
                self.letter_counts == old(self).letter_counts,
                self.letter_symbols == old(self).letter_symbols,
                self.score == old(self).score,
                self.pending_symbol == old(self).pending_symbol,
                self.pending_old == old(self).pending_old,
                self.pending_delta == old(self).pending_delta,
                self.positions@.len() == c.len(),
                forall|p: int|
                    0 <= p < c.len() ==> self.offsets@[c[p] as int] <= #[trigger] self.slot@[p]
                        < self.offsets@[c[p] + 1] && self.positions@[self.slot@[p]] == p,
                new_key.len() + 1 == self.offsets@.len(),
                position_index(c, new_key.len(), self.offsets@, self.positions@, self.slot@),
                a == self.offsets@[symbol as int],
                b == self.offsets@[symbol + 1],
                b <= c.len(),
                symbol < new_key.len(),
                a <= i <= b,
                self.plain@.len() == c.len(),
                forall|p: int|
                    0 <= p < c.len() ==> #[trigger] self.plain@[p] == if c[p] as int == symbol
                        && self.slot@[p] < i {
                        letter
                    } else {
                        old_plain[p]
                    },
            decreases b - i,
        {
            let q = self.positions[i] as usize;
            proof {
                lemma_index_entry(
                    c,
                    new_key.len(),
                    self.offsets@,
                    self.positions@,
                    self.slot@,
                    symbol as int,
                    i as int,
                );
                lemma_index_slot(
                    c,
                    new_key.len(),
                    self.offsets@,
                    self.positions@,
                    self.slot@,
                    q as int,
                );
                let sq = self.slot@[q as int];
                if sq < i {
                    assert(self.positions@[sq] < self.positions@[i as int]);
                } else if sq > i {
                    assert(self.positions@[i as int] < self.positions@[sq]);
                }
            }
            self.plain[q] = letter;
            i = i + 1;
        }
        proof {
            assert forall|p: int| 0 <= p < c.len() implies #[trigger] self.plain@[p] == decipher(
                c,
                new_key,
            )[p] by {
                if c[p] as int == symbol {
                    lemma_index_slot(
                        c,
                        new_key.len(),
                        self.offsets@,
                        self.positions@,
                        self.slot@,
                        p,
                    );
                }
            }
            assert(self.plain@ =~= decipher(c, new_key));
            assert(all_letters(new_key)) by {
                assert forall|j: int| 0 <= j < new_key.len() implies #[trigger] new_key[j] < 26 by {
                    if j != symbol {
                        assert(new_key[j] == old(self).key@[j]);
                    }
                }
            }
        }
    }

    /// Sum of the scores of every window that covers at least one position of
    /// `symbol`, each window counted once even when occurrences are closer
    /// together than the model order.
    fn touched_sum(&self, symbol: usize) -> (r: i64)
        requires
            self.structure(),
            symbol < self.key@.len(),
        ensures
            r == touched_total(
                self.model@.table,
                self.plain@,
                self.order as nat,
                self.cipher@,
                symbol as int,
            ),
    {
        let ghost c = self.cipher@;
        let ghost table = self.model@.table;
        let ghost text = self.plain@;
        let ghost sym = symbol as int;
        let n = self.order;
        let len = self.plain.len();
        proof {
            lemma_alphabet_pow_values();
        }
        if len < n {
            return 0;
        }
        let last_start = len - n;
        proof {
            lemma_index_offsets(
                c,
                self.key@.len(),
                self.offsets@,
                self.positions@,
                self.slot@,
                symbol as int,
            );
        }
        let a = self.offsets[symbol] as usize;
        let b = self.offsets[symbol + 1] as usize;
        let mut sum: i64 = 0;
        let mut next_start: usize = 0;
        let mut rolling = false;
        let mut h: usize = 0;
        let mut idx = a;
        while idx < b
            invariant
                self.structure(),
                c == self.cipher@,
                table == self.model@.table,
                text == self.plain@,
                sym == symbol as int,
                symbol < self.key@.len(),
                n == self.order,
                2 <= n <= 5,
                len == text.len() == c.len(),
                n <= len,
                last_start == len - n,
                a == self.offsets@[symbol as int],
                b == self.offsets@[symbol + 1],
                a <= idx <= b <= len,
                self.positions@.len() == len,
                next_start <= last_start + 1,
                sum == touched_prefix(table, text, n as nat, c, sym, next_start as nat),
                rolling ==> next_start >= 1 && h == window_hash(text, next_start - 1, n as nat),
                forall|j: int|
                    a <= j < idx ==> (#[trigger] self.positions@[j] as int) < next_start
                        || last_start < next_start,
            decreases b - idx,
        {
            let p = self.positions[idx] as usize;
            proof {
                lemma_index_entry(
                    c,
                    self.key@.len(),
                    self.offsets@,
                    self.positions@,
                    self.slot@,
                    sym,
                    idx as int,
                );
            }
            let lo = if p >= n - 1 {
                p - (n - 1)
            } else {
                0
            };
            let lo = if lo >= next_start {
                lo
            } else {
                next_start
            };
            let hi = if p <= last_start {
                p
            } else {
                last_start
            };
            if lo <= hi {
                proof {
                    lemma_gap_uncovered(
                        c,
                        self.key@.len(),
                        self.offsets@,
                        self.positions@,
                        self.slot@,
                        sym,
                        a as int,
                        b as int,
                        idx as int,
                        next_start as int,
                        lo as int,
                        last_start as int,
                        n as nat,
                    );
                    lemma_touched_skip(table, text, n as nat, c, sym, next_start as nat, lo as nat);
                    lemma_touched_bound(table, text, n as nat, c, sym, lo as nat);
                    lemma_window_hash_bound(text, lo as int, n as nat);
                    assert(c[p as int] as int == sym);
                    assert(covers(c, sym, lo as int, n as nat));
                }
                let mut start = lo;
                h = if rolling && lo == next_start {
                    proof {
                        lemma_roll(text, lo - 1, n as nat);
                        roll_fits(text, lo - 1, n as nat, h, self.high);
                    }
                    (h - self.plain[start - 1] as usize * self.high) * ALPHABET
                        + self.plain[start + n - 1] as usize
                } else {
                    window_hash_at(self.plain.as_slice(), start, n)
                };
                sum = sum + self.model.table()[h] as i64;
                while start < hi
                    invariant
                        self.structure(),
                        c == self.cipher@,
                        table == self.model@.table,
                        text == self.plain@,
                        sym == symbol as int,
                        n == self.order,
                        2 <= n <= 5,
                        len == text.len() == c.len(),
                        n <= len,
                        last_start == len - n,
                        lo <= start <= hi <= last_start,
                        hi <= p,
                        p < len,
                        c[p as int] as int == sym,
                        p <= lo + n - 1,
                        h == window_hash(text, start as int, n as nat),
                        sum == touched_prefix(table, text, n as nat, c, sym, (start + 1) as nat),
                    decreases hi - start,
                {
                    proof {
                        lemma_roll(text, start as int, n as nat);
                        roll_fits(text, start as int, n as nat, h, self.high);
                        lemma_window_hash_bound(text, start + 1, n as nat);
                        lemma_touched_bound(table, text, n as nat, c, sym, (start + 1) as nat);
                        assert(covers(c, sym, start + 1, n as nat));
                    }
                    start = start + 1;
                    h = (h - self.plain[start - 1] as usize * self.high) * ALPHABET
                        + self.plain[start + n - 1] as usize;
                    sum = sum + self.model.table()[h] as i64;
                }
                next_start = hi + 1;
                rolling = true;
            } else {
                proof {
                    assert(self.positions@[idx as int] as int == p);
                }
            }
            idx = idx + 1;
        }
        proof {
            lemma_tail_uncovered(
                c,
                self.key@.len(),
                self.offsets@,
                self.positions@,
                self.slot@,
                sym,
                a as int,
                b as int,
                next_start as int,
                last_start as int,
                n as nat,
            );
            lemma_touched_skip(
                table,
                text,
                n as nat,
                c,
                sym,
                next_start as nat,
                (last_start + 1) as nat,
            );
        }
        sum
    }
}

proof fn lemma_index_offsets(
    c: Seq<u16>,
    ns: nat,
    offsets: Seq<u32>,
    positions: Seq<u32>,
    slot: Seq<int>,
    s: int,
)
    requires
        position_index(c, ns, offsets, positions, slot),
        0 <= s < ns,
    ensures
        offsets.len() == ns + 1,
        positions.len() == c.len(),
        slot.len() == c.len(),
        offsets[0] == 0,
        offsets[ns as int] == c.len(),
        offsets[s] <= offsets[s + 1] <= c.len(),
        offsets[s + 1] - offsets[s] == symbol_count(c, s),
{
    reveal(position_index);
    assert(offsets[s] <= offsets[s + 1]);
    assert(offsets[s + 1] <= offsets[ns as int]);
    assert(offsets[s + 1] - offsets[s] == symbol_count(c, s));
}

/// The entry at index `i` of a symbol's range is a position of that symbol,
/// and entries of one range ascend.
proof fn lemma_index_entry(
    c: Seq<u16>,
    ns: nat,
    offsets: Seq<u32>,
    positions: Seq<u32>,
    slot: Seq<int>,
    s: int,
    i: int,
)
    requires
        position_index(c, ns, offsets, positions, slot),
        0 <= s < ns,
        offsets[s] <= i < offsets[s + 1],
    ensures
        positions[i] < c.len(),
        c[positions[i] as int] as int == s,
        forall|j: int| i < j < offsets[s + 1] ==> positions[i] < #[trigger] positions[j],
        forall|j: int| offsets[s] <= j < i ==> #[trigger] positions[j] < positions[i],
{
    reveal(position_index);
    assert(positions[i] < c.len() && c[positions[i] as int] as int == s);
    assert forall|j: int| i < j < offsets[s + 1] implies positions[i] < #[trigger] positions[j] by {
        assert(positions[i] < positions[j]);
    }
    assert forall|j: int| offsets[s] <= j < i implies #[trigger] positions[j] < positions[i] by {
        assert(positions[j] < positions[i]);
    }
}

/// Where every position sits in the index.
proof fn lemma_index_slots(
    c: Seq<u16>,
    ns: nat,
    offsets: Seq<u32>,
    positions: Seq<u32>,
    slot: Seq<int>,
)
    requires
        position_index(c, ns, offsets, positions, slot),
    ensures
        positions.len() == c.len(),
        forall|p: int|
            0 <= p < c.len() ==> offsets[c[p] as int] <= #[trigger] slot[p] < offsets[c[p] + 1]
                && positions[slot[p]] == p,
{
    reveal(position_index);
}

/// Where position `p` sits in the index.
proof fn lemma_index_slot(
    c: Seq<u16>,
    ns: nat,
    offsets: Seq<u32>,
    positions: Seq<u32>,
    slot: Seq<int>,
    p: int,
)
    requires
        position_index(c, ns, offsets, positions, slot),
        0 <= p < c.len(),
    ensures
        offsets[c[p] as int] <= slot[p] < offsets[c[p] + 1],
        positions[slot[p]] == p,
{
    reveal(position_index);
}

/// `offsets[s]` is the index of the first position of symbol `s` once the
/// positions are grouped by symbol.
fn symbol_offsets(ciphertext: &[u16], ns: usize) -> (offsets: Vec<u32>)
    requires
        ns < usize::MAX,
        ciphertext@.len() <= MAX_TEXT_LEN,
        forall|i: int| 0 <= i < ciphertext@.len() ==> (#[trigger] ciphertext@[i] as int) < ns,
    ensures
        offsets@.len() == ns + 1,
        offsets@[0] == 0,
        offsets@[ns as int] == ciphertext@.len(),
        forall|s: int, t: int| 0 <= s <= t <= ns ==> #[trigger] offsets@[s] <= #[trigger] offsets@[t],
        forall|s: int|
            0 <= s < ns ==> offsets@[s + 1] - offsets@[s] == #[trigger] symbol_count(ciphertext@, s),
{
    let ghost c = ciphertext@;
    let len = ciphertext.len();
    // Occurrences of each symbol, shifted by one.
    let mut offsets: Vec<u32> = vec![0u32; ns + 1];
    let mut p: usize = 0;
    while p < len
        invariant
            c == ciphertext@,
            len == c.len() <= MAX_TEXT_LEN,
            p <= len,
            forall|i: int| 0 <= i < len ==> (#[trigger] c[i] as int) < ns,
            offsets@.len() == ns + 1,
            offsets@[0] == 0,
            forall|s: int|
                0 <= s < ns ==> #[trigger] offsets@[s + 1] == symbol_count(
                    c.subrange(0, p as int),
                    s,
                ),
        decreases len - p,
    {
        let s = ciphertext[p] as usize;
        proof {
            assert(c.subrange(0, p + 1) =~= c.subrange(0, p as int).push(c[p as int]));
            assert forall|t: int| 0 <= t < ns implies #[trigger] symbol_count(
                c.subrange(0, p + 1),
                t,
            ) == symbol_count(c.subrange(0, p as int), t) + if c[p as int] as int == t {
                1nat
            } else {
                0nat
            } by {
                lemma_symbol_count_push(c.subrange(0, p as int), c[p as int], t);
            }
            lemma_symbol_count_bound(c.subrange(0, p as int), s as int);
        }
        offsets[s + 1] = offsets[s + 1] + 1;
        p = p + 1;
    }
    proof {
        assert(c.subrange(0, len as int) =~= c);
        assert forall|j: int| 1 <= j <= ns implies #[trigger] offsets@[j] == symbol_count(
            c,
            j - 1,
        ) by {
            assert(offsets@[(j - 1) + 1] == symbol_count(c.subrange(0, len as int), j - 1));
        }
        assert(offsets@[0] == symbols_total(c, 0));
    }
    // Prefix sums: offsets[s] becomes the first index of symbol s.
    let mut i: usize = 1;
    while i <= ns
        invariant
            ns < usize::MAX,
            c == ciphertext@,
            len == c.len() <= MAX_TEXT_LEN,
            1 <= i <= ns + 1,
            offsets@.len() == ns + 1,
            forall|j: int| 0 <= j < i ==> #[trigger] offsets@[j] == symbols_total(c, j as nat),
            forall|j: int| i <= j <= ns ==> #[trigger] offsets@[j] == symbol_count(c, j - 1),
        decreases ns + 1 - i,
    {
        proof {
            lemma_symbols_total(c, i as nat);
        }
        offsets[i] = offsets[i] + offsets[i - 1];
        i = i + 1;
    }
    proof {
        lemma_symbols_total(c, ns as nat);
        lemma_count_below_bound(c, ns as int);
        assert forall|s: int, t: int| 0 <= s <= t <= ns implies #[trigger] offsets@[s]
            <= #[trigger] offsets@[t] by {
            lemma_symbols_total_monotone(c, s as nat, t as nat);
        }
    }
    proof {
        assert forall|s: int| 0 <= s < ns implies offsets@[s + 1] - offsets@[s] == #[trigger] symbol_count(c, s) by {
            assert(offsets@[s] == symbols_total(c, s as nat));
            assert(offsets@[s + 1] == symbols_total(c, (s + 1) as nat));
        }
    }
    offsets
}

/// Every position grouped under its symbol, in ascending order.
fn scatter_positions(ciphertext: &[u16], offsets: &Vec<u32>, ns: usize) -> (r: (
    Vec<u32>,
    Ghost<Seq<int>>,
))
    requires
        ns < usize::MAX,
        ciphertext@.len() <= MAX_TEXT_LEN,
        forall|i: int| 0 <= i < ciphertext@.len() ==> (#[trigger] ciphertext@[i] as int) < ns,
        offsets@.len() == ns + 1,
        offsets@[0] == 0,
        offsets@[ns as int] == ciphertext@.len(),
        forall|s: int, t: int| 0 <= s <= t <= ns ==> #[trigger] offsets@[s] <= #[trigger] offsets@[t],
        forall|s: int|
            0 <= s < ns ==> offsets@[s + 1] - offsets@[s] == #[trigger] symbol_count(ciphertext@, s),
    ensures
        position_index(ciphertext@, ns as nat, offsets@, r.0@, r.1@),
{
    let ghost c = ciphertext@;
    let len = ciphertext.len();
    // Scatter every position into its symbol's range.
    let mut fill: Vec<u32> = offsets.clone();
    proof {
        assert(fill@ =~= offsets@);
    }
    let mut positions: Vec<u32> = vec![0u32; len];
    let ghost mut slot: Seq<int> = Seq::empty();
    let mut p: usize = 0;
    while p < len
        invariant
            c == ciphertext@,
            len == c.len() <= MAX_TEXT_LEN,
            p <= len,
            forall|i: int| 0 <= i < len ==> (#[trigger] c[i] as int) < ns,
            offsets@.len() == ns + 1,
            offsets@[0] == 0,
            offsets@[ns as int] == len,
            forall|s: int, t: int|
                0 <= s <= t <= ns ==> #[trigger] offsets@[s] <= #[trigger] offsets@[t],
            forall|s: int|
                0 <= s < ns ==> offsets@[s + 1] - offsets@[s] == #[trigger] symbol_count(c, s),
            fill@.len() == ns + 1,
            positions@.len() == len,
            forall|s: int|
                0 <= s < ns ==> #[trigger] fill@[s] == offsets@[s] + symbol_count(
                    c.subrange(0, p as int),
                    s,
                ),
            forall|s: int, i: int|
                #![trigger offsets@[s], positions@[i]]
                0 <= s < ns && offsets@[s] <= i < fill@[s] ==> positions@[i] < p
                    && c[positions@[i] as int] as int == s,
            forall|s: int, i: int, j: int|
                #![trigger offsets@[s], positions@[i], positions@[j]]
                0 <= s < ns && offsets@[s] <= i < j < fill@[s]
                    ==> positions@[i] < positions@[j],
            slot.len() == p,
            forall|q: int|
                0 <= q < p ==> offsets@[c[q] as int] <= #[trigger] slot[q] < fill@[c[q] as int]
                    && positions@[slot[q]] == q,
        decreases len - p,
    {
        let s = ciphertext[p] as usize;
        let f = fill[s];
        proof {
            let pre = c.subrange(0, p as int);
            assert(c.subrange(0, p + 1) =~= pre.push(c[p as int]));
            lemma_symbol_count_prefix(c, p as int + 1, s as int);
            lemma_symbol_count_push(pre, c[p as int], s as int);
            assert(f < offsets@[s + 1]);
            assert forall|t: int| 0 <= t < ns implies #[trigger] symbol_count(
                c.subrange(0, p + 1),
                t,
            ) == symbol_count(pre, t) + if c[p as int] as int == t {
                1nat
            } else {
                0nat
            } by {
                lemma_symbol_count_push(pre, c[p as int], t);
            }
            assert forall|t: int| 0 <= t < ns implies #[trigger] fill@[t] <= offsets@[t + 1] by {
                lemma_symbol_count_prefix(c, p as int, t);
            }
        }
        positions[f as usize] = p as u32;
        fill[s] = f + 1;
        proof {
            slot = slot.push(f as int);
        }
        p = p + 1;
    }
    proof {
        assert(c.subrange(0, len as int) =~= c);
        assert forall|s: int| 0 <= s < ns implies #[trigger] fill@[s] == offsets@[s + 1] by {}
        reveal(position_index);
        assert(position_index(c, ns as nat, offsets@, positions@, slot));
    }
    (positions, Ghost(slot))
}

/// The rolling-hash step stays within machine words.
proof fn roll_fits(text: Seq<u8>, w: int, n: nat, h: usize, high: usize)
    requires
        all_letters(text),
        2 <= n <= 5,
        0 <= w,
        w + n < text.len(),
        h == window_hash(text, w, n),
        high == alphabet_pow((n - 1) as nat),
    ensures
        text[w] as int * high as int <= h,
        (h - text[w] as int * high as int) * 26 + text[w + n] as int == window_hash(
            text,
            w + 1,
            n,
        ),
        window_hash(text, w + 1, n) < alphabet_pow(n),
        alphabet_pow(n) <= 11881376,
{
    lemma_roll(text, w, n);
    lemma_window_hash_bound(text, w + 1, n);
    lemma_alphabet_pow_values();
    assert(n == 2 || n == 3 || n == 4 || n == 5);
}

/// The score a scorer keeps is exact: whatever sequence of proposals,
/// commits, rollbacks and key replacements led to it, it equals the
/// log-likelihood of the ciphertext recomputed from scratch for the
/// committed key.
pub proof fn lemma_incremental_score_is_exact(sc: &Scorer)
    requires
        sc.inv(),
    ensures
        sc.committed_score() == sc.score_of(sc.committed_key()),
        sc.pending() is None ==> sc.committed_key() == sc.current_key(),
        all_letters(sc.current_key()),
        forall|i: int|
            0 <= i < sc.ciphertext().len() ==> (#[trigger] sc.ciphertext()[i] as int)
                < sc.current_key().len(),
        sc.ciphertext().len() <= MAX_TEXT_LEN,
        sc.ln_view().len() > sc.ciphertext().len() + sc.current_key().len(),
        sc.model_view().order >= 2,
{
}

/// Prefix counts never exceed the whole count.
proof fn lemma_symbol_count_prefix(c: Seq<u16>, p: int, s: int)
    requires
        0 <= p <= c.len(),
    ensures
        symbol_count(c.subrange(0, p), s) <= symbol_count(c, s),
    decreases c.len() - p,
{
    if p < c.len() {
        lemma_symbol_count_prefix(c, p + 1, s);
        assert(c.subrange(0, p + 1) =~= c.subrange(0, p).push(c[p]));
        lemma_symbol_count_push(c.subrange(0, p), c[p], s);
    } else {
        assert(c.subrange(0, p) =~= c);
    }
}

/// Windows in `[next_start, lo)` hold no occurrence of the symbol: earlier
/// occurrences lie before `next_start`, later ones after `lo + n - 1`.
proof fn lemma_gap_uncovered(
    c: Seq<u16>,
    ns: nat,
    offsets: Seq<u32>,
    positions: Seq<u32>,
    slot: Seq<int>,
    s: int,
    a: int,
    b: int,
    idx: int,
    next_start: int,
    lo: int,
    last_start: int,
    n: nat,
)
    requires
        position_index(c, ns, offsets, positions, slot),
        0 <= s < ns,
        a == offsets[s],
        b == offsets[s + 1],
        a <= idx < b,
        n >= 1,
        next_start <= lo <= last_start,
        lo == next_start || lo == positions[idx] - (n - 1),
        forall|j: int| a <= j < idx ==> (#[trigger] positions[j] as int) < next_start || last_start
            < next_start,
    ensures
        forall|w: int| next_start <= w < lo ==> !covers(c, s, w, n),
{
    assert forall|w: int| next_start <= w < lo implies !covers(c, s, w, n) by {
        if covers(c, s, w, n) {
            let q = choose|q: int| w <= q < w + n && 0 <= q < c.len() && #[trigger] c[q] as int == s;
            let j = slot[q];
            lemma_index_slot(c, ns, offsets, positions, slot, q);
            lemma_index_entry(c, ns, offsets, positions, slot, s, idx);
            if j < idx {
                assert((positions[j] as int) < next_start || last_start < next_start);
            } else if j > idx {
                assert(positions[idx] < positions[j]);
            }
        }
    }
}

/// Once every occurrence has been passed, no window from `next_start` on holds one.
proof fn lemma_tail_uncovered(
    c: Seq<u16>,
    ns: nat,
    offsets: Seq<u32>,
    positions: Seq<u32>,
    slot: Seq<int>,
    s: int,
    a: int,
    b: int,
    next_start: int,
    last_start: int,
    n: nat,
)
    requires
        position_index(c, ns, offsets, positions, slot),
        0 <= s < ns,
        a == offsets[s],
        b == offsets[s + 1],
        0 <= next_start <= last_start + 1,
        forall|j: int| a <= j < b ==> (#[trigger] positions[j] as int) < next_start || last_start
            < next_start,
    ensures
        forall|w: int| next_start <= w < last_start + 1 ==> !covers(c, s, w, n),
{
    assert forall|w: int| next_start <= w < last_start + 1 implies !covers(c, s, w, n) by {
        if covers(c, s, w, n) {
            let q = choose|q: int| w <= q < w + n && 0 <= q < c.len() && #[trigger] c[q] as int == s;
            let j = slot[q];
            lemma_index_slot(c, ns, offsets, positions, slot, q);
            assert((positions[j] as int) < next_start || last_start < next_start);
        }
    }
}

} // verus!
