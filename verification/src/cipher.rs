//! Homophonic keys, encryption, ciphertext parsing and recovery counting.
use vstd::prelude::*;
use std::collections::HashMap;
use crate::model::{ALPHABET, all_letters, append_char, append_decimal, append_text, decimal, owned_text};
use crate::rng::{Rng, RngState, scale_below, shuffle_from, xoshiro_advance, xoshiro_output};
use crate::score_spec::decipher;

verus! {

/// A key is consistent when every homophone of letter `l` decrypts to `l`.
pub open spec fn key_consistent(symbol_letter: Seq<u8>, homophones: Seq<Seq<u16>>) -> bool {
    forall|l: int, j: int|
        0 <= l < homophones.len() && 0 <= j < homophones[l].len() ==> (#[trigger] homophones[l][j]
            as int) < symbol_letter.len() && symbol_letter[homophones[l][j] as int] as int == l
}

/// Homophone lists as plain sequences.
pub open spec fn homophone_lists(h: Seq<Vec<u16>>) -> Seq<Seq<u16>> {
    Seq::new(h.len(), |l: int| h[l]@)
}

/// `Σ_{l < k} counts[l]`.
pub open spec fn prefix_total(counts: Seq<usize>, k: int) -> int
    decreases k,
{
    if k <= 0 {
        0
    } else {
        prefix_total(counts, k - 1) + counts[k - 1]
    }
}

/// `0, 1, .., n - 1` as symbols.
pub open spec fn symbol_range(n: nat) -> Seq<u16> {
    Seq::new(n, |i: int| i as u16)
}

/// The symbols `0..total` shuffled from generator state `s`, and the state
/// after the shuffle.
pub open spec fn shuffled_range(total: nat, s: RngState) -> (Seq<u16>, RngState) {
    shuffle_from(symbol_range(total), s, total - 1)
}

/// `key` deals the symbols `0..total`, shuffled from state `s`, out in order:
/// `per_letter[0]` to A, the next `per_letter[1]` to B, and so on; every
/// symbol decrypts to the letter it was dealt to.
pub open spec fn dealt_key(key: HomophonicKey, per_letter: Seq<usize>, s: RngState) -> bool {
    let total = prefix_total(per_letter, 26);
    let perm = shuffled_range(total as nat, s).0;
    &&& key.symbol_letter@.len() == total
    &&& key.homophones@.len() == 26
    &&& forall|l: int|
        0 <= l < 26 ==> #[trigger] key.homophones@[l]@ == perm.subrange(
            prefix_total(per_letter, l),
            prefix_total(per_letter, l + 1),
        )
    &&& key_consistent(key.symbol_letter@, homophone_lists(key.homophones@))
    &&& all_letters(key.symbol_letter@)
}

/// `key` deals `num_symbols` symbols shuffled from state `s` as
/// [`dealt_key`] does, for some allocation of one to `max_per_letter`
/// homophones to each letter.
pub open spec fn dealt_within(key: HomophonicKey, num_symbols: int, max_per_letter: int, s: RngState) -> bool {
    exists|alloc: Seq<usize>|
        #![trigger dealt_key(key, alloc, s)]
        {
            &&& alloc.len() == 26
            &&& forall|l: int| 0 <= l < 26 ==> 1 <= #[trigger] alloc[l] <= max_per_letter
            &&& prefix_total(alloc, 26) == num_symbols
            &&& dealt_key(key, alloc, s)
        }
}

/// The first letter from `m` on with fewer than `max_per_letter`
/// homophones, or 26 if there is none.
pub open spec fn first_with_room(alloc: Seq<usize>, max_per_letter: int, m: int) -> int
    decreases 26 - m,
{
    if m >= 26 {
        26
    } else if alloc[m] < max_per_letter {
        m
    } else {
        first_with_room(alloc, max_per_letter, m + 1)
    }
}

/// The letter that receives an extra homophone when the chooser names `c`:
/// `c` itself if it is a letter with room left, else the first letter with
/// room.
pub open spec fn receiving_letter(alloc: Seq<usize>, max_per_letter: int, c: int) -> int {
    if 0 <= c < 26 && alloc[c] < max_per_letter {
        c
    } else {
        first_with_room(alloc, max_per_letter, 0)
    }
}

/// `alloc` with one more homophone for letter `l`.
pub open spec fn bump(alloc: Seq<usize>, l: int) -> Seq<usize> {
    alloc.update(l, (alloc[l] + 1) as usize)
}

/// Step `k` of an allocation: shown the counts `allocs[k]` and draw `k`
/// after state `s`, the chooser named a letter, and `allocs[k + 1]` gives
/// the receiving letter one more homophone.
pub open spec fn allocation_step<C: Fn(&[usize], u64) -> usize>(
    pick: C,
    allocs: Seq<Seq<usize>>,
    max_per_letter: int,
    s: RngState,
    k: int,
) -> bool {
    exists|counts: &[usize], c: usize|
        #![trigger call_ensures(pick, (counts, xoshiro_output(xoshiro_advance(s, k as nat))), c)]
        {
            &&& counts@ == allocs[k]
            &&& call_ensures(pick, (counts, xoshiro_output(xoshiro_advance(s, k as nat))), c)
            &&& allocs[k + 1] == bump(allocs[k], receiving_letter(allocs[k], max_per_letter, c as int))
        }
}

/// `allocs` is a run of the allocation from state `s`: one homophone per
/// letter first, then one step per extra symbol.
pub open spec fn allocation_run<C: Fn(&[usize], u64) -> usize>(
    pick: C,
    allocs: Seq<Seq<usize>>,
    max_per_letter: int,
    s: RngState,
) -> bool {
    &&& allocs.len() >= 1
    &&& allocs[0] == Seq::new(26, |l: int| 1usize)
    &&& forall|k: int|
        0 <= k < allocs.len() - 1 ==> #[trigger] allocation_step(pick, allocs, max_per_letter, s, k)
}

/// A key with `num_symbols` symbols and at most `max_per_letter` homophones
/// per letter exists: every letter needs one symbol.
pub open spec fn key_shape_ok(num_symbols: int, max_per_letter: int) -> bool {
    &&& max_per_letter > 0
    &&& 26 <= num_symbols <= 26 * max_per_letter
}

/// A homophonic substitution key: each plaintext letter owns one or more
/// ciphertext symbols, and each symbol decrypts to exactly one letter.
#[derive(Clone, Debug, PartialEq, Eq)]
pub struct HomophonicKey {
    /// `symbol_letter[s]` is the plaintext letter of symbol `s`.
    pub symbol_letter: Vec<u8>,
    /// `homophones[l]` lists the symbols that encrypt letter `l`.
    pub homophones: Vec<Vec<u16>>,
}

impl HomophonicKey {
    /// Builds a key from the number of homophones of each letter: the symbols
    /// `0..total` are shuffled, then dealt out in order, `per_letter[0]` to A,
    /// the next `per_letter[1]` to B, and so on.
    pub fn from_allocation(per_letter: &[usize], rng: &mut Rng) -> (key: Self)
        requires
            per_letter@.len() == ALPHABET,
            prefix_total(per_letter@, 26) <= 0x10000,
        ensures
            dealt_key(key, per_letter@, old(rng)@),
            final(rng)@ == shuffled_range(prefix_total(per_letter@, 26) as nat, old(rng)@).1,
            homophone_lists(key.homophones@).flatten() == shuffle_from(
                symbol_range(prefix_total(per_letter@, 26) as nat),
                old(rng)@,
                prefix_total(per_letter@, 26) - 1,
            ).0,
    {
        let ghost s0 = rng@;
        let mut total: usize = 0;
        let mut l: usize = 0;
        while l < ALPHABET
            invariant
                per_letter@.len() == 26,
                prefix_total(per_letter@, 26) <= 0x10000,
                l <= 26,
                total == prefix_total(per_letter@, l as int),
            decreases 26 - l,
        {
            proof {
                lemma_prefix_total_monotone(per_letter@, l as int + 1, 26);
            }
            total = total + per_letter[l];
            l = l + 1;
        }
        let mut symbols: Vec<u16> = Vec::new();
        let mut i: usize = 0;
        while i < total
            invariant
                total <= 0x10000,
                i <= total,
                symbols@ == symbol_range(i as nat),
            decreases total - i,
        {
            symbols.push(i as u16);
            proof {
                assert(symbols@ =~= symbol_range((i + 1) as nat));
            }
            i = i + 1;
        }
        rng.shuffle(symbols.as_mut_slice());
        let ghost perm = symbols@;
        proof {
            lemma_permutation_of_range(symbol_range(total as nat), s0, total - 1);
        }
        let mut symbol_letter: Vec<u8> = vec![0u8; total];
        let mut homophones: Vec<Vec<u16>> = Vec::new();
        let mut next: usize = 0;
        let mut l: usize = 0;
        while l < ALPHABET
            invariant
                per_letter@.len() == 26,
                total == prefix_total(per_letter@, 26),
                total <= 0x10000,
                perm.len() == total,
                symbols@ == perm,
                forall|j: int| 0 <= j < total ==> (#[trigger] perm[j] as int) < total,
                forall|j: int, k: int| 0 <= j < k < total ==> #[trigger] perm[j] != #[trigger] perm[k],
                l <= 26,
                next == prefix_total(per_letter@, l as int),
                symbol_letter@.len() == total,
                homophones@.len() == l,
                forall|m: int|
                    0 <= m < l ==> #[trigger] homophones@[m]@ == perm.subrange(
                        prefix_total(per_letter@, m),
                        prefix_total(per_letter@, m + 1),
                    ),
                forall|j: int|
                    0 <= j < next ==> symbol_letter@[#[trigger] perm[j] as int] as int == owner(
                        per_letter@,
                        j,
                    ),
                forall|s: int| 0 <= s < total ==> #[trigger] symbol_letter@[s] < 26,
            decreases 26 - l,
        {
            proof {
                lemma_prefix_total_monotone(per_letter@, l as int + 1, 26);
            }
            let count = per_letter[l];
            let mut list: Vec<u16> = Vec::new();
            let mut j: usize = 0;
            while j < count
                invariant
                    per_letter@.len() == 26,
                    l < 26,
                    count == per_letter@[l as int],
                    next + count <= total,
                    next == prefix_total(per_letter@, l as int),
                    perm.len() == total,
                    symbols@ == perm,
                    forall|q: int| 0 <= q < total ==> (#[trigger] perm[q] as int) < total,
                    forall|q: int, k: int|
                        0 <= q < k < total ==> #[trigger] perm[q] != #[trigger] perm[k],
                    j <= count,
                    symbol_letter@.len() == total,
                    list@ == perm.subrange(next as int, next + j),
                    forall|q: int|
                        0 <= q < next + j ==> symbol_letter@[#[trigger] perm[q] as int] as int
                            == owner(per_letter@, q),
                    forall|s: int| 0 <= s < total ==> #[trigger] symbol_letter@[s] < 26,
                decreases count - j,
            {
                let s = symbols[next + j];
                proof {
                    lemma_owner(per_letter@, l as int, next + j);
                }
                symbol_letter[s as usize] = l as u8;
                list.push(s);
                proof {
                    assert(list@ =~= perm.subrange(next as int, next + j + 1));
                    assert forall|q: int| 0 <= q < next + j + 1 implies symbol_letter@[
                        #[trigger] perm[q] as int] as int == owner(per_letter@, q) by {
                        if q < next + j {
                            assert(perm[q] != perm[next + j]);
                        }
                    }
                }
                j = j + 1;
            }
            homophones.push(list);
            next = next + count;
            l = l + 1;
        }
        let key = HomophonicKey { symbol_letter, homophones };
        proof {
            assert forall|m: int, j: int|
                0 <= m < homophone_lists(key.homophones@).len() && 0 <= j < homophone_lists(
                    key.homophones@,
                )[m].len() implies (#[trigger] homophone_lists(key.homophones@)[m][j] as int)
                < key.symbol_letter@.len() && key.symbol_letter@[homophone_lists(
                key.homophones@,
            )[m][j] as int] as int == m by {
                let q = prefix_total(per_letter@, m) + j;
                lemma_prefix_total_monotone(per_letter@, 0, m);
                lemma_prefix_total_monotone(per_letter@, m, m + 1);
                lemma_prefix_total_monotone(per_letter@, m + 1, 26);
                assert(homophone_lists(key.homophones@)[m] == key.homophones@[m]@);
                assert(key.homophones@[m]@ == perm.subrange(
                    prefix_total(per_letter@, m),
                    prefix_total(per_letter@, m + 1),
                ));
                assert(homophone_lists(key.homophones@)[m][j] == perm[q]);
                lemma_owner(per_letter@, m, q);
            }
            lemma_dealt_key_is_the_shuffle(key, per_letter@, s0);
        }
        key
    }

    /// Builds a random key with `num_symbols` symbols and at most
    /// `max_per_letter` homophones per letter. Every letter gets one symbol;
    /// each extra symbol goes to the letter that `pick(per_letter, draw)`
    /// names, from the homophone counts so far and a fresh 64-bit draw. This
    /// is where a cipher designer gives frequent letters more homophones to
    /// flatten the frequency profile. A choice that is not a letter with room
    /// left is replaced by the first letter with room. The symbols are then
    /// shuffled and dealt out as by [`HomophonicKey::from_allocation`].
    /// A key has at most 65535 symbols: the numbering `0..num_symbols` is
    /// made in 16 bits, which wraps at 65536.
    pub fn random<C: Fn(&[usize], u64) -> usize>(
        num_symbols: usize,
        max_per_letter: usize,
        pick: C,
        rng: &mut Rng,
    ) -> (r: Result<Self, String>)
        requires
            key_shape_ok(num_symbols as int, max_per_letter as int) ==> num_symbols < 0x10000,
            forall|a: &[usize], d: u64| #[trigger] pick.requires((a, d)),
        ensures
            r is Ok <==> key_shape_ok(num_symbols as int, max_per_letter as int),
            r is Err ==> final(rng)@ == old(rng)@,
            r matches Err(e) ==> e@ == "cannot build a key with "@ + decimal(num_symbols as nat)
                + " symbols and at most "@ + decimal(max_per_letter as nat)
                + " homophones per letter (need 26..="@ + decimal(26 * max_per_letter as nat) + ")"@,
            r matches Ok(key) ==> dealt_within(
                key,
                num_symbols as int,
                max_per_letter as int,
                xoshiro_advance(old(rng)@, (num_symbols - 26) as nat),
            ),
            r is Ok ==> final(rng)@ == shuffled_range(
                num_symbols as nat,
                xoshiro_advance(old(rng)@, (num_symbols - 26) as nat),
            ).1,
            r matches Ok(key) ==> exists|allocs: Seq<Seq<usize>>|
                #![trigger allocation_run(pick, allocs, max_per_letter as int, old(rng)@)]
                {
                    &&& allocs.len() == num_symbols - 25
                    &&& allocation_run(pick, allocs, max_per_letter as int, old(rng)@)
                    &&& dealt_key(
                        key,
                        allocs.last(),
                        xoshiro_advance(old(rng)@, (num_symbols - 26) as nat),
                    )
                },
    {
        let ghost s0 = rng@;
        if max_per_letter == 0 || num_symbols < ALPHABET || (num_symbols as u128) > 26u128 * (
        max_per_letter as u128) {
            let mut msg = owned_text("cannot build a key with ");
            append_decimal(&mut msg, num_symbols as u128);
            append_text(&mut msg, " symbols and at most ");
            append_decimal(&mut msg, max_per_letter as u128);
            append_text(&mut msg, " homophones per letter (need 26..=");
            append_decimal(&mut msg, 26u128 * (max_per_letter as u128));
            append_text(&mut msg, ")");
            return Err(msg);
        }
        let mut per_letter: Vec<usize> = vec![1usize; 26];
        proof {
            lemma_prefix_total_constant(per_letter@, 26, 1);
        }
        let ghost mut allocs: Seq<Seq<usize>> = seq![per_letter@];
        proof {
            assert(allocs[0] =~= Seq::new(26, |l: int| 1usize));
        }
        let mut k: usize = ALPHABET;
        while k < num_symbols
            invariant
                26 <= k <= num_symbols <= 0x10000,
                max_per_letter > 0,
                num_symbols <= 26 * max_per_letter,
                per_letter@.len() == 26,
                prefix_total(per_letter@, 26) == k,
                forall|l: int| 0 <= l < 26 ==> 1 <= #[trigger] per_letter@[l] <= max_per_letter,
                rng@ == xoshiro_advance(s0, (k - 26) as nat),
                forall|a: &[usize], d: u64| #[trigger] pick.requires((a, d)),
                allocs.len() == k - 25,
                allocs.last() == per_letter@,
                allocation_run(pick, allocs, max_per_letter as int, s0),
            decreases num_symbols - k,
        {
            let draw = rng.next_u64();
            let counts = per_letter.as_slice();
            let c = pick(counts, draw);
            let ghost next = bump(per_letter@, receiving_letter(per_letter@, max_per_letter as int, c as int));
            proof {
                assert(draw == xoshiro_output(xoshiro_advance(s0, (allocs.len() - 1) as nat)));
                assert(counts@ == allocs.last());
                assert(exists|cs: &[usize], cc: usize|
                    #![trigger call_ensures(pick, (cs, draw), cc)]
                    {
                        &&& cs@ == allocs.last()
                        &&& call_ensures(pick, (cs, draw), cc)
                        &&& next == bump(allocs.last(), receiving_letter(allocs.last(), max_per_letter as int, cc as int))
                    });
            }
            let l: usize = if c < ALPHABET && per_letter[c] < max_per_letter {
                c
            } else {
                let mut m: usize = 0;
                while m < ALPHABET && per_letter[m] >= max_per_letter
                    invariant
                        m <= 26,
                        per_letter@.len() == 26,
                        forall|q: int| 0 <= q < m ==> #[trigger] per_letter@[q] >= max_per_letter,
                    decreases 26 - m,
                {
                    m = m + 1;
                }
                proof {
                    if m == 26 {
                        lemma_prefix_total_at_least(per_letter@, 26, max_per_letter as int);
                    }
                    lemma_first_with_room(per_letter@, max_per_letter as int, m as int);
                }
                m
            };
            let ghost before = per_letter@;
            per_letter.set(l, per_letter[l] + 1);
            proof {
                lemma_prefix_total_bump(before, l as int, 26);
                assert(per_letter@ == before.update(l as int, (before[l as int] + 1) as usize));
                assert(per_letter@ == next);
                let old_allocs = allocs;
                allocs = allocs.push(next);
                assert forall|j: int| 0 <= j < allocs.len() - 1 implies #[trigger] allocation_step(
                    pick,
                    allocs,
                    max_per_letter as int,
                    s0,
                    j,
                ) by {
                    if j < old_allocs.len() - 1 {
                        assert(allocation_step(pick, old_allocs, max_per_letter as int, s0, j));
                        assert(allocs[j] == old_allocs[j]);
                        assert(allocs[j + 1] == old_allocs[j + 1]);
                    } else {
                        assert(allocs[j] == old_allocs.last());
                        assert(allocs[j + 1] == next);
                    }
                }
            }
            k = k + 1;
        }
        let ghost dealt_from = rng@;
        let key = HomophonicKey::from_allocation(per_letter.as_slice(), rng);
        proof {
            let alloc = per_letter@;
            assert(dealt_key(key, alloc, dealt_from));
            assert(dealt_from == xoshiro_advance(s0, (num_symbols - 26) as nat));
            assert(alloc.len() == 26 && prefix_total(alloc, 26) == num_symbols && forall|l: int|
                0 <= l < 26 ==> 1 <= #[trigger] alloc[l] <= max_per_letter);
            assert(dealt_within(key, num_symbols as int, max_per_letter as int, dealt_from));
            assert(allocs.last() == alloc);
        }
        Ok(key)
    }

    pub fn num_symbols(&self) -> (r: usize)
        ensures
            r == self.symbol_letter@.len(),
    {
        self.symbol_letter.len()
    }

    /// Each occurrence of a letter uses one of its homophones chosen uniformly.
    pub fn encrypt(&self, plaintext: &[u8], rng: &mut Rng) -> (r: Vec<u16>)
        requires
            forall|i: int|
                0 <= i < plaintext@.len() ==> (#[trigger] plaintext@[i] as int) < self.homophones@.len()
                    && self.homophones@[plaintext@[i] as int]@.len() > 0,
        ensures
            r@.len() == plaintext@.len(),
            forall|i: int|
                0 <= i < plaintext@.len() ==> {
                    let options = self.homophones@[plaintext@[i] as int]@;
                    #[trigger] r@[i] == options[scale_below(
                        xoshiro_output(xoshiro_advance(old(rng)@, i as nat)),
                        options.len() as usize,
                    )]
                },
            forall|i: int|
                0 <= i < plaintext@.len() ==> self.homophones@[plaintext@[i] as int]@.contains(
                    #[trigger] r@[i],
                ),
            final(rng)@ == xoshiro_advance(old(rng)@, plaintext@.len()),
    {
        let ghost s0 = rng@;
        let n = plaintext.len();
        let mut out: Vec<u16> = Vec::new();
        let mut i: usize = 0;
        while i < n
            invariant
                n == plaintext@.len(),
                i <= n,
                out@.len() == i,
                rng@ == xoshiro_advance(s0, i as nat),
                forall|j: int|
                    0 <= j < n ==> (#[trigger] plaintext@[j] as int) < self.homophones@.len()
                        && self.homophones@[plaintext@[j] as int]@.len() > 0,
                forall|j: int|
                    0 <= j < i ==> {
                        let options = self.homophones@[plaintext@[j] as int]@;
                        #[trigger] out@[j] == options[scale_below(
                            xoshiro_output(xoshiro_advance(s0, j as nat)),
                            options.len() as usize,
                        )]
                    },
                forall|j: int|
                    0 <= j < i ==> self.homophones@[plaintext@[j] as int]@.contains(
                        #[trigger] out@[j],
                    ),
            decreases n - i,
        {
            let options = &self.homophones[plaintext[i] as usize];
            let k = rng.below(options.len());
            out.push(options[k]);
            proof {
                assert(options@[k as int] == out@[i as int]);
            }
            i = i + 1;
        }
        out
    }

    pub fn decrypt(&self, ciphertext: &[u16]) -> (r: Vec<u8>)
        requires
            forall|i: int|
                0 <= i < ciphertext@.len() ==> (#[trigger] ciphertext@[i] as int)
                    < self.symbol_letter@.len(),
        ensures
            r@ == decipher(ciphertext@, self.symbol_letter@),
    {
        decrypt_with(self.symbol_letter.as_slice(), ciphertext)
    }
}

/// The letter index `q` of the dealt-out symbols belongs to.
pub open spec fn owner(counts: Seq<usize>, q: int) -> int
    decreases 26 - 0int,
{
    owner_from(counts, q, 0)
}

/// The first letter from `l` on whose block reaches past index `q`.
pub open spec fn owner_from(counts: Seq<usize>, q: int, l: int) -> int
    decreases 26 - l,
{
    if l >= 26 || q < prefix_total(counts, l + 1) {
        l
    } else {
        owner_from(counts, q, l + 1)
    }
}

/// The exec search for a letter with room finds [`first_with_room`].
proof fn lemma_first_with_room(alloc: Seq<usize>, max_per_letter: int, m: int)
    requires
        0 <= m < 26,
        alloc.len() == 26,
        alloc[m] < max_per_letter,
        forall|q: int| 0 <= q < m ==> #[trigger] alloc[q] >= max_per_letter,
    ensures
        first_with_room(alloc, max_per_letter, 0) == m,
{
    lemma_first_with_room_from(alloc, max_per_letter, m, 0);
}

proof fn lemma_first_with_room_from(alloc: Seq<usize>, max_per_letter: int, m: int, from: int)
    requires
        0 <= from <= m < 26,
        alloc.len() == 26,
        alloc[m] < max_per_letter,
        forall|q: int| 0 <= q < m ==> #[trigger] alloc[q] >= max_per_letter,
    ensures
        first_with_room(alloc, max_per_letter, from) == m,
    decreases m - from,
{
    if from < m {
        lemma_first_with_room_from(alloc, max_per_letter, m, from + 1);
    }
}

/// A Fisher-Yates pass keeps the length.
proof fn lemma_shuffle_len<T>(items: Seq<T>, s: RngState, hi: int)
    requires
        hi < items.len(),
        items.len() <= 0x10000,
    ensures
        shuffle_from(items, s, hi).0.len() == items.len(),
    decreases hi,
{
    if hi > 0 {
        let j = scale_below(xoshiro_output(s), (hi + 1) as usize);
        assert((xoshiro_output(s) as int) * ((hi + 1) as usize as int) < 0x1_0000_0000_0000_0000int
            * (hi + 1)) by (nonlinear_arith)
            requires
                (xoshiro_output(s) as int) < 0x1_0000_0000_0000_0000int,
                hi >= 1,
                (hi + 1) as usize as int == hi + 1,
        {}
        assert(0 <= j < hi + 1) by {
            assert(0 <= (xoshiro_output(s) as int) * (hi + 1)) by (nonlinear_arith)
                requires
                    hi >= 1,
            {}
        }
        let swapped = items.update(hi, items[j]).update(j, items[hi]);
        lemma_shuffle_len(swapped, crate::rng::xoshiro_step(s), hi - 1);
    }
}

/// The first `l` homophone lists of a deal, joined, are the first
/// `prefix_total(counts, l)` dealt symbols.
proof fn lemma_deal_joins(lists: Seq<Seq<u16>>, perm: Seq<u16>, counts: Seq<usize>, l: int)
    requires
        0 <= l <= 26,
        lists.len() == 26,
        perm.len() == prefix_total(counts, 26),
        forall|m: int|
            0 <= m < 26 ==> #[trigger] lists[m] == perm.subrange(
                prefix_total(counts, m),
                prefix_total(counts, m + 1),
            ),
    ensures
        lists.subrange(0, l).flatten_alt() == perm.subrange(0, prefix_total(counts, l)),
    decreases l,
{
    if l > 0 {
        lemma_deal_joins(lists, perm, counts, l - 1);
        lemma_prefix_total_monotone(counts, 0, l - 1);
        lemma_prefix_total_monotone(counts, l - 1, l);
        lemma_prefix_total_monotone(counts, l, 26);
        assert(lists.subrange(0, l).drop_last() =~= lists.subrange(0, l - 1));
        assert(perm.subrange(0, prefix_total(counts, l)) =~= perm.subrange(
            0,
            prefix_total(counts, l - 1),
        ) + perm.subrange(prefix_total(counts, l - 1), prefix_total(counts, l)));
    } else {
        assert(perm.subrange(0, 0) =~= Seq::<u16>::empty());
    }
}

/// The homophone lists of a dealt key, read in letter order, are exactly the
/// Fisher-Yates shuffle of the symbols `0..total` drawn from state `s`.
pub proof fn lemma_dealt_key_is_the_shuffle(key: HomophonicKey, per_letter: Seq<usize>, s: RngState)
    requires
        dealt_key(key, per_letter, s),
        prefix_total(per_letter, 26) <= 0x10000,
    ensures
        homophone_lists(key.homophones@).flatten() == shuffle_from(
            symbol_range(prefix_total(per_letter, 26) as nat),
            s,
            prefix_total(per_letter, 26) - 1,
        ).0,
{
    let total = prefix_total(per_letter, 26);
    lemma_prefix_total_monotone(per_letter, 0, 26);
    let perm = shuffle_from(symbol_range(total as nat), s, total - 1).0;
    lemma_shuffle_len(symbol_range(total as nat), s, total - 1);
    let lists = homophone_lists(key.homophones@);
    assert forall|m: int| 0 <= m < 26 implies #[trigger] lists[m] == perm.subrange(
        prefix_total(per_letter, m),
        prefix_total(per_letter, m + 1),
    ) by {
        assert(lists[m] == key.homophones@[m]@);
    }
    lemma_deal_joins(lists, perm, per_letter, 26);
    assert(lists.subrange(0, 26) =~= lists);
    lists.lemma_flatten_and_flatten_alt_are_equivalent();
    assert(perm.subrange(0, total) =~= perm);
}

/// A sum of `k` terms that are all `v` is `k * v`.
proof fn lemma_prefix_total_constant(counts: Seq<usize>, k: int, v: int)
    requires
        0 <= k <= counts.len(),
        forall|q: int| 0 <= q < k ==> #[trigger] counts[q] == v,
    ensures
        prefix_total(counts, k) == k * v,
    decreases k,
{
    if k > 0 {
        lemma_prefix_total_constant(counts, k - 1, v);
        assert(counts[k - 1] == v);
        assert(prefix_total(counts, k) == prefix_total(counts, k - 1) + counts[k - 1]);
        assert((k - 1) * v + v == k * v) by (nonlinear_arith);
        assert(prefix_total(counts, k) == k * v);
    } else {
        assert(0 * v == 0);
    }
}

/// A sum of `k` terms that are all at least `v` is at least `k * v`.
proof fn lemma_prefix_total_at_least(counts: Seq<usize>, k: int, v: int)
    requires
        0 <= k <= counts.len(),
        forall|q: int| 0 <= q < k ==> #[trigger] counts[q] >= v,
    ensures
        prefix_total(counts, k) >= k * v,
    decreases k,
{
    if k > 0 {
        lemma_prefix_total_at_least(counts, k - 1, v);
        assert(counts[k - 1] >= v);
        assert(prefix_total(counts, k) == prefix_total(counts, k - 1) + counts[k - 1]);
        assert((k - 1) * v + v == k * v) by (nonlinear_arith);
    } else {
        assert(0 * v == 0);
    }
}

/// Adding one to term `i` adds one to every sum that includes it.
proof fn lemma_prefix_total_bump(counts: Seq<usize>, i: int, k: int)
    requires
        0 <= i < k <= counts.len(),
        counts[i] < usize::MAX,
    ensures
        prefix_total(counts.update(i, (counts[i] + 1) as usize), k) == prefix_total(counts, k) + 1,
    decreases k,
{
    let bumped = counts.update(i, (counts[i] + 1) as usize);
    if k - 1 > i {
        lemma_prefix_total_bump(counts, i, k - 1);
    } else {
        lemma_prefix_total_same(counts, bumped, i);
    }
}

/// Sums over a prefix on which two sequences agree are equal.
proof fn lemma_prefix_total_same(a: Seq<usize>, b: Seq<usize>, k: int)
    requires
        0 <= k <= a.len(),
        k <= b.len(),
        forall|q: int| 0 <= q < k ==> #[trigger] a[q] == b[q],
    ensures
        prefix_total(a, k) == prefix_total(b, k),
    decreases k,
{
    if k > 0 {
        lemma_prefix_total_same(a, b, k - 1);
    }
}

proof fn lemma_prefix_total_monotone(counts: Seq<usize>, a: int, b: int)
    requires
        0 <= a <= b,
    ensures
        prefix_total(counts, a) <= prefix_total(counts, b),
    decreases b - a,
{
    if b > a {
        lemma_prefix_total_monotone(counts, a, b - 1);
    }
}

/// Index `q` of letter `l`'s block belongs to `l`.
proof fn lemma_owner(counts: Seq<usize>, l: int, q: int)
    requires
        0 <= l < 26,
        prefix_total(counts, l) <= q < prefix_total(counts, l + 1),
    ensures
        owner(counts, q) == l,
{
    lemma_owner_from(counts, l, q, 0);
}

proof fn lemma_owner_from(counts: Seq<usize>, l: int, q: int, m: int)
    requires
        0 <= m <= l < 26,
        prefix_total(counts, l) <= q < prefix_total(counts, l + 1),
    ensures
        owner_from(counts, q, m) == l,
    decreases l - m,
{
    if m < l {
        lemma_prefix_total_monotone(counts, m + 1, l);
        lemma_owner_from(counts, l, q, m + 1);
    }
}

/// A shuffle of `0..n` holds each symbol below `n` exactly once.
proof fn lemma_permutation_of_range(items: Seq<u16>, s: RngState, hi: int)
    requires
        -1 <= hi < items.len(),
        items.len() <= 0x10000,
        forall|j: int| 0 <= j < items.len() ==> (#[trigger] items[j] as int) < items.len(),
        forall|j: int, k: int| 0 <= j < k < items.len() ==> #[trigger] items[j] != #[trigger] items[k],
    ensures
        ({
            let out = shuffle_from(items, s, hi).0;
            &&& out.len() == items.len()
            &&& forall|j: int| 0 <= j < out.len() ==> (#[trigger] out[j] as int) < items.len()
            &&& forall|j: int, k: int| 0 <= j < k < out.len() ==> #[trigger] out[j] != #[trigger] out[k]
        }),
    decreases hi,
{
    if hi > 0 {
        let j = scale_below(xoshiro_output(s), (hi + 1) as usize);
        let swapped = items.update(hi, items[j]).update(j, items[hi]);
        assert((xoshiro_output(s) as int) * ((hi + 1) as usize as int) < 0x1_0000_0000_0000_0000int
            * (hi + 1)) by (nonlinear_arith)
            requires
                (xoshiro_output(s) as int) < 0x1_0000_0000_0000_0000int,
                hi >= 1,
                (hi + 1) as usize as int == hi + 1,
        {}
        assert(0 <= j < hi + 1) by {
            assert(0 <= (xoshiro_output(s) as int) * (hi + 1)) by (nonlinear_arith)
                requires
                    hi >= 1,
            {}
        }
        assert forall|a: int, b: int| 0 <= a < b < swapped.len() implies #[trigger] swapped[a]
            != #[trigger] swapped[b] by {
            let pa = if a == j {
                hi
            } else if a == hi {
                j
            } else {
                a
            };
            let pb = if b == j {
                hi
            } else if b == hi {
                j
            } else {
                b
            };
            assert(swapped[a] == items[pa]);
            assert(swapped[b] == items[pb]);
            if pa < pb {
                assert(items[pa] != items[pb]);
            } else {
                assert(items[pb] != items[pa]);
            }
        }
        assert forall|a: int| 0 <= a < swapped.len() implies (#[trigger] swapped[a] as int)
            < items.len() by {
            if a == j {
            } else if a == hi {
            } else {
            }
        }
        lemma_permutation_of_range(swapped, crate::rng::xoshiro_step(s), hi - 1);
    }
}

pub fn decrypt_with(symbol_letter: &[u8], ciphertext: &[u16]) -> (r: Vec<u8>)
    requires
        forall|i: int|
            0 <= i < ciphertext@.len() ==> (#[trigger] ciphertext@[i] as int) < symbol_letter@.len(),
    ensures
        r@ == decipher(ciphertext@, symbol_letter@),
{
    let n = ciphertext.len();
    let mut out: Vec<u8> = Vec::new();
    let mut i: usize = 0;
    while i < n
        invariant
            n == ciphertext@.len(),
            i <= n,
            forall|j: int|
                0 <= j < n ==> (#[trigger] ciphertext@[j] as int) < symbol_letter@.len(),
            out@ =~= decipher(ciphertext@.subrange(0, i as int), symbol_letter@),
        decreases n - i,
    {
        out.push(symbol_letter[ciphertext[i] as usize]);
        i = i + 1;
    }
    proof {
        assert(ciphertext@.subrange(0, n as int) =~= ciphertext@);
    }
    out
}

/// Decrypting what a consistent key encrypted gives back the plaintext.
pub proof fn lemma_encrypt_decrypt_round_trip(
    symbol_letter: Seq<u8>,
    homophones: Seq<Seq<u16>>,
    plaintext: Seq<u8>,
    ciphertext: Seq<u16>,
)
    requires
        key_consistent(symbol_letter, homophones),
        ciphertext.len() == plaintext.len(),
        forall|i: int|
            0 <= i < plaintext.len() ==> (#[trigger] plaintext[i] as int) < homophones.len()
                && homophones[plaintext[i] as int].contains(ciphertext[i]),
    ensures
        forall|i: int| 0 <= i < ciphertext.len() ==> (#[trigger] ciphertext[i] as int) < symbol_letter.len(),
        decipher(ciphertext, symbol_letter) == plaintext,
{
    assert forall|i: int| 0 <= i < ciphertext.len() implies (#[trigger] ciphertext[i] as int)
        < symbol_letter.len() && symbol_letter[ciphertext[i] as int] == plaintext[i] by {
        let l = plaintext[i] as int;
        let j = choose|j: int| 0 <= j < homophones[l].len() && homophones[l][j] == ciphertext[i];
        assert(homophones[l][j] == ciphertext[i]);
    }
    assert(decipher(ciphertext, symbol_letter) =~= plaintext);
}

/// `c` is white space in Unicode's sense (`char::is_whitespace`).
pub open spec fn is_white(c: char) -> bool {
    let x = c as u32;
    ||| x == 0x20
    ||| 0x09 <= x <= 0x0D
    ||| x == 0x85
    ||| x == 0xA0
    ||| x == 0x1680
    ||| 0x2000 <= x <= 0x200A
    ||| x == 0x2028
    ||| x == 0x2029
    ||| x == 0x202F
    ||| x == 0x205F
    ||| x == 0x3000
}

pub fn is_white_char(c: char) -> (r: bool)
    ensures
        r == is_white(c),
{
    let x = c as u32;
    x == 0x20 || (0x09 <= x && x <= 0x0D) || x == 0x85 || x == 0xA0 || x == 0x1680 || (0x2000 <= x
        && x <= 0x200A) || x == 0x2028 || x == 0x2029 || x == 0x202F || x == 0x205F || x == 0x3000
}

/// Tokens finished so far and the token being read, after the characters of `s`.
pub open spec fn split_state(s: Seq<char>) -> (Seq<Seq<char>>, Seq<char>)
    decreases s.len(),
{
    if s.len() == 0 {
        (Seq::empty(), Seq::empty())
    } else {
        let (done, cur) = split_state(s.drop_last());
        let c = s.last();
        if is_white(c) {
            if cur.len() > 0 {
                (done.push(cur), Seq::empty())
            } else {
                (done, Seq::empty())
            }
        } else {
            (done, cur.push(c))
        }
    }
}

/// `s` with a carriage return put before every line feed: the same text
/// with Windows line ends.
pub open spec fn crlf(s: Seq<char>) -> Seq<char>
    decreases s.len(),
{
    if s.len() == 0 {
        Seq::empty()
    } else if s.last() == '\n' {
        crlf(s.drop_last()).push('\r').push('\n')
    } else {
        crlf(s.drop_last()).push(s.last())
    }
}

proof fn lemma_split_push(a: Seq<char>, x: char)
    ensures
        split_state(a.push(x)) == {
            let (done, cur) = split_state(a);
            if is_white(x) {
                if cur.len() > 0 {
                    (done.push(cur), Seq::<char>::empty())
                } else {
                    (done, Seq::<char>::empty())
                }
            } else {
                (done, cur.push(x))
            }
        },
{
    assert(a.push(x).drop_last() =~= a);
}

proof fn lemma_char_tokens_push(a: Seq<char>, x: char)
    ensures
        char_tokens(a.push(x)) == if is_white(x) {
            char_tokens(a)
        } else {
            char_tokens(a).push(seq![x])
        },
{
    assert(a.push(x).drop_last() =~= a);
}

/// Line ends do not matter: a text and the same text with Windows line ends
/// split into the same white-space-separated tokens, and into the same
/// one-character tokens.
pub proof fn lemma_line_ends_do_not_matter(s: Seq<char>)
    ensures
        split_state(crlf(s)) == split_state(s),
        whitespace_tokens(crlf(s)) == whitespace_tokens(s),
        char_tokens(crlf(s)) == char_tokens(s),
    decreases s.len(),
{
    if s.len() > 0 {
        let d = s.drop_last();
        let x = s.last();
        lemma_line_ends_do_not_matter(d);
        assert(s =~= d.push(x));
        lemma_split_push(d, x);
        lemma_char_tokens_push(d, x);
        if x == '\n' {
            let c = crlf(d);
            lemma_split_push(c, '\r');
            lemma_split_push(c.push('\r'), '\n');
            lemma_char_tokens_push(c, '\r');
            lemma_char_tokens_push(c.push('\r'), '\n');
        } else {
            lemma_split_push(crlf(d), x);
            lemma_char_tokens_push(crlf(d), x);
        }
    }
}

/// Trailing white space changes no tokens, for every character Unicode
/// calls white space (the ones `char::is_whitespace` accepts): tab, line
/// feed, vertical tab, form feed, carriage return, space, next line,
/// no-break space, Ogham space mark, the spaces U+2000 to U+200A, line and
/// paragraph separators, narrow no-break space, medium mathematical space
/// and ideographic space.
pub proof fn lemma_trailing_white_space_is_ignored(s: Seq<char>, w: char)
    requires
        w == '\t' || w == '\n' || w == '\u{0B}' || w == '\u{0C}' || w == '\r' || w == ' ' || w
            == '\u{85}' || w == '\u{A0}' || w == '\u{1680}' || ('\u{2000}' <= w <= '\u{200A}') || w
            == '\u{2028}' || w == '\u{2029}' || w == '\u{202F}' || w == '\u{205F}' || w == '\u{3000}',
    ensures
        whitespace_tokens(s.push(w)) == whitespace_tokens(s),
        char_tokens(s.push(w)) == char_tokens(s),
{
    lemma_split_push(s, w);
    lemma_char_tokens_push(s, w);
}

/// The maximal runs of non-white-space characters of `s`.
pub open spec fn whitespace_tokens(s: Seq<char>) -> Seq<Seq<char>> {
    let (done, cur) = split_state(s);
    if cur.len() > 0 {
        done.push(cur)
    } else {
        done
    }
}

/// Each non-white-space character of `s` as a token of its own.
pub open spec fn char_tokens(s: Seq<char>) -> Seq<Seq<char>>
    decreases s.len(),
{
    if s.len() == 0 {
        Seq::empty()
    } else if is_white(s.last()) {
        char_tokens(s.drop_last())
    } else {
        char_tokens(s.drop_last()).push(seq![s.last()])
    }
}

/// Index of the first occurrence of `t` in `names`, or -1.
pub open spec fn first_index(names: Seq<Seq<char>>, t: Seq<char>) -> int
    decreases names.len(),
{
    if names.len() == 0 {
        -1
    } else {
        let i = first_index(names.drop_last(), t);
        if i >= 0 {
            i
        } else if names.last() == t {
            names.len() - 1
        } else {
            -1
        }
    }
}

/// Symbols numbered densely from 0 in order of first appearance, and the
/// distinct tokens in that order.
pub open spec fn renumbered(tokens: Seq<Seq<char>>) -> (Seq<int>, Seq<Seq<char>>)
    decreases tokens.len(),
{
    if tokens.len() == 0 {
        (Seq::empty(), Seq::empty())
    } else {
        let (syms, names) = renumbered(tokens.drop_last());
        let t = tokens.last();
        let i = first_index(names, t);
        if i >= 0 {
            (syms.push(i), names)
        } else {
            (syms.push(names.len() as int), names.push(t))
        }
    }
}

/// The character sequences of some strings.
pub open spec fn string_views(v: Seq<String>) -> Seq<Seq<char>> {
    Seq::new(v.len(), |i: int| v[i]@)
}

/// FNV-1a offset basis and prime, for bucketing symbol names.
pub const NAME_HASH_BASIS: u64 = 0xcbf2_9ce4_8422_2325;

pub const NAME_HASH_PRIME: u64 = 0x0100_0000_01b3;

/// FNV-1a over the code points of a symbol name. Equal names hash alike,
/// which is all the renumbering relies on.
pub open spec fn name_hash(s: Seq<char>) -> u64
    decreases s.len(),
{
    if s.len() == 0 {
        NAME_HASH_BASIS
    } else {
        (name_hash(s.drop_last()) ^ (s.last() as u32 as u64)).wrapping_mul(NAME_HASH_PRIME)
    }
}

/// One step of [`name_hash`].
fn name_hash_step(h: u64, c: char) -> (r: u64)
    ensures
        r == (h ^ (c as u32 as u64)).wrapping_mul(NAME_HASH_PRIME),
{
    (h ^ (c as u32 as u64)).wrapping_mul(NAME_HASH_PRIME)
}

/// Largest number of distinct symbols a ciphertext may have.
pub const MAX_SYMBOLS: usize = 0x10000;

/// A ciphertext with its symbols renumbered densely from 0, in order of first
/// appearance, plus the original spelling of each symbol.
#[derive(Clone, Debug, PartialEq, Eq)]
pub struct Ciphertext {
    pub symbols: Vec<u16>,
    pub names: Vec<String>,
}

/// `ct` is the renumbering of `tokens`.
pub open spec fn renumbers(ct: Ciphertext, tokens: Seq<Seq<char>>) -> bool {
    let (syms, names) = renumbered(tokens);
    &&& ct.symbols@.len() == syms.len()
    &&& forall|i: int| 0 <= i < syms.len() ==> #[trigger] ct.symbols@[i] as int == syms[i]
    &&& string_views(ct.names@) == names
}

impl Ciphertext {
    pub fn num_symbols(&self) -> (r: usize)
        ensures
            r == self.names@.len(),
    {
        self.names.len()
    }

    /// Whitespace-separated tokens, e.g. `12 7 33 7`. Any token is a symbol.
    pub fn parse_tokens(text: &str) -> (r: Result<Self, String>)
        ensures
            (r is Ok) <==> renumbered(whitespace_tokens(text@)).1.len() <= MAX_SYMBOLS,
            r matches Ok(ct) ==> renumbers(ct, whitespace_tokens(text@)),
            r matches Err(e) ==> e@ == "ciphertext has more than 65536 distinct symbols"@,
    {
        broadcast use vstd::string::group_string_axioms;

        let ghost all = text@;
        let mut tokens: Vec<String> = Vec::new();
        let mut hashes: Vec<u64> = Vec::new();
        let mut cur = String::new();
        let mut cur_hash: u64 = NAME_HASH_BASIS;
        let mut it = text.chars();
        let ghost mut k: int = 0;
        loop
            invariant
                0 <= k <= all.len(),
                vstd::std_specs::iter::IteratorSpec::remaining(&it) == all.subrange(k, all.len() as int),
                string_views(tokens@) == split_state(all.subrange(0, k)).0,
                cur@ == split_state(all.subrange(0, k)).1,
                cur_hash == name_hash(cur@),
                hashes@.len() == tokens@.len(),
                forall|i: int| 0 <= i < tokens@.len() ==> #[trigger] hashes@[i] == name_hash(tokens@[i]@),
            ensures
                k == all.len(),
                string_views(tokens@) == split_state(all).0,
                cur@ == split_state(all).1,
                cur_hash == name_hash(cur@),
                hashes@.len() == tokens@.len(),
                forall|i: int| 0 <= i < tokens@.len() ==> #[trigger] hashes@[i] == name_hash(tokens@[i]@),
            decreases all.len() - k,
        {
            let next = it.next();
            match next {
                Some(c) => {
                    proof {
                        assert(all.subrange(0, k + 1).drop_last() =~= all.subrange(0, k));
                        assert(c == all[k]);
                        assert(all.subrange(k + 1, all.len() as int) =~= all.subrange(
                            k,
                            all.len() as int,
                        ).drop_first());
                    }
                    if is_white_char(c) {
                        if !cur.as_str().is_empty() {
                            let ghost before = tokens@;
                            tokens.push(cur);
                            hashes.push(cur_hash);
                            cur = String::new();
                            proof {
                                assert(string_views(tokens@) =~= string_views(before).push(
                                    split_state(all.subrange(0, k)).1,
                                ));
                            }
                        } else {
                            cur = String::new();
                        }
                        cur_hash = NAME_HASH_BASIS;
                    } else {
                        let ghost before = cur@;
                        append_char(&mut cur, c);
                        cur_hash = name_hash_step(cur_hash, c);
                        proof {
                            assert(cur@.drop_last() =~= before);
                        }
                    }
                    proof {
                        k = k + 1;
                    }
                },
                None => {
                    proof {
                        assert(all.subrange(0, k) =~= all);
                    }
                    break ;
                },
            }
        }
        if !cur.as_str().is_empty() {
            let ghost before = tokens@;
            tokens.push(cur);
            hashes.push(cur_hash);
            proof {
                assert(string_views(tokens@) =~= string_views(before).push(split_state(all).1));
            }
        }
        proof {
            assert(string_views(tokens@) == whitespace_tokens(all));
        }
        Self::from_tokens(tokens, hashes)
    }

    /// One symbol per non-whitespace character, e.g. `K+p9K`.
    pub fn parse_chars(text: &str) -> (r: Result<Self, String>)
        ensures
            (r is Ok) <==> renumbered(char_tokens(text@)).1.len() <= MAX_SYMBOLS,
            r matches Ok(ct) ==> renumbers(ct, char_tokens(text@)),
            r matches Err(e) ==> e@ == "ciphertext has more than 65536 distinct symbols"@,
    {
        broadcast use vstd::string::group_string_axioms;

        let ghost all = text@;
        let mut tokens: Vec<String> = Vec::new();
        let mut hashes: Vec<u64> = Vec::new();
        let mut it = text.chars();
        let ghost mut k: int = 0;
        loop
            invariant
                0 <= k <= all.len(),
                vstd::std_specs::iter::IteratorSpec::remaining(&it) == all.subrange(k, all.len() as int),
                string_views(tokens@) == char_tokens(all.subrange(0, k)),
                hashes@.len() == tokens@.len(),
                forall|i: int| 0 <= i < tokens@.len() ==> #[trigger] hashes@[i] == name_hash(tokens@[i]@),
            ensures
                string_views(tokens@) == char_tokens(all),
                hashes@.len() == tokens@.len(),
                forall|i: int| 0 <= i < tokens@.len() ==> #[trigger] hashes@[i] == name_hash(tokens@[i]@),
            decreases all.len() - k,
        {
            let next = it.next();
            match next {
                Some(c) => {
                    proof {
                        assert(all.subrange(0, k + 1).drop_last() =~= all.subrange(0, k));
                        assert(c == all[k]);
                        assert(all.subrange(k + 1, all.len() as int) =~= all.subrange(
                            k,
                            all.len() as int,
                        ).drop_first());
                    }
                    if !is_white_char(c) {
                        let mut one = String::new();
                        append_char(&mut one, c);
                        let hc = name_hash_step(NAME_HASH_BASIS, c);
                        proof {
                            assert(one@ =~= seq![c]);
                            assert(name_hash(one@) == hc) by {
                                assert(one@.drop_last() =~= Seq::<char>::empty());
                                assert(name_hash(Seq::<char>::empty()) == NAME_HASH_BASIS);
                                assert(one@.last() == c);
                                assert(name_hash(one@) == (name_hash(one@.drop_last()) ^ (
                                one@.last() as u32 as u64)).wrapping_mul(NAME_HASH_PRIME));
                            }
                        }
                        let ghost before = tokens@;
                        let ghost before_hashes = hashes@;
                        tokens.push(one);
                        hashes.push(hc);
                        proof {
                            assert(string_views(tokens@) =~= string_views(before).push(seq![c]));
                            assert forall|i: int| 0 <= i < tokens@.len() implies #[trigger] hashes@[i]
                                == name_hash(tokens@[i]@) by {
                                if i < before.len() {
                                    assert(hashes@[i] == before_hashes[i]);
                                    assert(tokens@[i] == before[i]);
                                }
                            }
                        }
                    }
                    proof {
                        k = k + 1;
                    }
                },
                None => {
                    proof {
                        assert(all.subrange(0, k) =~= all);
                    }
                    break ;
                },
            }
        }
        Self::from_tokens(tokens, hashes)
    }

    /// Renumbers `tokens` densely from 0 in order of first appearance.
    /// `hashes[i]` is the name hash of `tokens[i]`; a token is compared only
    /// with the names that share its hash.
    fn from_tokens(tokens: Vec<String>, hashes: Vec<u64>) -> (r: Result<Self, String>)
        requires
            hashes@.len() == tokens@.len(),
            forall|i: int| 0 <= i < tokens@.len() ==> #[trigger] hashes@[i] == name_hash(tokens@[i]@),
        ensures
            (r is Ok) <==> renumbered(string_views(tokens@)).1.len() <= MAX_SYMBOLS,
            r matches Ok(ct) ==> renumbers(ct, string_views(tokens@)),
            r matches Err(e) ==> e@ == "ciphertext has more than 65536 distinct symbols"@,
    {
        broadcast use vstd::std_specs::hash::group_hash_axioms;

        let ghost toks = string_views(tokens@);
        let n = tokens.len();
        let mut names: Vec<String> = Vec::new();
        let mut symbols: Vec<u16> = Vec::new();
        // Indices into `names`, grouped by name hash.
        let mut buckets: HashMap<u64, Vec<u16>> = HashMap::new();
        let mut i: usize = 0;
        while i < n
            invariant
                n == tokens@.len() == hashes@.len(),
                forall|q: int| 0 <= q < n ==> #[trigger] hashes@[q] == name_hash(tokens@[q]@),
                toks == string_views(tokens@),
                i <= n,
                names@.len() <= MAX_SYMBOLS,
                string_views(names@) == renumbered(toks.subrange(0, i as int)).1,
                symbols@.len() == i,
                forall|j: int|
                    0 <= j < i ==> #[trigger] symbols@[j] as int == renumbered(
                        toks.subrange(0, i as int),
                    ).0[j],
                forall|a: int, b: int|
                    0 <= a < b < names@.len() ==> (#[trigger] names@[a])@ != (#[trigger] names@[b])@,
                forall|hh: u64, q: int|
                    buckets@.contains_key(hh) && 0 <= q < buckets@[hh]@.len() ==> (
                    #[trigger] buckets@[hh]@[q] as int) < names@.len() && name_hash(
                        names@[buckets@[hh]@[q] as int]@,
                    ) == hh,
                forall|j: int|
                    0 <= j < names@.len() ==> buckets@.contains_key(name_hash(#[trigger] names@[j]@))
                        && buckets@[name_hash(names@[j]@)]@.contains(j as u16),
            decreases n - i,
        {
            let ghost pre = toks.subrange(0, i as int);
            proof {
                assert(toks.subrange(0, i + 1).drop_last() =~= pre);
                assert(toks.subrange(0, i + 1).last() == toks[i as int]);
                lemma_renumbered_len(pre);
            }
            let t = &tokens[i];
            let h = hashes[i];
            let m = names.len();
            let mut found = false;
            let mut id: u16 = 0;
            match buckets.get(&h) {
                Some(bucket) => {
                    let bl = bucket.len();
                    let mut q: usize = 0;
                    while q < bl && !found
                        invariant
                            m == names@.len(),
                            bl == bucket@.len(),
                            buckets@.contains_key(h),
                            bucket@ == buckets@[h]@,
                            forall|hh: u64, x: int|
                                buckets@.contains_key(hh) && 0 <= x < buckets@[hh]@.len() ==> (
                                #[trigger] buckets@[hh]@[x] as int) < names@.len(),
                            q <= bl,
                            found ==> (id as int) < m && names@[id as int]@ == t@,
                            !found ==> forall|x: int| 0 <= x < q ==> names@[#[trigger] bucket@[x] as int]@ != t@,
                        decreases bl - q, if found { 0int } else { 1int },
                    {
                        let candidate = bucket[q];
                        if names[candidate as usize] == *t {
                            found = true;
                            id = candidate;
                        } else {
                            q = q + 1;
                        }
                    }
                },
                None => {},
            }
            proof {
                if !found {
                    assert forall|j: int| 0 <= j < m implies (#[trigger] names@[j])@ != t@ by {
                        if names@[j]@ == t@ {
                            assert(name_hash(names@[j]@) == h);
                            let b = buckets@[h]@;
                            assert(b.contains(j as u16));
                            let x = choose|x: int| 0 <= x < b.len() && b[x] == j as u16;
                            assert(names@[b[x] as int]@ != t@);
                        }
                    }
                    lemma_first_index(string_views(names@), t@, -1);
                } else {
                    assert forall|x: int| 0 <= x < id implies (#[trigger] names@[x])@ != t@ by {
                        assert(names@[x]@ != names@[id as int]@);
                    }
                    lemma_first_index(string_views(names@), t@, id as int);
                }
            }
            if found {
                symbols.push(id);
            } else {
                if m == MAX_SYMBOLS {
                    proof {
                        lemma_renumbered_grows(toks, i as int + 1, n as int);
                        assert(renumbered(toks.subrange(0, i + 1)).1 == string_views(names@).push(
                            t@,
                        ));
                        assert(toks.subrange(0, n as int) =~= toks);
                    }
                    return Err(owned_text("ciphertext has more than 65536 distinct symbols"));
                }
                let ghost before = names@;
                let ghost old_buckets = buckets@;
                names.push(t.clone());
                symbols.push(m as u16);
                let mut bucket = match buckets.remove(&h) {
                    Some(b) => b,
                    None => Vec::new(),
                };
                bucket.push(m as u16);
                buckets.insert(h, bucket);
                proof {
                    assert(string_views(names@) =~= string_views(before).push(t@));
                    assert(names@[m as int]@ == t@);
                    assert forall|j: int|
                        0 <= j < names@.len() implies buckets@.contains_key(
                        name_hash(#[trigger] names@[j]@),
                    ) && buckets@[name_hash(names@[j]@)]@.contains(j as u16) by {
                        if j == m {
                            assert(buckets@[h]@.last() == m as u16);
                        } else {
                            assert(names@[j] == before[j]);
                            if name_hash(names@[j]@) == h {
                                let b = old_buckets[h]@;
                                let x = choose|x: int| 0 <= x < b.len() && b[x] == j as u16;
                                assert(buckets@[h]@[x] == j as u16);
                            }
                        }
                    }
                }
            }
            i = i + 1;
        }
        proof {
            assert(toks.subrange(0, n as int) =~= toks);
            lemma_renumbered_len(toks);
        }
        Ok(Ciphertext { symbols, names })
    }
}

/// The exec search's answer is the first index.
proof fn lemma_first_index(names: Seq<Seq<char>>, t: Seq<char>, j: int)
    requires
        -1 <= j < names.len(),
        j >= 0 ==> names[j] == t,
        forall|q: int| 0 <= q < names.len() && (j < 0 || q < j) ==> names[q] != t,
    ensures
        first_index(names, t) == j,
    decreases names.len(),
{
    if names.len() > 0 {
        let d = names.drop_last();
        if j == names.len() - 1 {
            lemma_first_index(d, t, -1);
        } else {
            lemma_first_index(d, t, j);
        }
    }
}

proof fn lemma_renumbered_len(tokens: Seq<Seq<char>>)
    ensures
        renumbered(tokens).0.len() == tokens.len(),
        forall|j: int|
            0 <= j < tokens.len() ==> 0 <= #[trigger] renumbered(tokens).0[j] < renumbered(
                tokens,
            ).1.len(),
    decreases tokens.len(),
{
    if tokens.len() > 0 {
        lemma_renumbered_len(tokens.drop_last());
        let (syms, names) = renumbered(tokens.drop_last());
        let i = first_index(names, tokens.last());
        lemma_first_index_range(names, tokens.last());
    }
}

proof fn lemma_first_index_range(names: Seq<Seq<char>>, t: Seq<char>)
    ensures
        -1 <= first_index(names, t) < names.len(),
        first_index(names, t) >= 0 ==> names[first_index(names, t)] == t,
    decreases names.len(),
{
    if names.len() > 0 {
        lemma_first_index_range(names.drop_last(), t);
    }
}

/// The distinct tokens of a prefix never outnumber those of a longer prefix.
proof fn lemma_renumbered_grows(tokens: Seq<Seq<char>>, a: int, b: int)
    requires
        0 <= a <= b <= tokens.len(),
    ensures
        renumbered(tokens.subrange(0, a)).1.len() <= renumbered(tokens.subrange(0, b)).1.len(),
    decreases b - a,
{
    if a < b {
        lemma_renumbered_grows(tokens, a, b - 1);
        assert(tokens.subrange(0, b).drop_last() =~= tokens.subrange(0, b - 1));
    }
}

/// Positions where `guess` matches `truth`.
pub open spec fn matches_count(truth: Seq<u8>, guess: Seq<u8>, k: nat) -> nat
    decreases k,
{
    if k == 0 {
        0
    } else {
        matches_count(truth, guess, (k - 1) as nat) + if truth[k - 1] == guess[k - 1] {
            1nat
        } else {
            0nat
        }
    }
}

/// A guess equal to the truth matches at every position.
pub proof fn lemma_identical_texts_match_everywhere(t: Seq<u8>)
    ensures
        matches_count(t, t, t.len()) == t.len(),
{
    lemma_identical_prefix(t, t.len());
}

proof fn lemma_identical_prefix(t: Seq<u8>, k: nat)
    requires
        k <= t.len(),
    ensures
        matches_count(t, t, k) == k,
    decreases k,
{
    if k > 0 {
        lemma_identical_prefix(t, (k - 1) as nat);
    }
}

/// Correcting one wrong position of a guess adds exactly one match, and
/// the count never exceeds the length.
pub proof fn lemma_correcting_a_position_adds_one(t: Seq<u8>, g: Seq<u8>, i: int)
    requires
        t.len() == g.len(),
        0 <= i < t.len(),
        t[i] != g[i],
    ensures
        matches_count(t, g.update(i, t[i]), t.len()) == matches_count(t, g, t.len()) + 1,
        matches_count(t, g, t.len()) < t.len(),
{
    lemma_correcting_prefix(t, g, i, t.len());
    lemma_matches_at_most(t, g.update(i, t[i]), t.len());
}

proof fn lemma_correcting_prefix(t: Seq<u8>, g: Seq<u8>, i: int, k: nat)
    requires
        t.len() == g.len(),
        0 <= i < t.len(),
        k <= t.len(),
        t[i] != g[i],
    ensures
        matches_count(t, g.update(i, t[i]), k) == matches_count(t, g, k) + if i < k {
            1int
        } else {
            0int
        },
    decreases k,
{
    if k > 0 {
        lemma_correcting_prefix(t, g, i, (k - 1) as nat);
    }
}

proof fn lemma_matches_at_most(t: Seq<u8>, g: Seq<u8>, k: nat)
    ensures
        matches_count(t, g, k) <= k,
    decreases k,
{
    if k > 0 {
        lemma_matches_at_most(t, g, (k - 1) as nat);
    }
}

/// Number of positions where `guess` matches `truth`.
pub fn matching_positions(truth: &[u8], guess: &[u8]) -> (r: usize)
    requires
        truth@.len() == guess@.len(),
    ensures
        r == matches_count(truth@, guess@, truth@.len()),
        truth@ == guess@ ==> r == truth@.len(),
        r <= truth@.len(),
{
    proof {
        lemma_identical_texts_match_everywhere(truth@);
        lemma_matches_at_most(truth@, guess@, truth@.len());
    }
    let n = truth.len();
    let mut hits: usize = 0;
    let mut i: usize = 0;
    while i < n
        invariant
            n == truth@.len() == guess@.len(),
            i <= n,
            hits == matches_count(truth@, guess@, i as nat),
            hits <= i,
        decreases n - i,
    {
        if truth[i] == guess[i] {
            hits = hits + 1;
        }
        i = i + 1;
    }
    hits
}

} // verus!
