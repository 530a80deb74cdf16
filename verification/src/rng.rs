//! Small deterministic PRNG so every experiment is reproducible from a seed
//! without pulling in a runtime dependency: xoshiro256** seeded through
//! SplitMix64.
use vstd::prelude::*;

verus! {

/// The four words of xoshiro256** state.
pub type RngState = (u64, u64, u64, u64);

/// Additive constant of SplitMix64.
pub const GOLDEN_GAMMA: u64 = 0x9E37_79B9_7F4A_7C15;

/// Multiplier that spreads a stream number before it is mixed into a seed.
pub const STREAM_MULTIPLIER: u64 = 0xD6E8_FEB8_6659_FD93;

/// `x` rotated left by `k` bits, `0 < k < 64`.
pub open spec fn rotl(x: u64, k: u64) -> u64 {
    (x << k) | (x >> (64 - k) as u64)
}

/// SplitMix64's finaliser applied to an already advanced counter.
pub open spec fn splitmix_mix(x: u64) -> u64 {
    let z1 = (x ^ (x >> 30u64)).wrapping_mul(0xBF58_476D_1CE4_E5B9);
    let z2 = (z1 ^ (z1 >> 27u64)).wrapping_mul(0x94D0_49BB_1331_11EB);
    z2 ^ (z2 >> 31u64)
}

/// The SplitMix64 counter after `k` steps from `seed`.
pub open spec fn splitmix_counter(seed: u64, k: nat) -> u64
    decreases k,
{
    if k == 0 {
        seed
    } else {
        splitmix_counter(seed, (k - 1) as nat).wrapping_add(GOLDEN_GAMMA)
    }
}

/// The state a generator seeded with `seed` starts from: four SplitMix64 outputs.
pub open spec fn seeded_state(seed: u64) -> RngState {
    (
        splitmix_mix(splitmix_counter(seed, 1)),
        splitmix_mix(splitmix_counter(seed, 2)),
        splitmix_mix(splitmix_counter(seed, 3)),
        splitmix_mix(splitmix_counter(seed, 4)),
    )
}

/// The seed used for stream `stream` of base seed `seed`.
pub open spec fn derived_seed(seed: u64, stream: u64) -> u64 {
    seed ^ rotl(stream.wrapping_mul(STREAM_MULTIPLIER), 17)
}

/// Stream 0 of a seed is the seed itself, so `Rng::derive(seed, 0)` and
/// `Rng::new(seed)` produce the same numbers.
pub proof fn lemma_stream_zero_is_the_seed(seed: u64)
    ensures
        derived_seed(seed, 0) == seed,
{
    assert(seed ^ rotl(0u64.wrapping_mul(STREAM_MULTIPLIER), 17) == seed) by (bit_vector);
}

/// The value xoshiro256** outputs from state `s`.
pub open spec fn xoshiro_output(s: RngState) -> u64 {
    rotl(s.1.wrapping_mul(5), 7).wrapping_mul(9)
}

/// The state that follows `s`.
pub open spec fn xoshiro_step(s: RngState) -> RngState {
    let t = s.1 << 17u64;
    let s2 = s.2 ^ s.0;
    let s3 = s.3 ^ s.1;
    let s1 = s.1 ^ s2;
    let s0 = s.0 ^ s3;
    (s0, s1, s2 ^ t, rotl(s3, 45))
}

/// The state after `k` outputs from state `s`.
pub open spec fn xoshiro_advance(s: RngState, k: nat) -> RngState
    decreases k,
{
    if k == 0 {
        s
    } else {
        xoshiro_step(xoshiro_advance(s, (k - 1) as nat))
    }
}

/// The first `k` outputs from state `s`.
pub open spec fn xoshiro_stream(s: RngState, k: nat) -> Seq<u64>
    decreases k,
{
    if k == 0 {
        Seq::empty()
    } else {
        xoshiro_stream(s, (k - 1) as nat).push(xoshiro_output(xoshiro_advance(s, (k - 1) as nat)))
    }
}

/// Multiply-shift reduction of a 64-bit draw to `0..n`.
pub open spec fn scale_below(x: u64, n: usize) -> int {
    (x as int * n as int) / 0x1_0000_0000_0000_0000int
}

/// The Fisher-Yates pass over `items` driven by the generator state `s`,
/// swapping position `i` with a draw below `i + 1` for `i` from `hi` down to 1.
/// Returns the permuted items and the final state.
pub open spec fn shuffle_from<T>(items: Seq<T>, s: RngState, hi: int) -> (Seq<T>, RngState)
    decreases hi,
{
    if hi <= 0 {
        (items, s)
    } else {
        let j = scale_below(xoshiro_output(s), (hi + 1) as usize);
        let swapped = items.update(hi, items[j]).update(j, items[hi]);
        shuffle_from(swapped, xoshiro_step(s), hi - 1)
    }
}

/// xoshiro256** seeded through SplitMix64.
#[derive(Clone, Copy, Debug)]
pub struct Rng {
    s: [u64; 4],
}

impl View for Rng {
    type V = RngState;

    closed spec fn view(&self) -> RngState {
        (self.s@[0], self.s@[1], self.s@[2], self.s@[3])
    }
}

fn rotate_left(x: u64, k: u64) -> (r: u64)
    requires
        0 < k < 64,
    ensures
        r == rotl(x, k),
{
    (x << k) | (x >> (64 - k))
}

fn splitmix_next(x: &mut u64) -> (z: u64)
    ensures
        *final(x) == old(x).wrapping_add(GOLDEN_GAMMA),
        z == splitmix_mix(*final(x)),
{
    *x = x.wrapping_add(GOLDEN_GAMMA);
    let mut z = *x;
    z = (z ^ (z >> 30)).wrapping_mul(0xBF58_476D_1CE4_E5B9);
    z = (z ^ (z >> 27)).wrapping_mul(0x94D0_49BB_1331_11EB);
    z ^ (z >> 31)
}

/// Swaps two elements of a slice with `<[T]>::swap`, trusted to exchange
/// exactly the items at `i` and `j` and leave the rest in place.
#[verifier::external_body]
fn slice_swap<T>(items: &mut [T], i: usize, j: usize)
    requires
        i < old(items)@.len(),
        j < old(items)@.len(),
    ensures
        final(items)@ == old(items)@.update(i as int, old(items)@[j as int]).update(
            j as int,
            old(items)@[i as int],
        ),
{
    items.swap(i, j)
}

impl Rng {
    pub fn new(seed: u64) -> (r: Self)
        ensures
            r@ == seeded_state(seed),
    {
        let mut x = seed;
        assert(splitmix_counter(seed, 0) == seed);
        let a = splitmix_next(&mut x);
        assert(x == splitmix_counter(seed, 1));
        let b = splitmix_next(&mut x);
        assert(x == splitmix_counter(seed, 2));
        let c = splitmix_next(&mut x);
        assert(x == splitmix_counter(seed, 3));
        let d = splitmix_next(&mut x);
        assert(x == splitmix_counter(seed, 4));
        let r = Rng { s: [a, b, c, d] };
        assert(r@ == seeded_state(seed));
        r
    }

    /// Derives an independent stream, e.g. one per restart or per trial.
    pub fn derive(seed: u64, stream: u64) -> (r: Self)
        ensures
            r@ == seeded_state(derived_seed(seed, stream)),
    {
        let spread = rotate_left(stream.wrapping_mul(STREAM_MULTIPLIER), 17);
        Rng::new(seed ^ spread)
    }

    pub fn next_u64(&mut self) -> (r: u64)
        ensures
            r == xoshiro_output(old(self)@),
            final(self)@ == xoshiro_step(old(self)@),
    {
        let result = rotate_left(self.s[1].wrapping_mul(5), 7).wrapping_mul(9);
        let t = self.s[1] << 17;
        let s0 = self.s[0];
        let s1 = self.s[1];
        let s2 = self.s[2] ^ s0;
        let s3 = self.s[3] ^ s1;
        let n1 = s1 ^ s2;
        let n0 = s0 ^ s3;
        self.s = [n0, n1, s2 ^ t, rotate_left(s3, 45)];
        result
    }

    /// Uniform integer in `0..n`. `n` must be non-zero.
    pub fn below(&mut self, n: usize) -> (r: usize)
        requires
            n > 0,
        ensures
            r < n,
            r == scale_below(xoshiro_output(old(self)@), n),
            final(self)@ == xoshiro_step(old(self)@),
    {
        let x = self.next_u64();
        proof {
            assert((x as int) * (n as int) <= u128::MAX) by (nonlinear_arith)
                requires
                    x <= u64::MAX,
                    n <= u64::MAX,
            {}
        }
        let wide = (x as u128) * (n as u128);
        let r = wide >> 64u128;
        proof {
            vstd::bits::lemma_u128_shr_is_div(wide, 64);
            vstd::arithmetic::power2::lemma2_to64_rest();
            assert(wide == (x as int) * (n as int)) by (nonlinear_arith)
                requires
                    wide == (x as u128) * (n as u128),
                    (x as int) * (n as int) <= u128::MAX,
            {}
            assert((x as int) * (n as int) < 0x1_0000_0000_0000_0000int * (n as int)) by (nonlinear_arith)
                requires
                    x < 0x1_0000_0000_0000_0000int,
                    n > 0,
            {}
        }
        r as usize
    }

    /// Permutes `items` in place with a Fisher-Yates pass.
    pub fn shuffle<T>(&mut self, items: &mut [T])
        ensures
            (final(items)@, final(self)@) == shuffle_from(
                old(items)@,
                old(self)@,
                old(items)@.len() - 1,
            ),
            final(items)@.to_multiset() == old(items)@.to_multiset(),
    {
        let len = items.len();
        if len == 0 {
            return ;
        }
        let mut i = len - 1;
        while i > 0
            invariant
                i < len,
                items@.len() == len,
                shuffle_from(items@, self@, i as int) == shuffle_from(
                    old(items)@,
                    old(self)@,
                    len - 1,
                ),
                items@.to_multiset() == old(items)@.to_multiset(),
            decreases i,
        {
            let j = self.below(i + 1);
            proof {
                vstd::seq_lib::lemma_multiset_commutative(items@, items@);
            }
            let ghost before = items@;
            slice_swap(items, i, j);
            proof {
                lemma_swap_keeps_multiset(before, i as int, j as int);
            }
            i = i - 1;
        }
    }
}

proof fn lemma_swap_keeps_multiset<T>(s: Seq<T>, i: int, j: int)
    requires
        0 <= i < s.len(),
        0 <= j < s.len(),
    ensures
        s.update(i, s[j]).update(j, s[i]).to_multiset() == s.to_multiset(),
{
    broadcast use vstd::seq_lib::group_to_multiset_ensures;

    let t = s.update(i, s[j]);
    assert(t.to_multiset() == s.to_multiset().remove(s[i]).insert(s[j]));
    assert(t.update(j, s[i]).to_multiset() == t.to_multiset().remove(t[j]).insert(s[i]));
    if i == j {
        assert(s.update(i, s[j]).update(j, s[i]) =~= s);
    } else {
        assert(t[j] == s[j]);
        assert(s.to_multiset().count(s[i]) > 0);
    }
}

} // verus!
