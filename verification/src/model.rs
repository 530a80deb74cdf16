//! N-gram language model stored as a flat table of quantised conditional
//! log-probabilities, indexed by the base-26 rolling hash of the n-gram.
use vstd::prelude::*;
use vstd::string::StringSliceAdditionalSpecFns;
use vstd::string::StringExecFns;
use crate::rng::{Rng, RngState, scale_below, xoshiro_advance, xoshiro_output};

verus! {

pub const ALPHABET: usize = 26;

pub const MIN_ORDER: usize = 2;

pub const MAX_ORDER: usize = 5;

/// Longest ciphertext the scorer takes: it stores positions as `u32`.
pub const MAX_TEXT_LEN: usize = 0xFFFF_FFFF;

/// Longest text [`NgramModel::score_text`] sums: every sum of that many
/// `i16` table entries fits in an `i64`.
pub const MAX_SCORED_LEN: u64 = 0xFFFF_FFFF_FFFF;

/// `26^e`.
pub open spec fn alphabet_pow(e: nat) -> nat
    decreases e,
{
    if e == 0 {
        1
    } else {
        26 * alphabet_pow((e - 1) as nat)
    }
}

/// Every entry is a letter `0..26`.
pub open spec fn all_letters(s: Seq<u8>) -> bool {
    forall|i: int| 0 <= i < s.len() ==> #[trigger] s[i] < 26
}

/// Base-26 value of a letter sequence, first letter most significant.
pub open spec fn hash_letters(s: Seq<u8>) -> nat
    decreases s.len(),
{
    if s.len() == 0 {
        0
    } else {
        hash_letters(s.drop_last()) * 26 + s.last() as nat
    }
}

/// Hash of the window of `n` letters starting at `w`.
pub open spec fn window_hash(text: Seq<u8>, w: int, n: nat) -> nat {
    hash_letters(text.subrange(w, w + n))
}

/// Number of windows of `n` letters in a text of `len` letters.
pub open spec fn window_count(len: nat, n: nat) -> nat {
    if len >= n {
        (len - n + 1) as nat
    } else {
        0
    }
}

/// Sum of the table entries of the first `k` windows.
pub open spec fn windows_sum(table: Seq<i16>, text: Seq<u8>, n: nat, k: nat) -> int
    decreases k,
{
    if k == 0 {
        0
    } else {
        windows_sum(table, text, n, (k - 1) as nat) + table[window_hash(
            text,
            k - 1,
            n,
        ) as int] as int
    }
}

/// Sum of the table entries of every window of `text`.
pub open spec fn text_score(table: Seq<i16>, text: Seq<u8>, n: nat) -> int {
    windows_sum(table, text, n, window_count(text.len(), n))
}

pub proof fn lemma_alphabet_pow_positive(e: nat)
    ensures
        alphabet_pow(e) >= 1,
    decreases e,
{
    if e > 0 {
        lemma_alphabet_pow_positive((e - 1) as nat);
    }
}

pub proof fn lemma_alphabet_pow_values()
    ensures
        alphabet_pow(0) == 1,
        alphabet_pow(1) == 26,
        alphabet_pow(2) == 676,
        alphabet_pow(3) == 17576,
        alphabet_pow(4) == 456976,
        alphabet_pow(5) == 11881376,
        alphabet_pow(6) == 308915776,
{
    reveal_with_fuel(alphabet_pow, 7);
}

/// Splits off the most significant letter.
pub proof fn lemma_hash_first(s: Seq<u8>)
    requires
        s.len() >= 1,
    ensures
        hash_letters(s) == s[0] * alphabet_pow((s.len() - 1) as nat) + hash_letters(
            s.drop_first(),
        ),
    decreases s.len(),
{
    if s.len() == 1 {
        assert(s.drop_last().len() == 0);
        assert(s.drop_first().len() == 0);
        assert(hash_letters(s.drop_last()) == 0);
        assert(hash_letters(s.drop_first()) == 0);
        assert(s.last() == s[0]);
        assert(alphabet_pow(0) == 1);
        assert(s[0] * alphabet_pow(0) == s[0]);
    } else {
        let d = s.drop_last();
        lemma_hash_first(d);
        assert(d.drop_first() =~= s.drop_first().drop_last());
        assert(s.drop_first().last() == s.last());
        let p = alphabet_pow((s.len() - 2) as nat);
        assert(alphabet_pow((s.len() - 1) as nat) == 26 * p);
        let a = s[0] as int;
        let h = hash_letters(d.drop_first()) as int;
        let l = s.last() as int;
        assert(hash_letters(d) == a * p + h);
        assert(hash_letters(s) == hash_letters(d) * 26 + l);
        assert(hash_letters(s.drop_first()) == hash_letters(s.drop_first().drop_last()) * 26 + l);
        assert((a * p + h) * 26 + l == a * (26 * p) + (h * 26 + l)) by (nonlinear_arith);
        assert(hash_letters(s) == a * alphabet_pow((s.len() - 1) as nat) + hash_letters(
            s.drop_first(),
        ));
    }
}

pub proof fn lemma_hash_bound(s: Seq<u8>)
    requires
        all_letters(s),
    ensures
        hash_letters(s) < alphabet_pow(s.len()),
    decreases s.len(),
{
    if s.len() > 0 {
        let d = s.drop_last();
        assert(all_letters(d)) by {
            assert forall|i: int| 0 <= i < d.len() implies #[trigger] d[i] < 26 by {
                assert(d[i] == s[i]);
            }
        }
        lemma_hash_bound(d);
        let h = hash_letters(d) as int;
        let p = alphabet_pow(d.len()) as int;
        assert(s.last() < 26);
        assert(h * 26 + s.last() < 26 * p) by (nonlinear_arith)
            requires
                h < p,
                s.last() < 26,
        {}
    }
}

/// A window lies in the table when its letters are.
pub proof fn lemma_window_hash_bound(text: Seq<u8>, w: int, n: nat)
    requires
        all_letters(text),
        0 <= w,
        w + n <= text.len(),
    ensures
        window_hash(text, w, n) < alphabet_pow(n),
{
    let sub = text.subrange(w, w + n);
    assert(all_letters(sub)) by {
        assert forall|i: int| 0 <= i < sub.len() implies #[trigger] sub[i] < 26 by {
            assert(sub[i] == text[w + i]);
        }
    }
    lemma_hash_bound(sub);
}

/// The rolling-hash step from the window at `w` to the window at `w + 1`.
pub proof fn lemma_roll(text: Seq<u8>, w: int, n: nat)
    requires
        n >= 1,
        0 <= w,
        w + n < text.len(),
    ensures
        window_hash(text, w, n) >= text[w] * alphabet_pow((n - 1) as nat),
        window_hash(text, w + 1, n) == (window_hash(text, w, n) - text[w] * alphabet_pow(
            (n - 1) as nat,
        )) * 26 + text[w + n],
{
    let a = text.subrange(w, w + n);
    let b = text.subrange(w + 1, w + 1 + n);
    lemma_hash_first(a);
    assert(a.drop_first() =~= b.drop_last());
    assert(b.last() == text[w + n]);
    assert(a[0] == text[w]);
}

/// The hash of the first window, built letter by letter.
pub proof fn lemma_hash_push(s: Seq<u8>, i: int)
    requires
        0 <= i < s.len(),
    ensures
        hash_letters(s.subrange(0, i + 1)) == hash_letters(s.subrange(0, i)) * 26 + s[i],
{
    assert(s.subrange(0, i + 1).drop_last() =~= s.subrange(0, i));
}

pub proof fn lemma_windows_sum_bound(table: Seq<i16>, text: Seq<u8>, n: nat, k: nat)
    ensures
        -32768 * k <= windows_sum(table, text, n, k) <= 32768 * k,
    decreases k,
{
    if k > 0 {
        lemma_windows_sum_bound(table, text, n, (k - 1) as nat);
    }
}

/// Windows among the first `k` whose hash is `h`.
pub open spec fn hash_occurrences(text: Seq<u8>, n: nat, h: int, k: nat) -> nat
    decreases k,
{
    if k == 0 {
        0
    } else {
        hash_occurrences(text, n, h, (k - 1) as nat) + if window_hash(text, k - 1, n) == h {
            1nat
        } else {
            0nat
        }
    }
}

/// How often each n-gram occurs in `text`, saturating at `u32::MAX`.
pub open spec fn ngram_counts(text: Seq<u8>, n: nat) -> Seq<u32> {
    Seq::new(
        alphabet_pow(n),
        |h: int|
            if hash_occurrences(text, n, h, window_count(text.len(), n)) > u32::MAX {
                u32::MAX
            } else {
                hash_occurrences(text, n, h, window_count(text.len(), n)) as u32
            },
    )
}

/// `Σ_{j < l} counts[26 c + j]`: occurrences of context `c` among its first
/// `l` continuations.
pub open spec fn row_total(counts: Seq<u32>, c: int, l: nat) -> nat
    decreases l,
{
    if l == 0 {
        0
    } else {
        row_total(counts, c, (l - 1) as nat) + counts[c * 26 + l - 1] as nat
    }
}

/// Largest context total among the first `k` contexts.
pub open spec fn max_row(counts: Seq<u32>, k: nat) -> nat
    decreases k,
{
    if k == 0 {
        0
    } else {
        let prev = max_row(counts, (k - 1) as nat);
        let t = row_total(counts, k - 1, 26);
        if t > prev {
            t
        } else {
            prev
        }
    }
}

/// The busiest context's total, at least 1.
pub open spec fn busiest_total(counts: Seq<u32>, n: nat) -> nat {
    let m = max_row(counts, alphabet_pow((n - 1) as nat));
    if m > 1 {
        m
    } else {
        1
    }
}

/// A model trained on counts `counts` with quantiser `q`: the floor is
/// `q(1, 2 · busiest)`, an n-gram never seen gets the floor, and a seen one
/// `q(count, context total)`.
pub open spec fn trained_from<Q: Fn(u64, u64) -> i16>(v: ModelView, counts: Seq<u32>, q: Q) -> bool {
    &&& v.table.len() == counts.len()
    &&& call_ensures(q, (1u64, (2 * busiest_total(counts, v.order)) as u64), v.floor)
    &&& forall|h: int|
        0 <= h < counts.len() ==> if counts[h] == 0 {
            #[trigger] v.table[h] == v.floor
        } else {
            call_ensures(
                q,
                (counts[h] as u64, row_total(counts, h / 26, 26) as u64),
                v.table[h],
            )
        }
}

/// What a trained model's ordering rests on, of a quantiser `q(num, den)`
/// standing for `round(1000 ln(num / den))` clamped to `-32767..=0`: its
/// values lie in that range; a ratio of at most one half gives a negative
/// value; and a ratio `num / den <= 1` at least twice another gives a
/// strictly larger value, unless that other value is clamped.
pub open spec fn quantiser_laws<Q: Fn(u64, u64) -> i16>(q: Q) -> bool {
    &&& forall|a: u64, b: u64, x: i16| #[trigger] call_ensures(q, (a, b), x) ==> -32767 <= x <= 0
    &&& forall|a: u64, b: u64, x: i16|
        0 < a && 2 * a <= b && #[trigger] call_ensures(q, (a, b), x) ==> x < 0
    &&& forall|a: u64, b: u64, c: u64, d: u64, x: i16, y: i16|
        0 < a <= b && 0 < c && 0 < d && a * d >= 2 * c * b && #[trigger] call_ensures(q, (a, b), x)
            && #[trigger] call_ensures(q, (c, d), y) && y > -32767 ==> x > y
}

/// Every window of `text` occurs among the windows counted.
proof fn lemma_window_counted(text: Seq<u8>, n: nat, w: int, k: nat)
    requires
        0 <= w < k,
    ensures
        hash_occurrences(text, n, window_hash(text, w, n) as int, k) >= 1,
    decreases k,
{
    if w < k - 1 {
        lemma_window_counted(text, n, w, (k - 1) as nat);
    }
}

/// An entry of a row is at most the row's total, which is at most
/// `l * u32::MAX`.
proof fn lemma_row_total_bounds(counts: Seq<u32>, c: int, l: nat, j: int)
    requires
        0 <= j < l,
    ensures
        counts[c * 26 + j] <= row_total(counts, c, l),
        row_total(counts, c, l) <= l * 0xFFFF_FFFF,
    decreases l,
{
    assert(row_total(counts, c, l) == row_total(counts, c, (l - 1) as nat) + counts[c * 26 + l - 1]);
    if l > 1 {
        if j < l - 1 {
            lemma_row_total_bounds(counts, c, (l - 1) as nat, j);
        } else {
            lemma_row_total_bounds(counts, c, (l - 1) as nat, 0);
        }
    } else {
        assert(row_total(counts, c, 0) == 0);
    }
}

/// No row total among the first `k` rows exceeds their maximum, which is at
/// most `26 * u32::MAX`.
proof fn lemma_max_row_bounds(counts: Seq<u32>, c: int, k: nat)
    requires
        0 <= c < k,
    ensures
        row_total(counts, c, 26) <= max_row(counts, k),
        max_row(counts, k) <= 26 * 0xFFFF_FFFF,
    decreases k,
{
    lemma_row_total_bounds(counts, k - 1, 26, 0);
    if k > 1 {
        if c < k - 1 {
            lemma_max_row_bounds(counts, c, (k - 1) as nat);
        } else {
            lemma_max_row_bounds(counts, 0, (k - 1) as nat);
        }
    }
}

/// With a quantiser that obeys [`quantiser_laws`], the floor of a trained
/// model is negative and above `i16::MIN`, and unless it is clamped at
/// `-32767`, every n-gram seen in the corpus scores strictly above it.
pub proof fn lemma_floor_below_seen<Q: Fn(u64, u64) -> i16>(v: ModelView, letters: Seq<u8>, q: Q)
    requires
        model_shape(v),
        letters.len() >= v.order,
        all_letters(letters),
        trained_from(v, ngram_counts(letters, v.order), q),
        quantiser_laws(q),
    ensures
        i16::MIN < v.floor < 0,
        v.floor > -32767 ==> forall|w: int|
            0 <= w <= letters.len() - v.order ==> #[trigger] v.table[window_hash(letters, w, v.order) as int]
                > v.floor,
{
    let n = v.order;
    let counts = ngram_counts(letters, n);
    lemma_alphabet_pow_values();
    let contexts = alphabet_pow((n - 1) as nat);
    assert(alphabet_pow(n) == contexts * 26) by {
        assert(n == 2 || n == 3 || n == 4 || n == 5);
    }
    lemma_max_row_bounds(counts, 0, contexts);
    let busiest = busiest_total(counts, n);
    assert(1 <= busiest <= 26 * 0xFFFF_FFFF);
    assert(v.floor < 0);
    if v.floor > -32767 {
        assert forall|w: int| 0 <= w <= letters.len() - n implies #[trigger] v.table[window_hash(
            letters,
            w,
            n,
        ) as int] > v.floor by {
            let h = window_hash(letters, w, n) as int;
            lemma_window_hash_bound(letters, w, n);
            lemma_window_counted(letters, n, w, window_count(letters.len(), n));
            assert(counts[h] >= 1);
            let cx = h / 26;
            let j = h % 26;
            assert(h == cx * 26 + j);
            assert(0 <= cx < contexts);
            lemma_row_total_bounds(counts, cx, 26, j);
            lemma_max_row_bounds(counts, cx, contexts);
            let a = counts[h] as u64;
            let b = row_total(counts, cx, 26) as u64;
            let d = (2 * busiest) as u64;
            assert(a as int == counts[h]);
            assert(b as int == row_total(counts, cx, 26));
            assert(d as int == 2 * busiest);
            assert(0 < a <= b);
            assert(a * d >= 2 * 1 * b) by (nonlinear_arith)
                requires
                    a >= 1,
                    d >= 2 * b,
            {}
            assert(call_ensures(q, (a, b), v.table[h]));
            assert(call_ensures(q, (1u64, d), v.floor));
        }
    }
}

/// The file signature of a stored model.
pub open spec fn model_magic() -> Seq<u8> {
    seq![0x48u8, 0x50u8, 0x48u8, 0x4Du8]
}

/// Format version of a stored model.
pub const MODEL_VERSION: u8 = 1;

/// Low byte of an `i16` in two's complement.
pub open spec fn i16_low(v: i16) -> u8 {
    (v as u16 & 0xffu16) as u8
}

/// High byte of an `i16` in two's complement.
pub open spec fn i16_high(v: i16) -> u8 {
    ((v as u16) >> 8u16) as u8
}

/// The `i16` whose little-endian bytes are `lo`, `hi`.
pub open spec fn i16_from_bytes(lo: u8, hi: u8) -> i16 {
    (((hi as u16) << 8u16) | lo as u16) as i16
}

/// The stored form of a model: `HPHM`, version, order, the floor and then
/// every table entry, each as two little-endian bytes.
pub open spec fn model_bytes(v: ModelView) -> Seq<u8> {
    model_magic() + seq![MODEL_VERSION, v.order as u8, i16_low(v.floor), i16_high(v.floor)]
        + Seq::new(
        2 * v.table.len(),
        |i: int|
            if i % 2 == 0 {
                i16_low(v.table[i / 2])
            } else {
                i16_high(v.table[i / 2])
            },
    )
}

/// The model a byte sequence with a valid header describes.
pub open spec fn model_from_bytes(b: Seq<u8>) -> ModelView {
    ModelView {
        order: b[5] as nat,
        floor: i16_from_bytes(b[6], b[7]),
        table: Seq::new(
            alphabet_pow(b[5] as nat),
            |i: int| i16_from_bytes(b[8 + 2 * i], b[9 + 2 * i]),
        ),
    }
}

/// `b` starts with the signature.
pub open spec fn has_magic(b: Seq<u8>) -> bool {
    b.len() >= 8 && b.subrange(0, 4) == model_magic()
}

/// `b` is a well-formed stored model.
pub open spec fn valid_model_bytes(b: Seq<u8>) -> bool {
    &&& has_magic(b)
    &&& b[4] == MODEL_VERSION
    &&& MIN_ORDER <= b[5] <= MAX_ORDER
    &&& b.len() == 8 + 2 * alphabet_pow(b[5] as nat)
}

pub proof fn lemma_i16_bytes(v: i16)
    ensures
        i16_from_bytes(i16_low(v), i16_high(v)) == v,
{
    assert((((((v as u16) >> 8u16) as u8 as u16) << 8u16) | ((v as u16 & 0xffu16) as u8 as u16))
        as i16 == v) by (bit_vector);
}

/// An `i16` split into bytes: the low byte plus 256 times the high byte is
/// its two's-complement bit pattern.
proof fn lemma_i16_split(v: i16)
    ensures
        i16_low(v) as int + 256 * i16_high(v) as int == v as u16 as int,
{
    assert(i16_low(v) as u16 + 256 * (i16_high(v) as u16) == v as u16) by (bit_vector);
}

/// Two bytes joined: the bit pattern of the `i16` is the first byte plus 256
/// times the second.
proof fn lemma_i16_join(lo: u8, hi: u8)
    ensures
        i16_from_bytes(lo, hi) as u16 as int == lo as int + 256 * hi as int,
{
    assert(i16_from_bytes(lo, hi) as u16 == lo as u16 + 256 * (hi as u16)) by (bit_vector);
}

/// The stored form is little-endian: the floor and every table entry are
/// written low byte first, so the byte pair at each place, read as
/// `low + 256 * high`, is the value's 16-bit pattern.
pub proof fn lemma_stored_form_is_little_endian(v: ModelView)
    requires
        model_shape(v),
    ensures
        model_bytes(v)[6] as int + 256 * model_bytes(v)[7] as int == v.floor as u16 as int,
        forall|i: int|
            0 <= i < v.table.len() ==> model_bytes(v)[8 + 2 * i] as int + 256 * model_bytes(v)[9
                + 2 * i] as int == #[trigger] v.table[i] as u16 as int,
{
    let b = model_bytes(v);
    lemma_i16_split(v.floor);
    assert forall|i: int| 0 <= i < v.table.len() implies b[8 + 2 * i] as int + 256 * b[9 + 2
        * i] as int == #[trigger] v.table[i] as u16 as int by {
        assert(b[8 + 2 * i] == i16_low(v.table[i])) by {
            assert((2 * i) % 2 == 0 && (2 * i) / 2 == i) by (nonlinear_arith);
        }
        assert(b[9 + 2 * i] == i16_high(v.table[i])) by {
            assert((2 * i + 1) % 2 == 1 && (2 * i + 1) / 2 == i) by (nonlinear_arith);
        }
        lemma_i16_split(v.table[i]);
    }
}

/// Reading is little-endian too: the floor's bit pattern is byte 6 plus 256
/// times byte 7, and entry `i`'s is byte `8 + 2i` plus 256 times the next.
pub proof fn lemma_read_is_little_endian(b: Seq<u8>)
    requires
        valid_model_bytes(b),
    ensures
        model_from_bytes(b).floor as u16 as int == b[6] as int + 256 * b[7] as int,
        forall|i: int|
            0 <= i < model_from_bytes(b).table.len() ==> #[trigger] model_from_bytes(b).table[i] as u16
                as int == b[8 + 2 * i] as int + 256 * b[9 + 2 * i] as int,
{
    lemma_i16_join(b[6], b[7]);
    assert forall|i: int| 0 <= i < model_from_bytes(b).table.len() implies #[trigger] model_from_bytes(
        b,
    ).table[i] as u16 as int == b[8 + 2 * i] as int + 256 * b[9 + 2 * i] as int by {
        lemma_i16_join(b[8 + 2 * i], b[9 + 2 * i]);
    }
}

/// Reading back what was written gives the same model.
pub proof fn lemma_model_bytes_round_trip(v: ModelView)
    requires
        model_shape(v),
    ensures
        valid_model_bytes(model_bytes(v)),
        model_from_bytes(model_bytes(v)) == v,
{
    let b = model_bytes(v);
    assert(b.subrange(0, 4) =~= model_magic());
    assert(b[5] == v.order as u8);
    assert(b[5] as nat == v.order);
    lemma_i16_bytes(v.floor);
    let w = model_from_bytes(b);
    assert forall|i: int| 0 <= i < v.table.len() implies #[trigger] w.table[i] == v.table[i] by {
        assert(b[8 + 2 * i] == i16_low(v.table[i])) by {
            assert((2 * i) % 2 == 0 && (2 * i) / 2 == i) by (nonlinear_arith);
        }
        assert(b[9 + 2 * i] == i16_high(v.table[i])) by {
            assert((2 * i + 1) % 2 == 1 && (2 * i + 1) / 2 == i) by (nonlinear_arith);
        }
        lemma_i16_bytes(v.table[i]);
    }
    assert(w.table =~= v.table);
}

/// Letters `0..26` drawn from bytes: ASCII letters of either case, in order,
/// with everything else dropped.
pub open spec fn letters_of_bytes(b: Seq<u8>) -> Seq<u8>
    decreases b.len(),
{
    if b.len() == 0 {
        Seq::empty()
    } else {
        let rest = letters_of_bytes(b.drop_last());
        let x = b.last();
        if 0x41 <= x <= 0x5A {
            rest.push((x - 0x41) as u8)
        } else if 0x61 <= x <= 0x7A {
            rest.push((x - 0x61) as u8)
        } else {
            rest
        }
    }
}

/// How many letters of burn-in sampling discards.
pub const BURN_IN: usize = 256;

/// Model parameters as plain values.
pub struct ModelView {
    pub order: nat,
    pub table: Seq<i16>,
    pub floor: i16,
}

/// Errors of training and of decoding a stored model.
#[derive(Debug, Clone, PartialEq, Eq)]
pub enum ModelError {
    BadOrder(usize),
    CorpusTooShort { letters: usize, order: usize },
    Io(String),
    Format(String),
}

impl ModelError {
    /// A sentence describing the error.
    pub fn message(&self) -> (r: String)
        ensures
            self matches ModelError::BadOrder(n) ==> r@ == "model order must be between 2 and 5, got "@
                + decimal(n as nat),
            self matches ModelError::CorpusTooShort { letters, order } ==> r@ == "corpus has "@
                + decimal(letters as nat) + " letters, not enough for a single "@ + decimal(
                order as nat,
            ) + "-gram"@,
            self matches ModelError::Io(e) ==> r@ == "i/o error: "@ + e@,
            self matches ModelError::Format(e) ==> r@ == "invalid model file: "@ + e@,
    {
        match self {
            ModelError::BadOrder(n) => {
                let mut s = owned_text("model order must be between 2 and 5, got ");
                append_decimal(&mut s, *n as u128);
                s
            },
            ModelError::CorpusTooShort { letters, order } => {
                let mut s = owned_text("corpus has ");
                append_decimal(&mut s, *letters as u128);
                append_text(&mut s, " letters, not enough for a single ");
                append_decimal(&mut s, *order as u128);
                append_text(&mut s, "-gram");
                s
            },
            ModelError::Io(e) => {
                let mut s = owned_text("i/o error: ");
                append_text(&mut s, e.as_str());
                s
            },
            ModelError::Format(e) => {
                let mut s = owned_text("invalid model file: ");
                append_text(&mut s, e.as_str());
                s
            },
        }
    }
}

#[derive(Debug)]
pub struct NgramModel {
    order: usize,
    table: Vec<i16>,
    floor: i16,
}

impl View for NgramModel {
    type V = ModelView;

    closed spec fn view(&self) -> ModelView {
        ModelView { order: self.order as nat, table: self.table@, floor: self.floor }
    }
}

/// A model's order is in `2..=5` and its table has one entry per n-gram.
pub open spec fn model_shape(v: ModelView) -> bool {
    &&& MIN_ORDER <= v.order <= MAX_ORDER
    &&& v.table.len() == alphabet_pow(v.order)
}

/// `26^e` for `e <= 5`.
pub fn alphabet_power(e: usize) -> (r: usize)
    requires
        e <= 5,
    ensures
        r == alphabet_pow(e as nat),
{
    proof {
        lemma_alphabet_pow_values();
    }
    let mut r: usize = 1;
    let mut i: usize = 0;
    while i < e
        invariant
            i <= e <= 5,
            r == alphabet_pow(i as nat),
        decreases e - i,
    {
        proof {
            lemma_alphabet_pow_values();
        }
        r = r * 26;
        i = i + 1;
    }
    r
}

/// `full` is a run of `pick` over model `m` from generator state `s`: the
/// first `order - 1` letters are uniform draws below 26, and each later letter
/// is what `pick` returns for the context of the preceding `order - 1` letters
/// and the next 64-bit draw.
pub open spec fn sampled<P: Fn(&NgramModel, usize, u64) -> usize>(
    m: &NgramModel,
    s: RngState,
    full: Seq<u8>,
    pick: P,
) -> bool {
    let k = m@.order - 1;
    &&& forall|i: int|
        0 <= i < full.len() && i < k ==> #[trigger] full[i] as int == scale_below(
            xoshiro_output(xoshiro_advance(s, i as nat)),
            26,
        )
    &&& forall|i: int|
        k <= i < full.len() ==> call_ensures(
            pick,
            (m, window_hash(full, i - k, k as nat) as usize, xoshiro_output(xoshiro_advance(s, i as nat))),
            #[trigger] full[i] as usize,
        )
}

/// Context `ctx`, the hash of `order - 1` letters, has a continuation that
/// was seen in training.
pub open spec fn context_seen(v: ModelView, ctx: int) -> bool {
    exists|l: int| 0 <= l < 26 && #[trigger] v.table[ctx * 26 + l] > v.floor
}

/// A `pick` that follows its model: after a context with a seen
/// continuation it names a seen continuation, never a floor entry; after an
/// unseen context it continues uniformly, with its draw scaled below 26.
pub open spec fn pick_follows_model<P: Fn(&NgramModel, usize, u64) -> usize>(pick: P) -> bool {
    forall|m: &NgramModel, c: usize, d: u64, x: usize|
        #[trigger] call_ensures(pick, (m, c, d), x) && c < alphabet_pow((m@.order - 1) as nat)
            && x < 26 ==> {
            &&& context_seen(m@, c as int) ==> m@.table[c * 26 + x] > m@.floor
            &&& !context_seen(m@, c as int) ==> x == scale_below(d, 26)
        }
}

/// Every letter of `full` after its first `order - 1` follows the model's
/// table from state `s`: a window whose context has a seen continuation is
/// itself seen, and after an unseen context the letter is the uniform draw.
pub open spec fn follows_model(v: ModelView, s: RngState, full: Seq<u8>) -> bool {
    let k = v.order - 1;
    forall|i: int|
        k <= i < full.len() ==> {
            &&& context_seen(v, window_hash(full, i - k, k as nat) as int) ==> v.table[window_hash(
                full,
                i - k,
                v.order,
            ) as int] > v.floor
            &&& !context_seen(v, window_hash(full, i - k, k as nat) as int) ==> #[trigger] full[i] as int
                == scale_below(xoshiro_output(xoshiro_advance(s, i as nat)), 26)
        }
}

/// A sampled text follows the model when its `pick` does.
pub proof fn lemma_sampled_follows_model<P: Fn(&NgramModel, usize, u64) -> usize>(
    m: &NgramModel,
    s: RngState,
    full: Seq<u8>,
    pick: P,
)
    requires
        model_shape(m@),
        all_letters(full),
        sampled(m, s, full, pick),
        pick_follows_model(pick),
    ensures
        follows_model(m@, s, full),
{
    let k = (m@.order - 1) as nat;
    lemma_alphabet_pow_values();
    assert forall|i: int| k <= i < full.len() implies {
        &&& context_seen(m@, window_hash(full, i - k, k) as int) ==> m@.table[window_hash(
            full,
            i - k,
            m@.order,
        ) as int] > m@.floor
        &&& !context_seen(m@, window_hash(full, i - k, k) as int) ==> #[trigger] full[i] as int
            == scale_below(xoshiro_output(xoshiro_advance(s, i as nat)), 26)
    } by {
        let ctx = window_hash(full, i - k, k);
        lemma_window_hash_bound(full, i - k, k);
        assert(ctx < 456976);
        assert((ctx as usize) as int == ctx);
        let d = xoshiro_output(xoshiro_advance(s, i as nat));
        assert(call_ensures(pick, (m, ctx as usize, d), full[i] as usize));
        assert(full[i] < 26);
        let w = full.subrange(i - k, i + 1);
        assert(w.drop_last() =~= full.subrange(i - k, i));
        assert(w.last() == full[i]);
        assert(window_hash(full, i - k, m@.order) == ctx * 26 + full[i]);
    }
}

impl Clone for NgramModel {
    fn clone(&self) -> (r: Self)
        ensures
            r@ == self@,
    {
        proof {
            use_type_invariant(self);
        }
        NgramModel { order: self.order, table: self.table.clone(), floor: self.floor }
    }
}

/// Hash of the `n` letters of `text` starting at `start`.
pub fn window_hash_at(text: &[u8], start: usize, n: usize) -> (h: usize)
    requires
        all_letters(text@),
        start + n <= text@.len(),
        n <= 5,
    ensures
        h == window_hash(text@, start as int, n as nat),
        h < alphabet_pow(n as nat),
{
    let tl = text.len();
    let mut h: usize = 0;
    let mut i: usize = 0;
    while i < n
        invariant
            all_letters(text@),
            tl == text@.len(),
            start + n <= tl,
            n <= 5,
            i <= n,
            h == hash_letters(text@.subrange(start as int, start + i)),
            h < alphabet_pow(i as nat),
        decreases n - i,
    {
        proof {
            assert(text@.subrange(start as int, start + i + 1).drop_last() =~= text@.subrange(
                start as int,
                start + i,
            ));
            lemma_alphabet_pow_values();
            assert(text@[start + i] < 26);
        }
        h = h * 26 + text[start + i] as usize;
        i = i + 1;
    }
    h
}

fn low_byte(v: i16) -> (b: u8)
    ensures
        b == i16_low(v),
{
    (v as u16 & 0xffu16) as u8
}

fn high_byte(v: i16) -> (b: u8)
    ensures
        b == i16_high(v),
{
    ((v as u16) >> 8u16) as u8
}

fn from_bytes(lo: u8, hi: u8) -> (v: i16)
    ensures
        v == i16_from_bytes(lo, hi),
{
    (((hi as u16) << 8u16) | lo as u16) as i16
}

/// An owned copy of a string slice (`str::to_owned`).
pub(crate) fn owned_text(s: &str) -> (r: String)
    ensures
        r@ == s@,
{
    s.to_owned()
}

/// Appends a string slice to a `String`.
pub(crate) fn append_text(s: &mut String, t: &str)
    ensures
        final(s)@ == old(s)@ + t@,
{
    s.append(t)
}

/// Maps `A-Z`/`a-z` to `0..26` and drops everything else, as is conventional
/// for classical ciphers (no spaces or punctuation).
pub fn letters_from_text(text: &str) -> (r: Vec<u8>)
    ensures
        r@ == letters_of_bytes(text.spec_bytes()),
        all_letters(r@),
{
    let bytes = text.as_bytes();
    let n = bytes.len();
    let mut out: Vec<u8> = Vec::new();
    let mut i: usize = 0;
    while i < n
        invariant
            n == bytes@.len(),
            bytes@ == text.spec_bytes(),
            i <= n,
            out@ == letters_of_bytes(bytes@.subrange(0, i as int)),
            all_letters(out@),
        decreases n - i,
    {
        let b = bytes[i];
        proof {
            assert(bytes@.subrange(0, i + 1).drop_last() =~= bytes@.subrange(0, i as int));
        }
        if b >= 0x41u8 && b <= 0x5Au8 {
            out.push(b - 0x41u8);
        } else if b >= 0x61u8 && b <= 0x7Au8 {
            out.push(b - 0x61u8);
        }
        i = i + 1;
    }
    proof {
        assert(bytes@.subrange(0, n as int) =~= bytes@);
    }
    out
}

/// Renders letters as `A-Z` (a value `l` becomes the character `'A' + l`).
pub fn letters_to_string(letters: &[u8]) -> (r: String)
    requires
        forall|i: int| 0 <= i < letters@.len() ==> #[trigger] letters@[i] <= 190,
    ensures
        r@ == Seq::new(letters@.len(), |i: int| ((65 + letters@[i]) as u8) as char),
{
    let n = letters.len();
    let mut out = String::new();
    let mut i: usize = 0;
    while i < n
        invariant
            n == letters@.len(),
            i <= n,
            forall|j: int| 0 <= j < n ==> #[trigger] letters@[j] <= 190,
            out@ =~= Seq::new(i as nat, |j: int| ((65 + letters@[j]) as u8) as char),
        decreases n - i,
    {
        let c = (65u8 + letters[i]) as char;
        append_char(&mut out, c);
        i = i + 1;
    }
    out
}

/// The decimal digits of `n`, most significant first, as `Display` writes
/// an unsigned integer.
pub open spec fn decimal(n: nat) -> Seq<char>
    decreases n,
{
    if n < 10 {
        seq![((48 + n) as u8) as char]
    } else {
        decimal(n / 10).push(((48 + n % 10) as u8) as char)
    }
}

/// Appends the decimal digits of `n` to `s`.
pub(crate) fn append_decimal(s: &mut String, n: u128)
    ensures
        final(s)@ == old(s)@ + decimal(n as nat),
    decreases n,
{
    if n >= 10 {
        append_decimal(s, n / 10);
    }
    let digit = (48u8 + (n % 10) as u8) as char;
    let ghost before = s@;
    append_char(s, digit);
    proof {
        if n >= 10 {
            assert(s@ =~= old(s)@ + decimal(n as nat));
        } else {
            assert(s@ =~= old(s)@ + decimal(n as nat));
        }
    }
}

/// Reading letters back from their rendering gives the same letters: the
/// characters `'A' + l` are ASCII, so their UTF-8 bytes are the characters
/// themselves, and each is an upper-case letter.
pub proof fn lemma_letters_round_trip(letters: Seq<u8>)
    requires
        all_letters(letters),
    ensures
        letters_of_bytes(
            vstd::utf8::encode_utf8(Seq::new(letters.len(), |i: int| ((65 + letters[i]) as u8) as char)),
        ) == letters,
{
    let chars = Seq::new(letters.len(), |i: int| ((65 + letters[i]) as u8) as char);
    assert(vstd::utf8::is_ascii_chars(chars));
    vstd::utf8::is_ascii_chars_encode_utf8(chars);
    let bytes = vstd::utf8::encode_utf8(chars);
    assert forall|i: int| 0 <= i < bytes.len() implies #[trigger] bytes[i] == 65 + letters[i] by {
        assert(chars[i] as u8 == bytes[i]);
    }
    lemma_letters_of_upper(bytes, letters);
}

/// Bytes `0x41 + l` read back as the letters `l`.
proof fn lemma_letters_of_upper(bytes: Seq<u8>, letters: Seq<u8>)
    requires
        all_letters(letters),
        bytes.len() == letters.len(),
        forall|i: int| 0 <= i < bytes.len() ==> #[trigger] bytes[i] == 65 + letters[i],
    ensures
        letters_of_bytes(bytes) == letters,
    decreases bytes.len(),
{
    if bytes.len() > 0 {
        lemma_letters_of_upper(bytes.drop_last(), letters.drop_last());
        assert(bytes.last() == 65 + letters.last());
        assert(letters.drop_last().push(letters.last()) =~= letters);
    } else {
        assert(letters =~= Seq::empty());
    }
}

/// Appends a character to a `String` with `String::push`, trusted to leave
/// the old characters followed by `c`.
#[verifier::external_body]
pub(crate) fn append_char(s: &mut String, c: char)
    ensures
        final(s)@ == old(s)@.push(c),
{
    s.push(c)
}

/// A zero row total means every entry of the row is zero.
proof fn lemma_row_total_zero(counts: Seq<u32>, c: int, l: nat, j: int)
    requires
        row_total(counts, c, l) == 0,
        0 <= j < l,
    ensures
        counts[c * 26 + j] == 0,
    decreases l,
{
    if j < l - 1 {
        lemma_row_total_zero(counts, c, (l - 1) as nat, j);
    }
}

/// Occurrences of every n-gram of `letters`, saturating at `u32::MAX`.
fn count_ngrams(letters: &[u8], order: usize) -> (counts: Vec<u32>)
    requires
        all_letters(letters@),
        MIN_ORDER <= order <= MAX_ORDER,
        letters@.len() >= order,
    ensures
        counts@ == ngram_counts(letters@, order as nat),
{
    let ghost text = letters@;
    let ghost n = order as nat;
    let len = letters.len();
    let size = alphabet_power(order);
    let high = alphabet_power(order - 1);
    proof {
        lemma_alphabet_pow_values();
    }
    let mut counts: Vec<u32> = vec![0u32; size];
    let mut h = window_hash_at(letters, 0, order);
    counts[h] = 1;
    proof {
        assert forall|x: int| 0 <= x < size implies #[trigger] counts@[x] == hash_occurrences(
            text,
            n,
            x,
            1,
        ) by {
            assert(hash_occurrences(text, n, x, 0) == 0);
            assert(window_hash(text, 0, n) == h);
            if x != h {
                assert(counts@[x] == 0);
            }
        }
    }
    let mut i: usize = order;
    while i < len
        invariant
            text == letters@,
            n == order as nat,
            2 <= order <= 5,
            order <= i <= len == text.len(),
            all_letters(text),
            size == alphabet_pow(n),
            high == alphabet_pow((n - 1) as nat),
            counts@.len() == size,
            h == window_hash(text, i - order, n),
            forall|x: int|
                0 <= x < size ==> #[trigger] counts@[x] == if hash_occurrences(
                    text,
                    n,
                    x,
                    (i - order + 1) as nat,
                ) > u32::MAX {
                    u32::MAX
                } else {
                    hash_occurrences(text, n, x, (i - order + 1) as nat) as u32
                },
        decreases len - i,
    {
        proof {
            lemma_roll(text, i - order, n);
            lemma_window_hash_bound(text, i - order + 1, n);
            lemma_alphabet_pow_values();
            assert(text[i - order] * alphabet_pow((n - 1) as nat) == text[i - order as int] * high);
        }
        h = (h - letters[i - order] as usize * high) * ALPHABET + letters[i] as usize;
        counts[h] = counts[h].saturating_add(1);
        i = i + 1;
    }
    proof {
        assert(counts@ =~= ngram_counts(text, n));
    }
    counts
}

impl NgramModel {
    #[verifier::type_invariant]
    spec fn well_formed(self) -> bool {
        model_shape(self@)
    }

    /// Estimates `log P(last letter | previous order-1 letters)` from a corpus.
    ///
    /// Seen n-grams get their maximum-likelihood conditional probability.
    /// Every unseen n-gram gets one shared floor: the value of an n-gram seen
    /// half a time in the busiest context. `quantise(num, den)` is the
    /// quantised log-probability `round(1000 ln(num / den))`, clamped to
    /// `-32767..=0`.
    pub fn train<Q: Fn(u64, u64) -> i16>(letters: &[u8], order: usize, quantise: Q) -> (r: Result<
        Self,
        ModelError,
    >)
        requires
            all_letters(letters@),
            forall|a: u64, b: u64| #[trigger] quantise.requires((a, b)),
        ensures
            !(MIN_ORDER <= order <= MAX_ORDER) ==> r == Err::<Self, ModelError>(
                ModelError::BadOrder(order),
            ),
            MIN_ORDER <= order <= MAX_ORDER && letters@.len() < order ==> r == Err::<
                Self,
                ModelError,
            >(ModelError::CorpusTooShort { letters: letters@.len() as usize, order }),
            MIN_ORDER <= order <= MAX_ORDER && letters@.len() >= order ==> (r matches Ok(m) && m@.order
                == order && trained_from(m@, ngram_counts(letters@, order as nat), quantise)),
            quantiser_laws(quantise) ==> (r matches Ok(m) ==> i16::MIN < m@.floor < 0 && (m@.floor
                > -32767 ==> forall|w: int|
                0 <= w <= letters@.len() - order ==> #[trigger] m@.table[window_hash(
                    letters@,
                    w,
                    order as nat,
                ) as int] > m@.floor)),
    {
        if order < MIN_ORDER || order > MAX_ORDER {
            return Err(ModelError::BadOrder(order));
        }
        let len = letters.len();
        if len < order {
            return Err(ModelError::CorpusTooShort { letters: len, order });
        }
        let ghost text = letters@;
        let ghost n = order as nat;
        let counts = count_ngrams(letters, order);
        let size = counts.len();
        let contexts = alphabet_power(order - 1);
        proof {
            lemma_alphabet_pow_values();
            assert(size == contexts * 26);
        }
        // Occurrences of each context.
        let mut totals: Vec<u64> = Vec::new();
        let mut busiest: u64 = 0;
        let mut c: usize = 0;
        while c < contexts
            invariant
                counts@ == ngram_counts(text, n),
                size == counts@.len() == contexts * 26,
                contexts == alphabet_pow((n - 1) as nat),
                contexts <= 456976,
                c <= contexts,
                totals@.len() == c,
                forall|j: int| 0 <= j < c ==> #[trigger] totals@[j] == row_total(counts@, j, 26),
                busiest == max_row(counts@, c as nat),
                busiest <= 26 * 0xFFFF_FFFF,
            decreases contexts - c,
        {
            let mut t: u64 = 0;
            let mut l: usize = 0;
            while l < ALPHABET
                invariant
                    size == counts@.len() == contexts * 26,
                    c < contexts,
                    l <= 26,
                    t == row_total(counts@, c as int, l as nat),
                    t <= l * 0xFFFF_FFFF,
                decreases 26 - l,
            {
                t = t + counts[c * ALPHABET + l] as u64;
                l = l + 1;
            }
            totals.push(t);
            if t > busiest {
                busiest = t;
            }
            c = c + 1;
        }
        if busiest < 1 {
            busiest = 1;
        }
        let floor = quantise(1, 2 * busiest);
        let mut table: Vec<i16> = vec![floor; size];
        let mut c: usize = 0;
        while c < contexts
            invariant
                counts@ == ngram_counts(text, n),
                size == counts@.len() == table@.len() == contexts * 26,
                contexts <= 456976,
                c <= contexts,
                totals@.len() == contexts,
                forall|j: int| 0 <= j < contexts ==> #[trigger] totals@[j] == row_total(counts@, j, 26),
                forall|a: u64, b: u64| #[trigger] quantise.requires((a, b)),
                forall|h: int|
                    0 <= h < size ==> if counts@[h] == 0 || h >= c * 26 {
                        #[trigger] table@[h] == floor
                    } else {
                        call_ensures(
                            quantise,
                            (counts@[h] as u64, row_total(counts@, h / 26, 26) as u64),
                            table@[h],
                        )
                    },
            decreases contexts - c,
        {
            let total = totals[c];
            if total > 0 {
                let mut l: usize = 0;
                while l < ALPHABET
                    invariant
                        counts@ == ngram_counts(text, n),
                        size == counts@.len() == table@.len() == contexts * 26,
                        c < contexts,
                        contexts <= 456976,
                        l <= 26,
                        total == row_total(counts@, c as int, 26),
                        forall|a: u64, b: u64| #[trigger] quantise.requires((a, b)),
                        forall|h: int|
                            0 <= h < size ==> if counts@[h] == 0 || h >= c * 26 + l {
                                #[trigger] table@[h] == floor
                            } else {
                                call_ensures(
                                    quantise,
                                    (counts@[h] as u64, row_total(counts@, h / 26, 26) as u64),
                                    table@[h],
                                )
                            },
                    decreases 26 - l,
                {
                    let count = counts[c * ALPHABET + l];
                    if count > 0 {
                        let v = quantise(count as u64, total);
                        proof {
                            assert((c * 26 + l) / 26 == c) by (nonlinear_arith)
                                requires
                                    l < 26,
                            {}
                        }
                        table[c * ALPHABET + l] = v;
                    }
                    l = l + 1;
                }
            } else {
                proof {
                    assert forall|h: int| c * 26 <= h < c * 26 + 26 implies counts@[h] == 0 by {
                        lemma_row_total_zero(counts@, c as int, 26, h - c * 26);
                    }
                }
            }
            c = c + 1;
        }
        proof {
            assert(busiest_total(counts@, n) == busiest);
        }
        let m = NgramModel { order, table, floor };
        proof {
            if quantiser_laws(quantise) {
                assert(trained_from(m@, ngram_counts(text, n), quantise));
                lemma_floor_below_seen(m@, text, quantise);
            }
        }
        Ok(m)
    }

    /// Appends the stored form of the model to `out`. Writing to memory
    /// cannot fail.
    pub fn write_to(&self, out: &mut Vec<u8>) -> (r: Result<(), ModelError>)
        ensures
            r is Ok,
            final(out)@ == old(out)@ + model_bytes(self@),
            final(out)@[old(out)@.len() + 6int] as int + 256 * final(out)@[old(out)@.len() + 7int] as int
                == self@.floor as u16 as int,
            forall|i: int|
                0 <= i < self@.table.len() ==> final(out)@[old(out)@.len() + 8 + 2 * i] as int + 256
                    * final(out)@[old(out)@.len() + 9 + 2 * i] as int == #[trigger] self@.table[i]
                    as u16 as int,
    {
        proof {
            use_type_invariant(self);
        }
        let ghost start = out@;
        out.push(0x48u8);
        out.push(0x50u8);
        out.push(0x48u8);
        out.push(0x4Du8);
        out.push(MODEL_VERSION);
        out.push(self.order as u8);
        out.push(low_byte(self.floor));
        out.push(high_byte(self.floor));
        let ghost header = out@;
        proof {
            assert(header =~= start + model_magic() + seq![
                MODEL_VERSION,
                self.order as u8,
                i16_low(self.floor),
                i16_high(self.floor),
            ]);
        }
        let n = self.table.len();
        let mut i: usize = 0;
        while i < n
            invariant
                n == self.table@.len(),
                i <= n,
                out@.len() == header.len() + 2 * i,
                out@.subrange(0, header.len() as int) == header,
                forall|j: int|
                    0 <= j < 2 * i ==> #[trigger] out@[header.len() + j] == if j % 2 == 0 {
                        i16_low(self.table@[j / 2])
                    } else {
                        i16_high(self.table@[j / 2])
                    },
            decreases n - i,
        {
            let v = self.table[i];
            let ghost before = out@;
            out.push(low_byte(v));
            out.push(high_byte(v));
            proof {
                assert(out@.subrange(0, header.len() as int) =~= before.subrange(
                    0,
                    header.len() as int,
                ));
                assert forall|j: int| 0 <= j < 2 * (i + 1) implies #[trigger] out@[header.len() + j]
                    == if j % 2 == 0 {
                    i16_low(self.table@[j / 2])
                } else {
                    i16_high(self.table@[j / 2])
                } by {
                    if j < 2 * i {
                        assert(out@[header.len() + j] == before[header.len() + j]);
                    } else if j == 2 * i {
                        assert(j % 2 == 0 && j / 2 == i) by (nonlinear_arith)
                            requires
                                j == 2 * i,
                        {}
                    } else {
                        assert(j % 2 == 1 && j / 2 == i) by (nonlinear_arith)
                            requires
                                j == 2 * i + 1,
                        {}
                    }
                }
            }
            i = i + 1;
        }
        proof {
            let body = Seq::new(
                2 * self.table@.len(),
                |j: int|
                    if j % 2 == 0 {
                        i16_low(self.table@[j / 2])
                    } else {
                        i16_high(self.table@[j / 2])
                    },
            );
            assert(out@ =~= header + body) by {
                assert forall|k: int| 0 <= k < out@.len() implies out@[k] == (header + body)[k] by {
                    if k < header.len() {
                        assert(out@[k] == out@.subrange(0, header.len() as int)[k]);
                    } else {
                        assert(out@[header.len() + (k - header.len())] == body[k - header.len()]);
                    }
                }
            }
            assert(model_bytes(self@) =~= model_magic() + seq![
                MODEL_VERSION,
                self.order as u8,
                i16_low(self.floor),
                i16_high(self.floor),
            ] + body);
            assert(out@ =~= start + model_bytes(self@));
            lemma_stored_form_is_little_endian(self@);
            assert forall|i: int| 0 <= i < self@.table.len() implies out@[start.len() + 8 + 2 * i]
                as int + 256 * out@[start.len() + 9 + 2 * i] as int == #[trigger] self@.table[i]
                as u16 as int by {
                assert(out@[start.len() + 8 + 2 * i] == model_bytes(self@)[8 + 2 * i]);
                assert(out@[start.len() + 9 + 2 * i] == model_bytes(self@)[9 + 2 * i]);
            }
        }
        Ok(())
    }

    /// Reads a model from its stored form.
    pub fn read_from(bytes: &[u8]) -> (r: Result<Self, ModelError>)
        ensures
            !has_magic(bytes@) ==> (r matches Err(ModelError::Format(e)) && e@ == "missing HPHM header"@),
            has_magic(bytes@) && bytes@[4] != MODEL_VERSION ==> (r matches Err(ModelError::Format(e))
                && e@ == "unsupported version "@ + decimal(bytes@[4] as nat)),
            has_magic(bytes@) && bytes@[4] == MODEL_VERSION && !(MIN_ORDER <= bytes@[5]
                <= MAX_ORDER) ==> r == Err::<Self, ModelError>(
                ModelError::BadOrder(bytes@[5] as usize),
            ),
            has_magic(bytes@) && bytes@[4] == MODEL_VERSION && MIN_ORDER <= bytes@[5] <= MAX_ORDER
                && !valid_model_bytes(bytes@) ==> (r matches Err(ModelError::Format(e)) && e@
                == "expected "@ + decimal(2 * alphabet_pow(bytes@[5] as nat)) + " table bytes for order "@
                + decimal(bytes@[5] as nat) + ", found "@ + decimal((bytes@.len() - 8) as nat)),
            valid_model_bytes(bytes@) ==> (r matches Ok(m) && m@ == model_from_bytes(bytes@)),
            r matches Ok(m) ==> m@.floor as u16 as int == bytes@[6] as int + 256 * bytes@[7] as int
                && forall|i: int|
                0 <= i < m@.table.len() ==> #[trigger] m@.table[i] as u16 as int == bytes@[8 + 2 * i]
                    as int + 256 * bytes@[9 + 2 * i] as int,
    {
        proof {
            if valid_model_bytes(bytes@) {
                lemma_read_is_little_endian(bytes@);
            }
        }
        let len = bytes.len();
        if len < 8 || bytes[0] != 0x48u8 || bytes[1] != 0x50u8 || bytes[2] != 0x48u8 || bytes[3]
            != 0x4Du8 {
            proof {
                if len >= 8 {
                    assert(bytes@.subrange(0, 4) != model_magic()) by {
                        if bytes@.subrange(0, 4) == model_magic() {
                            assert(bytes@.subrange(0, 4)[0] == bytes@[0]);
                            assert(bytes@.subrange(0, 4)[1] == bytes@[1]);
                            assert(bytes@.subrange(0, 4)[2] == bytes@[2]);
                            assert(bytes@.subrange(0, 4)[3] == bytes@[3]);
                        }
                    }
                }
            }
            return Err(ModelError::Format(owned_text("missing HPHM header")));
        }
        proof {
            assert(bytes@.subrange(0, 4) =~= model_magic());
        }
        if bytes[4] != MODEL_VERSION {
            let mut msg = owned_text("unsupported version ");
            append_decimal(&mut msg, bytes[4] as u128);
            return Err(ModelError::Format(msg));
        }
        let order = bytes[5] as usize;
        if order < MIN_ORDER || order > MAX_ORDER {
            return Err(ModelError::BadOrder(order));
        }
        let floor = from_bytes(bytes[6], bytes[7]);
        let size = alphabet_power(order);
        proof {
            lemma_alphabet_pow_values();
        }
        if len - 8 != size * 2 {
            let mut msg = owned_text("expected ");
            append_decimal(&mut msg, (size * 2) as u128);
            append_text(&mut msg, " table bytes for order ");
            append_decimal(&mut msg, order as u128);
            append_text(&mut msg, ", found ");
            append_decimal(&mut msg, (len - 8) as u128);
            return Err(ModelError::Format(msg));
        }
        let mut table: Vec<i16> = Vec::new();
        let mut i: usize = 0;
        while i < size
            invariant
                len == bytes@.len() == 8 + 2 * size,
                i <= size,
                size == alphabet_pow(order as nat),
                size <= 11881376,
                table@.len() == i,
                forall|j: int|
                    0 <= j < i ==> #[trigger] table@[j] == i16_from_bytes(
                        bytes@[8 + 2 * j],
                        bytes@[9 + 2 * j],
                    ),
            decreases size - i,
        {
            table.push(from_bytes(bytes[8 + 2 * i], bytes[9 + 2 * i]));
            i = i + 1;
        }
        proof {
            assert(table@ =~= model_from_bytes(bytes@).table);
        }
        Ok(NgramModel { order, table, floor })
    }

    /// Samples text from the model, after a burn-in so the random starting
    /// context does not bias the output. `pick(model, context, draw)` chooses
    /// the letter that follows `context` from one 64-bit draw.
    pub fn sample<P: Fn(&NgramModel, usize, u64) -> usize>(
        &self,
        len: usize,
        rng: &mut Rng,
        pick: P,
    ) -> (r: Vec<u8>)
        requires
            len + BURN_IN + MAX_ORDER <= usize::MAX,
            forall|m: &NgramModel, c: usize, d: u64| #[trigger] pick.requires((m, c, d)),
            forall|m: &NgramModel, c: usize, d: u64, x: usize|
                #[trigger] call_ensures(pick, (m, c, d), x) ==> x < 26,
        ensures
            r@.len() == len,
            all_letters(r@),
            exists|full: Seq<u8>|
                {
                    &&& full.len() == len + BURN_IN + self@.order - 1
                    &&& sampled(self, old(rng)@, full, pick)
                    &&& r@ == full.subrange(BURN_IN + self@.order - 1, full.len() as int)
                    &&& pick_follows_model(pick) ==> follows_model(self@, old(rng)@, full)
                },
            final(rng)@ == xoshiro_advance(old(rng)@, (len + BURN_IN + self@.order - 1) as nat),
    {
        proof {
            use_type_invariant(self);
        }
        let ghost s0 = rng@;
        let k = self.order - 1;
        let total = len + BURN_IN + k;
        let mut out: Vec<u8> = Vec::new();
        let mut i: usize = 0;
        while i < k
            invariant
                k == self@.order - 1,
                1 <= k <= 4,
                i <= k,
                out@.len() == i,
                all_letters(out@),
                rng@ == xoshiro_advance(s0, i as nat),
                forall|j: int|
                    0 <= j < i ==> #[trigger] out@[j] as int == scale_below(
                        xoshiro_output(xoshiro_advance(s0, j as nat)),
                        26,
                    ),
            decreases k - i,
        {
            let l = rng.below(ALPHABET);
            out.push(l as u8);
            i = i + 1;
        }
        while out.len() < total
            invariant
                k == self@.order - 1,
                1 <= k <= 4,
                total == len + BURN_IN + k,
                k <= out@.len() <= total,
                all_letters(out@),
                rng@ == xoshiro_advance(s0, out@.len() as nat),
                forall|m: &NgramModel, c: usize, d: u64| #[trigger] pick.requires((m, c, d)),
                forall|m: &NgramModel, c: usize, d: u64, x: usize|
                    #[trigger] call_ensures(pick, (m, c, d), x) ==> x < 26,
                sampled(self, s0, out@, pick),
            decreases total - out@.len(),
        {
            let p = out.len();
            let ctx = window_hash_at(out.as_slice(), p - k, k);
            let draw = rng.next_u64();
            let l = pick(self, ctx, draw);
            let ghost before = out@;
            out.push(l as u8);
            proof {
                assert(out@.subrange(p - k, p as int) =~= before.subrange(p - k, p as int));
                assert forall|j: int| 0 <= j < out@.len() && j < k implies #[trigger] out@[j] as int
                    == scale_below(xoshiro_output(xoshiro_advance(s0, j as nat)), 26) by {
                    assert(out@[j] == before[j]);
                }
                assert forall|j: int| k <= j < out@.len() implies call_ensures(
                    pick,
                    (
                        self,
                        window_hash(out@, j - k, k as nat) as usize,
                        xoshiro_output(xoshiro_advance(s0, j as nat)),
                    ),
                    #[trigger] out@[j] as usize,
                ) by {
                    if j < p {
                        assert(out@[j] == before[j]);
                        assert(out@.subrange(j - k, j) =~= before.subrange(j - k, j));
                    }
                }
            }
        }
        let ghost full = out@;
        proof {
            if pick_follows_model(pick) {
                lemma_sampled_follows_model(self, s0, full, pick);
            }
        }
        let tail = out.split_off(BURN_IN + k);
        proof {
            assert(all_letters(tail@)) by {
                assert forall|j: int| 0 <= j < tail@.len() implies #[trigger] tail@[j] < 26 by {
                    assert(tail@[j] == full[BURN_IN + k + j]);
                }
            }
        }
        tail
    }

    pub fn order(&self) -> (r: usize)
        ensures
            r == self@.order,
            MIN_ORDER <= r <= MAX_ORDER,
            self@.table.len() == alphabet_pow(r as nat),
    {
        proof {
            use_type_invariant(self);
        }
        self.order
    }

    /// Score given to every n-gram absent from the training corpus.
    pub fn floor(&self) -> (r: i16)
        ensures
            r == self@.floor,
    {
        self.floor
    }

    pub fn table(&self) -> (r: &[i16])
        ensures
            r@ == self@.table,
    {
        self.table.as_slice()
    }

    /// Log-probability (millinats) of one n-gram given as letters `0..26`.
    pub fn ngram_score(&self, ngram: &[u8]) -> (r: i16)
        requires
            ngram@.len() == self@.order,
            all_letters(ngram@),
        ensures
            r == self@.table[hash_letters(ngram@) as int],
    {
        proof {
            use_type_invariant(self);
        }
        let n = ngram.len();
        let mut h: usize = 0;
        let mut i: usize = 0;
        while i < n
            invariant
                n == ngram@.len(),
                n <= 5,
                all_letters(ngram@),
                i <= n,
                h == hash_letters(ngram@.subrange(0, i as int)),
                h < alphabet_pow(i as nat),
            decreases n - i,
        {
            proof {
                lemma_hash_push(ngram@, i as int);
                lemma_alphabet_pow_values();
                assert(alphabet_pow(i as nat) <= 456976) by {
                    lemma_alphabet_pow_values();
                }
            }
            h = h * 26 + ngram[i] as usize;
            i = i + 1;
        }
        proof {
            assert(ngram@.subrange(0, n as int) =~= ngram@);
        }
        self.table[h]
    }

    /// Sum of every window's score, computed from scratch with a rolling hash.
    /// Text shorter than the order has no windows and scores 0.
    pub fn score_text(&self, letters: &[u8]) -> (r: i64)
        requires
            all_letters(letters@),
            letters@.len() <= MAX_SCORED_LEN,
        ensures
            r == text_score(self@.table, letters@, self@.order),
    {
        proof {
            use_type_invariant(self);
        }
        let n = self.order;
        let len = letters.len();
        if len < n {
            return 0;
        }
        let high = alphabet_power(n - 1);
        let mut h: usize = 0;
        let mut i: usize = 0;
        while i < n
            invariant
                n == self@.order,
                2 <= n <= 5,
                n <= len == letters@.len(),
                all_letters(letters@),
                i <= n,
                h == hash_letters(letters@.subrange(0, i as int)),
                h < alphabet_pow(i as nat),
            decreases n - i,
        {
            proof {
                lemma_hash_push(letters@, i as int);
                lemma_alphabet_pow_values();
            }
            h = h * 26 + letters[i] as usize;
            i = i + 1;
        }
        proof {
            assert(letters@.subrange(0, n as int) =~= letters@.subrange(0, 0 + n));
            lemma_alphabet_pow_values();
            assert(windows_sum(self@.table, letters@, n as nat, 0) == 0);
        }
        let mut total: i64 = self.table[h] as i64;
        assert(total == windows_sum(self@.table, letters@, n as nat, 1));
        let mut i: usize = n;
        while i < len
            invariant
                n == self@.order,
                2 <= n <= 5,
                n <= i <= len == letters@.len(),
                len <= MAX_SCORED_LEN,
                all_letters(letters@),
                high == alphabet_pow((n - 1) as nat),
                self@.table.len() == alphabet_pow(n as nat),
                h == window_hash(letters@, i - n, n as nat),
                total == windows_sum(self@.table, letters@, n as nat, (i - n + 1) as nat),
            decreases len - i,
        {
            proof {
                lemma_roll(letters@, i - n, n as nat);
                lemma_window_hash_bound(letters@, i - n, n as nat);
                lemma_window_hash_bound(letters@, i - n + 1, n as nat);
                lemma_windows_sum_bound(self@.table, letters@, n as nat, (i - n + 1) as nat);
                lemma_alphabet_pow_values();
                assert(letters@[i - n] * alphabet_pow((n - 1) as nat) == letters@[i - n as int]
                    * high);
            }
            h = (h - letters[i - n] as usize * high) * 26 + letters[i] as usize;
            total = total + self.table[h] as i64;
            i = i + 1;
        }
        total
    }
}

} // verus!
