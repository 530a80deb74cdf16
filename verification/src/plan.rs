//! The integer plan of a unicity measurement: which lengths are measured,
//! and the generator stream and solver seed of each trial.
use vstd::prelude::*;
use crate::model::owned_text;
use crate::rng::rotl;

verus! {

/// `s` is strictly increasing.
pub open spec fn strictly_increasing(s: Seq<usize>) -> bool {
    forall|i: int, j: int| 0 <= i < j < s.len() ==> #[trigger] s[i] < #[trigger] s[j]
}

/// The lengths to measure: `lengths` sorted, each once. A measurement needs
/// at least one length, one symbol count and one trial.
pub fn measured_lengths(lengths: &[usize], symbol_counts: usize, trials: usize) -> (r: Result<
    Vec<usize>,
    String,
>)
    ensures
        r is Err <==> lengths@.len() == 0 || symbol_counts == 0 || trials == 0,
        r matches Err(e) ==> e@ == "unicity needs at least one length, one symbol count and one trial"@,
        r matches Ok(v) ==> strictly_increasing(v@) && forall|x: usize| #[trigger] v@.contains(x)
            <==> lengths@.contains(x),
{
    if lengths.len() == 0 || symbol_counts == 0 || trials == 0 {
        return Err(owned_text("unicity needs at least one length, one symbol count and one trial"));
    }
    let n = lengths.len();
    let mut out: Vec<usize> = Vec::new();
    let mut i: usize = 0;
    while i < n
        invariant
            n == lengths@.len(),
            i <= n,
            strictly_increasing(out@),
            forall|x: usize| #[trigger] out@.contains(x) <==> lengths@.subrange(0, i as int).contains(x),
        decreases n - i,
    {
        let x = lengths[i];
        let m = out.len();
        let mut p: usize = 0;
        while p < m && out[p] < x
            invariant
                m == out@.len(),
                p <= m,
                forall|q: int| 0 <= q < p ==> #[trigger] out@[q] < x,
            decreases m - p,
        {
            p = p + 1;
        }
        let ghost before = out@;
        let ghost pre = lengths@.subrange(0, i as int);
        proof {
            assert(lengths@.subrange(0, i + 1) =~= pre.push(x));
        }
        if p < m && out[p] == x {
            proof {
                assert forall|y: usize| #[trigger] out@.contains(y) <==> pre.push(x).contains(y) by {
                    if y == x {
                        assert(out@[p as int] == x);
                    }
                    if pre.push(x).contains(y) && y != x {
                        let j = choose|j: int| 0 <= j < pre.push(x).len() && pre.push(x)[j] == y;
                        assert(pre[j] == y);
                    }
                    if pre.contains(y) {
                        let j = choose|j: int| 0 <= j < pre.len() && pre[j] == y;
                        assert(pre.push(x)[j] == y);
                    }
                }
            }
        } else {
            out.insert(p, x);
            proof {
                assert forall|a: int, b: int| 0 <= a < b < out@.len() implies #[trigger] out@[a]
                    < #[trigger] out@[b] by {
                    if b < p {
                        assert(out@[a] == before[a] && out@[b] == before[b]);
                    } else if b == p {
                        assert(out@[a] == before[a]);
                    } else if a < p {
                        assert(out@[a] == before[a] && out@[b] == before[b - 1]);
                        if p < m {
                            assert(before[p as int] > x);
                            if b - 1 > p {
                                assert(before[p as int] < before[b - 1]);
                            }
                        }
                    } else if a == p {
                        assert(out@[b] == before[b - 1]);
                        assert(before[p as int] >= x);
                        if b - 1 > p {
                            assert(before[p as int] < before[b - 1]);
                        }
                    } else {
                        assert(out@[a] == before[a - 1] && out@[b] == before[b - 1]);
                    }
                }
                assert forall|y: usize| #[trigger] out@.contains(y) <==> pre.push(x).contains(y) by {
                    if out@.contains(y) {
                        let j = choose|j: int| 0 <= j < out@.len() && out@[j] == y;
                        if j < p {
                            assert(before.contains(y) && before[j] == y);
                        } else if j > p {
                            assert(before[j - 1] == y);
                            assert(before.contains(y));
                        }
                        if y != x {
                            assert(pre.contains(y));
                            let k = choose|k: int| 0 <= k < pre.len() && pre[k] == y;
                            assert(pre.push(x)[k] == y);
                        } else {
                            assert(pre.push(x)[pre.len() as int] == x);
                        }
                    }
                    if pre.push(x).contains(y) {
                        let j = choose|j: int| 0 <= j < pre.push(x).len() && pre.push(x)[j] == y;
                        if y == x {
                            assert(out@[p as int] == x);
                        } else {
                            assert(pre[j] == y);
                            assert(pre.contains(y));
                            assert(before.contains(y));
                            let k = choose|k: int| 0 <= k < before.len() && before[k] == y;
                            if k < p {
                                assert(out@[k] == y);
                            } else {
                                assert(out@[k + 1] == y);
                            }
                        }
                    }
                }
            }
        }
        i = i + 1;
    }
    proof {
        assert(lengths@.subrange(0, n as int) =~= lengths@);
    }
    Ok(out)
}

/// The generator stream of trial `trial` for a symbol count: the count in
/// the high 32 bits, the trial in the low ones.
pub fn trial_stream(symbols: u64, trial: u64) -> (r: u64)
    ensures
        r == (symbols << 32u64) | trial,
{
    (symbols << 32u64) | trial
}

/// The solver seed of one measured prefix of a trial.
pub fn trial_seed(seed: u64, stream: u64, len: u64) -> (r: u64)
    ensures
        r == seed ^ rotl(stream, 8) ^ len,
{
    seed ^ ((stream << 8u64) | (stream >> 56u64)) ^ len
}

} // verus!
