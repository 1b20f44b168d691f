//! Datastream marker detection: find how many characters must be consumed
//! before the last `n` of them are pairwise distinct.
use vstd::prelude::*;

verus! {

/// The characters of `s` at positions `lo..hi` are pairwise distinct.
pub open spec fn distinct_window(s: Seq<char>, lo: int, hi: int) -> bool {
    forall|p: int, q: int| lo <= p < q < hi ==> (#[trigger] s[p]) != (#[trigger] s[q])
}

fn window_distinct(datastream: &[char], lo: usize, hi: usize) -> (b: bool)
    requires
        lo <= hi <= datastream@.len(),
    ensures
        b == distinct_window(datastream@, lo as int, hi as int),
{
    for p in lo..hi
        invariant
            lo <= hi <= datastream@.len(),
            forall|a: int, b: int|
                lo <= a < p && a < b < hi ==> (#[trigger] datastream@[a]) != (
                #[trigger] datastream@[b]),
    {
        for q in p + 1..hi
            invariant
                lo <= p < hi <= datastream@.len(),
                forall|a: int, b: int|
                    lo <= a < p && a < b < hi ==> (#[trigger] datastream@[a]) != (
                    #[trigger] datastream@[b]),
                forall|b: int| p < b < q ==> datastream@[p as int] != (#[trigger] datastream@[b]),
        {
            if datastream[p] == datastream[q] {
                proof {
                    assert(!distinct_window(datastream@, lo as int, hi as int));
                }
                return false;
            }
        }
    }
    true
}

/// The last `n` of the first `i` characters are pairwise distinct: a marker
/// completes after `i` characters have been consumed.
pub open spec fn marker_at(s: Seq<char>, n: int, i: int) -> bool {
    distinct_window(s, i - n, i)
}

/// The number of characters consumed when the first run of `n` pairwise
/// distinct characters completes: the least `i` such that positions
/// `i - n .. i` are pairwise distinct. Some such run must exist in the
/// stream.
pub fn solve(datastream: &[char], n: usize) -> (r: usize)
    requires
        exists|i: int| n <= i <= datastream@.len() && #[trigger] marker_at(datastream@, n as int, i),
    ensures
        n <= r <= datastream@.len(),
        marker_at(datastream@, n as int, r as int),
        forall|i: int| n <= i < r ==> !#[trigger] marker_at(datastream@, n as int, i),
{
    let ghost w = choose|i: int|
        n <= i <= datastream@.len() && #[trigger] marker_at(datastream@, n as int, i);
    let stream_len = datastream.len();
    let mut i = n;
    loop
        invariant
            n <= i,
            stream_len == datastream@.len(),
            i <= w <= stream_len,
            marker_at(datastream@, n as int, w),
            forall|k: int| n <= k < i ==> !#[trigger] marker_at(datastream@, n as int, k),
        decreases datastream@.len() - i,
    {
        if window_distinct(datastream, i - n, i) {
            return i;
        }
        proof {
            assert(!marker_at(datastream@, n as int, i as int));
            assert(i < w);
        }
        i = i + 1;
    }
}

} // verus!
