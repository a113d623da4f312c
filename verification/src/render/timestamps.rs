//! GPU timestamp arithmetic: the raw query buffer holds a begin and an end
//! tick per pass. The spans are computed here in ticks; the caller scales
//! them by the queue's timestamp period.

use vstd::prelude::*;

verus! {

/// Span of pass `i` in `ticks`: end minus begin, when the end lies after
/// the begin (an unwritten pass or a bad sample gives none).
pub open spec fn pass_span(ticks: Seq<u64>, i: int) -> Option<u64> {
    if ticks[2 * i + 1] > ticks[2 * i] {
        Some((ticks[2 * i + 1] - ticks[2 * i]) as u64)
    } else {
        None
    }
}

/// Pass `i` ran this frame: both ticks written (non-zero), end after begin.
pub open spec fn pass_ran(ticks: Seq<u64>, i: int) -> bool {
    ticks[2 * i] != 0 && ticks[2 * i + 1] != 0 && ticks[2 * i + 1] > ticks[2 * i]
}

/// Some pass among the first `n` ran.
pub open spec fn any_ran(ticks: Seq<u64>, n: int) -> bool {
    exists|i: int| 0 <= i < n && #[trigger] pass_ran(ticks, i)
}

/// Earliest begin among the passes below `n` that ran (`u64::MAX` if none).
pub open spec fn first_begin(ticks: Seq<u64>, n: int) -> u64
    decreases n,
{
    if n <= 0 {
        u64::MAX
    } else if pass_ran(ticks, n - 1) && ticks[2 * (n - 1)] < first_begin(ticks, n - 1) {
        ticks[2 * (n - 1)]
    } else {
        first_begin(ticks, n - 1)
    }
}

/// Latest end among the passes below `n` that ran (0 if none).
pub open spec fn last_end(ticks: Seq<u64>, n: int) -> u64
    decreases n,
{
    if n <= 0 {
        0
    } else if pass_ran(ticks, n - 1) && ticks[2 * (n - 1) + 1] > last_end(ticks, n - 1) {
        ticks[2 * (n - 1) + 1]
    } else {
        last_end(ticks, n - 1)
    }
}

/// Per-pass spans of a begin/end tick buffer, one per complete pair.
pub fn pass_ticks(ticks: &[u64]) -> (r: Vec<Option<u64>>)
    ensures
        r@.len() == ticks@.len() / 2,
        forall|i: int| 0 <= i < r@.len() ==> #[trigger] r@[i] == pass_span(ticks@, i),
{
    let len = ticks.len();
    let n = len / 2;
    let mut r: Vec<Option<u64>> = Vec::new();
    let mut i: usize = 0;
    while i < n
        invariant
            len == ticks@.len(),
            n == len / 2,
            2 * n <= len,
            i <= n,
            r@.len() == i,
            forall|j: int| 0 <= j < i ==> #[trigger] r@[j] == pass_span(ticks@, j),
        decreases n - i,
    {
        let at: usize = i + i;
        let begin = ticks[at];
        let end = ticks[at + 1];
        if end > begin {
            r.push(Some(end - begin));
        } else {
            r.push(None);
        }
        i = i + 1;
    }
    r
}

proof fn lemma_ran_bounds(ticks: Seq<u64>, n: int)
    requires
        0 <= n,
        2 * n <= ticks.len(),
    ensures
        any_ran(ticks, n) ==> last_end(ticks, n) > first_begin(ticks, n) && last_end(ticks, n) > 0,
        !any_ran(ticks, n) ==> last_end(ticks, n) == 0 && first_begin(ticks, n) == u64::MAX,
        forall|i: int| 0 <= i < n && #[trigger] pass_ran(ticks, i) ==> first_begin(ticks, n) <= ticks[2 * i]
            && ticks[2 * i + 1] <= last_end(ticks, n),
    decreases n,
{
    if n > 0 {
        lemma_ran_bounds(ticks, n - 1);
        if any_ran(ticks, n - 1) {
            let i = choose|i: int| 0 <= i < n - 1 && #[trigger] pass_ran(ticks, i);
            assert(pass_ran(ticks, i));
        }
        if any_ran(ticks, n) && !pass_ran(ticks, n - 1) {
            let i = choose|i: int| 0 <= i < n && #[trigger] pass_ran(ticks, i);
            assert(any_ran(ticks, n - 1));
        }
    }
}

/// Whole-frame span: the latest end minus the earliest begin over the passes
/// that ran. Passes pipeline on tile-based GPUs, so summing their spans
/// overcounts; this is the wall-clock. `None` when no pass ran.
pub fn frame_wall_ticks(ticks: &[u64]) -> (r: Option<u64>)
    ensures
        r is Some <==> any_ran(ticks@, (ticks@.len() / 2) as int),
        r matches Some(d) ==> d == last_end(ticks@, (ticks@.len() / 2) as int) - first_begin(ticks@, (ticks@.len() / 2) as int),
{
    let len = ticks.len();
    let n = len / 2;
    let mut min_begin: u64 = u64::MAX;
    let mut max_end: u64 = 0;
    let mut i: usize = 0;
    while i < n
        invariant
            len == ticks@.len(),
            n == len / 2,
            2 * n <= len,
            i <= n,
            min_begin == first_begin(ticks@, i as int),
            max_end == last_end(ticks@, i as int),
        decreases n - i,
    {
        let at: usize = i + i;
        let begin = ticks[at];
        let end = ticks[at + 1];
        if begin != 0 && end != 0 && end > begin {
            if begin < min_begin {
                min_begin = begin;
            }
            if end > max_end {
                max_end = end;
            }
        }
        i = i + 1;
    }
    proof {
        lemma_ran_bounds(ticks@, n as int);
    }
    if max_end == 0 {
        return None;
    }
    Some(max_end - min_begin)
}

/// A pass that ran lies inside the frame: its span is at most the frame's
/// wall-clock span.
pub proof fn lemma_pass_within_frame(ticks: Seq<u64>, i: int)
    requires
        0 <= i < ticks.len() / 2,
        pass_ran(ticks, i),
    ensures
        pass_span(ticks, i) matches Some(d) && d <= last_end(ticks, (ticks.len() / 2) as int) - first_begin(
            ticks,
            (ticks.len() / 2) as int,
        ),
{
    lemma_ran_bounds(ticks, (ticks.len() / 2) as int);
}

} // verus!
