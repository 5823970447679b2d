//! The spread of a set of repeated timings, kept rather than averaged away.

use vstd::prelude::*;
use vstd::relations::{sorted_by, total_ordering};

verus! {

/// Best, median and worst of a set of repeats, in nanoseconds.
#[derive(Debug, Clone, Copy, PartialEq, Eq, Structural)]
pub struct Stats {
    /// Fastest repeat. Closest to the machine's capability.
    pub best: u128,
    /// Reported figure. Robust to a single stalled repeat.
    pub median: u128,
    /// Slowest repeat. With `best`, this is the spread.
    pub worst: u128,
}

/// Ascending order on durations in nanoseconds.
pub open spec fn ascending() -> spec_fn(u128, u128) -> bool {
    |a: u128, b: u128| a <= b
}

/// The repeats in ascending order.
pub open spec fn sorted_repeats(d: Seq<u128>) -> Seq<u128> {
    d.sort_by(ascending())
}

/// What `Stats::from` computes: the first, middle (index `len / 2`) and last
/// of the sorted repeats, or all zero when there are none.
pub open spec fn stats_of(d: Seq<u128>) -> Stats {
    let s = sorted_repeats(d);
    if d.len() == 0 {
        Stats { best: 0, median: 0, worst: 0 }
    } else {
        Stats { best: s[0], median: s[(d.len() / 2) as int], worst: s[d.len() - 1] }
    }
}

proof fn lemma_ascending_total()
    ensures
        total_ordering(ascending()),
{
}

/// The sorted repeats hold the same values as the repeats, in order.
proof fn lemma_sorted_repeats(d: Seq<u128>)
    ensures
        sorted_by(sorted_repeats(d), ascending()),
        sorted_repeats(d).to_multiset() == d.to_multiset(),
        sorted_repeats(d).len() == d.len(),
{
    lemma_ascending_total();
    d.lemma_sort_by_ensures(ascending());
    vstd::seq_lib::to_multiset_len(d);
    vstd::seq_lib::to_multiset_len(sorted_repeats(d));
}

/// Sorts `d` ascending by insertion.
fn sort_ascending(d: &Vec<u128>) -> (r: Vec<u128>)
    ensures
        r@ == sorted_repeats(d@),
{
    let mut r: Vec<u128> = Vec::new();
    let mut i: usize = 0;
    assert(d@.take(0) =~= r@);
    while i < d.len()
        invariant
            i <= d@.len(),
            sorted_by(r@, ascending()),
            r@.to_multiset() == d@.take(i as int).to_multiset(),
        decreases d.len() - i,
    {
        let x = d[i];
        let mut pos: usize = 0;
        while pos < r.len() && r[pos] <= x
            invariant
                pos <= r@.len(),
                forall|k: int| 0 <= k < pos ==> r@[k] <= x,
            decreases r.len() - pos,
        {
            pos = pos + 1;
        }
        let ghost old_r = r@;
        r.insert(pos, x);
        proof {
            assert forall|a: int, b: int| 0 <= a < b < r@.len() implies #[trigger] (ascending())(
                r@[a],
                r@[b],
            ) by {
                assert(sorted_by(old_r, ascending()));
                if b < pos {
                    assert((ascending())(old_r[a], old_r[b]));
                } else if b == pos {
                } else if a < pos {
                    assert((ascending())(old_r[a], old_r[b - 1]));
                } else if a == pos {
                    assert((ascending())(old_r[pos as int], old_r[b - 1]));
                } else {
                    assert((ascending())(old_r[a - 1], old_r[b - 1]));
                }
            }
            vstd::seq_lib::to_multiset_insert(old_r, pos as int, x);
            assert(d@.take(i + 1) =~= d@.take(i as int).push(x));
            vstd::seq_lib::to_multiset_build(d@.take(i as int), x);
        }
        i = i + 1;
    }
    proof {
        assert(d@.take(i as int) =~= d@);
        lemma_sorted_repeats(d@);
        lemma_ascending_total();
        vstd::seq_lib::lemma_sorted_unique(r@, sorted_repeats(d@), ascending());
    }
    r
}

/// Reordering the repeats does not change their statistics.
pub proof fn lemma_stats_order_independent(d1: Seq<u128>, d2: Seq<u128>)
    requires
        d1.to_multiset() == d2.to_multiset(),
    ensures
        stats_of(d1) == stats_of(d2),
{
    lemma_sorted_repeats(d1);
    lemma_sorted_repeats(d2);
    lemma_ascending_total();
    vstd::seq_lib::lemma_sorted_unique(sorted_repeats(d1), sorted_repeats(d2), ascending());
}

/// Of a non-empty set of repeats, `best` is the fastest and `worst` the
/// slowest, the median lies between them, and all three are repeats.
pub proof fn lemma_stats_spread(d: Seq<u128>)
    requires
        d.len() > 0,
    ensures
        stats_of(d).best <= stats_of(d).median <= stats_of(d).worst,
        forall|i: int| 0 <= i < d.len() ==> stats_of(d).best <= #[trigger] d[i] <= stats_of(d).worst,
        d.contains(stats_of(d).best),
        d.contains(stats_of(d).median),
        d.contains(stats_of(d).worst),
{
    let s = sorted_repeats(d);
    let n = d.len() as int;
    lemma_sorted_repeats(d);
    assert((ascending())(s[0], s[n / 2]) || n / 2 == 0);
    assert((ascending())(s[n / 2], s[n - 1]) || n / 2 == n - 1);
    assert forall|i: int| 0 <= i < n implies s[0] <= #[trigger] d[i] <= s[n - 1] by {
        vstd::seq_lib::to_multiset_contains(d, d[i]);
        assert(d.to_multiset().count(d[i]) > 0);
        vstd::seq_lib::to_multiset_contains(s, d[i]);
        let k = choose|k: int| 0 <= k < n && s[k] == d[i];
        assert((ascending())(s[0], s[k]) || k == 0);
        assert((ascending())(s[k], s[n - 1]) || k == n - 1);
    }
    assert forall|k: int| 0 <= k < n implies d.contains(#[trigger] s[k]) by {
        assert(s.contains(s[k]));
        vstd::seq_lib::to_multiset_contains(s, s[k]);
        vstd::seq_lib::to_multiset_contains(d, s[k]);
    }
    assert(d.contains(s[0]));
    assert(d.contains(s[n / 2]));
    assert(d.contains(s[n - 1]));
}

/// The statistics of a non-empty set of repeats are order statistics: put the
/// repeats in ascending order, and `best` is the first, `median` the one at
/// index `len / 2`, and `worst` the last.
pub proof fn lemma_stats_are_order_statistics(d: Seq<u128>)
    requires
        d.len() > 0,
    ensures
        exists|s: Seq<u128>|
            {
                &&& s.len() == d.len()
                &&& s.to_multiset() == d.to_multiset()
                &&& forall|i: int, j: int| 0 <= i <= j < s.len() ==> s[i] <= s[j]
                &&& stats_of(d).best == s[0]
                &&& stats_of(d).median == s[(d.len() / 2) as int]
                &&& stats_of(d).worst == s[d.len() - 1]
            },
{
    let s = sorted_repeats(d);
    lemma_sorted_repeats(d);
    assert forall|i: int, j: int| 0 <= i <= j < s.len() implies s[i] <= s[j] by {
        if i < j {
            assert((ascending())(s[i], s[j]));
        }
    }
}

impl Default for Stats {
    /// All three at zero, as for no repeats at all.
    fn default() -> (s: Stats)
        ensures
            s == (Stats { best: 0, median: 0, worst: 0 }),
    {
        Stats { best: 0, median: 0, worst: 0 }
    }
}

impl Stats {
    /// Collapse a set of repeats. Sorts, so the caller need not.
    pub fn from(d: Vec<u128>) -> (s: Stats)
        ensures
            s == stats_of(d@),
    {
        let sorted = sort_ascending(&d);
        proof {
            lemma_sorted_repeats(d@);
        }
        let n = sorted.len();
        if n == 0 {
            Stats { best: 0, median: 0, worst: 0 }
        } else {
            Stats { best: sorted[0], median: sorted[n / 2], worst: sorted[n - 1] }
        }
    }
}

} // verus!
