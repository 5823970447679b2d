//! The part of the report that is a decision rather than printing: which
//! sizes count as inside and outside the last-level cache when the knee is
//! read.

use vstd::prelude::*;
use crate::sweep::MIB;

verus! {

/// A size of `mib` MiB sits comfortably inside a cache of `l3` bytes: it
/// takes at most half of it.
pub open spec fn inside_cache(mib: nat, l3: nat) -> bool {
    mib * MIB * 2 <= l3
}

/// A size of `mib` MiB sits comfortably outside a cache of `l3` bytes: it is
/// at least twice its size.
pub open spec fn outside_cache(mib: nat, l3: nat) -> bool {
    mib * MIB >= l3 * 2
}

/// The indices, in order, of the first `n` sizes that are inside
/// (`inside == true`) or outside the cache.
pub open spec fn rows_where(mibs: Seq<usize>, l3: nat, inside: bool, n: nat) -> Seq<usize>
    decreases n,
{
    if n == 0 {
        Seq::empty()
    } else {
        let earlier = rows_where(mibs, l3, inside, (n - 1) as nat);
        let m = mibs[n - 1] as nat;
        if (inside && inside_cache(m, l3)) || (!inside && outside_cache(m, l3)) {
            earlier.push((n - 1) as usize)
        } else {
            earlier
        }
    }
}

/// The rows a sweep's knee compares, stated by what they are: the indices of
/// the sizes, in increasing order and each once, whose byte count (1 MiB =
/// 1048576 bytes) doubled is at most the cache size (`inside`), or is at least
/// twice the cache size (`!inside`); every such size is listed.
pub proof fn lemma_rows_where_selects(mibs: Seq<usize>, l3: nat, inside: bool, n: nat)
    requires
        n <= mibs.len() <= usize::MAX,
    ensures
        forall|k: int|
            0 <= k < rows_where(mibs, l3, inside, n).len() ==> #[trigger] rows_where(
                mibs,
                l3,
                inside,
                n,
            )[k] < n,
        forall|k1: int, k2: int|
            0 <= k1 < k2 < rows_where(mibs, l3, inside, n).len() ==> #[trigger] rows_where(
                mibs,
                l3,
                inside,
                n,
            )[k1] < #[trigger] rows_where(mibs, l3, inside, n)[k2],
        forall|k: int|
            0 <= k < rows_where(mibs, l3, inside, n).len() ==> {
                let m = mibs[#[trigger] rows_where(mibs, l3, inside, n)[k] as int] as int;
                if inside {
                    2 * (m * 1048576) <= l3
                } else {
                    m * 1048576 >= 2 * l3
                }
            },
        forall|i: int|
            0 <= i < n && (if inside {
                2 * (mibs[i] as int * 1048576) <= l3
            } else {
                mibs[i] as int * 1048576 >= 2 * l3
            }) ==> #[trigger] rows_where(mibs, l3, inside, n).contains(i as usize),
    decreases n,
{
    if n > 0 {
        lemma_rows_where_selects(mibs, l3, inside, (n - 1) as nat);
        let earlier = rows_where(mibs, l3, inside, (n - 1) as nat);
        let r = rows_where(mibs, l3, inside, n);
        assert(MIB == 1048576);
        let m = mibs[n - 1] as nat;
        let picked = (inside && inside_cache(m, l3)) || (!inside && outside_cache(m, l3));
        if picked {
            assert(r == earlier.push((n - 1) as usize));
        } else {
            assert(r == earlier);
        }
        assert forall|k: int| 0 <= k < r.len() implies r[k] < n && ({
            let mm = mibs[r[k] as int] as int;
            if inside {
                2 * (mm * 1048576) <= l3
            } else {
                mm * 1048576 >= 2 * l3
            }
        }) by {
            if k < earlier.len() {
                assert(r[k] == earlier[k]);
                assert(earlier[k] < n - 1);
            } else {
                assert(r[k] == n - 1);
            }
        }
        assert forall|k1: int, k2: int| 0 <= k1 < k2 < r.len() implies r[k1] < r[k2] by {
            if k2 < earlier.len() {
                assert(r[k1] == earlier[k1] && r[k2] == earlier[k2]);
                assert(earlier[k1] < earlier[k2]);
            } else {
                assert(r[k1] == earlier[k1]);
                assert(earlier[k1] < n - 1);
            }
        }
        assert forall|i: int|
            0 <= i < n && (if inside {
                2 * (mibs[i] as int * 1048576) <= l3
            } else {
                mibs[i] as int * 1048576 >= 2 * l3
            }) implies #[trigger] r.contains(i as usize) by {
            if i < n - 1 {
                assert(earlier.contains(i as usize));
                let k = choose|k: int| 0 <= k < earlier.len() && earlier[k] == i as usize;
                assert(r[k] == i as usize);
            } else {
                assert(r[r.len() - 1] == i as usize);
            }
        }
    }
}

/// The rows the knee compares: those well inside the cache and those well
/// outside it, by index into the sweep.
pub struct KneeRows {
    pub inside: Vec<usize>,
    pub outside: Vec<usize>,
}

/// Splits the swept sizes (in MiB) by where they sit against a cache of
/// `l3` bytes. The knee can be read only when both lists are non-empty.
pub fn knee_rows(mibs: &[usize], l3: usize) -> (r: KneeRows)
    ensures
        r.inside@ == rows_where(mibs@, l3 as nat, true, mibs@.len()),
        r.outside@ == rows_where(mibs@, l3 as nat, false, mibs@.len()),
        forall|k: int|
            0 <= k < r.inside@.len() ==> #[trigger] r.inside@[k] < mibs@.len() && 2 * (
            mibs@[r.inside@[k] as int] * 1048576) <= l3,
        forall|k: int|
            0 <= k < r.outside@.len() ==> #[trigger] r.outside@[k] < mibs@.len() && mibs@[
            r.outside@[k] as int] * 1048576 >= 2 * l3,
        forall|i: int|
            0 <= i < mibs@.len() && 2 * (mibs@[i] * 1048576) <= l3 ==> #[trigger] r.inside@.contains(
                i as usize,
            ),
        forall|i: int|
            0 <= i < mibs@.len() && mibs@[i] * 1048576 >= 2 * l3 ==> #[trigger] r.outside@.contains(
                i as usize,
            ),
        forall|k1: int, k2: int|
            0 <= k1 < k2 < r.inside@.len() ==> #[trigger] r.inside@[k1] < #[trigger] r.inside@[k2],
        forall|k1: int, k2: int|
            0 <= k1 < k2 < r.outside@.len() ==> #[trigger] r.outside@[k1]
                < #[trigger] r.outside@[k2],
{
    let mut inside: Vec<usize> = Vec::new();
    let mut outside: Vec<usize> = Vec::new();
    let mut i: usize = 0;
    while i < mibs.len()
        invariant
            i <= mibs@.len(),
            inside@ == rows_where(mibs@, l3 as nat, true, i as nat),
            outside@ == rows_where(mibs@, l3 as nat, false, i as nat),
        decreases mibs.len() - i,
    {
        assert(MIB == 1048576);
        let m = mibs[i];
        assert(m * 1048576 <= 0x1_0000_0000_0000_0000int * 1048576);
        let bytes = (mibs[i] as u128) * (MIB as u128);
        if bytes * 2 <= l3 as u128 {
            inside.push(i);
        }
        if bytes >= (l3 as u128) * 2 {
            outside.push(i);
        }
        i = i + 1;
    }
    proof {
        lemma_rows_where_selects(mibs@, l3 as nat, true, mibs@.len());
        lemma_rows_where_selects(mibs@, l3 as nat, false, mibs@.len());
    }
    KneeRows { inside, outside }
}

} // verus!
