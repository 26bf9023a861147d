//! Cross-referencing the two collections of regions by start address.

use std::collections::HashMap;
use vstd::prelude::*;
use vstd::std_specs::hash::group_hash_axioms;
use vstd::std_specs::hash::spec_hash_map_iter;
use vstd::std_specs::iter::IteratorSpec;
use crate::region::MemoryRegion;

verus! {

broadcast use group_hash_axioms;

/// The entries of `these` whose key `those` does not hold.
pub open spec fn only_in(these: Map<u64, MemoryRegion>, those: Map<u64, MemoryRegion>) -> Map<
    u64,
    MemoryRegion,
> {
    these.remove_keys(those.dom())
}

/// The entries of `m` whose region has a memory type.
pub open spec fn classified(m: Map<u64, MemoryRegion>) -> Map<u64, MemoryRegion> {
    m.restrict(Set::new(|k: u64| m.contains_key(k) && m[k].mem_type@.len() > 0))
}

/// Whether `entries` holds every entry of `m` exactly once, and nothing else.
pub open spec fn lists(entries: Seq<(u64, MemoryRegion)>, m: Map<u64, MemoryRegion>) -> bool {
    &&& forall|i: int, j: int|
        0 <= i < j < entries.len() ==> (#[trigger] entries[i]).0 != (#[trigger] entries[j]).0
    &&& forall|i: int|
        0 <= i < entries.len() ==> m.contains_key((#[trigger] entries[i]).0) && m[entries[i].0]
            == entries[i].1
    &&& forall|k: u64| #[trigger]
        m.contains_key(k) ==> exists|i: int|
            0 <= i < entries.len() && (#[trigger] entries[i]).0 == k
}

/// The sizes of the regions in `entries`, added up.
pub open spec fn sum_sizes(entries: Seq<(u64, MemoryRegion)>) -> nat
    decreases entries.len(),
{
    if entries.len() == 0 {
        0
    } else {
        sum_sizes(entries.drop_last()) + entries.last().1.size as nat
    }
}

/// The sum of the sizes if it fits in 64 bits.
pub open spec fn checked_sum_sizes(entries: Seq<(u64, MemoryRegion)>) -> Option<u64> {
    if sum_sizes(entries) <= u64::MAX {
        Some(sum_sizes(entries) as u64)
    } else {
        None
    }
}

/// The sum over a part of the entries is no more than the sum over all.
pub proof fn lemma_sum_sizes_prefix(entries: Seq<(u64, MemoryRegion)>, k: int)
    requires
        0 <= k <= entries.len(),
    ensures
        sum_sizes(entries.take(k)) <= sum_sizes(entries),
    decreases entries.len(),
{
    if k < entries.len() {
        lemma_sum_sizes_prefix(entries.drop_last(), k);
        assert(entries.drop_last().take(k) =~= entries.take(k));
    } else {
        assert(entries.take(k) =~= entries);
    }
}

/// A copy of the regions of `these` whose start address `those` does not
/// hold.
pub fn regions_only_in(
    these: &HashMap<u64, MemoryRegion>,
    those: &HashMap<u64, MemoryRegion>,
) -> (out: HashMap<u64, MemoryRegion>)
    ensures
        out@ == only_in(these@, those@),
{
    let mut out: HashMap<u64, MemoryRegion> = HashMap::new();
    let ghost all = spec_hash_map_iter(these).remaining();
    let ghost mut seen: int = 0;
    for entry in it: these.iter()
        invariant
            it.seq() == all,
            seen == it.index(),
            forall|k: u64| #[trigger]
                out@.contains_key(k) ==> these@.contains_key(k) && !those@.contains_key(k)
                    && out@[k] == these@[k],
            forall|j: int|
                0 <= j < seen && !those@.contains_key(*(#[trigger] all[j]).0)
                    ==> out@.contains_key(*all[j].0),
    {
        let (key, region) = entry;
        assert(*all[seen].0 == *key);
        if !those.contains_key(key) {
            out.insert(*key, region.clone());
        }
        proof {
            seen = seen + 1;
        }
    }
    proof {
        assert(seen == all.len());
        let want = only_in(these@, those@);
        assert forall|k: u64| #[trigger] want.contains_key(k) implies out@.contains_key(k) by {
            let pair = (&k, &these@[k]);
            assert(all.contains(pair));
            let j = choose|j: int| 0 <= j < all.len() && all[j] == pair;
            assert(*all[j].0 == k);
        }
        assert(out@ =~= want);
    }
    out
}

/// The regions of `native_only` that have a memory type, each with its key,
/// in no particular order.
pub fn unaccounted_regions(native_only: &HashMap<u64, MemoryRegion>) -> (out: Vec<
    (u64, MemoryRegion),
>)
    ensures
        lists(out@, classified(native_only@)),
{
    let mut out: Vec<(u64, MemoryRegion)> = Vec::new();
    let ghost all = spec_hash_map_iter(native_only).remaining();
    let ghost mut seen: int = 0;
    let ghost mut at: Seq<int> = Seq::empty();
    for entry in it: native_only.iter()
        invariant
            it.seq() == all,
            seen == it.index(),
            all.no_duplicates(),
            at.len() == out@.len(),
            forall|a: int|
                0 <= a < at.len() ==> 0 <= #[trigger] at[a] < seen && *all[at[a]].0 == out@[a].0,
            forall|a: int, b: int| 0 <= a < b < at.len() ==> #[trigger] at[a] < #[trigger] at[b],
            forall|a: int|
                0 <= a < out@.len() ==> classified(native_only@).contains_key(
                    (#[trigger] out@[a]).0,
                ) && native_only@[out@[a].0] == out@[a].1,
            forall|j: int|
                0 <= j < seen && classified(native_only@).contains_key(*(#[trigger] all[j]).0)
                    ==> exists|a: int| 0 <= a < out@.len() && (#[trigger] out@[a]).0 == *all[j].0,
    {
        let (key, region) = entry;
        let ghost before = out@;
        assert(all[seen] == (key, region));
        if !region.mem_type.as_str().is_empty() {
            out.push((*key, region.clone()));
            proof {
                at = at.push(seen);
                assert forall|j: int|
                    0 <= j < seen + 1 && classified(native_only@).contains_key(
                        *(#[trigger] all[j]).0,
                    ) implies exists|a: int|
                    0 <= a < out@.len() && (#[trigger] out@[a]).0 == *all[j].0 by {
                    if j < seen {
                        let a = choose|a: int|
                            0 <= a < before.len() && (#[trigger] before[a]).0 == *all[j].0;
                        assert(out@[a] == before[a]);
                    } else {
                        assert(out@[out@.len() - 1].0 == *all[j].0);
                    }
                }
            }
        }
        proof {
            seen = seen + 1;
        }
    }
    proof {
        assert(seen == all.len());
        let m = classified(native_only@);
        assert forall|i: int, j: int| 0 <= i < j < out@.len() implies (#[trigger] out@[i]).0 != (
        #[trigger] out@[j]).0 by {
            let p = at[i];
            let q = at[j];
            assert(p < q);
            if out@[i].0 == out@[j].0 {
                assert(*all[p].1 == native_only@[*all[p].0]);
                assert(*all[q].1 == native_only@[*all[q].0]);
                assert(all[p] == all[q]);
            }
        }
        assert forall|k: u64| #[trigger] m.contains_key(k) implies exists|i: int|
            0 <= i < out@.len() && (#[trigger] out@[i]).0 == k by {
            let pair = (&k, &native_only@[k]);
            assert(all.contains(pair));
            let j = choose|j: int| 0 <= j < all.len() && all[j] == pair;
            assert(*all[j].0 == k);
        }
    }
    out
}

/// The sizes of the listed regions, added up: `None` if the sum does not fit
/// in 64 bits.
pub fn total_size(entries: &[(u64, MemoryRegion)]) -> (total: Option<u64>)
    ensures
        total == checked_sum_sizes(entries@),
{
    let mut total: u64 = 0;
    let mut i: usize = 0;
    while i < entries.len()
        invariant
            i <= entries@.len(),
            total == sum_sizes(entries@.take(i as int)),
        decreases entries@.len() - i,
    {
        proof {
            assert(entries@.take(i + 1).drop_last() =~= entries@.take(i as int));
            lemma_sum_sizes_prefix(entries@, i + 1);
        }
        match total.checked_add(entries[i].1.size) {
            Some(sum) => {
                total = sum;
            },
            None => {
                return None;
            },
        }
        i += 1;
    }
    proof {
        assert(entries@.take(i as int) =~= entries@);
    }
    Some(total)
}

/// What the comparison of the two collections finds.
pub struct Reconciliation {
    /// The regions of the native memory map that the runtime does not know.
    pub native_only: HashMap<u64, MemoryRegion>,
    /// Those of `native_only` that have a memory type: the regions that are
    /// not accounted for.
    pub unaccounted: Vec<(u64, MemoryRegion)>,
    /// The sizes of the `unaccounted` regions, added up: `None` if the sum
    /// does not fit in 64 bits.
    pub unaccounted_size: Option<u64>,
    /// The regions that the runtime knows and the native memory map does not
    /// show.
    pub runtime_only: HashMap<u64, MemoryRegion>,
}

/// Compares the regions that the runtime knows with those of the native
/// memory map.
pub fn reconcile(
    runtime: &HashMap<u64, MemoryRegion>,
    native: &HashMap<u64, MemoryRegion>,
) -> (found: Reconciliation)
    ensures
        found.native_only@ == only_in(native@, runtime@),
        lists(found.unaccounted@, classified(only_in(native@, runtime@))),
        found.unaccounted_size == checked_sum_sizes(found.unaccounted@),
        found.runtime_only@ == only_in(runtime@, native@),
{
    let native_only = regions_only_in(native, runtime);
    let unaccounted = unaccounted_regions(&native_only);
    let unaccounted_size = total_size(unaccounted.as_slice());
    let runtime_only = regions_only_in(runtime, native);
    Reconciliation { native_only, unaccounted, unaccounted_size, runtime_only }
}

/// What is only on one side is not on the other. For any two collections,
/// the entries that are only in the first are entries of the first, none of
/// them has a key of the second, and none of them has a key of what is only
/// in the second. The second difference is the first with the sides
/// exchanged, so the same holds of it.
pub proof fn lemma_only_in(a: Map<u64, MemoryRegion>, b: Map<u64, MemoryRegion>)
    ensures
        only_in(a, b).submap_of(a),
        only_in(a, b).dom().disjoint(b.dom()),
        only_in(a, b).dom().disjoint(only_in(b, a).dom()),
        forall|k: u64| #[trigger]
            a.contains_key(k) ==> (only_in(a, b).contains_key(k) <==> !b.contains_key(k)),
{
}

} // verus!
