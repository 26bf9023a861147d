//! The canonical description of one region of a process's address space.

use vstd::prelude::*;

verus! {

/// One region of memory, as either report describes it.
///
/// No field is checked against another: `end_addr` may lie below
/// `start_addr`, and `size` need not be their difference. A text field that a
/// report does not supply is empty.
#[derive(Debug, PartialEq, Eq)]
pub struct MemoryRegion {
    /// What the region is used as (stack, heap, ...).
    pub kind: String,
    /// The address at which the region starts. Within one report it
    /// identifies the region.
    pub start_addr: u64,
    /// The first address past the region.
    pub end_addr: u64,
    /// The size of the region in bytes, as reported.
    pub size: u64,
    /// How the memory was obtained (image, mapped, private, ...).
    pub mem_type: String,
    /// Whether the memory is committed, reserved or free.
    pub state: String,
    /// The access that the region's pages allow.
    pub protection: String,
    /// What the region holds, often the name of a mapped image.
    pub usage: String,
}

/// A `MemoryRegion` as a mathematical value.
pub struct Region {
    pub kind: Seq<char>,
    pub start_addr: u64,
    pub end_addr: u64,
    pub size: u64,
    pub mem_type: Seq<char>,
    pub state: Seq<char>,
    pub protection: Seq<char>,
    pub usage: Seq<char>,
}

impl View for MemoryRegion {
    type V = Region;

    open spec fn view(&self) -> Region {
        Region {
            kind: self.kind@,
            start_addr: self.start_addr,
            end_addr: self.end_addr,
            size: self.size,
            mem_type: self.mem_type@,
            state: self.state@,
            protection: self.protection@,
            usage: self.usage@,
        }
    }
}

impl Clone for MemoryRegion {
    fn clone(&self) -> (out: Self)
        ensures
            out == *self,
    {
        MemoryRegion {
            kind: self.kind.clone(),
            start_addr: self.start_addr,
            end_addr: self.end_addr,
            size: self.size,
            mem_type: self.mem_type.clone(),
            state: self.state.clone(),
            protection: self.protection.clone(),
            usage: self.usage.clone(),
        }
    }
}

/// The regions of a collection as mathematical values, under the same keys.
pub open spec fn region_views(m: Map<u64, MemoryRegion>) -> Map<u64, Region> {
    m.map_values(|r: MemoryRegion| r@)
}

/// The collection that a sequence of parsed rows builds: each row that holds a
/// region puts it under its start address, replacing what was there.
pub open spec fn collect(rows: Seq<Option<Region>>) -> Map<u64, Region>
    decreases rows.len(),
{
    if rows.len() == 0 {
        Map::empty()
    } else {
        let before = collect(rows.drop_last());
        match rows.last() {
            Some(r) => before.insert(r.start_addr, r),
            None => before,
        }
    }
}

/// Every region of a collection built from rows stands under its own start
/// address: no two of its regions start at the same address.
pub proof fn lemma_collect_keys(rows: Seq<Option<Region>>)
    ensures
        forall|k: u64| #[trigger]
            collect(rows).contains_key(k) ==> collect(rows)[k].start_addr == k && exists|i: int|
                0 <= i < rows.len() && #[trigger] rows[i] == Some(collect(rows)[k]),
    decreases rows.len(),
{
    if rows.len() > 0 {
        let front = rows.drop_last();
        lemma_collect_keys(front);
        assert forall|k: u64| #[trigger] collect(rows).contains_key(k) implies collect(
            rows,
        )[k].start_addr == k && exists|i: int|
            0 <= i < rows.len() && #[trigger] rows[i] == Some(collect(rows)[k]) by {
            if rows.last() is Some && rows.last()->0.start_addr == k {
                assert(rows[rows.len() - 1] == Some(collect(rows)[k]));
            } else {
                assert(collect(front).contains_key(k));
                let i = choose|i: int|
                    0 <= i < front.len() && #[trigger] front[i] == Some(collect(front)[k]);
                assert(rows[i] == front[i]);
            }
        }
    }
}

/// The last row with a given start address is the one that the collection
/// holds under it.
pub proof fn lemma_collect_last_wins(rows: Seq<Option<Region>>, i: int)
    requires
        0 <= i < rows.len(),
        rows[i] is Some,
        forall|j: int|
            i < j < rows.len() && (#[trigger] rows[j]) is Some ==> rows[j]->0.start_addr
                != rows[i]->0.start_addr,
    ensures
        collect(rows).contains_key(rows[i]->0.start_addr),
        collect(rows)[rows[i]->0.start_addr] == rows[i]->0,
    decreases rows.len(),
{
    if i < rows.len() - 1 {
        let front = rows.drop_last();
        assert(front[i] == rows[i]);
        assert forall|j: int| i < j < front.len() && (#[trigger] front[j]) is Some implies front[j]->0.start_addr
            != front[i]->0.start_addr by {
            assert(front[j] == rows[j]);
        }
        lemma_collect_last_wins(front, i);
        assert(rows[rows.len() - 1] == rows.last());
    }
}

} // verus!
