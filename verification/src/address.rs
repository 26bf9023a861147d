//! The operating system's memory map, as the native debugger prints it: two
//! header lines, then one region per line in columns separated by white space.

use std::collections::HashMap;
use vstd::prelude::*;
use vstd::std_specs::hash::group_hash_axioms;
use crate::hex::hex_number;
use crate::hex::hex_of;
use crate::region::collect;
use crate::region::region_views;
use crate::region::MemoryRegion;
use crate::region::Region;
use crate::text::after_header;
use crate::text::chars_of;
use crate::text::join;
use crate::text::join_from;
use crate::text::lines;
use crate::text::split_lines;
use crate::text::split_words;
use crate::text::string_of;
use crate::text::views;
use crate::text::words;

verus! {

broadcast use group_hash_axioms;

/// The number of lines at the head of the map that describe no region.
pub const ADDRESS_HEADER_LINES: usize = 2;

/// The region that one line of the map describes, if it describes one.
///
/// The words of the line are counted from zero; word 0 is never looked at.
/// A line of nine or more words is a full row: start address, end address and
/// size in words 1 to 3, then type, state, protection and kind, and the usage
/// is the rest of the words. A line of four to eight words is a minimal row:
/// the three numbers as before, the usage is every word from the size on, and
/// the other texts are empty. A shorter line describes nothing.
pub open spec fn address_row(line: Seq<char>) -> Option<Region> {
    let w = words(line);
    if w.len() >= 9 {
        Some(
            Region {
                kind: w[7],
                start_addr: hex_number(w[1]),
                end_addr: hex_number(w[2]),
                size: hex_number(w[3]),
                mem_type: w[4],
                state: w[5],
                protection: w[6],
                usage: join(w.skip(8)),
            },
        )
    } else if w.len() >= 4 {
        Some(
            Region {
                kind: seq![],
                start_addr: hex_number(w[1]),
                end_addr: hex_number(w[2]),
                size: hex_number(w[3]),
                mem_type: seq![],
                state: seq![],
                protection: seq![],
                usage: join(w.skip(3)),
            },
        )
    } else {
        None
    }
}

/// What each of the lines `ls` describes.
pub open spec fn address_rows(ls: Seq<Seq<char>>) -> Seq<Option<Region>> {
    ls.map_values(|l: Seq<char>| address_row(l))
}

/// The collection of regions that the text of a memory map describes: the
/// rows after the header, a later row replacing an earlier one with the same
/// start address.
pub open spec fn address_regions(text: Seq<char>) -> Map<u64, Region> {
    collect(address_rows(after_header(lines(text), ADDRESS_HEADER_LINES as nat)))
}

/// A parsed row as a mathematical value.
pub open spec fn row_view(row: Option<MemoryRegion>) -> Option<Region> {
    match row {
        Some(r) => Some(r@),
        None => None,
    }
}

/// Reads one line of the memory map.
pub fn parse_address_row(line: &[char]) -> (row: Option<MemoryRegion>)
    ensures
        row_view(row) == address_row(line@),
{
    let w = split_words(line);
    if w.len() >= 9 {
        let usage = join_from(&w, 8);
        Some(
            MemoryRegion {
                kind: string_of(w[7].as_slice()),
                start_addr: hex_of(w[1].as_slice()),
                end_addr: hex_of(w[2].as_slice()),
                size: hex_of(w[3].as_slice()),
                mem_type: string_of(w[4].as_slice()),
                state: string_of(w[5].as_slice()),
                protection: string_of(w[6].as_slice()),
                usage: string_of(usage.as_slice()),
            },
        )
    } else if w.len() >= 4 {
        let usage = join_from(&w, 3);
        Some(
            MemoryRegion {
                kind: String::new(),
                start_addr: hex_of(w[1].as_slice()),
                end_addr: hex_of(w[2].as_slice()),
                size: hex_of(w[3].as_slice()),
                mem_type: String::new(),
                state: String::new(),
                protection: String::new(),
                usage: string_of(usage.as_slice()),
            },
        )
    } else {
        None
    }
}

/// Reads the memory map that the native debugger printed.
pub fn parse_address_memory_regions(input: &str) -> (regions: HashMap<u64, MemoryRegion>)
    ensures
        region_views(regions@) == address_regions(input@),
{
    let chars = chars_of(input);
    let ls = split_lines(chars.as_slice());
    let mut regions: HashMap<u64, MemoryRegion> = HashMap::new();
    let ghost rows = address_rows(after_header(lines(input@), ADDRESS_HEADER_LINES as nat));
    proof {
        assert(region_views(regions@) =~= Map::<u64, Region>::empty());
    }
    if ls.len() <= ADDRESS_HEADER_LINES {
        proof {
            assert(rows.len() == 0);
        }
        return regions;
    }
    let mut i: usize = ADDRESS_HEADER_LINES;
    while i < ls.len()
        invariant
            ADDRESS_HEADER_LINES <= i <= ls@.len(),
            views(ls@) == lines(input@),
            rows == address_rows(after_header(lines(input@), ADDRESS_HEADER_LINES as nat)),
            region_views(regions@) == collect(rows.take(i - ADDRESS_HEADER_LINES)),
        decreases ls@.len() - i,
    {
        let ghost k = i - ADDRESS_HEADER_LINES;
        let ghost before = regions@;
        let row = parse_address_row(ls[i].as_slice());
        proof {
            assert(rows.take(k + 1).drop_last() =~= rows.take(k));
            assert(views(ls@)[i as int] == ls@[i as int]@);
            assert(rows.take(k + 1).last() == address_row(ls@[i as int]@));
        }
        match row {
            Some(region) => {
                let key: u64 = region.start_addr;
                regions.insert(key, region);
                proof {
                    assert(region_views(regions@) =~= region_views(before).insert(key, region@));
                }
            },
            None => {},
        }
        i += 1;
    }
    proof {
        assert(rows.take(i - ADDRESS_HEADER_LINES) =~= rows);
    }
    regions
}

/// The header of a memory map counts for nothing: two texts whose lines
/// agree from the third on describe the same, whatever their first two lines
/// hold. And a text of no more than two lines describes no region.
pub proof fn lemma_address_header_ignored(a: Seq<char>, b: Seq<char>)
    requires
        after_header(lines(a), ADDRESS_HEADER_LINES as nat) == after_header(
            lines(b),
            ADDRESS_HEADER_LINES as nat,
        ),
    ensures
        address_regions(a) == address_regions(b),
        lines(a).len() <= ADDRESS_HEADER_LINES ==> address_regions(a) == Map::<u64, Region>::empty(),
{
    if lines(a).len() <= ADDRESS_HEADER_LINES {
        let rows = address_rows(after_header(lines(a), ADDRESS_HEADER_LINES as nat));
        assert(rows.len() == 0);
    }
}

} // verus!
