//! The table of regions that the runtime's allocator knows, as its diagnostic
//! extension prints it: three header lines, then one region per line in
//! columns separated by `|`.

use std::collections::HashMap;
use vstd::prelude::*;
use vstd::std_specs::hash::group_hash_axioms;
use crate::hex::hex_number;
use crate::hex::hex_of;
use crate::region::collect;
use crate::region::lemma_collect_last_wins;
use crate::region::region_views;
use crate::region::MemoryRegion;
use crate::region::Region;
use crate::size::human_size;
use crate::size::size_of;
use crate::size::SizeError;
use crate::text::after_header;
use crate::text::chars_of;
use crate::text::fields;
use crate::text::lines;
use crate::text::split_fields;
use crate::text::split_lines;
use crate::text::string_of;
use crate::text::views;

verus! {

broadcast use group_hash_axioms;

/// The number of lines at the head of the table that describe no region.
pub const MADDRESS_HEADER_LINES: usize = 3;

/// The character between the columns of the table.
pub const COLUMN_MARK: char = '|';

/// The region that one line of the table describes, if it describes one.
///
/// The line is cut at each column mark, and white space around each field is
/// dropped. The fields are counted from zero; field 0 is never looked at. A
/// line of nine or more fields describes a region: kind, start address, end
/// address, size, type, state, protection and usage, in fields 1 to 8. A
/// shorter line describes nothing. A line that describes a region whose size
/// cannot be read is an error.
pub open spec fn maddress_row(line: Seq<char>) -> Result<Option<Region>, SizeError> {
    let f = fields(line, COLUMN_MARK);
    if f.len() >= 9 {
        match human_size(f[4]) {
            Ok(size) => Ok(
                Some(
                    Region {
                        kind: f[1],
                        start_addr: hex_number(f[2]),
                        end_addr: hex_number(f[3]),
                        size,
                        mem_type: f[5],
                        state: f[6],
                        protection: f[7],
                        usage: f[8],
                    },
                ),
            ),
            Err(e) => Err(e),
        }
    } else {
        Ok(None)
    }
}

/// What each of the lines `ls` describes.
pub open spec fn maddress_rows(ls: Seq<Seq<char>>) -> Seq<Result<Option<Region>, SizeError>> {
    ls.map_values(|l: Seq<char>| maddress_row(l))
}

/// The error of the first row that has one.
pub open spec fn first_error(rows: Seq<Result<Option<Region>, SizeError>>) -> Option<SizeError>
    decreases rows.len(),
{
    if rows.len() == 0 {
        None
    } else {
        match first_error(rows.drop_last()) {
            Some(e) => Some(e),
            None => match rows.last() {
                Err(e) => Some(e),
                Ok(_) => None,
            },
        }
    }
}

/// What each row describes, an error counting as nothing.
pub open spec fn described(rows: Seq<Result<Option<Region>, SizeError>>) -> Seq<Option<Region>> {
    rows.map_values(
        |row: Result<Option<Region>, SizeError>|
            match row {
                Ok(r) => r,
                Err(_) => None,
            },
    )
}

/// The collection that a sequence of rows builds, or the error of the first
/// row that has one.
pub open spec fn collect_checked(rows: Seq<Result<Option<Region>, SizeError>>) -> Result<
    Map<u64, Region>,
    SizeError,
> {
    match first_error(rows) {
        Some(e) => Err(e),
        None => Ok(collect(described(rows))),
    }
}

/// The collection of regions that the text of a table describes: the rows
/// after the header, a later row replacing an earlier one with the same start
/// address. A size that cannot be read makes the whole table an error.
pub open spec fn maddress_regions(text: Seq<char>) -> Result<Map<u64, Region>, SizeError> {
    collect_checked(maddress_rows(after_header(lines(text), MADDRESS_HEADER_LINES as nat)))
}

/// The result of reading a row as a mathematical value.
pub open spec fn checked_row_view(row: Result<Option<MemoryRegion>, SizeError>) -> Result<
    Option<Region>,
    SizeError,
> {
    match row {
        Ok(Some(r)) => Ok(Some(r@)),
        Ok(None) => Ok(None),
        Err(e) => Err(e),
    }
}

/// The result of reading a table as a mathematical value.
pub open spec fn checked_regions_view(
    regions: Result<HashMap<u64, MemoryRegion>, SizeError>,
) -> Result<Map<u64, Region>, SizeError> {
    match regions {
        Ok(m) => Ok(region_views(m@)),
        Err(e) => Err(e),
    }
}

/// Reads one line of the table.
pub fn parse_maddress_row(line: &[char]) -> (row: Result<Option<MemoryRegion>, SizeError>)
    ensures
        checked_row_view(row) == maddress_row(line@),
{
    let f = split_fields(line, COLUMN_MARK);
    if f.len() < 9 {
        return Ok(None);
    }
    match size_of(f[4].as_slice()) {
        Err(e) => Err(e),
        Ok(size) => Ok(
            Some(
                MemoryRegion {
                    kind: string_of(f[1].as_slice()),
                    start_addr: hex_of(f[2].as_slice()),
                    end_addr: hex_of(f[3].as_slice()),
                    size,
                    mem_type: string_of(f[5].as_slice()),
                    state: string_of(f[6].as_slice()),
                    protection: string_of(f[7].as_slice()),
                    usage: string_of(f[8].as_slice()),
                },
            ),
        ),
    }
}

/// Reads the table of regions that the runtime's diagnostic extension
/// printed. An error means that the table holds a size in a form that this
/// library does not know: the caller is to stop and use nothing of it.
pub fn parse_maddress_memory_regions(input: &str) -> (regions: Result<
    HashMap<u64, MemoryRegion>,
    SizeError,
>)
    ensures
        checked_regions_view(regions) == maddress_regions(input@),
{
    let chars = chars_of(input);
    let ls = split_lines(chars.as_slice());
    let mut regions: HashMap<u64, MemoryRegion> = HashMap::new();
    let ghost rows = maddress_rows(after_header(lines(input@), MADDRESS_HEADER_LINES as nat));
    proof {
        assert(region_views(regions@) =~= Map::<u64, Region>::empty());
    }
    if ls.len() <= MADDRESS_HEADER_LINES {
        proof {
            assert(rows.len() == 0);
        }
        return Ok(regions);
    }
    let mut i: usize = MADDRESS_HEADER_LINES;
    proof {
        assert(described(rows.take(0)) =~= Seq::<Option<Region>>::empty());
    }
    while i < ls.len()
        invariant
            MADDRESS_HEADER_LINES <= i <= ls@.len(),
            views(ls@) == lines(input@),
            rows == maddress_rows(after_header(lines(input@), MADDRESS_HEADER_LINES as nat)),
            first_error(rows.take(i - MADDRESS_HEADER_LINES)) is None,
            region_views(regions@) == collect(described(rows.take(i - MADDRESS_HEADER_LINES))),
        decreases ls@.len() - i,
    {
        let ghost k = i - MADDRESS_HEADER_LINES;
        let ghost before = regions@;
        let row = parse_maddress_row(ls[i].as_slice());
        proof {
            assert(rows.take(k + 1).drop_last() =~= rows.take(k));
            assert(views(ls@)[i as int] == ls@[i as int]@);
            assert(rows.take(k + 1).last() == maddress_row(ls@[i as int]@));
            assert(described(rows.take(k + 1)).drop_last() =~= described(rows.take(k)));
        }
        match row {
            Err(e) => {
                proof {
                    lemma_first_error_stays(rows, k + 1);
                }
                return Err(e);
            },
            Ok(Some(region)) => {
                let key: u64 = region.start_addr;
                regions.insert(key, region);
                proof {
                    assert(region_views(regions@) =~= region_views(before).insert(key, region@));
                }
            },
            Ok(None) => {},
        }
        i += 1;
    }
    proof {
        assert(rows.take(i - MADDRESS_HEADER_LINES) =~= rows);
    }
    Ok(regions)
}

/// Once some rows hold an error, more rows after them change nothing of it.
pub proof fn lemma_first_error_stays(rows: Seq<Result<Option<Region>, SizeError>>, k: int)
    requires
        0 <= k <= rows.len(),
        first_error(rows.take(k)) is Some,
    ensures
        first_error(rows) == first_error(rows.take(k)),
    decreases rows.len(),
{
    if k < rows.len() {
        assert(rows.drop_last().take(k) =~= rows.take(k));
        lemma_first_error_stays(rows.drop_last(), k);
    } else {
        assert(rows.take(k) =~= rows);
    }
}

/// Rows have an error exactly if one of them is an error, and the error is
/// that of a row before which no row is one.
pub proof fn lemma_first_error(rows: Seq<Result<Option<Region>, SizeError>>)
    ensures
        first_error(rows) is None <==> forall|i: int|
            0 <= i < rows.len() ==> (#[trigger] rows[i]) is Ok,
        first_error(rows) matches Some(e) ==> exists|i: int|
            0 <= i < rows.len() && #[trigger] rows[i] == Err::<Option<Region>, SizeError>(e)
                && forall|j: int| 0 <= j < i ==> (#[trigger] rows[j]) is Ok,
    decreases rows.len(),
{
    if rows.len() > 0 {
        let front = rows.drop_last();
        lemma_first_error(front);
        assert forall|i: int| 0 <= i < front.len() implies front[i] == rows[i] by {}
        match first_error(front) {
            Some(e) => {
                let i = choose|i: int|
                    0 <= i < front.len() && #[trigger] front[i] == Err::<Option<Region>, SizeError>(
                        e,
                    ) && forall|j: int| 0 <= j < i ==> (#[trigger] front[j]) is Ok;
                assert(rows[i] == Err::<Option<Region>, SizeError>(e));
                assert forall|j: int| 0 <= j < i implies (#[trigger] rows[j]) is Ok by {
                    assert(front[j] is Ok);
                }
            },
            None => {
                assert forall|j: int| 0 <= j < rows.len() - 1 implies (#[trigger] rows[j]) is Ok by {
                    assert(front[j] is Ok);
                }
                if rows.last() is Ok {
                    assert forall|i: int| 0 <= i < rows.len() implies (#[trigger] rows[i]) is Ok by {
                        if i < rows.len() - 1 {
                            assert(front[i] is Ok);
                        }
                    }
                } else {
                    assert(rows[rows.len() - 1] == rows.last());
                }
            },
        }
    }
}

/// The header of a table counts for nothing: two texts whose lines agree
/// from the fourth on describe the same, whatever their first three lines
/// hold. And a text of no more than three lines describes no region.
pub proof fn lemma_maddress_header_ignored(a: Seq<char>, b: Seq<char>)
    requires
        after_header(lines(a), MADDRESS_HEADER_LINES as nat) == after_header(
            lines(b),
            MADDRESS_HEADER_LINES as nat,
        ),
    ensures
        maddress_regions(a) == maddress_regions(b),
        lines(a).len() <= MADDRESS_HEADER_LINES ==> maddress_regions(a) == Ok::<
            Map<u64, Region>,
            SizeError,
        >(Map::empty()),
{
    if lines(a).len() <= MADDRESS_HEADER_LINES {
        let rows = maddress_rows(after_header(lines(a), MADDRESS_HEADER_LINES as nat));
        assert(rows.len() == 0);
        assert(described(rows).len() == 0);
    }
}

/// A table is an error exactly if one of its lines after the header
/// describes a region whose size cannot be read. Then it yields no collection
/// at all, so that nothing is computed from a part of it.
pub proof fn lemma_maddress_error(text: Seq<char>)
    ensures
        maddress_regions(text) is Err <==> exists|i: int|
            MADDRESS_HEADER_LINES <= i < lines(text).len() && maddress_row(
                #[trigger] lines(text)[i],
            ) is Err,
{
    let ls = after_header(lines(text), MADDRESS_HEADER_LINES as nat);
    let rows = maddress_rows(ls);
    lemma_first_error(rows);
    if maddress_regions(text) is Err {
        let j = choose|j: int| 0 <= j < rows.len() && (#[trigger] rows[j]) is Err;
        assert(ls[j] == lines(text)[j + MADDRESS_HEADER_LINES]);
        assert(maddress_row(lines(text)[j + MADDRESS_HEADER_LINES]) is Err);
    }
    if exists|i: int|
        MADDRESS_HEADER_LINES <= i < lines(text).len() && maddress_row(
            #[trigger] lines(text)[i],
        ) is Err {
        let i = choose|i: int|
            MADDRESS_HEADER_LINES <= i < lines(text).len() && maddress_row(
                #[trigger] lines(text)[i],
            ) is Err;
        assert(ls[i - MADDRESS_HEADER_LINES] == lines(text)[i]);
        assert(rows[i - MADDRESS_HEADER_LINES] is Err);
    }
}

/// A row is found in the table as its fields stand in the line. In a table
/// without error, take a line after the header that has nine or more
/// fields, and let no later line describe a region with the same start
/// address. Then the table holds, under the start address read from field 2,
/// the region whose kind is field 1, whose end address and size are read
/// from fields 3 and 4, and whose type, state, protection and usage are
/// fields 5 to 8.
pub proof fn lemma_maddress_row_in_table(text: Seq<char>, i: int)
    requires
        maddress_regions(text) is Ok,
        MADDRESS_HEADER_LINES <= i < lines(text).len(),
        fields(lines(text)[i], COLUMN_MARK).len() >= 9,
        forall|j: int|
            i < j < lines(text).len() ==> (maddress_row(#[trigger] lines(text)[j]) matches Ok(
                Some(r),
            ) ==> r.start_addr != hex_number(fields(lines(text)[i], COLUMN_MARK)[2])),
    ensures
        ({
            let f = fields(lines(text)[i], COLUMN_MARK);
            let table = maddress_regions(text)->Ok_0;
            let start = hex_number(f[2]);
            &&& table.contains_key(start)
            &&& table[start].kind == f[1]
            &&& table[start].start_addr == start
            &&& table[start].end_addr == hex_number(f[3])
            &&& human_size(f[4]) == Ok::<u64, SizeError>(table[start].size)
            &&& table[start].mem_type == f[5]
            &&& table[start].state == f[6]
            &&& table[start].protection == f[7]
            &&& table[start].usage == f[8]
        }),
{
    let ls = after_header(lines(text), MADDRESS_HEADER_LINES as nat);
    let rows = maddress_rows(ls);
    let k = i - MADDRESS_HEADER_LINES;
    lemma_first_error(rows);
    assert(ls[k] == lines(text)[i]);
    assert(rows[k] is Ok);
    let found = described(rows);
    assert(found[k] is Some);
    assert forall|j: int| k < j < found.len() && (#[trigger] found[j]) is Some implies found[j]->0.start_addr
        != found[k]->0.start_addr by {
        assert(ls[j] == lines(text)[j + MADDRESS_HEADER_LINES]);
        assert(rows[j] is Ok);
    }
    lemma_collect_last_wins(found, k);
}

} // verus!
