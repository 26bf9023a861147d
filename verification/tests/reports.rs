use std::collections::HashMap;

use memory_regions::address::parse_address_memory_regions;
use memory_regions::maddress::parse_maddress_memory_regions;
use memory_regions::region::MemoryRegion;
use memory_regions::size::parse_human_readable_size;
use memory_regions::size::SizeError;

fn region(
    kind: &str,
    start_addr: u64,
    end_addr: u64,
    size: u64,
    mem_type: &str,
    state: &str,
    protection: &str,
    usage: &str,
) -> MemoryRegion {
    MemoryRegion {
        kind: kind.to_string(),
        start_addr,
        end_addr,
        size,
        mem_type: mem_type.to_string(),
        state: state.to_string(),
        protection: protection.to_string(),
        usage: usage.to_string(),
    }
}

const TABLE_HEAD: &str = " +------+\n | Memory Kind | StartAddr | EndAddr-1 | Size | Type | State | Protect | Image |\n +------+\n";

const MAP_HEAD: &str = "        BaseAddress      EndAddress+1        RegionSize     Type       State                 Protect             Usage\n--------------------------------------------------------------------------------------------------------------------------\n";

#[test]
fn table_row_maps_its_fields_by_position() {
    let text = format!(
        "{} | GCHeap | 7ffe`efbff000 | 7fff`ffffe000 | 132,00kb | MEM_PRIVATE | MEM_COMMIT | PAGE_READWRITE | <unknown> |\n",
        TABLE_HEAD
    );
    let regions = parse_maddress_memory_regions(&text).unwrap();
    assert_eq!(regions.len(), 1);
    assert_eq!(
        regions[&0x7ffeefbff000],
        region(
            "GCHeap",
            0x7ffeefbff000,
            0x7fffffffe000,
            135168,
            "MEM_PRIVATE",
            "MEM_COMMIT",
            "PAGE_READWRITE",
            "<unknown>"
        )
    );
}

#[test]
fn table_row_takes_fields_one_to_eight_of_any_content() {
    let text = "\n\n\nzero|one|2|3|4mb|five|six|seven|eight|nine|ten";
    let regions = parse_maddress_memory_regions(text).unwrap();
    assert_eq!(regions.len(), 1);
    assert_eq!(regions[&2], region("one", 2, 3, 4194304, "five", "six", "seven", "eight"));
}

#[test]
fn table_header_never_holds_a_region() {
    let row = "| Stack | 1000 | 2000 | 4,00kb | MEM_PRIVATE | MEM_COMMIT | PAGE_READWRITE | a |";
    let three = format!("{}\n{}\n{}\n", row, row, row);
    assert_eq!(parse_maddress_memory_regions(&three).unwrap().len(), 0);
    let four = format!("{}\n{}\n{}\n{}\n", row, row, row, row);
    assert_eq!(parse_maddress_memory_regions(&four).unwrap().len(), 1);
    let bad = "| a | 1 | 2 | 5xx | b | c | d | e |\n";
    let bad_head = format!("{}{}{}{}", bad, bad, bad, row);
    assert_eq!(parse_maddress_memory_regions(&bad_head).unwrap().len(), 1);
}

#[test]
fn table_of_less_than_four_lines_is_empty() {
    assert_eq!(parse_maddress_memory_regions("").unwrap().len(), 0);
    assert_eq!(parse_maddress_memory_regions("a").unwrap().len(), 0);
    assert_eq!(parse_maddress_memory_regions("a\nb\nc").unwrap().len(), 0);
    assert_eq!(parse_maddress_memory_regions(TABLE_HEAD).unwrap().len(), 0);
}

#[test]
fn table_drops_short_lines() {
    let text = format!(
        "{}\n | Stack | 1000 | 2000 | 4,00kb | a | b | c |\n | Stack | 3000 | 4000 | 4,00kb | a | b | c | |\n +------+\n\n",
        TABLE_HEAD
    );
    let regions = parse_maddress_memory_regions(&text).unwrap();
    assert_eq!(regions.len(), 1);
    assert_eq!(regions[&0x3000], region("Stack", 0x3000, 0x4000, 4096, "a", "b", "c", ""));
}

#[test]
fn table_short_line_with_bad_size_is_dropped() {
    let text = format!("{} | Stack | 1000 | 2000 | 5xx | a | b | c |\n", TABLE_HEAD);
    assert_eq!(parse_maddress_memory_regions(&text).unwrap().len(), 0);
}

#[test]
fn table_later_row_replaces_earlier_one() {
    let text = format!(
        "{} | First | 1000 | 2000 | 4,00kb | a | b | c | d |\n | Second | 1000 | 3000 | 8,00kb | e | f | g | h |\n | Third | `1`0`0`0` | 1 | 1kb | | | | |\n",
        TABLE_HEAD
    );
    let regions = parse_maddress_memory_regions(&text).unwrap();
    assert_eq!(regions.len(), 1);
    assert_eq!(regions[&0x1000], region("Third", 0x1000, 1, 1024, "", "", "", ""));
}

#[test]
fn table_tolerates_bad_addresses() {
    let text = format!("{} | Stack | 0x1000 | zz | 4,00kb | a | b | c | d |\n", TABLE_HEAD);
    let regions = parse_maddress_memory_regions(&text).unwrap();
    assert_eq!(regions[&0], region("Stack", 0, 0, 4096, "a", "b", "c", "d"));
}

#[test]
fn table_with_unknown_unit_is_fatal() {
    let text = format!(
        "{} | Stack | 1000 | 2000 | 4,00kb | a | b | c | d |\n | Stack | 3000 | 4000 | 5xx | a | b | c | d |\n | Stack | 5000 | 6000 | 4,00kb | a | b | c | d |\n",
        TABLE_HEAD
    );
    assert_eq!(parse_maddress_memory_regions(&text), Err(SizeError::UnknownUnit));
}

#[test]
fn table_reports_the_first_error() {
    let text = format!(
        "{} | Stack | 1000 | 2000 | kb | a | b | c | d |\n | Stack | 3000 | 4000 | 5xx | a | b | c | d |\n",
        TABLE_HEAD
    );
    assert_eq!(parse_maddress_memory_regions(&text), Err(SizeError::InvalidNumber));
    let text = format!(
        "{} | Stack | 3000 | 4000 | 5xx | a | b | c | d |\n | Stack | 1000 | 2000 | kb | a | b | c | d |\n",
        TABLE_HEAD
    );
    assert_eq!(parse_maddress_memory_regions(&text), Err(SizeError::UnknownUnit));
}

#[test]
fn table_with_windows_line_ends() {
    let text = "h\r\nh\r\nh\r\n| Stack | 1000 | 2000 | 4,00kb | a | b | c | d |\r\n";
    let regions = parse_maddress_memory_regions(text).unwrap();
    assert_eq!(regions[&0x1000], region("Stack", 0x1000, 0x2000, 4096, "a", "b", "c", "d"));
    let text = "h\r\nh\r\nh\r\n| Stack | 1000 | 2000 | 4,00kb | a | b | c | d\r";
    let regions = parse_maddress_memory_regions(text).unwrap();
    assert_eq!(regions[&0x1000], region("Stack", 0x1000, 0x2000, 4096, "a", "b", "c", "d"));
}

#[test]
fn map_full_row() {
    let text = format!(
        "{}+     7ff`f0000000      7ff`f0001000        0`00001000 MEM_IMAGE   MEM_COMMIT  PAGE_READONLY                      Image      [ntdll; \"C:\\Windows\\ntdll.dll\"]\n",
        MAP_HEAD
    );
    let regions = parse_address_memory_regions(&text);
    assert_eq!(regions.len(), 1);
    assert_eq!(
        regions[&0x7fff0000000],
        region(
            "Image",
            0x7fff0000000,
            0x7fff0001000,
            0x1000,
            "MEM_IMAGE",
            "MEM_COMMIT",
            "PAGE_READONLY",
            "[ntdll; \"C:\\Windows\\ntdll.dll\"]"
        )
    );
}

#[test]
fn map_minimal_row() {
    let text = format!(
        "{}+        0`00000000     569d`3bd6e000     569d`3bd6e000                                                            <unknown>  \n",
        MAP_HEAD
    );
    let regions = parse_address_memory_regions(&text);
    assert_eq!(regions.len(), 1);
    assert_eq!(
        regions[&0],
        region("", 0, 0x569d3bd6e000, 0x569d3bd6e000, "", "", "", "569d`3bd6e000 <unknown>")
    );
}

#[test]
fn map_rows_of_every_length() {
    let words = ["+", "1000", "2000", "1000", "T", "S", "P", "K", "u1", "u2", "u3"];
    for n in 0..=words.len() {
        let text = format!("{}{}", MAP_HEAD, words[..n].join("   "));
        let regions = parse_address_memory_regions(&text);
        if n < 4 {
            assert_eq!(regions.len(), 0);
        } else if n < 9 {
            assert_eq!(
                regions[&0x1000],
                region("", 0x1000, 0x2000, 0x1000, "", "", "", &words[3..n].join(" "))
            );
        } else {
            assert_eq!(
                regions[&0x1000],
                region("K", 0x1000, 0x2000, 0x1000, "T", "S", "P", &words[8..n].join(" "))
            );
        }
    }
}

#[test]
fn map_header_never_holds_a_region() {
    let row = "+ 1000 2000 1000 MEM_PRIVATE MEM_COMMIT PAGE_READWRITE Heap x";
    assert_eq!(parse_address_memory_regions(&format!("{}\n{}\n", row, row)).len(), 0);
    assert_eq!(parse_address_memory_regions(&format!("{}\n{}\n{}", row, row, row)).len(), 1);
    assert_eq!(parse_address_memory_regions("").len(), 0);
    assert_eq!(parse_address_memory_regions(MAP_HEAD).len(), 0);
}

#[test]
fn map_later_row_replaces_earlier_one() {
    let text = format!(
        "{}+ 1000 2000 1000 A B C D first\n  x 1000 3000 2000 E F G H second one\n+ 4000 5000 1000\n",
        MAP_HEAD
    );
    let regions = parse_address_memory_regions(&text);
    assert_eq!(regions.len(), 2);
    assert_eq!(regions[&0x1000], region("H", 0x1000, 0x3000, 0x2000, "E", "F", "G", "second one"));
    assert_eq!(regions[&0x4000], region("", 0x4000, 0x5000, 0x1000, "", "", "", "1000"));
}

/// The table read with the text functions of the standard library.
fn table_by_the_book(input: &str) -> Result<HashMap<u64, MemoryRegion>, SizeError> {
    let mut regions = HashMap::new();
    for line in input.lines().skip(3) {
        let f: Vec<String> = line.split_terminator("|").map(|p| p.trim().to_string()).collect();
        if f.len() >= 9 {
            let r = region(
                &f[1],
                u64::from_str_radix(&f[2].replace("`", ""), 16).unwrap_or(0),
                u64::from_str_radix(&f[3].replace("`", ""), 16).unwrap_or(0),
                parse_human_readable_size(&f[4])?,
                &f[5],
                &f[6],
                &f[7],
                &f[8],
            );
            regions.insert(r.start_addr, r);
        }
    }
    Ok(regions)
}

/// The map read with the text functions of the standard library.
fn map_by_the_book(input: &str) -> HashMap<u64, MemoryRegion> {
    let mut regions = HashMap::new();
    for line in input.lines().skip(2) {
        let f: Vec<String> = line.split_whitespace().map(|p| p.to_string()).collect();
        let hex = |s: &String| u64::from_str_radix(&s.replace("`", ""), 16).unwrap_or(0);
        if f.len() >= 9 {
            let r = region(&f[7], hex(&f[1]), hex(&f[2]), hex(&f[3]), &f[4], &f[5], &f[6], &f[8..].join(" "));
            regions.insert(r.start_addr, r);
        } else if f.len() >= 4 {
            let r = region("", hex(&f[1]), hex(&f[2]), hex(&f[3]), "", "", "", &f[3..].join(" "));
            regions.insert(r.start_addr, r);
        }
    }
    regions
}

/// A sequence of numbers that looks random and is the same on every run.
fn draw(state: &mut u64) -> u64 {
    *state = state.wrapping_mul(6364136223846793005).wrapping_add(1442695040888963407);
    *state >> 33
}

#[test]
fn table_agrees_with_the_standard_library() {
    let pieces = [
        "|", "|", "|", " ", "\n", "\r\n", "\t", "1000", "2`000", "4,00kb", "1mb", "0,5gb", "Stack",
        "MEM_COMMIT", "<unknown>", "", "x", "5xx", "kb", "\u{a0}", "é",
    ];
    let mut state: u64 = 23;
    for _ in 0..3000 {
        let n = draw(&mut state) % 120;
        let mut text = String::from("h\nh\nh\n");
        for _ in 0..n {
            let p = if draw(&mut state) % 40 == 0 {
                pieces[(draw(&mut state) % pieces.len() as u64) as usize]
            } else {
                pieces[(draw(&mut state) % 15) as usize]
            };
            text.push_str(p);
        }
        assert_eq!(parse_maddress_memory_regions(&text), table_by_the_book(&text), "text {:?}", text);
    }
}

#[test]
fn map_agrees_with_the_standard_library() {
    let pieces = [
        " ", " ", "  ", "\t", "\n", "\r\n", "+", "1000", "2`000", "7ff`f0000000", "MEM_IMAGE",
        "MEM_COMMIT", "PAGE_READONLY", "Image", "<unknown>", "zz", "\u{3000}", "é", "`",
    ];
    let mut state: u64 = 29;
    for _ in 0..3000 {
        let n = draw(&mut state) % 120;
        let mut text = String::new();
        for _ in 0..n {
            text.push_str(pieces[(draw(&mut state) % pieces.len() as u64) as usize]);
        }
        assert_eq!(parse_address_memory_regions(&text), map_by_the_book(&text), "text {:?}", text);
    }
}
