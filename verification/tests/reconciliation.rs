use std::collections::HashMap;

use memory_regions::reconcile::reconcile;
use memory_regions::reconcile::regions_only_in;
use memory_regions::reconcile::total_size;
use memory_regions::reconcile::unaccounted_regions;
use memory_regions::region::MemoryRegion;
use memory_regions::size::bytes_to_human_readable;

fn region(start_addr: u64, size: u64, mem_type: &str) -> MemoryRegion {
    MemoryRegion {
        kind: String::new(),
        start_addr,
        end_addr: start_addr.wrapping_add(size),
        size,
        mem_type: mem_type.to_string(),
        state: String::new(),
        protection: String::new(),
        usage: String::new(),
    }
}

fn collection(regions: &[MemoryRegion]) -> HashMap<u64, MemoryRegion> {
    regions.iter().map(|r| (r.start_addr, r.clone())).collect()
}

fn sorted(mut entries: Vec<(u64, MemoryRegion)>) -> Vec<(u64, MemoryRegion)> {
    entries.sort_by_key(|e| e.0);
    entries
}

#[test]
fn region_clone_is_equal() {
    let r = MemoryRegion {
        kind: "Heap".to_string(),
        start_addr: 1,
        end_addr: 2,
        size: 3,
        mem_type: "MEM_PRIVATE".to_string(),
        state: "MEM_COMMIT".to_string(),
        protection: "PAGE_READWRITE".to_string(),
        usage: "<unknown>".to_string(),
    };
    assert_eq!(r.clone(), r);
}

#[test]
fn matched_and_unclassified_regions_are_not_unaccounted() {
    let native = collection(&[region(0x1000, 4096, "Private"), region(0x2000, 8192, "")]);
    let runtime = collection(&[region(0x1000, 4096, "whatever")]);
    let native_only = regions_only_in(&native, &runtime);
    assert_eq!(native_only, collection(&[region(0x2000, 8192, "")]));
    assert_eq!(unaccounted_regions(&native_only), vec![]);
    let found = reconcile(&runtime, &native);
    assert_eq!(found.native_only.len(), 1);
    assert!(found.native_only.contains_key(&0x2000));
    assert_eq!(found.unaccounted.len(), 0);
    assert_eq!(found.unaccounted_size, Some(0));
    assert_eq!(found.runtime_only.len(), 0);
}

#[test]
fn total_of_nothing_is_zero_bytes() {
    assert_eq!(total_size(&[]), Some(0));
    assert_eq!(bytes_to_human_readable(total_size(&[]).unwrap()), "0B");
}

#[test]
fn total_is_the_exact_sum() {
    let entries = vec![
        (1, region(1, 4096, "a")),
        (2, region(2, 1, "b")),
        (3, region(3, 0, "c")),
        (4, region(4, 1 << 40, "d")),
    ];
    assert_eq!(total_size(&entries), Some(4096 + 1 + (1 << 40)));
    assert_eq!(total_size(&entries[..1]), Some(4096));
    let large = vec![(1, region(1, u64::MAX - 1, "a")), (2, region(2, 1, "b"))];
    assert_eq!(total_size(&large), Some(u64::MAX));
}

#[test]
fn total_that_does_not_fit_is_none() {
    let entries = vec![
        (1, region(1, u64::MAX, "a")),
        (2, region(2, 1, "b")),
        (3, region(3, 5, "c")),
    ];
    assert_eq!(total_size(&entries), None);
    let entries = vec![(1, region(1, 1 << 63, "a")), (2, region(2, 1 << 63, "b"))];
    assert_eq!(total_size(&entries), None);
}

#[test]
fn differences_hold_no_key_of_the_other_side() {
    let a = collection(&[region(1, 10, "x"), region(2, 20, ""), region(3, 30, "y")]);
    let b = collection(&[region(2, 21, "p"), region(3, 31, ""), region(4, 41, "q")]);
    let a_only = regions_only_in(&a, &b);
    let b_only = regions_only_in(&b, &a);
    assert_eq!(a_only, collection(&[region(1, 10, "x")]));
    assert_eq!(b_only, collection(&[region(4, 41, "q")]));
    for k in a_only.keys() {
        assert!(!b.contains_key(k));
        assert!(!b_only.contains_key(k));
        assert_eq!(a_only[k], a[k]);
    }
    for k in b_only.keys() {
        assert!(!a.contains_key(k));
        assert_eq!(b_only[k], b[k]);
    }
    assert_eq!(regions_only_in(&a, &a).len(), 0);
    assert_eq!(regions_only_in(&a, &HashMap::new()), a);
    assert_eq!(regions_only_in(&HashMap::new(), &a).len(), 0);
}

#[test]
fn reconciliation_of_two_reports() {
    let native = collection(&[
        region(0x1000, 4096, "MEM_PRIVATE"),
        region(0x2000, 8192, "MEM_IMAGE"),
        region(0x4000, 100, ""),
        region(0x5000, 1500, "MEM_MAPPED"),
    ]);
    let runtime = collection(&[region(0x1000, 4096, ""), region(0x1800, 16, ""), region(0x3000, 7, "x")]);
    let found = reconcile(&runtime, &native);
    assert_eq!(
        found.native_only,
        collection(&[
            region(0x2000, 8192, "MEM_IMAGE"),
            region(0x4000, 100, ""),
            region(0x5000, 1500, "MEM_MAPPED"),
        ])
    );
    assert_eq!(
        sorted(found.unaccounted),
        vec![(0x2000, region(0x2000, 8192, "MEM_IMAGE")), (0x5000, region(0x5000, 1500, "MEM_MAPPED"))]
    );
    assert_eq!(found.unaccounted_size, Some(9692));
    assert_eq!(found.runtime_only, collection(&[region(0x1800, 16, ""), region(0x3000, 7, "x")]));
}

#[test]
fn unaccounted_regions_keep_their_keys() {
    let mut native_only = HashMap::new();
    native_only.insert(7, region(1, 10, "a"));
    native_only.insert(8, region(1, 20, ""));
    native_only.insert(9, region(1, 30, "b"));
    assert_eq!(
        sorted(unaccounted_regions(&native_only)),
        vec![(7, region(1, 10, "a")), (9, region(1, 30, "b"))]
    );
}

#[test]
fn reconciliation_of_many_regions() {
    let native: Vec<MemoryRegion> =
        (0..1000).map(|i| region(i * 16, i, if i % 3 == 0 { "" } else { "t" })).collect();
    let runtime: Vec<MemoryRegion> = (0..1000).filter(|i| i % 2 == 0).map(|i| region(i * 16, i, "")).collect();
    let found = reconcile(&collection(&runtime), &collection(&native));
    assert_eq!(found.native_only.len(), 500);
    let expected: Vec<(u64, MemoryRegion)> = (0..1000)
        .filter(|i| i % 2 == 1 && i % 3 != 0)
        .map(|i| (i * 16, region(i * 16, i, "t")))
        .collect();
    assert_eq!(found.unaccounted_size, Some(expected.iter().map(|e| e.1.size).sum()));
    assert_eq!(sorted(found.unaccounted), expected);
    assert_eq!(found.runtime_only.len(), 0);
}
