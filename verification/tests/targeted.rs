use subvol_usage::extent::Extent;
use subvol_usage::extent_set::ExtentSet;
use subvol_usage::record::{Record, Subvolume};
use subvol_usage::subvol_map::SubvolMap;
use subvol_usage::targeted::TargetedComparison;
use subvol_usage::usage::Usage;

fn file_extent(disk_offset: u64, length: u64) -> Record {
    Record::FileExtent(Extent { disk_offset, length })
}

fn tree_of(extents: &[(u64, u64)]) -> Vec<Record> {
    let mut records = vec![Record::Other];
    for &(disk_offset, length) in extents {
        records.push(file_extent(disk_offset, length));
        records.push(Record::Other);
    }
    records
}

fn usage(total_bytes: u128, exclusive_bytes: u128) -> Usage {
    Usage { total_bytes, exclusive_bytes }
}

const A: u64 = 256;
const B: u64 = 257;
const C: u64 = 258;

#[test]
fn targeted_comparison_of_a_against_b() {
    let a = tree_of(&[(100, 10), (200, 20)]);
    let b = tree_of(&[(100, 10), (300, 30)]);
    let mut comparison = TargetedComparison::new(A, ExtentSet::from_records(&a));
    assert_eq!(comparison.usage(), usage(30, 30));
    comparison.scan(B, &b);
    assert_eq!(comparison.usage(), usage(30, 20));
}

#[test]
fn targeted_comparison_record_by_record() {
    let a = tree_of(&[(100, 10), (200, 20)]);
    let mut comparison = TargetedComparison::new(A, ExtentSet::from_records(&a));
    comparison.prune(&Record::Other);
    comparison.prune(&Record::RootBackRef(Subvolume { id: B, name: None }));
    assert_eq!(comparison.usage(), usage(30, 30));
    comparison.prune(&file_extent(300, 30));
    assert_eq!(comparison.usage(), usage(30, 30));
    comparison.prune(&file_extent(100, 10));
    assert_eq!(comparison.usage(), usage(30, 20));
    comparison.prune(&file_extent(100, 10));
    assert_eq!(comparison.usage(), usage(30, 20));
    comparison.prune(&file_extent(200, 20));
    assert_eq!(comparison.usage(), usage(30, 0));
}

#[test]
fn the_target_is_not_compared_against_itself() {
    let a = tree_of(&[(100, 10), (200, 20)]);
    let mut comparison = TargetedComparison::new(A, ExtentSet::from_records(&a));
    assert_eq!(comparison.target(), A);
    assert!(!comparison.is_other(A));
    assert!(comparison.is_other(B));
    comparison.scan(A, &a);
    assert_eq!(comparison.usage(), usage(30, 30));
}

#[test]
fn a_pruned_extent_never_comes_back() {
    let a = tree_of(&[(100, 10), (200, 20)]);
    let mut comparison = TargetedComparison::new(A, ExtentSet::from_records(&a));
    comparison.scan(B, &tree_of(&[(100, 10)]));
    comparison.scan(C, &tree_of(&[]));
    comparison.scan(A, &a);
    assert_eq!(comparison.usage(), usage(30, 20));
}

#[test]
fn a_target_without_extents_uses_nothing() {
    let mut comparison = TargetedComparison::new(A, ExtentSet::new());
    comparison.scan(B, &tree_of(&[(100, 10)]));
    assert_eq!(comparison.usage(), usage(0, 0));
}

#[test]
fn a_target_compared_against_nothing_keeps_everything() {
    let comparison = TargetedComparison::new(A, ExtentSet::from_records(&tree_of(&[(0, 4096)])));
    assert_eq!(comparison.usage(), usage(4096, 4096));
}

#[test]
fn targeted_comparison_equals_the_full_scan_for_every_target() {
    let trees: Vec<(u64, Vec<Record>)> = vec![
        (A, tree_of(&[(100, 10), (200, 20), (700, 0)])),
        (B, tree_of(&[(100, 10), (300, 30), (700, 0)])),
        (C, tree_of(&[(300, 30), (400, 40), (500, u64::MAX)])),
        (259, tree_of(&[])),
    ];
    let mut map = SubvolMap::new();
    for (id, records) in &trees {
        map.insert(*id, ExtentSet::from_records(records));
    }
    for (target, records) in &trees {
        let mut forward = TargetedComparison::new(*target, ExtentSet::from_records(records));
        for (id, other) in trees.iter() {
            forward.scan(*id, other);
        }
        let mut backward = TargetedComparison::new(*target, ExtentSet::from_records(records));
        for (id, other) in trees.iter().rev() {
            if backward.is_other(*id) {
                for record in other {
                    backward.prune(record);
                }
            }
        }
        assert_eq!(Some(forward.usage()), map.usage(*target));
        assert_eq!(Some(backward.usage()), map.usage(*target));
    }
    assert_eq!(map.usage(A), Some(usage(30, 20)));
    assert_eq!(map.usage(B), Some(usage(40, 0)));
    assert_eq!(map.usage(C), Some(usage(70 + u64::MAX as u128, 40 + u64::MAX as u128)));
    assert_eq!(map.usage(259), Some(usage(0, 0)));
}
