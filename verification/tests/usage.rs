use subvol_usage::error::AccountingError;
use subvol_usage::extent::Extent;
use subvol_usage::extent_set::ExtentSet;
use subvol_usage::record::{Record, Subvolume};
use subvol_usage::subvol_map::SubvolMap;
use subvol_usage::usage::{usage_result, usage_results, Usage, UsageResult};

fn set_of(extents: &[(u64, u64)]) -> ExtentSet {
    let mut set = ExtentSet::new();
    for &(disk_offset, length) in extents {
        set.insert(Extent { disk_offset, length });
    }
    set
}

fn map_of(subvolumes: &[(u64, &[(u64, u64)])]) -> SubvolMap {
    let mut map = SubvolMap::new();
    for &(id, extents) in subvolumes {
        map.insert(id, set_of(extents));
    }
    map
}

fn backref(id: u64, name: &str) -> Record {
    Record::RootBackRef(Subvolume { id, name: Some(name.to_string()) })
}

fn usage(total_bytes: u128, exclusive_bytes: u128) -> Usage {
    Usage { total_bytes, exclusive_bytes }
}

const A: u64 = 256;
const B: u64 = 257;
const C: u64 = 258;

#[test]
fn two_subvolumes_sharing_one_extent() {
    let map = map_of(&[(A, &[(100, 10), (200, 20)]), (B, &[(100, 10), (300, 30)])]);
    assert_eq!(map.usage(A), Some(usage(30, 20)));
    assert_eq!(map.usage(B), Some(usage(40, 30)));
}

#[test]
fn single_subvolume_owns_all_its_bytes() {
    let map = map_of(&[(A, &[(0, 4096)])]);
    assert_eq!(map.usage(A), Some(usage(4096, 4096)));
}

#[test]
fn subvolume_without_extents_uses_nothing() {
    let map = map_of(&[(A, &[]), (B, &[(100, 10)])]);
    assert_eq!(map.usage(A), Some(usage(0, 0)));
    assert_eq!(map.usage(B), Some(usage(10, 10)));
}

#[test]
fn usage_of_a_subvolume_that_the_map_lacks_is_none() {
    let map = map_of(&[(A, &[(0, 4096)])]);
    assert_eq!(map.usage(B), None);
    assert_eq!(SubvolMap::new().usage(A), None);
}

#[test]
fn map_holds_what_was_inserted() {
    let mut map = SubvolMap::new();
    assert_eq!(map.len(), 0);
    assert!(!map.contains(A));
    assert!(map.get(A).is_none());
    map.insert(A, set_of(&[(100, 10)]));
    map.insert(B, set_of(&[]));
    assert_eq!(map.len(), 2);
    assert!(map.contains(A));
    assert!(map.contains(B));
    assert!(!map.contains(C));
    assert_eq!(map.get(A).unwrap().total_bytes(), 10);
    assert!(map.get(B).unwrap().is_empty());
    let mut ids = map.ids();
    ids.sort();
    assert_eq!(ids, vec![A, B]);
}

#[test]
fn insert_replaces_the_extent_set() {
    let mut map = map_of(&[(A, &[(100, 10), (200, 20)])]);
    map.insert(A, set_of(&[(300, 30)]));
    assert_eq!(map.len(), 1);
    assert_eq!(map.usage(A), Some(usage(30, 30)));
}

#[test]
fn others_of_is_the_union_of_all_other_sets() {
    let map = map_of(&[
        (A, &[(100, 10), (200, 20)]),
        (B, &[(100, 10), (300, 30)]),
        (C, &[(300, 30), (400, 40)]),
    ]);
    let others = map.others_of(A);
    assert_eq!(others.len(), 3);
    assert!(others.contains(&Extent { disk_offset: 100, length: 10 }));
    assert!(others.contains(&Extent { disk_offset: 300, length: 30 }));
    assert!(others.contains(&Extent { disk_offset: 400, length: 40 }));
    assert!(!others.contains(&Extent { disk_offset: 200, length: 20 }));
    assert_eq!(map.others_of(999).len(), 4);
    assert!(map_of(&[(A, &[(1, 1)])]).others_of(A).is_empty());
}

#[test]
fn exclusive_never_exceeds_total() {
    let map = map_of(&[
        (A, &[(100, 10), (200, 20), (500, 0)]),
        (B, &[(100, 10), (300, 30), (500, 0)]),
        (C, &[(300, 30), (400, 40), (600, u64::MAX)]),
    ]);
    for id in [A, B, C] {
        let u = map.usage(id).unwrap();
        assert!(u.exclusive_bytes <= u.total_bytes);
    }
    assert_eq!(map.usage(A), Some(usage(30, 20)));
    assert_eq!(map.usage(B), Some(usage(40, 0)));
    assert_eq!(map.usage(C), Some(usage(70 + u64::MAX as u128, 40 + u64::MAX as u128)));
}

#[test]
fn sum_of_exclusives_stays_below_sum_of_totals_when_extents_are_shared() {
    let map = map_of(&[(A, &[(100, 10), (200, 20)]), (B, &[(100, 10), (300, 30)])]);
    let (a, b) = (map.usage(A).unwrap(), map.usage(B).unwrap());
    assert_eq!(a.exclusive_bytes + b.exclusive_bytes, 50);
    assert_eq!(a.total_bytes + b.total_bytes, 70);
}

#[test]
fn sums_agree_when_nothing_is_shared() {
    let map = map_of(&[(A, &[(100, 10), (200, 20)]), (B, &[(300, 30)]), (C, &[])]);
    let mut totals = 0;
    let mut exclusives = 0;
    for id in [A, B, C] {
        let u = map.usage(id).unwrap();
        totals += u.total_bytes;
        exclusives += u.exclusive_bytes;
    }
    assert_eq!(totals, 60);
    assert_eq!(exclusives, 60);
}

#[test]
fn a_shared_extent_of_length_zero_moves_no_count() {
    let map = map_of(&[(A, &[(100, 10), (500, 0)]), (B, &[(300, 30), (500, 0)])]);
    assert_eq!(map.usage(A), Some(usage(10, 10)));
    assert_eq!(map.usage(B), Some(usage(30, 30)));
}

#[test]
fn accounting_twice_gives_the_same_bytes() {
    let build = || {
        map_of(&[
            (A, &[(100, 10), (200, 20)]),
            (B, &[(100, 10), (300, 30)]),
            (C, &[(200, 20)]),
        ])
    };
    let (first, second) = (build(), build());
    for id in [A, B, C] {
        assert_eq!(first.usage(id), second.usage(id));
        assert_eq!(first.usage(id), first.usage(id));
    }
    assert_eq!(first.usage(A), Some(usage(30, 0)));
    assert_eq!(first.usage(B), Some(usage(40, 30)));
    assert_eq!(first.usage(C), Some(usage(20, 0)));
}

#[test]
fn the_order_of_insertion_does_not_matter() {
    let first = map_of(&[(A, &[(100, 10), (200, 20)]), (B, &[(100, 10), (300, 30)])]);
    let second = map_of(&[(B, &[(300, 30), (100, 10)]), (A, &[(200, 20), (100, 10)])]);
    assert_eq!(first.usage(A), second.usage(A));
    assert_eq!(first.usage(B), second.usage(B));
}

#[test]
fn isolated_subvolume_has_all_its_bytes_to_itself() {
    let map = map_of(&[
        (A, &[(100, 10), (200, 20)]),
        (B, &[(300, 30), (400, 40)]),
        (C, &[(300, 30)]),
    ]);
    assert_eq!(map.usage(A), Some(usage(30, 30)));
}

#[test]
fn fully_shared_subvolume_has_no_bytes_to_itself() {
    let map = map_of(&[
        (A, &[(100, 10), (200, 20)]),
        (B, &[(100, 10), (200, 20), (300, 30)]),
        (C, &[(200, 20), (100, 10)]),
    ]);
    assert_eq!(map.usage(A), Some(usage(30, 0)));
    assert_eq!(map.usage(C), Some(usage(30, 0)));
    assert_eq!(map.usage(B), Some(usage(60, 30)));
}

#[test]
fn outcome_carries_the_first_name_given() {
    let map = map_of(&[(A, &[(100, 10), (200, 20)]), (B, &[(100, 10), (300, 30)])]);
    let records = vec![Record::Other, backref(B, "b"), backref(A, "a"), backref(A, "later")];
    assert_eq!(
        usage_result(&map, &records, A),
        Ok(UsageResult { id: A, name: Some("a".to_string()), usage: usage(30, 20) })
    );
    assert_eq!(
        usage_result(&map, &records, B),
        Ok(UsageResult { id: B, name: Some("b".to_string()), usage: usage(40, 30) })
    );
}

#[test]
fn outcome_keeps_a_name_that_is_not_text() {
    let map = map_of(&[(A, &[(100, 10)])]);
    let records = vec![Record::RootBackRef(Subvolume { id: A, name: None })];
    assert_eq!(
        usage_result(&map, &records, A),
        Ok(UsageResult { id: A, name: None, usage: usage(10, 10) })
    );
}

#[test]
fn outcome_without_a_name_is_an_error() {
    let map = map_of(&[(A, &[(100, 10)])]);
    let records = vec![backref(B, "b"), Record::Other];
    assert_eq!(usage_result(&map, &records, A), Err(AccountingError::NameNotFound { id: A }));
    assert_eq!(usage_result(&map, &vec![], A), Err(AccountingError::NameNotFound { id: A }));
}

#[test]
fn outcome_for_a_subvolume_that_the_map_lacks_is_an_error() {
    let map = map_of(&[(A, &[(100, 10)])]);
    let records = vec![backref(A, "a"), backref(B, "b")];
    assert_eq!(usage_result(&map, &records, B), Err(AccountingError::UnknownSubvolume { id: B }));
    assert_eq!(usage_result(&map, &vec![], C), Err(AccountingError::UnknownSubvolume { id: C }));
}

fn id_of(outcome: &Result<UsageResult, AccountingError>) -> u64 {
    match outcome {
        Ok(result) => result.id,
        Err(AccountingError::NameNotFound { id }) => *id,
        Err(AccountingError::UnknownSubvolume { id }) => *id,
        Err(other) => panic!("no id in {:?}", other),
    }
}

#[test]
fn fan_out_gives_one_outcome_for_each_subvolume() {
    let map = map_of(&[
        (A, &[(100, 10), (200, 20)]),
        (B, &[(100, 10), (300, 30)]),
        (C, &[]),
    ]);
    let records = vec![backref(A, "a"), backref(B, "b"), backref(C, "c")];
    let mut outcomes = usage_results(&map, &records);
    outcomes.sort_by_key(id_of);
    assert_eq!(
        outcomes,
        vec![
            Ok(UsageResult { id: A, name: Some("a".to_string()), usage: usage(30, 20) }),
            Ok(UsageResult { id: B, name: Some("b".to_string()), usage: usage(40, 30) }),
            Ok(UsageResult { id: C, name: Some("c".to_string()), usage: usage(0, 0) }),
        ]
    );
}

#[test]
fn fan_out_keeps_the_others_when_one_name_is_missing() {
    let map = map_of(&[(A, &[(100, 10), (200, 20)]), (B, &[(100, 10), (300, 30)])]);
    let records = vec![backref(B, "b")];
    let mut outcomes = usage_results(&map, &records);
    outcomes.sort_by_key(id_of);
    assert_eq!(
        outcomes,
        vec![
            Err(AccountingError::NameNotFound { id: A }),
            Ok(UsageResult { id: B, name: Some("b".to_string()), usage: usage(40, 30) }),
        ]
    );
}

#[test]
fn fan_out_over_the_empty_map_gives_nothing() {
    assert_eq!(usage_results(&SubvolMap::new(), &vec![backref(A, "a")]), vec![]);
}

#[test]
fn fan_out_agrees_with_the_calculator_on_many_subvolumes() {
    let mut map = SubvolMap::new();
    let mut records = Vec::new();
    for id in 0..200u64 {
        let mut set = ExtentSet::new();
        set.insert(Extent { disk_offset: 0, length: 1000 });
        set.insert(Extent { disk_offset: 4096 * (id + 1), length: id });
        map.insert(id, set);
        records.push(backref(id, "subvolume"));
    }
    let outcomes = usage_results(&map, &records);
    assert_eq!(outcomes.len(), 200);
    let mut seen = vec![false; 200];
    for outcome in &outcomes {
        let result = outcome.as_ref().unwrap();
        assert!(!seen[result.id as usize]);
        seen[result.id as usize] = true;
        assert_eq!(Some(result.usage), map.usage(result.id));
        assert_eq!(result.usage, usage(1000 + result.id as u128, result.id as u128));
    }
    assert!(seen.iter().all(|&s| s));
}
