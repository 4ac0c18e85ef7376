use subvol_usage::error::AccountingError;
use subvol_usage::record::{Record, Subvolume, Tree};

fn backref(id: u64, name: Option<&str>) -> Record {
    Record::RootBackRef(Subvolume { id, name: name.map(|text| text.to_string()) })
}

#[test]
fn each_error_has_its_message() {
    assert_eq!(AccountingError::WalkRoot.message(), "failed to walk root tree");
    assert_eq!(
        AccountingError::WalkSubvolume { name: "home".to_string() }.message(),
        "failed to walk subvolume tree: home"
    );
    assert_eq!(
        AccountingError::NameNotFound { id: 257 }.message(),
        "failed to find name for subvolume 257"
    );
    assert_eq!(
        AccountingError::UnknownSubvolume { id: 0 }.message(),
        "no extents collected for subvolume 0"
    );
    assert_eq!(
        AccountingError::NameNotFound { id: u64::MAX }.message(),
        "failed to find name for subvolume 18446744073709551615"
    );
}

#[test]
fn a_failed_root_walk_is_told_as_such() {
    let records = vec![backref(256, Some("root"))];
    assert_eq!(AccountingError::walk_failed(Tree::Root, &records), AccountingError::WalkRoot);
    assert_eq!(AccountingError::walk_failed(Tree::Root, &vec![]), AccountingError::WalkRoot);
}

#[test]
fn a_failed_subvolume_walk_names_the_subvolume() {
    let records = vec![
        Record::Other,
        backref(256, Some("root")),
        backref(257, Some("home")),
        backref(257, Some("other")),
    ];
    assert_eq!(
        AccountingError::walk_failed(Tree::Subvolume(257), &records),
        AccountingError::WalkSubvolume { name: "home".to_string() }
    );
}

#[test]
fn a_failed_walk_of_a_subvolume_without_a_text_name_shows_a_question_mark() {
    let records = vec![backref(256, None)];
    assert_eq!(
        AccountingError::walk_failed(Tree::Subvolume(256), &records),
        AccountingError::WalkSubvolume { name: "?".to_string() }
    );
    assert_eq!(
        AccountingError::walk_failed(Tree::Subvolume(999), &records),
        AccountingError::WalkSubvolume { name: "?".to_string() }
    );
    assert_eq!(
        AccountingError::walk_failed(Tree::Subvolume(999), &records).message(),
        "failed to walk subvolume tree: ?"
    );
}
