use rource::changes::{action_for, apply_changeset_limit, join_path, ChangeKind};
use rource::record::{GourceActionType, GourceLogFormat};

#[test]
fn change_kinds_map_to_actions() {
    assert_eq!(action_for(ChangeKind::Added), Some(GourceActionType::A));
    assert_eq!(action_for(ChangeKind::Deleted), Some(GourceActionType::D));
    for k in [ChangeKind::Modified, ChangeKind::Renamed, ChangeKind::Copied, ChangeKind::Typechange] {
        assert_eq!(action_for(k), Some(GourceActionType::M));
    }
    for k in [
        ChangeKind::Untracked,
        ChangeKind::Unmodified,
        ChangeKind::Unreadable,
        ChangeKind::Conflicted,
        ChangeKind::Ignored,
    ] {
        assert_eq!(action_for(k), None);
    }
}

#[test]
fn record_from_change_sanitizes_and_joins() {
    let r = GourceLogFormat::from_change(77, "A|B|C", ChangeKind::Renamed, "sub/repo", "x.rs").unwrap();
    assert_eq!(r.username, "A#B#C");
    assert_eq!(r.file, "sub/repo/x.rs");
    assert_eq!(r.kind, GourceActionType::M);
    assert_eq!(r.timestamp, 77);
    let top = GourceLogFormat::from_change(1, "me", ChangeKind::Added, "", "y.rs").unwrap();
    assert_eq!(top.file, "y.rs");
    assert!(GourceLogFormat::from_change(1, "me", ChangeKind::Ignored, "", "y.rs").is_none());
    assert_eq!(join_path("a", "b"), "a/b");
}

#[test]
fn oversized_commits_are_dropped() {
    let mk = |n: usize| -> Vec<GourceLogFormat> {
        (0..n)
            .map(|i| GourceLogFormat::from_change(i as i64, "u", ChangeKind::Added, "", "f").unwrap())
            .collect()
    };
    assert_eq!(apply_changeset_limit(mk(3), Some(3)).len(), 3);
    assert!(apply_changeset_limit(mk(4), Some(3)).is_empty());
    assert_eq!(apply_changeset_limit(mk(4), None).len(), 4);
}
