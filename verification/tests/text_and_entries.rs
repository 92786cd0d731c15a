use strata::model::{EntryKind, FileEntry, Location, MetadataValue, SortDirection, SortKey, ViewPreferences};
use strata::trail::{BrowserDensity, BrowserMode, TrailCollection, TrailId, TrailViewState};

#[test]
fn blank_identifiers_are_refused() {
    assert!(TrailId::new("").is_none());
    assert!(TrailId::new(" \t\n").is_none());
    assert!(TrailId::new("\u{3000}\u{a0}").is_none());
    assert_eq!(TrailId::new(" a ").expect("id").as_str(), " a ");
}

#[test]
fn defaults() {
    let prefs = ViewPreferences::default();
    assert!(!prefs.show_hidden);
    assert!(prefs.folders_first);
    assert_eq!(prefs.sort_key, SortKey::Name);
    assert_eq!(prefs.sort_direction, SortDirection::Ascending);
    let view = TrailViewState::default();
    assert_eq!(view.browser_mode, BrowserMode::Columns);
    assert_eq!(view.density, BrowserDensity::Compact);
    assert!(!view.sidebar_open);
    assert!(!view.preview_open);
    let collection = TrailCollection::default();
    assert!(collection.trails.is_empty());
    assert!(collection.active.is_none());
}

#[test]
fn normalizing_twice_changes_nothing_more() {
    let mut collection = TrailCollection {
        trails: Vec::new(),
        active: TrailId::new("gone"),
    };
    collection.normalize();
    assert!(collection.active.is_none());
    let once = collection.clone();
    collection.normalize();
    assert_eq!(collection, once);
}

fn entry(kind: EntryKind) -> FileEntry {
    FileEntry {
        location: Location::local("/tmp/x"),
        native_name: b"x".to_vec(),
        display_name: "x".to_string(),
        kind,
        size: MetadataValue::Known(3),
        modified_unix_seconds: MetadataValue::Unknown,
    }
}

#[test]
fn entry_kinds() {
    assert!(entry(EntryKind::Directory).is_directory());
    assert!(entry(EntryKind::DirectorySymbolicLink).is_directory());
    assert!(!entry(EntryKind::File).is_directory());
    assert!(entry(EntryKind::FileSymbolicLink).is_symbolic_link());
    assert!(entry(EntryKind::SymbolicLink).is_symbolic_link());
    assert!(!entry(EntryKind::Other).is_symbolic_link());
    assert!(entry(EntryKind::SymbolicLink).is_broken_symbolic_link());
    assert!(!entry(EntryKind::FileSymbolicLink).is_broken_symbolic_link());
}
