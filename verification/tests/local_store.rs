use strata::local_store::{LocalTrailStore, StoreFormatError, TrailFile};
use strata::model::Location;
use strata::services::{StoredTrails, TRAIL_SCHEMA_VERSION};
use strata::trail::{Trail, TrailCollection, TrailId};

fn work_record() -> StoredTrails {
    let trail = Trail::new(
        TrailId::new("work").expect("valid id"),
        "Work",
        vec![Location::local("/tmp")],
    )
    .expect("valid trail");
    StoredTrails {
        schema_version: TRAIL_SCHEMA_VERSION,
        collection: TrailCollection {
            active: Some(trail.id.clone()),
            trails: vec![trail],
        },
    }
}

#[test]
fn missing_store_loads_defaults() {
    let store = LocalTrailStore::at(b"/nonexistent/strata/trails.toml".to_vec());
    let stored = store.load(None).expect("load defaults");
    assert_eq!(stored, StoredTrails::default());
}

#[test]
fn store_round_trips_atomically() {
    let store = LocalTrailStore::at(b"/config/strata/trails.toml".to_vec());
    let stored = work_record();

    let file = store.save(&stored).expect("save trails");

    assert_eq!(store.load(Some(file)).expect("load trails"), stored);
    assert_eq!(store.temporary_path(), b"/config/strata/trails.toml.tmp".to_vec());
}

#[test]
fn future_schema_is_rejected() {
    let store = LocalTrailStore::at(b"/config/strata/trails.toml".to_vec());
    let file = TrailFile {
        schema_version: 999,
        collection: TrailCollection::default(),
    };

    let error = store.load(Some(file)).expect_err("reject future schema");

    assert_eq!(error, StoreFormatError::UnsupportedSchema(999));
    assert_eq!(error.message(), "unsupported Trail schema version 999");
}

#[test]
fn only_the_current_schema_is_saved() {
    let store = LocalTrailStore::at(b"trails.toml".to_vec());
    let mut stored = work_record();
    stored.schema_version = 0;
    let error = store.save(&stored).expect_err("reject old schema");
    assert_eq!(error, StoreFormatError::NotCurrentSchema);
    assert_eq!(error.message(), "only the current Trail schema can be saved");
}

#[test]
fn loading_repairs_the_collection() {
    let store = LocalTrailStore::at(b"trails.toml".to_vec());
    let mut record = work_record();
    let empty = Trail {
        id: TrailId::new("empty").expect("valid id"),
        name: "Empty".to_string(),
        locations: Vec::new(),
        view: Default::default(),
        pinned: false,
    };
    record.collection.trails.insert(0, empty);
    record.collection.active = TrailId::new("empty");
    let loaded = store
        .load(Some(TrailFile {
            schema_version: 1,
            collection: record.collection,
        }))
        .expect("load");
    assert_eq!(loaded, work_record());
}

#[test]
fn temporary_path_replaces_the_extension() {
    let temp = |path: &[u8]| LocalTrailStore::at(path.to_vec()).temporary_path();
    assert_eq!(temp(b"/x/trails.toml"), b"/x/trails.toml.tmp".to_vec());
    assert_eq!(temp(b"/x/a.b.c"), b"/x/a.b.toml.tmp".to_vec());
    assert_eq!(temp(b"/x/.hidden"), b"/x/.hidden.toml.tmp".to_vec());
    assert_eq!(temp(b"/x/trails/"), b"/x/trails.toml.tmp".to_vec());
    assert_eq!(temp(b"/"), b"/".to_vec());
    assert_eq!(temp(b"/x/.."), b"/x/..".to_vec());
}
