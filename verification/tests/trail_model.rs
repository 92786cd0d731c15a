use strata::model::Location;
use strata::trail::{Trail, TrailCollection, TrailId};

#[test]
fn trail_requires_a_name_and_location() {
    let id = TrailId::new("trail-1").expect("valid id");
    assert!(Trail::new(id.clone(), "", vec![Location::local("/tmp")]).is_none());
    assert!(Trail::new(id.clone(), "Work", Vec::new()).is_none());
    assert!(Trail::new(id, "Work", vec![Location::local("/tmp")]).is_some());
}

#[test]
fn collection_repairs_a_missing_active_trail() {
    let trail = Trail::new(
        TrailId::new("available").expect("valid id"),
        "Available",
        vec![Location::local("/tmp")],
    )
    .expect("valid trail");
    let mut collection = TrailCollection {
        trails: vec![trail],
        active: TrailId::new("missing"),
    };

    collection.normalize();

    assert_eq!(collection.active_trail(), collection.trails.first());
}
