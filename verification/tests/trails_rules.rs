use std::{cell::RefCell, io, rc::Rc};

use strata::model::Location;
use strata::services::{StoredTrails, TrailStore};
use strata::tabs::{pin_tooltip, tab_strip};
use strata::trail::{BrowserMode, TrailId, TrailViewState};
use strata::trails::{Trails, TrailsError};

#[derive(Default)]
struct Memory {
    value: RefCell<StoredTrails>,
    saves: RefCell<usize>,
}

impl TrailStore for Memory {
    fn load(&self) -> io::Result<StoredTrails> {
        Ok(self.value.borrow().clone())
    }

    fn save(&self, trails: &StoredTrails) -> io::Result<()> {
        self.value.replace(trails.clone());
        *self.saves.borrow_mut() += 1;
        Ok(())
    }
}

struct Broken;

impl TrailStore for Broken {
    fn load(&self) -> io::Result<StoredTrails> {
        Err(io::Error::other("unavailable"))
    }

    fn save(&self, _trails: &StoredTrails) -> io::Result<()> {
        Err(io::Error::other("unavailable"))
    }
}

fn three() -> (Trails<Rc<Memory>>, Rc<Memory>) {
    let store = Rc::new(Memory::default());
    let mut trails = Trails::empty(store.clone());
    trails
        .ensure_default(Location::local("/home/example"))
        .expect("default");
    trails.create("Two", Location::local("/two")).expect("two");
    trails.create("Three", Location::local("/three")).expect("three");
    (trails, store)
}

fn active_name(trails: &Trails<Rc<Memory>>) -> String {
    let id = trails.active_id().expect("active");
    trails
        .all()
        .into_iter()
        .find(|t| t.id == id)
        .expect("active trail")
        .name
}

#[test]
fn default_trail_is_named_after_its_location() {
    let (trails, _) = three();
    let all = trails.all();
    assert_eq!(all[0].id.as_str(), "default");
    assert_eq!(all[0].name, "example");
    assert_eq!(
        all[0].locations,
        vec![
            Location::local("/"),
            Location::local("/home"),
            Location::local("/home/example")
        ]
    );
    assert!(all[0].view.sidebar_open);
    assert!(!all[0].pinned);
}

#[test]
fn ensure_default_does_nothing_once_there_are_trails() {
    let (mut trails, store) = three();
    let saves = *store.saves.borrow();
    trails
        .ensure_default(Location::local("/elsewhere"))
        .expect("nothing to do");
    assert_eq!(trails.all().len(), 3);
    assert_eq!(*store.saves.borrow(), saves);
}

#[test]
fn a_blank_location_name_makes_no_default_trail() {
    let mut trails = Trails::empty(Rc::new(Memory::default()));
    assert!(!trails
        .ensure_default_if_named(Location::uri("///"))
        .expect("no error"));
    assert!(trails.all().is_empty());
    assert!(trails
        .ensure_default_if_named(Location::local("/home/example"))
        .expect("default"));
    assert_eq!(trails.all().len(), 1);
    assert!(trails
        .ensure_default_if_named(Location::uri("///"))
        .expect("already there"));
}

#[test]
fn identifiers_skip_those_in_use() {
    let (mut trails, _) = three();
    let ids: Vec<String> = trails.all().iter().map(|t| t.id.as_str().to_string()).collect();
    assert_eq!(ids, vec!["default", "trail-2", "trail-3"]);
    trails
        .close(&TrailId::new("trail-2").expect("id"))
        .expect("close");
    let created = trails.create("Four", Location::local("/four")).expect("four");
    assert_eq!(created.as_str(), "trail-4");
}

#[test]
fn create_refuses_a_blank_name() {
    let (mut trails, _) = three();
    assert!(matches!(
        trails.create(" \t", Location::local("/x")),
        Err(TrailsError::BlankName)
    ));
    assert_eq!(trails.all().len(), 3);
}

#[test]
fn create_with_view_keeps_the_view() {
    let (mut trails, _) = three();
    let view = TrailViewState {
        browser_mode: BrowserMode::Grid,
        ..TrailViewState::default()
    };
    trails
        .create_with_view("Grid", Location::local("/g"), view)
        .expect("create");
    assert_eq!(trails.active_view(), Some(view));
    assert_eq!(trails.active_location(), Some(Location::local("/g")));
}

#[test]
fn cycling_wraps_around() {
    let (mut trails, _) = three();
    assert_eq!(active_name(&trails), "Three");
    assert_eq!(
        trails.cycle(1).expect("cycle"),
        Some(Location::local("/home/example"))
    );
    assert_eq!(active_name(&trails), "example");
    trails.cycle(-1).expect("cycle");
    assert_eq!(active_name(&trails), "Three");
    trails.cycle(-4).expect("cycle");
    assert_eq!(active_name(&trails), "Two");
    trails.cycle(isize::MIN).expect("cycle");
    assert_eq!(active_name(&trails), "Three");
    trails.cycle(isize::MAX).expect("cycle");
    assert_eq!(active_name(&trails), "example");
    let mut empty = Trails::empty(Rc::new(Memory::default()));
    assert_eq!(empty.cycle(3).expect("cycle"), None);
}

#[test]
fn rename_and_pin_report_missing_trails() {
    let (mut trails, _) = three();
    let missing = TrailId::new("missing").expect("id");
    assert!(!trails.rename(&missing, "Name").expect("rename"));
    assert!(!trails.toggle_pinned(&missing).expect("pin"));
    let two = TrailId::new("trail-2").expect("id");
    assert!(matches!(trails.rename(&two, "  "), Err(TrailsError::BlankName)));
    assert!(trails.toggle_pinned(&two).expect("pin"));
    assert!(!trails.toggle_pinned(&two).expect("unpin"));
}

#[test]
fn closing_the_last_active_trail_selects_the_new_last() {
    let (mut trails, _) = three();
    let three_id = TrailId::new("trail-3").expect("id");
    assert_eq!(
        trails.close(&three_id).expect("close"),
        Some(Location::local("/two"))
    );
    assert_eq!(active_name(&trails), "Two");
    assert!(trails
        .close(&TrailId::new("missing").expect("id"))
        .expect("close")
        .is_none());
}

#[test]
fn unchanged_views_and_locations_are_not_saved() {
    let (mut trails, store) = three();
    let saves = *store.saves.borrow();
    trails
        .update_active_location(Location::local("/three/"))
        .expect("same place");
    trails
        .update_active_view(trails.active_view().expect("view"))
        .expect("same view");
    assert_eq!(*store.saves.borrow(), saves);
    let view = TrailViewState {
        preview_open: true,
        ..trails.active_view().expect("view")
    };
    trails.update_active_view(view).expect("new view");
    assert_eq!(*store.saves.borrow(), saves + 1);
    assert_eq!(trails.active_view(), Some(view));
}

#[test]
fn store_failures_are_reported() {
    assert!(Trails::load(Broken).is_err());
    let mut trails = Trails::empty(Broken);
    assert!(trails.ensure_default(Location::local("/home/example")).is_err());
    assert_eq!(trails.all().len(), 1);
}

#[test]
fn tab_strip_shows_each_trail() {
    let (trails, _) = three();
    let strip = tab_strip(&trails.all(), &trails.active_id());
    assert!(strip.visible);
    assert_eq!(strip.tabs.len(), 3);
    assert_eq!(strip.tabs[2].label, "Three");
    assert_eq!(strip.tabs[2].tooltip.as_deref(), Some("/three"));
    assert!(strip.tabs[2].active);
    assert!(!strip.tabs[0].active);
    assert!(strip.tabs.iter().all(|t| t.closable));
    assert_eq!(pin_tooltip(true), "Unpin Tab");
    assert_eq!(pin_tooltip(false), "Pin Tab");

    let single = tab_strip(&trails.all()[..1].to_vec(), &None);
    assert!(!single.visible);
    assert!(!single.tabs[0].closable);
}

#[test]
fn every_change_saves_the_collection_it_leaves() {
    let (mut trails, store) = three();
    let second = trails.all()[1].id.clone();
    let held = |trails: &Trails<Rc<Memory>>, store: &Rc<Memory>| {
        let saved = store.value.borrow();
        assert_eq!(saved.collection.trails, trails.all());
        assert_eq!(saved.collection.active, trails.active_id());
    };
    held(&trails, &store);
    trails.activate(&second).expect("activate");
    held(&trails, &store);
    trails.cycle(1).expect("cycle");
    held(&trails, &store);
    trails.rename(&second, "Renamed").expect("rename");
    held(&trails, &store);
    trails.toggle_pinned(&second).expect("pin");
    held(&trails, &store);
    trails
        .update_active_location(Location::local("/elsewhere/deeper"))
        .expect("navigate");
    held(&trails, &store);
    trails.close(&second).expect("close");
    held(&trails, &store);
    assert_eq!(store.value.borrow().collection.trails.len(), 2);
}

#[test]
fn a_failing_save_is_passed_on_after_the_change() {
    let mut trails = Trails::empty(Broken);
    assert!(trails.ensure_default(Location::local("/home/example")).is_err());
    assert!(matches!(
        trails.create("Two", Location::local("/two")),
        Err(TrailsError::Store(_))
    ));
    assert_eq!(trails.all().len(), 2);
    let first = trails.all()[0].id.clone();
    assert!(matches!(trails.rename(&first, "Home"), Err(TrailsError::Store(_))));
    assert_eq!(trails.all()[0].name, "Home");
    assert!(trails.toggle_pinned(&first).is_err());
    assert!(trails.all()[0].pinned);
    assert!(trails.activate(&first).is_err());
    assert_eq!(trails.active_id(), Some(first.clone()));
    assert!(trails.cycle(1).is_err());
    assert_ne!(trails.active_id(), Some(first.clone()));
    assert!(trails.close(&first).is_err());
    assert_eq!(trails.all().len(), 1);
    assert!(!trails.rename(&TrailId::new("missing").expect("id"), "x").expect("no save"));
}

#[test]
fn a_blank_name_is_refused_before_anything_is_saved() {
    let (mut trails, store) = three();
    let saves = *store.saves.borrow();
    let first = trails.all()[0].id.clone();
    let missing = TrailId::new("missing").expect("id");
    assert!(matches!(trails.rename(&first, ""), Err(TrailsError::BlankName)));
    assert!(matches!(trails.rename(&missing, " "), Err(TrailsError::BlankName)));
    assert!(matches!(
        trails.create_with_view("\n", Location::local("/y"), TrailViewState::default()),
        Err(TrailsError::BlankName)
    ));
    assert_eq!(*store.saves.borrow(), saves);
    assert_eq!(trails.all().len(), 3);
    assert_eq!(trails.all()[0].name, "example");
}
