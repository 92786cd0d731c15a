//! Persisting Trails: the stored record and the store that keeps it.

use std::rc::Rc;
use vstd::prelude::*;
use vstd::std_specs::cmp::PartialEqSpecImpl;

use crate::trail::{same_collection, CollectionView, TrailCollection, TrailView};

verus! {

/// `std::io::Error`, the failure a store reports. It is declared opaque: nothing inside an error
/// is looked at or stated; errors are only passed on.
#[verifier::external_type_specification]
#[verifier::external_body]
pub struct ExIoError(std::io::Error);

/// The current version of the stored Trail record.
pub const TRAIL_SCHEMA_VERSION: u32 = 1;

/// The record of Trails a store keeps.
#[derive(Debug)]
pub struct StoredTrails {
    pub schema_version: u32,
    pub collection: TrailCollection,
}

/// What a stored record holds.
#[verifier::ext_equal]
pub struct StoredView {
    pub schema_version: u32,
    pub collection: CollectionView,
}

impl View for StoredTrails {
    type V = StoredView;

    open spec fn view(&self) -> StoredView {
        StoredView { schema_version: self.schema_version, collection: self.collection@ }
    }
}

/// The record a store holds before anything was saved: the current version, no Trails.
pub open spec fn empty_record(r: StoredView) -> bool {
    &&& r.schema_version == TRAIL_SCHEMA_VERSION
    &&& r.collection.trails == Seq::<TrailView>::empty()
    &&& r.collection.active is None
}

impl Default for StoredTrails {
    fn default() -> (r: StoredTrails)
        ensures
            empty_record(r@),
    {
        StoredTrails { schema_version: TRAIL_SCHEMA_VERSION, collection: TrailCollection::default() }
    }
}

impl Clone for StoredTrails {
    fn clone(&self) -> (r: StoredTrails)
        ensures
            r@ == self@,
    {
        StoredTrails { schema_version: self.schema_version, collection: self.collection.clone() }
    }
}

impl PartialEq for StoredTrails {
    fn eq(&self, other: &StoredTrails) -> (r: bool) {
        self.schema_version == other.schema_version && self.collection == other.collection
    }
}

impl PartialEqSpecImpl for StoredTrails {
    open spec fn obeys_eq_spec() -> bool {
        true
    }

    open spec fn eq_spec(&self, other: &StoredTrails) -> bool {
        self.schema_version == other.schema_version && same_collection(
            self.collection@,
            other.collection@,
        )
    }
}

impl Eq for StoredTrails {

}

/// Where Trails are kept between sessions. Implementations decide how and where; nothing is
/// assumed of what they return.
pub trait TrailStore {
    fn load(&self) -> std::io::Result<StoredTrails>;

    fn save(&self, trails: &StoredTrails) -> std::io::Result<()>;
}

/// A shared store: each call is answered by the store it shares, with whatever that store answers.
impl<T: TrailStore> TrailStore for Rc<T> {
    fn load(&self) -> (r: std::io::Result<StoredTrails>)
        ensures
            call_ensures(T::load, (&**self,), r),
    {
        (**self).load()
    }

    fn save(&self, trails: &StoredTrails) -> (r: std::io::Result<()>)
        ensures
            call_ensures(T::save, (&**self, trails), r),
    {
        (**self).save(trails)
    }
}

} // verus!
