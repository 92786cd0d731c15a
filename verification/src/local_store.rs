//! The rules of the Trail file kept on the local disk: where it is written first, which records
//! it accepts when read, and which it agrees to write.

use vstd::prelude::*;

use crate::path::{with_extension, with_extension_of};
use crate::services::{StoredTrails, StoredView, TRAIL_SCHEMA_VERSION};
use crate::text::{append_decimal, decimal};
use crate::trail::{consistent, normalized, TrailCollection};

verus! {

/// The Trail file at a native path.
#[derive(Debug)]
pub struct LocalTrailStore {
    path: Vec<u8>,
}

/// Why a Trail record was refused.
#[derive(Debug, Clone, Copy, PartialEq, Eq, Structural)]
pub enum StoreFormatError {
    /// The file was written by a newer version, with this schema version.
    UnsupportedSchema(u32),
    /// Only a record of the current schema version can be written.
    NotCurrentSchema,
}

/// The extension of the file written before it replaces the Trail file: `toml.tmp`.
pub open spec fn temporary_extension() -> Seq<u8> {
    seq![116u8, 111u8, 109u8, 108u8, 46u8, 116u8, 109u8, 112u8]
}

/// What the Trail file holds: a schema version and the collection.
#[derive(Debug)]
pub struct TrailFile {
    pub schema_version: u32,
    pub collection: TrailCollection,
}

/// What a Trail file holds, as values.
#[verifier::ext_equal]
pub struct TrailFileView {
    pub schema_version: u32,
    pub collection: crate::trail::CollectionView,
}

impl View for TrailFile {
    type V = TrailFileView;

    open spec fn view(&self) -> TrailFileView {
        TrailFileView { schema_version: self.schema_version, collection: self.collection@ }
    }
}

/// The view of what was read: nothing when there is no file yet.
pub open spec fn file_view(file: Option<TrailFile>) -> Option<TrailFileView> {
    match file {
        Some(f) => Some(f@),
        None => None,
    }
}

/// The record a read gives: the empty record of the current version when there is no file yet;
/// a refusal when the file's schema version is newer than the current one; otherwise the file's
/// collection, repaired.
pub open spec fn loaded_record(file: Option<TrailFileView>) -> Result<StoredView, StoreFormatError> {
    match file {
        None => Ok(
            StoredView {
                schema_version: TRAIL_SCHEMA_VERSION,
                collection: crate::trail::CollectionView { trails: Seq::empty(), active: None },
            },
        ),
        Some(f) => if f.schema_version > TRAIL_SCHEMA_VERSION {
            Err(StoreFormatError::UnsupportedSchema(f.schema_version))
        } else {
            Ok(StoredView { schema_version: f.schema_version, collection: normalized(f.collection) })
        },
    }
}

/// The file a record is written as: refused unless the record is of the current version.
pub open spec fn saved_file(r: StoredView) -> Result<TrailFileView, StoreFormatError> {
    if r.schema_version != TRAIL_SCHEMA_VERSION {
        Err(StoreFormatError::NotCurrentSchema)
    } else {
        Ok(TrailFileView { schema_version: r.schema_version, collection: r.collection })
    }
}

/// A record written as a file and read back is unchanged, when its collection is consistent.
pub proof fn lemma_saved_record_reloads(r: StoredView)
    requires
        consistent(r.collection),
    ensures
        saved_file(r) matches Ok(f) ==> loaded_record(Some(f)) == Ok::<StoredView, StoreFormatError>(r),
{
    crate::trail::lemma_normalize_consistent_unchanged(r.collection);
}

/// Every record read is consistent.
pub proof fn lemma_loaded_record_consistent(file: Option<TrailFileView>)
    ensures
        loaded_record(file) matches Ok(r) ==> consistent(r.collection),
{
    if let Some(f) = file {
        crate::trail::lemma_normalized_consistent(f.collection);
    }
}

/// The characters of the message that goes with a refusal.
pub open spec fn refusal_message(e: StoreFormatError) -> Seq<char> {
    match e {
        StoreFormatError::UnsupportedSchema(v) => seq![
            'u', 'n', 's', 'u', 'p', 'p', 'o', 'r', 't', 'e', 'd', ' ', 'T', 'r', 'a', 'i', 'l', ' ',
            's', 'c', 'h', 'e', 'm', 'a', ' ', 'v', 'e', 'r', 's', 'i', 'o', 'n', ' ',
        ] + decimal(v as nat),
        StoreFormatError::NotCurrentSchema => seq![
            'o', 'n', 'l', 'y', ' ', 't', 'h', 'e', ' ', 'c', 'u', 'r', 'r', 'e', 'n', 't', ' ',
            'T', 'r', 'a', 'i', 'l', ' ', 's', 'c', 'h', 'e', 'm', 'a', ' ', 'c', 'a', 'n', ' ',
            'b', 'e', ' ', 's', 'a', 'v', 'e', 'd',
        ],
    }
}

impl StoreFormatError {
    /// The message that goes with this refusal.
    pub fn message(&self) -> (r: String)
        ensures
            r@ == refusal_message(*self),
    {
        match self {
            StoreFormatError::UnsupportedSchema(v) => {
                let mut text = String::from_str("unsupported Trail schema version ");
                proof {
                    reveal_strlit("unsupported Trail schema version ");
                }
                append_decimal(&mut text, *v as u128);
                assert(text@ =~= refusal_message(*self));
                text
            },
            StoreFormatError::NotCurrentSchema => {
                let text = String::from_str("only the current Trail schema can be saved");
                proof {
                    reveal_strlit("only the current Trail schema can be saved");
                }
                assert(text@ =~= refusal_message(*self));
                text
            },
        }
    }
}

impl LocalTrailStore {
    /// The native path of the Trail file.
    pub closed spec fn path_view(&self) -> Seq<u8> {
        self.path@
    }

    /// The Trail file at `path`.
    pub fn at(path: Vec<u8>) -> (r: LocalTrailStore)
        ensures
            r.path_view() == path@,
    {
        LocalTrailStore { path }
    }

    /// The native path of the Trail file.
    pub fn path(&self) -> (r: &[u8])
        ensures
            r@ == self.path_view(),
    {
        self.path.as_slice()
    }

    /// The file written first and then moved over the Trail file: the same path with the
    /// extension `toml.tmp`.
    pub fn temporary_path(&self) -> (r: Vec<u8>)
        requires
            self.path_view().len() + 9 <= usize::MAX,
        ensures
            r@ == with_extension(self.path_view(), temporary_extension()),
    {
        let mut ext: Vec<u8> = Vec::new();
        ext.push(116u8);
        ext.push(111u8);
        ext.push(109u8);
        ext.push(108u8);
        ext.push(46u8);
        ext.push(116u8);
        ext.push(109u8);
        ext.push(112u8);
        assert(ext@ =~= temporary_extension());
        with_extension_of(self.path.as_slice(), ext.as_slice())
    }

    /// The record this store gives for what its file held (`None`: there is no file yet), as
    /// `loaded_record` states it.
    pub fn load(&self, file: Option<TrailFile>) -> (r: Result<StoredTrails, StoreFormatError>)
        ensures
            match (r, loaded_record(file_view(file))) {
                (Ok(s), Ok(v)) => s@ == v,
                (Err(e), Err(f)) => e == f,
                _ => false,
            },
    {
        match file {
            None => Ok(StoredTrails::default()),
            Some(file) => {
                if file.schema_version > TRAIL_SCHEMA_VERSION {
                    return Err(StoreFormatError::UnsupportedSchema(file.schema_version));
                }
                let mut collection = file.collection;
                collection.normalize();
                Ok(StoredTrails { schema_version: file.schema_version, collection })
            },
        }
    }

    /// The file this store writes for a record, as `saved_file` states it.
    pub fn save(&self, trails: &StoredTrails) -> (r: Result<TrailFile, StoreFormatError>)
        ensures
            match (r, saved_file(trails@)) {
                (Ok(f), Ok(v)) => f@ == v,
                (Err(e), Err(f)) => e == f,
                _ => false,
            },
    {
        if trails.schema_version != TRAIL_SCHEMA_VERSION {
            return Err(StoreFormatError::NotCurrentSchema);
        }
        Ok(TrailFile { schema_version: trails.schema_version, collection: trails.collection.clone() })
    }
}

} // verus!
