//! The JSON document store: documents with metadata, path queries and updates,
//! and the indexes of a document collection.

use vstd::prelude::*;
use crate::index::{FtsManager, IndexConfig, IndexConfigView, IndexError, IndexManager, IndexType};
use crate::json_path::{
    assign, assign_steps, parse_path, path_rooted, path_steps, query_outcome, run_steps,
    updatable_path, views_of,
};
use crate::json_value::JsonValue;
use crate::text::push_str;

verus! {

/// The error of the JSON parser.
#[verifier::external_type_specification]
#[verifier::external_body]
pub struct ExJsonParseError(serde_json::Error);

/// What can go wrong in the document store.
#[derive(Debug)]
pub enum JsonStoreError {
    DocumentNotFound { id: String },
    InvalidJson(serde_json::Error),
    InvalidJsonPath(String),
    TypeMismatch { path: String, expected: String, actual: String },
    IndexError(IndexError),
    BackendError(String),
    NotImplemented,
}

impl From<IndexError> for JsonStoreError {
    fn from(e: IndexError) -> (r: Self) {
        JsonStoreError::IndexError(e)
    }
}

impl vstd::std_specs::convert::FromSpecImpl<IndexError> for JsonStoreError {
    open spec fn obeys_from_spec() -> bool {
        true
    }

    open spec fn from_spec(e: IndexError) -> Self {
        JsonStoreError::IndexError(e)
    }
}

impl From<serde_json::Error> for JsonStoreError {
    fn from(e: serde_json::Error) -> (r: Self) {
        JsonStoreError::InvalidJson(e)
    }
}

impl vstd::std_specs::convert::FromSpecImpl<serde_json::Error> for JsonStoreError {
    open spec fn obeys_from_spec() -> bool {
        true
    }

    open spec fn from_spec(e: serde_json::Error) -> Self {
        JsonStoreError::InvalidJson(e)
    }
}

/// The message of a path that does not start at the document.
pub open spec fn unrooted_path_message() -> Seq<char> {
    "Path must start with $"@
}

/// A point in time: seconds and nanoseconds since 1970-01-01T00:00:00Z.
#[derive(Debug, Clone, Copy, PartialEq, Eq)]
pub struct Timestamp {
    pub secs: i64,
    pub nanos: u32,
}

/// The metadata of a stored document.
#[derive(Debug, Clone)]
pub struct DocumentMetadata {
    pub id: String,
    pub created_at: Timestamp,
    pub updated_at: Timestamp,
    pub version: u64,
    pub schema: Option<String>,
}

/// A document with its metadata.
#[derive(Debug, Clone)]
pub struct JsonDocument {
    pub metadata: DocumentMetadata,
    pub data: JsonValue,
}

/// Queries and updates of JSON values by path.
pub struct JsonPath;

fn unrooted_path_error() -> (e: JsonStoreError)
    ensures
        e matches JsonStoreError::InvalidJsonPath(msg) && msg@ == unrooted_path_message(),
{
    JsonStoreError::InvalidJsonPath("Path must start with $".to_owned())
}

impl JsonPath {
    /// The values that `path` selects in `json`, in order.
    pub fn query<'a>(json: &'a JsonValue, path: &str) -> (r: Result<Vec<&'a JsonValue>, JsonStoreError>)
        requires
            path_rooted(path@) ==> query_outcome(json@, path@) is Some,
        ensures
            path_rooted(path@) ==> (r matches Ok(found) && views_of(found@) == query_outcome(
                json@,
                path@,
            )->Some_0),
            !path_rooted(path@) ==> (r matches Err(JsonStoreError::InvalidJsonPath(msg)) && msg@
                == unrooted_path_message()),
    {
        match parse_path(path) {
            Some(steps) => match run_steps(json, &steps) {
                Some(found) => Ok(found),
                None => {
                    assert(false);
                    Ok(Vec::new())
                },
            },
            None => Err(unrooted_path_error()),
        }
    }

    /// Whether `query(json, path)` can be called: the path does not start at
    /// the document, or the query goes through to its end.
    pub fn query_completes(json: &JsonValue, path: &str) -> (ok: bool)
        ensures
            ok == (path_rooted(path@) ==> query_outcome(json@, path@) is Some),
    {
        match parse_path(path) {
            Some(steps) => run_steps(json, &steps).is_some(),
            None => true,
        }
    }

    /// Whether `set(json, path, ..)` can be called: the path does not start
    /// at the document, or every step of it can be followed by an update.
    pub fn path_updatable(path: &str) -> (ok: bool)
        ensures
            ok == (path_rooted(path@) ==> updatable_path(path@)),
    {
        match parse_path(path) {
            Some(steps) => {
                let ok = crate::json_path::steps_assignable(&steps);
                assert(crate::json_path::segment_views(steps@) == path_steps(path@));
                ok
            },
            None => true,
        }
    }

    /// Puts `new_value` at the place that `path` leads to in `json`, creating
    /// what is missing on the way.
    pub fn set(json: &mut JsonValue, path: &str, new_value: JsonValue) -> (r: Result<(), JsonStoreError>)
        requires
            path_rooted(path@) ==> updatable_path(path@),
        ensures
            path_rooted(path@) ==> r is Ok && final(json)@ == assign(
                old(json)@,
                path_steps(path@),
                new_value@,
            ),
            !path_rooted(path@) ==> (r matches Err(JsonStoreError::InvalidJsonPath(msg)) && msg@
                == unrooted_path_message()) && *final(json) == *old(json),
    {
        match parse_path(path) {
            Some(steps) => {
                let mut doc = JsonValue::Null;
                std::mem::swap(&mut doc, json);
                assert(steps@.len() == path_steps(path@).len());
                let updated = assign_steps(doc, &steps, 0, new_value);
                assert(crate::json_path::segment_views(steps@).skip(0) =~= path_steps(path@));
                *json = updated;
                Ok(())
            },
            None => Err(unrooted_path_error()),
        }
    }
}

/// A collection of JSON documents with its indexes.
///
/// Storing documents is not available: the document operations report
/// `NotImplemented`.
pub struct JsonStore<Backend> {
    _backend: std::marker::PhantomData<Backend>,
    index_manager: IndexManager,
    fts_manager: FtsManager,
    collection: String,
}

/// The name of an index of a collection: the collection's name, `_`, the index's name.
pub open spec fn qualified_index_name(collection: Seq<char>, name: Seq<char>) -> Seq<char> {
    collection + "_"@ + name
}

impl<Backend> JsonStore<Backend> {
    /// The name of the collection.
    pub closed spec fn collection_name(&self) -> Seq<char> {
        self.collection@
    }

    /// The secondary indexes of the collection, in order of creation.
    pub closed spec fn indexes(&self) -> Seq<IndexConfigView> {
        self.index_manager.configs()
    }

    /// The full-text indexes of the collection, in order of creation.
    pub closed spec fn fts_indexes(&self) -> Seq<Seq<char>> {
        self.fts_manager.index_names()
    }

    /// A store for the documents of `collection`, with no indexes.
    pub fn new(_backend: Backend, collection: String) -> (store: Self)
        ensures
            store.collection_name() == collection@,
            store.indexes() == Seq::<IndexConfigView>::empty(),
            store.fts_indexes() == Seq::<Seq<char>>::empty(),
    {
        JsonStore {
            _backend: std::marker::PhantomData,
            index_manager: IndexManager::new(),
            fts_manager: FtsManager::new(),
            collection,
        }
    }

    /// `name` qualified by the collection's name.
    fn qualified_name(&self, name: &str) -> (full: String)
        ensures
            full@ == qualified_index_name(self.collection_name(), name@),
    {
        let mut full = self.collection.clone();
        push_str(&mut full, "_");
        push_str(&mut full, name);
        full
    }

    /// Creates a secondary index over the values at `json_path`, named after
    /// the collection and `name`.
    pub fn create_json_index(
        &mut self,
        name: String,
        json_path: String,
        index_type: IndexType,
        unique: bool,
    ) -> (r: Result<(), IndexError>)
        ensures
            final(self).collection_name() == old(self).collection_name(),
            final(self).fts_indexes() == old(self).fts_indexes(),
            ({
                let full = qualified_index_name(old(self).collection_name(), name@);
                &&& crate::index::name_taken(crate::index::config_names(old(self).indexes()), full)
                    ==> (r matches Err(IndexError::AlreadyExists(n)) && n@ == full
                    && final(self).indexes() == old(self).indexes())
                &&& !crate::index::name_taken(crate::index::config_names(old(self).indexes()), full)
                    ==> r is Ok && final(self).indexes() == old(self).indexes().push(
                    IndexConfigView {
                        name: full,
                        index_type: index_type,
                        unique: unique,
                        filter: Some(json_path@),
                    },
                )
            }),
    {
        let config = IndexConfig {
            name: self.qualified_name(name.as_str()),
            index_type,
            unique,
            filter: Some(json_path),
        };
        self.index_manager.create_index(config)
    }

    /// Creates a full-text index named after the collection and `name`.
    pub fn create_fts_index(&mut self, name: String, _json_path: String) -> (r: Result<(), IndexError>)
        ensures
            final(self).collection_name() == old(self).collection_name(),
            final(self).indexes() == old(self).indexes(),
            ({
                let full = qualified_index_name(old(self).collection_name(), name@);
                &&& crate::index::name_taken(old(self).fts_indexes(), full) ==> (r matches Err(
                    IndexError::AlreadyExists(n),
                ) && n@ == full && final(self).fts_indexes() == old(self).fts_indexes())
                &&& !crate::index::name_taken(old(self).fts_indexes(), full) ==> r is Ok
                    && final(self).fts_indexes() == old(self).fts_indexes().push(full)
            }),
    {
        let index_name = self.qualified_name(name.as_str());
        match self.fts_manager.create_index(index_name) {
            Ok(()) => Ok(()),
            Err(e) => Err(e),
        }
    }

    /// The storage key of document `id`: `<collection>:doc:<id>`.
    pub fn doc_key(&self, id: &str) -> (key: String)
        ensures
            key@ == self.collection_name() + ":doc:"@ + id@,
    {
        let mut key = self.collection.clone();
        push_str(&mut key, ":doc:");
        push_str(&mut key, id);
        key
    }

    /// The storage key of the metadata of document `id`: `<collection>:meta:<id>`.
    pub fn meta_key(&self, id: &str) -> (key: String)
        ensures
            key@ == self.collection_name() + ":meta:"@ + id@,
    {
        let mut key = self.collection.clone();
        push_str(&mut key, ":meta:");
        push_str(&mut key, id);
        key
    }

    /// Inserts a new document (not available).
    pub fn insert(&self, _id: String, _data: JsonValue, _schema: Option<String>) -> (r: Result<
        JsonDocument,
        JsonStoreError,
    >)
        ensures
            r matches Err(JsonStoreError::NotImplemented),
    {
        Err(JsonStoreError::NotImplemented)
    }

    /// Reads a document (not available).
    pub fn get(&self, _id: &str) -> (r: Result<JsonDocument, JsonStoreError>)
        ensures
            r matches Err(JsonStoreError::NotImplemented),
    {
        Err(JsonStoreError::NotImplemented)
    }

    /// Replaces the data of a document (not available).
    pub fn update(&self, _id: &str, _data: JsonValue) -> (r: Result<JsonDocument, JsonStoreError>)
        ensures
            r matches Err(JsonStoreError::NotImplemented),
    {
        Err(JsonStoreError::NotImplemented)
    }

    /// Updates part of a document by path (not available).
    pub fn patch(&self, _id: &str, _path: &str, _value: JsonValue) -> (r: Result<
        JsonDocument,
        JsonStoreError,
    >)
        ensures
            r matches Err(JsonStoreError::NotImplemented),
    {
        Err(JsonStoreError::NotImplemented)
    }

    /// Deletes a document (not available).
    pub fn delete(&self, _id: &str) -> (r: Result<(), JsonStoreError>)
        ensures
            r matches Err(JsonStoreError::NotImplemented),
    {
        Err(JsonStoreError::NotImplemented)
    }

    /// The ids of the documents whose value at `_json_path` is `_value` (not available).
    pub fn query(&self, _json_path: &str, _value: &JsonValue) -> (r: Result<Vec<String>, JsonStoreError>)
        ensures
            r matches Err(JsonStoreError::NotImplemented),
    {
        Err(JsonStoreError::NotImplemented)
    }

    /// Brings the indexes up to date with a document's new data (nothing to do
    /// while documents are not stored).
    fn update_indexes(&self, _id: &str, _old_data: Option<&JsonValue>, _new_data: &JsonValue) -> (r:
        Result<(), JsonStoreError>)
        ensures
            r is Ok,
    {
        Ok(())
    }

    /// Removes a document from the indexes (nothing to do while documents are
    /// not stored).
    fn remove_from_indexes(&self, _id: &str, _data: &JsonValue) -> (r: Result<(), JsonStoreError>)
        ensures
            r is Ok,
    {
        Ok(())
    }
}

} // verus!
