use buffdb::index::{FtsManager, IndexConfig, IndexError, IndexManager, IndexType};
use buffdb::json_store::{DocumentMetadata, JsonDocument, JsonStore, JsonStoreError, Timestamp};
use buffdb::json_value::JsonValue;

struct NoBackend;

#[test]
fn store_keys() {
    let store = JsonStore::new(NoBackend, "users".to_string());
    assert_eq!(store.doc_key("42"), "users:doc:42");
    assert_eq!(store.meta_key("42"), "users:meta:42");
}

#[test]
fn json_index_is_named_after_collection_and_refuses_duplicates() {
    let mut store = JsonStore::new(NoBackend, "users".to_string());
    assert!(store
        .create_json_index("email".to_string(), "$.email".to_string(), IndexType::Hash, true)
        .is_ok());
    match store.create_json_index("email".to_string(), "$.mail".to_string(), IndexType::BTree, false) {
        Err(IndexError::AlreadyExists(name)) => assert_eq!(name, "users_email"),
        other => panic!("unexpected {:?}", other),
    }
    assert!(store
        .create_json_index("age".to_string(), "$.age".to_string(), IndexType::BTree, false)
        .is_ok());
}

#[test]
fn fts_index_is_named_after_collection_and_refuses_duplicates() {
    let mut store = JsonStore::new(NoBackend, "docs".to_string());
    assert!(store.create_fts_index("body".to_string(), "$.body".to_string()).is_ok());
    match store.create_fts_index("body".to_string(), "$.text".to_string()) {
        Err(IndexError::AlreadyExists(name)) => assert_eq!(name, "docs_body"),
        other => panic!("unexpected {:?}", other),
    }
}

#[test]
fn index_manager_registers_configs() {
    let mut m = IndexManager::new();
    let cfg = |name: &str| IndexConfig {
        name: name.to_string(),
        index_type: IndexType::Hash,
        unique: false,
        filter: None,
    };
    assert!(m.create_index(cfg("a")).is_ok());
    assert!(m.create_index(cfg("b")).is_ok());
    assert!(matches!(m.create_index(cfg("a")), Err(IndexError::AlreadyExists(n)) if n == "a"));
    assert_eq!(m.len(), 2);
    let mut f = FtsManager::new();
    assert!(f.create_index("x".to_string()).is_ok());
    assert!(f.create_index("x".to_string()).is_err());
}

#[test]
fn document_operations_are_not_implemented() {
    let store = JsonStore::new(NoBackend, "c".to_string());
    assert!(matches!(store.insert("1".to_string(), JsonValue::Null, None), Err(JsonStoreError::NotImplemented)));
    assert!(matches!(store.get("1"), Err(JsonStoreError::NotImplemented)));
    assert!(matches!(store.update("1", JsonValue::Null), Err(JsonStoreError::NotImplemented)));
    assert!(matches!(store.patch("1", "$.a", JsonValue::Null), Err(JsonStoreError::NotImplemented)));
    assert!(matches!(store.delete("1"), Err(JsonStoreError::NotImplemented)));
    assert!(matches!(store.query("$.a", &JsonValue::Null), Err(JsonStoreError::NotImplemented)));
}

#[test]
fn document_holds_metadata_and_data() {
    let doc = JsonDocument {
        metadata: DocumentMetadata {
            id: "1".to_string(),
            created_at: Timestamp { secs: 0, nanos: 0 },
            updated_at: Timestamp { secs: 10, nanos: 5 },
            version: 1,
            schema: Some("user".to_string()),
        },
        data: JsonValue::Bool(true),
    };
    assert_eq!(doc.metadata.version, 1);
    assert_eq!(doc.data, JsonValue::Bool(true));
    let copy = doc.clone();
    assert_eq!(copy.metadata.id, "1");
    assert_eq!(copy.metadata.updated_at, Timestamp { secs: 10, nanos: 5 });
    assert_eq!(copy.metadata.schema, Some("user".to_string()));
    assert_eq!(copy.data, doc.data);
}

#[test]
fn errors_convert_into_store_errors() {
    let e: JsonStoreError = IndexError::AlreadyExists("users_email".to_string()).into();
    assert!(matches!(e, JsonStoreError::IndexError(IndexError::AlreadyExists(n)) if n == "users_email"));
    let parse_error = serde_json::from_str::<serde_json::Value>("{").unwrap_err();
    let e: JsonStoreError = parse_error.into();
    assert!(matches!(e, JsonStoreError::InvalidJson(_)));
}
