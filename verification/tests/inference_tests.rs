use buffdb::inference::{format_blob_metadata, ModelInfo, ModelKeys};
use std::collections::HashMap;

#[test]
fn model_keys_layout() {
    assert_eq!(ModelKeys::metadata_key("bert", "1.0"), "model:bert:1.0:metadata");
    assert_eq!(ModelKeys::index_key("bert"), "model:bert:index");
    assert_eq!(ModelKeys::blob_key("bert", "1.0"), "model:bert:1.0:blobs");
    assert_eq!(ModelKeys::global_index_key(), "model:global:index");
}

#[test]
fn blob_metadata_is_compact_json_in_key_order() {
    assert_eq!(
        format_blob_metadata("bert", "1.0", 3),
        r#"{"model":"bert","part":3,"type":"weights","version":"1.0"}"#
    );
    assert_eq!(
        format_blob_metadata("", "", 1234567890),
        r#"{"model":"","part":1234567890,"type":"weights","version":""}"#
    );
    assert_eq!(
        format_blob_metadata("m", "v", 0),
        r#"{"model":"m","part":0,"type":"weights","version":"v"}"#
    );
}

#[test]
fn blob_metadata_escapes_strings() {
    assert_eq!(
        format_blob_metadata("a\"b\\c", "x\ny\u{1}\té", 10),
        "{\"model\":\"a\\\"b\\\\c\",\"part\":10,\"type\":\"weights\",\"version\":\"x\\ny\\u0001\\té\"}"
    );
    assert_eq!(
        format_blob_metadata("\u{8}\u{c}\r\u{1f}", "/", usize::MAX),
        format!(
            "{{\"model\":\"\\b\\f\\r\\u001f\",\"part\":{},\"type\":\"weights\",\"version\":\"/\"}}",
            usize::MAX
        )
    );
}

#[test]
fn model_info_holds_its_fields() {
    let mut parameters = HashMap::new();
    parameters.insert("layers".to_string(), "12".to_string());
    let info = ModelInfo {
        name: "bert".to_string(),
        version: "1.0".to_string(),
        framework: "pytorch".to_string(),
        description: "encoder".to_string(),
        input_shape: vec![1, 512],
        output_shape: vec![1, 768],
        blob_ids: vec![7, 8],
        created_at: "2024-01-01T00:00:00Z".to_string(),
        parameters,
    };
    assert_eq!(info.parameters.get("layers").map(|s| s.as_str()), Some("12"));
    assert_eq!(info.blob_ids, vec![7, 8]);
    let copy = info.clone();
    assert_eq!(copy.name, "bert");
    assert_eq!(copy.parameters, info.parameters);
}
