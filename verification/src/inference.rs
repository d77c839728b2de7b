//! Key layout and metadata helpers for storing machine-learning models.

use vstd::prelude::*;
use std::collections::HashMap;
use crate::text::{decimal_text, json_string, json_string_literal, push_decimal, push_str};
use crate::json_path::{all_digits, decimal_value, lemma_decimal_text_reads_back};

verus! {

/// The description of a stored model.
#[derive(Debug, Clone)]
pub struct ModelInfo {
    pub name: String,
    pub version: String,
    pub framework: String,
    pub description: String,
    pub input_shape: Vec<i64>,
    pub output_shape: Vec<i64>,
    pub blob_ids: Vec<u64>,
    pub created_at: String,
    pub parameters: HashMap<String, String>,
}

/// Storage key format for models.
#[derive(Debug, Clone, Copy)]
pub struct ModelKeys;

impl ModelKeys {
    /// Key under which the metadata of version `version` of model `name` is stored.
    pub fn metadata_key(name: &str, version: &str) -> (key: String)
        ensures
            key@ == "model:"@ + name@ + ":"@ + version@ + ":metadata"@,
    {
        let mut key = String::new();
        push_str(&mut key, "model:");
        push_str(&mut key, name);
        push_str(&mut key, ":");
        push_str(&mut key, version);
        push_str(&mut key, ":metadata");
        key
    }

    /// Key of the index of the versions of model `name`.
    pub fn index_key(name: &str) -> (key: String)
        ensures
            key@ == "model:"@ + name@ + ":index"@,
    {
        let mut key = String::new();
        push_str(&mut key, "model:");
        push_str(&mut key, name);
        push_str(&mut key, ":index");
        key
    }

    /// Key under which the blob references of version `version` of model `name` are stored.
    pub fn blob_key(name: &str, version: &str) -> (key: String)
        ensures
            key@ == "model:"@ + name@ + ":"@ + version@ + ":blobs"@,
    {
        let mut key = String::new();
        push_str(&mut key, "model:");
        push_str(&mut key, name);
        push_str(&mut key, ":");
        push_str(&mut key, version);
        push_str(&mut key, ":blobs");
        key
    }

    /// Key of the list of all models.
    pub fn global_index_key() -> (key: String)
        ensures
            key@ == "model:global:index"@,
    {
        "model:global:index".to_owned()
    }
}

/// The metadata text of part `part` of the weights of a model version: the
/// compact JSON object with the members `model`, `part`, `type` (`"weights"`)
/// and `version`, in that (key) order.
pub open spec fn blob_metadata_text(model: Seq<char>, version: Seq<char>, part: nat) -> Seq<char> {
    "{"@ + json_string_literal("model"@) + ":"@ + json_string_literal(model) + ","@
        + json_string_literal("part"@) + ":"@ + decimal_text(part) + ","@ + json_string_literal(
        "type"@,
    ) + ":"@ + json_string_literal("weights"@) + ","@ + json_string_literal("version"@) + ":"@
        + json_string_literal(version) + "}"@
}

/// The `part` member of the metadata text is the decimal numeral of the part
/// index: the text is the members before it, a nonempty run of digits without
/// a leading zero whose base-ten value is `part`, and the members after it.
pub proof fn lemma_blob_metadata_part_is_decimal(model: Seq<char>, version: Seq<char>, part: nat)
    ensures
        ({
            let text = blob_metadata_text(model, version, part);
            let before = "{"@ + json_string_literal("model"@) + ":"@ + json_string_literal(model)
                + ","@ + json_string_literal("part"@) + ":"@;
            let after = ","@ + json_string_literal("type"@) + ":"@ + json_string_literal(
                "weights"@,
            ) + ","@ + json_string_literal("version"@) + ":"@ + json_string_literal(version)
                + "}"@;
            let numeral = text.subrange(before.len() as int, text.len() - after.len());
            &&& text.len() > before.len() + after.len()
            &&& text.take(before.len() as int) == before
            &&& text.skip(text.len() - after.len()) == after
            &&& all_digits(numeral)
            &&& decimal_value(numeral) == part
            &&& (numeral.len() > 1 ==> numeral[0] != '0')
        }),
{
    let text = blob_metadata_text(model, version, part);
    let before = "{"@ + json_string_literal("model"@) + ":"@ + json_string_literal(model) + ","@
        + json_string_literal("part"@) + ":"@;
    let after = ","@ + json_string_literal("type"@) + ":"@ + json_string_literal("weights"@)
        + ","@ + json_string_literal("version"@) + ":"@ + json_string_literal(version) + "}"@;
    let digits = decimal_text(part);
    assert(text =~= before + digits + after);
    lemma_decimal_text_reads_back(part);
    if part < 10 {
        assert(digits.len() == 1);
    }
    assert(text.subrange(before.len() as int, text.len() - after.len()) =~= digits);
    assert(text.take(before.len() as int) =~= before);
    assert(text.skip(text.len() - after.len()) =~= after);
}

/// Appends the JSON text of the string `s`.
fn push_json_string(out: &mut String, s: &str)
    ensures
        final(out)@ == old(out)@ + json_string_literal(s@),
{
    let text = json_string(s);
    push_str(out, text.as_str());
}

/// The metadata of blob part `part_index` of model `model_name`, version `version`.
pub fn format_blob_metadata(model_name: &str, version: &str, part_index: usize) -> (text: String)
    ensures
        text@ == blob_metadata_text(model_name@, version@, part_index as nat),
{
    let mut text = String::new();
    push_str(&mut text, "{");
    push_json_string(&mut text, "model");
    push_str(&mut text, ":");
    push_json_string(&mut text, model_name);
    push_str(&mut text, ",");
    push_json_string(&mut text, "part");
    push_str(&mut text, ":");
    push_decimal(&mut text, part_index);
    push_str(&mut text, ",");
    push_json_string(&mut text, "type");
    push_str(&mut text, ":");
    push_json_string(&mut text, "weights");
    push_str(&mut text, ",");
    push_json_string(&mut text, "version");
    push_str(&mut text, ":");
    push_json_string(&mut text, version);
    push_str(&mut text, "}");
    assert(text@ =~= blob_metadata_text(model_name@, version@, part_index as nat));
    text
}

} // verus!
