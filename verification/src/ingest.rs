//! Reading the persisted description formats into plain values.
//!
//! A project description and a chip definition are JSON documents.
//! `serde_json` parses the text into a tree; behind the trusted boundary
//! that tree is converted, one variant per arm, into the library's own
//! [`JsonValue`], whose whole content is plain values.  Everything the
//! formats mean — which fields count, what makes a definition malformed —
//! is then decided here in verified code with exact contracts over that
//! tree, and the version string is read by `semver` behind its own
//! trusted wrapper.

use vstd::prelude::*;

verus! {

/// A parsed JSON document as plain values.  Strings, arrays and objects
/// are kept in full (object fields in the parser's order, with the keys
/// unique); null, booleans and numbers carry nothing either description
/// format reads, and collapse to [`JsonValue::Other`].
pub enum JsonValue {
    /// A JSON string.
    Text(String),
    /// A JSON array, elements in order.
    Array(Vec<JsonValue>),
    /// A JSON object: its fields, keys unique.
    Object(Vec<(String, JsonValue)>),
    /// Null, a boolean or a number.
    Other,
}

/// The tree that `serde_json` reads out of a document, if the text is
/// valid JSON: a function of the characters alone.
pub uninterp spec fn json_of(s: Seq<char>) -> Option<JsonValue>;

#[verifier::external_type_specification]
#[verifier::external_body]
pub struct ExValue(serde_json::Value);

/// Relies on `serde_json::Value`'s variants: converts the parsed document
/// one variant per arm — strings and keys cloned, arrays and objects
/// element-wise; null, booleans and numbers carry no payload the formats
/// read.
#[verifier::external_body]
fn to_tree(v: &serde_json::Value) -> JsonValue {
    match v {
        serde_json::Value::String(s) => JsonValue::Text(s.clone()),
        serde_json::Value::Array(a) => JsonValue::Array(a.iter().map(to_tree).collect()),
        serde_json::Value::Object(m) => {
            JsonValue::Object(m.iter().map(|(k, x)| (k.clone(), to_tree(x))).collect())
        }
        _ => JsonValue::Other,
    }
}

/// Relies on `serde_json::from_str::<Value>`: parses a JSON document,
/// `None` when the text is not valid JSON.  The parse is deterministic
/// and object fields come out of `serde_json`'s map in sorted key order,
/// so the tree depends on the text alone.
#[verifier::external_body]
fn parse_json_tree(s: &str) -> (r: Option<JsonValue>)
    ensures
        r == json_of(s@),
{
    match serde_json::from_str::<serde_json::Value>(s) {
        Ok(v) => Some(to_tree(&v)),
        Err(_) => None,
    }
}

/// The value of `key` among object fields: the first field with that key.
pub open spec fn assoc_lookup(fields: Seq<(String, JsonValue)>, key: Seq<char>) -> Option<
    JsonValue,
>
    decreases fields.len(),
{
    if fields.len() == 0 {
        Option::None
    } else if fields[0].0@ == key {
        Option::Some(fields[0].1)
    } else {
        assoc_lookup(fields.drop_first(), key)
    }
}

/// The value of an object's field `key`; `None` when the value is not an
/// object or has no such field.
pub open spec fn field_of(v: JsonValue, key: Seq<char>) -> Option<JsonValue> {
    match v {
        JsonValue::Object(fields) => assoc_lookup(fields@, key),
        _ => Option::None,
    }
}

/// Look a field up in a parsed document.
fn get_field<'a>(v: &'a JsonValue, key: &String) -> (r: Option<&'a JsonValue>)
    ensures
        match r {
            Option::Some(f) => field_of(*v, key@) == Option::Some(*f),
            Option::None => field_of(*v, key@) is None,
        },
{
    match v {
        JsonValue::Object(fields) => {
            let n = fields.len();
            let mut i: usize = 0;
            proof {
                assert(fields@.skip(0) =~= fields@);
            }
            while i < n
                invariant
                    i <= n,
                    n == fields@.len(),
                    field_of(*v, key@) == assoc_lookup(fields@, key@),
                    assoc_lookup(fields@, key@) == assoc_lookup(
                        fields@.skip(i as int),
                        key@,
                    ),
                decreases n - i,
            {
                if fields[i].0 == *key {
                    proof {
                        assert(fields@.skip(i as int)[0] == fields@[i as int]);
                        assert(assoc_lookup(fields@.skip(i as int), key@) == Option::Some(
                            fields@[i as int].1,
                        ));
                    }
                    return Option::Some(&fields[i].1);
                }
                proof {
                    assert(fields@.skip(i as int)[0] == fields@[i as int]);
                    assert(fields@.skip(i as int).drop_first() =~= fields@.skip(i as int + 1));
                }
                i += 1;
            }
            proof {
                assert(fields@.skip(n as int) =~= Seq::<(String, JsonValue)>::empty());
            }
            Option::None
        }
        _ => Option::None,
    }
}

/// The release triple that `semver` reads out of a version string, if the
/// string parses: a function of the characters alone.
pub uninterp spec fn parsed_semver(s: Seq<char>) -> Option<(u64, u64, u64)>;

/// Relies on `semver::Version::parse`: the (major, minor, patch) release
/// triple of a semantic-version string, `None` when the string does not
/// parse.
#[verifier::external_body]
pub fn parse_semver(s: &str) -> (r: Option<(u64, u64, u64)>)
    ensures
        r == parsed_semver(s@),
{
    match semver::Version::parse(s) {
        Ok(v) => Some((v.major, v.minor, v.patch)),
        Err(_) => None,
    }
}

/// The `Name` of each sub-chip entry, in order; `None` as soon as one
/// entry has no string `Name`.
pub open spec fn entry_names(entries: Seq<JsonValue>) -> Option<Seq<Seq<char>>>
    decreases entries.len(),
{
    if entries.len() == 0 {
        Option::Some(Seq::<Seq<char>>::empty())
    } else {
        match entry_names(entries.drop_last()) {
            Option::None => Option::None,
            Option::Some(prefix) => match field_of(entries.last(), "Name"@) {
                Option::Some(JsonValue::Text(s)) => Option::Some(prefix.push(s@)),
                _ => Option::None,
            },
        }
    }
}

/// Once a prefix of the entry list has no names, the whole list has none:
/// a malformed entry poisons the definition wherever it stands.
proof fn lemma_entry_names_none_extends(entries: Seq<JsonValue>, i: int)
    requires
        0 <= i <= entries.len(),
        entry_names(entries.take(i)) is None,
    ensures
        entry_names(entries) is None,
    decreases entries.len() - i,
{
    if i < entries.len() {
        assert(entries.take(i + 1).drop_last() =~= entries.take(i));
        lemma_entry_names_none_extends(entries, i + 1);
    } else {
        assert(entries.take(i) =~= entries);
    }
}

/// The declared sub-chip names of a chip definition document: the `Name`
/// of each `SubChips` entry, in order, with repetition kept.  `None`
/// marks a malformed definition: no document, a `SubChips` field absent
/// or not an array, or an entry without a string `Name`.
pub open spec fn sub_chip_names(doc: Option<JsonValue>) -> Option<Seq<Seq<char>>> {
    match doc {
        Option::None => Option::None,
        Option::Some(v) => match field_of(v, "SubChips"@) {
            Option::Some(JsonValue::Array(entries)) => entry_names(entries@),
            _ => Option::None,
        },
    }
}

/// The string elements of a sequence of JSON values, in order; the
/// declared chip names keep only the string entries.
pub open spec fn string_items(items: Seq<JsonValue>) -> Seq<Seq<char>>
    decreases items.len(),
{
    if items.len() == 0 {
        Seq::<Seq<char>>::empty()
    } else {
        match items.last() {
            JsonValue::Text(s) => string_items(items.drop_last()).push(s@),
            _ => string_items(items.drop_last()),
        }
    }
}

/// The declared earliest-compatible version text of a project
/// description, when the field is present and a string.
pub open spec fn meta_version_text(doc: JsonValue) -> Option<Seq<char>> {
    match field_of(doc, "DLSVersion_EarliestCompatible"@) {
        Option::Some(JsonValue::Text(s)) => Option::Some(s@),
        _ => Option::None,
    }
}

/// The declared custom chip names of a project description: the string
/// elements of the declared name array, in order.  An absent field, a
/// non-array field and non-string elements yield no names, as a missing
/// declaration would.
pub open spec fn meta_chip_names(doc: JsonValue) -> Seq<Seq<char>> {
    match field_of(doc, "AllCustomChipNames"@) {
        Option::Some(JsonValue::Array(items)) => string_items(items@),
        _ => Seq::<Seq<char>>::empty(),
    }
}

/// What a project description document yielded.
pub enum MetadataOutcome {
    /// The text is not valid JSON.
    Invalid,
    /// The document parsed; the fields of interest, as plain values.
    Data {
        /// The declared earliest-compatible version text, when present
        /// and a string.
        version_text: Option<String>,
        /// The declared custom chip names, in declaration order.
        chip_names: Vec<String>,
    },
}

/// Read a project description document: the earliest-compatible version
/// text and the declared custom chip names.
pub fn parse_project_metadata(content: &str) -> (r: MetadataOutcome)
    ensures
        r is Invalid <==> json_of(content@) is None,
        r matches MetadataOutcome::Data { version_text, chip_names } ==> (json_of(content@)
            matches Option::Some(doc) && (match meta_version_text(doc) {
            Option::Some(vt) => version_text matches Option::Some(s) && s@ == vt,
            Option::None => version_text is None,
        }) && chip_names.deep_view() == meta_chip_names(doc)),
{
    let doc = match parse_json_tree(content) {
        Option::Some(d) => d,
        Option::None => {
            return MetadataOutcome::Invalid;
        }
    };
    let version_key: String = "DLSVersion_EarliestCompatible".to_owned();
    let version_text = match get_field(&doc, &version_key) {
        Option::Some(v) => match v {
            JsonValue::Text(s) => Option::Some(s.clone()),
            _ => Option::None,
        },
        Option::None => Option::None,
    };
    let mut chip_names: Vec<String> = Vec::new();
    let names_key: String = "AllCustomChipNames".to_owned();
    match get_field(&doc, &names_key) {
        Option::Some(names_value) => match names_value {
            JsonValue::Array(elements) => {
                let n = elements.len();
                let mut i: usize = 0;
                while i < n
                    invariant
                        i <= n,
                        n == elements@.len(),
                        chip_names.deep_view() == string_items(elements@.take(i as int)),
                    decreases n - i,
                {
                    let ghost pre_names = chip_names.deep_view();
                    proof {
                        assert(elements@.take(i as int + 1).drop_last() =~= elements@.take(
                            i as int,
                        ));
                        assert(elements@.take(i as int + 1).last() == elements@[i as int]);
                    }
                    match &elements[i] {
                        JsonValue::Text(s) => {
                            chip_names.push(s.clone());
                            proof {
                                assert(chip_names.deep_view() =~= pre_names.push(s@));
                                assert(chip_names.deep_view() == string_items(
                                    elements@.take(i as int + 1),
                                ));
                            }
                        }
                        _ => {
                            proof {
                                assert(chip_names.deep_view() == string_items(
                                    elements@.take(i as int + 1),
                                ));
                            }
                        }
                    }
                    i += 1;
                }
                proof {
                    assert(elements@.take(n as int) =~= elements@);
                    assert(meta_chip_names(doc) == string_items(elements@));
                }
            }
            _ => {
                proof {
                    assert(meta_chip_names(doc) =~= Seq::<Seq<char>>::empty());
                    assert(chip_names.deep_view() =~= Seq::<Seq<char>>::empty());
                }
            }
        },
        Option::None => {
            proof {
                assert(meta_chip_names(doc) =~= Seq::<Seq<char>>::empty());
                assert(chip_names.deep_view() =~= Seq::<Seq<char>>::empty());
            }
        }
    }
    MetadataOutcome::Data { version_text, chip_names }
}

/// Read a chip definition document: the `Name` of each entry of its
/// `SubChips` array, in declaration order, with repetition kept.  `None`
/// marks a malformed definition: text that is not valid JSON, a
/// `SubChips` field that is absent or not an array, or an entry without a
/// string `Name`.
pub fn parse_chip_definition(content: &str) -> (r: Option<Vec<String>>)
    ensures
        match r {
            Option::Some(names) => sub_chip_names(json_of(content@)) == Option::Some(
                names.deep_view(),
            ),
            Option::None => sub_chip_names(json_of(content@)) is None,
        },
{
    let doc = match parse_json_tree(content) {
        Option::Some(d) => d,
        Option::None => {
            return Option::None;
        }
    };
    let subs_key: String = "SubChips".to_owned();
    let entries = match get_field(&doc, &subs_key) {
        Option::Some(v) => match v {
            JsonValue::Array(a) => a,
            _ => {
                return Option::None;
            }
        },
        Option::None => {
            return Option::None;
        }
    };
    let mut subs: Vec<String> = Vec::new();
    let n = entries.len();
    let name_key: String = "Name".to_owned();
    let mut i: usize = 0;
    while i < n
        invariant
            i <= n,
            n == entries@.len(),
            name_key@ == "Name"@,
            sub_chip_names(json_of(content@)) == entry_names(entries@),
            entry_names(entries@.take(i as int)) == Option::Some(subs.deep_view()),
        decreases n - i,
    {
        proof {
            assert(entries@.take(i as int + 1).drop_last() =~= entries@.take(i as int));
            assert(entries@.take(i as int + 1).last() == entries@[i as int]);
        }
        let name_value = match get_field(&entries[i], &name_key) {
            Option::Some(v) => v,
            Option::None => {
                proof {
                    assert(entry_names(entries@.take(i as int + 1)) is None);
                    lemma_entry_names_none_extends(entries@, i as int + 1);
                }
                return Option::None;
            }
        };
        match name_value {
            JsonValue::Text(s) => {
                let ghost pre_names = subs.deep_view();
                subs.push(s.clone());
                proof {
                    assert(subs.deep_view() =~= pre_names.push(s@));
                    assert(entry_names(entries@.take(i as int + 1)) == Option::Some(
                        pre_names.push(s@),
                    ));
                }
            }
            _ => {
                proof {
                    assert(entry_names(entries@.take(i as int + 1)) is None);
                    lemma_entry_names_none_extends(entries@, i as int + 1);
                }
                return Option::None;
            }
        }
        i += 1;
    }
    proof {
        assert(entries@.take(n as int) =~= entries@);
    }
    Option::Some(subs)
}

} // verus!
