//! JSON texts, read by `serde_json`.

use serde_json::value::RawValue;
use std::collections::BTreeMap;
use vstd::prelude::*;

use crate::text;

verus! {

/// The compact text of the JSON value that a text holds, or nothing where it
/// cannot be read: what `serde_json::from_str` and
/// `serde_json::Value::to_string` give.
pub uninterp spec fn compacted(json: Seq<char>) -> Option<Seq<char>>;

/// The string under a key of the JSON object that a text holds, or nothing
/// where there is none: what `serde_json::from_str` gives for the object's
/// fields, and then for the text of the one under the key.
pub uninterp spec fn string_under(json: Seq<char>, key: Seq<char>) -> Option<Seq<char>>;

/// The text as a contract sees it.
pub open spec fn optional_text(t: Option<String>) -> Option<Seq<char>> {
    match t {
        Some(s) => Some(s@),
        None => None,
    }
}

/// Writes the JSON value that a text holds in the compact form of
/// `serde_json::Value::to_string`, after `serde_json::from_str` has read it.
/// The result depends on the text alone.
#[verifier::external_body]
fn compact(json: &str) -> (out: Option<String>)
    ensures
        optional_text(out) == compacted(json@),
{
    serde_json::from_str::<serde_json::Value>(json).ok().map(|value| value.to_string())
}

/// Reads the string under a key with `serde_json::from_str`: first the fields
/// of the object, each left as the text that it is, however deeply it is
/// nested, and then the field under the key. The result depends on the two
/// texts alone.
#[verifier::external_body]
fn string_at(json: &str, key: &str) -> (out: Option<String>)
    ensures
        optional_text(out) == string_under(json@, key@),
{
    let fields: BTreeMap<String, &RawValue> = serde_json::from_str(json).ok()?;
    serde_json::from_str::<String>(fields.get(key)?.get()).ok()
}

/// The text that a JSON value counts as: its compact form, in which neither
/// spaces nor the order of keys matter. A text that cannot be read, such as one
/// that is nested too deeply, counts as it is.
pub open spec fn canonical(json: Seq<char>) -> Seq<char> {
    match compacted(json) {
        Some(compact) => compact,
        None => json,
    }
}

/// The text that a JSON value counts as.
pub fn canonical_text(json: &str) -> (out: String)
    ensures
        out@ == canonical(json@),
{
    match compact(json) {
        Some(compact) => compact,
        None => String::from_str(json),
    }
}

/// The string under the first of these keys that has one.
pub open spec fn first_string(json: Seq<char>, keys: Seq<Seq<char>>) -> Option<Seq<char>>
    decreases keys.len(),
{
    if keys.len() == 0 {
        None
    } else if let Some(s) = string_under(json, keys[0]) {
        Some(s)
    } else {
        first_string(json, keys.skip(1))
    }
}

/// The string under the first of these keys that has one.
pub fn string_field(json: &str, keys: &Vec<String>) -> (out: Option<String>)
    ensures
        optional_text(out) == first_string(json@, text::texts(keys@)),
{
    let ghost all = text::texts(keys@);
    let mut i: usize = 0;
    assert(all.skip(0) =~= all);
    while i < keys.len()
        invariant
            i <= keys.len(),
            all == text::texts(keys@),
            first_string(json@, all) == first_string(json@, all.skip(i as int)),
        decreases keys.len() - i,
    {
        let found = string_at(json, keys[i].as_str());
        assert(all.skip(i as int)[0] == keys@[i as int]@);
        if found.is_some() {
            return found;
        }
        assert(all.skip(i as int).skip(1) =~= all.skip(i + 1));
        i = i + 1;
    }
    None
}

/// The first key that has a string gives it, whatever the keys behind it have;
/// where none has one there is none.
pub proof fn the_first_key_with_a_string_counts(json: Seq<char>, keys: Seq<Seq<char>>, i: int)
    ensures
        0 <= i < keys.len() && string_under(json, keys[i]) is Some && (forall|j: int|
            0 <= j < i ==> string_under(json, #[trigger] keys[j]) is None) ==> first_string(
            json,
            keys,
        ) == string_under(json, keys[i]),
        (forall|j: int| 0 <= j < keys.len() ==> string_under(json, #[trigger] keys[j]) is None)
            ==> first_string(json, keys) is None,
    decreases keys.len(),
{
    if keys.len() > 0 {
        let rest = keys.skip(1);
        the_first_key_with_a_string_counts(json, rest, i - 1);
        if 0 < i < keys.len() && (forall|j: int|
            0 <= j < i ==> string_under(json, #[trigger] keys[j]) is None) {
            assert(string_under(json, keys[0]) is None);
            assert(rest[i - 1] == keys[i]);
            assert forall|j: int| 0 <= j < i - 1 implies string_under(json, #[trigger] rest[j])
                is None by {
                assert(rest[j] == keys[j + 1]);
            }
        }
        if forall|j: int| 0 <= j < keys.len() ==> string_under(json, #[trigger] keys[j]) is None {
            assert(string_under(json, keys[0]) is None);
            assert forall|j: int| 0 <= j < rest.len() implies string_under(json, #[trigger] rest[j])
                is None by {
                assert(rest[j] == keys[j + 1]);
            }
        }
    }
}

/// A text that can be read counts as its compact form, any other as itself.
pub proof fn what_cannot_be_read_counts_as_it_is(json: Seq<char>)
    ensures
        compacted(json) is Some ==> canonical(json) == compacted(json)->0,
        compacted(json) is None ==> canonical(json) == json,
{
}

} // verus!
