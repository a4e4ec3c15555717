//! toml's dependency table, kept as it is, and what the logic relies on of it.
use vstd::prelude::*;
use crate::paths::views;

verus! {

/// toml's value, carried through as it was parsed.
#[verifier::external_type_specification]
#[verifier::external_body]
pub struct ExTomlValue(toml::Value);

/// toml's map from keys to values, the type of a dependency table.
#[verifier::external_type_specification]
#[verifier::external_body]
#[verifier::reject_recursive_types(K)]
#[verifier::reject_recursive_types(V)]
pub struct ExTomlMap<K, V>(toml::map::Map<K, V>);

/// What a table holds: each name, by its characters, and its value.
pub uninterp spec fn table_entries(t: toml::map::Map<String, toml::Value>) -> Map<Seq<char>, toml::Value>;

/// The toml string value of the given characters.
pub uninterp spec fn text_value(s: Seq<char>) -> toml::Value;

/// Relies on `toml::map::Map::new`: an empty table.
#[verifier::external_body]
pub(crate) fn table_new() -> (r: toml::map::Map<String, toml::Value>)
    ensures
        table_entries(r).dom().len() == 0,
        table_entries(r).dom().finite(),
{
    toml::map::Map::new()
}

/// Relies on `toml::map::Map::insert`: the name now maps to the value, all else stays.
#[verifier::external_body]
pub(crate) fn table_insert(t: &mut toml::map::Map<String, toml::Value>, k: String, v: toml::Value)
    ensures
        table_entries(*final(t)) == table_entries(*old(t)).insert(k@, v),
{
    t.insert(k, v);
}

/// Relies on `Extend` for `toml::map::Map`, which inserts each entry of `other`:
/// its entries replace those of the same name.
#[verifier::external_body]
pub(crate) fn table_extend(t: &mut toml::map::Map<String, toml::Value>, other: toml::map::Map<String, toml::Value>)
    ensures
        table_entries(*final(t)) == table_entries(*old(t)).union_prefer_right(table_entries(other)),
{
    t.extend(other);
}

/// Relies on `toml::map::Map::keys`: every name of the table, each once.
#[verifier::external_body]
pub(crate) fn table_keys(t: &toml::map::Map<String, toml::Value>) -> (r: Vec<String>)
    ensures
        forall|k: Seq<char>| table_entries(*t).dom().contains(k) <==> #[trigger] views(r@).contains(k),
{
    t.keys().cloned().collect()
}

/// Relies on `toml::Value::String`: the string value of the text.
#[verifier::external_body]
pub(crate) fn string_value(s: &str) -> (r: toml::Value)
    ensures
        r == text_value(s@),
{
    toml::Value::String(String::from(s))
}

} // verus!
