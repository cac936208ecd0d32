//! TOML documents, as the `toml` crate parses them.
//!
//! The parser and its values are the `toml` crate's. What such a value holds is named here, and
//! each function of the crate that a configuration is read with is given a contract over these
//! names. Nothing in this file is proved: it says what is believed of the `toml` crate.

use crate::hook_table::texts;
use vstd::prelude::*;

verus! {

/// What a TOML value holds.
pub enum TomlTree {
    /// A string.
    Text(Seq<char>),
    /// An array, by its elements.
    List(Seq<TomlTree>),
    /// A table, by its entries.
    Table(Map<Seq<char>, TomlTree>),
    /// An integer, a float, a boolean or a date.
    Other,
}

/// `toml::Value`, a parsed value of any kind.
#[verifier::external_type_specification]
#[verifier::external_body]
pub struct ExTomlValue(toml::Value);

/// `toml::map::Map`, of which `toml::Table` is the instance with `String` and `toml::Value`.
#[verifier::external_type_specification]
#[verifier::external_body]
#[verifier::reject_recursive_types(K)]
#[verifier::reject_recursive_types(V)]
pub struct ExTomlMap<K, V>(toml::map::Map<K, V>);

/// `toml::de::Error`, with which `toml::from_str` refuses a text.
#[verifier::external_type_specification]
#[verifier::external_body]
pub struct ExTomlError(toml::de::Error);

/// What a `toml::Value` holds: a string by its characters, an array by what its elements hold, a
/// table by what its entries hold.
pub uninterp spec fn tree_of(value: toml::Value) -> TomlTree;

/// What a `toml::Table` holds: for each of its keys, what the value of the key holds.
pub uninterp spec fn entries_of(table: toml::Table) -> Map<Seq<char>, TomlTree>;

/// What `toml::from_str` makes of a text: the entries of the document that the text is, or the
/// error with which it refuses the text.
pub uninterp spec fn document_of(text: Seq<char>) -> Result<
    Map<Seq<char>, TomlTree>,
    toml::de::Error,
>;

/// Calls `toml::from_str` for a `toml::Table`, that is, for a whole document with nothing asked
/// of its keys. Claims that the result is a function of the text alone: the same text always
/// gives a table that holds the same, or the same error.
#[verifier::external_body]
pub(crate) fn parse_table(text: &str) -> (r: Result<toml::Table, toml::de::Error>)
    ensures
        match r {
            Ok(table) => document_of(text@) == Ok::<Map<Seq<char>, TomlTree>, toml::de::Error>(
                entries_of(table),
            ),
            Err(error) => document_of(text@) == Err::<Map<Seq<char>, TomlTree>, toml::de::Error>(
                error,
            ),
        },
{
    toml::from_str::<toml::Table>(text)
}

/// `toml::Value::as_str` gives the string of a value that is a string, and `None` for any other
/// value.
pub assume_specification[ toml::Value::as_str ](value: &toml::Value) -> (r: Option<&str>)
    ensures
        match tree_of(*value) {
            TomlTree::Text(text) => r is Some && r->0@ == text,
            _ => r is None,
        },
;

/// `toml::Value::as_array` gives the elements of a value that is an array, in order, and `None`
/// for any other value.
pub assume_specification[ toml::Value::as_array ](value: &toml::Value) -> (r: Option<
    &Vec<toml::Value>,
>)
    ensures
        match tree_of(*value) {
            TomlTree::List(items) => r is Some && r->0@.map_values(
                |item: toml::Value| tree_of(item),
            ) == items,
            _ => r is None,
        },
;

/// `toml::Value::as_table` gives the table of a value that is a table, and `None` for any other
/// value.
pub assume_specification[ toml::Value::as_table ](value: &toml::Value) -> (r: Option<&toml::Table>)
    ensures
        match tree_of(*value) {
            TomlTree::Table(entries) => r is Some && entries_of(*r->0) == entries,
            _ => r is None,
        },
;

/// Calls `toml::Table::get`, which gives the value of a key, and `None` for a key that the table
/// does not have.
#[verifier::external_body]
pub(crate) fn table_get<'a>(table: &'a toml::Table, key: &str) -> (r: Option<&'a toml::Value>)
    ensures
        match r {
            Some(value) => entries_of(*table).contains_key(key@) && tree_of(*value) == entries_of(
                *table,
            )[key@],
            None => !entries_of(*table).contains_key(key@),
        },
{
    table.get(key)
}

/// Calls `toml::Table::keys`, which goes through the keys of the table, each once. The order is
/// left open: it depends on how the `toml` crate was built.
#[verifier::external_body]
pub(crate) fn table_keys(table: &toml::Table) -> (keys: Vec<String>)
    ensures
        texts(keys@).no_duplicates(),
        texts(keys@).to_set() == entries_of(*table).dom(),
{
    table.keys().cloned().collect()
}

} // verus!
