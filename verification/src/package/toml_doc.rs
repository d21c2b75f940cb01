//! TOML documents as plain values: the tree a manifest is decoded from.
use vstd::prelude::*;

use crate::package::order::text_equal;

verus! {

/// A TOML value, as far as manifests read one: floats and datetimes are kept only as
/// "some other value".
#[derive(Debug)]
pub enum TomlValue {
    /// A string.
    Text(String),
    /// An integer.
    Integer(i64),
    /// A boolean.
    Boolean(bool),
    /// An array.
    List(Vec<TomlValue>),
    /// A table: its keys with their values, in key order.
    Table(Vec<(String, TomlValue)>),
    /// A float or a datetime.
    Other,
}

/// The value reading of a TOML value.
pub ghost enum TomlView {
    /// A string.
    Text(Seq<char>),
    /// An integer.
    Integer(int),
    /// A boolean.
    Boolean(bool),
    /// An array.
    List(Seq<TomlView>),
    /// A table.
    Table(Seq<(Seq<char>, TomlView)>),
    /// A float or a datetime.
    Other,
}

/// The reading of a TOML value.
pub open spec fn toml_view(v: TomlValue) -> TomlView
    decreases v,
{
    match v {
        TomlValue::Text(s) => TomlView::Text(s@),
        TomlValue::Integer(i) => TomlView::Integer(i as int),
        TomlValue::Boolean(b) => TomlView::Boolean(b),
        TomlValue::List(items) => TomlView::List(
            Seq::new(
                items@.len(),
                |i: int|
                    if 0 <= i < items@.len() {
                        toml_view(items@[i])
                    } else {
                        TomlView::Other
                    },
            ),
        ),
        TomlValue::Table(entries) => TomlView::Table(
            Seq::new(
                entries@.len(),
                |i: int|
                    if 0 <= i < entries@.len() {
                        (entries@[i].0@, toml_view(entries@[i].1))
                    } else {
                        (Seq::empty(), TomlView::Other)
                    },
            ),
        ),
        TomlValue::Other => TomlView::Other,
    }
}

/// The readings of table entries.
pub open spec fn entry_views(entries: Seq<(String, TomlValue)>) -> Seq<(Seq<char>, TomlView)> {
    entries.map_values(|e: (String, TomlValue)| (e.0@, toml_view(e.1)))
}

/// The value stored under `key`, the first such entry.
pub open spec fn lookup(entries: Seq<(Seq<char>, TomlView)>, key: Seq<char>) -> Option<TomlView>
    decreases entries.len(),
{
    if entries.len() == 0 {
        None
    } else if entries[0].0 == key {
        Some(entries[0].1)
    } else {
        lookup(entries.drop_first(), key)
    }
}

/// The value stored under `key` in a table.
pub fn lookup_entry<'a>(entries: &'a Vec<(String, TomlValue)>, key: &str) -> (found: Option<&'a TomlValue>)
    ensures
        match found {
            Some(v) => lookup(entry_views(entries@), key@) == Some(toml_view(*v)),
            None => lookup(entry_views(entries@), key@) is None,
        },
{
    let ghost all = entry_views(entries@);
    assert(all.skip(0) =~= all);
    let mut i: usize = 0;
    while i < entries.len()
        invariant
            all == entry_views(entries@),
            i <= entries@.len(),
            lookup(all, key@) == lookup(all.skip(i as int), key@),
        decreases entries.len() - i,
    {
        let ghost rest = all.skip(i as int);
        assert(rest[0] == (entries@[i as int].0@, toml_view(entries@[i as int].1)));
        if text_equal(entries[i].0.as_str(), key) {
            return Some(&entries[i].1);
        }
        assert(rest.drop_first() =~= all.skip(i + 1));
        i = i + 1;
    }
    assert(all.skip(i as int).len() == 0);
    None
}

/// A TOML document parsed as a table, by the `toml` crate: its entries read in key order,
/// or the decoder's message.
pub uninterp spec fn toml_table(text: Seq<char>) -> Result<TomlView, Seq<char>>;

/// Parses TOML text as a table with `toml::from_str`; the result is the document's
/// reading named by [`toml_table`] (a table), or the message of the decoder's error.
#[verifier::external_body]
pub(crate) fn parse_toml_table(text: &str) -> (result: Result<TomlValue, String>)
    ensures
        match (result, toml_table(text@)) {
            (Ok(v), Ok(w)) => toml_view(v) == w && w is Table,
            (Err(e), Err(m)) => e@ == m,
            _ => false,
        },
{
    match toml::from_str::<toml::Table>(text) {
        Ok(table) => Ok(TomlValue::Table(table.into_iter().map(|(k, v)| (k, from_toml(v))).collect())),
        Err(error) => Err(error.to_string()),
    }
}

/// A value of the `toml` crate, carried opaquely.
#[verifier::external_type_specification]
#[verifier::external_body]
pub struct ExTomlValue(toml::Value);

/// The plain reading of a value of the `toml` crate, variant for variant.
#[verifier::external_body]
fn from_toml(value: toml::Value) -> (v: TomlValue) {
    match value {
        toml::Value::String(s) => TomlValue::Text(s),
        toml::Value::Integer(i) => TomlValue::Integer(i),
        toml::Value::Boolean(b) => TomlValue::Boolean(b),
        toml::Value::Array(items) => TomlValue::List(items.into_iter().map(from_toml).collect()),
        toml::Value::Table(table) => TomlValue::Table(table.into_iter().map(|(k, v)| (k, from_toml(v))).collect()),
        toml::Value::Float(_) | toml::Value::Datetime(_) => TomlValue::Other,
    }
}

} // verus!
