//! Start-up settings: where the data lies, how many shards there are, and
//! which fields are indexed.

use crate::json::{as_str, elements, json_of, json_parse, jsons, member, member_of, number_text, parse, Json};
use crate::number::{
    all_digits, decimal_value, digit_value, is_digit, is_digit_char, lemma_prefix_monotone,
};
use crate::text::{chars_of, str_eq};
use serde_json::Value;
use vstd::prelude::*;

verus! {

/// The kind of an index.
#[derive(Debug, Clone, Copy, PartialEq, Eq, Structural)]
pub enum IndexType {
    Numeric,
    String,
}

/// A field to index: a dotted path into the documents, and the kind of
/// leaf that counts.
#[derive(Debug, Clone)]
pub struct IndexedField {
    pub field: String,
    pub index_type: IndexType,
}

/// The settings of a store.
#[derive(Debug, Clone)]
pub struct Config {
    pub data_dir: String,
    pub num_shards: u32,
    pub indexed_fields: Vec<IndexedField>,
}

/// Why settings are refused.
#[derive(Debug, Clone, Copy, PartialEq, Eq, Structural)]
pub enum ConfigError {
    /// The text is no JSON object with a string `data_dir`, a whole number
    /// `num_shards` that fits 32 bits, and an array `indexed_fields` of
    /// objects with the strings `field` and `index_type`.
    Malformed,
    /// An index kind is neither `Numeric` nor `String`.
    InvalidIndexType,
    /// There must be at least one shard.
    NoShards,
    /// Two indexed fields have the same path.
    DuplicateField,
}

/// No path is indexed twice.
pub open spec fn distinct_fields(fields: Seq<IndexedField>) -> bool {
    forall|i: int, j: int|
        0 <= i < j < fields.len() ==> (#[trigger] fields[i]).field@ != (#[trigger] fields[j]).field@
}

impl IndexType {
    /// The kind that a settings file names.
    pub open spec fn named(name: Seq<char>) -> Option<IndexType> {
        if name == "Numeric"@ {
            Some(IndexType::Numeric)
        } else if name == "String"@ {
            Some(IndexType::String)
        } else {
            None
        }
    }

    /// Reads the name of an index kind.
    pub fn from_name(name: &str) -> (r: Result<IndexType, ConfigError>)
        ensures
            match r {
                Ok(t) => IndexType::named(name@) == Some(t),
                Err(e) => IndexType::named(name@) is None && e == ConfigError::InvalidIndexType,
            },
    {
        if str_eq(name, "Numeric") {
            Ok(IndexType::Numeric)
        } else if str_eq(name, "String") {
            Ok(IndexType::String)
        } else {
            Err(ConfigError::InvalidIndexType)
        }
    }
}

impl Config {
    /// Settings that a store can be opened with: at least one shard, and no
    /// path indexed twice.
    pub open spec fn valid(&self) -> bool {
        self.num_shards > 0 && distinct_fields(self.indexed_fields@)
    }

    /// What is wrong with the settings, if anything.
    pub open spec fn fault(&self) -> Option<ConfigError> {
        if self.num_shards == 0 {
            Some(ConfigError::NoShards)
        } else if !distinct_fields(self.indexed_fields@) {
            Some(ConfigError::DuplicateField)
        } else {
            None
        }
    }

    /// Checks the settings.
    pub fn validate(&self) -> (r: Result<(), ConfigError>)
        ensures
            match r {
                Ok(_) => self.valid() && self.fault() is None,
                Err(e) => !self.valid() && self.fault() == Some(e),
            },
    {
        if self.num_shards == 0 {
            return Err(ConfigError::NoShards);
        }
        let n = self.indexed_fields.len();
        let mut j: usize = 0;
        while j < n
            invariant
                j <= n == self.indexed_fields.len(),
                self.num_shards != 0,
                forall|a: int, b: int|
                    0 <= a < b < j ==> (#[trigger] self.indexed_fields[a]).field@ != (
                    #[trigger] self.indexed_fields[b]).field@,
            decreases n - j,
        {
            let mut i: usize = 0;
            while i < j
                invariant
                    i <= j < n == self.indexed_fields.len(),
                    self.num_shards != 0,
                    forall|a: int|
                        0 <= a < i ==> (#[trigger] self.indexed_fields[a]).field@
                            != self.indexed_fields[j as int].field@,
                decreases j - i,
            {
                if str_eq(
                    self.indexed_fields[i].field.as_str(),
                    self.indexed_fields[j].field.as_str(),
                ) {
                    assert(self.indexed_fields@[i as int].field@
                        == self.indexed_fields@[j as int].field@);
                    return Err(ConfigError::DuplicateField);
                }
                i = i + 1;
            }
            j = j + 1;
        }
        Ok(())
    }
}

/// What settings say, as texts.
pub struct ConfigView {
    pub data_dir: Seq<char>,
    pub num_shards: u32,
    pub indexed_fields: Seq<(Seq<char>, IndexType)>,
}

/// The paths and kinds of a list of indexed fields.
pub open spec fn fields_view(fields: Seq<IndexedField>) -> Seq<(Seq<char>, IndexType)> {
    Seq::new(fields.len(), |i: int| (fields[i].field@, fields[i].index_type))
}

impl View for Config {
    type V = ConfigView;

    open spec fn view(&self) -> ConfigView {
        ConfigView {
            data_dir: self.data_dir@,
            num_shards: self.num_shards,
            indexed_fields: fields_view(self.indexed_fields@),
        }
    }
}

/// The count that a text spells: digits and nothing else, and no more than
/// 32 bits hold.
pub open spec fn count_of(text: Seq<char>) -> Option<u32> {
    if text.len() > 0 && all_digits(text) && decimal_value(text) <= u32::MAX {
        Some(decimal_value(text) as u32)
    } else {
        None
    }
}

/// The indexed field that an entry of the settings spells.
pub open spec fn field_of_item(item: Json) -> Result<(Seq<char>, IndexType), ConfigError> {
    match (member_of(item, "field"@), member_of(item, "index_type"@)) {
        (Some(Json::String(path)), Some(Json::String(name))) => match IndexType::named(name) {
            Some(kind) => Ok((path, kind)),
            None => Err(ConfigError::InvalidIndexType),
        },
        _ => Err(ConfigError::Malformed),
    }
}

/// The indexed fields that the first `n` entries spell; the error of the
/// first entry that spells none.
pub open spec fn fields_of(items: Seq<Json>, n: int) -> Result<
    Seq<(Seq<char>, IndexType)>,
    ConfigError,
>
    decreases n,
{
    if n <= 0 {
        Ok(Seq::empty())
    } else {
        match fields_of(items, n - 1) {
            Err(e) => Err(e),
            Ok(before) => match field_of_item(items[n - 1]) {
                Ok(f) => Ok(before.push(f)),
                Err(e) => Err(e),
            },
        }
    }
}

/// The settings that a JSON text spells.
pub open spec fn settings_of(text: Seq<char>) -> Result<ConfigView, ConfigError> {
    match json_parse(text) {
        None => Err(ConfigError::Malformed),
        Some(doc) => match (
            member_of(doc, "data_dir"@),
            member_of(doc, "num_shards"@),
            member_of(doc, "indexed_fields"@),
        ) {
            (Some(Json::String(dir)), Some(Json::Number(count)), Some(Json::Array(items))) => {
                match count_of(count) {
                    None => Err(ConfigError::Malformed),
                    Some(n) => match fields_of(items, items.len() as int) {
                        Err(e) => Err(e),
                        Ok(fields) => Ok(
                            ConfigView { data_dir: dir, num_shards: n, indexed_fields: fields },
                        ),
                    },
                }
            },
            _ => Err(ConfigError::Malformed),
        },
    }
}

/// Once the entries up to `n` spell no fields, neither do more of them,
/// and the error stays.
pub proof fn lemma_fields_of_fails(items: Seq<Json>, n: int, m: int)
    requires
        n <= m,
        fields_of(items, n) is Err,
    ensures
        fields_of(items, m) == fields_of(items, n),
    decreases m - n,
{
    if n < m {
        lemma_fields_of_fails(items, n, m - 1);
    }
}

/// Reads a count.
pub fn parse_count(text: &str) -> (r: Option<u32>)
    ensures
        r == count_of(text@),
{
    let chars = chars_of(text);
    if chars.len() == 0 {
        return None;
    }
    let mut acc: u64 = 0;
    let mut i: usize = 0;
    assert(chars@.take(0) =~= Seq::<char>::empty());
    while i < chars.len()
        invariant
            i <= chars.len(),
            chars@ == text@,
            all_digits(chars@.take(i as int)),
            acc == decimal_value(chars@.take(i as int)),
            acc <= u32::MAX,
        decreases chars.len() - i,
    {
        if !is_digit_char(chars[i]) {
            assert(!is_digit(chars@[i as int]));
            return None;
        }
        let d = digit_value(chars[i]);
        acc = acc * 10 + (d as u64);
        i = i + 1;
        proof {
            let done = chars@.take(i as int);
            assert(done.drop_last() =~= chars@.take(i - 1));
            assert forall|k: int| 0 <= k < done.len() implies is_digit(#[trigger] done[k]) by {
                if k < i - 1 {
                    assert(chars@.take(i - 1)[k] == done[k]);
                }
            }
        }
        if acc > 0xffff_ffff {
            proof {
                lemma_prefix_monotone(chars@, i as int, chars.len() as int);
                assert(chars@.take(chars.len() as int) =~= chars@);
            }
            return None;
        }
    }
    assert(chars@.take(chars.len() as int) =~= chars@);
    Some(acc as u32)
}

/// Reads one entry of the indexed fields.
pub fn parse_field(item: &Value) -> (r: Result<IndexedField, ConfigError>)
    ensures
        match r {
            Ok(f) => field_of_item(json_of(*item)) == Ok::<(Seq<char>, IndexType), ConfigError>(
                (f.field@, f.index_type),
            ),
            Err(e) => field_of_item(json_of(*item)) == Err::<(Seq<char>, IndexType), ConfigError>(
                e,
            ),
        },
{
    let path = match member(item, "field") {
        Some(v) => match as_str(v) {
            Some(s) => s,
            None => {
                return Err(ConfigError::Malformed);
            },
        },
        None => {
            return Err(ConfigError::Malformed);
        },
    };
    let name = match member(item, "index_type") {
        Some(v) => match as_str(v) {
            Some(s) => s,
            None => {
                return Err(ConfigError::Malformed);
            },
        },
        None => {
            return Err(ConfigError::Malformed);
        },
    };
    match IndexType::from_name(name) {
        Ok(index_type) => Ok(IndexedField { field: path.to_owned(), index_type }),
        Err(e) => Err(e),
    }
}

impl Config {
    /// Reads settings from their JSON text. Members that the settings do
    /// not know are passed over.
    pub fn from_json(text: &str) -> (r: Result<Config, ConfigError>)
        ensures
            match r {
                Ok(c) => settings_of(text@) == Ok::<ConfigView, ConfigError>(c@),
                Err(e) => settings_of(text@) == Err::<ConfigView, ConfigError>(e),
            },
    {
        let doc = match parse(text) {
            Ok(doc) => doc,
            Err(_) => {
                return Err(ConfigError::Malformed);
            },
        };
        let data_dir = match member(&doc, "data_dir") {
            Some(v) => match as_str(v) {
                Some(s) => s.to_owned(),
                None => {
                    return Err(ConfigError::Malformed);
                },
            },
            None => {
                return Err(ConfigError::Malformed);
            },
        };
        let count = match member(&doc, "num_shards") {
            Some(v) => match number_text(v) {
                Some(s) => s,
                None => {
                    return Err(ConfigError::Malformed);
                },
            },
            None => {
                return Err(ConfigError::Malformed);
            },
        };
        let items = match member(&doc, "indexed_fields") {
            Some(v) => match elements(v) {
                Some(items) => items,
                None => {
                    return Err(ConfigError::Malformed);
                },
            },
            None => {
                return Err(ConfigError::Malformed);
            },
        };
        let num_shards = match parse_count(count.as_str()) {
            Some(n) => n,
            None => {
                return Err(ConfigError::Malformed);
            },
        };
        let ghost docs = jsons(items@);
        let mut indexed_fields: Vec<IndexedField> = Vec::new();
        let mut i: usize = 0;
        assert(fields_view(indexed_fields@) =~= Seq::<(Seq<char>, IndexType)>::empty());
        while i < items.len()
            invariant
                i <= items.len(),
                docs == jsons(items@),
                json_parse(text@) == Some(json_of(doc)),
                member_of(json_of(doc), "data_dir"@) == Some(Json::String(data_dir@)),
                member_of(json_of(doc), "num_shards"@) == Some(Json::Number(count@)),
                member_of(json_of(doc), "indexed_fields"@) == Some(Json::Array(docs)),
                count_of(count@) == Some(num_shards),
                fields_of(docs, i as int) == Ok::<Seq<(Seq<char>, IndexType)>, ConfigError>(
                    fields_view(indexed_fields@),
                ),
            decreases items.len() - i,
        {
            let ghost before = fields_view(indexed_fields@);
            match parse_field(&items[i]) {
                Ok(f) => {
                    indexed_fields.push(f);
                    assert(fields_view(indexed_fields@) =~= before.push((f.field@, f.index_type)));
                },
                Err(e) => {
                    proof {
                        lemma_fields_of_fails(docs, i + 1, items.len() as int);
                    }
                    return Err(e);
                },
            }
            i = i + 1;
        }
        Ok(Config { data_dir, num_shards, indexed_fields })
    }
}

} // verus!
