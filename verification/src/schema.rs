//! The schema validator: loads a declared mapping from key names to expected
//! value types and checks a configuration against it.

use vstd::prelude::*;
use vstd::string::StringExecFns;

use crate::config::SysctlConfig;
use crate::kv::{distinct_keys, kv_map, lemma_kv_map_contains, lemma_kv_map_index};
use crate::text::str_eq;

verus! {

/// The type a schema can declare for a key's value.
#[derive(Clone, Copy, Debug, PartialEq, Eq, Structural)]
pub enum ConfigType {
    /// Any value passes.
    Str,
    /// Only the literal texts `true` and `false` pass.
    Bool,
}

impl View for ConfigType {
    type V = ConfigType;

    open spec fn view(&self) -> ConfigType {
        *self
    }
}

/// Why a schema document was rejected.
#[derive(Clone, Copy, Debug, PartialEq, Eq, Structural)]
pub enum SchemaFormatError {
    /// The document is not a well-formed object of objects of strings.
    Syntax,
    /// The document has no `schema` field.
    MissingSchemaField,
    /// A declared type is neither `string` nor `bool`.
    UnrecognizedType,
}

/// The type that a tag text declares, if the text is a recognized tag.
pub open spec fn tag_type(v: Seq<char>) -> Option<ConfigType> {
    if v == "string"@ {
        Some(ConfigType::Str)
    } else if v == "bool"@ {
        Some(ConfigType::Bool)
    } else {
        None
    }
}

/// The nested mapping that a list of named string-to-string tables denotes.
pub open spec fn doc_map(d: Seq<(String, Vec<(String, String)>)>) -> Map<
    Seq<char>,
    Map<Seq<char>, Seq<char>>,
>
    decreases d.len(),
{
    if d.len() == 0 {
        Map::empty()
    } else {
        doc_map(d.drop_last()).insert(d.last().0@, kv_map(d.last().1@))
    }
}

/// A field name is in the nested mapping exactly when some entry holds it.
proof fn lemma_doc_map_contains(d: Seq<(String, Vec<(String, String)>)>, k: Seq<char>)
    ensures
        doc_map(d).contains_key(k) <==> exists|i: int| 0 <= i < d.len() && d[i].0@ == k,
    decreases d.len(),
{
    if d.len() > 0 {
        lemma_doc_map_contains(d.drop_last(), k);
        let head = d.drop_last();
        if doc_map(d).contains_key(k) && d.last().0@ != k {
            let i = choose|i: int| 0 <= i < head.len() && head[i].0@ == k;
            assert(d[i].0@ == k);
        }
        if exists|i: int| 0 <= i < d.len() && d[i].0@ == k {
            let i = choose|i: int| 0 <= i < d.len() && d[i].0@ == k;
            if i < d.len() - 1 {
                assert(head[i].0@ == k);
            } else {
                assert(d.last().0@ == k);
            }
        }
    }
}

/// With distinct field names, the nested mapping sends each entry's name to
/// that entry's table.
proof fn lemma_doc_map_index(d: Seq<(String, Vec<(String, String)>)>, i: int)
    requires
        distinct_keys(d),
        0 <= i < d.len(),
    ensures
        doc_map(d).contains_key(d[i].0@),
        doc_map(d)[d[i].0@] == kv_map(d[i].1@),
    decreases d.len(),
{
    if i < d.len() - 1 {
        lemma_doc_map_index(d.drop_last(), i);
        assert(d[i].0@ != d.last().0@);
    }
}

/// What `serde_json` reads a schema document as: an object whose fields are
/// objects of strings, or nothing when the text is not such a document.
pub uninterp spec fn json_schema_doc_of(s: Seq<char>) -> Option<
    Map<Seq<char>, Map<Seq<char>, Seq<char>>>,
>;

/// Relies on `serde_json::from_str`: deserializing into a map of maps of
/// strings accepts exactly the JSON objects of that shape, is a function of
/// the input text alone, and yields maps whose keys are unique.
#[verifier::external_body]
fn parse_schema_doc(s: &str) -> (r: Option<Vec<(String, Vec<(String, String)>)>>)
    ensures
        match r {
            Some(doc) => {
                &&& json_schema_doc_of(s@) == Some(doc_map(doc@))
                &&& distinct_keys(doc@)
                &&& forall|i: int| 0 <= i < doc@.len() ==> distinct_keys(#[trigger] doc@[i].1@)
            },
            None => json_schema_doc_of(s@) is None,
        },
{
    match serde_json::from_str::<
        std::collections::HashMap<String, std::collections::HashMap<String, String>>,
    >(s) {
        Ok(doc) => Some(
            doc.into_iter().map(|(name, table)| (name, table.into_iter().collect())).collect(),
        ),
        Err(_) => None,
    }
}

/// The schema that a nested document mapping declares: the tables under its
/// `schema` field, each tag replaced by the type it names; or the error when
/// the field is missing or a tag is not recognized.
pub open spec fn schema_of_doc(d: Map<Seq<char>, Map<Seq<char>, Seq<char>>>) -> Result<
    Map<Seq<char>, ConfigType>,
    SchemaFormatError,
> {
    if !d.contains_key("schema"@) {
        Err(SchemaFormatError::MissingSchemaField)
    } else if exists|k: Seq<char>| d["schema"@].contains_key(k) && tag_type(d["schema"@][k]) is None {
        Err(SchemaFormatError::UnrecognizedType)
    } else {
        Ok(
            Map::new(
                |k: Seq<char>| d["schema"@].contains_key(k),
                |k: Seq<char>| tag_type(d["schema"@][k])->0,
            ),
        )
    }
}

/// A declared schema: a mapping from key names to expected value types,
/// abstracted as a `Map<Seq<char>, ConfigType>`.
#[derive(Debug)]
pub struct Schema {
    entries: Vec<(String, ConfigType)>,
}

impl View for Schema {
    type V = Map<Seq<char>, ConfigType>;

    closed spec fn view(&self) -> Map<Seq<char>, ConfigType> {
        kv_map(self.entries@)
    }
}

impl Schema {
    /// The schema's internal invariant: no key name is declared twice.
    pub closed spec fn wf(&self) -> bool {
        distinct_keys(self.entries@)
    }

    /// Builds the schema that a parsed document declares.
    pub fn from_doc(doc: &Vec<(String, Vec<(String, String)>)>) -> (r: Result<
        Schema,
        SchemaFormatError,
    >)
        requires
            distinct_keys(doc@),
            forall|i: int| 0 <= i < doc@.len() ==> distinct_keys(#[trigger] doc@[i].1@),
        ensures
            match r {
                Ok(schema) => schema.wf() && schema_of_doc(doc_map(doc@)) == Ok::<Map<Seq<char>, ConfigType>, SchemaFormatError>(schema@),
                Err(e) => schema_of_doc(doc_map(doc@)) == Err::<
                    Map<Seq<char>, ConfigType>,
                    SchemaFormatError,
                >(e),
            },
    {
        let n = doc.len();
        let mut i: usize = 0;
        while i < n
            invariant
                n == doc@.len(),
                i <= n,
                distinct_keys(doc@),
                forall|j: int| 0 <= j < doc@.len() ==> distinct_keys(#[trigger] doc@[j].1@),
                forall|j: int| 0 <= j < i ==> doc@[j].0@ != "schema"@,
            decreases n - i,
        {
            if str_eq(doc[i].0.as_str(), "schema") {
                proof {
                    lemma_doc_map_index(doc@, i as int);
                }
                return Self::from_table(&doc[i].1, Ghost(doc_map(doc@)));
            }
            i = i + 1;
        }
        proof {
            lemma_doc_map_contains(doc@, "schema"@);
        }
        Err(SchemaFormatError::MissingSchemaField)
    }

    /// Builds the schema declared by the table under the `schema` field.
    fn from_table(
        table: &Vec<(String, String)>,
        Ghost(d): Ghost<Map<Seq<char>, Map<Seq<char>, Seq<char>>>>,
    ) -> (r: Result<Schema, SchemaFormatError>)
        requires
            distinct_keys(table@),
            d.contains_key("schema"@),
            d["schema"@] == kv_map(table@),
        ensures
            match r {
                Ok(schema) => schema.wf() && schema_of_doc(d) == Ok::<Map<Seq<char>, ConfigType>, SchemaFormatError>(schema@),
                Err(e) => schema_of_doc(d) == Err::<
                    Map<Seq<char>, ConfigType>,
                    SchemaFormatError,
                >(e),
            },
    {
        let ghost m = kv_map(table@);
        let n = table.len();
        let mut entries: Vec<(String, ConfigType)> = Vec::new();
        let mut i: usize = 0;
        while i < n
            invariant
                n == table@.len(),
                i <= n,
                distinct_keys(table@),
                m == kv_map(table@),
                d.contains_key("schema"@),
                d["schema"@] == m,
                entries@.len() == i,
                forall|j: int|
                    0 <= j < i ==> (#[trigger] entries@[j]).0@ == table@[j].0@ && tag_type(
                        table@[j].1@,
                    ) == Some(entries@[j].1),
            decreases n - i,
        {
            let tag = &table[i].1;
            let ty: ConfigType = if str_eq(tag.as_str(), "string") {
                ConfigType::Str
            } else if str_eq(tag.as_str(), "bool") {
                ConfigType::Bool
            } else {
                proof {
                    lemma_kv_map_index(table@, i as int);
                    assert(m.contains_key(table@[i as int].0@) && tag_type(
                        m[table@[i as int].0@],
                    ) is None);
                }
                return Err(SchemaFormatError::UnrecognizedType);
            };
            entries.push((table[i].0.clone(), ty));
            i = i + 1;
        }
        proof {
            assert forall|k: Seq<char>| m.contains_key(k) implies tag_type(m[k]) is Some by {
                lemma_kv_map_contains(table@, k);
                let j = choose|j: int| 0 <= j < table@.len() && table@[j].0@ == k;
                lemma_kv_map_index(table@, j);
                assert(tag_type(table@[j].1@) == Some(entries@[j].1));
            }
        }
        let schema = Schema { entries };
        proof {
            assert forall|a: int, b: int|
                0 <= a < b < schema.entries@.len() implies schema.entries@[a].0@
                != schema.entries@[b].0@ by {
                assert(table@[a].0@ != table@[b].0@);
            }
            let target = Map::new(
                |k: Seq<char>| m.contains_key(k),
                |k: Seq<char>| tag_type(m[k])->0,
            );
            assert forall|k: Seq<char>| #[trigger] schema@.contains_key(k)
                == target.contains_key(k) by {
                lemma_kv_map_contains(schema.entries@, k);
                lemma_kv_map_contains(table@, k);
                if exists|j: int| 0 <= j < schema.entries@.len() && schema.entries@[j].0@ == k {
                    let j = choose|j: int|
                        0 <= j < schema.entries@.len() && schema.entries@[j].0@ == k;
                    assert(table@[j].0@ == k);
                }
                if exists|j: int| 0 <= j < table@.len() && table@[j].0@ == k {
                    let j = choose|j: int| 0 <= j < table@.len() && table@[j].0@ == k;
                    assert(schema.entries@[j].0@ == k);
                }
            }
            assert forall|k: Seq<char>| #[trigger] schema@.contains_key(k) implies schema@[k]
                == target[k] by {
                lemma_kv_map_contains(schema.entries@, k);
                let j = choose|j: int|
                    0 <= j < schema.entries@.len() && schema.entries@[j].0@ == k;
                lemma_kv_map_index(schema.entries@, j);
                lemma_kv_map_index(table@, j);
            }
            assert(schema@ =~= target);
        }
        Ok(schema)
    }

    /// Reads a schema from the text of a schema document: a JSON object with
    /// a `schema` field mapping each key name to `"string"` or `"bool"`.
    pub fn load(s: &str) -> (r: Result<Schema, SchemaFormatError>)
        ensures
            match json_schema_doc_of(s@) {
                None => r == Err::<Schema, SchemaFormatError>(SchemaFormatError::Syntax),
                Some(d) => match r {
                    Ok(schema) => schema.wf() && schema_of_doc(d) == Ok::<Map<Seq<char>, ConfigType>, SchemaFormatError>(schema@),
                    Err(e) => schema_of_doc(d) == Err::<
                        Map<Seq<char>, ConfigType>,
                        SchemaFormatError,
                    >(e),
                },
            },
    {
        match parse_schema_doc(s) {
            Some(doc) => Self::from_doc(&doc),
            None => Err(SchemaFormatError::Syntax),
        }
    }

    /// Looks a key up and returns its declared type, when the key is
    /// declared.
    pub fn get_type(&self, key: &str) -> (r: Option<ConfigType>)
        requires
            self.wf(),
        ensures
            match r {
                Some(t) => self@.contains_key(key@) && self@[key@] == t,
                None => !self@.contains_key(key@),
            },
    {
        let n = self.entries.len();
        let mut i: usize = 0;
        while i < n
            invariant
                n == self.entries.len(),
                i <= n,
                self.wf(),
                forall|j: int| 0 <= j < i ==> self.entries@[j].0@ != key@,
            decreases n - i,
        {
            if str_eq(self.entries[i].0.as_str(), key) {
                proof {
                    lemma_kv_map_index(self.entries@, i as int);
                }
                return Some(self.entries[i].1);
            }
            i = i + 1;
        }
        proof {
            lemma_kv_map_contains(self.entries@, key@);
        }
        None
    }
}

/// Whether a single configuration entry passes a schema: its key must be
/// declared, and a key declared boolean must hold `true` or `false`.
pub open spec fn key_ok(schema: Map<Seq<char>, ConfigType>, k: Seq<char>, v: Seq<char>) -> bool {
    schema.contains_key(k) && (schema[k] == ConfigType::Bool ==> v == "true"@ || v == "false"@)
}

/// Whether every entry of a configuration passes a schema.
pub open spec fn config_valid(
    schema: Map<Seq<char>, ConfigType>,
    config: Map<Seq<char>, Seq<char>>,
) -> bool {
    forall|k: Seq<char>| config.contains_key(k) ==> key_ok(schema, k, config[k])
}

/// The diagnostic for a key that fails validation: an undeclared key is
/// unexpected; a declared one can only fail by not being a boolean.
pub open spec fn validation_error_message(
    schema: Map<Seq<char>, ConfigType>,
    k: Seq<char>,
) -> Seq<char> {
    if schema.contains_key(k) {
        "Validation error: '"@ + k + "' should be a boolean"@
    } else {
        "Validation error: unexpected key '"@ + k + "'"@
    }
}

impl Schema {
    /// Checks every configuration entry against the schema. Succeeds exactly
    /// when all entries pass; otherwise reports one failing key (which key,
    /// when several fail, is unspecified).
    pub fn validate(&self, config: &SysctlConfig) -> (r: Result<(), String>)
        requires
            self.wf(),
            config.wf(),
        ensures
            r is Ok <==> config_valid(self@, config@),
            r matches Err(msg) ==> exists|k: Seq<char>|
                {
                    &&& #[trigger] config@.contains_key(k)
                    &&& !key_ok(self@, k, config@[k])
                    &&& msg@ == validation_error_message(self@, k)
                },
    {
        let pairs = config.entries();
        let n = pairs.len();
        let mut i: usize = 0;
        while i < n
            invariant
                n == pairs@.len(),
                self.wf(),
                distinct_keys(pairs@),
                kv_map(pairs@) == config@,
                i <= n,
                forall|j: int|
                    0 <= j < i ==> key_ok(self@, (#[trigger] pairs@[j]).0@, pairs@[j].1@),
            decreases n - i,
        {
            let key = &pairs[i].0;
            let value = &pairs[i].1;
            match self.get_type(key.as_str()) {
                None => {
                    let mut msg = String::from_str("Validation error: unexpected key '");
                    msg.append(key.as_str());
                    msg.append("'");
                    proof {
                        lemma_kv_map_index(pairs@, i as int);
                    }
                    return Err(msg);
                },
                Some(ConfigType::Str) => {},
                Some(ConfigType::Bool) => {
                    if !(str_eq(value.as_str(), "true") || str_eq(value.as_str(), "false")) {
                        let mut msg = String::from_str("Validation error: '");
                        msg.append(key.as_str());
                        msg.append("' should be a boolean");
                        proof {
                            lemma_kv_map_index(pairs@, i as int);
                        }
                        return Err(msg);
                    }
                },
            }
            i = i + 1;
        }
        proof {
            assert forall|k: Seq<char>| #[trigger] config@.contains_key(k) implies key_ok(
                self@,
                k,
                config@[k],
            ) by {
                lemma_kv_map_contains(pairs@, k);
                let j = choose|j: int| 0 <= j < pairs@.len() && pairs@[j].0@ == k;
                lemma_kv_map_index(pairs@, j);
            }
        }
        Ok(())
    }
}

/// An empty configuration is valid against every schema.
pub proof fn lemma_empty_config_valid(schema: Map<Seq<char>, ConfigType>)
    ensures
        config_valid(schema, Map::<Seq<char>, Seq<char>>::empty()),
{
}

} // verus!
