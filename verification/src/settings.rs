use vstd::prelude::*;

use crate::common::{default_chain_order, string_views, ChainSpec, Config, ConfigError, SemanticConfig, TypeSpec};
use crate::text::str_eq;

verus! {

/// A TOML value as plain data. A float is held by the bits of its `f64`; a datetime
/// by its TOML text; a table by its entries in the order the parser gives them.
#[derive(Debug)]
pub enum TomlValue {
    Str(String),
    Integer(i64),
    Float(u64),
    Boolean(bool),
    Datetime(String),
    Array(Vec<TomlValue>),
    Table(Vec<(String, TomlValue)>),
}

#[verifier::external_type_specification]
#[verifier::external_body]
pub struct ExTomlValue(toml::Value);

/// What the TOML parser makes of a document: its root value, or the parser's message.
pub uninterp spec fn toml_document(text: Seq<char>) -> Result<TomlValue, Seq<char>>;

/// Moves a parsed TOML value into plain data, variant for variant.
#[verifier::external_body]
fn plain_toml(v: toml::Value) -> TomlValue {
    match v {
        toml::Value::String(s) => TomlValue::Str(s),
        toml::Value::Integer(i) => TomlValue::Integer(i),
        toml::Value::Float(f) => TomlValue::Float(f.to_bits()),
        toml::Value::Boolean(b) => TomlValue::Boolean(b),
        toml::Value::Datetime(d) => TomlValue::Datetime(d.to_string()),
        toml::Value::Array(a) => TomlValue::Array(a.into_iter().map(plain_toml).collect()),
        toml::Value::Table(t) => TomlValue::Table(t.into_iter().map(|(k, x)| (k, plain_toml(x))).collect()),
    }
}

/// `toml::from_str::<toml::Value>`: parses a TOML document; the error is the parser's
/// message.
#[verifier::external_body]
pub(crate) fn parse_toml(text: &str) -> (r: Result<TomlValue, String>)
    ensures
        match (r, toml_document(text@)) {
            (Ok(v), Ok(w)) => v == w,
            (Err(m), Err(w)) => m@ == w,
            _ => false,
        },
{
    match toml::from_str::<toml::Value>(text) {
        Ok(v) => Ok(plain_toml(v)),
        Err(e) => Err(e.to_string()),
    }
}

/// The value of the first entry of `entries` with key `key`.
pub open spec fn entry_value(entries: Seq<(String, TomlValue)>, key: Seq<char>) -> Option<TomlValue>
    decreases entries.len(),
{
    if entries.len() == 0 {
        None
    } else if entries[0].0@ == key {
        Some(entries[0].1)
    } else {
        entry_value(entries.drop_first(), key)
    }
}

/// The value under `key` of a table (none for any other value).
pub open spec fn toml_get(v: Option<TomlValue>, key: Seq<char>) -> Option<TomlValue> {
    match v {
        Some(TomlValue::Table(entries)) => entry_value(entries@, key),
        _ => None,
    }
}

/// The items of an array value.
pub open spec fn toml_array(v: Option<TomlValue>) -> Option<Seq<TomlValue>> {
    match v {
        Some(TomlValue::Array(a)) => Some(a@),
        _ => None,
    }
}

/// The text of a string value.
pub open spec fn toml_str(v: Option<TomlValue>) -> Option<Seq<char>> {
    match v {
        Some(TomlValue::Str(s)) => Some(s@),
        _ => None,
    }
}

/// The truth of a boolean value.
pub open spec fn toml_bool(v: Option<TomlValue>) -> Option<bool> {
    match v {
        Some(TomlValue::Boolean(b)) => Some(b),
        _ => None,
    }
}

/// The strings among `a`, in order (other items are left out).
pub open spec fn string_items(a: Seq<TomlValue>) -> Seq<Seq<char>>
    decreases a.len(),
{
    if a.len() == 0 {
        Seq::empty()
    } else {
        let rest = string_items(a.drop_last());
        match a.last() {
            TomlValue::Str(s) => rest.push(s@),
            _ => rest,
        }
    }
}

/// A chain as plain values: area, order, independent typecodes.
pub type ChainView = (Seq<char>, Seq<Seq<char>>, Seq<Seq<char>>);

/// The view of a chain.
pub open spec fn chain_view(c: ChainSpec) -> ChainView {
    (c.area@, string_views(c.order@), string_views(c.independent@))
}

/// The chain an `[[id.chains]]` item declares: it needs a string `area` and an array
/// `order` (whose strings are kept); `independent` is optional.
pub open spec fn chain_of(item: TomlValue) -> Option<ChainView> {
    match toml_str(toml_get(Some(item), "area"@)) {
        None => None,
        Some(area) => match toml_array(toml_get(Some(item), "order"@)) {
            None => None,
            Some(order) => Some(
                (
                    area,
                    string_items(order),
                    match toml_array(toml_get(Some(item), "independent"@)) {
                        Some(ind) => string_items(ind),
                        None => Seq::empty(),
                    },
                ),
            ),
        },
    }
}

/// The chains that the items of `[[id.chains]]` declare, in order.
pub open spec fn chains_of(items: Seq<TomlValue>) -> Seq<ChainView>
    decreases items.len(),
{
    if items.len() == 0 {
        Seq::empty()
    } else {
        let rest = chains_of(items.drop_last());
        match chain_of(items.last()) {
            Some(c) => rest.push(c),
            None => rest,
        }
    }
}

/// A typecode mapping as plain values: typecode, directory, extension.
pub type TypeView = (Seq<char>, Seq<char>, Seq<char>);

/// The view of a typecode mapping.
pub open spec fn type_view(t: TypeSpec) -> TypeView {
    (t.typecode@, t.dir@, t.ext@)
}

/// The typecode mappings of the `[id.types]` entries, in order: an entry needs a string
/// `dir`; `ext` defaults to `.md`.
pub open spec fn types_of(entries: Seq<(String, TomlValue)>) -> Seq<TypeView>
    decreases entries.len(),
{
    if entries.len() == 0 {
        Seq::empty()
    } else {
        let rest = types_of(entries.drop_last());
        let (code, spec) = entries.last();
        match toml_str(toml_get(Some(spec), "dir"@)) {
            Some(dir) => rest.push(
                (
                    code@,
                    dir,
                    match toml_str(toml_get(Some(spec), "ext"@)) {
                        Some(e) => e,
                        None => ".md"@,
                    },
                ),
            ),
            None => rest,
        }
    }
}

/// The settings a parsed document gives: each known key replaces its default, unknown
/// keys are ignored.
pub open spec fn config_from(c: Config, v: TomlValue) -> bool {
    let id = toml_get(Some(v), "id"@);
    let chain = toml_get(id, "chain"@);
    let sem = toml_get(Some(v), "semantic"@);
    &&& string_views(c.chain_order@) == match toml_array(toml_get(chain, "order"@)) {
        Some(a) => string_items(a),
        None => default_chain_order(),
    }
    &&& string_views(c.independent@) == match toml_array(toml_get(chain, "independent"@)) {
        Some(a) => string_items(a),
        None => Seq::empty(),
    }
    &&& c.chains@.map_values(|x: ChainSpec| chain_view(x)) == match toml_array(toml_get(id, "chains"@)) {
        Some(a) => chains_of(a),
        None => Seq::empty(),
    }
    &&& c.types@.map_values(|x: TypeSpec| type_view(x)) == match toml_get(id, "types"@) {
        Some(TomlValue::Table(t)) => types_of(t@),
        _ => Seq::empty(),
    }
    &&& !c.id_redefined_enabled
    &&& !c.id_semantic_mismatch_enabled
    &&& !c.id_semantic_drift_enabled
    &&& c.semantic.enabled == match toml_bool(toml_get(sem, "enabled"@)) {
        Some(b) => b,
        None => false,
    }
    &&& crate::ctx::compiler::opt_str(c.semantic.model) == toml_str(toml_get(sem, "model"@))
    &&& crate::ctx::compiler::opt_str(c.semantic.model_dir) == toml_str(toml_get(sem, "model_dir"@))
    &&& c.contextual_retrieval_enabled == match toml_bool(toml_get(toml_get(Some(v), "contextual_retrieval"@), "enabled"@)) {
        Some(b) => b,
        None => false,
    }
}

/// The value under `key` of `v`, when `v` is a table.
fn get_key<'a>(v: Option<&'a TomlValue>, key: &str) -> (r: Option<&'a TomlValue>)
    ensures
        match r {
            Some(x) => toml_get(
                match v {
                    Some(t) => Some(*t),
                    None => None,
                },
                key@,
            ) == Some(*x),
            None => toml_get(
                match v {
                    Some(t) => Some(*t),
                    None => None,
                },
                key@,
            ) is None,
        },
{
    let t = match v {
        Some(t) => t,
        None => return None,
    };
    let entries = match t {
        TomlValue::Table(entries) => entries,
        _ => return None,
    };
    assert(toml_get(Some(*t), key@) == entry_value(entries@, key@));
    let mut i: usize = 0;
    assert(entries@.skip(0) =~= entries@);
    while i < entries.len()
        invariant
            i <= entries@.len(),
            v == Some(t),
            toml_get(Some(*t), key@) == entry_value(entries@, key@),
            entry_value(entries@, key@) == entry_value(entries@.skip(i as int), key@),
        decreases entries@.len() - i,
    {
        let ghost rest = entries@.skip(i as int);
        assert(rest.len() > 0);
        assert(rest[0] == entries@[i as int]);
        if str_eq(entries[i].0.as_str(), key) {
            let x = &entries[i].1;
            assert(*x == entries@[i as int].1);
            assert(entry_value(rest, key@) == Some(rest[0].1));
            return Some(x);
        }
        assert(rest.drop_first() =~= entries@.skip(i + 1));
        i = i + 1;
    }
    None
}

/// The strings among the items of `a`, in order.
fn strings_of(a: &Vec<TomlValue>) -> (r: Vec<String>)
    ensures
        string_views(r@) == string_items(a@),
{
    let mut out: Vec<String> = Vec::new();
    let mut i: usize = 0;
    while i < a.len()
        invariant
            i <= a@.len(),
            string_views(out@) == string_items(a@.take(i as int)),
        decreases a@.len() - i,
    {
        proof {
            assert(a@.take(i + 1).drop_last() =~= a@.take(i as int));
            assert(a@.take(i + 1).last() == a@[i as int]);
        }
        match &a[i] {
            TomlValue::Str(s) => {
                let ghost before = string_views(out@);
                out.push(s.clone());
                assert(string_views(out@) =~= before.push(s@));
            },
            _ => {},
        }
        i = i + 1;
    }
    assert(a@.take(a@.len() as int) =~= a@);
    out
}

fn array_of<'a>(v: Option<&'a TomlValue>) -> (r: Option<&'a Vec<TomlValue>>)
    ensures
        match r {
            Some(a) => toml_array(
                match v {
                    Some(t) => Some(*t),
                    None => None,
                },
            ) == Some(a@),
            None => toml_array(
                match v {
                    Some(t) => Some(*t),
                    None => None,
                },
            ) is None,
        },
{
    match v {
        Some(TomlValue::Array(a)) => Some(a),
        _ => None,
    }
}

fn str_of<'a>(v: Option<&'a TomlValue>) -> (r: Option<&'a String>)
    ensures
        match r {
            Some(s) => toml_str(
                match v {
                    Some(t) => Some(*t),
                    None => None,
                },
            ) == Some(s@),
            None => toml_str(
                match v {
                    Some(t) => Some(*t),
                    None => None,
                },
            ) is None,
        },
{
    match v {
        Some(TomlValue::Str(s)) => Some(s),
        _ => None,
    }
}

fn bool_of(v: Option<&TomlValue>) -> (r: Option<bool>)
    ensures
        r == toml_bool(
            match v {
                Some(t) => Some(*t),
                None => None,
            },
        ),
{
    match v {
        Some(TomlValue::Boolean(b)) => Some(*b),
        _ => None,
    }
}

fn chain_spec_of(item: &TomlValue) -> (r: Option<ChainSpec>)
    ensures
        match r {
            Some(c) => chain_of(*item) == Some(chain_view(c)),
            None => chain_of(*item) is None,
        },
{
    proof {
        reveal_strlit("area");
        reveal_strlit("order");
        reveal_strlit("independent");
    }
    let area = match str_of(get_key(Some(item), "area")) {
        Some(a) => a.clone(),
        None => return None,
    };
    let order = match array_of(get_key(Some(item), "order")) {
        Some(o) => strings_of(o),
        None => return None,
    };
    let independent = match array_of(get_key(Some(item), "independent")) {
        Some(a) => strings_of(a),
        None => Vec::new(),
    };
    let c = ChainSpec { area, order, independent };
    assert(string_views(c.independent@) =~= match toml_array(toml_get(Some(*item), "independent"@)) {
        Some(ind) => string_items(ind),
        None => Seq::empty(),
    });
    Some(c)
}

impl Config {
    /// The settings of a parsed `.legixy.toml` (see `config_from`): `[id.chain]` order
    /// and independent typecodes, `[[id.chains]]`, `[id.types]`, `[semantic]` switch,
    /// model and model directory, `[contextual_retrieval]` switch; every other setting
    /// keeps its default, and unknown keys are ignored.
    pub fn from_toml_value(v: &TomlValue) -> (c: Config)
        ensures
            config_from(c, *v),
    {
        let mut c = Config::default();
        let id = get_key(Some(v), "id");
        let chain = get_key(id, "chain");
        match array_of(get_key(chain, "order")) {
            Some(a) => {
                c.chain_order = strings_of(a);
            },
            None => {},
        }
        match array_of(get_key(chain, "independent")) {
            Some(a) => {
                c.independent = strings_of(a);
            },
            None => {},
        }
        match array_of(get_key(id, "chains")) {
            Some(items) => {
                let ghost iv = items@;
                let mut chains: Vec<ChainSpec> = Vec::new();
                let mut i: usize = 0;
                while i < items.len()
                    invariant
                        i <= iv.len(),
                        iv == items@,
                        chains@.map_values(|x: ChainSpec| chain_view(x)) == chains_of(iv.take(i as int)),
                    decreases iv.len() - i,
                {
                    proof {
                        assert(iv.take(i + 1).drop_last() =~= iv.take(i as int));
                        assert(iv.take(i + 1).last() == iv[i as int]);
                    }
                    match chain_spec_of(&items[i]) {
                        Some(ch) => {
                            let ghost before = chains@.map_values(|x: ChainSpec| chain_view(x));
                            let ghost cv = chain_view(ch);
                            chains.push(ch);
                            assert(chains@.map_values(|x: ChainSpec| chain_view(x)) =~= before.push(cv));
                        },
                        None => {},
                    }
                    i = i + 1;
                }
                assert(iv.take(iv.len() as int) =~= iv);
                c.chains = chains;
            },
            None => {},
        }
        match get_key(id, "types") {
            Some(TomlValue::Table(entries)) => {
                let ghost ev = entries@;
                let mut types: Vec<TypeSpec> = Vec::new();
                let mut i: usize = 0;
                while i < entries.len()
                    invariant
                        i <= ev.len(),
                        ev == entries@,
                        types@.map_values(|x: TypeSpec| type_view(x)) == types_of(ev.take(i as int)),
                    decreases ev.len() - i,
                {
                    proof {
                        assert(ev.take(i + 1).drop_last() =~= ev.take(i as int));
                        assert(ev.take(i + 1).last() == ev[i as int]);
                        reveal_strlit("dir");
                        reveal_strlit("ext");
                        reveal_strlit(".md");
                    }
                    let spec = &entries[i].1;
                    match str_of(get_key(Some(spec), "dir")) {
                        Some(dir) => {
                            let ext = match str_of(get_key(Some(spec), "ext")) {
                                Some(e) => e.clone(),
                                None => String::from_str(".md"),
                            };
                            let t = TypeSpec { typecode: entries[i].0.clone(), dir: dir.clone(), ext };
                            let ghost before = types@.map_values(|x: TypeSpec| type_view(x));
                            let ghost tv = type_view(t);
                            types.push(t);
                            assert(types@.map_values(|x: TypeSpec| type_view(x)) =~= before.push(tv));
                        },
                        None => {},
                    }
                    i = i + 1;
                }
                assert(ev.take(ev.len() as int) =~= ev);
                c.types = types;
            },
            _ => {},
        }
        let sem = get_key(Some(v), "semantic");
        match bool_of(get_key(sem, "enabled")) {
            Some(b) => {
                c.semantic.enabled = b;
            },
            None => {},
        }
        match str_of(get_key(sem, "model")) {
            Some(m) => {
                c.semantic.model = Some(m.clone());
            },
            None => {},
        }
        match str_of(get_key(sem, "model_dir")) {
            Some(m) => {
                c.semantic.model_dir = Some(m.clone());
            },
            None => {},
        }
        match bool_of(get_key(get_key(Some(v), "contextual_retrieval"), "enabled")) {
            Some(b) => {
                c.contextual_retrieval_enabled = b;
            },
            None => {},
        }
        proof {
            let id = toml_get(Some(*v), "id"@);
            let chain = toml_get(id, "chain"@);
            let sem = toml_get(Some(*v), "semantic"@);
            assert(string_views(c.chain_order@) == match toml_array(toml_get(chain, "order"@)) {
                Some(a) => string_items(a),
                None => default_chain_order(),
            });
            assert(string_views(c.independent@) == match toml_array(toml_get(chain, "independent"@)) {
                Some(a) => string_items(a),
                None => Seq::empty(),
            });
            assert(c.chains@.map_values(|x: ChainSpec| chain_view(x)) == match toml_array(toml_get(id, "chains"@)) {
                Some(a) => chains_of(a),
                None => Seq::empty(),
            });
            assert(c.types@.map_values(|x: TypeSpec| type_view(x)) == match toml_get(id, "types"@) {
                Some(TomlValue::Table(t)) => types_of(t@),
                _ => Seq::empty(),
            });
        }
        c
    }

    /// The settings in the TOML text of the file at `path` (see `from_toml_value`); a
    /// document the parser refuses is a load error naming the file and the parser's
    /// message.
    pub fn from_toml_text(path: &str, text: &str) -> (r: Result<Config, ConfigError>)
        ensures
            match (r, toml_document(text@)) {
                (Ok(c), Ok(v)) => config_from(c, v),
                (Err(ConfigError::Load(m)), Err(e)) => m@ == path@ + " の TOML 解析に失敗: "@ + e,
                _ => false,
            },
    {
        match parse_toml(text) {
            Ok(v) => Ok(Config::from_toml_value(&v)),
            Err(e) => {
                let mut m = String::from_str(path);
                m.append(" の TOML 解析に失敗: ");
                m.append(e.as_str());
                Err(ConfigError::Load(m))
            },
        }
    }
}

} // verus!
