use vstd::prelude::*;

use crate::text::{chars_of, split_chars, split_on, str_eq, views};

verus! {

/// A validated identifier of the form `{type}-{area}-{seq}` or `{id}#{fragment}`.
#[derive(Debug, Clone, PartialEq, Eq, Hash, PartialOrd, Ord)]
pub struct Id(pub String);

impl View for Id {
    type V = Seq<char>;

    open spec fn view(&self) -> Seq<char> {
        self.0@
    }
}

impl Id {
    pub fn new(s: &str) -> (r: Id)
        ensures
            r@ == s@,
    {
        Id(s.to_owned())
    }

    pub fn as_str(&self) -> (r: &str)
        ensures
            r@ == self@,
    {
        self.0.as_str()
    }
}

/// The views of a sequence of identifiers.
pub open spec fn id_views(ids: Seq<Id>) -> Seq<Seq<char>> {
    ids.map_values(|i: Id| i@)
}

/// The views of a sequence of strings.
pub open spec fn string_views(v: Seq<String>) -> Seq<Seq<char>> {
    v.map_values(|s: String| s@)
}

/// Severity of a finding. Declaration order is ascending: `Clear < Info < Warning < Error`.
#[derive(Debug, Clone, Copy, PartialEq, Eq, Hash, PartialOrd, Ord, Structural)]
pub enum Severity {
    Clear,
    Info,
    Warning,
    Error,
}

impl Severity {
    /// The position of the severity in ascending order.
    pub open spec fn rank(self) -> int {
        match self {
            Severity::Clear => 0,
            Severity::Info => 1,
            Severity::Warning => 2,
            Severity::Error => 3,
        }
    }

    pub fn level(&self) -> (r: u8)
        ensures
            r == self.rank(),
    {
        match self {
            Severity::Clear => 0,
            Severity::Info => 1,
            Severity::Warning => 2,
            Severity::Error => 3,
        }
    }
}

/// The name under which a severity is written (`Clear` is written `Ok`).
pub open spec fn severity_name(s: Severity) -> Seq<char> {
    match s {
        Severity::Clear => "Ok"@,
        Severity::Info => "Info"@,
        Severity::Warning => "Warning"@,
        Severity::Error => "Error"@,
    }
}

impl Severity {
    /// The name under which the severity is written.
    pub fn name(&self) -> (r: &'static str)
        ensures
            r@ == severity_name(*self),
    {
        match self {
            Severity::Clear => "Ok",
            Severity::Info => "Info",
            Severity::Warning => "Warning",
            Severity::Error => "Error",
        }
    }
}

/// Chain definition of one area (`[[id.chains]]`).
#[derive(Debug, Clone)]
pub struct ChainSpec {
    pub area: String,
    pub order: Vec<String>,
    pub independent: Vec<String>,
}

/// Typecode to directory / extension mapping (`[id.types]`).
#[derive(Debug, Clone)]
pub struct TypeSpec {
    pub typecode: String,
    pub dir: String,
    pub ext: String,
}

/// Semantic-layer settings that are not thresholds (`[semantic]`).
#[derive(Debug, Clone)]
pub struct SemanticConfig {
    pub enabled: bool,
    pub model: Option<String>,
    pub model_dir: Option<String>,
}

/// Settings read from `.legixy.toml` / `.trace-engine.toml`.
#[derive(Debug, Clone)]
pub struct Config {
    pub chain_order: Vec<String>,
    pub independent: Vec<String>,
    pub chains: Vec<ChainSpec>,
    pub types: Vec<TypeSpec>,
    pub id_redefined_enabled: bool,
    pub id_semantic_mismatch_enabled: bool,
    pub id_semantic_drift_enabled: bool,
    pub semantic: SemanticConfig,
    pub contextual_retrieval_enabled: bool,
}

/// The default ICONIX chain order.
pub open spec fn default_chain_order() -> Seq<Seq<char>> {
    seq![
        "UC"@, "RBA"@, "SEQA"@, "RBD"@, "SEQD"@, "DD"@, "TS"@, "TC"@, "SRC"@
    ]
}

fn owned(s: &str) -> (r: String)
    ensures
        r@ == s@,
{
    s.to_owned()
}

impl Config {
    pub open spec fn is_default(self) -> bool {
        &&& string_views(self.chain_order@) == default_chain_order()
        &&& self.independent@.len() == 0
        &&& self.chains@.len() == 0
        &&& self.types@.len() == 0
        &&& !self.id_redefined_enabled
        &&& !self.id_semantic_mismatch_enabled
        &&& !self.id_semantic_drift_enabled
        &&& !self.semantic.enabled
        &&& self.semantic.model is None
        &&& self.semantic.model_dir is None
        &&& !self.contextual_retrieval_enabled
    }

    /// The area chain that applies to `node_id`, by index into `chains`
    /// (`None` when there is none); `Some(-1)` stands for `chain_order`.
    pub open spec fn spec_chain_for(self, node_id: Seq<char>) -> Option<int> {
        if self.chains@.len() == 0 {
            Some(-1)
        } else {
            let parts = split_on(node_id, '-');
            if parts.len() < 2 {
                None
            } else {
                first_area_match(self.chains@, parts[1])
            }
        }
    }

    /// The chain order that applies to `node_id`: in single-area mode (`chains` empty)
    /// `chain_order`; otherwise the order of the first chain whose area is the second
    /// `-`-separated part of `node_id`, or `None`.
    pub fn chain_order_for(&self, node_id: &str) -> (r: Option<&Vec<String>>)
        ensures
            match self.spec_chain_for(node_id@) {
                None => r is None,
                Some(i) => r matches Some(o) && (if i == -1 {
                    *o == self.chain_order
                } else {
                    *o == self.chains@[i].order
                }),
            },
    {
        if self.chains.len() == 0 {
            return Some(&self.chain_order);
        }
        let cs = chars_of(node_id);
        let parts = split_chars(&cs, '-');
        if parts.len() < 2 {
            return None;
        }
        let area = string_from_parts(&parts, 1);
        let mut i: usize = 0;
        while i < self.chains.len()
            invariant
                i <= self.chains@.len(),
                split_on(node_id@, '-').len() >= 2,
                area@ == split_on(node_id@, '-')[1],
                first_area_match(self.chains@.take(i as int), area@) is None,
            decreases self.chains@.len() - i,
        {
            proof {
                lemma_first_area_match_step(self.chains@, area@, i as int);
            }
            if str_eq(self.chains[i].area.as_str(), area.as_str()) {
                proof {
                    lemma_first_area_match_prefix(self.chains@, area@, i + 1);
                }
                return Some(&self.chains[i].order);
            }
            i = i + 1;
        }
        assert(self.chains@.take(self.chains@.len() as int) == self.chains@);
        None
    }
}

fn string_from_parts(parts: &Vec<Vec<char>>, k: usize) -> (r: String)
    requires
        k < parts@.len(),
    ensures
        r@ == views(parts@)[k as int],
{
    crate::text::string_from_chars(parts[k].as_slice())
}

/// Index of the first chain whose area equals `area`.
pub open spec fn first_area_match(chains: Seq<ChainSpec>, area: Seq<char>) -> Option<int>
    decreases chains.len(),
{
    if chains.len() == 0 {
        None
    } else {
        match first_area_match(chains.drop_last(), area) {
            Some(i) => Some(i),
            None => if chains.last().area@ == area {
                Some(chains.len() - 1)
            } else {
                None
            },
        }
    }
}

proof fn lemma_first_area_match_step(chains: Seq<ChainSpec>, area: Seq<char>, i: int)
    requires
        0 <= i < chains.len(),
        first_area_match(chains.take(i), area) is None,
    ensures
        first_area_match(chains.take(i + 1), area) == (if chains[i].area@ == area {
            Some(i)
        } else {
            None::<int>
        }),
{
    assert(chains.take(i + 1).drop_last() == chains.take(i));
}

proof fn lemma_first_area_match_prefix(chains: Seq<ChainSpec>, area: Seq<char>, k: int)
    requires
        0 <= k <= chains.len(),
        first_area_match(chains.take(k), area) is Some,
    ensures
        first_area_match(chains, area) == first_area_match(chains.take(k), area),
    decreases chains.len() - k,
{
    if k < chains.len() {
        assert(chains.take(k + 1).drop_last() == chains.take(k));
        lemma_first_area_match_prefix(chains, area, k + 1);
    } else {
        assert(chains.take(k) == chains);
    }
}

impl Default for Config {
    fn default() -> (c: Config)
        ensures
            c.is_default(),
    {
        let mut order: Vec<String> = Vec::new();
        order.push(owned("UC"));
        order.push(owned("RBA"));
        order.push(owned("SEQA"));
        order.push(owned("RBD"));
        order.push(owned("SEQD"));
        order.push(owned("DD"));
        order.push(owned("TS"));
        order.push(owned("TC"));
        order.push(owned("SRC"));
        proof {
            reveal_strlit("UC");
            reveal_strlit("RBA");
            reveal_strlit("SEQA");
            reveal_strlit("RBD");
            reveal_strlit("SEQD");
            reveal_strlit("DD");
            reveal_strlit("TS");
            reveal_strlit("TC");
            reveal_strlit("SRC");
            assert(string_views(order@) =~= default_chain_order());
        }
        Config {
            chain_order: order,
            independent: Vec::new(),
            chains: Vec::new(),
            types: Vec::new(),
            id_redefined_enabled: false,
            id_semantic_mismatch_enabled: false,
            id_semantic_drift_enabled: false,
            semantic: SemanticConfig { enabled: false, model: None, model_dir: None },
            contextual_retrieval_enabled: false,
        }
    }
}

/// Failure to load the settings.
#[derive(Debug)]
pub enum ConfigError {
    Load(String),
}

impl ConfigError {
    /// The message of the error.
    pub fn message(&self) -> (r: String)
        ensures
            r@ == "config load error: "@ + match *self { ConfigError::Load(m) => m@ },
    {
        match self {
            ConfigError::Load(m) => {
                let mut s = String::from_str("config load error: ");
                s.append(m.as_str());
                s
            },
        }
    }
}

} // verus!
