use vstd::prelude::*;
use vstd::string::StringSliceAdditionalSpecFns;

verus! {

#[verifier::external_type_specification]
#[verifier::external_body]
pub struct ExYaml(yaml_rust::Yaml);

/// Everything the switch is started with.
pub struct SwitchConfig {
    pub dataplane: DpConfig,
    pub parser_wasm: Vec<u8>,
    pub pipeline_wasm: Vec<u8>,
    pub listen_address: String,
    pub cache_core_num: u8,
    pub pipeline_core_num: u8,
    pub l1_cache_size: usize,
    pub l2_cache_size: usize,
    pub l3_cache_tuple_size: usize,
    pub interface_configs: Vec<InterfaceConfig>,
    pub initial_table_data: Vec<u8>,
}

/// One network interface and the number of cache cores it feeds.
pub struct InterfaceConfig {
    pub if_name: String,
    pub cache_core_num: u8,
}

/// The data plane description: header layouts and tables.
pub struct DpConfig {
    pub headers: Vec<DpConfigHeader>,
    pub header_max_size: usize,
    pub tables: Vec<DpConfigTable>,
}

/// A header layout: the bit size of each field, the fields the tables use
/// and the fields the parser reads.
pub struct DpConfigHeader {
    pub fields: Vec<u16>,
    pub used_fields: Vec<u16>,
    pub parse_fields: Vec<u16>,
}

/// A table: its keys, the key its search tree is built on, the action of its
/// default entry and its capacity.
pub struct DpConfigTable {
    pub keys: Vec<DpConfigTableKey>,
    pub tree_key_index: usize,
    pub default_action_id: u64,
    pub max_size: u64,
}

/// A key of a table: how it matches ("lpm" or exact) and which field of
/// which header it reads.
pub struct DpConfigTableKey {
    pub match_kind: String,
    pub header_id: u64,
    pub field_id: u64,
}

/// A YAML value as the switch configuration reads it: text, an integer, a
/// mapping (its entries in document order) or anything else.
pub enum YamlValue {
    Str(String),
    Int(i64),
    Hash(Vec<(YamlValue, YamlValue)>),
    Other,
}

/// The files the switch configuration names: the data plane description,
/// the parser and pipeline programs, and the initial table entries.
pub struct ConfigPaths {
    pub dataplane_config_path: String,
    pub parser_wasm_path: String,
    pub pipeline_wasm_path: String,
    pub initial_table_data_path: String,
}

/// The documents that yaml-rust's `YamlLoader::load_from_str` reads from
/// `text`, as `YamlValue`s; `None` when it reports a scan error.
pub uninterp spec fn spec_yaml_docs(text: Seq<char>) -> Option<Seq<YamlValue>>;

/// The values that getopts gives the `-c`/`--config` option (declared with
/// `optopt`) when it parses `args`, in the order given; `None` when
/// `Options::parse` fails.
pub uninterp spec fn spec_config_option_values(args: Seq<Seq<char>>) -> Option<Seq<Seq<char>>>;

/// The texts of a list of strings.
pub open spec fn texts(v: Seq<String>) -> Seq<Seq<char>> {
    v.map_values(|s: String| s@)
}

/// The value of a yaml-rust document node, variant for variant: text,
/// integer and mapping (entries in the map's order) kept, the rest `Other`.
#[verifier::external_body]
fn yaml_value_of(y: &yaml_rust::Yaml) -> YamlValue {
    match y {
        yaml_rust::Yaml::String(s) => YamlValue::Str(s.clone()),
        yaml_rust::Yaml::Integer(i) => YamlValue::Int(*i),
        yaml_rust::Yaml::Hash(h) => {
            let mut entries = Vec::new();
            for (k, v) in h.iter() {
                entries.push((yaml_value_of(k), yaml_value_of(v)));
            }
            YamlValue::Hash(entries)
        },
        _ => YamlValue::Other,
    }
}

/// Whether a byte is one that can open a YAML collection: `-` and `?`
/// (block sequence entry, complex key), `:` (block or flow mapping value),
/// `[` and `{` (flow sequence and mapping).
pub open spec fn opens_collection(b: u8) -> bool {
    b == 0x2d || b == 0x3f || b == 0x3a || b == 0x5b || b == 0x7b
}

/// How many of the first `n` bytes can open a YAML collection.
pub open spec fn openers_upto(bytes: Seq<u8>, n: int) -> nat
    decreases n,
{
    if n <= 0 {
        0
    } else {
        openers_upto(bytes, n - 1) + if opens_collection(bytes[n - 1]) {
            1nat
        } else {
            0nat
        }
    }
}

/// How many bytes of a YAML text can open a collection. yaml-rust's loader
/// recurses once per nesting level, and each level starts at a collection
/// opened by one of these one-byte characters, so this bounds the depth of
/// that recursion.
pub open spec fn yaml_openers(bytes: Seq<u8>) -> nat {
    openers_upto(bytes, bytes.len() as int)
}

/// The most collection openers a switch configuration text may hold: a
/// bound on the loader's recursion depth that keeps it well inside a
/// thread's stack.
pub const YAML_MAX_OPENERS: usize = 256;

/// The number of bytes of `text` that can open a YAML collection.
fn count_yaml_openers(text: &str) -> (r: usize)
    ensures
        r == yaml_openers(text.spec_bytes()),
{
    let bytes = text.as_bytes();
    let mut count: usize = 0;
    let mut i: usize = 0;
    while i < bytes.len()
        invariant
            i <= bytes@.len(),
            bytes@ == text.spec_bytes(),
            count == openers_upto(bytes@, i as int),
            count <= i,
        decreases bytes@.len() - i,
    {
        let b = bytes[i];
        if b == 0x2d || b == 0x3f || b == 0x3a || b == 0x5b || b == 0x7b {
            count = count + 1;
        }
        i = i + 1;
    }
    count
}

/// Calls yaml-rust's `YamlLoader::load_from_str` on `text`, which may hold
/// at most `YAML_MAX_OPENERS` collection openers (deeper nesting could
/// exhaust the stack in the loader's recursion). Claimed: the documents are
/// those `spec_yaml_docs` names, and `None` comes exactly when the loader
/// reports an error.
#[verifier::external_body]
fn load_yaml(text: &str) -> (r: Option<Vec<YamlValue>>)
    requires
        yaml_openers(text.spec_bytes()) <= YAML_MAX_OPENERS,
    ensures
        r is None <==> spec_yaml_docs(text@) is None,
        r matches Some(v) ==> spec_yaml_docs(text@) == Some(v@),
{
    match yaml_rust::YamlLoader::load_from_str(text) {
        Ok(docs) => Some(docs.iter().map(yaml_value_of).collect()),
        Err(_) => None,
    }
}

/// Calls getopts' `Options::parse` on `args` with the `-c`/`--config`
/// option declared, and `Matches::opt_strs` for it. Claimed: the values are
/// those `spec_config_option_values` names, and `None` comes exactly when
/// the parse fails.
#[verifier::external_body]
fn config_option_values(args: &Vec<String>) -> (r: Option<Vec<String>>)
    ensures
        r is None <==> spec_config_option_values(texts(args@)) is None,
        r matches Some(v) ==> spec_config_option_values(texts(args@)) == Some(texts(v@)),
{
    let mut opts = getopts::Options::new();
    opts.optopt("c", "config", "yaml switch config path", "");
    match opts.parse(args) {
        Ok(matches) => Some(matches.opt_strs("c")),
        Err(_) => None,
    }
}

/// The path of the switch configuration file: the first value given to
/// `-c`/`--config`; `None` when the arguments do not parse or give none.
pub open spec fn spec_config_path(args: Seq<Seq<char>>) -> Option<Seq<char>> {
    match spec_config_option_values(args) {
        Some(vs) => if vs.len() > 0 { Some(vs[0]) } else { None },
        None => None,
    }
}

/// The switch configuration file named on the command line (see
/// `spec_config_path`).
pub fn config_path_of(args: &Vec<String>) -> (r: Option<String>)
    ensures
        r is None <==> spec_config_path(texts(args@)) is None,
        r matches Some(p) ==> spec_config_path(texts(args@)) == Some(p@),
{
    match config_option_values(args) {
        Some(values) => {
            if values.len() > 0 {
                proof {
                    assert(texts(values@)[0] == values@[0]@);
                }
                Some(values[0].clone())
            } else {
                None
            }
        },
        None => None,
    }
}

/// The first document of a YAML text, if it loads and has one.
pub open spec fn first_doc(docs: Option<Seq<YamlValue>>) -> Option<YamlValue> {
    match docs {
        Some(d) => if d.len() > 0 { Some(d[0]) } else { None },
        None => None,
    }
}

/// The switch configuration document of a YAML text: its first document;
/// `None` also for a text with more than `YAML_MAX_OPENERS` collection
/// openers, which is not loaded.
pub fn load_switch_yaml(text: &str) -> (r: Option<YamlValue>)
    ensures
        r == (if yaml_openers(text.spec_bytes()) <= YAML_MAX_OPENERS {
            first_doc(spec_yaml_docs(text@))
        } else {
            None
        }),
{
    if count_yaml_openers(text) > YAML_MAX_OPENERS {
        return None;
    }
    match load_yaml(text) {
        Some(mut docs) => {
            if docs.len() > 0 {
                Some(docs.remove(0))
            } else {
                None
            }
        },
        None => None,
    }
}

/// Whether `k` is the text `key`.
pub open spec fn key_is(k: YamlValue, key: Seq<char>) -> bool {
    match k {
        YamlValue::Str(s) => s@ == key,
        _ => false,
    }
}

/// The value of the first entry from the `i`-th on whose key is the text
/// `key`.
pub open spec fn entries_get_from(entries: Seq<(YamlValue, YamlValue)>, key: Seq<char>, i: int) -> Option<YamlValue>
    decreases entries.len() - i,
{
    if i < 0 || i >= entries.len() {
        None
    } else if key_is(entries[i].0, key) {
        Some(entries[i].1)
    } else {
        entries_get_from(entries, key, i + 1)
    }
}

/// The value under the text key `key` of a mapping; `None` for a missing key
/// or a value that is no mapping.
pub open spec fn yaml_get(v: YamlValue, key: Seq<char>) -> Option<YamlValue> {
    match v {
        YamlValue::Hash(es) => entries_get_from(es@, key, 0),
        _ => None,
    }
}

/// The text under `key` of a mapping, if the value there is text.
pub open spec fn text_at(v: YamlValue, key: Seq<char>) -> Option<Seq<char>> {
    match yaml_get(v, key) {
        Some(YamlValue::Str(s)) => Some(s@),
        _ => None,
    }
}

/// The integer under `key` of a mapping, if the value there is an integer.
pub open spec fn int_at(v: YamlValue, key: Seq<char>) -> Option<i64> {
    match yaml_get(v, key) {
        Some(YamlValue::Int(i)) => Some(i),
        _ => None,
    }
}

/// Looks up the text key `key` in a mapping (see `yaml_get`).
fn yaml_lookup<'a>(v: &'a YamlValue, key: &str) -> (r: Option<&'a YamlValue>)
    ensures
        r matches Some(x) ==> yaml_get(*v, key@) == Some(*x),
        r is None ==> yaml_get(*v, key@) is None,
{
    match v {
        YamlValue::Hash(entries) => {
            let k = key.to_owned();
            let mut i: usize = 0;
            while i < entries.len()
                invariant
                    i <= entries@.len(),
                    k@ == key@,
                    entries_get_from(entries@, key@, i as int) == entries_get_from(entries@, key@, 0),
                    yaml_get(*v, key@) == entries_get_from(entries@, key@, 0),
                decreases entries.len() - i,
            {
                let e = &entries[i];
                let hit = match &e.0 {
                    YamlValue::Str(s) => s.eq(&k),
                    _ => false,
                };
                assert(hit == key_is(entries@[i as int].0, key@));
                if hit {
                    assert(entries_get_from(entries@, key@, i as int) == Some(entries@[i as int].1));
                    return Some(&e.1);
                }
                i = i + 1;
            }
            None
        },
        _ => None,
    }
}

/// The text under `key` of a mapping (see `text_at`).
fn yaml_text(v: &YamlValue, key: &str) -> (r: Option<String>)
    ensures
        r is None <==> text_at(*v, key@) is None,
        r matches Some(s) ==> text_at(*v, key@) == Some(s@),
{
    match yaml_lookup(v, key) {
        Some(YamlValue::Str(s)) => Some(s.clone()),
        _ => None,
    }
}

/// The integer under `key` of a mapping (see `int_at`).
fn yaml_int(v: &YamlValue, key: &str) -> (r: Option<i64>)
    ensures
        r == int_at(*v, key@),
{
    match yaml_lookup(v, key) {
        Some(YamlValue::Int(i)) => Some(*i),
        _ => None,
    }
}

/// The paths the `general` section of a switch configuration document
/// names: data plane description, parser program, pipeline program and
/// initial table entries, in that order; `None` when one is missing or not
/// text.
pub open spec fn spec_config_paths(doc: YamlValue) -> Option<(Seq<char>, Seq<char>, Seq<char>, Seq<char>)> {
    match yaml_get(doc, "general"@) {
        Some(g) => match (
            text_at(g, "dataplane_config_path"@),
            text_at(g, "parser_wasm_path"@),
            text_at(g, "pipeline_wasm_path"@),
            text_at(g, "initial_table_data_path"@),
        ) {
            (Some(a), Some(b), Some(c), Some(d)) => Some((a, b, c, d)),
            _ => None,
        },
        None => None,
    }
}

/// The files a switch configuration document names (see
/// `spec_config_paths`).
pub fn config_paths(doc: &YamlValue) -> (r: Option<ConfigPaths>)
    ensures
        r is None <==> spec_config_paths(*doc) is None,
        r matches Some(c) ==> spec_config_paths(*doc) == Some(
            (c.dataplane_config_path@, c.parser_wasm_path@, c.pipeline_wasm_path@, c.initial_table_data_path@),
        ),
{
    let general = match yaml_lookup(doc, "general") {
        Some(g) => g,
        None => return None,
    };
    let dataplane_config_path = match yaml_text(general, "dataplane_config_path") {
        Some(p) => p,
        None => return None,
    };
    let parser_wasm_path = match yaml_text(general, "parser_wasm_path") {
        Some(p) => p,
        None => return None,
    };
    let pipeline_wasm_path = match yaml_text(general, "pipeline_wasm_path") {
        Some(p) => p,
        None => return None,
    };
    let initial_table_data_path = match yaml_text(general, "initial_table_data_path") {
        Some(p) => p,
        None => return None,
    };
    Some(ConfigPaths { dataplane_config_path, parser_wasm_path, pipeline_wasm_path, initial_table_data_path })
}

/// An interface entry of the `interfaces` mapping: its name (the key, which
/// must be text) and its `cache_core_num`, cut to a byte.
pub open spec fn interface_of(e: (YamlValue, YamlValue)) -> Option<(Seq<char>, u8)> {
    match e.0 {
        YamlValue::Str(name) => match int_at(e.1, "cache_core_num"@) {
            Some(n) => Some((name@, n as u8)),
            None => None,
        },
        _ => None,
    }
}

/// The interfaces of the first `n` entries, in order; `None` when one of
/// them is not a well-formed interface entry.
pub open spec fn interfaces_upto(es: Seq<(YamlValue, YamlValue)>, n: int) -> Option<Seq<(Seq<char>, u8)>>
    decreases n,
{
    if n <= 0 {
        Some(Seq::empty())
    } else {
        match (interfaces_upto(es, n - 1), interface_of(es[n - 1])) {
            (Some(a), Some(x)) => Some(a.push(x)),
            _ => None,
        }
    }
}

/// The interfaces a switch configuration document lists under
/// `interfaces`, in document order; `None` when that is no mapping or an
/// entry is not well formed.
pub open spec fn interfaces_of(doc: YamlValue) -> Option<Seq<(Seq<char>, u8)>> {
    match yaml_get(doc, "interfaces"@) {
        Some(YamlValue::Hash(es)) => interfaces_upto(es@, es@.len() as int),
        _ => None,
    }
}

/// The settings of a switch configuration document: listen address, cache
/// and pipeline core counts (cut to a byte), the three cache sizes (as
/// `usize`) and the interfaces; `None` when one is missing or of the wrong
/// kind.
pub open spec fn spec_switch_settings(doc: YamlValue) -> Option<(Seq<char>, u8, u8, usize, usize, usize, Seq<(Seq<char>, u8)>)> {
    match yaml_get(doc, "general"@) {
        Some(g) => match (
            text_at(g, "listen_address"@),
            int_at(g, "cache_core_num"@),
            int_at(g, "pipeline_core_num"@),
            int_at(g, "l1_cache_size"@),
            int_at(g, "l2_cache_size"@),
            int_at(g, "l3_cache_tuple_size"@),
            interfaces_of(doc),
        ) {
            (Some(a), Some(c), Some(p), Some(l1), Some(l2), Some(l3), Some(ifs)) => Some(
                (a, c as u8, p as u8, l1 as usize, l2 as usize, l3 as usize, ifs),
            ),
            _ => None,
        },
        None => None,
    }
}

/// The interface settings of a list of interfaces.
pub open spec fn interface_views(v: Seq<InterfaceConfig>) -> Seq<(Seq<char>, u8)> {
    v.map_values(|i: InterfaceConfig| (i.if_name@, i.cache_core_num))
}

proof fn lemma_interfaces_fail(es: Seq<(YamlValue, YamlValue)>, i: int, n: int)
    requires
        0 <= i <= n,
        interfaces_upto(es, i) is None,
    ensures
        interfaces_upto(es, n) is None,
    decreases n - i,
{
    if i < n {
        lemma_interfaces_fail(es, i, n - 1);
    }
}

/// The interfaces of an `interfaces` mapping (see `interfaces_upto`).
fn interface_configs_of(entries: &Vec<(YamlValue, YamlValue)>) -> (r: Option<Vec<InterfaceConfig>>)
    ensures
        r is None <==> interfaces_upto(entries@, entries@.len() as int) is None,
        r matches Some(v) ==> interfaces_upto(entries@, entries@.len() as int) == Some(interface_views(v@)),
{
    let mut configs: Vec<InterfaceConfig> = Vec::new();
    let mut i: usize = 0;
    while i < entries.len()
        invariant
            i <= entries@.len(),
            interfaces_upto(entries@, i as int) == Some(interface_views(configs@)),
        decreases entries.len() - i,
    {
        let e = &entries[i];
        let name = match &e.0 {
            YamlValue::Str(s) => s.clone(),
            _ => {
                proof {
                    lemma_interfaces_fail(entries@, i + 1, entries@.len() as int);
                }
                return None;
            },
        };
        let n = match yaml_int(&e.1, "cache_core_num") {
            Some(n) => n,
            None => {
                proof {
                    lemma_interfaces_fail(entries@, i + 1, entries@.len() as int);
                }
                return None;
            },
        };
        let ghost before = configs@;
        configs.push(InterfaceConfig { if_name: name, cache_core_num: n as u8 });
        proof {
            assert(interface_views(configs@) =~= interface_views(before).push((name@, n as u8)));
        }
        i = i + 1;
    }
    Some(configs)
}

/// The switch configuration from its document and the contents of the files
/// it names (see `spec_switch_settings`); the data plane description and
/// the file contents are kept as given.
pub fn switch_config_of(
    doc: &YamlValue,
    dataplane: DpConfig,
    parser_wasm: Vec<u8>,
    pipeline_wasm: Vec<u8>,
    initial_table_data: Vec<u8>,
) -> (r: Option<SwitchConfig>)
    ensures
        r is None <==> spec_switch_settings(*doc) is None,
        r matches Some(c) ==> {
            &&& spec_switch_settings(*doc) == Some(
                (
                    c.listen_address@,
                    c.cache_core_num,
                    c.pipeline_core_num,
                    c.l1_cache_size,
                    c.l2_cache_size,
                    c.l3_cache_tuple_size,
                    interface_views(c.interface_configs@),
                ),
            )
            &&& c.dataplane == dataplane
            &&& c.parser_wasm == parser_wasm
            &&& c.pipeline_wasm == pipeline_wasm
            &&& c.initial_table_data == initial_table_data
        },
{
    let general = match yaml_lookup(doc, "general") {
        Some(g) => g,
        None => return None,
    };
    let listen_address = match yaml_text(general, "listen_address") {
        Some(a) => a,
        None => return None,
    };
    let cache_core_num = match yaml_int(general, "cache_core_num") {
        Some(n) => n,
        None => return None,
    };
    let pipeline_core_num = match yaml_int(general, "pipeline_core_num") {
        Some(n) => n,
        None => return None,
    };
    let l1_cache_size = match yaml_int(general, "l1_cache_size") {
        Some(n) => n,
        None => return None,
    };
    let l2_cache_size = match yaml_int(general, "l2_cache_size") {
        Some(n) => n,
        None => return None,
    };
    let l3_cache_tuple_size = match yaml_int(general, "l3_cache_tuple_size") {
        Some(n) => n,
        None => return None,
    };
    let interface_configs = match yaml_lookup(doc, "interfaces") {
        Some(YamlValue::Hash(entries)) => match interface_configs_of(entries) {
            Some(v) => v,
            None => return None,
        },
        _ => return None,
    };
    Some(
        SwitchConfig {
            dataplane,
            parser_wasm,
            pipeline_wasm,
            listen_address,
            cache_core_num: cache_core_num as u8,
            pipeline_core_num: pipeline_core_num as u8,
            l1_cache_size: l1_cache_size as usize,
            l2_cache_size: l2_cache_size as usize,
            l3_cache_tuple_size: l3_cache_tuple_size as usize,
            interface_configs,
            initial_table_data,
        },
    )
}

} // verus!
