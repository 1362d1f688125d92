use dplane::config::{config_path_of, config_paths, load_switch_yaml, switch_config_of, DpConfig, YamlValue};

const SWITCH_YAML: &str = "general:
  dataplane_config_path: \"dp.json\"
  parser_wasm_path: parser.wasm
  pipeline_wasm_path: pipeline.wasm
  initial_table_data_path: init.bin
  listen_address: \"127.0.0.1:4000\"
  cache_core_num: 2
  pipeline_core_num: 3
  l1_cache_size: 65536
  l2_cache_size: 4096
  l3_cache_tuple_size: 300
interfaces:
  eth1:
    cache_core_num: 1
  eth0:
    cache_core_num: 257
";

fn args(a: &[&str]) -> Vec<String> {
    a.iter().map(|s| s.to_string()).collect()
}

fn empty_dataplane() -> DpConfig {
    DpConfig { headers: Vec::new(), header_max_size: 0, tables: Vec::new() }
}

#[test]
fn config_path_comes_from_the_c_option() {
    assert_eq!(config_path_of(&args(&["-c", "switch.yaml"])), Some("switch.yaml".to_string()));
    assert_eq!(config_path_of(&args(&["--config", "other.yaml"])), Some("other.yaml".to_string()));
}

#[test]
fn config_path_is_missing_without_one_valid_option_value() {
    assert_eq!(config_path_of(&args(&[])), None);
    assert_eq!(config_path_of(&args(&["switch.yaml"])), None);
    assert_eq!(config_path_of(&args(&["-c"])), None);
    assert_eq!(config_path_of(&args(&["-x", "switch.yaml"])), None);
    assert_eq!(config_path_of(&args(&["-c", "first.yaml", "-c", "second.yaml"])), None);
}

#[test]
fn switch_yaml_loads_its_first_document() {
    let doc = load_switch_yaml(SWITCH_YAML).unwrap();
    match doc {
        YamlValue::Hash(entries) => {
            assert_eq!(entries.len(), 2);
            assert!(matches!(&entries[0].0, YamlValue::Str(s) if s == "general"));
            assert!(matches!(&entries[1].0, YamlValue::Str(s) if s == "interfaces"));
        },
        _ => panic!("the document is a mapping"),
    }
    let second = load_switch_yaml("answer: 42\n---\nother: 1\n").unwrap();
    match second {
        YamlValue::Hash(entries) => {
            assert_eq!(entries.len(), 1);
            assert!(matches!(&entries[0].1, YamlValue::Int(42)));
        },
        _ => panic!("the document is a mapping"),
    }
}

#[test]
fn switch_yaml_rejects_bad_or_empty_text() {
    assert!(load_switch_yaml("general: [1, 2").is_none());
    assert!(load_switch_yaml("").is_none());
}

#[test]
fn config_paths_read_the_general_section() {
    let doc = load_switch_yaml(SWITCH_YAML).unwrap();
    let paths = config_paths(&doc).unwrap();
    assert_eq!(paths.dataplane_config_path, "dp.json");
    assert_eq!(paths.parser_wasm_path, "parser.wasm");
    assert_eq!(paths.pipeline_wasm_path, "pipeline.wasm");
    assert_eq!(paths.initial_table_data_path, "init.bin");
}

#[test]
fn config_paths_are_missing_when_one_is_not_text() {
    let doc = load_switch_yaml(
        "general:\n  dataplane_config_path: dp.json\n  parser_wasm_path: 7\n  pipeline_wasm_path: p\n  initial_table_data_path: i\n",
    )
    .unwrap();
    assert!(config_paths(&doc).is_none());
    let no_general = load_switch_yaml("interfaces: {}\n").unwrap();
    assert!(config_paths(&no_general).is_none());
}

#[test]
fn switch_config_keeps_settings_and_contents() {
    let doc = load_switch_yaml(SWITCH_YAML).unwrap();
    let c = switch_config_of(&doc, empty_dataplane(), vec![1, 2], vec![3], vec![4, 5, 6]).unwrap();
    assert_eq!(c.listen_address, "127.0.0.1:4000");
    assert_eq!(c.cache_core_num, 2);
    assert_eq!(c.pipeline_core_num, 3);
    assert_eq!(c.l1_cache_size, 65536);
    assert_eq!(c.l2_cache_size, 4096);
    assert_eq!(c.l3_cache_tuple_size, 300);
    assert_eq!(c.parser_wasm, vec![1, 2]);
    assert_eq!(c.pipeline_wasm, vec![3]);
    assert_eq!(c.initial_table_data, vec![4, 5, 6]);
    assert_eq!(c.interface_configs.len(), 2);
    assert_eq!(c.interface_configs[0].if_name, "eth1");
    assert_eq!(c.interface_configs[0].cache_core_num, 1);
    assert_eq!(c.interface_configs[1].if_name, "eth0");
    assert_eq!(c.interface_configs[1].cache_core_num, 1);
}

#[test]
fn switch_config_casts_integers_as_given() {
    let doc = load_switch_yaml(
        "general:\n  listen_address: a\n  cache_core_num: 300\n  pipeline_core_num: -1\n  l1_cache_size: -1\n  l2_cache_size: 0\n  l3_cache_tuple_size: 1\ninterfaces: {}\n",
    )
    .unwrap();
    let c = switch_config_of(&doc, empty_dataplane(), vec![], vec![], vec![]).unwrap();
    assert_eq!(c.cache_core_num, 44);
    assert_eq!(c.pipeline_core_num, 255);
    assert_eq!(c.l1_cache_size, usize::MAX);
    assert_eq!(c.interface_configs.len(), 0);
}

#[test]
fn switch_config_is_missing_when_a_setting_is() {
    let no_address = load_switch_yaml(
        "general:\n  cache_core_num: 1\n  pipeline_core_num: 1\n  l1_cache_size: 1\n  l2_cache_size: 1\n  l3_cache_tuple_size: 1\ninterfaces: {}\n",
    )
    .unwrap();
    assert!(switch_config_of(&no_address, empty_dataplane(), vec![], vec![], vec![]).is_none());
    let bad_interface = load_switch_yaml(
        "general:\n  listen_address: a\n  cache_core_num: 1\n  pipeline_core_num: 1\n  l1_cache_size: 1\n  l2_cache_size: 1\n  l3_cache_tuple_size: 1\ninterfaces:\n  eth0:\n    queues: 1\n",
    )
    .unwrap();
    assert!(switch_config_of(&bad_interface, empty_dataplane(), vec![], vec![], vec![]).is_none());
    let no_interfaces = load_switch_yaml(
        "general:\n  listen_address: a\n  cache_core_num: 1\n  pipeline_core_num: 1\n  l1_cache_size: 1\n  l2_cache_size: 1\n  l3_cache_tuple_size: 1\n",
    )
    .unwrap();
    assert!(switch_config_of(&no_interfaces, empty_dataplane(), vec![], vec![], vec![]).is_none());
}

#[test]
fn deep_nesting_within_the_bound_loads_and_beyond_it_is_refused() {
    let within = format!("{}x\n", "- ".repeat(256));
    assert!(matches!(load_switch_yaml(&within), Some(YamlValue::Other)));
    let mut nested_maps = String::new();
    for i in 0..255 {
        nested_maps.push_str(&" ".repeat(2 * i));
        nested_maps.push_str("a:\n");
    }
    nested_maps.push_str(&" ".repeat(510));
    nested_maps.push_str("a: x\n");
    assert!(matches!(load_switch_yaml(&nested_maps), Some(YamlValue::Hash(_))));
    let beyond = format!("{}x\n", "- ".repeat(257));
    assert!(load_switch_yaml(&beyond).is_none());
    // colons inside quoted text count too
    let quoted = format!("k: \"{}\"\n", ":".repeat(300));
    assert!(load_switch_yaml(&quoted).is_none());
}
