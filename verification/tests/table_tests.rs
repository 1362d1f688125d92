use dplane::config::{DpConfig, DpConfigHeader, DpConfigTable, DpConfigTableKey};
use dplane::controller::{build_header_list, build_table_list, load_initial_table_data, load_initial_table_data_checked};
use dplane::cp_stream::handle_request;
use dplane::header::Header;
use dplane::parse_result;
use dplane::table::{ActionSet, FlowEntry, MatchFieldValue, Table, Tree};
use dplane::table_controller::{add_flow_entry, flow_entry_fits, parse_flow_entry, request_fits, show_flow_entry};

/**
 * sample dataset 1
 */
fn get_header_list_1() -> Vec<Header> {
    vec![
        // ethernet
        Header::new(&[48, 48, 16], &[0], &[2]),
        // IPv4
        Header::new(&[4, 4, 8, 16, 16, 3, 13, 8, 8, 16, 32, 32], &[11], &[9]),
        // TCP
        Header::new(&[16, 16, 32, 32, 4, 6, 6, 16, 16, 16], &[0, 1], &[]),
        // UDP
        Header::new(&[16, 16, 16], &[0, 1], &[]),
    ]
}

fn key(match_kind: &str, header_id: u64, field_id: u64) -> DpConfigTableKey {
    DpConfigTableKey { match_kind: match_kind.to_string(), header_id, field_id }
}

fn get_dp_config_table_key_1() -> Vec<DpConfigTableKey> {
    // dst mac address, dst IPv4 address
    vec![key("exact", 0, 0), key("lpm", 1, 11)]
}

fn flow_entry(action_id: u8, priority: u8, values: Vec<Option<Vec<u8>>>) -> FlowEntry {
    FlowEntry {
        values: values.into_iter().map(|value| MatchFieldValue { value, prefix_mask: 0xff }).collect(),
        priority,
        action: ActionSet { action_id, action_data: Vec::new() },
    }
}

fn get_entries_1() -> Vec<FlowEntry> {
    let mut entries = Vec::new();
    // entry: 0 (01:02:03:04:05:06, 192.168.0.0/24)
    entries.push(flow_entry(1, 0, vec![Some(vec![0x01, 0x02, 0x03, 0x04, 0x05, 0x06]), Some(vec![192, 168, 0])]));
    // entry: 1 (01:02:03:04:05:06, any)
    entries.push(flow_entry(2, 0, vec![Some(vec![0x01, 0x02, 0x03, 0x04, 0x05, 0x06]), None]));
    for _ in 2..500 {
        entries.push(flow_entry(10, 0, vec![None, None]));
    }
    entries
}

fn parse_result_with(offsets: &[(bool, u16)]) -> parse_result::ParseResult {
    parse_result::ParseResult {
        metadata: vec![0],
        hdr_size: 0,
        header_list: offsets.iter().map(|&(is_valid, offset)| parse_result::Header { is_valid, offset }).collect(),
    }
}

#[test]
fn test_table_search() {
    let header_list = get_header_list_1();

    let table_conf = DpConfigTable {
        keys: get_dp_config_table_key_1(),
        tree_key_index: 0,
        default_action_id: 0,
        max_size: 10000,
    };

    let mut table = Table::new(&table_conf, header_list.clone());
    for entry in get_entries_1() {
        table.insert(entry);
    }

    let parse_result = parse_result_with(&[(true, 0), (true, 14), (false, 0), (false, 0)]);

    let mut pkt = vec![0u8; 64];

    pkt[0] = 0x01;
    pkt[1] = 0x02;
    pkt[2] = 0x03;
    pkt[3] = 0x04;
    pkt[4] = 0x05;
    pkt[5] = 0x06;
    pkt[30] = 192;
    pkt[31] = 168;
    pkt[32] = 0;
    pkt[33] = 24;
    let mut flow_entry = table.search(&pkt, &parse_result);
    assert_eq!(flow_entry.action.action_id, 1);

    pkt[30] = 172;
    pkt[31] = 16;
    pkt[32] = 0;
    pkt[33] = 24;
    flow_entry = table.search(&pkt, &parse_result);
    assert_eq!(flow_entry.action.action_id, 2);

    pkt[5] = 0x07;
    flow_entry = table.search(&pkt, &parse_result);
    assert_eq!(flow_entry.action.action_id, 10);
}

fn add_flow_entry_buffer() -> Vec<u8> {
    let mut buffer = Vec::new();
    buffer.push(2); //value_count
    buffer.push(6); //value_len
    buffer.push(0x1); //value
    buffer.push(0x2);
    buffer.push(0x3);
    buffer.push(0x4);
    buffer.push(0x5);
    buffer.push(0x6);
    buffer.push(0xff); // prefix_mask
    buffer.push(0); //value_len (0 = any)
    buffer.push(2); // priority
    buffer.push(1); // action_id
    buffer.push(6); // action_data_len
    buffer.push(10); //action_data
    buffer.push(20);
    buffer.push(30);
    buffer.push(40);
    buffer.push(50);
    buffer.push(60);
    buffer
}

#[test]
fn test_add_flow_entry() {
    let header_list = vec![Header::new(&[48, 48, 16], &[0, 1], &[])];

    let mut table_conf = DpConfigTable {
        keys: Vec::new(),
        tree_key_index: 0,
        default_action_id: 0,
        max_size: 10000,
    };
    table_conf.keys.push(key("exact", 0, 0));
    table_conf.keys.push(key("exact", 1, 0));

    let mut table = Table::new(&table_conf, header_list);
    let parse_result = parse_result_with(&[(true, 0), (false, 0), (false, 0), (false, 0)]);
    let mut pkt = vec![0u8; 64];

    {
        let buffer = add_flow_entry_buffer();
        add_flow_entry(&mut table, &buffer);
        pkt[0] = 0x01;
        pkt[1] = 0x02;
        pkt[2] = 0x03;
        pkt[3] = 0x04;
        pkt[4] = 0x05;
        pkt[5] = 0x06;
        let flow_entry = table.search(&pkt, &parse_result);
        assert_eq!(flow_entry.priority, 2);
        assert_eq!(flow_entry.values[0].prefix_mask, 0xff);
        match &flow_entry.values[0].value {
            Some(value) => {
                assert_eq!(value.len(), 6);
                assert_eq!(value[0], 0x1);
                assert_eq!(value[1], 0x2);
                assert_eq!(value[2], 0x3);
                assert_eq!(value[3], 0x4);
                assert_eq!(value[4], 0x5);
                assert_eq!(value[5], 0x6);
            },
            None => {
                assert!(false);
            },
        }
        assert!(flow_entry.values[1].value.is_none());
        assert_eq!(flow_entry.action.action_id, 1);
        assert_eq!(flow_entry.action.action_data[0], (40 << 24) + (30 << 16) + (20 << 8) + 10);
        assert_eq!(flow_entry.action.action_data[1], (60 << 8) + 50);
    }
}

#[test]
fn table_new_builds_the_tree_on_the_configured_key() {
    let conf = DpConfigTable { keys: get_dp_config_table_key_1(), tree_key_index: 1, default_action_id: 300, max_size: 1 };
    let table = Table::new(&conf, get_header_list_1());
    assert!(matches!(table.tree, Tree::Radix(_)));
    assert_eq!(table.keys.len(), 2);
    assert_eq!(table.keys[1].0, (1, 11));
    // the default action id is truncated to a byte
    assert_eq!(table.default_entry.action.action_id, 44);
    assert_eq!(table.default_entry.values.len(), 2);
    assert!(table.default_entry.values.iter().all(|v| v.value.is_none() && v.prefix_mask == 0));

    // an index out of range falls back to the first key
    let conf = DpConfigTable { keys: get_dp_config_table_key_1(), tree_key_index: 9, default_action_id: 0, max_size: 1 };
    let table = Table::new(&conf, get_header_list_1());
    assert!(matches!(table.tree, Tree::Avl(_)));
    assert_eq!(table.tree_key_index, 9);
}

#[test]
fn table_search_prefers_higher_priority_and_the_later_on_ties() {
    let conf = DpConfigTable { keys: get_dp_config_table_key_1(), tree_key_index: 0, default_action_id: 99, max_size: 10 };
    let mut table = Table::new(&conf, get_header_list_1());
    let mac = vec![0x01, 0x02, 0x03, 0x04, 0x05, 0x06];
    table.insert(flow_entry(1, 5, vec![Some(mac.clone()), None]));
    table.insert(flow_entry(2, 3, vec![Some(mac.clone()), None]));
    table.insert(flow_entry(3, 5, vec![Some(mac.clone()), None]));
    let parse_result = parse_result_with(&[(true, 0), (true, 14)]);
    let mut pkt = vec![0u8; 64];
    pkt[..6].copy_from_slice(&mac);
    assert_eq!(table.search(&pkt, &parse_result).action.action_id, 3);

    // a packet no entry matches gets the default entry
    pkt[0] = 0xaa;
    assert_eq!(table.search(&pkt, &parse_result).action.action_id, 99);
}

#[test]
fn table_delete_changes_nothing() {
    let conf = DpConfigTable { keys: get_dp_config_table_key_1(), tree_key_index: 0, default_action_id: 0, max_size: 10 };
    let mut table = Table::new(&conf, get_header_list_1());
    table.insert(flow_entry(1, 0, vec![Some(vec![1, 2, 3, 4, 5, 6]), None]));
    table.delete(0);
    let parse_result = parse_result_with(&[(true, 0), (true, 14)]);
    let mut pkt = vec![0u8; 64];
    pkt[..6].copy_from_slice(&[1, 2, 3, 4, 5, 6]);
    assert_eq!(table.search(&pkt, &parse_result).action.action_id, 1);
}

#[test]
fn request_fits_checks_every_announced_byte() {
    let buffer = add_flow_entry_buffer();
    assert!(request_fits(&buffer));
    // one action data byte short
    assert!(!request_fits(&buffer[..buffer.len() - 1]));
    // cut inside the first value
    assert!(!request_fits(&buffer[..5]));
    assert!(!request_fits(&[]));
    // no values, priority, action, no data
    assert!(request_fits(&[0, 7, 9, 0]));
    assert!(!request_fits(&[0, 7, 9]));
}

#[test]
fn parse_flow_entry_reads_words_little_endian() {
    // one value of one byte, a full negative word and a 3-byte residue
    let buffer = vec![1, 1, 0xab, 0x0f, 4, 5, 7, 0x01, 0x00, 0x00, 0x80, 1, 2, 3];
    let e = parse_flow_entry(&buffer);
    assert_eq!(e.values.len(), 1);
    assert_eq!(e.values[0].value, Some(vec![0xab]));
    assert_eq!(e.values[0].prefix_mask, 0x0f);
    assert_eq!(e.priority, 4);
    assert_eq!(e.action.action_id, 5);
    assert_eq!(e.action.action_data, vec![i32::MIN + 1, 1 + (2 << 8) + (3 << 16)]);
}

#[test]
fn show_flow_entry_is_empty() {
    let conf = DpConfigTable { keys: get_dp_config_table_key_1(), tree_key_index: 0, default_action_id: 0, max_size: 10 };
    let table = Table::new(&conf, get_header_list_1());
    assert_eq!(show_flow_entry(&table), "");
}

fn one_table_list() -> Vec<Table> {
    let conf = DpConfigTable { keys: vec![key("exact", 0, 0), key("exact", 1, 0)], tree_key_index: 0, default_action_id: 0, max_size: 10 };
    vec![Table::new(&conf, vec![Header::new(&[48, 48, 16], &[0, 1], &[])])]
}

#[test]
fn handle_request_answers_each_command() {
    let mut tables = one_table_list();
    assert_eq!(handle_request(&mut tables, &[0, 5, 5]), vec![0]);
    assert_eq!(handle_request(&mut tables, &[2, 0]), Vec::<u8>::new());
    assert_eq!(handle_request(&mut tables, &[3]), vec![1]);
    assert_eq!(handle_request(&mut tables, &[200, 1, 2]), vec![1]);

    let mut request = vec![1, 0];
    request.extend(add_flow_entry_buffer());
    assert_eq!(handle_request(&mut tables, &request), vec![0]);
    let parse_result = parse_result_with(&[(true, 0)]);
    let mut pkt = vec![0u8; 64];
    pkt[..6].copy_from_slice(&[1, 2, 3, 4, 5, 6]);
    assert_eq!(tables[0].search(&pkt, &parse_result).action.action_id, 1);
}

#[test]
fn initial_table_data_loads_records_in_order() {
    let mut tables = one_table_list();
    let entry = add_flow_entry_buffer();
    let mut data = vec![2, 0, 0, 0];
    for _ in 0..2 {
        data.push(0);
        data.push(entry.len() as u8);
        data.push(0);
        data.extend(&entry);
    }
    load_initial_table_data(&mut tables, &data);
    let parse_result = parse_result_with(&[(true, 0)]);
    let mut pkt = vec![0u8; 64];
    pkt[..6].copy_from_slice(&[1, 2, 3, 4, 5, 6]);
    let found = tables[0].search(&pkt, &parse_result);
    assert_eq!(found.action.action_id, 1);

    // empty data changes nothing
    let mut tables = one_table_list();
    load_initial_table_data(&mut tables, &[]);
    assert!(matches!(&tables[0].tree, Tree::Avl(t) if t.root_heights().is_none() && t.any_entries().is_empty()));
}

#[test]
fn config_builds_headers_and_tables() {
    let dp_config = DpConfig {
        headers: vec![
            DpConfigHeader { fields: vec![48, 48, 16], used_fields: vec![0, 1], parse_fields: vec![2] },
            DpConfigHeader { fields: vec![4, 4, 8, 16, 16, 3, 13, 8, 8, 16, 32, 32], used_fields: vec![11], parse_fields: vec![9] },
        ],
        header_max_size: 64,
        tables: vec![
            DpConfigTable { keys: get_dp_config_table_key_1(), tree_key_index: 1, default_action_id: 0, max_size: 10 },
            DpConfigTable { keys: vec![key("exact", 0, 1)], tree_key_index: 0, default_action_id: 7, max_size: 10 },
        ],
    };
    let headers = build_header_list(&dp_config);
    assert_eq!(headers.len(), 2);
    assert_eq!(headers[1].fields[11].start_byte_pos, 16);
    let tables = build_table_list(&dp_config, &headers);
    assert_eq!(tables.len(), 2);
    assert!(matches!(tables[0].tree, Tree::Radix(_)));
    assert!(matches!(tables[1].tree, Tree::Avl(_)));
    assert_eq!(tables[1].default_entry.action.action_id, 7);
    assert_eq!(tables[1].header_list.len(), 2);
}

#[test]
fn flow_entry_fits_checks_the_request_and_the_tree() {
    let tables = one_table_list();
    let entry = add_flow_entry_buffer();
    assert!(flow_entry_fits(&tables[0], &entry));
    assert!(!flow_entry_fits(&tables[0], &entry[..entry.len() - 1]));
    // one value only: the tree key (the first) is there, so it fits
    let one_value = vec![1, 1, 9, 0xff, 0, 3, 0];
    assert!(flow_entry_fits(&tables[0], &one_value));
    // no value at all: the tree key is missing
    let no_value = vec![0, 0, 3, 0];
    assert!(!flow_entry_fits(&tables[0], &no_value));
}

#[test]
fn checked_loading_stops_at_the_first_bad_record() {
    let entry = add_flow_entry_buffer();
    let mut data = vec![3, 0, 0, 0];
    data.push(0);
    data.push(entry.len() as u8);
    data.push(0);
    data.extend(&entry);
    // the second record names a table that does not exist
    data.push(7);
    data.push(entry.len() as u8);
    data.push(0);
    data.extend(&entry);
    let mut tables = one_table_list();
    assert_eq!(load_initial_table_data_checked(&mut tables, &data), Some(1));
    let parse_result = parse_result_with(&[(true, 0)]);
    let mut pkt = vec![0u8; 64];
    pkt[..6].copy_from_slice(&[1, 2, 3, 4, 5, 6]);
    assert_eq!(tables[0].search(&pkt, &parse_result).action.action_id, 1);

    let mut tables = one_table_list();
    assert_eq!(load_initial_table_data_checked(&mut tables, &[]), None);
    assert_eq!(load_initial_table_data_checked(&mut tables, &[1, 0]), Some(0));
    let mut good = vec![1, 0, 0, 0, 0, entry.len() as u8, 0];
    good.extend(&entry);
    assert_eq!(load_initial_table_data_checked(&mut tables, &good), None);
    assert_eq!(tables[0].search(&pkt, &parse_result).action.action_id, 1);
}

#[test]
fn checked_loading_refuses_incomplete_requests_and_short_records() {
    let entry = add_flow_entry_buffer();
    // the record's request lacks its last byte
    let mut data = vec![1, 0, 0, 0, 0, (entry.len() - 1) as u8, 0];
    data.extend(&entry[..entry.len() - 1]);
    let mut tables = one_table_list();
    assert_eq!(load_initial_table_data_checked(&mut tables, &data), Some(0));
    assert!(matches!(&tables[0].tree, Tree::Avl(t) if t.root_heights().is_none()));
    // two records announced, one present
    let mut data = vec![2, 0, 0, 0, 0, entry.len() as u8, 0];
    data.extend(&entry);
    let mut tables = one_table_list();
    assert_eq!(load_initial_table_data_checked(&mut tables, &data), Some(1));
    assert!(matches!(&tables[0].tree, Tree::Avl(t) if t.root_heights().is_some()));
}
