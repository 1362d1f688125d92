use dplane::cmd::{RequestCmd, ResponseCmd};
use dplane::header::Header;
use dplane::interface::{Interface, PktBuf};
use dplane::parse_result::{Header as ParsedHeader, Metadata, ParseResult};
use dplane::parser_api::{extract_hdr, pkt_drop, pkt_get_len, pkt_read};
use dplane::pipeline_api::{drop, get_action_id, get_action_set_from_cache, get_metadata, read_pkt, set_metadata, to_controller, write_pkt};
use dplane::table::ActionSet;
use dplane::program::{Deparser, Parser, Pipeline};
use dplane::tx_conf::TxConf;
use dplane::udp::UDP;
use dplane::worker::{
    build_l2_key, choose_cache_core, count_tx, next_core, output_pkt, record_l1_key, select_cache_core, tx_queue_of,
    Output, PktAnalysisResult,
};

#[test]
fn test_select_cache_core() {
    let index = select_cache_core(0b0, 8, 0);
    assert_eq!(index, 8);
    let index = select_cache_core(0b1, 8, 0);
    assert_eq!(index, 0);
    let index = select_cache_core(0b10, 8, 0);
    assert_eq!(index, 1);
    let index = select_cache_core(0b100, 8, 0);
    assert_eq!(index, 2);
    let index = select_cache_core(0b1000, 8, 0);
    assert_eq!(index, 3);
    let index = select_cache_core(0b10000, 8, 0);
    assert_eq!(index, 4);
    let index = select_cache_core(0b100000, 8, 0);
    assert_eq!(index, 5);
    let index = select_cache_core(0b1000000, 8, 0);
    assert_eq!(index, 6);
    let index = select_cache_core(0b10000000, 8, 0);
    assert_eq!(index, 7);
    let index = select_cache_core(0b100000000, 8, 0);
    assert_eq!(index, 8);
    let index = select_cache_core(0b1000000000, 8, 0);
    assert_eq!(index, 8);

    let index = select_cache_core(0b11, 8, 1);
    assert_eq!(index, 1);
    let index = select_cache_core(0b0000100, 8, 4);
    assert_eq!(index, 2);
}

#[test]
fn select_cache_core_uses_all_64_flags() {
    assert_eq!(select_cache_core(1u64 << 63, 64, 10), 63);
    assert_eq!(select_cache_core(u64::MAX, 64, 64), 0);
}

#[test]
fn next_core_wraps_at_the_limit() {
    assert_eq!(next_core(0, 3), 1);
    assert_eq!(next_core(1, 3), 2);
    assert_eq!(next_core(2, 3), 0);
    let mut c = 0;
    for _ in 0..6 {
        c = next_core(c, 3);
    }
    assert_eq!(c, 0);
}

#[test]
fn choose_cache_core_falls_back_to_the_random_core() {
    assert_eq!(choose_cache_core(0, 4, 2), (2, false));
    assert_eq!(choose_cache_core(0b1000, 4, 2), (3, true));
    assert_eq!(choose_cache_core(0b0001, 4, 2), (0, true));
}

#[test]
fn l2_key_takes_the_key_fields_of_valid_headers() {
    let headers = vec![Header::new(&[48, 48, 16], &[2, 0], &[]), Header::new(&[8, 8], &[1], &[])];
    let pkt: Vec<u8> = (0..40).collect();
    let parse_result = ParseResult {
        metadata: vec![1],
        hdr_size: 16,
        header_list: vec![ParsedHeader { is_valid: true, offset: 0 }, ParsedHeader { is_valid: false, offset: 14 }],
    };
    let mut l2_key = vec![0xeeu8; 12];
    let len = build_l2_key(&headers, &parse_result, &pkt, &mut l2_key);
    assert_eq!(len, 8);
    assert_eq!(l2_key, vec![12, 13, 0, 1, 2, 3, 4, 5, 0xee, 0xee, 0xee, 0xee]);

    let parse_result = ParseResult {
        metadata: vec![1],
        hdr_size: 16,
        header_list: vec![ParsedHeader { is_valid: false, offset: 0 }, ParsedHeader { is_valid: true, offset: 14 }],
    };
    let len = build_l2_key(&headers, &parse_result, &pkt, &mut l2_key);
    assert_eq!(len, 1);
    assert_eq!(l2_key[0], 15);
}

fn empty_result(l1_key_room: usize, hdr_size: usize) -> PktAnalysisResult {
    PktAnalysisResult {
        rx_id: 0,
        cache_id: 0,
        parse_result: ParseResult { metadata: vec![1], hdr_size, header_list: Vec::new() },
        cache_data: Vec::new(),
        is_cache_hit: false,
        l1_key: vec![0; l1_key_room],
        l1_key_len: 0,
        l1_hash: 0,
        l2_key: Vec::new(),
        l2_key_len: 0,
        l2_hash: 0,
        is_lbf_hit: false,
    }
}

#[test]
fn record_l1_key_copies_the_headers() {
    let mut result = empty_result(6, 4);
    record_l1_key(&mut result, &[7, 6, 5, 4, 3]);
    assert_eq!(result.l1_key_len, 4);
    assert_eq!(result.l1_key, vec![7, 6, 5, 4, 0, 0]);
}

#[test]
fn output_to_a_port_takes_its_queues_in_turn() {
    let mut next = vec![0usize, 1];
    let counts = vec![1usize, 2];
    let out = Output::Port(1);
    assert_eq!(tx_queue_of(&next, &out), Some((1, 1)));
    assert!(output_pkt(&mut next, &counts, &out));
    assert_eq!(next, vec![0, 0]);
    assert!(output_pkt(&mut next, &counts, &out));
    assert_eq!(next, vec![0, 1]);
    assert!(output_pkt(&mut next, &counts, &Output::Port(0)));
    assert_eq!(next, vec![0, 1]);
    assert_eq!(tx_queue_of(&next, &Output::Drop), None);
    assert!(!output_pkt(&mut next, &counts, &Output::Drop));
    assert!(output_pkt(&mut next, &counts, &Output::All));
    assert!(output_pkt(&mut next, &counts, &Output::Controller));
    assert_eq!(next, vec![0, 1]);
}

#[test]
fn tx_counters_add_up() {
    assert_eq!(count_tx(10, 2, 5, 3), (13, 4));
    assert_eq!(count_tx(0, 0, 0, 0), (0, 0));
}

#[test]
fn parse_result_reset_clears_validity() {
    let mut pr = ParseResult {
        metadata: vec![3],
        hdr_size: 34,
        header_list: vec![ParsedHeader { is_valid: true, offset: 0 }, ParsedHeader { is_valid: true, offset: 14 }],
    };
    pr.reset();
    assert_eq!(pr.hdr_size, 0);
    assert!(pr.header_list.iter().all(|h| !h.is_valid));
    assert_eq!(pr.header_list[1].offset, 14);
    assert_eq!(pr.metadata[Metadata::InPort.index()], 3);
}

#[test]
fn parser_calls() {
    let mut pr = ParseResult {
        metadata: vec![1],
        hdr_size: 0,
        header_list: vec![ParsedHeader { is_valid: false, offset: 0 }, ParsedHeader { is_valid: false, offset: 0 }],
    };
    extract_hdr(&mut pr, 1, 14, 20);
    extract_hdr(&mut pr, 0, 0, 14);
    assert_eq!(pr.hdr_size, 34);
    assert!(pr.header_list[1].is_valid);
    assert_eq!(pr.header_list[1].offset, 14);
    assert!(pr.header_list[0].is_valid);
    assert_eq!(pkt_get_len(60), 60);
    assert_eq!(pkt_read(&[1, 200, 3], 1), 200);
    let mut accept = true;
    pkt_drop(&mut accept);
    assert!(!accept);
}

#[test]
fn pipeline_calls() {
    let mut pkt = vec![1u8, 2, 3];
    write_pkt(&mut pkt, 2, 9);
    assert_eq!(read_pkt(&pkt, 2), 9);
    let pr = ParseResult { metadata: vec![5], hdr_size: 0, header_list: Vec::new() };
    assert_eq!(get_metadata(&pr, 0), 5);
    assert_eq!(get_metadata(&pr, 3), 0);
    let mut tx = TxConf { output_port: 9, is_drop: false, is_flooding: true };
    set_metadata(&mut tx, 0, 4);
    assert_eq!(tx.output_port, 4);
    set_metadata(&mut tx, 1, 7);
    assert_eq!(tx.output_port, 4);
    to_controller(&mut tx);
    assert_eq!(tx.output_port, 0);
    drop(&mut tx);
    assert!(tx.is_drop);
    tx.init();
    assert_eq!((tx.output_port, tx.is_drop, tx.is_flooding), (0, false, false));
    let cache = vec![ActionSet { action_id: 3, action_data: vec![] }, ActionSet { action_id: 8, action_data: vec![] }];
    assert_eq!(get_action_id(get_action_set_from_cache(&cache, 1)), 8);
}

#[test]
fn command_codes() {
    assert_eq!(RequestCmd::Ping.code(), 0);
    assert_eq!(RequestCmd::AddFlowEntry.code(), 1);
    assert_eq!(RequestCmd::ShowFlowEntry.code(), 2);
    assert_eq!(ResponseCmd::SuccessMessage.code(), 0);
    assert_eq!(ResponseCmd::ErrorMessage.code(), 1);
}

#[test]
fn kernel_interface_moves_nothing() {
    assert_eq!(Interface::init("eth0", 4, 4), (0, 0, 0));
    let iface = Interface { port: 1, queue: 2 };
    iface.debug_show_info();
    let bufs = vec![PktBuf::new()];
    assert_eq!(iface.rx(&bufs, 1), 0);
    assert_eq!(iface.tx(&bufs, 1), 0);
    assert_eq!(bufs[0].get_raw_pkt().1, 0);
}

#[test]
fn udp_header_wire_form_round_trips() {
    let mut h = UDP::new();
    assert_eq!(h.into_bytes(), [0u8; 8]);
    h.src_port = 0x1234;
    h.dst_port = 53;
    h.len = 0x0100;
    h.checksum = 0xffee;
    let bytes = h.into_bytes();
    assert_eq!(bytes, [0x12, 0x34, 0, 53, 1, 0, 0xff, 0xee]);
    let back = UDP::from_bytes(bytes);
    assert_eq!((back.src_port, back.dst_port, back.len, back.checksum), (0x1234, 53, 0x0100, 0xffee));
}

#[test]
fn programs_keep_their_code_and_tables() {
    let code = [0u8, 0x61, 0x73, 0x6d, 1, 0, 0, 0];
    let parser = Parser::new(&code);
    assert_eq!(parser.program_bytes(), &code);
    let deparser = Deparser::new(&code[..4]);
    assert_eq!(deparser.program_bytes(), &code[..4]);
    let pipeline = Pipeline::new(&code, Vec::new());
    assert_eq!(pipeline.program_bytes().len(), 8);
    assert!(pipeline.table_list().is_empty());
}
