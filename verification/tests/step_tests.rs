use dplane::cache::CacheElement;
use dplane::hash::l2_hash_function_murmurhash3;
use dplane::header::Header;
use dplane::parse_result::{Header as ParsedHeader, ParseResult};
use dplane::table::ActionSet;
use dplane::tss::{KeyStore, TupleSpace};
use dplane::worker::{
    cache_step, count_tx, create_cache, pipeline_step, rx_step, single_core_step, Output, PktAnalysisResult, RxAction, RxState,
    SingleCoreAction,
};

fn action(action_id: u8, data: Vec<i32>) -> ActionSet {
    ActionSet { action_id, action_data: data }
}

fn empty_slots(n: usize, key_room: usize, data_room: usize) -> Vec<CacheElement> {
    (0..n)
        .map(|_| CacheElement {
            key: vec![0; key_room],
            key_len: 0,
            data: (0..data_room).map(|_| action(0, vec![])).collect(),
        })
        .collect()
}

fn fresh_result() -> PktAnalysisResult {
    PktAnalysisResult {
        rx_id: 0,
        cache_id: 0,
        parse_result: ParseResult { metadata: vec![1], hdr_size: 0, header_list: Vec::new() },
        cache_data: Vec::new(),
        is_cache_hit: false,
        l1_key: vec![0; 16],
        l1_key_len: 0,
        l1_hash: 0,
        l2_key: vec![0xee; 4],
        l2_key_len: 0,
        l2_hash: 0,
        is_lbf_hit: false,
    }
}

fn parsed(hdr_size: usize) -> ParseResult {
    ParseResult { metadata: vec![1], hdr_size, header_list: vec![ParsedHeader { is_valid: true, offset: 0 }] }
}

const PKT: [u8; 8] = [9, 8, 7, 6, 5, 4, 3, 2];

#[test]
fn rx_step_drops_empty_and_unparsed_packets() {
    let l1 = empty_slots(65536, 16, 2);
    let lbf = vec![0u64; 65536];
    let headers = vec![Header::new(&[8, 8, 16], &[1], &[])];
    let mut state = RxState { next_pipeline_core: 1, random_cache_core_index: 1 };
    let mut result = fresh_result();
    assert!(matches!(rx_step(&mut state, &mut result, &l1, &lbf, &headers, &[], Some(parsed(0)), 2, 2, 417, 5), RxAction::Drop));
    assert!(matches!(rx_step(&mut state, &mut result, &l1, &lbf, &headers, &PKT, None, 2, 2, 417, 5), RxAction::Drop));
    assert_eq!(state.next_pipeline_core, 1);
    assert_eq!(state.random_cache_core_index, 1);
    assert_eq!(result.l2_key, vec![0xee; 4]);
}

#[test]
fn rx_step_sends_a_miss_to_a_cache_core_then_a_hit_to_a_pipeline_core() {
    let mut l1 = vec![empty_slots(65536, 16, 2)];
    let mut lbf = vec![vec![0u64; 65536]];
    let headers = vec![Header::new(&[8, 8, 16], &[1], &[])];
    let mut state = RxState { next_pipeline_core: 0, random_cache_core_index: 0 };

    // miss, filter empty: the cache core in turn, and the turn moves on
    let mut result = fresh_result();
    let action = rx_step(&mut state, &mut result, &l1[0], &lbf[0], &headers, &PKT, Some(parsed(6)), 2, 2, 417, 5);
    assert!(matches!(action, RxAction::Cache(0)));
    assert_eq!(state.random_cache_core_index, 1);
    assert_eq!(state.next_pipeline_core, 0);
    assert!(!result.is_cache_hit);
    assert!(!result.is_lbf_hit);
    assert_eq!(result.l1_hash, 6429);
    assert_eq!(result.l2_key_len, 1);
    assert_eq!(result.l2_key, vec![8, 0xee, 0xee, 0xee]);
    let h2 = l2_hash_function_murmurhash3(&[8], 1, 5);
    assert_eq!(result.l2_hash, h2);

    // the filter names cache core 1 for that hash: it is taken whatever the turn
    lbf[0][h2 as usize] = 0b10;
    let mut result = fresh_result();
    let action = rx_step(&mut state, &mut result, &l1[0], &lbf[0], &headers, &PKT, Some(parsed(6)), 2, 2, 417, 5);
    assert!(matches!(action, RxAction::Cache(1)));
    assert!(result.is_lbf_hit);
    assert_eq!(state.random_cache_core_index, 0);

    // once the first-level cache holds the headers, the packet goes to a pipeline core
    let mut l2 = vec![vec![empty_slots(65536, 8, 2)]];
    let mut filed = fresh_result();
    filed.parse_result = parsed(6);
    filed.l1_key[..6].copy_from_slice(&PKT[..6]);
    filed.l1_key_len = 6;
    filed.l1_hash = 6429;
    filed.l2_key = vec![8];
    filed.l2_key_len = 1;
    filed.l2_hash = h2;
    filed.cache_data = vec![action_of(4), action_of(5)];
    create_cache(&mut l1, &mut l2, &mut lbf, &filed);
    let mut result = fresh_result();
    let action = rx_step(&mut state, &mut result, &l1[0], &lbf[0], &headers, &PKT, Some(parsed(6)), 2, 2, 417, 5);
    assert!(matches!(action, RxAction::Pipeline(0)));
    assert!(result.is_cache_hit);
    assert_eq!(result.cache_data.len(), 2);
    assert_eq!(result.cache_data[0].action_id, 4);
    assert_eq!(state.next_pipeline_core, 1);
    let action = rx_step(&mut state, &mut result, &l1[0], &lbf[0], &headers, &PKT, Some(parsed(6)), 2, 2, 417, 5);
    assert!(matches!(action, RxAction::Pipeline(1)));
    assert_eq!(state.next_pipeline_core, 0);
    assert_eq!(state.random_cache_core_index, 0);
}

fn action_of(id: u8) -> ActionSet {
    action(id, vec![id as i32])
}

#[test]
fn pipeline_step_records_misses_and_takes_queues_in_turn() {
    let mut next = vec![0usize, 1];
    let counts = vec![1usize, 2];
    let mut result = fresh_result();
    result.parse_result = parsed(3);
    let a = pipeline_step(&mut next, &counts, &mut result, &PKT, &Output::Port(1));
    assert!(a.to_cache_creater);
    assert_eq!(a.tx_queue, Some((1, 1)));
    assert!(a.forwarded);
    assert_eq!(next, vec![0, 0]);
    assert_eq!(result.l1_key_len, 3);
    assert_eq!(&result.l1_key[..4], &[9, 8, 7, 0]);

    let mut hit = fresh_result();
    hit.is_cache_hit = true;
    hit.parse_result = parsed(3);
    let a = pipeline_step(&mut next, &counts, &mut hit, &PKT, &Output::Drop);
    assert!(!a.to_cache_creater);
    assert_eq!(a.tx_queue, None);
    assert!(!a.forwarded);
    assert_eq!(hit.l1_key_len, 0);
    assert_eq!(next, vec![0, 0]);
}

#[test]
fn single_core_step_uses_the_first_level_cache_then_the_tuple_space() {
    let mut l1 = vec![empty_slots(65536, 16, 2)];
    let space = TupleSpace::new(4);
    let mut key_store = KeyStore { key: vec![0; 8], key_len: 0 };
    let p = parsed(6);
    assert!(matches!(single_core_step(&l1[0], &space, &mut key_store, &[], Some(&p), 417), SingleCoreAction::Drop));
    assert!(matches!(single_core_step(&l1[0], &space, &mut key_store, &PKT, None, 417), SingleCoreAction::Drop));
    assert!(matches!(single_core_step(&l1[0], &space, &mut key_store, &PKT, Some(&p), 417), SingleCoreAction::Miss));

    let mut l2 = vec![vec![empty_slots(8, 8, 2)]];
    let mut lbf = vec![vec![0u64; 8]];
    let mut filed = fresh_result();
    filed.parse_result = parsed(6);
    filed.l1_key[..6].copy_from_slice(&PKT[..6]);
    filed.l1_key_len = 6;
    filed.l1_hash = 6429;
    filed.l2_key = vec![8];
    filed.l2_key_len = 1;
    filed.l2_hash = 3;
    filed.cache_data = vec![action_of(7), action_of(8)];
    create_cache(&mut l1, &mut l2, &mut lbf, &filed);
    match single_core_step(&l1[0], &space, &mut key_store, &PKT, Some(&p), 417) {
        SingleCoreAction::Hit(d) => {
            assert_eq!(d.len(), 2);
            assert_eq!(d[1].action_id, 8);
        },
        _ => panic!("the first-level cache holds the packet"),
    }
}

#[test]
fn tx_counters_add_up_over_batches() {
    let batches = [(5u64, 3u64), (4, 4), (0, 0), (7, 1)];
    let (mut send, mut loss) = (0u64, 0u64);
    for (dequeued, sent) in batches {
        let (s, l) = count_tx(send, loss, dequeued, sent);
        send = s;
        loss = l;
    }
    assert_eq!(send, 8);
    assert_eq!(send + loss, 16);
}

#[test]
fn cache_step_takes_second_level_hits_and_passes_every_packet_on() {
    let mut l1 = vec![empty_slots(16, 16, 2)];
    let mut l2 = vec![vec![empty_slots(16, 8, 2), empty_slots(16, 8, 2)]];
    let mut lbf = vec![vec![0u64; 16]];
    let mut filed = fresh_result();
    filed.parse_result = parsed(2);
    filed.l1_key[..2].copy_from_slice(&PKT[..2]);
    filed.l1_key_len = 2;
    filed.l1_hash = 3;
    filed.l2_key = vec![8, 7];
    filed.l2_key_len = 2;
    filed.l2_hash = 5;
    filed.cache_id = 1;
    filed.cache_data = vec![action_of(6), action_of(2)];
    create_cache(&mut l1, &mut l2, &mut lbf, &filed);

    let mut next = 1usize;
    let mut result = fresh_result();
    result.l2_key = vec![8, 7, 0];
    result.l2_key_len = 2;
    result.l2_hash = 5;
    result.is_lbf_hit = true;
    assert_eq!(cache_step(&mut next, &mut result, &l2[0][1], 1, 2), 1);
    assert_eq!(next, 0);
    assert_eq!(result.cache_id, 1);
    assert!(result.is_cache_hit);
    assert_eq!(result.cache_data[0].action_id, 6);

    // the other cache core's slot does not hold the key: no hit, still passed on
    let mut other = fresh_result();
    other.l2_key = vec![8, 7];
    other.l2_key_len = 2;
    other.l2_hash = 5;
    other.is_lbf_hit = true;
    assert_eq!(cache_step(&mut next, &mut other, &l2[0][0], 0, 2), 0);
    assert_eq!(next, 1);
    assert!(!other.is_cache_hit);
    assert!(other.cache_data.is_empty());

    // a packet whose filter missed is not looked up
    let mut missed = fresh_result();
    missed.l2_key = vec![8, 7];
    missed.l2_key_len = 2;
    missed.l2_hash = 5;
    assert_eq!(cache_step(&mut next, &mut missed, &l2[0][1], 1, 2), 1);
    assert!(!missed.is_cache_hit);
}
