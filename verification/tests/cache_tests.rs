use dplane::cache::CacheElement;
use dplane::hash::{l1_hash_function_murmurhash3, l2_hash_function_murmurhash3, l3_hash_function_murmurhash3};
use dplane::header::Field;
use dplane::parse_result::{Header as ParsedHeader, ParseResult};
use dplane::table::ActionSet;
use dplane::tss::{KeyStore, MatchKind, Tuple, TupleSpace};
use dplane::worker::{choose_cache_core, create_cache, create_new_cache, lookup_l1_cache, lookup_l2_cache, PktAnalysisResult};

fn action(action_id: u8, data: Vec<i32>) -> ActionSet {
    ActionSet { action_id, action_data: data }
}

#[test]
fn test_cmp_ptr_key() {
    let mut cache_element = CacheElement {
        key: Vec::new(),
        key_len: 0,
        data: vec![action(0, vec![]), action(0, vec![]), action(0, vec![])],
    };

    let mut key = vec![0u8; 10];
    key[0] = 10;
    key[1] = 20;
    key[2] = 30;
    key[3] = 40;
    key[4] = 50;
    cache_element.key = key;
    cache_element.key_len = 5;

    let mut target_key = vec![0u8; 10];
    assert!(!cache_element.cmp_ptr_key(&target_key, 5));

    target_key[0] = 10;
    target_key[1] = 20;
    target_key[2] = 30;
    target_key[3] = 40;
    target_key[4] = 50;

    assert!(!cache_element.cmp_ptr_key(&target_key, 4));
    assert!(cache_element.cmp_ptr_key(&target_key, 5));
}

#[test]
fn test() {
    assert_eq!(2 + 2, 4);
}

#[test]
fn murmur_hash_values() {
    // the standard MurmurHash3 of "abcd" with seed 0 is 0x43ed676a
    assert_eq!(l1_hash_function_murmurhash3(b"abcd", 4, 0), 0x676a);
    assert_eq!(l2_hash_function_murmurhash3(&[1, 2, 3, 4, 5], 5, 417), 62608);
    assert_eq!(l2_hash_function_murmurhash3(&[1, 2, 3, 4, 5, 6, 7, 8], 8, 417), 63599);
    assert_eq!(l1_hash_function_murmurhash3(&[], 0, 0), 0);
    // only the first `len` bytes count
    assert_eq!(l3_hash_function_murmurhash3(&[1, 2, 3, 4, 5, 99], 5, 417), 62608);
    // the standard MurmurHash3 of "abc" with seed 0 is 0xb3dd93fa: a
    // three-byte tail is folded in
    assert_eq!(l2_hash_function_murmurhash3(b"abc", 3, 0), 0x93fa);
    // a two-byte tail is folded in too
    assert_eq!(l2_hash_function_murmurhash3(&[0, 0], 2, 417), 16533);
    assert_eq!(l2_hash_function_murmurhash3(&[0, 1], 2, 417), 62995);
    assert_eq!(l2_hash_function_murmurhash3(&[1, 2, 3, 4, 5, 6], 6, 417), 39879);
    assert_eq!(l2_hash_function_murmurhash3(&[1, 2, 3, 4, 5, 9], 6, 417), 20059);
}

fn empty_slots(n: usize, key_room: usize, data_room: usize) -> Vec<CacheElement> {
    (0..n)
        .map(|_| CacheElement {
            key: vec![0; key_room],
            key_len: 0,
            data: (0..data_room).map(|_| action(0, vec![])).collect(),
        })
        .collect()
}

fn analysis_result(pkt: &[u8], hdr_size: usize, l1_hash: u16, l2_key: Vec<u8>, l2_hash: u16, cache_id: usize) -> PktAnalysisResult {
    let mut l1_key = vec![0u8; 16];
    l1_key[..hdr_size].copy_from_slice(&pkt[..hdr_size]);
    let l2_key_len = l2_key.len() as u8;
    PktAnalysisResult {
        rx_id: 0,
        cache_id,
        parse_result: ParseResult { metadata: vec![1], hdr_size, header_list: vec![ParsedHeader { is_valid: true, offset: 0 }] },
        cache_data: vec![action(4, vec![7, 8]), action(5, vec![])],
        is_cache_hit: false,
        l1_key,
        l1_key_len: hdr_size,
        l1_hash,
        l2_key,
        l2_key_len,
        l2_hash,
        is_lbf_hit: true,
    }
}

#[test]
fn l1_cache_misses_then_hits_after_create() {
    let pkt: Vec<u8> = vec![9, 8, 7, 6, 5, 4, 3, 2];
    let mut l1 = vec![empty_slots(65536, 16, 2)];
    let (h, found) = lookup_l1_cache(&l1[0], &pkt, 6, 417);
    assert_eq!(h, 6429);
    assert!(found.is_none());

    let mut l2 = vec![vec![empty_slots(65536, 8, 2)]];
    let mut lbf = vec![vec![0u64; 65536]];
    let result = analysis_result(&pkt, 6, h, vec![9, 8], 77, 0);
    create_cache(&mut l1, &mut l2, &mut lbf, &result);

    let (h2, found) = lookup_l1_cache(&l1[0], &pkt, 6, 417);
    assert_eq!(h2, h);
    let data = found.unwrap();
    assert_eq!(data.len(), 2);
    assert_eq!(data[0].action_id, 4);
    assert_eq!(data[0].action_data, vec![7, 8]);
    assert_eq!(data[1].action_id, 5);

    // the same headers one byte shorter hash elsewhere and miss
    let (h5, found) = lookup_l1_cache(&l1[0], &pkt, 5, 417);
    assert_eq!(h5, 36057);
    assert!(found.is_none());
}

#[test]
fn l2_cache_and_filter_after_create() {
    let pkt: Vec<u8> = vec![1, 2, 3, 4];
    let mut l1 = vec![empty_slots(65536, 16, 2)];
    let mut l2 = vec![vec![empty_slots(100, 8, 2), empty_slots(100, 8, 2)]];
    let mut lbf = vec![vec![0u64; 100]];
    let result = analysis_result(&pkt, 4, 3, vec![1, 2, 3], 42, 1);
    assert!(lookup_l2_cache(&l2[0][1], &result).is_none());
    create_cache(&mut l1, &mut l2, &mut lbf, &result);
    assert_eq!(lbf[0][42], 0b10);
    // the receive core's filter now hits for that hash, whichever core it starts from
    assert_eq!(choose_cache_core(lbf[0][42], 2, 0), (1, true));
    assert_eq!(choose_cache_core(lbf[0][42], 2, 1), (1, true));
    let data = lookup_l2_cache(&l2[0][1], &result).unwrap();
    assert_eq!(data[1].action_id, 5);
    // the other cache core's slot is untouched
    assert!(lookup_l2_cache(&l2[0][0], &result).is_none());
    // a packet whose filter missed is not looked up
    let mut missed = analysis_result(&pkt, 4, 3, vec![1, 2, 3], 42, 1);
    missed.is_lbf_hit = false;
    assert!(lookup_l2_cache(&l2[0][1], &missed).is_none());
}

#[test]
fn tuple_hash_builds_the_key_in_field_order() {
    let f0 = Field { start_byte_pos: 0, start_bit_mask: 0xff, end_byte_pos: 1, end_bit_mask: 0xff };
    let f1 = Field { start_byte_pos: 2, start_bit_mask: 0xff, end_byte_pos: 3, end_bit_mask: 0xff };
    let tuple = Tuple::new(vec![(MatchKind::Lpm, f0), (MatchKind::Exact(vec![0, 5], vec![0, 9]), f1)], 16, 9);
    let mut key_store = KeyStore { key: vec![0u8; 8], key_len: 3 };
    let pkt: Vec<u8> = vec![1, 2, 0, 7];
    assert_eq!(tuple.hash_function(&pkt, &mut key_store), Some(58217));
    assert_eq!(key_store.key_len, 4);
    assert_eq!(&key_store.key[..4], &[1, 2, 0, 7]);

    // out of the exact field's range: no hash, the length is kept
    let pkt: Vec<u8> = vec![1, 2, 0, 10];
    let mut key_store = KeyStore { key: vec![0u8; 8], key_len: 3 };
    assert_eq!(tuple.hash_function(&pkt, &mut key_store), None);
    assert_eq!(key_store.key_len, 3);
    assert_eq!(&key_store.key[..2], &[1, 2]);
}

#[test]
fn empty_tuple_space_finds_nothing() {
    let space = TupleSpace::new(10);
    let mut key_store = KeyStore { key: vec![5u8; 4], key_len: 2 };
    assert!(space.search(&[1, 2, 3], &mut key_store).is_none());
    assert_eq!(key_store.key_len, 2);
    assert_eq!(key_store.key, vec![5u8; 4]);
}

#[test]
fn create_new_cache_leaves_the_filter_alone() {
    let pkt: Vec<u8> = vec![4, 4, 4, 4];
    let mut l1 = vec![empty_slots(10, 16, 2)];
    let mut l2 = vec![vec![empty_slots(10, 8, 2)]];
    let result = analysis_result(&pkt, 4, 5, vec![4, 4], 6, 0);
    create_new_cache(&mut l1, &mut l2, &result);
    assert_eq!(l1[0][5].key_len, 4);
    assert_eq!(&l1[0][5].key[..4], &[4, 4, 4, 4]);
    assert_eq!(l1[0][5].data[0].action_id, 4);
    assert_eq!(l2[0][0][6].key_len, 2);
    assert_eq!(&l2[0][0][6].key[..3], &[4, 4, 0]);
    // other slots are untouched
    assert_eq!(l1[0][4].key_len, 0);
    assert_eq!(l2[0][0][5].key_len, 0);
}
