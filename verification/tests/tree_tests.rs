use dplane::avl_tree::AvlTree;
use dplane::radix_tree::RadixTree;
use dplane::table::{ActionSet, FlowEntry, MatchFieldValue};

fn entry(action_id: u8, value: Option<Vec<u8>>, prefix_mask: u8) -> FlowEntry {
    FlowEntry {
        values: vec![MatchFieldValue { value, prefix_mask }],
        priority: 0,
        action: ActionSet { action_id, action_data: Vec::new() },
    }
}

#[test]
fn test_avl_tree() {
    let mut tree = AvlTree::new(0);

    // any
    tree.add(entry(0, None, 0x00));
    assert_eq!(tree.any_entries().len(), 1);

    // any
    tree.add(entry(0, None, 0x00));
    assert_eq!(tree.any_entries().len(), 2);

    // 0x80, 0x10, 0
    tree.add(entry(1, Some(vec![0x80, 0x10, 0]), 0xff));

    // init pkt
    let mut pkt: Vec<u8> = vec![0x80, 0x10, 0];

    // 0x80, 0x10, 0
    assert_eq!(tree.search(&pkt, 0, 3).len(), 1);

    // 0x60, 0x10, 0
    tree.add(entry(2, Some(vec![0x60, 0x10, 0]), 0xff));
    pkt[0] = 0x60;
    pkt[1] = 0x10;
    pkt[2] = 0x0;
    assert_eq!(tree.search(&pkt, 0, 3).len(), 1);

    assert_eq!(tree.root_heights().unwrap().0, 0);
    assert_eq!(tree.root_heights().unwrap().1, 1);

    // 0x60, 0x10, 0
    tree.add(entry(3, Some(vec![0x60, 0x10, 0]), 0xff));
    let entries = tree.search(&pkt, 0, 3);
    assert_eq!(entries.len(), 2);
    assert_eq!(entries[0].action.action_id, 2);
    assert_eq!(entries[1].action.action_id, 3);

    assert_eq!(tree.root_heights().unwrap().0, 0);
    assert_eq!(tree.root_heights().unwrap().1, 1);

    // 0xff, 0x10, 0
    tree.add(entry(4, Some(vec![0xff, 0x10, 0]), 0xff));
    pkt[0] = 0xff;
    pkt[1] = 0x10;
    pkt[2] = 0x0;
    let entries = tree.search(&pkt, 0, 3);
    assert_eq!(entries.len(), 1);
    assert_eq!(entries[0].action.action_id, 4);

    assert_eq!(tree.root_heights().unwrap().0, 1);
    assert_eq!(tree.root_heights().unwrap().1, 1);

    // 0xff, 0x20, 0
    tree.add(entry(5, Some(vec![0xff, 0x20, 0]), 0xff));
    let entries = tree.search(&pkt, 0, 3);
    assert_eq!(entries[0].action.action_id, 4);
    pkt[0] = 0xff;
    pkt[1] = 0x20;
    pkt[2] = 0x0;
    let entries = tree.search(&pkt, 0, 3);
    assert_eq!(entries.len(), 1);
    assert_eq!(entries[0].action.action_id, 5);

    assert_eq!(tree.root_heights().unwrap().0, 2);
    assert_eq!(tree.root_heights().unwrap().1, 1);

    // 0xff, 0x30, 0
    tree.add(entry(6, Some(vec![0xff, 0x30, 0]), 0xff));
    pkt[0] = 0xff;
    pkt[1] = 0x30;
    pkt[2] = 0x0;
    let entries = tree.search(&pkt, 0, 3);
    assert_eq!(entries.len(), 1);
    assert_eq!(entries[0].action.action_id, 6);

    assert_eq!(tree.root_heights().unwrap().0, 2);
    assert_eq!(tree.root_heights().unwrap().1, 1);

    // 0xff, 0x40, 0
    tree.add(entry(7, Some(vec![0xff, 0x40, 0]), 0xff));
    pkt[0] = 0xff;
    pkt[1] = 0x40;
    pkt[2] = 0x0;
    let entries = tree.search(&pkt, 0, 3);
    assert_eq!(entries.len(), 1);
    assert_eq!(entries[0].action.action_id, 7);

    assert_eq!(tree.root_heights().unwrap().0, 2);
    assert_eq!(tree.root_heights().unwrap().1, 2);

    // 0x50, 0x10, 0
    tree.add(entry(8, Some(vec![0x50, 0x10, 0]), 0xff));
    pkt[0] = 0x50;
    pkt[1] = 0x10;
    pkt[2] = 0x0;
    let entries = tree.search(&pkt, 0, 3);
    assert_eq!(entries.len(), 1);
    assert_eq!(entries[0].action.action_id, 8);

    assert_eq!(tree.root_heights().unwrap().0, 2);
    assert_eq!(tree.root_heights().unwrap().1, 3);

    // 0x40, 0x10, 0
    tree.add(entry(9, Some(vec![0x40, 0x10, 0]), 0xff));
    pkt[0] = 0x40;
    pkt[1] = 0x10;
    pkt[2] = 0x0;
    let entries = tree.search(&pkt, 0, 3);
    assert_eq!(entries.len(), 1);
    assert_eq!(entries[0].action.action_id, 9);

    assert_eq!(tree.root_heights().unwrap().0, 2);
    assert_eq!(tree.root_heights().unwrap().1, 3);
}

#[test]
fn test_radix_tree() {
    let mut tree = RadixTree::new(0);

    // any
    tree.add(entry(0, None, 0x00));
    assert_eq!(tree.any_entries().len(), 1);

    // any
    tree.add(entry(0, None, 0x00));
    assert_eq!(tree.any_entries().len(), 2);

    // init pkt
    let mut pkt: Vec<u8> = vec![10, 10, 10, 10];

    // 10.0.0.0/8
    tree.add(entry(1, Some(vec![10]), 0xff));
    assert_eq!(tree.search(&pkt, 0, 4).len(), 1);

    // 172.16.0.0/16
    tree.add(entry(2, Some(vec![172, 16]), 0xff));
    assert_eq!(tree.search(&pkt, 0, 4).len(), 1);
    pkt[0] = 172;
    pkt[1] = 16;
    let entris = tree.search(&pkt, 0, 4);
    assert_eq!(entris.len(), 1);
    assert_eq!(entris[0].action.action_id, 2);

    //  10.0.0.0/8
    tree.add(entry(3, Some(vec![10]), 0xff));
    pkt[0] = 10;
    let entris = tree.search(&pkt, 0, 4);
    assert_eq!(entris[0].action.action_id, 1);
    assert_eq!(entris.len(), 2);
    assert_eq!(entris[1].action.action_id, 3);

    // 192.168.0.128/25
    tree.add(entry(4, Some(vec![192, 168, 0, 128]), 0x80));
    pkt[0] = 192;
    pkt[1] = 168;
    pkt[2] = 0;
    pkt[3] = 129;
    let entris = tree.search(&pkt, 0, 4);
    assert_eq!(entris.len(), 1);
    assert_eq!(entris[0].action.action_id, 4);
}

#[test]
fn radix_search_falls_back_to_wildcards() {
    let mut tree = RadixTree::new(0);
    tree.add(entry(9, None, 0));
    tree.add(entry(1, Some(vec![10]), 0xff));
    // no filed prefix of 11.x.x.x: the wildcard entries answer
    let pkt: Vec<u8> = vec![11, 0, 0, 0];
    let found = tree.search(&pkt, 0, 4);
    assert_eq!(found.len(), 1);
    assert_eq!(found[0].action.action_id, 9);
}

#[test]
fn radix_longest_prefix_wins() {
    let mut tree = RadixTree::new(0);
    tree.add(entry(1, Some(vec![10]), 0xff));
    tree.add(entry(2, Some(vec![10, 1]), 0xff));
    let pkt: Vec<u8> = vec![10, 1, 2, 3];
    assert_eq!(tree.search(&pkt, 0, 4)[0].action.action_id, 2);
    let pkt: Vec<u8> = vec![10, 2, 2, 3];
    assert_eq!(tree.search(&pkt, 0, 4)[0].action.action_id, 1);
    // the key may sit inside a larger packet
    let pkt: Vec<u8> = vec![0, 0, 10, 1, 2, 3];
    assert_eq!(tree.search(&pkt, 2, 4)[0].action.action_id, 2);
}

#[test]
fn radix_remove_changes_nothing() {
    let mut tree = RadixTree::new(0);
    tree.add(entry(1, Some(vec![10]), 0xff));
    tree.remove();
    let pkt: Vec<u8> = vec![10, 1, 2, 3];
    assert_eq!(tree.search(&pkt, 0, 4).len(), 1);
}

#[test]
fn avl_search_miss_gives_wildcards() {
    let mut tree = AvlTree::new(0);
    tree.add(entry(7, None, 0));
    tree.add(entry(1, Some(vec![5, 5]), 0xff));
    let pkt: Vec<u8> = vec![5, 6];
    let found = tree.search(&pkt, 0, 2);
    assert_eq!(found.len(), 1);
    assert_eq!(found[0].action.action_id, 7);
    assert_eq!(tree.root_heights(), Some((0, 0)));
}

#[test]
fn avl_empty_tree_has_no_root() {
    let tree = AvlTree::new(3);
    assert_eq!(tree.root_heights(), None);
    assert_eq!(tree.any_entries().len(), 0);
}

#[test]
fn avl_search_fits_where_the_descent_ends() {
    let mut tree = AvlTree::new(0);
    let pkt: Vec<u8> = vec![5, 6, 7];
    assert!(!tree.search_fits(&pkt, 0, 2));
    tree.add(entry(1, Some(vec![5, 5]), 0xff));
    tree.add(entry(2, Some(vec![9, 9]), 0xff));
    assert!(tree.search_fits(&pkt, 0, 2));
    assert!(tree.search_fits(&pkt, 1, 2));
    // a key longer than the stored values cannot be compared
    assert!(!tree.search_fits(&pkt, 0, 3));
}

#[test]
fn avl_add_fits_before_each_insertion() {
    let mut tree = AvlTree::new(0);
    for (i, v) in [[5u8, 5], [3, 3], [7, 7], [1, 1], [9, 9]].iter().enumerate() {
        let e = entry(i as u8, Some(v.to_vec()), 0xff);
        assert!(tree.add_fits(&e));
        tree.add(e);
    }
    assert!(tree.add_fits(&entry(9, None, 0)));
    // an entry without a value for the tree's key cannot be filed
    let bare = FlowEntry { values: Vec::new(), priority: 0, action: ActionSet { action_id: 0, action_data: Vec::new() } };
    assert!(!AvlTree::new(0).add_fits(&bare));
}

#[test]
fn radix_add_fits_wants_a_non_empty_value() {
    let tree = RadixTree::new(0);
    assert!(tree.add_fits(&entry(1, Some(vec![10]), 0xff)));
    assert!(tree.add_fits(&entry(1, None, 0)));
    assert!(!tree.add_fits(&entry(1, Some(Vec::new()), 0xff)));
}
