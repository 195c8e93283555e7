use bush::Bush;
use bush::BushNode;
use bush::BushRecord;

fn collect_items(bush: &Bush<u32>) -> Vec<u32> {
    let mut out = Vec::new();
    let mut it = bush.iter_items();
    while let Some(x) = it.next() {
        out.push(*x);
    }
    out
}

#[test]
fn boundary_accessors() {
    let mut bush: Bush<u32> = Bush::new();
    assert!(bush.is_empty());
    assert_eq!(bush.first_item(), None);
    assert_eq!(bush.last_item(), None);
    assert!(bush.first_node_handle().is_none());
    assert!(bush.last_node_handle().is_none());
    assert!(bush.nth_item(0).is_none());

    bush.append(5);
    bush.append(6);
    bush.prepend(4);
    assert!(!bush.is_empty());
    assert_eq!(bush.first_item(), Some(&4));
    assert_eq!(bush.last_item(), Some(&6));
    assert_eq!(bush.first_node().map(|n| n.item), Some(4));
    assert_eq!(bush.last_node().map(|n| n.item), Some(6));
    assert_eq!(bush.nth_node(1).map(|n| n.item), Some(5));
    assert_eq!(bush.nth_item(2), Some(&6));
    assert_eq!(bush.nth_item(3), None);
}

#[test]
fn sibling_accessors() {
    let mut bush: Bush<u32> = Bush::new();
    bush.append(1);
    bush.append(2);
    bush.append(3);
    assert_eq!(bush.left_item(0), None);
    assert_eq!(bush.left_item(1), Some(&1));
    assert_eq!(bush.right_item(1), Some(&3));
    assert_eq!(bush.right_item(2), None);
    assert_eq!(bush.left_node(2).map(|n| n.item), Some(2));
    assert_eq!(bush.right_node(0).map(|n| n.item), Some(2));
}

#[test]
fn handles_name_positions() {
    let mut bush: Bush<u32> = Bush::new();
    bush.append(7);
    bush.append(8);
    bush.append(9);
    assert_eq!(bush.first_node_handle().unwrap().index(), 0);
    assert_eq!(bush.last_node_handle().unwrap().index(), 2);
    assert_eq!(bush.nth_node_handle(1).unwrap().index(), 1);
    assert!(bush.nth_node_handle(3).is_none());
}

#[test]
fn set_items_and_children() {
    let mut bush: Bush<u32> = Bush::new();
    bush.append(1);
    bush.append(2);
    bush.set_nth_item(1, 20);
    assert_eq!(bush.nth_item(1), Some(&20));

    let mut kids: Bush<u32> = Bush::new();
    kids.append(30);
    kids.append(31);
    bush.set_nth_children(0, kids);
    assert_eq!(bush.total_node_count(), 4);
    let first = bush.first_node().unwrap();
    let c = first.children.as_ref().unwrap();
    assert_eq!(c.top_layer_length(), 2);
    assert_eq!(c.first_item(), Some(&30));
}

#[test]
fn mutable_item_access() {
    let mut bush: Bush<u32> = Bush::new();
    bush.append(1);
    bush.append(2);
    bush.append(3);
    *bush.first_item_mut() = 10;
    *bush.last_item_mut() = 30;
    *bush.nth_item_mut(1) = 20;
    assert_eq!(collect_items(&bush), vec![10, 20, 30]);
}

#[test]
fn extract_node_takes_subtree() {
    let mut bush: Bush<u32> = Bush::new();
    bush.append(1);
    bush.append(2);
    bush.append(3);
    let mut kids: Bush<u32> = Bush::new();
    kids.append(4);
    kids.append(5);
    bush.set_nth_children(1, kids);
    assert_eq!(bush.total_node_count(), 5);

    let node = bush.extract_node(bush.nth_node_handle(1).unwrap());
    assert_eq!(node.item, 2);
    let sub = node.children.as_ref().unwrap();
    assert_eq!(sub.top_layer_length(), 2);
    assert_eq!(sub.nth_item(0), Some(&4));
    assert_eq!(sub.nth_item(1), Some(&5));

    assert_eq!(bush.top_layer_length(), 2);
    assert_eq!(bush.total_node_count(), 2);
    assert_eq!(collect_items(&bush), vec![1, 3]);
}

#[test]
fn splice_round_trip_left() {
    let mut bush: Bush<u32> = Bush::new();
    for i in 1..=5 {
        bush.append(i);
    }
    let run = bush.extract_slice(
        bush.nth_node_handle(1).unwrap(),
        bush.nth_node_handle(2).unwrap(),
    );
    assert_eq!(collect_items(&bush), vec![1, 4, 5]);
    assert_eq!(collect_items(&run), vec![2, 3]);

    bush.insert_slice_left(bush.nth_node_handle(1).unwrap(), run);
    assert_eq!(collect_items(&bush), vec![1, 2, 3, 4, 5]);
}

#[test]
fn splice_round_trip_right() {
    let mut bush: Bush<u32> = Bush::new();
    for i in 1..=5 {
        bush.append(i);
    }
    let run = bush.extract_slice(
        bush.nth_node_handle(3).unwrap(),
        bush.nth_node_handle(4).unwrap(),
    );
    assert_eq!(collect_items(&bush), vec![1, 2, 3]);

    bush.insert_slice_right(bush.nth_node_handle(2).unwrap(), run);
    assert_eq!(collect_items(&bush), vec![1, 2, 3, 4, 5]);
}

#[test]
fn insert_single_nodes() {
    let mut bush: Bush<u32> = Bush::new();
    bush.append(2);
    bush.insert_left_node(bush.first_node_handle().unwrap(), BushNode::new(1));
    bush.insert_right_node(bush.last_node_handle().unwrap(), BushNode::new(3));
    assert_eq!(collect_items(&bush), vec![1, 2, 3]);
}

#[test]
fn extract_empty_is_none() {
    let bush: Bush<u32> = Bush::new();
    assert!(bush.extract().is_none());
}

#[test]
fn default_is_empty() {
    let bush: Bush<u32> = Bush::default();
    assert!(bush.is_empty());
}

#[test]
fn leftward_iterators() {
    let mut bush: Bush<u32> = Bush::new();
    for i in 1..=4 {
        bush.append(i);
    }
    let mut it = bush.iter_items_left(3);
    assert_eq!(it.next(), Some(&4));
    assert_eq!(it.next(), Some(&3));
    assert_eq!(it.next(), Some(&2));
    assert_eq!(it.next(), Some(&1));
    assert_eq!(it.next(), None);

    let mut nodes = bush.iter_nodes_left(1);
    assert_eq!(nodes.next().map(|n| n.item), Some(2));
    assert_eq!(nodes.next().map(|n| n.item), Some(1));
    assert!(nodes.next().is_none());

    let mut right = bush.iter_items_right(2);
    assert_eq!(right.next(), Some(&3));
    assert_eq!(right.next(), Some(&4));
    assert_eq!(right.next(), None);
}

fn two_layer_sample() -> Bush<u32> {
    // Top layer [0, 1]; node 0 owns children [2, 3], node 1 owns [4].
    let mut bush: Bush<u32> = Bush::new();
    bush.append(0);
    bush.append(1);
    let mut c0: Bush<u32> = Bush::new();
    c0.append(2);
    c0.append(3);
    bush.set_nth_children(0, c0);
    let mut c1: Bush<u32> = Bush::new();
    c1.append(4);
    bush.set_nth_children(1, c1);
    bush
}

#[test]
fn bfs_order_is_layer_major() {
    let bush = two_layer_sample();
    let mut it = bush.bfs_items();
    let mut seen = Vec::new();
    while let Some(x) = it.next() {
        seen.push(*x);
    }
    assert_eq!(seen, vec![0, 1, 2, 3, 4]);
}

#[test]
fn dfs_order_is_pre_order() {
    let bush = two_layer_sample();
    let mut it = bush.dfs_items();
    let mut seen = Vec::new();
    while let Some(x) = it.next() {
        seen.push(*x);
    }
    assert_eq!(seen, vec![0, 2, 3, 1, 4]);
}

#[test]
fn node_seeded_traversals() {
    let bush = two_layer_sample();
    let first = bush.first_node().unwrap();
    let mut bfs = first.bfs_items();
    let mut seen = Vec::new();
    while let Some(x) = bfs.next() {
        seen.push(*x);
    }
    assert_eq!(seen, vec![2, 3]);

    let mut dfs = first.dfs_nodes();
    assert_eq!(dfs.next().map(|n| n.item), Some(2));
    assert_eq!(dfs.next().map(|n| n.item), Some(3));
    assert!(dfs.next().is_none());

    let lone = BushNode::new(9u32);
    let mut empty = lone.bfs_nodes();
    assert!(empty.next().is_none());
}

#[test]
fn traversals_match_plain_iteration_without_children() {
    let mut bush: Bush<u32> = Bush::new();
    for i in 10..15 {
        bush.append(i);
    }
    let plain = collect_items(&bush);

    let mut bfs = bush.bfs_items();
    let mut bfs_seen = Vec::new();
    while let Some(x) = bfs.next() {
        bfs_seen.push(*x);
    }
    let mut dfs = bush.dfs_items();
    let mut dfs_seen = Vec::new();
    while let Some(x) = dfs.next() {
        dfs_seen.push(*x);
    }
    assert_eq!(bfs_seen, plain);
    assert_eq!(dfs_seen, plain);
}

#[test]
fn flatten_order_matches_dfs() {
    let bush = two_layer_sample();
    let mut dfs = bush.dfs_items();
    let mut expected = Vec::new();
    while let Some(x) = dfs.next() {
        expected.push(*x);
    }
    let before = bush.total_node_count();

    let mut bush = bush;
    bush.flatten();
    assert_eq!(bush.total_node_count(), before);
    assert_eq!(bush.top_layer_length(), before);
    assert_eq!(collect_items(&bush), expected);
    let mut nodes = bush.iter_nodes();
    while let Some(n) = nodes.next() {
        assert!(n.children.is_none());
    }
}

#[test]
fn encode_two_node_layer() {
    // [{item: 1, children: none}, {item: 2, children: [{item: 3, children: none}]}]
    let mut bush: Bush<u32> = Bush::new();
    bush.append(1);
    bush.append(2);
    let mut kids: Bush<u32> = Bush::new();
    kids.append(3);
    bush.set_nth_children(1, kids);

    let records = bush.encode();
    let expected = vec![
        BushRecord { item: 1u32, children: None },
        BushRecord {
            item: 2u32,
            children: Some(vec![BushRecord { item: 3u32, children: None }]),
        },
    ];
    assert_eq!(records, expected);
}

#[test]
fn encode_empty_layer() {
    let bush: Bush<u32> = Bush::new();
    let records = bush.encode();
    assert!(records.is_empty());
}
