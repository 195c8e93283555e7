use bush::Bush;

#[test]
fn create_empty_bush() {
    let bush: Bush<i32> = Bush::new();
    assert_eq!(bush.top_layer_length(), 0);
    assert_eq!(bush.total_node_count(), 0);
}

#[test]
fn append_to_bush() {
    let mut bush = Bush::new();
    for i in 0..10 {
        bush.append(i);
    }
    assert_eq!(bush.top_layer_length(), 10);
    assert_eq!(bush.total_node_count(), 10);
}

#[test]
fn prepend_to_bush() {
    let mut bush = Bush::new();
    for i in 0..10 {
        bush.prepend(i);
    }
    assert_eq!(bush.top_layer_length(), 10);
    assert_eq!(bush.total_node_count(), 10);

    for i in 0..10 {
        assert_eq!(bush.nth_item(i), Some(&(9 - i)));
    }
}

#[test]
fn iter_items() {
    let mut bush = Bush::new();
    for i in 0..10 {
        bush.append(i);
    }
    let mut it = bush.iter_items();
    let mut i = 0;
    while let Some(item) = it.next() {
        assert_eq!(i, *item as usize);
        i += 1;
    }
    assert_eq!(i, 10);
}

#[test]
fn iter_bush_nodes() {
    let mut bush = Bush::new();
    bush.append(1);
    bush.append(2);
    bush.append(3);
    let mut iter = bush.iter_nodes();
    assert_eq!(iter.next().map(|n| n.item), Some(1));
    assert_eq!(iter.next().map(|n| n.item), Some(2));
    assert_eq!(iter.next().map(|n| n.item), Some(3));
    assert_eq!(iter.next().map(|n| n.item), None);
}

#[test]
fn extract_node() {
    let mut bush = Bush::new();
    bush.append(1);
    bush.append(2);
    bush.append(3);
    let node = bush.extract_node(bush.first_node_handle().unwrap());
    assert_eq!(node.item, 1);
    assert_eq!(bush.top_layer_length(), 2);
    assert_eq!(bush.total_node_count(), 2);
}

#[test]
fn extract_slice() {
    let mut bush = Bush::new();
    bush.append(1);
    bush.append(2);
    bush.append(3);
    let slice = bush.extract_slice(
        bush.first_node_handle().unwrap(),
        bush.last_node_handle().unwrap(),
    );
    assert_eq!(slice.top_layer_length(), 3);
    assert_eq!(bush.top_layer_length(), 0);
    assert_eq!(slice.total_node_count(), 3);
    assert_eq!(bush.total_node_count(), 0);
}

#[test]
fn build_up() {
    let mut bush: Bush<usize> = Bush::new();

    let mut counter = 0;

    for _ in 0..10 {
        bush.append(counter);
        counter += 1;

        let mut children = Bush::new();
        for _ in 0..10 {
            children.append(counter);
            counter += 1;
        }

        let last = bush.top_layer_length() - 1;
        bush.set_nth_children(last, children);
    }

    assert_eq!(bush.total_node_count(), counter);
}

#[test]
fn flatten() {
    let mut bush: Bush<usize> = Bush::new();

    let mut counter = 0;

    for _ in 0..10 {
        bush.append(counter);
        counter += 1;

        let mut children = Bush::new();
        for _ in 0..10 {
            children.append(counter);
            counter += 1;
        }

        let last = bush.top_layer_length() - 1;
        bush.set_nth_children(last, children);
    }

    assert_eq!(bush.total_node_count(), counter);

    bush.flatten();

    assert_eq!(bush.total_node_count(), counter);

    let mut iter = bush.iter_nodes();
    let mut i = 0;
    while let Some(node) = iter.next() {
        assert_eq!(i, node.item);
        i += 1;
    }
}

#[test]
fn extract_bush() {
    let mut bush: Bush<usize> = Bush::new();

    let mut counter = 0;
    for _ in 0..10 {
        bush.append(counter);
        counter += 1;

        let mut children = Bush::new();
        for _ in 0..10 {
            children.append(counter);
            counter += 1;
        }

        let last = bush.top_layer_length() - 1;
        bush.set_nth_children(last, children);
    }

    let _extracted = bush.extract().unwrap();
}
