use trade_index::{
    collect_matching, find_max_value_node, find_min_value_node, nodes_with_same_value, AvlTree,
    Data,
};

fn sample(date: &str, value: u64, cumulative: u64) -> Data {
    Data {
        direction: "import".to_string(),
        year: 2021,
        date: date.to_string(),
        weekday: "Friday".to_string(),
        country: "US".to_string(),
        comodity: "electronics".to_string(),
        transport_mode: "air".to_string(),
        measure: "ton".to_string(),
        value,
        cumulative,
    }
}

fn create_sample_tree() -> AvlTree {
    let mut tree = AvlTree::new();
    tree.insert(&sample("01-01-2021", 5, 5));
    tree.insert(&sample("01-01-2021", 3, 5));
    tree
}

#[test]
fn test_max_value() {
    let tree = create_sample_tree();
    let max_node = find_max_value_node(&tree.root);
    assert_eq!(max_node.unwrap().data.value, 5);
}

#[test]
fn test_min_value() {
    let tree = create_sample_tree();
    let min_node = find_min_value_node(&tree.root);
    assert_eq!(min_node.unwrap().data.value, 3);
}

#[test]
fn test_nodes_with_value() {
    let tree = create_sample_tree();
    let mut nodes = Vec::new();
    nodes_with_same_value(&tree.root, &5, &mut nodes);
    assert_eq!(nodes.len(), 1);
    assert_eq!(nodes[0].data.value, 5);
}

#[test]
fn empty_tree_has_no_extremes() {
    let tree = AvlTree::new();
    assert!(find_max_value_node(&tree.root).is_none());
    assert!(find_min_value_node(&tree.root).is_none());
}

#[test]
fn ties_go_to_the_first_node_in_preorder() {
    let mut tree = AvlTree::new();
    // Root 02/01 (value 9), left 01/01 (value 9), right 03/01 (value 1).
    tree.insert(&sample("02/01/2023", 9, 1));
    tree.insert(&sample("01/01/2023", 9, 2));
    tree.insert(&sample("03/01/2023", 1, 3));
    let max = find_max_value_node(&tree.root).unwrap();
    assert_eq!(max.data.cumulative, 1);
    let min = find_min_value_node(&tree.root).unwrap();
    assert_eq!(min.data.cumulative, 3);
}

#[test]
fn extremes_found_anywhere_in_the_tree() {
    let mut tree = AvlTree::new();
    for day in 1..=10u64 {
        let value = (day * 7) % 11;
        tree.insert(&sample(&format!("{:02}/02/2023", day), value, day));
    }
    assert_eq!(find_max_value_node(&tree.root).unwrap().data.value, 10);
    assert_eq!(find_min_value_node(&tree.root).unwrap().data.value, 1);
}

#[test]
fn matching_nodes_come_in_preorder() {
    let mut tree = AvlTree::new();
    tree.insert(&sample("02/01/2023", 4, 1));
    tree.insert(&sample("01/01/2023", 4, 2));
    tree.insert(&sample("03/01/2023", 4, 3));
    tree.insert(&sample("04/01/2023", 8, 4));
    let mut nodes = Vec::new();
    nodes_with_same_value(&tree.root, &4, &mut nodes);
    let order: Vec<u64> = nodes.iter().map(|n| n.data.cumulative).collect();
    assert_eq!(order, vec![1, 2, 3]);
}

#[test]
fn collect_matching_stops_at_the_limit() {
    let mut tree = AvlTree::new();
    for day in 1..=12u64 {
        tree.insert(&sample(&format!("{:02}/04/2023", day), 100, day));
    }
    tree.insert(&sample("13/04/2023", 50, 13));
    let mut nodes = Vec::new();
    collect_matching(&tree.root, 100, 10, &mut nodes);
    assert_eq!(nodes.len(), 10);
    let mut all = Vec::new();
    nodes_with_same_value(&tree.root, &100, &mut all);
    assert_eq!(all.len(), 12);
    for (a, b) in nodes.iter().zip(all.iter()) {
        assert_eq!(a.data.cumulative, b.data.cumulative);
    }
    let mut few = Vec::new();
    collect_matching(&tree.root, 50, 10, &mut few);
    assert_eq!(few.len(), 1);
    assert_eq!(few[0].data.date, "13/04/2023");
}
