use trade_index::tree::balance;
use trade_index::{height, AvlTree, Data, Node, TreeError};

fn record(date: &str, value: u64) -> Data {
    Data {
        direction: "Import".to_string(),
        year: 2023,
        date: date.to_string(),
        weekday: "Sunday".to_string(),
        country: "USA".to_string(),
        comodity: "Electronics".to_string(),
        transport_mode: "Air".to_string(),
        measure: "Tons".to_string(),
        value,
        cumulative: value,
    }
}

/// Checks heights and balance of every node; returns the subtree height.
fn checked_height(node: &Option<Box<Node>>) -> i32 {
    match node {
        None => 0,
        Some(n) => {
            let hl = checked_height(&n.left);
            let hr = checked_height(&n.right);
            assert!((hl - hr).abs() <= 1);
            assert_eq!(n.height, hl.max(hr) + 1);
            n.height
        }
    }
}

fn dates(tree: &AvlTree) -> Vec<String> {
    tree.inorder().into_iter().map(|d| d.date).collect()
}

#[test]
fn test_avl_insertion() {
    let mut tree = AvlTree::new();
    let data = Data {
        direction: "Import".to_string(),
        year: 2023,
        date: "01/01/2023".to_string(),
        weekday: "Sunday".to_string(),
        country: "USA".to_string(),
        comodity: "Electronics".to_string(),
        transport_mode: "Air".to_string(),
        measure: "Tons".to_string(),
        value: 1000,
        cumulative: 1000,
    };

    tree.insert(&data);
    assert_eq!(tree.root.as_ref().unwrap().data, data);
    assert_eq!(tree.root.as_ref().unwrap().height, 1);

    let data2 = Data {
        direction: "Export".to_string(),
        year: 2023,
        date: "01/02/2023".to_string(),
        weekday: "Monday".to_string(),
        country: "USA".to_string(),
        comodity: "Electronics".to_string(),
        transport_mode: "Sea".to_string(),
        measure: "Tons".to_string(),
        value: 2000,
        cumulative: 2000,
    };

    tree.insert(&data2);
    assert_eq!(tree.root.as_ref().unwrap().right.as_ref().unwrap().data, data2);
    assert_eq!(tree.root.as_ref().unwrap().height, 2);
}

#[test]
fn test_avl_search() {
    let mut tree = AvlTree::new();
    let data = Data {
        direction: "Import".to_string(),
        year: 2023,
        date: "01/01/2023".to_string(),
        weekday: "Sunday".to_string(),
        country: "USA".to_string(),
        comodity: "Electronics".to_string(),
        transport_mode: "Air".to_string(),
        measure: "Tons".to_string(),
        value: 1000,
        cumulative: 1000,
    };
    tree.insert(&data);

    let search_result = tree.search(&data.date);
    assert!(search_result.is_some());
    assert_eq!(search_result.unwrap().data, data);

    let search_result = tree.search("nonexistent key");
    assert!(search_result.is_none());
}

#[test]
fn test_avl_delete() {
    let mut tree = AvlTree::new();
    let data = Data {
        direction: "Import".to_string(),
        year: 2023,
        date: "01/01/2023".to_string(),
        weekday: "Sunday".to_string(),
        country: "USA".to_string(),
        comodity: "Electronics".to_string(),
        transport_mode: "Air".to_string(),
        measure: "Tons".to_string(),
        value: 1000,
        cumulative: 1000,
    };
    tree.insert(&data);

    tree.delete(&data.date);

    let search_result = tree.search(&data.date);
    assert!(search_result.is_none());
}

#[test]
fn test_avl_edit() {
    let mut tree = AvlTree::new();
    let data = Data {
        direction: "Import".to_string(),
        year: 2023,
        date: "01/01/2023".to_string(),
        weekday: "Sunday".to_string(),
        country: "USA".to_string(),
        comodity: "Electronics".to_string(),
        transport_mode: "Air".to_string(),
        measure: "Tons".to_string(),
        value: 1000,
        cumulative: 1000,
    };
    tree.insert(&data);

    println!("Enter new value: ");

    let new_value = 5000;
    let _ = tree.edit(&data.date, new_value);

    let search_result = tree.search(&data.date);
    assert!(search_result.is_some());
    assert_eq!(search_result.unwrap().data.value, new_value);
}

#[test]
fn any_insertion_order_gives_the_same_enumeration() {
    let all = ["10/01/2023", "02/02/2023", "15/03/2023"];
    let orders = [[0, 1, 2], [0, 2, 1], [1, 0, 2], [1, 2, 0], [2, 0, 1], [2, 1, 0]];
    for order in orders.iter() {
        let mut tree = AvlTree::new();
        for &i in order.iter() {
            tree.insert(&record(all[i], i as u64));
        }
        assert_eq!(dates(&tree), vec!["10/01/2023", "02/02/2023", "15/03/2023"]);
        checked_height(&tree.root);
    }
}

#[test]
fn ascending_inserts_stay_balanced() {
    let mut tree = AvlTree::new();
    for day in 1..=7u64 {
        tree.insert(&record(&format!("{:02}/01/2023", day), day));
        checked_height(&tree.root);
    }
    assert_eq!(height(&tree.root), 3);
    assert_eq!(tree.root.as_ref().unwrap().data.date, "04/01/2023");
    let expected: Vec<String> = (1..=7).map(|d| format!("{:02}/01/2023", d)).collect();
    assert_eq!(dates(&tree), expected);
}

#[test]
fn left_right_case_takes_two_rotations() {
    let mut tree = AvlTree::new();
    tree.insert(&record("30/01/2023", 1));
    tree.insert(&record("10/01/2023", 2));
    tree.insert(&record("20/01/2023", 3));
    let root = tree.root.as_ref().unwrap();
    assert_eq!(root.data.date, "20/01/2023");
    assert_eq!(root.left.as_ref().unwrap().data.date, "10/01/2023");
    assert_eq!(root.right.as_ref().unwrap().data.date, "30/01/2023");
    assert_eq!(root.height, 2);
}

#[test]
fn equal_dates_keep_insertion_order() {
    let mut tree = AvlTree::new();
    for v in 1..=5u64 {
        tree.insert(&record("01/01/2023", v));
    }
    checked_height(&tree.root);
    let values: Vec<u64> = tree.inorder().into_iter().map(|d| d.value).collect();
    assert_eq!(values, vec![1, 2, 3, 4, 5]);
}

#[test]
fn malformed_dates_sort_first() {
    let mut tree = AvlTree::new();
    tree.insert(&record("01/01/2023", 1));
    tree.insert(&record("not a date", 2));
    assert_eq!(dates(&tree), vec!["not a date", "01/01/2023"]);
    assert!(tree.search("not a date").is_none());
}

#[test]
fn search_finds_the_second_record() {
    let mut tree = AvlTree::new();
    let first = record("01/01/2023", 1000);
    let second = record("01/02/2023", 2000);
    tree.insert(&first);
    tree.insert(&second);
    assert_eq!(tree.search("01/02/2023").unwrap().data, second);
    assert_eq!(height(&tree.root), 2);
    assert!(tree.search("02/02/2023").is_none());
}

#[test]
fn deleting_an_absent_date_changes_nothing() {
    let mut tree = AvlTree::new();
    for day in 1..=9u64 {
        tree.insert(&record(&format!("{:02}/03/2023", day), day));
    }
    let mut copy = AvlTree::new();
    for day in 1..=9u64 {
        copy.insert(&record(&format!("{:02}/03/2023", day), day));
    }
    tree.delete("20/03/2023");
    assert_eq!(tree, copy);
    tree.delete("not a date");
    assert_eq!(tree, copy);
}

#[test]
fn deleting_the_only_record_empties_the_tree() {
    let mut tree = AvlTree::new();
    tree.insert(&record("05/05/2023", 7));
    tree.delete("05/05/2023");
    assert!(tree.root.is_none());
    assert!(tree.search("05/05/2023").is_none());
    assert!(tree.search("01/01/2000").is_none());
}

#[test]
fn deleting_a_node_with_two_children_keeps_order_and_balance() {
    let mut tree = AvlTree::new();
    for day in 1..=15u64 {
        tree.insert(&record(&format!("{:02}/06/2023", day), day));
    }
    let root_date = tree.root.as_ref().unwrap().data.date.clone();
    assert_eq!(root_date, "08/06/2023");
    tree.delete(&root_date);
    checked_height(&tree.root);
    assert_eq!(tree.root.as_ref().unwrap().data.date, "09/06/2023");
    let expected: Vec<String> =
        (1..=15).filter(|d| *d != 8).map(|d| format!("{:02}/06/2023", d)).collect();
    assert_eq!(dates(&tree), expected);
    for day in [1u64, 2, 3, 4, 5, 6, 7] {
        tree.delete(&format!("{:02}/06/2023", day));
        checked_height(&tree.root);
    }
    let expected: Vec<String> = (9..=15).map(|d| format!("{:02}/06/2023", d)).collect();
    assert_eq!(dates(&tree), expected);
}

#[test]
fn deleting_one_of_equal_dates_removes_one_record() {
    let mut tree = AvlTree::new();
    for v in 1..=4u64 {
        tree.insert(&record("01/01/2023", v));
    }
    tree.delete("01/01/2023");
    assert_eq!(tree.inorder().len(), 3);
    checked_height(&tree.root);
}

#[test]
fn edit_reports_decode_and_not_found() {
    let mut tree = AvlTree::new();
    tree.insert(&record("01/01/2023", 1));
    assert_eq!(tree.edit("bad", 5), Err(TreeError::Decode));
    assert_eq!(tree.edit("02/01/2023", 5), Err(TreeError::NotFound));
    assert_eq!(tree.edit("01/01/2023", 5), Ok(()));
    assert_eq!(tree.search("01/01/2023").unwrap().data.value, 5);
    assert_eq!(tree.search("01/01/2023").unwrap().data.cumulative, 1);
}

#[test]
fn balance_rotates_a_left_heavy_node() {
    let leaf = |date: &str| Box::new(Node { data: record(date, 0), left: None, right: None, height: 1 });
    let mut middle = leaf("02/01/2023");
    middle.left = Some(leaf("01/01/2023"));
    middle.height = 2;
    let mut top = leaf("03/01/2023");
    top.left = Some(middle);
    top.height = 3;
    let r = balance(top);
    assert_eq!(r.data.date, "02/01/2023");
    assert_eq!(r.height, 2);
    assert_eq!(r.left.as_ref().unwrap().data.date, "01/01/2023");
    assert_eq!(r.right.as_ref().unwrap().data.date, "03/01/2023");
    assert_eq!(r.right.as_ref().unwrap().height, 1);
}
