use avl_tree::Tree;
use rand::Rng;

fn six_entry_tree() -> Tree {
    let mut tree = Tree::new();
    tree.insert(42, "Peter".to_string());
    tree.insert(21, "Joanna".to_string());
    tree.insert(83, "Margaretha".to_string());
    tree.insert(5, "Frank".to_string());
    tree.insert(1, "Peter".to_string());
    tree.insert(2, "Mark".to_string());
    tree
}

#[test]
fn test_basic() {
    let tree = six_entry_tree();
    let _ = tree.print();
}

#[test]
fn test_find() {
    let tree = six_entry_tree();
    if !tree.find(42, "Peter".to_string()) {
        panic!("Could not find an item that was recently inserted");
    }
}

#[test]
fn test_erase() {
    let mut tree = six_entry_tree();
    tree.erase(2, "Mark".to_string());
    if tree.find(2, "Mark".to_string()) {
        panic!("Found an item that was supposed to be removed (leaf node)");
    }
}

#[test]
fn test_insert() {
    let mut tree = six_entry_tree();
    tree.erase(2, "Mark".to_string());
    if tree.find(2, "Mark".to_string()) {
        panic!("Found an item that was supposed to be removed (leaf node)");
    }
}

#[test]
fn test_delete() {
    let mut tree = six_entry_tree();
    tree.delete();
    if tree.find(2, "Mark".to_string()) {
        panic!("Found an item that was supposed to be removed (leaf node)");
    }
}

#[test]
fn test_stress() {
    let mut tree = Tree::new();
    let mut rng = rand::thread_rng();

    for _ in 0..100000 {
        let age: i32 = rng.gen::<i32>() % 1000;
        let name = "Name".to_string();

        if tree.find(age, name.clone()) {
            tree.erase(age, name);
        } else {
            tree.insert(age, name);
        }
    }

    tree.delete();

    println!("Stress test succeeded\n");
}

#[test]
fn scenario_dump_erase_clear() {
    let mut tree = six_entry_tree();
    assert_eq!(
        tree.print(),
        "[{\"5\":\"Frank\"},[{\"1\":\"Peter\"},null,[{\"2\":\"Mark\"},null,null]],[{\"42\":\"Peter\"},[{\"21\":\"Joanna\"},null,null],[{\"83\":\"Margaretha\"},null,null]]]"
    );
    tree.erase(2, "Mark".to_string());
    assert!(!tree.find(2, "Mark".to_string()));
    tree.delete();
    assert_eq!(tree.print(), "null");
}

#[test]
fn duplicate_age_chains_left() {
    let mut tree = Tree::new();
    tree.insert(5, "Frank".to_string());
    tree.insert(5, "Other".to_string());
    assert!(tree.find(5, "Other".to_string()));
    // the later-inserted equal-aged entry hangs off the left child
    assert_eq!(tree.print(), "[{\"5\":\"Frank\"},[{\"5\":\"Other\"},null,null],null]");
}

#[test]
fn insert_exact_duplicate_is_noop() {
    let mut tree = six_entry_tree();
    let before = tree.print();
    tree.insert(21, "Joanna".to_string());
    assert_eq!(tree.print(), before);
    assert!(tree.find(21, "Joanna".to_string()));
}

#[test]
fn erase_removes_unique_entry_completely() {
    let mut tree = six_entry_tree();
    tree.erase(2, "Mark".to_string());
    assert!(!tree.find(2, "Mark".to_string()));
    assert!(!tree.print().contains("{\"2\":\"Mark\"}"));
}

#[test]
fn clear_totality() {
    let mut tree = six_entry_tree();
    tree.delete();
    assert!(!tree.find(42, "Peter".to_string()));
    assert!(!tree.find(0, "Anyone".to_string()));
    assert_eq!(tree.print(), "null");
}

#[test]
fn find_matches_by_age_alone() {
    let mut tree = Tree::new();
    tree.insert(42, "Peter".to_string());
    // the name does not filter an age-matching node
    assert!(tree.find(42, "Nobody".to_string()));
    assert!(!tree.find(43, "Peter".to_string()));
}

#[test]
fn empty_tree_operations() {
    let mut tree = Tree::new();
    assert!(!tree.find(1, "Anyone".to_string()));
    assert_eq!(tree.print(), "null");
    tree.erase(1, "Anyone".to_string());
    assert_eq!(tree.print(), "null");
    tree.delete();
    assert_eq!(tree.print(), "null");
}

#[test]
fn negative_age_dump() {
    let mut tree = Tree::new();
    tree.insert(-7, "Minus".to_string());
    assert_eq!(tree.print(), "[{\"-7\":\"Minus\"},null,null]");
    assert!(tree.find(-7, "Minus".to_string()));
}

#[test]
fn ascending_inserts_stay_balanced() {
    let mut tree = Tree::new();
    for age in 1..8 {
        tree.insert(age, format!("N{}", age));
    }
    assert_eq!(
        tree.print(),
        "[{\"4\":\"N4\"},[{\"2\":\"N2\"},[{\"1\":\"N1\"},null,null],[{\"3\":\"N3\"},null,null]],[{\"6\":\"N6\"},[{\"5\":\"N5\"},null,null],[{\"7\":\"N7\"},null,null]]]"
    );
}

#[test]
fn descending_inserts_stay_balanced() {
    let mut tree = Tree::new();
    for age in (1..8).rev() {
        tree.insert(age, format!("N{}", age));
    }
    assert_eq!(
        tree.print(),
        "[{\"4\":\"N4\"},[{\"2\":\"N2\"},[{\"1\":\"N1\"},null,null],[{\"3\":\"N3\"},null,null]],[{\"6\":\"N6\"},[{\"5\":\"N5\"},null,null],[{\"7\":\"N7\"},null,null]]]"
    );
}

#[test]
fn double_rotation_left_right() {
    let mut tree = Tree::new();
    tree.insert(3, "N3".to_string());
    tree.insert(1, "N1".to_string());
    tree.insert(2, "N2".to_string());
    assert_eq!(
        tree.print(),
        "[{\"2\":\"N2\"},[{\"1\":\"N1\"},null,null],[{\"3\":\"N3\"},null,null]]"
    );
}

#[test]
fn double_rotation_right_left() {
    let mut tree = Tree::new();
    tree.insert(1, "N1".to_string());
    tree.insert(3, "N3".to_string());
    tree.insert(2, "N2".to_string());
    assert_eq!(
        tree.print(),
        "[{\"2\":\"N2\"},[{\"1\":\"N1\"},null,null],[{\"3\":\"N3\"},null,null]]"
    );
}

#[test]
fn erase_two_children_uses_successor() {
    let mut tree = Tree::new();
    for age in 1..8 {
        tree.insert(age, format!("N{}", age));
    }
    tree.erase(4, "N4".to_string());
    assert!(!tree.find(4, "N4".to_string()));
    assert!(tree.find(5, "N5".to_string()));
    assert_eq!(
        tree.print(),
        "[{\"5\":\"N5\"},[{\"2\":\"N2\"},[{\"1\":\"N1\"},null,null],[{\"3\":\"N3\"},null,null]],[{\"6\":\"N6\"},null,[{\"7\":\"N7\"},null,null]]]"
    );
}

#[test]
fn erase_of_absent_entry_is_noop() {
    let mut tree = six_entry_tree();
    let before = tree.print();
    tree.erase(99, "Nobody".to_string());
    assert_eq!(tree.print(), before);
    // an age match with a differing name and no left chain is not removed
    tree.erase(83, "Wrong".to_string());
    assert_eq!(tree.print(), before);
    assert!(tree.find(83, "Margaretha".to_string()));
}
