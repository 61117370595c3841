use hash_chain::text::push_decimal;
use hash_chain::{bucket_index, hash_key, HashChainNode, Node};

fn node(s: &str) -> Node {
    Node::new(s.to_string())
}

fn table_of(keys: &[&str]) -> HashChainNode {
    let mut t = HashChainNode::new();
    for k in keys {
        t.insert(node(k));
    }
    t
}

#[test]
fn hash_of_empty_key_is_offset_basis() {
    assert_eq!(hash_key(""), 0xcbf2_9ce4_8422_2325);
}

#[test]
fn hash_of_single_byte_keys() {
    assert_eq!(hash_key("a"), 0xaf63_dc4c_8601_ec8c);
    assert_eq!(hash_key("b"), 0xaf63_df4c_8601_f1a5);
    assert_eq!(hash_key("3"), 0xaf63_ae4c_8601_9e62);
}

#[test]
fn bucket_index_is_hash_mod_capacity() {
    assert_eq!(bucket_index("3", 4), 2);
    assert_eq!(bucket_index("3", 1), 0);
    assert_eq!(bucket_index("x", 8), 7);
}

#[test]
fn decimal_digits() {
    let mut s = String::from("n=");
    push_decimal(&mut s, 1234);
    assert_eq!(s, "n=1234");
    let mut z = String::new();
    push_decimal(&mut z, 0);
    assert_eq!(z, "0");
}

#[test]
fn new_table_is_empty_with_capacity_one() {
    let t = HashChainNode::new();
    assert_eq!(t.capacity(), 1);
    assert_eq!(t.len(), 0);
    assert!(t.search(&node("1")).is_none());
    assert_eq!(t.to_display_string(), "");
    let d = HashChainNode::default();
    assert_eq!(d.capacity(), 1);
    assert_eq!(d.len(), 0);
}

#[test]
fn five_inserts_grow_capacity_and_find_key() {
    let t = table_of(&["1", "2", "3", "4", "5"]);
    let c = t.capacity();
    assert!(c == 4 || c == 8);
    assert_eq!(c, 4);
    assert_eq!(t.len(), 5);
    assert!(t.search(&node("3")).is_some());
    assert_eq!(t.to_display_string(), "0:1 5 \n1:2 \n2:3 \n3:4 \n");
}

#[test]
fn search_reports_bucket_and_position() {
    let t = table_of(&["1", "2", "3", "4", "5"]);
    let h = t.search(&node("5")).unwrap();
    assert_eq!(h.bucket, 0);
    assert_eq!(h.position, 1);
    let h = t.search(&node("3")).unwrap();
    assert_eq!(h.bucket, 2);
    assert_eq!(h.position, 0);
}

#[test]
fn delete_after_five_inserts() {
    let mut t = table_of(&["1", "2", "3", "4", "5"]);
    t.delete(&node("3"));
    assert!(t.search(&node("3")).is_none());
    assert_eq!(t.len(), 4);
    assert_eq!(t.capacity(), 4);
    assert_eq!(t.to_display_string(), "0:1 5 \n1:2 \n3:4 \n");
}

#[test]
fn delete_of_absent_key_changes_nothing() {
    let mut t = table_of(&["1", "2", "3", "4", "5"]);
    t.delete(&node("x"));
    // A miss removes nothing, so the count stays as it was.
    assert_eq!(t.len(), 5);
    assert_eq!(t.capacity(), 4);
    for k in ["1", "2", "3", "4", "5"] {
        assert!(t.search(&node(k)).is_some());
    }
    let mut e = HashChainNode::new();
    e.delete(&node("x"));
    assert_eq!(e.len(), 0);
    assert_eq!(e.capacity(), 1);
}

#[test]
fn distinct_inserts_are_all_found() {
    let keys: Vec<String> = (0..100).map(|i| format!("k{}", i)).collect();
    let mut t = HashChainNode::new();
    for k in &keys {
        t.insert(Node::new(k.clone()));
    }
    for k in &keys {
        assert!(t.search(&Node::new(k.clone())).is_some());
    }
    assert!(t.search(&node("k100")).is_none());
    assert!(t.search(&node("")).is_none());
    assert_eq!(t.len(), 100);
    assert!(t.len() * 4 <= t.capacity() * 5);
    assert!(t.capacity().is_power_of_two());
}

#[test]
fn deleting_sole_copy_removes_it() {
    let mut t = table_of(&["a", "b", "c"]);
    t.delete(&node("b"));
    assert!(t.search(&node("b")).is_none());
    assert_eq!(t.len(), 2);
    assert!(t.search(&node("a")).is_some());
    assert!(t.search(&node("c")).is_some());
}

#[test]
fn resizes_keep_every_key() {
    let keys: Vec<String> = (0..40).map(|i| format!("key-{}", i)).collect();
    let mut t = HashChainNode::new();
    for k in &keys {
        t.insert(Node::new(k.clone()));
    }
    for k in keys.iter().take(35) {
        t.delete(&Node::new(k.clone()));
    }
    assert_eq!(t.len(), 5);
    for (i, k) in keys.iter().enumerate() {
        assert_eq!(t.search(&Node::new(k.clone())).is_some(), i >= 35);
    }
}

#[test]
fn deletions_shrink_capacity_down_to_one() {
    let mut t = table_of(&["1", "2", "3", "4", "5"]);
    t.delete(&node("3"));
    t.delete(&node("1"));
    assert_eq!(t.capacity(), 4);
    t.delete(&node("2"));
    assert_eq!(t.capacity(), 4);
    t.delete(&node("4"));
    assert_eq!(t.capacity(), 2);
    assert_eq!(t.to_display_string(), "0:5 \n");
    t.delete(&node("5"));
    assert_eq!(t.capacity(), 1);
    assert_eq!(t.len(), 0);
    t.delete(&node("5"));
    assert_eq!(t.capacity(), 1);
    assert_eq!(t.len(), 0);
}

#[test]
fn duplicate_keys_are_separate_entries() {
    let mut t = table_of(&["a", "a"]);
    assert_eq!(t.len(), 2);
    assert_eq!(t.capacity(), 2);
    assert_eq!(t.to_display_string(), "0:a a \n");
    t.delete(&node("a"));
    assert_eq!(t.len(), 1);
    assert!(t.search(&node("a")).is_some());
    t.delete(&node("a"));
    assert_eq!(t.len(), 0);
    assert!(t.search(&node("a")).is_none());
    assert_eq!(t.capacity(), 1);
}

#[test]
fn dump_twice_gives_same_text() {
    let t = table_of(&["a", "b", "1", "2", "x", "abc"]);
    let first = t.to_display_string();
    let second = t.to_display_string();
    assert_eq!(first, second);
    assert!(!first.is_empty());
}

#[test]
fn dump_of_two_buckets() {
    let t = table_of(&["a", "b"]);
    assert_eq!(t.to_display_string(), "0:a \n1:b \n");
}

#[test]
fn custom_thresholds() {
    let mut t = HashChainNode::with_thresholds(2, 2, 1, 1, 4);
    assert_eq!(t.capacity(), 2);
    for k in ["1", "2", "3", "4"] {
        t.insert(node(k));
    }
    assert_eq!(t.capacity(), 2);
    t.insert(node("5"));
    assert_eq!(t.capacity(), 4);
    assert_eq!(t.len(), 5);
}

#[test]
fn node_keeps_its_key() {
    let n = node("hello");
    assert_eq!(n.key(), "hello");
}
