use nybble_trie::{Node, Sparse, Trie};

fn root_internal_index<V, const N: usize>(t: &Trie<V, N>) -> Option<usize> {
    match t.root() {
        Some(Node::Internal(n)) => Some(n.index()),
        _ => None,
    }
}

fn shape<V, const N: usize>(node: &Node<V, N>, out: &mut Vec<String>) {
    match node {
        Node::Leaf(l) => out.push(format!("leaf {:?}", l.key())),
        Node::Internal(n) => {
            out.push(format!("branch {}", n.index()));
            for j in 0..16 {
                if let Some(c) = n.child(j) {
                    out.push(format!("slot {}", j));
                    shape(c, out);
                }
            }
            out.push("end".to_string());
        }
    }
}

fn trie_shape<V, const N: usize>(t: &Trie<V, N>) -> Vec<String> {
    let mut out = Vec::new();
    if let Some(root) = t.root() {
        shape(root, &mut out);
    }
    out
}

#[test]
fn it_works() {}

#[test]
fn single_insert_makes_leaf_root() {
    let mut t: Trie<&str, 4> = Trie::new();
    assert_eq!(t.insert([0x12, 0x34, 0x00, 0x00], "a"), None);
    assert!(matches!(t.root(), Some(Node::Leaf(_))));
    assert_eq!(t.get(&[0x12, 0x34, 0x00, 0x00]), Some(&"a"));
    assert_eq!(t.get(&[0x12, 0x34, 0x00, 0x01]), None);
}

#[test]
fn split_at_first_differing_nybble() {
    let mut t: Trie<&str, 4> = Trie::new();
    assert_eq!(t.insert([0x12, 0x34, 0x00, 0x00], "a"), None);
    assert_eq!(t.insert([0x12, 0x35, 0x00, 0x00], "b"), None);
    // 0x34 and 0x35 differ in their low nybble: position 2.
    assert_eq!(root_internal_index(&t), Some(2));
    assert_eq!(t.get(&[0x12, 0x34, 0x00, 0x00]), Some(&"a"));
    assert_eq!(t.get(&[0x12, 0x35, 0x00, 0x00]), Some(&"b"));
}

#[test]
fn split_on_high_nybble() {
    let mut t: Trie<u32, 2> = Trie::new();
    t.insert([0x12, 0x34], 1);
    t.insert([0x12, 0x44], 2);
    assert_eq!(root_internal_index(&t), Some(3));
}

#[test]
fn overwrite_single_byte_key() {
    let mut t: Trie<i32, 1> = Trie::new();
    assert_eq!(t.insert([0xAB], 1), None);
    assert_eq!(t.insert([0xAB], 2), Some(1));
    assert_eq!(t.get(&[0xAB]), Some(&2));
}

#[test]
fn final_byte_difference_makes_one_branch() {
    let mut t: Trie<&str, 4> = Trie::new();
    t.insert([1, 2, 3, 4], "x");
    t.insert([1, 2, 3, 5], "y");
    match t.root() {
        Some(Node::Internal(n)) => {
            assert_eq!(n.index(), 6);
            let mut leaves = 0;
            for j in 0..16 {
                match n.child(j) {
                    Some(Node::Leaf(l)) => {
                        leaves += 1;
                        assert_eq!(l.key()[3] & 0x0F, j as u8);
                    }
                    Some(Node::Internal(_)) => panic!("nested branch"),
                    None => {}
                }
            }
            assert_eq!(leaves, 2);
        }
        _ => panic!("root is not a branch"),
    }
}

#[test]
fn round_trip_many_keys() {
    let mut t: Trie<u32, 2> = Trie::new();
    for i in 0..300u32 {
        let k = [(i * 37 % 256) as u8, (i * 11 % 256) as u8];
        t.insert(k, i);
        assert_eq!(t.get(&k), Some(&i));
    }
}

#[test]
fn overwrite_returns_previous() {
    let mut t: Trie<&str, 3> = Trie::new();
    t.insert([9, 9, 9], "other");
    assert_eq!(t.insert([1, 2, 3], "v1"), None);
    assert_eq!(t.insert([1, 2, 3], "v2"), Some("v1"));
    assert_eq!(t.get(&[1, 2, 3]), Some(&"v2"));
    assert_eq!(t.get(&[9, 9, 9]), Some(&"other"));
}

#[test]
fn distinct_keys_do_not_interfere() {
    let k1 = [0x10, 0x00];
    let k2 = [0x01, 0x00];
    let mut a: Trie<u8, 2> = Trie::new();
    a.insert(k1, 1);
    a.insert(k2, 2);
    let mut b: Trie<u8, 2> = Trie::new();
    b.insert(k2, 2);
    b.insert(k1, 1);
    for t in [&a, &b] {
        assert_eq!(t.get(&k1), Some(&1));
        assert_eq!(t.get(&k2), Some(&2));
    }
}

#[test]
fn key_differing_before_branch_position() {
    // The third key leaves the first two at nybble 0, below the root's
    // branch position 1.
    let mut t: Trie<u8, 1> = Trie::new();
    t.insert([0x00], 0);
    t.insert([0x10], 1);
    assert_eq!(root_internal_index(&t), Some(1));
    assert_eq!(t.insert([0x01], 2), None);
    assert_eq!(root_internal_index(&t), Some(0));
    assert_eq!(t.get(&[0x00]), Some(&0));
    assert_eq!(t.get(&[0x10]), Some(&1));
    assert_eq!(t.get(&[0x01]), Some(&2));
    assert_eq!(t.get(&[0x11]), None);
}

#[test]
fn insertion_order_does_not_change_lookups_or_root() {
    let keys: Vec<[u8; 3]> = vec![
        [0, 0, 0],
        [0, 0, 1],
        [0, 1, 0],
        [0x80, 0, 0],
        [0x08, 0xFF, 0x10],
        [0xFF, 0xFF, 0xFF],
        [0x12, 0x34, 0x56],
        [0x12, 0x34, 0x57],
    ];
    let orders: Vec<Vec<usize>> = vec![
        vec![0, 1, 2, 3, 4, 5, 6, 7],
        vec![7, 6, 5, 4, 3, 2, 1, 0],
        vec![3, 0, 6, 1, 7, 2, 5, 4],
    ];
    let mut shapes = Vec::new();
    for order in &orders {
        let mut t: Trie<usize, 3> = Trie::new();
        for &i in order {
            t.insert(keys[i], i);
        }
        for (i, k) in keys.iter().enumerate() {
            assert_eq!(t.get(k), Some(&i));
        }
        assert_eq!(t.get(&[1, 1, 1]), None);
        shapes.push(trie_shape(&t));
    }
    assert_eq!(shapes[0], shapes[1]);
    assert_eq!(shapes[0], shapes[2]);
    assert_eq!(shapes[0][0], "branch 0");
}

#[test]
fn long_shared_prefix_splits_at_divergence() {
    let a = [0xAA, 0xBB, 0xCC, 0xDD, 0x15, 0x00, 0x00, 0x00];
    let b = [0xAA, 0xBB, 0xCC, 0xDD, 0x25, 0x00, 0x00, 0x00];
    let mut t: Trie<char, 8> = Trie::new();
    t.insert(a, 'a');
    t.insert(b, 'b');
    // Bytes 0..4 agree, byte 4 agrees in its low nybble: divergence at 9.
    assert_eq!(root_internal_index(&t), Some(9));
    assert_eq!(t.get(&a), Some(&'a'));
    assert_eq!(t.get(&b), Some(&'b'));
}

#[test]
fn sparse_slots() {
    let mut s: Sparse<&str> = Sparse::new();
    assert!(!s.contains(3));
    assert_eq!(s.get(3), None);
    s.insert_fresh(7, "seven");
    s.insert_fresh(2, "two");
    s.insert_fresh(15, "fifteen");
    s.insert_fresh(0, "zero");
    assert!(s.contains(7));
    assert!(s.contains(0));
    assert!(!s.contains(1));
    assert_eq!(s.get(2), Some(&"two"));
    assert_eq!(s.get(7), Some(&"seven"));
    assert_eq!(s.get(15), Some(&"fifteen"));
    assert_eq!(s.get(0), Some(&"zero"));
    if let Some(v) = s.get_mut(7) {
        *v = "SEVEN";
    }
    assert_eq!(s.get(7), Some(&"SEVEN"));
    assert_eq!(s.get(2), Some(&"two"));
    assert!(s.get_mut(8).is_none());
}
