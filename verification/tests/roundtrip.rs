use youlex::{Leaf, LexError, Node, Store, TreeEntry, TreeItem, decode, decode_position, encode,
    encode_position};

fn leaf(title: &str, id: &str, content: &str) -> TreeItem {
    TreeItem::Leaf(Leaf { title: title.to_string(), id: id.to_string(), content: content.to_string() })
}

fn node(title: &str, id: &str, description: &str, children: Vec<TreeItem>) -> TreeItem {
    TreeItem::Node(Node {
        title: title.to_string(),
        id: id.to_string(),
        description: description.to_string(),
        children,
    })
}

fn tree_eq(a: &TreeItem, b: &TreeItem) -> bool {
    match (a, b) {
        (TreeItem::Leaf(x), TreeItem::Leaf(y)) => {
            x.title == y.title && x.id == y.id && x.content == y.content
        },
        (TreeItem::Node(x), TreeItem::Node(y)) => {
            x.title == y.title && x.id == y.id && x.description == y.description
                && x.children.len() == y.children.len()
                && x.children.iter().zip(y.children.iter()).all(|(c, d)| tree_eq(c, d))
        },
        _ => false,
    }
}

fn fresh_store(path: &str) -> Store {
    match Store::open_repository(path) {
        Ok(s) => s,
        Err(_) => Store::init_repository(path).expect("init store"),
    }
}

#[test]
fn round_trip_deep_wide_tree() {
    let mut store = fresh_store("/tmp/youlex_test_rt_deep");
    // Depth 5, and a node with 21 children to cross the 9 -> 10 position
    // boundary that breaks unpadded key schemes.
    let mut wide_children = Vec::new();
    for i in 0..21 {
        wide_children.push(leaf(&format!("t{}", i), &format!("l{}", i), &format!("body {}", i)));
    }
    let tree = node(
        "root",
        "r",
        "top",
        vec![
            node(
                "c1",
                "c1",
                "",
                vec![node(
                    "c2",
                    "c2",
                    "d2",
                    vec![node("c3", "c3", "", vec![leaf("deep", "dl", "deep text")])],
                )],
            ),
            node("wide", "w", "many", wide_children),
            leaf("mid", "m", "middle"),
        ],
    );
    let id = encode(&mut store, &tree).expect("encode");
    let back = decode(&store, &id, 64).expect("decode");
    assert!(tree_eq(&tree, &back));
}

#[test]
fn round_trip_child_order_exact() {
    let mut store = fresh_store("/tmp/youlex_test_rt_order");
    let tree = node(
        "r",
        "r",
        "",
        vec![leaf("a", "a", "1"), leaf("b", "b", "2"), leaf("c", "c", "3")],
    );
    let id = encode(&mut store, &tree).expect("encode");
    match decode(&store, &id, 8).expect("decode") {
        TreeItem::Node(n) => {
            let ids: Vec<&str> = n
                .children
                .iter()
                .map(|c| match c {
                    TreeItem::Leaf(l) => l.id.as_str(),
                    TreeItem::Node(x) => x.id.as_str(),
                })
                .collect();
            assert_eq!(ids, vec!["a", "b", "c"]);
        },
        TreeItem::Leaf(_) => panic!("expected node"),
    }
}

#[test]
fn determinism_same_value_same_identity() {
    let mut store = fresh_store("/tmp/youlex_test_determinism");
    let tree = node("r", "r", "d", vec![leaf("a", "a", "x"), node("b", "b", "", vec![])]);
    let id1 = encode(&mut store, &tree).expect("first encode");
    let id2 = encode(&mut store, &tree).expect("second encode");
    assert!(id1.equals(&id2));
    // A second store yields the same identity: content addressing.
    let mut store2 = fresh_store("/tmp/youlex_test_determinism_b");
    let id3 = encode(&mut store2, &tree).expect("encode elsewhere");
    assert!(id1.equals(&id3));
}

#[test]
fn discrimination_empty_node_stays_node() {
    let mut store = fresh_store("/tmp/youlex_test_discriminate");
    let empty_node = node("n", "n", "desc", vec![]);
    let nid = encode(&mut store, &empty_node).expect("encode node");
    match decode(&store, &nid, 4).expect("decode") {
        TreeItem::Node(n) => {
            assert_eq!(n.children.len(), 0);
            assert_eq!(n.title, "n");
            assert_eq!(n.description, "desc");
        },
        TreeItem::Leaf(_) => panic!("empty node collapsed to a leaf"),
    }
    // A leaf with look-alike fields has a different identity.
    let lookalike = leaf("n", "n", "desc");
    let lid = encode(&mut store, &lookalike).expect("encode leaf");
    assert!(!nid.equals(&lid));
}

#[test]
fn order_sensitivity_distinct_identities() {
    let mut store = fresh_store("/tmp/youlex_test_order_sense");
    let ab = node("r", "r", "", vec![leaf("a", "a", "1"), leaf("b", "b", "2")]);
    let ba = node("r", "r", "", vec![leaf("b", "b", "2"), leaf("a", "a", "1")]);
    let id_ab = encode(&mut store, &ab).expect("encode ab");
    let id_ba = encode(&mut store, &ba).expect("encode ba");
    assert!(!id_ab.equals(&id_ba));
    let back = decode(&store, &id_ba, 4).expect("decode");
    assert!(tree_eq(&ba, &back));
    assert!(!tree_eq(&ab, &back));
}

#[test]
fn malformed_missing_discriminator() {
    let mut store = fresh_store("/tmp/youlex_test_malformed_nokind");
    // A tree with scalar entries but no "kind" entry.
    let blob = store.write_blob(b"text").expect("blob");
    let entries = vec![
        TreeEntry { name: b"content".to_vec(), id: blob, mode: 0o100644 },
    ];
    let tid = store.write_tree(&entries).expect("tree");
    assert!(matches!(decode(&store, &tid, 4), Err(LexError::MalformedTree)));
}

#[test]
fn malformed_unknown_discriminator() {
    let mut store = fresh_store("/tmp/youlex_test_malformed_badkind");
    let marker = store.write_blob(b"thing").expect("blob");
    let entries = vec![TreeEntry { name: b"kind".to_vec(), id: marker, mode: 0o100644 }];
    let tid = store.write_tree(&entries).expect("tree");
    assert!(matches!(decode(&store, &tid, 4), Err(LexError::MalformedTree)));
}

#[test]
fn position_keys_encode_decode_and_order() {
    let k2 = encode_position(2);
    let k10 = encode_position(10);
    assert_eq!(k2, b"0000000002".to_vec());
    assert_eq!(k10, b"0000000010".to_vec());
    // Fixed-width keys sort by position even across the 9 -> 10 boundary,
    // where unpadded decimal would place "10" before "2".
    assert!(k2 < k10);
    assert_eq!(decode_position(&k2), Some(2));
    assert_eq!(decode_position(&k10), Some(10));
    assert_eq!(decode_position(&b"10".to_vec()), None);
    assert_eq!(decode_position(&b"00000000x1".to_vec()), None);
    assert_eq!(decode_position(&b"9999999999".to_vec()), Some(9999999999));
}

#[test]
fn scenario_chapter_with_single_article() {
    let mut store = fresh_store("/tmp/youlex_test_scenario");
    let article = leaf("Art. 1", "a1", "Text A");
    let chapter = node("Chapter 1", "c1", "", vec![article]);
    let root = encode(&mut store, &chapter).expect("encode");
    match decode(&store, &root, 8).expect("decode") {
        TreeItem::Node(n) => {
            assert_eq!(n.children.len(), 1);
            match &n.children[0] {
                TreeItem::Leaf(l) => assert_eq!(l.content, "Text A"),
                TreeItem::Node(_) => panic!("child should be a leaf"),
            }
        },
        TreeItem::Leaf(_) => panic!("root should be a node"),
    }
}

#[test]
fn decode_depth_ceiling() {
    let mut store = fresh_store("/tmp/youlex_test_depth");
    let tree = node("r", "r", "", vec![node("c", "c", "", vec![leaf("l", "l", "x")])]);
    let id = encode(&mut store, &tree).expect("encode");
    assert!(matches!(decode(&store, &id, 0), Err(LexError::DepthExceeded)));
    assert!(matches!(decode(&store, &id, 1), Err(LexError::DepthExceeded)));
    assert!(decode(&store, &id, 3).is_ok());
}

#[test]
fn decode_missing_object_is_store_read() {
    let mut store = fresh_store("/tmp/youlex_test_missing");
    // A blob identity is not a tree: decoding it fails as a read failure.
    let bid = store.write_blob(b"just bytes").expect("blob");
    assert!(matches!(decode(&store, &bid, 4), Err(LexError::StoreRead)));
}
