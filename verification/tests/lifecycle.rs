use youlex::{Leaf, Lex, LexError, Node, TreeItem, connect};

fn sample_node(children: Vec<TreeItem>) -> Node {
    Node {
        title: "Chapter 1".to_string(),
        id: "c1".to_string(),
        description: "intro".to_string(),
        children,
    }
}

fn sample_leaf() -> TreeItem {
    TreeItem::Leaf(Leaf {
        title: "Art. 1".to_string(),
        id: "a1".to_string(),
        content: "Text A".to_string(),
    })
}

#[test]
fn init_twice_rejects_reinitialisation() {
    // Make sure a store exists at the location, then re-initialise it.
    match Lex::open("/tmp/youlex_test_lifecycle_init") {
        Ok(_) => {},
        Err(_) => {
            Lex::init_lex("/tmp/youlex_test_lifecycle_init").expect("first init");
        },
    }
    match Lex::init_lex("/tmp/youlex_test_lifecycle_init") {
        Err(LexError::AlreadyExists) => {},
        Err(e) => panic!("expected AlreadyExists, got {:?}", e),
        Ok(_) => panic!("re-initialisation silently reused the store"),
    }
    // The first store is untouched: it still opens.
    assert!(Lex::open("/tmp/youlex_test_lifecycle_init").is_ok());
}

#[test]
fn open_missing_location_is_not_found() {
    match Lex::open("/tmp/youlex_test_never_initialised") {
        Err(LexError::NotFound) => {},
        Err(e) => panic!("expected NotFound, got {:?}", e),
        Ok(_) => panic!("opened a store that does not exist"),
    }
}

#[test]
fn save_without_contents_is_empty_contents() {
    let mut lex = match Lex::open("/tmp/youlex_test_lifecycle_save0") {
        Ok(l) => l,
        Err(_) => Lex::init_lex("/tmp/youlex_test_lifecycle_save0").expect("init"),
    };
    assert!(matches!(lex.save(), Err(LexError::EmptyContents)));
}

#[test]
fn save_and_load_attached_contents() {
    let mut lex = match Lex::open("/tmp/youlex_test_lifecycle_save1") {
        Ok(l) => l,
        Err(_) => Lex::init_lex("/tmp/youlex_test_lifecycle_save1").expect("init"),
    };
    lex.push_contents(sample_node(vec![sample_leaf()]));
    let root = lex.save().expect("save");
    // Saving again is deterministic: the same root identity.
    let root2 = lex.save().expect("save again");
    assert!(root.equals(&root2));
    match lex.load(&root, 16).expect("load") {
        TreeItem::Node(n) => {
            assert_eq!(n.title, "Chapter 1");
            assert_eq!(n.children.len(), 1);
            match &n.children[0] {
                TreeItem::Leaf(l) => {
                    assert_eq!(l.title, "Art. 1");
                    assert_eq!(l.content, "Text A");
                },
                TreeItem::Node(_) => panic!("child should be a leaf"),
            }
        },
        TreeItem::Leaf(_) => panic!("root should be a node"),
    }
}

#[test]
fn create_content_and_tree() {
    let mut lex = match Lex::open("/tmp/youlex_test_lifecycle_create") {
        Ok(l) => l,
        Err(_) => Lex::init_lex("/tmp/youlex_test_lifecycle_create").expect("init"),
    };
    let cid = lex.create_content("some article text").expect("blob");
    let tid = lex.create_tree("heading", &cid).expect("tree");
    // Content addressing: the same inputs give the same identities.
    let cid2 = lex.create_content("some article text").expect("blob again");
    assert!(cid.equals(&cid2));
    let tid2 = lex.create_tree("heading", &cid2).expect("tree again");
    assert!(tid.equals(&tid2));
}

#[test]
fn walk_runs_post_order_left_to_right() {
    let root = sample_node(vec![
        TreeItem::Node(Node {
            title: "s1".to_string(),
            id: "s1".to_string(),
            description: String::new(),
            children: vec![sample_leaf()],
        }),
        TreeItem::Leaf(Leaf {
            title: "Art. 2".to_string(),
            id: "a2".to_string(),
            content: "Text B".to_string(),
        }),
    ]);
    // Fold the tree into a parenthesised trace of ids.
    let trace = root.walk(
        |n: &Node, rs: Vec<String>| format!("({}:{})", n.id, rs.join(",")),
        |l: &Leaf| l.id.clone(),
    );
    assert_eq!(trace, "(c1:(s1:a1),a2)");
    // Count the leaves through the same traversal.
    let leaves = root.walk(
        |_n: &Node, rs: Vec<u64>| rs.iter().sum::<u64>(),
        |_l: &Leaf| 1u64,
    );
    assert_eq!(leaves, 2);
}

#[test]
fn connect_is_callable() {
    connect("https://example.invalid/store");
}
