//! The document encoder and decoder: the canonical mapping between an
//! in-memory `TreeItem` and the object store's blobs and trees, and its
//! inverse. Every element becomes one stored tree holding one blob entry per
//! scalar field, a discriminator entry marking node or leaf, and, for a node,
//! one subtree entry per child under an order-preserving position key.

use vstd::prelude::*;
use vstd::utf8::{decode_utf8, encode_utf8, valid_utf8};

use crate::LexError;
use crate::item::{ItemModel, Leaf, Node, TreeItem, item_model, items_model, lemma_items_model,
    max_child_height, model_height};
use crate::keys::{POSITION_LIMIT, decode_position, encode_position, key_value, position_key,
    valid_position_key};
use crate::store::{FILE_MODE, ObjectId, Store, StoreObject, TREE_MODE, TreeEntry, blob_oid,
    entry_model, entry_models, store_objects, tree_oid, writable_entries};

verus! {

/// The reserved entry name for the discriminator, "kind".
pub open spec fn kind_name() -> Seq<u8> {
    seq![107u8, 105u8, 110u8, 100u8]
}

/// The reserved entry name "title".
pub open spec fn title_name() -> Seq<u8> {
    seq![116u8, 105u8, 116u8, 108u8, 101u8]
}

/// The reserved entry name "id".
pub open spec fn id_name() -> Seq<u8> {
    seq![105u8, 100u8]
}

/// The reserved entry name "description".
pub open spec fn description_name() -> Seq<u8> {
    seq![100u8, 101u8, 115u8, 99u8, 114u8, 105u8, 112u8, 116u8, 105u8, 111u8, 110u8]
}

/// The reserved entry name "content".
pub open spec fn content_name() -> Seq<u8> {
    seq![99u8, 111u8, 110u8, 116u8, 101u8, 110u8, 116u8]
}

/// The discriminator blob marking an internal node, "node".
pub open spec fn node_marker() -> Seq<u8> {
    seq![110u8, 111u8, 100u8, 101u8]
}

/// The discriminator blob marking a leaf, "leaf".
pub open spec fn leaf_marker() -> Seq<u8> {
    seq![108u8, 101u8, 97u8, 102u8]
}

/// Whether `s` is one of the five reserved entry names. Reserved names all
/// start with a lower-case letter, position keys with a digit, so the two
/// key spaces never collide.
pub open spec fn is_reserved_name(s: Seq<u8>) -> bool {
    s == kind_name() || s == title_name() || s == id_name() || s == description_name() || s
        == content_name()
}

/// The identity of the blob holding a scalar field's UTF-8 bytes.
pub open spec fn scalar_oid(s: Seq<char>) -> Seq<u8> {
    blob_oid(encode_utf8(s))
}

/// The stored child entries of a node: one subtree entry per child, keyed by
/// position, in position order.
pub open spec fn child_entries(children: Seq<ItemModel>) -> Seq<(Seq<u8>, Seq<u8>, u64)>
    decreases children, 0nat,
{
    if children.len() == 0 {
        Seq::empty()
    } else {
        child_entries(children.drop_last()).push(
            (position_key((children.len() - 1) as nat), item_oid(children.last()), TREE_MODE),
        )
    }
}

/// The full stored entry list of a leaf, in canonical (name-sorted) order.
pub open spec fn leaf_entries(title: Seq<char>, id: Seq<char>, content: Seq<char>) -> Seq<
    (Seq<u8>, Seq<u8>, u64),
> {
    seq![
        (content_name(), scalar_oid(content), FILE_MODE),
        (id_name(), scalar_oid(id), FILE_MODE),
        (kind_name(), blob_oid(leaf_marker()), FILE_MODE),
        (title_name(), scalar_oid(title), FILE_MODE),
    ]
}

/// The full stored entry list of a node, in canonical (name-sorted) order:
/// position-keyed child entries first, then the reserved scalar entries.
pub open spec fn node_entries(
    title: Seq<char>,
    id: Seq<char>,
    description: Seq<char>,
    children: Seq<ItemModel>,
) -> Seq<(Seq<u8>, Seq<u8>, u64)>
    decreases children, 1nat,
{
    child_entries(children) + seq![
        (description_name(), scalar_oid(description), FILE_MODE),
        (id_name(), scalar_oid(id), FILE_MODE),
        (kind_name(), blob_oid(node_marker()), FILE_MODE),
        (title_name(), scalar_oid(title), FILE_MODE),
    ]
}

/// The stored entry list representing `m`.
pub open spec fn item_entries(m: ItemModel) -> Seq<(Seq<u8>, Seq<u8>, u64)>
    decreases m, 2nat,
{
    match m {
        ItemModel::Leaf { title, id, content } => leaf_entries(title, id, content),
        ItemModel::Node { title, id, description, children } => node_entries(
            title,
            id,
            description,
            children,
        ),
    }
}

/// The identity of the tree representing `m`: a function of the value alone,
/// so encoding is deterministic and the store deduplicates repeated subtrees.
pub open spec fn item_oid(m: ItemModel) -> Seq<u8>
    decreases m, 3nat,
{
    tree_oid(item_entries(m))
}

/// Every node of the tree keeps its fan-out below the ordering codec's limit.
pub open spec fn fan_out_ok(m: ItemModel) -> bool
    decreases m,
{
    match m {
        ItemModel::Leaf { .. } => true,
        ItemModel::Node { children, .. } => children.len() < POSITION_LIMIT && (forall|i: int|
            0 <= i < children.len() ==> fan_out_ok(#[trigger] children[i])),
    }
}

/// The store holds the complete encoding of `m`: the representing tree, the
/// scalar blobs, the discriminator blob, and, recursively, every child.
pub open spec fn encodes(objs: Map<Seq<u8>, StoreObject>, m: ItemModel) -> bool
    decreases m, 4nat,
{
    match m {
        ItemModel::Leaf { title, id, content } => {
            &&& objs.contains_pair(scalar_oid(title), StoreObject::Blob(encode_utf8(title)))
            &&& objs.contains_pair(scalar_oid(id), StoreObject::Blob(encode_utf8(id)))
            &&& objs.contains_pair(scalar_oid(content), StoreObject::Blob(encode_utf8(content)))
            &&& objs.contains_pair(blob_oid(leaf_marker()), StoreObject::Blob(leaf_marker()))
            &&& objs.contains_pair(item_oid(m), StoreObject::Tree(item_entries(m)))
        },
        ItemModel::Node { title, id, description, children } => {
            &&& objs.contains_pair(scalar_oid(title), StoreObject::Blob(encode_utf8(title)))
            &&& objs.contains_pair(scalar_oid(id), StoreObject::Blob(encode_utf8(id)))
            &&& objs.contains_pair(
                scalar_oid(description),
                StoreObject::Blob(encode_utf8(description)),
            )
            &&& objs.contains_pair(blob_oid(node_marker()), StoreObject::Blob(node_marker()))
            &&& objs.contains_pair(item_oid(m), StoreObject::Tree(item_entries(m)))
            &&& forall|i: int| 0 <= i < children.len() ==> encodes(objs, #[trigger] children[i])
        },
    }
}

/// `child_entries` maps the children pointwise to position-keyed entries.
pub proof fn lemma_child_entries(children: Seq<ItemModel>)
    ensures
        child_entries(children).len() == children.len(),
        forall|i: int|
            0 <= i < children.len() ==> #[trigger] child_entries(children)[i] == (
            position_key(i as nat),
            item_oid(children[i]),
            TREE_MODE,
            ),
    decreases children.len(),
{
    if children.len() > 0 {
        lemma_child_entries(children.drop_last());
        assert forall|i: int|
            0 <= i < children.len() implies #[trigger] child_entries(children)[i] == (
        position_key(i as nat),
        item_oid(children[i]),
        TREE_MODE,
        ) by {
            if i < children.len() - 1 {
                assert(children.drop_last()[i] == children[i]);
            }
        }
    }
}

/// `objs2` holds every object of `objs1`, unchanged.
pub open spec fn store_extends(
    objs1: Map<Seq<u8>, StoreObject>,
    objs2: Map<Seq<u8>, StoreObject>,
) -> bool {
    forall|k: Seq<u8>|
        #[trigger] objs1.contains_key(k) ==> objs2.contains_key(k) && objs2[k] == objs1[k]
}

/// A store that encodes `m` keeps encoding it when objects are added and
/// none of the existing ones changes.
pub proof fn lemma_encodes_monotone(
    objs1: Map<Seq<u8>, StoreObject>,
    objs2: Map<Seq<u8>, StoreObject>,
    m: ItemModel,
)
    requires
        encodes(objs1, m),
        store_extends(objs1, objs2),
    ensures
        encodes(objs2, m),
    decreases m,
{
    match m {
        ItemModel::Leaf { .. } => {},
        ItemModel::Node { children, .. } => {
            assert forall|i: int| 0 <= i < children.len() implies encodes(
                objs2,
                #[trigger] children[i],
            ) by {
                lemma_encodes_monotone(objs1, objs2, children[i]);
            }
        },
    }
}

/// Each child is at most as high as the highest child.
pub proof fn lemma_max_child_height(children: Seq<ItemModel>)
    ensures
        forall|i: int|
            0 <= i < children.len() ==> model_height(#[trigger] children[i]) <= max_child_height(
                children,
            ),
    decreases children.len(),
{
    if children.len() > 1 {
        lemma_max_child_height(children.drop_last());
        assert forall|i: int|
            0 <= i < children.len() implies model_height(#[trigger] children[i])
            <= max_child_height(children) by {
            if i < children.len() - 1 {
                assert(children.drop_last()[i] == children[i]);
            }
        }
    }
}


/// Store extension is transitive.
pub proof fn lemma_extends_trans(
    a: Map<Seq<u8>, StoreObject>,
    b: Map<Seq<u8>, StoreObject>,
    c: Map<Seq<u8>, StoreObject>,
)
    requires
        store_extends(a, b),
        store_extends(b, c),
    ensures
        store_extends(a, c),
{
    assert forall|k: Seq<u8>| a.contains_key(k) implies c.contains_key(k) && c[k] == a[k] by {
        assert(b.contains_key(k) && b[k] == a[k]);
    }
}

/// The bytes of the "kind" entry name.
fn kind_bytes() -> (v: Vec<u8>)
    ensures
        v@ == kind_name(),
{
    let mut v: Vec<u8> = Vec::new();
    v.push(107);
    v.push(105);
    v.push(110);
    v.push(100);
    proof {
        assert(v@ =~= kind_name());
    }
    v
}

/// The bytes of the "title" entry name.
fn title_bytes() -> (v: Vec<u8>)
    ensures
        v@ == title_name(),
{
    let mut v: Vec<u8> = Vec::new();
    v.push(116);
    v.push(105);
    v.push(116);
    v.push(108);
    v.push(101);
    proof {
        assert(v@ =~= title_name());
    }
    v
}

/// The bytes of the "id" entry name.
fn id_bytes() -> (v: Vec<u8>)
    ensures
        v@ == id_name(),
{
    let mut v: Vec<u8> = Vec::new();
    v.push(105);
    v.push(100);
    proof {
        assert(v@ =~= id_name());
    }
    v
}

/// The bytes of the "description" entry name.
fn description_bytes() -> (v: Vec<u8>)
    ensures
        v@ == description_name(),
{
    let mut v: Vec<u8> = Vec::new();
    v.push(100);
    v.push(101);
    v.push(115);
    v.push(99);
    v.push(114);
    v.push(105);
    v.push(112);
    v.push(116);
    v.push(105);
    v.push(111);
    v.push(110);
    proof {
        assert(v@ =~= description_name());
    }
    v
}

/// The bytes of the "content" entry name.
fn content_bytes() -> (v: Vec<u8>)
    ensures
        v@ == content_name(),
{
    let mut v: Vec<u8> = Vec::new();
    v.push(99);
    v.push(111);
    v.push(110);
    v.push(116);
    v.push(101);
    v.push(110);
    v.push(116);
    proof {
        assert(v@ =~= content_name());
    }
    v
}

/// The bytes of the "node" discriminator value.
fn node_marker_bytes() -> (v: Vec<u8>)
    ensures
        v@ == node_marker(),
{
    let mut v: Vec<u8> = Vec::new();
    v.push(110);
    v.push(111);
    v.push(100);
    v.push(101);
    proof {
        assert(v@ =~= node_marker());
    }
    v
}

/// The bytes of the "leaf" discriminator value.
fn leaf_marker_bytes() -> (v: Vec<u8>)
    ensures
        v@ == leaf_marker(),
{
    let mut v: Vec<u8> = Vec::new();
    v.push(108);
    v.push(101);
    v.push(97);
    v.push(102);
    proof {
        assert(v@ =~= leaf_marker());
    }
    v
}

/// Writes one scalar field as a blob of its UTF-8 bytes.
fn write_scalar(store: &mut Store, s: &str) -> (r: Result<ObjectId, LexError>)
    ensures
        store_extends(store_objects(*old(store)), store_objects(*final(store))),
        r matches Ok(id) ==> {
            &&& id@ == scalar_oid(s@)
            &&& id@.len() == 20
            &&& store_objects(*final(store)) == store_objects(*old(store)).insert(
                scalar_oid(s@),
                StoreObject::Blob(encode_utf8(s@)),
            )
            &&& store_objects(*final(store)).contains_pair(
                scalar_oid(s@),
                StoreObject::Blob(encode_utf8(s@)),
            )
        },
        r matches Err(e) ==> e == LexError::StoreWrite && store_objects(*final(store))
            == store_objects(*old(store)),
{
    store.write_blob(s.as_bytes())
}

/// Writes the discriminator blob for the given marker bytes.
fn write_marker(store: &mut Store, marker: &Vec<u8>) -> (r: Result<ObjectId, LexError>)
    ensures
        store_extends(store_objects(*old(store)), store_objects(*final(store))),
        r matches Ok(id) ==> {
            &&& id@ == blob_oid(marker@)
            &&& id@.len() == 20
            &&& store_objects(*final(store)) == store_objects(*old(store)).insert(
                blob_oid(marker@),
                StoreObject::Blob(marker@),
            )
            &&& store_objects(*final(store)).contains_pair(
                blob_oid(marker@),
                StoreObject::Blob(marker@),
            )
        },
        r matches Err(e) ==> e == LexError::StoreWrite && store_objects(*final(store))
            == store_objects(*old(store)),
{
    store.write_blob(marker.as_slice())
}



/// Facts about the reserved names and markers: byte ranges and first bytes.
proof fn lemma_reserved_name_bytes()
    ensures
        kind_name().len() == 4 && kind_name()[0] == 107,
        title_name().len() == 5 && title_name()[0] == 116,
        id_name().len() == 2 && id_name()[0] == 105,
        description_name().len() == 11 && description_name()[0] == 100,
        content_name().len() == 7 && content_name()[0] == 99,
        forall|j: int| 0 <= j < kind_name().len() ==> 48 <= #[trigger] kind_name()[j] <= 122,
        forall|j: int| 0 <= j < title_name().len() ==> 48 <= #[trigger] title_name()[j] <= 122,
        forall|j: int| 0 <= j < id_name().len() ==> 48 <= #[trigger] id_name()[j] <= 122,
        forall|j: int|
            0 <= j < description_name().len() ==> 48 <= #[trigger] description_name()[j] <= 122,
        forall|j: int| 0 <= j < content_name().len() ==> 48 <= #[trigger] content_name()[j] <= 122,
{
}

/// The canonical entry list of a leaf may be handed to the store: names
/// sorted and in range, identities 20 bytes, modes valid.
proof fn lemma_leaf_entries_writable(title: Seq<char>, id: Seq<char>, content: Seq<char>)
    requires
        scalar_oid(title).len() == 20,
        scalar_oid(id).len() == 20,
        scalar_oid(content).len() == 20,
        blob_oid(leaf_marker()).len() == 20,
    ensures
        writable_entries(leaf_entries(title, id, content)),
{
    let es = leaf_entries(title, id, content);
    assert(es.len() == 4);
    lemma_reserved_name_bytes();
    crate::keys::lemma_lex_first_byte(content_name(), id_name());
    crate::keys::lemma_lex_first_byte(id_name(), kind_name());
    crate::keys::lemma_lex_first_byte(kind_name(), title_name());
    assert(es[0].0 == content_name());
    assert(es[1].0 == id_name());
    assert(es[2].0 == kind_name());
    assert(es[3].0 == title_name());
    assert forall|i: int| 0 <= i && i + 1 < es.len() implies crate::keys::lex_lt(
        es[i].0,
        (#[trigger] es[i + 1]).0,
    ) by {
        if i == 0 {
            assert(crate::keys::lex_lt(es[0].0, es[1].0));
        } else if i == 1 {
            assert(crate::keys::lex_lt(es[1].0, es[2].0));
        } else {
            assert(crate::keys::lex_lt(es[2].0, es[3].0));
        }
    }
}

/// The canonical entry list of a node may be handed to the store.
proof fn lemma_node_entries_writable(
    title: Seq<char>,
    id: Seq<char>,
    description: Seq<char>,
    children: Seq<ItemModel>,
)
    requires
        children.len() < POSITION_LIMIT,
        scalar_oid(title).len() == 20,
        scalar_oid(id).len() == 20,
        scalar_oid(description).len() == 20,
        blob_oid(node_marker()).len() == 20,
        forall|i: int| 0 <= i < children.len() ==> item_oid(#[trigger] children[i]).len() == 20,
    ensures
        writable_entries(node_entries(title, id, description, children)),
{
    let ce = child_entries(children);
    let tail = seq![
        (description_name(), scalar_oid(description), FILE_MODE),
        (id_name(), scalar_oid(id), FILE_MODE),
        (kind_name(), blob_oid(node_marker()), FILE_MODE),
        (title_name(), scalar_oid(title), FILE_MODE),
    ];
    let es = node_entries(title, id, description, children);
    let cl = children.len() as int;
    lemma_reserved_name_bytes();
    lemma_child_entries(children);
    crate::keys::lemma_pow10_key_width();
    assert(es == ce + tail);
    assert(es.len() == cl + 4);
    assert forall|i: int| 0 <= i < es.len() implies #[trigger] es[i] == if i < cl {
        ce[i]
    } else {
        tail[i - cl]
    } by {
        assert((ce + tail)[i] == if i < cl {
            ce[i]
        } else {
            tail[i - cl]
        });
    }
    assert forall|i: int| 0 <= i < es.len() implies {
        &&& (#[trigger] es[i]).0.len() > 0
        &&& (forall|j: int| 0 <= j < es[i].0.len() ==> 48 <= #[trigger] es[i].0[j] <= 122)
        &&& (es[i].2 == FILE_MODE || es[i].2 == TREE_MODE)
        &&& es[i].1.len() == 20
    } by {
        if i < cl {
            assert(child_entries(children)[i] == (
                position_key(i as nat),
                item_oid(children[i]),
                TREE_MODE,
            ));
            assert(es[i] == ce[i]);
            assert(es[i].0 == position_key(i as nat));
            crate::keys::lemma_position_key_valid(i as nat, 10);
            assert forall|j: int| 0 <= j < es[i].0.len() implies 48 <= #[trigger] es[i].0[j]
                <= 122 by {
                assert(48 <= position_key(i as nat)[j] <= 57);
            }
        }
    }
    assert forall|i: int| 0 <= i && i + 1 < es.len() implies crate::keys::lex_lt(
        es[i].0,
        (#[trigger] es[i + 1]).0,
    ) by {
        if i + 1 < cl {
            assert(child_entries(children)[i] == (
                position_key(i as nat),
                item_oid(children[i]),
                TREE_MODE,
            ));
            assert(child_entries(children)[i + 1] == (
                position_key((i + 1) as nat),
                item_oid(children[i + 1]),
                TREE_MODE,
            ));
            assert(es[i] == ce[i] && es[i + 1] == ce[i + 1]);
            assert(es[i].0 == position_key(i as nat));
            assert(es[i + 1].0 == position_key((i + 1) as nat));
            crate::keys::lemma_position_key_order(i as nat, (i + 1) as nat, 10);
        } else if i < cl {
            assert(child_entries(children)[i] == (
                position_key(i as nat),
                item_oid(children[i]),
                TREE_MODE,
            ));
            assert(es[i] == ce[i]);
            assert(es[i].0 == position_key(i as nat));
            assert(es[i + 1] == tail[i + 1 - cl]);
            assert(es[i + 1].0 == description_name());
            crate::keys::lemma_position_key_valid(i as nat, 10);
            assert(48 <= es[i].0[0] <= 57);
            crate::keys::lemma_lex_first_byte(es[i].0, es[i + 1].0);
        } else {
            assert(es[cl].0 == description_name());
            assert(es[cl + 1].0 == id_name());
            assert(es[cl + 2].0 == kind_name());
            assert(es[cl + 3].0 == title_name());
            crate::keys::lemma_lex_first_byte(es[i].0, es[i + 1].0);
        }
    }
}

/// Lowers a document tree into the store: post-order, every child fully
/// persisted before the tree that references it, so no stored tree ever
/// points at a missing object. Returns the identity of the tree representing
/// `item` — a function of the document value alone, so encoding the same
/// value twice yields the same identity, and re-encoding anything already
/// stored leaves the store unchanged (duplicate-write elision).
#[verifier::rlimit(60)]
#[verifier::loop_isolation(false)]
pub fn encode(store: &mut Store, item: &TreeItem) -> (r: Result<ObjectId, LexError>)
    requires
        fan_out_ok(item_model(*item)),
    ensures
        store_extends(store_objects(*old(store)), store_objects(*final(store))),
        r matches Ok(id) ==> {
            &&& id@ == item_oid(item_model(*item))
            &&& id@.len() == 20
            &&& encodes(store_objects(*final(store)), item_model(*item))
        },
        r matches Err(e) ==> e == LexError::StoreWrite,
        encodes(store_objects(*old(store)), item_model(*item)) ==> store_objects(*final(store))
            == store_objects(*old(store)),
    decreases *item,
{
    let ghost orig = store_objects(*store);
    proof {
        assert(store_extends(orig, orig));
    }
    let ghost m = item_model(*item);
    match item {
        TreeItem::Leaf(l) => {
            let content_id = match write_scalar(store, l.content.as_str()) {
                Ok(v) => v,
                Err(e) => return Err(e),
            };
            let ghost objs1 = store_objects(*store);
            let id_id = match write_scalar(store, l.id.as_str()) {
                Ok(v) => v,
                Err(e) => {
                    proof {
                        lemma_extends_trans(orig, objs1, store_objects(*store));
                    }
                    return Err(e);
                },
            };
            let ghost objs2 = store_objects(*store);
            let marker = leaf_marker_bytes();
            let kind_id = match write_marker(store, &marker) {
                Ok(v) => v,
                Err(e) => {
                    proof {
                        lemma_extends_trans(orig, objs1, objs2);
                        lemma_extends_trans(orig, objs2, store_objects(*store));
                    }
                    return Err(e);
                },
            };
            let ghost objs3 = store_objects(*store);
            let title_id = match write_scalar(store, l.title.as_str()) {
                Ok(v) => v,
                Err(e) => {
                    proof {
                        lemma_extends_trans(orig, objs1, objs2);
                        lemma_extends_trans(orig, objs2, objs3);
                        lemma_extends_trans(orig, objs3, store_objects(*store));
                    }
                    return Err(e);
                },
            };
            let ghost objs4 = store_objects(*store);
            proof {
                lemma_extends_trans(orig, objs1, objs2);
                lemma_extends_trans(orig, objs2, objs3);
                lemma_extends_trans(orig, objs3, objs4);
                lemma_extends_trans(objs1, objs2, objs3);
                lemma_extends_trans(objs1, objs3, objs4);
                lemma_extends_trans(objs2, objs3, objs4);
            }
            let mut entries: Vec<TreeEntry> = Vec::new();
            entries.push(TreeEntry { name: content_bytes(), id: content_id, mode: FILE_MODE });
            entries.push(TreeEntry { name: id_bytes(), id: id_id, mode: FILE_MODE });
            entries.push(TreeEntry { name: kind_bytes(), id: kind_id, mode: FILE_MODE });
            entries.push(TreeEntry { name: title_bytes(), id: title_id, mode: FILE_MODE });
            proof {
                assert(entry_models(entries@) =~= leaf_entries(l.title@, l.id@, l.content@));
                lemma_leaf_entries_writable(l.title@, l.id@, l.content@);
            }
            let tree_id = match store.write_tree(&entries) {
                Ok(v) => v,
                Err(e) => {
                    proof {
                        lemma_extends_trans(orig, objs4, store_objects(*store));
                    }
                    return Err(e);
                },
            };
            proof {
                let objs5 = store_objects(*store);
                lemma_extends_trans(orig, objs4, objs5);
                lemma_extends_trans(objs1, objs4, objs5);
                lemma_extends_trans(objs2, objs4, objs5);
                lemma_extends_trans(objs3, objs4, objs5);
                assert(item_entries(m) == leaf_entries(l.title@, l.id@, l.content@));
                assert(objs5.contains_pair(
                    scalar_oid(l.content@),
                    StoreObject::Blob(encode_utf8(l.content@)),
                ));
                assert(objs5.contains_pair(
                    scalar_oid(l.id@),
                    StoreObject::Blob(encode_utf8(l.id@)),
                ));
                assert(objs5.contains_pair(
                    blob_oid(leaf_marker()),
                    StoreObject::Blob(leaf_marker()),
                ));
                assert(objs5.contains_pair(
                    scalar_oid(l.title@),
                    StoreObject::Blob(encode_utf8(l.title@)),
                ));
                assert(encodes(objs5, m));
                if encodes(orig, m) {
                    assert(objs1 =~= orig);
                    assert(objs2 =~= orig);
                    assert(objs3 =~= orig);
                    assert(objs4 =~= orig);
                    assert(objs5 =~= orig);
                }
            }
            Ok(tree_id)
        },
        TreeItem::Node(n) => {
            let ghost cm = items_model(n.children@);
            proof {
                lemma_items_model(n.children@);
                assert(m == ItemModel::Node {
                    title: n.title@,
                    id: n.id@,
                    description: n.description@,
                    children: cm,
                });
            }
            let mut entries: Vec<TreeEntry> = Vec::new();
            let mut k: usize = 0;
            while k < n.children.len()
                invariant
                    0 <= k <= n.children@.len(),
                    cm == items_model(n.children@),
                    cm.len() == n.children@.len(),
                    forall|i: int|
                        0 <= i < cm.len() ==> item_model(#[trigger] n.children@[i]) == cm[i],
                    m == item_model(*item),
                    m == (ItemModel::Node {
                        title: n.title@,
                        id: n.id@,
                        description: n.description@,
                        children: cm,
                    }),
                    cm.len() < POSITION_LIMIT,
                    forall|i: int| 0 <= i < cm.len() ==> fan_out_ok(#[trigger] cm[i]),
                    store_extends(orig, store_objects(*store)),
                    forall|i: int| 0 <= i < k ==> encodes(store_objects(*store), #[trigger] cm[i]),
                    entries@.len() == k,
                    entry_models(entries@) == child_entries(cm.take(k as int)),
                    forall|i: int| 0 <= i < k ==> (#[trigger] entries@[i]).id@.len() == 20,
                    encodes(orig, m) ==> store_objects(*store) == orig,
                decreases n.children@.len() - k,
            {
                let ghost before = store_objects(*store);
                proof {
                    let nn = item->Node_0;
                    assert(decreases_to!(*item => nn));
                    assert(decreases_to!(nn => nn.children));
                    assert(decreases_to!(nn.children => nn.children@));
                    assert(decreases_to!(nn.children@ => nn.children@[k as int]));
                    assert(nn.children@[k as int] == n.children@[k as int]);
                }
                let cid = match encode(store, &n.children[k]) {
                    Ok(v) => v,
                    Err(e) => {
                        proof {
                            lemma_extends_trans(orig, before, store_objects(*store));
                        }
                        return Err(e);
                    },
                };
                proof {
                    let now = store_objects(*store);
                    lemma_extends_trans(orig, before, now);
                    assert forall|i: int| 0 <= i < k implies encodes(
                        now,
                        #[trigger] cm[i],
                    ) by {
                        lemma_encodes_monotone(before, now, cm[i]);
                    }
                }
                let key = encode_position(k as u64);
                entries.push(TreeEntry { name: key, id: cid, mode: TREE_MODE });
                proof {
                    assert(cm.take(k as int + 1).drop_last() =~= cm.take(k as int));
                    assert(cm.take(k as int + 1).last() == cm[k as int]);
                    assert(entry_models(entries@) =~= child_entries(cm.take(k as int + 1)));
                }
                k = k + 1;
            }
            proof {
                assert(cm.take(cm.len() as int) =~= cm);
            }
            let ghost objs_c = store_objects(*store);
            let description_id = match write_scalar(store, n.description.as_str()) {
                Ok(v) => v,
                Err(e) => {
                    proof {
                        lemma_extends_trans(orig, objs_c, store_objects(*store));
                    }
                    return Err(e);
                },
            };
            let ghost objs1 = store_objects(*store);
            let id_id = match write_scalar(store, n.id.as_str()) {
                Ok(v) => v,
                Err(e) => {
                    proof {
                        lemma_extends_trans(orig, objs_c, objs1);
                        lemma_extends_trans(orig, objs1, store_objects(*store));
                    }
                    return Err(e);
                },
            };
            let ghost objs2 = store_objects(*store);
            let marker = node_marker_bytes();
            let kind_id = match write_marker(store, &marker) {
                Ok(v) => v,
                Err(e) => {
                    proof {
                        lemma_extends_trans(orig, objs_c, objs1);
                        lemma_extends_trans(orig, objs1, objs2);
                        lemma_extends_trans(orig, objs2, store_objects(*store));
                    }
                    return Err(e);
                },
            };
            let ghost objs3 = store_objects(*store);
            let title_id = match write_scalar(store, n.title.as_str()) {
                Ok(v) => v,
                Err(e) => {
                    proof {
                        lemma_extends_trans(orig, objs_c, objs1);
                        lemma_extends_trans(orig, objs1, objs2);
                        lemma_extends_trans(orig, objs2, objs3);
                        lemma_extends_trans(orig, objs3, store_objects(*store));
                    }
                    return Err(e);
                },
            };
            let ghost objs4 = store_objects(*store);
            proof {
                lemma_extends_trans(orig, objs_c, objs1);
                lemma_extends_trans(orig, objs1, objs2);
                lemma_extends_trans(orig, objs2, objs3);
                lemma_extends_trans(orig, objs3, objs4);
                lemma_extends_trans(objs_c, objs1, objs2);
                lemma_extends_trans(objs_c, objs2, objs3);
                lemma_extends_trans(objs_c, objs3, objs4);
                lemma_extends_trans(objs1, objs2, objs3);
                lemma_extends_trans(objs1, objs3, objs4);
                lemma_extends_trans(objs2, objs3, objs4);
                assert forall|i: int| 0 <= i < cm.len() implies encodes(
                    objs4,
                    #[trigger] cm[i],
                ) by {
                    lemma_encodes_monotone(objs_c, objs4, cm[i]);
                }
            }
            entries.push(
                TreeEntry { name: description_bytes(), id: description_id, mode: FILE_MODE },
            );
            entries.push(TreeEntry { name: id_bytes(), id: id_id, mode: FILE_MODE });
            entries.push(TreeEntry { name: kind_bytes(), id: kind_id, mode: FILE_MODE });
            entries.push(TreeEntry { name: title_bytes(), id: title_id, mode: FILE_MODE });
            let ghost es = entry_models(entries@);
            proof {
                assert(es =~= node_entries(n.title@, n.id@, n.description@, cm));
                lemma_child_entries(cm);
                assert forall|i: int| 0 <= i < cm.len() implies item_oid(
                    #[trigger] cm[i],
                ).len() == 20 by {
                    assert(entry_models(entries@)[i] == entry_model(entries@[i]));
                    assert(es[i] == child_entries(cm)[i]);
                }
                lemma_node_entries_writable(n.title@, n.id@, n.description@, cm);
                assert(writable_entries(es));
            }
            let tree_id = match store.write_tree(&entries) {
                Ok(v) => v,
                Err(e) => {
                    proof {
                        lemma_extends_trans(orig, objs4, store_objects(*store));
                    }
                    return Err(e);
                },
            };
            proof {
                let objs5 = store_objects(*store);
                lemma_extends_trans(orig, objs4, objs5);
                lemma_extends_trans(objs1, objs4, objs5);
                lemma_extends_trans(objs2, objs4, objs5);
                lemma_extends_trans(objs3, objs4, objs5);
                assert(item_entries(m) == node_entries(n.title@, n.id@, n.description@, cm));
                assert(objs5.contains_pair(item_oid(m), StoreObject::Tree(item_entries(m))));
                assert forall|i: int| 0 <= i < cm.len() implies encodes(
                    objs5,
                    #[trigger] cm[i],
                ) by {
                    lemma_encodes_monotone(objs4, objs5, cm[i]);
                }
                assert(encodes(objs5, m));
                if encodes(orig, m) {
                    assert(objs1 =~= orig);
                    assert(objs2 =~= orig);
                    assert(objs3 =~= orig);
                    assert(objs4 =~= orig);
                    assert(objs5 =~= orig);
                }
            }
            Ok(tree_id)
        },
    }
}


/// The first entry named `name`, if any.
pub open spec fn find_entry(es: Seq<(Seq<u8>, Seq<u8>, u64)>, name: Seq<u8>) -> Option<
    (Seq<u8>, Seq<u8>, u64),
>
    decreases es.len(),
{
    if es.len() == 0 {
        None
    } else if es[0].0 == name {
        Some(es[0])
    } else {
        find_entry(es.drop_first(), name)
    }
}

/// The bytes of the blob stored under `oid`, if the store holds one there.
pub open spec fn blob_at(objs: Map<Seq<u8>, StoreObject>, oid: Seq<u8>) -> Option<Seq<u8>> {
    if objs.contains_key(oid) {
        match objs[oid] {
            StoreObject::Blob(b) => Some(b),
            StoreObject::Tree(_) => None,
        }
    } else {
        None
    }
}

/// Reads one scalar field out of a stored tree: the fixed-key entry must
/// exist as a blob entry, the blob must be present, and its bytes must be
/// valid UTF-8.
pub open spec fn scalar_spec(
    objs: Map<Seq<u8>, StoreObject>,
    es: Seq<(Seq<u8>, Seq<u8>, u64)>,
    name: Seq<u8>,
) -> Result<Seq<char>, LexError> {
    match find_entry(es, name) {
        Option::None => Err(LexError::MalformedTree),
        Option::Some(e) => if e.2 != FILE_MODE {
            Err(LexError::MalformedTree)
        } else {
            match blob_at(objs, e.1) {
                Option::None => Err(LexError::StoreRead),
                Option::Some(b) => if valid_utf8(b) {
                    Ok(decode_utf8(b))
                } else {
                    Err(LexError::MalformedTree)
                },
            }
        },
    }
}

/// Collects the child entries of a stored node tree: every non-reserved
/// entry must carry a valid position key and subtree mode bits; yields the
/// (position, identity) pairs in stored order.
pub open spec fn collect_children(es: Seq<(Seq<u8>, Seq<u8>, u64)>) -> Result<
    Seq<(u64, Seq<u8>)>,
    LexError,
>
    decreases es.len(),
{
    if es.len() == 0 {
        Ok(Seq::empty())
    } else {
        match collect_children(es.drop_last()) {
            Err(e) => Err(e),
            Ok(rest) => {
                let e = es.last();
                if is_reserved_name(e.0) {
                    Ok(rest)
                } else if !valid_position_key(e.0) {
                    Err(LexError::MalformedTree)
                } else if e.2 != TREE_MODE {
                    Err(LexError::MalformedTree)
                } else {
                    Ok(rest.push((key_value(e.0) as u64, e.1)))
                }
            },
        }
    }
}

/// Inserts `p` into `s` before the first pair with a strictly greater
/// position, keeping pairs with equal positions in their given order.
pub open spec fn insert_pair(s: Seq<(u64, Seq<u8>)>, p: (u64, Seq<u8>)) -> Seq<(u64, Seq<u8>)>
    decreases s.len(),
{
    if s.len() == 0 {
        seq![p]
    } else if p.0 < s[0].0 {
        seq![p] + s
    } else {
        seq![s[0]] + insert_pair(s.drop_first(), p)
    }
}

/// Sorts child pairs by position, ascending: the explicit re-sort decoding
/// performs so child order never depends on store iteration order.
pub open spec fn sort_pairs(s: Seq<(u64, Seq<u8>)>) -> Seq<(u64, Seq<u8>)>
    decreases s.len(),
{
    if s.len() == 0 {
        Seq::empty()
    } else {
        insert_pair(sort_pairs(s.drop_last()), s.last())
    }
}

/// Two adjacent pairs share a position: two children claim the same slot.
pub open spec fn dup_adjacent(s: Seq<(u64, Seq<u8>)>) -> bool {
    exists|i: int| 0 <= i && i + 1 < s.len() && (#[trigger] s[i]).0 == s[i + 1].0
}

/// Decodes the sorted child pairs in order, each under a depth budget one
/// smaller than the parent's.
pub open spec fn decode_children_spec(
    objs: Map<Seq<u8>, StoreObject>,
    pairs: Seq<(u64, Seq<u8>)>,
    depth: nat,
) -> Result<Seq<ItemModel>, LexError>
    decreases depth, 0nat, pairs.len(),
{
    if depth == 0 {
        Err(LexError::DepthExceeded)
    } else if pairs.len() == 0 {
        Ok(Seq::empty())
    } else {
        match decode_children_spec(objs, pairs.drop_last(), depth) {
            Err(e) => Err(e),
            Ok(ms) => match decode_spec(objs, pairs.last().1, (depth - 1) as nat) {
                Err(e) => Err(e),
                Ok(m) => Ok(ms.push(m)),
            },
        }
    }
}

/// What decoding the object under `oid` yields, as a function of the store's
/// contents: the fully reconstructed element, or the exact error. `depth` is
/// the caller's recursion ceiling.
pub open spec fn decode_spec(objs: Map<Seq<u8>, StoreObject>, oid: Seq<u8>, depth: nat) -> Result<
    ItemModel,
    LexError,
>
    decreases depth, 2nat, 0nat,
{
    if depth == 0 {
        Err(LexError::DepthExceeded)
    } else if !objs.contains_key(oid) {
        Err(LexError::StoreRead)
    } else {
        match objs[oid] {
            StoreObject::Blob(_) => Err(LexError::StoreRead),
            StoreObject::Tree(es) => match find_entry(es, kind_name()) {
                Option::None => Err(LexError::MalformedTree),
                Option::Some(ke) => if ke.2 != FILE_MODE {
                    Err(LexError::MalformedTree)
                } else {
                    match blob_at(objs, ke.1) {
                        Option::None => Err(LexError::StoreRead),
                        Option::Some(marker) => if marker == leaf_marker() {
                            decode_leaf_spec(objs, es)
                        } else if marker == node_marker() {
                            decode_node_spec(objs, es, depth)
                        } else {
                            Err(LexError::MalformedTree)
                        },
                    }
                },
            },
        }
    }
}

/// Decodes the scalar fields of a stored leaf tree.
pub open spec fn decode_leaf_spec(
    objs: Map<Seq<u8>, StoreObject>,
    es: Seq<(Seq<u8>, Seq<u8>, u64)>,
) -> Result<ItemModel, LexError> {
    match scalar_spec(objs, es, title_name()) {
        Err(e) => Err(e),
        Ok(title) => match scalar_spec(objs, es, id_name()) {
            Err(e) => Err(e),
            Ok(id) => match scalar_spec(objs, es, content_name()) {
                Err(e) => Err(e),
                Ok(content) => Ok(ItemModel::Leaf { title, id, content }),
            },
        },
    }
}

/// Decodes the scalar fields and, recursively, the children of a stored
/// node tree.
pub open spec fn decode_node_spec(
    objs: Map<Seq<u8>, StoreObject>,
    es: Seq<(Seq<u8>, Seq<u8>, u64)>,
    depth: nat,
) -> Result<ItemModel, LexError>
    decreases depth, 1nat, 0nat,
{
    match scalar_spec(objs, es, title_name()) {
        Err(e) => Err(e),
        Ok(title) => match scalar_spec(objs, es, id_name()) {
            Err(e) => Err(e),
            Ok(id) => match scalar_spec(objs, es, description_name()) {
                Err(e) => Err(e),
                Ok(description) => match collect_children(es) {
                    Err(e) => Err(e),
                    Ok(raw) => {
                        let sorted = sort_pairs(raw);
                        if dup_adjacent(sorted) {
                            Err(LexError::MalformedTree)
                        } else {
                            match decode_children_spec(objs, sorted, depth) {
                                Err(e) => Err(e),
                                Ok(children) => Ok(
                                    ItemModel::Node { title, id, description, children },
                                ),
                            }
                        }
                    },
                },
            },
        },
    }
}


/// The mathematical values of collected (position, identity) pairs.
pub open spec fn pair_models(s: Seq<(u64, ObjectId)>) -> Seq<(u64, Seq<u8>)> {
    s.map_values(|p: (u64, ObjectId)| (p.0, p.1@))
}

/// Relies on `String::from_utf8`: succeeds exactly on valid UTF-8, yielding
/// the character sequence those bytes encode.
#[verifier::external_body]
fn bytes_to_string(data: Vec<u8>) -> (r: Option<String>)
    ensures
        r matches Some(s) ==> valid_utf8(data@) && s@ == decode_utf8(data@),
        r is None ==> !valid_utf8(data@),
{
    String::from_utf8(data).ok()
}

/// Whether two byte strings are equal.
fn bytes_equal(a: &Vec<u8>, b: &Vec<u8>) -> (r: bool)
    ensures
        r == (a@ == b@),
{
    if a.len() != b.len() {
        proof {
            assert(a@ != b@);
        }
        return false;
    }
    let mut k: usize = 0;
    while k < a.len()
        invariant
            0 <= k <= a@.len(),
            a@.len() == b@.len(),
            forall|j: int| 0 <= j < k ==> a@[j] == b@[j],
        decreases a@.len() - k,
    {
        if a[k] != b[k] {
            proof {
                assert(a@[k as int] != b@[k as int]);
            }
            return false;
        }
        k = k + 1;
    }
    proof {
        assert(a@ =~= b@);
    }
    true
}

/// Finds the first entry with the given name, as `find_entry` does.
fn find_entry_index(entries: &Vec<TreeEntry>, name: &Vec<u8>) -> (r: Option<usize>)
    ensures
        match r {
            Option::Some(i) => i < entries@.len() && find_entry(entry_models(entries@), name@)
                == Some(entry_model(entries@[i as int])),
            Option::None => find_entry(entry_models(entries@), name@) is None,
        },
{
    let ghost es = entry_models(entries@);
    proof {
        assert(es.skip(0) =~= es);
    }
    let mut k: usize = 0;
    while k < entries.len()
        invariant
            0 <= k <= entries@.len(),
            es == entry_models(entries@),
            es.len() == entries@.len(),
            find_entry(es, name@) == find_entry(es.skip(k as int), name@),
        decreases entries@.len() - k,
    {
        if bytes_equal(&entries[k].name, name) {
            proof {
                assert(es.skip(k as int)[0] == es[k as int]);
            }
            return Some(k);
        }
        proof {
            assert(es.skip(k as int)[0] == es[k as int]);
            assert(es.skip(k as int).drop_first() =~= es.skip(k as int + 1));
        }
        k = k + 1;
    }
    proof {
        assert(es.skip(es.len() as int).len() == 0);
    }
    None
}

/// Reads one scalar field of a stored tree, as `scalar_spec` prescribes.
fn read_scalar(store: &Store, entries: &Vec<TreeEntry>, name: &Vec<u8>) -> (r: Result<
    String,
    LexError,
>)
    ensures
        match r {
            Ok(s) => scalar_spec(store_objects(*store), entry_models(entries@), name@) matches Ok(
                c,
            ) && c == s@,
            Err(e) => e == LexError::StoreRead || (scalar_spec(
                store_objects(*store),
                entry_models(entries@),
                name@,
            ) matches Err(e2) && e2 == e),
        },
{
    let idx = match find_entry_index(entries, name) {
        Option::Some(i) => i,
        Option::None => {
            return Err(LexError::MalformedTree);
        },
    };
    if entries[idx].mode != FILE_MODE {
        return Err(LexError::MalformedTree);
    }
    let bytes = match store.read_blob(&entries[idx].id) {
        Ok(b) => b,
        Err(e) => {
            return Err(e);
        },
    };
    match bytes_to_string(bytes) {
        Option::Some(s) => Ok(s),
        Option::None => Err(LexError::MalformedTree),
    }
}

/// `insert_pair` puts `p` exactly at the first index whose position exceeds
/// `p`'s.
proof fn lemma_insert_pair_at(s: Seq<(u64, Seq<u8>)>, p: (u64, Seq<u8>), j: int)
    requires
        0 <= j <= s.len(),
        forall|t: int| 0 <= t < j ==> (#[trigger] s[t]).0 <= p.0,
        j < s.len() ==> p.0 < s[j].0,
    ensures
        insert_pair(s, p) == s.take(j) + seq![p] + s.skip(j),
    decreases s.len(),
{
    if j == 0 {
        assert(insert_pair(s, p) =~= s.take(0) + seq![p] + s.skip(0));
    } else {
        lemma_insert_pair_at(s.drop_first(), p, j - 1);
        assert(s.drop_first().take(j - 1) =~= s.subrange(1, j));
        assert(s.drop_first().skip(j - 1) =~= s.skip(j));
        assert(insert_pair(s, p) == seq![s[0]] + insert_pair(s.drop_first(), p));
        assert(insert_pair(s, p) =~= s.take(j) + seq![p] + s.skip(j));
    }
}

/// Sorts collected child pairs by position, ascending, as `sort_pairs`
/// prescribes: the decoder's explicit re-sort.
fn sort_child_pairs(pairs: &Vec<(u64, ObjectId)>) -> (r: Vec<(u64, ObjectId)>)
    ensures
        pair_models(r@) == sort_pairs(pair_models(pairs@)),
{
    let mut out: Vec<(u64, ObjectId)> = Vec::new();
    let mut k: usize = 0;
    while k < pairs.len()
        invariant
            0 <= k <= pairs@.len(),
            pair_models(out@) == sort_pairs(pair_models(pairs@.take(k as int))),
            out@.len() == k,
        decreases pairs@.len() - k,
    {
        let p0 = pairs[k].0;
        let pid = pairs[k].1.duplicate();
        let mut j: usize = 0;
        while j < out.len() && out[j].0 <= p0
            invariant
                0 <= j <= out@.len(),
                forall|t: int| 0 <= t < j ==> (#[trigger] pair_models(out@)[t]).0 <= p0,
            decreases out@.len() - j,
        {
            proof {
                assert(pair_models(out@)[j as int].0 == out@[j as int].0);
            }
            j = j + 1;
        }
        let ghost so = pair_models(out@);
        proof {
            if (j as int) < so.len() {
                assert(so[j as int].0 == out@[j as int].0);
            }
            lemma_insert_pair_at(so, (p0, pid@), j as int);
        }
        out.insert(j, (p0, pid));
        proof {
            assert(pair_models(out@) =~= so.take(j as int) + seq![(p0, pid@)] + so.skip(
                j as int,
            ));
            assert(pair_models(pairs@.take(k as int + 1)).drop_last() =~= pair_models(
                pairs@.take(k as int),
            ));
            assert(pair_models(pairs@.take(k as int + 1)).last() == (p0, pid@));
            assert(pair_models(out@) == sort_pairs(pair_models(pairs@.take(k as int + 1))));
        }
        k = k + 1;
    }
    proof {
        assert(pairs@.take(pairs@.len() as int) =~= pairs@);
    }
    out
}

/// Once a prefix of the entry list fails to collect, the whole list fails
/// the same way.
proof fn lemma_collect_err_extend(es: Seq<(Seq<u8>, Seq<u8>, u64)>, k: int)
    requires
        0 <= k <= es.len(),
        collect_children(es.take(k)) is Err,
    ensures
        collect_children(es) == collect_children(es.take(k)),
    decreases es.len() - k,
{
    if k == es.len() {
        assert(es.take(k) =~= es);
    } else {
        assert(es.take(k + 1).drop_last() =~= es.take(k));
        lemma_collect_err_extend(es, k + 1);
    }
}

/// Once a prefix of the child pairs fails to decode, the whole list fails
/// the same way.
proof fn lemma_decode_children_err_extend(
    objs: Map<Seq<u8>, StoreObject>,
    pairs: Seq<(u64, Seq<u8>)>,
    k: int,
    depth: nat,
)
    requires
        depth > 0,
        0 < k <= pairs.len(),
        decode_children_spec(objs, pairs.take(k), depth) is Err,
    ensures
        decode_children_spec(objs, pairs, depth) == decode_children_spec(objs, pairs.take(k), depth),
    decreases pairs.len() - k,
{
    if k == pairs.len() {
        assert(pairs.take(k) =~= pairs);
    } else {
        assert(pairs.take(k + 1).drop_last() =~= pairs.take(k));
        lemma_decode_children_err_extend(objs, pairs, k + 1, depth);
    }
}

/// Lifts a persisted tree identity back into an in-memory document tree:
/// the inverse of `encode`, pure with respect to the store. `depth` bounds
/// the recursion so that decoding a corrupt, deeply nested store cannot
/// exhaust the stack. The result is exactly what `decode_spec` prescribes
/// for the store's contents, except that an underlying read may fail with
/// `StoreRead` at any point.
#[verifier::rlimit(80)]
#[verifier::loop_isolation(false)]
pub fn decode(store: &Store, id: &ObjectId, depth: u64) -> (r: Result<TreeItem, LexError>)
    ensures
        match r {
            Ok(item) => decode_spec(store_objects(*store), id@, depth as nat) matches Ok(m) && m
                == item_model(item),
            Err(e) => e == LexError::StoreRead || (decode_spec(
                store_objects(*store),
                id@,
                depth as nat,
            ) matches Err(e2) && e2 == e),
        },
    decreases depth,
{
    let ghost objs = store_objects(*store);
    if depth == 0 {
        return Err(LexError::DepthExceeded);
    }
    let entries = match store.read_tree(id) {
        Ok(v) => v,
        Err(e) => {
            return Err(e);
        },
    };
    let ghost es = entry_models(entries@);
    let kind_nm = kind_bytes();
    let kidx = match find_entry_index(&entries, &kind_nm) {
        Option::Some(i) => i,
        Option::None => {
            return Err(LexError::MalformedTree);
        },
    };
    if entries[kidx].mode != FILE_MODE {
        return Err(LexError::MalformedTree);
    }
    let marker = match store.read_blob(&entries[kidx].id) {
        Ok(b) => b,
        Err(e) => {
            return Err(e);
        },
    };
    let leaf_m = leaf_marker_bytes();
    let node_m = node_marker_bytes();
    let title_nm = title_bytes();
    let id_nm = id_bytes();
    if bytes_equal(&marker, &leaf_m) {
        let title = match read_scalar(store, &entries, &title_nm) {
            Ok(s) => s,
            Err(e) => {
                return Err(e);
            },
        };
        let id_field = match read_scalar(store, &entries, &id_nm) {
            Ok(s) => s,
            Err(e) => {
                return Err(e);
            },
        };
        let content_nm = content_bytes();
        let content = match read_scalar(store, &entries, &content_nm) {
            Ok(s) => s,
            Err(e) => {
                return Err(e);
            },
        };
        return Ok(TreeItem::Leaf(Leaf { title, id: id_field, content }));
    }
    if !bytes_equal(&marker, &node_m) {
        return Err(LexError::MalformedTree);
    }
    let title = match read_scalar(store, &entries, &title_nm) {
        Ok(s) => s,
        Err(e) => {
            return Err(e);
        },
    };
    let id_field = match read_scalar(store, &entries, &id_nm) {
        Ok(s) => s,
        Err(e) => {
            return Err(e);
        },
    };
    let description_nm = description_bytes();
    let description = match read_scalar(store, &entries, &description_nm) {
        Ok(s) => s,
        Err(e) => {
            return Err(e);
        },
    };
    let content_nm = content_bytes();
    let mut raw: Vec<(u64, ObjectId)> = Vec::new();
    let mut k: usize = 0;
    while k < entries.len()
        invariant
            0 <= k <= entries@.len(),
            collect_children(es.take(k as int)) matches Ok(ps) && ps == pair_models(raw@),
        decreases entries@.len() - k,
    {
        proof {
            assert(es.take(k as int + 1).drop_last() =~= es.take(k as int));
            assert(es.take(k as int + 1).last() == es[k as int]);
            assert(es[k as int] == entry_model(entries@[k as int]));
        }
        let reserved = bytes_equal(&entries[k].name, &kind_nm) || bytes_equal(
            &entries[k].name,
            &title_nm,
        ) || bytes_equal(&entries[k].name, &id_nm) || bytes_equal(&entries[k].name, &description_nm)
            || bytes_equal(&entries[k].name, &content_nm);
        if !reserved {
            let pos = match decode_position(&entries[k].name) {
                Option::Some(v) => v,
                Option::None => {
                    proof {
                        lemma_collect_err_extend(es, k as int + 1);
                    }
                    return Err(LexError::MalformedTree);
                },
            };
            if entries[k].mode != TREE_MODE {
                proof {
                    lemma_collect_err_extend(es, k as int + 1);
                }
                return Err(LexError::MalformedTree);
            }
            let cid = entries[k].id.duplicate();
            raw.push((pos, cid));
            proof {
                crate::keys::lemma_key_value_bound(es[k as int].0);
                crate::keys::lemma_pow10_key_width();
                assert(pair_models(raw@).drop_last() =~= pair_models(raw@.drop_last()));
                assert(pair_models(raw@) =~= pair_models(raw@.drop_last()).push(
                    (pos, cid@),
                ));
            }
        }
        k = k + 1;
    }
    proof {
        assert(es.take(es.len() as int) =~= es);
    }
    let sorted = sort_child_pairs(&raw);
    let ghost sp = sort_pairs(pair_models(raw@));
    if sorted.len() > 0 {
        let mut k2: usize = 0;
        while k2 < sorted.len() - 1
            invariant
                sorted@.len() > 0,
                sp.len() == sorted@.len(),
                0 <= k2 <= sp.len() - 1,
                forall|t: int| 0 <= t < k2 ==> (#[trigger] sp[t]).0 != sp[t + 1].0,
            decreases sorted@.len() - k2,
        {
            if sorted[k2].0 == sorted[k2 + 1].0 {
                proof {
                    assert(sp[k2 as int].0 == sorted@[k2 as int].0);
                    assert(sp[k2 as int + 1].0 == sorted@[k2 as int + 1].0);
                    assert(dup_adjacent(sp));
                }
                return Err(LexError::MalformedTree);
            }
            proof {
                assert(sp[k2 as int].0 == sorted@[k2 as int].0);
                assert(sp[k2 as int + 1].0 == sorted@[k2 as int + 1].0);
            }
            k2 = k2 + 1;
        }
    }
    proof {
        assert(!dup_adjacent(sp));
    }
    let mut children: Vec<TreeItem> = Vec::new();
    let mut k3: usize = 0;
    while k3 < sorted.len()
        invariant
            0 <= k3 <= sorted@.len(),
            children@.len() == k3,
            decode_children_spec(objs, sp.take(k3 as int), depth as nat) matches Ok(ms) && ms
                == items_model(children@),
        decreases sorted@.len() - k3,
    {
        proof {
            assert(sp.take(k3 as int + 1).drop_last() =~= sp.take(k3 as int));
            assert(sp.take(k3 as int + 1).last() == sp[k3 as int]);
            assert(sp[k3 as int] == (sorted@[k3 as int].0, sorted@[k3 as int].1@));
        }
        let child = match decode(store, &sorted[k3].1, depth - 1) {
            Ok(c) => c,
            Err(e) => {
                proof {
                    if e != LexError::StoreRead {
                        lemma_decode_children_err_extend(objs, sp, k3 as int + 1, depth as nat);
                    }
                }
                return Err(e);
            },
        };
        let ghost oldc = children@;
        children.push(child);
        proof {
            assert(children@.drop_last() =~= oldc);
            assert(children@.last() == child);
            assert(items_model(children@) == items_model(oldc).push(item_model(child)));
        }
        k3 = k3 + 1;
    }
    proof {
        assert(sp.take(sp.len() as int) =~= sp);
    }
    Ok(TreeItem::Node(Node { title, id: id_field, description, children }))
}


/// A valid position key is never a reserved name: keys start with a digit,
/// reserved names with a letter.
proof fn lemma_position_key_not_reserved(s: Seq<u8>)
    requires
        valid_position_key(s),
    ensures
        !is_reserved_name(s),
{
    lemma_reserved_name_bytes();
    assert(48 <= s[0] <= 57);
}

/// `find_entry` skips a prefix none of whose names match.
proof fn lemma_find_skip(
    a: Seq<(Seq<u8>, Seq<u8>, u64)>,
    b: Seq<(Seq<u8>, Seq<u8>, u64)>,
    name: Seq<u8>,
)
    requires
        forall|i: int| 0 <= i < a.len() ==> (#[trigger] a[i]).0 != name,
    ensures
        find_entry(a + b, name) == find_entry(b, name),
    decreases a.len(),
{
    if a.len() == 0 {
        assert(a + b =~= b);
    } else {
        assert((a + b)[0] == a[0]);
        assert((a + b).drop_first() =~= a.drop_first() + b);
        lemma_find_skip(a.drop_first(), b, name);
    }
}

/// The fixed-key entries of a canonical leaf tree are found where expected.
proof fn lemma_find_leaf_entries(t: Seq<char>, i: Seq<char>, c: Seq<char>)
    ensures
        find_entry(leaf_entries(t, i, c), kind_name()) == Some(
            (kind_name(), blob_oid(leaf_marker()), FILE_MODE),
        ),
        find_entry(leaf_entries(t, i, c), title_name()) == Some(
            (title_name(), scalar_oid(t), FILE_MODE),
        ),
        find_entry(leaf_entries(t, i, c), id_name()) == Some(
            (id_name(), scalar_oid(i), FILE_MODE),
        ),
        find_entry(leaf_entries(t, i, c), content_name()) == Some(
            (content_name(), scalar_oid(c), FILE_MODE),
        ),
{
    reveal_with_fuel(find_entry, 6);
    lemma_reserved_name_bytes();
    let es = leaf_entries(t, i, c);
    assert(es.drop_first() =~= seq![
        (id_name(), scalar_oid(i), FILE_MODE),
        (kind_name(), blob_oid(leaf_marker()), FILE_MODE),
        (title_name(), scalar_oid(t), FILE_MODE),
    ]);
    assert(es.drop_first().drop_first() =~= seq![
        (kind_name(), blob_oid(leaf_marker()), FILE_MODE),
        (title_name(), scalar_oid(t), FILE_MODE),
    ]);
    assert(es.drop_first().drop_first().drop_first() =~= seq![
        (title_name(), scalar_oid(t), FILE_MODE),
    ]);
}

/// The fixed-key entries of a canonical node tree are found where expected:
/// the position-keyed prefix never collides with a reserved name.
proof fn lemma_find_node_entries(
    t: Seq<char>,
    i: Seq<char>,
    d: Seq<char>,
    children: Seq<ItemModel>,
)
    requires
        children.len() < POSITION_LIMIT,
    ensures
        find_entry(node_entries(t, i, d, children), kind_name()) == Some(
            (kind_name(), blob_oid(node_marker()), FILE_MODE),
        ),
        find_entry(node_entries(t, i, d, children), title_name()) == Some(
            (title_name(), scalar_oid(t), FILE_MODE),
        ),
        find_entry(node_entries(t, i, d, children), id_name()) == Some(
            (id_name(), scalar_oid(i), FILE_MODE),
        ),
        find_entry(node_entries(t, i, d, children), description_name()) == Some(
            (description_name(), scalar_oid(d), FILE_MODE),
        ),
{
    reveal_with_fuel(find_entry, 6);
    lemma_reserved_name_bytes();
    let ce = child_entries(children);
    let tail = seq![
        (description_name(), scalar_oid(d), FILE_MODE),
        (id_name(), scalar_oid(i), FILE_MODE),
        (kind_name(), blob_oid(node_marker()), FILE_MODE),
        (title_name(), scalar_oid(t), FILE_MODE),
    ];
    lemma_child_entries(children);
    assert forall|j: int| 0 <= j < ce.len() implies (#[trigger] ce[j]).0 != kind_name() && ce[j].0
        != title_name() && ce[j].0 != id_name() && ce[j].0 != description_name() by {
        crate::keys::lemma_position_key_valid(j as nat, 10);
        assert(ce[j].0 == position_key(j as nat));
        assert(48 <= ce[j].0[0] <= 57);
    }
    lemma_find_skip(ce, tail, kind_name());
    lemma_find_skip(ce, tail, title_name());
    lemma_find_skip(ce, tail, id_name());
    lemma_find_skip(ce, tail, description_name());
    assert(node_entries(t, i, d, children) == ce + tail);
    assert(tail.drop_first() =~= seq![
        (id_name(), scalar_oid(i), FILE_MODE),
        (kind_name(), blob_oid(node_marker()), FILE_MODE),
        (title_name(), scalar_oid(t), FILE_MODE),
    ]);
    assert(tail.drop_first().drop_first() =~= seq![
        (kind_name(), blob_oid(node_marker()), FILE_MODE),
        (title_name(), scalar_oid(t), FILE_MODE),
    ]);
    assert(tail.drop_first().drop_first().drop_first() =~= seq![
        (title_name(), scalar_oid(t), FILE_MODE),
    ]);
}

/// Collecting a list of valid child entries yields their (position,
/// identity) pairs in order.
proof fn lemma_collect_all_valid(a: Seq<(Seq<u8>, Seq<u8>, u64)>)
    requires
        forall|i: int|
            0 <= i < a.len() ==> valid_position_key((#[trigger] a[i]).0) && a[i].2 == TREE_MODE,
    ensures
        collect_children(a) matches Ok(ps) && ps == a.map_values(
            |e: (Seq<u8>, Seq<u8>, u64)| (key_value(e.0) as u64, e.1),
        ),
    decreases a.len(),
{
    let f = |e: (Seq<u8>, Seq<u8>, u64)| (key_value(e.0) as u64, e.1);
    if a.len() == 0 {
        assert(a.map_values(f) =~= Seq::<(u64, Seq<u8>)>::empty());
    } else {
        lemma_collect_all_valid(a.drop_last());
        lemma_position_key_not_reserved(a.last().0);
        assert(a.map_values(f) =~= a.drop_last().map_values(f).push(f(a.last())));
    }
}

/// Appending reserved entries changes nothing that collection yields.
proof fn lemma_collect_reserved_tail(
    a: Seq<(Seq<u8>, Seq<u8>, u64)>,
    b: Seq<(Seq<u8>, Seq<u8>, u64)>,
)
    requires
        collect_children(a) is Ok,
        forall|i: int| 0 <= i < b.len() ==> is_reserved_name((#[trigger] b[i]).0),
    ensures
        collect_children(a + b) == collect_children(a),
    decreases b.len(),
{
    if b.len() == 0 {
        assert(a + b =~= a);
    } else {
        assert((a + b).drop_last() =~= a + b.drop_last());
        assert((a + b).last() == b.last());
        lemma_collect_reserved_tail(a, b.drop_last());
    }
}

/// Inserting a pair greater than everything appends it.
proof fn lemma_insert_pair_end(s: Seq<(u64, Seq<u8>)>, p: (u64, Seq<u8>))
    requires
        forall|t: int| 0 <= t < s.len() ==> (#[trigger] s[t]).0 < p.0,
    ensures
        insert_pair(s, p) == s.push(p),
    decreases s.len(),
{
    if s.len() == 0 {
        assert(insert_pair(s, p) =~= s.push(p));
    } else {
        lemma_insert_pair_end(s.drop_first(), p);
        assert(insert_pair(s, p) =~= s.push(p));
    }
}

/// Sorting a strictly ascending pair list returns it unchanged.
proof fn lemma_sort_sorted(s: Seq<(u64, Seq<u8>)>)
    requires
        forall|i: int, j: int| 0 <= i < j < s.len() ==> (#[trigger] s[i]).0 < (#[trigger] s[j]).0,
    ensures
        sort_pairs(s) == s,
    decreases s.len(),
{
    if s.len() > 0 {
        lemma_sort_sorted(s.drop_last());
        lemma_insert_pair_end(s.drop_last(), s.last());
        assert(s.drop_last().push(s.last()) =~= s);
    }
}

/// When every child pair decodes to a known element, the list decodes to
/// the sequence of them.
proof fn lemma_decode_children_pointwise(
    objs: Map<Seq<u8>, StoreObject>,
    pairs: Seq<(u64, Seq<u8>)>,
    ms: Seq<ItemModel>,
    depth: nat,
)
    requires
        depth > 0,
        ms.len() == pairs.len(),
        forall|i: int|
            0 <= i < pairs.len() ==> decode_spec(objs, (#[trigger] pairs[i]).1, (depth - 1) as nat)
                == Ok::<ItemModel, LexError>(ms[i]),
    ensures
        decode_children_spec(objs, pairs, depth) == Ok::<Seq<ItemModel>, LexError>(ms),
    decreases pairs.len(),
{
    if pairs.len() > 0 {
        assert forall|i: int| 0 <= i < pairs.drop_last().len() implies decode_spec(
            objs,
            (#[trigger] pairs.drop_last()[i]).1,
            (depth - 1) as nat,
        ) == Ok::<ItemModel, LexError>(ms.drop_last()[i]) by {
            assert(pairs.drop_last()[i] == pairs[i]);
            assert(ms.drop_last()[i] == ms[i]);
        }
        lemma_decode_children_pointwise(objs, pairs.drop_last(), ms.drop_last(), depth);
        assert(pairs.drop_last().len() == ms.drop_last().len());
        assert(pairs.last() == pairs[pairs.len() - 1]);
        assert(ms.last() == ms[ms.len() - 1]);
        assert(decode_spec(objs, pairs.last().1, (depth - 1) as nat) == Ok::<
            ItemModel,
            LexError,
        >(ms.last()));
        assert(ms.drop_last().push(ms.last()) =~= ms);
    } else {
        assert(ms =~= Seq::<ItemModel>::empty());
    }
}

/// ROUND TRIP: a store that holds the encoding of a well-formed document
/// tree decodes, at that tree's identity, back to exactly that tree —
/// discriminator, scalar fields and child order all intact — under any
/// depth ceiling above the tree's height.
pub proof fn lemma_round_trip(objs: Map<Seq<u8>, StoreObject>, x: ItemModel, depth: nat)
    requires
        encodes(objs, x),
        fan_out_ok(x),
        depth > model_height(x),
    ensures
        decode_spec(objs, item_oid(x), depth) == Ok::<ItemModel, LexError>(x),
    decreases x,
{
    lemma_reserved_name_bytes();
    match x {
        ItemModel::Leaf { title, id, content } => {
            let es = leaf_entries(title, id, content);
            assert(item_entries(x) == es);
            lemma_find_leaf_entries(title, id, content);
            assert(blob_at(objs, blob_oid(leaf_marker())) == Some(leaf_marker()));
            vstd::utf8::encode_utf8_valid_utf8(title);
            vstd::utf8::encode_utf8_valid_utf8(id);
            vstd::utf8::encode_utf8_valid_utf8(content);
            vstd::utf8::encode_utf8_decode_utf8(title);
            vstd::utf8::encode_utf8_decode_utf8(id);
            vstd::utf8::encode_utf8_decode_utf8(content);
            assert(blob_at(objs, scalar_oid(title)) == Some(encode_utf8(title)));
            assert(blob_at(objs, scalar_oid(id)) == Some(encode_utf8(id)));
            assert(blob_at(objs, scalar_oid(content)) == Some(encode_utf8(content)));
            assert(scalar_spec(objs, es, title_name()) == Ok::<Seq<char>, LexError>(title));
            assert(scalar_spec(objs, es, id_name()) == Ok::<Seq<char>, LexError>(id));
            assert(scalar_spec(objs, es, content_name()) == Ok::<Seq<char>, LexError>(content));
            assert(decode_leaf_spec(objs, es) == Ok::<ItemModel, LexError>(x));
        },
        ItemModel::Node { title, id, description, children } => {
            let es = node_entries(title, id, description, children);
            assert(item_entries(x) == es);
            lemma_find_node_entries(title, id, description, children);
            assert(blob_at(objs, blob_oid(node_marker())) == Some(node_marker()));
            assert(node_marker() != leaf_marker());
            vstd::utf8::encode_utf8_valid_utf8(title);
            vstd::utf8::encode_utf8_valid_utf8(id);
            vstd::utf8::encode_utf8_valid_utf8(description);
            vstd::utf8::encode_utf8_decode_utf8(title);
            vstd::utf8::encode_utf8_decode_utf8(id);
            vstd::utf8::encode_utf8_decode_utf8(description);
            assert(scalar_spec(objs, es, title_name()) == Ok::<Seq<char>, LexError>(title));
            assert(scalar_spec(objs, es, id_name()) == Ok::<Seq<char>, LexError>(id));
            assert(scalar_spec(objs, es, description_name()) == Ok::<Seq<char>, LexError>(
                description,
            ));
            let ce = child_entries(children);
            let tail = seq![
                (description_name(), scalar_oid(description), FILE_MODE),
                (id_name(), scalar_oid(id), FILE_MODE),
                (kind_name(), blob_oid(node_marker()), FILE_MODE),
                (title_name(), scalar_oid(title), FILE_MODE),
            ];
            lemma_child_entries(children);
            crate::keys::lemma_pow10_key_width();
            assert forall|j: int| 0 <= j < ce.len() implies valid_position_key(
                (#[trigger] ce[j]).0,
            ) && ce[j].2 == TREE_MODE by {
                crate::keys::lemma_position_key_valid(j as nat, 10);
                assert(ce[j].0 == position_key(j as nat));
            }
            lemma_collect_all_valid(ce);
            assert forall|j: int| 0 <= j < tail.len() implies is_reserved_name(
                (#[trigger] tail[j]).0,
            ) by {
            }
            lemma_collect_reserved_tail(ce, tail);
            assert(es == ce + tail);
            let f = |e: (Seq<u8>, Seq<u8>, u64)| (key_value(e.0) as u64, e.1);
            let cv = ce.map_values(f);
            assert(collect_children(es) == Ok::<Seq<(u64, Seq<u8>)>, LexError>(cv));
            assert forall|j: int| 0 <= j < cv.len() implies (#[trigger] cv[j]) == (
                j as u64,
                item_oid(children[j]),
            ) by {
                assert(ce[j].0 == position_key(j as nat));
                crate::keys::lemma_position_key_roundtrip(j as nat, 10);
            }
            assert forall|i1: int, j1: int| 0 <= i1 < j1 < cv.len() implies (
            #[trigger] cv[i1]).0 < (#[trigger] cv[j1]).0 by {
            }
            lemma_sort_sorted(cv);
            assert(!dup_adjacent(cv));
            lemma_max_child_height(children);
            assert forall|j: int| 0 <= j < cv.len() implies decode_spec(
                objs,
                (#[trigger] cv[j]).1,
                (depth - 1) as nat,
            ) == Ok::<ItemModel, LexError>(children[j]) by {
                assert(encodes(objs, children[j]));
                assert(fan_out_ok(children[j]));
                if children.len() > 0 {
                    assert(model_height(children[j]) <= max_child_height(children));
                }
                lemma_round_trip(objs, children[j], (depth - 1) as nat);
            }
            lemma_decode_children_pointwise(objs, cv, children, depth);
            assert(decode_node_spec(objs, es, depth) == Ok::<ItemModel, LexError>(x));
        },
    }
}

/// DISCRIMINATION: a node with zero children is stored and reconstructed as
/// a node, never collapsing to or confused with a leaf.
pub proof fn lemma_discrimination(
    objs: Map<Seq<u8>, StoreObject>,
    title: Seq<char>,
    id: Seq<char>,
    description: Seq<char>,
    depth: nat,
)
    requires
        encodes(
            objs,
            ItemModel::Node { title, id, description, children: Seq::empty() },
        ),
        depth > 0,
    ensures
        decode_spec(
            objs,
            item_oid(ItemModel::Node { title, id, description, children: Seq::empty() }),
            depth,
        ) == Ok::<ItemModel, LexError>(
            ItemModel::Node { title, id, description, children: Seq::empty() },
        ),
{
    let x = ItemModel::Node { title, id, description, children: Seq::empty() };
    assert(fan_out_ok(x));
    assert(model_height(x) == 0);
    lemma_round_trip(objs, x, depth);
}

/// ORDER SENSITIVITY / UNAMBIGUITY: two different document trees held in
/// one store — in particular two nodes differing only in the order of their
/// children — have different identities. (That each decodes back with its
/// own order intact is the round-trip law.)
pub proof fn lemma_distinct_values_distinct_identities(
    objs: Map<Seq<u8>, StoreObject>,
    x: ItemModel,
    y: ItemModel,
)
    requires
        encodes(objs, x),
        encodes(objs, y),
        fan_out_ok(x),
        fan_out_ok(y),
        x != y,
    ensures
        item_oid(x) != item_oid(y),
{
    if item_oid(x) == item_oid(y) {
        let depth = if model_height(x) > model_height(y) {
            model_height(x) + 1
        } else {
            model_height(y) + 1
        };
        lemma_round_trip(objs, x, depth);
        lemma_round_trip(objs, y, depth);
        assert(false);
    }
}

/// MALFORMED INPUT: a stored tree without the discriminator entry fails to
/// decode with `MalformedTree`.
pub proof fn lemma_missing_discriminator(
    objs: Map<Seq<u8>, StoreObject>,
    oid: Seq<u8>,
    depth: nat,
)
    requires
        depth > 0,
        objs.contains_key(oid),
        objs[oid] matches StoreObject::Tree(es) && find_entry(es, kind_name()) is None,
    ensures
        decode_spec(objs, oid, depth) == Err::<ItemModel, LexError>(LexError::MalformedTree),
{
}

/// MALFORMED INPUT: a stored tree whose discriminator blob is neither
/// "node" nor "leaf" fails to decode with `MalformedTree`.
pub proof fn lemma_unknown_discriminator(
    objs: Map<Seq<u8>, StoreObject>,
    oid: Seq<u8>,
    depth: nat,
)
    requires
        depth > 0,
        objs.contains_key(oid),
        objs[oid] matches StoreObject::Tree(es) && (find_entry(es, kind_name()) matches Some(ke)
            && ke.2 == FILE_MODE && (blob_at(objs, ke.1) matches Some(marker) && marker
            != leaf_marker() && marker != node_marker())),
    ensures
        decode_spec(objs, oid, depth) == Err::<ItemModel, LexError>(LexError::MalformedTree),
{
}

} // verus!
