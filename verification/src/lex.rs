//! The repository lifecycle manager: a thin state holder binding a store
//! handle to an optional in-memory document tree. `init_lex` creates a new,
//! empty store and never silently reuses an existing one; `open` binds to an
//! existing store; `push_contents` attaches a tree; `save` encodes the
//! attached tree; `load` reconstructs one from a stored identity.

use vstd::prelude::*;
use vstd::utf8::encode_utf8;

use crate::LexError;
use crate::codec::{decode, decode_spec, encode, encodes, fan_out_ok, item_oid, store_extends};
use crate::item::{Node, TreeItem, item_model};
use crate::store::{FILE_MODE, ObjectId, Store, StoreObject, TreeEntry, blob_oid, entry_models,
    store_objects, tree_oid, writable_entries};

verus! {

/// The model of a document tree attached as a node.
pub open spec fn node_model(n: Node) -> crate::item::ItemModel {
    item_model(TreeItem::Node(n))
}

/// The entry name "0" of the original's small fixed-shape tree.
pub open spec fn zero_name() -> Seq<u8> {
    seq![48u8]
}

/// The entry name "1" of the original's small fixed-shape tree.
pub open spec fn one_name() -> Seq<u8> {
    seq![49u8]
}

/// A store handle with an optional attached document tree: no contents
/// right after `init_lex` or `open`, loaded after `push_contents`.
pub struct Lex {
    pub store: Store,
    pub contents: Option<Node>,
}

impl Lex {
    /// Creates a new store at `name`. Re-initialisation is rejected with
    /// `AlreadyExists`, never silently reused; no contents are attached.
    pub fn init_lex(name: &str) -> (r: Result<Lex, LexError>)
        ensures
            r matches Ok(lex) ==> lex.contents is None,
            r matches Err(e) ==> (e == LexError::AlreadyExists || e == LexError::StoreWrite),
    {
        match Store::init_repository(name) {
            Ok(store) => Ok(Lex { store, contents: None }),
            Err(e) => Err(e),
        }
    }

    /// Binds to the existing store at `name`, with no contents attached;
    /// a missing store is reported as `NotFound`.
    pub fn open(name: &str) -> (r: Result<Lex, LexError>)
        ensures
            r matches Ok(lex) ==> lex.contents is None,
            r matches Err(e) ==> (e == LexError::NotFound || e == LexError::OpenFailed),
    {
        match Store::open_repository(name) {
            Ok(store) => Ok(Lex { store, contents: None }),
            Err(e) => Err(e),
        }
    }

    /// Writes one scalar content blob, the store's smallest write. The store
    /// gains exactly that blob under its content hash — so a repeated call
    /// with equal text returns the same identity and adds no object.
    pub fn create_content(&mut self, content: &str) -> (r: Result<ObjectId, LexError>)
        ensures
            final(self).contents == old(self).contents,
            store_extends(store_objects(old(self).store), store_objects(final(self).store)),
            r matches Ok(id) ==> {
                &&& id@ == blob_oid(encode_utf8(content@))
                &&& id@.len() == 20
                &&& store_objects(final(self).store) == store_objects(old(self).store).insert(
                    blob_oid(encode_utf8(content@)),
                    StoreObject::Blob(encode_utf8(content@)),
                )
            },
            r matches Ok(id) && store_objects(old(self).store).contains_pair(
                blob_oid(encode_utf8(content@)),
                StoreObject::Blob(encode_utf8(content@)),
            ) ==> store_objects(final(self).store) == store_objects(old(self).store),
            r matches Err(e) ==> e == LexError::StoreWrite && store_objects(final(self).store)
                == store_objects(old(self).store),
    {
        let r = self.store.write_blob(content.as_bytes());
        proof {
            if r is Ok && store_objects(old(self).store).contains_pair(
                blob_oid(encode_utf8(content@)),
                StoreObject::Blob(encode_utf8(content@)),
            ) {
                assert(store_objects(self.store) =~= store_objects(old(self).store));
            }
        }
        r
    }

    /// Writes the original's small fixed-shape tree: entry "0" a blob with
    /// `name`'s bytes, entry "1" the given child object.
    pub fn create_tree(&mut self, name: &str, child: &ObjectId) -> (r: Result<ObjectId, LexError>)
        requires
            child@.len() == 20,
        ensures
            final(self).contents == old(self).contents,
            store_extends(store_objects(old(self).store), store_objects(final(self).store)),
            r matches Ok(id) ==> {
                &&& id@ == tree_oid(
                    seq![
                        (zero_name(), blob_oid(encode_utf8(name@)), FILE_MODE),
                        (one_name(), child@, FILE_MODE),
                    ],
                )
                &&& store_objects(final(self).store).contains_pair(
                    id@,
                    StoreObject::Tree(
                        seq![
                            (zero_name(), blob_oid(encode_utf8(name@)), FILE_MODE),
                            (one_name(), child@, FILE_MODE),
                        ],
                    ),
                )
                &&& store_objects(final(self).store).contains_pair(
                    blob_oid(encode_utf8(name@)),
                    StoreObject::Blob(encode_utf8(name@)),
                )
            },
            r matches Err(e) ==> e == LexError::StoreWrite,
    {
        let ghost orig = store_objects(self.store);
        let name_id = match self.store.write_blob(name.as_bytes()) {
            Ok(v) => v,
            Err(e) => {
                return Err(e);
            },
        };
        let mut zero: Vec<u8> = Vec::new();
        zero.push(48);
        let mut one: Vec<u8> = Vec::new();
        one.push(49);
        let mut entries: Vec<TreeEntry> = Vec::new();
        entries.push(TreeEntry { name: zero, id: name_id, mode: FILE_MODE });
        entries.push(TreeEntry { name: one, id: child.duplicate(), mode: FILE_MODE });
        let ghost es = entry_models(entries@);
        proof {
            assert(es =~= seq![
                (zero_name(), blob_oid(encode_utf8(name@)), FILE_MODE),
                (one_name(), child@, FILE_MODE),
            ]);
            assert(es[0].0 == zero_name() && es[1].0 == one_name());
            crate::keys::lemma_lex_first_byte(zero_name(), one_name());
            assert(writable_entries(es));
        }
        let ghost mid = store_objects(self.store);
        match self.store.write_tree(&entries) {
            Ok(id) => {
                proof {
                    crate::codec::lemma_extends_trans(orig, mid, store_objects(self.store));
                }
                Ok(id)
            },
            Err(e) => {
                proof {
                    crate::codec::lemma_extends_trans(orig, mid, store_objects(self.store));
                }
                Err(e)
            },
        }
    }

    /// Attaches a document tree, replacing any previously attached one: the
    /// loaded state. The store is untouched.
    pub fn push_contents(&mut self, node: Node)
        ensures
            final(self).contents matches Some(n) && n == node,
            final(self).store == old(self).store,
    {
        self.contents = Some(node);
    }

    /// Encodes the attached document tree into the store and returns the
    /// root identity. With no contents attached it fails with
    /// `EmptyContents` and writes nothing; with contents attached, the only
    /// failure is an underlying `StoreWrite`, and contents whose encoding
    /// the store already holds are saved without changing the store at all
    /// (duplicate-write elision).
    pub fn save(&mut self) -> (r: Result<ObjectId, LexError>)
        requires
            old(self).contents matches Some(n) ==> fan_out_ok(node_model(n)),
        ensures
            final(self).contents == old(self).contents,
            store_extends(store_objects(old(self).store), store_objects(final(self).store)),
            old(self).contents is None ==> r == Err::<ObjectId, LexError>(LexError::EmptyContents)
                && store_objects(final(self).store) == store_objects(old(self).store),
            old(self).contents matches Some(n) ==> (r matches Ok(id) ==> id@ == item_oid(
                node_model(n),
            ) && encodes(store_objects(final(self).store), node_model(n))),
            old(self).contents matches Some(n) ==> (r matches Err(e) ==> e
                == LexError::StoreWrite),
            old(self).contents matches Some(n) ==> (encodes(
                store_objects(old(self).store),
                node_model(n),
            ) ==> store_objects(final(self).store) == store_objects(old(self).store)),
            r matches Err(e) ==> (e == LexError::EmptyContents || e == LexError::StoreWrite),
    {
        let taken = self.contents.take();
        match taken {
            Option::None => {
                proof {
                    assert(store_extends(
                        store_objects(old(self).store),
                        store_objects(self.store),
                    ));
                }
                Err(LexError::EmptyContents)
            },
            Option::Some(node) => {
                let item = TreeItem::Node(node);
                let res = encode(&mut self.store, &item);
                match item {
                    TreeItem::Node(node_back) => {
                        self.contents = Some(node_back);
                    },
                    TreeItem::Leaf(_) => {
                        proof {
                            assert(false);
                        }
                    },
                }
                res
            },
        }
    }

    /// Reconstructs the document tree stored under `id`, reading through
    /// the store only: the inverse of `save` for trees this library wrote.
    /// `depth` bounds the recursion depth.
    pub fn load(&self, id: &ObjectId, depth: u64) -> (r: Result<TreeItem, LexError>)
        ensures
            match r {
                Ok(item) => decode_spec(store_objects(self.store), id@, depth as nat) matches Ok(m)
                    && m == item_model(item),
                Err(e) => e == LexError::StoreRead || (decode_spec(
                    store_objects(self.store),
                    id@,
                    depth as nat,
                ) matches Err(e2) && e2 == e),
            },
    {
        decode(&self.store, id, depth)
    }
}

} // verus!
