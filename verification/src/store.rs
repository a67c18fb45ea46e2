//! The object-store adapter: a thin trusted boundary over a bare git
//! repository. The store is modelled by `store_objects`, a map from object
//! identity (20 hash bytes) to stored object; every trusted contract below
//! states how a call reads or grows that map. The model leans on git's content
//! addressing: an object's identity is a function of its bytes alone, the
//! store never mutates an object once written, and distinct contents receive
//! distinct identities.

use vstd::prelude::*;

use crate::LexError;
use crate::keys::lex_lt;

verus! {

/// Mode bits for a blob entry of a tree.
pub const FILE_MODE: u64 = 0o100644;

/// Mode bits for a subtree entry of a tree.
pub const TREE_MODE: u64 = 0o040000;

/// The identity of a stored object: its 20 content-hash bytes.
pub struct ObjectId {
    bytes: Vec<u8>,
}

impl View for ObjectId {
    type V = Seq<u8>;

    closed spec fn view(&self) -> Seq<u8> {
        self.bytes@
    }
}

impl ObjectId {
    /// Whether two identities name the same object.
    pub fn equals(&self, other: &ObjectId) -> (r: bool)
        ensures
            r == (self@ == other@),
    {
        if self.bytes.len() != other.bytes.len() {
            proof {
                assert(self@ != other@);
            }
            return false;
        }
        let mut k: usize = 0;
        while k < self.bytes.len()
            invariant
                0 <= k <= self.bytes@.len(),
                self.bytes@.len() == other.bytes@.len(),
                forall|j: int| 0 <= j < k ==> self.bytes@[j] == other.bytes@[j],
            decreases self.bytes@.len() - k,
        {
            if self.bytes[k] != other.bytes[k] {
                proof {
                    assert(self@[k as int] != other@[k as int]);
                }
                return false;
            }
            k = k + 1;
        }
        proof {
            assert(self@ =~= other@);
        }
        true
    }

    /// A copy of this identity.
    pub fn duplicate(&self) -> (r: ObjectId)
        ensures
            r@ == self@,
    {
        let mut bytes: Vec<u8> = Vec::new();
        let mut k: usize = 0;
        while k < self.bytes.len()
            invariant
                0 <= k <= self.bytes@.len(),
                bytes@ =~= self.bytes@.take(k as int),
            decreases self.bytes@.len() - k,
        {
            bytes.push(self.bytes[k]);
            k = k + 1;
        }
        proof {
            assert(self.bytes@.take(self.bytes@.len() as int) =~= self.bytes@);
        }
        ObjectId { bytes }
    }
}

/// One entry of a stored tree: name, referenced identity, mode bits.
pub struct TreeEntry {
    pub name: Vec<u8>,
    pub id: ObjectId,
    pub mode: u64,
}

/// The mathematical value of one tree entry.
pub open spec fn entry_model(e: TreeEntry) -> (Seq<u8>, Seq<u8>, u64) {
    (e.name@, e.id@, e.mode)
}

/// The mathematical value of a sequence of tree entries.
pub open spec fn entry_models(s: Seq<TreeEntry>) -> Seq<(Seq<u8>, Seq<u8>, u64)> {
    s.map_values(|e: TreeEntry| entry_model(e))
}

/// A stored object: an opaque byte blob, or a tree of named entries in
/// stored order.
pub enum StoreObject {
    Blob(Seq<u8>),
    Tree(Seq<(Seq<u8>, Seq<u8>, u64)>),
}

/// The identity the store assigns to a blob with the given bytes. Content
/// addressing: a function of the bytes alone.
pub uninterp spec fn blob_oid(data: Seq<u8>) -> Seq<u8>;

/// The identity the store assigns to a tree with the given entries. Content
/// addressing: a function of the entry list alone.
pub uninterp spec fn tree_oid(entries: Seq<(Seq<u8>, Seq<u8>, u64)>) -> Seq<u8>;

/// Entries this library hands to `write_tree`: non-empty names over bytes
/// `'0'..='z'` (never NUL, `/`, `.` or `..`, so git stores them verbatim),
/// strictly increasing byte-lexicographically (git's storage order for such
/// names, so the stored entry list is exactly the one given), 20-byte
/// identities, and blob or subtree mode bits.
pub open spec fn writable_entries(es: Seq<(Seq<u8>, Seq<u8>, u64)>) -> bool {
    &&& forall|i: int|
        0 <= i < es.len() ==> {
            &&& (#[trigger] es[i]).0.len() > 0
            &&& (forall|j: int| 0 <= j < es[i].0.len() ==> 48 <= #[trigger] es[i].0[j] <= 122)
            &&& (es[i].2 == FILE_MODE || es[i].2 == TREE_MODE)
            &&& es[i].1.len() == 20
        }
    &&& forall|i: int| 0 <= i && i + 1 < es.len() ==> lex_lt(es[i].0, (#[trigger] es[i + 1]).0)
}

/// A handle to one content-addressable object store.
#[verifier::external_body]
pub struct Store {
    repo: git2::Repository,
}

/// The objects a store holds, by identity: the contents of the underlying
/// object database.
pub uninterp spec fn store_objects(s: Store) -> Map<Seq<u8>, StoreObject>;

impl Store {
    /// Creates a new bare repository at `path`. Relies on
    /// `git2::Repository::init_opts` with `no_reinit`: an existing repository
    /// there is reported as `AlreadyExists`, never silently reused. Nothing
    /// is claimed about the objects the new handle holds: initialisation
    /// never deletes files, so a directory that already carried an object
    /// store (without being a full repository) keeps its objects.
    #[verifier::external_body]
    pub fn init_repository(path: &str) -> (r: Result<Store, LexError>)
        ensures
            r matches Err(e) ==> (e == LexError::AlreadyExists || e == LexError::StoreWrite),
    {
        let mut opts = git2::RepositoryInitOptions::new();
        opts.no_reinit(true).bare(true);
        match git2::Repository::init_opts(path, &opts) {
            Ok(repo) => Ok(Store { repo }),
            Err(e) => Err(
                if e.code() == git2::ErrorCode::Exists {
                    LexError::AlreadyExists
                } else {
                    LexError::StoreWrite
                },
            ),
        }
    }

    /// Opens an existing bare repository at `path`. Relies on
    /// `git2::Repository::open_bare`: a missing repository is reported as
    /// `NotFound`. Nothing is assumed about the objects already stored.
    #[verifier::external_body]
    pub fn open_repository(path: &str) -> (r: Result<Store, LexError>)
        ensures
            r matches Err(e) ==> (e == LexError::NotFound || e == LexError::OpenFailed),
    {
        match git2::Repository::open_bare(path) {
            Ok(repo) => Ok(Store { repo }),
            Err(e) => Err(
                if e.code() == git2::ErrorCode::NotFound {
                    LexError::NotFound
                } else {
                    LexError::OpenFailed
                },
            ),
        }
    }

    /// Writes a blob. Relies on `git2::Repository::blob`: the returned
    /// identity is the content hash of `data`, the store then holds exactly
    /// that blob under it, and no existing object changes.
    #[verifier::external_body]
    pub fn write_blob(&mut self, data: &[u8]) -> (r: Result<ObjectId, LexError>)
        ensures
            forall|k: Seq<u8>|
                #[trigger] store_objects(*old(self)).contains_key(k) ==> store_objects(
                    *final(self),
                ).contains_key(k) && store_objects(*final(self))[k] == store_objects(
                    *old(self),
                )[k],
            r matches Ok(id) ==> {
                &&& id@ == blob_oid(data@)
                &&& id@.len() == 20
                &&& store_objects(*final(self)) == store_objects(*old(self)).insert(
                    blob_oid(data@),
                    StoreObject::Blob(data@),
                )
                &&& store_objects(*final(self)).contains_pair(
                    blob_oid(data@),
                    StoreObject::Blob(data@),
                )
            },
            r matches Err(e) ==> e == LexError::StoreWrite && store_objects(*final(self)) == store_objects(*old(self)),
    {
        match self.repo.blob(data) {
            Ok(oid) => Ok(ObjectId { bytes: oid.as_bytes().to_vec() }),
            Err(_) => Err(LexError::StoreWrite),
        }
    }

    /// Writes a tree with the given entries. Relies on
    /// `git2::Repository::treebuilder`, `TreeBuilder::insert` and
    /// `TreeBuilder::write`: for entries admitted by `writable_entries` the
    /// builder stores exactly the given, already canonically ordered entry
    /// list, the returned identity is its content hash, and no existing
    /// object changes.
    #[verifier::external_body]
    pub fn write_tree(&mut self, entries: &Vec<TreeEntry>) -> (r: Result<ObjectId, LexError>)
        requires
            writable_entries(entry_models(entries@)),
        ensures
            forall|k: Seq<u8>|
                #[trigger] store_objects(*old(self)).contains_key(k) ==> store_objects(
                    *final(self),
                ).contains_key(k) && store_objects(*final(self))[k] == store_objects(
                    *old(self),
                )[k],
            r matches Ok(id) ==> {
                &&& id@ == tree_oid(entry_models(entries@))
                &&& id@.len() == 20
                &&& store_objects(*final(self)) == store_objects(*old(self)).insert(
                    tree_oid(entry_models(entries@)),
                    StoreObject::Tree(entry_models(entries@)),
                )
                &&& store_objects(*final(self)).contains_pair(
                    tree_oid(entry_models(entries@)),
                    StoreObject::Tree(entry_models(entries@)),
                )
            },
            r matches Err(e) ==> e == LexError::StoreWrite && store_objects(*final(self)) == store_objects(*old(self)),
    {
        let mut b = self.repo.treebuilder(None).map_err(|_| LexError::StoreWrite)?;
        for e in entries.iter() {
            let oid = git2::Oid::from_bytes(e.id.bytes.as_slice()).map_err(
                |_| LexError::StoreWrite,
            )?;
            b.insert(e.name.as_slice(), oid, e.mode as i32).map_err(|_| LexError::StoreWrite)?;
        }
        let oid = b.write().map_err(|_| LexError::StoreWrite)?;
        Ok(ObjectId { bytes: oid.as_bytes().to_vec() })
    }

    /// Reads the tree stored under `id`. Relies on
    /// `git2::Repository::find_tree` and `Tree::iter`: on success the store
    /// holds a tree under `id` and the entries come back exactly as stored.
    #[verifier::external_body]
    pub fn read_tree(&self, id: &ObjectId) -> (r: Result<Vec<TreeEntry>, LexError>)
        ensures
            r matches Ok(v) ==> {
                &&& store_objects(*self).contains_key(id@)
                &&& store_objects(*self)[id@] == StoreObject::Tree(entry_models(v@))
            },
            r matches Err(e) ==> e == LexError::StoreRead,
    {
        let oid = git2::Oid::from_bytes(id.bytes.as_slice()).map_err(|_| LexError::StoreRead)?;
        let t = self.repo.find_tree(oid).map_err(|_| LexError::StoreRead)?;
        Ok(t.iter().map(|e| TreeEntry {
            name: e.name_bytes().to_vec(),
            id: ObjectId { bytes: e.id().as_bytes().to_vec() },
            mode: e.filemode() as u64,
        }).collect())
    }

    /// Reads the blob stored under `id`. Relies on
    /// `git2::Repository::find_blob` and `Blob::content`: on success the
    /// store holds a blob under `id` with exactly the returned bytes.
    #[verifier::external_body]
    pub fn read_blob(&self, id: &ObjectId) -> (r: Result<Vec<u8>, LexError>)
        ensures
            r matches Ok(v) ==> {
                &&& store_objects(*self).contains_key(id@)
                &&& store_objects(*self)[id@] == StoreObject::Blob(v@)
            },
            r matches Err(e) ==> e == LexError::StoreRead,
    {
        let oid = git2::Oid::from_bytes(id.bytes.as_slice()).map_err(|_| LexError::StoreRead)?;
        let b = self.repo.find_blob(oid).map_err(|_| LexError::StoreRead)?;
        Ok(b.content().to_vec())
    }
}

} // verus!
