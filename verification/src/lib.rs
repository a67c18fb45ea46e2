//! Stores an ordered, arbitrarily nested document tree in a content-addressable
//! git object store and reconstructs it losslessly.
//!
//! A document tree ([`TreeItem`]) is lowered by [`encode`] into blobs and
//! trees of a bare git repository ([`Store`]), and lifted back by [`decode`].
//! Child order is preserved with fixed-width, zero-padded position keys
//! ([`encode_position`]), and every element carries a stored discriminator,
//! so decoding is total and error-detecting. The central guarantee is
//! [`lemma_round_trip`]: decoding an encoded tree yields exactly the
//! original, child order included; [`lemma_distinct_values_distinct_identities`]
//! adds that different documents in one store never share a root identity.

use vstd::prelude::*;

mod codec;
mod item;
mod keys;
mod lex;
mod store;

pub use codec::{decode, decode_spec, encode, encodes, fan_out_ok, item_entries, item_oid,
    lemma_discrimination, lemma_distinct_values_distinct_identities, lemma_missing_discriminator,
    lemma_round_trip, lemma_unknown_discriminator, store_extends};
pub use item::{ItemModel, Leaf, Node, TreeItem, folds, item_model, items_model, model_height,
    node_folds};
pub use keys::{decode_position, encode_position, key_value, lex_lt, position_key,
    valid_position_key};
pub use lex::{Lex, node_model};
pub use store::{FILE_MODE, ObjectId, Store, StoreObject, TREE_MODE, TreeEntry, blob_oid,
    store_objects, tree_oid, writable_entries};

verus! {

/// Everything that can go wrong while persisting or reconstructing a
/// document tree.
#[derive(Clone, Copy, Debug, PartialEq, Eq, Structural)]
pub enum LexError {
    /// Initialising a store at a location that already holds one.
    AlreadyExists,
    /// Opening a store at a location that holds none.
    NotFound,
    /// The store exists but could not be opened.
    OpenFailed,
    /// An underlying write failed.
    StoreWrite,
    /// An underlying read failed.
    StoreRead,
    /// A stored tree does not conform to the discriminator / fixed-key
    /// contract: data corruption or encoder/decoder version skew.
    MalformedTree,
    /// An operation that needs attached contents found none.
    EmptyContents,
    /// Decoding descended past the caller's depth ceiling.
    DepthExceeded,
}

/// Placeholder for a future remote-store connection; the original API reserves it.
pub fn connect(url: &str) {
}

} // verus!
