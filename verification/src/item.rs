//! The in-memory document tree: internal nodes carrying title/id/description,
//! leaves carrying title/id/content. Child order is semantically significant.

use vstd::prelude::*;

verus! {

/// An internal, non-leaf document element. The order of `children` is the
/// document's canonical order; a `Node` with zero children is well formed and
/// distinct from any `Leaf`.
pub struct Node {
    pub title: String,
    pub id: String,
    pub description: String,
    pub children: Vec<TreeItem>,
}

/// A terminal document element owning its textual content directly.
pub struct Leaf {
    pub title: String,
    pub id: String,
    pub content: String,
}

/// A document element: either an internal `Node` or a terminal `Leaf`.
pub enum TreeItem {
    Node(Node),
    Leaf(Leaf),
}

/// The mathematical value of a document tree: the same shape over `Seq`s.
pub enum ItemModel {
    Node { title: Seq<char>, id: Seq<char>, description: Seq<char>, children: Seq<ItemModel> },
    Leaf { title: Seq<char>, id: Seq<char>, content: Seq<char> },
}

/// The mathematical value of a `TreeItem`.
pub open spec fn item_model(item: TreeItem) -> ItemModel
    decreases item,
{
    match item {
        TreeItem::Node(n) => ItemModel::Node {
            title: n.title@,
            id: n.id@,
            description: n.description@,
            children: items_model(n.children@),
        },
        TreeItem::Leaf(l) => ItemModel::Leaf { title: l.title@, id: l.id@, content: l.content@ },
    }
}

/// The mathematical values of a sequence of `TreeItem`s, in order.
pub open spec fn items_model(items: Seq<TreeItem>) -> Seq<ItemModel>
    decreases items,
{
    if items.len() == 0 {
        Seq::empty()
    } else {
        items_model(items.drop_last()).push(item_model(items.last()))
    }
}

/// `items_model` maps the sequence pointwise.
pub proof fn lemma_items_model(items: Seq<TreeItem>)
    ensures
        items_model(items).len() == items.len(),
        forall|i: int|
            0 <= i < items.len() ==> items_model(items)[i] == item_model(#[trigger] items[i]),
    decreases items.len(),
{
    if items.len() > 0 {
        lemma_items_model(items.drop_last());
        assert forall|i: int| 0 <= i < items.len() implies items_model(items)[i] == item_model(
            #[trigger] items[i],
        ) by {
            if i < items.len() - 1 {
                assert(items.drop_last()[i] == items[i]);
            }
        }
    }
}

/// Depth of a tree: 0 for a leaf or a childless node.
pub open spec fn model_height(m: ItemModel) -> nat
    decreases m,
{
    match m {
        ItemModel::Leaf { .. } => 0,
        ItemModel::Node { children, .. } => {
            if children.len() == 0 {
                0
            } else {
                1 + max_child_height(children)
            }
        },
    }
}

/// The largest height among `children`, which must be non-empty.
pub open spec fn max_child_height(children: Seq<ItemModel>) -> nat
    decreases children,
{
    if children.len() == 0 {
        0
    } else if children.len() == 1 {
        model_height(children[0])
    } else {
        let rest = max_child_height(children.drop_last());
        let last = model_height(children.last());
        if last > rest {
            last
        } else {
            rest
        }
    }
}


/// `r` is a result the leaf callback could return for leaf `l`.
pub open spec fn leaf_folds<E, D: Fn(&Leaf) -> E>(d: D, l: Leaf, r: E) -> bool {
    call_ensures(d, (&l,), r)
}

/// `r` is a result a post-order fold of `item` with the two callbacks could
/// produce: every child fully folded, in order, before the parent callback
/// runs on the sequence of child results.
pub open spec fn folds<E, C: Fn(&Node, Vec<E>) -> E, D: Fn(&Leaf) -> E>(
    c: C,
    d: D,
    item: TreeItem,
    r: E,
) -> bool
    decreases item,
{
    match item {
        TreeItem::Node(n) => node_folds(c, d, n, r),
        TreeItem::Leaf(l) => leaf_folds(d, l, r),
    }
}

/// `r` is a result a post-order fold of node `n` could produce.
pub open spec fn node_folds<E, C: Fn(&Node, Vec<E>) -> E, D: Fn(&Leaf) -> E>(
    c: C,
    d: D,
    n: Node,
    r: E,
) -> bool
    decreases n,
{
    exists|rs: Vec<E>|
        folds_list(c, d, n.children@, rs@) && #[trigger] call_ensures(c, (&n, rs), r)
}

/// `rs` is a sequence of results the fold could produce for `items`,
/// pointwise and in order.
pub open spec fn folds_list<E, C: Fn(&Node, Vec<E>) -> E, D: Fn(&Leaf) -> E>(
    c: C,
    d: D,
    items: Seq<TreeItem>,
    rs: Seq<E>,
) -> bool
    decreases items,
{
    if items.len() == 0 {
        rs.len() == 0
    } else {
        rs.len() == items.len() && folds_list(c, d, items.drop_last(), rs.drop_last()) && folds(
            c,
            d,
            items.last(),
            rs.last(),
        )
    }
}

impl Node {
    /// The generic tree walker: folds the document tree in strict post-order
    /// — every child fully folded, depth-first and left to right, before
    /// `self_callback` runs on the parent with the ordered child results.
    /// The callbacks must accept every node and leaf; the result is one the
    /// callbacks could have produced for exactly this traversal.
    pub fn walk<E, C: Fn(&Node, Vec<E>) -> E + Copy, D: Fn(&Leaf) -> E + Copy>(
        &self,
        self_callback: C,
        leaf_callback: D,
    ) -> (r: E)
        requires
            forall|n: &Node, v: Vec<E>| #[trigger] call_requires(self_callback, (n, v)),
            forall|l: &Leaf| #[trigger] call_requires(leaf_callback, (l,)),
        ensures
            node_folds(self_callback, leaf_callback, *self, r),
        decreases *self,
    {
        let mut children_res: Vec<E> = Vec::new();
        let mut k: usize = 0;
        while k < self.children.len()
            invariant
                0 <= k <= self.children@.len(),
                children_res@.len() == k,
                folds_list(
                    self_callback,
                    leaf_callback,
                    self.children@.take(k as int),
                    children_res@,
                ),
                forall|n: &Node, v: Vec<E>| #[trigger] call_requires(self_callback, (n, v)),
                forall|l: &Leaf| #[trigger] call_requires(leaf_callback, (l,)),
            decreases self.children@.len() - k,
        {
            let ghost old_res = children_res@;
            match &self.children[k] {
                TreeItem::Node(node) => {
                    let e = node.walk(self_callback, leaf_callback);
                    children_res.push(e);
                },
                TreeItem::Leaf(leaf) => {
                    let e = leaf_callback(leaf);
                    children_res.push(e);
                },
            }
            proof {
                assert(self.children@.take(k as int + 1).drop_last() =~= self.children@.take(
                    k as int,
                ));
                assert(children_res@.drop_last() =~= old_res);
                assert(folds(
                    self_callback,
                    leaf_callback,
                    self.children@.take(k as int + 1).last(),
                    children_res@.last(),
                ));
            }
            k = k + 1;
        }
        proof {
            assert(self.children@.take(self.children@.len() as int) =~= self.children@);
        }
        let r = self_callback(self, children_res);
        r
    }
}

} // verus!
