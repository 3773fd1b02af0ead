//! Directory trees built from a flat list of entries, held as an arena:
//! node 0 is the root, and every subtree sits at a higher index than the
//! node that holds it.
use vstd::prelude::*;
use crate::database::{Database, StoredObject, is_store_of};
use crate::entry::{Entry, EntryView, dirs_of, entry_view, entry_views, mode_of, sort_entries, sort_of};
use crate::object::{Kind, Object, bytes_eq, copy_bytes, extend_bytes, push_str, record, record_bytes, utf8};
use crate::utils::sha1_of;

verus! {

/// Failures of the tree builder.
#[derive(Debug, Clone, Copy, PartialEq, Eq, Structural)]
pub enum TreeError {
    /// A file and a directory, or two files, share a name in one directory.
    ConflictingEntry,
}

/// What a tree item is, as the model sees it.
pub enum ItemView {
    Leaf { executable: bool, id: Seq<u8> },
    Dir { index: nat },
}

/// A child of a tree node: a file, or the arena index of a subtree.
#[derive(Debug)]
pub enum EntryOrTree {
    Entry(Entry),
    Tree(usize),
}

/// A named child.
#[derive(Debug)]
pub struct TreeItem {
    pub name: Vec<u8>,
    pub child: EntryOrTree,
}

/// One directory: its children in order of first insertion, and the
/// identifier assigned when it was stored.
#[derive(Debug)]
pub struct TreeNode {
    pub entries: Vec<TreeItem>,
    pub object_id: Vec<u8>,
}

/// A directory tree; `nodes[0]` is the root.
#[derive(Debug)]
pub struct Tree {
    pub nodes: Vec<TreeNode>,
}

impl TreeItem {
    pub open spec fn item_view(&self) -> (Seq<u8>, ItemView) {
        (
            self.name@,
            match self.child {
                EntryOrTree::Entry(e) => ItemView::Leaf { executable: e.executable, id: e.object_id@ },
                EntryOrTree::Tree(i) => ItemView::Dir { index: i as nat },
            },
        )
    }
}

impl TreeNode {
    pub open spec fn items(&self) -> Seq<(Seq<u8>, ItemView)> {
        self.entries@.map_values(|it: TreeItem| it.item_view())
    }

    pub fn new() -> (r: TreeNode)
        ensures
            r.entries@.len() == 0,
            r.object_id@.len() == 0,
    {
        TreeNode { entries: Vec::new(), object_id: Vec::new() }
    }
}

/// Every subtree index points past its holder and into the arena, and
/// there is a root.
pub open spec fn well_formed(a: Seq<Seq<(Seq<u8>, ItemView)>>) -> bool {
    &&& a.len() >= 1
    &&& forall|j: int, k: int|
        0 <= j < a.len() && 0 <= k < a[j].len() && (#[trigger] a[j][k]).1 is Dir ==> j
            < a[j][k].1->index < a.len()
}

/// The index of the first item named `name`.
pub open spec fn find_name(items: Seq<(Seq<u8>, ItemView)>, name: Seq<u8>) -> Option<int>
    decreases items.len(),
{
    if items.len() == 0 {
        None
    } else {
        match find_name(items.drop_last(), name) {
            Some(i) => Some(i),
            None => if items.last().0 == name {
                Some(items.len() - 1)
            } else {
                None
            },
        }
    }
}

proof fn lemma_find_none(items: Seq<(Seq<u8>, ItemView)>, name: Seq<u8>)
    requires
        forall|k: int| 0 <= k < items.len() ==> (#[trigger] items[k]).0 != name,
    ensures
        find_name(items, name) is None,
    decreases items.len(),
{
    if items.len() > 0 {
        lemma_find_none(items.drop_last(), name);
    }
}

proof fn lemma_find_first(items: Seq<(Seq<u8>, ItemView)>, name: Seq<u8>, i: int)
    requires
        0 <= i < items.len(),
        items[i].0 == name,
        forall|k: int| 0 <= k < i ==> (#[trigger] items[k]).0 != name,
    ensures
        find_name(items, name) == Some(i),
    decreases items.len(),
{
    if i == items.len() - 1 {
        lemma_find_none(items.drop_last(), name);
    } else {
        lemma_find_first(items.drop_last(), name, i);
    }
}

/// Inserts a leaf named `name` below node `cur`, through the directories
/// `dirs`, creating those that are missing at the end of the arena; `None`
/// where a name is already taken.
pub open spec fn insert_at(
    a: Seq<Seq<(Seq<u8>, ItemView)>>,
    cur: int,
    dirs: Seq<Seq<u8>>,
    name: Seq<u8>,
    leaf: ItemView,
) -> Option<Seq<Seq<(Seq<u8>, ItemView)>>>
    decreases dirs.len(),
{
    if !(0 <= cur < a.len()) {
        None
    } else if dirs.len() == 0 {
        match find_name(a[cur], name) {
            Some(_) => None,
            None => Some(a.update(cur, a[cur].push((name, leaf)))),
        }
    } else {
        match find_name(a[cur], dirs[0]) {
            Some(i) => match a[cur][i].1 {
                ItemView::Dir { index } => insert_at(a, index as int, dirs.drop_first(), name, leaf),
                ItemView::Leaf { .. } => None,
            },
            None => insert_at(
                a.update(cur, a[cur].push((dirs[0], ItemView::Dir { index: a.len() }))).push(
                    Seq::empty(),
                ),
                a.len() as int,
                dirs.drop_first(),
                name,
                leaf,
            ),
        }
    }
}


/// The bytes of one item of node `j` in a tree payload: `mode name\0id`,
/// where a subtree's identifier is looked up in `ids`.
pub open spec fn item_bytes(it: (Seq<u8>, ItemView), ids: Seq<Seq<u8>>, j: int) -> Seq<u8> {
    match it.1 {
        ItemView::Leaf { executable, id } => utf8(mode_of(executable)) + utf8(" "@) + it.0 + seq![0u8]
            + id,
        ItemView::Dir { index } => utf8("40000"@) + utf8(" "@) + it.0 + seq![0u8] + (if j < index
            < ids.len() {
            ids[index as int]
        } else {
            Seq::empty()
        }),
    }
}

/// The payload of tree node `j`: its items' bytes in order.
pub open spec fn items_bytes(items: Seq<(Seq<u8>, ItemView)>, ids: Seq<Seq<u8>>, j: int) -> Seq<u8>
    decreases items.len(),
{
    if items.len() == 0 {
        Seq::empty()
    } else {
        items_bytes(items.drop_last(), ids, j) + item_bytes(items.last(), ids, j)
    }
}

/// The canonical bytes of node `j`, with subtree identifiers from `ids`.
pub open spec fn node_record(a: Seq<Seq<(Seq<u8>, ItemView)>>, j: int, ids: Seq<Seq<u8>>) -> Seq<u8> {
    record_bytes(Kind::Tree, if 0 <= j < a.len() { items_bytes(a[j], ids, j) } else { Seq::empty() })
}

/// The identifiers of nodes `j..` once each is hashed after its subtrees;
/// earlier nodes have none yet.
pub open spec fn ids_from(a: Seq<Seq<(Seq<u8>, ItemView)>>, j: int) -> Seq<Seq<u8>>
    decreases a.len() - j,
{
    if j < 0 || j >= a.len() {
        Seq::new(a.len(), |i: int| Seq::<u8>::empty())
    } else {
        let later = ids_from(a, j + 1);
        later.update(j, sha1_of(node_record(a, j, later)))
    }
}

/// The identifier of every node of a tree, hashed bottom-up.
pub open spec fn tree_ids(a: Seq<Seq<(Seq<u8>, ItemView)>>) -> Seq<Seq<u8>> {
    ids_from(a, 0)
}

proof fn lemma_ids_from_len(a: Seq<Seq<(Seq<u8>, ItemView)>>, j: int)
    ensures
        ids_from(a, j).len() == a.len(),
    decreases a.len() - j,
{
    if 0 <= j < a.len() {
        lemma_ids_from_len(a, j + 1);
    }
}

/// Hashing earlier nodes leaves the identifier of a later node as it was.
proof fn lemma_ids_stable(a: Seq<Seq<(Seq<u8>, ItemView)>>, m: int, c: int)
    requires
        0 <= m <= c < a.len(),
    ensures
        ids_from(a, m)[c] == ids_from(a, c)[c],
    decreases c - m,
{
    if m < c {
        lemma_ids_from_len(a, m + 1);
        lemma_ids_stable(a, m + 1, c);
    }
}

/// The identifier of node `j` is the digest of its record over the final
/// identifiers of its subtrees.
proof fn lemma_tree_id_of_node(a: Seq<Seq<(Seq<u8>, ItemView)>>, j: int)
    requires
        well_formed(a),
        0 <= j < a.len(),
    ensures
        tree_ids(a)[j] == sha1_of(node_record(a, j, tree_ids(a))),
{
    lemma_ids_stable(a, 0, j);
    lemma_ids_from_len(a, 0);
    lemma_ids_from_len(a, j + 1);
    let later = ids_from(a, j + 1);
    assert forall|k: int|
        0 <= k < a[j].len() && (#[trigger] a[j][k]).1 is Dir && j < a[j][k].1->index < later.len()
        implies later[a[j][k].1->index as int] == tree_ids(a)[a[j][k].1->index as int] by {
        let c = a[j][k].1->index as int;
        lemma_ids_stable(a, j + 1, c);
        lemma_ids_stable(a, 0, c);
    }
    lemma_items_bytes_agree(a[j], later, tree_ids(a), j);
}

/// A payload reads only the identifiers of the subtrees it names.
proof fn lemma_items_bytes_agree(
    items: Seq<(Seq<u8>, ItemView)>,
    ids1: Seq<Seq<u8>>,
    ids2: Seq<Seq<u8>>,
    j: int,
)
    requires
        ids1.len() == ids2.len(),
        forall|k: int|
            0 <= k < items.len() && (#[trigger] items[k]).1 is Dir && j < items[k].1->index < ids1.len()
                ==> ids1[items[k].1->index as int] == ids2[items[k].1->index as int],
    ensures
        items_bytes(items, ids1, j) == items_bytes(items, ids2, j),
    decreases items.len(),
{
    if items.len() > 0 {
        let init = items.drop_last();
        assert forall|k: int|
            0 <= k < init.len() && (#[trigger] init[k]).1 is Dir && j < init[k].1->index < ids1.len()
                implies ids1[init[k].1->index as int] == ids2[init[k].1->index as int] by {
            assert(init[k] == items[k]);
        }
        lemma_items_bytes_agree(init, ids1, ids2, j);
        assert(items.last() == items[items.len() - 1]);
    }
}

/// Inserts one entry below the root.
pub open spec fn insert_view(a: Seq<Seq<(Seq<u8>, ItemView)>>, e: EntryView) -> Option<
    Seq<Seq<(Seq<u8>, ItemView)>>,
> {
    insert_at(a, 0, dirs_of(e.path), e.name, ItemView::Leaf { executable: e.executable, id: e.id })
}

/// Inserts the entries one after another, stopping at the first conflict.
pub open spec fn build_from(a: Seq<Seq<(Seq<u8>, ItemView)>>, es: Seq<EntryView>) -> Option<
    Seq<Seq<(Seq<u8>, ItemView)>>,
>
    decreases es.len(),
{
    if es.len() == 0 {
        Some(a)
    } else {
        match build_from(a, es.drop_last()) {
            Some(b) => insert_view(b, es.last()),
            None => None,
        }
    }
}

/// The tree built from entries: they are taken in builder order and
/// inserted into an empty root.
pub open spec fn build_model(es: Seq<EntryView>) -> Option<Seq<Seq<(Seq<u8>, ItemView)>>> {
    build_from(seq![Seq::empty()], sort_of(es))
}

/// Once a prefix of the entries conflicts, so do all the entries.
proof fn lemma_build_from_stops(a: Seq<Seq<(Seq<u8>, ItemView)>>, es: Seq<EntryView>, k: int)
    requires
        0 <= k <= es.len(),
        build_from(a, es.subrange(0, k)) is None,
    ensures
        build_from(a, es) is None,
    decreases es.len() - k,
{
    if k < es.len() {
        assert(es.subrange(0, k + 1).drop_last() =~= es.subrange(0, k));
        lemma_build_from_stops(a, es, k + 1);
    } else {
        assert(es.subrange(0, k) =~= es);
    }
}

/// Building from the same entries in any order gives the same tree, so
/// every subtree has the same canonical bytes and the root the same
/// identifier.
pub proof fn lemma_build_order_independent(e1: Seq<EntryView>, e2: Seq<EntryView>)
    requires
        e1.to_multiset() == e2.to_multiset(),
    ensures
        build_model(e1) == build_model(e2),
        build_model(e1) is Some ==> tree_ids(build_model(e1)->Some_0) == tree_ids(
            build_model(e2)->Some_0,
        ),
{
}

/// The byte strings held by a list of vectors.
pub open spec fn views_of(v: Seq<Vec<u8>>) -> Seq<Seq<u8>> {
    v.map_values(|d: Vec<u8>| d@)
}

impl Tree {
    pub open spec fn shape(&self) -> Seq<Seq<(Seq<u8>, ItemView)>> {
        self.nodes@.map_values(|n: TreeNode| n.items())
    }

    /// The identifiers currently assigned to the nodes.
    pub open spec fn ids(&self) -> Seq<Seq<u8>> {
        self.nodes@.map_values(|n: TreeNode| n.object_id@)
    }

    /// The payload of node `j` with the identifiers currently assigned.
    pub fn node_payload(&self, j: usize) -> (r: Vec<u8>)
        requires
            j < self.nodes@.len(),
        ensures
            r@ == items_bytes(self.shape()[j as int], self.ids(), j as int),
    {
        let node = &self.nodes[j];
        let ghost items = self.shape()[j as int];
        let mut out: Vec<u8> = Vec::new();
        let mut i: usize = 0;
        while i < node.entries.len()
            invariant
                i <= node.entries@.len(),
                *node == self.nodes@[j as int],
                j < self.nodes@.len(),
                items == self.shape()[j as int],
                items == node.items(),
                out@ == items_bytes(items.subrange(0, i as int), self.ids(), j as int),
            decreases node.entries@.len() - i,
        {
            let item = &node.entries[i];
            let ghost before = out@;
            match &item.child {
                EntryOrTree::Entry(e) => {
                    push_str(&mut out, e.mode());
                    push_str(&mut out, " ");
                    extend_bytes(&mut out, item.name.as_slice());
                    out.push(0u8);
                    extend_bytes(&mut out, e.object_id.as_slice());
                },
                EntryOrTree::Tree(idx) => {
                    push_str(&mut out, "40000");
                    push_str(&mut out, " ");
                    extend_bytes(&mut out, item.name.as_slice());
                    out.push(0u8);
                    if j < *idx && *idx < self.nodes.len() {
                        extend_bytes(&mut out, self.nodes[*idx].object_id.as_slice());
                    }
                },
            }
            proof {
                let s = items.subrange(0, i as int + 1);
                assert(s.drop_last() =~= items.subrange(0, i as int));
                assert(s.last() == item.item_view());
                assert(out@ =~= before + item_bytes(item.item_view(), self.ids(), j as int));
            }
            i = i + 1;
        }
        assert(items.subrange(0, i as int) =~= items);
        out
    }

    /// Stores every node bottom-up: each subtree is hashed, and its
    /// identifier assigned, before the node that holds it. Returns what to
    /// write, deepest nodes first and the root last.
    pub fn store_tree(&mut self, db: &Database) -> (r: Vec<StoredObject>)
        requires
            well_formed(old(self).shape()),
        ensures
            final(self).shape() == old(self).shape(),
            final(self).ids() == tree_ids(old(self).shape()),
            r@.len() == old(self).shape().len(),
            forall|k: int|
                0 <= k < r@.len() ==> is_store_of(
                    #[trigger] r@[k],
                    db.path@,
                    node_record(
                        old(self).shape(),
                        old(self).shape().len() - 1 - k,
                        tree_ids(old(self).shape()),
                    ),
                ),
    {
        let ghost a = self.shape();
        let n = self.nodes.len();
        let mut out: Vec<StoredObject> = Vec::new();
        let mut i: usize = n;
        proof {
            lemma_ids_from_len(a, 0);
        }
        while i > 0
            invariant
                i <= n,
                n == self.nodes@.len(),
                a == self.shape(),
                well_formed(a),
                tree_ids(a).len() == n,
                forall|c: int| i <= c < n ==> #[trigger] self.ids()[c] == tree_ids(a)[c],
                out@.len() == n - i,
                forall|k: int|
                    0 <= k < out@.len() ==> is_store_of(
                        #[trigger] out@[k],
                        db.path@,
                        node_record(a, n - 1 - k, tree_ids(a)),
                    ),
            decreases i,
        {
            let j = i - 1;
            let payload = self.node_payload(j);
            let ghost old_ids = self.ids();
            proof {
                assert forall|k: int|
                    0 <= k < a[j as int].len() && (#[trigger] a[j as int][k]).1 is Dir
                        && j < a[j as int][k].1->index < old_ids.len()
                    implies old_ids[a[j as int][k].1->index as int] == tree_ids(a)[a[j as int][k].1->index as int] by {
                    assert(j < a[j as int][k].1->index);
                }
                lemma_items_bytes_agree(a[j as int], old_ids, tree_ids(a), j as int);
                lemma_tree_id_of_node(a, j as int);
            }
            let content = record(Kind::Tree, payload.as_slice());
            let stored = db.store_bytes(content.as_slice());
            let id = copy_bytes(stored.object_id.as_slice());
            let ghost before = self.nodes@;
            self.nodes[j].object_id = id;
            proof {
                assert(self.nodes@[j as int].items() == before[j as int].items());
                assert(self.shape() =~= a);
                assert forall|c: int| j <= c < n implies #[trigger] self.ids()[c] == tree_ids(a)[c] by {
                    if c != j {
                        assert(self.nodes@[c] == before[c]);
                        assert(old_ids[c] == tree_ids(a)[c]);
                    }
                }
            }
            out.push(stored);
            i = j;
        }
        proof {
            assert(self.ids() =~= tree_ids(a));
        }
        out
    }

    /// Builds the tree of the given entries: they are sorted, then each is
    /// inserted below the root through its ancestor directories.
    pub fn build(entries: Vec<Entry>) -> (r: Result<Tree, TreeError>)
        ensures
            match r {
                Ok(t) => build_model(entry_views(entries@)) == Some(t.shape()) && well_formed(
                    t.shape(),
                ),
                Err(e) => e == TreeError::ConflictingEntry && build_model(entry_views(entries@)) is None,
            },
    {
        let sorted = sort_entries(entries);
        let ghost order = entry_views(sorted@);
        let mut rest = sorted;
        let mut root = Tree::new();
        let mut k: usize = 0;
        let total = rest.len();
        let ghost n = order.len();
        assert(order.subrange(0, 0) =~= Seq::<EntryView>::empty());
        while rest.len() > 0
            invariant
                k + rest@.len() == n,
                n == total,
                n == order.len(),
                order == sort_of(entry_views(entries@)),
                entry_views(rest@) == order.subrange(k as int, n as int),
                build_from(seq![Seq::empty()], order.subrange(0, k as int)) == Some(root.shape()),
                well_formed(root.shape()),
            decreases rest@.len(),
        {
            let ghost before = rest@;
            let entry = rest.remove(0);
            proof {
                assert(rest@ =~= before.subrange(1, before.len() as int));
                assert(entry_views(rest@) =~= entry_views(before).subrange(1, before.len() as int));
                assert(entry_views(rest@) =~= order.subrange(k as int + 1, n as int));
                assert(entry_view(entry) == entry_views(before)[0]);
                assert(entry_view(entry) == order[k as int]);
                assert(order.subrange(0, k as int + 1).last() == order[k as int]);
                assert(order.subrange(0, k as int + 1).drop_last() =~= order.subrange(0, k as int));
            }
            let parents = entry.ancestor_directories();
            proof {
                assert(views_of(parents@) =~= dirs_of(entry.path_bytes()));
            }
            match root.add_entry(parents, entry) {
                Ok(()) => {},
                Err(e) => {
                    proof {
                        lemma_build_from_stops(seq![Seq::empty()], order, k as int + 1);
                    }
                    return Err(e);
                },
            }
            k = k + 1;
        }
        assert(order.subrange(0, k as int) =~= order);
        Ok(root)
    }

    /// A tree with an empty root.
    pub fn new() -> (r: Tree)
        ensures
            r.shape() == seq![Seq::<(Seq<u8>, ItemView)>::empty()],
            well_formed(r.shape()),
    {
        let r = Tree { nodes: vec![TreeNode::new()] };
        assert(r.nodes@[0].items() =~= Seq::<(Seq<u8>, ItemView)>::empty());
        assert(r.shape() =~= seq![Seq::<(Seq<u8>, ItemView)>::empty()]);
        r
    }

    /// The index of the first child of node `cur` named `name`.
    fn find_child(&self, cur: usize, name: &[u8]) -> (r: Option<usize>)
        requires
            cur < self.nodes@.len(),
        ensures
            match r {
                Some(i) => find_name(self.shape()[cur as int], name@) == Some(i as int) && i
                    < self.nodes@[cur as int].entries@.len(),
                None => find_name(self.shape()[cur as int], name@) is None,
            },
    {
        let node = &self.nodes[cur];
        let ghost items = self.shape()[cur as int];
        let mut i: usize = 0;
        while i < node.entries.len()
            invariant
                i <= node.entries@.len(),
                *node == self.nodes@[cur as int],
                cur < self.nodes@.len(),
                items == self.shape()[cur as int],
                items == node.items(),
                forall|k: int| 0 <= k < i ==> (#[trigger] items[k]).0 != name@,
            decreases node.entries@.len() - i,
        {
            assert(items[i as int] == node.entries@[i as int].item_view());
            if bytes_eq(node.entries[i].name.as_slice(), name) {
                proof {
                    lemma_find_first(items, name@, i as int);
                }
                return Some(i);
            }
            i = i + 1;
        }
        proof {
            lemma_find_none(items, name@);
        }
        None
    }

    /// Inserts `entry` below the root, through the directories `parents`
    /// (root-most first), creating missing directories. On
    /// `ConflictingEntry` the tree is left as it was.
    pub fn add_entry(&mut self, parents: Vec<Vec<u8>>, entry: Entry) -> (r: Result<(), TreeError>)
        requires
            well_formed(old(self).shape()),
        ensures
            ({
                let leaf = ItemView::Leaf { executable: entry.executable, id: entry.object_id@ };
                let expected = insert_at(old(self).shape(), 0, views_of(parents@), entry.name_bytes(), leaf);
                match r {
                    Ok(()) => expected == Some(final(self).shape()) && well_formed(final(self).shape()),
                    Err(e) => e == TreeError::ConflictingEntry && expected is None && *final(self)
                        == *old(self),
                }
            }),
    {
        let ghost leaf = ItemView::Leaf { executable: entry.executable, id: entry.object_id@ };
        let ghost dirs = views_of(parents@);
        let ghost name = entry.name_bytes();
        let ghost goal = insert_at(self.shape(), 0, dirs, name, leaf);
        let mut cur: usize = 0;
        let mut k: usize = 0;
        let ghost mut created = false;
        assert(dirs.subrange(0, dirs.len() as int) =~= dirs);
        while k < parents.len()
            invariant
                k <= parents@.len(),
                dirs == views_of(parents@),
                name == entry.name_bytes(),
                leaf == (ItemView::Leaf { executable: entry.executable, id: entry.object_id@ }),
                goal == insert_at(old(self).shape(), 0, dirs, name, leaf),
                cur < self.nodes@.len(),
                !created ==> *self == *old(self),
                created ==> self.nodes@[cur as int].entries@.len() == 0,
                well_formed(self.shape()),
                insert_at(self.shape(), cur as int, dirs.subrange(k as int, dirs.len() as int), name, leaf) == goal,
            decreases parents@.len() - k,
        {
            let ghost a = self.shape();
            assert(dirs.subrange(k as int, dirs.len() as int).drop_first() =~= dirs.subrange(k as int + 1, dirs.len() as int));
            assert(dirs.subrange(k as int, dirs.len() as int)[0] == parents@[k as int]@);
            match self.find_child(cur, parents[k].as_slice()) {
                Some(i) => {
                    assert(!created);
                    match self.nodes[cur].entries[i].child {
                        EntryOrTree::Tree(idx) => {
                            assert(a[cur as int][i as int].1 == ItemView::Dir { index: idx as nat });
                            cur = idx;
                        },
                        EntryOrTree::Entry(_) => {
                            assert(a[cur as int][i as int].1 is Leaf);
                            assert(find_name(a[cur as int], dirs[k as int]) == Some(i as int));
                            assert(insert_at(a, cur as int, dirs.subrange(k as int, dirs.len() as int), name, leaf) is None);
                            return Err(TreeError::ConflictingEntry);
                        },
                    }
                },
                None => {
                    let n = self.nodes.len();
                    let ghost old_nodes = self.nodes@;
                    let item = TreeItem { name: copy_bytes(parents[k].as_slice()), child: EntryOrTree::Tree(n) };
                    self.nodes[cur].entries.push(item);
                    self.nodes.push(TreeNode::new());
                    proof {
                        let a2 = a.update(cur as int, a[cur as int].push((dirs[k as int], ItemView::Dir { index: a.len() }))).push(Seq::empty());
                        assert(self.nodes@[cur as int].items() =~= a[cur as int].push((dirs[k as int], ItemView::Dir { index: a.len() })));
                        assert(self.nodes@[n as int].items() =~= Seq::<(Seq<u8>, ItemView)>::empty());
                        assert forall|j: int| 0 <= j < a2.len() implies #[trigger] self.shape()[j] == a2[j] by {
                            if j != cur && j != n {
                                assert(self.nodes@[j] == old_nodes[j]);
                            }
                        }
                        assert(self.shape() =~= a2);
                    }
                    cur = n;
                    proof {
                        created = true;
                    }
                },
            }
            k = k + 1;
        }
        let ghost a = self.shape();
        assert(dirs.subrange(k as int, dirs.len() as int).len() == 0);
        let name_bytes = copy_bytes(entry.filename.as_str().as_bytes());
        match self.find_child(cur, name_bytes.as_slice()) {
            Some(_) => {
                assert(!created);
                Err(TreeError::ConflictingEntry)
            },
            None => {
                let item = TreeItem { name: name_bytes, child: EntryOrTree::Entry(entry) };
                self.nodes[cur].entries.push(item);
                proof {
                    assert(self.nodes@[cur as int].items() =~= a[cur as int].push((name, leaf)));
                    assert(self.shape() =~= a.update(cur as int, a[cur as int].push((name, leaf))));
                }
                Ok(())
            },
        }
    }
}

impl Object for Tree {
    open spec fn canonical(&self) -> Seq<u8> {
        node_record(self.shape(), 0, self.ids())
    }

    open spec fn id(&self) -> Seq<u8> {
        if self.nodes@.len() > 0 {
            self.nodes@[0].object_id@
        } else {
            Seq::empty()
        }
    }

    fn to_bytes(&self) -> (r: Vec<u8>) {
        if self.nodes.len() == 0 {
            let empty: Vec<u8> = Vec::new();
            record(Kind::Tree, empty.as_slice())
        } else {
            let payload = self.node_payload(0);
            record(Kind::Tree, payload.as_slice())
        }
    }

    fn get_object_id(&self) -> (r: Vec<u8>) {
        if self.nodes.len() == 0 {
            Vec::new()
        } else {
            copy_bytes(self.nodes[0].object_id.as_slice())
        }
    }

    fn set_object_id(&mut self, object_id: Vec<u8>) {
        let ghost a = self.shape();
        let ghost before = self.ids();
        if self.nodes.len() == 0 {
            self.nodes.push(TreeNode { entries: Vec::new(), object_id });
            proof {
                assert(self.nodes@[0].items() =~= Seq::<(Seq<u8>, ItemView)>::empty());
                assert(items_bytes(self.shape()[0], self.ids(), 0) =~= Seq::<u8>::empty());
            }
        } else {
            let ghost old_nodes = self.nodes@;
            self.nodes[0].object_id = object_id;
            proof {
                assert(self.nodes@[0].items() == old_nodes[0].items());
                assert(self.shape() =~= a);
                assert forall|c: int| 0 < c < self.ids().len() implies #[trigger] self.ids()[c] == before[c] by {
                    assert(self.nodes@[c] == old_nodes[c]);
                }
                lemma_items_bytes_agree(a[0], self.ids(), before, 0);
            }
        }
    }
}

} // verus!
