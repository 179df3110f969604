//! The in-memory index of a partition: adjacency in both directions and an
//! ordered index of properties, built whole and never changed.
use crate::maps::{IdMap, NamedMap};
use crate::schema::{EdgeId, EdgeType, Label, NodeId};
use crate::storage;
use crate::storage::{Properties, PropertyValueView, SnapshotId};
use crate::text;
use crate::text::Duplicate;
use std::collections::HashMap;
use vstd::prelude::*;

pub mod builder;
pub mod generation;
pub mod laws;
pub mod scanned;

verus! {

broadcast use vstd::std_specs::hash::group_hash_axioms;

/// A logical partition of the graph.
#[derive(Clone, Copy, Debug, PartialEq, Eq, Hash, PartialOrd, Ord, Structural)]
pub struct PartitionId(pub u32);

/// A node that another partition owns.
#[derive(Clone, Copy, Debug, PartialEq, Eq, Structural)]
pub struct RemoteRef {
    pub partition: PartitionId,
    pub node: NodeId,
}

/// One edge as seen from one of its ends: where it leads. The other end is
/// local, or otherwise remote.
#[derive(Clone, Debug, PartialEq)]
pub struct AdjacencyEntry {
    pub edge_id: EdgeId,
    pub edge_type: EdgeType,
    pub dst_local: Option<NodeId>,
    pub dst_remote: Option<RemoteRef>,
}

pub struct AdjacencyEntryView {
    pub edge_id: EdgeId,
    pub edge_type: Seq<char>,
    pub dst_local: Option<NodeId>,
    pub dst_remote: Option<RemoteRef>,
}

impl View for AdjacencyEntry {
    type V = AdjacencyEntryView;

    open spec fn view(&self) -> AdjacencyEntryView {
        AdjacencyEntryView {
            edge_id: self.edge_id,
            edge_type: self.edge_type@,
            dst_local: self.dst_local,
            dst_remote: self.dst_remote,
        }
    }
}

/// That an entry agrees with the set of local nodes.
pub open spec fn entry_ok(e: AdjacencyEntryView, ids: Seq<NodeId>) -> bool {
    &&& e.dst_local is Some <==> e.dst_remote is None
    &&& e.dst_local matches Some(d) ==> ids.contains(d)
    &&& e.dst_remote matches Some(r) ==> !ids.contains(r.node)
}

/// Adjacency by compressed rows: the entries of all nodes in one array, and
/// for each node where its entries begin.
#[derive(Debug)]
pub struct TopologicalIndex {
    pub(crate) ids: Vec<NodeId>,
    pub(crate) id_to_local: HashMap<u64, usize>,
    pub(crate) out_offsets: Vec<usize>,
    pub(crate) out_entries: Vec<AdjacencyEntry>,
    pub(crate) in_offsets: Vec<usize>,
    pub(crate) in_entries: Vec<AdjacencyEntry>,
}

/// That a table of offsets cuts `len` entries into `rows` rows.
pub open spec fn offsets_ok(offsets: Seq<usize>, rows: nat, len: nat) -> bool {
    &&& offsets.len() == rows + 1
    &&& forall|i: int, j: int| 0 <= i <= j < offsets.len() ==> offsets[i] <= offsets[j]
    &&& forall|i: int| 0 <= i < offsets.len() ==> offsets[i] <= len
}

/// That a table of positions knows exactly the given ids.
pub open spec fn positions_ok(positions: Map<u64, usize>, ids: Seq<NodeId>) -> bool {
    &&& forall|k: u64|
        #![trigger positions.dom().contains(k)]
        positions.dom().contains(k) ==> positions[k] < ids.len() && ids[positions[k] as int].0 == k
    &&& forall|i: int| 0 <= i < ids.len() ==> positions.dom().contains((#[trigger] ids[i]).0)
}

impl TopologicalIndex {
    pub closed spec fn wf(&self) -> bool {
        &&& positions_ok(self.id_to_local@, self.ids@)
        &&& offsets_ok(self.out_offsets@, self.ids@.len(), self.out_entries@.len())
        &&& offsets_ok(self.in_offsets@, self.ids@.len(), self.in_entries@.len())
        &&& forall|i: int|
            0 <= i < self.out_entries@.len() ==> entry_ok(
                (#[trigger] self.out_entries@[i])@,
                self.ids@,
            )
        &&& forall|i: int|
            0 <= i < self.in_entries@.len() ==> entry_ok(
                (#[trigger] self.in_entries@[i])@,
                self.ids@,
            )
    }

    /// The nodes of the partition, in storage order.
    pub closed spec fn nodes(&self) -> Seq<NodeId> {
        self.ids@
    }

    pub(crate) closed spec fn row(
        &self,
        node: NodeId,
        offsets: Seq<usize>,
        entries: Seq<AdjacencyEntry>,
    ) -> Seq<AdjacencyEntryView> {
        if self.id_to_local@.dom().contains(node.0) {
            let i = self.id_to_local@[node.0] as int;
            text::views(entries.subrange(offsets[i] as int, offsets[i + 1] as int))
        } else {
            seq![]
        }
    }

    /// The edges that leave a node.
    pub closed spec fn out_of(&self, node: NodeId) -> Seq<AdjacencyEntryView> {
        self.row(node, self.out_offsets@, self.out_entries@)
    }

    /// The edges that reach a node.
    pub closed spec fn in_to(&self, node: NodeId) -> Seq<AdjacencyEntryView> {
        self.row(node, self.in_offsets@, self.in_entries@)
    }

    /// Every entry of a node leads to a local node or to a remote one, and
    /// agrees with the set of local nodes on which.
    pub proof fn law_entries_say_where_their_node_is(&self, node: NodeId)
        requires
            self.wf(),
        ensures
            forall|i: int|
                0 <= i < self.out_of(node).len() ==> entry_ok(
                    #[trigger] self.out_of(node)[i],
                    self.nodes(),
                ),
            forall|i: int|
                0 <= i < self.in_to(node).len() ==> entry_ok(
                    #[trigger] self.in_to(node)[i],
                    self.nodes(),
                ),
    {
        if self.id_to_local@.dom().contains(node.0) {
            let r = self.id_to_local@[node.0] as int;
            assert(self.out_offsets@[r] <= self.out_offsets@[r + 1]);
            assert(self.in_offsets@[r] <= self.in_offsets@[r + 1]);
            assert forall|i: int| 0 <= i < self.out_of(node).len() implies entry_ok(
                #[trigger] self.out_of(node)[i],
                self.nodes(),
            ) by {
                assert(self.out_of(node)[i] == self.out_entries@[self.out_offsets@[r] + i]@);
            }
            assert forall|i: int| 0 <= i < self.in_to(node).len() implies entry_ok(
                #[trigger] self.in_to(node)[i],
                self.nodes(),
            ) by {
                assert(self.in_to(node)[i] == self.in_entries@[self.in_offsets@[r] + i]@);
            }
        }
    }

    /// A node that the partition does not hold has no edges here.
    pub proof fn law_a_node_not_held_has_no_edges(&self, node: NodeId)
        requires
            self.wf(),
            !self.nodes().contains(node),
        ensures
            self.out_of(node).len() == 0,
            self.in_to(node).len() == 0,
    {
        if self.id_to_local@.dom().contains(node.0) {
            assert(self.ids@[self.id_to_local@[node.0] as int] == node);
        }
    }

    fn neighbors<'a>(
        &'a self,
        node: NodeId,
        offsets: &'a Vec<usize>,
        entries: &'a Vec<AdjacencyEntry>,
    ) -> (r: &'a [AdjacencyEntry])
        requires
            positions_ok(self.id_to_local@, self.ids@),
            offsets_ok(offsets@, self.ids@.len(), entries@.len()),
        ensures
            text::views(r@) == self.row(node, offsets@, entries@),
    {
        match self.id_to_local.get(&node.0) {
            Some(i) => {
                assert(self.id_to_local@.dom().contains(node.0));
                let rows: usize = offsets.len();
                assert(*i < rows - 1);
                let start: usize = offsets[*i];
                let end: usize = offsets[*i + 1];
                vstd::slice::slice_subrange(entries.as_slice(), start, end)
            },
            None => {
                let r = vstd::slice::slice_subrange(entries.as_slice(), 0, 0);
                assert(text::views(r@) =~= Seq::<AdjacencyEntryView>::empty());
                r
            },
        }
    }

    /// The edges that leave a node.
    pub fn out_neighbors(&self, node: NodeId) -> (r: &[AdjacencyEntry])
        requires
            self.wf(),
        ensures
            text::views(r@) == self.out_of(node),
    {
        self.neighbors(node, &self.out_offsets, &self.out_entries)
    }

    /// The edges that reach a node.
    pub fn in_neighbors(&self, node: NodeId) -> (r: &[AdjacencyEntry])
        requires
            self.wf(),
        ensures
            text::views(r@) == self.in_to(node),
    {
        self.neighbors(node, &self.in_offsets, &self.in_entries)
    }

    /// Every node of the partition, in storage order.
    pub fn node_ids(&self) -> (r: &[NodeId])
        ensures
            r@ == self.nodes(),
    {
        self.ids.as_slice()
    }

    /// Whether the partition holds a node.
    pub fn contains(&self, node: NodeId) -> (r: bool)
        requires
            self.wf(),
        ensures
            r == self.nodes().contains(node),
    {
        let r = self.id_to_local.contains_key(&node.0);
        proof {
            if r {
                assert(self.id_to_local@.dom().contains(node.0));
                assert(self.ids@[self.id_to_local@[node.0] as int] == node);
            }
        }
        r
    }
}

/// A property value that the index can order.
#[derive(Clone, Debug, PartialEq, Eq, PartialOrd, Ord)]
pub enum PropertyKey {
    Int64(i64),
    Bool(bool),
    String(String),
    Timestamp(i64),
}

pub enum PropertyKeyView {
    Int64(i64),
    Bool(bool),
    String(Seq<char>),
    Timestamp(i64),
}

impl View for PropertyKey {
    type V = PropertyKeyView;

    open spec fn view(&self) -> PropertyKeyView {
        match self {
            PropertyKey::Int64(v) => PropertyKeyView::Int64(*v),
            PropertyKey::Bool(v) => PropertyKeyView::Bool(*v),
            PropertyKey::String(v) => PropertyKeyView::String(v@),
            PropertyKey::Timestamp(v) => PropertyKeyView::Timestamp(*v),
        }
    }
}

impl Duplicate for PropertyKey {
    fn duplicate(&self) -> (r: Self) {
        match self {
            PropertyKey::Int64(v) => PropertyKey::Int64(*v),
            PropertyKey::Bool(v) => PropertyKey::Bool(*v),
            PropertyKey::String(v) => PropertyKey::String(v.clone()),
            PropertyKey::Timestamp(v) => PropertyKey::Timestamp(*v),
        }
    }
}

/// Keys of different types are ordered by their type.
pub open spec fn key_rank(k: PropertyKeyView) -> int {
    match k {
        PropertyKeyView::Int64(_) => 0,
        PropertyKeyView::Bool(_) => 1,
        PropertyKeyView::String(_) => 2,
        PropertyKeyView::Timestamp(_) => 3,
    }
}

/// The order of keys.
pub open spec fn key_lt(a: PropertyKeyView, b: PropertyKeyView) -> bool {
    match (a, b) {
        (PropertyKeyView::Int64(x), PropertyKeyView::Int64(y)) => x < y,
        (PropertyKeyView::Bool(x), PropertyKeyView::Bool(y)) => !x && y,
        (PropertyKeyView::String(x), PropertyKeyView::String(y)) => text::lex_lt(x, y),
        (PropertyKeyView::Timestamp(x), PropertyKeyView::Timestamp(y)) => x < y,
        _ => key_rank(a) < key_rank(b),
    }
}

/// Keys are totally ordered.
pub proof fn lemma_key_order(a: PropertyKeyView, b: PropertyKeyView)
    ensures
        !key_lt(a, a),
        key_lt(a, b) || key_lt(b, a) || a == b,
        key_lt(a, b) ==> !key_lt(b, a),
{
    if let PropertyKeyView::String(x) = a {
        text::lemma_lex_irreflexive(x);
        if let PropertyKeyView::String(y) = b {
            text::lemma_lex_total(x, y);
            if text::lex_lt(x, y) && text::lex_lt(y, x) {
                text::lemma_lex_transitive(x, y, x);
            }
        }
    }
}

pub proof fn lemma_key_transitive(a: PropertyKeyView, b: PropertyKeyView, c: PropertyKeyView)
    requires
        key_lt(a, b),
        key_lt(b, c),
    ensures
        key_lt(a, c),
{
    if let (PropertyKeyView::String(x), PropertyKeyView::String(y), PropertyKeyView::String(z)) = (
        a,
        b,
        c,
    ) {
        text::lemma_lex_transitive(x, y, z);
    }
}

fn key_rank_exec(k: &PropertyKey) -> (r: u8)
    ensures
        r == key_rank(k@),
{
    match k {
        PropertyKey::Int64(_) => 0,
        PropertyKey::Bool(_) => 1,
        PropertyKey::String(_) => 2,
        PropertyKey::Timestamp(_) => 3,
    }
}

/// Whether a key comes before another one.
pub fn key_less(a: &PropertyKey, b: &PropertyKey) -> (r: bool)
    ensures
        r == key_lt(a@, b@),
{
    match (a, b) {
        (PropertyKey::Int64(x), PropertyKey::Int64(y)) => *x < *y,
        (PropertyKey::Bool(x), PropertyKey::Bool(y)) => !*x && *y,
        (PropertyKey::String(x), PropertyKey::String(y)) => text::str_less(x.as_str(), y.as_str()),
        (PropertyKey::Timestamp(x), PropertyKey::Timestamp(y)) => *x < *y,
        _ => key_rank_exec(a) < key_rank_exec(b),
    }
}

/// Whether two keys are the same.
pub fn key_eq(a: &PropertyKey, b: &PropertyKey) -> (r: bool)
    ensures
        r == (a@ == b@),
{
    match (a, b) {
        (PropertyKey::Int64(x), PropertyKey::Int64(y)) => *x == *y,
        (PropertyKey::Bool(x), PropertyKey::Bool(y)) => *x == *y,
        (PropertyKey::String(x), PropertyKey::String(y)) => *x == *y,
        (PropertyKey::Timestamp(x), PropertyKey::Timestamp(y)) => *x == *y,
        _ => false,
    }
}

/// One end of a range of keys.
#[derive(Clone, Debug, PartialEq)]
pub enum KeyBound {
    Included(PropertyKey),
    Excluded(PropertyKey),
    Unbounded,
}

pub enum KeyBoundView {
    Included(PropertyKeyView),
    Excluded(PropertyKeyView),
    Unbounded,
}

impl View for KeyBound {
    type V = KeyBoundView;

    open spec fn view(&self) -> KeyBoundView {
        match self {
            KeyBound::Included(k) => KeyBoundView::Included(k@),
            KeyBound::Excluded(k) => KeyBoundView::Excluded(k@),
            KeyBound::Unbounded => KeyBoundView::Unbounded,
        }
    }
}

/// Whether a key lies between two bounds.
pub open spec fn in_bounds(k: PropertyKeyView, lower: KeyBoundView, upper: KeyBoundView) -> bool {
    &&& match lower {
        KeyBoundView::Included(l) => !key_lt(k, l),
        KeyBoundView::Excluded(l) => key_lt(l, k),
        KeyBoundView::Unbounded => true,
    }
    &&& match upper {
        KeyBoundView::Included(u) => !key_lt(u, k),
        KeyBoundView::Excluded(u) => key_lt(k, u),
        KeyBoundView::Unbounded => true,
    }
}

/// That two bounds make a range: the lower one is not behind the upper one,
/// nor are both one excluded key.
pub open spec fn bounds_ok(lower: KeyBoundView, upper: KeyBoundView) -> bool {
    match (lower, upper) {
        (KeyBoundView::Unbounded, _) => true,
        (_, KeyBoundView::Unbounded) => true,
        (KeyBoundView::Excluded(l), KeyBoundView::Excluded(u)) => key_lt(l, u),
        (KeyBoundView::Excluded(l), KeyBoundView::Included(u)) => !key_lt(u, l),
        (KeyBoundView::Included(l), KeyBoundView::Excluded(u)) => !key_lt(u, l),
        (KeyBoundView::Included(l), KeyBoundView::Included(u)) => !key_lt(u, l),
    }
}

fn in_bounds_exec(k: &PropertyKey, lower: &KeyBound, upper: &KeyBound) -> (r: bool)
    ensures
        r == in_bounds(k@, lower@, upper@),
{
    let above = match lower {
        KeyBound::Included(l) => !key_less(k, l),
        KeyBound::Excluded(l) => key_less(l, k),
        KeyBound::Unbounded => true,
    };
    let below = match upper {
        KeyBound::Included(u) => !key_less(u, k),
        KeyBound::Excluded(u) => key_less(k, u),
        KeyBound::Unbounded => true,
    };
    above && below
}

/// The nodes that have one value of a property.
#[derive(Debug)]
pub struct KeyEntry {
    pub key: PropertyKey,
    pub ids: Vec<NodeId>,
}

pub struct KeyEntryView {
    pub key: PropertyKeyView,
    pub ids: Seq<NodeId>,
}

impl View for KeyEntry {
    type V = KeyEntryView;

    open spec fn view(&self) -> KeyEntryView {
        KeyEntryView { key: self.key@, ids: self.ids@ }
    }
}

/// The values of one property of one label, in order.
#[derive(Debug)]
pub(crate) struct PropertyTree {
    pub(crate) label: String,
    pub(crate) property: String,
    pub(crate) entries: Vec<KeyEntry>,
}

/// An ordered index of the properties that the schema marks as indexed.
#[derive(Debug)]
pub struct PropertyIndex {
    pub(crate) trees: Vec<PropertyTree>,
}

pub(crate) open spec fn find_tree(
    trees: Seq<PropertyTree>,
    label: Seq<char>,
    property: Seq<char>,
) -> Seq<KeyEntryView>
    decreases trees.len(),
{
    if trees.len() == 0 {
        seq![]
    } else if trees[0].label@ == label && trees[0].property@ == property {
        text::views(trees[0].entries@)
    } else {
        find_tree(trees.drop_first(), label, property)
    }
}

/// The nodes under one key.
pub open spec fn ids_at(tree: Seq<KeyEntryView>, key: PropertyKeyView) -> Seq<NodeId>
    decreases tree.len(),
{
    if tree.len() == 0 {
        seq![]
    } else if tree[0].key == key {
        tree[0].ids
    } else {
        ids_at(tree.drop_first(), key)
    }
}

/// The nodes under the keys of a range, in the order of the keys.
pub open spec fn ids_between(
    tree: Seq<KeyEntryView>,
    lower: KeyBoundView,
    upper: KeyBoundView,
) -> Seq<NodeId>
    decreases tree.len(),
{
    if tree.len() == 0 {
        seq![]
    } else {
        (if in_bounds(tree[0].key, lower, upper) {
            tree[0].ids
        } else {
            seq![]
        }) + ids_between(tree.drop_first(), lower, upper)
    }
}

/// Whether the values of a tree are timestamps. Its keys rise, and those of
/// timestamps come last.
pub open spec fn holds_timestamps(tree: Seq<KeyEntryView>) -> bool {
    tree.len() > 0 && tree[0].key is Timestamp
}

/// That the keys of a tree rise.
pub open spec fn rising(tree: Seq<KeyEntryView>) -> bool {
    forall|i: int, j: int|
        0 <= i < j < tree.len() ==> key_lt((#[trigger] tree[i]).key, (#[trigger] tree[j]).key)
}

/// That there are nodes under each key of a tree.
pub open spec fn full(tree: Seq<KeyEntryView>) -> bool {
    forall|i: int| 0 <= i < tree.len() ==> (#[trigger] tree[i]).ids.len() > 0
}

impl PropertyIndex {
    /// That all trees are in order.
    pub open spec fn wf(&self) -> bool {
        forall|label: Seq<char>, property: Seq<char>|
            rising(#[trigger] self.tree(label, property)) && full(self.tree(label, property))
    }

    /// The values of a property of a label, in order.
    pub closed spec fn tree(&self, label: Seq<char>, property: Seq<char>) -> Seq<KeyEntryView> {
        find_tree(self.trees@, label, property)
    }

    pub(crate) fn position(&self, label: &str, property: &str) -> (r: Option<usize>)
        ensures
            match r {
                Some(i) => i < self.trees@.len() && self.trees@[i as int].label@ == label@
                    && self.trees@[i as int].property@ == property@ && forall|j: int|
                    0 <= j < i ==> !((#[trigger] self.trees@[j]).label@ == label@
                        && self.trees@[j].property@ == property@),
                None => forall|j: int|
                    0 <= j < self.trees@.len() ==> !((#[trigger] self.trees@[j]).label@ == label@
                        && self.trees@[j].property@ == property@),
            },
    {
        let mut i: usize = 0;
        while i < self.trees.len()
            invariant
                i <= self.trees@.len(),
                forall|j: int|
                    0 <= j < i ==> !((#[trigger] self.trees@[j]).label@ == label@
                        && self.trees@[j].property@ == property@),
            decreases self.trees.len() - i,
        {
            if text::str_eq(self.trees[i].label.as_str(), label) && text::str_eq(
                self.trees[i].property.as_str(),
                property,
            ) {
                return Some(i);
            }
            i = i + 1;
        }
        None
    }

    /// Whether the values of a property of a label are timestamps.
    pub(crate) fn holds_timestamps(&self, label: &str, property: &str) -> (r: bool)
        ensures
            r == holds_timestamps(self.tree(label@, property@)),
    {
        match self.position(label, property) {
            None => {
                proof {
                    lemma_find_tree_absent(self.trees@, label@, property@);
                }
                false
            },
            Some(t) => {
                proof {
                    lemma_find_tree_at(self.trees@, label@, property@, t as int);
                }
                let entries = &self.trees[t].entries;
                if entries.len() == 0 {
                    return false;
                }
                assert(text::views(entries@)[0] == entries@[0]@);
                match &entries[0].key {
                    PropertyKey::Timestamp(_) => true,
                    _ => false,
                }
            },
        }
    }

    /// The nodes of a label whose property has a value.
    pub fn lookup_eq(&self, label_or_type: &str, property: &str, key: &PropertyKey) -> (r: &[NodeId])
        ensures
            r@ == ids_at(self.tree(label_or_type@, property@), key@),
    {
        match self.position(label_or_type, property) {
            None => {
                proof {
                    lemma_find_tree_absent(self.trees@, label_or_type@, property@);
                }
                no_ids()
            },
            Some(t) => {
                proof {
                    lemma_find_tree_at(self.trees@, label_or_type@, property@, t as int);
                }
                let entries = &self.trees[t].entries;
                let ghost all = text::views(entries@);
                let mut i: usize = 0;
                assert(all.skip(0) =~= all);
                while i < entries.len()
                    invariant
                        i <= entries.len(),
                        all == text::views(entries@),
                        all == self.tree(label_or_type@, property@),
                        ids_at(all, key@) == ids_at(all.skip(i as int), key@),
                    decreases entries.len() - i,
                {
                    assert(all.skip(i as int)[0] == entries[i as int]@);
                    assert(all.skip(i as int).drop_first() =~= all.skip(i + 1));
                    if key_eq(&entries[i].key, key) {
                        return entries[i].ids.as_slice();
                    }
                    i = i + 1;
                }
                no_ids()
            },
        }
    }

    /// The nodes of a label whose property lies in a range, in the order of
    /// the values.
    pub fn lookup_range(
        &self,
        label_or_type: &str,
        property: &str,
        bounds: (KeyBound, KeyBound),
    ) -> (r: Vec<NodeId>)
        requires
            self.tree(label_or_type@, property@).len() > 0 ==> bounds_ok(bounds.0@, bounds.1@),
        ensures
            r@ == ids_between(self.tree(label_or_type@, property@), bounds.0@, bounds.1@),
    {
        let mut found: Vec<NodeId> = Vec::new();
        match self.position(label_or_type, property) {
            None => {
                proof {
                    lemma_find_tree_absent(self.trees@, label_or_type@, property@);
                }
                found
            },
            Some(t) => {
                proof {
                    lemma_find_tree_at(self.trees@, label_or_type@, property@, t as int);
                }
                let entries = &self.trees[t].entries;
                let ghost all = text::views(entries@);
                let ghost lower = bounds.0@;
                let ghost upper = bounds.1@;
                let mut i: usize = 0;
                assert(all.skip(0) =~= all);
                assert(found@ + ids_between(all, lower, upper) =~= ids_between(all, lower, upper));
                while i < entries.len()
                    invariant
                        i <= entries.len(),
                        all == text::views(entries@),
                        all == self.tree(label_or_type@, property@),
                        lower == bounds.0@,
                        upper == bounds.1@,
                        ids_between(all, lower, upper) == found@ + ids_between(
                            all.skip(i as int),
                            lower,
                            upper,
                        ),
                    decreases entries.len() - i,
                {
                    let ghost rest = ids_between(all.skip(i + 1), lower, upper);
                    let ghost before = found@;
                    assert(all.skip(i as int)[0] == entries[i as int]@);
                    assert(all.skip(i as int).drop_first() =~= all.skip(i + 1));
                    if in_bounds_exec(&entries[i].key, &bounds.0, &bounds.1) {
                        let mut ids = copy_ids(&entries[i].ids);
                        found.append(&mut ids);
                        assert(before + (entries[i as int].ids@ + rest) =~= found@ + rest);
                    } else {
                        assert(before + (Seq::<NodeId>::empty() + rest) =~= found@ + rest);
                    }
                    i = i + 1;
                }
                assert(found@ + Seq::<NodeId>::empty() =~= found@);
                found
            },
        }
    }
}

pub(crate) proof fn lemma_find_tree_absent(
    trees: Seq<PropertyTree>,
    label: Seq<char>,
    property: Seq<char>,
)
    requires
        forall|j: int|
            0 <= j < trees.len() ==> !((#[trigger] trees[j]).label@ == label && trees[j].property@
                == property),
    ensures
        find_tree(trees, label, property) == Seq::<KeyEntryView>::empty(),
    decreases trees.len(),
{
    if trees.len() > 0 {
        let tail = trees.drop_first();
        assert forall|j: int| 0 <= j < tail.len() implies !((#[trigger] tail[j]).label@ == label
            && tail[j].property@ == property) by {
            assert(tail[j] == trees[j + 1]);
        }
        assert(!(trees[0].label@ == label && trees[0].property@ == property));
        lemma_find_tree_absent(tail, label, property);
    }
}

pub(crate) proof fn lemma_find_tree_at(
    trees: Seq<PropertyTree>,
    label: Seq<char>,
    property: Seq<char>,
    i: int,
)
    requires
        0 <= i < trees.len(),
        trees[i].label@ == label,
        trees[i].property@ == property,
        forall|j: int|
            0 <= j < i ==> !((#[trigger] trees[j]).label@ == label && trees[j].property@
                == property),
    ensures
        find_tree(trees, label, property) == text::views(trees[i].entries@),
    decreases trees.len(),
{
    if i > 0 {
        let tail = trees.drop_first();
        assert forall|j: int| 0 <= j < i - 1 implies !((#[trigger] tail[j]).label@ == label
            && tail[j].property@ == property) by {
            assert(tail[j] == trees[j + 1]);
        }
        assert(!(trees[0].label@ == label && trees[0].property@ == property));
        lemma_find_tree_at(tail, label, property, i - 1);
    }
}

/// No nodes.
fn no_ids() -> (r: &'static [NodeId])
    ensures
        r@ == Seq::<NodeId>::empty(),
{
    let none: &'static [NodeId; 0] = &[];
    let r: &'static [NodeId] = none;
    assert(r@ =~= Seq::<NodeId>::empty());
    r
}

pub(crate) fn copy_ids(ids: &Vec<NodeId>) -> (r: Vec<NodeId>)
    ensures
        r@ == ids@,
{
    let mut out: Vec<NodeId> = Vec::new();
    let mut i: usize = 0;
    while i < ids.len()
        invariant
            i <= ids.len(),
            out@ == ids@.take(i as int),
        decreases ids.len() - i,
    {
        out.push(ids[i]);
        assert(out@ =~= ids@.take(i + 1));
        i = i + 1;
    }
    assert(out@ =~= ids@);
    out
}

/// All that is known of a node.
#[derive(Clone, Debug)]
pub struct NodeRecord {
    pub label: Label,
    pub properties: Properties,
}

pub struct NodeRecordView {
    pub label: Seq<char>,
    pub properties: Map<Seq<char>, PropertyValueView>,
}

impl View for NodeRecord {
    type V = NodeRecordView;

    open spec fn view(&self) -> NodeRecordView {
        NodeRecordView {
            label: self.label@,
            properties: storage::property_views(self.properties@),
        }
    }
}

/// All that is known of an edge, besides its ends.
#[derive(Clone, Debug)]
pub struct EdgeRecord {
    pub edge_type: EdgeType,
    pub properties: Properties,
}

pub struct EdgeRecordView {
    pub edge_type: Seq<char>,
    pub properties: Map<Seq<char>, PropertyValueView>,
}

impl View for EdgeRecord {
    type V = EdgeRecordView;

    open spec fn view(&self) -> EdgeRecordView {
        EdgeRecordView {
            edge_type: self.edge_type@,
            properties: storage::property_views(self.properties@),
        }
    }
}

/// Where an index comes from and how large it is.
#[derive(Debug)]
pub struct GenerationMeta {
    pub partition: PartitionId,
    pub snapshot_by_table: NamedMap<SnapshotId>,
    pub built_at_unix_ms: i64,
    pub node_count: u64,
    pub edge_count: u64,
}

/// One complete index of a partition.
#[derive(Debug)]
pub struct IndexGeneration {
    pub meta: GenerationMeta,
    pub topology: TopologicalIndex,
    pub properties: PropertyIndex,
    pub node_records: IdMap<NodeRecord>,
    pub edge_records: IdMap<EdgeRecord>,
}

impl IndexGeneration {
    pub open spec fn wf(&self) -> bool {
        &&& self.topology.wf()
        &&& self.properties.wf()
        &&& self.node_records.wf()
        &&& self.edge_records.wf()
    }
}

} // verus!
