//! Builds the index of a partition out of scanned rows.
//!
//! Every row of every table is scanned; the builder keeps the nodes that the
//! partition owns. An edge whose other end is not here leads to a remote
//! reference where another partition owns that end; where this partition
//! should own it, the store does not hold it and the edge is left out.
use crate::index;
use crate::index::laws;
use crate::index::{
    AdjacencyEntry, AdjacencyEntryView, EdgeRecord, EdgeRecordView, GenerationMeta,
    IndexGeneration, KeyEntry, KeyEntryView, NodeRecord, NodeRecordView, PartitionId,
    PropertyIndex, PropertyKey, PropertyKeyView, PropertyTree, RemoteRef, TopologicalIndex,
};
use crate::maps::{IdMap, NamedMap};
use crate::schema;
use crate::schema::partitioning;
use crate::schema::{EdgeType, Label, NodeId, PropertyDefView, Schema, SchemaError, SchemaView};
use crate::storage;
use crate::storage::{
    EdgeRow, EdgeRowView, NodeRow, NodeRowView, PropertyValue, PropertyValueView, SnapshotId,
    StorageError,
};
use crate::text;
use std::collections::HashMap;
use vstd::prelude::*;
use vstd::string::*;

verus! {

broadcast use vstd::std_specs::hash::group_hash_axioms;

/// A scanned node row with the label of its table.
#[derive(Clone, Debug)]
pub struct ScannedNode {
    pub label: Label,
    pub row: NodeRow,
}

pub struct ScannedNodeView {
    pub label: Seq<char>,
    pub row: NodeRowView,
}

impl View for ScannedNode {
    type V = ScannedNodeView;

    open spec fn view(&self) -> ScannedNodeView {
        ScannedNodeView { label: self.label@, row: self.row@ }
    }
}

/// A scanned edge row with the type of its table.
#[derive(Clone, Debug)]
pub struct ScannedEdge {
    pub edge_type: EdgeType,
    pub row: EdgeRow,
}

pub struct ScannedEdgeView {
    pub edge_type: Seq<char>,
    pub row: EdgeRowView,
}

impl View for ScannedEdge {
    type V = ScannedEdgeView;

    open spec fn view(&self) -> ScannedEdgeView {
        ScannedEdgeView { edge_type: self.edge_type@, row: self.row@ }
    }
}

/// The scanned nodes that a partition owns.
pub open spec fn owned_nodes(nodes: Seq<ScannedNodeView>, partition: PartitionId, n: u32) -> Seq<
    ScannedNodeView,
>
    decreases nodes.len(),
{
    if nodes.len() == 0 {
        seq![]
    } else {
        let rest = owned_nodes(nodes.drop_last(), partition, n);
        if partitioning::owner(nodes.last().row.id, n) == partition.0 {
            rest.push(nodes.last())
        } else {
            rest
        }
    }
}

/// The ids of scanned nodes, in their order.
pub open spec fn ids_of(nodes: Seq<ScannedNodeView>) -> Seq<NodeId> {
    Seq::new(nodes.len(), |i: int| nodes[i].row.id)
}

/// The end that an edge is listed under, and the end it leads to.
pub open spec fn near_end(row: EdgeRowView, outgoing: bool) -> NodeId {
    if outgoing {
        row.src
    } else {
        row.dst
    }
}

pub open spec fn far_end(row: EdgeRowView, outgoing: bool) -> NodeId {
    if outgoing {
        row.dst
    } else {
        row.src
    }
}

/// Whether an edge leads anywhere, seen from a partition that holds `ids`: its
/// other end is here, or another partition owns it.
pub open spec fn leads_on(
    e: ScannedEdgeView,
    ids: Seq<NodeId>,
    partition: PartitionId,
    n: u32,
    outgoing: bool,
) -> bool {
    let far = far_end(e.row, outgoing);
    ids.contains(far) || partitioning::owner(far, n) != partition.0
}

/// Where an edge leads, seen from a partition that holds `ids`.
pub open spec fn entry_of(
    e: ScannedEdgeView,
    ids: Seq<NodeId>,
    partition: PartitionId,
    n: u32,
    outgoing: bool,
) -> AdjacencyEntryView {
    let far = far_end(e.row, outgoing);
    let home = partitioning::owner(far, n);
    AdjacencyEntryView {
        edge_id: e.row.id,
        edge_type: e.edge_type,
        dst_local: if ids.contains(far) {
            Some(far)
        } else {
            None
        },
        dst_remote: if ids.contains(far) {
            None
        } else {
            Some(RemoteRef { partition: PartitionId(home), node: far })
        },
    }
}

/// The entries of a node: its edges that lead on, in the order they were
/// scanned.
pub open spec fn adjacent(
    edges: Seq<ScannedEdgeView>,
    node: NodeId,
    ids: Seq<NodeId>,
    partition: PartitionId,
    n: u32,
    outgoing: bool,
) -> Seq<AdjacencyEntryView>
    decreases edges.len(),
{
    if edges.len() == 0 {
        seq![]
    } else {
        let rest = adjacent(edges.drop_last(), node, ids, partition, n, outgoing);
        if near_end(edges.last().row, outgoing) == node && leads_on(
            edges.last(),
            ids,
            partition,
            n,
            outgoing,
        ) {
            rest.push(entry_of(edges.last(), ids, partition, n, outgoing))
        } else {
            rest
        }
    }
}

/// The key under which a value is indexed. Floats, bytes, lists and nothing
/// have none.
pub open spec fn key_of(v: PropertyValueView) -> Option<PropertyKeyView> {
    match v {
        PropertyValueView::Int64(x) => Some(PropertyKeyView::Int64(x)),
        PropertyValueView::Bool(x) => Some(PropertyKeyView::Bool(x)),
        PropertyValueView::String(x) => Some(PropertyKeyView::String(x)),
        PropertyValueView::Timestamp(x) => Some(PropertyKeyView::Timestamp(x)),
        _ => None,
    }
}

/// One entry of the property index, as it is made.
pub struct Posting {
    pub label: Seq<char>,
    pub property: Seq<char>,
    pub key: PropertyKeyView,
    pub id: NodeId,
}

/// What one declared property contributes for a node.
pub open spec fn property_posting(x: ScannedNodeView, def: PropertyDefView) -> Seq<Posting> {
    if def.indexed && x.row.properties.dom().contains(def.name) {
        match key_of(x.row.properties[def.name]) {
            Some(key) => seq![
                Posting { label: x.label, property: def.name, key, id: x.row.id },
            ],
            None => seq![],
        }
    } else {
        seq![]
    }
}

/// What a node contributes under the declared properties of its label.
pub open spec fn property_postings(x: ScannedNodeView, defs: Seq<PropertyDefView>) -> Seq<Posting>
    decreases defs.len(),
{
    if defs.len() == 0 {
        seq![]
    } else {
        property_postings(x, defs.drop_last()) + property_posting(x, defs.last())
    }
}

pub open spec fn node_postings(x: ScannedNodeView, s: SchemaView) -> Seq<Posting> {
    match schema::find_node(s.nodes, x.label) {
        Some(def) => property_postings(x, def.properties),
        None => seq![],
    }
}

/// What all nodes contribute to the property index.
pub open spec fn postings(nodes: Seq<ScannedNodeView>, s: SchemaView) -> Seq<Posting>
    decreases nodes.len(),
{
    if nodes.len() == 0 {
        seq![]
    } else {
        postings(nodes.drop_last(), s) + node_postings(nodes.last(), s)
    }
}

/// A tree with one more node under a key.
pub open spec fn tree_insert(tree: Seq<KeyEntryView>, key: PropertyKeyView, id: NodeId) -> Seq<
    KeyEntryView,
>
    decreases tree.len(),
{
    if tree.len() == 0 {
        seq![KeyEntryView { key, ids: seq![id] }]
    } else if tree[0].key == key {
        seq![KeyEntryView { key, ids: tree[0].ids.push(id) }] + tree.drop_first()
    } else if index::key_lt(key, tree[0].key) {
        seq![KeyEntryView { key, ids: seq![id] }] + tree
    } else {
        seq![tree[0]] + tree_insert(tree.drop_first(), key, id)
    }
}

/// The tree that postings make for one property of one label.
pub open spec fn tree_of(ps: Seq<Posting>, label: Seq<char>, property: Seq<char>) -> Seq<
    KeyEntryView,
>
    decreases ps.len(),
{
    if ps.len() == 0 {
        seq![]
    } else {
        let rest = tree_of(ps.drop_last(), label, property);
        if ps.last().label == label && ps.last().property == property {
            tree_insert(rest, ps.last().key, ps.last().id)
        } else {
            rest
        }
    }
}

/// The records of nodes: of several rows with one id the last counts.
pub open spec fn node_record_map(nodes: Seq<ScannedNodeView>) -> Map<u64, NodeRecordView>
    decreases nodes.len(),
{
    if nodes.len() == 0 {
        Map::empty()
    } else {
        let x = nodes.last();
        node_record_map(nodes.drop_last()).insert(
            x.row.id.0,
            NodeRecordView { label: x.label, properties: x.row.properties },
        )
    }
}

/// The ids of nodes, each once, in the order they first occur.
pub open spec fn first_ids(nodes: Seq<ScannedNodeView>) -> Seq<u64>
    decreases nodes.len(),
{
    if nodes.len() == 0 {
        seq![]
    } else {
        let rest = first_ids(nodes.drop_last());
        if node_record_map(nodes.drop_last()).dom().contains(nodes.last().row.id.0) {
            rest
        } else {
            rest.push(nodes.last().row.id.0)
        }
    }
}

/// The records of the edges that a partition owns: those whose source it
/// owns.
pub open spec fn edge_record_map(edges: Seq<ScannedEdgeView>, partition: PartitionId, n: u32) -> Map<
    u64,
    EdgeRecordView,
>
    decreases edges.len(),
{
    if edges.len() == 0 {
        Map::empty()
    } else {
        let x = edges.last();
        let rest = edge_record_map(edges.drop_last(), partition, n);
        if partitioning::owner(x.row.src, n) == partition.0 {
            rest.insert(
                x.row.id.0,
                EdgeRecordView { edge_type: x.edge_type, properties: x.row.properties },
            )
        } else {
            rest
        }
    }
}

pub open spec fn node_record_views(m: Map<u64, NodeRecord>) -> Map<u64, NodeRecordView> {
    m.map_values(|r: NodeRecord| r@)
}

pub open spec fn edge_record_views(m: Map<u64, EdgeRecord>) -> Map<u64, EdgeRecordView> {
    m.map_values(|r: EdgeRecord| r@)
}

/// That an index holds exactly what the rows say, for a partition out of `n`.
pub open spec fn indexes(
    g: IndexGeneration,
    s: SchemaView,
    partition: PartitionId,
    n: u32,
    nodes: Seq<ScannedNodeView>,
    edges: Seq<ScannedEdgeView>,
) -> bool {
    let owned = owned_nodes(nodes, partition, n);
    let ids = ids_of(owned);
    &&& g.wf()
    &&& g.topology.nodes() == ids
    &&& forall|node: NodeId| #[trigger]
        g.topology.out_of(node) == if ids.contains(node) {
            adjacent(edges, node, ids, partition, n, true)
        } else {
            seq![]
        }
    &&& forall|node: NodeId| #[trigger]
        g.topology.in_to(node) == if ids.contains(node) {
            adjacent(edges, node, ids, partition, n, false)
        } else {
            seq![]
        }
    &&& forall|label: Seq<char>, property: Seq<char>| #[trigger]
        g.properties.tree(label, property) == tree_of(postings(owned, s), label, property)
    &&& node_record_views(g.node_records.map()) == node_record_map(owned)
    &&& g.node_records.order() == first_ids(owned)
    &&& edge_record_views(g.edge_records.map()) == edge_record_map(edges, partition, n)
}

fn property_key(value: &PropertyValue) -> (r: Option<PropertyKey>)
    ensures
        text::option_view(r) == key_of(value@),
{
    match value {
        PropertyValue::Int64(v) => Some(PropertyKey::Int64(*v)),
        PropertyValue::Bool(v) => Some(PropertyKey::Bool(*v)),
        PropertyValue::String(v) => Some(PropertyKey::String(v.clone())),
        PropertyValue::Timestamp(v) => Some(PropertyKey::Timestamp(*v)),
        PropertyValue::Float64(_) => None,
        PropertyValue::Bytes(_) => None,
        PropertyValue::List(_) => None,
        PropertyValue::Null => None,
    }
}

/// What the row at position `i` holds after `edges`.
spec fn bucket(
    edges: Seq<ScannedEdgeView>,
    i: int,
    positions: Map<u64, usize>,
    ids: Seq<NodeId>,
    partition: PartitionId,
    n: u32,
    outgoing: bool,
) -> Seq<AdjacencyEntryView> {
    if positions[ids[i].0] == i {
        adjacent(edges, ids[i], ids, partition, n, outgoing)
    } else {
        seq![]
    }
}

/// Lists edges under one of their ends, row by row.
fn build_csr(
    partition: PartitionId,
    ids: &Vec<NodeId>,
    id_to_local: &HashMap<u64, usize>,
    edges: &Vec<ScannedEdge>,
    outgoing: bool,
    n_partitions: u32,
) -> (r: (Vec<usize>, Vec<AdjacencyEntry>))
    requires
        index::positions_ok(id_to_local@, ids@),
        n_partitions > 0,
    ensures
        index::offsets_ok(r.0@, ids@.len(), r.1@.len()),
        forall|i: int|
            0 <= i < ids@.len() ==> text::views(
                r.1@.subrange(#[trigger] r.0@[i] as int, r.0@[i + 1] as int),
            ) == bucket(
                text::views(edges@),
                i,
                id_to_local@,
                ids@,
                partition,
                n_partitions,
                outgoing,
            ),
        forall|i: int| 0 <= i < r.1@.len() ==> index::entry_ok((#[trigger] r.1@[i])@, ids@),
{
    let ghost all = text::views(edges@);
    let ghost positions = id_to_local@;
    let mut buckets: Vec<Vec<AdjacencyEntry>> = Vec::new();
    let mut b: usize = 0;
    while b < ids.len()
        invariant
            b <= ids@.len(),
            buckets@.len() == b,
            forall|i: int| 0 <= i < b ==> (#[trigger] buckets@[i])@.len() == 0,
        decreases ids.len() - b,
    {
        buckets.push(Vec::new());
        b = b + 1;
    }
    let mut k: usize = 0;
    assert forall|i: int| 0 <= i < ids@.len() implies text::views((#[trigger] buckets@[i])@)
        == bucket(all.take(0), i, positions, ids@, partition, n_partitions, outgoing) by {
        assert(text::views(buckets@[i]@) =~= Seq::<AdjacencyEntryView>::empty());
    }
    while k < edges.len()
        invariant
            k <= edges@.len(),
            n_partitions > 0,
            all == text::views(edges@),
            positions == id_to_local@,
            index::positions_ok(positions, ids@),
            buckets@.len() == ids@.len(),
            forall|i: int|
                0 <= i < ids@.len() ==> text::views((#[trigger] buckets@[i])@) == bucket(
                    all.take(k as int),
                    i,
                    positions,
                    ids@,
                    partition,
                    n_partitions,
                    outgoing,
                ),
            forall|i: int, j: int|
                0 <= i < ids@.len() && 0 <= j < buckets@[i]@.len() ==> index::entry_ok(
                    (#[trigger] buckets@[i]@[j])@,
                    ids@,
                ),
        decreases edges.len() - k,
    {
        let e = &edges[k];
        assert(all.take(k + 1).drop_last() =~= all.take(k as int));
        assert(all.take(k + 1).last() == e@);
        let (near, far) = if outgoing {
            (e.row.src, e.row.dst)
        } else {
            (e.row.dst, e.row.src)
        };
        let is_local = id_to_local.contains_key(&far.0);
        proof {
            if is_local {
                assert(positions.dom().contains(far.0));
                assert(ids@[positions[far.0] as int] == far);
            }
        }
        let home = partitioning::partition_of(far, n_partitions);
        let at: Option<usize> = if is_local || home != partition.0 {
            match id_to_local.get(&near.0) {
                Some(i) => Some(*i),
                None => None,
            }
        } else {
            None
        };
        match at {
            None => {
                assert forall|i: int| 0 <= i < ids@.len() implies text::views(
                    (#[trigger] buckets@[i])@,
                ) == bucket(
                    all.take(k + 1),
                    i,
                    positions,
                    ids@,
                    partition,
                    n_partitions,
                    outgoing,
                ) by {
                    assert(positions.dom().contains(ids@[i].0));
                }
            },
            Some(i) => {
                assert(positions.dom().contains(near.0));
                let entry = AdjacencyEntry {
                    edge_id: e.row.id,
                    edge_type: EdgeType(e.edge_type.0.clone()),
                    dst_local: if is_local {
                        Some(far)
                    } else {
                        None
                    },
                    dst_remote: if is_local {
                        None
                    } else {
                        Some(RemoteRef { partition: PartitionId(home), node: far })
                    },
                };
                assert(entry@ == entry_of(e@, ids@, partition, n_partitions, outgoing));
                let ghost before = buckets@;
                let mut row: Vec<AdjacencyEntry> = Vec::new();
                std::mem::swap(&mut row, &mut buckets[i]);
                proof {
                    text::lemma_views_push(row@, entry);
                }
                row.push(entry);
                std::mem::swap(&mut row, &mut buckets[i]);
                assert(buckets@ =~= before.update(i as int, buckets@[i as int]));
                assert forall|j: int| 0 <= j < ids@.len() implies text::views(
                    (#[trigger] buckets@[j])@,
                ) == bucket(
                    all.take(k + 1),
                    j,
                    positions,
                    ids@,
                    partition,
                    n_partitions,
                    outgoing,
                ) by {
                    if j != i {
                        assert(buckets@[j] == before[j]);
                        assert(ids@[i as int] == near);
                    }
                }
                assert forall|x: int, y: int|
                    0 <= x < ids@.len() && 0 <= y < buckets@[x]@.len() implies index::entry_ok(
                    (#[trigger] buckets@[x]@[y])@,
                    ids@,
                ) by {
                    if x == i {
                        if y < before[x]@.len() {
                            assert(buckets@[x]@[y] == before[x]@[y]);
                        }
                    } else {
                        assert(buckets@[x] == before[x]);
                    }
                }
            },
        }
        k = k + 1;
    }
    assert(all.take(k as int) =~= all);
    let mut offsets: Vec<usize> = Vec::new();
    let mut entries: Vec<AdjacencyEntry> = Vec::new();
    offsets.push(0);
    let ghost rows = buckets@;
    let mut i: usize = 0;
    while i < buckets.len()
        invariant
            i <= rows.len(),
            buckets@.len() == rows.len(),
            rows.len() == ids@.len(),
            offsets@.len() == i + 1,
            offsets@[i as int] == entries@.len(),
            forall|a: int, c: int| 0 <= a <= c < offsets@.len() ==> offsets@[a] <= offsets@[c],
            forall|a: int|
                0 <= a < i ==> entries@.subrange(
                    #[trigger] offsets@[a] as int,
                    offsets@[a + 1] as int,
                ) == rows[a]@,
            forall|a: int| i <= a < rows.len() ==> buckets@[a] == rows[a],
            forall|a: int, j: int|
                0 <= a < rows.len() && 0 <= j < rows[a]@.len() ==> index::entry_ok(
                    (#[trigger] rows[a]@[j])@,
                    ids@,
                ),
            forall|a: int| 0 <= a < entries@.len() ==> index::entry_ok(
                (#[trigger] entries@[a])@,
                ids@,
            ),
        decreases buckets.len() - i,
    {
        let ghost before = entries@;
        let ghost offsets_before = offsets@;
        let mut row: Vec<AdjacencyEntry> = Vec::new();
        std::mem::swap(&mut row, &mut buckets[i]);
        assert(row@ == rows[i as int]@);
        entries.append(&mut row);
        offsets.push(entries.len());
        assert forall|a: int| 0 <= a < i + 1 implies entries@.subrange(
            #[trigger] offsets@[a] as int,
            offsets@[a + 1] as int,
        ) == rows[a]@ by {
            if a < i {
                assert(offsets@[a] == offsets_before[a]);
                assert(offsets_before[a + 1] <= offsets_before[i as int]);
                assert(entries@.subrange(offsets@[a] as int, offsets@[a + 1] as int)
                    =~= before.subrange(offsets@[a] as int, offsets@[a + 1] as int));
            } else {
                assert(entries@.subrange(offsets@[a] as int, offsets@[a + 1] as int)
                    =~= rows[a]@);
            }
        }
        assert forall|a: int| 0 <= a < entries@.len() implies index::entry_ok(
            (#[trigger] entries@[a])@,
            ids@,
        ) by {
            if a < before.len() {
                assert(entries@[a] == before[a]);
            } else {
                assert(entries@[a] == rows[i as int]@[a - before.len()]);
            }
        }
        i = i + 1;
    }
    (offsets, entries)
}

/// Builds the adjacency of a partition in both directions.
fn build_topology(
    partition: PartitionId,
    nodes: &Vec<ScannedNode>,
    edges: &Vec<ScannedEdge>,
    n_partitions: u32,
) -> (r: TopologicalIndex)
    requires
        n_partitions > 0,
    ensures
        r.wf(),
        r.nodes() == ids_of(text::views(nodes@)),
        forall|node: NodeId| #[trigger]
            r.out_of(node) == if r.nodes().contains(node) {
                adjacent(text::views(edges@), node, r.nodes(), partition, n_partitions, true)
            } else {
                seq![]
            },
        forall|node: NodeId| #[trigger]
            r.in_to(node) == if r.nodes().contains(node) {
                adjacent(text::views(edges@), node, r.nodes(), partition, n_partitions, false)
            } else {
                seq![]
            },
{
    let mut ids: Vec<NodeId> = Vec::new();
    let mut id_to_local: HashMap<u64, usize> = HashMap::new();
    let mut i: usize = 0;
    while i < nodes.len()
        invariant
            i <= nodes@.len(),
            ids@ == ids_of(text::views(nodes@)).take(i as int),
            index::positions_ok(id_to_local@, ids@),
        decreases nodes.len() - i,
    {
        let id = nodes[i].row.id;
        let ghost before = ids@;
        let ghost positions = id_to_local@;
        ids.push(id);
        id_to_local.insert(id.0, i);
        assert(ids@ =~= ids_of(text::views(nodes@)).take(i + 1));
        assert forall|k: u64|
            #![trigger id_to_local@.dom().contains(k)]
            id_to_local@.dom().contains(k) implies id_to_local@[k] < ids@.len()
            && ids@[id_to_local@[k] as int].0 == k by {
            if k != id.0 {
                assert(positions.dom().contains(k));
            }
        }
        assert forall|j: int| 0 <= j < ids@.len() implies id_to_local@.dom().contains(
            (#[trigger] ids@[j]).0,
        ) by {
            if j < i {
                assert(positions.dom().contains(before[j].0));
            }
        }
        i = i + 1;
    }
    assert(ids@ =~= ids_of(text::views(nodes@)));
    let (out_offsets, out_entries) = build_csr(
        partition,
        &ids,
        &id_to_local,
        edges,
        true,
        n_partitions,
    );
    let (in_offsets, in_entries) = build_csr(
        partition,
        &ids,
        &id_to_local,
        edges,
        false,
        n_partitions,
    );
    let r = TopologicalIndex {
        ids,
        id_to_local,
        out_offsets,
        out_entries,
        in_offsets,
        in_entries,
    };
    proof {
        r.lemma_built(text::views(edges@), partition, n_partitions);
    }
    r
}

impl TopologicalIndex {
    proof fn lemma_built(&self, edges: Seq<ScannedEdgeView>, partition: PartitionId, n: u32)
        requires
            index::positions_ok(self.id_to_local@, self.ids@),
            forall|i: int|
                0 <= i < self.ids@.len() ==> text::views(
                    self.out_entries@.subrange(
                        #[trigger] self.out_offsets@[i] as int,
                        self.out_offsets@[i + 1] as int,
                    ),
                ) == bucket(edges, i, self.id_to_local@, self.ids@, partition, n, true),
            forall|i: int|
                0 <= i < self.ids@.len() ==> text::views(
                    self.in_entries@.subrange(
                        #[trigger] self.in_offsets@[i] as int,
                        self.in_offsets@[i + 1] as int,
                    ),
                ) == bucket(edges, i, self.id_to_local@, self.ids@, partition, n, false),
        ensures
            forall|node: NodeId| #[trigger]
                self.row(node, self.out_offsets@, self.out_entries@) == if self.ids@.contains(
                    node,
                ) {
                    adjacent(edges, node, self.ids@, partition, n, true)
                } else {
                    seq![]
                },
            forall|node: NodeId| #[trigger]
                self.row(node, self.in_offsets@, self.in_entries@) == if self.ids@.contains(node) {
                    adjacent(edges, node, self.ids@, partition, n, false)
                } else {
                    seq![]
                },
    {
    }
}

proof fn lemma_tree_insert_new(tree: Seq<KeyEntryView>, key: PropertyKeyView, id: NodeId, i: int)
    requires
        0 <= i <= tree.len(),
        forall|j: int|
            0 <= j < i ==> (#[trigger] tree[j]).key != key && !index::key_lt(key, tree[j].key),
        i < tree.len() ==> tree[i].key != key && index::key_lt(key, tree[i].key),
    ensures
        tree_insert(tree, key, id) == tree.insert(i, KeyEntryView { key, ids: seq![id] }),
    decreases tree.len(),
{
    let entry = KeyEntryView { key, ids: seq![id] };
    if tree.len() == 0 || i == 0 {
        assert(tree_insert(tree, key, id) =~= tree.insert(i, entry));
    } else {
        assert(tree[0].key != key);
        lemma_tree_insert_new(tree.drop_first(), key, id, i - 1);
        assert(seq![tree[0]] + tree.drop_first().insert(i - 1, entry) =~= tree.insert(i, entry));
    }
}

proof fn lemma_tree_insert_known(tree: Seq<KeyEntryView>, key: PropertyKeyView, id: NodeId, i: int)
    requires
        0 <= i < tree.len(),
        forall|j: int|
            0 <= j < i ==> (#[trigger] tree[j]).key != key && !index::key_lt(key, tree[j].key),
        tree[i].key == key,
    ensures
        tree_insert(tree, key, id) == tree.update(
            i,
            KeyEntryView { key, ids: tree[i].ids.push(id) },
        ),
    decreases tree.len(),
{
    let entry = KeyEntryView { key, ids: tree[i].ids.push(id) };
    if i == 0 {
        assert(tree_insert(tree, key, id) =~= tree.update(i, entry));
    } else {
        assert(tree[0].key != key);
        lemma_tree_insert_known(tree.drop_first(), key, id, i - 1);
        assert(seq![tree[0]] + tree.drop_first().update(i - 1, entry) =~= tree.update(i, entry));
    }
}

/// Adds a node under a key.
fn insert_key(entries: &mut Vec<KeyEntry>, key: PropertyKey, id: NodeId)
    ensures
        text::views(final(entries)@) == tree_insert(text::views(old(entries)@), key@, id),
{
    let ghost tree = text::views(entries@);
    let mut i: usize = 0;
    while i < entries.len() && !index::key_eq(&entries[i].key, &key) && !index::key_less(
        &key,
        &entries[i].key,
    )
        invariant
            i <= entries@.len(),
            tree == text::views(entries@),
            forall|j: int|
                0 <= j < i ==> (#[trigger] tree[j]).key != key@ && !index::key_lt(
                    key@,
                    tree[j].key,
                ),
        decreases entries.len() - i,
    {
        i = i + 1;
    }
    if i < entries.len() && index::key_eq(&entries[i].key, &key) {
        let ghost before = entries@;
        let mut ids: Vec<NodeId> = index::copy_ids(&entries[i].ids);
        ids.push(id);
        let entry = KeyEntry { key, ids };
        proof {
            lemma_tree_insert_known(tree, key@, id, i as int);
            assert(text::views(before.update(i as int, entry)) =~= tree.update(i as int, entry@));
        }
        entries.set(i, entry);
    } else {
        let mut ids: Vec<NodeId> = Vec::new();
        ids.push(id);
        let entry = KeyEntry { key, ids };
        proof {
            lemma_tree_insert_new(tree, key@, id, i as int);
            assert(entry@.ids =~= seq![id]);
            assert(text::views(entries@.insert(i as int, entry)) =~= tree.insert(
                i as int,
                entry@,
            ));
        }
        entries.insert(i, entry);
    }
}

proof fn lemma_find_tree_push(
    trees: Seq<PropertyTree>,
    tree: PropertyTree,
    label: Seq<char>,
    property: Seq<char>,
)
    ensures
        !(tree.label@ == label && tree.property@ == property) ==> index::find_tree(
            trees.push(tree),
            label,
            property,
        ) == index::find_tree(trees, label, property),
        (forall|j: int|
            0 <= j < trees.len() ==> !((#[trigger] trees[j]).label@ == label && trees[j].property@
                == property)) && tree.label@ == label && tree.property@ == property
            ==> index::find_tree(trees.push(tree), label, property) == text::views(tree.entries@),
    decreases trees.len(),
{
    let pushed = trees.push(tree);
    if trees.len() == 0 {
        assert(pushed.drop_first() =~= trees);
    } else {
        lemma_find_tree_push(trees.drop_first(), tree, label, property);
        assert(pushed.drop_first() =~= trees.drop_first().push(tree));
        if forall|j: int|
            0 <= j < trees.len() ==> !((#[trigger] trees[j]).label@ == label && trees[j].property@
                == property) {
            assert(!(trees[0].label@ == label && trees[0].property@ == property));
            let tail = trees.drop_first();
            assert forall|j: int| 0 <= j < tail.len() implies !((#[trigger] tail[j]).label@
                == label && tail[j].property@ == property) by {
                assert(tail[j] == trees[j + 1]);
            }
        }
    }
}

proof fn lemma_find_tree_update(
    trees: Seq<PropertyTree>,
    i: int,
    tree: PropertyTree,
    label: Seq<char>,
    property: Seq<char>,
)
    requires
        0 <= i < trees.len(),
        trees[i].label@ == tree.label@,
        trees[i].property@ == tree.property@,
        !(tree.label@ == label && tree.property@ == property),
    ensures
        index::find_tree(trees.update(i, tree), label, property) == index::find_tree(
            trees,
            label,
            property,
        ),
    decreases trees.len(),
{
    let updated = trees.update(i, tree);
    if i == 0 {
        assert(updated.drop_first() =~= trees.drop_first());
    } else {
        lemma_find_tree_update(trees.drop_first(), i - 1, tree, label, property);
        assert(updated.drop_first() =~= trees.drop_first().update(i - 1, tree));
    }
}

impl PropertyIndex {
    /// Adds a node under a value of a property of a label.
    fn add_posting(&mut self, label: &str, property: &str, key: PropertyKey, id: NodeId)
        ensures
            forall|l: Seq<char>, p: Seq<char>| #[trigger]
                final(self).tree(l, p) == if l == label@ && p == property@ {
                    tree_insert(old(self).tree(l, p), key@, id)
                } else {
                    old(self).tree(l, p)
                },
    {
        let ghost before = self.trees@;
        match self.position(label, property) {
            Some(t) => {
                proof {
                    index::lemma_find_tree_at(before, label@, property@, t as int);
                }
                let mut entries: Vec<KeyEntry> = Vec::new();
                std::mem::swap(&mut entries, &mut self.trees[t].entries);
                insert_key(&mut entries, key, id);
                std::mem::swap(&mut entries, &mut self.trees[t].entries);
                let ghost tree = self.trees@[t as int];
                assert(self.trees@ =~= before.update(t as int, tree));
                proof {
                    index::lemma_find_tree_at(self.trees@, label@, property@, t as int);
                }
                assert forall|l: Seq<char>, p: Seq<char>| #[trigger]
                    self.tree(l, p) == if l == label@ && p == property@ {
                        tree_insert(index::find_tree(before, l, p), key@, id)
                    } else {
                        index::find_tree(before, l, p)
                    } by {
                    if !(l == label@ && p == property@) {
                        lemma_find_tree_update(before, t as int, tree, l, p);
                    }
                }
            },
            None => {
                proof {
                    index::lemma_find_tree_absent(before, label@, property@);
                }
                let mut entries: Vec<KeyEntry> = Vec::new();
                assert(text::views(entries@) =~= Seq::<KeyEntryView>::empty());
                insert_key(&mut entries, key, id);
                let tree = PropertyTree {
                    label: label.to_owned(),
                    property: property.to_owned(),
                    entries,
                };
                self.trees.push(tree);
                assert forall|l: Seq<char>, p: Seq<char>| #[trigger]
                    self.tree(l, p) == if l == label@ && p == property@ {
                        tree_insert(index::find_tree(before, l, p), key@, id)
                    } else {
                        index::find_tree(before, l, p)
                    } by {
                    lemma_find_tree_push(before, tree, l, p);
                }
            },
        }
    }
}

/// That an index holds the trees that postings make.
spec fn holds(index: PropertyIndex, ps: Seq<Posting>) -> bool {
    forall|l: Seq<char>, p: Seq<char>| #[trigger] index.tree(l, p) == tree_of(ps, l, p)
}

/// Adds what one declared property contributes for a node.
fn add_property(index: &mut PropertyIndex, x: &ScannedNode, def: &schema::PropertyDef, Ghost(ps): Ghost<Seq<Posting>>)
    requires
        holds(*old(index), ps),
    ensures
        holds(*final(index), ps + property_posting(x@, def@)),
{
    let found = if def.indexed {
        x.row.properties.get(def.name.as_str())
    } else {
        None
    };
    let key = match found {
        Some(value) => property_key(value),
        None => None,
    };
    match key {
        Some(key) => {
            let ghost posting = Posting {
                label: x@.label,
                property: def@.name,
                key: key@,
                id: x@.row.id,
            };
            index.add_posting(x.label.0.as_str(), def.name.as_str(), key, x.row.id);
            assert((ps + seq![posting]).drop_last() =~= ps);
            assert(property_posting(x@, def@) =~= seq![posting]);
        },
        None => {
            assert(property_posting(x@, def@) =~= Seq::<Posting>::empty());
            assert(ps + property_posting(x@, def@) =~= ps);
        },
    }
}

/// Indexes the properties that the schema marks as indexed.
fn build_property_index(s: &Schema, nodes: &Vec<ScannedNode>) -> (r: PropertyIndex)
    ensures
        r.wf(),
        forall|l: Seq<char>, p: Seq<char>| #[trigger]
            r.tree(l, p) == tree_of(postings(text::views(nodes@), s@), l, p),
{
    let mut index = PropertyIndex { trees: Vec::new() };
    let ghost all = text::views(nodes@);
    let mut i: usize = 0;
    assert(all.take(0) =~= Seq::<ScannedNodeView>::empty());
    while i < nodes.len()
        invariant
            i <= nodes@.len(),
            all == text::views(nodes@),
            holds(index, postings(all.take(i as int), s@)),
        decreases nodes.len() - i,
    {
        let x = &nodes[i];
        let ghost earlier = postings(all.take(i as int), s@);
        assert(all.take(i + 1).drop_last() =~= all.take(i as int));
        assert(all.take(i + 1).last() == x@);
        match s.node_def(&x.label) {
            None => {
                assert(earlier + Seq::<Posting>::empty() =~= earlier);
            },
            Some(def) => {
                let ghost defs = text::views(def.properties@);
                let mut j: usize = 0;
                assert(defs.take(0) =~= Seq::<PropertyDefView>::empty());
                assert(earlier + Seq::<Posting>::empty() =~= earlier);
                while j < def.properties.len()
                    invariant
                        j <= def.properties@.len(),
                        defs == text::views(def.properties@),
                        holds(index, earlier + property_postings(x@, defs.take(j as int))),
                    decreases def.properties.len() - j,
                {
                    let ghost so_far = earlier + property_postings(x@, defs.take(j as int));
                    assert(defs.take(j + 1).drop_last() =~= defs.take(j as int));
                    assert(defs.take(j + 1).last() == def.properties@[j as int]@);
                    add_property(&mut index, x, &def.properties[j], Ghost(so_far));
                    assert(so_far + property_posting(x@, def.properties@[j as int]@) =~= earlier
                        + property_postings(x@, defs.take(j + 1)));
                    j = j + 1;
                }
                assert(defs.take(defs.len() as int) =~= defs);
            },
        }
        i = i + 1;
    }
    assert(all.take(all.len() as int) =~= all);
    assert forall|l: Seq<char>, p: Seq<char>|
        index::rising(#[trigger] index.tree(l, p)) && index::full(index.tree(l, p)) by {
        laws::law_trees_are_in_order(postings(all, s@), l, p);
    }
    index
}

/// Keeps the nodes that a partition owns.
fn keep_owned(nodes: Vec<ScannedNode>, partition: PartitionId, n_partitions: u32) -> (r: Vec<
    ScannedNode,
>)
    requires
        n_partitions > 0,
    ensures
        text::views(r@) == owned_nodes(text::views(nodes@), partition, n_partitions),
{
    let ghost all = text::views(nodes@);
    let mut owned: Vec<ScannedNode> = Vec::new();
    assert(all.take(0) =~= Seq::<ScannedNodeView>::empty());
    assert(text::views(owned@) =~= Seq::<ScannedNodeView>::empty());
    for x in it: nodes
        invariant
            n_partitions > 0,
            it.seq().len() == all.len(),
            forall|i: int| 0 <= i < all.len() ==> all[i] == (#[trigger] it.seq()[i])@,
            text::views(owned@) == owned_nodes(all.take(it.index()), partition, n_partitions),
    {
        let ghost i = it.index();
        assert(all.take(i + 1).drop_last() =~= all.take(i));
        assert(all.take(i + 1).last() == x@);
        if partitioning::partition_of(x.row.id, n_partitions) == partition.0 {
            proof {
                text::lemma_views_push(owned@, x);
            }
            owned.push(x);
        }
    }
    assert(all.take(all.len() as int) =~= all);
    owned
}

/// Turns nodes into records by id.
fn node_records_of(nodes: Vec<ScannedNode>) -> (r: IdMap<NodeRecord>)
    ensures
        r.wf(),
        node_record_views(r.map()) == node_record_map(text::views(nodes@)),
        r.order() == first_ids(text::views(nodes@)),
{
    let ghost all = text::views(nodes@);
    let mut records: IdMap<NodeRecord> = IdMap::new();
    assert(all.take(0) =~= Seq::<ScannedNodeView>::empty());
    assert(node_record_views(records.map()) =~= Map::<u64, NodeRecordView>::empty());
    for x in it: nodes
        invariant
            it.seq().len() == all.len(),
            forall|i: int| 0 <= i < all.len() ==> all[i] == (#[trigger] it.seq()[i])@,
            records.wf(),
            node_record_views(records.map()) == node_record_map(all.take(it.index())),
            records.order() == first_ids(all.take(it.index())),
    {
        let ghost i = it.index();
        let ghost before = records.map();
        assert(all.take(i + 1).drop_last() =~= all.take(i));
        assert(all.take(i + 1).last() == x@);
        let ScannedNode { label, row } = x;
        let record = NodeRecord { label, properties: row.properties };
        assert(before.dom() =~= node_record_views(before).dom());
        records.insert(row.id.0, record);
        assert(node_record_views(before.insert(row.id.0, record)) =~= node_record_views(
            before,
        ).insert(row.id.0, record@));
    }
    assert(all.take(all.len() as int) =~= all);
    records
}

/// Turns the edges whose source a partition owns into records by id.
fn edge_records_of(edges: Vec<ScannedEdge>, partition: PartitionId, n_partitions: u32) -> (r: IdMap<
    EdgeRecord,
>)
    requires
        n_partitions > 0,
    ensures
        r.wf(),
        edge_record_views(r.map()) == edge_record_map(
            text::views(edges@),
            partition,
            n_partitions,
        ),
{
    let ghost all = text::views(edges@);
    let mut records: IdMap<EdgeRecord> = IdMap::new();
    assert(all.take(0) =~= Seq::<ScannedEdgeView>::empty());
    assert(edge_record_views(records.map()) =~= Map::<u64, EdgeRecordView>::empty());
    for x in it: edges
        invariant
            n_partitions > 0,
            it.seq().len() == all.len(),
            forall|i: int| 0 <= i < all.len() ==> all[i] == (#[trigger] it.seq()[i])@,
            records.wf(),
            edge_record_views(records.map()) == edge_record_map(
                all.take(it.index()),
                partition,
                n_partitions,
            ),
    {
        let ghost i = it.index();
        let ghost before = records.map();
        assert(all.take(i + 1).drop_last() =~= all.take(i));
        assert(all.take(i + 1).last() == x@);
        if partitioning::partition_of(x.row.src, n_partitions) == partition.0 {
            let ScannedEdge { edge_type, row } = x;
            let record = EdgeRecord { edge_type, properties: row.properties };
            records.insert(row.id.0, record);
            assert(edge_record_views(before.insert(row.id.0, record)) =~= edge_record_views(
                before,
            ).insert(row.id.0, record@));
        }
    }
    assert(all.take(all.len() as int) =~= all);
    records
}

/// Why an index could not be rebuilt.
#[derive(Clone, Debug, PartialEq, Eq)]
pub enum RebuildError {
    Storage(StorageError),
    Schema(SchemaError),
}

impl RebuildError {
    /// The error in words.
    pub open spec fn text(&self) -> Seq<char> {
        match self {
            RebuildError::Storage(e) => "storage error while rebuilding index: "@ + e@.text(),
            RebuildError::Schema(e) => "schema error while rebuilding index: "@ + e@,
        }
    }

    pub fn message(&self) -> (r: String)
        ensures
            r@ == self.text(),
    {
        match self {
            RebuildError::Storage(e) => {
                let mut s: String = "storage error while rebuilding index: ".to_owned();
                s.append(e.message().as_str());
                s
            },
            RebuildError::Schema(SchemaError::Parse(m)) => {
                let mut s: String = "schema error while rebuilding index: ".to_owned();
                s.append(m.as_str());
                s
            },
        }
    }
}

/// The rows of a scan up to the first that could not be read.
pub open spec fn first_error<T>(rows: Seq<Result<T, StorageError>>) -> Option<StorageError>
    decreases rows.len(),
{
    if rows.len() == 0 {
        None
    } else {
        match rows[0] {
            Err(e) => Some(e),
            Ok(_) => first_error(rows.drop_first()),
        }
    }
}

/// Takes up the scanned rows of a label, unless one of them could not be
/// read.
pub fn add_node_rows(
    nodes: &mut Vec<ScannedNode>,
    label: &Label,
    rows: Vec<Result<NodeRow, StorageError>>,
) -> (r: Result<(), RebuildError>)
    ensures
        match r {
            Ok(_) => first_error(rows@) is None && text::views(final(nodes)@) == text::views(
                old(nodes)@,
            ) + Seq::new(
                rows@.len(),
                |i: int| ScannedNodeView { label: label@, row: (rows@[i]->Ok_0)@ },
            ),
            Err(e) => first_error(rows@) is Some && e == RebuildError::Storage(
                first_error(rows@)->Some_0,
            ),
        },
{
    let ghost all = rows@;
    let ghost before = text::views(nodes@);
    let ghost added = Seq::new(
        all.len(),
        |i: int| ScannedNodeView { label: label@, row: (all[i]->Ok_0)@ },
    );
    assert(all.skip(0) =~= all);
    assert(before + added.take(0) =~= before);
    for row in it: rows
        invariant
            it.seq() == all,
            added == Seq::new(
                all.len(),
                |i: int| ScannedNodeView { label: label@, row: (all[i]->Ok_0)@ },
            ),
            first_error(all) == first_error(all.skip(it.index())),
            text::views(nodes@) == before + added.take(it.index()),
    {
        let ghost i = it.index();
        assert(all.skip(i)[0] == row);
        assert(all.skip(i).drop_first() =~= all.skip(i + 1));
        match row {
            Ok(row) => {
                let x = ScannedNode { label: Label(label.0.clone()), row };
                proof {
                    text::lemma_views_push(nodes@, x);
                    assert(before + added.take(i + 1) =~= (before + added.take(i)).push(x@));
                }
                nodes.push(x);
            },
            Err(e) => {
                return Err(RebuildError::Storage(e));
            },
        }
    }
    assert(added.take(all.len() as int) =~= added);
    Ok(())
}

/// Takes up the scanned rows of an edge type, unless one of them could not be
/// read.
pub fn add_edge_rows(
    edges: &mut Vec<ScannedEdge>,
    edge_type: &EdgeType,
    rows: Vec<Result<EdgeRow, StorageError>>,
) -> (r: Result<(), RebuildError>)
    ensures
        match r {
            Ok(_) => first_error(rows@) is None && text::views(final(edges)@) == text::views(
                old(edges)@,
            ) + Seq::new(
                rows@.len(),
                |i: int| ScannedEdgeView { edge_type: edge_type@, row: (rows@[i]->Ok_0)@ },
            ),
            Err(e) => first_error(rows@) is Some && e == RebuildError::Storage(
                first_error(rows@)->Some_0,
            ),
        },
{
    let ghost all = rows@;
    let ghost before = text::views(edges@);
    let ghost added = Seq::new(
        all.len(),
        |i: int| ScannedEdgeView { edge_type: edge_type@, row: (all[i]->Ok_0)@ },
    );
    assert(all.skip(0) =~= all);
    assert(before + added.take(0) =~= before);
    for row in it: rows
        invariant
            it.seq() == all,
            added == Seq::new(
                all.len(),
                |i: int| ScannedEdgeView { edge_type: edge_type@, row: (all[i]->Ok_0)@ },
            ),
            first_error(all) == first_error(all.skip(it.index())),
            text::views(edges@) == before + added.take(it.index()),
    {
        let ghost i = it.index();
        assert(all.skip(i)[0] == row);
        assert(all.skip(i).drop_first() =~= all.skip(i + 1));
        match row {
            Ok(row) => {
                let x = ScannedEdge { edge_type: EdgeType(edge_type.0.clone()), row };
                proof {
                    text::lemma_views_push(edges@, x);
                    assert(before + added.take(i + 1) =~= (before + added.take(i)).push(x@));
                }
                edges.push(x);
            },
            Err(e) => {
                return Err(RebuildError::Storage(e));
            },
        }
    }
    assert(added.take(all.len() as int) =~= added);
    Ok(())
}

/// What a scan of all tables brought.
#[derive(Debug)]
pub struct Scan {
    pub nodes: Vec<ScannedNode>,
    pub edges: Vec<ScannedEdge>,
    pub snapshot_by_table: NamedMap<SnapshotId>,
    pub built_at_unix_ms: i64,
}

/// Builds indexes from what `reader` scans. The number of partitions is fixed
/// for the lifetime of a graph.
#[derive(Debug)]
pub struct IcebergIndexBuilder<R> {
    pub reader: R,
    pub schema: Schema,
    pub n_partitions: u32,
}

impl<R> IcebergIndexBuilder<R> {
    pub fn new(reader: R, schema: Schema, n_partitions: u32) -> (r: Self)
        ensures
            r.reader == reader,
            r.schema == schema,
            r.n_partitions == n_partitions,
    {
        IcebergIndexBuilder { reader, schema, n_partitions }
    }

    /// Builds the index of a partition. The counts are those of the nodes it
    /// owns and of all scanned edges.
    pub fn build(&self, partition: PartitionId, scan: Scan) -> (r: IndexGeneration)
        requires
            self.n_partitions > 0,
        ensures
            indexes(
                r,
                self.schema@,
                partition,
                self.n_partitions,
                text::views(scan.nodes@),
                text::views(scan.edges@),
            ),
            r.meta.partition == partition,
            r.meta.snapshot_by_table == scan.snapshot_by_table,
            r.meta.built_at_unix_ms == scan.built_at_unix_ms,
            r.meta.node_count == owned_nodes(
                text::views(scan.nodes@),
                partition,
                self.n_partitions,
            ).len(),
            r.meta.edge_count == scan.edges@.len(),
    {
        let Scan { nodes, edges, snapshot_by_table, built_at_unix_ms } = scan;
        let nodes = keep_owned(nodes, partition, self.n_partitions);
        let node_count: u64 = nodes.len() as u64;
        let edge_count: u64 = edges.len() as u64;
        let topology = build_topology(partition, &nodes, &edges, self.n_partitions);
        let properties = build_property_index(&self.schema, &nodes);
        let node_records = node_records_of(nodes);
        let edge_records = edge_records_of(edges, partition, self.n_partitions);
        IndexGeneration {
            meta: GenerationMeta {
                partition,
                snapshot_by_table,
                built_at_unix_ms,
                node_count,
                edge_count,
            },
            topology,
            properties,
            node_records,
            edge_records,
        }
    }
}

/// A scan is refused with the error of the first row that could not be read,
/// and taken up where every row could be read.
pub proof fn law_the_first_row_that_fails_is_reported<T>(
    rows: Seq<Result<T, StorageError>>,
    e: StorageError,
)
    ensures
        first_error(rows) == Some(e) <==> exists|i: int|
            0 <= i < rows.len() && #[trigger] rows[i] == Err::<T, StorageError>(e) && forall|j: int|
                0 <= j < i ==> (#[trigger] rows[j]) is Ok,
        first_error(rows) is None <==> forall|i: int| 0 <= i < rows.len() ==> (#[trigger] rows[i]) is Ok,
    decreases rows.len(),
{
    if rows.len() > 0 {
        let rest = rows.drop_first();
        law_the_first_row_that_fails_is_reported(rest, e);
        assert forall|i: int| 0 <= i < rest.len() implies #[trigger] rest[i] == rows[i + 1] by {}
        assert forall|i: int| 1 <= i < rows.len() implies #[trigger] rows[i] == rest[i - 1] by {}
        if rows[0] is Ok {
            if first_error(rows) == Some(e) {
                let i = choose|i: int|
                    0 <= i < rest.len() && #[trigger] rest[i] == Err::<T, StorageError>(e)
                        && forall|j: int| 0 <= j < i ==> (#[trigger] rest[j]) is Ok;
                assert(rows[i + 1] == Err::<T, StorageError>(e));
            }
            if exists|i: int|
                0 <= i < rows.len() && #[trigger] rows[i] == Err::<T, StorageError>(e) && forall|
                    j: int,
                |
                    0 <= j < i ==> (#[trigger] rows[j]) is Ok {
                let i = choose|i: int|
                    0 <= i < rows.len() && #[trigger] rows[i] == Err::<T, StorageError>(e)
                        && forall|j: int| 0 <= j < i ==> (#[trigger] rows[j]) is Ok;
                assert(rest[i - 1] == Err::<T, StorageError>(e));
            }
        } else {
            assert(!(rows[0] is Ok));
        }
    }
}

/// A value is looked up under itself: a whole number, a truth value, a text or
/// an instant. No two values share a key, and a value of another type has none.
pub proof fn law_values_are_their_own_keys(v: PropertyValueView, w: PropertyValueView)
    ensures
        key_of(v) is Some <==> v is Int64 || v is Bool || v is String || v is Timestamp,
        key_of(v) is Some && key_of(v) == key_of(w) ==> v == w,
        v matches PropertyValueView::Int64(n) ==> key_of(v) == Some(PropertyKeyView::Int64(n)),
        v matches PropertyValueView::Bool(b) ==> key_of(v) == Some(PropertyKeyView::Bool(b)),
        v matches PropertyValueView::String(s) ==> key_of(v) == Some(PropertyKeyView::String(s)),
        v matches PropertyValueView::Timestamp(t) ==> key_of(v) == Some(
            PropertyKeyView::Timestamp(t),
        ),
{
}

} // verus!
