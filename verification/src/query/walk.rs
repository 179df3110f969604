//! Walks over the adjacency of one partition, level by level.
use crate::dsl::{Direction, HopRange};
use crate::index::{AdjacencyEntry, AdjacencyEntryView, RemoteRef, TopologicalIndex};
use crate::schema::NodeId;
use crate::text;
use std::collections::HashSet;
use vstd::prelude::*;

verus! {

broadcast use vstd::std_specs::hash::group_hash_axioms;

/// The edges of a node in a direction.
pub open spec fn entries_of(t: TopologicalIndex, node: NodeId, direction: Direction) -> Seq<
    AdjacencyEntryView,
> {
    match direction {
        Direction::Outgoing => t.out_of(node),
        Direction::Incoming => t.in_to(node),
    }
}

/// Whether an edge is of the wanted type; without one every edge is.
pub open spec fn type_fits(e: AdjacencyEntryView, edge_type: Option<Seq<char>>) -> bool {
    match edge_type {
        Some(t) => e.edge_type == t,
        None => true,
    }
}

/// A sequence with one more item, unless it is there already.
pub open spec fn push_new<T>(items: Seq<T>, x: T) -> Seq<T> {
    if items.contains(x) {
        items
    } else {
        items.push(x)
    }
}

/// A sequence with all items of another one that are not there yet.
pub open spec fn union_new<T>(items: Seq<T>, more: Seq<T>) -> Seq<T>
    decreases more.len(),
{
    if more.len() == 0 {
        items
    } else {
        push_new(union_new(items, more.drop_last()), more.last())
    }
}

/// What is reached with the local ends of some edges added.
pub open spec fn reach_more(
    reached: Seq<NodeId>,
    entries: Seq<AdjacencyEntryView>,
    edge_type: Option<Seq<char>>,
) -> Seq<NodeId>
    decreases entries.len(),
{
    if entries.len() == 0 {
        reached
    } else {
        let rest = reach_more(reached, entries.drop_last(), edge_type);
        match entries.last().dst_local {
            Some(d) => if type_fits(entries.last(), edge_type) {
                push_new(rest, d)
            } else {
                rest
            },
            None => rest,
        }
    }
}

/// The nodes that references lead to.
pub open spec fn nodes_of(refs: Seq<RemoteRef>) -> Seq<NodeId> {
    Seq::new(refs.len(), |i: int| refs[i].node)
}

/// Remote references with those of some edges added, one for a node.
pub open spec fn refer_more(
    found: Seq<RemoteRef>,
    entries: Seq<AdjacencyEntryView>,
    edge_type: Option<Seq<char>>,
) -> Seq<RemoteRef>
    decreases entries.len(),
{
    if entries.len() == 0 {
        found
    } else {
        let rest = refer_more(found, entries.drop_last(), edge_type);
        match (entries.last().dst_local, entries.last().dst_remote) {
            (None, Some(r)) => if type_fits(entries.last(), edge_type) && !nodes_of(
                rest,
            ).contains(r.node) {
                rest.push(r)
            } else {
                rest
            },
            _ => rest,
        }
    }
}

/// The nodes one hop from some nodes.
pub open spec fn next_level(
    t: TopologicalIndex,
    direction: Direction,
    edge_type: Option<Seq<char>>,
    current: Seq<NodeId>,
) -> Seq<NodeId>
    decreases current.len(),
{
    if current.len() == 0 {
        seq![]
    } else {
        reach_more(
            next_level(t, direction, edge_type, current.drop_last()),
            entries_of(t, current.last(), direction),
            edge_type,
        )
    }
}

/// Remote references with those one hop from some nodes added.
pub open spec fn next_refs(
    t: TopologicalIndex,
    direction: Direction,
    edge_type: Option<Seq<char>>,
    found: Seq<RemoteRef>,
    current: Seq<NodeId>,
) -> Seq<RemoteRef>
    decreases current.len(),
{
    if current.len() == 0 {
        found
    } else {
        refer_more(
            next_refs(t, direction, edge_type, found, current.drop_last()),
            entries_of(t, current.last(), direction),
            edge_type,
        )
    }
}

/// The nodes `k` hops from a node, each once.
pub open spec fn level(
    t: TopologicalIndex,
    direction: Direction,
    edge_type: Option<Seq<char>>,
    start: NodeId,
    k: nat,
) -> Seq<NodeId>
    decreases k,
{
    if k == 0 {
        seq![start]
    } else {
        next_level(t, direction, edge_type, level(t, direction, edge_type, start, (k - 1) as nat))
    }
}

/// The remote references met within `k` hops from a node.
pub open spec fn refs_within(
    t: TopologicalIndex,
    direction: Direction,
    edge_type: Option<Seq<char>>,
    start: NodeId,
    k: nat,
) -> Seq<RemoteRef>
    decreases k,
{
    if k == 0 {
        seq![]
    } else {
        next_refs(
            t,
            direction,
            edge_type,
            refs_within(t, direction, edge_type, start, (k - 1) as nat),
            level(t, direction, edge_type, start, (k - 1) as nat),
        )
    }
}

/// The nodes at least `min` and at most `k` hops from a node, at least one
/// hop away, each once.
pub open spec fn hits_within(
    t: TopologicalIndex,
    direction: Direction,
    edge_type: Option<Seq<char>>,
    start: NodeId,
    min: nat,
    k: nat,
) -> Seq<NodeId>
    decreases k,
{
    if k == 0 {
        seq![]
    } else {
        let before = hits_within(t, direction, edge_type, start, min, (k - 1) as nat);
        if k >= min {
            union_new(before, level(t, direction, edge_type, start, k))
        } else {
            before
        }
    }
}

/// From a level without nodes nothing goes on.
proof fn lemma_level_empty(
    t: TopologicalIndex,
    direction: Direction,
    edge_type: Option<Seq<char>>,
    start: NodeId,
    min: nat,
    k: nat,
    n: nat,
)
    requires
        k <= n,
        level(t, direction, edge_type, start, k).len() == 0,
    ensures
        level(t, direction, edge_type, start, n).len() == 0,
        hits_within(t, direction, edge_type, start, min, n) == hits_within(
            t,
            direction,
            edge_type,
            start,
            min,
            k,
        ),
        refs_within(t, direction, edge_type, start, n) == refs_within(
            t,
            direction,
            edge_type,
            start,
            k,
        ),
    decreases n,
{
    if k < n {
        lemma_level_empty(t, direction, edge_type, start, min, k, (n - 1) as nat);
    }
}

/// Nodes, each once, in the order they came.
pub(crate) struct NodeSet {
    pub(crate) ids: Vec<NodeId>,
    pub(crate) seen: HashSet<u64>,
}

impl NodeSet {
    pub(crate) closed spec fn wf(&self) -> bool {
        forall|x: NodeId| self.ids@.contains(x) <==> #[trigger] self.seen@.contains(x.0)
    }

    pub(crate) fn new() -> (r: Self)
        ensures
            r.wf(),
            r.ids@ == Seq::<NodeId>::empty(),
    {
        NodeSet { ids: Vec::new(), seen: HashSet::new() }
    }

    pub(crate) fn contains(&self, x: NodeId) -> (r: bool)
        requires
            self.wf(),
        ensures
            r == self.ids@.contains(x),
    {
        assert(self.ids@.contains(x) <==> self.seen@.contains(x.0));
        self.seen.contains(&x.0)
    }

    /// Takes up a node and says whether it is new.
    pub(crate) fn take_up(&mut self, x: NodeId) -> (r: bool)
        requires
            old(self).wf(),
        ensures
            final(self).wf(),
            r == !old(self).ids@.contains(x),
            final(self).ids@ == push_new(old(self).ids@, x),
    {
        let ghost before = *self;
        if self.contains(x) {
            return false;
        }
        self.ids.push(x);
        self.seen.insert(x.0);
        assert forall|y: NodeId| self.ids@.contains(y) <==> #[trigger] self.seen@.contains(y.0) by {
            assert(before.ids@.contains(y) <==> before.seen@.contains(y.0));
            if before.ids@.contains(y) {
                let i = choose|i: int| 0 <= i < before.ids@.len() && before.ids@[i] == y;
                assert(self.ids@[i] == y);
            }
            if y == x {
                assert(self.ids@[before.ids@.len() as int] == y);
            }
            if self.ids@.contains(y) && y != x {
                let i = choose|i: int| 0 <= i < self.ids@.len() && self.ids@[i] == y;
                assert(before.ids@[i] == y);
            }
        }
        true
    }

    /// Takes up all nodes of a list.
    pub(crate) fn take_up_all(&mut self, more: &Vec<NodeId>)
        requires
            old(self).wf(),
        ensures
            final(self).wf(),
            final(self).ids@ == union_new(old(self).ids@, more@),
    {
        let ghost before = self.ids@;
        let mut i: usize = 0;
        while i < more.len()
            invariant
                i <= more@.len(),
                self.wf(),
                self.ids@ == union_new(before, more@.take(i as int)),
            decreases more.len() - i,
        {
            assert(more@.take(i + 1).drop_last() =~= more@.take(i as int));
            self.take_up(more[i]);
            i = i + 1;
        }
        assert(more@.take(more@.len() as int) =~= more@);
    }
}

/// Remote references, one for a node.
struct RefSet {
    refs: Vec<RemoteRef>,
    nodes: NodeSet,
}

impl RefSet {
    spec fn wf(&self) -> bool {
        self.nodes.wf() && self.nodes.ids@ == nodes_of(self.refs@)
    }

    fn new() -> (r: Self)
        ensures
            r.wf(),
            r.refs@ == Seq::<RemoteRef>::empty(),
    {
        let r = RefSet { refs: Vec::new(), nodes: NodeSet::new() };
        assert(nodes_of(r.refs@) =~= Seq::<NodeId>::empty());
        r
    }

    fn take_up(&mut self, x: RemoteRef)
        requires
            old(self).wf(),
        ensures
            final(self).wf(),
            final(self).refs@ == if nodes_of(old(self).refs@).contains(x.node) {
                old(self).refs@
            } else {
                old(self).refs@.push(x)
            },
    {
        let ghost before = self.refs@;
        if self.nodes.take_up(x.node) {
            self.refs.push(x);
            assert(nodes_of(before.push(x)) =~= nodes_of(before).push(x.node));
        }
    }
}

/// Whether an edge is of the wanted type.
pub(crate) fn type_fits_exec(e: &AdjacencyEntry, edge_type: &Option<String>) -> (r: bool)
    ensures
        r == type_fits(e@, text::option_view(*edge_type)),
{
    match edge_type {
        Some(t) => e.edge_type.0 == *t,
        None => true,
    }
}

/// The edges of a node in a direction.
pub(crate) fn entries<'a>(t: &'a TopologicalIndex, node: NodeId, direction: Direction) -> (r:
    &'a [AdjacencyEntry])
    requires
        t.wf(),
    ensures
        text::views(r@) == entries_of(*t, node, direction),
{
    match direction {
        Direction::Outgoing => t.out_neighbors(node),
        Direction::Incoming => t.in_neighbors(node),
    }
}

/// Takes one hop from the nodes of a level.
fn advance(
    t: &TopologicalIndex,
    direction: Direction,
    edge_type: &Option<String>,
    current: &Vec<NodeId>,
    refs: &mut RefSet,
) -> (r: NodeSet)
    requires
        t.wf(),
        old(refs).wf(),
    ensures
        r.wf(),
        r.ids@ == next_level(*t, direction, text::option_view(*edge_type), current@),
        final(refs).wf(),
        final(refs).refs@ == next_refs(
            *t,
            direction,
            text::option_view(*edge_type),
            old(refs).refs@,
            current@,
        ),
{
    let ghost ty = text::option_view(*edge_type);
    let ghost found = refs.refs@;
    let mut next = NodeSet::new();
    let mut i: usize = 0;
    while i < current.len()
        invariant
            i <= current@.len(),
            t.wf(),
            refs.wf(),
            next.wf(),
            ty == text::option_view(*edge_type),
            next.ids@ == next_level(*t, direction, ty, current@.take(i as int)),
            refs.refs@ == next_refs(*t, direction, ty, found, current@.take(i as int)),
        decreases current.len() - i,
    {
        assert(current@.take(i + 1).drop_last() =~= current@.take(i as int));
        let row = entries(t, current[i], direction);
        let ghost all = text::views(row@);
        let ghost reached = next.ids@;
        let ghost referred = refs.refs@;
        let mut j: usize = 0;
        assert(all.take(0) =~= Seq::<AdjacencyEntryView>::empty());
        while j < row.len()
            invariant
                j <= row@.len(),
                refs.wf(),
                next.wf(),
                all == text::views(row@),
                ty == text::option_view(*edge_type),
                next.ids@ == reach_more(reached, all.take(j as int), ty),
                refs.refs@ == refer_more(referred, all.take(j as int), ty),
            decreases row.len() - j,
        {
            assert(all.take(j + 1).drop_last() =~= all.take(j as int));
            assert(all.take(j + 1).last() == row@[j as int]@);
            let e = &row[j];
            if type_fits_exec(e, edge_type) {
                match e.dst_local {
                    Some(d) => {
                        next.take_up(d);
                    },
                    None => {
                        if let Some(r) = e.dst_remote {
                            refs.take_up(r);
                        }
                    },
                }
            }
            j = j + 1;
        }
        assert(all.take(all.len() as int) =~= all);
        i = i + 1;
    }
    assert(current@.take(current@.len() as int) =~= current@);
    next
}

/// Walks from a node: which nodes lie in the range of hops, and which remote
/// references were met on the way.
pub(crate) fn walk(
    t: &TopologicalIndex,
    direction: Direction,
    edge_type: &Option<String>,
    start: NodeId,
    hops: HopRange,
) -> (r: (Vec<NodeId>, Vec<RemoteRef>))
    requires
        t.wf(),
    ensures
        r.0@ == hits_within(
            *t,
            direction,
            text::option_view(*edge_type),
            start,
            hops.min as nat,
            hops.max as nat,
        ),
        r.1@ == refs_within(
            *t,
            direction,
            text::option_view(*edge_type),
            start,
            hops.max as nat,
        ),
{
    let ghost ty = text::option_view(*edge_type);
    let mut current: Vec<NodeId> = Vec::new();
    current.push(start);
    assert(current@ =~= seq![start]);
    let mut hits = NodeSet::new();
    let mut refs = RefSet::new();
    let mut depth: u32 = 0;
    while depth < hops.max && current.len() > 0
        invariant
            depth <= hops.max,
            t.wf(),
            hits.wf(),
            refs.wf(),
            ty == text::option_view(*edge_type),
            current@ == level(*t, direction, ty, start, depth as nat),
            hits.ids@ == hits_within(
                *t,
                direction,
                ty,
                start,
                hops.min as nat,
                depth as nat,
            ),
            refs.refs@ == refs_within(*t, direction, ty, start, depth as nat),
        decreases hops.max - depth,
    {
        let next = advance(t, direction, edge_type, &current, &mut refs);
        depth = depth + 1;
        if depth >= hops.min {
            hits.take_up_all(&next.ids);
        }
        current = next.ids;
    }
    proof {
        if depth < hops.max {
            lemma_level_empty(
                *t,
                direction,
                ty,
                start,
                hops.min as nat,
                depth as nat,
                hops.max as nat,
            );
        }
    }
    (hits.ids, refs.refs)
}

/// Whether an edge of the wanted type leads from a node to a local node.
pub open spec fn edge_to(
    t: TopologicalIndex,
    direction: Direction,
    edge_type: Option<Seq<char>>,
    from: NodeId,
    to: NodeId,
) -> bool {
    exists|i: int|
        0 <= i < entries_of(t, from, direction).len() && type_fits(
            #[trigger] entries_of(t, from, direction)[i],
            edge_type,
        ) && entries_of(t, from, direction)[i].dst_local == Some(to)
}

/// That each node of a path leads to the next one by an edge of the wanted
/// type.
pub open spec fn is_path(
    t: TopologicalIndex,
    direction: Direction,
    edge_type: Option<Seq<char>>,
    path: Seq<NodeId>,
) -> bool {
    forall|i: int|
        0 < i < path.len() ==> edge_to(t, direction, edge_type, path[i - 1], #[trigger] path[i])
}

/// That a path of `k` edges leads from one node to another one.
pub open spec fn leads(
    t: TopologicalIndex,
    direction: Direction,
    edge_type: Option<Seq<char>>,
    path: Seq<NodeId>,
    start: NodeId,
    end: NodeId,
    k: nat,
) -> bool {
    path.len() == k + 1 && path[0] == start && path[k as int] == end && is_path(
        t,
        direction,
        edge_type,
        path,
    )
}

/// Whether `k` edges of the wanted type lead from a node to another one.
pub open spec fn walks(
    t: TopologicalIndex,
    direction: Direction,
    edge_type: Option<Seq<char>>,
    start: NodeId,
    end: NodeId,
    k: nat,
) -> bool {
    exists|path: Seq<NodeId>| #[trigger] leads(t, direction, edge_type, path, start, end, k)
}

pub proof fn lemma_push_new<T>(items: Seq<T>, x: T, y: T)
    ensures
        push_new(items, x).contains(y) <==> items.contains(y) || y == x,
        items.no_duplicates() ==> push_new(items, x).no_duplicates(),
{
    let out = push_new(items, x);
    if items.contains(y) {
        let i = choose|i: int| 0 <= i < items.len() && items[i] == y;
        assert(out[i] == y);
    }
    if !items.contains(x) {
        assert(out[items.len() as int] == x);
        if out.contains(y) && y != x {
            let i = choose|i: int| 0 <= i < out.len() && out[i] == y;
            assert(items[i] == y);
        }
    }
}

pub proof fn lemma_union_new<T>(items: Seq<T>, more: Seq<T>, y: T)
    ensures
        union_new(items, more).contains(y) <==> items.contains(y) || more.contains(y),
        items.no_duplicates() ==> union_new(items, more).no_duplicates(),
    decreases more.len(),
{
    if more.len() > 0 {
        lemma_union_new(items, more.drop_last(), y);
        lemma_push_new(union_new(items, more.drop_last()), more.last(), y);
        if more.contains(y) && y != more.last() {
            let i = choose|i: int| 0 <= i < more.len() && more[i] == y;
            assert(more.drop_last()[i] == y);
        }
        if more.drop_last().contains(y) {
            let i = choose|i: int| 0 <= i < more.drop_last().len() && more.drop_last()[i] == y;
            assert(more[i] == y);
        }
        assert(more[more.len() - 1] == more.last());
    }
}

proof fn lemma_reach_more(
    reached: Seq<NodeId>,
    entries: Seq<AdjacencyEntryView>,
    edge_type: Option<Seq<char>>,
    y: NodeId,
)
    ensures
        reach_more(reached, entries, edge_type).contains(y) <==> reached.contains(y) || exists|
            i: int,
        |
            0 <= i < entries.len() && type_fits(#[trigger] entries[i], edge_type)
                && entries[i].dst_local == Some(y),
        reached.no_duplicates() ==> reach_more(reached, entries, edge_type).no_duplicates(),
    decreases entries.len(),
{
    if entries.len() > 0 {
        let shorter = entries.drop_last();
        lemma_reach_more(reached, shorter, edge_type, y);
        let rest = reach_more(reached, shorter, edge_type);
        if let Some(d) = entries.last().dst_local {
            lemma_push_new(rest, d, y);
        }
        if exists|i: int|
            0 <= i < shorter.len() && type_fits(#[trigger] shorter[i], edge_type)
                && shorter[i].dst_local == Some(y) {
            let i = choose|i: int|
                0 <= i < shorter.len() && type_fits(#[trigger] shorter[i], edge_type)
                    && shorter[i].dst_local == Some(y);
            assert(entries[i] == shorter[i]);
        }
        if exists|i: int|
            0 <= i < entries.len() && type_fits(#[trigger] entries[i], edge_type)
                && entries[i].dst_local == Some(y) {
            let i = choose|i: int|
                0 <= i < entries.len() && type_fits(#[trigger] entries[i], edge_type)
                    && entries[i].dst_local == Some(y);
            if i < shorter.len() {
                assert(entries[i] == shorter[i]);
            }
        }
        assert(entries[entries.len() - 1] == entries.last());
    }
}

pub proof fn lemma_next_level(
    t: TopologicalIndex,
    direction: Direction,
    edge_type: Option<Seq<char>>,
    current: Seq<NodeId>,
    y: NodeId,
)
    ensures
        next_level(t, direction, edge_type, current).contains(y) <==> exists|x: NodeId|
            current.contains(x) && #[trigger] edge_to(t, direction, edge_type, x, y),
        next_level(t, direction, edge_type, current).no_duplicates(),
    decreases current.len(),
{
    if current.len() > 0 {
        let shorter = current.drop_last();
        lemma_next_level(t, direction, edge_type, shorter, y);
        lemma_reach_more(
            next_level(t, direction, edge_type, shorter),
            entries_of(t, current.last(), direction),
            edge_type,
            y,
        );
        assert(current[current.len() - 1] == current.last());
        assert forall|x: NodeId| current.contains(x) implies shorter.contains(x) || x
            == current.last() by {
            let i = choose|i: int| 0 <= i < current.len() && current[i] == x;
            if i < shorter.len() {
                assert(shorter[i] == x);
            }
        }
        assert forall|x: NodeId| shorter.contains(x) implies current.contains(x) by {
            let i = choose|i: int| 0 <= i < shorter.len() && shorter[i] == x;
            assert(current[i] == x);
        }
        assert(edge_to(t, direction, edge_type, current.last(), y) <==> exists|i: int|
            0 <= i < entries_of(t, current.last(), direction).len() && type_fits(
                #[trigger] entries_of(t, current.last(), direction)[i],
                edge_type,
            ) && entries_of(t, current.last(), direction)[i].dst_local == Some(y));
    }
}

/// A level holds exactly the nodes that a walk of its length leads to, each
/// once.
pub proof fn law_levels_hold_what_walks_reach(
    t: TopologicalIndex,
    direction: Direction,
    edge_type: Option<Seq<char>>,
    start: NodeId,
    end: NodeId,
    k: nat,
)
    ensures
        level(t, direction, edge_type, start, k).contains(end) <==> walks(
            t,
            direction,
            edge_type,
            start,
            end,
            k,
        ),
        level(t, direction, edge_type, start, k).no_duplicates(),
    decreases k,
{
    let here = level(t, direction, edge_type, start, k);
    if k == 0 {
        assert(seq![start][0] == start);
        if start == end {
            assert(leads(t, direction, edge_type, seq![start], start, end, k));
        }
    } else {
        let m = (k - 1) as nat;
        let before = level(t, direction, edge_type, start, m);
        lemma_next_level(t, direction, edge_type, before, end);
        if here.contains(end) {
            let mid = choose|x: NodeId|
                before.contains(x) && #[trigger] edge_to(t, direction, edge_type, x, end);
            law_levels_hold_what_walks_reach(t, direction, edge_type, start, mid, m);
            let path = choose|path: Seq<NodeId>| #[trigger]
                leads(t, direction, edge_type, path, start, mid, m);
            let longer = path.push(end);
            assert forall|i: int| 0 < i < longer.len() implies edge_to(
                t,
                direction,
                edge_type,
                longer[i - 1],
                #[trigger] longer[i],
            ) by {
                if i < path.len() {
                    assert(longer[i] == path[i]);
                }
            }
            assert(leads(t, direction, edge_type, longer, start, end, k));
        }
        if walks(t, direction, edge_type, start, end, k) {
            let path = choose|path: Seq<NodeId>| #[trigger]
                leads(t, direction, edge_type, path, start, end, k);
            let shorter = path.drop_last();
            assert forall|i: int| 0 < i < shorter.len() implies edge_to(
                t,
                direction,
                edge_type,
                shorter[i - 1],
                #[trigger] shorter[i],
            ) by {
                assert(shorter[i] == path[i]);
            }
            assert(leads(t, direction, edge_type, shorter, start, path[m as int], m));
            law_levels_hold_what_walks_reach(t, direction, edge_type, start, path[m as int], m);
            assert(edge_to(t, direction, edge_type, path[k - 1], path[k as int]));
        }
    }
}

/// A node is found exactly where a walk of a length in the range leads to it,
/// and it is found once.
pub proof fn law_hits_are_the_ends_of_walks(
    t: TopologicalIndex,
    direction: Direction,
    edge_type: Option<Seq<char>>,
    start: NodeId,
    min: nat,
    max: nat,
    end: NodeId,
)
    ensures
        hits_within(t, direction, edge_type, start, min, max).contains(end) <==> exists|k: nat|
            1 <= k <= max && min <= k && #[trigger] walks(
                t,
                direction,
                edge_type,
                start,
                end,
                k,
            ),
        hits_within(t, direction, edge_type, start, min, max).no_duplicates(),
    decreases max,
{
    if max > 0 {
        let m = (max - 1) as nat;
        law_hits_are_the_ends_of_walks(t, direction, edge_type, start, min, m, end);
        law_levels_hold_what_walks_reach(t, direction, edge_type, start, end, max);
        let before = hits_within(t, direction, edge_type, start, min, m);
        let now = level(t, direction, edge_type, start, max);
        lemma_union_new(before, now, end);
        if exists|k: nat|
            1 <= k <= max && min <= k && #[trigger] walks(
                t,
                direction,
                edge_type,
                start,
                end,
                k,
            ) {
            let k = choose|k: nat|
                1 <= k <= max && min <= k && #[trigger] walks(
                    t,
                    direction,
                    edge_type,
                    start,
                    end,
                    k,
                );
            if k < max {
                assert(walks(t, direction, edge_type, start, end, k) && k <= m);
            }
        }
    }
}

} // verus!
