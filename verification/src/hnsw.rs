use vstd::prelude::*;
use vstd::pervasive::VecAdditionalExecFns;

use rand::Rng;

use crate::errors::HnswError;
use crate::neighbor::Neighbor;
use crate::neighbor::distinct_slots;
use crate::neighbor::has_slot;
use crate::neighbor::insert_sorted;
use crate::neighbor::nb_le;
use crate::neighbor::sort_neighbors;
use crate::neighbor::sort_spec;
use crate::neighbor::sorted;
use crate::node::GraphNode;
use crate::node::Node;
use crate::node::NodeView;
use crate::vector::DistanceCalculator;
use crate::vector::VectorItem;
use crate::vector::all_finite;
use crate::vector::vector_all_finite;

verus! {

/// The hard cap on a neighbour list: `2M` at the base layer, `M` above.
pub open spec fn mmax_at(m: usize, m_max0: usize, l: int) -> int {
    if l == 0 {
        m_max0 as int
    } else {
        m as int
    }
}

/// One neighbour list is valid for its owner `s` at layer `l`: every
/// entry names a node of the table that participates in layer `l`, no
/// entry names the owner, and no entry repeats.
pub(crate) open spec fn conn_list_ok(nodes: Seq<GraphNode>, s: int, l: int, list: Seq<usize>) -> bool {
    &&& forall|j: int| 0 <= j < list.len() ==> (#[trigger] list[j] as int) < nodes.len()
    &&& forall|j: int| 0 <= j < list.len() ==> nodes[#[trigger] list[j] as int].layer >= l
    &&& forall|j: int| 0 <= j < list.len() ==> #[trigger] list[j] != s
    &&& forall|j1: int, j2: int| 0 <= j1 < j2 < list.len() ==> list[j1] != list[j2]
}

/// One node of the table is well formed: its top layer respects the
/// cap, it has one neighbour list per layer `0..=layer`, and each list
/// is valid and within its degree bound.
pub(crate) open spec fn node_ok(
    nodes: Seq<GraphNode>,
    s: int,
    m: usize,
    m_max0: usize,
    max_layer: usize,
) -> bool {
    let n = nodes[s];
    &&& n.layer <= max_layer
    &&& n.connections@.len() == n.layer + 1
    &&& forall|l: int| 0 <= l < n.connections@.len() ==>
            conn_list_ok(nodes, s, l, #[trigger] n.connections@[l]@)
    &&& forall|l: int| 0 <= l < n.connections@.len() ==>
            (#[trigger] n.connections@[l]@.len()) <= mmax_at(m, m_max0, l)
}

/// The slot `t` does not occur in the list.
pub(crate) open spec fn not_in_list(list: Seq<usize>, t: usize) -> bool {
    forall|j: int| 0 <= j < list.len() ==> #[trigger] list[j] != t
}

/// Items, layers and list counts agree position by position; only the
/// contents of neighbour lists may differ.
pub(crate) open spec fn nodes_shape_preserved(pre: Seq<GraphNode>, post: Seq<GraphNode>) -> bool {
    &&& post.len() == pre.len()
    &&& forall|i: int| 0 <= i < pre.len() ==> {
        &&& (#[trigger] post[i]).item.id == pre[i].item.id
        &&& post[i].item.vector@ == pre[i].item.vector@
        &&& post[i].layer == pre[i].layer
        &&& post[i].connections@.len() == pre[i].connections@.len()
    }
}

/// Some stored node carries this id.
pub open spec fn has_id(s: Seq<NodeView>, id: usize) -> bool {
    exists|i: int| 0 <= i < s.len() && s[i].id == id
}

/// The item is stored: some node carries its id and its components.
pub open spec fn stored_as(s: Seq<NodeView>, item: VectorItem) -> bool {
    exists|j: int| 0 <= j < s.len() && s[j].id == item.id && s[j].vector == item.vector@
}

/// A stored edge at this layer, at the level of the mathematical view:
/// node `a`'s layer list names node `b`'s id.
pub open spec fn view_edge(s: Seq<NodeView>, layer: int, a: int, b: int) -> bool {
    &&& 0 <= a < s.len()
    &&& 0 <= b < s.len()
    &&& 0 <= layer < s[a].connections.len()
    &&& exists|j: int| 0 <= j < s[a].connections[layer].len() && s[a].connections[layer][j]
        == s[b].id
}

/// Node `b` can be reached from node `a` along stored edges of this
/// layer in at most `steps` hops (nodes named by table position).
pub open spec fn view_reach_within(s: Seq<NodeView>, layer: int, a: int, b: int, steps: nat) -> bool
    decreases steps,
{
    b == a || (steps > 0 && exists|m: int|
        view_reach_within(s, layer, a, m, (steps - 1) as nat) && view_edge(s, layer, m, b))
}

/// Node `b` lies in the layer's connected component of node `a`.
pub open spec fn view_connected(s: Seq<NodeView>, layer: int, a: int, b: int) -> bool {
    exists|steps: nat| view_reach_within(s, layer, a, b, steps)
}

/// Every stored node lies in the base layer's connected component of
/// every other. Pruning does not promise to keep this, but while it
/// holds, a search sees the whole table (see `search`).
pub open spec fn base_layer_connected(s: Seq<NodeView>) -> bool {
    forall|a: int, b: int| 0 <= a < s.len() && 0 <= b < s.len() ==> view_connected(s, 0, a, b)
}

/// How many nodes participate in layer `l`, that is, have `top_layer >= l`.
pub open spec fn count_at_least(s: Seq<NodeView>, l: int) -> int
    decreases s.len(),
{
    if s.len() == 0 {
        0
    } else {
        count_at_least(s.drop_last(), l) + if s.last().top_layer >= l {
            1int
        } else {
            0int
        }
    }
}

/// The stored directed edge count of one node: its list lengths summed
/// over all layers.
pub open spec fn conn_total(c: Seq<Seq<usize>>) -> int
    decreases c.len(),
{
    if c.len() == 0 {
        0
    } else {
        conn_total(c.drop_last()) + c.last().len()
    }
}

/// The stored directed edge count of the whole table.
pub open spec fn total_edges(s: Seq<NodeView>) -> int
    decreases s.len(),
{
    if s.len() == 0 {
        0
    } else {
        total_edges(s.drop_last()) + conn_total(s.last().connections)
    }
}

/// The outcome `add` owes for this item against this table state:
/// `DuplicateId` for a stored id, then `DimensionMismatch` against the
/// dimension the first item established, then `InvalidVector` for a
/// non-finite component; otherwise success.
pub open spec fn add_check(s: Seq<NodeView>, item: VectorItem) -> Result<(), HnswError> {
    if has_id(s, item.id) {
        Err(HnswError::DuplicateId)
    } else if s.len() > 0 && item.vector@.len() != s[0].vector.len() {
        Err(HnswError::DimensionMismatch)
    } else if !all_finite(item.vector@) {
        Err(HnswError::InvalidVector)
    } else {
        Ok(())
    }
}

/// An in-memory approximate nearest-neighbour index over
/// fixed-dimensional vectors: a hierarchical navigable small-world
/// graph. Nodes live in a growing table; neighbour lists carry table
/// slots. The caller supplies the distance as a [`DistanceCalculator`].
pub struct HnswIndex<D: DistanceCalculator> {
    nodes: Vec<GraphNode>,
    /// Slot of the global entry point; meaningful only when the table
    /// is non-empty, and then it names a node of maximal top layer.
    entry: usize,
    m: usize,
    m_max0: usize,
    ef_construction: usize,
    ef_search: usize,
    max_layer: usize,
    distance: D,
}

impl<D: DistanceCalculator> View for HnswIndex<D> {
    type V = Seq<NodeView>;

    /// The mathematical content of the index: the stored nodes in
    /// insertion order, neighbour lists given as ids rather than slots.
    closed spec fn view(&self) -> Seq<NodeView> {
        let nodes = self.nodes@;
        Seq::new(
            nodes.len(),
            |s: int| NodeView {
                id: nodes[s].item.id,
                vector: nodes[s].item.vector@,
                top_layer: nodes[s].layer,
                connections: Seq::new(
                    nodes[s].connections@.len(),
                    |l: int| Seq::new(
                        nodes[s].connections@[l]@.len(),
                        |j: int| nodes[nodes[s].connections@[l]@[j] as int].item.id,
                    ),
                ),
            },
        )
    }
}

impl<D: DistanceCalculator> HnswIndex<D> {
    /// The construction-time parameters, as recorded.
    pub closed spec fn param_m(&self) -> usize {
        self.m
    }

    pub closed spec fn param_m_max0(&self) -> usize {
        self.m_max0
    }

    pub closed spec fn param_ef_construction(&self) -> usize {
        self.ef_construction
    }

    pub closed spec fn param_ef_search(&self) -> usize {
        self.ef_search
    }

    pub closed spec fn param_max_layer(&self) -> usize {
        self.max_layer
    }

    /// The distance the index was built with, as a mathematical
    /// function of two component sequences.
    pub closed spec fn dist_spec(&self, a: Seq<u64>, b: Seq<u64>) -> u64 {
        self.distance.dist(a, b)
    }

    /// The established dimension: the first stored item's length.
    /// Meaningful only when the table is non-empty.
    pub open spec fn dims(&self) -> nat {
        self@[0].vector.len()
    }

    /// The id of the global entry point, `None` exactly when empty.
    pub closed spec fn entry_id(&self) -> Option<usize> {
        if self.nodes@.len() == 0 {
            None
        } else {
            Some(self.nodes@[self.entry as int].item.id)
        }
    }

    /// Internal well-formedness: parameter ranges, per-node validity,
    /// id uniqueness, a single dimension, ids agreeing with items, and
    /// an entry point of maximal top layer.
    pub closed spec fn wf(&self) -> bool {
        &&& 2 <= self.m <= 0x10000
        &&& self.m_max0 == 2 * self.m
        &&& 1 <= self.ef_construction
        &&& 1 <= self.ef_search
        &&& 1 <= self.max_layer <= 0x10000
        &&& forall|s: int| 0 <= s < self.nodes@.len() ==>
                node_ok(self.nodes@, s, self.m, self.m_max0, self.max_layer)
        &&& forall|i: int, j: int| 0 <= i < j < self.nodes@.len() ==>
                self.nodes@[i].item.id != self.nodes@[j].item.id
        &&& forall|i: int| 0 <= i < self.nodes@.len() ==>
                (#[trigger] self.nodes@[i].item.vector@.len()) == self.nodes@[0].item.vector@.len()
        &&& self.nodes@.len() > 0 ==> (self.entry as int) < self.nodes@.len()
        &&& self.nodes@.len() > 0 ==> forall|i: int| 0 <= i < self.nodes@.len() ==>
                (#[trigger] self.nodes@[i].layer) <= self.nodes@[self.entry as int].layer
    }

    /// Constructs an empty index with the given distance function and
    /// the default parameters: `M = 16`, `ef_construction = 128`,
    /// `ef_search = 64`, `max_layer = 16`.
    pub fn new(distance: D) -> (r: Self)
        ensures
            r.wf(),
            r@.len() == 0,
            r.param_m() == 16,
            r.param_m_max0() == 32,
            r.param_ef_construction() == 128,
            r.param_ef_search() == 64,
            r.param_max_layer() == 16,
            r.dist_spec_is(distance),
    {
        Self::with_params(distance, 16, 128, 64, 16)
    }

    /// The index's calculator is this one.
    pub open spec fn dist_spec_is(&self, d: D) -> bool {
        forall|a: Seq<u64>, b: Seq<u64>| #[trigger] self.dist_spec(a, b) == d.dist(a, b)
    }

    /// Constructs an empty index with the given distance function and
    /// parameters. The bounds on `m` and `max_layer` keep every derived
    /// quantity comfortably within machine integers.
    pub fn with_params(
        distance: D,
        m: usize,
        ef_construction: usize,
        ef_search: usize,
        max_layer: usize,
    ) -> (r: Self)
        requires
            2 <= m <= 0x10000,
            1 <= ef_construction,
            1 <= ef_search,
            1 <= max_layer <= 0x10000,
        ensures
            r.wf(),
            r@.len() == 0,
            r.param_m() == m,
            r.param_m_max0() == 2 * m,
            r.param_ef_construction() == ef_construction,
            r.param_ef_search() == ef_search,
            r.param_max_layer() == max_layer,
            r.dist_spec_is(distance),
    {
        HnswIndex {
            nodes: Vec::new(),
            entry: 0,
            m,
            m_max0: 2 * m,
            ef_construction,
            ef_search,
            max_layer,
            distance,
        }
    }
}

/// How many entries of a bit map are set.
pub(crate) open spec fn count_true(s: Seq<bool>) -> int
    decreases s.len(),
{
    if s.len() == 0 {
        0
    } else {
        count_true(s.drop_last()) + if s.last() {
            1int
        } else {
            0int
        }
    }
}

proof fn lemma_count_true_bound(s: Seq<bool>)
    ensures
        0 <= count_true(s) <= s.len(),
    decreases s.len(),
{
    if s.len() > 0 {
        lemma_count_true_bound(s.drop_last());
    }
}

proof fn lemma_count_true_update(s: Seq<bool>, i: int)
    requires
        0 <= i < s.len(),
        !s[i],
    ensures
        count_true(s.update(i, true)) == count_true(s) + 1,
    decreases s.len(),
{
    let t = s.update(i, true);
    if i == s.len() - 1 {
        assert(t.drop_last() =~= s.drop_last());
        assert(t.last());
    } else {
        lemma_count_true_update(s.drop_last(), i);
        assert(t.drop_last() =~= s.drop_last().update(i, true));
        assert(t.last() == s.last());
    }
}

/// A sequence of records with pairwise-distinct slots, all below `n`,
/// cannot be longer than `n`.
proof fn lemma_distinct_slots_bounded(s: Seq<Neighbor>, n: int)
    requires
        distinct_slots(s),
        n >= 0,
        forall|i: int| 0 <= i < s.len() ==> ((#[trigger] s[i]).slot as int) < n,
    ensures
        s.len() <= n,
    decreases n,
{
    if s.len() == 0 {
    } else if n == 0 {
        assert((s[0].slot as int) < 0);
    } else if exists|i: int| 0 <= i < s.len() && (s[i].slot as int) == n - 1 {
        let i = choose|i: int| 0 <= i < s.len() && (s[i].slot as int) == n - 1;
        let s2 = s.remove(i);
        assert forall|j1: int, j2: int| 0 <= j1 < j2 < s2.len() implies s2[j1].slot != s2[j2].slot by {
            let a1: int = if j1 < i { j1 } else { j1 + 1 };
            let a2: int = if j2 < i { j2 } else { j2 + 1 };
            assert(s2[j1] == s[a1] && s2[j2] == s[a2]);
        }
        assert forall|j: int| 0 <= j < s2.len() implies ((#[trigger] s2[j]).slot as int) < n - 1 by {
            let a: int = if j < i { j } else { j + 1 };
            assert(s2[j] == s[a]);
            assert(a != i ==> s[a].slot != s[i].slot);
        }
        lemma_distinct_slots_bounded(s2, n - 1);
    } else {
        assert forall|i: int| 0 <= i < s.len() implies ((#[trigger] s[i]).slot as int) < n - 1 by {
            assert((s[i].slot as int) != n - 1);
        }
        lemma_distinct_slots_bounded(s, n - 1);
    }
}

/// The vectors the table stores, by slot.
pub(crate) open spec fn slot_vectors(nodes: Seq<GraphNode>) -> Seq<Seq<u64>> {
    Seq::new(nodes.len(), |s: int| nodes[s].item.vector@)
}

/// The selector's acceptance rule: a candidate is kept exactly when it
/// is at least as close to the query (its recorded distance) as to
/// every already-kept slot.
pub(crate) open spec fn select_accepts<D: DistanceCalculator>(
    d: D,
    vecs: Seq<Seq<u64>>,
    c: Neighbor,
    acc: Seq<usize>,
) -> bool {
    forall|w: int| 0 <= w < acc.len() ==> d.dist(
        vecs[c.slot as int],
        vecs[(#[trigger] acc[w]) as int],
    ) >= c.distance
}

/// The selector's walk over a sorted candidate list from position `i`
/// with `acc` already kept: scans in order, keeps each accepted
/// candidate's slot, and stops growing at `limit`.
pub(crate) open spec fn select_rec<D: DistanceCalculator>(
    d: D,
    vecs: Seq<Seq<u64>>,
    cands: Seq<Neighbor>,
    i: int,
    acc: Seq<usize>,
    limit: int,
) -> Seq<usize>
    decreases cands.len() - i,
{
    if i < 0 || i >= cands.len() || acc.len() >= limit {
        acc
    } else if select_accepts(d, vecs, cands[i], acc) {
        select_rec(d, vecs, cands, i + 1, acc.push(cands[i].slot), limit)
    } else {
        select_rec(d, vecs, cands, i + 1, acc, limit)
    }
}

/// What the reverse pass leaves in one chosen neighbour's layer list:
/// the fresh slot appended, and, when that exceeds the cap, the
/// selector rerun over the whole appended list, each entry carrying its
/// distance to the neighbour's own item.
pub(crate) open spec fn reverse_list_after<D: DistanceCalculator>(
    d: D,
    nodes: Seq<GraphNode>,
    y: int,
    l: int,
    new_slot: usize,
    cap: int,
) -> Seq<usize> {
    let appended = nodes[y].connections@[l]@.push(new_slot);
    let records = Seq::new(
        appended.len(),
        |w: int| Neighbor {
            distance: d.dist(nodes[y].item.vector@, nodes[appended[w] as int].item.vector@),
            id: nodes[appended[w] as int].item.id,
            slot: appended[w],
        },
    );
    if appended.len() <= cap {
        appended
    } else {
        select_rec(d, slot_vectors(nodes), sort_spec(records), 0, Seq::<usize>::empty(), cap)
    }
}

/// There is a stored edge from slot `a` to slot `b` at this layer.
pub(crate) open spec fn layer_edge(nodes: Seq<GraphNode>, layer: int, a: int, b: int) -> bool {
    &&& 0 <= a < nodes.len()
    &&& 0 <= layer < nodes[a].connections@.len()
    &&& exists|j: int| 0 <= j < nodes[a].connections@[layer]@.len()
        && nodes[a].connections@[layer]@[j] == b
}

/// Slot `t` can be reached from `entry` along stored edges of this
/// layer in at most `steps` hops.
pub(crate) open spec fn reach_within(
    nodes: Seq<GraphNode>,
    layer: int,
    entry: int,
    t: int,
    steps: nat,
) -> bool
    decreases steps,
{
    t == entry || (steps > 0 && exists|a: int|
        reach_within(nodes, layer, entry, a, (steps - 1) as nat) && layer_edge(
            nodes,
            layer,
            a,
            t,
        ))
}

/// Slot `t` lies in the layer's connected component of `entry`.
pub(crate) open spec fn layer_reachable(
    nodes: Seq<GraphNode>,
    layer: int,
    entry: int,
    t: int,
) -> bool {
    exists|steps: nat| reach_within(nodes, layer, entry, t, steps)
}

proof fn lemma_reachable_entry(nodes: Seq<GraphNode>, layer: int, entry: int)
    ensures
        layer_reachable(nodes, layer, entry, entry),
{
    assert(reach_within(nodes, layer, entry, entry, 0nat));
}

proof fn lemma_reachable_step(nodes: Seq<GraphNode>, layer: int, entry: int, a: int, b: int)
    requires
        layer_reachable(nodes, layer, entry, a),
        layer_edge(nodes, layer, a, b),
    ensures
        layer_reachable(nodes, layer, entry, b),
{
    let steps = choose|steps: nat| reach_within(nodes, layer, entry, a, steps);
    assert(reach_within(nodes, layer, entry, b, steps + 1));
}

/// A bit map over the slots that holds the entry and is closed under
/// the layer's edges holds everything the entry reaches.
proof fn lemma_reach_in_closed_set(
    nodes: Seq<GraphNode>,
    layer: int,
    entry: int,
    t: int,
    steps: nat,
    visited: Seq<bool>,
)
    requires
        visited.len() == nodes.len(),
        0 <= entry < nodes.len(),
        visited[entry],
        forall|a: int, b: int| layer_edge(nodes, layer, a, b) ==> 0 <= b < nodes.len(),
        forall|a: int, b: int|
            0 <= a < nodes.len() && visited[a] && #[trigger] layer_edge(nodes, layer, a, b)
                ==> visited[b],
        reach_within(nodes, layer, entry, t, steps),
    ensures
        0 <= t < nodes.len(),
        visited[t],
    decreases steps,
{
    if t != entry {
        let a = choose|a: int|
            reach_within(nodes, layer, entry, a, (steps - 1) as nat) && layer_edge(
                nodes,
                layer,
                a,
                t,
            );
        lemma_reach_in_closed_set(nodes, layer, entry, a, (steps - 1) as nat, visited);
    }
}

/// A sequence of records with pairwise-distinct slots that mentions
/// every slot below `n` holds at least `n` records.
proof fn lemma_distinct_slots_cover(s: Seq<Neighbor>, n: int)
    requires
        distinct_slots(s),
        0 <= n <= usize::MAX,
        forall|t: usize| (t as int) < n ==> has_slot(s, t),
    ensures
        s.len() >= n,
    decreases n,
{
    if n > 0 {
        assert(has_slot(s, (n - 1) as usize));
        let i = choose|i: int| 0 <= i < s.len() && s[i].slot == (n - 1) as usize;
        assert((s[i].slot as int) == n - 1);
        let s2 = s.remove(i);
        assert forall|j1: int, j2: int| 0 <= j1 < j2 < s2.len() implies s2[j1].slot
            != s2[j2].slot by {
            let a1: int = if j1 < i { j1 } else { j1 + 1 };
            let a2: int = if j2 < i { j2 } else { j2 + 1 };
            assert(s2[j1] == s[a1] && s2[j2] == s[a2]);
        }
        assert forall|t: usize| (t as int) < n - 1 implies has_slot(s2, t) by {
            assert(has_slot(s, t));
            let w = choose|w: int| 0 <= w < s.len() && s[w].slot == t;
            assert((s[w].slot as int) < n - 1);
            assert(w != i);
            if w < i {
                assert(s2[w].slot == t);
            } else {
                assert(s2[w - 1].slot == t);
            }
        }
        lemma_distinct_slots_cover(s2, n - 1);
    }
}

/// As `lemma_distinct_slots_bounded`, but with one slot below `n` that
/// never occurs: the bound drops by one.
proof fn lemma_distinct_slots_bounded_excl(s: Seq<Neighbor>, n: int, excl: usize)
    requires
        distinct_slots(s),
        n >= 1,
        (excl as int) < n,
        forall|i: int| 0 <= i < s.len() ==> ((#[trigger] s[i]).slot as int) < n,
        forall|i: int| 0 <= i < s.len() ==> (#[trigger] s[i]).slot != excl,
    ensures
        s.len() <= n - 1,
    decreases n,
{
    if (excl as int) == n - 1 {
        assert forall|i: int| 0 <= i < s.len() implies ((#[trigger] s[i]).slot as int) < n - 1 by {
            assert(s[i].slot != excl);
        }
        lemma_distinct_slots_bounded(s, n - 1);
    } else if exists|i: int| 0 <= i < s.len() && (s[i].slot as int) == n - 1 {
        let i = choose|i: int| 0 <= i < s.len() && (s[i].slot as int) == n - 1;
        let s2 = s.remove(i);
        assert forall|j1: int, j2: int| 0 <= j1 < j2 < s2.len() implies s2[j1].slot
            != s2[j2].slot by {
            let a1: int = if j1 < i { j1 } else { j1 + 1 };
            let a2: int = if j2 < i { j2 } else { j2 + 1 };
            assert(s2[j1] == s[a1] && s2[j2] == s[a2]);
        }
        assert forall|j: int| 0 <= j < s2.len() implies ((#[trigger] s2[j]).slot as int) < n - 1
            && s2[j].slot != excl by {
            let a: int = if j < i { j } else { j + 1 };
            assert(s2[j] == s[a]);
            assert(a != i ==> s[a].slot != s[i].slot);
        }
        lemma_distinct_slots_bounded_excl(s2, n - 1, excl);
    } else {
        assert forall|i: int| 0 <= i < s.len() implies ((#[trigger] s[i]).slot as int) < n - 1 by {
            assert((s[i].slot as int) != n - 1);
        }
        lemma_distinct_slots_bounded_excl(s, n - 1, excl);
    }
}

/// A sequence of exactly `n` records with pairwise-distinct slots, all
/// below `n`, mentions every slot below `n`.
proof fn lemma_distinct_slots_full(s: Seq<Neighbor>, n: int)
    requires
        distinct_slots(s),
        0 <= n <= usize::MAX,
        s.len() == n,
        forall|i: int| 0 <= i < s.len() ==> ((#[trigger] s[i]).slot as int) < n,
    ensures
        forall|t: usize| (t as int) < n ==> has_slot(s, t),
{
    assert forall|t: usize| (t as int) < n implies has_slot(s, t) by {
        if !has_slot(s, t) {
            assert forall|i: int| 0 <= i < s.len() implies (#[trigger] s[i]).slot != t by {
                if s[i].slot == t {
                    assert(has_slot(s, t));
                }
            }
            lemma_distinct_slots_bounded_excl(s, n, t);
        }
    }
}

/// Relies on `rand::Rng::gen_range` on the thread-local generator: a
/// uniform draw from `0..bound` is strictly below `bound`. Nothing more
/// is assumed of the draw.
#[verifier::external_body]
fn random_below(bound: u64) -> (r: u64)
    requires
        bound >= 1,
    ensures
        r < bound,
{
    rand::thread_rng().gen_range(0..bound)
}

impl<D: DistanceCalculator> HnswIndex<D> {
    /// One candidate record is coherent with the table for this query
    /// and layer: its slot is stored, participates in the layer, and it
    /// carries that node's id and distance to the query.
    spec fn nb_ok(&self, q: Seq<u64>, layer: usize, c: Neighbor) -> bool {
        &&& (c.slot as int) < self.nodes@.len()
        &&& self.nodes@[c.slot as int].layer >= layer
        &&& c.id == self.nodes@[c.slot as int].item.id
        &&& c.distance == self.dist_spec(q, self.nodes@[c.slot as int].item.vector@)
    }

    spec fn all_nb_ok(&self, q: Seq<u64>, layer: usize, s: Seq<Neighbor>) -> bool {
        forall|i: int| 0 <= i < s.len() ==> self.nb_ok(q, layer, #[trigger] s[i])
    }

    /// Samples a fresh node's top layer: each further layer is reached
    /// with probability `1/M`, clamped to `max_layer`, so the expected
    /// fraction of nodes reaching layer `L` is `(1/M)^L`.
    fn random_level(&self) -> (l: usize)
        requires
            self.wf(),
        ensures
            l <= self.param_max_layer(),
    {
        let mut level: usize = 0;
        let mut rising = true;
        while rising && level < self.max_layer
            invariant
                self.wf(),
                level <= self.max_layer,
            decreases self.max_layer - level, (if rising { 1int } else { 0int }),
        {
            if random_below(self.m as u64) == 0 {
                level += 1;
            } else {
                rising = false;
            }
        }
        level
    }

    /// Whether some stored node carries this id.
    fn contains_id(&self, id: usize) -> (r: bool)
        ensures
            r == has_id(self@, id),
    {
        let mut i: usize = 0;
        while i < self.nodes.len()
            invariant
                i <= self.nodes@.len(),
                forall|j: int| 0 <= j < i ==> (#[trigger] self@[j]).id != id,
            decreases self.nodes@.len() - i,
        {
            if self.nodes[i].item.id == id {
                assert(self@[i as int].id == id);
                return true;
            }
            assert(self@[i as int].id == self.nodes@[i as int].item.id);
            i += 1;
        }
        false
    }

    /// Applies the index's distance function to two items.
    fn calculate_distances(&self, item1: &VectorItem, item2: &VectorItem) -> (d: u64)
        ensures
            d == self.dist_spec(item1.vector@, item2.vector@),
    {
        self.distance.calculate(item1, item2)
    }

    /// Greedy local descent within one layer: repeatedly moves to the
    /// neighbour strictly closest to the query until none improves.
    fn greedy_descent_layer(&self, query: &VectorItem, ep: usize, ep_dist: u64, layer: usize) -> (r: (
        usize,
        u64,
    ))
        requires
            self.wf(),
            (ep as int) < self.nodes@.len(),
            self.nodes@[ep as int].layer >= layer,
            ep_dist == self.dist_spec(query.vector@, self.nodes@[ep as int].item.vector@),
        ensures
            (r.0 as int) < self.nodes@.len(),
            self.nodes@[r.0 as int].layer >= layer,
            r.1 == self.dist_spec(query.vector@, self.nodes@[r.0 as int].item.vector@),
            r.1 <= ep_dist,
            // a local minimum: none of its neighbours at this layer is
            // strictly closer to the query
            forall|j: int|
                0 <= j < self.nodes@[r.0 as int].connections@[layer as int]@.len()
                    ==> self.dist_spec(
                    query.vector@,
                    self.nodes@[
                        #[trigger] self.nodes@[r.0 as int].connections@[layer as int]@[j] as int
                    ].item.vector@,
                ) >= r.1,
    {
        let mut cur = ep;
        let mut cur_dist = ep_dist;
        loop
            invariant
                self.wf(),
                (cur as int) < self.nodes@.len(),
                self.nodes@[cur as int].layer >= layer,
                cur_dist == self.dist_spec(query.vector@, self.nodes@[cur as int].item.vector@),
                cur_dist <= ep_dist,
            ensures
                (cur as int) < self.nodes@.len(),
                self.nodes@[cur as int].layer >= layer,
                cur_dist == self.dist_spec(query.vector@, self.nodes@[cur as int].item.vector@),
                cur_dist <= ep_dist,
                forall|j: int|
                    0 <= j < self.nodes@[cur as int].connections@[layer as int]@.len()
                        ==> self.dist_spec(
                        query.vector@,
                        self.nodes@[
                            #[trigger] self.nodes@[cur as int].connections@[
                                layer as int
                            ]@[j] as int
                        ].item.vector@,
                    ) >= cur_dist,
            decreases cur_dist,
        {
            let mut best = cur;
            let mut best_dist = cur_dist;
            proof {
                assert(node_ok(self.nodes@, cur as int, self.m, self.m_max0, self.max_layer));
            }
            let list_len = self.nodes[cur].connections[layer].len();
            let mut j: usize = 0;
            while j < list_len
                invariant
                    self.wf(),
                    (cur as int) < self.nodes@.len(),
                    self.nodes@[cur as int].layer >= layer,
                    (layer as int) < self.nodes@[cur as int].connections@.len(),
                    list_len == self.nodes@[cur as int].connections@[layer as int]@.len(),
                    j <= list_len,
                    (best as int) < self.nodes@.len(),
                    self.nodes@[best as int].layer >= layer,
                    best_dist == self.dist_spec(query.vector@, self.nodes@[best as int].item.vector@),
                    best == cur || best_dist < cur_dist,
                    best == cur ==> best_dist == cur_dist,
                    best_dist <= cur_dist,
                    forall|j2: int| 0 <= j2 < j ==> self.dist_spec(
                        query.vector@,
                        self.nodes@[
                            #[trigger] self.nodes@[cur as int].connections@[
                                layer as int
                            ]@[j2] as int
                        ].item.vector@,
                    ) >= best_dist,
                decreases list_len - j,
            {
                proof {
                    assert(node_ok(self.nodes@, cur as int, self.m, self.m_max0, self.max_layer));
                    assert(conn_list_ok(
                        self.nodes@,
                        cur as int,
                        layer as int,
                        self.nodes@[cur as int].connections@[layer as int]@,
                    ));
                }
                let s = self.nodes[cur].connections[layer][j];
                proof {
                    assert(s != cur);
                }
                let d = self.calculate_distances(query, &self.nodes[s].item);
                if d < best_dist {
                    best = s;
                    best_dist = d;
                }
                j += 1;
            }
            if best == cur {
                break;
            }
            cur = best;
            cur_dist = best_dist;
        }
        (cur, cur_dist)
    }

    /// Best-first search within one layer: returns
    /// up to `ef` stored nodes close to the query, sorted ascending by
    /// (distance, id), seeded from `entry`.
    fn search_at_layer(&self, query: &VectorItem, entry: usize, layer: usize, ef: usize) -> (res:
        Vec<Neighbor>)
        requires
            self.wf(),
            (entry as int) < self.nodes@.len(),
            self.nodes@[entry as int].layer >= layer,
            ef >= 1,
        ensures
            sorted(res@),
            distinct_slots(res@),
            self.all_nb_ok(query.vector@, layer, res@),
            1 <= res@.len() <= ef,
            res@.len() <= self.nodes@.len(),
            forall|i: int| 0 <= i < res@.len() ==> layer_reachable(
                self.nodes@,
                layer as int,
                entry as int,
                ((#[trigger] res@[i]).slot) as int,
            ),
            res@.len() == ef || (forall|t: usize|
                (t as int) < self.nodes@.len() && layer_reachable(
                    self.nodes@,
                    layer as int,
                    entry as int,
                    t as int,
                ) ==> has_slot(res@, t)),
            // the head never falls behind the seed: the entry record is
            // in the result or something (distance, id)-smaller is
            nb_le(
                res@[0],
                (Neighbor {
                    distance: self.dist_spec(query.vector@, self.nodes@[entry as int].item.vector@),
                    id: self.nodes@[entry as int].item.id,
                    slot: entry,
                }),
            ),
    {
        let n = self.nodes.len();
        let ghost q = query.vector@;

        // visited bit map over table slots
        let mut visited: Vec<bool> = Vec::new();
        let mut k: usize = 0;
        while k < n
            invariant
                k <= n,
                visited@.len() == k,
                count_true(visited@) == 0,
                forall|t: int| 0 <= t < k ==> !visited@[t],
            decreases n - k,
        {
            proof {
                assert(visited@.push(false).drop_last() =~= visited@);
            }
            visited.push(false);
            k += 1;
        }
        let ghost mut vcount: int = 0;

        let entry_dist = self.calculate_distances(query, &self.nodes[entry].item);
        let seed = Neighbor { distance: entry_dist, id: self.nodes[entry].item.id, slot: entry };

        let mut candidates: Vec<Neighbor> = Vec::new();
        let mut results: Vec<Neighbor> = Vec::new();
        let ghost vis0 = visited@;
        visited.set(entry, true);
        proof {
            lemma_count_true_update(vis0, entry as int);
            vcount = 1;
            lemma_count_true_bound(visited@);
            lemma_reachable_entry(self.nodes@, layer as int, entry as int);
        }
        candidates.push(seed);
        results.push(seed);
        let ghost mut expanded: Set<usize> = Set::empty();
        proof {
            assert(results@[0] == seed && candidates@[0] == seed);
            assert(has_slot(results@, entry));
            assert(has_slot(candidates@, entry));
            assert forall|t: int| 0 <= t < n && #[trigger] visited@[t] implies t
                == entry as int by {
                assert(!vis0[t]);
            }
        }

        loop
            invariant
                self.wf(),
                ef >= 1,
                n == self.nodes@.len(),
                visited@.len() == n,
                vcount == count_true(visited@),
                0 <= vcount <= n,
                (entry as int) < n,
                visited@[entry as int],
                sorted(candidates@),
                distinct_slots(candidates@),
                self.all_nb_ok(q, layer, candidates@),
                forall|i: int| 0 <= i < candidates@.len() ==>
                    visited@[(#[trigger] candidates@[i]).slot as int],
                sorted(results@),
                distinct_slots(results@),
                self.all_nb_ok(q, layer, results@),
                forall|i: int| 0 <= i < results@.len() ==>
                    visited@[(#[trigger] results@[i]).slot as int],
                1 <= results@.len() <= ef,
                nb_le(results@[0], seed),
                forall|t: int| 0 <= t < n && #[trigger] visited@[t] ==> layer_reachable(
                    self.nodes@,
                    layer as int,
                    entry as int,
                    t,
                ),
                forall|t: usize| #[trigger] expanded.contains(t) ==> (t as int) < n
                    && visited@[t as int],
                forall|t: usize, b: int|
                    expanded.contains(t) && #[trigger] layer_edge(
                        self.nodes@,
                        layer as int,
                        t as int,
                        b,
                    ) ==> 0 <= b < n && visited@[b],
                results@.len() < ef ==> (forall|t: int|
                    0 <= t < n && #[trigger] visited@[t] ==> has_slot(results@, t as usize)),
                results@.len() < ef ==> (forall|t: int|
                    0 <= t < n && #[trigger] visited@[t] ==> (has_slot(candidates@, t as usize)
                        || expanded.contains(t as usize))),
                q == query.vector@,
            ensures
                sorted(results@),
                distinct_slots(results@),
                self.all_nb_ok(q, layer, results@),
                1 <= results@.len() <= ef,
                nb_le(results@[0], seed),
                forall|i: int| 0 <= i < results@.len() ==> layer_reachable(
                    self.nodes@,
                    layer as int,
                    entry as int,
                    ((#[trigger] results@[i]).slot) as int,
                ),
                results@.len() == ef || (forall|t: usize|
                    (t as int) < n && layer_reachable(
                        self.nodes@,
                        layer as int,
                        entry as int,
                        t as int,
                    ) ==> has_slot(results@, t)),
            decreases candidates@.len() + n - vcount,
        {
            if candidates.len() == 0 {
                proof {
                    if results@.len() < ef {
                        assert forall|a: int, b: int|
                            0 <= a < n && visited@[a] && #[trigger] layer_edge(
                                self.nodes@,
                                layer as int,
                                a,
                                b,
                            ) implies visited@[b] by {
                            assert(has_slot(candidates@, a as usize) || expanded.contains(
                                a as usize,
                            ));
                            if has_slot(candidates@, a as usize) {
                                let w = choose|w: int| 0 <= w < candidates@.len()
                                    && candidates@[w].slot == a as usize;
                                assert(false);
                            }
                        }
                        assert forall|a: int, b: int| #[trigger] layer_edge(
                            self.nodes@,
                            layer as int,
                            a,
                            b,
                        ) implies 0 <= b < n by {
                            assert(node_ok(self.nodes@, a, self.m, self.m_max0, self.max_layer));
                            assert(conn_list_ok(
                                self.nodes@,
                                a,
                                layer as int,
                                self.nodes@[a].connections@[layer as int]@,
                            ));
                            let jw = choose|jw: int|
                                0 <= jw < self.nodes@[a].connections@[layer as int]@.len()
                                    && self.nodes@[a].connections@[layer as int]@[jw] == b;
                            assert(self.nodes@[a].connections@[layer as int]@[jw] == b);
                        }
                        assert forall|t: usize|
                            (t as int) < n && layer_reachable(
                                self.nodes@,
                                layer as int,
                                entry as int,
                                t as int,
                            ) implies has_slot(results@, t) by {
                            let steps = choose|steps: nat| reach_within(
                                self.nodes@,
                                layer as int,
                                entry as int,
                                t as int,
                                steps,
                            );
                            lemma_reach_in_closed_set(
                                self.nodes@,
                                layer as int,
                                entry as int,
                                t as int,
                                steps,
                                visited@,
                            );
                        }
                    }
                }
                break;
            }
            let ghost cands_pre = candidates@;
            let current = candidates.remove(0);
            proof {
                assert(candidates@ =~= cands_pre.remove(0));
                assert forall|i: int| 0 <= i < candidates@.len() implies
                    self.nb_ok(q, layer, #[trigger] candidates@[i])
                        && visited@[candidates@[i].slot as int] by {
                    assert(candidates@[i] == cands_pre[i + 1]);
                }
                assert forall|i: int, j: int| 0 <= i < j < candidates@.len() implies
                    candidates@[i].slot != candidates@[j].slot by {
                    assert(candidates@[i] == cands_pre[i + 1] && candidates@[j] == cands_pre[j + 1]);
                }
                assert forall|i: int, j: int| 0 <= i < j < candidates@.len() implies
                    nb_le(candidates@[i], candidates@[j]) by {
                    assert(candidates@[i] == cands_pre[i + 1] && candidates@[j] == cands_pre[j + 1]);
                }
                assert(self.nb_ok(q, layer, current) && visited@[current.slot as int]) by {
                    assert(cands_pre[0] == current);
                }
                // with the head popped, everything seen is pending,
                // expanded, or the head itself
                if results@.len() < ef {
                    assert forall|t: int| 0 <= t < n && #[trigger] visited@[t] implies
                        (has_slot(candidates@, t as usize) || expanded.contains(t as usize)
                            || t == current.slot as int) by {
                        if has_slot(cands_pre, t as usize) && t != current.slot as int {
                            let w = choose|w: int| 0 <= w < cands_pre.len()
                                && cands_pre[w].slot == t as usize;
                            assert(w != 0);
                            assert(candidates@[w - 1].slot == t as usize);
                        }
                    }
                }
            }
            let furthest = results[results.len() - 1].distance;
            if current.distance > furthest {
                proof {
                    // a result set below capacity holds every seen
                    // record, the head included, so the head cannot lie
                    // beyond the furthest result: the set is full here
                    if results@.len() < ef {
                        assert(has_slot(results@, current.slot));
                        let w = choose|w: int| 0 <= w < results@.len()
                            && results@[w].slot == current.slot;
                        assert(self.nb_ok(q, layer, results@[w]));
                        assert(results@[w].distance == current.distance);
                        assert(nb_le(results@[w], results@[results@.len() - 1]));
                        assert(false);
                    }
                }
                break;
            }

            // expand the popped candidate's neighbours at this layer
            proof {
                assert(node_ok(self.nodes@, current.slot as int, self.m, self.m_max0, self.max_layer));
            }
            let list_len = self.nodes[current.slot].connections[layer].len();
            let ghost snap: int = candidates@.len() + n - vcount;
            let mut j: usize = 0;
            while j < list_len
                invariant
                    self.wf(),
                    ef >= 1,
                    n == self.nodes@.len(),
                    visited@.len() == n,
                    vcount == count_true(visited@),
                    0 <= vcount <= n,
                    (entry as int) < n,
                    visited@[entry as int],
                    (current.slot as int) < self.nodes@.len(),
                    visited@[current.slot as int],
                    self.nodes@[current.slot as int].layer >= layer,
                    (layer as int) < self.nodes@[current.slot as int].connections@.len(),
                    list_len == self.nodes@[current.slot as int].connections@[layer as int]@.len(),
                    j <= list_len,
                    sorted(candidates@),
                    distinct_slots(candidates@),
                    self.all_nb_ok(q, layer, candidates@),
                    forall|i: int| 0 <= i < candidates@.len() ==>
                        visited@[(#[trigger] candidates@[i]).slot as int],
                    sorted(results@),
                    distinct_slots(results@),
                    self.all_nb_ok(q, layer, results@),
                    forall|i: int| 0 <= i < results@.len() ==>
                        visited@[(#[trigger] results@[i]).slot as int],
                    1 <= results@.len() <= ef,
                    nb_le(results@[0], seed),
                    candidates@.len() + n - vcount <= snap,
                    forall|t: int| 0 <= t < n && #[trigger] visited@[t] ==> layer_reachable(
                        self.nodes@,
                        layer as int,
                        entry as int,
                        t,
                    ),
                    forall|t: usize| #[trigger] expanded.contains(t) ==> (t as int) < n
                        && visited@[t as int],
                    forall|t: usize, b: int|
                        expanded.contains(t) && #[trigger] layer_edge(
                            self.nodes@,
                            layer as int,
                            t as int,
                            b,
                        ) ==> 0 <= b < n && visited@[b],
                    results@.len() < ef ==> (forall|t: int|
                        0 <= t < n && #[trigger] visited@[t] ==> has_slot(results@, t as usize)),
                    results@.len() < ef ==> (forall|t: int|
                        0 <= t < n && #[trigger] visited@[t] ==> (has_slot(
                            candidates@,
                            t as usize,
                        ) || expanded.contains(t as usize) || t == current.slot as int)),
                    forall|j2: int| 0 <= j2 < j ==> visited@[
                        #[trigger] self.nodes@[current.slot as int].connections@[
                            layer as int
                        ]@[j2] as int
                    ],
                    q == query.vector@,
                decreases list_len - j,
            {
                proof {
                    assert(node_ok(self.nodes@, current.slot as int, self.m, self.m_max0, self.max_layer));
                    assert(conn_list_ok(
                        self.nodes@,
                        current.slot as int,
                        layer as int,
                        self.nodes@[current.slot as int].connections@[layer as int]@,
                    ));
                }
                let s = self.nodes[current.slot].connections[layer][j];
                if !visited[s] {
                    proof {
                        lemma_count_true_update(visited@, s as int);
                        lemma_count_true_bound(visited@);
                        assert(layer_edge(
                            self.nodes@,
                            layer as int,
                            current.slot as int,
                            s as int,
                        )) by {
                            assert(self.nodes@[current.slot as int].connections@[
                                layer as int
                            ]@[j as int] == s);
                        }
                        lemma_reachable_step(
                            self.nodes@,
                            layer as int,
                            entry as int,
                            current.slot as int,
                            s as int,
                        );
                    }
                    visited.set(s, true);
                    proof {
                        vcount = vcount + 1;
                        lemma_count_true_bound(visited@);
                    }
                    let d = self.calculate_distances(query, &self.nodes[s].item);
                    let nb = Neighbor { distance: d, id: self.nodes[s].item.id, slot: s };
                    if results.len() < ef || d < furthest {
                        proof {
                            assert(!has_slot(candidates@, nb.slot)) by {
                                if has_slot(candidates@, nb.slot) {
                                    let i = choose|i: int| 0 <= i < candidates@.len()
                                        && candidates@[i].slot == nb.slot;
                                    assert(visited@[candidates@[i].slot as int]);
                                }
                            }
                            assert(!has_slot(results@, nb.slot)) by {
                                if has_slot(results@, nb.slot) {
                                    let i = choose|i: int| 0 <= i < results@.len()
                                        && results@[i].slot == nb.slot;
                                    assert(visited@[results@[i].slot as int]);
                                }
                            }
                        }
                        let ghost c_pre = candidates@;
                        insert_sorted(&mut candidates, nb);
                        proof {
                            assert forall|i: int| 0 <= i < candidates@.len() implies
                                self.nb_ok(q, layer, #[trigger] candidates@[i])
                                    && visited@[candidates@[i].slot as int] by {
                                if candidates@[i] != nb {
                                    assert(c_pre.contains(candidates@[i]));
                                    let w = choose|w: int| 0 <= w < c_pre.len()
                                        && c_pre[w] == candidates@[i];
                                    assert(self.nb_ok(q, layer, c_pre[w]));
                                }
                            }
                        }
                        let ghost r_pre = results@;
                        insert_sorted(&mut results, nb);
                        proof {
                            assert forall|i: int| 0 <= i < results@.len() implies
                                self.nb_ok(q, layer, #[trigger] results@[i])
                                    && visited@[results@[i].slot as int] by {
                                if results@[i] != nb {
                                    assert(r_pre.contains(results@[i]));
                                    let w = choose|w: int| 0 <= w < r_pre.len()
                                        && r_pre[w] == results@[i];
                                    assert(self.nb_ok(q, layer, r_pre[w]));
                                }
                            }
                            // the head can only move closer
                            assert(nb_le(results@[0], seed)) by {
                                assert(results@.contains(r_pre[0]));
                                let w0 = choose|w0: int| 0 <= w0 < results@.len()
                                    && results@[w0] == r_pre[0];
                                assert(nb_le(results@[0], results@[w0]));
                            }
                        }
                        if results.len() > ef {
                            let ghost r_full = results@;
                            results.pop();
                            proof {
                                assert(results@ =~= r_full.drop_last());
                                assert forall|i: int| 0 <= i < results@.len() implies
                                    self.nb_ok(q, layer, #[trigger] results@[i])
                                        && visited@[results@[i].slot as int] by {
                                    assert(results@[i] == r_full[i]);
                                }
                                assert(results@[0] == r_full[0]);
                            }
                        }
                    }
                }
                j += 1;
            }
            proof {
                // the head is now fully expanded: every neighbour seen
                assert(node_ok(self.nodes@, current.slot as int, self.m, self.m_max0,
                    self.max_layer));
                assert(conn_list_ok(
                    self.nodes@,
                    current.slot as int,
                    layer as int,
                    self.nodes@[current.slot as int].connections@[layer as int]@,
                ));
                assert forall|b: int| #[trigger] layer_edge(
                    self.nodes@,
                    layer as int,
                    current.slot as int,
                    b,
                ) implies 0 <= b < n && visited@[b] by {
                    let jw = choose|jw: int|
                        0 <= jw < self.nodes@[current.slot as int].connections@[
                            layer as int
                        ]@.len() && self.nodes@[current.slot as int].connections@[
                            layer as int
                        ]@[jw] == b;
                    assert(visited@[self.nodes@[current.slot as int].connections@[
                        layer as int
                    ]@[jw] as int]);
                }
                expanded = expanded.insert(current.slot);
                if results@.len() < ef {
                    assert forall|t: int| 0 <= t < n && #[trigger] visited@[t] implies
                        (has_slot(candidates@, t as usize) || expanded.contains(t as usize)) by {
                        if t == current.slot as int {
                            assert(expanded.contains(current.slot));
                        }
                    }
                }
            }
        }
        proof {
            lemma_distinct_slots_bounded(results@, n as int);
        }
        results
    }

    /// The diversity-preserving neighbour selector: walks the
    /// candidates in ascending (distance, id) order and keeps each one
    /// that is at least as close to the query as to every
    /// already-kept candidate, until `limit` are kept. The result is
    /// pinned exactly: [`select_rec`] over [`sort_spec`] of the
    /// candidates, so equal inputs always select equal slots.
    fn select_neighbors(&self, cands: &Vec<Neighbor>, limit: usize) -> (sel: Vec<usize>)
        requires
            self.wf(),
            distinct_slots(cands@),
            forall|i: int| 0 <= i < cands@.len() ==> ((#[trigger] cands@[i]).slot as int)
                < self.nodes@.len(),
            limit >= 1,
        ensures
            sel@ == select_rec(
                self.distance,
                slot_vectors(self.nodes@),
                sort_spec(cands@),
                0,
                Seq::<usize>::empty(),
                limit as int,
            ),
            sel@.len() <= limit,
            forall|i: int| 0 <= i < sel@.len() ==> has_slot(cands@, #[trigger] sel@[i]),
            forall|i: int, j: int| 0 <= i < j < sel@.len() ==> sel@[i] != sel@[j],
            cands@.len() > 0 ==> sel@.len() >= 1,
    {
        let sorted_cands = sort_neighbors(cands);
        let mut sel: Vec<usize> = Vec::new();
        let mut i: usize = 0;
        while i < sorted_cands.len()
            invariant
                self.wf(),
                sorted_cands@ == sort_spec(cands@),
                distinct_slots(sorted_cands@),
                forall|t: usize| #[trigger] has_slot(sorted_cands@, t) ==> has_slot(cands@, t),
                forall|w: int| 0 <= w < sorted_cands@.len() ==>
                    ((#[trigger] sorted_cands@[w]).slot as int) < self.nodes@.len(),
                i <= sorted_cands@.len(),
                limit >= 1,
                sel@.len() <= limit,
                sel@.len() <= i,
                select_rec(
                    self.distance,
                    slot_vectors(self.nodes@),
                    sorted_cands@,
                    0,
                    Seq::<usize>::empty(),
                    limit as int,
                ) == select_rec(
                    self.distance,
                    slot_vectors(self.nodes@),
                    sorted_cands@,
                    i as int,
                    sel@,
                    limit as int,
                ),
                forall|k: int| 0 <= k < sel@.len() ==>
                    exists|w: int| 0 <= w < i && sorted_cands@[w].slot == #[trigger] sel@[k],
                forall|k1: int, k2: int| 0 <= k1 < k2 < sel@.len() ==> sel@[k1] != sel@[k2],
                i > 0 && sorted_cands@.len() > 0 ==> sel@.len() >= 1,
            decreases sorted_cands@.len() - i,
        {
            let c = sorted_cands[i];
            let ghost sel_pre = sel@;
            if sel.len() < limit {
                let mut keep = true;
                let mut k: usize = 0;
                while k < sel.len()
                    invariant_except_break
                        keep,
                    invariant
                        self.wf(),
                        k <= sel@.len(),
                        (c.slot as int) < self.nodes@.len(),
                        forall|k2: int| 0 <= k2 < sel@.len() ==>
                            ((#[trigger] sel@[k2]) as int) < self.nodes@.len(),
                        forall|w: int| 0 <= w < k ==> self.dist_spec(
                            self.nodes@[c.slot as int].item.vector@,
                            self.nodes@[((#[trigger] sel@[w]) as int)].item.vector@,
                        ) >= c.distance,
                    ensures
                        keep ==> select_accepts(
                            self.distance,
                            slot_vectors(self.nodes@),
                            c,
                            sel@,
                        ),
                        !keep ==> !select_accepts(
                            self.distance,
                            slot_vectors(self.nodes@),
                            c,
                            sel@,
                        ),
                    decreases sel@.len() - k,
                {
                    let picked = sel[k];
                    let d_between = self.calculate_distances(
                        &self.nodes[c.slot].item,
                        &self.nodes[picked].item,
                    );
                    if d_between < c.distance {
                        keep = false;
                        proof {
                            assert(slot_vectors(self.nodes@)[c.slot as int]
                                == self.nodes@[c.slot as int].item.vector@);
                            assert(slot_vectors(self.nodes@)[picked as int]
                                == self.nodes@[picked as int].item.vector@);
                            assert(!select_accepts(
                                self.distance,
                                slot_vectors(self.nodes@),
                                c,
                                sel@,
                            )) by {
                                assert(sel@[k as int] == picked);
                            }
                        }
                        break;
                    }
                    k += 1;
                }
                proof {
                    if keep {
                        assert forall|w: int| 0 <= w < sel@.len() implies self.distance.dist(
                            slot_vectors(self.nodes@)[c.slot as int],
                            slot_vectors(self.nodes@)[((#[trigger] sel@[w]) as int)],
                        ) >= c.distance by {
                            assert(slot_vectors(self.nodes@)[c.slot as int]
                                == self.nodes@[c.slot as int].item.vector@);
                            assert(slot_vectors(self.nodes@)[sel@[w] as int]
                                == self.nodes@[sel@[w] as int].item.vector@);
                        }
                    }
                }
                if keep {
                    proof {
                        assert forall|k2: int| 0 <= k2 < sel@.len() implies #[trigger] sel@[k2]
                            != c.slot by {
                            let w = choose|w: int| 0 <= w < i && sorted_cands@[w].slot == sel@[k2];
                            assert(sorted_cands@[w].slot != sorted_cands@[i as int].slot);
                        }
                    }
                    sel.push(c.slot);
                    proof {
                        assert(sorted_cands@[i as int] == c);
                        assert(select_rec(
                            self.distance,
                            slot_vectors(self.nodes@),
                            sorted_cands@,
                            i as int,
                            sel_pre,
                            limit as int,
                        ) == select_rec(
                            self.distance,
                            slot_vectors(self.nodes@),
                            sorted_cands@,
                            i + 1,
                            sel_pre.push(c.slot),
                            limit as int,
                        ));
                        assert(sel@ == sel_pre.push(c.slot));
                    }
                } else {
                    proof {
                        assert(sorted_cands@[i as int] == c);
                        assert(select_rec(
                            self.distance,
                            slot_vectors(self.nodes@),
                            sorted_cands@,
                            i as int,
                            sel_pre,
                            limit as int,
                        ) == select_rec(
                            self.distance,
                            slot_vectors(self.nodes@),
                            sorted_cands@,
                            i + 1,
                            sel_pre,
                            limit as int,
                        ));
                    }
                }
            } else {
                proof {
                    assert(select_rec(
                        self.distance,
                        slot_vectors(self.nodes@),
                        sorted_cands@,
                        i as int,
                        sel_pre,
                        limit as int,
                    ) == sel_pre);
                    assert(select_rec(
                        self.distance,
                        slot_vectors(self.nodes@),
                        sorted_cands@,
                        i + 1,
                        sel_pre,
                        limit as int,
                    ) == sel_pre);
                }
            }
            i += 1;
        }
        proof {
            assert(select_rec(
                self.distance,
                slot_vectors(self.nodes@),
                sorted_cands@,
                i as int,
                sel@,
                limit as int,
            ) == sel@);
        }
        assert forall|k: int| 0 <= k < sel@.len() implies has_slot(cands@, #[trigger] sel@[k]) by {
            let w = choose|w: int| 0 <= w < sorted_cands@.len()
                && sorted_cands@[w].slot == sel@[k];
            assert(has_slot(sorted_cands@, sel@[k]));
        }
        sel
    }

    /// Construction-time parameters and the distance function agree.
    spec fn meta_preserved(pre: &Self, post: &Self) -> bool {
        &&& post.m == pre.m
        &&& post.m_max0 == pre.m_max0
        &&& post.ef_construction == pre.ef_construction
        &&& post.ef_search == pre.ef_search
        &&& post.max_layer == pre.max_layer
        &&& post.distance == pre.distance
    }

    /// Replaces one neighbour list of one node, touching nothing else.
    fn set_conn_list(&mut self, y: usize, l: usize, list: Vec<usize>)
        requires
            (y as int) < old(self).nodes@.len(),
            (l as int) < old(self).nodes@[y as int].connections@.len(),
        ensures
            Self::meta_preserved(old(self), final(self)),
            final(self).entry == old(self).entry,
            nodes_shape_preserved(old(self).nodes@, final(self).nodes@),
            forall|s: int| 0 <= s < old(self).nodes@.len() && s != y ==>
                (#[trigger] final(self).nodes@[s]) == old(self).nodes@[s],
            forall|l2: int| 0 <= l2 < old(self).nodes@[y as int].connections@.len() && l2 != l ==>
                (#[trigger] final(self).nodes@[y as int].connections@[l2])
                    == old(self).nodes@[y as int].connections@[l2],
            final(self).nodes@[y as int].connections@[l as int]@ == list@,
    {
        let node_ref = &mut self.nodes[y];
        node_ref.connections.set(l, list);
    }

    /// Installs the reverse edges the new node owes its chosen
    /// neighbours at one layer: appends the new slot to each
    /// neighbour's list there, rerunning the selector against the
    /// degree cap whenever the list would exceed it.
    fn install_reverse_edges_at_layer(&mut self, new_slot: usize, l: usize)
        requires
            old(self).wf(),
            (new_slot as int) < old(self).nodes@.len(),
            (l as int) < old(self).nodes@[new_slot as int].connections@.len(),
            forall|j: int| 0 <= j
                < old(self).nodes@[new_slot as int].connections@[l as int]@.len() ==> not_in_list(
                old(self).nodes@[
                    #[trigger] old(self).nodes@[new_slot as int].connections@[l as int]@[j] as int
                ].connections@[l as int]@,
                new_slot,
            ),
        ensures
            final(self).wf(),
            Self::meta_preserved(old(self), final(self)),
            final(self).entry == old(self).entry,
            nodes_shape_preserved(old(self).nodes@, final(self).nodes@),
            forall|s: int, l2: int| 0 <= s < old(self).nodes@.len() && 0 <= l2
                < old(self).nodes@[s].connections@.len() && l2 != l ==>
                (#[trigger] final(self).nodes@[s].connections@[l2])
                    == old(self).nodes@[s].connections@[l2],
            forall|l2: int| 0 <= l2 < old(self).nodes@[new_slot as int].connections@.len() ==>
                (#[trigger] final(self).nodes@[new_slot as int].connections@[l2])
                    == old(self).nodes@[new_slot as int].connections@[l2],
            // each chosen neighbour's layer list afterwards: the new
            // slot appended, rerun through the selector past the cap
            forall|j: int| 0 <= j < old(self).nodes@[new_slot as int].connections@[l as int]@.len()
                ==> final(self).nodes@[
                (#[trigger] old(self).nodes@[new_slot as int].connections@[l as int]@[j]) as int
            ].connections@[l as int]@ == reverse_list_after(
                old(self).distance,
                old(self).nodes@,
                old(self).nodes@[new_slot as int].connections@[l as int]@[j] as int,
                l as int,
                new_slot,
                mmax_at(old(self).m, old(self).m_max0, l as int),
            ),
            // untouched otherwise at this layer
            forall|s: int| 0 <= s < old(self).nodes@.len() && (l as int)
                < old(self).nodes@[s].connections@.len() && !old(self).nodes@[
                new_slot as int
            ].connections@[l as int]@.contains(s as usize) ==>
                (#[trigger] final(self).nodes@[s].connections@[l as int])
                    == old(self).nodes@[s].connections@[l as int],
    {
        let ghost pre = *old(self);
        let lcount = self.nodes[new_slot].connections[l].len();
        let mut idx: usize = 0;
        while idx < lcount
            invariant
                self.wf(),
                pre.wf(),
                Self::meta_preserved(&pre, self),
                self.entry == pre.entry,
                nodes_shape_preserved(pre.nodes@, self.nodes@),
                (new_slot as int) < self.nodes@.len(),
                (l as int) < self.nodes@[new_slot as int].connections@.len(),
                lcount == self.nodes@[new_slot as int].connections@[l as int]@.len(),
                idx <= lcount,
                forall|s: int, l2: int| 0 <= s < pre.nodes@.len() && 0 <= l2
                    < pre.nodes@[s].connections@.len() && l2 != l ==>
                    (#[trigger] self.nodes@[s].connections@[l2])
                        == pre.nodes@[s].connections@[l2],
                forall|l2: int| 0 <= l2 < pre.nodes@[new_slot as int].connections@.len() ==>
                    (#[trigger] self.nodes@[new_slot as int].connections@[l2])
                        == pre.nodes@[new_slot as int].connections@[l2],
                forall|j: int| idx <= j
                    < self.nodes@[new_slot as int].connections@[l as int]@.len() ==> not_in_list(
                    self.nodes@[
                        #[trigger] self.nodes@[new_slot as int].connections@[l as int]@[j] as int
                    ].connections@[l as int]@,
                    new_slot,
                ),
                forall|j: int| 0 <= j < idx ==> self.nodes@[
                    (#[trigger] pre.nodes@[new_slot as int].connections@[l as int]@[j]) as int
                ].connections@[l as int]@ == reverse_list_after(
                    pre.distance,
                    pre.nodes@,
                    pre.nodes@[new_slot as int].connections@[l as int]@[j] as int,
                    l as int,
                    new_slot,
                    mmax_at(pre.m, pre.m_max0, l as int),
                ),
                forall|j: int| idx <= j < lcount ==> self.nodes@[
                    (#[trigger] pre.nodes@[new_slot as int].connections@[l as int]@[j]) as int
                ].connections@[l as int] == pre.nodes@[
                    pre.nodes@[new_slot as int].connections@[l as int]@[j] as int
                ].connections@[l as int],
                forall|s: int| 0 <= s < pre.nodes@.len() && (l as int)
                    < pre.nodes@[s].connections@.len() && !pre.nodes@[
                    new_slot as int
                ].connections@[l as int]@.contains(s as usize) ==>
                    (#[trigger] self.nodes@[s].connections@[l as int])
                        == pre.nodes@[s].connections@[l as int],
            decreases lcount - idx,
        {
            proof {
                assert(node_ok(self.nodes@, new_slot as int, self.m, self.m_max0, self.max_layer));
                assert(conn_list_ok(
                    self.nodes@,
                    new_slot as int,
                    l as int,
                    self.nodes@[new_slot as int].connections@[l as int]@,
                ));
            }
            let y = self.nodes[new_slot].connections[l][idx];
            proof {
                assert(node_ok(self.nodes@, y as int, self.m, self.m_max0, self.max_layer));
                assert((l as int) < self.nodes@[y as int].connections@.len());
                assert(conn_list_ok(
                    self.nodes@,
                    y as int,
                    l as int,
                    self.nodes@[y as int].connections@[l as int]@,
                ));
                assert(not_in_list(self.nodes@[y as int].connections@[l as int]@, new_slot));
                assert(y == pre.nodes@[new_slot as int].connections@[l as int]@[idx as int]) by {
                    assert(self.nodes@[new_slot as int].connections@[l as int]
                        == pre.nodes@[new_slot as int].connections@[l as int]);
                }
                assert(self.nodes@[y as int].connections@[l as int]
                    == pre.nodes@[y as int].connections@[l as int]);
            }
            let ghost y_list_pre = self.nodes@[y as int].connections@[l as int]@;

            // the neighbour's list with the new slot appended
            let ylen = self.nodes[y].connections[l].len();
            let mut list: Vec<usize> = Vec::new();
            let mut k: usize = 0;
            while k < ylen
                invariant
                    (y as int) < self.nodes@.len(),
                    (l as int) < self.nodes@[y as int].connections@.len(),
                    ylen == self.nodes@[y as int].connections@[l as int]@.len(),
                    k <= ylen,
                    list@ == self.nodes@[y as int].connections@[l as int]@.subrange(0, k as int),
                decreases ylen - k,
            {
                let e = self.nodes[y].connections[l][k];
                list.push(e);
                proof {
                    assert(list@ =~= self.nodes@[y as int].connections@[l as int]@.subrange(
                        0,
                        k + 1,
                    ));
                }
                k += 1;
            }
            proof {
                assert(list@ =~= y_list_pre);
            }
            list.push(new_slot);
            proof {
                assert(list@ =~= y_list_pre.push(new_slot));
                assert(forall|w: int| 0 <= w < list@.len() - 1 ==> #[trigger] list@[w]
                    == y_list_pre[w]);
                assert(list@[list@.len() - 1] == new_slot);
                // the appended list is a valid layer-l list for y
                assert(self.nodes@[new_slot as int].layer >= l) by {
                    assert(node_ok(self.nodes@, new_slot as int, self.m, self.m_max0,
                        self.max_layer));
                }
                assert(y != new_slot);
                assert forall|w1: int, w2: int| 0 <= w1 < w2 < list@.len() implies list@[w1]
                    != list@[w2] by {
                    if w2 == list@.len() - 1 {
                        assert(list@[w1] == y_list_pre[w1]);
                    }
                }
                assert(conn_list_ok(self.nodes@, y as int, l as int, list@));
            }
            let cap = if l == 0 {
                self.m_max0
            } else {
                self.m
            };
            let ghost nodes_before = self.nodes@;
            if list.len() > cap {
                // rebuild the list through the selector against the cap
                let mut cands: Vec<Neighbor> = Vec::new();
                let mut k2: usize = 0;
                while k2 < list.len()
                    invariant
                        self.wf(),
                        self.nodes@ == nodes_before,
                        (y as int) < self.nodes@.len(),
                        conn_list_ok(self.nodes@, y as int, l as int, list@),
                        k2 <= list@.len(),
                        cands@.len() == k2,
                        forall|w: int| 0 <= w < k2 ==> (#[trigger] cands@[w]).slot == list@[w],
                        forall|w: int| 0 <= w < k2 ==> (#[trigger] cands@[w]) == (Neighbor {
                            distance: self.dist_spec(
                                self.nodes@[y as int].item.vector@,
                                self.nodes@[list@[w] as int].item.vector@,
                            ),
                            id: self.nodes@[list@[w] as int].item.id,
                            slot: list@[w],
                        }),
                    decreases list@.len() - k2,
                {
                    let s = list[k2];
                    let d = self.calculate_distances(&self.nodes[y].item, &self.nodes[s].item);
                    cands.push(Neighbor { distance: d, id: self.nodes[s].item.id, slot: s });
                    k2 += 1;
                }
                proof {
                    assert forall|w1: int, w2: int| 0 <= w1 < w2 < cands@.len() implies
                        cands@[w1].slot != cands@[w2].slot by {
                        assert(cands@[w1].slot == list@[w1] && cands@[w2].slot == list@[w2]);
                    }
                    assert forall|w: int| 0 <= w < cands@.len() implies
                        ((#[trigger] cands@[w]).slot as int) < self.nodes@.len() by {
                        assert(cands@[w].slot == list@[w]);
                    }
                }
                let pruned = self.select_neighbors(&cands, cap);
                proof {
                    assert forall|w: int| 0 <= w < pruned@.len() implies exists|v: int|
                        0 <= v < list@.len() && list@[v] == #[trigger] pruned@[w] by {
                        let u = choose|u: int| 0 <= u < cands@.len()
                            && cands@[u].slot == pruned@[w];
                        assert(list@[u] == pruned@[w]);
                    }
                    assert(conn_list_ok(self.nodes@, y as int, l as int, pruned@)) by {
                        assert forall|w: int| 0 <= w < pruned@.len() implies
                            ((#[trigger] pruned@[w]) as int) < self.nodes@.len()
                                && self.nodes@[pruned@[w] as int].layer >= l
                                && pruned@[w] != y by {
                            let v = choose|v: int| 0 <= v < list@.len()
                                && list@[v] == pruned@[w];
                            assert(conn_list_ok(self.nodes@, y as int, l as int, list@));
                        }
                    }
                    // the selector's outcome, read back over the
                    // unmodified items of the starting state
                    let appended = pre.nodes@[y as int].connections@[l as int]@.push(new_slot);
                    assert(list@ == appended);
                    let recs = Seq::new(
                        appended.len(),
                        |w: int| Neighbor {
                            distance: pre.distance.dist(
                                pre.nodes@[y as int].item.vector@,
                                pre.nodes@[appended[w] as int].item.vector@,
                            ),
                            id: pre.nodes@[appended[w] as int].item.id,
                            slot: appended[w],
                        },
                    );
                    assert(cands@ =~= recs) by {
                        assert forall|w: int| 0 <= w < cands@.len() implies cands@[w]
                            == recs[w] by {
                            assert(self.nodes@[y as int].item.vector@
                                == pre.nodes@[y as int].item.vector@);
                            assert(self.nodes@[list@[w] as int].item.vector@
                                == pre.nodes@[list@[w] as int].item.vector@);
                            assert(self.nodes@[list@[w] as int].item.id
                                == pre.nodes@[list@[w] as int].item.id);
                        }
                    }
                    assert(slot_vectors(self.nodes@) =~= slot_vectors(pre.nodes@));
                    assert(pruned@ == reverse_list_after(
                        pre.distance,
                        pre.nodes@,
                        y as int,
                        l as int,
                        new_slot,
                        mmax_at(pre.m, pre.m_max0, l as int),
                    )) by {
                        assert(appended.len() > mmax_at(pre.m, pre.m_max0, l as int));
                        assert(sort_spec(cands@) == sort_spec(recs));
                        assert(select_rec(
                            self.distance,
                            slot_vectors(self.nodes@),
                            sort_spec(cands@),
                            0,
                            Seq::<usize>::empty(),
                            cap as int,
                        ) == select_rec(
                            pre.distance,
                            slot_vectors(pre.nodes@),
                            sort_spec(recs),
                            0,
                            Seq::<usize>::empty(),
                            cap as int,
                        ));
                    }
                }
                self.set_conn_list(y, l, pruned);
            } else {
                self.set_conn_list(y, l, list);
            }
            proof {
                // the rewritten list stays within the cap and valid
                assert(self.nodes@[y as int].connections@[l as int]@.len() <= mmax_at(
                    self.m,
                    self.m_max0,
                    l as int,
                ));
                assert(conn_list_ok(self.nodes@, y as int, l as int,
                    self.nodes@[y as int].connections@[l as int]@)) by {
                    assert(nodes_shape_preserved(nodes_before, self.nodes@));
                    assert(conn_list_ok(nodes_before, y as int, l as int,
                        self.nodes@[y as int].connections@[l as int]@));
                }
                // well-formedness of every node carries over
                assert forall|s: int| 0 <= s < self.nodes@.len() implies node_ok(
                    self.nodes@,
                    s,
                    self.m,
                    self.m_max0,
                    self.max_layer,
                ) by {
                    assert(node_ok(nodes_before, s, self.m, self.m_max0, self.max_layer));
                    assert forall|l2: int| 0 <= l2 < self.nodes@[s].connections@.len() implies
                        conn_list_ok(self.nodes@, s, l2, #[trigger] self.nodes@[s].connections@[l2]@)
                            && self.nodes@[s].connections@[l2]@.len() <= mmax_at(
                            self.m,
                            self.m_max0,
                            l2,
                        ) by {
                        if s == y && l2 == l {
                        } else {
                            assert(self.nodes@[s].connections@[l2] == nodes_before[s].connections@[l2]);
                            assert(conn_list_ok(nodes_before, s, l2, nodes_before[s].connections@[l2]@));
                        }
                    }
                }
                assert(self.wf());
                // unprocessed neighbours at this layer still lack the new slot
                assert forall|j: int| idx + 1 <= j
                    < self.nodes@[new_slot as int].connections@[l as int]@.len() implies
                    not_in_list(
                        self.nodes@[
                            #[trigger] self.nodes@[new_slot as int].connections@[l as int]@[j] as int
                        ].connections@[l as int]@,
                        new_slot,
                    ) by {
                    let y2 = self.nodes@[new_slot as int].connections@[l as int]@[j];
                    assert(y2 == nodes_before[new_slot as int].connections@[l as int]@[j]);
                    if y2 != y {
                        assert(self.nodes@[y2 as int].connections@[l as int]
                            == nodes_before[y2 as int].connections@[l as int]);
                        assert(not_in_list(nodes_before[y2 as int].connections@[l as int]@, new_slot));
                    } else {
                        assert(conn_list_ok(nodes_before, new_slot as int, l as int,
                            nodes_before[new_slot as int].connections@[l as int]@));
                        assert(false);
                    }
                }
                // the freshly processed neighbour holds its stated list
                assert(self.nodes@[y as int].connections@[l as int]@ == reverse_list_after(
                    pre.distance,
                    pre.nodes@,
                    y as int,
                    l as int,
                    new_slot,
                    mmax_at(pre.m, pre.m_max0, l as int),
                ));
                // earlier neighbours keep theirs; later ones stay
                // untouched, as does everything outside the list
                assert(conn_list_ok(pre.nodes@, new_slot as int, l as int,
                    pre.nodes@[new_slot as int].connections@[l as int]@)) by {
                    assert(node_ok(pre.nodes@, new_slot as int, pre.m, pre.m_max0,
                        pre.max_layer));
                }
                assert forall|j: int| 0 <= j < idx + 1 implies self.nodes@[
                    (#[trigger] pre.nodes@[new_slot as int].connections@[l as int]@[j]) as int
                ].connections@[l as int]@ == reverse_list_after(
                    pre.distance,
                    pre.nodes@,
                    pre.nodes@[new_slot as int].connections@[l as int]@[j] as int,
                    l as int,
                    new_slot,
                    mmax_at(pre.m, pre.m_max0, l as int),
                ) by {
                    let y2 = pre.nodes@[new_slot as int].connections@[l as int]@[j];
                    if j < idx {
                        assert(y2 != y);
                        assert(self.nodes@[y2 as int] == nodes_before[y2 as int]);
                    }
                }
                assert forall|j: int| idx + 1 <= j < lcount implies self.nodes@[
                    (#[trigger] pre.nodes@[new_slot as int].connections@[l as int]@[j]) as int
                ].connections@[l as int] == pre.nodes@[
                    pre.nodes@[new_slot as int].connections@[l as int]@[j] as int
                ].connections@[l as int] by {
                    let y2 = pre.nodes@[new_slot as int].connections@[l as int]@[j];
                    assert(y2 != y);
                    assert(self.nodes@[y2 as int] == nodes_before[y2 as int]);
                }
                assert forall|s: int|
                    0 <= s < pre.nodes@.len() && (l as int) < pre.nodes@[s].connections@.len()
                        && !pre.nodes@[new_slot as int].connections@[l as int]@.contains(
                        s as usize,
                    ) implies (#[trigger] self.nodes@[s].connections@[l as int])
                    == pre.nodes@[s].connections@[l as int] by {
                    assert(pre.nodes@[new_slot as int].connections@[l as int]@[idx as int] == y);
                    assert(pre.nodes@[new_slot as int].connections@[l as int]@.contains(y));
                    assert(s != y);
                    assert(self.nodes@[s] == nodes_before[s]);
                }
            }
            idx += 1;
        }
    }

    /// Installs the reverse edges a freshly stored node owes its chosen
    /// neighbours, layer by layer.
    fn install_reverse_edges(&mut self, new_slot: usize)
        requires
            old(self).wf(),
            (new_slot as int) < old(self).nodes@.len(),
            forall|s: int, l2: int, j: int|
                0 <= s < old(self).nodes@.len() && s != new_slot && 0 <= l2
                    < old(self).nodes@[s].connections@.len() && 0 <= j
                    < old(self).nodes@[s].connections@[l2]@.len() ==>
                    (#[trigger] old(self).nodes@[s].connections@[l2]@[j]) != new_slot,
        ensures
            final(self).wf(),
            Self::meta_preserved(old(self), final(self)),
            final(self).entry == old(self).entry,
            nodes_shape_preserved(old(self).nodes@, final(self).nodes@),
            forall|l2: int| 0 <= l2 < old(self).nodes@[new_slot as int].connections@.len() ==>
                (#[trigger] final(self).nodes@[new_slot as int].connections@[l2])
                    == old(self).nodes@[new_slot as int].connections@[l2],
            // at every layer the new node participates in, each of its
            // chosen neighbours ends up with the stated reverse list
            forall|l2: int, j: int|
                0 <= l2 < old(self).nodes@[new_slot as int].connections@.len() && 0 <= j
                    < old(self).nodes@[new_slot as int].connections@[l2]@.len() ==>
                    final(self).nodes@[
                        (#[trigger] old(self).nodes@[new_slot as int].connections@[l2]@[j]) as int
                    ].connections@[l2]@ == reverse_list_after(
                        old(self).distance,
                        old(self).nodes@,
                        old(self).nodes@[new_slot as int].connections@[l2]@[j] as int,
                        l2,
                        new_slot,
                        mmax_at(old(self).m, old(self).m_max0, l2),
                    ),
            // every other list is left alone
            forall|s: int, l2: int|
                0 <= s < old(self).nodes@.len() && 0 <= l2
                    < old(self).nodes@[s].connections@.len() && (l2
                    >= old(self).nodes@[new_slot as int].connections@.len() || !old(
                    self,
                ).nodes@[new_slot as int].connections@[l2]@.contains(s as usize)) ==>
                    (#[trigger] final(self).nodes@[s].connections@[l2])
                        == old(self).nodes@[s].connections@[l2],
    {
        let ghost pre = *old(self);
        let layer_count = self.nodes[new_slot].connections.len();
        let mut l: usize = 0;
        while l < layer_count
            invariant
                self.wf(),
                pre.wf(),
                Self::meta_preserved(&pre, self),
                self.entry == pre.entry,
                nodes_shape_preserved(pre.nodes@, self.nodes@),
                (new_slot as int) < self.nodes@.len(),
                layer_count == self.nodes@[new_slot as int].connections@.len(),
                l <= layer_count,
                forall|l2: int| 0 <= l2 < layer_count ==>
                    (#[trigger] self.nodes@[new_slot as int].connections@[l2])
                        == pre.nodes@[new_slot as int].connections@[l2],
                forall|s: int, l2: int, j: int|
                    0 <= s < self.nodes@.len() && s != new_slot && l <= l2
                        < self.nodes@[s].connections@.len() && 0 <= j
                        < self.nodes@[s].connections@[l2]@.len() ==>
                        (#[trigger] self.nodes@[s].connections@[l2]@[j]) != new_slot,
                // layers not yet passed over are as at the start
                forall|s: int, l2: int|
                    0 <= s < pre.nodes@.len() && l <= l2 < pre.nodes@[s].connections@.len() ==>
                        (#[trigger] self.nodes@[s].connections@[l2])
                            == pre.nodes@[s].connections@[l2],
                // layers already passed over hold their stated outcome
                forall|l2: int, j: int|
                    0 <= l2 < l && 0 <= j
                        < pre.nodes@[new_slot as int].connections@[l2]@.len() ==>
                        self.nodes@[
                            (#[trigger] pre.nodes@[new_slot as int].connections@[l2]@[j]) as int
                        ].connections@[l2]@ == reverse_list_after(
                            pre.distance,
                            pre.nodes@,
                            pre.nodes@[new_slot as int].connections@[l2]@[j] as int,
                            l2,
                            new_slot,
                            mmax_at(pre.m, pre.m_max0, l2),
                        ),
                forall|s: int, l2: int|
                    0 <= s < pre.nodes@.len() && 0 <= l2 < l && l2
                        < pre.nodes@[s].connections@.len() && !pre.nodes@[
                        new_slot as int
                    ].connections@[l2]@.contains(s as usize) ==>
                        (#[trigger] self.nodes@[s].connections@[l2])
                            == pre.nodes@[s].connections@[l2],
            decreases layer_count - l,
        {
            proof {
                assert(node_ok(self.nodes@, new_slot as int, self.m, self.m_max0, self.max_layer));
                assert(conn_list_ok(
                    self.nodes@,
                    new_slot as int,
                    l as int,
                    self.nodes@[new_slot as int].connections@[l as int]@,
                ));
                assert forall|j: int| 0 <= j
                    < self.nodes@[new_slot as int].connections@[l as int]@.len() implies
                    not_in_list(
                        self.nodes@[
                            #[trigger] self.nodes@[new_slot as int].connections@[l as int]@[j] as int
                        ].connections@[l as int]@,
                        new_slot,
                    ) by {
                    let y = self.nodes@[new_slot as int].connections@[l as int]@[j];
                    assert(y != new_slot);
                    assert((y as int) < self.nodes@.len());
                    assert(node_ok(self.nodes@, y as int, self.m, self.m_max0, self.max_layer));
                    assert((l as int) < self.nodes@[y as int].connections@.len());
                    assert forall|j2: int| 0 <= j2
                        < self.nodes@[y as int].connections@[l as int]@.len() implies
                        (#[trigger] self.nodes@[y as int].connections@[l as int]@[j2])
                            != new_slot by {
                        assert((y as int) < self.nodes@.len() && y != new_slot
                            && (l as int) < self.nodes@[y as int].connections@.len());
                    }
                }
            }
            let ghost before = self.nodes@;
            self.install_reverse_edges_at_layer(new_slot, l);
            proof {
                assert forall|s: int, l2: int, j: int|
                    0 <= s < self.nodes@.len() && s != new_slot && l + 1 <= l2
                        < self.nodes@[s].connections@.len() && 0 <= j
                        < self.nodes@[s].connections@[l2]@.len() implies
                    (#[trigger] self.nodes@[s].connections@[l2]@[j]) != new_slot by {
                    assert(self.nodes@[s].connections@[l2] == before[s].connections@[l2]);
                }
                // layers beyond this one are still as at the start
                assert forall|s: int, l2: int|
                    0 <= s < pre.nodes@.len() && l + 1 <= l2
                        < pre.nodes@[s].connections@.len() implies
                    (#[trigger] self.nodes@[s].connections@[l2])
                        == pre.nodes@[s].connections@[l2] by {
                    assert(self.nodes@[s].connections@[l2] == before[s].connections@[l2]);
                }
                // this layer's outcome, restated over the start state:
                // only neighbour lists changed since then, never items
                assert(self.distance == pre.distance);
                assert forall|j: int|
                    0 <= j < pre.nodes@[new_slot as int].connections@[l as int]@.len() implies
                    self.nodes@[
                        (#[trigger] pre.nodes@[new_slot as int].connections@[l as int]@[j]) as int
                    ].connections@[l as int]@ == reverse_list_after(
                        pre.distance,
                        pre.nodes@,
                        pre.nodes@[new_slot as int].connections@[l as int]@[j] as int,
                        l as int,
                        new_slot,
                        mmax_at(pre.m, pre.m_max0, l as int),
                    ) by {
                    let y = pre.nodes@[new_slot as int].connections@[l as int]@[j];
                    assert(node_ok(pre.nodes@, new_slot as int, pre.m, pre.m_max0,
                        pre.max_layer));
                    assert((l as int) < pre.nodes@[new_slot as int].connections@.len());
                    assert(conn_list_ok(pre.nodes@, new_slot as int, l as int,
                        pre.nodes@[new_slot as int].connections@[l as int]@));
                    assert((y as int) < pre.nodes@.len());
                    assert(node_ok(pre.nodes@, y as int, pre.m, pre.m_max0, pre.max_layer));
                    assert(pre.nodes@[y as int].layer >= l);
                    assert((l as int) < pre.nodes@[y as int].connections@.len());
                    assert(before[new_slot as int].connections@[l as int]
                        == pre.nodes@[new_slot as int].connections@[l as int]);
                    assert(self.nodes@[y as int].connections@[l as int]@ == reverse_list_after(
                        pre.distance,
                        before,
                        y as int,
                        l as int,
                        new_slot,
                        mmax_at(pre.m, pre.m_max0, l as int),
                    ));
                    assert(before[y as int].connections@[l as int]
                        == pre.nodes@[y as int].connections@[l as int]);
                    let app = pre.nodes@[y as int].connections@[l as int]@.push(new_slot);
                    assert(before[y as int].connections@[l as int]@.push(new_slot) == app);
                    let recs1 = Seq::new(
                        app.len(),
                        |w: int| Neighbor {
                            distance: pre.distance.dist(
                                before[y as int].item.vector@,
                                before[app[w] as int].item.vector@,
                            ),
                            id: before[app[w] as int].item.id,
                            slot: app[w],
                        },
                    );
                    let recs2 = Seq::new(
                        app.len(),
                        |w: int| Neighbor {
                            distance: pre.distance.dist(
                                pre.nodes@[y as int].item.vector@,
                                pre.nodes@[app[w] as int].item.vector@,
                            ),
                            id: pre.nodes@[app[w] as int].item.id,
                            slot: app[w],
                        },
                    );
                    assert(recs1 =~= recs2) by {
                        assert forall|w: int| 0 <= w < app.len() implies recs1[w] == recs2[w] by {
                            assert(before[y as int].item.vector@
                                == pre.nodes@[y as int].item.vector@);
                            assert(before[app[w] as int].item.vector@
                                == pre.nodes@[app[w] as int].item.vector@);
                            assert(before[app[w] as int].item.id
                                == pre.nodes@[app[w] as int].item.id);
                        }
                    }
                    assert(slot_vectors(before) =~= slot_vectors(pre.nodes@));
                    assert(reverse_list_after(
                        pre.distance,
                        before,
                        y as int,
                        l as int,
                        new_slot,
                        mmax_at(pre.m, pre.m_max0, l as int),
                    ) == reverse_list_after(
                        pre.distance,
                        pre.nodes@,
                        y as int,
                        l as int,
                        new_slot,
                        mmax_at(pre.m, pre.m_max0, l as int),
                    ));
                }
                // earlier layers keep their outcome and their untouched
                // lists: this pass rewrote nothing below this layer
                assert forall|l2: int, j: int|
                    0 <= l2 < l + 1 && 0 <= j
                        < pre.nodes@[new_slot as int].connections@[l2]@.len() implies
                    self.nodes@[
                        (#[trigger] pre.nodes@[new_slot as int].connections@[l2]@[j]) as int
                    ].connections@[l2]@ == reverse_list_after(
                        pre.distance,
                        pre.nodes@,
                        pre.nodes@[new_slot as int].connections@[l2]@[j] as int,
                        l2,
                        new_slot,
                        mmax_at(pre.m, pre.m_max0, l2),
                    ) by {
                    if l2 < l {
                        let y2 = pre.nodes@[new_slot as int].connections@[l2]@[j];
                        assert(node_ok(pre.nodes@, new_slot as int, pre.m, pre.m_max0,
                            pre.max_layer));
                        assert(l2 < pre.nodes@[new_slot as int].connections@.len());
                        assert(conn_list_ok(pre.nodes@, new_slot as int, l2,
                            pre.nodes@[new_slot as int].connections@[l2]@));
                        assert((y2 as int) < pre.nodes@.len());
                        assert(node_ok(pre.nodes@, y2 as int, pre.m, pre.m_max0, pre.max_layer));
                        assert(l2 < pre.nodes@[y2 as int].connections@.len());
                        assert((y2 as int) < before.len()
                            && l2 < before[y2 as int].connections@.len());
                        assert(self.nodes@[y2 as int].connections@[l2]
                            == before[y2 as int].connections@[l2]);
                    }
                }
                assert forall|s: int, l2: int|
                    0 <= s < pre.nodes@.len() && 0 <= l2 < l + 1 && l2
                        < pre.nodes@[s].connections@.len() && !pre.nodes@[
                        new_slot as int
                    ].connections@[l2]@.contains(s as usize) implies
                    (#[trigger] self.nodes@[s].connections@[l2])
                        == pre.nodes@[s].connections@[l2] by {
                    if l2 < l {
                        assert(self.nodes@[s].connections@[l2] == before[s].connections@[l2]);
                    } else {
                        assert(before[s].connections@[l2] == pre.nodes@[s].connections@[l2]);
                        assert(before[new_slot as int].connections@[l as int]
                            == pre.nodes@[new_slot as int].connections@[l as int]);
                        assert(!before[new_slot as int].connections@[l as int]@.contains(
                            s as usize,
                        ));
                    }
                }
            }
            l += 1;
        }
    }

    /// Stores the very first node: empty neighbour lists at every layer
    /// up to its sampled level, and the entry point set to it.
    fn add_first(&mut self, item: VectorItem, level: usize)
        requires
            old(self).wf(),
            old(self).nodes@.len() == 0,
            level <= old(self).max_layer,
        ensures
            final(self).wf(),
            Self::meta_preserved(old(self), final(self)),
            final(self)@.len() == 1,
            final(self)@[0].id == item.id,
            final(self)@[0].vector == item.vector@,
            final(self)@[0].top_layer == level,
            final(self).entry_id() == Some(item.id),
    {
        let mut conns: Vec<Vec<usize>> = Vec::new();
        let mut l: usize = 0;
        while l < level + 1
            invariant
                level <= 0x10000,
                l <= level + 1,
                conns@.len() == l,
                forall|i: int| 0 <= i < l ==> (#[trigger] conns@[i])@.len() == 0,
            decreases level + 1 - l,
        {
            conns.push(Vec::new());
            l += 1;
        }
        self.nodes.push(GraphNode { item, layer: level, connections: conns });
        self.entry = 0;
        proof {
            assert forall|s: int| 0 <= s < self.nodes@.len() implies node_ok(
                self.nodes@,
                s,
                self.m,
                self.m_max0,
                self.max_layer,
            ) by {
                assert forall|l2: int| 0 <= l2 < self.nodes@[s].connections@.len() implies
                    conn_list_ok(self.nodes@, s, l2, #[trigger] self.nodes@[s].connections@[l2]@)
                        && self.nodes@[s].connections@[l2]@.len() <= mmax_at(
                        self.m,
                        self.m_max0,
                        l2,
                    ) by {
                    assert(self.nodes@[s].connections@[l2]@.len() == 0);
                }
            }
            assert(self.wf());
            assert(self@[0].id == item.id && self@[0].vector == item.vector@
                && self@[0].top_layer == level);
        }
    }

    /// Inserts an item into a non-empty graph: greedy descent from the
    /// entry point through the layers above the sampled level, then per
    /// layer a bounded best-first search, neighbour selection, and
    /// installation of forward and reverse edges under the degree caps.
    fn insert_nonempty(&mut self, item: VectorItem, level: usize)
        requires
            old(self).wf(),
            old(self).nodes@.len() > 0,
            level <= old(self).max_layer,
            !has_id(old(self)@, item.id),
            item.vector@.len() == old(self).dims(),
        ensures
            final(self).wf(),
            Self::meta_preserved(old(self), final(self)),
            final(self)@.len() == old(self)@.len() + 1,
            final(self)@[old(self)@.len() as int].id == item.id,
            final(self)@[old(self)@.len() as int].vector == item.vector@,
            final(self)@[old(self)@.len() as int].top_layer == level,
            forall|i: int| 0 <= i < old(self)@.len() ==> {
                &&& (#[trigger] final(self)@[i]).id == old(self)@[i].id
                &&& final(self)@[i].vector == old(self)@[i].vector
                &&& final(self)@[i].top_layer == old(self)@[i].top_layer
            },
            // the new node is wired into the base layer
            final(self)@[old(self)@.len() as int].connections[0].len() >= 1,
            // entry-point promotion: only a strictly higher top layer
            // takes the entry over; ties keep the earlier holder
            (exists|j: int| 0 <= j < old(self)@.len() && (#[trigger] old(self)@[j]).top_layer
                >= level) ==> final(self).entry_id() == old(self).entry_id(),
            (forall|j: int| 0 <= j < old(self)@.len() ==> (#[trigger] old(self)@[j]).top_layer
                < level) ==> final(self).entry_id() == Some(item.id),
    {
        let ghost pre = *old(self);
        let n0 = self.nodes.len();
        let ep0 = self.entry;
        let top = self.nodes[ep0].layer;
        proof {
            assert(node_ok(self.nodes@, ep0 as int, self.m, self.m_max0, self.max_layer));
            assert(top <= 0x10000);
        }

        // descent phase: greedy through the layers above the new level
        let mut ep = ep0;
        let mut ep_dist = self.calculate_distances(&item, &self.nodes[ep].item);
        let mut lay: usize = top;
        while lay > level
            invariant
                *self == pre,
                self.wf(),
                n0 == self.nodes@.len(),
                lay <= top,
                top <= 0x10000,
                (ep as int) < self.nodes@.len(),
                self.nodes@[ep as int].layer >= lay,
                ep_dist == self.dist_spec(item.vector@, self.nodes@[ep as int].item.vector@),
            decreases lay,
        {
            let r = self.greedy_descent_layer(&item, ep, ep_dist, lay);
            ep = r.0;
            ep_dist = r.1;
            lay -= 1;
        }

        // insertion phase, part one: pick each layer's neighbours on the
        // unmodified graph
        let mut sel_lists: Vec<Vec<usize>> = Vec::new();
        let mut i: usize = 0;
        while i < lay + 1
            invariant
                lay <= 0x10000,
                i <= lay + 1,
                sel_lists@.len() == i,
            decreases lay + 1 - i,
        {
            sel_lists.push(Vec::new());
            i += 1;
        }
        let mut l: usize = lay;
        loop
            invariant
                *self == pre,
                self.wf(),
                n0 == self.nodes@.len(),
                l <= lay,
                lay <= 0x10000,
                sel_lists@.len() == lay + 1,
                (ep as int) < self.nodes@.len(),
                self.nodes@[ep as int].layer >= l,
                forall|l2: int| l < l2 <= lay ==> {
                    let lst = (#[trigger] sel_lists@[l2])@;
                    &&& lst.len() <= mmax_at(self.m, self.m_max0, l2)
                    &&& forall|w: int| 0 <= w < lst.len() ==> ((#[trigger] lst[w]) as int) < n0
                        && self.nodes@[lst[w] as int].layer >= l2
                    &&& forall|w1: int, w2: int| 0 <= w1 < w2 < lst.len() ==> lst[w1] != lst[w2]
                },
            ensures
                *self == pre,
                sel_lists@.len() == lay + 1,
                (sel_lists@[0])@.len() >= 1,
                forall|l2: int| 0 <= l2 <= lay ==> {
                    let lst = (#[trigger] sel_lists@[l2])@;
                    &&& lst.len() <= mmax_at(self.m, self.m_max0, l2)
                    &&& forall|w: int| 0 <= w < lst.len() ==> ((#[trigger] lst[w]) as int) < n0
                        && self.nodes@[lst[w] as int].layer >= l2
                    &&& forall|w1: int, w2: int| 0 <= w1 < w2 < lst.len() ==> lst[w1] != lst[w2]
                },
            decreases l,
        {
            let cands = self.search_at_layer(&item, ep, l, self.ef_construction);
            let cap = if l == 0 {
                self.m_max0
            } else {
                self.m
            };
            let sel = self.select_neighbors(&cands, cap);
            proof {
                assert forall|w: int| 0 <= w < sel@.len() implies ((#[trigger] sel@[w]) as int)
                    < n0 && self.nodes@[sel@[w] as int].layer >= l by {
                    let u = choose|u: int| 0 <= u < cands@.len() && cands@[u].slot == sel@[w];
                    assert(self.nb_ok(item.vector@, l, cands@[u]));
                }
                assert(cap == mmax_at(self.m, self.m_max0, l as int));
            }
            sel_lists.set(l, sel);
            ep = cands[0].slot;
            proof {
                assert(self.nb_ok(item.vector@, l, cands@[0]));
            }
            if l == 0 {
                break;
            }
            l -= 1;
        }

        // insertion phase, part two: store the node with its chosen
        // forward edges, then promote the entry point if it rose higher
        let mut conns: Vec<Vec<usize>> = Vec::new();
        let ghost sel_snapshot = sel_lists@;
        let mut l2: usize = 0;
        while l2 < level + 1
            invariant
                *self == pre,
                level <= 0x10000,
                lay <= level,
                l2 <= level + 1,
                conns@.len() == l2,
                sel_lists@.len() == lay + 1 - (if l2 <= lay + 1 { l2 as int } else { (lay + 1) as int }),
                forall|w: int| 0 <= w < sel_lists@.len() ==>
                    (#[trigger] sel_lists@[w]) == sel_snapshot[w + l2],
                forall|w: int| 0 <= w < l2 ==> (#[trigger] conns@[w])@
                    == (if w <= lay { sel_snapshot[w]@ } else { Seq::<usize>::empty() }),
            decreases level + 1 - l2,
        {
            if l2 <= lay {
                let lst = sel_lists.remove(0);
                conns.push(lst);
            } else {
                let empty_list: Vec<usize> = Vec::new();
                conns.push(empty_list);
            }
            l2 += 1;
        }
        let new_slot = self.nodes.len();
        self.nodes.push(GraphNode { item, layer: level, connections: conns });
        if level > top {
            self.entry = new_slot;
        }
        proof {
            let nodes2 = self.nodes@;
            assert(nodes2.len() == n0 + 1);
            assert(forall|s: int| 0 <= s < n0 ==> nodes2[s] == pre.nodes@[s]);
            // every old node is still well formed in the longer table
            assert forall|s: int| 0 <= s < nodes2.len() implies node_ok(
                nodes2,
                s,
                self.m,
                self.m_max0,
                self.max_layer,
            ) by {
                if s < n0 {
                    assert(node_ok(pre.nodes@, s, self.m, self.m_max0, self.max_layer));
                    assert forall|lx: int| 0 <= lx < nodes2[s].connections@.len() implies
                        conn_list_ok(nodes2, s, lx, #[trigger] nodes2[s].connections@[lx]@)
                            && nodes2[s].connections@[lx]@.len() <= mmax_at(
                            self.m,
                            self.m_max0,
                            lx,
                        ) by {
                        assert(conn_list_ok(pre.nodes@, s, lx, nodes2[s].connections@[lx]@));
                    }
                } else {
                    // the new node itself
                    assert(nodes2[s].layer == level);
                    assert(nodes2[s].connections@.len() == level + 1);
                    assert forall|lx: int| 0 <= lx < nodes2[s].connections@.len() implies
                        conn_list_ok(nodes2, s, lx, #[trigger] nodes2[s].connections@[lx]@)
                            && nodes2[s].connections@[lx]@.len() <= mmax_at(
                            self.m,
                            self.m_max0,
                            lx,
                        ) by {
                        if lx <= lay {
                            assert(nodes2[s].connections@[lx]@ == sel_snapshot[lx]@);
                        } else {
                            assert(nodes2[s].connections@[lx]@ == Seq::<usize>::empty());
                        }
                    }
                }
            }
            // id uniqueness carries over: the new id is fresh
            assert forall|a: int, b: int| 0 <= a < b < nodes2.len() implies nodes2[a].item.id
                != nodes2[b].item.id by {
                if b == n0 {
                    assert(pre@[a].id == pre.nodes@[a].item.id);
                    assert(has_id(pre@, nodes2[a].item.id));
                }
            }
            // one dimension throughout
            assert forall|a: int| 0 <= a < nodes2.len() implies
                (#[trigger] nodes2[a].item.vector@.len()) == nodes2[0].item.vector@.len() by {
                assert(pre@[0].vector == pre.nodes@[0].item.vector@);
            }
            // the entry point still has the maximal top layer
            if level > top {
                assert forall|a: int| 0 <= a < nodes2.len() implies (#[trigger] nodes2[a].layer)
                    <= nodes2[self.entry as int].layer by {
                    if a < n0 {
                        assert(pre.nodes@[a].layer <= pre.nodes@[pre.entry as int].layer);
                    }
                }
            } else {
                assert forall|a: int| 0 <= a < nodes2.len() implies (#[trigger] nodes2[a].layer)
                    <= nodes2[self.entry as int].layer by {
                    if a < n0 {
                        assert(pre.nodes@[a].layer <= pre.nodes@[pre.entry as int].layer);
                    }
                }
            }
            assert(self.wf());
            // no old list mentions the new slot
            assert forall|s: int, lx: int, j: int|
                0 <= s < nodes2.len() && s != new_slot && 0 <= lx
                    < nodes2[s].connections@.len() && 0 <= j
                    < nodes2[s].connections@[lx]@.len() implies
                (#[trigger] nodes2[s].connections@[lx]@[j]) != new_slot by {
                assert(nodes2[s] == pre.nodes@[s]);
                assert(node_ok(pre.nodes@, s, self.m, self.m_max0, self.max_layer));
                assert(conn_list_ok(pre.nodes@, s, lx, nodes2[s].connections@[lx]@));
                assert((nodes2[s].connections@[lx]@[j] as int) < n0);
            }
        }
        let ghost mid = *self;
        self.install_reverse_edges(new_slot);
        proof {
            assert(nodes_shape_preserved(mid.nodes@, self.nodes@));
            assert forall|i2: int| 0 <= i2 < pre@.len() implies {
                &&& (#[trigger] self@[i2]).id == pre@[i2].id
                &&& self@[i2].vector == pre@[i2].vector
                &&& self@[i2].top_layer == pre@[i2].top_layer
            } by {
                assert(self.nodes@[i2].item.id == pre.nodes@[i2].item.id);
                assert(self.nodes@[i2].item.vector@ == pre.nodes@[i2].item.vector@);
                assert(self.nodes@[i2].layer == pre.nodes@[i2].layer);
            }
            assert(self@[n0 as int].id == item.id);
            assert(self@[n0 as int].vector == item.vector@);
            assert(self@[n0 as int].top_layer == level);
            // base-layer wiring: the forward edges chosen at layer 0
            // were installed and the reverse pass kept them
            assert(self.nodes@[n0 as int].connections@[0] == mid.nodes@[n0 as int].connections@[0]);
            assert(mid.nodes@[n0 as int].connections@[0]@ == sel_snapshot[0]@);
            assert(self@[n0 as int].connections[0].len()
                == self.nodes@[n0 as int].connections@[0]@.len());
            assert(self@[n0 as int].connections[0].len() >= 1);
            // entry-point promotion happened exactly on a strictly
            // higher top layer
            assert(self.entry == mid.entry);
            if exists|j: int| 0 <= j < pre@.len() && (#[trigger] pre@[j]).top_layer >= level {
                let j = choose|j: int| 0 <= j < pre@.len() && (#[trigger] pre@[j]).top_layer
                    >= level;
                assert(pre@[j].top_layer == pre.nodes@[j].layer);
                assert(pre.nodes@[j].layer <= pre.nodes@[pre.entry as int].layer);
                assert(level <= top);
                assert(self.entry == pre.entry);
                assert(self.nodes@[pre.entry as int].item.id == pre.nodes@[pre.entry as int].item.id);
                assert(self.entry_id() == pre.entry_id());
            }
            if forall|j: int| 0 <= j < pre@.len() ==> (#[trigger] pre@[j]).top_layer < level {
                assert(pre@[pre.entry as int].top_layer == pre.nodes@[pre.entry as int].layer);
                assert(top < level);
                assert(self.entry == n0);
                assert(self.nodes@[n0 as int].item.id == item.id);
                assert(self.entry_id() == Some(item.id));
            }
        }
    }

    /// Inserts a new item. Rejects an id the index already stores, then
    /// a vector whose length differs from the established dimension,
    /// then a vector with a non-finite component, exactly as
    /// [`add_check`] says; otherwise stores the item at a randomly
    /// sampled layer and wires it into the graph. Stored nodes keep
    /// their id, components and top layer; only neighbour lists of
    /// earlier nodes may be rewritten by pruning.
    pub fn add(&mut self, item: VectorItem) -> (r: Result<(), HnswError>)
        requires
            old(self).wf(),
        ensures
            final(self).wf(),
            r == add_check(old(self)@, item),
            final(self).param_m() == old(self).param_m(),
            final(self).param_m_max0() == old(self).param_m_max0(),
            final(self).param_ef_construction() == old(self).param_ef_construction(),
            final(self).param_ef_search() == old(self).param_ef_search(),
            final(self).param_max_layer() == old(self).param_max_layer(),
            forall|a: Seq<u64>, b: Seq<u64>| #[trigger] final(self).dist_spec(a, b)
                == old(self).dist_spec(a, b),
            match r {
                Ok(_) => {
                    &&& final(self)@.len() == old(self)@.len() + 1
                    &&& final(self)@[old(self)@.len() as int].id == item.id
                    &&& final(self)@[old(self)@.len() as int].vector == item.vector@
                    &&& forall|i: int| 0 <= i < old(self)@.len() ==> {
                        &&& (#[trigger] final(self)@[i]).id == old(self)@[i].id
                        &&& final(self)@[i].vector == old(self)@[i].vector
                        &&& final(self)@[i].top_layer == old(self)@[i].top_layer
                    }
                    // a node joining a non-empty graph is wired into
                    // the base layer
                    &&& (old(self)@.len() > 0 ==> final(self)@[
                        old(self)@.len() as int
                    ].connections[0].len() >= 1)
                    // the entry point: set by the first insert, then
                    // taken over only by a strictly higher top layer
                    // (ties keep the earlier holder)
                    &&& (old(self)@.len() == 0 ==> final(self).entry_id() == Some(item.id))
                    &&& (old(self)@.len() > 0 ==> {
                        let new_top = final(self)@[old(self)@.len() as int].top_layer;
                        &&& ((exists|j: int|
                            0 <= j < old(self)@.len() && (#[trigger] old(self)@[j]).top_layer
                                >= new_top) ==> final(self).entry_id() == old(self).entry_id())
                        &&& ((forall|j: int|
                            0 <= j < old(self)@.len() ==> (#[trigger] old(self)@[j]).top_layer
                                < new_top) ==> final(self).entry_id() == Some(item.id))
                    })
                },
                Err(_) => *final(self) == *old(self),
            },
    {
        if self.contains_id(item.id) {
            return Err(HnswError::DuplicateId);
        }
        if self.nodes.len() > 0 {
            proof {
                assert(self@[0].vector == self.nodes@[0].item.vector@);
            }
            if item.vector.len() != self.nodes[0].item.vector.len() {
                return Err(HnswError::DimensionMismatch);
            }
        }
        if !vector_all_finite(&item.vector) {
            return Err(HnswError::InvalidVector);
        }
        let level = self.random_level();
        if self.nodes.len() == 0 {
            self.add_first(item, level);
        } else {
            proof {
                assert(self@[0].vector == self.nodes@[0].item.vector@);
            }
            self.insert_nonempty(item, level);
        }
        Ok(())
    }

    /// Sequential [`Self::add`] over a batch, stopping at the first
    /// failure and returning it; items inserted before the failure stay
    /// in the index.
    pub fn batch_add(&mut self, items: Vec<VectorItem>) -> (r: Result<(), HnswError>)
        requires
            old(self).wf(),
        ensures
            final(self).wf(),
            final(self).param_m() == old(self).param_m(),
            final(self).param_m_max0() == old(self).param_m_max0(),
            final(self).param_ef_construction() == old(self).param_ef_construction(),
            final(self).param_ef_search() == old(self).param_ef_search(),
            final(self).param_max_layer() == old(self).param_max_layer(),
            forall|a: Seq<u64>, b: Seq<u64>| #[trigger] final(self).dist_spec(a, b)
                == old(self).dist_spec(a, b),
            final(self)@.len() >= old(self)@.len(),
            forall|i: int| 0 <= i < old(self)@.len() ==> {
                &&& (#[trigger] final(self)@[i]).id == old(self)@[i].id
                &&& final(self)@[i].vector == old(self)@[i].vector
                &&& final(self)@[i].top_layer == old(self)@[i].top_layer
            },
            match r {
                Ok(_) => {
                    &&& final(self)@.len() == old(self)@.len() + items@.len()
                    &&& forall|j: int| 0 <= j < items@.len() ==> {
                        &&& (#[trigger] final(self)@[old(self)@.len() + j]).id == items@[j].id
                        &&& final(self)@[old(self)@.len() + j].vector == items@[j].vector@
                    }
                },
                Err(e) => {
                    &&& old(self)@.len() <= final(self)@.len()
                    &&& final(self)@.len() < old(self)@.len() + items@.len()
                    &&& Err::<(), HnswError>(e) == add_check(
                        final(self)@,
                        items@[final(self)@.len() - old(self)@.len()],
                    )
                    &&& forall|j: int| 0 <= j < final(self)@.len() - old(self)@.len() ==> {
                        &&& (#[trigger] final(self)@[old(self)@.len() + j]).id == items@[j].id
                        &&& final(self)@[old(self)@.len() + j].vector == items@[j].vector@
                    }
                },
            },
    {
        let ghost base = old(self)@.len() as int;
        let mut idx: usize = 0;
        while idx < items.len()
            invariant
                self.wf(),
                idx <= items@.len(),
                base == old(self)@.len(),
                self.param_m() == old(self).param_m(),
                self.param_m_max0() == old(self).param_m_max0(),
                self.param_ef_construction() == old(self).param_ef_construction(),
                self.param_ef_search() == old(self).param_ef_search(),
                self.param_max_layer() == old(self).param_max_layer(),
                forall|a: Seq<u64>, b: Seq<u64>| #[trigger] self.dist_spec(a, b)
                    == old(self).dist_spec(a, b),
                self@.len() == old(self)@.len() + idx,
                forall|i: int| 0 <= i < old(self)@.len() ==> {
                    &&& (#[trigger] self@[i]).id == old(self)@[i].id
                    &&& self@[i].vector == old(self)@[i].vector
                    &&& self@[i].top_layer == old(self)@[i].top_layer
                },
                forall|j: int| 0 <= j < idx ==> {
                    &&& (#[trigger] self@[base + j]).id == items@[j].id
                    &&& self@[base + j].vector == items@[j].vector@
                },
            decreases items@.len() - idx,
        {
            let it = items[idx].clone();
            let ghost state_before = self@;
            let step = self.add(it);
            match step {
                Ok(_) => {
                    proof {
                        assert(forall|i2: int| 0 <= i2 < state_before.len() ==> {
                            &&& (#[trigger] self@[i2]).id == state_before[i2].id
                            &&& self@[i2].vector == state_before[i2].vector
                        });
                        assert forall|j: int| 0 <= j < idx + 1 implies {
                            &&& (#[trigger] self@[base + j]).id == items@[j].id
                            &&& self@[base + j].vector == items@[j].vector@
                        } by {
                            if j < idx {
                                assert(state_before[base + j].id == items@[j].id);
                                assert(state_before[base + j].vector == items@[j].vector@);
                                assert(self@[base + j].id == state_before[base + j].id);
                                assert(self@[base + j].vector == state_before[base + j].vector);
                            } else {
                                assert(self@[base + j].id == it.id);
                                assert(self@[base + j].vector == it.vector@);
                                assert(it.id == items@[j].id && it.vector@ == items@[j].vector@);
                            }
                        }
                    }
                },
                Err(e) => {
                    proof {
                        assert(self@ == state_before);
                        assert(self@.len() == old(self)@.len() + idx);
                        assert(it.id == items@[idx as int].id);
                        assert(it.vector@ == items@[idx as int].vector@);
                        assert(Err::<(), HnswError>(e) == add_check(self@, it));
                        assert(add_check(self@, it) == add_check(self@, items@[idx as int]));
                    }
                    return Err(e);
                },
            }
            idx += 1;
        }
        Ok(())
    }

    /// Answers a top-`k` query. The empty index answers the empty
    /// sequence; a query of the wrong dimension is rejected; otherwise
    /// the result holds up to `k` distinct stored items, sorted by
    /// ascending distance to the query (ties by ascending id), found by
    /// greedy descent and a bounded best-first expansion of the base
    /// layer. While the base layer stays connected the answer holds
    /// exactly `min(k, total)` items; and if the whole table also fits
    /// the search width, the first item returned is the
    /// (distance, id)-least stored item, so a query at distance zero
    /// from exactly one stored item gets that item back.
    pub fn search(&self, query: &VectorItem, k: usize) -> (r: Result<Vec<VectorItem>, HnswError>)
        requires
            self.wf(),
        ensures
            r is Err <==> (self@.len() > 0 && query.vector@.len() != self.dims()),
            match r {
                Ok(res) => {
                    &&& res@.len() <= k
                    &&& res@.len() <= self@.len()
                    &&& (self@.len() > 0 && k > 0 ==> 1 <= res@.len())
                    &&& (self@.len() == 0 ==> res@.len() == 0)
                    &&& forall|i: int| 0 <= i < res@.len() ==> stored_as(self@, #[trigger] res@[i])
                    &&& forall|i: int, j: int| 0 <= i < j < res@.len() ==> res@[i].id != res@[j].id
                    &&& forall|i: int, j: int| 0 <= i < j < res@.len() ==> {
                        ||| self.dist_spec(query.vector@, (#[trigger] res@[i]).vector@)
                            < self.dist_spec(query.vector@, (#[trigger] res@[j]).vector@)
                        ||| (self.dist_spec(query.vector@, res@[i].vector@) == self.dist_spec(
                            query.vector@,
                            res@[j].vector@,
                        ) && res@[i].id < res@[j].id)
                    }
                    &&& (self@.len() == 1 && k >= 1 ==> res@.len() == 1 && res@[0].id == self@[0].id
                        && res@[0].vector@ == self@[0].vector)
                    &&& (base_layer_connected(self@) ==> res@.len() == (if (k as int)
                        <= self@.len() {
                        k as int
                    } else {
                        self@.len() as int
                    }))
                    &&& ((base_layer_connected(self@) && 1 <= self@.len()
                        <= self.param_ef_search() && k >= 1) ==> (forall|j: int|
                        0 <= j < self@.len() ==> {
                            ||| self.dist_spec(query.vector@, res@[0].vector@) < self.dist_spec(
                                query.vector@,
                                (#[trigger] self@[j]).vector,
                            )
                            ||| (self.dist_spec(query.vector@, res@[0].vector@) == self.dist_spec(
                                query.vector@,
                                self@[j].vector,
                            ) && res@[0].id <= self@[j].id)
                        }))
                    &&& ((base_layer_connected(self@) && 1 <= self@.len()
                        <= self.param_ef_search() && k >= 1) ==> (forall|sx: int|
                        (0 <= sx < self@.len() && self.dist_spec(
                            query.vector@,
                            (#[trigger] self@[sx]).vector,
                        ) == 0 && (forall|j: int|
                            0 <= j < self@.len() && j != sx ==> self.dist_spec(
                                query.vector@,
                                (#[trigger] self@[j]).vector,
                            ) > 0)) ==> (res@[0].id == self@[sx].id && res@[0].vector@
                            == self@[sx].vector)))
                },
                Err(e) => e == HnswError::DimensionMismatch,
            },
    {
        if self.nodes.len() == 0 {
            let empty_res: Vec<VectorItem> = Vec::new();
            return Ok(empty_res);
        }
        proof {
            assert(self@[0].vector == self.nodes@[0].item.vector@);
        }
        if query.vector.len() != self.nodes[0].item.vector.len() {
            return Err(HnswError::DimensionMismatch);
        }

        // greedy descent through the upper layers
        let ep0 = self.entry;
        let top = self.nodes[ep0].layer;
        proof {
            assert(node_ok(self.nodes@, ep0 as int, self.m, self.m_max0, self.max_layer));
        }
        let mut ep = ep0;
        let mut ep_dist = self.calculate_distances(query, &self.nodes[ep].item);
        let mut lay: usize = top;
        while lay > 0
            invariant
                self.wf(),
                lay <= top,
                top <= 0x10000,
                (ep as int) < self.nodes@.len(),
                self.nodes@[ep as int].layer >= lay,
                ep_dist == self.dist_spec(query.vector@, self.nodes@[ep as int].item.vector@),
            decreases lay,
        {
            let r2 = self.greedy_descent_layer(query, ep, ep_dist, lay);
            ep = r2.0;
            ep_dist = r2.1;
            lay -= 1;
        }

        // bounded best-first expansion of the base layer
        let ef = if self.ef_search > k {
            self.ef_search
        } else {
            k
        };
        let cands = self.search_at_layer(query, ep, 0, ef);
        let take = if k < cands.len() {
            k
        } else {
            cands.len()
        };
        let mut out: Vec<VectorItem> = Vec::new();
        let mut i: usize = 0;
        while i < take
            invariant
                self.wf(),
                take <= cands@.len(),
                self.all_nb_ok(query.vector@, 0, cands@),
                i <= take,
                out@.len() == i,
                forall|w: int| 0 <= w < i ==> {
                    &&& (#[trigger] out@[w]).id == cands@[w].id
                    &&& out@[w].vector@ == self.nodes@[cands@[w].slot as int].item.vector@
                },
            decreases take - i,
        {
            proof {
                assert(self.nb_ok(query.vector@, 0, cands@[i as int]));
            }
            let picked = self.nodes[cands[i].slot].item.clone();
            out.push(picked);
            i += 1;
        }
        proof {
            assert forall|w: int| 0 <= w < out@.len() implies stored_as(
                self@,
                #[trigger] out@[w],
            ) by {
                assert(self.nb_ok(query.vector@, 0, cands@[w]));
                let slot = cands@[w].slot as int;
                assert(self@[slot].id == self.nodes@[slot].item.id);
                assert(self@[slot].vector == self.nodes@[slot].item.vector@);
            }
            assert forall|w1: int, w2: int| 0 <= w1 < w2 < out@.len() implies out@[w1].id
                != out@[w2].id by {
                assert(self.nb_ok(query.vector@, 0, cands@[w1]));
                assert(self.nb_ok(query.vector@, 0, cands@[w2]));
                assert(cands@[w1].slot != cands@[w2].slot);
            }
            assert forall|w1: int, w2: int| 0 <= w1 < w2 < out@.len() implies {
                ||| self.dist_spec(query.vector@, out@[w1].vector@) < self.dist_spec(
                    query.vector@,
                    out@[w2].vector@,
                )
                ||| (self.dist_spec(query.vector@, out@[w1].vector@) == self.dist_spec(
                    query.vector@,
                    out@[w2].vector@,
                ) && out@[w1].id < out@[w2].id)
            } by {
                assert(self.nb_ok(query.vector@, 0, cands@[w1]));
                assert(self.nb_ok(query.vector@, 0, cands@[w2]));
                assert(nb_le(cands@[w1], cands@[w2]));
                assert(cands@[w1].id != cands@[w2].id);
            }
            if self@.len() == 1 && k >= 1 {
                assert(out@.len() == 1);
                assert(self.nb_ok(query.vector@, 0, cands@[0]));
                assert((cands@[0].slot as int) == 0);
            }
            if base_layer_connected(self@) {
                // a connected base layer fills the candidate list up to
                // its capacity or the whole table, so the answer holds
                // exactly min(k, total) items
                let n = self.nodes@.len() as int;
                if cands@.len() < ef {
                    assert forall|t: usize| (t as int) < n implies has_slot(cands@, t) by {
                        assert(view_connected(self@, 0, ep as int, t as int));
                        let steps = choose|steps: nat| view_reach_within(
                            self@,
                            0,
                            ep as int,
                            t as int,
                            steps,
                        );
                        self.lemma_view_reach_to_raw(0, ep as int, t as int, steps);
                        assert(layer_reachable(self.nodes@, 0, ep as int, t as int));
                    }
                    lemma_distinct_slots_cover(cands@, n);
                    assert(cands@.len() == n);
                } else {
                    assert(cands@.len() == ef);
                    assert((k as int) <= ef);
                    assert((ef as int) <= n);
                }
                if self@.len() <= self.param_ef_search() && k >= 1 {
                    // with room for the whole table, the candidate list
                    // held every stored node, so the head of the answer
                    // is the (distance, id)-least stored item
                    assert forall|t: usize| (t as int) < n implies has_slot(cands@, t) by {
                        if cands@.len() == n {
                            lemma_distinct_slots_full(cands@, n);
                        }
                    }
                    assert(out@.len() >= 1);
                    assert(out@[0].id == cands@[0].id && out@[0].vector@
                        == self.nodes@[cands@[0].slot as int].item.vector@);
                    assert(self.nb_ok(query.vector@, 0, cands@[0]));
                    assert forall|j: int| 0 <= j < self@.len() implies {
                        ||| self.dist_spec(query.vector@, out@[0].vector@) < self.dist_spec(
                            query.vector@,
                            (#[trigger] self@[j]).vector,
                        )
                        ||| (self.dist_spec(query.vector@, out@[0].vector@) == self.dist_spec(
                            query.vector@,
                            self@[j].vector,
                        ) && out@[0].id <= self@[j].id)
                    } by {
                        assert(has_slot(cands@, j as usize));
                        let w = choose|w: int| 0 <= w < cands@.len() && cands@[w].slot
                            == j as usize;
                        assert(self.nb_ok(query.vector@, 0, cands@[w]));
                        if w > 0 {
                            assert(nb_le(cands@[0], cands@[w]));
                        }
                        assert(self@[j].vector == self.nodes@[j].item.vector@);
                        assert(self@[j].id == self.nodes@[j].item.id);
                    }
                    let b = cands@[0].slot as int;
                    assert(self@[b].id == out@[0].id && self@[b].vector == out@[0].vector@);
                    assert forall|sx: int|
                        (0 <= sx < self@.len() && self.dist_spec(
                            query.vector@,
                            (#[trigger] self@[sx]).vector,
                        ) == 0 && (forall|j: int|
                            0 <= j < self@.len() && j != sx ==> self.dist_spec(
                                query.vector@,
                                (#[trigger] self@[j]).vector,
                            ) > 0)) implies (out@[0].id == self@[sx].id && out@[0].vector@
                        == self@[sx].vector) by {
                        assert(self.dist_spec(query.vector@, out@[0].vector@) == self.dist_spec(
                            query.vector@,
                            self@[b].vector,
                        ));
                        if b != sx {
                            assert(self.dist_spec(query.vector@, self@[b].vector) > 0);
                            assert({
                                ||| self.dist_spec(query.vector@, out@[0].vector@)
                                    < self.dist_spec(query.vector@, self@[sx].vector)
                                ||| (self.dist_spec(query.vector@, out@[0].vector@)
                                    == self.dist_spec(query.vector@, self@[sx].vector)
                                    && out@[0].id <= self@[sx].id)
                            });
                            assert(false);
                        }
                    }
                }
            }
        }
        Ok(out)
    }

    /// Summarises the index: node count, directed edge count over all
    /// layers, per-layer population (nodes whose top layer is at least
    /// `L`), and the highest layer any node reaches.
    pub fn get_stats(&self) -> (st: IndexStats)
        requires
            self.wf(),
        ensures
            st.total_nodes == self@.len(),
            st.total_connections == total_edges(self@),
            self@.len() == 0 ==> st.max_level == 0 && st.level_distribution@.len() == 0,
            self@.len() > 0 ==> {
                &&& st.level_distribution@.len() == st.max_level + 1
                &&& exists|i: int| 0 <= i < self@.len() && (#[trigger] self@[i]).top_layer
                    == st.max_level
                &&& forall|i: int| 0 <= i < self@.len() ==> (#[trigger] self@[i]).top_layer
                    <= st.max_level
            },
            forall|l: int| 0 <= l < st.level_distribution@.len() ==>
                (#[trigger] st.level_distribution@[l]) == count_at_least(self@, l),
    {
        let n = self.nodes.len();

        // total stored edges, over all nodes and layers
        let mut total: u128 = 0;
        let mut i: usize = 0;
        while i < n
            invariant
                self.wf(),
                n == self.nodes@.len(),
                i <= n,
                total == total_edges(self@.take(i as int)),
                total <= (i as int) * 0x2_0002_0000,
            decreases n - i,
        {
            proof {
                assert(node_ok(self.nodes@, i as int, self.m, self.m_max0, self.max_layer));
            }
            let lcount = self.nodes[i].connections.len();
            let mut cnt: u64 = 0;
            let mut l: usize = 0;
            while l < lcount
                invariant
                    self.wf(),
                    n == self.nodes@.len(),
                    i < n,
                    lcount == self.nodes@[i as int].connections@.len(),
                    lcount <= 0x10001,
                    l <= lcount,
                    cnt == conn_total(self@[i as int].connections.take(l as int)),
                    cnt <= (l as int) * 0x20000,
                decreases lcount - l,
            {
                proof {
                    assert(node_ok(self.nodes@, i as int, self.m, self.m_max0, self.max_layer));
                    assert(self.nodes@[i as int].connections@[l as int]@.len() <= mmax_at(
                        self.m,
                        self.m_max0,
                        l as int,
                    ));
                    assert(self@[i as int].connections[l as int].len()
                        == self.nodes@[i as int].connections@[l as int]@.len());
                }
                let len_l = self.nodes[i].connections[l].len();
                cnt = cnt + (len_l as u64);
                proof {
                    let conns = self@[i as int].connections;
                    assert(conns.take(l + 1).drop_last() =~= conns.take(l as int));
                    assert(conns.take(l + 1).last() == conns[l as int]);
                }
                l += 1;
            }
            proof {
                let conns = self@[i as int].connections;
                assert(conns.take(lcount as int) =~= conns);
            }
            total = total + (cnt as u128);
            proof {
                assert(self@.take(i + 1).drop_last() =~= self@.take(i as int));
                assert(self@.take(i + 1).last() == self@[i as int]);
            }
            i += 1;
        }
        proof {
            assert(self@.take(n as int) =~= self@);
        }

        // observed maximum layer: the entry point's, by the invariant
        let max_level = if n == 0 {
            0
        } else {
            self.nodes[self.entry].layer
        };
        proof {
            if n > 0 {
                assert(node_ok(self.nodes@, self.entry as int, self.m, self.m_max0,
                    self.max_layer));
                assert(self@[self.entry as int].top_layer == max_level);
            }
        }

        // per-layer population
        let mut dist: Vec<usize> = Vec::new();
        if n > 0 {
            let mut l: usize = 0;
            while l < max_level + 1
                invariant
                    self.wf(),
                    n == self.nodes@.len(),
                    n > 0,
                    max_level <= 0x10000,
                    l <= max_level + 1,
                    dist@.len() == l,
                    forall|l2: int| 0 <= l2 < l ==> (#[trigger] dist@[l2]) == count_at_least(
                        self@,
                        l2,
                    ),
                decreases max_level + 1 - l,
            {
                let mut c: usize = 0;
                let mut i2: usize = 0;
                while i2 < n
                    invariant
                        self.wf(),
                        n == self.nodes@.len(),
                        i2 <= n,
                        c <= i2,
                        c == count_at_least(self@.take(i2 as int), l as int),
                    decreases n - i2,
                {
                    if self.nodes[i2].layer >= l {
                        c += 1;
                    }
                    proof {
                        assert(self@.take(i2 + 1).drop_last() =~= self@.take(i2 as int));
                        assert(self@.take(i2 + 1).last() == self@[i2 as int]);
                        assert(self@[i2 as int].top_layer == self.nodes@[i2 as int].layer);
                    }
                    i2 += 1;
                }
                proof {
                    assert(self@.take(n as int) =~= self@);
                }
                dist.push(c);
                l += 1;
            }
        }
        IndexStats { total_nodes: n, level_distribution: dist, total_connections: total, max_level }
    }

    /// Looks a stored node up by id. The returned record names its
    /// neighbours by id, not by table slot.
    pub fn get_node(&self, id: usize) -> (r: Option<Node>)
        requires
            self.wf(),
        ensures
            r is Some <==> has_id(self@, id),
            match r {
                Some(node) => exists|i: int|
                    {
                        &&& 0 <= i < self@.len()
                        &&& (#[trigger] self@[i]).id == id
                        &&& node.id == id
                        &&& node.item.id == id
                        &&& node.item.vector@ == self@[i].vector
                        &&& node.layer == self@[i].top_layer
                        &&& node.connections@.len() == self@[i].connections.len()
                        &&& forall|l: int| 0 <= l < self@[i].connections.len() ==>
                            (#[trigger] node.connections@[l])@ == self@[i].connections[l]
                    },
                None => !has_id(self@, id),
            },
    {
        let n = self.nodes.len();
        let mut i: usize = 0;
        while i < n
            invariant
                self.wf(),
                n == self.nodes@.len(),
                i <= n,
                forall|j: int| 0 <= j < i ==> (#[trigger] self@[j]).id != id,
            decreases n - i,
        {
            if self.nodes[i].item.id == id {
                proof {
                    assert(self@[i as int].id == id);
                    assert(node_ok(self.nodes@, i as int, self.m, self.m_max0, self.max_layer));
                }
                // name each layer's neighbours by id
                let lcount = self.nodes[i].connections.len();
                let mut conns: Vec<Vec<usize>> = Vec::new();
                let mut l: usize = 0;
                while l < lcount
                    invariant
                        self.wf(),
                        n == self.nodes@.len(),
                        i < n,
                        lcount == self.nodes@[i as int].connections@.len(),
                        l <= lcount,
                        conns@.len() == l,
                        forall|l2: int| 0 <= l2 < l ==> (#[trigger] conns@[l2])@
                            == self@[i as int].connections[l2],
                    decreases lcount - l,
                {
                    proof {
                        assert(node_ok(self.nodes@, i as int, self.m, self.m_max0,
                            self.max_layer));
                        assert(conn_list_ok(
                            self.nodes@,
                            i as int,
                            l as int,
                            self.nodes@[i as int].connections@[l as int]@,
                        ));
                    }
                    let jcount = self.nodes[i].connections[l].len();
                    let mut ids: Vec<usize> = Vec::new();
                    let mut j: usize = 0;
                    while j < jcount
                        invariant
                            self.wf(),
                            n == self.nodes@.len(),
                            i < n,
                            (l as int) < self.nodes@[i as int].connections@.len(),
                            conn_list_ok(
                                self.nodes@,
                                i as int,
                                l as int,
                                self.nodes@[i as int].connections@[l as int]@,
                            ),
                            jcount == self.nodes@[i as int].connections@[l as int]@.len(),
                            j <= jcount,
                            ids@.len() == j,
                            forall|w: int| 0 <= w < j ==> (#[trigger] ids@[w])
                                == self@[i as int].connections[l as int][w],
                        decreases jcount - j,
                    {
                        let slot = self.nodes[i].connections[l][j];
                        ids.push(self.nodes[slot].item.id);
                        j += 1;
                    }
                    conns.push(ids);
                    proof {
                        assert(ids@ =~= self@[i as int].connections[l as int]);
                    }
                    l += 1;
                }
                let node = Node {
                    id,
                    connections: conns,
                    item: self.nodes[i].item.clone(),
                    layer: self.nodes[i].layer,
                };
                return Some(node);
            }
            proof {
                assert(self@[i as int].id == self.nodes@[i as int].item.id);
            }
            i += 1;
        }
        None
    }

    /// A reachability chain stated over the view (ids) carries over to
    /// the stored slot graph: ids name nodes uniquely.
    proof fn lemma_view_reach_to_raw(&self, layer: int, a: int, b: int, steps: nat)
        requires
            self.wf(),
            0 <= a < self@.len(),
            view_reach_within(self@, layer, a, b, steps),
        ensures
            reach_within(self.nodes@, layer, a, b, steps),
        decreases steps,
    {
        if b != a {
            let m = choose|m: int|
                view_reach_within(self@, layer, a, m, (steps - 1) as nat) && view_edge(
                    self@,
                    layer,
                    m,
                    b,
                );
            self.lemma_view_reach_to_raw(layer, a, m, (steps - 1) as nat);
            let j = choose|j: int|
                0 <= j < self@[m].connections[layer].len() && self@[m].connections[layer][j]
                    == self@[b].id;
            assert(node_ok(self.nodes@, m, self.m, self.m_max0, self.max_layer));
            assert(conn_list_ok(self.nodes@, m, layer, self.nodes@[m].connections@[layer]@));
            let t = self.nodes@[m].connections@[layer]@[j] as int;
            assert(self@[m].connections[layer][j] == self.nodes@[t].item.id);
            assert(self@[b].id == self.nodes@[b].item.id);
            assert(t == b) by {
                if t < b {
                    assert(self.nodes@[t].item.id != self.nodes@[b].item.id);
                } else if b < t {
                    assert(self.nodes@[b].item.id != self.nodes@[t].item.id);
                }
            }
            assert(layer_edge(self.nodes@, layer, m, b)) by {
                assert(self.nodes@[m].connections@[layer]@[j] == b);
            }
            assert(reach_within(self.nodes@, layer, a, b, steps));
        }
    }

    /// Law: distinct stored nodes never share an id.
    pub proof fn lemma_unique_ids(&self)
        requires
            self.wf(),
        ensures
            forall|i: int, j: int| 0 <= i < j < self@.len() ==> (#[trigger] self@[i]).id
                != (#[trigger] self@[j]).id,
    {
        assert forall|i: int, j: int| 0 <= i < j < self@.len() implies (#[trigger] self@[i]).id
            != (#[trigger] self@[j]).id by {
            assert(self@[i].id == self.nodes@[i].item.id);
            assert(self@[j].id == self.nodes@[j].item.id);
        }
    }

    /// Law: every stored vector has the dimension the first item
    /// established.
    pub proof fn lemma_single_dimension(&self)
        requires
            self.wf(),
        ensures
            forall|i: int| 0 <= i < self@.len() ==> (#[trigger] self@[i]).vector.len()
                == self.dims(),
    {
        assert forall|i: int| 0 <= i < self@.len() implies (#[trigger] self@[i]).vector.len()
            == self.dims() by {
            assert(self@[i].vector == self.nodes@[i].item.vector@);
            assert(self@[0].vector == self.nodes@[0].item.vector@);
        }
    }

    /// Law: every stored node carries one neighbour list per layer it
    /// participates in, every neighbour id resolves to a stored node
    /// that also participates in that layer, no node lists itself, and
    /// no list repeats an id.
    pub proof fn lemma_edge_validity(&self)
        requires
            self.wf(),
        ensures
            forall|i: int| 0 <= i < self@.len() ==> (#[trigger] self@[i]).connections.len()
                == self@[i].top_layer + 1,
            forall|i: int, l: int, j: int|
                0 <= i < self@.len() && 0 <= l < self@[i].connections.len() && 0 <= j
                    < self@[i].connections[l].len() ==> exists|b: int|
                    {
                        &&& 0 <= b < self@.len()
                        &&& (#[trigger] self@[b]).id == (#[trigger] self@[i].connections[l][j])
                        &&& self@[b].top_layer >= l
                    },
            forall|i: int, l: int, j: int|
                0 <= i < self@.len() && 0 <= l < self@[i].connections.len() && 0 <= j
                    < self@[i].connections[l].len() ==> (#[trigger] self@[i].connections[l][j])
                    != self@[i].id,
            forall|i: int, l: int, j1: int, j2: int|
                0 <= i < self@.len() && 0 <= l < self@[i].connections.len() && 0 <= j1 < j2
                    < self@[i].connections[l].len() ==> (#[trigger] self@[i].connections[l][j1])
                    != (#[trigger] self@[i].connections[l][j2]),
    {
        assert forall|i: int| 0 <= i < self@.len() implies (#[trigger] self@[i]).connections.len()
            == self@[i].top_layer + 1 by {
            assert(node_ok(self.nodes@, i, self.m, self.m_max0, self.max_layer));
        }
        assert forall|i: int, l: int, j: int|
            0 <= i < self@.len() && 0 <= l < self@[i].connections.len() && 0 <= j
                < self@[i].connections[l].len() implies exists|b: int|
                {
                    &&& 0 <= b < self@.len()
                    &&& (#[trigger] self@[b]).id == (#[trigger] self@[i].connections[l][j])
                    &&& self@[b].top_layer >= l
                } by {
            assert(node_ok(self.nodes@, i, self.m, self.m_max0, self.max_layer));
            assert(conn_list_ok(self.nodes@, i, l, self.nodes@[i].connections@[l]@));
            let slot = self.nodes@[i].connections@[l]@[j] as int;
            assert(self@[i].connections[l][j] == self.nodes@[slot].item.id);
            assert(self@[slot].id == self.nodes@[slot].item.id);
            assert(self@[slot].top_layer == self.nodes@[slot].layer);
            assert(0 <= slot < self@.len() && self@[slot].id == self@[i].connections[l][j]
                && self@[slot].top_layer >= l);
        }
        assert forall|i: int, l: int, j: int|
            0 <= i < self@.len() && 0 <= l < self@[i].connections.len() && 0 <= j
                < self@[i].connections[l].len() implies (#[trigger] self@[i].connections[l][j])
            != self@[i].id by {
            assert(node_ok(self.nodes@, i, self.m, self.m_max0, self.max_layer));
            assert(conn_list_ok(self.nodes@, i, l, self.nodes@[i].connections@[l]@));
            let slot = self.nodes@[i].connections@[l]@[j] as int;
            assert(slot != i);
            assert(self@[i].connections[l][j] == self.nodes@[slot].item.id);
            if slot < i {
                assert(self.nodes@[slot].item.id != self.nodes@[i].item.id);
            } else {
                assert(self.nodes@[i].item.id != self.nodes@[slot].item.id);
            }
        }
        assert forall|i: int, l: int, j1: int, j2: int|
            0 <= i < self@.len() && 0 <= l < self@[i].connections.len() && 0 <= j1 < j2
                < self@[i].connections[l].len() implies (#[trigger] self@[i].connections[l][j1])
            != (#[trigger] self@[i].connections[l][j2]) by {
            assert(node_ok(self.nodes@, i, self.m, self.m_max0, self.max_layer));
            assert(conn_list_ok(self.nodes@, i, l, self.nodes@[i].connections@[l]@));
            let s1 = self.nodes@[i].connections@[l]@[j1] as int;
            let s2 = self.nodes@[i].connections@[l]@[j2] as int;
            assert(s1 != s2);
            assert(self@[i].connections[l][j1] == self.nodes@[s1].item.id);
            assert(self@[i].connections[l][j2] == self.nodes@[s2].item.id);
            if s1 < s2 {
                assert(self.nodes@[s1].item.id != self.nodes@[s2].item.id);
            } else {
                assert(self.nodes@[s2].item.id != self.nodes@[s1].item.id);
            }
        }
    }

    /// Law: no neighbour list exceeds its degree cap, `M` above the
    /// base layer and `2M` at it.
    pub proof fn lemma_degree_bounds(&self)
        requires
            self.wf(),
        ensures
            forall|i: int, l: int|
                0 <= i < self@.len() && 0 <= l < self@[i].connections.len() ==>
                    (#[trigger] self@[i].connections[l]).len() <= (if l == 0 {
                        2 * self.param_m()
                    } else {
                        self.param_m() as int
                    }),
    {
        assert forall|i: int, l: int|
            0 <= i < self@.len() && 0 <= l < self@[i].connections.len() implies
            (#[trigger] self@[i].connections[l]).len() <= (if l == 0 {
                2 * self.param_m()
            } else {
                self.param_m() as int
            }) by {
            assert(node_ok(self.nodes@, i, self.m, self.m_max0, self.max_layer));
            assert(self.nodes@[i].connections@[l]@.len() <= mmax_at(self.m, self.m_max0, l));
            assert(self@[i].connections[l].len() == self.nodes@[i].connections@[l]@.len());
        }
    }

    /// Law: the entry point exists exactly when the index is
    /// non-empty, and it then names a stored node whose top layer is
    /// maximal.
    pub proof fn lemma_entry_point_top(&self)
        requires
            self.wf(),
        ensures
            self.entry_id() is Some <==> self@.len() > 0,
            self@.len() > 0 ==> exists|i: int|
                {
                    &&& 0 <= i < self@.len()
                    &&& Some((#[trigger] self@[i]).id) == self.entry_id()
                    &&& forall|j: int| 0 <= j < self@.len() ==> (#[trigger] self@[j]).top_layer
                        <= self@[i].top_layer
                },
    {
        if self@.len() > 0 {
            let e = self.entry as int;
            assert(self@[e].id == self.nodes@[e].item.id);
            assert forall|j: int| 0 <= j < self@.len() implies (#[trigger] self@[j]).top_layer
                <= self@[e].top_layer by {
                assert(self.nodes@[j].layer <= self.nodes@[e].layer);
            }
            assert(0 <= e < self@.len() && Some(self@[e].id) == self.entry_id());
        }
    }
}

/// A read-only summary of the index: node count, stored edge count
/// (directed, summed over all layers), per-layer population, and the
/// highest layer any node reaches.
#[derive(Clone, Debug)]
pub struct IndexStats {
    pub total_nodes: usize,
    /// Entry `L` counts the nodes whose top layer is at least `L`;
    /// empty when the index is empty.
    pub level_distribution: Vec<usize>,
    pub total_connections: u128,
    pub max_level: usize,
}

} // verus!
