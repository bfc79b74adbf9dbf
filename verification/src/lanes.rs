//! Lane assignment: one pass over the commits, newest first, that gives each
//! a drawing lane out of a growable pool of slots.

use vstd::prelude::*;
use crate::graph::{
    graph_edges, graph_weights, neighbors, node_count, node_weight, targets_from, Topology,
};
use crate::types::{DagEdgeView, DagNode, DagNodeView};

verus! {

/// The lane pool. A slot is empty, or holds the id of the commit that is
/// expected to continue that lane.
pub type Slots = Seq<Option<Seq<char>>>;

/// The views of the slots of an executable pool.
pub open spec fn slot_views(slots: Seq<Option<String>>) -> Slots {
    Seq::new(
        slots.len(),
        |i: int|
            match slots[i] {
                Some(id) => Some(id@),
                None => None,
            },
    )
}

/// The first index at or after `from` whose slot equals `target`, or the
/// length of the pool when there is none.
pub open spec fn first_slot(slots: Slots, target: Option<Seq<char>>, from: int) -> int
    decreases slots.len() - from,
{
    if from < 0 || from >= slots.len() {
        slots.len() as int
    } else if slots[from] == target {
        from
    } else {
        first_slot(slots, target, from + 1)
    }
}

/// Some slot awaits `id`.
pub open spec fn awaited(slots: Slots, id: Seq<char>) -> bool {
    first_slot(slots, Some(id), 0) < slots.len()
}

/// No two slots await the same id.
pub open spec fn distinct_awaits(slots: Slots) -> bool {
    forall|i: int, j: int|
        0 <= i < j < slots.len() && slots[i] is Some ==> slots[i] != slots[j]
}

/// The lane of a commit and the pool after it took that lane: the slot that
/// awaits the commit, which is freed; else the first empty slot; else a new
/// slot at the end.
pub open spec fn take_lane(slots: Slots, id: Seq<char>) -> (int, Slots) {
    let waiting = first_slot(slots, Some(id), 0);
    let free = first_slot(slots, None, 0);
    if waiting < slots.len() {
        (waiting, slots.update(waiting, None))
    } else if free < slots.len() {
        (free, slots)
    } else {
        (slots.len() as int, slots.push(None))
    }
}

/// The pool after a parent of the commit in `lane` asked for a slot. A
/// parent that some slot awaits already changes nothing. Otherwise the first
/// parent continues the commit's own lane, and any other parent takes the
/// first empty slot, or a new slot at the end.
pub open spec fn claim(slots: Slots, parent: Seq<char>, lane: int, first: bool) -> Slots {
    let free = first_slot(slots, None, 0);
    if awaited(slots, parent) {
        slots
    } else if first && 0 <= lane < slots.len() {
        slots.update(lane, Some(parent))
    } else if free < slots.len() {
        slots.update(free, Some(parent))
    } else {
        slots.push(Some(parent))
    }
}

/// The pool after the parents claimed their slots one by one, in order.
pub open spec fn claim_all(slots: Slots, parents: Seq<Seq<char>>, lane: int) -> Slots
    decreases parents.len(),
{
    if parents.len() == 0 {
        slots
    } else {
        claim(claim_all(slots, parents.drop_last(), lane), parents.last(), lane, parents.len() == 1)
    }
}

/// One step of the pass: the lane of the commit `id`, and the pool after the
/// commit took its lane and its parents claimed theirs.
pub open spec fn place(slots: Slots, id: Seq<char>, parents: Seq<Seq<char>>) -> (int, Slots) {
    let (lane, taken) = take_lane(slots, id);
    (lane, claim_all(taken, parents, lane))
}

/// What `first_slot` finds: an index in range whose slot equals the target,
/// with no such slot before it.
pub proof fn lemma_first_slot(slots: Slots, target: Option<Seq<char>>, from: int)
    requires
        0 <= from <= slots.len(),
    ensures
        from <= first_slot(slots, target, from) <= slots.len(),
        first_slot(slots, target, from) < slots.len() ==> slots[first_slot(slots, target, from)]
            == target,
        forall|k: int| from <= k < first_slot(slots, target, from) ==> slots[k] != target,
    decreases slots.len() - from,
{
    if from < slots.len() && slots[from] != target {
        lemma_first_slot(slots, target, from + 1);
    }
}

/// A commit's lane is a slot of the pool it leaves behind, and the pool
/// never shrinks.
pub proof fn lemma_take_lane_in_range(slots: Slots, id: Seq<char>)
    ensures
        0 <= take_lane(slots, id).0 < take_lane(slots, id).1.len(),
        slots.len() <= take_lane(slots, id).1.len(),
        take_lane(slots, id).1[take_lane(slots, id).0] is None,
{
    lemma_first_slot(slots, Some(id), 0);
    lemma_first_slot(slots, None, 0);
}

/// Taking a lane keeps the awaited ids distinct.
pub proof fn lemma_take_lane_distinct(slots: Slots, id: Seq<char>)
    requires
        distinct_awaits(slots),
    ensures
        distinct_awaits(take_lane(slots, id).1),
{
    lemma_first_slot(slots, Some(id), 0);
    lemma_first_slot(slots, None, 0);
}

/// A parent's claim keeps the awaited ids distinct, and the pool never shrinks.
pub proof fn lemma_claim_distinct(slots: Slots, parent: Seq<char>, lane: int, first: bool)
    requires
        distinct_awaits(slots),
    ensures
        distinct_awaits(claim(slots, parent, lane, first)),
        slots.len() <= claim(slots, parent, lane, first).len(),
{
    lemma_first_slot(slots, Some(parent), 0);
    lemma_first_slot(slots, None, 0);
    let after = claim(slots, parent, lane, first);
    if !awaited(slots, parent) {
        assert forall|i: int, j: int|
            0 <= i < j < after.len() && after[i] is Some implies after[i] != after[j] by {
            if i < slots.len() && after[i] == slots[i] && j < slots.len() && after[j] == slots[j] {
                assert(slots[i] != slots[j]);
            }
        }
    }
}

/// The claims of all parents keep the awaited ids distinct, and the pool
/// never shrinks.
pub proof fn lemma_claim_all_distinct(slots: Slots, parents: Seq<Seq<char>>, lane: int)
    requires
        distinct_awaits(slots),
    ensures
        distinct_awaits(claim_all(slots, parents, lane)),
        slots.len() <= claim_all(slots, parents, lane).len(),
    decreases parents.len(),
{
    if parents.len() > 0 {
        lemma_claim_all_distinct(slots, parents.drop_last(), lane);
        lemma_claim_distinct(
            claim_all(slots, parents.drop_last(), lane),
            parents.last(),
            lane,
            parents.len() == 1,
        );
    }
}

/// Placing a commit never leaves two slots awaiting the same id, whatever
/// the commit and its parents are.
pub proof fn lemma_place_distinct(slots: Slots, id: Seq<char>, parents: Seq<Seq<char>>)
    requires
        distinct_awaits(slots),
    ensures
        distinct_awaits(place(slots, id, parents).1),
        0 <= place(slots, id, parents).0 < place(slots, id, parents).1.len(),
{
    lemma_take_lane_distinct(slots, id);
    lemma_take_lane_in_range(slots, id);
    let (lane, taken) = take_lane(slots, id);
    lemma_claim_all_distinct(taken, parents, lane);
}

/// The first slot that awaits `id`, or the pool's length.
fn find_awaiting(slots: &Vec<Option<String>>, id: &String) -> (index: usize)
    ensures
        index == first_slot(slot_views(slots@), Some(id@), 0),
{
    let mut i: usize = 0;
    while i < slots.len()
        invariant
            i <= slots@.len(),
            first_slot(slot_views(slots@), Some(id@), 0) == first_slot(
                slot_views(slots@),
                Some(id@),
                i as int,
            ),
        decreases slots@.len() - i,
    {
        let hit = match &slots[i] {
            Some(held) => held.eq(id),
            None => false,
        };
        if hit {
            return i;
        }
        i += 1;
    }
    i
}

/// The first empty slot, or the pool's length.
fn find_free(slots: &Vec<Option<String>>) -> (index: usize)
    ensures
        index == first_slot(slot_views(slots@), None, 0),
{
    let mut i: usize = 0;
    while i < slots.len()
        invariant
            i <= slots@.len(),
            first_slot(slot_views(slots@), None, 0) == first_slot(
                slot_views(slots@),
                None,
                i as int,
            ),
        decreases slots@.len() - i,
    {
        if slots[i].is_none() {
            return i;
        }
        i += 1;
    }
    i
}

/// Gives the commit `id` its lane and updates the pool.
pub(crate) fn take_lane_in(slots: &mut Vec<Option<String>>, id: &String) -> (lane: usize)
    ensures
        lane as int == take_lane(slot_views(old(slots)@), id@).0,
        slot_views(final(slots)@) == take_lane(slot_views(old(slots)@), id@).1,
{
    let waiting = find_awaiting(slots, id);
    if waiting < slots.len() {
        slots[waiting] = None;
        assert(slot_views(slots@) =~= slot_views(old(slots)@).update(waiting as int, None));
        return waiting;
    }
    let free = find_free(slots);
    if free < slots.len() {
        return free;
    }
    proof {
        lemma_first_slot(slot_views(slots@), None, 0);
    }
    slots.push(None);
    assert(slot_views(slots@) =~= slot_views(old(slots)@).push(None));
    free
}

/// Lets one parent of the commit in `lane` claim its slot.
pub(crate) fn claim_in(slots: &mut Vec<Option<String>>, parent: &String, lane: usize, first: bool)
    ensures
        slot_views(final(slots)@) == claim(slot_views(old(slots)@), parent@, lane as int, first),
{
    let waiting = find_awaiting(slots, parent);
    if waiting < slots.len() {
        return ;
    }
    if first && lane < slots.len() {
        slots[lane] = Some(parent.clone());
        assert(slot_views(slots@) =~= slot_views(old(slots)@).update(lane as int, Some(parent@)));
        return ;
    }
    let free = find_free(slots);
    if free < slots.len() {
        slots[free] = Some(parent.clone());
        assert(slot_views(slots@) =~= slot_views(old(slots)@).update(free as int, Some(parent@)));
    } else {
        slots.push(Some(parent.clone()));
        assert(slot_views(slots@) =~= slot_views(old(slots)@).push(Some(parent@)));
    }
}

/// The order with `i` put behind every index whose time is not earlier than
/// that of `i`.
pub open spec fn insert_by_time(order: Seq<int>, times: Seq<int>, i: int) -> Seq<int>
    decreases order.len(),
{
    if order.len() == 0 {
        seq![i]
    } else if times[order.last()] >= times[i] {
        order.push(i)
    } else {
        insert_by_time(order.drop_last(), times, i).push(order.last())
    }
}

/// The indices below `n` by time, latest first; indices with equal times
/// keep their order.
pub open spec fn time_order(times: Seq<int>, n: nat) -> Seq<int>
    decreases n,
{
    if n == 0 {
        Seq::empty()
    } else {
        insert_by_time(time_order(times, (n - 1) as nat), times, n - 1)
    }
}

/// Node `a` is placed before node `b`: it is the later one, or of the same
/// time and earlier in the list of nodes.
pub open spec fn placed_before(times: Seq<int>, a: int, b: int) -> bool {
    times[a] > times[b] || (times[a] == times[b] && a < b)
}

/// Every index of the order is placed before the indices behind it.
pub open spec fn in_time_order(order: Seq<int>, times: Seq<int>) -> bool {
    forall|a: int, b: int|
        0 <= a < b < order.len() ==> placed_before(times, #[trigger] order[a], #[trigger] order[b])
}

/// Inserting an index that is greater than all of an order keeps the order
/// an order, and adds that index and no other.
pub proof fn lemma_insert_keeps_time_order(order: Seq<int>, times: Seq<int>, i: int)
    requires
        in_time_order(order, times),
        forall|k: int| 0 <= k < order.len() ==> #[trigger] order[k] < i,
    ensures
        in_time_order(insert_by_time(order, times, i), times),
        insert_by_time(order, times, i).len() == order.len() + 1,
        forall|x: int|
            #[trigger] insert_by_time(order, times, i).contains(x) <==> (order.contains(x) || x
                == i),
    decreases order.len(),
{
    let after = insert_by_time(order, times, i);
    if order.len() == 0 {
        assert(after[0] == i);
    } else if times[order.last()] >= times[i] {
        assert forall|a: int, b: int| 0 <= a < b < after.len() implies placed_before(
            times,
            #[trigger] after[a],
            #[trigger] after[b],
        ) by {
            if b == order.len() {
                assert(order[a] < i);
                if a < order.len() - 1 {
                    assert(placed_before(times, order[a], order[order.len() - 1]));
                }
            } else {
                assert(placed_before(times, order[a], order[b]));
            }
        }
        assert forall|x: int| after.contains(x) <==> (order.contains(x) || x == i) by {
            if order.contains(x) {
                let k = choose|k: int| 0 <= k < order.len() && order[k] == x;
                assert(after[k] == x);
            }
            if x == i {
                assert(after[order.len() as int] == i);
            }
        }
    } else {
        let rest = order.drop_last();
        let placed = insert_by_time(rest, times, i);
        assert(in_time_order(rest, times)) by {
            assert forall|a: int, b: int| 0 <= a < b < rest.len() implies placed_before(
                times,
                #[trigger] rest[a],
                #[trigger] rest[b],
            ) by {
                assert(placed_before(times, order[a], order[b]));
            }
        }
        assert forall|k: int| 0 <= k < rest.len() implies #[trigger] rest[k] < i by {
            assert(order[k] < i);
        }
        lemma_insert_keeps_time_order(rest, times, i);
        assert forall|a: int, b: int| 0 <= a < b < after.len() implies placed_before(
            times,
            #[trigger] after[a],
            #[trigger] after[b],
        ) by {
            if b == placed.len() {
                assert(after[b] == order[order.len() - 1]);
                assert(after[a] == placed[a]);
                assert(placed.contains(placed[a]));
                if placed[a] != i {
                    assert(rest.contains(placed[a]));
                    let k = choose|k: int| 0 <= k < rest.len() && rest[k] == placed[a];
                    assert(order[k] == rest[k]);
                    assert(placed_before(times, order[k], order[order.len() - 1]));
                }
            } else {
                assert(placed_before(times, placed[a], placed[b]));
            }
        }
        assert forall|x: int| after.contains(x) <==> (order.contains(x) || x == i) by {
            if after.contains(x) {
                let k = choose|k: int| 0 <= k < after.len() && after[k] == x;
                if k < placed.len() {
                    assert(placed[k] == x);
                    assert(placed.contains(x));
                    if x != i {
                        assert(rest.contains(x));
                        let m = choose|m: int| 0 <= m < rest.len() && rest[m] == x;
                        assert(order[m] == x);
                        assert(order.contains(x));
                    }
                } else {
                    assert(order[order.len() - 1] == x);
                    assert(order.contains(x));
                }
            }
            if order.contains(x) {
                let m = choose|m: int| 0 <= m < order.len() && order[m] == x;
                if m < rest.len() {
                    assert(rest[m] == x);
                    assert(rest.contains(x));
                    assert(placed.contains(x));
                    let k = choose|k: int| 0 <= k < placed.len() && placed[k] == x;
                    assert(after[k] == x);
                    assert(after.contains(x));
                } else {
                    assert(after[placed.len() as int] == x);
                    assert(after.contains(x));
                }
            }
            if x == i {
                assert(placed.contains(i));
                let k = choose|k: int| 0 <= k < placed.len() && placed[k] == i;
                assert(after[k] == i);
                assert(after.contains(x));
            }
        }
    }
}

/// The order in which nodes are placed holds every node once, the later
/// node before the earlier one, and nodes of one time in the order in which
/// they stand in the list.
pub proof fn lemma_time_order_is_stable_and_complete(times: Seq<int>, n: nat)
    ensures
        time_order(times, n).len() == n,
        in_time_order(time_order(times, n), times),
        forall|x: int| #[trigger] time_order(times, n).contains(x) <==> 0 <= x < n,
    decreases n,
{
    if n > 0 {
        let before = time_order(times, (n - 1) as nat);
        lemma_time_order_is_stable_and_complete(times, (n - 1) as nat);
        assert forall|k: int| 0 <= k < before.len() implies #[trigger] before[k] < n - 1 by {
            assert(before.contains(before[k]));
        }
        lemma_insert_keeps_time_order(before, times, n - 1);
        let after = time_order(times, n);
        assert forall|x: int| after.contains(x) <==> 0 <= x < n by {
            assert(after.contains(x) <==> (before.contains(x) || x == n - 1));
            assert(before.contains(x) <==> 0 <= x < n - 1);
        }
    }
}

/// The author times of the nodes, by node index.
pub open spec fn times_of(nodes: Seq<DagNodeView>) -> Seq<int> {
    Seq::new(nodes.len(), |i: int| nodes[i].timestamp)
}

/// The ids of the parents of the commit `id`, in the order of the edge list.
pub open spec fn parents_of(edges: Seq<DagEdgeView>, id: Seq<char>) -> Seq<Seq<char>>
    decreases edges.len(),
{
    if edges.len() == 0 {
        Seq::empty()
    } else if edges.last().from_oid == id {
        parents_of(edges.drop_last(), id).push(edges.last().to_oid)
    } else {
        parents_of(edges.drop_last(), id)
    }
}

/// The pool and the lanes by node index after the first `k` nodes in time
/// order were placed. A node that was not placed yet has the lane it came with.
pub open spec fn lane_run(nodes: Seq<DagNodeView>, edges: Seq<DagEdgeView>, k: nat) -> (
    Slots,
    Seq<int>,
)
    decreases k,
{
    if k == 0 {
        (Seq::empty(), Seq::new(nodes.len(), |i: int| nodes[i].column as int))
    } else {
        let (slots, lanes) = lane_run(nodes, edges, (k - 1) as nat);
        let at = time_order(times_of(nodes), nodes.len())[k - 1];
        let (lane, next) = place(slots, nodes[at].oid, parents_of(edges, nodes[at].oid));
        (next, lanes.update(at, lane))
    }
}

/// The lane of every node, by node index, after the whole pass.
pub open spec fn lanes_of(nodes: Seq<DagNodeView>, edges: Seq<DagEdgeView>) -> Seq<int> {
    lane_run(nodes, edges, nodes.len()).1
}

/// The nodes with their lanes assigned; nothing else changes.
pub open spec fn laid_out(nodes: Seq<DagNodeView>, edges: Seq<DagEdgeView>) -> Seq<DagNodeView> {
    Seq::new(
        nodes.len(),
        |i: int| DagNodeView { column: lanes_of(nodes, edges)[i] as nat, ..nodes[i] },
    )
}

/// The views of a list of nodes, in order.
pub open spec fn node_views(nodes: Seq<DagNode>) -> Seq<DagNodeView> {
    Seq::new(nodes.len(), |i: int| nodes[i]@)
}

/// No id names two nodes.
pub open spec fn distinct_ids(nodes: Seq<DagNodeView>) -> bool {
    forall|i: int, j: int| 0 <= i < j < nodes.len() ==> nodes[i].oid != nodes[j].oid
}

/// Edge by edge, the graph's edge joins the nodes that the listed edge names.
pub open spec fn edges_match(
    nodes: Seq<DagNodeView>,
    edges: Seq<DagEdgeView>,
    links: Seq<(usize, usize)>,
) -> bool {
    &&& links.len() == edges.len()
    &&& forall|j: int|
        0 <= j < links.len() ==> {
            &&& #[trigger] links[j].0 < nodes.len()
            &&& links[j].1 < nodes.len()
            &&& nodes[links[j].0 as int].oid == edges[j].from_oid
            &&& nodes[links[j].1 as int].oid == edges[j].to_oid
        }
}

/// The graph `g` holds the topology of the nodes and edges: a node per
/// commit, weighted by its time, and an edge per listed edge.
pub open spec fn topology_of(
    nodes: Seq<DagNodeView>,
    edges: Seq<DagEdgeView>,
    g: Topology,
) -> bool {
    &&& graph_weights(g).len() == nodes.len()
    &&& forall|i: int| 0 <= i < nodes.len() ==> graph_weights(g)[i] as int == nodes[i].timestamp
    &&& distinct_ids(nodes)
    &&& edges_match(nodes, edges, graph_edges(g))
}

/// After any number of placements, no two slots await the same id.
pub proof fn lemma_lanes_never_share_an_id(
    nodes: Seq<DagNodeView>,
    edges: Seq<DagEdgeView>,
    k: nat,
)
    ensures
        distinct_awaits(lane_run(nodes, edges, k).0),
    decreases k,
{
    if k > 0 {
        lemma_lanes_never_share_an_id(nodes, edges, (k - 1) as nat);
        let (slots, lanes) = lane_run(nodes, edges, (k - 1) as nat);
        let at = time_order(times_of(nodes), nodes.len())[k - 1];
        lemma_place_distinct(slots, nodes[at].oid, parents_of(edges, nodes[at].oid));
    }
}

/// Some node has the id `id`.
pub open spec fn names_a_node(nodes: Seq<DagNodeView>, id: Seq<char>) -> bool {
    exists|k: int| 0 <= k < nodes.len() && (#[trigger] nodes[k]).oid == id
}

/// Every edge ends at a node.
pub open spec fn edges_end_at_nodes(nodes: Seq<DagNodeView>, edges: Seq<DagEdgeView>) -> bool {
    forall|j: int| 0 <= j < edges.len() ==> names_a_node(nodes, (#[trigger] edges[j]).to_oid)
}

/// The pool fits the nodes: no two slots await the same id, every id that
/// is awaited is a node's, and the slots are no more than the nodes.
pub open spec fn pool_fits(slots: Slots, nodes: Seq<DagNodeView>) -> bool {
    &&& distinct_awaits(slots)
    &&& forall|i: int|
        0 <= i < slots.len() && (#[trigger] slots[i]) is Some ==> names_a_node(nodes, slots[i]->0)
    &&& slots.len() <= nodes.len()
}

/// A pool of which every slot awaits a node, and none the node `id`, has
/// fewer slots than there are nodes.
proof fn lemma_full_pool_leaves_room(slots: Slots, nodes: Seq<DagNodeView>, id: Seq<char>)
    requires
        pool_fits(slots, nodes),
        names_a_node(nodes, id),
        forall|i: int|
            0 <= i < slots.len() ==> (#[trigger] slots[i]) is Some && slots[i] != Some(id),
    ensures
        slots.len() < nodes.len(),
{
    broadcast use vstd::seq_lib::seq_to_set_is_finite;
    broadcast use vstd::set::group_set_axioms;

    let awaited_ids = Seq::new(slots.len(), |i: int| slots[i]->0);
    let node_ids = Seq::new(nodes.len(), |k: int| nodes[k].oid);
    assert(awaited_ids.no_duplicates()) by {
        assert forall|i: int, j: int|
            0 <= i < awaited_ids.len() && 0 <= j < awaited_ids.len() && i != j
            implies awaited_ids[i] != awaited_ids[j] by {
            assert(slots[i] is Some && slots[j] is Some);
            if i < j {
                assert(slots[i] != slots[j]);
            } else {
                assert(slots[j] != slots[i]);
            }
        }
    }
    awaited_ids.unique_seq_to_set();
    node_ids.lemma_cardinality_of_set();
    assert(!awaited_ids.to_set().contains(id)) by {
        if awaited_ids.contains(id) {
            let i = choose|i: int| 0 <= i < awaited_ids.len() && awaited_ids[i] == id;
            assert(slots[i] is Some && slots[i] != Some(id));
        }
    }
    let with_id = awaited_ids.to_set().insert(id);
    assert(with_id.subset_of(node_ids.to_set())) by {
        assert forall|x: Seq<char>| with_id.contains(x) implies node_ids.to_set().contains(x) by {
            if x != id {
                assert(awaited_ids.contains(x));
                let i = choose|i: int| 0 <= i < awaited_ids.len() && awaited_ids[i] == x;
                assert(slots[i] is Some);
                assert(names_a_node(nodes, slots[i]->0));
            }
            assert(names_a_node(nodes, x));
            let k = choose|k: int| 0 <= k < nodes.len() && (#[trigger] nodes[k]).oid == x;
            assert(node_ids[k] == x);
            assert(node_ids.contains(x));
        }
    }
    vstd::set_lib::lemma_len_subset(with_id, node_ids.to_set());
}

/// Taking a lane for a node keeps the pool fitting the nodes.
proof fn lemma_take_lane_fits(slots: Slots, nodes: Seq<DagNodeView>, id: Seq<char>)
    requires
        pool_fits(slots, nodes),
        names_a_node(nodes, id),
    ensures
        pool_fits(take_lane(slots, id).1, nodes),
{
    lemma_first_slot(slots, Some(id), 0);
    lemma_first_slot(slots, None, 0);
    lemma_take_lane_distinct(slots, id);
    let waiting = first_slot(slots, Some(id), 0);
    let free = first_slot(slots, None, 0);
    let taken = take_lane(slots, id).1;
    if waiting >= slots.len() && free >= slots.len() {
        assert forall|i: int| 0 <= i < slots.len() implies (#[trigger] slots[i]) is Some && slots[i]
            != Some(id) by {
            assert(slots[i] != None::<Seq<char>>);
        }
        lemma_full_pool_leaves_room(slots, nodes, id);
    }
    assert forall|i: int|
        0 <= i < taken.len() && (#[trigger] taken[i]) is Some implies names_a_node(
        nodes,
        taken[i]->0,
    ) by {
        assert(i < slots.len() && taken[i] == slots[i]);
    }
}

/// The claim of a parent that is a node keeps the pool fitting the nodes.
proof fn lemma_claim_fits(
    slots: Slots,
    nodes: Seq<DagNodeView>,
    parent: Seq<char>,
    lane: int,
    first: bool,
)
    requires
        pool_fits(slots, nodes),
        names_a_node(nodes, parent),
    ensures
        pool_fits(claim(slots, parent, lane, first), nodes),
{
    lemma_first_slot(slots, Some(parent), 0);
    lemma_first_slot(slots, None, 0);
    lemma_claim_distinct(slots, parent, lane, first);
    let free = first_slot(slots, None, 0);
    let after = claim(slots, parent, lane, first);
    if !awaited(slots, parent) && !(first && 0 <= lane < slots.len()) && free >= slots.len() {
        assert forall|i: int| 0 <= i < slots.len() implies (#[trigger] slots[i]) is Some && slots[i]
            != Some(parent) by {
            assert(slots[i] != None::<Seq<char>>);
        }
        lemma_full_pool_leaves_room(slots, nodes, parent);
    }
    assert forall|i: int|
        0 <= i < after.len() && (#[trigger] after[i]) is Some implies names_a_node(
        nodes,
        after[i]->0,
    ) by {
        if i < slots.len() && after[i] == slots[i] {
        } else {
            assert(after[i] == Some(parent));
        }
    }
}

/// The claims of parents that are nodes keep the pool fitting the nodes.
proof fn lemma_claim_all_fits(
    slots: Slots,
    nodes: Seq<DagNodeView>,
    parents: Seq<Seq<char>>,
    lane: int,
)
    requires
        pool_fits(slots, nodes),
        forall|c: int| 0 <= c < parents.len() ==> names_a_node(nodes, #[trigger] parents[c]),
    ensures
        pool_fits(claim_all(slots, parents, lane), nodes),
    decreases parents.len(),
{
    if parents.len() > 0 {
        assert forall|c: int| 0 <= c < parents.drop_last().len() implies names_a_node(
            nodes,
            #[trigger] parents.drop_last()[c],
        ) by {
            assert(names_a_node(nodes, parents[c]));
        }
        lemma_claim_all_fits(slots, nodes, parents.drop_last(), lane);
        assert(names_a_node(nodes, parents[parents.len() - 1]));
        lemma_claim_fits(
            claim_all(slots, parents.drop_last(), lane),
            nodes,
            parents.last(),
            lane,
            parents.len() == 1,
        );
    }
}

/// Where every edge ends at a node, the parents of a commit are nodes.
proof fn lemma_parents_are_nodes(nodes: Seq<DagNodeView>, edges: Seq<DagEdgeView>, id: Seq<char>)
    requires
        edges_end_at_nodes(nodes, edges),
    ensures
        forall|c: int|
            0 <= c < parents_of(edges, id).len() ==> names_a_node(
                nodes,
                #[trigger] parents_of(edges, id)[c],
            ),
    decreases edges.len(),
{
    if edges.len() > 0 {
        assert(edges_end_at_nodes(nodes, edges.drop_last())) by {
            assert forall|j: int| 0 <= j < edges.drop_last().len() implies names_a_node(
                nodes,
                (#[trigger] edges.drop_last()[j]).to_oid,
            ) by {
                assert(names_a_node(nodes, edges[j].to_oid));
            }
        }
        lemma_parents_are_nodes(nodes, edges.drop_last(), id);
        assert(names_a_node(nodes, edges[edges.len() - 1].to_oid));
        let before = parents_of(edges.drop_last(), id);
        assert forall|c: int| 0 <= c < parents_of(edges, id).len() implies names_a_node(
            nodes,
            #[trigger] parents_of(edges, id)[c],
        ) by {
            if c < before.len() {
                assert(names_a_node(nodes, before[c]));
            }
        }
    }
}

/// Where every edge ends at a node, the pool never has more slots than
/// there are nodes. So every node that was placed has a lane below the
/// number of nodes, and the node that was placed first has lane 0.
pub proof fn lemma_lanes_stay_below_the_node_count(
    nodes: Seq<DagNodeView>,
    edges: Seq<DagEdgeView>,
    k: nat,
)
    requires
        k <= nodes.len(),
        edges_end_at_nodes(nodes, edges),
    ensures
        pool_fits(lane_run(nodes, edges, k).0, nodes),
        lane_run(nodes, edges, k).1.len() == nodes.len(),
        forall|m: int|
            0 <= m < k ==> 0 <= lane_run(nodes, edges, k).1[#[trigger] time_order(
                times_of(nodes),
                nodes.len(),
            )[m]] < nodes.len(),
        k >= 1 ==> lane_run(nodes, edges, k).1[time_order(times_of(nodes), nodes.len())[0]] == 0,
    decreases k,
{
    let order = time_order(times_of(nodes), nodes.len());
    if k > 0 {
        lemma_lanes_stay_below_the_node_count(nodes, edges, (k - 1) as nat);
        lemma_time_order_is_stable_and_complete(times_of(nodes), nodes.len());
        let (slots, lanes) = lane_run(nodes, edges, (k - 1) as nat);
        let at = order[k - 1];
        assert(order.contains(at));
        let id = nodes[at].oid;
        let parents = parents_of(edges, id);
        let (lane, taken) = take_lane(slots, id);
        lemma_parents_are_nodes(nodes, edges, id);
        lemma_take_lane_in_range(slots, id);
        lemma_take_lane_fits(slots, nodes, id);
        lemma_claim_all_fits(taken, nodes, parents, lane);
        let after = lane_run(nodes, edges, k).1;
        assert(after == lanes.update(at, lane));
        assert forall|m: int| 0 <= m < k implies 0 <= after[#[trigger] order[m]] < nodes.len() by {
            if m < k - 1 {
                assert(placed_before(times_of(nodes), order[m], order[k - 1]));
                assert(order.contains(order[m]));
            }
        }
        if k == 1 {
            lemma_first_slot(slots, Some(id), 0);
            lemma_first_slot(slots, None, 0);
        } else {
            assert(placed_before(times_of(nodes), order[0], order[k - 1]));
            assert(order.contains(order[0]));
        }
    }
}

/// Where every edge ends at a node, every lane is below the number of nodes.
pub proof fn lemma_every_lane_is_below_the_node_count(
    nodes: Seq<DagNodeView>,
    edges: Seq<DagEdgeView>,
)
    requires
        edges_end_at_nodes(nodes, edges),
    ensures
        forall|i: int|
            0 <= i < nodes.len() ==> 0 <= #[trigger] lanes_of(nodes, edges)[i] < nodes.len(),
{
    let order = time_order(times_of(nodes), nodes.len());
    lemma_lanes_stay_below_the_node_count(nodes, edges, nodes.len());
    lemma_time_order_is_stable_and_complete(times_of(nodes), nodes.len());
    assert forall|i: int| 0 <= i < nodes.len() implies 0 <= #[trigger] lanes_of(nodes, edges)[i]
        < nodes.len() by {
        assert(order.contains(i));
        let m = choose|m: int| 0 <= m < order.len() && order[m] == i;
        assert(0 <= lane_run(nodes, edges, nodes.len()).1[order[m]] < nodes.len());
    }
}

/// Where the insertion puts `i`: at `j`, when every index from `j` on is
/// earlier than `i` and the index before `j` is not.
proof fn lemma_insert_position(order: Seq<int>, times: Seq<int>, i: int, j: int)
    requires
        0 <= j <= order.len(),
        forall|k: int| j <= k < order.len() ==> times[order[k]] < times[i],
        j > 0 ==> times[order[j - 1]] >= times[i],
    ensures
        insert_by_time(order, times, i) == order.insert(j, i),
    decreases order.len(),
{
    if order.len() == 0 {
        assert(seq![i] =~= order.insert(j, i));
    } else if j == order.len() {
        assert(order.push(i) =~= order.insert(j, i));
    } else {
        lemma_insert_position(order.drop_last(), times, i, j);
        assert(order.drop_last().insert(j, i).push(order.last()) =~= order.insert(j, i));
    }
}

/// The parents that the graph gives for a node are the parents that the
/// edge list names for its id.
proof fn lemma_parents_match(
    nodes: Seq<DagNodeView>,
    edges: Seq<DagEdgeView>,
    links: Seq<(usize, usize)>,
    at: usize,
)
    requires
        distinct_ids(nodes),
        edges_match(nodes, edges, links),
        at < nodes.len(),
    ensures
        targets_from(links, at).len() == parents_of(edges, nodes[at as int].oid).len(),
        forall|c: int|
            0 <= c < targets_from(links, at).len() ==> {
                &&& #[trigger] targets_from(links, at)[c] < nodes.len()
                &&& nodes[targets_from(links, at)[c] as int].oid == parents_of(
                    edges,
                    nodes[at as int].oid,
                )[c]
            },
    decreases links.len(),
{
    if links.len() > 0 {
        assert(edges_match(nodes, edges.drop_last(), links.drop_last())) by {
            assert forall|j: int| 0 <= j < links.drop_last().len() implies {
                &&& #[trigger] links.drop_last()[j].0 < nodes.len()
                &&& links.drop_last()[j].1 < nodes.len()
                &&& nodes[links.drop_last()[j].0 as int].oid == edges.drop_last()[j].from_oid
                &&& nodes[links.drop_last()[j].1 as int].oid == edges.drop_last()[j].to_oid
            } by {
                assert(links[j].0 < nodes.len());
            }
        }
        lemma_parents_match(nodes, edges.drop_last(), links.drop_last(), at);
        let last = links.len() - 1;
        assert(links[last].0 < nodes.len());
        assert((links.last().0 == at) == (edges.last().from_oid == nodes[at as int].oid));
    }
}

/// The node is what it was, but for its lane.
pub open spec fn same_but_lane(node: DagNode, was: DagNodeView) -> bool {
    node@ == (DagNodeView { column: node@.column, ..was })
}

/// A list of indices as mathematical integers.
pub open spec fn as_ints(indices: Seq<usize>) -> Seq<int> {
    Seq::new(indices.len(), |i: int| indices[i] as int)
}

/// The author times that a graph holds, as mathematical integers.
pub open spec fn weight_times(weights: Seq<i64>) -> Seq<int> {
    Seq::new(weights.len(), |i: int| weights[i] as int)
}

/// The nodes of the graph by time, latest first; ties keep the node order.
fn time_order_of(g: &Topology) -> (order: Vec<usize>)
    ensures
        order@.len() == graph_weights(*g).len(),
        forall|k: int| 0 <= k < order@.len() ==> order@[k] < graph_weights(*g).len(),
        as_ints(order@) == time_order(weight_times(graph_weights(*g)), graph_weights(*g).len()),
{
    let n = node_count(g);
    let ghost times = weight_times(graph_weights(*g));
    let mut order: Vec<usize> = Vec::new();
    let mut i: usize = 0;
    while i < n
        invariant
            i <= n == graph_weights(*g).len(),
            times == weight_times(graph_weights(*g)),
            order@.len() == i,
            forall|k: int| 0 <= k < order@.len() ==> order@[k] < i,
            as_ints(order@) == time_order(times, i as nat),
        decreases n - i,
    {
        let t = node_weight(g, i);
        let mut j: usize = order.len();
        while j > 0 && node_weight(g, order[j - 1]) < t
            invariant
                j <= order@.len() == i < n == graph_weights(*g).len(),
                times == weight_times(graph_weights(*g)),
                t == graph_weights(*g)[i as int],
                forall|k: int| 0 <= k < order@.len() ==> order@[k] < i,
                forall|k: int| j <= k < order@.len() ==> times[order@[k] as int] < times[i as int],
            decreases j,
        {
            j -= 1;
        }
        proof {
            lemma_insert_position(as_ints(order@), times, i as int, j as int);
            assert(as_ints(order@.insert(j as int, i)) =~= as_ints(order@).insert(
                j as int,
                i as int,
            ));
        }
        order.insert(j, i);
        i += 1;
    }
    order
}

/// Assigns every node its lane, in place. The graph gives the order (by its
/// weights) and each node's parents (by its edges).
pub(crate) fn assign_lanes(
    nodes: &mut Vec<DagNode>,
    g: &Topology,
    Ghost(edges): Ghost<Seq<DagEdgeView>>,
)
    requires
        topology_of(node_views(old(nodes)@), edges, *g),
    ensures
        node_views(final(nodes)@) == laid_out(node_views(old(nodes)@), edges),
{
    let n = nodes.len();
    let ghost before = node_views(nodes@);
    let ghost links = graph_edges(*g);
    let order = time_order_of(g);
    assert(weight_times(graph_weights(*g)) =~= times_of(before));
    let mut slots: Vec<Option<String>> = Vec::new();
    let mut k: usize = 0;
    assert(slot_views(slots@) =~= Seq::empty());
    while k < n
        invariant
            k <= n == nodes@.len() == order@.len() == before.len(),
            links == graph_edges(*g),
            topology_of(before, edges, *g),
            as_ints(order@) == time_order(times_of(before), n as nat),
            forall|m: int| 0 <= m < n ==> order@[m] < n,
            slot_views(slots@) == lane_run(before, edges, k as nat).0,
            lane_run(before, edges, k as nat).1.len() == n,
            forall|i: int|
                0 <= i < n ==> same_but_lane(#[trigger] nodes@[i], before[i]) && nodes@[i].column
                    as int == lane_run(before, edges, k as nat).1[i],
        decreases n - k,
    {
        let at = order[k];
        assert(as_ints(order@)[k as int] == at);
        let id = nodes[at].oid.clone();
        assert(nodes@[at as int]@.oid == before[at as int].oid);
        let lane = take_lane_in(&mut slots, &id);
        let ghost placed = nodes@;
        nodes[at].column = lane;
        assert forall|i: int| 0 <= i < n implies same_but_lane(#[trigger] nodes@[i], before[i])
            && nodes@[i].column as int == lane_run(before, edges, (k + 1) as nat).1[i] by {
            assert(same_but_lane(placed[i], before[i]));
        }
        let targets = neighbors(g, at);
        let ghost parents = parents_of(edges, id@);
        let ghost taken = slot_views(slots@);
        let ghost from = targets_from(links, at);
        proof {
            lemma_parents_match(before, edges, links, at);
        }
        let mut c: usize = 0;
        while c < targets.len()
            invariant
                c <= targets@.len() == parents.len() == from.len(),
                targets@ == from.reverse(),
                nodes@.len() == n == before.len(),
                forall|x: int|
                    0 <= x < from.len() ==> #[trigger] from[x] < n && before[from[x] as int].oid
                        == parents[x],
                forall|i: int| 0 <= i < n ==> same_but_lane(#[trigger] nodes@[i], before[i]),
                forall|i: int|
                    0 <= i < n ==> (#[trigger] nodes@[i]).column as int == lane_run(
                        before,
                        edges,
                        (k + 1) as nat,
                    ).1[i],
                slot_views(slots@) == claim_all(taken, parents.take(c as int), lane as int),
            decreases targets@.len() - c,
        {
            let t = targets[targets.len() - 1 - c];
            assert(t == from[c as int]);
            assert(from[c as int] < n);
            claim_in(&mut slots, &nodes[t].oid, lane, c == 0);
            proof {
                assert(parents.take(c + 1).drop_last() =~= parents.take(c as int));
            }
            c += 1;
        }
        proof {
            assert(parents.take(parents.len() as int) =~= parents);
        }
        k += 1;
    }
    assert(node_views(nodes@) =~= laid_out(before, edges));
}

} // verus!
