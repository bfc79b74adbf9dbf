//! The commit graph: a bounded, deduplicated piece of history with its ref
//! labels attached and its lanes assigned.

use vstd::prelude::*;
use crate::graph::{add_edge, add_node, empty_graph, graph_edges, graph_weights, Topology};
use crate::lanes::{
    assign_lanes, distinct_ids, edges_end_at_nodes, edges_match, laid_out, lanes_of,
    lemma_every_lane_is_below_the_node_count, names_a_node, node_views, topology_of,
};
use crate::log::{author_name, author_time, parse_author_info, short_id, short_id_of};
use crate::oid::{tip_ids, tips_of};
use crate::store::{raw_views, RawCommit, RawCommitView};
use crate::text::same_text;
use crate::types::{
    ref_views, string_views, CommitDag, CommitDagView, DagEdge, DagEdgeView, DagNode, DagNodeView,
    RefInfo, RefInfoView,
};

verus! {

/// Some commit of the list has the id `id`.
pub open spec fn has_commit(commits: Seq<RawCommitView>, id: Seq<char>) -> bool {
    exists|i: int| 0 <= i < commits.len() && (#[trigger] commits[i]).id == id
}

/// No id names two commits of the list.
pub open spec fn distinct_commits(commits: Seq<RawCommitView>) -> bool {
    forall|a: int, b: int|
        0 <= a < b < commits.len() ==> (#[trigger] commits[a]).id != (#[trigger] commits[b]).id
}

/// The walk without the commits whose id came before: of each id, the
/// first commit stays.
pub open spec fn first_visits(walk: Seq<RawCommitView>) -> Seq<RawCommitView>
    decreases walk.len(),
{
    if walk.len() == 0 {
        Seq::empty()
    } else if has_commit(first_visits(walk.drop_last()), walk.last().id) {
        first_visits(walk.drop_last())
    } else {
        first_visits(walk.drop_last()).push(walk.last())
    }
}

/// The commits that become nodes: the first `max` of the walk's distinct
/// commits, or all of them where they are fewer.
pub open spec fn visited(walk: Seq<RawCommitView>, max: nat) -> Seq<RawCommitView> {
    if first_visits(walk).len() <= max {
        first_visits(walk)
    } else {
        first_visits(walk).take(max as int)
    }
}

/// The refs whose target is exactly `id`, in the order of the refs.
pub open spec fn labels_of(refs: Seq<RefInfoView>, id: Seq<char>) -> Seq<RefInfoView>
    decreases refs.len(),
{
    if refs.len() == 0 {
        Seq::empty()
    } else if refs.last().target_oid == id {
        labels_of(refs.drop_last(), id).push(refs.last())
    } else {
        labels_of(refs.drop_last(), id)
    }
}

/// The node of a commit, before lanes are assigned: the name and the time
/// are the author's, and the labels are the refs that point at the commit.
/// An author text that is no whole signature is the name as it stands, with
/// time 0.
pub open spec fn node_of(commit: RawCommitView, refs: Seq<RefInfoView>) -> DagNodeView {
    DagNodeView {
        oid: commit.id,
        short_oid: short_id(commit.id),
        message: commit.message,
        author_name: author_name(commit.author_raw),
        timestamp: author_time(commit.author_raw) as int,
        refs: labels_of(refs, commit.id),
        column: 0,
    }
}

/// The nodes of a list of commits, in order.
pub open spec fn nodes_of(commits: Seq<RawCommitView>, refs: Seq<RefInfoView>) -> Seq<
    DagNodeView,
> {
    Seq::new(commits.len(), |i: int| node_of(commits[i], refs))
}

/// The edges from `child` to those of its first `k` parents that are among
/// the commits, in the order in which the child names them.
pub open spec fn parent_edges(commits: Seq<RawCommitView>, child: RawCommitView, k: nat) -> Seq<
    DagEdgeView,
>
    decreases k,
{
    if k == 0 {
        Seq::empty()
    } else if has_commit(commits, child.parent_ids[k - 1]) {
        parent_edges(commits, child, (k - 1) as nat).push(
            DagEdgeView { from_oid: child.id, to_oid: child.parent_ids[k - 1] },
        )
    } else {
        parent_edges(commits, child, (k - 1) as nat)
    }
}

/// The edges of the first `n` commits: commit by commit, an edge to each
/// parent that is among the commits. A parent outside them gives no edge.
pub open spec fn edges_among(commits: Seq<RawCommitView>, n: nat) -> Seq<DagEdgeView>
    decreases n,
{
    if n == 0 {
        Seq::empty()
    } else {
        edges_among(commits, (n - 1) as nat) + parent_edges(
            commits,
            commits[n - 1],
            commits[n - 1].parent_ids.len(),
        )
    }
}

/// The graph of a walk: a node for each of the first `max_commits` distinct
/// commits, in walk order, the edges among them, and a lane for every node.
/// Refs of which none points at an object id give the empty graph.
pub open spec fn commit_dag(
    refs: Seq<RefInfoView>,
    walk: Seq<RawCommitView>,
    max_commits: nat,
) -> CommitDagView {
    let commits = visited(walk, max_commits);
    let edges = edges_among(commits, commits.len());
    if tips_of(refs).len() == 0 {
        CommitDagView { nodes: Seq::empty(), edges: Seq::empty() }
    } else {
        CommitDagView { nodes: laid_out(nodes_of(commits, refs), edges), edges }
    }
}

/// Some node has the id `id`.
pub open spec fn has_node(nodes: Seq<DagNodeView>, id: Seq<char>) -> bool {
    exists|i: int| 0 <= i < nodes.len() && (#[trigger] nodes[i]).oid == id
}

/// A graph is well formed when no id names two of its nodes and every edge
/// joins two of its nodes.
pub open spec fn well_formed(dag: CommitDagView) -> bool {
    &&& distinct_ids(dag.nodes)
    &&& forall|j: int|
        0 <= j < dag.edges.len() ==> has_node(dag.nodes, (#[trigger] dag.edges[j]).from_oid)
            && has_node(dag.nodes, dag.edges[j].to_oid)
}

/// The distinct commits of a beginning of the walk are a beginning of the
/// distinct commits of the walk.
pub proof fn lemma_first_visits_prefix(walk: Seq<RawCommitView>, i: int)
    requires
        0 <= i <= walk.len(),
    ensures
        first_visits(walk.take(i)).len() <= first_visits(walk).len(),
        first_visits(walk.take(i)) == first_visits(walk).take(
            first_visits(walk.take(i)).len() as int,
        ),
    decreases walk.len(),
{
    if i == walk.len() {
        assert(walk.take(i) =~= walk);
        assert(first_visits(walk) =~= first_visits(walk).take(first_visits(walk).len() as int));
    } else {
        lemma_first_visits_prefix(walk.drop_last(), i);
        assert(walk.drop_last().take(i) =~= walk.take(i));
        let part = first_visits(walk.take(i));
        assert(part =~= first_visits(walk).take(part.len() as int));
    }
}

/// No id names two of the distinct commits of a walk, and they are no more
/// than the commits of the walk.
pub proof fn lemma_first_visits_distinct(walk: Seq<RawCommitView>)
    ensures
        distinct_commits(first_visits(walk)),
        first_visits(walk).len() <= walk.len(),
    decreases walk.len(),
{
    if walk.len() > 0 {
        lemma_first_visits_distinct(walk.drop_last());
    }
}

/// A walk in which no commit comes twice is kept as it is.
pub proof fn lemma_distinct_walk_is_kept(walk: Seq<RawCommitView>)
    requires
        distinct_commits(walk),
    ensures
        first_visits(walk) == walk,
    decreases walk.len(),
{
    if walk.len() > 0 {
        lemma_distinct_walk_is_kept(walk.drop_last());
        assert(!has_commit(walk.drop_last(), walk.last().id)) by {
            if has_commit(walk.drop_last(), walk.last().id) {
                let w = choose|w: int|
                    0 <= w < walk.drop_last().len() && (#[trigger] walk.drop_last()[w]).id
                        == walk.last().id;
                assert(walk[w].id != walk[walk.len() - 1].id);
            }
        }
        assert(walk.drop_last().push(walk.last()) =~= walk);
    }
}

/// The graph of a walk is the graph of the commits that become its nodes:
/// who reads the walk may stop where the nodes are complete, and may leave
/// out what came before.
pub proof fn lemma_graph_needs_only_its_commits(
    refs: Seq<RefInfoView>,
    walk: Seq<RawCommitView>,
    max_commits: nat,
)
    ensures
        visited(visited(walk, max_commits), max_commits) == visited(walk, max_commits),
        commit_dag(refs, visited(walk, max_commits), max_commits) == commit_dag(
            refs,
            walk,
            max_commits,
        ),
{
    let kept = visited(walk, max_commits);
    lemma_first_visits_distinct(walk);
    assert(distinct_commits(kept)) by {
        assert forall|a: int, b: int| 0 <= a < b < kept.len() implies (#[trigger] kept[a]).id != (
        #[trigger] kept[b]).id by {
            assert(kept[a] == first_visits(walk)[a]);
            assert(kept[b] == first_visits(walk)[b]);
        }
    }
    lemma_distinct_walk_is_kept(kept);
}

/// Whether the commits read so far are as many as the graph takes.
pub fn has_enough(collected: &Vec<RawCommit>, max_commits: usize) -> (enough: bool)
    ensures
        enough == (collected@.len() >= max_commits),
{
    collected.len() >= max_commits
}

/// The first node with the id `id`, or the number of nodes.
fn find_node(nodes: &Vec<DagNode>, id: &str) -> (index: usize)
    ensures
        index <= nodes@.len(),
        index < nodes@.len() ==> nodes@[index as int].oid@ == id@,
        forall|k: int| 0 <= k < index ==> (#[trigger] nodes@[k]).oid@ != id@,
{
    let mut i: usize = 0;
    while i < nodes.len()
        invariant
            i <= nodes@.len(),
            forall|k: int| 0 <= k < i ==> (#[trigger] nodes@[k]).oid@ != id@,
        decreases nodes@.len() - i,
    {
        if same_text(nodes[i].oid.as_str(), id) {
            return i;
        }
        i += 1;
    }
    i
}

/// Whether some commit of the list has the id `id`.
pub fn holds_commit(commits: &Vec<RawCommit>, id: &str) -> (held: bool)
    ensures
        held == has_commit(raw_views(commits@), id@),
{
    let mut i: usize = 0;
    while i < commits.len()
        invariant
            i <= commits@.len(),
            forall|k: int| 0 <= k < i ==> (#[trigger] raw_views(commits@)[k]).id != id@,
        decreases commits@.len() - i,
    {
        if same_text(commits[i].id.as_str(), id) {
            assert(raw_views(commits@)[i as int].id == id@);
            return true;
        }
        i += 1;
    }
    false
}

/// The refs that point at `id`, in the order of the refs.
pub fn labels_for(refs: &Vec<RefInfo>, id: &str) -> (labels: Vec<RefInfo>)
    ensures
        ref_views(labels@) == labels_of(ref_views(refs@), id@),
{
    let mut labels: Vec<RefInfo> = Vec::new();
    let mut i: usize = 0;
    assert(ref_views(refs@).take(0) =~= Seq::empty());
    assert(ref_views(labels@) =~= Seq::empty());
    while i < refs.len()
        invariant
            i <= refs@.len(),
            ref_views(labels@) == labels_of(ref_views(refs@).take(i as int), id@),
        decreases refs@.len() - i,
    {
        let ghost seen = ref_views(refs@).take(i + 1);
        assert(seen.drop_last() =~= ref_views(refs@).take(i as int));
        assert(seen.last() == refs@[i as int]@);
        if same_text(refs[i].target_oid.as_str(), id) {
            let ghost was = ref_views(labels@);
            labels.push(refs[i].clone());
            assert(ref_views(labels@) =~= was.push(refs@[i as int]@));
        }
        i += 1;
    }
    assert(ref_views(refs@).take(refs@.len() as int) =~= ref_views(refs@));
    labels
}

/// The node of a commit, before lanes are assigned.
pub fn make_node(commit: &RawCommit, refs: &Vec<RefInfo>) -> (node: DagNode)
    ensures
        node@ == node_of(commit@, ref_views(refs@)),
{
    let author = parse_author_info(commit.author_raw.as_str());
    DagNode {
        oid: commit.id.clone(),
        short_oid: short_id_of(commit.id.as_str()),
        message: commit.message.clone(),
        author_name: author.0,
        timestamp: author.1,
        refs: labels_for(refs, commit.id.as_str()),
        column: 0,
    }
}

/// In a well-formed graph every lane is below the number of nodes.
pub proof fn lemma_lanes_of_a_graph_are_below_its_size(dag: CommitDagView)
    requires
        well_formed(dag),
    ensures
        forall|i: int|
            0 <= i < dag.nodes.len() ==> 0 <= #[trigger] lanes_of(dag.nodes, dag.edges)[i]
                < dag.nodes.len(),
{
    assert(edges_end_at_nodes(dag.nodes, dag.edges)) by {
        assert forall|j: int| 0 <= j < dag.edges.len() implies names_a_node(
            dag.nodes,
            (#[trigger] dag.edges[j]).to_oid,
        ) by {
            assert(has_node(dag.nodes, dag.edges[j].to_oid));
            let k = choose|k: int|
                0 <= k < dag.nodes.len() && (#[trigger] dag.nodes[k]).oid == dag.edges[j].to_oid;
            assert(dag.nodes[k].oid == dag.edges[j].to_oid);
        }
    }
    lemma_every_lane_is_below_the_node_count(dag.nodes, dag.edges);
}

/// The views of a list of edges, in order.
pub open spec fn edge_views(edges: Seq<DagEdge>) -> Seq<DagEdgeView> {
    Seq::new(edges.len(), |i: int| edges[i]@)
}

/// Edges that a graph holds node for node join nodes of the list.
proof fn lemma_matched_edges_are_closed(
    nodes: Seq<DagNodeView>,
    edges: Seq<DagEdgeView>,
    links: Seq<(usize, usize)>,
)
    requires
        edges_match(nodes, edges, links),
    ensures
        forall|j: int|
            0 <= j < edges.len() ==> has_node(nodes, (#[trigger] edges[j]).from_oid) && has_node(
                nodes,
                edges[j].to_oid,
            ),
{
    assert forall|j: int| 0 <= j < edges.len() implies has_node(
        nodes,
        (#[trigger] edges[j]).from_oid,
    ) && has_node(nodes, edges[j].to_oid) by {
        assert(links[j].0 < nodes.len());
        assert(nodes[links[j].0 as int].oid == edges[j].from_oid);
        assert(nodes[links[j].1 as int].oid == edges[j].to_oid);
    }
}

/// Walks the commits and makes a node, in the list and in the graph, of
/// each distinct one until `max_commits` nodes exist. Returns the nodes and,
/// for each, the place of its commit in the walk.
fn collect_nodes(
    refs: &Vec<RefInfo>,
    walk: &Vec<RawCommit>,
    max_commits: usize,
    g: &mut Topology,
) -> (found: (Vec<DagNode>, Vec<usize>))
    requires
        graph_weights(*old(g)).len() == 0,
        graph_edges(*old(g)).len() == 0,
    ensures
        node_views(found.0@) == nodes_of(
            visited(raw_views(walk@), max_commits as nat),
            ref_views(refs@),
        ),
        found.1@.len() == found.0@.len(),
        forall|n: int|
            0 <= n < found.1@.len() ==> (#[trigger] found.1@[n]) < walk@.len()
                && walk@[found.1@[n] as int]@ == visited(raw_views(walk@), max_commits as nat)[n],
        graph_weights(*final(g)).len() == found.0@.len(),
        forall|n: int|
            0 <= n < found.0@.len() ==> graph_weights(*final(g))[n] == (
            #[trigger] found.0@[n]).timestamp,
        graph_edges(*final(g)).len() == 0,
{
    let ghost all = raw_views(walk@);
    let mut nodes: Vec<DagNode> = Vec::new();
    let mut kept: Vec<usize> = Vec::new();
    let mut i: usize = 0;
    assert(all.take(0) =~= Seq::empty());
    while i < walk.len() && nodes.len() < max_commits
        invariant
            i <= walk@.len(),
            all == raw_views(walk@),
            nodes@.len() == first_visits(all.take(i as int)).len(),
            nodes@.len() == kept@.len(),
            nodes@.len() <= max_commits,
            forall|n: int|
                0 <= n < kept@.len() ==> (#[trigger] kept@[n]) < i && all[kept@[n] as int]
                    == first_visits(all.take(i as int))[n],
            forall|n: int|
                0 <= n < nodes@.len() ==> (#[trigger] nodes@[n])@ == node_of(
                    first_visits(all.take(i as int))[n],
                    ref_views(refs@),
                ),
            graph_weights(*g).len() == nodes@.len(),
            forall|n: int|
                0 <= n < nodes@.len() ==> graph_weights(*g)[n] == (#[trigger] nodes@[n]).timestamp,
            graph_edges(*g).len() == 0,
        decreases walk@.len() - i,
    {
        let ghost seen = first_visits(all.take(i as int));
        let ghost next = all.take(i + 1);
        assert(next.drop_last() =~= all.take(i as int));
        assert(next.last() == walk@[i as int]@);
        let at = find_node(&nodes, walk[i].id.as_str());
        if at < nodes.len() {
            assert(nodes@[at as int]@.oid == seen[at as int].id);
            assert(has_commit(seen, next.last().id));
        } else {
            assert(!has_commit(seen, next.last().id)) by {
                if has_commit(seen, next.last().id) {
                    let w = choose|w: int|
                        0 <= w < seen.len() && (#[trigger] seen[w]).id == next.last().id;
                    assert(nodes@[w]@.oid == seen[w].id);
                }
            }
            let node = make_node(&walk[i], refs);
            let _ = add_node(g, node.timestamp);
            nodes.push(node);
            kept.push(i);
        }
        i += 1;
    }
    proof {
        let seen = first_visits(all.take(i as int));
        lemma_first_visits_prefix(all, i as int);
        if i == walk@.len() {
            assert(all.take(i as int) =~= all);
        }
        assert(seen =~= visited(all, max_commits as nat));
        assert(node_views(nodes@) =~= nodes_of(visited(all, max_commits as nat), ref_views(refs@)));
    }
    (nodes, kept)
}

/// Adds, for each node, an edge to each of its commit's parents that is a
/// node too, to the graph and to the list that is returned.
fn link_parents(
    nodes: &Vec<DagNode>,
    walk: &Vec<RawCommit>,
    kept: &Vec<usize>,
    g: &mut Topology,
    Ghost(commits): Ghost<Seq<RawCommitView>>,
    Ghost(refs): Ghost<Seq<RefInfoView>>,
) -> (edges: Vec<DagEdge>)
    requires
        node_views(nodes@) == nodes_of(commits, refs),
        kept@.len() == nodes@.len(),
        forall|n: int|
            0 <= n < kept@.len() ==> (#[trigger] kept@[n]) < walk@.len() && walk@[kept@[n] as int]@
                == commits[n],
        graph_weights(*old(g)).len() == nodes@.len(),
        graph_edges(*old(g)).len() == 0,
    ensures
        edge_views(edges@) == edges_among(commits, commits.len()),
        edges_match(node_views(nodes@), edge_views(edges@), graph_edges(*final(g))),
        graph_weights(*final(g)) == graph_weights(*old(g)),
{
    let mut edges: Vec<DagEdge> = Vec::new();
    let mut n: usize = 0;
    assert(commits.len() == nodes@.len()) by {
        assert(node_views(nodes@).len() == nodes@.len());
        assert(nodes_of(commits, refs).len() == commits.len());
    }
    assert(edge_views(edges@) =~= edges_among(commits, 0));
    while n < nodes.len()
        invariant
            n <= nodes@.len() == commits.len() == kept@.len(),
            node_views(nodes@) == nodes_of(commits, refs),
            forall|m: int|
                0 <= m < kept@.len() ==> (#[trigger] kept@[m]) < walk@.len()
                    && walk@[kept@[m] as int]@ == commits[m],
            graph_weights(*g) == graph_weights(*old(g)),
            graph_weights(*g).len() == nodes@.len(),
            edge_views(edges@) == edges_among(commits, n as nat),
            edges_match(node_views(nodes@), edge_views(edges@), graph_edges(*g)),
        decreases nodes@.len() - n,
    {
        let commit = &walk[kept[n]];
        assert(commit@ == commits[n as int]);
        let ghost so_far = edges_among(commits, n as nat);
        let mut k: usize = 0;
        assert(edge_views(edges@) =~= so_far + parent_edges(commits, commits[n as int], 0));
        while k < commit.parent_ids.len()
            invariant
                k <= commit.parent_ids@.len(),
                n < nodes@.len() == commits.len(),
                commit@ == commits[n as int],
                node_views(nodes@) == nodes_of(commits, refs),
                graph_weights(*g) == graph_weights(*old(g)),
                graph_weights(*g).len() == nodes@.len(),
                so_far == edges_among(commits, n as nat),
                edge_views(edges@) == so_far + parent_edges(commits, commits[n as int], k as nat),
                edges_match(node_views(nodes@), edge_views(edges@), graph_edges(*g)),
            decreases commit.parent_ids@.len() - k,
        {
            let parent = &commit.parent_ids[k];
            assert(commits[n as int].parent_ids[k as int] == parent@);
            let at = find_node(nodes, parent.as_str());
            if at < nodes.len() {
                assert(node_views(nodes@)[at as int].oid == commits[at as int].id);
                assert(has_commit(commits, parent@));
                let ghost was = edge_views(edges@);
                let ghost links = graph_edges(*g);
                add_edge(g, n, at);
                let edge = DagEdge { from_oid: nodes[n].oid.clone(), to_oid: parent.clone() };
                assert(node_views(nodes@)[n as int].oid == commits[n as int].id);
                edges.push(edge);
                assert(edge_views(edges@) =~= was.push(edge@));
                assert(edge_views(edges@) =~= so_far + parent_edges(
                    commits,
                    commits[n as int],
                    (k + 1) as nat,
                ));
                assert(edges_match(node_views(nodes@), edge_views(edges@), graph_edges(*g))) by {
                    let now = graph_edges(*g);
                    assert forall|j: int| 0 <= j < now.len() implies {
                        &&& #[trigger] now[j].0 < node_views(nodes@).len()
                        &&& now[j].1 < node_views(nodes@).len()
                        &&& node_views(nodes@)[now[j].0 as int].oid == edge_views(
                            edges@,
                        )[j].from_oid
                        &&& node_views(nodes@)[now[j].1 as int].oid == edge_views(
                            edges@,
                        )[j].to_oid
                    } by {
                        if j < links.len() {
                            assert(links[j].0 < node_views(nodes@).len());
                            assert(now[j] == links[j]);
                            assert(edge_views(edges@)[j] == was[j]);
                        }
                    }
                }
            } else {
                assert(!has_commit(commits, parent@)) by {
                    if has_commit(commits, parent@) {
                        let w = choose|w: int|
                            0 <= w < commits.len() && (#[trigger] commits[w]).id == parent@;
                        assert(node_views(nodes@)[w].oid == commits[w].id);
                        assert(nodes@[w]@.oid == parent@);
                    }
                }
            }
            k += 1;
        }
        n += 1;
    }
    edges
}

/// Builds the graph of a walk. `refs` are the refs of the repository, and
/// `walk` holds the commits in the order in which the store walks the
/// history from all the ref targets at once, descendants first. The graph
/// has a node for each of the first `max_commits` distinct commits and an
/// edge for each parent that is a node itself; each ref labels the node at
/// which it points, and every node has its lane.
pub fn build_commit_dag(refs: &Vec<RefInfo>, walk: &Vec<RawCommit>, max_commits: usize) -> (dag:
    CommitDag)
    ensures
        dag@ == commit_dag(ref_views(refs@), raw_views(walk@), max_commits as nat),
        well_formed(dag@),
        dag.nodes@.len() <= max_commits,
        tips_of(ref_views(refs@)).len() > 0 && max_commits <= first_visits(raw_views(walk@)).len()
            ==> dag.nodes@.len() == max_commits,
        forall|i: int|
            0 <= i < dag.nodes@.len() ==> (#[trigger] dag.nodes@[i]).column < dag.nodes@.len(),
{
    let tips = tip_ids(refs);
    if tips.len() == 0 {
        let dag = CommitDag { nodes: Vec::new(), edges: Vec::new() };
        assert(dag@.nodes =~= Seq::empty());
        assert(dag@.edges =~= Seq::empty());
        return dag;
    }
    assert(string_views(tips@).len() == tips@.len());
    let ghost commits = visited(raw_views(walk@), max_commits as nat);
    let mut g = empty_graph();
    let (mut nodes, kept) = collect_nodes(refs, walk, max_commits, &mut g);
    let edges = link_parents(&nodes, walk, &kept, &mut g, Ghost(commits), Ghost(ref_views(refs@)));
    let ghost before = node_views(nodes@);
    proof {
        lemma_first_visits_distinct(raw_views(walk@));
        assert(distinct_ids(before)) by {
            assert forall|a: int, b: int| 0 <= a < b < before.len() implies before[a].oid
                != before[b].oid by {
                assert(commits[a] == first_visits(raw_views(walk@))[a]);
                assert(commits[b] == first_visits(raw_views(walk@))[b]);
            }
        }
        assert forall|i: int| 0 <= i < before.len() implies graph_weights(g)[i] as int
            == before[i].timestamp by {
            assert(nodes@[i].timestamp == graph_weights(g)[i]);
        }
        lemma_matched_edges_are_closed(before, edge_views(edges@), graph_edges(g));
    }
    assign_lanes(&mut nodes, &g, Ghost(edge_views(edges@)));
    let ghost listed = edge_views(edges@);
    let ghost laid = laid_out(before, listed);
    let dag = CommitDag { nodes, edges };
    proof {
        let unlaid = CommitDagView { nodes: before, edges: listed };
        lemma_lanes_of_a_graph_are_below_its_size(unlaid);
        assert(node_views(dag.nodes@).len() == dag.nodes@.len());
        assert(laid.len() == before.len());
        assert forall|i: int| 0 <= i < dag.nodes@.len() implies (#[trigger] dag.nodes@[i]).column
            < dag.nodes@.len() by {
            assert(node_views(dag.nodes@)[i] == laid[i]);
            assert(0 <= lanes_of(unlaid.nodes, unlaid.edges)[i] < unlaid.nodes.len());
        }
        assert(dag@.nodes =~= node_views(dag.nodes@));
        assert(dag@.edges =~= edge_views(dag.edges@));
        assert(well_formed(dag@)) by {
            assert forall|j: int| 0 <= j < dag@.edges.len() implies has_node(
                dag@.nodes,
                (#[trigger] dag@.edges[j]).from_oid,
            ) && has_node(dag@.nodes, dag@.edges[j].to_oid) by {
                let from = choose|i: int|
                    0 <= i < before.len() && (#[trigger] before[i]).oid == dag@.edges[j].from_oid;
                assert(dag@.nodes[from].oid == before[from].oid);
                let to = choose|i: int|
                    0 <= i < before.len() && (#[trigger] before[i]).oid == dag@.edges[j].to_oid;
                assert(dag@.nodes[to].oid == before[to].oid);
            }
        }
    }
    dag
}

/// Assigns every node of a well-formed graph its lane, in place. Nodes are
/// placed latest first, nodes of one time in their order. Every lane is
/// below the number of nodes, and nothing but the lanes changes.
pub fn assign_columns(dag: &mut CommitDag)
    requires
        well_formed(old(dag)@),
    ensures
        final(dag)@.nodes == laid_out(old(dag)@.nodes, old(dag)@.edges),
        final(dag)@.edges == old(dag)@.edges,
        well_formed(final(dag)@),
        forall|i: int|
            0 <= i < final(dag).nodes@.len() ==> (#[trigger] final(dag).nodes@[i]).column
                < final(dag).nodes@.len(),
{
    let ghost before = dag@;
    let mut g = empty_graph();
    let mut i: usize = 0;
    while i < dag.nodes.len()
        invariant
            i <= dag.nodes@.len(),
            *dag == *old(dag),
            graph_weights(g).len() == i,
            graph_edges(g).len() == 0,
            forall|n: int|
                0 <= n < i ==> graph_weights(g)[n] == (#[trigger] dag.nodes@[n]).timestamp,
        decreases dag.nodes@.len() - i,
    {
        let _ = add_node(&mut g, dag.nodes[i].timestamp);
        i += 1;
    }
    let mut j: usize = 0;
    assert(before.nodes =~= node_views(dag.nodes@));
    assert(before.edges =~= edge_views(dag.edges@));
    while j < dag.edges.len()
        invariant
            j <= dag.edges@.len(),
            *dag == *old(dag),
            before == dag@,
            before.nodes == node_views(dag.nodes@),
            before.edges == edge_views(dag.edges@),
            well_formed(before),
            graph_weights(g).len() == dag.nodes@.len(),
            forall|n: int|
                0 <= n < dag.nodes@.len() ==> graph_weights(g)[n] == (
                #[trigger] dag.nodes@[n]).timestamp,
            edges_match(before.nodes, before.edges.take(j as int), graph_edges(g)),
        decreases dag.edges@.len() - j,
    {
        let from = find_node(&dag.nodes, dag.edges[j].from_oid.as_str());
        let to = find_node(&dag.nodes, dag.edges[j].to_oid.as_str());
        proof {
            assert(has_node(before.nodes, before.edges[j as int].from_oid));
            let a = choose|a: int|
                0 <= a < before.nodes.len() && (#[trigger] before.nodes[a]).oid
                    == before.edges[j as int].from_oid;
            assert(dag.nodes@[a].oid@ == before.nodes[a].oid);
            assert(has_node(before.nodes, before.edges[j as int].to_oid));
            let b = choose|b: int|
                0 <= b < before.nodes.len() && (#[trigger] before.nodes[b]).oid
                    == before.edges[j as int].to_oid;
            assert(dag.nodes@[b].oid@ == before.nodes[b].oid);
        }
        let ghost links = graph_edges(g);
        add_edge(&mut g, from, to);
        proof {
            let now = graph_edges(g);
            let listed = before.edges.take(j + 1);
            assert forall|e: int| 0 <= e < now.len() implies {
                &&& #[trigger] now[e].0 < before.nodes.len()
                &&& now[e].1 < before.nodes.len()
                &&& before.nodes[now[e].0 as int].oid == listed[e].from_oid
                &&& before.nodes[now[e].1 as int].oid == listed[e].to_oid
            } by {
                if e < links.len() {
                    assert(links[e].0 < before.nodes.len());
                    assert(now[e] == links[e]);
                    assert(listed[e] == before.edges.take(j as int)[e]);
                }
            }
        }
        j += 1;
    }
    assert(before.edges.take(j as int) =~= before.edges);
    proof {
        assert forall|n: int| 0 <= n < before.nodes.len() implies graph_weights(g)[n] as int
            == before.nodes[n].timestamp by {
            assert(dag.nodes@[n].timestamp == graph_weights(g)[n]);
        }
    }
    assign_lanes(&mut dag.nodes, &g, Ghost(before.edges));
    proof {
        lemma_lanes_of_a_graph_are_below_its_size(before);
        let laid = laid_out(before.nodes, before.edges);
        assert(node_views(dag.nodes@).len() == dag.nodes@.len());
        assert(laid.len() == before.nodes.len());
        assert forall|i: int| 0 <= i < dag.nodes@.len() implies (#[trigger] dag.nodes@[i]).column
            < dag.nodes@.len() by {
            assert(node_views(dag.nodes@)[i] == laid[i]);
            assert(0 <= lanes_of(before.nodes, before.edges)[i] < before.nodes.len());
        }
        assert(dag@.nodes =~= node_views(dag.nodes@));
        assert(dag@.edges =~= before.edges);
        assert(well_formed(dag@)) by {
            assert forall|e: int| 0 <= e < dag@.edges.len() implies has_node(
                dag@.nodes,
                (#[trigger] dag@.edges[e]).from_oid,
            ) && has_node(dag@.nodes, dag@.edges[e].to_oid) by {
                assert(has_node(before.nodes, before.edges[e].from_oid));
                let a = choose|a: int|
                    0 <= a < before.nodes.len() && (#[trigger] before.nodes[a]).oid
                        == before.edges[e].from_oid;
                assert(dag@.nodes[a].oid == before.nodes[a].oid);
                assert(has_node(before.nodes, before.edges[e].to_oid));
                let b = choose|b: int|
                    0 <= b < before.nodes.len() && (#[trigger] before.nodes[b]).oid
                        == before.edges[e].to_oid;
                assert(dag@.nodes[b].oid == before.nodes[b].oid);
            }
        }
    }
}

} // verus!
