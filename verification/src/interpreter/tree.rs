//! The graph form of a behaviour tree: every node of a document numbered in
//! preorder, with an edge from each node to each of its children.
use crate::common::{Info, NodeAction};
use crate::parse::{Node, TRRBTDocument};
use petgraph::graph::{DiGraph, Graph, NodeIndex};
use petgraph::Directed;
use vstd::prelude::*;

verus! {

// ---------------------------------------------------------------------------
// The graph: `petgraph::graph::Graph`
// ---------------------------------------------------------------------------

#[verifier::external_type_specification]
#[verifier::external_body]
#[verifier::reject_recursive_types(N)]
#[verifier::reject_recursive_types(E)]
#[verifier::reject_recursive_types(Ty)]
#[verifier::reject_recursive_types(Ix)]
pub struct ExGraph<N, E, Ty, Ix>(Graph<N, E, Ty, Ix>);

#[verifier::external_type_specification]
#[verifier::external_body]
pub struct ExDirected(Directed);

/// A node of the graph: the metadata and the action of a document node.
#[derive(Debug)]
pub struct BehaviorNode {
    pub info: Info,
    pub action: NodeAction,
}

/// An edge of the graph, from a node to one of its children.
#[derive(Default, Debug)]
pub struct BehaviorEdge {
    breakpoint: bool,
}

type TRRBTTree = DiGraph<BehaviorNode, BehaviorEdge>;

/// What a graph holds: for each node, in the order of their indices, its
/// weight and the indices of its successors, the target of the edge added
/// last first.
pub uninterp spec fn graph_adjacency(graph: TRRBTTree) -> Seq<(BehaviorNode, Seq<usize>)>;

/// The number of edges: every edge is listed once, among the successors of
/// its source.
pub open spec fn edge_total(adj: Seq<(BehaviorNode, Seq<usize>)>) -> nat
    decreases adj.len(),
{
    if adj.len() == 0 {
        0
    } else {
        edge_total(adj.drop_last()) + adj.last().1.len()
    }
}

/// `petgraph::graph::Graph::new`: a graph with no nodes and no edges.
#[verifier::external_body]
fn graph_new() -> (graph: TRRBTTree)
    ensures
        graph_adjacency(graph) == Seq::<(BehaviorNode, Seq<usize>)>::empty(),
{
    Graph::new()
}

/// `petgraph::graph::Graph::add_node`: appends a node with no successors and
/// returns its index, the former number of nodes. The crate panics when the
/// graph already has `u32::MAX` nodes.
#[verifier::external_body]
fn graph_add_node(graph: &mut TRRBTTree, weight: BehaviorNode) -> (index: usize)
    requires
        graph_adjacency(*old(graph)).len() < u32::MAX,
    ensures
        index == graph_adjacency(*old(graph)).len(),
        graph_adjacency(*final(graph)) == graph_adjacency(*old(graph)).push(
            (weight, Seq::<usize>::empty()),
        ),
{
    graph.add_node(weight).index()
}

/// `petgraph::graph::Graph::add_edge`: adds an edge from `source` to
/// `target`; `target` becomes the first successor of `source`, since a
/// directed graph lists successors in reverse order of addition. The crate
/// panics when a node does not exist or when the graph already has
/// `u32::MAX` edges.
#[verifier::external_body]
fn graph_add_edge(graph: &mut TRRBTTree, source: usize, target: usize)
    requires
        source < graph_adjacency(*old(graph)).len(),
        target < graph_adjacency(*old(graph)).len(),
        graph_adjacency(*old(graph)).len() <= u32::MAX,
        edge_total(graph_adjacency(*old(graph))) < u32::MAX,
    ensures
        graph_adjacency(*final(graph)) == graph_adjacency(*old(graph)).update(
            source as int,
            (
                graph_adjacency(*old(graph))[source as int].0,
                seq![target] + graph_adjacency(*old(graph))[source as int].1,
            ),
        ),
{
    graph.add_edge(NodeIndex::new(source), NodeIndex::new(target), BehaviorEdge::default());
}

/// `petgraph::graph::Graph::node_count`: the number of nodes.
#[verifier::external_body]
fn graph_node_count(graph: &TRRBTTree) -> (count: usize)
    ensures
        count == graph_adjacency(*graph).len(),
{
    graph.node_count()
}

/// `<Graph as Index<NodeIndex>>::index`: the weight of node `index`. The
/// crate panics when the node does not exist.
#[verifier::external_body]
fn graph_node(graph: &TRRBTTree, index: usize) -> (node: &BehaviorNode)
    requires
        index < graph_adjacency(*graph).len(),
        graph_adjacency(*graph).len() <= u32::MAX,
    ensures
        *node == graph_adjacency(*graph)[index as int].0,
{
    &graph[NodeIndex::new(index)]
}

/// `petgraph::graph::Graph::neighbors`: the successors of node `index`, in
/// the order the crate lists them (the target of the edge added last
/// first).
#[verifier::external_body]
fn graph_neighbors(graph: &TRRBTTree, index: usize) -> (successors: Vec<usize>)
    requires
        index < graph_adjacency(*graph).len(),
        graph_adjacency(*graph).len() <= u32::MAX,
    ensures
        successors@ == graph_adjacency(*graph)[index as int].1,
{
    graph.neighbors(NodeIndex::new(index)).map(|n| n.index()).collect()
}

// ---------------------------------------------------------------------------
// Documents as graphs
// ---------------------------------------------------------------------------

/// The number of nodes of a document tree.
pub open spec fn tree_size(n: Node) -> nat
    decreases n,
{
    1 + forest_size(n.children@)
}

/// The number of nodes of a sequence of document trees.
pub open spec fn forest_size(cs: Seq<Node>) -> nat
    decreases cs,
{
    if cs.len() == 0 {
        0
    } else {
        forest_size(cs.drop_last()) + tree_size(cs.last())
    }
}

/// The preorder positions of the roots of `cs`, when the first of them is
/// at position `base` and each tree follows the one before it.
pub open spec fn child_starts(cs: Seq<Node>, base: nat) -> Seq<usize>
    decreases cs.len(),
{
    if cs.len() == 0 {
        Seq::empty()
    } else {
        child_starts(cs.drop_last(), base).push((base + forest_size(cs.drop_last())) as usize)
    }
}

/// The graph nodes that a document tree becomes when its root is numbered
/// `base`: its nodes in preorder, each with its children's positions, last
/// child first.
pub open spec fn tree_built(n: Node, base: nat) -> Seq<(BehaviorNode, Seq<usize>)>
    decreases n,
{
    seq![
        (
            BehaviorNode { info: n.info, action: n.action },
            child_starts(n.children@, base + 1).reverse(),
        ),
    ] + forest_built(n.children@, base + 1)
}

/// The graph nodes that a sequence of document trees becomes, the first
/// root numbered `base`.
pub open spec fn forest_built(cs: Seq<Node>, base: nat) -> Seq<(BehaviorNode, Seq<usize>)>
    decreases cs,
{
    if cs.len() == 0 {
        Seq::empty()
    } else {
        forest_built(cs.drop_last(), base) + tree_built(
            cs.last(),
            base + forest_size(cs.drop_last()),
        )
    }
}

/// The sizes of consecutive sequences of trees add up.
pub proof fn lemma_forest_size_append(a: Seq<Node>, b: Seq<Node>)
    ensures
        forest_size(a + b) == forest_size(a) + forest_size(b),
    decreases b.len(),
{
    if b.len() == 0 {
        assert(a + b =~= a);
    } else {
        assert((a + b).drop_last() =~= a + b.drop_last());
        lemma_forest_size_append(a, b.drop_last());
    }
}

/// A document tree becomes as many graph nodes as it has nodes.
pub proof fn lemma_tree_built_len(n: Node, base: nat)
    ensures
        tree_built(n, base).len() == tree_size(n),
    decreases n,
{
    lemma_forest_built_len(n.children@, base + 1);
}

/// A sequence of document trees becomes as many graph nodes as it has
/// nodes.
pub proof fn lemma_forest_built_len(cs: Seq<Node>, base: nat)
    ensures
        forest_built(cs, base).len() == forest_size(cs),
    decreases cs,
{
    if cs.len() > 0 {
        lemma_forest_built_len(cs.drop_last(), base);
        lemma_tree_built_len(cs.last(), base + forest_size(cs.drop_last()));
    }
}

/// Adding a node with its successors adds their number to the edge count.
proof fn lemma_edge_total_push(adj: Seq<(BehaviorNode, Seq<usize>)>, x: (BehaviorNode, Seq<usize>))
    ensures
        edge_total(adj.push(x)) == edge_total(adj) + x.1.len(),
{
    assert(adj.push(x).drop_last() =~= adj);
}

/// Replacing the successors of one node changes the edge count by the
/// difference in their number.
proof fn lemma_edge_total_update(
    adj: Seq<(BehaviorNode, Seq<usize>)>,
    i: int,
    x: (BehaviorNode, Seq<usize>),
)
    requires
        0 <= i < adj.len(),
    ensures
        edge_total(adj.update(i, x)) + adj[i].1.len() == edge_total(adj) + x.1.len(),
    decreases adj.len(),
{
    if i == adj.len() - 1 {
        assert(adj.update(i, x).drop_last() =~= adj.drop_last());
    } else {
        assert(adj.update(i, x).drop_last() =~= adj.drop_last().update(i, x));
        lemma_edge_total_update(adj.drop_last(), i, x);
    }
}

/// No node has more successors than the graph has edges.
proof fn lemma_edge_total_bound(adj: Seq<(BehaviorNode, Seq<usize>)>, i: int)
    requires
        0 <= i < adj.len(),
    ensures
        adj[i].1.len() <= edge_total(adj),
    decreases adj.len(),
{
    if i < adj.len() - 1 {
        lemma_edge_total_bound(adj.drop_last(), i);
    }
}

/// Every successor is a node of the graph.
pub open spec fn successors_ok(adj: Seq<(BehaviorNode, Seq<usize>)>) -> bool {
    forall|i: int, j: int|
        0 <= i < adj.len() && 0 <= j < adj[i].1.len() ==> #[trigger] adj[i].1[j] < adj.len()
}

/// Every successor is a node of the graph, and the graph has no more edges
/// than nodes.
pub open spec fn adjacency_ok(adj: Seq<(BehaviorNode, Seq<usize>)>) -> bool {
    &&& edge_total(adj) <= adj.len()
    &&& successors_ok(adj)
}

/// The number of edges that adding a tree below `parent` adds, besides the
/// tree's own edges: one when there is a parent.
pub open spec fn parent_edges(parent: Option<usize>) -> nat {
    if parent is Some {
        1
    } else {
        0
    }
}

/// The graph nodes after the node numbered `index` becomes the first
/// successor of `parent`, if there is one.
pub open spec fn attach(
    adj: Seq<(BehaviorNode, Seq<usize>)>,
    parent: Option<usize>,
    index: usize,
) -> Seq<(BehaviorNode, Seq<usize>)> {
    match parent {
        Some(p) => adj.update(p as int, (adj[p as int].0, seq![index] + adj[p as int].1)),
        None => adj,
    }
}

/// Adds the nodes of `n` to the graph in preorder, with an edge from each
/// node to each of its children, and one from `parent` (if any) to the root
/// of `n`; without a parent, the root of `n` becomes `root`.
fn node_to_behavior_tree_graph(
    n: Node,
    root: &mut Option<usize>,
    ug: &mut TRRBTTree,
    parent: Option<usize>,
)
    requires
        successors_ok(graph_adjacency(*old(ug))),
        graph_adjacency(*old(ug)).len() + tree_size(n) < u32::MAX,
        edge_total(graph_adjacency(*old(ug))) + tree_size(n) < u32::MAX,
        parent matches Some(p) ==> p < graph_adjacency(*old(ug)).len(),
    ensures
        successors_ok(graph_adjacency(*final(ug))),
        edge_total(graph_adjacency(*final(ug))) + 1 == edge_total(graph_adjacency(*old(ug)))
            + tree_size(n) + parent_edges(parent),
        graph_adjacency(*final(ug)) == attach(
            graph_adjacency(*old(ug)),
            parent,
            graph_adjacency(*old(ug)).len() as usize,
        ) + tree_built(n, graph_adjacency(*old(ug)).len()),
        parent is None ==> *final(root) == Some(graph_adjacency(*old(ug)).len() as usize),
        parent is Some ==> *final(root) == *old(root),
    decreases tree_size(n),
{
    let ghost adj0 = graph_adjacency(*ug);
    let ghost base = adj0.len();
    let ghost e0 = edge_total(adj0);
    let ghost n0 = n;
    let ghost root0 = *root;
    let Node { info, children, action } = n;
    let index = graph_add_node(ug, BehaviorNode { info, action });
    let ghost bn = BehaviorNode { info: n0.info, action: n0.action };
    proof {
        lemma_edge_total_push(adj0, (bn, Seq::<usize>::empty()));
    }
    match parent {
        Some(p) => {
            let ghost adj1 = graph_adjacency(*ug);
            graph_add_edge(ug, p, index);
            proof {
                lemma_edge_total_update(
                    adj1,
                    p as int,
                    (adj1[p as int].0, seq![index] + adj1[p as int].1),
                );
            }
        },
        None => {
            *root = Some(index);
        },
    }
    let ghost cs = children@;
    let mut rest = children;
    let ghost mut done: int = 0;
    proof {
        assert(graph_adjacency(*ug) =~= attach(adj0, parent, base as usize).push(
            (bn, Seq::<usize>::empty()),
        ));
        assert(cs.take(0) =~= Seq::<Node>::empty());
        assert(cs.skip(0) =~= cs);
        assert(graph_adjacency(*ug).subrange(base + 1int, base + 1int) =~= forest_built(
            cs.take(0),
            base + 1,
        ));
        assert(graph_adjacency(*ug).subrange(0, base as int) =~= attach(adj0, parent, base as usize));
        assert(child_starts(cs.take(0), base + 1).reverse() =~= Seq::<usize>::empty());
    }
    while rest.len() > 0
        invariant
            0 <= done <= cs.len(),
            rest@ == cs.skip(done),
            index == base,
            n0.children@ == cs,
            n0 == n,
            bn == (BehaviorNode { info: n0.info, action: n0.action }),
            base + tree_size(n0) < u32::MAX,
            edge_total(adj0) + tree_size(n0) < u32::MAX,
            successors_ok(graph_adjacency(*ug)),
            edge_total(graph_adjacency(*ug)) == edge_total(adj0) + parent_edges(parent)
                + forest_size(cs.take(done)),
            graph_adjacency(*ug).len() == base + 1 + forest_size(cs.take(done)),
            graph_adjacency(*ug).subrange(0, base as int) == attach(adj0, parent, base as usize),
            graph_adjacency(*ug)[base as int] == (bn, child_starts(cs.take(done), base + 1).reverse()),
            graph_adjacency(*ug).subrange(base + 1int, graph_adjacency(*ug).len() as int)
                == forest_built(cs.take(done), base + 1),
            parent is None ==> *root == Some(base as usize),
            parent is Some ==> *root == root0,
        decreases rest@.len(),
    {
        let ghost adj_before = graph_adjacency(*ug);
        let ghost start = adj_before.len();
        let ghost edges_before = edge_total(adj_before);
        proof {
            assert(cs =~= cs.take(done) + cs.skip(done));
            lemma_forest_size_append(cs.take(done), cs.skip(done));
            assert(cs.skip(done) =~= seq![cs[done]] + cs.skip(done + 1));
            lemma_forest_size_append(seq![cs[done]], cs.skip(done + 1));
            assert(seq![cs[done]].drop_last() =~= Seq::<Node>::empty());
        }
        let child = rest.remove(0);
        proof {
            assert(child == cs[done]);
            assert(tree_size(child) < tree_size(n0));
        }
        node_to_behavior_tree_graph(child, root, ug, Some(index));
        proof {
            let adj = graph_adjacency(*ug);
            let t = cs.take(done + 1);
            assert(t.drop_last() =~= cs.take(done));
            assert(t.last() == cs[done]);
            assert(child_starts(t, base + 1) == child_starts(cs.take(done), base + 1).push(
                start as usize,
            ));
            assert(child_starts(t, base + 1).reverse() =~= seq![start as usize] + child_starts(
                cs.take(done),
                base + 1,
            ).reverse());
            assert(adj.subrange(0, base as int) =~= adj_before.subrange(0, base as int));
            assert(adj.subrange(base + 1int, adj.len() as int) =~= adj_before.subrange(
                base + 1int,
                start as int,
            ) + tree_built(cs[done], start));
            lemma_tree_built_len(cs[done], start);
            done = done + 1;
            assert(rest@ =~= cs.skip(done));
        }
    }
    proof {
        let adj = graph_adjacency(*ug);
        assert(cs.take(done) =~= cs);
        assert(tree_built(n0, base) == seq![
            (bn, child_starts(cs, base + 1).reverse()),
        ] + forest_built(cs, base + 1));
        assert(adj =~= adj.subrange(0, base as int) + seq![adj[base as int]] + adj.subrange(
            base + 1int,
            adj.len() as int,
        ));
        assert(adj =~= attach(adj0, parent, base as usize) + tree_built(n0, base));
    }
}

/// The graph nodes of consecutive sequences of trees follow one another.
pub proof fn lemma_forest_built_append(a: Seq<Node>, b: Seq<Node>, base: nat)
    ensures
        forest_built(a + b, base) == forest_built(a, base) + forest_built(b, base + forest_size(a)),
    decreases b.len(),
{
    if b.len() == 0 {
        assert(a + b =~= a);
        assert(forest_built(a, base) + forest_built(b, base + forest_size(a)) =~= forest_built(
            a,
            base,
        ));
    } else {
        assert((a + b).drop_last() =~= a + b.drop_last());
        assert((a + b).last() == b.last());
        lemma_forest_built_append(a, b.drop_last(), base);
        lemma_forest_size_append(a, b.drop_last());
        assert(forest_built(a + b, base) =~= forest_built(a, base) + forest_built(
            b,
            base + forest_size(a),
        ));
    }
}

/// There is one root position per tree.
pub proof fn lemma_child_starts_len(cs: Seq<Node>, base: nat)
    ensures
        child_starts(cs, base).len() == cs.len(),
    decreases cs.len(),
{
    if cs.len() > 0 {
        lemma_child_starts_len(cs.drop_last(), base);
    }
}

/// The `k`-th child's root is numbered after the roots and descendants of
/// the children before it.
pub proof fn lemma_child_starts_index(cs: Seq<Node>, base: nat, k: int)
    requires
        0 <= k < cs.len(),
    ensures
        child_starts(cs, base).len() == cs.len(),
        child_starts(cs, base)[k] == (base + forest_size(cs.take(k))) as usize,
    decreases cs.len(),
{
    lemma_child_starts_len(cs, base);
    lemma_child_starts_len(cs.drop_last(), base);
    if k < cs.len() - 1 {
        lemma_child_starts_index(cs.drop_last(), base, k);
        assert(cs.drop_last().take(k) =~= cs.take(k));
    } else {
        assert(cs.drop_last() =~= cs.take(k));
        if cs.len() > 1 {
            lemma_child_starts_index(cs.drop_last(), base, k - 1);
        }
    }
}

/// In the graph a document tree becomes, the successors of its root are the
/// positions of its children, last child first, and at the position of each
/// child stands that child, with the positions of its own children as its
/// successors.
pub proof fn lemma_tree_built_children(n: Node, base: nat, k: int)
    requires
        0 <= k < n.children@.len(),
    ensures
        ({
            let cs = n.children@;
            let start = base + 1 + forest_size(cs.take(k));
            let built = tree_built(n, base);
            &&& built[0] == (
                BehaviorNode { info: n.info, action: n.action },
                child_starts(cs, base + 1).reverse(),
            )
            &&& child_starts(cs, base + 1)[k] == start as usize
            &&& built[start - base] == (
                BehaviorNode { info: cs[k].info, action: cs[k].action },
                child_starts(cs[k].children@, start + 1).reverse(),
            )
        }),
{
    let cs = n.children@;
    let fb = forest_size(cs.take(k));
    lemma_child_starts_index(cs, base + 1, k);
    assert(cs =~= cs.take(k) + (seq![cs[k]] + cs.skip(k + 1)));
    lemma_forest_built_append(cs.take(k), seq![cs[k]] + cs.skip(k + 1), base + 1);
    lemma_forest_built_append(seq![cs[k]], cs.skip(k + 1), base + 1 + fb);
    assert(seq![cs[k]].drop_last() =~= Seq::<Node>::empty());
    assert(forest_size(seq![cs[k]].drop_last()) == 0);
    assert(forest_built(seq![cs[k]].drop_last(), base + 1 + fb) =~= Seq::<
        (BehaviorNode, Seq<usize>),
    >::empty());
    assert(forest_built(seq![cs[k]], base + 1 + fb) =~= tree_built(cs[k], base + 1 + fb));
    lemma_forest_built_len(cs.take(k), base + 1);
    lemma_tree_built_len(cs[k], base + 1 + fb);
    let built = tree_built(n, base);
    assert(built[1 + fb as int] == forest_built(cs, base + 1)[fb as int]);
    assert(forest_built(cs, base + 1)[fb as int] == tree_built(cs[k], base + 1 + fb)[0]);
}

/// The number of nodes of `n`, or `cap` when `n` has at least `cap` nodes.
fn capped_size(n: &Node, cap: usize) -> (count: usize)
    requires
        cap >= 1,
    ensures
        count == if tree_size(*n) < cap {
            tree_size(*n)
        } else {
            cap as nat
        },
    decreases tree_size(*n),
{
    let ghost cs = n.children@;
    let mut total: usize = 1;
    let mut k: usize = 0;
    proof {
        assert(cs.take(0) =~= Seq::<Node>::empty());
    }
    while k < n.children.len() && total < cap
        invariant
            cs == n.children@,
            k <= cs.len(),
            1 <= total <= cap,
            total < cap ==> total == 1 + forest_size(cs.take(k as int)),
            total == cap ==> 1 + forest_size(cs.take(k as int)) >= cap,
        decreases cs.len() - k,
    {
        proof {
            assert(cs =~= cs.take(k as int) + (seq![cs[k as int]] + cs.skip(k + 1)));
            lemma_forest_size_append(cs.take(k as int), seq![cs[k as int]] + cs.skip(k + 1));
            lemma_forest_size_append(seq![cs[k as int]], cs.skip(k + 1));
            assert(seq![cs[k as int]].drop_last() =~= Seq::<Node>::empty());
            assert(forest_size(seq![cs[k as int]].drop_last()) == 0);
            assert(forest_size(seq![cs[k as int]]) == tree_size(cs[k as int]));
            assert(cs.take(k + 1) =~= cs.take(k as int) + seq![cs[k as int]]);
            lemma_forest_size_append(cs.take(k as int), seq![cs[k as int]]);
        }
        let c = capped_size(&n.children[k], cap - total);
        total = total + c;
        k = k + 1;
    }
    proof {
        if total < cap {
            assert(cs.take(k as int) =~= cs);
        } else {
            assert(cs =~= cs.take(k as int) + cs.skip(k as int));
            lemma_forest_size_append(cs.take(k as int), cs.skip(k as int));
        }
    }
    total
}

/// Whether the graph library can hold the document's tree: it panics on
/// trees of `u32::MAX` nodes or more.
pub fn fits_in_graph(doc: &TRRBTDocument) -> (fits: bool)
    ensures
        fits == (tree_size(doc.tree) < u32::MAX),
{
    let limit: usize = 0xFFFF_FFFF;
    capped_size(&doc.tree, limit) < limit
}

// ---------------------------------------------------------------------------
// The behaviour tree
// ---------------------------------------------------------------------------

/// A named, described behaviour tree held as a graph: node `i` is the
/// `i`-th node of its document in preorder, and the successors of a node
/// are its children, last child first.
pub struct BehaviorTree {
    name: String,
    desc: String,
    tree: TRRBTTree,
    root_index: usize,
}

impl BehaviorTree {
    /// The root is a node, every successor is a node, and node indices fit
    /// the graph's 32-bit index type.
    #[verifier::type_invariant]
    closed spec fn well_formed(self) -> bool {
        &&& self.root_index < graph_adjacency(self.tree).len()
        &&& graph_adjacency(self.tree).len() < u32::MAX
        &&& adjacency_ok(graph_adjacency(self.tree))
    }

    /// The nodes of the graph in index order, each with its successors.
    pub closed spec fn adjacency(&self) -> Seq<(BehaviorNode, Seq<usize>)> {
        graph_adjacency(self.tree)
    }

    /// The index of the root.
    pub closed spec fn root_spec(&self) -> usize {
        self.root_index
    }

    /// The name, by its characters.
    pub closed spec fn name_view(&self) -> Seq<char> {
        self.name@
    }

    /// The description, by its characters.
    pub closed spec fn desc_view(&self) -> Seq<char> {
        self.desc@
    }

    /// The graph of the document `value`: its nodes numbered in preorder
    /// from the root at 0, each with an edge to each of its children. The
    /// graph library panics on documents of `u32::MAX` nodes or more.
    pub fn from_document(value: TRRBTDocument) -> (tree: Self)
        requires
            tree_size(value.tree) < u32::MAX,
        ensures
            tree.adjacency() == tree_built(value.tree, 0),
            tree.root_spec() == 0,
            tree.name_view() == value.name@,
            tree.desc_view() == value.desc@,
    {
        let mut graph = graph_new();
        let mut root: Option<usize> = None;
        proof {
            assert(edge_total(graph_adjacency(graph)) == 0);
        }
        let TRRBTDocument { name, desc, tree } = value;
        node_to_behavior_tree_graph(tree, &mut root, &mut graph, None);
        proof {
            assert(graph_adjacency(graph) =~= tree_built(value.tree, 0));
            lemma_tree_built_len(value.tree, 0);
        }
        BehaviorTree { name, desc, root_index: root.unwrap(), tree: graph }
    }

    /// The name of the tree.
    pub fn name(&self) -> (name: &str)
        ensures
            name@ == self.name_view(),
    {
        self.name.as_str()
    }

    /// The description of the tree.
    pub fn description(&self) -> (desc: &str)
        ensures
            desc@ == self.desc_view(),
    {
        self.desc.as_str()
    }

    /// The index of the root.
    /// Every tree has its root among its nodes, successors that are nodes,
    /// no more edges than nodes, and fewer than `u32::MAX` nodes.
    pub fn root(&self) -> (root: usize)
        ensures
            root == self.root_spec(),
            root < self.adjacency().len(),
            self.adjacency().len() < u32::MAX,
            adjacency_ok(self.adjacency()),
    {
        proof {
            use_type_invariant(self);
        }
        self.root_index
    }

    /// The action of node `node_index`.
    pub fn get_node_action(&self, node_index: usize) -> (action: &NodeAction)
        requires
            node_index < self.adjacency().len(),
        ensures
            *action == self.adjacency()[node_index as int].0.action,
    {
        proof {
            use_type_invariant(self);
        }
        &graph_node(&self.tree, node_index).action
    }

    /// The metadata of node `node_index`.
    pub fn get_node_info(&self, node_index: usize) -> (info: &Info)
        requires
            node_index < self.adjacency().len(),
        ensures
            *info == self.adjacency()[node_index as int].0.info,
    {
        proof {
            use_type_invariant(self);
        }
        &graph_node(&self.tree, node_index).info
    }

    /// The number of nodes.
    pub fn node_count(&self) -> (count: usize)
        ensures
            count == self.adjacency().len(),
    {
        graph_node_count(&self.tree)
    }

    /// The successors of node `node_index`: its children, last child first;
    /// none when there is no such node.
    pub fn get_node_neighbors(&self, node_index: usize) -> (neighbors: Vec<usize>)
        ensures
            neighbors@ == if node_index < self.adjacency().len() {
                self.adjacency()[node_index as int].1
            } else {
                Seq::<usize>::empty()
            },
            neighbors@.len() < u32::MAX,
    {
        proof {
            use_type_invariant(self);
        }
        if node_index < graph_node_count(&self.tree) {
            proof {
                lemma_edge_total_bound(self.adjacency(), node_index as int);
            }
            graph_neighbors(&self.tree, node_index)
        } else {
            Vec::new()
        }
    }
}

} // verus!
