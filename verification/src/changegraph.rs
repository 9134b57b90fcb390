//! The change graph of a history: one node for each entry, one edge for
//! each causal parent link, and its text as a directed graph.

use crate::history::{
    ids_distinct, links_resolve, parents_distinct, row_resolves, strings_distinct, Contents, Entry,
    History,
};
use crate::text::{decimal, push_decimal, push_quoted, quoted};
use vstd::prelude::*;

verus! {

/// What kind of payload an entry carries.
#[derive(Debug, PartialEq, Eq, Structural, Clone, Copy)]
pub enum PayloadKind {
    Change,
    Unknown,
}

/// A node of the change graph: an entry with what describes it.
#[derive(Debug, Clone, PartialEq, Eq)]
pub struct Node {
    pub id: String,
    pub author: String,
    pub message: String,
    pub payload: PayloadKind,
    pub size: usize,
}

/// An edge of the change graph, from an entry to one of its causal
/// parents, each given by its position among the nodes.
#[derive(Debug, PartialEq, Eq, Structural, Clone, Copy)]
pub struct Edge {
    pub child: usize,
    pub parent: usize,
}

/// The change graph of a history.
#[derive(Debug, Clone, PartialEq, Eq)]
pub struct ChangeGraph {
    pub nodes: Vec<Node>,
    pub edges: Vec<Edge>,
}

/// A node as plain values.
pub ghost struct NodeView {
    pub id: Seq<char>,
    pub author: Seq<char>,
    pub message: Seq<char>,
    pub payload: PayloadKind,
    pub size: nat,
}

impl View for Node {
    type V = NodeView;

    open spec fn view(&self) -> NodeView {
        NodeView {
            id: self.id@,
            author: self.author@,
            message: self.message@,
            payload: self.payload,
            size: self.size as nat,
        }
    }
}

/// The node that stands for an entry.
pub open spec fn node_of(entry: Entry) -> NodeView {
    NodeView {
        id: entry.id@,
        author: entry.author@,
        message: entry.message@,
        payload: match entry.contents {
            Contents::Automerge(_) => PayloadKind::Change,
            Contents::Unknown => PayloadKind::Unknown,
        },
        size: match entry.contents {
            Contents::Automerge(bytes) => bytes@.len(),
            Contents::Unknown => 0,
        },
    }
}

/// The nodes that stand for a list of entries, in order.
pub open spec fn nodes_of(entries: Seq<Entry>) -> Seq<NodeView> {
    entries.map_values(|e: Entry| node_of(e))
}

/// The nodes of a list as plain values.
pub open spec fn node_views(nodes: Seq<Node>) -> Seq<NodeView> {
    nodes.map_values(|n: Node| n@)
}

/// The edges that leave `child`: one to each node of `row`, in order.
pub open spec fn row_edges(child: usize, row: Seq<usize>) -> Seq<Edge> {
    row.map_values(|parent: usize| Edge { child, parent })
}

/// The edges of a graph: those of row 0, then those of row 1, and so on.
pub open spec fn edges_of(links: Seq<Seq<usize>>) -> Seq<Edge>
    decreases links.len(),
{
    if links.len() == 0 {
        Seq::empty()
    } else {
        edges_of(links.drop_last()) + row_edges((links.len() - 1) as usize, links.last())
    }
}

/// How many links a graph has.
pub open spec fn edge_count(links: Seq<Seq<usize>>) -> nat
    decreases links.len(),
{
    if links.len() == 0 {
        0
    } else {
        edge_count(links.drop_last()) + links.last().len()
    }
}

/// No node occurs twice in any row.
pub open spec fn rows_distinct(links: Seq<Seq<usize>>) -> bool {
    forall|i: int, a: int, b: int|
        0 <= i < links.len() && 0 <= a < b < links[i].len() ==> (#[trigger] links[i][a])
            != (#[trigger] links[i][b])
}

/// A graph has as many edges as links, and every edge leaves a node of the
/// graph.
pub proof fn lemma_edges_counted(links: Seq<Seq<usize>>)
    requires
        links.len() <= usize::MAX,
    ensures
        edges_of(links).len() == edge_count(links),
        forall|e: int| 0 <= e < edges_of(links).len() ==> (#[trigger] edges_of(links)[e]).child < links.len(),
    decreases links.len(),
{
    if links.len() > 0 {
        lemma_edges_counted(links.drop_last());
    }
}

/// Every edge of a graph is a link of it, and every link is an edge.
pub proof fn lemma_edges_are_links(links: Seq<Seq<usize>>)
    requires
        links.len() <= usize::MAX,
    ensures
        forall|e: int|
            0 <= e < edges_of(links).len() ==> {
                let edge = #[trigger] edges_of(links)[e];
                edge.child < links.len() && links[edge.child as int].contains(edge.parent)
            },
        forall|i: int, k: int|
            0 <= i < links.len() && 0 <= k < links[i].len() ==> edges_of(links).contains(
                Edge { child: i as usize, parent: #[trigger] links[i][k] },
            ),
    decreases links.len(),
{
    if links.len() > 0 {
        let front = links.drop_last();
        let last = (links.len() - 1) as usize;
        let tail = row_edges(last, links.last());
        lemma_edges_are_links(front);
        assert forall|e: int| 0 <= e < edges_of(links).len() implies {
            let edge = #[trigger] edges_of(links)[e];
            edge.child < links.len() && links[edge.child as int].contains(edge.parent)
        } by {
            let edge = edges_of(links)[e];
            if e < edges_of(front).len() {
                assert(edge == edges_of(front)[e]);
                assert(front[edge.child as int] == links[edge.child as int]);
            } else {
                let k = e - edges_of(front).len();
                assert(edge == tail[k]);
                assert(links.last()[k] == edge.parent);
            }
        }
        assert forall|i: int, k: int| 0 <= i < links.len() && 0 <= k < links[i].len() implies edges_of(
            links,
        ).contains(Edge { child: i as usize, parent: #[trigger] links[i][k] }) by {
            let wanted = Edge { child: i as usize, parent: links[i][k] };
            if i < front.len() {
                assert(front[i] == links[i]);
                assert(edges_of(front).contains(Edge { child: i as usize, parent: front[i][k] }));
                let e = choose|e: int| 0 <= e < edges_of(front).len() && edges_of(front)[e] == wanted;
                assert(edges_of(links)[e] == wanted);
            } else {
                assert(tail[k] == wanted);
                assert(edges_of(links)[edges_of(front).len() + k] == wanted);
            }
        }
    }
}

/// Where no row names a node twice, no edge occurs twice.
pub proof fn lemma_edges_distinct(links: Seq<Seq<usize>>)
    requires
        links.len() <= usize::MAX,
        rows_distinct(links),
    ensures
        edges_of(links).no_duplicates(),
    decreases links.len(),
{
    if links.len() > 0 {
        let front = links.drop_last();
        let last = (links.len() - 1) as usize;
        let tail = row_edges(last, links.last());
        assert forall|i: int, a: int, b: int|
            0 <= i < front.len() && 0 <= a < b < front[i].len() implies (#[trigger] front[i][a])
            != (#[trigger] front[i][b]) by {
            assert(front[i] == links[i]);
            assert(links[i][a] != links[i][b]);
        }
        lemma_edges_distinct(front);
        lemma_edges_counted(front);
        let all = edges_of(links);
        let cut = edges_of(front).len();
        assert forall|x: int, y: int| 0 <= x < all.len() && 0 <= y < all.len() && x != y implies all[x]
            != all[y] by {
            if x < cut && y < cut {
                assert(all[x] == edges_of(front)[x]);
                assert(all[y] == edges_of(front)[y]);
            } else if x >= cut && y >= cut {
                assert(all[x] == tail[x - cut]);
                assert(all[y] == tail[y - cut]);
                if x < y {
                    assert(links[last as int][x - cut] != links[last as int][y - cut]);
                } else {
                    assert(links[last as int][y - cut] != links[last as int][x - cut]);
                }
            } else if x < cut {
                assert(all[x] == edges_of(front)[x]);
                assert(all[y] == tail[y - cut]);
            } else {
                assert(all[y] == edges_of(front)[y]);
                assert(all[x] == tail[x - cut]);
            }
        }
    }
}

/// In the graph of a history no row names a node twice.
pub proof fn lemma_history_rows_distinct(entries: Seq<Entry>, links: Seq<Seq<usize>>)
    requires
        ids_distinct(entries),
        parents_distinct(entries),
        links_resolve(entries, links),
    ensures
        rows_distinct(links),
{
    assert forall|i: int, a: int, b: int|
        0 <= i < links.len() && 0 <= a < b < links[i].len() implies (#[trigger] links[i][a])
        != (#[trigger] links[i][b]) by {
        assert(row_resolves(entries, entries[i], links[i]));
        assert(strings_distinct(entries[i].parents@));
        assert(entries[i].parents@[a]@ != entries[i].parents@[b]@);
        assert(entries[links[i][a] as int].id@ == entries[i].parents@[a]@);
        assert(entries[links[i][b] as int].id@ == entries[i].parents@[b]@);
    }
}

/// The node that stands for an entry.
fn node_for(entry: &Entry) -> (node: Node)
    ensures
        node@ == node_of(*entry),
{
    let (payload, size) = match &entry.contents {
        Contents::Automerge(bytes) => (PayloadKind::Change, bytes.len()),
        Contents::Unknown => (PayloadKind::Unknown, 0),
    };
    Node {
        id: entry.id.clone(),
        author: entry.author.clone(),
        message: entry.message.clone(),
        payload,
        size,
    }
}

/// The name of a kind of payload.
pub open spec fn payload_text(kind: PayloadKind) -> Seq<char> {
    match kind {
        PayloadKind::Change => "change"@,
        PayloadKind::Unknown => "unknown"@,
    }
}

/// The line that declares a node: its id, and as its label the author, the
/// message, and the kind and size of the payload.
pub open spec fn node_line(node: NodeView) -> Seq<char> {
    "    \""@ + quoted(node.id) + "\" [label=\""@ + quoted(node.author) + ": "@ + quoted(
        node.message,
    ) + " ("@ + payload_text(node.payload) + ", "@ + decimal(node.size) + " bytes)\"];\n"@
}

/// The lines that declare the nodes, in order.
pub open spec fn node_lines(nodes: Seq<NodeView>) -> Seq<char>
    decreases nodes.len(),
{
    if nodes.len() == 0 {
        Seq::empty()
    } else {
        node_lines(nodes.drop_last()) + node_line(nodes.last())
    }
}

/// The line that declares an edge, from the child's id to the parent's.
pub open spec fn edge_line(nodes: Seq<NodeView>, edge: Edge) -> Seq<char> {
    "    \""@ + quoted(nodes[edge.child as int].id) + "\" -> \""@ + quoted(
        nodes[edge.parent as int].id,
    ) + "\";\n"@
}

/// The lines that declare the edges, in order.
pub open spec fn edge_lines(nodes: Seq<NodeView>, edges: Seq<Edge>) -> Seq<char>
    decreases edges.len(),
{
    if edges.len() == 0 {
        Seq::empty()
    } else {
        edge_lines(nodes, edges.drop_last()) + edge_line(nodes, edges.last())
    }
}

/// The text of a graph: an opening line, one line for each node, one line
/// for each edge, and a closing line.
pub open spec fn dot_text(nodes: Seq<NodeView>, edges: Seq<Edge>) -> Seq<char> {
    "digraph {\n"@ + node_lines(nodes) + edge_lines(nodes, edges) + "}\n"@
}

/// Adds the line that declares a node.
#[verifier::rlimit(40)]
fn push_node_line(out: &mut String, node: &Node)
    ensures
        final(out)@ == old(out)@ + node_line(node@),
{
    out.append("    \"");
    push_quoted(out, &node.id);
    out.append("\" [label=\"");
    push_quoted(out, &node.author);
    out.append(": ");
    push_quoted(out, &node.message);
    out.append(" (");
    match node.payload {
        PayloadKind::Change => out.append("change"),
        PayloadKind::Unknown => out.append("unknown"),
    }
    out.append(", ");
    push_decimal(out, node.size);
    out.append(" bytes)\"];\n");
    proof {
        assert(out@ =~= old(out)@ + node_line(node@));
    }
}

impl ChangeGraph {
    /// Every edge joins two nodes of the graph.
    pub open spec fn well_formed(self) -> bool {
        forall|e: int|
            0 <= e < self.edges@.len() ==> (#[trigger] self.edges@[e]).child < self.nodes@.len()
                && self.edges@[e].parent < self.nodes@.len()
    }

    /// The text of the graph in the language of graph descriptions: each
    /// node is declared once and each edge once.
    #[verifier::rlimit(40)]
    pub fn to_dot(&self) -> (text: String)
        requires
            self.well_formed(),
        ensures
            text@ == dot_text(node_views(self.nodes@), self.edges@),
    {
        let ghost nodes = node_views(self.nodes@);
        let mut out = String::from_str("digraph {\n");
        let mut i: usize = 0;
        proof {
            assert(nodes.take(0) =~= Seq::<NodeView>::empty());
            assert(out@ =~= "digraph {\n"@ + node_lines(nodes.take(0)));
        }
        while i < self.nodes.len()
            invariant
                i <= self.nodes.len(),
                nodes == node_views(self.nodes@),
                out@ == "digraph {\n"@ + node_lines(nodes.take(i as int)),
            decreases self.nodes.len() - i,
        {
            let node = &self.nodes[i];
            push_node_line(&mut out, node);
            proof {
                assert(nodes.take(i + 1).drop_last() =~= nodes.take(i as int));
                assert(nodes.take(i + 1).last() == node@);
                assert(out@ =~= "digraph {\n"@ + node_lines(nodes.take(i + 1)));
            }
            i += 1;
        }
        proof {
            assert(nodes.take(self.nodes@.len() as int) =~= nodes);
            assert(self.edges@.take(0) =~= Seq::<Edge>::empty());
            assert(out@ =~= "digraph {\n"@ + node_lines(nodes) + edge_lines(nodes, self.edges@.take(0)));
        }
        let mut e: usize = 0;
        while e < self.edges.len()
            invariant
                e <= self.edges.len(),
                self.well_formed(),
                nodes == node_views(self.nodes@),
                out@ == "digraph {\n"@ + node_lines(nodes) + edge_lines(
                    nodes,
                    self.edges@.take(e as int),
                ),
            decreases self.edges.len() - e,
        {
            let ghost before = out@;
            let edge = self.edges[e];
            out.append("    \"");
            push_quoted(&mut out, &self.nodes[edge.child].id);
            out.append("\" -> \"");
            push_quoted(&mut out, &self.nodes[edge.parent].id);
            out.append("\";\n");
            proof {
                assert(self.edges@.take(e + 1).drop_last() =~= self.edges@.take(e as int));
                assert(self.edges@.take(e + 1).last() == edge);
                assert(out@ =~= before + edge_line(nodes, edge));
                assert(out@ =~= "digraph {\n"@ + node_lines(nodes) + edge_lines(
                    nodes,
                    self.edges@.take(e + 1),
                ));
            }
            e += 1;
        }
        proof {
            assert(self.edges@.take(self.edges@.len() as int) =~= self.edges@);
        }
        out.append("}\n");
        out
    }

    /// The change graph of a history: node `i` stands for entry `i`, and the
    /// edges are the parent links, entry by entry. There are as many nodes
    /// as entries and as many edges as parent links; no node has the id of
    /// another, and no edge occurs twice.
    #[verifier::rlimit(40)]
    pub fn build(history: &History) -> (graph: ChangeGraph)
        ensures
            node_views(graph.nodes@) == nodes_of(history.entries()),
            graph.edges@ == edges_of(history.links()),
            graph.nodes@.len() == history.entries().len(),
            graph.edges@.len() == edge_count(history.links()),
            forall|a: int, b: int|
                0 <= a < b < graph.nodes@.len() ==> (#[trigger] graph.nodes@[a]).id@
                    != (#[trigger] graph.nodes@[b]).id@,
            graph.edges@.no_duplicates(),
            graph.well_formed(),
    {
        let n = history.len();
        let ghost links = history.links();
        let ghost entries = history.entries();
        let mut nodes: Vec<Node> = Vec::new();
        let mut edges: Vec<Edge> = Vec::new();
        let mut i: usize = 0;
        proof {
            assert(links.take(0) =~= Seq::<Seq<usize>>::empty());
        }
        while i < n
            invariant
                n == entries.len(),
                links == history.links(),
                entries == history.entries(),
                history.well_formed(),
                i <= n,
                nodes@.len() == i,
                forall|a: int| 0 <= a < i ==> (#[trigger] nodes@[a])@ == node_of(entries[a]),
                edges@ == edges_of(links.take(i as int)),
            decreases n - i,
        {
            let node = node_for(history.entry(i));
            nodes.push(node);
            let row = history.parents_of(i);
            let ghost before = edges@;
            let mut k: usize = 0;
            while k < row.len()
                invariant
                    k <= row.len(),
                    row@ == links[i as int],
                    edges@ == before + row_edges(i, row@.take(k as int)),
                decreases row.len() - k,
            {
                proof {
                    assert(row@.take(k + 1) =~= row@.take(k as int).push(row@[k as int]));
                    assert(row_edges(i, row@.take(k + 1)) =~= row_edges(i, row@.take(k as int)).push(
                        Edge { child: i, parent: row@[k as int] },
                    ));
                }
                edges.push(Edge { child: i, parent: row[k] });
                k += 1;
            }
            proof {
                assert(row@.take(row@.len() as int) =~= row@);
                assert(links.take(i + 1).drop_last() =~= links.take(i as int));
                assert(links.take(i + 1).last() == links[i as int]);
            }
            i += 1;
        }
        proof {
            assert(links.take(n as int) =~= links);
            assert(node_views(nodes@) =~= nodes_of(entries));
            lemma_edges_counted(links);
            lemma_history_rows_distinct(entries, links);
            lemma_edges_distinct(links);
            lemma_edges_are_links(links);
            assert forall|e: int| 0 <= e < edges@.len() implies (#[trigger] edges@[e]).child
                < nodes@.len() && edges@[e].parent < nodes@.len() by {
                let edge = edges@[e];
                let k = links[edge.child as int].index_of(edge.parent);
                assert(row_resolves(entries, entries[edge.child as int], links[edge.child as int]));
                assert(links[edge.child as int][k] == edge.parent);
            }
        }
        ChangeGraph { nodes, edges }
    }
}

} // verus!
