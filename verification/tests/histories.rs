use cob_issues::changegraph::{ChangeGraph, Edge, Node, PayloadKind};
use cob_issues::dag::causal_order;
use cob_issues::history::{position_of, Contents, Entry, History, HistoryError};

fn node_entry(id: &str, parents: &[&str]) -> Entry {
    Entry {
        id: id.to_string(),
        parents: parents.iter().map(|p| p.to_string()).collect(),
        author: "someone".to_string(),
        contents: Contents::Automerge(vec![1, 2, 3]),
        message: String::new(),
    }
}

fn is_causal(links: &Vec<Vec<usize>>, order: &Vec<usize>) -> bool {
    let mut seen = vec![false; links.len()];
    for &node in order {
        if node >= links.len() || seen[node] || links[node].iter().any(|&p| !seen[p]) {
            return false;
        }
        seen[node] = true;
    }
    order.len() == links.len()
}

#[test]
fn the_causal_order_of_a_diamond() {
    let links = vec![vec![1, 2], vec![3], vec![3], vec![]];
    let order = causal_order(&links).unwrap();
    assert_eq!(order, vec![3, 1, 2, 0]);
    assert!(is_causal(&links, &order));
}

#[test]
fn the_causal_order_of_a_chain_given_backwards() {
    let links = vec![vec![1], vec![2], vec![3], vec![]];
    assert_eq!(causal_order(&links), Some(vec![3, 2, 1, 0]));
    let links = vec![vec![], vec![0], vec![1]];
    assert_eq!(causal_order(&links), Some(vec![0, 1, 2]));
}

#[test]
fn the_causal_order_of_two_roots_merged_later() {
    let links = vec![vec![], vec![], vec![0, 1], vec![2]];
    let order = causal_order(&links).unwrap();
    assert_eq!(order, vec![0, 1, 2, 3]);
}

#[test]
fn a_circle_has_no_causal_order() {
    assert_eq!(causal_order(&vec![vec![1], vec![0]]), None);
    assert_eq!(causal_order(&vec![vec![0]]), None);
    assert_eq!(causal_order(&vec![vec![], vec![2], vec![1]]), None);
}

#[test]
fn a_link_to_no_node_has_no_causal_order() {
    assert_eq!(causal_order(&vec![vec![7]]), None);
}

#[test]
fn the_empty_graph_has_the_empty_order() {
    assert_eq!(causal_order(&vec![]), Some(vec![]));
}

#[test]
fn a_history_is_replayed_parents_first() {
    let history = History::from_entries(vec![
        node_entry("merge", &["left", "right"]),
        node_entry("left", &["root"]),
        node_entry("right", &["root"]),
        node_entry("root", &[]),
    ])
    .unwrap();
    assert_eq!(history.len(), 4);
    assert_eq!(history.causal_order(), &vec![3, 1, 2, 0]);
    assert_eq!(history.parents_of(0), &vec![1, 2]);
    assert_eq!(history.entry(3).id, "root");
}

#[test]
fn two_entries_with_one_id_are_no_history() {
    let r = History::from_entries(vec![node_entry("a", &[]), node_entry("a", &[])]);
    assert_eq!(r.err(), Some(HistoryError::DuplicateEntry));
}

#[test]
fn a_parent_named_twice_is_no_history() {
    let r = History::from_entries(vec![node_entry("a", &[]), node_entry("b", &["a", "a"])]);
    assert_eq!(r.err(), Some(HistoryError::RepeatedParent));
}

#[test]
fn an_unknown_parent_is_no_history() {
    let r = History::from_entries(vec![node_entry("a", &["ghost"])]);
    assert_eq!(r.err(), Some(HistoryError::UnknownParent));
}

#[test]
fn a_circle_of_parents_is_no_history() {
    let r = History::from_entries(vec![node_entry("a", &["b"]), node_entry("b", &["a"])]);
    assert_eq!(r.err(), Some(HistoryError::Cyclic));
    let r = History::from_entries(vec![node_entry("a", &["a"])]);
    assert_eq!(r.err(), Some(HistoryError::Cyclic));
}

#[test]
fn the_first_fault_is_reported() {
    let r = History::from_entries(vec![
        node_entry("a", &["ghost", "ghost"]),
        node_entry("a", &[]),
    ]);
    assert_eq!(r.err(), Some(HistoryError::DuplicateEntry));
    let r = History::from_entries(vec![node_entry("a", &["ghost", "ghost"])]);
    assert_eq!(r.err(), Some(HistoryError::RepeatedParent));
}

#[test]
fn the_position_of_an_entry_is_found_by_its_id() {
    let entries = vec![node_entry("a", &[]), node_entry("b", &[])];
    assert_eq!(position_of(&entries, &"b".to_string()), Some(1));
    assert_eq!(position_of(&entries, &"c".to_string()), None);
}

#[test]
fn the_change_graph_has_a_node_for_each_entry_and_an_edge_for_each_link() {
    let history = History::from_entries(vec![
        node_entry("merge", &["left", "right"]),
        node_entry("left", &["root"]),
        node_entry("right", &["root"]),
        node_entry("root", &[]),
        node_entry("island", &[]),
    ])
    .unwrap();
    let graph = ChangeGraph::build(&history);
    assert_eq!(graph.nodes.len(), 5);
    assert_eq!(graph.edges.len(), 4);
    assert_eq!(
        graph.edges,
        vec![
            Edge { child: 0, parent: 1 },
            Edge { child: 0, parent: 2 },
            Edge { child: 1, parent: 3 },
            Edge { child: 2, parent: 3 },
        ]
    );
    let ids: Vec<&str> = graph.nodes.iter().map(|n| n.id.as_str()).collect();
    assert_eq!(ids, vec!["merge", "left", "right", "root", "island"]);
    assert_eq!(graph.nodes[0].payload, PayloadKind::Change);
    assert_eq!(graph.nodes[0].size, 3);
}

#[test]
fn the_change_graph_does_not_depend_on_the_order_of_the_entries() {
    let one = History::from_entries(vec![
        node_entry("root", &[]),
        node_entry("left", &["root"]),
        node_entry("right", &["root"]),
    ])
    .unwrap();
    let other = History::from_entries(vec![
        node_entry("right", &["root"]),
        node_entry("left", &["root"]),
        node_entry("root", &[]),
    ])
    .unwrap();
    let a = ChangeGraph::build(&one);
    let b = ChangeGraph::build(&other);
    assert_eq!((a.nodes.len(), a.edges.len()), (3, 2));
    assert_eq!((b.nodes.len(), b.edges.len()), (3, 2));
}

#[test]
fn the_text_of_a_graph_quotes_what_it_must() {
    let graph = ChangeGraph {
        nodes: vec![
            Node {
                id: "a\"b".to_string(),
                author: "back\\slash".to_string(),
                message: "two\nlines".to_string(),
                payload: PayloadKind::Unknown,
                size: 0,
            },
            Node {
                id: "c".to_string(),
                author: String::new(),
                message: String::new(),
                payload: PayloadKind::Change,
                size: 1,
            },
        ],
        edges: vec![Edge { child: 1, parent: 0 }],
    };
    assert_eq!(
        graph.to_dot(),
        "digraph {\n    \"a\\\"b\" [label=\"back\\\\slash: two\\nlines (unknown, 0 bytes)\"];\n    \"c\" [label=\":  (change, 1 bytes)\"];\n    \"c\" -> \"a\\\"b\";\n}\n"
    );
}

#[test]
fn the_text_of_the_empty_graph() {
    let graph = ChangeGraph { nodes: vec![], edges: vec![] };
    assert_eq!(graph.to_dot(), "digraph {\n}\n");
}
