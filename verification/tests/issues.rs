use cob_issues::backend::Backend;
use cob_issues::change::Change;
use cob_issues::evaluate::{evaluate_history, Outcome, SkipReason};
use cob_issues::frontend::AuthorError;
use cob_issues::history::{Contents, Entry, History};
use cob_issues::issue::{Comment, Issue, ProjectionError};
use cob_issues::history::HistoryError;
use cob_issues::lifecycle::{
    actor_of, add_comment, change_graph_text, create, initial_doc, list, retrieve, Object, Row,
    RowFault,
};

const ALICE: &str = "rad:git:hnrkalice";
const BOB: &str = "rad:git:hnrkbob";

fn entry_of(id: &str, parents: &[&str], author: &str, contents: Contents) -> Entry {
    Entry {
        id: id.to_string(),
        parents: parents.iter().map(|p| p.to_string()).collect(),
        author: author.to_string(),
        contents,
        message: format!("entry {}", id),
    }
}

fn created(title: &str, description: &str) -> Contents {
    initial_doc(ALICE.to_string(), title.to_string(), description.to_string()).unwrap()
}

fn commented(history: &History, author: &str, comment: &str) -> Contents {
    let mut evaluation = retrieve(Some(history), actor_of(&author.to_string())).unwrap();
    add_comment(&mut evaluation.backend, &author.to_string(), comment.to_string()).unwrap()
}

fn bytes_of(contents: &Contents) -> Vec<u8> {
    match contents {
        Contents::Automerge(bytes) => bytes.clone(),
        Contents::Unknown => panic!("no change"),
    }
}

#[test]
fn create_then_retrieve_gives_the_issue() {
    let root = created("Bug", "desc");
    let history = History::from_entries(vec![entry_of("e1", &[], ALICE, root)]).unwrap();
    let evaluation = retrieve(Some(&history), actor_of(&ALICE.to_string())).unwrap();
    let issue = Issue::from_value(evaluation.frontend.state()).unwrap();
    assert_eq!(
        issue,
        Issue {
            title: "Bug".to_string(),
            description: "desc".to_string(),
            comments: vec![],
            author: ALICE.to_string(),
        }
    );
    assert_eq!(evaluation.visits.len(), 1);
    assert_eq!(evaluation.visits[0].entry, 0);
    assert_eq!(evaluation.visits[0].outcome, Outcome::Merged);
}

#[test]
fn the_first_change_gives_the_issue_and_nothing_else() {
    let change = Change::decode(bytes_of(&created("Bug", "desc"))).unwrap();
    let mut backend = Backend::new();
    backend.apply_changes(&vec![change]).unwrap();
    let expected = Issue {
        title: "Bug".to_string(),
        description: "desc".to_string(),
        comments: vec![],
        author: ALICE.to_string(),
    };
    assert!(backend.materialize().same_tree(&expected.to_value()));
}

#[test]
fn create_gives_the_history_of_a_new_issue() {
    let history =
        create("e1".to_string(), ALICE.to_string(), "Bug".to_string(), "desc".to_string()).unwrap();
    assert_eq!(history.len(), 1);
    let root = history.entry(0);
    assert_eq!(root.id, "e1");
    assert_eq!(root.author, ALICE);
    assert!(root.parents.is_empty());
    assert_eq!(root.message, "create issue");
    assert_eq!(root.contents, created("Bug", "desc"));
    let issue = Issue::from_history(&history).unwrap();
    assert_eq!((issue.title.as_str(), issue.description.as_str()), ("Bug", "desc"));
    assert_eq!(issue.author, ALICE);
    assert!(issue.comments.is_empty());
}

#[test]
fn the_first_change_has_no_dependencies_and_number_one() {
    let change = Change::decode(bytes_of(&created("Bug", "desc"))).unwrap();
    let header = change.header();
    assert_eq!(header.actor, ALICE.as_bytes().to_vec());
    assert_eq!(header.seq, 1);
    assert!(header.deps.is_empty());
    assert_eq!(header.message, Some("create issue".to_string()));
    assert_eq!(header.id.len(), 32);
}

#[test]
fn two_comments_come_back_in_the_order_of_insertion() {
    let root = created("Bug", "desc");
    let h1 = History::from_entries(vec![entry_of("e1", &[], ALICE, root.clone())]).unwrap();
    let first = commented(&h1, ALICE, "looks good");
    let h2 = History::from_entries(vec![
        entry_of("e1", &[], ALICE, root.clone()),
        entry_of("e2", &["e1"], ALICE, first.clone()),
    ])
    .unwrap();
    let second = commented(&h2, BOB, "looks good");
    let h3 = History::from_entries(vec![
        entry_of("e1", &[], ALICE, root),
        entry_of("e2", &["e1"], ALICE, first),
        entry_of("e3", &["e2"], BOB, second),
    ])
    .unwrap();
    let issue = Issue::from_history(&h3).unwrap();
    assert_eq!(
        issue.comments,
        vec![
            Comment { comment: "looks good".to_string(), author: ALICE.to_string() },
            Comment { comment: "looks good".to_string(), author: BOB.to_string() },
        ]
    );
    assert_eq!(issue.title, "Bug");
}

#[test]
fn a_comment_change_carries_the_next_number_and_the_frontier() {
    let root = created("Bug", "desc");
    let root_id = Change::decode(bytes_of(&root)).unwrap().header().id.clone();
    let h1 = History::from_entries(vec![entry_of("e1", &[], ALICE, root)]).unwrap();
    let by_alice = Change::decode(bytes_of(&commented(&h1, ALICE, "mine"))).unwrap();
    assert_eq!(by_alice.header().seq, 2);
    assert_eq!(by_alice.header().deps, vec![root_id.clone()]);
    assert_eq!(by_alice.header().message, Some("add comment".to_string()));
    let by_bob = Change::decode(bytes_of(&commented(&h1, BOB, "yours"))).unwrap();
    assert_eq!(by_bob.header().seq, 1);
    assert_eq!(by_bob.header().actor, BOB.as_bytes().to_vec());
    assert_eq!(by_bob.header().deps, vec![root_id]);
}

#[test]
fn concurrent_comments_are_both_kept_in_one_order() {
    let root = created("Bug", "desc");
    let h1 = History::from_entries(vec![entry_of("e1", &[], ALICE, root.clone())]).unwrap();
    let from_alice = commented(&h1, ALICE, "from alice");
    let from_bob = commented(&h1, BOB, "from bob");
    let one = History::from_entries(vec![
        entry_of("e1", &[], ALICE, root.clone()),
        entry_of("ea", &["e1"], ALICE, from_alice.clone()),
        entry_of("eb", &["e1"], BOB, from_bob.clone()),
    ])
    .unwrap();
    let other = History::from_entries(vec![
        entry_of("eb", &["e1"], BOB, from_bob),
        entry_of("ea", &["e1"], ALICE, from_alice),
        entry_of("e1", &[], ALICE, root),
    ])
    .unwrap();
    let first = Issue::from_history(&one).unwrap();
    let second = Issue::from_history(&other).unwrap();
    assert_eq!(first.comments.len(), 2);
    assert_eq!(first, second);
    let mut texts: Vec<String> = first.comments.iter().map(|c| c.comment.clone()).collect();
    texts.sort();
    assert_eq!(texts, vec!["from alice".to_string(), "from bob".to_string()]);
}

fn merged_hashes(history: &History) -> Vec<Vec<u8>> {
    let evaluation = evaluate_history(history, Vec::new());
    assert!(evaluation
        .visits
        .iter()
        .all(|v| v.outcome == Outcome::Merged || v.outcome == Outcome::Duplicate));
    let mut hashes: Vec<Vec<u8>> =
        evaluation.backend.merged().iter().map(|c| c.header().id.clone()).collect();
    hashes.sort();
    hashes
}

#[test]
fn replays_in_two_orders_merge_the_same_changes() {
    let root = created("Bug", "desc");
    let h1 = History::from_entries(vec![entry_of("e1", &[], ALICE, root.clone())]).unwrap();
    let from_alice = commented(&h1, ALICE, "from alice");
    let from_bob = commented(&h1, BOB, "from bob");
    let one = History::from_entries(vec![
        entry_of("e1", &[], ALICE, root.clone()),
        entry_of("ea", &["e1"], ALICE, from_alice.clone()),
        entry_of("eb", &["e1"], BOB, from_bob.clone()),
    ])
    .unwrap();
    let other = History::from_entries(vec![
        entry_of("eb", &["e1"], BOB, from_bob.clone()),
        entry_of("ex", &["eb"], BOB, from_bob.clone()),
        entry_of("ea", &["e1"], ALICE, from_alice.clone()),
        entry_of("e1", &[], ALICE, root),
    ])
    .unwrap();
    let first = merged_hashes(&one);
    let second = merged_hashes(&other);
    assert_eq!(first.len(), 3);
    assert_eq!(first, second);
    let carried: Vec<Vec<u8>> = [&from_alice, &from_bob]
        .iter()
        .map(|c| Change::decode(bytes_of(c)).unwrap().header().id.clone())
        .collect();
    assert!(carried.iter().all(|id| first.contains(id)));
}

#[test]
fn a_change_that_comes_again_later_is_a_duplicate() {
    let root = created("Bug", "desc");
    let h1 = History::from_entries(vec![entry_of("e1", &[], ALICE, root.clone())]).unwrap();
    let comment = commented(&h1, BOB, "once");
    let history = History::from_entries(vec![
        entry_of("e1", &[], ALICE, root),
        entry_of("e2", &["e1"], BOB, comment.clone()),
        entry_of("e3", &["e2"], BOB, comment),
    ])
    .unwrap();
    let evaluation = evaluate_history(&history, Vec::new());
    let outcomes: Vec<Outcome> = evaluation.visits.iter().map(|v| v.outcome).collect();
    assert_eq!(outcomes, vec![Outcome::Merged, Outcome::Merged, Outcome::Duplicate]);
    assert_eq!(evaluation.backend.merged().len(), 2);
    let issue = Issue::from_value(evaluation.frontend.state()).unwrap();
    assert_eq!(
        issue.comments,
        vec![Comment { author: BOB.to_string(), comment: "once".to_string() }]
    );
}

#[test]
fn an_unknown_object_is_not_found() {
    assert!(retrieve(None, actor_of(&ALICE.to_string())).is_none());
}

#[test]
fn a_listing_goes_on_after_an_object_that_holds_no_issue() {
    let good = |id: &str, title: &str| Object {
        id: id.to_string(),
        history: History::from_entries(vec![entry_of("e1", &[], ALICE, created(title, "d"))]),
    };
    let broken = Object {
        id: "o2".to_string(),
        history: History::from_entries(vec![entry_of(
            "e1",
            &[],
            ALICE,
            Contents::Automerge(vec![0x85, 0x6f, 0x4a, 0x83, 1, 2, 3]),
        )]),
    };
    let circular = Object {
        id: "o4".to_string(),
        history: History::from_entries(vec![entry_of("e1", &["e1"], ALICE, Contents::Unknown)]),
    };
    let rows = list(&vec![good("o1", "First"), broken, good("o3", "Third"), circular]);
    let texts: Vec<String> = rows.iter().map(|r| r.text()).collect();
    assert_eq!(
        texts,
        vec![
            "o1\tFirst".to_string(),
            "o2: failed to deserialize: missing field `title`".to_string(),
            "o3\tThird".to_string(),
            "o4: failed to deserialize: the parent links run in a circle".to_string(),
        ]
    );
    assert_eq!(rows[1].issue, Err(RowFault::Reading(ProjectionError::Title)));
    assert_eq!(rows[3].issue, Err(RowFault::History(HistoryError::Cyclic)));
}

#[test]
fn a_row_names_the_comment_that_is_none() {
    let row = |fault: RowFault| Row { id: "o9".to_string(), issue: Err(fault) }.text();
    assert_eq!(
        row(RowFault::Reading(ProjectionError::Comment(120))),
        "o9: failed to deserialize: comment 120 is no comment"
    );
    assert_eq!(
        row(RowFault::Reading(ProjectionError::NotAMap)),
        "o9: failed to deserialize: the document is no map"
    );
    assert_eq!(
        row(RowFault::History(HistoryError::DuplicateEntry)),
        "o9: failed to deserialize: two entries have the same id"
    );
    assert_eq!(
        row(RowFault::History(HistoryError::UnknownParent)),
        "o9: failed to deserialize: an entry names an unknown parent"
    );
    assert_eq!(
        row(RowFault::History(HistoryError::RepeatedParent)),
        "o9: failed to deserialize: an entry names a parent twice"
    );
}

#[test]
fn a_malformed_entry_is_passed_over_and_the_rest_is_replayed() {
    let root = created("Bug", "desc");
    let history = History::from_entries(vec![
        entry_of("e1", &[], ALICE, root.clone()),
        entry_of("e2", &["e1"], BOB, Contents::Automerge(vec![9, 9, 9])),
        entry_of("e3", &["e1"], BOB, Contents::Unknown),
        entry_of("e4", &["e2", "e3"], ALICE, root),
        entry_of("e5", &["e4"], ALICE, Contents::Automerge(vec![])),
    ])
    .unwrap();
    let evaluation = evaluate_history(&history, Vec::new());
    let outcomes: Vec<(usize, Outcome)> =
        evaluation.visits.iter().map(|v| (v.entry, v.outcome)).collect();
    assert_eq!(
        outcomes,
        vec![
            (0, Outcome::Merged),
            (1, Outcome::Skipped(SkipReason::Decode(cob_issues::change::DecodeError::Malformed))),
            (2, Outcome::Skipped(SkipReason::UnknownFormat)),
            (3, Outcome::Duplicate),
            (4, Outcome::Skipped(SkipReason::Decode(cob_issues::change::DecodeError::Empty))),
        ]
    );
    assert_eq!(Issue::from_value(evaluation.frontend.state()).unwrap().title, "Bug");
}

#[test]
fn a_comment_whose_parent_entry_was_lost_misses_its_dependency() {
    let root = created("Bug", "desc");
    let h1 = History::from_entries(vec![entry_of("e1", &[], ALICE, root)]).unwrap();
    let comment = commented(&h1, BOB, "orphan");
    let history = History::from_entries(vec![
        entry_of("e1", &[], ALICE, Contents::Unknown),
        entry_of("e2", &["e1"], BOB, comment),
    ])
    .unwrap();
    let evaluation = evaluate_history(&history, Vec::new());
    assert_eq!(evaluation.visits[1].outcome, Outcome::Skipped(SkipReason::MissingDependency));
    assert_eq!(
        Issue::from_value(evaluation.frontend.state()),
        Err(ProjectionError::Title)
    );
}

#[test]
fn an_entry_that_the_engine_refuses_is_passed_over() {
    let root = created("Bug", "desc");
    let mut numbered_zero = bytes_of(&root);
    let actor = ALICE.as_bytes();
    let at = numbered_zero.windows(actor.len()).position(|w| w == actor).unwrap() + actor.len();
    assert_eq!(numbered_zero[at], 1);
    numbered_zero[at] = 0;
    let history = History::from_entries(vec![
        entry_of("e1", &[], ALICE, root),
        entry_of("e2", &["e1"], ALICE, Contents::Automerge(numbered_zero)),
    ])
    .unwrap();
    let evaluation = evaluate_history(&history, Vec::new());
    assert_eq!(evaluation.visits[0].outcome, Outcome::Merged);
    assert_eq!(evaluation.visits[1].outcome, Outcome::Skipped(SkipReason::Corrupt));
    assert_eq!(evaluation.backend.merged().len(), 1);
    assert_eq!(Issue::from_value(evaluation.frontend.state()).unwrap().title, "Bug");
}

#[test]
fn a_comment_needs_a_list_of_comments() {
    let mut backend = Backend::new();
    let r = add_comment(&mut backend, &ALICE.to_string(), "nowhere".to_string());
    assert_eq!(r, Err(AuthorError::InvalidPath));
    assert_eq!(backend.merged().len(), 0);
}

#[test]
fn the_change_graph_of_a_history_is_drawn() {
    let history = History::from_entries(vec![
        entry_of("e1", &[], ALICE, Contents::Unknown),
        entry_of("e2", &["e1"], BOB, Contents::Automerge(vec![0; 12])),
    ])
    .unwrap();
    assert_eq!(
        change_graph_text(&history),
        "digraph {\n    \"e1\" [label=\"rad:git:hnrkalice: entry e1 (unknown, 0 bytes)\"];\n    \"e2\" [label=\"rad:git:hnrkbob: entry e2 (change, 12 bytes)\"];\n    \"e2\" -> \"e1\";\n}\n"
    );
}
