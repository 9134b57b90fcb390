use cob_issues::backend::{Backend, MergeError};
use cob_issues::change::{has_hash, same_bytes, Change, DecodeError};
use cob_issues::edit::{shows_edit, shows_root_put, Deed};
use cob_issues::frontend::{heads_of, shows, AuthorError, Frontend, LocalChange};
use cob_issues::issue::{Comment, Issue, ProjectionError};
use cob_issues::text::{push_decimal, push_quoted};
use cob_issues::value::{find_member, Datum, Member, Step};

fn text(s: &str) -> Datum {
    Datum::Str(s.to_string())
}

fn dict(members: Vec<(&str, Datum)>) -> Datum {
    Datum::Dict(members.into_iter().map(|(k, v)| Member { key: k.to_string(), value: v }).collect())
}

fn member_of<'a>(value: &'a Datum, key: &str) -> &'a Datum {
    value.child(&key.to_string()).unwrap()
}

fn authored(frontend: Frontend, message: &str, edit: LocalChange) -> Change {
    frontend.author_change(&message.to_string(), &edit).unwrap()
}

fn root_change(actor: &[u8], value: Datum) -> Change {
    authored(Frontend::new(actor.to_vec()), "init", LocalChange::Put { path: vec![], value })
}

fn view_of(backend: &Backend, actor: &[u8]) -> Frontend {
    let mut frontend = Frontend::new(actor.to_vec());
    frontend.apply_patch(backend.get_patch());
    frontend
}

fn canon(value: &Datum) -> String {
    match value {
        Datum::List(items) => {
            let inner: Vec<String> = items.iter().map(canon).collect();
            format!("[{}]", inner.join(","))
        }
        Datum::Dict(members) => {
            let mut inner: Vec<String> =
                members.iter().map(|m| format!("{:?}:{}", m.key, canon(&m.value))).collect();
            inner.sort();
            format!("{{{}}}", inner.join(","))
        }
        other => format!("{:?}", other),
    }
}

fn sample() -> Datum {
    dict(vec![
        ("title", text("Bug")),
        ("tags", Datum::List(vec![text("a"), text("b")])),
        ("meta", dict(vec![("open", Datum::Bool(true)), ("votes", Datum::Int(-3))])),
    ])
}

#[test]
fn decode_rejects_empty_input() {
    assert_eq!(Change::decode(Vec::new()).err(), Some(DecodeError::Empty));
}

#[test]
fn decode_rejects_bytes_that_are_no_change() {
    assert_eq!(Change::decode(vec![1, 2, 3, 4]).err(), Some(DecodeError::Malformed));
}

#[test]
fn decode_rejects_a_change_cut_short() {
    let bytes = root_change(b"alice", sample()).encode();
    let cut = bytes[..bytes.len() - 1].to_vec();
    assert_eq!(Change::decode(cut).err(), Some(DecodeError::Malformed));
}

#[test]
fn a_change_survives_its_transportable_form() {
    let change = root_change(b"alice", sample());
    let bytes = change.encode();
    let again = Change::decode(bytes.clone()).unwrap();
    assert_eq!(again.header(), change.header());
    assert_eq!(again.encode(), bytes);
    assert_eq!(change.copy().header(), change.header());
    assert_eq!(change.copy().raw(), change.raw());
}

#[test]
fn a_document_gives_back_what_was_put_into_it() {
    let mut backend = Backend::new();
    let patch = backend.apply_changes(&vec![root_change(b"alice", sample())]).unwrap();
    assert_eq!(patch.changes.len(), 1);
    let value = backend.materialize();
    assert_eq!(canon(&patch.value), canon(&value));
    assert_eq!(
        canon(&value),
        "{\"meta\":{\"open\":Bool(true),\"votes\":Int(-3)},\"tags\":[Str(\"a\"),Str(\"b\")],\"title\":Str(\"Bug\")}"
    );
    assert_eq!(member_of(&value, "title"), &text("Bug"));
    assert_eq!(member_of(&value, "tags"), &Datum::List(vec![text("a"), text("b")]));
    assert_eq!(member_of(member_of(&value, "meta"), "open"), &Datum::Bool(true));
    assert_eq!(member_of(member_of(&value, "meta"), "votes"), &Datum::Int(-3));
    assert!(value.child(&"nothing".to_string()).is_none());
}

#[test]
fn an_empty_backend_holds_an_empty_map() {
    let backend = Backend::new();
    assert_eq!(backend.materialize(), Datum::Dict(vec![]));
    assert!(backend.merged().is_empty());
    assert!(backend.get_patch().changes.is_empty());
}

#[test]
fn merging_a_change_twice_is_merging_it_once() {
    let change = root_change(b"alice", sample());
    let mut backend = Backend::new();
    backend.apply_changes(&vec![change.copy()]).unwrap();
    let once = canon(&backend.materialize());
    let patch = backend.apply_changes(&vec![change.copy(), change]).unwrap();
    assert!(patch.changes.is_empty());
    assert_eq!(canon(&backend.materialize()), once);
    assert_eq!(once, canon(&sample()));
    assert!(backend.materialize().same_tree(&sample()));
    assert_eq!(backend.merged().len(), 1);
}

#[test]
fn a_change_without_its_dependency_is_refused_and_nothing_changes() {
    let root = root_change(b"alice", sample());
    let mut full = Backend::new();
    full.apply_changes(&vec![root.copy()]).unwrap();
    let next = authored(
        view_of(&full, b"bob"),
        "tag",
        LocalChange::Insert {
            path: vec![Step::Key("tags".to_string()), Step::Index(2)],
            value: text("c"),
        },
    );
    let mut backend = Backend::new();
    let r = backend.apply_changes(&vec![next.copy()]);
    assert_eq!(r.err(), Some(MergeError::MissingDependency));
    assert_eq!(backend.materialize(), Datum::Dict(vec![]));
    assert!(backend.merged().is_empty());
    let r = backend.apply_changes(&vec![next.copy(), root.copy()]);
    assert_eq!(r.err(), Some(MergeError::MissingDependency));
    assert!(backend.merged().is_empty());
    let patch = backend.apply_changes(&vec![root, next]).unwrap();
    assert_eq!(patch.changes.len(), 2);
    assert_eq!(
        member_of(&backend.materialize(), "tags"),
        &Datum::List(vec![text("a"), text("b"), text("c")])
    );
}

/// The bytes of a change with the number of the change set to zero and its
/// operations left as they were: the engine refuses such a change once the
/// actor has made a change.
fn renumbered(change: &Change, actor: &[u8]) -> Change {
    let mut bytes = change.encode();
    let at = bytes.windows(actor.len()).position(|w| w == actor).unwrap() + actor.len();
    assert_eq!(bytes[at], 1);
    bytes[at] = 0;
    Change::decode(bytes).unwrap()
}

#[test]
fn a_change_that_the_engine_refuses_is_corrupt_and_nothing_changes() {
    let root = root_change(b"alice", sample());
    let numbered_zero = renumbered(&root, b"alice");
    assert_eq!(numbered_zero.header().seq, 0);
    assert_ne!(numbered_zero.header().id, root.header().id);
    let mut backend = Backend::new();
    backend.apply_changes(&vec![root.copy()]).unwrap();
    let r = backend.apply_changes(&vec![numbered_zero.copy()]);
    assert_eq!(r.err(), Some(MergeError::Corrupt));
    assert_eq!(backend.merged().len(), 1);
    assert!(backend.materialize().same_tree(&sample()));
    let other = root_change(b"bob", dict(vec![("k", Datum::Null)]));
    let r = backend.apply_changes(&vec![other, numbered_zero]);
    assert_eq!(r.err(), Some(MergeError::Corrupt));
    assert_eq!(backend.merged().len(), 1);
    assert!(backend.materialize().same_tree(&sample()));
}

#[test]
fn replicas_that_merge_in_different_orders_agree() {
    let root = root_change(b"alice", sample());
    let mut seed = Backend::new();
    seed.apply_changes(&vec![root.copy()]).unwrap();
    let edit = |who: &[u8], what: &str| {
        authored(
            view_of(&seed, who),
            "tag",
            LocalChange::Insert {
                path: vec![Step::Key("tags".to_string()), Step::Index(2)],
                value: text(what),
            },
        )
    };
    let by_bob = edit(b"bob", "from bob");
    let by_carol = edit(b"carol", "from carol");
    let mut one = Backend::new();
    one.apply_changes(&vec![root.copy(), by_bob.copy(), by_carol.copy()]).unwrap();
    let mut other = Backend::new();
    other.apply_changes(&vec![root.copy()]).unwrap();
    other.apply_changes(&vec![by_carol]).unwrap();
    other.apply_changes(&vec![by_bob]).unwrap();
    assert_eq!(canon(&one.materialize()), canon(&other.materialize()));
    assert!(one.materialize().same_tree(&other.materialize()));
    match member_of(&one.materialize(), "tags") {
        Datum::List(items) => assert_eq!(items.len(), 4),
        other => panic!("no list: {:?}", other),
    }
}

#[test]
fn a_snapshot_restores_the_document() {
    let mut backend = Backend::new();
    backend.apply_changes(&vec![root_change(b"alice", sample())]).unwrap();
    let restored = Backend::load(&backend.save()).unwrap();
    assert_eq!(canon(&restored.materialize()), canon(&backend.materialize()));
    assert_eq!(canon(&restored.materialize()), canon(&sample()));
    assert!(restored.materialize().same_tree(&backend.materialize()));
    assert_eq!(restored.merged().len(), 1);
    assert_eq!(restored.merged()[0].header(), backend.merged()[0].header());
}

#[test]
fn a_backend_is_made_again_from_its_snapshot() {
    let root = root_change(b"alice", sample());
    let mut backend = Backend::new();
    backend.apply_changes(&vec![root]).unwrap();
    let next = authored(
        view_of(&backend, b"bob"),
        "tag",
        LocalChange::Insert {
            path: vec![Step::Key("tags".to_string()), Step::Index(0)],
            value: text("first"),
        },
    );
    backend.apply_changes(&vec![next]).unwrap();
    let again = backend.reload().unwrap();
    assert!(again.materialize().same_tree(&backend.materialize()));
    let headers = |b: &Backend| -> Vec<_> { b.merged().iter().map(|c| c.header().clone()).collect() };
    assert_eq!(headers(&again), headers(&backend));
    assert_eq!(again.save(), backend.save());
}

#[test]
fn a_snapshot_that_is_none_is_refused() {
    assert_eq!(Backend::load(&vec![1, 2, 3]).err(), Some(DecodeError::Malformed));
    assert!(Backend::load(&vec![]).unwrap().merged().is_empty());
    let mut long = vec![9, 0, 0, 0, 0, 0, 0, 0];
    long.extend([1, 2, 3]);
    assert_eq!(Backend::load(&long).err(), Some(DecodeError::Malformed));
    let mut garbage = vec![3, 0, 0, 0, 0, 0, 0, 0];
    garbage.extend([1, 2, 3]);
    assert_eq!(Backend::load(&garbage).err(), Some(DecodeError::Malformed));
    assert_eq!(Backend::load(&vec![0; 8]).err(), Some(DecodeError::Empty));
}

#[test]
fn a_snapshot_holds_each_change_after_its_length() {
    let root = root_change(b"alice", sample());
    let mut backend = Backend::new();
    backend.apply_changes(&vec![root.copy()]).unwrap();
    let bytes = root.encode();
    let mut expected = (bytes.len() as u64).to_le_bytes().to_vec();
    expected.extend(bytes.iter());
    assert_eq!(backend.save(), expected);
    assert_eq!(cob_issues::backend::unframe(&expected), Some(vec![bytes]));
    let mut twice = expected.clone();
    twice.extend(expected.iter());
    assert_eq!(Backend::load(&twice).err(), Some(DecodeError::Malformed));
}

#[test]
fn the_export_is_a_document_of_the_engine() {
    let mut backend = Backend::new();
    backend.apply_changes(&vec![root_change(b"alice", sample())]).unwrap();
    let doc = automerge::Automerge::load(&backend.export()).unwrap();
    assert_eq!(doc.get_heads().len(), 1);
}

#[test]
fn an_actor_without_changes_is_not_turned_away() {
    let numbered_zero = renumbered(&root_change(b"alice", sample()), b"alice");
    let mut backend = Backend::new();
    let patch = backend.apply_changes(&vec![numbered_zero]).unwrap();
    assert_eq!(patch.changes.len(), 1);
    assert!(backend.materialize().same_tree(&sample()));
}

#[test]
fn a_fork_holds_the_same_and_goes_its_own_way() {
    let mut backend = Backend::new();
    backend.apply_changes(&vec![root_change(b"alice", sample())]).unwrap();
    let mut fork = backend.fork();
    assert_eq!(canon(&fork.materialize()), canon(&backend.materialize()));
    let next = authored(
        view_of(&fork, b"bob"),
        "retitle",
        LocalChange::Put { path: vec![Step::Key("title".to_string())], value: text("Feature") },
    );
    fork.apply_changes(&vec![next]).unwrap();
    assert_eq!(member_of(&fork.materialize(), "title"), &text("Feature"));
    assert_eq!(member_of(&backend.materialize(), "title"), &text("Bug"));
}

#[test]
fn an_edit_must_fit_the_document() {
    let mut backend = Backend::new();
    backend.apply_changes(&vec![root_change(b"alice", sample())]).unwrap();
    let refused = |edit: LocalChange| {
        let view = view_of(&backend, b"bob");
        assert!(!view.fits(&edit));
        assert_eq!(view.author_change(&"m".to_string(), &edit).err(), Some(AuthorError::InvalidPath));
    };
    let key = |k: &str| Step::Key(k.to_string());
    refused(LocalChange::Insert { path: vec![key("title"), Step::Index(0)], value: text("x") });
    refused(LocalChange::Insert { path: vec![key("tags"), Step::Index(3)], value: text("x") });
    refused(LocalChange::Insert { path: vec![key("tags"), key("k")], value: text("x") });
    refused(LocalChange::Insert { path: vec![], value: text("x") });
    refused(LocalChange::Put { path: vec![], value: text("x") });
    refused(LocalChange::Put { path: vec![key("tags"), Step::Index(2)], value: text("x") });
    refused(LocalChange::Put { path: vec![key("nothing"), key("k")], value: text("x") });
    refused(LocalChange::Delete { path: vec![key("nothing")] });
    refused(LocalChange::Delete { path: vec![] });
    refused(LocalChange::Delete { path: vec![key("tags"), Step::Index(2)] });
}

#[test]
fn edits_that_fit_are_made() {
    let mut backend = Backend::new();
    backend.apply_changes(&vec![root_change(b"alice", sample())]).unwrap();
    let key = |k: &str| Step::Key(k.to_string());
    let mut make = |backend: &mut Backend, edit: LocalChange| {
        let change = authored(view_of(backend, b"bob"), "edit", edit);
        backend.apply_changes(&vec![change]).unwrap();
    };
    make(&mut backend, LocalChange::Put { path: vec![key("tags"), Step::Index(0)], value: text("z") });
    make(&mut backend, LocalChange::Insert { path: vec![key("tags"), Step::Index(0)], value: Datum::Uint(7) });
    make(&mut backend, LocalChange::Delete { path: vec![key("meta"), key("open")] });
    make(
        &mut backend,
        LocalChange::Put {
            path: vec![key("meta"), key("deep")],
            value: Datum::List(vec![dict(vec![("n", Datum::Null)]), Datum::Bytes(vec![1, 2])]),
        },
    );
    let value = backend.materialize();
    assert_eq!(
        member_of(&value, "tags"),
        &Datum::List(vec![Datum::Uint(7), text("z"), text("b")])
    );
    assert!(member_of(&value, "meta").child(&"open".to_string()).is_none());
    assert_eq!(
        value.at(&vec![key("meta"), key("deep"), Step::Index(0), key("n")]),
        Some(&Datum::Null)
    );
    assert_eq!(
        value.at(&vec![key("meta"), key("deep"), Step::Index(1)]),
        Some(&Datum::Bytes(vec![1, 2]))
    );
    assert_eq!(backend.merged().len(), 5);
    assert_eq!(backend.merged()[4].header().seq, 4);
}

#[test]
fn a_value_that_the_engine_cannot_hold_is_not_written() {
    let view = Frontend::new(b"alice".to_vec());
    let edit = LocalChange::Put { path: vec![], value: dict(vec![("x", Datum::Float(7))]) };
    assert!(view.fits(&edit));
    assert_eq!(view.author_change(&"m".to_string(), &edit).err(), Some(AuthorError::Engine));
}

#[test]
fn a_view_takes_changes_and_their_value() {
    let root = root_change(b"alice", sample());
    let mut view = Frontend::new(b"bob".to_vec());
    view.adopt(vec![root.copy()], sample());
    assert!(view.state().same_tree(&sample()));
    let next = authored(
        view,
        "retitle",
        LocalChange::Put { path: vec![Step::Key("title".to_string())], value: text("T") },
    );
    assert_eq!(next.header().deps, vec![root.header().id.clone()]);
    assert_eq!(next.header().seq, 1);
    assert_eq!(next.header().actor, b"bob".to_vec());
    let mut stale = Frontend::new(b"bob".to_vec());
    stale.adopt(vec![root], dict(vec![("title", text("Other"))]));
    let r = stale.author_change(
        &"retitle".to_string(),
        &LocalChange::Put { path: vec![Step::Key("title".to_string())], value: text("T") },
    );
    assert_eq!(r.err(), Some(AuthorError::Engine));
}

#[test]
fn the_frontier_is_what_nothing_depends_on() {
    let root = root_change(b"alice", sample());
    let mut backend = Backend::new();
    backend.apply_changes(&vec![root.copy()]).unwrap();
    assert_eq!(heads_of(&backend.merged()), vec![root.header().id.clone()]);
    let edit = |who: &[u8]| {
        authored(
            view_of(&backend, who),
            "t",
            LocalChange::Put { path: vec![Step::Key("title".to_string())], value: text("T") },
        )
    };
    let (b, c) = (edit(b"bob"), edit(b"carol"));
    let ids = vec![b.header().id.clone(), c.header().id.clone()];
    backend.apply_changes(&vec![b, c]).unwrap();
    assert_eq!(heads_of(&backend.merged()), ids);
    assert!(heads_of(&vec![]).is_empty());
}

#[test]
fn what_the_engine_made_is_checked_before_it_is_handed_out() {
    let view = Frontend::new(b"alice".to_vec());
    assert_eq!(view.seal(&"m".to_string(), None).err(), Some(AuthorError::Engine));
    assert_eq!(view.seal(&"m".to_string(), Some(vec![1, 2])).err(), Some(AuthorError::Engine));
    let by_bob = root_change(b"bob", sample()).encode();
    assert_eq!(view.seal(&"init".to_string(), Some(by_bob)).err(), Some(AuthorError::Engine));
    let by_alice = root_change(b"alice", sample()).encode();
    assert_eq!(
        view.seal(&"other".to_string(), Some(by_alice.clone())).err(),
        Some(AuthorError::Engine)
    );
    assert!(view.seal(&"init".to_string(), Some(by_alice)).is_ok());
}

#[test]
fn an_issue_is_read_from_its_value_tree() {
    let value = dict(vec![
        ("extra", Datum::Null),
        ("comments", Datum::List(vec![dict(vec![("comment", text("c")), ("author", text("b"))])])),
        ("author", text("a")),
        ("description", text("d")),
        ("title", text("t")),
    ]);
    let issue = Issue::from_value(&value).unwrap();
    assert_eq!(
        issue,
        Issue {
            title: "t".to_string(),
            description: "d".to_string(),
            comments: vec![Comment { comment: "c".to_string(), author: "b".to_string() }],
            author: "a".to_string(),
        }
    );
    assert_eq!(Issue::from_value(&issue.to_value()), Ok(issue.clone()));
    assert_eq!(member_of(&issue.to_value(), "title"), &text("t"));
}

#[test]
fn what_keeps_a_value_tree_from_being_an_issue() {
    let full = |comments: Datum| {
        vec![
            ("title", text("t")),
            ("description", text("d")),
            ("author", text("a")),
            ("comments", comments),
        ]
    };
    let without = |key: &str| {
        dict(full(Datum::List(vec![])).into_iter().filter(|(k, _)| *k != key).collect())
    };
    assert_eq!(Issue::from_value(&Datum::List(vec![])), Err(ProjectionError::NotAMap));
    assert_eq!(Issue::from_value(&text("t")), Err(ProjectionError::NotAMap));
    assert_eq!(Issue::from_value(&without("title")), Err(ProjectionError::Title));
    assert_eq!(Issue::from_value(&without("description")), Err(ProjectionError::Description));
    assert_eq!(Issue::from_value(&without("author")), Err(ProjectionError::Author));
    assert_eq!(Issue::from_value(&without("comments")), Err(ProjectionError::Comments));
    assert_eq!(Issue::from_value(&dict(full(text("none")))), Err(ProjectionError::Comments));
    let good = || dict(vec![("comment", text("c")), ("author", text("b"))]);
    let bad = dict(vec![("comment", text("c")), ("author", Datum::Int(1))]);
    assert_eq!(
        Issue::from_value(&dict(full(Datum::List(vec![good(), bad, text("x")])))),
        Err(ProjectionError::Comment(1))
    );
    let mut wrong_title = full(Datum::List(vec![good()]));
    wrong_title[0].1 = Datum::Bool(false);
    assert_eq!(Issue::from_value(&dict(wrong_title)), Err(ProjectionError::Title));
    assert_eq!(Issue::from_value(&dict(vec![])), Err(ProjectionError::Title));
}

#[test]
fn two_values_are_the_same_tree_whatever_the_order_of_their_members() {
    let one = dict(vec![("a", Datum::Int(1)), ("b", Datum::List(vec![text("x"), Datum::Null]))]);
    let other = dict(vec![("b", Datum::List(vec![text("x"), Datum::Null])), ("a", Datum::Uint(1))]);
    assert!(one.same_tree(&other));
    assert!(other.same_tree(&one));
    assert_ne!(one, other);
    let shadowed = dict(vec![("a", Datum::Int(1)), ("a", Datum::Int(2))]);
    assert!(shadowed.same_tree(&dict(vec![("a", Datum::Int(1))])));
    assert!(!shadowed.same_tree(&dict(vec![("a", Datum::Int(2))])));
}

#[test]
fn two_values_that_differ_are_not_the_same_tree() {
    let base = || dict(vec![("a", Datum::Int(1)), ("b", Datum::List(vec![text("x")]))]);
    assert!(!base().same_tree(&dict(vec![("a", Datum::Int(1))])));
    assert!(!dict(vec![("a", Datum::Int(1))]).same_tree(&base()));
    assert!(!base().same_tree(&dict(vec![("a", Datum::Int(1)), ("b", Datum::List(vec![text("y")]))])));
    assert!(!base().same_tree(&dict(vec![("a", Datum::Int(1)), ("b", Datum::List(vec![]))])));
    assert!(!base().same_tree(&dict(vec![("a", Datum::Int(1)), ("c", Datum::List(vec![text("x")]))])));
    assert!(!Datum::Int(-1).same_tree(&Datum::Uint(u64::MAX)));
    assert!(!Datum::Uint(u64::MAX).same_tree(&Datum::Int(-1)));
    assert!(Datum::Uint(9).same_tree(&Datum::Int(9)));
    assert!(!Datum::Null.same_tree(&Datum::Bool(false)));
    assert!(!text("1").same_tree(&Datum::Int(1)));
    assert!(Datum::Float(7).same_tree(&Datum::Float(7)));
    assert!(!Datum::Float(7).same_tree(&Datum::Float(8)));
    assert!(Datum::Bytes(vec![1]).same_tree(&Datum::Bytes(vec![1])));
    assert!(!Datum::Bytes(vec![1]).same_tree(&Datum::Bytes(vec![2])));
    assert!(!Datum::List(vec![]).same_tree(&Datum::Dict(vec![])));
}

#[test]
fn a_value_shows_an_edit_of_another() {
    let key = |k: &str| Step::Key(k.to_string());
    let old = sample();
    let with_tags = |tags: Vec<Datum>| {
        dict(vec![
            ("meta", dict(vec![("votes", Datum::Int(-3)), ("open", Datum::Bool(true))])),
            ("tags", Datum::List(tags)),
            ("title", text("Bug")),
        ])
    };
    let insert = LocalChange::Insert { path: vec![key("tags"), Step::Index(1)], value: text("x") };
    assert!(shows(&old, &with_tags(vec![text("a"), text("x"), text("b")]), &insert));
    assert!(!shows(&old, &with_tags(vec![text("a"), text("b"), text("x")]), &insert));
    assert!(!shows(&old, &with_tags(vec![text("a"), text("x")]), &insert));
    let put = LocalChange::Put { path: vec![key("tags"), Step::Index(1)], value: text("x") };
    assert!(shows(&old, &with_tags(vec![text("a"), text("x")]), &put));
    assert!(!shows(&old, &with_tags(vec![text("x"), text("b")]), &put));
    let delete = LocalChange::Delete { path: vec![key("tags"), Step::Index(0)] };
    assert!(shows(&old, &with_tags(vec![text("b")]), &delete));
    assert!(!shows(&old, &with_tags(vec![text("a")]), &delete));
    let deep = LocalChange::Put { path: vec![key("meta"), key("votes")], value: Datum::Int(4) };
    let voted = dict(vec![
        ("title", text("Bug")),
        ("tags", Datum::List(vec![text("a"), text("b")])),
        ("meta", dict(vec![("open", Datum::Bool(true)), ("votes", Datum::Int(4))])),
    ]);
    assert!(shows(&old, &voted, &deep));
    assert!(!shows(&old, &old, &deep));
    let gone = LocalChange::Delete { path: vec![key("title")] };
    let untitled = dict(vec![
        ("tags", Datum::List(vec![text("a"), text("b")])),
        ("meta", dict(vec![("open", Datum::Bool(true)), ("votes", Datum::Int(-3))])),
    ]);
    assert!(shows(&old, &untitled, &gone));
    assert!(!shows(&old, &voted, &gone));
    let root = LocalChange::Put { path: vec![], value: dict(vec![("title", text("New")), ("n", Datum::Null)]) };
    let merged = dict(vec![
        ("n", Datum::Null),
        ("title", text("New")),
        ("tags", Datum::List(vec![text("a"), text("b")])),
        ("meta", dict(vec![("open", Datum::Bool(true)), ("votes", Datum::Int(-3))])),
    ]);
    assert!(shows(&old, &merged, &root));
    assert!(!shows(&old, &old, &root));
    assert!(!shows(&old, &old, &LocalChange::Insert { path: vec![], value: Datum::Null }));
    assert!(!shows(&old, &old, &LocalChange::Delete { path: vec![] }));
}

#[test]
fn an_edit_that_cannot_be_made_is_not_shown() {
    let key = |k: &str| Step::Key(k.to_string());
    let old = sample();
    let same = sample();
    assert!(!shows_edit(&old, &same, &vec![key("title"), key("x")], 0, &Deed::Put(&Datum::Null)));
    assert!(!shows_edit(&old, &same, &vec![key("tags"), Step::Index(2)], 0, &Deed::Delete));
    assert!(!shows_edit(&old, &same, &vec![key("tags"), Step::Index(3)], 0, &Deed::Insert(&Datum::Null)));
    assert!(!shows_edit(&old, &same, &vec![key("tags")], 0, &Deed::Insert(&Datum::Null)));
    assert!(!shows_edit(&old, &same, &vec![Step::Index(0)], 0, &Deed::Delete));
    assert!(shows_edit(&old, &same, &vec![key("nothing")], 0, &Deed::Delete));
    assert!(shows_edit(&old, &same, &vec![key("title")], 0, &Deed::Put(&text("Bug"))));
    assert!(shows_edit(&old, &same, &vec![key("x"), key("tags"), Step::Index(0)], 1, &Deed::Put(&text("a"))));
    assert!(!shows_root_put(&text("t"), &dict(vec![]), &text("t")));
    assert!(!shows_root_put(&old, &text("t"), &same));
    assert!(!shows_root_put(&old, &dict(vec![]), &text("t")));
    assert!(shows_root_put(&old, &dict(vec![]), &same));
    assert!(shows_root_put(&dict(vec![]), &old, &same));
    assert!(!shows_root_put(&old, &dict(vec![("title", text("T"))]), &same));
}

#[test]
fn the_first_member_of_a_key_counts() {
    let members = vec![
        Member { key: "k".to_string(), value: Datum::Int(1) },
        Member { key: "k".to_string(), value: Datum::Int(2) },
    ];
    assert_eq!(find_member(&members, &"k".to_string()), Some(&Datum::Int(1)));
    assert_eq!(find_member(&members, &"j".to_string()), None);
}

#[test]
fn a_path_leads_into_a_value_step_by_step() {
    let value = sample();
    let key = |k: &str| Step::Key(k.to_string());
    assert_eq!(value.at(&vec![]), Some(&value));
    assert_eq!(value.at(&vec![key("tags"), Step::Index(1)]), Some(&text("b")));
    assert_eq!(value.at(&vec![key("tags"), Step::Index(2)]), None);
    assert_eq!(value.at(&vec![key("title"), key("x")]), None);
    assert_eq!(value.at_prefix(&vec![key("tags"), Step::Index(9)], 1), member_of(&value, "tags").step(&Step::Index(9)).or(Some(member_of(&value, "tags"))));
    assert_eq!(value.step(&Step::Index(0)), None);
    assert_eq!(text("t").text(), Some(&"t".to_string()));
    assert_eq!(Datum::Null.text(), None);
    assert_eq!(Datum::Null.items(), None);
}

#[test]
fn text_between_quotes() {
    let mut out = String::from("<");
    push_quoted(&mut out, &"a\"b\\c\nd é".to_string());
    assert_eq!(out, "<a\\\"b\\\\c\\nd é");
}

#[test]
fn numbers_in_decimal() {
    let mut out = String::new();
    for n in [0usize, 7, 10, 905, 1234567890] {
        push_decimal(&mut out, n);
        out.push(' ');
    }
    assert_eq!(out, "0 7 10 905 1234567890 ");
}

#[test]
fn byte_strings_are_compared_and_found() {
    assert!(same_bytes(&vec![1, 2], &vec![1, 2]));
    assert!(!same_bytes(&vec![1, 2], &vec![1, 3]));
    assert!(!same_bytes(&vec![1, 2], &vec![1]));
    assert!(has_hash(&vec![vec![1], vec![2, 3]], &vec![2, 3]));
    assert!(!has_hash(&vec![vec![1], vec![2, 3]], &vec![2]));
}
