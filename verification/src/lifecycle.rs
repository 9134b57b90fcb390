//! What is done with an issue: it is created, retrieved, commented on,
//! listed, and its change graph is drawn.

use crate::backend::{absorb, absorb_all, facts_of, ids_seq, lemma_ids_push, Backend, MergeError};
use crate::change::{decode_spec, Change};
use crate::changegraph::{dot_text, edges_of, nodes_of, ChangeGraph};
use crate::crdt::{engine_made, merged_tree, ChangeFacts};
use crate::evaluate::{evaluate_history, log_after, replay_of, Evaluation, Visit};
use crate::frontend::{
    authored, edit_fits, stamped, AuthorError, EditPlan, EditView, Frontend, LocalChange,
};
use crate::dag::{is_causal_order, occurs_before};
use crate::history::{
    acyclic, fault_of, links_resolve, row_resolves, strings_distinct, Contents, Entry, History,
    HistoryError,
};
use crate::issue::{
    comment_plan, comment_tree, comment_views, issue_of, issue_plan, issue_tree, Comment,
    CommentView, Issue, IssueView, ProjectionError,
};
use crate::text::{decimal, push_decimal};
use crate::value::{step_views, tree_at, Datum, Step, StepView, Tree};
use vstd::prelude::*;

verus! {

/// The actor of an author: the bytes of the author's identity.
pub open spec fn actor_spec(author: Seq<char>) -> Seq<u8> {
    vstd::utf8::encode_utf8(author)
}

/// The actor of an author: the bytes of the author's identity.
pub fn actor_of(author: &String) -> (actor: Vec<u8>)
    ensures
        actor@ == actor_spec(author@),
{
    author.as_str().as_bytes_vec()
}

/// The items of the list `comments` of a document.
pub open spec fn comments_in(tree: Tree) -> Option<Seq<Tree>> {
    match Datum::child_spec(tree, "comments"@) {
        Some(Tree::List(items)) => Some(items),
        _ => None,
    }
}

/// The document `after` has the comments of `before`, and after them one
/// more, which is `c`.
pub open spec fn comment_added(before: Tree, after: Tree, c: CommentView) -> bool {
    &&& comments_in(before) is Some
    &&& comments_in(after) == Some(comments_in(before).unwrap().push(comment_tree(c)))
}

/// The document with one comment more at the end of its list `comments`.
/// Nothing else is changed.
pub open spec fn commented(tree: Tree, c: CommentView) -> Tree {
    match (tree, comments_in(tree)) {
        (Tree::Dict(m), Some(items)) => Tree::Dict(
            m.insert("comments"@, Tree::List(items.push(comment_tree(c)))),
        ),
        _ => tree,
    }
}

/// A comment extends the issue: where a document is read as an issue, the
/// document with one comment more is read as that issue with the comment
/// after its comments.
pub proof fn law_comment_extends_issue(tree: Tree, c: CommentView)
    requires
        issue_of(tree) is Ok,
    ensures
        issue_of(commented(tree, c)) == Ok::<IssueView, ProjectionError>(
            IssueView {
                title: issue_of(tree).unwrap().title,
                description: issue_of(tree).unwrap().description,
                comments: issue_of(tree).unwrap().comments.push(c),
                author: issue_of(tree).unwrap().author,
            },
        ),
{
    reveal_strlit("title");
    reveal_strlit("description");
    reveal_strlit("author");
    reveal_strlit("comments");
    reveal_strlit("comment");
    assert("title"@.len() == 5 && "description"@.len() == 11 && "author"@.len() == 6
        && "comments"@.len() == 8 && "comment"@.len() == 7);
    let items = comments_in(tree).unwrap();
    let more = items.push(comment_tree(c));
    assert(more.drop_last() =~= items);
    assert(more.last() == comment_tree(c));
    assert(crate::issue::comment_of(comment_tree(c)) == Some(c));
}

/// The items of the list `comments` of a document.
fn comments_of_datum(value: &Datum) -> (r: Option<&Vec<Datum>>)
    ensures
        r matches Some(items) ==> comments_in(value.tree()) == Some(
            crate::value::values_tree(items@),
        ),
        r is None ==> comments_in(value.tree()) is None,
{
    let key = String::from_str("comments");
    match value.child(&key) {
        Some(list) => list.items(),
        None => None,
    }
}

/// A new issue as plain values: no comments yet.
pub open spec fn new_issue(author: Seq<char>, title: Seq<char>, description: Seq<char>) -> IssueView {
    IssueView { title, description, comments: Seq::<CommentView>::empty(), author }
}

/// The first change of an issue, as the engine makes it: the bytes of the
/// change that puts the issue into the root of an empty document, for the
/// author's actor and with the message `create issue`; nothing where the
/// engine does not make that change.
pub open spec fn first_change(author: Seq<char>, title: Seq<char>, description: Seq<char>) -> Option<
    Seq<u8>,
> {
    authored(
        actor_spec(author),
        Seq::<ChangeFacts>::empty(),
        "create issue"@,
        EditPlan::Put {
            path: Seq::<StepView>::empty(),
            value: issue_plan(new_issue(author, title, description)),
        },
        EditView::Put {
            path: Seq::<StepView>::empty(),
            value: issue_tree(new_issue(author, title, description)),
        },
        Tree::Dict(Map::<Seq<char>, Tree>::empty()),
    )
}

/// The first change of an issue, as the payload of the root entry of its
/// history: one change without dependencies that puts the title, the
/// description, the author and an empty list of comments into the root.
/// Merged into an empty document, the change gives this issue and nothing
/// else. It comes back wherever the engine makes it: `first_change` says
/// when.
#[verifier::rlimit(40)]
pub fn initial_doc(author: String, title: String, description: String) -> (r: Result<
    Contents,
    AuthorError,
>)
    ensures
        match first_change(author@, title@, description@) {
            Some(made) => r matches Ok(Contents::Automerge(bytes)) && bytes@ == made,
            None => r == Err::<Contents, AuthorError>(AuthorError::Engine),
        },
        r matches Ok(contents) ==> contents matches Contents::Automerge(bytes) && decode_spec(
            bytes@,
        ) matches Ok(f) && engine_made(bytes@) && stamped(
            actor_spec(author@),
            Seq::<ChangeFacts>::empty(),
            "create issue"@,
            f,
        ) && merged_tree(seq![f.id]) == issue_tree(new_issue(author@, title@, description@))
            && issue_of(merged_tree(seq![f.id])) == Ok::<IssueView, ProjectionError>(
            new_issue(author@, title@, description@),
        ),
{
    let issue = Issue { title, description, comments: Vec::new(), author };
    let value = issue.to_value();
    let frontend = Frontend::new(actor_of(&issue.author));
    let message = String::from_str("create issue");
    let edit = LocalChange::Put { path: Vec::new(), value };
    let ghost empty = Seq::<ChangeFacts>::empty();
    proof {
        assert(step_views(Seq::<Step>::empty()) =~= Seq::<StepView>::empty());
        assert(comment_views(issue.comments@) =~= Seq::<CommentView>::empty());
        assert(issue@ == new_issue(issue.author@, issue.title@, issue.description@));
    }
    match frontend.author_change(&message, &edit) {
        Ok(change) => {
            proof {
                let f = change.facts();
                lemma_ids_push(empty, f);
                assert(ids_seq(empty) =~= Seq::<Seq<u8>>::empty());
                assert(ids_seq(empty.push(f)) =~= seq![f.id]);
                let wanted = issue_tree(issue@);
                let none = Map::<Seq<char>, Tree>::empty();
                assert(none.union_prefer_right(wanted->Dict_0) =~= wanted->Dict_0);
            }
            Ok(Contents::Automerge(change.encode()))
        },
        Err(_) => Err(AuthorError::Engine),
    }
}

/// Creates an issue: the history of the new object, with one entry that has
/// no parents and holds the first change. The history comes back wherever
/// the engine makes the first change: `first_change` says when.
#[verifier::rlimit(40)]
pub fn create(id: String, author: String, title: String, description: String) -> (r: Result<
    History,
    AuthorError,
>)
    ensures
        match first_change(author@, title@, description@) {
            Some(made) => r matches Ok(h) && is_creation(h, id@, author@, made),
            None => r matches Err(e) && e == AuthorError::Engine,
        },
{
    let contents = match initial_doc(author.clone(), title, description) {
        Ok(c) => c,
        Err(_) => {
            return Err(AuthorError::Engine);
        },
    };
    let entry = Entry {
        id,
        parents: Vec::new(),
        author,
        contents,
        message: String::from_str("create issue"),
    };
    let mut entries: Vec<Entry> = Vec::new();
    entries.push(entry);
    proof {
        let links = seq![Seq::<usize>::empty()];
        let order = seq![0usize];
        assert(row_resolves(entries@, entries@[0], links[0]));
        assert(links_resolve(entries@, links));
        assert(order[0] == 0);
        assert(occurs_before(order, 0usize, 1));
        assert(is_causal_order(links, order));
        assert(acyclic(entries@));
        assert(strings_distinct(entries@[0].parents@));
        assert(fault_of(entries@) is None);
    }
    match History::from_entries(entries) {
        Ok(h) => Ok(h),
        Err(_) => Err(AuthorError::Engine),
    }
}

/// The history is that of a new issue: one entry with this id and author,
/// no parents, and these bytes as its change.
pub open spec fn is_creation(h: History, id: Seq<char>, author: Seq<char>, made: Seq<u8>) -> bool {
    &&& h.well_formed()
    &&& h.entries().len() == 1
    &&& h.entries()[0].id@ == id
    &&& h.entries()[0].author@ == author
    &&& h.entries()[0].parents@.len() == 0
    &&& h.entries()[0].contents matches Contents::Automerge(bytes) && bytes@ == made
}

/// Create, then retrieve: the replay of the history of a new issue gives a
/// document that is read as the issue, with its title, its description, its
/// author and no comments.
#[verifier::rlimit(40)]
pub proof fn law_create_then_retrieve(
    h: History,
    visits: Seq<Visit>,
    id: Seq<char>,
    author: Seq<char>,
    title: Seq<char>,
    description: Seq<char>,
)
    requires
        first_change(author, title, description) is Some,
        is_creation(h, id, author, first_change(author, title, description).unwrap()),
        replay_of(h, visits),
    ensures
        merged_tree(ids_seq(log_after(h.entries(), visits))) == issue_tree(
            new_issue(author, title, description),
        ),
        issue_of(merged_tree(ids_seq(log_after(h.entries(), visits)))) == Ok::<
            IssueView,
            ProjectionError,
        >(new_issue(author, title, description)),
{
    let made = first_change(author, title, description).unwrap();
    let f = decode_spec(made).unwrap();
    let empty = Seq::<ChangeFacts>::empty();
    let wanted = issue_tree(new_issue(author, title, description));
    assert(visits.len() == 1);
    assert(visits[0].entry < 1);
    assert(visits.take(0) =~= Seq::<Visit>::empty());
    assert(visits.drop_last() =~= Seq::<Visit>::empty());
    assert(log_after(h.entries(), visits.take(0)) == empty);
    assert(visits[0].outcome == crate::evaluate::Outcome::Merged);
    assert(log_after(h.entries(), visits) == empty.push(f));
    let none = Map::<Seq<char>, Tree>::empty();
    assert(none.union_prefer_right(wanted->Dict_0) =~= wanted->Dict_0);
    crate::issue::lemma_issue_tree_reads(new_issue(author, title, description));
}

/// The edit that puts a comment in at a position of the list `comments`.
pub open spec fn comment_steps(at: nat) -> Seq<StepView> {
    seq![StepView::Key("comments"@), StepView::Index(at)]
}

/// The change of a comment, as the engine makes it: the bytes of the change
/// that puts the comment in at the end of the list `comments`, on a
/// document with this log and tree, for the author's actor and with the
/// message `add comment`; nothing where the document has no list
/// `comments` or the engine does not make that change.
pub open spec fn comment_change(
    log: Seq<ChangeFacts>,
    tree: Tree,
    author: Seq<char>,
    comment: Seq<char>,
) -> Option<Seq<u8>> {
    match comments_in(tree) {
        None => None,
        Some(items) => authored(
            actor_spec(author),
            log,
            "add comment"@,
            EditPlan::Insert {
                path: comment_steps(items.len()),
                value: comment_plan(CommentView { comment, author }),
            },
            EditView::Insert {
                path: comment_steps(items.len()),
                value: comment_tree(CommentView { comment, author }),
            },
            tree,
        ),
    }
}

/// Adds a comment to the issue that the backend holds, and gives the new
/// change as the payload of a new entry. The comment goes to the end of the
/// list `comments`, and nothing else in the document is changed; the change
/// carries the author's actor, that actor's next number, and the causal
/// frontier of the backend as dependencies. It is merged into the backend
/// before it is handed out.
///
/// Where the document has no list `comments`, the error is `InvalidPath`.
/// Else the change comes back wherever the engine makes it: `comment_change`
/// says when. On an error the backend holds what it held.
#[verifier::rlimit(40)]
pub fn add_comment(backend: &mut Backend, author: &String, comment: String) -> (r: Result<
    Contents,
    AuthorError,
>)
    requires
        old(backend).wf(),
    ensures
        final(backend).wf(),
        r == Err::<Contents, AuthorError>(AuthorError::InvalidPath) <==> comments_in(
            old(backend).value(),
        ) is None,
        comments_in(old(backend).value()) is Some ==> match comment_change(
            old(backend).log(),
            old(backend).value(),
            author@,
            comment@,
        ) {
            Some(made) => r matches Ok(Contents::Automerge(bytes)) && bytes@ == made,
            None => r == Err::<Contents, AuthorError>(AuthorError::Engine),
        },
        r is Err ==> final(backend).log() == old(backend).log(),
        r matches Ok(contents) ==> contents matches Contents::Automerge(bytes) && decode_spec(
            bytes@,
        ) matches Ok(f) && engine_made(bytes@) && stamped(
            actor_spec(author@),
            old(backend).log(),
            "add comment"@,
            f,
        ) && final(backend).log() == old(backend).log().push(f) && final(backend).value()
            == commented(
            old(backend).value(),
            CommentView { comment: comment@, author: author@ },
        ) && comment_added(
            old(backend).value(),
            final(backend).value(),
            CommentView { comment: comment@, author: author@ },
        ),
{
    let snapshot = backend.materialize();
    let count = match comments_of_datum(&snapshot) {
        Some(items) => {
            proof {
                crate::value::lemma_values_tree(items@);
            }
            items.len()
        },
        None => {
            return Err(AuthorError::InvalidPath);
        },
    };
    let ghost before = backend.log();
    let ghost old_tree = snapshot.tree();
    let ghost items = comments_in(old_tree).unwrap();
    let mut frontend = Frontend::new(actor_of(author));
    frontend.adopt(backend.merged(), snapshot);
    let wanted = Comment { comment, author: author.clone() };
    let value = wanted.to_value();
    let mut path: Vec<Step> = Vec::new();
    path.push(Step::Key(String::from_str("comments")));
    path.push(Step::Index(count));
    let edit = LocalChange::Insert { path, value };
    let message = String::from_str("add comment");
    proof {
        assert(Seq::<ChangeFacts>::empty() + before =~= before);
        let steps = step_views(edit->Insert_path@);
        assert(steps =~= comment_steps(items.len()));
        let front = steps.drop_last();
        assert(front.len() == 1);
        assert(front.drop_last() =~= Seq::<StepView>::empty());
        assert(tree_at(old_tree, front.drop_last()) == Some(old_tree));
        assert(front.last() == StepView::Key("comments"@));
        assert(tree_at(old_tree, front) == crate::value::step_from(
            old_tree,
            StepView::Key("comments"@),
        ));
        assert(edit_fits(old_tree, edit@));
        let tail = steps.drop_first();
        assert(tail.len() == 1);
        assert(tail[0] == StepView::Index(count as nat));
        assert(items.insert(count as int, comment_tree(wanted@)) =~= items.push(
            comment_tree(wanted@),
        ));
        let act = crate::edit::Act::Insert(comment_tree(wanted@));
        assert(old_tree is Dict);
        assert(count == items.len());
        assert(crate::value::step_from(old_tree, steps[0]) == Some(Tree::List(items)));
        assert(crate::edit::edited_at(Tree::List(items), tail, act) == Tree::List(
            items.insert(count as int, comment_tree(wanted@)),
        ));
        assert(crate::edit::edited_at(old_tree, steps, act) == crate::edit::with_child(
            old_tree,
            steps[0],
            crate::edit::edited_at(Tree::List(items), tail, act),
        ));
        assert(crate::frontend::edited(old_tree, edit@) == commented(old_tree, wanted@));
    }
    let change = match frontend.author_change(&message, &edit) {
        Ok(c) => c,
        Err(_) => {
            return Err(AuthorError::Engine);
        },
    };
    let ghost f = change.facts();
    let bytes = change.encode();
    let mut batch: Vec<Change> = Vec::new();
    batch.push(change);
    proof {
        let one = facts_of(batch@);
        assert(one =~= seq![f]);
        assert(one.drop_last() =~= Seq::<ChangeFacts>::empty());
        assert(absorb_all(before, one.drop_last()) == Ok::<Seq<ChangeFacts>, MergeError>(before));
        assert(one.last() == f);
        assert(absorb_all(before, one) == absorb(before, f));
    }
    match backend.apply_changes(&batch) {
        Ok(_) => Ok(Contents::Automerge(bytes)),
        Err(_) => Err(AuthorError::Engine),
    }
}

/// The replay of an object's history, where storage knows the object.
pub fn retrieve(object: Option<&History>, actor: Vec<u8>) -> (r: Option<Evaluation>)
    ensures
        r is None <==> object is None,
        r matches Some(e) ==> e.coherent() && e.frontend.actor() == actor@ && replay_of(
            *object.unwrap(),
            e.visits@,
        ) && e.backend.log() == log_after(object.unwrap().entries(), e.visits@),
{
    match object {
        Some(history) => Some(evaluate_history(history, actor)),
        None => None,
    }
}

/// The reading of a document as an issue, as plain values.
pub open spec fn reading(tree: Tree, r: Result<Issue, ProjectionError>) -> bool {
    match r {
        Ok(issue) => issue_of(tree) == Ok::<IssueView, ProjectionError>(issue@),
        Err(e) => issue_of(tree) == Err::<IssueView, ProjectionError>(e),
    }
}

/// The result is the reading of the document that the replay of the
/// history gives.
pub open spec fn read_from(history: History, r: Result<Issue, ProjectionError>) -> bool {
    exists|visits: Seq<Visit>| #[trigger]
        replay_of(history, visits) && reading(
            merged_tree(ids_seq(log_after(history.entries(), visits))),
            r,
        )
}

impl Issue {
    /// The issue that a history holds: the history is replayed, and the
    /// document is read as an issue.
    pub fn from_history(history: &History) -> (r: Result<Issue, ProjectionError>)
        ensures
            read_from(*history, r),
    {
        let e = evaluate_history(history, Vec::new());
        let r = Issue::from_value(e.frontend.state());
        proof {
            assert(replay_of(*history, e.visits@));
        }
        r
    }
}

/// A collaborative object as storage gives it: its id, and its history or
/// why its entries are no history.
pub struct Object {
    pub id: String,
    pub history: Result<History, HistoryError>,
}

/// Why an object holds no issue.
#[derive(Debug, PartialEq, Eq, Structural, Clone, Copy)]
pub enum RowFault {
    /// Its entries are no history.
    History(HistoryError),
    /// Its document is no issue.
    Reading(ProjectionError),
}

/// One row of a listing: the id of an object, and the issue that it holds
/// or why it holds none.
pub struct Row {
    pub id: String,
    pub issue: Result<Issue, RowFault>,
}

/// The row says of the object what there is to say: why its entries are no
/// history, or the reading of the document that their replay gives.
pub open spec fn row_of(object: Object, row: Row) -> bool {
    &&& row.id@ == object.id@
    &&& match object.history {
        Err(e) => row.issue == Err::<Issue, RowFault>(RowFault::History(e)),
        Ok(history) => match row.issue {
            Ok(issue) => read_from(history, Ok(issue)),
            Err(RowFault::Reading(e)) => read_from(history, Err(e)),
            Err(RowFault::History(_)) => false,
        },
    }
}

/// Lists the objects: one row for each, in order. An object that holds no
/// issue gets a row that says why, and the listing goes on.
pub fn list(objects: &Vec<Object>) -> (rows: Vec<Row>)
    ensures
        rows@.len() == objects@.len(),
        forall|i: int| 0 <= i < rows@.len() ==> row_of(objects@[i], #[trigger] rows@[i]),
{
    let mut rows: Vec<Row> = Vec::new();
    let mut i: usize = 0;
    while i < objects.len()
        invariant
            i <= objects.len(),
            rows@.len() == i,
            forall|j: int| 0 <= j < i ==> row_of(objects@[j], #[trigger] rows@[j]),
        decreases objects.len() - i,
    {
        let issue = match &objects[i].history {
            Ok(history) => match Issue::from_history(history) {
                Ok(issue) => Ok(issue),
                Err(e) => Err(RowFault::Reading(e)),
            },
            Err(e) => Err(RowFault::History(*e)),
        };
        let row = Row { id: objects[i].id.clone(), issue };
        rows.push(row);
        i += 1;
    }
    rows
}

/// What a row says of entries that are no history.
pub open spec fn history_fault_text(e: HistoryError) -> Seq<char> {
    match e {
        HistoryError::DuplicateEntry => "two entries have the same id"@,
        HistoryError::RepeatedParent => "an entry names a parent twice"@,
        HistoryError::UnknownParent => "an entry names an unknown parent"@,
        HistoryError::Cyclic => "the parent links run in a circle"@,
    }
}

/// What a row says of a document that is no issue.
pub open spec fn reading_fault_text(e: ProjectionError) -> Seq<char> {
    match e {
        ProjectionError::NotAMap => "the document is no map"@,
        ProjectionError::Title => "missing field `title`"@,
        ProjectionError::Description => "missing field `description`"@,
        ProjectionError::Author => "missing field `author`"@,
        ProjectionError::Comments => "missing field `comments`"@,
        ProjectionError::Comment(i) => "comment "@ + decimal(i as nat) + " is no comment"@,
    }
}

/// What a row says of an object that holds no issue.
pub open spec fn fault_text(e: RowFault) -> Seq<char> {
    match e {
        RowFault::History(e) => history_fault_text(e),
        RowFault::Reading(e) => reading_fault_text(e),
    }
}

/// The text of a row: the id, a tab and the title; or the id and why the
/// object holds no issue.
pub open spec fn row_text(id: Seq<char>, issue: Result<Issue, RowFault>) -> Seq<char> {
    match issue {
        Ok(issue) => id + "\t"@ + issue.title@,
        Err(e) => id + ": failed to deserialize: "@ + fault_text(e),
    }
}

impl Row {
    /// The text of the row.
    pub fn text(&self) -> (text: String)
        ensures
            text@ == row_text(self.id@, self.issue),
    {
        let mut out = self.id.clone();
        match &self.issue {
            Ok(issue) => {
                out.append("\t");
                out.append(issue.title.as_str());
            },
            Err(e) => {
                out.append(": failed to deserialize: ");
                match e {
                    RowFault::History(HistoryError::DuplicateEntry) => out.append(
                        "two entries have the same id",
                    ),
                    RowFault::History(HistoryError::RepeatedParent) => out.append(
                        "an entry names a parent twice",
                    ),
                    RowFault::History(HistoryError::UnknownParent) => out.append(
                        "an entry names an unknown parent",
                    ),
                    RowFault::History(HistoryError::Cyclic) => out.append(
                        "the parent links run in a circle",
                    ),
                    RowFault::Reading(ProjectionError::NotAMap) => out.append(
                        "the document is no map",
                    ),
                    RowFault::Reading(ProjectionError::Title) => out.append("missing field `title`"),
                    RowFault::Reading(ProjectionError::Description) => out.append(
                        "missing field `description`",
                    ),
                    RowFault::Reading(ProjectionError::Author) => out.append(
                        "missing field `author`",
                    ),
                    RowFault::Reading(ProjectionError::Comments) => out.append(
                        "missing field `comments`",
                    ),
                    RowFault::Reading(ProjectionError::Comment(i)) => {
                        out.append("comment ");
                        push_decimal(&mut out, *i);
                        out.append(" is no comment");
                        proof {
                            assert(out@ =~= self.id@ + ": failed to deserialize: "@ + fault_text(*e));
                        }
                    },
                }
            },
        }
        out
    }
}

/// The change graph of a history as text: one line for each entry and one
/// for each causal parent link.
pub fn change_graph_text(history: &History) -> (text: String)
    ensures
        text@ == dot_text(nodes_of(history.entries()), edges_of(history.links())),
{
    ChangeGraph::build(history).to_dot()
}

} // verus!
