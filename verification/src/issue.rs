//! The issue: the typed reading of a document's value tree.

use crate::value::{lemma_first_member, lemma_values_tree, Datum, Member, Plan, Tree};
use vstd::prelude::*;

verus! {

/// A comment on an issue.
#[derive(Debug, Clone, PartialEq, Eq)]
pub struct Comment {
    pub comment: String,
    pub author: String,
}

/// An issue: its title, its description, its comments in order, and the
/// identity of its author.
#[derive(Debug, Clone, PartialEq, Eq)]
pub struct Issue {
    pub title: String,
    pub description: String,
    pub comments: Vec<Comment>,
    pub author: String,
}

/// A comment as plain values.
pub ghost struct CommentView {
    pub comment: Seq<char>,
    pub author: Seq<char>,
}

/// An issue as plain values.
pub ghost struct IssueView {
    pub title: Seq<char>,
    pub description: Seq<char>,
    pub comments: Seq<CommentView>,
    pub author: Seq<char>,
}

impl View for Comment {
    type V = CommentView;

    open spec fn view(&self) -> CommentView {
        CommentView { comment: self.comment@, author: self.author@ }
    }
}

/// The comments of a list as plain values.
pub open spec fn comment_views(comments: Seq<Comment>) -> Seq<CommentView> {
    comments.map_values(|c: Comment| c@)
}

impl View for Issue {
    type V = IssueView;

    open spec fn view(&self) -> IssueView {
        IssueView {
            title: self.title@,
            description: self.description@,
            comments: comment_views(self.comments@),
            author: self.author@,
        }
    }
}

/// The part of a value tree that keeps it from being read as an issue.
#[derive(Debug, PartialEq, Eq, Structural, Clone, Copy)]
pub enum ProjectionError {
    /// The tree is no map.
    NotAMap,
    /// There is no `title`, or it is no string.
    Title,
    /// There is no `description`, or it is no string.
    Description,
    /// There is no `author`, or it is no string.
    Author,
    /// There is no `comments`, or it is no list.
    Comments,
    /// The comment at this position is no map with the strings `author`
    /// and `comment`.
    Comment(usize),
}

/// The string under `key` in a map.
pub open spec fn text_under(tree: Tree, key: Seq<char>) -> Option<Seq<char>> {
    match Datum::child_spec(tree, key) {
        Some(child) => Datum::text_spec(child),
        None => None,
    }
}

/// The comment that a tree stands for: a map with the strings `author` and
/// `comment`.
pub open spec fn comment_of(tree: Tree) -> Option<CommentView> {
    match (text_under(tree, "author"@), text_under(tree, "comment"@)) {
        (Some(author), Some(comment)) => Some(CommentView { comment, author }),
        _ => None,
    }
}

/// The comments that a list of trees stands for, or the first position
/// that holds no comment.
pub open spec fn comments_of(list: Seq<Tree>) -> Result<Seq<CommentView>, ProjectionError>
    decreases list.len(),
{
    if list.len() == 0 {
        Ok(Seq::empty())
    } else {
        match comments_of(list.drop_last()) {
            Err(e) => Err(e),
            Ok(front) => match comment_of(list.last()) {
                Some(c) => Ok(front.push(c)),
                None => Err(ProjectionError::Comment((list.len() - 1) as usize)),
            },
        }
    }
}

/// The issue that a value tree stands for, or the first part, in the order
/// title, description, author, comments, that keeps it from being one.
pub open spec fn issue_of(tree: Tree) -> Result<IssueView, ProjectionError> {
    if !(tree is Dict) {
        Err(ProjectionError::NotAMap)
    } else if text_under(tree, "title"@) is None {
        Err(ProjectionError::Title)
    } else if text_under(tree, "description"@) is None {
        Err(ProjectionError::Description)
    } else if text_under(tree, "author"@) is None {
        Err(ProjectionError::Author)
    } else {
        match Datum::child_spec(tree, "comments"@) {
            Some(Tree::List(items)) => match comments_of(items) {
                Ok(comments) => Ok(
                    IssueView {
                        title: text_under(tree, "title"@).unwrap(),
                        description: text_under(tree, "description"@).unwrap(),
                        comments,
                        author: text_under(tree, "author"@).unwrap(),
                    },
                ),
                Err(e) => Err(e),
            },
            _ => Err(ProjectionError::Comments),
        }
    }
}

/// The tree that holds a comment: a map with `author` and `comment`, and
/// nothing else.
pub open spec fn comment_tree(c: CommentView) -> Tree {
    Tree::Dict(
        Map::<Seq<char>, Tree>::empty().insert("comment"@, Tree::Str(c.comment)).insert(
            "author"@,
            Tree::Str(c.author),
        ),
    )
}

/// The trees that hold the comments of a list, in order.
pub open spec fn comment_trees(comments: Seq<CommentView>) -> Seq<Tree> {
    comments.map_values(|c: CommentView| comment_tree(c))
}

/// The tree that holds an issue: a map with `title`, `description`,
/// `author` and the list `comments`, and nothing else.
pub open spec fn issue_tree(issue: IssueView) -> Tree {
    Tree::Dict(
        Map::<Seq<char>, Tree>::empty().insert(
            "comments"@,
            Tree::List(comment_trees(issue.comments)),
        ).insert("author"@, Tree::Str(issue.author)).insert(
            "description"@,
            Tree::Str(issue.description),
        ).insert("title"@, Tree::Str(issue.title)),
    )
}

/// A comment as it is written: the members `author` and `comment`, in this
/// order.
pub open spec fn comment_plan(c: CommentView) -> Plan {
    Plan::Dict(seq![("author"@, Plan::Str(c.author)), ("comment"@, Plan::Str(c.comment))])
}

/// The comments of a list as they are written, in order.
pub open spec fn comment_plans(comments: Seq<CommentView>) -> Seq<Plan> {
    comments.map_values(|c: CommentView| comment_plan(c))
}

/// An issue as it is written: the members `title`, `description`, `author`
/// and `comments`, in this order.
pub open spec fn issue_plan(issue: IssueView) -> Plan {
    Plan::Dict(
        seq![
            ("title"@, Plan::Str(issue.title)),
            ("description"@, Plan::Str(issue.description)),
            ("author"@, Plan::Str(issue.author)),
            ("comments"@, Plan::List(comment_plans(issue.comments))),
        ],
    )
}

/// The trees that hold comments are read as those comments.
pub proof fn lemma_comment_trees_read(comments: Seq<CommentView>)
    ensures
        comments_of(comment_trees(comments)) == Ok::<Seq<CommentView>, ProjectionError>(comments),
    decreases comments.len(),
{
    reveal_strlit("author");
    reveal_strlit("comment");
    assert("author"@.len() != "comment"@.len());
    if comments.len() == 0 {
        assert(comment_trees(comments) =~= Seq::<Tree>::empty());
        assert(comments =~= Seq::<CommentView>::empty());
    } else {
        lemma_comment_trees_read(comments.drop_last());
        assert(comment_trees(comments).drop_last() =~= comment_trees(comments.drop_last()));
        assert(comment_trees(comments).last() == comment_tree(comments.last()));
        assert(comment_of(comment_tree(comments.last())) == Some(comments.last()));
        assert(comments.drop_last().push(comments.last()) =~= comments);
    }
}

/// The tree that holds an issue is read as that issue.
pub proof fn lemma_issue_tree_reads(issue: IssueView)
    ensures
        issue_of(issue_tree(issue)) == Ok::<IssueView, ProjectionError>(issue),
{
    reveal_strlit("title");
    reveal_strlit("description");
    reveal_strlit("author");
    reveal_strlit("comments");
    assert("title"@.len() == 5 && "description"@.len() == 11 && "author"@.len() == 6
        && "comments"@.len() == 8);
    lemma_comment_trees_read(issue.comments);
}

/// The string under `key` in a map, copied.
fn read_text(value: &Datum, key: &str) -> (r: Option<String>)
    ensures
        r matches Some(s) ==> text_under(value.tree(), key@) == Some(s@),
        r is None ==> text_under(value.tree(), key@) is None,
{
    let key = String::from_str(key);
    match value.child(&key) {
        Some(child) => match child.text() {
            Some(s) => Some(s.clone()),
            None => None,
        },
        None => None,
    }
}

impl Comment {
    /// Reads a comment from a value: a map with the strings `author` and
    /// `comment`. Other members are passed over.
    pub fn from_value(value: &Datum) -> (r: Option<Comment>)
        ensures
            r matches Some(c) ==> comment_of(value.tree()) == Some(c@),
            r is None ==> comment_of(value.tree()) is None,
    {
        let author = read_text(value, "author");
        let comment = read_text(value, "comment");
        match (author, comment) {
            (Some(author), Some(comment)) => Some(Comment { comment, author }),
            _ => None,
        }
    }

    /// The value that holds this comment: a map with `author` and `comment`.
    pub fn to_value(&self) -> (value: Datum)
        ensures
            value.tree() == comment_tree(self@),
            value.plan() == comment_plan(self@),
            comment_of(value.tree()) == Some(self@),
    {
        let mut members: Vec<Member> = Vec::new();
        let ghost none = members@;
        members.push(Member { key: String::from_str("author"), value: Datum::Str(self.author.clone()) });
        let ghost first = members@;
        members.push(
            Member { key: String::from_str("comment"), value: Datum::Str(self.comment.clone()) },
        );
        proof {
            crate::value::lemma_members_plan_push(none, first[0]);
            crate::value::lemma_members_plan_push(first, members@[1]);
            assert(first =~= none.push(first[0]));
            assert(members@ =~= first.push(members@[1]));
            assert(crate::value::members_plan(none) =~= Seq::<(Seq<char>, Plan)>::empty());
            assert(crate::value::members_plan(members@) =~= seq![
                ("author"@, Plan::Str(self.author@)),
                ("comment"@, Plan::Str(self.comment@)),
            ]);
        }
        proof {
            reveal_strlit("author");
            reveal_strlit("comment");
            assert("author"@.len() != "comment"@.len());
            lemma_first_member(members@, 0);
            lemma_first_member(members@, 1);
            let one = members@.drop_first();
            assert(one.drop_first() =~= Seq::<Member>::empty());
            assert(crate::value::members_tree(one.drop_first()) == Map::<Seq<char>, Tree>::empty());
            assert(crate::value::members_tree(one) == Map::<Seq<char>, Tree>::empty().insert(
                "comment"@,
                Tree::Str(self.comment@),
            ));
        }
        Datum::Dict(members)
    }
}

impl Issue {
    /// Reads an issue from a value tree: a map with the strings `title`,
    /// `description` and `author` and the list `comments`, whose items are
    /// comments. Other members are passed over.
    #[verifier::rlimit(40)]
    pub fn from_value(value: &Datum) -> (r: Result<Issue, ProjectionError>)
        ensures
            r matches Ok(issue) ==> issue_of(value.tree()) == Ok::<IssueView, ProjectionError>(
                issue@,
            ),
            r matches Err(e) ==> issue_of(value.tree()) == Err::<IssueView, ProjectionError>(e),
    {
        match value {
            Datum::Dict(_) => {},
            _ => {
                return Err(ProjectionError::NotAMap);
            },
        }
        let title = match read_text(value, "title") {
            Some(s) => s,
            None => {
                return Err(ProjectionError::Title);
            },
        };
        let description = match read_text(value, "description") {
            Some(s) => s,
            None => {
                return Err(ProjectionError::Description);
            },
        };
        let author = match read_text(value, "author") {
            Some(s) => s,
            None => {
                return Err(ProjectionError::Author);
            },
        };
        let key = String::from_str("comments");
        let items = match value.child(&key) {
            Some(list) => match list.items() {
                Some(items) => items,
                None => {
                    return Err(ProjectionError::Comments);
                },
            },
            None => {
                return Err(ProjectionError::Comments);
            },
        };
        let mut comments: Vec<Comment> = Vec::new();
        let mut i: usize = 0;
        proof {
            lemma_values_tree(items@);
            assert(values_prefix(items@, 0) =~= Seq::<Tree>::empty());
            assert(comment_views(comments@) =~= Seq::<CommentView>::empty());
        }
        while i < items.len()
            invariant
                i <= items.len(),
                value.tree() is Dict,
                text_under(value.tree(), "title"@) == Some(title@),
                text_under(value.tree(), "description"@) == Some(description@),
                text_under(value.tree(), "author"@) == Some(author@),
                Datum::child_spec(value.tree(), "comments"@) == Some(
                    Tree::List(crate::value::values_tree(items@)),
                ),
                comments_of(values_prefix(items@, i as int)) == Ok::<
                    Seq<CommentView>,
                    ProjectionError,
                >(comment_views(comments@)),
            decreases items.len() - i,
        {
            proof {
                lemma_values_tree(items@);
                assert(values_prefix(items@, i + 1).drop_last() =~= values_prefix(items@, i as int));
                assert(values_prefix(items@, i + 1).last() == items@[i as int].tree());
            }
            match Comment::from_value(&items[i]) {
                Some(c) => {
                    proof {
                        assert(comment_views(comments@.push(c)) =~= comment_views(comments@).push(
                            c@,
                        ));
                    }
                    comments.push(c);
                },
                None => {
                    proof {
                        assert(comments_of(values_prefix(items@, i + 1)) == Err::<
                            Seq<CommentView>,
                            ProjectionError,
                        >(ProjectionError::Comment(i)));
                        lemma_comments_stay_bad(crate::value::values_tree(items@), i + 1, i);
                    }
                    return Err(ProjectionError::Comment(i));
                },
            }
            i += 1;
        }
        proof {
            lemma_values_tree(items@);
            assert(values_prefix(items@, items@.len() as int) =~= crate::value::values_tree(items@));
        }
        Ok(Issue { title, description, comments, author })
    }
}

impl Issue {
    /// The value tree that holds this issue: a map with `title`,
    /// `description`, `author` and the list `comments`.
    #[verifier::rlimit(40)]
    pub fn to_value(&self) -> (value: Datum)
        ensures
            value.tree() == issue_tree(self@),
            value.plan() == issue_plan(self@),
            issue_of(value.tree()) == Ok::<IssueView, ProjectionError>(self@),
    {
        let mut list: Vec<Datum> = Vec::new();
        let mut i: usize = 0;
        proof {
            assert(comment_views(self.comments@).take(0) =~= Seq::<CommentView>::empty());
        }
        proof {
            assert(crate::value::values_tree(list@) =~= comment_trees(
                comment_views(self.comments@).take(0),
            ));
            assert(crate::value::values_plan(list@) =~= comment_plans(
                comment_views(self.comments@).take(0),
            ));
        }
        while i < self.comments.len()
            invariant
                i <= self.comments.len(),
                crate::value::values_plan(list@) == comment_plans(
                    comment_views(self.comments@).take(i as int),
                ),
                crate::value::values_tree(list@) == comment_trees(
                    comment_views(self.comments@).take(i as int),
                ),
                comments_of(crate::value::values_tree(list@)) == Ok::<
                    Seq<CommentView>,
                    ProjectionError,
                >(comment_views(self.comments@).take(i as int)),
            decreases self.comments.len() - i,
        {
            let item = self.comments[i].to_value();
            proof {
                assert(crate::value::values_tree(list@).push(item.tree()) =~= comment_trees(
                    comment_views(self.comments@).take(i + 1),
                ));
                assert(crate::value::values_plan(list@).push(item.plan()) =~= comment_plans(
                    comment_views(self.comments@).take(i + 1),
                ));
                let trees = crate::value::values_tree(list@);
                assert(list@.push(item).drop_last() =~= list@);
                assert(crate::value::values_tree(list@.push(item)) == trees.push(item.tree()));
                assert(trees.push(item.tree()).drop_last() =~= trees);
                assert(comment_views(self.comments@).take(i + 1) =~= comment_views(
                    self.comments@,
                ).take(i as int).push(self.comments@[i as int]@));
            }
            list.push(item);
            i += 1;
        }
        proof {
            assert(comment_views(self.comments@).take(i as int) =~= comment_views(self.comments@));
        }
        let mut members: Vec<Member> = Vec::new();
        members.push(Member { key: String::from_str("title"), value: Datum::Str(self.title.clone()) });
        members.push(
            Member {
                key: String::from_str("description"),
                value: Datum::Str(self.description.clone()),
            },
        );
        members.push(
            Member { key: String::from_str("author"), value: Datum::Str(self.author.clone()) },
        );
        members.push(Member { key: String::from_str("comments"), value: Datum::List(list) });
        proof {
            reveal_strlit("title");
            reveal_strlit("description");
            reveal_strlit("author");
            reveal_strlit("comments");
            assert("title"@.len() == 5 && "description"@.len() == 11 && "author"@.len() == 6
                && "comments"@.len() == 8);
            lemma_first_member(members@, 0);
            lemma_first_member(members@, 1);
            lemma_first_member(members@, 2);
            lemma_first_member(members@, 3);
            let empty = Map::<Seq<char>, Tree>::empty();
            let m1 = members@.drop_first();
            let m2 = m1.drop_first();
            let m3 = m2.drop_first();
            assert(m3.drop_first() =~= Seq::<Member>::empty());
            assert(crate::value::members_tree(m3.drop_first()) == empty);
            assert(crate::value::members_tree(m3) == empty.insert(
                "comments"@,
                Tree::List(comment_trees(self@.comments)),
            ));
            assert(crate::value::members_tree(m2) == crate::value::members_tree(m3).insert(
                "author"@,
                Tree::Str(self.author@),
            ));
            assert(crate::value::members_tree(m1) == crate::value::members_tree(m2).insert(
                "description"@,
                Tree::Str(self.description@),
            ));
            let p0 = Seq::<Member>::empty();
            let p1 = p0.push(members@[0]);
            let p2 = p1.push(members@[1]);
            let p3 = p2.push(members@[2]);
            assert(members@ =~= p3.push(members@[3]));
            crate::value::lemma_members_plan_push(p0, members@[0]);
            crate::value::lemma_members_plan_push(p1, members@[1]);
            crate::value::lemma_members_plan_push(p2, members@[2]);
            crate::value::lemma_members_plan_push(p3, members@[3]);
            assert(crate::value::members_plan(p0) =~= Seq::<(Seq<char>, Plan)>::empty());
            assert(members@[3].value.plan() == Plan::List(comment_plans(self@.comments)));
            assert(crate::value::members_plan(members@) =~= issue_plan(self@)->Dict_0);
        }
        Datum::Dict(members)
    }
}

/// The trees of the first `n` values of a list.
pub open spec fn values_prefix(values: Seq<Datum>, n: int) -> Seq<Tree> {
    crate::value::values_tree(values).take(n)
}

/// Once a prefix of a list fails at a position, the whole list fails there.
proof fn lemma_comments_stay_bad(list: Seq<Tree>, n: int, at: usize)
    requires
        0 <= n <= list.len(),
        comments_of(list.take(n)) == Err::<Seq<CommentView>, ProjectionError>(
            ProjectionError::Comment(at),
        ),
    ensures
        comments_of(list) == Err::<Seq<CommentView>, ProjectionError>(ProjectionError::Comment(at)),
    decreases list.len() - n,
{
    if n < list.len() {
        assert(list.take(n + 1).drop_last() =~= list.take(n));
        lemma_comments_stay_bad(list, n + 1, at);
    } else {
        assert(list.take(n) =~= list);
    }
}

} // verus!
