//! Edits of a value tree: what a tree is after a value is put at a place,
//! put in before a place, or taken away from a place; and whether one value
//! is another after such an edit.

use crate::value::{
    find_member, lemma_dom_has_member, lemma_member_in_dom, lemma_values_tree, members_tree,
    step_from, step_views, values_tree, Datum, Member, Step, StepView, Tree,
};
use vstd::prelude::*;

verus! {

/// What is done at a place, as plain values.
pub ghost enum Act {
    Put(Tree),
    Insert(Tree),
    Delete,
}

/// What is done at a place.
pub enum Deed<'a> {
    Put(&'a Datum),
    Insert(&'a Datum),
    Delete,
}

impl<'a> Deed<'a> {
    pub open spec fn act(self) -> Act {
        match self {
            Deed::Put(v) => Act::Put(v.tree()),
            Deed::Insert(v) => Act::Insert(v.tree()),
            Deed::Delete => Act::Delete,
        }
    }
}

/// The tree `parent` after the act at its own step: a member put or taken
/// away, an item replaced, put in or taken out. Where the step is no place
/// of the tree, the tree stays.
pub open spec fn acted(parent: Tree, step: StepView, act: Act) -> Tree {
    match (parent, step, act) {
        (Tree::Dict(m), StepView::Key(k), Act::Put(v)) => Tree::Dict(m.insert(k, v)),
        (Tree::Dict(m), StepView::Key(k), Act::Delete) => Tree::Dict(m.remove(k)),
        (Tree::List(items), StepView::Index(i), Act::Put(v)) => if i < items.len() {
            Tree::List(items.update(i as int, v))
        } else {
            parent
        },
        (Tree::List(items), StepView::Index(i), Act::Insert(v)) => if i <= items.len() {
            Tree::List(items.insert(i as int, v))
        } else {
            parent
        },
        (Tree::List(items), StepView::Index(i), Act::Delete) => if i < items.len() {
            Tree::List(items.remove(i as int))
        } else {
            parent
        },
        _ => parent,
    }
}

/// The tree `parent` with `child` in place of what its step leads to.
pub open spec fn with_child(parent: Tree, step: StepView, child: Tree) -> Tree {
    match (parent, step) {
        (Tree::Dict(m), StepView::Key(k)) => Tree::Dict(m.insert(k, child)),
        (Tree::List(items), StepView::Index(i)) => if i < items.len() {
            Tree::List(items.update(i as int, child))
        } else {
            parent
        },
        _ => parent,
    }
}

/// The tree after the act at the place that the path names: the last step
/// is the place, in the map or list that the steps before it lead to.
pub open spec fn edited_at(tree: Tree, path: Seq<StepView>, act: Act) -> Tree
    decreases path.len(),
{
    if path.len() == 0 {
        tree
    } else if path.len() == 1 {
        acted(tree, path[0], act)
    } else {
        match step_from(tree, path[0]) {
            Some(child) => with_child(tree, path[0], edited_at(child, path.drop_first(), act)),
            None => tree,
        }
    }
}

/// The root map after the members of another map are put into it.
pub open spec fn root_put(tree: Tree, value: Tree) -> Tree {
    match (tree, value) {
        (Tree::Dict(a), Tree::Dict(b)) => Tree::Dict(a.union_prefer_right(b)),
        _ => tree,
    }
}

/// The act can be done at the step of `parent`: a member can be put under
/// any key of a map and taken from it, an item of a list can be replaced or
/// taken out where the list has it, and an item can be put in before an
/// item of a list or at its end.
pub open spec fn can_act(parent: Tree, step: StepView, act: Act) -> bool {
    match (parent, step, act) {
        (Tree::Dict(_), StepView::Key(_), Act::Put(_)) => true,
        (Tree::Dict(_), StepView::Key(_), Act::Delete) => true,
        (Tree::List(items), StepView::Index(i), Act::Put(_)) => i < items.len(),
        (Tree::List(items), StepView::Index(i), Act::Insert(_)) => i <= items.len(),
        (Tree::List(items), StepView::Index(i), Act::Delete) => i < items.len(),
        _ => false,
    }
}

/// The act can be done at the place that the path names: the steps before
/// the last lead to a map or list of the tree, and the act can be done at
/// the last step of that.
pub open spec fn can_edit(tree: Tree, path: Seq<StepView>, act: Act) -> bool
    decreases path.len(),
{
    if path.len() == 0 {
        false
    } else if path.len() == 1 {
        can_act(tree, path[0], act)
    } else {
        match step_from(tree, path[0]) {
            Some(child) => can_edit(child, path.drop_first(), act),
            None => false,
        }
    }
}

/// The two maps have the same keys with the same trees, but for `key`.
pub open spec fn agree_except(
    a: Map<Seq<char>, Tree>,
    b: Map<Seq<char>, Tree>,
    key: Seq<char>,
) -> bool {
    forall|k: Seq<char>|
        k != key ==> (#[trigger] a.dom().contains(k) <==> b.dom().contains(k)) && (a.dom().contains(
            k,
        ) ==> a[k] == b[k])
}

/// Two maps that differ at a key other than `key` do not agree but for
/// `key`.
proof fn lemma_disagree(
    a: Map<Seq<char>, Tree>,
    b: Map<Seq<char>, Tree>,
    key: Seq<char>,
    at: Seq<char>,
)
    requires
        at != key,
        (a.dom().contains(at) != b.dom().contains(at)) || (a.dom().contains(at) && a[at] != b[at]),
    ensures
        !agree_except(a, b, key),
{
    if agree_except(a, b, key) {
        assert(a.dom().contains(at) <==> b.dom().contains(at));
    }
}

/// Whether the two lists of members have the same keys with the same
/// trees, but for `key`.
#[verifier::rlimit(40)]
fn members_agree_except(a: &Vec<Member>, b: &Vec<Member>, key: &String) -> (r: bool)
    ensures
        r == agree_except(members_tree(a@), members_tree(b@), key@),
{
    let ghost ours = members_tree(a@);
    let ghost theirs = members_tree(b@);
    let mut i: usize = 0;
    while i < a.len()
        invariant
            i <= a.len(),
            ours == members_tree(a@),
            theirs == members_tree(b@),
            forall|j: int|
                0 <= j < i && (#[trigger] a@[j]).key@ != key@ ==> theirs.dom().contains(a@[j].key@)
                    && ours[a@[j].key@] == theirs[a@[j].key@],
        decreases a.len() - i,
    {
        if a[i].key != *key {
            proof {
                lemma_member_in_dom(a@, i as int);
            }
            match (find_member(a, &a[i].key), find_member(b, &a[i].key)) {
                (Some(mine), Some(other)) => {
                    if !mine.same_tree(other) {
                        proof {
                            lemma_disagree(ours, theirs, key@, a@[i as int].key@);
                        }
                        return false;
                    }
                },
                _ => {
                    proof {
                        lemma_disagree(ours, theirs, key@, a@[i as int].key@);
                    }
                    return false;
                },
            }
        }
        i += 1;
    }
    let mut i: usize = 0;
    while i < b.len()
        invariant
            i <= b.len(),
            ours == members_tree(a@),
            theirs == members_tree(b@),
            forall|j: int|
                0 <= j < a@.len() && (#[trigger] a@[j]).key@ != key@ ==> theirs.dom().contains(
                    a@[j].key@,
                ) && ours[a@[j].key@] == theirs[a@[j].key@],
            forall|j: int|
                0 <= j < i && (#[trigger] b@[j]).key@ != key@ ==> ours.dom().contains(b@[j].key@),
        decreases b.len() - i,
    {
        if b[i].key != *key {
            if find_member(a, &b[i].key).is_none() {
                proof {
                    lemma_member_in_dom(b@, i as int);
                    lemma_disagree(ours, theirs, key@, b@[i as int].key@);
                }
                return false;
            }
        }
        i += 1;
    }
    proof {
        assert forall|k: Seq<char>| k != key@ implies (#[trigger] ours.dom().contains(k)
            <==> theirs.dom().contains(k)) && (ours.dom().contains(k) ==> ours[k] == theirs[k]) by {
            if ours.dom().contains(k) {
                let j = lemma_dom_has_member(a@, k);
                assert(a@[j].key@ != key@);
            }
            if theirs.dom().contains(k) {
                let j = lemma_dom_has_member(b@, k);
                assert(b@[j].key@ != key@);
            }
        }
    }
    true
}

/// Whether the map of `new` is the map of `old` with the members of `put`
/// put into it.
#[verifier::rlimit(40)]
fn members_show_union(old: &Vec<Member>, put: &Vec<Member>, new: &Vec<Member>) -> (r: bool)
    ensures
        r == (members_tree(new@) == members_tree(old@).union_prefer_right(members_tree(put@))),
{
    let ghost o = members_tree(old@);
    let ghost p = members_tree(put@);
    let ghost n = members_tree(new@);
    let ghost u = o.union_prefer_right(p);
    let mut i: usize = 0;
    while i < put.len()
        invariant
            i <= put.len(),
            o == members_tree(old@),
            p == members_tree(put@),
            n == members_tree(new@),
            u == o.union_prefer_right(p),
            forall|j: int|
                0 <= j < i ==> n.dom().contains((#[trigger] put@[j]).key@) && n[put@[j].key@]
                    == p[put@[j].key@],
        decreases put.len() - i,
    {
        proof {
            lemma_member_in_dom(put@, i as int);
            assert(u.dom().contains(put@[i as int].key@));
            assert(u[put@[i as int].key@] == p[put@[i as int].key@]);
        }
        match (find_member(put, &put[i].key), find_member(new, &put[i].key)) {
            (Some(wanted), Some(got)) => {
                if !wanted.same_tree(got) {
                    return false;
                }
            },
            _ => {
                return false;
            },
        }
        i += 1;
    }
    let mut i: usize = 0;
    while i < old.len()
        invariant
            i <= old.len(),
            o == members_tree(old@),
            p == members_tree(put@),
            n == members_tree(new@),
            u == o.union_prefer_right(p),
            forall|j: int|
                0 <= j < put@.len() ==> n.dom().contains((#[trigger] put@[j]).key@)
                    && n[put@[j].key@] == p[put@[j].key@],
            forall|j: int|
                0 <= j < i && !p.dom().contains((#[trigger] old@[j]).key@) ==> n.dom().contains(
                    old@[j].key@,
                ) && n[old@[j].key@] == o[old@[j].key@],
        decreases old.len() - i,
    {
        if find_member(put, &old[i].key).is_none() {
            proof {
                lemma_member_in_dom(old@, i as int);
                assert(u.dom().contains(old@[i as int].key@));
                assert(u[old@[i as int].key@] == o[old@[i as int].key@]);
            }
            match (find_member(old, &old[i].key), find_member(new, &old[i].key)) {
                (Some(had), Some(got)) => {
                    if !had.same_tree(got) {
                        return false;
                    }
                },
                _ => {
                    return false;
                },
            }
        }
        i += 1;
    }
    let mut i: usize = 0;
    while i < new.len()
        invariant
            i <= new.len(),
            o == members_tree(old@),
            p == members_tree(put@),
            n == members_tree(new@),
            u == o.union_prefer_right(p),
            forall|j: int|
                0 <= j < put@.len() ==> n.dom().contains((#[trigger] put@[j]).key@)
                    && n[put@[j].key@] == p[put@[j].key@],
            forall|j: int|
                0 <= j < old@.len() && !p.dom().contains((#[trigger] old@[j]).key@)
                    ==> n.dom().contains(old@[j].key@) && n[old@[j].key@] == o[old@[j].key@],
            forall|j: int|
                0 <= j < i ==> p.dom().contains((#[trigger] new@[j]).key@) || o.dom().contains(
                    new@[j].key@,
                ),
        decreases new.len() - i,
    {
        if find_member(put, &new[i].key).is_none() && find_member(old, &new[i].key).is_none() {
            proof {
                lemma_member_in_dom(new@, i as int);
                assert(!u.dom().contains(new@[i as int].key@));
            }
            return false;
        }
        i += 1;
    }
    proof {
        assert forall|k: Seq<char>| #[trigger] n.dom().contains(k) implies u.dom().contains(k) by {
            let j = lemma_dom_has_member(new@, k);
            assert(p.dom().contains(new@[j].key@) || o.dom().contains(new@[j].key@));
        }
        assert forall|k: Seq<char>| #[trigger] u.dom().contains(k) implies n.dom().contains(k)
            && n[k] == u[k] by {
            if p.dom().contains(k) {
                let j = lemma_dom_has_member(put@, k);
                assert(n.dom().contains(put@[j].key@));
            } else {
                let j = lemma_dom_has_member(old@, k);
                assert(n.dom().contains(old@[j].key@));
            }
        }
        assert(n.dom() =~= u.dom());
        assert(n =~= u);
    }
    true
}

/// Whether `n` items of `a` from `from_a` on stand for the same trees as
/// `n` items of `b` from `from_b` on.
fn items_agree(a: &Vec<Datum>, from_a: usize, b: &Vec<Datum>, from_b: usize, n: usize) -> (r: bool)
    requires
        from_a + n <= a@.len(),
        from_b + n <= b@.len(),
    ensures
        r == (values_tree(a@).subrange(from_a as int, from_a + n) == values_tree(b@).subrange(
            from_b as int,
            from_b + n,
        )),
{
    proof {
        lemma_values_tree(a@);
        lemma_values_tree(b@);
    }
    let len_a = a.len();
    let len_b = b.len();
    let mut j: usize = 0;
    while j < n
        invariant
            j <= n,
            len_a == a@.len(),
            len_b == b@.len(),
            from_a + n <= a@.len(),
            from_b + n <= b@.len(),
            values_tree(a@).len() == a@.len(),
            values_tree(b@).len() == b@.len(),
            values_tree(a@).subrange(from_a as int, from_a + j) == values_tree(b@).subrange(
                from_b as int,
                from_b + j,
            ),
        decreases n - j,
    {
        if !a[from_a + j].same_tree(&b[from_b + j]) {
            proof {
                lemma_values_tree(a@);
                lemma_values_tree(b@);
                let x = values_tree(a@);
                let y = values_tree(b@);
                assert(x.subrange(from_a as int, from_a + n)[j as int] == x[from_a + j]);
                assert(y.subrange(from_b as int, from_b + n)[j as int] == y[from_b + j]);
            }
            return false;
        }
        proof {
            lemma_values_tree(a@);
            lemma_values_tree(b@);
            let x = values_tree(a@);
            let y = values_tree(b@);
            assert(x.subrange(from_a as int, from_a + j + 1) =~= x.subrange(
                from_a as int,
                from_a + j,
            ).push(x[from_a + j]));
            assert(y.subrange(from_b as int, from_b + j + 1) =~= y.subrange(
                from_b as int,
                from_b + j,
            ).push(y[from_b + j]));
        }
        j += 1;
    }
    true
}

/// Two ranges that are equal are equal item by item.
proof fn lemma_same_at(x: Seq<Tree>, from_x: int, y: Seq<Tree>, from_y: int, n: int, j: int)
    requires
        0 <= from_x,
        0 <= from_y,
        0 <= j < n,
        from_x + n <= x.len(),
        from_y + n <= y.len(),
        x.subrange(from_x, from_x + n) == y.subrange(from_y, from_y + n),
    ensures
        x[from_x + j] == y[from_y + j],
{
    assert(x.subrange(from_x, from_x + n)[j] == x[from_x + j]);
    assert(y.subrange(from_y, from_y + n)[j] == y[from_y + j]);
}

/// A map that agrees with another but for a key, and has a tree under that
/// key, is the other with that tree put under the key.
proof fn lemma_agree_insert(
    a: Map<Seq<char>, Tree>,
    b: Map<Seq<char>, Tree>,
    key: Seq<char>,
    tree: Tree,
)
    requires
        agree_except(a, b, key),
        b.dom().contains(key),
        b[key] == tree,
    ensures
        b == a.insert(key, tree),
{
    let want = a.insert(key, tree);
    assert forall|k: Seq<char>| #[trigger] b.dom().contains(k) <==> want.dom().contains(k) by {
        if k != key {
            assert(a.dom().contains(k) <==> b.dom().contains(k));
        }
    }
    assert(b.dom() =~= want.dom());
    assert forall|k: Seq<char>| #[trigger] b.dom().contains(k) implies b[k] == want[k] by {
        if k != key {
            assert(a.dom().contains(k) <==> b.dom().contains(k));
        }
    }
    assert(b =~= want);
}

/// A map that agrees with another but for a key, and lacks that key, is the
/// other without the key.
proof fn lemma_agree_remove(a: Map<Seq<char>, Tree>, b: Map<Seq<char>, Tree>, key: Seq<char>)
    requires
        agree_except(a, b, key),
        !b.dom().contains(key),
    ensures
        b == a.remove(key),
{
    let want = a.remove(key);
    assert forall|k: Seq<char>| #[trigger] b.dom().contains(k) <==> want.dom().contains(k) by {
        if k != key {
            assert(a.dom().contains(k) <==> b.dom().contains(k));
        }
    }
    assert(b.dom() =~= want.dom());
    assert forall|k: Seq<char>| #[trigger] b.dom().contains(k) implies b[k] == want[k] by {
        if k != key {
            assert(a.dom().contains(k) <==> b.dom().contains(k));
        }
    }
    assert(b =~= want);
}

/// A map agrees, but for a key, with itself after a tree is put under the
/// key or the key is taken away.
proof fn lemma_changed_agrees(a: Map<Seq<char>, Tree>, key: Seq<char>, tree: Tree)
    ensures
        agree_except(a, a.insert(key, tree), key),
        agree_except(a, a.remove(key), key),
{
}

/// Whether the list `b` is the list `a` but for the item at `at`.
fn items_same_but(a: &Vec<Datum>, b: &Vec<Datum>, at: usize) -> (r: bool)
    ensures
        r == (at < a@.len() && b@.len() == a@.len() && values_tree(b@) == values_tree(a@).update(
            at as int,
            values_tree(b@)[at as int],
        )),
{
    proof {
        lemma_values_tree(a@);
        lemma_values_tree(b@);
    }
    let ghost x = values_tree(a@);
    let ghost y = values_tree(b@);
    let len = a.len();
    if at >= len || b.len() != len {
        return false;
    }
    if !items_agree(a, 0, b, 0, at) {
        proof {
            if y == x.update(at as int, y[at as int]) {
                assert(y.subrange(0, at as int) =~= x.subrange(0, at as int));
            }
        }
        return false;
    }
    if !items_agree(a, at + 1, b, at + 1, len - at - 1) {
        proof {
            if y == x.update(at as int, y[at as int]) {
                assert(y.subrange(at + 1, len as int) =~= x.subrange(at + 1, len as int));
            }
        }
        return false;
    }
    proof {
        let want = x.update(at as int, y[at as int]);
        assert forall|j: int| 0 <= j < y.len() implies y[j] == want[j] by {
            if j < at {
                lemma_same_at(x, 0, y, 0, at as int, j);
            } else if j > at {
                lemma_same_at(x, at + 1, y, at + 1, len - at - 1, j - at - 1);
            }
        }
        assert(y =~= want);
    }
    true
}

/// Whether the list `b` is the list `a` with `value` put in before the item
/// at `at`, or at the end.
fn items_show_insert(a: &Vec<Datum>, b: &Vec<Datum>, at: usize, value: &Datum) -> (r: bool)
    ensures
        r == (at <= a@.len() && values_tree(b@) == values_tree(a@).insert(at as int, value.tree())),
{
    proof {
        lemma_values_tree(a@);
        lemma_values_tree(b@);
    }
    let ghost x = values_tree(a@);
    let ghost y = values_tree(b@);
    let ghost want = x.insert(at as int, value.tree());
    let len = a.len();
    let got = b.len();
    if at > len {
        return false;
    }
    proof {
        x.insert_ensures(at as int, value.tree());
    }
    if len == usize::MAX || got != len + 1 {
        return false;
    }
    if !items_agree(a, 0, b, 0, at) {
        proof {
            if y == want {
                assert(y.subrange(0, at as int) =~= x.subrange(0, at as int));
            }
        }
        return false;
    }
    if !b[at].same_tree(value) {
        return false;
    }
    if !items_agree(a, at, b, at + 1, len - at) {
        proof {
            if y == want {
                assert forall|j: int| 0 <= j < len - at implies y.subrange(at + 1, len + 1)[j]
                    == x.subrange(at as int, len as int)[j] by {
                    assert(want[(at + j) + 1] == x[at + j]);
                }
                assert(y.subrange(at + 1, len + 1) =~= x.subrange(at as int, len as int));
            }
        }
        return false;
    }
    proof {
        assert forall|j: int| 0 <= j < y.len() implies y[j] == want[j] by {
            if j < at {
                lemma_same_at(x, 0, y, 0, at as int, j);
            } else if j > at {
                lemma_same_at(x, at as int, y, at + 1, len - at, j - at - 1);
                assert(want[(j - 1) + 1] == x[j - 1]);
            }
        }
        assert(y =~= want);
    }
    true
}

/// Whether the list `b` is the list `a` without the item at `at`.
fn items_show_delete(a: &Vec<Datum>, b: &Vec<Datum>, at: usize) -> (r: bool)
    ensures
        r == (at < a@.len() && values_tree(b@) == values_tree(a@).remove(at as int)),
{
    proof {
        lemma_values_tree(a@);
        lemma_values_tree(b@);
    }
    let ghost x = values_tree(a@);
    let ghost y = values_tree(b@);
    let ghost want = x.remove(at as int);
    let len = a.len();
    if at >= len {
        return false;
    }
    proof {
        x.remove_ensures(at as int);
    }
    if b.len() != len - 1 {
        return false;
    }
    if !items_agree(a, 0, b, 0, at) {
        proof {
            if y == want {
                assert(y.subrange(0, at as int) =~= x.subrange(0, at as int));
            }
        }
        return false;
    }
    if !items_agree(a, at + 1, b, at, len - 1 - at) {
        proof {
            if y == want {
                assert(y.subrange(at as int, len - 1) =~= x.subrange(at + 1, len as int));
            }
        }
        return false;
    }
    proof {
        assert forall|j: int| 0 <= j < y.len() implies y[j] == want[j] by {
            if j < at {
                lemma_same_at(x, 0, y, 0, at as int, j);
            } else {
                lemma_same_at(x, at + 1, y, at as int, len - 1 - at, j - at);
            }
        }
        assert(y =~= want);
    }
    true
}

/// Whether the map of `b` is the map of `a` after the deed at `key`.
fn members_show_act(a: &Vec<Member>, b: &Vec<Member>, key: &String, deed: &Deed) -> (r: bool)
    ensures
        r == (can_act(Tree::Dict(members_tree(a@)), StepView::Key(key@), deed.act()) && Tree::Dict(
            members_tree(b@),
        ) == acted(Tree::Dict(members_tree(a@)), StepView::Key(key@), deed.act())),
{
    let ghost ours = members_tree(a@);
    let ghost theirs = members_tree(b@);
    match deed {
        Deed::Insert(_) => false,
        Deed::Put(value) => {
            proof {
                lemma_changed_agrees(ours, key@, value.tree());
            }
            if !members_agree_except(a, b, key) {
                return false;
            }
            match find_member(b, key) {
                Some(got) => {
                    let same = got.same_tree(value);
                    proof {
                        if same {
                            lemma_agree_insert(ours, theirs, key@, value.tree());
                        }
                    }
                    same
                },
                None => false,
            }
        },
        Deed::Delete => {
            proof {
                lemma_changed_agrees(ours, key@, Tree::Null);
            }
            if !members_agree_except(a, b, key) {
                return false;
            }
            let gone = find_member(b, key).is_none();
            proof {
                if gone {
                    lemma_agree_remove(ours, theirs, key@);
                }
            }
            gone
        },
    }
}

/// Whether the list `b` is the list `a` after the deed at `at`.
fn items_show_act(a: &Vec<Datum>, b: &Vec<Datum>, at: usize, deed: &Deed) -> (r: bool)
    ensures
        r == (can_act(Tree::List(values_tree(a@)), StepView::Index(at as nat), deed.act())
            && Tree::List(values_tree(b@)) == acted(
            Tree::List(values_tree(a@)),
            StepView::Index(at as nat),
            deed.act(),
        )),
{
    proof {
        lemma_values_tree(a@);
        lemma_values_tree(b@);
    }
    match deed {
        Deed::Put(value) => {
            if !items_same_but(a, b, at) {
                proof {
                    let x = values_tree(a@);
                    let y = values_tree(b@);
                    if at < x.len() && y == x.update(at as int, value.tree()) {
                        assert(y[at as int] == value.tree());
                    }
                }
                return false;
            }
            b[at].same_tree(value)
        },
        Deed::Insert(value) => items_show_insert(a, b, at, value),
        Deed::Delete => items_show_delete(a, b, at),
    }
}

/// Whether `new` is `old` after the deed at the place that the steps of
/// `path` from `from` on name: the deed can be done there, and `new` is
/// what it gives.
#[verifier::rlimit(40)]
pub fn shows_edit(old: &Datum, new: &Datum, path: &Vec<Step>, from: usize, deed: &Deed) -> (r:
    bool)
    requires
        from < path@.len(),
    ensures
        r == (can_edit(old.tree(), step_views(path@).skip(from as int), deed.act()) && new.tree()
            == edited_at(old.tree(), step_views(path@).skip(from as int), deed.act())),
    decreases path@.len() - from,
{
    let ghost rest = step_views(path@).skip(from as int);
    let ghost act = deed.act();
    let steps = path.len();
    let last = from + 1 == steps;
    proof {
        assert(rest.len() == path@.len() - from);
        assert(rest[0] == path@[from as int]@);
        assert(rest.drop_first() =~= step_views(path@).skip(from + 1));
    }
    match (old, new, &path[from]) {
        (Datum::Dict(a), Datum::Dict(b), Step::Key(key)) => {
            if last {
                members_show_act(a, b, key, deed)
            } else {
                let ghost ours = members_tree(a@);
                let ghost theirs = members_tree(b@);
                match find_member(a, key) {
                    None => false,
                    Some(had) => {
                        let ghost inner = edited_at(had.tree(), rest.drop_first(), act);
                        proof {
                            lemma_changed_agrees(ours, key@, inner);
                        }
                        if !members_agree_except(a, b, key) {
                            return false;
                        }
                        match find_member(b, key) {
                            None => false,
                            Some(got) => {
                                let same = shows_edit(had, got, path, from + 1, deed);
                                proof {
                                    lemma_agree_insert(ours, theirs, key@, got.tree());
                                    if theirs == ours.insert(key@, inner) {
                                        assert(ours.insert(key@, inner)[key@] == inner);
                                    }
                                }
                                same
                            },
                        }
                    },
                }
            }
        },
        (Datum::List(a), Datum::List(b), Step::Index(at)) => {
            proof {
                lemma_values_tree(a@);
                lemma_values_tree(b@);
            }
            if last {
                items_show_act(a, b, *at, deed)
            } else {
                let ghost x = values_tree(a@);
                let ghost y = values_tree(b@);
                if !items_same_but(a, b, *at) {
                    proof {
                        if *at < x.len() {
                            let inner = edited_at(x[*at as int], rest.drop_first(), act);
                            if y == x.update(*at as int, inner) {
                                assert(y[*at as int] == inner);
                            }
                        }
                    }
                    return false;
                }
                let same = shows_edit(&a[*at], &b[*at], path, from + 1, deed);
                proof {
                    let inner = edited_at(x[*at as int], rest.drop_first(), act);
                    if y == x.update(*at as int, inner) {
                        assert(y[*at as int] == inner);
                    }
                }
                same
            }
        },
        _ => false,
    }
}

/// Whether `old` and `put` are maps and `new` is the map `old` with the
/// members of `put` put into it.
pub fn shows_root_put(old: &Datum, put: &Datum, new: &Datum) -> (r: bool)
    ensures
        r == (old.tree() is Dict && put.tree() is Dict && new.tree() == root_put(
            old.tree(),
            put.tree(),
        )),
{
    match (old, put, new) {
        (Datum::Dict(a), Datum::Dict(p), Datum::Dict(b)) => members_show_union(a, p, b),
        _ => false,
    }
}

} // verus!
