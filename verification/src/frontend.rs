//! The frontend: a view of a document on which one new change is made.

use crate::backend::{
    absorb, absorb_all, facts_of, ids_seq, lemma_absorbed_len, lemma_absorbed_whole, lemma_id_in_log,
    replays, Backend, MergeError, Patch,
};
use crate::change::{decode_spec, has_hash, hashes, same_bytes, Change};
use crate::crdt::{
    engine_made, merged_tree, root_object, transacted, tx_child, tx_delete, tx_insert,
    tx_insert_object, tx_put, tx_put_object, value_scalar, ChangeFacts,
};
use crate::edit::{can_edit, edited_at, root_put, shows_edit, shows_root_put, Act, Deed};
use crate::value::{step_views, tree_at, Datum, Member, Plan, Step, StepView, Tree};
use vstd::prelude::*;

verus! {

/// Why no change was made.
#[derive(Debug, PartialEq, Eq, Structural, Clone, Copy)]
pub enum AuthorError {
    /// The edit names a place that the document does not have in the shape
    /// that the edit needs.
    InvalidPath,
    /// The document engine made no change, or not the change that was
    /// asked for.
    Engine,
}

/// One edit of a document. The last step of the path names the place in
/// the map or list that the steps before it lead to.
#[derive(Debug, PartialEq, Eq)]
pub enum LocalChange {
    /// Puts the value at the place: under a key of a map, or in place of an
    /// item of a list. With no steps, puts the members of a map into the
    /// root.
    Put { path: Vec<Step>, value: Datum },
    /// Puts the value into a list, before the item at the place, or at the
    /// end.
    Insert { path: Vec<Step>, value: Datum },
    /// Takes away what is at the place.
    Delete { path: Vec<Step> },
}

/// An edit as plain values.
pub ghost enum EditView {
    Put { path: Seq<StepView>, value: Tree },
    Insert { path: Seq<StepView>, value: Tree },
    Delete { path: Seq<StepView> },
}

impl View for LocalChange {
    type V = EditView;

    open spec fn view(&self) -> EditView {
        match self {
            LocalChange::Put { path, value } => EditView::Put {
                path: step_views(path@),
                value: value.tree(),
            },
            LocalChange::Insert { path, value } => EditView::Insert {
                path: step_views(path@),
                value: value.tree(),
            },
            LocalChange::Delete { path } => EditView::Delete { path: step_views(path@) },
        }
    }
}

/// An edit as plain values, with the members of maps in their order: what
/// is handed to the document engine.
pub ghost enum EditPlan {
    Put { path: Seq<StepView>, value: Plan },
    Insert { path: Seq<StepView>, value: Plan },
    Delete { path: Seq<StepView> },
}

impl LocalChange {
    /// The edit as it is handed to the document engine.
    pub open spec fn plan(self) -> EditPlan {
        match self {
            LocalChange::Put { path, value } => EditPlan::Put {
                path: step_views(path@),
                value: value.plan(),
            },
            LocalChange::Insert { path, value } => EditPlan::Insert {
                path: step_views(path@),
                value: value.plan(),
            },
            LocalChange::Delete { path } => EditPlan::Delete { path: step_views(path@) },
        }
    }
}

/// A value can be put at the step of `parent`: under any key of a map, or
/// in place of an item that a list has.
pub open spec fn can_put(parent: Tree, step: StepView) -> bool {
    match (parent, step) {
        (Tree::Dict(_), StepView::Key(_)) => true,
        (Tree::List(items), StepView::Index(i)) => i < items.len(),
        _ => false,
    }
}

/// A value can be put into `parent` at the step: before an item of a list,
/// or at its end.
pub open spec fn can_insert(parent: Tree, step: StepView) -> bool {
    match (parent, step) {
        (Tree::List(items), StepView::Index(i)) => i <= items.len(),
        _ => false,
    }
}

/// The edit names a place that the tree has, in the shape that the edit
/// needs.
pub open spec fn edit_fits(tree: Tree, edit: EditView) -> bool {
    match edit {
        EditView::Put { path, value } => if path.len() == 0 {
            value is Dict
        } else {
            match tree_at(tree, path.drop_last()) {
                Some(parent) => can_put(parent, path.last()),
                None => false,
            }
        },
        EditView::Insert { path, value } => path.len() > 0 && match tree_at(
            tree,
            path.drop_last(),
        ) {
            Some(parent) => can_insert(parent, path.last()),
            None => false,
        },
        EditView::Delete { path } => path.len() > 0 && tree_at(tree, path) is Some,
    }
}

/// The tree after the edit.
pub open spec fn edited(tree: Tree, edit: EditView) -> Tree {
    match edit {
        EditView::Put { path, value } => if path.len() == 0 {
            root_put(tree, value)
        } else {
            edited_at(tree, path, Act::Put(value))
        },
        EditView::Insert { path, value } => edited_at(tree, path, Act::Insert(value)),
        EditView::Delete { path } => edited_at(tree, path, Act::Delete),
    }
}

/// The tree `new` is the tree `old` after the edit, and the edit can be
/// made on `old`: with no steps, both `old` and the value are maps; else
/// the steps name a place of `old` at which the edit can be made.
pub open spec fn shown(old: Tree, new: Tree, edit: EditView) -> bool {
    match edit {
        EditView::Put { path, value } => if path.len() == 0 {
            old is Dict && value is Dict && new == root_put(old, value)
        } else {
            can_edit(old, path, Act::Put(value)) && new == edited_at(old, path, Act::Put(value))
        },
        EditView::Insert { path, value } => can_edit(old, path, Act::Insert(value)) && new
            == edited_at(old, path, Act::Insert(value)),
        EditView::Delete { path } => can_edit(old, path, Act::Delete) && new == edited_at(
            old,
            path,
            Act::Delete,
        ),
    }
}

/// Whether `new` is `old` after the edit, and the edit can be made on
/// `old`.
pub fn shows(old: &Datum, new: &Datum, edit: &LocalChange) -> (r: bool)
    ensures
        r == shown(old.tree(), new.tree(), edit@),
        r ==> new.tree() == edited(old.tree(), edit@),
{
    match edit {
        LocalChange::Put { path, value } => {
            proof {
                assert(step_views(path@).skip(0) =~= step_views(path@));
            }
            if path.len() == 0 {
                shows_root_put(old, value, new)
            } else {
                shows_edit(old, new, path, 0, &Deed::Put(value))
            }
        },
        LocalChange::Insert { path, value } => {
            proof {
                assert(step_views(path@).skip(0) =~= step_views(path@));
            }
            if path.len() == 0 {
                false
            } else {
                shows_edit(old, new, path, 0, &Deed::Insert(value))
            }
        },
        LocalChange::Delete { path } => {
            proof {
                assert(step_views(path@).skip(0) =~= step_views(path@));
            }
            if path.len() == 0 {
                false
            } else {
                shows_edit(old, new, path, 0, &Deed::Delete)
            }
        },
    }
}

/// Some change of the log names `id` as a dependency.
pub open spec fn is_dep(log: Seq<ChangeFacts>, id: Seq<u8>) -> bool {
    exists|j: int, k: int|
        0 <= j < log.len() && 0 <= k < log[j].deps.len() && #[trigger] log[j].deps[k] == id
}

/// The causal frontier of a log: the hashes of its changes that no change
/// of the log depends on.
pub open spec fn frontier(log: Seq<ChangeFacts>) -> Set<Seq<u8>> {
    Set::new(|id: Seq<u8>| ids_seq(log).contains(id) && !is_dep(log, id))
}

/// The highest number among the changes of the log that the actor made;
/// 0 where it made none.
pub open spec fn last_seq(log: Seq<ChangeFacts>, actor: Seq<u8>) -> u64
    decreases log.len(),
{
    if log.len() == 0 {
        0
    } else {
        let front = last_seq(log.drop_last(), actor);
        if log.last().actor == actor && log.last().seq > front {
            log.last().seq
        } else {
            front
        }
    }
}

/// The change is the next one of the actor on this log: it carries the
/// actor, the next number that the actor has not used, the message, and as
/// dependencies the causal frontier of the log.
pub open spec fn stamped(
    actor: Seq<u8>,
    log: Seq<ChangeFacts>,
    message: Seq<char>,
    c: ChangeFacts,
) -> bool {
    &&& c.actor == actor
    &&& c.seq == last_seq(log, actor) + 1
    &&& c.message == Some(message)
    &&& forall|id: Seq<u8>| c.deps.contains(id) <==> frontier(log).contains(id)
}

/// Whether some change of the list names `id` as a dependency.
fn named_as_dep(list: &Vec<Change>, id: &Vec<u8>) -> (r: bool)
    ensures
        r == is_dep(facts_of(list@), id@),
{
    let mut j: usize = 0;
    while j < list.len()
        invariant
            j <= list.len(),
            forall|a: int, k: int|
                0 <= a < j && 0 <= k < facts_of(list@)[a].deps.len() ==> #[trigger] facts_of(
                    list@,
                )[a].deps[k] != id@,
        decreases list.len() - j,
    {
        let deps = &list[j].header().deps;
        if has_hash(deps, id) {
            proof {
                let k = hashes(deps@).index_of(id@);
                assert(facts_of(list@)[j as int].deps[k] == id@);
            }
            return true;
        }
        proof {
            assert forall|k: int| 0 <= k < facts_of(list@)[j as int].deps.len() implies facts_of(
                list@,
            )[j as int].deps[k] != id@ by {
                assert(hashes(deps@)[k] == facts_of(list@)[j as int].deps[k]);
                if hashes(deps@)[k] == id@ {
                    assert(hashes(deps@).contains(id@));
                }
            }
        }
        j += 1;
    }
    false
}

/// Some change among the first `n` of the log has the hash `id`.
pub open spec fn met_before(log: Seq<ChangeFacts>, n: int, id: Seq<u8>) -> bool {
    exists|a: int| 0 <= a < n && a < log.len() && (#[trigger] log[a]).id == id
}

/// The causal frontier of a list of changes.
#[verifier::rlimit(40)]
pub fn heads_of(list: &Vec<Change>) -> (heads: Vec<Vec<u8>>)
    ensures
        forall|id: Seq<u8>|
            hashes(heads@).contains(id) <==> frontier(facts_of(list@)).contains(id),
{
    let ghost log = facts_of(list@);
    let mut heads: Vec<Vec<u8>> = Vec::new();
    let mut i: usize = 0;
    while i < list.len()
        invariant
            i <= list.len(),
            log == facts_of(list@),
            forall|id: Seq<u8>|
                #[trigger] hashes(heads@).contains(id) <==> (!is_dep(log, id) && met_before(
                    log,
                    i as int,
                    id,
                )),
        decreases list.len() - i,
    {
        let id = &list[i].header().id;
        let ghost before = hashes(heads@);
        let named = named_as_dep(list, id);
        if !named {
            let copy = id.clone();
            heads.push(copy);
            proof {
                assert(hashes(heads@) =~= before.push(id@));
            }
        }
        proof {
            let after = hashes(heads@);
            assert(log[i as int].id == id@);
            assert forall|x: Seq<u8>| #[trigger] after.contains(x) <==> (!is_dep(log, x)
                && met_before(log, i + 1, x)) by {
                assert(before.contains(x) <==> (!is_dep(log, x) && met_before(log, i as int, x)));
                if after.contains(x) {
                    let w = after.index_of(x);
                    if w < before.len() {
                        assert(before[w] == x);
                        assert(before.contains(x));
                        let a = choose|a: int|
                            0 <= a < i && a < log.len() && (#[trigger] log[a]).id == x;
                        assert(log[a].id == x);
                    } else {
                        assert(x == id@);
                        assert(log[i as int].id == x);
                    }
                }
                if !is_dep(log, x) && met_before(log, i + 1, x) {
                    let a = choose|a: int|
                        0 <= a < i + 1 && a < log.len() && (#[trigger] log[a]).id == x;
                    if a < i {
                        assert(log[a].id == x);
                        assert(met_before(log, i as int, x));
                        assert(before.contains(x));
                        let w = before.index_of(x);
                        assert(after[w] == x);
                    } else {
                        assert(x == id@);
                        assert(!named);
                        assert(after[before.len() as int] == x);
                    }
                }
            }
        }
        i += 1;
    }
    proof {
        assert forall|id: Seq<u8>|
            hashes(heads@).contains(id) <==> frontier(log).contains(id) by {
            assert(hashes(heads@).contains(id) <==> (!is_dep(log, id) && met_before(
                log,
                i as int,
                id,
            )));
            lemma_id_in_log(log, id);
            if met_before(log, i as int, id) {
                let a = choose|a: int| 0 <= a < i && a < log.len() && (#[trigger] log[a]).id == id;
                assert(log[a].id == id);
                assert(ids_seq(log).contains(id));
            }
            if ids_seq(log).contains(id) {
                let a = choose|a: int| 0 <= a < log.len() && (#[trigger] log[a]).id == id;
                assert(log[a].id == id);
                assert(met_before(log, i as int, id));
            }
        }
    }
    heads
}

/// Whether every hash of `inner` is among the hashes of `outer`.
fn covers(outer: &Vec<Vec<u8>>, inner: &Vec<Vec<u8>>) -> (r: bool)
    ensures
        r == forall|id: Seq<u8>| hashes(inner@).contains(id) ==> hashes(outer@).contains(id),
{
    let mut i: usize = 0;
    while i < inner.len()
        invariant
            i <= inner.len(),
            forall|a: int| 0 <= a < i ==> hashes(outer@).contains(#[trigger] hashes(inner@)[a]),
        decreases inner.len() - i,
    {
        if !has_hash(outer, &inner[i]) {
            proof {
                assert(hashes(inner@)[i as int] == inner@[i as int]@);
                assert(hashes(inner@).contains(inner@[i as int]@));
            }
            return false;
        }
        proof {
            assert(hashes(inner@)[i as int] == inner@[i as int]@);
        }
        i += 1;
    }
    proof {
        assert forall|id: Seq<u8>| hashes(inner@).contains(id) implies hashes(outer@).contains(
            id,
        ) by {
            let a = hashes(inner@).index_of(id);
            assert(hashes(inner@)[a] == id);
        }
    }
    true
}

/// The highest number among the changes of the list that the actor made.
fn highest_seq(list: &Vec<Change>, actor: &Vec<u8>) -> (n: u64)
    ensures
        n == last_seq(facts_of(list@), actor@),
{
    let mut n: u64 = 0;
    let mut i: usize = 0;
    proof {
        assert(facts_of(list@).take(0) =~= Seq::<ChangeFacts>::empty());
    }
    while i < list.len()
        invariant
            i <= list.len(),
            n == last_seq(facts_of(list@).take(i as int), actor@),
        decreases list.len() - i,
    {
        let h = list[i].header();
        proof {
            let log = facts_of(list@);
            assert(log.take(i + 1).drop_last() =~= log.take(i as int));
            assert(log.take(i + 1).last() == h.facts());
        }
        if same_bytes(&h.actor, actor) && h.seq > n {
            n = h.seq;
        }
        i += 1;
    }
    proof {
        assert(facts_of(list@).take(list@.len() as int) =~= facts_of(list@));
    }
    n
}

/// The value can be written: it holds no float, at any depth. The engine's
/// floats are not among the values that this library hands to it.
pub open spec fn writable(value: Datum) -> bool
    decreases value,
{
    match value {
        Datum::Float(_) => false,
        Datum::List(items) => all_writable(items@),
        Datum::Dict(members) => members_writable(members@),
        _ => true,
    }
}

/// Every value of the list can be written.
pub open spec fn all_writable(values: Seq<Datum>) -> bool
    decreases values,
{
    if values.len() == 0 {
        true
    } else {
        all_writable(values.drop_last()) && writable(values.last())
    }
}

/// The value of every member of the list can be written.
pub open spec fn members_writable(members: Seq<Member>) -> bool
    decreases members,
{
    if members.len() == 0 {
        true
    } else {
        members_writable(members.drop_last()) && writable(members.last().value)
    }
}

/// The edit is one that the engine can be asked for: what it puts can be
/// written, a put without steps puts a map, an insert names a position as
/// its last step, and an insert and a delete have steps.
pub open spec fn workable(edit: LocalChange) -> bool {
    match edit {
        LocalChange::Put { path, value } => writable(value) && (path@.len() == 0 ==> value is Dict),
        LocalChange::Insert { path, value } => writable(value) && path@.len() > 0 && path@.last()
            is Index,
        LocalChange::Delete { path } => path@.len() > 0,
    }
}

/// Writes a value at a step of an object of the transaction: a primitive at
/// once, a list or a map as a new object and then item by item. Says whether
/// the engine took every write. A float is not written, and nothing is put
/// in at a key: there the answer is `false`, whatever the engine does.
fn write_datum(
    tx: &mut automerge::transaction::Transaction<'_>,
    object: &automerge::ObjId,
    step: &Step,
    insert: bool,
    value: &Datum,
) -> (r: bool)
    ensures
        r ==> writable(*value) && (insert ==> step is Index),
    decreases value,
{
    match value {
        Datum::Float(_) => false,
        Datum::List(items) => {
            let made = if insert {
                match step {
                    Step::Index(i) => tx_insert_object(tx, object, *i, true),
                    Step::Key(_) => None,
                }
            } else {
                tx_put_object(tx, object, step, true)
            };
            match made {
                None => false,
                Some(id) => {
                    let mut i: usize = 0;
                    proof {
                        assert(items@.take(0) =~= Seq::<Datum>::empty());
                    }
                    while i < items.len()
                        invariant
                            i <= items.len(),
                            *value == Datum::List(*items),
                            all_writable(items@.take(i as int)),
                        decreases items.len() - i,
                    {
                        let item = &items[i];
                        proof {
                            assert(value->List_0 == *items);
                            assert(decreases_to!(*value => value->List_0));
                            assert(decreases_to!(*items => *item));
                        }
                        if !write_datum(tx, &id, &Step::Index(i), true, item) {
                            return false;
                        }
                        proof {
                            assert(items@.take(i + 1).drop_last() =~= items@.take(i as int));
                            assert(items@.take(i + 1).last() == *item);
                        }
                        i += 1;
                    }
                    proof {
                        assert(items@.take(items@.len() as int) =~= items@);
                    }
                    true
                },
            }
        },
        Datum::Dict(members) => {
            let made = if insert {
                match step {
                    Step::Index(i) => tx_insert_object(tx, object, *i, false),
                    Step::Key(_) => None,
                }
            } else {
                tx_put_object(tx, object, step, false)
            };
            match made {
                None => false,
                Some(id) => {
                    let mut i: usize = 0;
                    proof {
                        assert(members@.take(0) =~= Seq::<Member>::empty());
                    }
                    while i < members.len()
                        invariant
                            i <= members.len(),
                            *value == Datum::Dict(*members),
                            members_writable(members@.take(i as int)),
                        decreases members.len() - i,
                    {
                        let member = &members[i];
                        proof {
                            assert(value->Dict_0 == *members);
                            assert(decreases_to!(*value => value->Dict_0));
                            assert(decreases_to!(*members => *member));
                            assert(decreases_to!(*member => member.value));
                        }
                        let key = Step::Key(member.key.clone());
                        if !write_datum(tx, &id, &key, false, &member.value) {
                            return false;
                        }
                        proof {
                            assert(members@.take(i + 1).drop_last() =~= members@.take(i as int));
                            assert(members@.take(i + 1).last() == *member);
                        }
                        i += 1;
                    }
                    proof {
                        assert(members@.take(members@.len() as int) =~= members@);
                    }
                    true
                },
            }
        },
        _ => match value_scalar(value) {
            Some(scalar) => {
                if insert {
                    match step {
                        Step::Index(i) => tx_insert(tx, object, *i, scalar),
                        Step::Key(_) => false,
                    }
                } else {
                    tx_put(tx, object, step, scalar)
                }
            },
            None => false,
        },
    }
}

/// Writes the members of a map into the root of the transaction, one by
/// one. Says whether the engine took every write: `true` where there is no
/// member, and never where a member holds a float.
fn write_root(tx: &mut automerge::transaction::Transaction<'_>, members: &Vec<Member>) -> (r: bool)
    ensures
        members@.len() == 0 ==> r,
        r ==> members_writable(members@),
{
    let root = root_object();
    let mut i: usize = 0;
    proof {
        assert(members@.take(0) =~= Seq::<Member>::empty());
    }
    while i < members.len()
        invariant
            i <= members.len(),
            members_writable(members@.take(i as int)),
        decreases members.len() - i,
    {
        let key = Step::Key(members[i].key.clone());
        if !write_datum(tx, &root, &key, false, &members[i].value) {
            return false;
        }
        proof {
            assert(members@.take(i + 1).drop_last() =~= members@.take(i as int));
            assert(members@.take(i + 1).last() == members@[i as int]);
        }
        i += 1;
    }
    proof {
        assert(members@.take(members@.len() as int) =~= members@);
    }
    true
}

/// The object of the transaction that the first `n` steps lead to: the
/// root where `n` is 0, else what the engine finds step by step.
fn resolve(tx: &automerge::transaction::Transaction<'_>, path: &Vec<Step>, n: usize) -> (r: Option<
    automerge::ObjId,
>)
    requires
        n <= path@.len(),
    ensures
        n == 0 ==> r is Some,
{
    let mut here = root_object();
    let mut i: usize = 0;
    while i < n
        invariant
            i <= n <= path@.len(),
        decreases n - i,
    {
        match tx_child(tx, &here, &path[i]) {
            Some(next) => {
                here = next;
            },
            None => {
                return None;
            },
        }
        i += 1;
    }
    Some(here)
}

/// Makes the edit in a transaction: finds the map or list that the steps
/// before the last lead to, and writes, puts in or takes away at the last
/// step. `Ok` where the engine took everything; never for an edit that is
/// not workable.
pub(crate) fn write_edit(tx: &mut automerge::transaction::Transaction<'_>, edit: &LocalChange) -> (r:
    Result<(), ()>)
    ensures
        r is Ok ==> workable(*edit),
{
    let done = match edit {
        LocalChange::Put { path, value } => {
            if path.len() == 0 {
                match value {
                    Datum::Dict(members) => write_root(tx, members),
                    _ => false,
                }
            } else {
                match resolve(tx, path, path.len() - 1) {
                    Some(parent) => write_datum(tx, &parent, &path[path.len() - 1], false, value),
                    None => false,
                }
            }
        },
        LocalChange::Insert { path, value } => {
            if path.len() == 0 {
                false
            } else {
                match resolve(tx, path, path.len() - 1) {
                    Some(parent) => write_datum(tx, &parent, &path[path.len() - 1], true, value),
                    None => false,
                }
            }
        },
        LocalChange::Delete { path } => {
            if path.len() == 0 {
                false
            } else {
                match resolve(tx, path, path.len() - 1) {
                    Some(parent) => tx_delete(tx, &parent, &path[path.len() - 1]),
                    None => false,
                }
            }
        },
    };
    if done {
        Ok(())
    } else {
        Err(())
    }
}

/// What comes of making an edit on a view: the bytes of the change that the
/// engine makes, where the changes of the view can be folded into an empty
/// log, the engine's change is the next one of the actor on the view and is
/// merged after the changes of the view, and the tree after it shows the
/// edit made on the tree of the view; else nothing.
pub open spec fn authored(
    actor: Seq<u8>,
    base: Seq<ChangeFacts>,
    message: Seq<char>,
    plan: EditPlan,
    edit: EditView,
    snapshot: Tree,
) -> Option<Seq<u8>> {
    if !replays(base) {
        None
    } else {
        match transacted(ids_seq(base), actor, message, plan) {
            None => None,
            Some(bytes) => match decode_spec(bytes) {
                Err(_) => None,
                Ok(f) => if stamped(actor, base, message, f) && absorb(base, f) == Ok::<
                    Seq<ChangeFacts>,
                    MergeError,
                >(base.push(f)) && shown(snapshot, merged_tree(ids_seq(base.push(f))), edit) {
                    Some(bytes)
                } else {
                    None
                },
            },
        }
    }
}

/// A view of a document on which one new change is made: the actor that
/// makes it, the changes that the view is made of, and the value tree.
pub struct Frontend {
    actor: Vec<u8>,
    base: Vec<Change>,
    snapshot: Datum,
}

impl Frontend {
    /// The actor that makes the change.
    pub closed spec fn actor(self) -> Seq<u8> {
        self.actor@
    }

    /// What the changes declare that the view is made of, in order.
    pub closed spec fn base(self) -> Seq<ChangeFacts> {
        facts_of(self.base@)
    }

    /// The value tree of the view.
    pub closed spec fn snapshot(self) -> Tree {
        self.snapshot.tree()
    }

    /// A view of the empty document: no change, and a map without members.
    pub fn new(actor: Vec<u8>) -> (f: Frontend)
        ensures
            f.actor() == actor@,
            f.base() == Seq::<ChangeFacts>::empty(),
            f.snapshot() == Tree::Dict(Map::<Seq<char>, Tree>::empty()),
    {
        let f = Frontend { actor, base: Vec::new(), snapshot: Datum::Dict(Vec::new()) };
        proof {
            assert(facts_of(f.base@) =~= Seq::<ChangeFacts>::empty());
        }
        f
    }

    /// The value tree of the view.
    pub fn state(&self) -> (value: &Datum)
        ensures
            value.tree() == self.snapshot(),
    {
        &self.snapshot
    }

    /// Takes changes and the value tree after them into the view.
    pub fn adopt(&mut self, changes: Vec<Change>, value: Datum)
        ensures
            final(self).actor() == old(self).actor(),
            final(self).base() == old(self).base() + facts_of(changes@),
            final(self).snapshot() == value.tree(),
    {
        let mut changes = changes;
        let ghost added = facts_of(changes@);
        self.base.append(&mut changes);
        self.snapshot = value;
        proof {
            assert(facts_of(self.base@) =~= old(self).base() + added);
        }
    }

    /// Takes a patch into the view: its changes and its value tree.
    pub fn apply_patch(&mut self, patch: Patch)
        ensures
            final(self).actor() == old(self).actor(),
            final(self).base() == old(self).base() + facts_of(patch.changes@),
            final(self).snapshot() == patch.value.tree(),
    {
        self.adopt(patch.changes, patch.value);
    }

    /// Whether the edit names a place that the view has, in the shape that
    /// the edit needs.
    pub fn fits(&self, edit: &LocalChange) -> (r: bool)
        ensures
            r == edit_fits(self.snapshot(), edit@),
    {
        match edit {
            LocalChange::Put { path, value } => {
                if path.len() == 0 {
                    match value {
                        Datum::Dict(_) => true,
                        _ => false,
                    }
                } else {
                    let n = path.len() - 1;
                    proof {
                        assert(step_views(path@).drop_last() =~= step_views(path@).take(n as int));
                        assert(step_views(path@).last() == path@[n as int]@);
                    }
                    match self.snapshot.at_prefix(path, n) {
                        Some(parent) => match (parent, &path[n]) {
                            (Datum::Dict(_), Step::Key(_)) => true,
                            (Datum::List(items), Step::Index(i)) => {
                                proof {
                                    crate::value::lemma_values_tree(items@);
                                }
                                *i < items.len()
                            },
                            _ => false,
                        },
                        None => false,
                    }
                }
            },
            LocalChange::Insert { path, value } => {
                if path.len() == 0 {
                    false
                } else {
                    let n = path.len() - 1;
                    proof {
                        assert(step_views(path@).drop_last() =~= step_views(path@).take(n as int));
                        assert(step_views(path@).last() == path@[n as int]@);
                    }
                    match self.snapshot.at_prefix(path, n) {
                        Some(parent) => match (parent, &path[n]) {
                            (Datum::List(items), Step::Index(i)) => {
                                proof {
                                    crate::value::lemma_values_tree(items@);
                                }
                                *i <= items.len()
                            },
                            _ => false,
                        },
                        None => false,
                    }
                }
            },
            LocalChange::Delete { path } => {
                if path.len() == 0 {
                    false
                } else {
                    self.snapshot.at(path).is_some()
                }
            },
        }
    }

    /// Has the document engine make the change of the edit, on a backend
    /// that holds the changes of the view.
    fn produce(&self, scratch: &Backend, message: &String, edit: &LocalChange) -> (r: Option<
        Vec<u8>,
    >)
        requires
            scratch.wf(),
            scratch.log() == self.base(),
        ensures
            (match r {
                Some(bytes) => Some(bytes@),
                None => None,
            }) == transacted(ids_seq(self.base()), self.actor(), message@, edit.plan()),
            r matches Some(bytes) ==> engine_made(bytes@),
    {
        scratch.transact(&self.actor, message, edit)
    }

    /// Accepts what the document engine made, if it is the next change of
    /// the actor on this view: read from its transportable form, with the
    /// actor, the next number, the message, and the causal frontier of the
    /// view as its dependencies.
    pub fn seal(&self, message: &String, produced: Option<Vec<u8>>) -> (r: Result<
        Change,
        AuthorError,
    >)
        requires
            produced matches Some(bytes) ==> engine_made(bytes@),
        ensures
            r is Ok <==> (produced matches Some(bytes) && decode_spec(bytes@) matches Ok(f)
                && stamped(self.actor(), self.base(), message@, f)),
            r matches Ok(c) ==> c.sound() && c.bytes() == produced.unwrap()@ && stamped(
                self.actor(),
                self.base(),
                message@,
                c.facts(),
            ),
            r matches Err(e) ==> e == AuthorError::Engine,
    {
        let bytes = match produced {
            Some(bytes) => bytes,
            None => {
                return Err(AuthorError::Engine);
            },
        };
        let change = match Change::decode(bytes) {
            Ok(c) => c,
            Err(_) => {
                return Err(AuthorError::Engine);
            },
        };
        let h = change.header();
        let last = highest_seq(&self.base, &self.actor);
        let heads = heads_of(&self.base);
        let said = match &h.message {
            Some(m) => *m == *message,
            None => false,
        };
        proof {
            assert forall|id: Seq<u8>| h.facts().deps.contains(id) <==> hashes(h.deps@).contains(
                id,
            ) by {}
        }
        if same_bytes(&h.actor, &self.actor) && last < u64::MAX && h.seq == last + 1 && said
            && covers(&heads, &h.deps) && covers(&h.deps, &heads) {
            Ok(change)
        } else {
            Err(AuthorError::Engine)
        }
    }

    /// Makes the one change of this view: the edit, in a change that carries
    /// the actor, the next number, the message, and the causal frontier of
    /// the view as its dependencies.
    ///
    /// The edit is held against the value tree of the view first: where it
    /// does not fit, the error is `InvalidPath` and the document engine is
    /// not asked. Else the changes of the view are folded into a backend of
    /// its own, the engine makes the change there, and the change is merged
    /// after them. The change comes back where all of `authored` holds: it
    /// is the next change of the actor, it is merged, and the tree after it
    /// is the tree of the view with the edit made and nothing else. In
    /// every other case the error is `Engine`.
    #[verifier::rlimit(40)]
    pub fn author_change(self, message: &String, edit: &LocalChange) -> (r: Result<
        Change,
        AuthorError,
    >)
        ensures
            r == Err::<Change, AuthorError>(AuthorError::InvalidPath) <==> !edit_fits(
                self.snapshot(),
                edit@,
            ),
            edit_fits(self.snapshot(), edit@) ==> match authored(
                self.actor(),
                self.base(),
                message@,
                edit.plan(),
                edit@,
                self.snapshot(),
            ) {
                Some(bytes) => r matches Ok(c) && c.bytes() == bytes,
                None => r == Err::<Change, AuthorError>(AuthorError::Engine),
            },
            r matches Ok(c) ==> c.sound() && stamped(self.actor(), self.base(), message@, c.facts())
                && merged_tree(ids_seq(self.base().push(c.facts()))) == edited(
                self.snapshot(),
                edit@,
            ),
    {
        if !self.fits(edit) {
            return Err(AuthorError::InvalidPath);
        }
        let ghost base = self.base();
        let mut scratch = Backend::new();
        proof {
            lemma_absorbed_whole(base);
            lemma_absorbed_len(Seq::empty(), base);
        }
        match scratch.apply_changes(&self.base) {
            Ok(patch) => {
                proof {
                    assert(scratch.log().skip(0) =~= scratch.log());
                }
                if patch.changes.len() != self.base.len() {
                    return Err(AuthorError::Engine);
                }
            },
            Err(_) => {
                return Err(AuthorError::Engine);
            },
        }
        let produced = self.produce(&scratch, message, edit);
        let change = match self.seal(message, produced) {
            Ok(c) => c,
            Err(_) => {
                return Err(AuthorError::Engine);
            },
        };
        let ghost f = change.facts();
        let mut batch: Vec<Change> = Vec::new();
        batch.push(change.copy());
        proof {
            crate::change::law_decode_inverts_encode(change);
            let one = facts_of(batch@);
            assert(one =~= seq![f]);
            assert(one.drop_last() =~= Seq::<ChangeFacts>::empty());
            assert(absorb_all(base, one.drop_last()) == Ok::<Seq<ChangeFacts>, MergeError>(base));
            assert(one.last() == f);
            assert(absorb_all(base, one) == absorb(base, f));
        }
        match scratch.apply_changes(&batch) {
            Ok(patch) => {
                proof {
                    assert(scratch.log().skip(base.len() as int).len() == patch.changes@.len());
                }
                if patch.changes.len() != 1 {
                    proof {
                        assert(base.push(f).skip(base.len() as int).len() == 1);
                        assert(scratch.log() != base.push(f));
                    }
                    return Err(AuthorError::Engine);
                }
                proof {
                    assert(scratch.log() =~= base.push(f));
                }
                if shows(&self.snapshot, &patch.value, edit) {
                    Ok(change)
                } else {
                    Err(AuthorError::Engine)
                }
            },
            Err(_) => Err(AuthorError::Engine),
        }
    }
}

} // verus!
