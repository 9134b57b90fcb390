//! The document engine: what this library takes from `automerge`, with the
//! contracts that it relies on. None of those contracts is proved here.
//!
//! A document of the engine holds changes. A change that arrives before the
//! changes it depends on is held back; the others are merged, in the order
//! in which they arrive. What the engine answers here depends on the merged
//! changes in that order and on what it is handed, and on nothing else: the
//! actor of a change that it makes is given to it, and the change carries
//! the time 0.
//!
//! The engine does not test the bytes of a change before it merges them:
//! see `engine_made`. That no engine call can test them either is why the
//! premise goes up to `Change::decode`, `History::from_entries`,
//! `visit_entry` and `Backend::load`.

use crate::change::ChangeHeader;
use crate::frontend::{write_edit, EditPlan, LocalChange};
use crate::value::{Datum, Member, Step, Tree};
use automerge::transaction::Transactable;
use automerge::ReadDoc;
use vstd::prelude::*;

verus! {

/// A document of the engine.
#[verifier::external_type_specification]
#[verifier::external_body]
pub struct ExAutomerge(automerge::Automerge);

/// A transaction on a document: the edits of one change in the making.
#[verifier::external_type_specification]
#[verifier::external_body]
pub struct ExTransaction<'a>(automerge::transaction::Transaction<'a>);

/// The id of a map or list in a document.
#[verifier::external_type_specification]
#[verifier::external_body]
pub struct ExObjId(automerge::ObjId);

/// The value tree of a document as the engine hands it out.
#[verifier::external_type_specification]
#[verifier::external_body]
pub struct ExHydrated(automerge::hydrate::Value);

/// A primitive value of the engine.
#[verifier::external_type_specification]
#[verifier::external_body]
pub struct ExScalar(automerge::ScalarValue);

/// What a change declares of itself, as plain values.
pub ghost struct ChangeFacts {
    pub id: Seq<u8>,
    pub actor: Seq<u8>,
    pub seq: u64,
    pub deps: Seq<Seq<u8>>,
    pub message: Option<Seq<char>>,
}

/// What `automerge::Change::from_bytes` reads from `bytes`: nothing where it
/// fails, else the change's hash, actor, number, dependencies and message.
pub uninterp spec fn parsed_change(bytes: Seq<u8>) -> Option<ChangeFacts>;

/// The bytes hold a change as the engine itself makes one: every operation
/// names its actors by a place in the change's own table of actors, and
/// names only objects that the change or one of its dependencies made.
///
/// The engine does not test this of bytes that it is given, and nothing in
/// it can be called to test it: it looks the actors up unchecked and stops
/// the process where one is missing. So the library merges only bytes of
/// which this is known, and it is known only of what the engine made.
pub uninterp spec fn engine_made(bytes: Seq<u8>) -> bool;

/// The bytes can be handed to the engine: they are not read as a change at
/// all, or they hold a change as the engine makes one.
pub open spec fn harmless(bytes: Seq<u8>) -> bool {
    parsed_change(bytes) is Some ==> engine_made(bytes)
}

/// The hashes of the changes that are merged into the document, in the
/// order of merging.
pub uninterp spec fn merged_log(doc: automerge::Automerge) -> Seq<Seq<u8>>;

/// How many of the merged changes of the document the actor made.
pub uninterp spec fn merged_count(doc: automerge::Automerge, actor: Seq<u8>) -> nat;

/// The hashes of the changes that the document holds back until the changes
/// that they depend on arrive.
pub uninterp spec fn parked_changes(doc: automerge::Automerge) -> Set<Seq<u8>>;

/// What `automerge::Automerge::hydrate` gives for a document into which the
/// changes with these hashes were merged, in this order.
pub uninterp spec fn merged_tree(log: Seq<Seq<u8>>) -> Tree;

/// The change that the engine makes of an edit: the bytes that a
/// transaction gives when it is run, for this actor and with this message,
/// on a document into which the changes with these hashes were merged in
/// this order; nothing where the transaction fails or has nothing to
/// commit.
pub uninterp spec fn transacted(
    log: Seq<Seq<u8>>,
    actor: Seq<u8>,
    message: Seq<char>,
    edit: EditPlan,
) -> Option<Seq<u8>>;

/// Calls `automerge::Change::from_bytes` and reads the change's hash, actor,
/// number, dependencies and message through its accessors. The contract
/// claims only that the same bytes always give the same outcome.
#[verifier::external_body]
pub(crate) fn parse_change(bytes: &Vec<u8>) -> (r: Option<ChangeHeader>)
    ensures
        r matches Some(h) ==> parsed_change(bytes@) == Some(h.facts()),
        r is None ==> parsed_change(bytes@) is None,
{
    match automerge::Change::from_bytes(bytes.clone()) {
        Ok(c) => Some(ChangeHeader {
            id: c.hash().0.to_vec(),
            actor: c.actor_id().to_bytes().to_vec(),
            seq: c.seq(),
            deps: c.deps().iter().map(|d| d.0.to_vec()).collect(),
            message: c.message().cloned(),
        }),
        Err(_) => None,
    }
}

/// Calls `automerge::Automerge::new`: a document that holds no change.
#[verifier::external_body]
pub(crate) fn doc_new() -> (doc: automerge::Automerge)
    ensures
        merged_log(doc) == Seq::<Seq<u8>>::empty(),
        parked_changes(doc) == Set::<Seq<u8>>::empty(),
        forall|actor: Seq<u8>| #[trigger] merged_count(doc, actor) == 0,
{
    automerge::Automerge::new()
}

/// Calls `clone` on an `automerge::Automerge`: the copy holds the same
/// changes.
#[verifier::external_body]
pub(crate) fn doc_clone(doc: &automerge::Automerge) -> (copy: automerge::Automerge)
    ensures
        merged_log(copy) == merged_log(*doc),
        parked_changes(copy) == parked_changes(*doc),
        forall|actor: Seq<u8>| #[trigger] merged_count(copy, actor) == merged_count(*doc, actor),
{
    doc.clone()
}

/// The document holds nothing back, and the change that the bytes hold is
/// new to it and has all its dependencies merged.
pub open spec fn ready_for(doc: automerge::Automerge, bytes: Seq<u8>) -> bool {
    &&& parked_changes(doc).is_empty()
    &&& parsed_change(bytes) is Some
    &&& !merged_log(doc).contains(parsed_change(bytes).unwrap().id)
    &&& forall|k: int|
        0 <= k < parsed_change(bytes).unwrap().deps.len() ==> merged_log(doc).contains(
            #[trigger] parsed_change(bytes).unwrap().deps[k],
        )
}

/// The engine's one rule of refusal: an actor that has made `count` merged
/// changes, and at least one, cannot add a change with a number up to
/// `count`.
pub open spec fn turned_away(count: nat, seq: u64) -> bool {
    count >= 1 && count >= seq
}

/// Calls `automerge::Automerge::apply_changes` with the one change that the
/// bytes hold, and says whether it returned `Ok`.
///
/// Of a document that is ready for the change, the engine refuses it for
/// one reason only: the actor has made merged changes, and as many as the
/// number of the change says, or more. Else the change is merged, after the
/// others, and still nothing is held back. Of a call that fails the
/// contract claims nothing more.
#[verifier::external_body]
pub(crate) fn doc_apply(doc: &mut automerge::Automerge, bytes: &Vec<u8>) -> (merged: bool)
    requires
        engine_made(bytes@),
    ensures
        ready_for(*old(doc), bytes@) ==> merged == !turned_away(
            merged_count(*old(doc), parsed_change(bytes@).unwrap().actor),
            parsed_change(bytes@).unwrap().seq,
        ),
        ready_for(*old(doc), bytes@) && merged ==> merged_log(*final(doc)) == merged_log(
            *old(doc),
        ).push(parsed_change(bytes@).unwrap().id) && parked_changes(*final(doc)).is_empty()
            && forall|actor: Seq<u8>| #[trigger]
            merged_count(*final(doc), actor) == merged_count(*old(doc), actor) + (if actor
                == parsed_change(bytes@).unwrap().actor {
                1nat
            } else {
                0nat
            }),
{
    match automerge::Change::from_bytes(bytes.clone()) {
        Ok(change) => doc.apply_changes([change]).is_ok(),
        Err(_) => false,
    }
}

/// Turns a primitive of the engine into a value, variant by variant. A
/// counter and a timestamp become integers, a float is kept by its bits.
#[verifier::external_body]
fn scalar_value(scalar: &automerge::ScalarValue) -> Datum {
    match scalar {
        automerge::ScalarValue::Bytes(b) => Datum::Bytes(b.clone()),
        automerge::ScalarValue::Str(s) => Datum::Str(s.to_string()),
        automerge::ScalarValue::Int(i) => Datum::Int(*i),
        automerge::ScalarValue::Uint(u) => Datum::Uint(*u),
        automerge::ScalarValue::F64(x) => Datum::Float(x.to_bits()),
        automerge::ScalarValue::Counter(c) => Datum::Int(c.into()),
        automerge::ScalarValue::Timestamp(t) => Datum::Int(*t),
        automerge::ScalarValue::Boolean(b) => Datum::Bool(*b),
        automerge::ScalarValue::Unknown { bytes, .. } => Datum::Bytes(bytes.clone()),
        automerge::ScalarValue::Null => Datum::Null,
    }
}

/// Turns a value tree of the engine into a value, variant by variant. A
/// text object becomes a string. The members of a map come in the order of
/// the engine's hash map, which is not fixed.
#[verifier::external_body]
fn hydrated_value(tree: &automerge::hydrate::Value) -> Datum {
    match tree {
        automerge::hydrate::Value::Scalar(s) => scalar_value(s),
        automerge::hydrate::Value::Map(m) => Datum::Dict(
            m.iter().map(|(k, v)| Member { key: k.clone(), value: hydrated_value(&v.value) }).collect(),
        ),
        automerge::hydrate::Value::List(l) => Datum::List(
            l.iter().map(|v| hydrated_value(&v.value)).collect(),
        ),
        automerge::hydrate::Value::Text(t) => Datum::Str(t.to_string()),
    }
}

/// Calls `automerge::Automerge::hydrate` for the current state and turns
/// the result into a value. The contract claims that the tree depends on the
/// merged changes and their order alone.
#[verifier::external_body]
pub(crate) fn doc_value(doc: &automerge::Automerge) -> (value: Datum)
    ensures
        value.tree() == merged_tree(merged_log(*doc)),
{
    hydrated_value(&doc.hydrate(None))
}

/// Calls `automerge::Automerge::save`: the document in the engine's own
/// storage form. Nothing is claimed of the bytes.
#[verifier::external_body]
pub(crate) fn doc_export(doc: &automerge::Automerge) -> Vec<u8> {
    doc.save()
}

/// Calls `automerge::Automerge::set_actor` and `transact_with`, which runs
/// `write_edit` in a transaction and commits with the message, and gives the
/// change of the hash that the commit returned, in its transportable form.
///
/// The contract claims that on a document that holds nothing back the bytes
/// depend on the merged changes in their order, the actor, the message and
/// the edit alone, and that they are a change as the engine makes one.
#[verifier::external_body]
pub(crate) fn doc_transact(
    doc: &mut automerge::Automerge,
    actor: &Vec<u8>,
    message: &String,
    edit: &LocalChange,
) -> (r: Option<Vec<u8>>)
    ensures
        parked_changes(*old(doc)).is_empty() ==> (match r {
            Some(bytes) => Some(bytes@),
            None => None,
        }) == transacted(merged_log(*old(doc)), actor@, message@, edit.plan()),
        r matches Some(bytes) ==> engine_made(bytes@),
{
    doc.set_actor(automerge::ActorId::from(actor.as_slice()));
    let options = automerge::transaction::CommitOptions::default().with_message(message.clone());
    match doc.transact_with(|_| options, |tx| write_edit(tx, edit)) {
        Ok(done) => done.hash.and_then(|h| doc.get_change_by_hash(&h)).map(
            |c| c.raw_bytes().to_vec(),
        ),
        Err(_) => None,
    }
}

/// The id of the root object, `automerge::ROOT`.
#[verifier::external_body]
pub(crate) fn root_object() -> automerge::ObjId {
    automerge::ROOT
}

/// Calls `automerge::ReadDoc::get` and gives the id of what is found, where
/// that is an object.
#[verifier::external_body]
pub(crate) fn tx_child(
    tx: &automerge::transaction::Transaction<'_>,
    parent: &automerge::ObjId,
    step: &Step,
) -> Option<automerge::ObjId> {
    let found = match step {
        Step::Key(key) => tx.get(parent, key.as_str()),
        Step::Index(i) => tx.get(parent, *i),
    };
    match found {
        Ok(Some((automerge::Value::Object(_), id))) => Some(id),
        _ => None,
    }
}

/// Turns a primitive value into one of the engine, variant by variant;
/// nothing for a list, a map or a float.
#[verifier::external_body]
pub(crate) fn value_scalar(value: &Datum) -> Option<automerge::ScalarValue> {
    match value {
        Datum::Null => Some(automerge::ScalarValue::Null),
        Datum::Bool(b) => Some(automerge::ScalarValue::Boolean(*b)),
        Datum::Int(i) => Some(automerge::ScalarValue::Int(*i)),
        Datum::Uint(u) => Some(automerge::ScalarValue::Uint(*u)),
        Datum::Str(s) => Some(automerge::ScalarValue::Str(s.as_str().into())),
        Datum::Bytes(b) => Some(automerge::ScalarValue::Bytes(b.clone())),
        _ => None,
    }
}

/// Calls `automerge::transaction::Transactable::put` with a primitive, and
/// says whether it returned `Ok`.
#[verifier::external_body]
pub(crate) fn tx_put(
    tx: &mut automerge::transaction::Transaction<'_>,
    object: &automerge::ObjId,
    step: &Step,
    scalar: automerge::ScalarValue,
) -> bool {
    match step {
        Step::Key(key) => tx.put(object, key.as_str(), scalar).is_ok(),
        Step::Index(i) => tx.put(object, *i, scalar).is_ok(),
    }
}

/// Calls `automerge::transaction::Transactable::insert` with a primitive,
/// and says whether it returned `Ok`.
#[verifier::external_body]
pub(crate) fn tx_insert(
    tx: &mut automerge::transaction::Transaction<'_>,
    list: &automerge::ObjId,
    index: usize,
    scalar: automerge::ScalarValue,
) -> bool {
    tx.insert(list, index, scalar).is_ok()
}

/// Calls `automerge::transaction::Transactable::put_object`, for a list or
/// else for a map, and gives the id of the new object.
#[verifier::external_body]
pub(crate) fn tx_put_object(
    tx: &mut automerge::transaction::Transaction<'_>,
    object: &automerge::ObjId,
    step: &Step,
    list: bool,
) -> Option<automerge::ObjId> {
    let kind = if list { automerge::ObjType::List } else { automerge::ObjType::Map };
    match step {
        Step::Key(key) => tx.put_object(object, key.as_str(), kind).ok(),
        Step::Index(i) => tx.put_object(object, *i, kind).ok(),
    }
}

/// Calls `automerge::transaction::Transactable::insert_object`, for a list
/// or else for a map, and gives the id of the new object.
#[verifier::external_body]
pub(crate) fn tx_insert_object(
    tx: &mut automerge::transaction::Transaction<'_>,
    parent: &automerge::ObjId,
    index: usize,
    list: bool,
) -> Option<automerge::ObjId> {
    let kind = if list { automerge::ObjType::List } else { automerge::ObjType::Map };
    tx.insert_object(parent, index, kind).ok()
}

/// Calls `automerge::transaction::Transactable::delete`, and says whether
/// it returned `Ok`.
#[verifier::external_body]
pub(crate) fn tx_delete(
    tx: &mut automerge::transaction::Transaction<'_>,
    object: &automerge::ObjId,
    step: &Step,
) -> bool {
    match step {
        Step::Key(key) => tx.delete(object, key.as_str()).is_ok(),
        Step::Index(i) => tx.delete(object, *i).is_ok(),
    }
}

} // verus!
