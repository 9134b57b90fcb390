//! The backend: the merged state of a document, made by folding changes in.

use crate::change::{decode_spec, same_bytes, Change, DecodeError};
use crate::crdt::{
    doc_apply, doc_clone, doc_export, doc_new, doc_transact, doc_value, engine_made, harmless,
    merged_count,
    merged_log, merged_tree, parked_changes, ready_for, transacted, turned_away,
    ChangeFacts,
};
use crate::frontend::LocalChange;
use crate::value::{Datum, Tree};
use vstd::bytes::{
    lemma_auto_spec_u64_to_from_le_bytes, spec_u64_from_le_bytes, spec_u64_to_le_bytes,
    u64_from_le_bytes, u64_to_le_bytes,
};
use vstd::prelude::*;
use vstd::slice::{slice_subrange, slice_to_vec};

verus! {

/// Why changes were not merged.
#[derive(Debug, PartialEq, Eq, Structural, Clone, Copy)]
pub enum MergeError {
    /// A change depends on a change that is not merged.
    MissingDependency,
    /// The document engine refuses a change: its actor has made merged
    /// changes, and as many as the number of the change says, or more.
    Corrupt,
}

/// What a merge changed: the changes that entered the document, in the
/// order of merging, and the value tree after them.
#[derive(Debug)]
pub struct Patch {
    pub changes: Vec<Change>,
    pub value: Datum,
}

/// What the changes of a list declare, in order.
pub open spec fn facts_of(list: Seq<Change>) -> Seq<ChangeFacts> {
    list.map_values(|c: Change| c.facts())
}

/// The hashes of the changes of a log, in order.
pub open spec fn ids_seq(log: Seq<ChangeFacts>) -> Seq<Seq<u8>> {
    log.map_values(|c: ChangeFacts| c.id)
}

/// The log holds the change: one with the same hash, or one by the same
/// actor with the same number.
pub open spec fn holds(log: Seq<ChangeFacts>, c: ChangeFacts) -> bool {
    exists|i: int|
        0 <= i < log.len() && ((#[trigger] log[i]).id == c.id || (log[i].actor == c.actor
            && log[i].seq == c.seq))
}

/// Every hash of `deps` is that of a change of the log.
pub open spec fn deps_met(log: Seq<ChangeFacts>, deps: Seq<Seq<u8>>) -> bool {
    forall|k: int| 0 <= k < deps.len() ==> ids_seq(log).contains(#[trigger] deps[k])
}

/// How many changes of the log the actor made.
pub open spec fn count_by(log: Seq<ChangeFacts>, actor: Seq<u8>) -> nat
    decreases log.len(),
{
    if log.len() == 0 {
        0
    } else {
        count_by(log.drop_last(), actor) + if log.last().actor == actor {
            1nat
        } else {
            0nat
        }
    }
}

/// The engine refuses the change after this log: its actor has made changes
/// of the log, and as many as the number of the change says, or more.
pub open spec fn refused(log: Seq<ChangeFacts>, c: ChangeFacts) -> bool {
    turned_away(count_by(log, c.actor), c.seq)
}

/// The log after one change is folded in: unchanged where the log holds the
/// change; else `MissingDependency` where a dependency is not in the log,
/// `Corrupt` where the engine refuses the change, and otherwise the log
/// with the change after it.
pub open spec fn absorb(log: Seq<ChangeFacts>, c: ChangeFacts) -> Result<
    Seq<ChangeFacts>,
    MergeError,
> {
    if holds(log, c) {
        Ok(log)
    } else if !deps_met(log, c.deps) {
        Err(MergeError::MissingDependency)
    } else if refused(log, c) {
        Err(MergeError::Corrupt)
    } else {
        Ok(log.push(c))
    }
}

/// The log after the changes of a batch are folded in, in order; the error
/// of the first change that cannot be folded in, if there is one.
pub open spec fn absorb_all(log: Seq<ChangeFacts>, batch: Seq<ChangeFacts>) -> Result<
    Seq<ChangeFacts>,
    MergeError,
>
    decreases batch.len(),
{
    if batch.len() == 0 {
        Ok(log)
    } else {
        match absorb_all(log, batch.drop_last()) {
            Ok(front) => absorb(front, batch.last()),
            Err(e) => Err(e),
        }
    }
}

/// The log can be made again by folding its changes into an empty log.
pub open spec fn replays(log: Seq<ChangeFacts>) -> bool {
    absorb_all(Seq::empty(), log) == Ok::<Seq<ChangeFacts>, MergeError>(log)
}

/// The byte strings of a list, in order.
pub open spec fn raw_of(list: Seq<Vec<u8>>) -> Seq<Seq<u8>> {
    list.map_values(|b: Vec<u8>| b@)
}

/// The snapshot of a list of byte strings: each of them after its length,
/// which is written as eight bytes, the lowest first.
pub open spec fn framed(list: Seq<Seq<u8>>) -> Seq<u8>
    decreases list.len(),
{
    if list.len() == 0 {
        Seq::empty()
    } else {
        framed(list.drop_last()) + spec_u64_to_le_bytes(list.last().len() as u64) + list.last()
    }
}

/// `done`, and after it the byte strings of `rest`, where there are any.
pub open spec fn and_then_all(done: Seq<Seq<u8>>, rest: Option<Seq<Seq<u8>>>) -> Option<
    Seq<Seq<u8>>,
> {
    match rest {
        Some(more) => Some(done + more),
        None => None,
    }
}

/// The byte strings that a snapshot holds; nothing where the bytes are no
/// snapshot: a length is cut short, or says more than there is.
pub open spec fn unframed(bytes: Seq<u8>) -> Option<Seq<Seq<u8>>>
    decreases bytes.len(),
{
    if bytes.len() == 0 {
        Some(Seq::empty())
    } else if bytes.len() < 8 {
        None
    } else {
        let n = spec_u64_from_le_bytes(bytes.subrange(0, 8)) as int;
        if 8 + n > bytes.len() {
            None
        } else {
            and_then_all(seq![bytes.subrange(8, 8 + n)], unframed(bytes.skip(8 + n)))
        }
    }
}

/// What the byte strings of a list are read as, in order; the error of the
/// first that is no change.
pub open spec fn decoded_all(list: Seq<Seq<u8>>) -> Result<Seq<ChangeFacts>, DecodeError>
    decreases list.len(),
{
    if list.len() == 0 {
        Ok(Seq::empty())
    } else {
        match decoded_all(list.drop_last()) {
            Err(e) => Err(e),
            Ok(front) => match decode_spec(list.last()) {
                Ok(f) => Ok(front.push(f)),
                Err(e) => Err(e),
            },
        }
    }
}

/// The log that a snapshot restores: that of the changes that it holds,
/// where all of them are changes and the log can be made by folding them
/// into an empty log, one after the other and none passed over.
pub open spec fn restored(bytes: Seq<u8>) -> Result<Seq<ChangeFacts>, DecodeError> {
    match unframed(bytes) {
        None => Err(DecodeError::Malformed),
        Some(list) => match decoded_all(list) {
            Err(e) => Err(e),
            Ok(log) => if replays(log) {
                Ok(log)
            } else {
                Err(DecodeError::Malformed)
            },
        },
    }
}

/// Every byte string that the snapshot holds is no change at all, or a
/// change as the engine makes one.
pub open spec fn snapshot_vouched(bytes: Seq<u8>) -> bool {
    unframed(bytes) matches Some(list) ==> forall|i: int|
        0 <= i < list.len() ==> harmless(#[trigger] list[i])
}

/// A snapshot that starts with one byte string goes on with the others.
pub proof fn lemma_unframe_step(first: Seq<u8>, rest: Seq<u8>)
    requires
        first.len() <= u64::MAX,
    ensures
        unframed(spec_u64_to_le_bytes(first.len() as u64) + first + rest) == and_then_all(
            seq![first],
            unframed(rest),
        ),
{
    lemma_auto_spec_u64_to_from_le_bytes();
    let head = spec_u64_to_le_bytes(first.len() as u64);
    let all = head + first + rest;
    assert(all.subrange(0, 8) =~= head);
    assert(all.subrange(8, 8 + first.len() as int) =~= first);
    assert(all.skip(8 + first.len() as int) =~= rest);
}

/// What stands after a snapshot is read after what the snapshot holds.
pub proof fn lemma_unframe_framed(list: Seq<Seq<u8>>, rest: Seq<u8>)
    requires
        forall|i: int| 0 <= i < list.len() ==> (#[trigger] list[i]).len() <= u64::MAX,
    ensures
        unframed(framed(list) + rest) == and_then_all(list, unframed(rest)),
    decreases list.len(),
{
    if list.len() == 0 {
        assert(framed(list) + rest =~= rest);
        if let Some(more) = unframed(rest) {
            assert(list + more =~= more);
        }
    } else {
        let front = list.drop_last();
        let last = list.last();
        let tail = spec_u64_to_le_bytes(last.len() as u64) + last + rest;
        assert forall|i: int| 0 <= i < front.len() implies (#[trigger] front[i]).len()
            <= u64::MAX by {
            assert(front[i] == list[i]);
        }
        lemma_unframe_framed(front, tail);
        lemma_unframe_step(last, rest);
        assert(framed(list) + rest =~= framed(front) + tail);
        if let Some(more) = unframed(rest) {
            assert(front + (seq![last] + more) =~= list + more);
        }
    }
}

/// Byte strings that are read as the changes of a log, one by one, are read
/// as the log.
pub proof fn lemma_decoded_all(list: Seq<Seq<u8>>, log: Seq<ChangeFacts>)
    requires
        list.len() == log.len(),
        forall|i: int|
            0 <= i < list.len() ==> decode_spec(#[trigger] list[i]) == Ok::<
                ChangeFacts,
                DecodeError,
            >(log[i]),
    ensures
        decoded_all(list) == Ok::<Seq<ChangeFacts>, DecodeError>(log),
    decreases list.len(),
{
    if list.len() == 0 {
        assert(log =~= Seq::<ChangeFacts>::empty());
    } else {
        let front = list.drop_last();
        assert forall|i: int| 0 <= i < front.len() implies decode_spec(#[trigger] front[i]) == Ok::<
            ChangeFacts,
            DecodeError,
        >(log.drop_last()[i]) by {
            assert(front[i] == list[i]);
        }
        lemma_decoded_all(front, log.drop_last());
        assert(decode_spec(list[list.len() - 1]) == Ok::<ChangeFacts, DecodeError>(
            log[list.len() - 1],
        ));
        assert(log.drop_last().push(log.last()) =~= log);
    }
}

/// The byte strings that a snapshot holds.
#[verifier::rlimit(40)]
pub fn unframe(bytes: &Vec<u8>) -> (r: Option<Vec<Vec<u8>>>)
    ensures
        match r {
            Some(list) => unframed(bytes@) == Some(raw_of(list@)),
            None => unframed(bytes@) is None,
        },
{
    let all = bytes.as_slice();
    let len = bytes.len();
    let mut list: Vec<Vec<u8>> = Vec::new();
    let mut pos: usize = 0;
    proof {
        assert(bytes@.skip(0) =~= bytes@);
        assert(raw_of(list@) =~= Seq::<Seq<u8>>::empty());
        if let Some(more) = unframed(bytes@) {
            assert(raw_of(list@) + more =~= more);
        }
    }
    while pos < len
        invariant
            pos <= len,
            len == bytes@.len(),
            all@ == bytes@,
            unframed(bytes@) == and_then_all(raw_of(list@), unframed(bytes@.skip(pos as int))),
        decreases len - pos,
    {
        let left = len - pos;
        let ghost rest = bytes@.skip(pos as int);
        if left < 8 {
            return None;
        }
        let n = u64_from_le_bytes(slice_subrange(all, pos, pos + 8));
        proof {
            assert(rest.subrange(0, 8) =~= bytes@.subrange(pos as int, pos + 8));
        }
        if n > (left - 8) as u64 {
            return None;
        }
        let size = n as usize;
        let frame = slice_to_vec(slice_subrange(all, pos + 8, pos + 8 + size));
        proof {
            assert(rest.subrange(8, 8 + n) =~= frame@);
            assert(rest.skip(8 + n) =~= bytes@.skip(pos + 8 + size));
            assert(raw_of(list@.push(frame)) =~= raw_of(list@).push(frame@));
            if let Some(more) = unframed(bytes@.skip(pos + 8 + size)) {
                assert(raw_of(list@) + (seq![frame@] + more) =~= raw_of(list@).push(frame@) + more);
            }
        }
        list.push(frame);
        pos = pos + 8 + size;
    }
    proof {
        assert(raw_of(list@) + Seq::<Seq<u8>>::empty() =~= raw_of(list@));
    }
    Some(list)
}

/// The first `n + p` changes of a log.
pub open spec fn upto(log: Seq<ChangeFacts>, n: nat, p: int) -> Seq<ChangeFacts> {
    log.take(n + p)
}

/// What the changes behind a list of references declare, in order.
pub open spec fn refs_facts(list: Seq<&Change>) -> Seq<ChangeFacts> {
    list.map_values(|c: &Change| c.facts())
}

/// The merged state of a document.
pub struct Backend {
    doc: automerge::Automerge,
    log: Vec<Change>,
}

/// The hashes of a log that is longer by one change.
pub proof fn lemma_ids_push(log: Seq<ChangeFacts>, c: ChangeFacts)
    ensures
        ids_seq(log.push(c)) == ids_seq(log).push(c.id),
{
    assert(ids_seq(log.push(c)) =~= ids_seq(log).push(c.id));
}

/// A hash of a log is the hash of one of its changes.
pub proof fn lemma_id_in_log(log: Seq<ChangeFacts>, id: Seq<u8>)
    ensures
        ids_seq(log).contains(id) <==> exists|i: int|
            0 <= i < log.len() && (#[trigger] log[i]).id == id,
{
    if ids_seq(log).contains(id) {
        let i = ids_seq(log).index_of(id);
        assert(log[i].id == id);
    }
    if exists|i: int| 0 <= i < log.len() && (#[trigger] log[i]).id == id {
        let i = choose|i: int| 0 <= i < log.len() && (#[trigger] log[i]).id == id;
        assert(ids_seq(log)[i] == id);
    }
}

/// Once a prefix of a batch cannot be folded in, the batch cannot, for the
/// same reason.
pub proof fn lemma_absorb_stays_err(log: Seq<ChangeFacts>, batch: Seq<ChangeFacts>, n: int)
    requires
        0 <= n <= batch.len(),
        absorb_all(log, batch.take(n)) is Err,
    ensures
        absorb_all(log, batch) == absorb_all(log, batch.take(n)),
    decreases batch.len() - n,
{
    if n < batch.len() {
        assert(batch.take(n + 1).drop_last() =~= batch.take(n));
        lemma_absorb_stays_err(log, batch, n + 1);
    } else {
        assert(batch.take(n) =~= batch);
    }
}

/// A log that can be made again still can after a batch is folded in.
pub proof fn lemma_replays_on(log: Seq<ChangeFacts>, batch: Seq<ChangeFacts>)
    requires
        replays(log),
    ensures
        absorb_all(log, batch) matches Ok(grown) ==> replays(grown),
    decreases batch.len(),
{
    if batch.len() > 0 {
        lemma_replays_on(log, batch.drop_last());
        if let Ok(front) = absorb_all(log, batch.drop_last()) {
            if let Ok(grown) = absorb(front, batch.last()) {
                if !holds(front, batch.last()) {
                    assert(grown.drop_last() =~= front);
                }
            }
        }
    }
}

/// Folding a batch in makes the log longer by no more than the batch, and
/// keeps what it held.
pub proof fn lemma_absorbed_len(log: Seq<ChangeFacts>, batch: Seq<ChangeFacts>)
    ensures
        absorb_all(log, batch) matches Ok(grown) ==> log.len() <= grown.len() <= log.len()
            + batch.len() && grown.take(log.len() as int) == log,
    decreases batch.len(),
{
    if batch.len() > 0 {
        lemma_absorbed_len(log, batch.drop_last());
        if let Ok(front) = absorb_all(log, batch.drop_last()) {
            if let Ok(grown) = absorb(front, batch.last()) {
                assert(grown.take(log.len() as int) =~= front.take(log.len() as int));
            }
        }
    } else {
        assert(log.take(log.len() as int) =~= log);
    }
}

/// Where folding a batch into an empty log gives a log as long as the
/// batch, the log is the batch.
pub proof fn lemma_absorbed_whole(batch: Seq<ChangeFacts>)
    ensures
        absorb_all(Seq::empty(), batch) matches Ok(grown) ==> (grown.len() == batch.len()
            <==> grown == batch),
    decreases batch.len(),
{
    let empty = Seq::<ChangeFacts>::empty();
    if batch.len() == 0 {
        assert(batch =~= empty);
    } else {
        let front = batch.drop_last();
        lemma_absorbed_whole(front);
        lemma_absorbed_len(empty, front);
        if let Ok(mid) = absorb_all(empty, front) {
            if let Ok(grown) = absorb(mid, batch.last()) {
                if grown.len() == batch.len() {
                    assert(mid == front);
                    assert(grown =~= batch);
                }
            }
        }
    }
}

/// What is known of the changes picked from a batch: the log `grown` is the
/// log `base` and then the picked changes, and each of them was new to the
/// log before it, had its dependencies met there and was not refused.
pub open spec fn planned(
    base: Seq<ChangeFacts>,
    batch: Seq<ChangeFacts>,
    picks: Seq<usize>,
    grown: Seq<ChangeFacts>,
) -> bool {
    &&& grown.len() == base.len() + picks.len()
    &&& grown.take(base.len() as int) == base
    &&& forall|q: int|
        0 <= q < picks.len() ==> {
            &&& (#[trigger] picks[q]) < batch.len()
            &&& grown[base.len() + q] == batch[picks[q] as int]
            &&& !holds(upto(grown, base.len(), q), batch[picks[q] as int])
            &&& deps_met(upto(grown, base.len(), q), batch[picks[q] as int].deps)
            &&& !refused(upto(grown, base.len(), q), batch[picks[q] as int])
        }
}

proof fn lemma_plan_push(
    base: Seq<ChangeFacts>,
    batch: Seq<ChangeFacts>,
    picks: Seq<usize>,
    grown: Seq<ChangeFacts>,
    i: int,
)
    requires
        planned(base, batch, picks, grown),
        0 <= i < batch.len() <= usize::MAX,
        !holds(grown, batch[i]),
        deps_met(grown, batch[i].deps),
        !refused(grown, batch[i]),
    ensures
        planned(base, batch, picks.push(i as usize), grown.push(batch[i])),
{
    let picks2 = picks.push(i as usize);
    let grown2 = grown.push(batch[i]);
    assert(grown2.take(base.len() as int) =~= grown.take(base.len() as int));
    assert forall|q: int| 0 <= q < picks2.len() implies {
        &&& (#[trigger] picks2[q]) < batch.len()
        &&& grown2[base.len() + q] == batch[picks2[q] as int]
        &&& !holds(upto(grown2, base.len(), q), batch[picks2[q] as int])
        &&& deps_met(upto(grown2, base.len(), q), batch[picks2[q] as int].deps)
        &&& !refused(upto(grown2, base.len(), q), batch[picks2[q] as int])
    } by {
        if q < picks.len() {
            assert(picks[q] == picks2[q]);
            assert(upto(grown2, base.len(), q) =~= upto(grown, base.len(), q));
        } else {
            assert(upto(grown2, base.len(), q) =~= grown);
        }
    }
}

/// References to the changes of a list, in order.
fn borrow_all(list: &Vec<Change>) -> (refs: Vec<&Change>)
    ensures
        refs_facts(refs@) == facts_of(list@),
{
    let mut refs: Vec<&Change> = Vec::new();
    let mut i: usize = 0;
    while i < list.len()
        invariant
            i <= list.len(),
            refs@.len() == i,
            forall|j: int| 0 <= j < i ==> (#[trigger] refs@[j]).facts() == list@[j].facts(),
        decreases list.len() - i,
    {
        refs.push(&list[i]);
        i += 1;
    }
    proof {
        assert(refs_facts(refs@) =~= facts_of(list@));
    }
    refs
}

/// Whether the list holds the change: one with the same hash, or one by the
/// same actor with the same number.
fn list_holds(list: &Vec<&Change>, c: &Change) -> (r: bool)
    ensures
        r == holds(refs_facts(list@), c.facts()),
{
    let wanted = c.header();
    let mut i: usize = 0;
    while i < list.len()
        invariant
            i <= list.len(),
            wanted.facts() == c.facts(),
            forall|j: int|
                0 <= j < i ==> !((#[trigger] refs_facts(list@)[j]).id == c.facts().id || (refs_facts(
                    list@,
                )[j].actor == c.facts().actor && refs_facts(list@)[j].seq == c.facts().seq)),
        decreases list.len() - i,
    {
        let have = list[i].header();
        if same_bytes(&have.id, &wanted.id) || (same_bytes(&have.actor, &wanted.actor) && have.seq
            == wanted.seq) {
            proof {
                let f = refs_facts(list@)[i as int];
                assert(f.id == c.facts().id || (f.actor == c.facts().actor && f.seq
                    == c.facts().seq));
            }
            return true;
        }
        i += 1;
    }
    false
}

/// Whether the list has a change with the hash `id`.
fn list_has_id(list: &Vec<&Change>, id: &Vec<u8>) -> (r: bool)
    ensures
        r == ids_seq(refs_facts(list@)).contains(id@),
{
    let mut i: usize = 0;
    while i < list.len()
        invariant
            i <= list.len(),
            forall|j: int| 0 <= j < i ==> (#[trigger] refs_facts(list@)[j]).id != id@,
        decreases list.len() - i,
    {
        if same_bytes(&list[i].header().id, id) {
            proof {
                assert(refs_facts(list@)[i as int].id == id@);
                lemma_id_in_log(refs_facts(list@), id@);
            }
            return true;
        }
        i += 1;
    }
    proof {
        lemma_id_in_log(refs_facts(list@), id@);
    }
    false
}

/// Whether every dependency of the change is the hash of a change of the
/// list.
fn list_meets(list: &Vec<&Change>, c: &Change) -> (r: bool)
    ensures
        r == deps_met(refs_facts(list@), c.facts().deps),
{
    let deps = &c.header().deps;
    let mut k: usize = 0;
    while k < deps.len()
        invariant
            k <= deps.len(),
            crate::change::hashes(deps@) == c.facts().deps,
            forall|j: int|
                0 <= j < k ==> ids_seq(refs_facts(list@)).contains(#[trigger] c.facts().deps[j]),
        decreases deps.len() - k,
    {
        proof {
            assert(c.facts().deps[k as int] == deps@[k as int]@);
        }
        if !list_has_id(list, &deps[k]) {
            return false;
        }
        k += 1;
    }
    true
}

/// Whether the engine refuses the change after the changes of the list.
fn list_refuses(list: &Vec<&Change>, c: &Change) -> (r: bool)
    ensures
        r == refused(refs_facts(list@), c.facts()),
{
    let wanted = c.header();
    let ghost log = refs_facts(list@);
    let mut count: usize = 0;
    let mut i: usize = 0;
    proof {
        assert(log.take(0) =~= Seq::<ChangeFacts>::empty());
    }
    while i < list.len()
        invariant
            i <= list.len(),
            log == refs_facts(list@),
            wanted.facts() == c.facts(),
            count <= i,
            count == count_by(log.take(i as int), c.facts().actor),
        decreases list.len() - i,
    {
        proof {
            assert(log.take(i + 1).drop_last() =~= log.take(i as int));
            assert(log.take(i + 1).last() == list@[i as int].facts());
        }
        if same_bytes(&list[i].header().actor, &wanted.actor) {
            count += 1;
        }
        i += 1;
    }
    proof {
        assert(log.take(list@.len() as int) =~= log);
    }
    count >= 1 && count as u64 >= wanted.seq
}

/// A copy of the document with the picked changes merged as well.
#[verifier::rlimit(40)]
fn extend_copy(
    doc: &automerge::Automerge,
    changes: &Vec<Change>,
    picks: &Vec<usize>,
    Ghost(base): Ghost<Seq<ChangeFacts>>,
    Ghost(grown): Ghost<Seq<ChangeFacts>>,
) -> (trial: automerge::Automerge)
    requires
        merged_log(*doc) == ids_seq(base),
        parked_changes(*doc).is_empty(),
        forall|actor: Seq<u8>| #[trigger] merged_count(*doc, actor) == count_by(base, actor),
        planned(base, facts_of(changes@), picks@, grown),
    ensures
        merged_log(trial) == ids_seq(grown),
        parked_changes(trial).is_empty(),
        forall|actor: Seq<u8>| #[trigger] merged_count(trial, actor) == count_by(grown, actor),
{
    let ghost batch = facts_of(changes@);
    let mut trial = doc_clone(doc);
    let mut p: usize = 0;
    proof {
        assert(upto(grown, base.len(), 0) == base);
    }
    while p < picks.len()
        invariant
            p <= picks.len(),
            batch == facts_of(changes@),
            planned(base, batch, picks@, grown),
            merged_log(trial) == ids_seq(upto(grown, base.len(), p as int)),
            parked_changes(trial).is_empty(),
            forall|actor: Seq<u8>| #[trigger]
                merged_count(trial, actor) == count_by(upto(grown, base.len(), p as int), actor),
        decreases picks.len() - p,
    {
        proof {
            assert(picks@[p as int] < batch.len());
        }
        let c = &changes[picks[p]];
        let bytes = c.raw();
        let ghost have = upto(grown, base.len(), p as int);
        let ghost f = c.facts();
        proof {
            assert(f == batch[picks@[p as int] as int]);
            assert(grown[base.len() + p] == f);
            assert(!holds(have, f));
            lemma_id_in_log(have, f.id);
            if ids_seq(have).contains(f.id) {
                let w = choose|w: int| 0 <= w < have.len() && (#[trigger] have[w]).id == f.id;
                assert(have[w].id == f.id);
            }
            assert(deps_met(have, f.deps));
            assert(!refused(have, f));
            assert(ready_for(trial, bytes@));
        }
        let merged = doc_apply(&mut trial, bytes);
        proof {
            assert(merged);
            let next = upto(grown, base.len(), p + 1);
            assert(next =~= have.push(f));
            lemma_ids_push(have, f);
            assert(next.drop_last() =~= have);
        }
        p += 1;
    }
    proof {
        assert(upto(grown, base.len(), picks@.len() as int) =~= grown);
    }
    trial
}

impl Backend {
    /// What the merged changes declare, in the order of merging.
    pub closed spec fn log(self) -> Seq<ChangeFacts> {
        facts_of(self.log@)
    }

    /// The engine's document holds the changes of the log, merged in the
    /// order of the log, and nothing else; and the log can be made again by
    /// folding its changes into an empty log.
    pub closed spec fn wf(self) -> bool {
        &&& merged_log(self.doc) == ids_seq(facts_of(self.log@))
        &&& parked_changes(self.doc).is_empty()
        &&& forall|actor: Seq<u8>| #[trigger]
            merged_count(self.doc, actor) == count_by(facts_of(self.log@), actor)
        &&& replays(facts_of(self.log@))
    }

    /// The value tree of the document. It depends on the merged changes and
    /// their order alone.
    pub open spec fn value(self) -> Tree {
        merged_tree(ids_seq(self.log()))
    }

    /// A backend is well formed only where its log can be made again.
    pub proof fn lemma_wf_replays(self)
        requires
            self.wf(),
        ensures
            replays(self.log()),
    {
    }

    /// A backend that holds no change.
    pub fn new() -> (b: Backend)
        ensures
            b.wf(),
            b.log() == Seq::<ChangeFacts>::empty(),
    {
        let b = Backend { doc: doc_new(), log: Vec::new() };
        proof {
            assert(facts_of(b.log@) =~= Seq::<ChangeFacts>::empty());
            assert(ids_seq(facts_of(b.log@)) =~= Seq::<Seq<u8>>::empty());
        }
        b
    }

    /// The value tree of the document. The members of a map come in no
    /// fixed order: hold two values against each other with `same_tree`.
    pub fn materialize(&self) -> (value: Datum)
        requires
            self.wf(),
        ensures
            value.tree() == self.value(),
    {
        doc_value(&self.doc)
    }

    /// Folds the changes of a batch into the document, in order.
    ///
    /// A change that the backend holds already is passed over. Where a
    /// change depends on a change that is neither merged nor earlier in the
    /// batch, or is one that the engine refuses, nothing is merged and the
    /// error is that of the first such change. Else the changes are merged
    /// by the document engine, on a copy of the document that then takes
    /// the place of the document.
    #[verifier::rlimit(40)]
    pub fn apply_changes(&mut self, changes: &Vec<Change>) -> (r: Result<Patch, MergeError>)
        requires
            old(self).wf(),
        ensures
            final(self).wf(),
            match absorb_all(old(self).log(), facts_of(changes@)) {
                Ok(grown) => r matches Ok(patch) && final(self).log() == grown && patch.value.tree()
                    == final(self).value() && facts_of(patch.changes@) == grown.skip(
                    old(self).log().len() as int,
                ),
                Err(e) => r matches Err(f) && f == e && final(self).log() == old(self).log()
                    && final(self).value() == old(self).value(),
            },
    {
        let ghost base = self.log();
        let ghost batch = facts_of(changes@);
        let mut known = borrow_all(&self.log);
        let mut picks: Vec<usize> = Vec::new();
        let mut i: usize = 0;
        proof {
            assert(batch.take(0) =~= Seq::<ChangeFacts>::empty());
            assert(base.take(base.len() as int) =~= base);
        }
        while i < changes.len()
            invariant
                i <= changes.len(),
                batch == facts_of(changes@),
                *self == *old(self),
                self.wf(),
                base == self.log(),
                absorb_all(base, batch.take(i as int)) == Ok::<Seq<ChangeFacts>, MergeError>(
                    refs_facts(known@),
                ),
                planned(base, batch, picks@, refs_facts(known@)),
            decreases changes.len() - i,
        {
            let c = &changes[i];
            proof {
                assert(batch.take(i + 1).drop_last() =~= batch.take(i as int));
                assert(batch.take(i + 1).last() == c.facts());
            }
            if !list_holds(&known, c) {
                if !list_meets(&known, c) {
                    proof {
                        lemma_absorb_stays_err(base, batch, i + 1);
                    }
                    return Err(MergeError::MissingDependency);
                }
                if list_refuses(&known, c) {
                    proof {
                        lemma_absorb_stays_err(base, batch, i + 1);
                    }
                    return Err(MergeError::Corrupt);
                }
                proof {
                    lemma_plan_push(base, batch, picks@, refs_facts(known@), i as int);
                    assert(refs_facts(known@.push(c)) =~= refs_facts(known@).push(c.facts()));
                }
                known.push(c);
                picks.push(i);
            }
            i += 1;
        }
        let ghost grown = refs_facts(known@);
        proof {
            assert(batch.take(i as int) =~= batch);
            lemma_replays_on(base, batch);
        }
        let trial = extend_copy(&self.doc, changes, &picks, Ghost(base), Ghost(grown));
        let value = doc_value(&trial);
        let mut added: Vec<Change> = Vec::new();
        let mut p: usize = 0;
        while p < picks.len()
            invariant
                p <= picks.len(),
                batch == facts_of(changes@),
                planned(base, batch, picks@, grown),
                facts_of(self.log@) == upto(grown, base.len(), p as int),
                facts_of(added@) == grown.subrange(base.len() as int, base.len() + p),
                self.doc == old(self).doc,
            decreases picks.len() - p,
        {
            proof {
                assert(picks@[p as int] < batch.len());
            }
            let copy = changes[picks[p]].copy();
            let again = changes[picks[p]].copy();
            proof {
                assert(grown[base.len() + p] == batch[picks@[p as int] as int]);
                let have = facts_of(self.log@);
                let more = facts_of(self.log@.push(copy));
                let want = upto(grown, base.len(), p + 1);
                assert(have.len() == base.len() + p);
                assert forall|j: int| 0 <= j < more.len() implies more[j] == want[j] by {
                    if j < have.len() {
                        assert(more[j] == have[j]);
                        assert(have[j] == upto(grown, base.len(), p as int)[j]);
                    }
                }
                assert(more =~= want);
                assert(again.facts() == grown[base.len() + p]);
                let got = facts_of(added@.push(again));
                let shown = grown.subrange(base.len() as int, base.len() + p + 1);
                assert(facts_of(added@).len() == p);
                assert forall|j: int| 0 <= j < got.len() implies got[j] == shown[j] by {
                    if j < p {
                        assert(got[j] == facts_of(added@)[j]);
                        assert(facts_of(added@)[j] == grown.subrange(
                            base.len() as int,
                            base.len() + p,
                        )[j]);
                    }
                }
                assert(facts_of(added@.push(again)) =~= grown.subrange(
                    base.len() as int,
                    base.len() + p + 1,
                ));
            }
            self.log.push(copy);
            added.push(again);
            p += 1;
        }
        self.doc = trial;
        proof {
            assert(upto(grown, base.len(), picks@.len() as int) =~= grown);
            assert(grown.skip(base.len() as int) =~= grown.subrange(
                base.len() as int,
                (base.len() + picks@.len()) as int,
            ));
        }
        Ok(Patch { changes: added, value })
    }

    /// Copies of the merged changes, in the order of merging.
    pub fn merged(&self) -> (list: Vec<Change>)
        ensures
            facts_of(list@) == self.log(),
    {
        let mut list: Vec<Change> = Vec::new();
        let mut i: usize = 0;
        while i < self.log.len()
            invariant
                i <= self.log.len(),
                list@.len() == i,
                forall|j: int| 0 <= j < i ==> (#[trigger] list@[j]).facts() == self.log@[j].facts(),
            decreases self.log.len() - i,
        {
            let copy = self.log[i].copy();
            list.push(copy);
            i += 1;
        }
        proof {
            assert(facts_of(list@) =~= facts_of(self.log@));
        }
        list
    }

    /// A backend of its own that holds the same changes.
    pub fn fork(&self) -> (b: Backend)
        requires
            self.wf(),
        ensures
            b.wf(),
            b.log() == self.log(),
    {
        Backend { doc: doc_clone(&self.doc), log: self.merged() }
    }

    /// The whole document as a patch: every merged change, in the order of
    /// merging, and the value tree.
    pub fn get_patch(&self) -> (patch: Patch)
        requires
            self.wf(),
        ensures
            patch.value.tree() == self.value(),
            facts_of(patch.changes@) == self.log(),
    {
        Patch { changes: self.merged(), value: doc_value(&self.doc) }
    }

    /// The snapshot of the backend: its changes in the order of merging,
    /// each in its transportable form after its length. `load` restores the
    /// backend from it.
    #[verifier::rlimit(40)]
    pub fn save(&self) -> (bytes: Vec<u8>)
        requires
            self.wf(),
        ensures
            restored(bytes@) == Ok::<Seq<ChangeFacts>, DecodeError>(self.log()),
            snapshot_vouched(bytes@),
    {
        let mut out: Vec<u8> = Vec::new();
        let ghost mut raw: Seq<Seq<u8>> = Seq::empty();
        let mut i: usize = 0;
        proof {
            assert(facts_of(self.log@).take(0) =~= Seq::<ChangeFacts>::empty());
        }
        while i < self.log.len()
            invariant
                i <= self.log.len(),
                raw.len() == i,
                out@ == framed(raw),
                forall|j: int|
                    0 <= j < i ==> (#[trigger] raw[j]).len() <= u64::MAX && engine_made(raw[j])
                        && decode_spec(raw[j]) == Ok::<ChangeFacts, DecodeError>(
                        self.log@[j].facts(),
                    ),
            decreases self.log.len() - i,
        {
            let mut body = self.log[i].encode();
            let mut head = u64_to_le_bytes(body.len() as u64);
            proof {
                let more = raw.push(body@);
                assert(more.drop_last() =~= raw);
                raw = more;
            }
            out.append(&mut head);
            out.append(&mut body);
            i += 1;
        }
        proof {
            lemma_unframe_framed(raw, Seq::empty());
            assert(framed(raw) + Seq::<u8>::empty() =~= framed(raw));
            assert(raw + Seq::<Seq<u8>>::empty() =~= raw);
            lemma_decoded_all(raw, self.log());
        }
        out
    }

    /// Restores a backend from a snapshot: the changes that it holds are
    /// read and folded into a new backend, one after the other. The error is
    /// that of the first change that cannot be read, and `Malformed` where
    /// the bytes are no snapshot or a change cannot be folded in.
    ///
    /// This is proved for snapshots that hold changes as the engine makes
    /// them, or what is no change at all; those of `save` are such.
    #[verifier::rlimit(40)]
    pub fn load(bytes: &Vec<u8>) -> (r: Result<Backend, DecodeError>)
        requires
            snapshot_vouched(bytes@),
        ensures
            match restored(bytes@) {
                Ok(log) => r matches Ok(b) && b.wf() && b.log() == log,
                Err(e) => r matches Err(f) && f == e,
            },
    {
        let list = match unframe(bytes) {
            Some(list) => list,
            None => {
                return Err(DecodeError::Malformed);
            },
        };
        let ghost raw = raw_of(list@);
        let mut batch: Vec<Change> = Vec::new();
        let mut i: usize = 0;
        proof {
            assert(raw.take(0) =~= Seq::<Seq<u8>>::empty());
            assert(facts_of(batch@) =~= Seq::<ChangeFacts>::empty());
        }
        while i < list.len()
            invariant
                i <= list.len(),
                raw == raw_of(list@),
                unframed(bytes@) == Some(raw),
                forall|j: int| 0 <= j < raw.len() ==> harmless(#[trigger] raw[j]),
                decoded_all(raw.take(i as int)) == Ok::<Seq<ChangeFacts>, DecodeError>(
                    facts_of(batch@),
                ),
            decreases list.len() - i,
        {
            proof {
                assert(raw.take(i + 1).drop_last() =~= raw.take(i as int));
                assert(raw.take(i + 1).last() == list@[i as int]@);
                assert(harmless(raw[i as int]));
            }
            match Change::decode(list[i].clone()) {
                Ok(c) => {
                    proof {
                        assert(facts_of(batch@.push(c)) =~= facts_of(batch@).push(c.facts()));
                    }
                    batch.push(c);
                },
                Err(e) => {
                    proof {
                        assert(decode_spec(raw.take(i + 1).last()) == Err::<
                            ChangeFacts,
                            DecodeError,
                        >(e));
                        assert(decoded_all(raw.take(i + 1)) == Err::<
                            Seq<ChangeFacts>,
                            DecodeError,
                        >(e));
                        lemma_decoded_stays_err(raw, i + 1);
                    }
                    return Err(e);
                },
            }
            i += 1;
        }
        proof {
            assert(raw.take(list@.len() as int) =~= raw);
            lemma_absorbed_whole(facts_of(batch@));
        }
        let mut backend = Backend::new();
        match backend.apply_changes(&batch) {
            Ok(patch) => {
                proof {
                    assert(backend.log().skip(0) =~= backend.log());
                }
                if patch.changes.len() != batch.len() {
                    return Err(DecodeError::Malformed);
                }
                Ok(backend)
            },
            Err(_) => Err(DecodeError::Malformed),
        }
    }

    /// The backend made again from its own snapshot: it holds the same
    /// changes in the same order, and so has the same value tree.
    pub fn reload(&self) -> (r: Result<Backend, DecodeError>)
        requires
            self.wf(),
        ensures
            r matches Ok(b) && b.wf() && b.log() == self.log() && b.value() == self.value(),
    {
        let bytes = self.save();
        Backend::load(&bytes)
    }

    /// The document in the engine's own storage form, for other tools.
    /// Nothing is stated of the bytes.
    pub fn export(&self) -> Vec<u8> {
        doc_export(&self.doc)
    }

    /// Has the document engine make the change of an edit on this document,
    /// for the actor and with the message. The backend stays as it is: the
    /// engine works on a copy.
    pub fn transact(&self, actor: &Vec<u8>, message: &String, edit: &LocalChange) -> (r: Option<
        Vec<u8>,
    >)
        requires
            self.wf(),
        ensures
            (match r {
                Some(bytes) => Some(bytes@),
                None => None,
            }) == transacted(ids_seq(self.log()), actor@, message@, edit.plan()),
            r matches Some(bytes) ==> engine_made(bytes@),
    {
        let mut copy = doc_clone(&self.doc);
        doc_transact(&mut copy, actor, message, edit)
    }
}

/// Once a prefix of a list holds what is no change, the list does.
pub proof fn lemma_decoded_stays_err(list: Seq<Seq<u8>>, n: int)
    requires
        0 <= n <= list.len(),
        decoded_all(list.take(n)) is Err,
    ensures
        decoded_all(list) == decoded_all(list.take(n)),
    decreases list.len() - n,
{
    if n < list.len() {
        assert(list.take(n + 1).drop_last() =~= list.take(n));
        lemma_decoded_stays_err(list, n + 1);
    } else {
        assert(list.take(n) =~= list);
    }
}

/// A snapshot keeps the backend: what `save` gives, `load` restores to a
/// backend with the same log, and so with the same value tree.
pub proof fn law_snapshot_keeps_backend(saved: Backend, bytes: Seq<u8>, loaded: Backend)
    requires
        restored(bytes) == Ok::<Seq<ChangeFacts>, DecodeError>(saved.log()),
        restored(bytes) == Ok::<Seq<ChangeFacts>, DecodeError>(loaded.log()),
    ensures
        loaded.log() == saved.log(),
        loaded.value() == saved.value(),
{
}

/// In these changes the actor and the number tell the hash.
pub open spec fn consistent(list: Seq<ChangeFacts>) -> bool {
    forall|i: int, j: int|
        0 <= i < list.len() && 0 <= j < list.len() && (#[trigger] list[i]).actor == (
        #[trigger] list[j]).actor && list[i].seq == list[j].seq ==> list[i].id == list[j].id
}

/// Where a batch of consistent changes is folded into an empty log, the log
/// holds the hashes of the batch, all of them and no others.
#[verifier::rlimit(40)]
pub proof fn lemma_absorbed_all(batch: Seq<ChangeFacts>)
    requires
        consistent(batch),
    ensures
        absorb_all(Seq::empty(), batch) matches Ok(grown) ==> (forall|id: Seq<u8>|
            ids_seq(grown).contains(id) <==> ids_seq(batch).contains(id)) && (forall|i: int|
            0 <= i < grown.len() ==> batch.contains(#[trigger] grown[i])),
    decreases batch.len(),
{
    let empty = Seq::<ChangeFacts>::empty();
    if batch.len() > 0 {
        let front = batch.drop_last();
        let c = batch.last();
        assert forall|i: int, j: int|
            0 <= i < front.len() && 0 <= j < front.len() && (#[trigger] front[i]).actor == (
            #[trigger] front[j]).actor && front[i].seq == front[j].seq implies front[i].id
            == front[j].id by {
            assert(front[i] == batch[i] && front[j] == batch[j]);
        }
        lemma_absorbed_all(front);
        if let Ok(mid) = absorb_all(empty, front) {
            if let Ok(grown) = absorb(mid, c) {
                assert forall|i: int| 0 <= i < grown.len() implies batch.contains(
                    #[trigger] grown[i],
                ) by {
                    if i < mid.len() {
                        assert(front.contains(mid[i]));
                        let j = choose|j: int| 0 <= j < front.len() && front[j] == mid[i];
                        assert(batch[j] == mid[i]);
                    } else {
                        assert(batch[batch.len() - 1] == c);
                    }
                }
                assert forall|id: Seq<u8>| ids_seq(grown).contains(id) <==> ids_seq(
                    batch,
                ).contains(id) by {
                    lemma_id_in_log(grown, id);
                    lemma_id_in_log(batch, id);
                    lemma_id_in_log(mid, id);
                    lemma_id_in_log(front, id);
                    if ids_seq(batch).contains(id) {
                        let j = choose|j: int| 0 <= j < batch.len() && (#[trigger] batch[j]).id == id;
                        if j < front.len() {
                            assert(front[j].id == id);
                            let w = choose|w: int| 0 <= w < mid.len() && (#[trigger] mid[w]).id == id;
                            assert(grown[w].id == id);
                        } else if holds(mid, c) {
                            let w = choose|w: int|
                                0 <= w < mid.len() && ((#[trigger] mid[w]).id == c.id || (mid[w].actor
                                    == c.actor && mid[w].seq == c.seq));
                            assert(batch.contains(mid[w]));
                            let x = choose|x: int| 0 <= x < batch.len() && batch[x] == mid[w];
                            assert(batch[x].id == batch[batch.len() - 1].id);
                            assert(grown[w].id == id);
                        } else {
                            assert(grown[mid.len() as int].id == id);
                        }
                    }
                    if ids_seq(grown).contains(id) {
                        let w = choose|w: int| 0 <= w < grown.len() && (#[trigger] grown[w]).id == id;
                        assert(batch.contains(grown[w]));
                        let x = choose|x: int| 0 <= x < batch.len() && batch[x] == grown[w];
                        assert(batch[x].id == id);
                    }
                }
            }
        }
    } else {
        assert(batch =~= empty);
    }
}

/// The order of merging does not decide what is merged: where two batches
/// hold the same consistent changes, in any two orders, and both are folded
/// into an empty log without an error, the two logs hold the same changes.
///
/// That the two value trees are equal as well is the engine's promise for
/// changes that it made; this library does not state it.
pub proof fn law_order_does_not_decide_what_is_merged(
    one: Seq<ChangeFacts>,
    other: Seq<ChangeFacts>,
)
    requires
        consistent(one),
        consistent(other),
        forall|c: ChangeFacts| one.contains(c) <==> other.contains(c),
        absorb_all(Seq::empty(), one) is Ok,
        absorb_all(Seq::empty(), other) is Ok,
    ensures
        forall|id: Seq<u8>|
            ids_seq(absorb_all(Seq::empty(), one).unwrap()).contains(id) <==> ids_seq(
                absorb_all(Seq::empty(), other).unwrap(),
            ).contains(id),
{
    lemma_absorbed_all(one);
    lemma_absorbed_all(other);
    assert forall|id: Seq<u8>| ids_seq(one).contains(id) <==> ids_seq(other).contains(id) by {
        lemma_id_in_log(one, id);
        lemma_id_in_log(other, id);
        if ids_seq(one).contains(id) {
            let i = choose|i: int| 0 <= i < one.len() && (#[trigger] one[i]).id == id;
            assert(one.contains(one[i]));
            let j = choose|j: int| 0 <= j < other.len() && other[j] == one[i];
            assert(other[j].id == id);
        }
        if ids_seq(other).contains(id) {
            let i = choose|i: int| 0 <= i < other.len() && (#[trigger] other[i]).id == id;
            assert(other.contains(other[i]));
            let j = choose|j: int| 0 <= j < one.len() && one[j] == other[i];
            assert(one[j].id == id);
        }
    }
}

/// Merging is idempotent: a change that was folded in is passed over when it
/// comes again, and the log stays as it was.
pub proof fn law_second_merge_changes_nothing(log: Seq<ChangeFacts>, c: ChangeFacts)
    ensures
        absorb(log, c) matches Ok(once) ==> absorb(once, c) == Ok::<Seq<ChangeFacts>, MergeError>(
            once,
        ),
{
    if let Ok(once) = absorb(log, c) {
        if !holds(log, c) {
            assert(once[log.len() as int].id == c.id);
        }
    }
}

/// A change whose dependency is missing is refused: a change that is new
/// to the log and names a hash that the log lacks is not folded in, and the
/// error is `MissingDependency`.
pub proof fn law_missing_dependency_is_refused(log: Seq<ChangeFacts>, c: ChangeFacts, k: int)
    requires
        !holds(log, c),
        0 <= k < c.deps.len(),
        !ids_seq(log).contains(c.deps[k]),
    ensures
        absorb(log, c) == Err::<Seq<ChangeFacts>, MergeError>(MergeError::MissingDependency),
{
}

} // verus!
