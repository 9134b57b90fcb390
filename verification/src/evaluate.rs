//! The history evaluator: a history is replayed, entry by entry in causal
//! order, into one backend.

use crate::backend::{
    absorb, absorb_all, deps_met, facts_of, holds, ids_seq, lemma_id_in_log, refused, Backend,
    MergeError,
};
use crate::change::{decode_spec, Change, DecodeError};
use crate::crdt::{harmless, ChangeFacts};
use crate::dag::{is_causal_order, occurs_before};
use crate::frontend::Frontend;
use crate::history::{Contents, Entry, History};
use vstd::prelude::*;

verus! {

/// Why an entry was passed over.
#[derive(Debug, PartialEq, Eq, Structural, Clone, Copy)]
pub enum SkipReason {
    /// The payload is in a format that this version does not read.
    UnknownFormat,
    /// The payload is no change.
    Decode(DecodeError),
    /// The change depends on a change that is not merged.
    MissingDependency,
    /// The document engine refuses the change.
    Corrupt,
}

/// What became of an entry.
#[derive(Debug, PartialEq, Eq, Structural, Clone, Copy)]
pub enum Outcome {
    /// Its change was merged.
    Merged,
    /// The backend held its change already.
    Duplicate,
    /// It was passed over.
    Skipped(SkipReason),
}

/// One step of a replay: the position of the entry in the history, and what
/// became of it.
#[derive(Debug, PartialEq, Eq, Structural, Clone, Copy)]
pub struct Visit {
    pub entry: usize,
    pub outcome: Outcome,
}

/// What becomes of an entry on a backend with this log.
pub open spec fn outcome_of(before: Seq<ChangeFacts>, contents: Contents) -> Outcome {
    match contents {
        Contents::Unknown => Outcome::Skipped(SkipReason::UnknownFormat),
        Contents::Automerge(bytes) => match decode_spec(bytes@) {
            Err(e) => Outcome::Skipped(SkipReason::Decode(e)),
            Ok(f) => if holds(before, f) {
                Outcome::Duplicate
            } else if !deps_met(before, f.deps) {
                Outcome::Skipped(SkipReason::MissingDependency)
            } else if refused(before, f) {
                Outcome::Skipped(SkipReason::Corrupt)
            } else {
                Outcome::Merged
            },
        },
    }
}

/// The log after the entry had the outcome: longer by the change of the
/// entry where that was merged, else as before.
pub open spec fn log_step(before: Seq<ChangeFacts>, contents: Contents, outcome: Outcome) -> Seq<
    ChangeFacts,
> {
    match (outcome, contents) {
        (Outcome::Merged, Contents::Automerge(bytes)) => match decode_spec(bytes@) {
            Ok(f) => before.push(f),
            Err(_) => before,
        },
        _ => before,
    }
}

/// The log after the visits of a replay.
pub open spec fn log_after(entries: Seq<Entry>, visits: Seq<Visit>) -> Seq<ChangeFacts>
    decreases visits.len(),
{
    if visits.len() == 0 {
        Seq::empty()
    } else {
        log_step(
            log_after(entries, visits.drop_last()),
            entries[visits.last().entry as int].contents,
            visits.last().outcome,
        )
    }
}

/// Every visit is of an entry of the history and has the outcome that the
/// entry has on the log after the visits before it.
pub open spec fn replayed(entries: Seq<Entry>, visits: Seq<Visit>) -> bool {
    forall|p: int|
        0 <= p < visits.len() ==> (#[trigger] visits[p]).entry < entries.len() && visits[p].outcome
            == outcome_of(
            log_after(entries, visits.take(p)),
            entries[visits[p].entry as int].contents,
        )
}

/// The visits are the replay of the history: one visit for each entry, in
/// the causal order of the history, each with its outcome.
pub open spec fn replay_of(history: History, visits: Seq<Visit>) -> bool {
    &&& visits.len() == history.order().len()
    &&& forall|p: int| 0 <= p < visits.len() ==> (#[trigger] visits[p]).entry == history.order()[p]
    &&& replayed(history.entries(), visits)
}

/// What a replay gives: a frontend and a backend that hold the same
/// changes, and what became of each entry.
pub struct Evaluation {
    pub frontend: Frontend,
    pub backend: Backend,
    pub visits: Vec<Visit>,
}

impl Evaluation {
    /// The frontend is a view of the backend's document.
    pub open spec fn coherent(self) -> bool {
        &&& self.backend.wf()
        &&& self.frontend.base() == self.backend.log()
        &&& self.frontend.snapshot() == self.backend.value()
    }
}

/// An entry whose change the log holds changes nothing: its outcome is
/// `Duplicate`, and the log stays as it was.
pub proof fn law_duplicate_changes_nothing(log: Seq<ChangeFacts>, contents: Contents)
    requires
        contents matches Contents::Automerge(bytes) && decode_spec(bytes@) matches Ok(f) && holds(
            log,
            f,
        ),
    ensures
        outcome_of(log, contents) == Outcome::Duplicate,
        log_step(log, contents, outcome_of(log, contents)) == log,
{
}

/// A history has one replay only.
pub proof fn law_one_replay(history: History, one: Seq<Visit>, other: Seq<Visit>)
    requires
        replay_of(history, one),
        replay_of(history, other),
    ensures
        one == other,
{
    let entries = history.entries();
    assert forall|p: int| 0 <= p <= one.len() implies one.take(p) == other.take(p) by {
        lemma_same_prefix(history, one, other, p);
    }
    assert(one.take(one.len() as int) =~= one);
    assert(other.take(other.len() as int) =~= other);
}

proof fn lemma_same_prefix(history: History, one: Seq<Visit>, other: Seq<Visit>, p: int)
    requires
        replay_of(history, one),
        replay_of(history, other),
        0 <= p <= one.len(),
    ensures
        one.take(p) == other.take(p),
    decreases p,
{
    if p == 0 {
        assert(one.take(0) =~= other.take(0));
    } else {
        lemma_same_prefix(history, one, other, p - 1);
        assert(one[p - 1].entry == other[p - 1].entry);
        assert(one[p - 1].outcome == other[p - 1].outcome);
        assert(one.take(p) =~= one.take(p - 1).push(one[p - 1]));
        assert(other.take(p) =~= other.take(p - 1).push(other[p - 1]));
    }
}

/// The change that an entry carries, where its payload is one.
pub open spec fn change_of(contents: Contents) -> Option<ChangeFacts> {
    match contents {
        Contents::Unknown => None,
        Contents::Automerge(bytes) => match decode_spec(bytes@) {
            Ok(f) => Some(f),
            Err(_) => None,
        },
    }
}

/// One of the visited entries carries the change.
pub open spec fn carries(entries: Seq<Entry>, visits: Seq<Visit>, f: ChangeFacts) -> bool {
    exists|p: int|
        0 <= p < visits.len() && change_of(entries[(#[trigger] visits[p]).entry as int].contents)
            == Some(f)
}

/// No change was turned away: no visit found a dependency missing, and the
/// engine refused none.
pub open spec fn none_turned_away(visits: Seq<Visit>) -> bool {
    forall|p: int|
        0 <= p < visits.len() ==> (#[trigger] visits[p]).outcome != Outcome::Skipped(
            SkipReason::MissingDependency,
        ) && visits[p].outcome != Outcome::Skipped(SkipReason::Corrupt)
}

/// Among the changes that the visited entries carry, the actor and the
/// number tell the hash.
pub open spec fn carried_consistent(entries: Seq<Entry>, visits: Seq<Visit>) -> bool {
    forall|f: ChangeFacts, g: ChangeFacts|
        #![trigger carries(entries, visits, f), carries(entries, visits, g)]
        carries(entries, visits, f) && carries(entries, visits, g) && f.actor == g.actor && f.seq
            == g.seq ==> f.id == g.id
}

/// `long` begins with `short`.
pub open spec fn begins_with(long: Seq<ChangeFacts>, short: Seq<ChangeFacts>) -> bool {
    &&& short.len() <= long.len()
    &&& forall|i: int| 0 <= i < short.len() ==> long[i] == #[trigger] short[i]
}

/// The log after the first `n` visits.
pub open spec fn log_at(entries: Seq<Entry>, visits: Seq<Visit>, n: int) -> Seq<ChangeFacts> {
    log_after(entries, visits.take(n))
}

/// The log of a replay only grows: what it holds after some visits stays
/// where it is through the visits that follow.
pub proof fn law_replay_only_grows(entries: Seq<Entry>, visits: Seq<Visit>, a: int, b: int)
    requires
        0 <= a <= b <= visits.len(),
    ensures
        begins_with(log_at(entries, visits, b), log_at(entries, visits, a)),
    decreases b - a,
{
    if a < b {
        law_replay_only_grows(entries, visits, a, b - 1);
        assert(visits.take(b).drop_last() =~= visits.take(b - 1));
    }
}

/// A replay merges only what its entries carry: every change of the log
/// after the replay is the change of a visited entry.
pub proof fn law_replay_merges_only_what_is_carried(
    entries: Seq<Entry>,
    visits: Seq<Visit>,
    n: int,
    i: int,
)
    requires
        0 <= n <= visits.len(),
        0 <= i < log_at(entries, visits, n).len(),
    ensures
        exists|p: int|
            0 <= p < n && change_of(entries[(#[trigger] visits[p]).entry as int].contents) == Some(
                log_at(entries, visits, n)[i],
            ),
        carries(entries, visits, log_at(entries, visits, n)[i]),
    decreases n,
{
    assert(visits.take(n).drop_last() =~= visits.take(n - 1));
    let before = log_at(entries, visits, n - 1);
    if i < before.len() {
        law_replay_only_grows(entries, visits, n - 1, n);
        law_replay_merges_only_what_is_carried(entries, visits, n - 1, i);
        let p = choose|p: int|
            0 <= p < n - 1 && change_of(entries[(#[trigger] visits[p]).entry as int].contents)
                == Some(before[i]);
        assert(0 <= p < n && change_of(entries[visits[p].entry as int].contents) == Some(
            log_at(entries, visits, n)[i],
        ));
    } else {
        let last = visits[n - 1];
        assert(visits.take(n).last() == last);
        assert(0 <= n - 1 < n && change_of(entries[visits[n - 1].entry as int].contents) == Some(
            log_at(entries, visits, n)[i],
        ));
    }
}

/// A replay merges a change once: where the change of an entry was merged,
/// or held already, an entry that carries the same change and is visited
/// later is a `Duplicate`, and its visit leaves the log as it was.
pub proof fn law_replay_merges_once(entries: Seq<Entry>, visits: Seq<Visit>, p: int, q: int)
    requires
        replayed(entries, visits),
        0 <= p < q < visits.len(),
        visits[p].outcome == Outcome::Merged || visits[p].outcome == Outcome::Duplicate,
        change_of(entries[visits[q].entry as int].contents) == change_of(
            entries[visits[p].entry as int].contents,
        ),
    ensures
        visits[q].outcome == Outcome::Duplicate,
        log_at(entries, visits, q + 1) == log_at(entries, visits, q),
{
    lemma_held_after(entries, visits, p);
    let f = change_of(entries[visits[p].entry as int].contents).unwrap();
    let early = log_at(entries, visits, p + 1);
    let late = log_at(entries, visits, q);
    law_replay_only_grows(entries, visits, p + 1, q);
    let i = choose|i: int|
        0 <= i < early.len() && ((#[trigger] early[i]).id == f.id || (early[i].actor == f.actor
            && early[i].seq == f.seq));
    assert(late[i] == early[i]);
    assert(holds(late, f));
    assert(visits.take(q + 1).drop_last() =~= visits.take(q));
    assert(visits.take(q + 1).last() == visits[q]);
}

/// After a visit that merged the change of its entry, or found it held, the
/// log holds that change.
proof fn lemma_held_after(entries: Seq<Entry>, visits: Seq<Visit>, p: int)
    requires
        replayed(entries, visits),
        0 <= p < visits.len(),
        visits[p].outcome == Outcome::Merged || visits[p].outcome == Outcome::Duplicate,
    ensures
        change_of(entries[visits[p].entry as int].contents) is Some,
        holds(
            log_at(entries, visits, p + 1),
            change_of(entries[visits[p].entry as int].contents).unwrap(),
        ),
        visits[p].outcome == Outcome::Merged ==> log_at(entries, visits, p + 1) == log_at(
            entries,
            visits,
            p,
        ).push(change_of(entries[visits[p].entry as int].contents).unwrap()),
{
    let before = log_at(entries, visits, p);
    let after = log_at(entries, visits, p + 1);
    assert(visits.take(p + 1).drop_last() =~= visits.take(p));
    assert(visits.take(p + 1).last() == visits[p]);
    let f = change_of(entries[visits[p].entry as int].contents).unwrap();
    if visits[p].outcome == Outcome::Merged {
        assert(after == before.push(f));
        assert(after[before.len() as int].id == f.id);
    }
}

/// A replay that turned no change away merged what its entries carry, all
/// of it and nothing else: where the carried changes are consistent, the
/// hashes of the log after the replay are the hashes of the carried changes.
pub proof fn law_replay_merges_what_is_carried(entries: Seq<Entry>, visits: Seq<Visit>)
    requires
        replayed(entries, visits),
        none_turned_away(visits),
        carried_consistent(entries, visits),
    ensures
        forall|id: Seq<u8>|
            ids_seq(log_after(entries, visits)).contains(id) <==> exists|f: ChangeFacts|
                #[trigger] carries(entries, visits, f) && f.id == id,
{
    let whole = visits.len() as int;
    let log = log_after(entries, visits);
    assert(visits.take(whole) =~= visits);
    assert forall|id: Seq<u8>| ids_seq(log).contains(id) implies exists|f: ChangeFacts| #[trigger]
        carries(entries, visits, f) && f.id == id by {
        lemma_id_in_log(log, id);
        let i = choose|i: int| 0 <= i < log.len() && (#[trigger] log[i]).id == id;
        law_replay_merges_only_what_is_carried(entries, visits, whole, i);
        assert(carries(entries, visits, log[i]) && log[i].id == id);
    }
    assert forall|id: Seq<u8>|
        (exists|f: ChangeFacts| #[trigger] carries(entries, visits, f) && f.id == id) implies ids_seq(
        log,
    ).contains(id) by {
        let f = choose|f: ChangeFacts| #[trigger] carries(entries, visits, f) && f.id == id;
        let p = choose|p: int|
            0 <= p < visits.len() && change_of(
                entries[(#[trigger] visits[p]).entry as int].contents,
            ) == Some(f);
        let before = log_at(entries, visits, p);
        assert(visits[p].outcome == outcome_of(before, entries[visits[p].entry as int].contents));
        assert(visits[p].outcome == Outcome::Merged || visits[p].outcome == Outcome::Duplicate);
        lemma_held_after(entries, visits, p);
        let after = log_at(entries, visits, p + 1);
        let i = choose|i: int|
            0 <= i < after.len() && ((#[trigger] after[i]).id == f.id || (after[i].actor == f.actor
                && after[i].seq == f.seq));
        law_replay_merges_only_what_is_carried(entries, visits, p + 1, i);
        assert(carries(entries, visits, after[i]));
        assert(after[i].id == f.id);
        law_replay_only_grows(entries, visits, p + 1, whole);
        assert(log[i] == after[i]);
        lemma_id_in_log(log, id);
    }
}

/// Two replays converge on what they merge: where two replays visit
/// entries that carry the same consistent changes, in any two orders, and
/// neither turned a change away, the two logs hold the same changes.
///
/// That the two value trees are equal as well is the engine's promise for
/// changes that it made; this library does not state it.
pub proof fn law_replays_merge_the_same(
    first: Seq<Entry>,
    one: Seq<Visit>,
    second: Seq<Entry>,
    other: Seq<Visit>,
)
    requires
        replayed(first, one),
        replayed(second, other),
        none_turned_away(one),
        none_turned_away(other),
        carried_consistent(first, one),
        forall|f: ChangeFacts| carries(first, one, f) <==> carries(second, other, f),
    ensures
        forall|id: Seq<u8>|
            ids_seq(log_after(first, one)).contains(id) <==> ids_seq(
                log_after(second, other),
            ).contains(id),
{
    assert(carried_consistent(second, other)) by {
        assert forall|f: ChangeFacts, g: ChangeFacts|
            carries(second, other, f) && carries(second, other, g) && f.actor == g.actor && f.seq
                == g.seq implies f.id == g.id by {
            assert(carries(first, one, f) && carries(first, one, g));
        }
    }
    law_replay_merges_what_is_carried(first, one);
    law_replay_merges_what_is_carried(second, other);
    assert forall|id: Seq<u8>|
        ids_seq(log_after(first, one)).contains(id) <==> ids_seq(log_after(second, other)).contains(
            id,
        ) by {
        if ids_seq(log_after(first, one)).contains(id) {
            let f = choose|f: ChangeFacts| #[trigger] carries(first, one, f) && f.id == id;
            assert(carries(second, other, f) && f.id == id);
        }
        if ids_seq(log_after(second, other)).contains(id) {
            let f = choose|f: ChangeFacts| #[trigger] carries(second, other, f) && f.id == id;
            assert(carries(first, one, f) && f.id == id);
        }
    }
}

/// A replay passes over no entry: the changes that the replay of a history
/// carries are the changes of the entries of the history.
pub proof fn law_replay_visits_every_entry(history: History, visits: Seq<Visit>, f: ChangeFacts)
    requires
        history.well_formed(),
        replay_of(history, visits),
    ensures
        carries(history.entries(), visits, f) <==> exists|i: usize|
            i < history.entries().len() && change_of(
                (#[trigger] history.entries()[i as int]).contents,
            ) == Some(f),
{
    let entries = history.entries();
    let order = history.order();
    if carries(entries, visits, f) {
        let p = choose|p: int|
            0 <= p < visits.len() && change_of(
                entries[(#[trigger] visits[p]).entry as int].contents,
            ) == Some(f);
        let i = visits[p].entry;
        assert(i < entries.len() && change_of(entries[i as int].contents) == Some(f));
    }
    if exists|i: usize|
        i < entries.len() && change_of((#[trigger] entries[i as int]).contents) == Some(f) {
        let i = choose|i: usize|
            i < entries.len() && change_of((#[trigger] entries[i as int]).contents) == Some(f);
        assert(occurs_before(order, i, order.len() as int));
        let q = choose|q: int| 0 <= q < order.len() && #[trigger] order[q] == i;
        assert(visits[q].entry == order[q]);
        assert(0 <= q < visits.len() && change_of(entries[visits[q].entry as int].contents)
            == Some(f));
    }
}

/// Folds the change of one entry into the backend. An entry whose payload
/// is no change, or whose change cannot be folded in, leaves the backend as
/// it was.
///
/// This is proved for a payload that is a change as the document engine
/// makes one, or no change at all.
#[verifier::rlimit(40)]
pub fn visit_entry(backend: &mut Backend, entry: &Entry) -> (outcome: Outcome)
    requires
        old(backend).wf(),
        entry.contents matches Contents::Automerge(bytes) ==> harmless(bytes@),
    ensures
        final(backend).wf(),
        outcome == outcome_of(old(backend).log(), entry.contents),
        final(backend).log() == log_step(old(backend).log(), entry.contents, outcome),
{
    match &entry.contents {
        Contents::Unknown => Outcome::Skipped(SkipReason::UnknownFormat),
        Contents::Automerge(bytes) => {
            let change = match Change::decode(bytes.clone()) {
                Ok(c) => c,
                Err(e) => {
                    return Outcome::Skipped(SkipReason::Decode(e));
                },
            };
            let ghost f = change.facts();
            let ghost before = backend.log();
            let mut batch: Vec<Change> = Vec::new();
            batch.push(change);
            proof {
                let one = facts_of(batch@);
                assert(one =~= seq![f]);
                assert(one.drop_last() =~= Seq::<ChangeFacts>::empty());
                assert(absorb_all(before, one.drop_last()) == Ok::<Seq<ChangeFacts>, MergeError>(
                    before,
                ));
                assert(one.last() == f);
                assert(absorb_all(before, one) == absorb(before, f));
            }
            match backend.apply_changes(&batch) {
                Ok(patch) => {
                    proof {
                        assert(backend.log().skip(before.len() as int).len() == patch.changes@.len());
                    }
                    if patch.changes.len() == 0 {
                        Outcome::Duplicate
                    } else {
                        Outcome::Merged
                    }
                },
                Err(MergeError::MissingDependency) => Outcome::Skipped(SkipReason::MissingDependency),
                Err(MergeError::Corrupt) => Outcome::Skipped(SkipReason::Corrupt),
            }
        },
    }
}

/// Replays a history into a new backend: every entry once, in the causal
/// order of the history, each only after all of its causal parents. An
/// entry that cannot be merged is passed over and the replay goes on. The
/// frontend that comes back is a view of the backend's document for the
/// given actor.
#[verifier::rlimit(40)]
pub fn evaluate_history(history: &History, actor: Vec<u8>) -> (e: Evaluation)
    ensures
        e.coherent(),
        e.frontend.actor() == actor@,
        replay_of(*history, e.visits@),
        e.backend.log() == log_after(history.entries(), e.visits@),
{
    let n = history.len();
    let order = history.causal_order();
    let ghost entries = history.entries();
    let mut backend = Backend::new();
    let mut visits: Vec<Visit> = Vec::new();
    let mut p: usize = 0;
    while p < order.len()
        invariant
            p <= order.len(),
            order@ == history.order(),
            entries == history.entries(),
            order@.len() == entries.len(),
            is_causal_order(history.links(), order@),
            history.well_formed(),
            backend.wf(),
            visits@.len() == p,
            forall|q: int| 0 <= q < p ==> (#[trigger] visits@[q]).entry == order@[q],
            replayed(entries, visits@),
            backend.log() == log_after(entries, visits@),
        decreases order.len() - p,
    {
        let at = order[p];
        proof {
            assert(order@[p as int] < history.links().len());
            assert(entries[at as int].contents matches Contents::Automerge(bytes) ==> harmless(
                bytes@,
            ));
        }
        let outcome = visit_entry(&mut backend, history.entry(at));
        let visit = Visit { entry: at, outcome };
        proof {
            let longer = visits@.push(visit);
            assert(longer.drop_last() =~= visits@);
            assert forall|q: int| 0 <= q < longer.len() implies (#[trigger] longer[q]).entry
                < entries.len() && longer[q].outcome == outcome_of(
                log_after(entries, longer.take(q)),
                entries[longer[q].entry as int].contents,
            ) by {
                if q < p {
                    assert(longer.take(q) =~= visits@.take(q));
                    assert(longer[q] == visits@[q]);
                } else {
                    assert(longer.take(q) =~= visits@);
                }
            }
        }
        visits.push(visit);
        p += 1;
    }
    let mut frontend = Frontend::new(actor);
    let merged = backend.merged();
    let value = backend.materialize();
    frontend.adopt(merged, value);
    proof {
        assert(Seq::<ChangeFacts>::empty() + backend.log() =~= backend.log());
    }
    Evaluation { frontend, backend, visits }
}

} // verus!
