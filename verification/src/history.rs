//! The causal history of a collaborative object: entries that name their
//! causal parents.

use crate::crdt::harmless;
use crate::dag::{causal_order, is_causal_order, rows};
use vstd::prelude::*;

verus! {

/// The payload of an entry.
#[derive(Debug, Clone, PartialEq, Eq)]
pub enum Contents {
    /// A document change in its transportable form.
    Automerge(Vec<u8>),
    /// A payload in a format that this version does not read.
    Unknown,
}

/// One node of a history. It is made once and never changed.
#[derive(Debug, Clone, PartialEq, Eq)]
pub struct Entry {
    pub id: String,
    pub parents: Vec<String>,
    pub author: String,
    pub contents: Contents,
    pub message: String,
}

/// Why a list of entries is no history.
#[derive(Debug, PartialEq, Eq, Structural, Clone, Copy)]
pub enum HistoryError {
    /// Two entries have the same id.
    DuplicateEntry,
    /// An entry names the same parent twice.
    RepeatedParent,
    /// An entry names a parent that is not among the entries.
    UnknownParent,
    /// The parent links run in a circle.
    Cyclic,
}

/// The payload of every entry is no change at all, or a change as the
/// document engine makes one. The library cannot test this of bytes: whoever
/// makes a history of entries from storage vouches for them.
pub open spec fn vouched(entries: Seq<Entry>) -> bool {
    forall|i: int|
        0 <= i < entries.len() ==> ((#[trigger] entries[i]).contents matches Contents::Automerge(
            bytes,
        ) ==> harmless(bytes@))
}

/// No two strings of the list are equal.
pub open spec fn strings_distinct(list: Seq<String>) -> bool {
    forall|i: int, j: int| 0 <= i < j < list.len() ==> (#[trigger] list[i])@ != (#[trigger] list[j])@
}

/// No two entries have the same id.
pub open spec fn ids_distinct(entries: Seq<Entry>) -> bool {
    forall|i: int, j: int|
        0 <= i < j < entries.len() ==> (#[trigger] entries[i]).id@ != (#[trigger] entries[j]).id@
}

/// No entry names a parent twice.
pub open spec fn parents_distinct(entries: Seq<Entry>) -> bool {
    forall|i: int| 0 <= i < entries.len() ==> strings_distinct((#[trigger] entries[i]).parents@)
}

/// Some entry has the id `id`.
pub open spec fn has_id(entries: Seq<Entry>, id: Seq<char>) -> bool {
    exists|j: int| 0 <= j < entries.len() && (#[trigger] entries[j]).id@ == id
}

/// Every parent that the entry names is among the entries.
pub open spec fn entry_parents_known(entries: Seq<Entry>, entry: Entry) -> bool {
    forall|k: int| 0 <= k < entry.parents@.len() ==> has_id(entries, (#[trigger] entry.parents@[k])@)
}

/// Every parent that an entry names is among the entries.
pub open spec fn parents_known(entries: Seq<Entry>) -> bool {
    forall|i: int| 0 <= i < entries.len() ==> entry_parents_known(entries, #[trigger] entries[i])
}

/// Row `i` of `links` gives, for each parent that entry `i` names, the
/// position of the entry with that id.
pub open spec fn row_resolves(entries: Seq<Entry>, entry: Entry, row: Seq<usize>) -> bool {
    &&& row.len() == entry.parents@.len()
    &&& forall|k: int|
        0 <= k < row.len() ==> (#[trigger] row[k]) < entries.len() && entries[row[k] as int].id@
            == entry.parents@[k]@
}

/// `links` is the graph of the entries: row `i` holds the positions of the
/// parents of entry `i`.
pub open spec fn links_resolve(entries: Seq<Entry>, links: Seq<Seq<usize>>) -> bool {
    &&& links.len() == entries.len()
    &&& forall|i: int| 0 <= i < entries.len() ==> row_resolves(entries, entries[i], #[trigger] links[i])
}

/// The entries can be put in an order in which each stands after all of
/// its causal parents.
pub open spec fn acyclic(entries: Seq<Entry>) -> bool {
    exists|links: Seq<Seq<usize>>, order: Seq<usize>|
        links_resolve(entries, links) && #[trigger] is_causal_order(links, order)
}

/// What `History::from_entries` makes of a list of entries: the first of the
/// four faults that it has, if any.
pub open spec fn fault_of(entries: Seq<Entry>) -> Option<HistoryError> {
    if !ids_distinct(entries) {
        Some(HistoryError::DuplicateEntry)
    } else if !parents_distinct(entries) {
        Some(HistoryError::RepeatedParent)
    } else if !parents_known(entries) {
        Some(HistoryError::UnknownParent)
    } else if !acyclic(entries) {
        Some(HistoryError::Cyclic)
    } else {
        None
    }
}

/// Where ids are distinct, the entries have one graph only.
proof fn lemma_links_unique(entries: Seq<Entry>, a: Seq<Seq<usize>>, b: Seq<Seq<usize>>)
    requires
        ids_distinct(entries),
        links_resolve(entries, a),
        links_resolve(entries, b),
    ensures
        a == b,
{
    assert forall|i: int| 0 <= i < a.len() implies a[i] == b[i] by {
        assert(row_resolves(entries, entries[i], a[i]));
        assert(row_resolves(entries, entries[i], b[i]));
        assert forall|k: int| 0 <= k < a[i].len() implies a[i][k] == b[i][k] by {
            let x = a[i][k];
            let y = b[i][k];
            assert(entries[x as int].id@ == entries[y as int].id@);
            if x < y {
                assert(entries[x as int].id@ != entries[y as int].id@);
            }
            if y < x {
                assert(entries[y as int].id@ != entries[x as int].id@);
            }
        }
        assert(a[i] =~= b[i]);
    }
    assert(a =~= b);
}

/// Whether no two strings of the list are equal.
fn check_strings_distinct(list: &Vec<String>) -> (r: bool)
    ensures
        r == strings_distinct(list@),
{
    let mut j: usize = 0;
    while j < list.len()
        invariant
            j <= list.len(),
            forall|a: int, b: int| 0 <= a < b < j ==> (#[trigger] list@[a])@ != (#[trigger] list@[b])@,
        decreases list.len() - j,
    {
        let mut i: usize = 0;
        while i < j
            invariant
                i <= j < list.len(),
                forall|a: int| 0 <= a < i ==> (#[trigger] list@[a])@ != list@[j as int]@,
            decreases j - i,
        {
            if list[i] == list[j] {
                return false;
            }
            i += 1;
        }
        j += 1;
    }
    true
}

/// Whether no two entries have the same id.
fn check_ids_distinct(entries: &Vec<Entry>) -> (r: bool)
    ensures
        r == ids_distinct(entries@),
{
    let mut j: usize = 0;
    while j < entries.len()
        invariant
            j <= entries.len(),
            forall|a: int, b: int|
                0 <= a < b < j ==> (#[trigger] entries@[a]).id@ != (#[trigger] entries@[b]).id@,
        decreases entries.len() - j,
    {
        let mut i: usize = 0;
        while i < j
            invariant
                i <= j < entries.len(),
                forall|a: int| 0 <= a < i ==> (#[trigger] entries@[a]).id@ != entries@[j as int].id@,
            decreases j - i,
        {
            if entries[i].id == entries[j].id {
                return false;
            }
            i += 1;
        }
        j += 1;
    }
    true
}

/// The position of the entry with the id `id`, if there is one.
pub fn position_of(entries: &Vec<Entry>, id: &String) -> (r: Option<usize>)
    ensures
        r matches Some(j) ==> j < entries.len() && entries@[j as int].id@ == id@,
        r is None ==> !has_id(entries@, id@),
{
    let mut j: usize = 0;
    while j < entries.len()
        invariant
            j <= entries.len(),
            forall|a: int| 0 <= a < j ==> (#[trigger] entries@[a]).id@ != id@,
        decreases entries.len() - j,
    {
        if entries[j].id == *id {
            return Some(j);
        }
        j += 1;
    }
    None
}

/// The positions of the parents that `entry` names, if all are among the
/// entries.
fn resolve_row(entries: &Vec<Entry>, entry: &Entry) -> (r: Option<Vec<usize>>)
    ensures
        r matches Some(row) ==> row_resolves(entries@, *entry, row@),
        r is None ==> !entry_parents_known(entries@, *entry),
{
    let mut row: Vec<usize> = Vec::new();
    let mut k: usize = 0;
    while k < entry.parents.len()
        invariant
            k <= entry.parents.len(),
            row.len() == k,
            forall|a: int|
                0 <= a < k ==> (#[trigger] row@[a]) < entries.len() && entries@[row@[a] as int].id@
                    == entry.parents@[a]@,
        decreases entry.parents.len() - k,
    {
        match position_of(entries, &entry.parents[k]) {
            Some(j) => {
                row.push(j);
            },
            None => {
                return None;
            },
        }
        k += 1;
    }
    Some(row)
}

/// A history: entries with distinct ids whose parents are all among them,
/// and whose parent links run in no circle.
#[derive(Debug)]
pub struct History {
    entries: Vec<Entry>,
    links: Vec<Vec<usize>>,
    order: Vec<usize>,
}

impl History {
    #[verifier::type_invariant]
    pub closed spec fn sound(self) -> bool {
        &&& ids_distinct(self.entries@)
        &&& parents_distinct(self.entries@)
        &&& links_resolve(self.entries@, rows(self.links@))
        &&& is_causal_order(rows(self.links@), self.order@)
        &&& vouched(self.entries@)
    }

    /// The entries, in the order in which they were given.
    pub closed spec fn entries(self) -> Seq<Entry> {
        self.entries@
    }

    /// The graph of the entries: row `i` holds the positions of the parents
    /// of entry `i`.
    pub closed spec fn links(self) -> Seq<Seq<usize>> {
        rows(self.links@)
    }

    /// The order in which the entries are replayed.
    pub closed spec fn order(self) -> Seq<usize> {
        self.order@
    }

    /// What holds of every history.
    pub open spec fn well_formed(self) -> bool {
        &&& ids_distinct(self.entries())
        &&& parents_distinct(self.entries())
        &&& links_resolve(self.entries(), self.links())
        &&& is_causal_order(self.links(), self.order())
        &&& vouched(self.entries())
    }

    /// Makes a history of a list of entries, given in any order.
    ///
    /// This is proved for entries whose payloads are no changes at all, or
    /// changes as the document engine makes them: the replay of the history
    /// hands them to the engine, which does not test them.
    #[verifier::rlimit(40)]
    pub fn from_entries(entries: Vec<Entry>) -> (r: Result<History, HistoryError>)
        requires
            vouched(entries@),
        ensures
            r matches Ok(h) ==> fault_of(entries@) is None && h.entries() == entries@
                && h.well_formed(),
            r matches Err(e) ==> fault_of(entries@) == Some(e),
    {
        if !check_ids_distinct(&entries) {
            return Err(HistoryError::DuplicateEntry);
        }
        let n = entries.len();
        let mut i: usize = 0;
        while i < n
            invariant
                n == entries.len(),
                i <= n,
                ids_distinct(entries@),
                forall|a: int| 0 <= a < i ==> strings_distinct((#[trigger] entries@[a]).parents@),
            decreases n - i,
        {
            if !check_strings_distinct(&entries[i].parents) {
                return Err(HistoryError::RepeatedParent);
            }
            i += 1;
        }
        let mut links: Vec<Vec<usize>> = Vec::new();
        let mut i: usize = 0;
        while i < n
            invariant
                n == entries.len(),
                i <= n,
                ids_distinct(entries@),
                parents_distinct(entries@),
                links.len() == i,
                forall|a: int|
                    0 <= a < i ==> row_resolves(entries@, entries@[a], #[trigger] rows(links@)[a]),
            decreases n - i,
        {
            match resolve_row(&entries, &entries[i]) {
                Some(row) => {
                    proof {
                        let before = rows(links@);
                        let after = rows(links@.push(row));
                        assert forall|a: int| 0 <= a < i + 1 implies row_resolves(
                            entries@,
                            entries@[a],
                            #[trigger] after[a],
                        ) by {
                            if a < i {
                                assert(after[a] == before[a]);
                            }
                        }
                    }
                    links.push(row);
                },
                None => {
                    return Err(HistoryError::UnknownParent);
                },
            }
            i += 1;
        }
        proof {
            assert forall|a: int| 0 <= a < entries@.len() implies entry_parents_known(
                entries@,
                #[trigger] entries@[a],
            ) by {
                let row = rows(links@)[a];
                assert(row_resolves(entries@, entries@[a], row));
                assert forall|k: int| 0 <= k < entries@[a].parents@.len() implies has_id(
                    entries@,
                    (#[trigger] entries@[a].parents@[k])@,
                ) by {
                    assert(entries@[row[k] as int].id@ == entries@[a].parents@[k]@);
                }
            }
        }
        match causal_order(&links) {
            Some(order) => {
                proof {
                    assert(links_resolve(entries@, rows(links@)));
                    assert(is_causal_order(rows(links@), order@));
                }
                Ok(History { entries, links, order })
            },
            None => {
                proof {
                    if acyclic(entries@) {
                        let (other, order) = choose|other: Seq<Seq<usize>>, order: Seq<usize>|
                            links_resolve(entries@, other) && #[trigger] is_causal_order(other, order);
                        lemma_links_unique(entries@, rows(links@), other);
                    }
                }
                Err(HistoryError::Cyclic)
            },
        }
    }

    /// How many entries the history has.
    pub fn len(&self) -> (n: usize)
        ensures
            n == self.entries().len(),
            self.well_formed(),
    {
        proof {
            use_type_invariant(self);
        }
        self.entries.len()
    }

    /// The entry at position `i`.
    pub fn entry(&self, i: usize) -> (e: &Entry)
        requires
            i < self.entries().len(),
        ensures
            *e == self.entries()[i as int],
    {
        &self.entries[i]
    }

    /// The positions of the parents of the entry at position `i`.
    pub fn parents_of(&self, i: usize) -> (row: &Vec<usize>)
        requires
            i < self.entries().len(),
        ensures
            row@ == self.links()[i as int],
    {
        proof {
            use_type_invariant(self);
        }
        &self.links[i]
    }

    /// The positions of the entries in the order in which they are
    /// replayed: each entry once, after all of its causal parents.
    pub fn causal_order(&self) -> (order: &Vec<usize>)
        ensures
            order@ == self.order(),
            is_causal_order(self.links(), order@),
            order@.len() == self.entries().len(),
    {
        proof {
            use_type_invariant(self);
        }
        &self.order
    }
}

} // verus!
