//! The log of mutations, keyed by hash.
//!
//! An entry is a mutation under its hash, with a flag that says whether it
//! was committed.  No hash occurs twice.  The table in memory is what the
//! node knows of its log; whoever keeps it on disk writes each change through.

use vstd::prelude::*;
use vstd::string::StringExecFns;
use crate::error::StoreError;
use crate::mutation::{GraphMutation, MutationView};

verus! {

/// A mutation under the hash that names it, as it travels between nodes.
#[derive(Debug)]
pub struct MutationsLogMutation {
    pub hash: String,
    pub mutation: GraphMutation,
}

impl View for MutationsLogMutation {
    type V = (Seq<char>, MutationView);

    open spec fn view(&self) -> (Seq<char>, MutationView) {
        (self.hash@, self.mutation@)
    }
}

impl Clone for MutationsLogMutation {
    fn clone(&self) -> (copy: MutationsLogMutation)
        ensures
            copy@ == self@,
    {
        MutationsLogMutation { hash: self.hash.clone(), mutation: self.mutation.clone() }
    }
}

/// The one question that the log answers.
#[derive(Debug, Clone, Copy, PartialEq, Eq)]
pub enum MutationsLogQuery {
    /// Every entry.
    Full,
}

impl MutationsLogQuery {
    /// The question for every entry.
    pub fn full() -> (query: MutationsLogQuery)
        ensures
            query == MutationsLogQuery::Full,
    {
        MutationsLogQuery::Full
    }
}

/// One row of the log.
#[derive(Debug)]
pub struct LogEntry {
    pub hash: String,
    pub mutation: GraphMutation,
    pub committed: bool,
}

/// The rows of a log as a mathematical value: under each hash the mutation
/// and whether it was committed.
pub type LogView = Map<Seq<char>, (MutationView, bool)>;

/// Some row carries `hash`.
pub open spec fn has_row(rows: Seq<LogEntry>, hash: Seq<char>) -> bool {
    exists|i: int| 0 <= i < rows.len() && rows[i].hash@ == hash
}

/// The place of a row that carries `hash`.
pub open spec fn row_of(rows: Seq<LogEntry>, hash: Seq<char>) -> int {
    choose|i: int| 0 <= i < rows.len() && rows[i].hash@ == hash
}

/// No two rows carry the same hash.
pub open spec fn distinct_rows(rows: Seq<LogEntry>) -> bool {
    forall|i: int, j: int| 0 <= i < j < rows.len() ==> rows[i].hash@ != rows[j].hash@
}

/// The rows read as a map from hashes.
pub open spec fn table_of(rows: Seq<LogEntry>) -> LogView {
    Map::new(
        |h: Seq<char>| has_row(rows, h),
        |h: Seq<char>| (rows[row_of(rows, h)].mutation@, rows[row_of(rows, h)].committed),
    )
}

/// `entries` holds every entry of `log` once: its hash and its mutation.
pub open spec fn scan_of(entries: Seq<(Seq<char>, MutationView)>, log: LogView) -> bool {
    &&& forall|i: int|
        0 <= i < entries.len() ==> log.contains_key((#[trigger] entries[i]).0) && log[entries[i].0].0
            == entries[i].1
    &&& forall|i: int, j: int| 0 <= i < j < entries.len() ==> entries[i].0 != entries[j].0
    &&& forall|h: Seq<char>|
        log.contains_key(h) ==> exists|i: int| 0 <= i < entries.len() && entries[i].0 == h
}

/// The views of a list of entries.
pub open spec fn entry_views(entries: Seq<MutationsLogMutation>) -> Seq<(Seq<char>, MutationView)> {
    Seq::new(entries.len(), |i: int| entries[i]@)
}

/// The durable log as the node sees it.
#[derive(Debug)]
pub struct MutationsLogStore {
    rows: Vec<LogEntry>,
}

impl View for MutationsLogStore {
    type V = LogView;

    closed spec fn view(&self) -> LogView {
        table_of(self.rows@)
    }
}

impl MutationsLogStore {
    /// No hash occurs twice.
    pub closed spec fn wf(&self) -> bool {
        distinct_rows(self.rows@)
    }

    /// The log has finitely many entries.
    pub proof fn lemma_finite(&self)
        requires
            self.wf(),
        ensures
            self@.dom().finite(),
    {
        self.lemma_len();
    }

    /// The empty log.
    pub fn new() -> (store: MutationsLogStore)
        ensures
            store.wf(),
            store@ == LogView::empty(),
    {
        let store = MutationsLogStore { rows: Vec::new() };
        assert(store@ =~= LogView::empty());
        store
    }

    /// Where the database file of the log lies: `log.sqlite` under the given
    /// directory, or the default path where none is given.
    pub fn log_path(store_path: &Option<String>) -> (path: String)
        ensures
            path@ == match store_path {
                Some(dir) => dir@ + "/log.sqlite"@,
                None => "data/graph_store/log"@,
            },
    {
        match store_path {
            Some(dir) => {
                let mut path = dir.clone();
                path.append("/log.sqlite");
                path
            },
            None => String::from_str("data/graph_store/log"),
        }
    }

    /// The place of the row that carries `hash`.
    fn position(&self, hash: &String) -> (found: Option<usize>)
        requires
            self.wf(),
        ensures
            match found {
                Some(i) => {
                    &&& i < self.rows.len()
                    &&& self.rows[i as int].hash@ == hash@
                    &&& self@.contains_key(hash@)
                    &&& self@[hash@] == (self.rows[i as int].mutation@, self.rows[i as int].committed)
                },
                None => !self@.contains_key(hash@),
            },
    {
        let mut i: usize = 0;
        while i < self.rows.len()
            invariant
                self.wf(),
                i <= self.rows.len(),
                forall|j: int| 0 <= j < i ==> self.rows[j].hash@ != hash@,
            decreases self.rows.len() - i,
        {
            if self.rows[i].hash == *hash {
                assert(has_row(self.rows@, hash@));
                assert(row_of(self.rows@, hash@) == i);
                return Some(i);
            }
            i += 1;
        }
        None
    }

    /// Whether the log holds an entry under `hash`.
    pub fn contains(&self, hash: &String) -> (has: bool)
        requires
            self.wf(),
        ensures
            has == self@.contains_key(hash@),
    {
        self.position(hash).is_some()
    }

    /// Whether the log holds a committed entry under `hash`.
    pub fn is_committed(&self, hash: &String) -> (committed: bool)
        requires
            self.wf(),
        ensures
            committed == (self@.contains_key(hash@) && self@[hash@].1),
    {
        match self.position(hash) {
            Some(i) => self.rows[i].committed,
            None => false,
        }
    }

    /// Puts a row under `hash`, in place of the one that was there if there
    /// was one.
    pub(crate) fn put(&mut self, hash: String, mutation: GraphMutation, committed: bool)
        requires
            old(self).wf(),
        ensures
            final(self).wf(),
            final(self)@ == old(self)@.insert(hash@, (mutation@, committed)),
    {
        let ghost before = self.rows@;
        match self.position(&hash) {
            Some(i) => {
                self.rows.set(i, LogEntry { hash, mutation, committed });
                proof {
                    let after = self.rows@;
                    assert forall|h: Seq<char>| has_row(after, h) <==> has_row(before, h) by {
                        if has_row(after, h) {
                            let j = row_of(after, h);
                            assert(before[j].hash@ == h);
                        }
                        if has_row(before, h) {
                            let j = row_of(before, h);
                            assert(after[j].hash@ == h);
                        }
                    }
                    assert forall|h: Seq<char>| has_row(after, h) implies table_of(after)[h]
                        == table_of(before).insert(hash@, (mutation@, committed))[h] by {
                        let j = row_of(after, h);
                        let k = row_of(before, h);
                        assert(before[j].hash@ == h);
                        assert(j == k);
                    }
                    assert(table_of(after) =~= table_of(before).insert(
                        hash@,
                        (mutation@, committed),
                    ));
                }
            },
            None => {
                self.rows.push(LogEntry { hash, mutation, committed });
                proof {
                    let after = self.rows@;
                    let last = after.len() - 1;
                    assert forall|h: Seq<char>| has_row(after, h) <==> (has_row(before, h) || h
                        == hash@) by {
                        if has_row(after, h) {
                            let j = row_of(after, h);
                            if j < last {
                                assert(before[j].hash@ == h);
                            }
                        }
                        if has_row(before, h) {
                            let j = row_of(before, h);
                            assert(after[j].hash@ == h);
                        }
                        if h == hash@ {
                            assert(after[last].hash@ == h);
                        }
                    }
                    assert forall|h: Seq<char>| has_row(after, h) implies table_of(after)[h]
                        == table_of(before).insert(hash@, (mutation@, committed))[h] by {
                        let j = row_of(after, h);
                        if h != hash@ {
                            let k = row_of(before, h);
                            assert(after[k].hash@ == h);
                            assert(j == k);
                        } else {
                            assert(after[last].hash@ == h);
                            assert(j == last);
                        }
                    }
                    assert(table_of(after) =~= table_of(before).insert(
                        hash@,
                        (mutation@, committed),
                    ));
                }
            },
        }
    }

    /// Takes the row under `hash` out, if there is one.
    pub(crate) fn take(&mut self, hash: &String)
        requires
            old(self).wf(),
        ensures
            final(self).wf(),
            final(self)@ == old(self)@.remove(hash@),
    {
        let ghost before = self.rows@;
        match self.position(hash) {
            Some(i) => {
                self.rows.remove(i);
                proof {
                    let after = self.rows@;
                    assert forall|j: int| 0 <= j < after.len() implies #[trigger] after[j]
                        == before[if j < i { j } else { j + 1 }] by {}
                    assert forall|h: Seq<char>| has_row(after, h) <==> (has_row(before, h) && h
                        != hash@) by {
                        if has_row(after, h) {
                            let j = row_of(after, h);
                            assert(after[j] == before[if j < i { j } else { j + 1 }]);
                        }
                        if has_row(before, h) && h != hash@ {
                            let k = row_of(before, h);
                            if k < i {
                                assert(after[k].hash@ == h);
                            } else {
                                assert(after[k - 1] == before[k]);
                                assert(after[k - 1].hash@ == h);
                            }
                        }
                    }
                    assert forall|h: Seq<char>| has_row(after, h) implies table_of(after)[h]
                        == table_of(before).remove(hash@)[h] by {
                        let j = row_of(after, h);
                        let k = row_of(before, h);
                        assert(after[j] == before[if j < i { j } else { j + 1 }]);
                        assert(k == if j < i { j } else { j + 1 });
                    }
                    assert(table_of(after) =~= table_of(before).remove(hash@));
                }
            },
            None => {
                assert(table_of(before) =~= table_of(before).remove(hash@));
            },
        }
    }

    /// Appends a mutation, not yet committed.  `WriteLogError` with the hash
    /// where the log holds an entry under that hash already.
    pub fn append(&mut self, hash: String, mutation: GraphMutation) -> (appended: Result<
        (),
        StoreError,
    >)
        requires
            old(self).wf(),
        ensures
            final(self).wf(),
            match appended {
                Ok(_) => !old(self)@.contains_key(hash@) && final(self)@ == old(self)@.insert(
                    hash@,
                    (mutation@, false),
                ),
                Err(e) => old(self)@.contains_key(hash@) && final(self)@ == old(self)@ && e
                    == StoreError::WriteLogError(hash),
            },
    {
        if self.contains(&hash) {
            return Err(StoreError::WriteLogError(hash));
        }
        self.put(hash, mutation, false);
        Ok(())
    }

    /// Marks the entry under `hash` committed, and writes the entry first
    /// where the log does not hold it.  It is always `Ok`.
    pub fn commit(&mut self, hash: String, mutation: GraphMutation) -> (committed: Result<
        (),
        StoreError,
    >)
        requires
            old(self).wf(),
        ensures
            final(self).wf(),
            committed.is_ok(),
            final(self)@ == old(self)@.insert(hash@, (mutation@, true)),
    {
        self.put(hash, mutation, true);
        Ok(())
    }

    /// Every entry, each once.
    pub fn scan_all(&self) -> (entries: Vec<MutationsLogMutation>)
        requires
            self.wf(),
        ensures
            scan_of(entry_views(entries@), self@),
            entries.len() == self@.dom().len(),
    {
        let mut entries: Vec<MutationsLogMutation> = Vec::new();
        let mut i: usize = 0;
        while i < self.rows.len()
            invariant
                i <= self.rows.len(),
                entries.len() == i,
                forall|j: int|
                    0 <= j < i ==> (#[trigger] entries[j])@ == (
                        self.rows[j].hash@,
                        self.rows[j].mutation@,
                    ),
            decreases self.rows.len() - i,
        {
            entries.push(
                MutationsLogMutation {
                    hash: self.rows[i].hash.clone(),
                    mutation: self.rows[i].mutation.clone(),
                },
            );
            i += 1;
        }
        proof {
            let rows = self.rows@;
            let views = entry_views(entries@);
            assert forall|j: int| 0 <= j < views.len() implies self@.contains_key(
                (#[trigger] views[j]).0,
            ) && self@[views[j].0].0 == views[j].1 by {
                assert(entries[j]@ == (rows[j].hash@, rows[j].mutation@));
                assert(has_row(rows, rows[j].hash@));
                assert(row_of(rows, rows[j].hash@) == j);
            }
            assert forall|j: int, k: int| 0 <= j < k < views.len() implies views[j].0
                != views[k].0 by {
                assert(entries[j]@ == (rows[j].hash@, rows[j].mutation@));
                assert(entries[k]@ == (rows[k].hash@, rows[k].mutation@));
            }
            assert forall|h: Seq<char>| self@.contains_key(h) implies exists|j: int|
                0 <= j < views.len() && views[j].0 == h by {
                let j = row_of(rows, h);
                assert(entries[j]@ == (rows[j].hash@, rows[j].mutation@));
                assert(views[j].0 == h);
            }
            self.lemma_len();
        }
        entries
    }

    /// The log has as many entries as rows, so finitely many.
    proof fn lemma_len(&self)
        requires
            self.wf(),
        ensures
            self@.dom().len() == self.rows.len(),
            self@.dom().finite(),
    {
        let rows = self.rows@;
        let places = vstd::set_lib::set_int_range(0, rows.len() as int);
        let hash_at = |i: int| rows[i].hash@;
        vstd::set_lib::lemma_int_range(0, rows.len() as int);
        assert(places.map(hash_at) =~= self@.dom()) by {
            assert forall|h: Seq<char>| self@.dom().contains(h) implies places.map(
                hash_at,
            ).contains(h) by {
                let i = row_of(rows, h);
                assert(places.contains(i) && hash_at(i) == h);
            }
        }
        assert(vstd::relations::injective_on(hash_at, places));
        vstd::set_lib::lemma_map_size(places, self@.dom(), hash_at);
    }

    /// Writes the entry as committed: what the log does with a mutation
    /// that is handed to it.
    pub fn handle(&mut self, msg: MutationsLogMutation) -> (written: Result<(), StoreError>)
        requires
            old(self).wf(),
        ensures
            final(self).wf(),
            written.is_ok(),
            final(self)@ == old(self)@.insert(msg.hash@, (msg.mutation@, true)),
    {
        self.commit(msg.hash, msg.mutation)
    }

    /// Answers the question for every entry.
    pub fn handle_query(&self, msg: MutationsLogQuery) -> (answer: Result<
        Vec<MutationsLogMutation>,
        StoreError,
    >)
        requires
            self.wf(),
        ensures
            answer matches Ok(entries) && scan_of(entry_views(entries@), self@),
    {
        match msg {
            MutationsLogQuery::Full => Ok(self.scan_all()),
        }
    }
}

} // verus!
