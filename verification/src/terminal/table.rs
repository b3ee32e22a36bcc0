//! The table of live terminals, keyed by the id the view chose.
//!
//! What a terminal holds (its pseudo-terminal, its writer, its child, its replay buffer)
//! is the type parameter: the table decides which terminal a request reaches, that an id
//! names at most one terminal, that starting under a used id first takes the old terminal
//! out (so that it can be killed), and that killing an unknown id changes nothing.

use vstd::prelude::*;
use crate::terminal::error::Error;

verus! {

/// No two entries have the same id.
pub open spec fn ids_distinct<T>(entries: Seq<(String, T)>) -> bool {
    forall|i: int, j: int|
        0 <= i < entries.len() && 0 <= j < entries.len() && i != j ==> #[trigger] entries[i].0@
            != #[trigger] entries[j].0@
}

/// Whether entry `i` of `entries` has the id `id`.
pub open spec fn has_id<T>(entries: Seq<(String, T)>, i: int, id: Seq<char>) -> bool {
    0 <= i < entries.len() && entries[i].0@ == id
}

/// The entries as a map from id to terminal.
pub open spec fn entries_map<T>(entries: Seq<(String, T)>) -> Map<Seq<char>, T> {
    Map::new(
        |id: Seq<char>| exists|i: int| #[trigger] has_id(entries, i, id),
        |id: Seq<char>| entries[choose|i: int| #[trigger] has_id(entries, i, id)].1,
    )
}

/// With distinct ids, the entry at `i` is what the map holds under its id.
proof fn lemma_entry_in_map<T>(entries: Seq<(String, T)>, i: int)
    requires
        ids_distinct(entries),
        0 <= i < entries.len(),
    ensures
        entries_map(entries).dom().contains(entries[i].0@),
        entries_map(entries)[entries[i].0@] == entries[i].1,
{
    let id = entries[i].0@;
    assert(has_id(entries, i, id));
    let j = choose|j: int| #[trigger] has_id(entries, j, id);
    assert(has_id(entries, j, id));
    if j != i {
        assert(entries[i].0@ != entries[j].0@);
    }
}

/// An id that no entry has is not in the map.
proof fn lemma_absent_from_map<T>(entries: Seq<(String, T)>, id: Seq<char>)
    requires
        forall|i: int| 0 <= i < entries.len() ==> #[trigger] entries[i].0@ != id,
    ensures
        !entries_map(entries).dom().contains(id),
{
    if exists|i: int| #[trigger] has_id(entries, i, id) {
        let i = choose|i: int| #[trigger] has_id(entries, i, id);
        assert(entries[i].0@ != id);
    }
}

/// Taking out the entry at `i` takes its id out of the map and leaves the rest.
proof fn lemma_remove_entry<T>(entries: Seq<(String, T)>, i: int)
    requires
        ids_distinct(entries),
        0 <= i < entries.len(),
    ensures
        ids_distinct(entries.remove(i)),
        entries_map(entries.remove(i)) == entries_map(entries).remove(entries[i].0@),
{
    let rest = entries.remove(i);
    let id = entries[i].0@;
    assert forall|a: int, b: int|
        0 <= a < rest.len() && 0 <= b < rest.len() && a != b implies #[trigger] rest[a].0@
        != #[trigger] rest[b].0@ by {
        let a0 = if a < i { a } else { a + 1 };
        let b0 = if b < i { b } else { b + 1 };
        assert(rest[a] == entries[a0]);
        assert(rest[b] == entries[b0]);
        assert(entries[a0].0@ != entries[b0].0@);
    }
    let old_map = entries_map(entries);
    let new_map = entries_map(rest);
    assert forall|k: Seq<char>| new_map.dom().contains(k) <==> old_map.remove(id).dom().contains(
        k,
    ) by {
        if new_map.dom().contains(k) {
            let a = choose|a: int| #[trigger] has_id(rest, a, k);
            let a0 = if a < i { a } else { a + 1 };
            assert(rest[a] == entries[a0]);
            assert(has_id(entries, a0, k));
            assert(entries[a0].0@ != entries[i].0@);
        }
        if old_map.remove(id).dom().contains(k) {
            let a0 = choose|a: int| #[trigger] has_id(entries, a, k);
            assert(a0 != i);
            let a = if a0 < i { a0 } else { a0 - 1 };
            assert(rest[a] == entries[a0]);
            assert(has_id(rest, a, k));
        }
    }
    assert forall|k: Seq<char>| #[trigger] new_map.dom().contains(k) implies new_map[k]
        == old_map[k] by {
        let a = choose|a: int| #[trigger] has_id(rest, a, k);
        let a0 = if a < i { a } else { a + 1 };
        assert(rest[a] == entries[a0]);
        lemma_entry_in_map(rest, a);
        lemma_entry_in_map(entries, a0);
    }
    assert(new_map =~= old_map.remove(id));
}

/// Adding an entry whose id no entry has adds that id to the map.
proof fn lemma_push_entry<T>(entries: Seq<(String, T)>, entry: (String, T))
    requires
        ids_distinct(entries),
        forall|i: int| 0 <= i < entries.len() ==> #[trigger] entries[i].0@ != entry.0@,
    ensures
        ids_distinct(entries.push(entry)),
        entries_map(entries.push(entry)) == entries_map(entries).insert(entry.0@, entry.1),
{
    let more = entries.push(entry);
    assert forall|a: int, b: int|
        0 <= a < more.len() && 0 <= b < more.len() && a != b implies #[trigger] more[a].0@
        != #[trigger] more[b].0@ by {
        if a < entries.len() && b < entries.len() {
            assert(entries[a].0@ != entries[b].0@);
        } else if a < entries.len() {
            assert(entries[a].0@ != entry.0@);
        } else {
            assert(entries[b].0@ != entry.0@);
        }
    }
    let old_map = entries_map(entries);
    let new_map = entries_map(more);
    let target = old_map.insert(entry.0@, entry.1);
    assert forall|k: Seq<char>| new_map.dom().contains(k) <==> target.dom().contains(k) by {
        if new_map.dom().contains(k) && k != entry.0@ {
            let a = choose|a: int| #[trigger] has_id(more, a, k);
            assert(has_id(entries, a, k));
        }
        if target.dom().contains(k) {
            if k == entry.0@ {
                assert(has_id(more, entries.len() as int, k));
            } else {
                let a = choose|a: int| #[trigger] has_id(entries, a, k);
                assert(has_id(more, a, k));
            }
        }
    }
    assert forall|k: Seq<char>| #[trigger] new_map.dom().contains(k) implies new_map[k]
        == target[k] by {
        let a = choose|a: int| #[trigger] has_id(more, a, k);
        lemma_entry_in_map(more, a);
        if a < entries.len() {
            lemma_entry_in_map(entries, a);
        }
    }
    assert(new_map =~= target);
}

/// Giving the entry at `i` a new terminal, under the same id, puts that terminal under
/// its id in the map and leaves the rest.
proof fn lemma_update_entry<T>(entries: Seq<(String, T)>, i: int, term: T)
    requires
        ids_distinct(entries),
        0 <= i < entries.len(),
    ensures
        ids_distinct(entries.update(i, (entries[i].0, term))),
        entries_map(entries.update(i, (entries[i].0, term))) == entries_map(entries).insert(
            entries[i].0@,
            term,
        ),
{
    let id = entries[i].0@;
    let next = entries.update(i, (entries[i].0, term));
    assert forall|a: int, b: int|
        0 <= a < next.len() && 0 <= b < next.len() && a != b implies #[trigger] next[a].0@
        != #[trigger] next[b].0@ by {
        assert(next[a].0 == entries[a].0);
        assert(next[b].0 == entries[b].0);
        assert(entries[a].0@ != entries[b].0@);
    }
    let old_map = entries_map(entries);
    let new_map = entries_map(next);
    let target = old_map.insert(id, term);
    lemma_entry_in_map(entries, i);
    assert forall|k: Seq<char>| new_map.dom().contains(k) <==> target.dom().contains(k) by {
        if new_map.dom().contains(k) {
            let a = choose|a: int| #[trigger] has_id(next, a, k);
            assert(next[a].0 == entries[a].0);
            assert(has_id(entries, a, k));
        }
        if target.dom().contains(k) && k != id {
            let a = choose|a: int| #[trigger] has_id(entries, a, k);
            assert(next[a].0 == entries[a].0);
            assert(has_id(next, a, k));
        }
        if k == id {
            assert(has_id(next, i, k));
        }
    }
    assert forall|k: Seq<char>| #[trigger] new_map.dom().contains(k) implies new_map[k]
        == target[k] by {
        let a = choose|a: int| #[trigger] has_id(next, a, k);
        lemma_entry_in_map(next, a);
        if a != i {
            assert(next[a] == entries[a]);
            lemma_entry_in_map(entries, a);
        }
    }
    assert(new_map =~= target);
}

/// The live terminals, each under its id.
pub struct TerminalTable<T> {
    entries: Vec<(String, T)>,
}

impl<T> View for TerminalTable<T> {
    type V = Map<Seq<char>, T>;

    /// The terminals by id.
    closed spec fn view(&self) -> Map<Seq<char>, T> {
        entries_map(self.entries@)
    }
}

impl<T> TerminalTable<T> {
    /// An id names at most one terminal.
    pub closed spec fn wf(&self) -> bool {
        ids_distinct(self.entries@)
    }

    /// No terminal yet.
    pub fn new() -> (table: Self)
        ensures
            table.wf(),
            table@ == Map::<Seq<char>, T>::empty(),
    {
        let table = TerminalTable { entries: Vec::new() };
        assert(table@ =~= Map::<Seq<char>, T>::empty());
        table
    }

    /// Where the terminal `id` stands.
    fn find(&self, id: &str) -> (found: Option<usize>)
        requires
            self.wf(),
        ensures
            match found {
                Some(i) => i < self.entries@.len() && self.entries@[i as int].0@ == id@,
                None => forall|i: int|
                    0 <= i < self.entries@.len() ==> #[trigger] self.entries@[i].0@ != id@,
            },
    {
        let key = id.to_owned();
        let n = self.entries.len();
        let mut i: usize = 0;
        while i < n
            invariant
                n == self.entries@.len(),
                i <= n,
                key@ == id@,
                forall|j: int| 0 <= j < i ==> #[trigger] self.entries@[j].0@ != id@,
            decreases n - i,
        {
            if self.entries[i].0 == key {
                return Some(i);
            }
            i += 1;
        }
        None
    }

    /// Whether a terminal is live under `id`.
    pub fn contains(&self, id: &str) -> (live: bool)
        requires
            self.wf(),
        ensures
            live == self@.dom().contains(id@),
    {
        match self.find(id) {
            Some(i) => {
                proof {
                    lemma_entry_in_map(self.entries@, i as int);
                }
                true
            },
            None => {
                proof {
                    lemma_absent_from_map(self.entries@, id@);
                }
                false
            },
        }
    }

    /// The terminal under `id`, or [`Error::NotFound`].
    pub fn get(&self, id: &str) -> (found: Result<&T, Error>)
        requires
            self.wf(),
        ensures
            match found {
                Ok(term) => self@.dom().contains(id@) && *term == self@[id@],
                Err(e) => !self@.dom().contains(id@) && e is NotFound,
            },
    {
        match self.find(id) {
            Some(i) => {
                proof {
                    lemma_entry_in_map(self.entries@, i as int);
                }
                Ok(&self.entries[i].1)
            },
            None => {
                proof {
                    lemma_absent_from_map(self.entries@, id@);
                }
                Err(Error::NotFound)
            },
        }
    }

    /// The terminal under `id`, to be changed in place (its writer written to, say), or
    /// [`Error::NotFound`]. What it becomes stays under `id`.
    pub fn get_mut(&mut self, id: &str) -> (found: Result<&mut T, Error>)
        requires
            old(self).wf(),
        ensures
            final(self).wf(),
            match found {
                Ok(term) => {
                    &&& old(self)@.dom().contains(id@)
                    &&& *term == old(self)@[id@]
                    &&& final(self)@ == old(self)@.insert(id@, *final(term))
                },
                Err(e) => {
                    &&& !old(self)@.dom().contains(id@)
                    &&& e is NotFound
                    &&& final(self)@ == old(self)@
                },
            },
    {
        match self.find(id) {
            Some(i) => {
                proof {
                    lemma_entry_in_map(self.entries@, i as int);
                }
                let ghost before = self.entries@;
                let entry = &mut self.entries[i];
                let term = &mut entry.1;
                proof {
                    lemma_update_entry(before, i as int, *final(term));
                }
                Ok(term)
            },
            None => {
                proof {
                    lemma_absent_from_map(self.entries@, id@);
                }
                Err(Error::NotFound)
            },
        }
    }

    /// Takes the terminal under `id` out of the table and hands it back, so that its
    /// child can be killed; nothing happens where no terminal has that id.
    pub fn remove(&mut self, id: &str) -> (removed: Option<T>)
        requires
            old(self).wf(),
        ensures
            final(self).wf(),
            final(self)@ == old(self)@.remove(id@),
            !old(self)@.dom().contains(id@) ==> final(self)@ == old(self)@,
            match removed {
                Some(term) => old(self)@.dom().contains(id@) && term == old(self)@[id@],
                None => !old(self)@.dom().contains(id@),
            },
    {
        match self.find(id) {
            Some(i) => {
                proof {
                    lemma_entry_in_map(self.entries@, i as int);
                    lemma_remove_entry(self.entries@, i as int);
                }
                let (_, term) = self.entries.remove(i);
                Some(term)
            },
            None => {
                proof {
                    lemma_absent_from_map(self.entries@, id@);
                    assert(self@.remove(id@) =~= self@);
                }
                None
            },
        }
    }

    /// Puts `term` under `id`. A terminal already there is taken out first and handed
    /// back, so that its child can be killed.
    pub fn insert(&mut self, id: String, term: T) -> (replaced: Option<T>)
        requires
            old(self).wf(),
        ensures
            final(self).wf(),
            final(self)@ == old(self)@.insert(id@, term),
            match replaced {
                Some(prev) => old(self)@.dom().contains(id@) && prev == old(self)@[id@],
                None => !old(self)@.dom().contains(id@),
            },
    {
        let replaced = self.remove(id.as_str());
        let ghost rest = self.entries@;
        assert forall|i: int| 0 <= i < rest.len() implies #[trigger] rest[i].0@ != id@ by {
            lemma_entry_in_map(rest, i);
        }
        proof {
            lemma_push_entry(rest, (id, term));
        }
        self.entries.push((id, term));
        proof {
            assert(old(self)@.remove(id@).insert(id@, term) =~= old(self)@.insert(id@, term));
        }
        replaced
    }

    /// The ids of the live terminals, each once.
    pub fn ids(&self) -> (ids: Vec<String>)
        requires
            self.wf(),
        ensures
            ids@.map_values(|s: String| s@).no_duplicates(),
            ids@.map_values(|s: String| s@).to_set() == self@.dom(),
    {
        let n = self.entries.len();
        let mut ids: Vec<String> = Vec::new();
        let mut i: usize = 0;
        while i < n
            invariant
                n == self.entries@.len(),
                i <= n,
                ids_distinct(self.entries@),
                ids@.len() == i,
                forall|j: int| 0 <= j < i ==> #[trigger] ids@[j]@ == self.entries@[j].0@,
            decreases n - i,
        {
            ids.push(self.entries[i].0.clone());
            i += 1;
        }
        let ghost names = ids@.map_values(|s: String| s@);
        assert forall|a: int, b: int| 0 <= a < names.len() && 0 <= b < names.len() && a != b implies names[a]
            != names[b] by {
            assert(self.entries@[a].0@ != self.entries@[b].0@);
        }
        assert forall|k: Seq<char>| names.to_set().contains(k) <==> self@.dom().contains(k) by {
            if names.to_set().contains(k) {
                let a = choose|a: int| 0 <= a < names.len() && names[a] == k;
                assert(has_id(self.entries@, a, k));
            }
            if self@.dom().contains(k) {
                let a = choose|a: int| #[trigger] has_id(self.entries@, a, k);
                assert(names[a] == k);
            }
        }
        assert(names.to_set() =~= self@.dom());
        ids
    }

    /// How many terminals are live.
    pub fn len(&self) -> (n: usize)
        requires
            self.wf(),
        ensures
            n == self@.len(),
    {
        proof {
            self.lemma_len();
        }
        self.entries.len()
    }

    /// With distinct ids, there are as many entries as ids.
    proof fn lemma_len(&self)
        requires
            self.wf(),
        ensures
            self.entries@.len() == self@.len(),
    {
        let names = self.entries@.map_values(|e: (String, T)| e.0@);
        assert forall|a: int, b: int| 0 <= a < names.len() && 0 <= b < names.len() && a != b implies names[a]
            != names[b] by {
            assert(self.entries@[a].0@ != self.entries@[b].0@);
        }
        assert forall|k: Seq<char>| names.to_set().contains(k) <==> self@.dom().contains(k) by {
            if names.to_set().contains(k) {
                let a = choose|a: int| 0 <= a < names.len() && names[a] == k;
                assert(has_id(self.entries@, a, k));
            }
            if self@.dom().contains(k) {
                let a = choose|a: int| #[trigger] has_id(self.entries@, a, k);
                assert(names[a] == k);
            }
        }
        assert(names.to_set() =~= self@.dom());
        names.unique_seq_to_set();
    }
}

/// What starting a terminal does to the table, as the manager's start orders it: first
/// `remove(id)` takes out any terminal under `id` (which is then killed), giving
/// `cleared`; where spawning then succeeds, `insert(id, term)` gives `started`. Let `killed`
/// be what a later `remove(id)` makes of `started`. Then:
/// - after a failed start the ids are those before, less `id`; after a successful one,
///   those before and `id`, and `id` reaches the new terminal;
/// - every other id reaches the same terminal as before, through both outcomes, so no
///   other terminal is killed, loses its input or its replay;
/// - killing `id` afterwards leaves exactly the table the failed start leaves.
pub proof fn law_start_then_kill<T>(
    before: TerminalTable<T>,
    cleared: TerminalTable<T>,
    started: TerminalTable<T>,
    killed: TerminalTable<T>,
    id: Seq<char>,
    term: T,
)
    requires
        before.wf(),
        cleared@ == before@.remove(id),
        started@ == cleared@.insert(id, term),
        killed@ == started@.remove(id),
    ensures
        cleared@.dom() == before@.dom().remove(id),
        started@.dom() == before@.dom().insert(id),
        started@[id] == term,
        forall|other: Seq<char>|
            other != id && before@.dom().contains(other) ==> #[trigger] started@[other]
                == before@[other] && cleared@[other] == before@[other],
        killed@ == cleared@,
{
    assert(cleared@.dom() =~= before@.dom().remove(id));
    assert(started@.dom() =~= before@.dom().insert(id));
    assert(killed@ =~= cleared@);
}

} // verus!
