//! The directory tables: for each directory the named references to its
//! children, kept in the order in which they were added.

use vstd::prelude::*;
use std::collections::HashMap;
use crate::error::FsError;
use crate::encryptedfs::types::{DirectoryEntry, EntryView, FileType};

verus! {

broadcast use vstd::std_specs::hash::group_hash_axioms;

/// The entries of a directory in the form that contracts speak of.
pub open spec fn entries_view(entries: Seq<DirectoryEntry>) -> Seq<EntryView> {
    entries.map_values(|e: DirectoryEntry| e@)
}

/// Whether one of `entries` carries `name`.
pub open spec fn has_name(entries: Seq<EntryView>, name: Seq<char>) -> bool {
    exists|i: int| 0 <= i < entries.len() && (#[trigger] entries[i]).name == name
}

/// The place of the entry that carries `name`, where there is one.
pub open spec fn position_of(entries: Seq<EntryView>, name: Seq<char>) -> int {
    choose|i: int| 0 <= i < entries.len() && (#[trigger] entries[i]).name == name
}

/// No two of `entries` carry the same name, and none an empty one.
pub open spec fn names_unique(entries: Seq<EntryView>) -> bool {
    &&& forall|i: int, j: int|
        0 <= i < j < entries.len() ==> (#[trigger] entries[i]).name != (#[trigger] entries[j]).name
    &&& forall|i: int| 0 <= i < entries.len() ==> (#[trigger] entries[i]).name.len() > 0
}

/// The entries from the place `cursor` on; none where it lies at or past the
/// end.
pub open spec fn entries_from(entries: Seq<EntryView>, cursor: u64) -> Seq<EntryView> {
    if cursor <= entries.len() {
        entries.skip(cursor as int)
    } else {
        Seq::empty()
    }
}

/// Among entries with unique names, the place of a name is the one place
/// where it stands.
pub proof fn lemma_position_of(entries: Seq<EntryView>, i: int)
    requires
        names_unique(entries),
        0 <= i < entries.len(),
    ensures
        has_name(entries, entries[i].name),
        position_of(entries, entries[i].name) == i,
{
    let p = position_of(entries, entries[i].name);
    assert(0 <= p < entries.len() && entries[p].name == entries[i].name);
    if p < i {
        assert(entries[p].name != entries[i].name);
    } else if i < p {
        assert(entries[i].name != entries[p].name);
    }
}

/// Adding an entry under a new, non-empty name keeps the names unique.
pub proof fn lemma_push_keeps_unique(entries: Seq<EntryView>, entry: EntryView)
    requires
        names_unique(entries),
        !has_name(entries, entry.name),
        entry.name.len() > 0,
    ensures
        names_unique(entries.push(entry)),
        has_name(entries.push(entry), entry.name),
        position_of(entries.push(entry), entry.name) == entries.len(),
{
    let after = entries.push(entry);
    assert forall|i: int, j: int| 0 <= i < j < after.len() implies (#[trigger] after[i]).name != (
    #[trigger] after[j]).name by {
        if j == entries.len() {
            assert(entries[i].name != entry.name);
        } else {
            assert(entries[i].name != entries[j].name);
        }
    }
    assert forall|i: int| 0 <= i < after.len() implies (#[trigger] after[i]).name.len() > 0 by {
        if i < entries.len() {
            assert(entries[i].name.len() > 0);
        }
    }
    assert(after[entries.len() as int].name == entry.name);
    lemma_position_of(after, entries.len() as int);
}

/// Taking an entry out keeps the names unique, and its name is then free.
pub proof fn lemma_remove_keeps_unique(entries: Seq<EntryView>, i: int)
    requires
        names_unique(entries),
        0 <= i < entries.len(),
    ensures
        names_unique(entries.remove(i)),
        !has_name(entries.remove(i), entries[i].name),
{
    let after = entries.remove(i);
    assert forall|a: int, b: int| 0 <= a < b < after.len() implies (#[trigger] after[a]).name != (
    #[trigger] after[b]).name by {
        let a0 = if a < i { a } else { a + 1 };
        let b0 = if b < i { b } else { b + 1 };
        assert(entries[a0].name != entries[b0].name);
    }
    assert forall|a: int| 0 <= a < after.len() implies (#[trigger] after[a]).name.len() > 0 by {
        let a0 = if a < i { a } else { a + 1 };
        assert(entries[a0].name.len() > 0);
    }
    if has_name(after, entries[i].name) {
        let a = position_of(after, entries[i].name);
        let a0 = if a < i { a } else { a + 1 };
        assert(after[a] == entries[a0]);
        if a0 < i {
            assert(entries[a0].name != entries[i].name);
        } else {
            assert(entries[i].name != entries[a0].name);
        }
    }
}

/// Looks for `name` among `entries` and returns the first place where it
/// stands.
pub fn find_index(entries: &Vec<DirectoryEntry>, name: &String) -> (res: Option<usize>)
    ensures
        match res {
            Some(i) => i < entries@.len() && entries_view(entries@)[i as int].name == name@
                && forall|j: int| 0 <= j < i ==> (#[trigger] entries_view(entries@)[j]).name != name@,
            None => !has_name(entries_view(entries@), name@),
        },
{
    let mut i: usize = 0;
    while i < entries.len()
        invariant
            i <= entries@.len(),
            forall|j: int| 0 <= j < i ==> (#[trigger] entries_view(entries@)[j]).name != name@,
        decreases entries@.len() - i,
    {
        if entries[i].name == *name {
            return Some(i);
        }
        i += 1;
    }
    None
}

/// What looking up `name` in the table of `parent` returns.
pub open spec fn find_outcome(dirs: Map<u64, Seq<EntryView>>, parent: u64, name: Seq<char>) -> Result<
    (u64, FileType),
    FsError,
> {
    if !dirs.contains_key(parent) {
        Err(FsError::NotADirectory)
    } else if !has_name(dirs[parent], name) {
        Err(FsError::NotFound)
    } else {
        let entry = dirs[parent][position_of(dirs[parent], name)];
        Ok((entry.ino, entry.kind))
    }
}

/// What adding an entry under `name` to the table of `parent` returns.
pub open spec fn insert_outcome(dirs: Map<u64, Seq<EntryView>>, parent: u64, name: Seq<char>) -> Result<
    (),
    FsError,
> {
    if name.len() == 0 {
        Err(FsError::InvalidArgument)
    } else if !dirs.contains_key(parent) {
        Err(FsError::NotADirectory)
    } else if has_name(dirs[parent], name) {
        Err(FsError::AlreadyExists)
    } else {
        Ok(())
    }
}

/// The tables with `entry` added at the end of the table of `parent`.
pub open spec fn with_entry(dirs: Map<u64, Seq<EntryView>>, parent: u64, entry: EntryView) -> Map<
    u64,
    Seq<EntryView>,
> {
    dirs.insert(parent, dirs[parent].push(entry))
}

/// The tables with the entry `name` taken out of the table of `parent`.
pub open spec fn without_entry(dirs: Map<u64, Seq<EntryView>>, parent: u64, name: Seq<char>) -> Map<
    u64,
    Seq<EntryView>,
> {
    dirs.insert(parent, dirs[parent].remove(position_of(dirs[parent], name)))
}

/// Every table has unique, non-empty names.
pub open spec fn tables_wf(dirs: Map<u64, Seq<EntryView>>) -> bool {
    forall|d: u64| #[trigger] dirs.contains_key(d) ==> names_unique(dirs[d])
}

/// The entry tables of all directories.
pub struct DirectoryTable {
    dirs: HashMap<u64, Vec<DirectoryEntry>>,
}

impl View for DirectoryTable {
    type V = Map<u64, Seq<EntryView>>;

    closed spec fn view(&self) -> Map<u64, Seq<EntryView>> {
        Map::new(|d: u64| self.dirs@.contains_key(d), |d: u64| entries_view(self.dirs@[d]@))
    }
}

impl DirectoryTable {
    pub open spec fn wf(&self) -> bool {
        tables_wf(self@)
    }

    /// No tables at all.
    pub fn new() -> (res: Self)
        ensures
            res.wf(),
            res@ == Map::<u64, Seq<EntryView>>::empty(),
    {
        let res = DirectoryTable { dirs: HashMap::new() };
        proof {
            assert(res@ =~= Map::<u64, Seq<EntryView>>::empty());
        }
        res
    }

    /// Gives `ino` an empty table, replacing what it had.
    pub fn add_directory(&mut self, ino: u64)
        requires
            old(self).wf(),
        ensures
            final(self).wf(),
            final(self)@ == old(self)@.insert(ino, Seq::<EntryView>::empty()),
    {
        self.dirs.insert(ino, Vec::new());
        proof {
            assert(self@ =~~= old(self)@.insert(ino, Seq::<EntryView>::empty()));
        }
    }

    /// Drops the table of `ino`, if it has one.
    pub fn remove_directory(&mut self, ino: u64)
        requires
            old(self).wf(),
        ensures
            final(self).wf(),
            final(self)@ == old(self)@.remove(ino),
    {
        self.dirs.remove(&ino);
        proof {
            assert(self@ =~~= old(self)@.remove(ino));
        }
    }

    /// The entries of `parent`, in the order in which they were added;
    /// `None` where it has no table.
    pub fn entries(&self, parent: u64) -> (res: Option<&Vec<DirectoryEntry>>)
        ensures
            match res {
                Some(list) => self@.contains_key(parent) && entries_view(list@) == self@[parent],
                None => !self@.contains_key(parent),
            },
    {
        self.dirs.get(&parent)
    }

    /// How many entries the table of `ino` has; `None` where it has no table.
    pub fn entry_count(&self, ino: u64) -> (res: Option<usize>)
        ensures
            match res {
                Some(n) => self@.contains_key(ino) && n == self@[ino].len(),
                None => !self@.contains_key(ino),
            },
    {
        match self.dirs.get(&ino) {
            Some(entries) => Some(entries.len()),
            None => None,
        }
    }

    /// Whether `parent` has a table with an entry under `name`.
    pub fn exists_by_name(&self, parent: u64, name: &str) -> (res: bool)
        ensures
            res == (self@.contains_key(parent) && has_name(self@[parent], name@)),
    {
        let name: String = name.to_owned();
        match self.dirs.get(&parent) {
            Some(entries) => find_index(entries, &name).is_some(),
            None => false,
        }
    }

    /// The inode and kind that the entry `name` of `parent` points to.
    /// [`FsError::NotADirectory`] where `parent` has no table,
    /// [`FsError::NotFound`] where the table has no such entry.
    pub fn find_by_name(&self, parent: u64, name: &str) -> (res: Result<(u64, FileType), FsError>)
        requires
            self.wf(),
        ensures
            res == find_outcome(self@, parent, name@),
    {
        let name: String = name.to_owned();
        match self.dirs.get(&parent) {
            Some(entries) => match find_index(entries, &name) {
                Some(i) => {
                    proof {
                        lemma_position_of(self@[parent], i as int);
                    }
                    Ok((entries[i].ino, entries[i].kind))
                },
                None => Err(FsError::NotFound),
            },
            None => Err(FsError::NotADirectory),
        }
    }

    /// Adds an entry `name` that points to `ino` at the end of the table of
    /// `parent`. [`FsError::InvalidArgument`] for an empty name,
    /// [`FsError::NotADirectory`] where `parent` has no table,
    /// [`FsError::AlreadyExists`] where the name is taken. A failed call
    /// changes nothing.
    pub fn insert_entry(&mut self, parent: u64, name: &str, ino: u64, kind: FileType) -> (res:
        Result<(), FsError>)
        requires
            old(self).wf(),
        ensures
            final(self).wf(),
            res == insert_outcome(old(self)@, parent, name@),
            res is Ok ==> final(self)@ == with_entry(
                old(self)@,
                parent,
                EntryView { ino, name: name@, kind },
            ),
            res is Err ==> final(self)@ == old(self)@,
    {
        if name.is_empty() {
            return Err(FsError::InvalidArgument);
        }
        let name: String = name.to_owned();
        let mut entries: Vec<DirectoryEntry> = match self.dirs.remove(&parent) {
            Some(entries) => entries,
            None => {
                proof {
                    assert(self@ =~~= old(self)@);
                }
                return Err(FsError::NotADirectory);
            },
        };
        let found = find_index(&entries, &name);
        let ghost before = entries_view(entries@);
        let ghost entry = EntryView { ino, name: name@, kind };
        let taken: bool = found.is_some();
        if !taken {
            entries.push(DirectoryEntry { ino, name, kind });
        }
        self.dirs.insert(parent, entries);
        proof {
            if taken {
                assert(self@ =~~= old(self)@);
            } else {
                assert(entries_view(entries@) =~= before.push(entry));
                lemma_push_keeps_unique(before, entry);
                assert(self@ =~~= with_entry(old(self)@, parent, entry));
            }
        }
        if taken {
            Err(FsError::AlreadyExists)
        } else {
            Ok(())
        }
    }

    /// Takes the entry `name` out of the table of `parent` and returns the
    /// inode and kind it pointed to. [`FsError::NotADirectory`] where
    /// `parent` has no table, [`FsError::NotFound`] where the table has no
    /// such entry. A failed call changes nothing.
    pub fn remove_entry(&mut self, parent: u64, name: &str) -> (res: Result<
        (u64, FileType),
        FsError,
    >)
        requires
            old(self).wf(),
        ensures
            final(self).wf(),
            res == find_outcome(old(self)@, parent, name@),
            res is Ok ==> final(self)@ == without_entry(old(self)@, parent, name@),
            res is Err ==> final(self)@ == old(self)@,
    {
        let name: String = name.to_owned();
        let mut entries: Vec<DirectoryEntry> = match self.dirs.remove(&parent) {
            Some(entries) => entries,
            None => {
                proof {
                    assert(self@ =~~= old(self)@);
                }
                return Err(FsError::NotADirectory);
            },
        };
        let ghost before = entries_view(entries@);
        let res = match find_index(&entries, &name) {
            Some(i) => {
                let gone: DirectoryEntry = entries.remove(i);
                proof {
                    lemma_position_of(before, i as int);
                    lemma_remove_keeps_unique(before, i as int);
                    assert(entries_view(entries@) =~= before.remove(i as int));
                }
                Ok((gone.ino, gone.kind))
            },
            None => Err(FsError::NotFound),
        };
        self.dirs.insert(parent, entries);
        proof {
            if res is Ok {
                assert(self@ =~~= without_entry(old(self)@, parent, name@));
            } else {
                assert(self@ =~~= old(self)@);
            }
        }
        res
    }

    /// The entry of `parent` at the place `cursor`, `None` at or past the
    /// end. [`FsError::NotADirectory`] where `parent` has no table.
    pub fn entry_at(&self, parent: u64, cursor: u64) -> (res: Result<Option<DirectoryEntry>, FsError>)
        ensures
            match res {
                Ok(Some(entry)) => self@.contains_key(parent) && cursor < self@[parent].len()
                    && entry@ == self@[parent][cursor as int],
                Ok(None) => self@.contains_key(parent) && cursor >= self@[parent].len(),
                Err(e) => !self@.contains_key(parent) && e == FsError::NotADirectory,
            },
    {
        let entries: &Vec<DirectoryEntry> = match self.dirs.get(&parent) {
            Some(entries) => entries,
            None => {
                return Err(FsError::NotADirectory);
            },
        };
        if cursor >= entries.len() as u64 {
            return Ok(None);
        }
        Ok(Some(entries[cursor as usize].clone()))
    }

    /// The entries of `parent` from the place `cursor` on, in the order in
    /// which they were added. [`FsError::NotADirectory`] where `parent` has
    /// no table.
    pub fn read_dir(&self, parent: u64, cursor: u64) -> (res: Result<Vec<DirectoryEntry>, FsError>)
        ensures
            match res {
                Ok(list) => self@.contains_key(parent) && entries_view(list@) == entries_from(
                    self@[parent],
                    cursor,
                ),
                Err(e) => !self@.contains_key(parent) && e == FsError::NotADirectory,
            },
    {
        let entries: &Vec<DirectoryEntry> = match self.dirs.get(&parent) {
            Some(entries) => entries,
            None => {
                return Err(FsError::NotADirectory);
            },
        };
        let mut list: Vec<DirectoryEntry> = Vec::new();
        if cursor >= entries.len() as u64 {
            proof {
                assert(entries_view(list@) =~= entries_from(self@[parent], cursor));
            }
            return Ok(list);
        }
        let start: usize = cursor as usize;
        let mut i: usize = start;
        while i < entries.len()
            invariant
                start <= i <= entries@.len(),
                list@.len() == i - start,
                forall|j: int| 0 <= j < list@.len() ==> (#[trigger] list@[j])@ == entries@[start + j]@,
            decreases entries@.len() - i,
        {
            list.push(entries[i].clone());
            i += 1;
        }
        proof {
            assert(entries_view(list@) =~= entries_from(self@[parent], cursor));
        }
        Ok(list)
    }
}

} // verus!
