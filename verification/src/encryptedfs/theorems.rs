//! What holds of a consistent engine and of its operations.

use vstd::prelude::*;
use crate::error::FsError;
use crate::stream_util::zeros;
use crate::encryptedfs::consistency::{
    lemma_ancestor_of_top, lemma_create_valid, lemma_link, lemma_remove_valid,
    lemma_rename_target_removed, lemma_root_has_no_parent, lemma_unlink, lemma_with_content_valid,
    lemma_within_frame,
};
use crate::encryptedfs::content::{
    lemma_gap_reads_zero, lemma_read_returns_written, read_span, resized, written_at,
};
use crate::encryptedfs::dir_table::{
    has_name, lemma_position_of, lemma_push_keeps_unique, names_unique, position_of,
};
use crate::encryptedfs::state::FsState;
use crate::encryptedfs::types::{
    initial_attr, CreateFileAttr, EntryView, FileAttr, FileType, SetFileAttr, ROOT_INODE,
};

verus! {

/// Every inode but the root has exactly one entry that points to it, and
/// its link count says so.
pub proof fn lemma_one_link(s: FsState, ino: u64)
    requires
        s.valid(),
        s.attrs.contains_key(ino),
        ino != ROOT_INODE,
    ensures
        s.referenced(ino),
        s.has_link(s.parent_of(ino), ino),
        s.attrs[ino].nlink == 1,
        forall|d1: u64, i1: int, d2: u64, i2: int|
            #[trigger] s.is_entry(d1, i1) && #[trigger] s.is_entry(d2, i2) && s.dirs[d1][i1].ino
                == ino && s.dirs[d2][i2].ino == ino ==> d1 == d2 && i1 == i2,
        !s.referenced(ROOT_INODE),
{
    let d = s.parents[ino];
    assert(s.has_link(d, ino));
    let i = choose|i: int| #[trigger] s.is_entry(d, i) && s.dirs[d][i].ino == ino;
    assert(s.is_entry(d, i) && s.dirs[d][i].ino == ino);
}

/// Going from parent to parent reaches the root from every inode.
pub proof fn lemma_reaches_root(s: FsState, ino: u64)
    requires
        s.valid(),
        s.attrs.contains_key(ino),
    ensures
        s.is_within(ROOT_INODE, ino),
{
    let rank = choose|rank: spec_fn(u64) -> nat| #[trigger] s.ranked(rank);
    lemma_climb(s, rank, ino);
}

proof fn lemma_climb(s: FsState, rank: spec_fn(u64) -> nat, ino: u64)
    requires
        s.valid(),
        s.ranked(rank),
        s.attrs.contains_key(ino),
    ensures
        s.is_within(ROOT_INODE, ino),
    decreases rank(ino),
{
    if ino == ROOT_INODE {
        assert(s.ancestor(ino, 0) == ROOT_INODE);
    } else {
        let d = s.parents[ino];
        assert(s.has_link(d, ino));
        assert(s.dirs.contains_key(d));
        lemma_climb(s, rank, d);
        let k = choose|k: nat| #[trigger] s.ancestor(d, k) == ROOT_INODE;
        assert(s.ancestor(ino, k + 1) == ROOT_INODE);
    }
}

/// A directory is never moved to within itself: a rename whose new parent
/// is what is renamed, or lies below it, fails with
/// [`FsError::InvalidArgument`].
pub proof fn lemma_rename_within_itself(
    s: FsState,
    old_parent: u64,
    old_name: Seq<char>,
    new_parent: u64,
    new_name: Seq<char>,
)
    requires
        s.valid(),
        s.is_dir(old_parent),
        s.is_dir(new_parent),
        new_name.len() > 0,
        has_name(s.dirs[old_parent], old_name),
        s.is_within(s.entry_named(old_parent, old_name).ino, new_parent),
    ensures
        s.rename_outcome(old_parent, old_name, new_parent, new_name) == Err::<(), FsError>(
            FsError::InvalidArgument,
        ),
{
}

/// A name that is present cannot be created again: the call fails with
/// [`FsError::AlreadyExists`], whatever else holds of its arguments.
pub proof fn lemma_create_taken_name(s: FsState, parent: u64, name: Seq<char>, init: CreateFileAttr)
    requires
        s.valid(),
        s.has_entry(parent, name),
    ensures
        s.create_outcome(parent, name, init) == Err::<(u64, FileAttr), FsError>(
            FsError::AlreadyExists,
        ),
{
    let at = position_of(s.dirs[parent], name);
    assert(s.dirs[parent][at].name.len() > 0);
    assert(s.is_dir(parent));
}

/// A created entry is there afterwards: it is found under its name with the
/// number and kind that the call returned, its inode has the attributes
/// that the call returned, and the listing of the parent is the old one with
/// the new entry at its end.
pub proof fn lemma_create_visible(s: FsState, parent: u64, name: Seq<char>, init: CreateFileAttr)
    requires
        s.valid(),
        s.create_outcome(parent, name, init) is Ok,
    ensures
        s.after_create(parent, name, init).valid(),
        s.after_create(parent, name, init).has_entry(parent, name),
        s.after_create(parent, name, init).find_outcome(parent, name) == Ok::<
            (u64, FileType),
            FsError,
        >((s.next_ino, init.kind)),
        s.after_create(parent, name, init).attrs.contains_key(s.next_ino),
        s.after_create(parent, name, init).attrs[s.next_ino] == initial_attr(s.next_ino, init),
        !s.attrs.contains_key(s.next_ino),
        s.after_create(parent, name, init).listing(parent, 0) == s.listing(parent, 0).push(
            EntryView { ino: s.next_ino, name, kind: init.kind },
        ),
{
    let t = s.after_create(parent, name, init);
    let entry = EntryView { ino: s.next_ino, name, kind: init.kind };
    lemma_create_valid(s, parent, name, init);
    assert(s.dirs.contains_key(parent));
    lemma_push_keeps_unique(s.dirs[parent], entry);
    assert(t.dirs[parent] == s.dirs[parent].push(entry));
    assert(t.listing(parent, 0) =~= s.listing(parent, 0).push(entry));
}

/// The listing of a directory never shows a name twice, and a listing that
/// is taken up at a cursor is the rest of the listing from the start.
pub proof fn lemma_listing_stable(s: FsState, parent: u64, cursor: u64)
    requires
        s.valid(),
        s.is_dir(parent),
    ensures
        names_unique(s.listing(parent, 0)),
        s.listing(parent, 0) == s.dirs[parent],
        cursor <= s.dirs[parent].len() ==> s.listing(parent, 0) == s.listing(parent, 0).take(
            cursor as int,
        ) + s.listing(parent, cursor),
        cursor >= s.dirs[parent].len() ==> s.listing(parent, cursor).len() == 0,
{
    assert(s.dirs.contains_key(parent));
    assert(s.listing(parent, 0) =~= s.dirs[parent]);
    if cursor <= s.dirs[parent].len() {
        assert(s.listing(parent, 0) =~= s.listing(parent, 0).take(cursor as int) + s.listing(
            parent,
            cursor,
        ));
    }
}

/// What happens in one directory does not show in the listing of another:
/// creating, removing or renaming entries of other directories, and
/// changing the content or attributes of any inode, leave the entries of
/// `dir` as they are, as long as `dir` itself is not what is removed or
/// replaced.
pub proof fn lemma_listing_unrelated(
    s: FsState,
    dir: u64,
    parent: u64,
    name: Seq<char>,
    init: CreateFileAttr,
    other: u64,
    other_name: Seq<char>,
    ino: u64,
    content: Seq<u8>,
    set: SetFileAttr,
)
    requires
        s.valid(),
        s.is_dir(dir),
        dir != parent,
        dir != other,
    ensures
        s.create_outcome(parent, name, init) is Ok ==> s.after_create(parent, name, init).dirs[dir]
            == s.dirs[dir],
        s.remove_outcome(parent, name) is Ok && s.entry_named(parent, name).ino != dir
            ==> s.after_remove(parent, name).dirs[dir] == s.dirs[dir],
        s.rename_outcome(parent, name, other, other_name) is Ok && !(s.has_entry(other, other_name)
            && s.entry_named(other, other_name).ino == dir) ==> s.after_rename(
            parent,
            name,
            other,
            other_name,
        ).dirs[dir] == s.dirs[dir],
        s.with_content(ino, content).dirs[dir] == s.dirs[dir],
        s.after_update(ino, set).dirs[dir] == s.dirs[dir],
{
    assert(s.dirs.contains_key(dir));
    if s.create_outcome(parent, name, init) is Ok {
        assert(!s.attrs.contains_key(s.next_ino));
    }
}

/// What a write changes: the content of the written inode and its size,
/// which is the length of the new content, and nothing else. The written
/// range then reads back as it was written.
pub proof fn lemma_write_visible(s: FsState, ino: u64, offset: u64, data: Seq<u8>)
    requires
        s.valid(),
        s.write_outcome(ino, offset, data.len()) is Ok,
    ensures
        s.after_write(ino, offset, data).valid(),
        s.after_write(ino, offset, data).files[ino] == written_at(
            s.files[ino],
            offset as nat,
            data,
        ),
        s.after_write(ino, offset, data).attrs[ino].size == s.after_write(
            ino,
            offset,
            data,
        ).files[ino].len(),
        s.after_write(ino, offset, data).attrs[ino].size == if s.attrs[ino].size >= offset
            + data.len() {
            s.attrs[ino].size as int
        } else {
            offset + data.len()
        },
        s.after_write(ino, offset, data).read_outcome(ino, offset, data.len()) == Ok::<
            usize,
            FsError,
        >(data.len() as usize),
        read_span(
            s.after_write(ino, offset, data).files[ino],
            offset,
            data.len(),
        ) == data,
        s.attrs[ino].size <= offset ==> read_span(
            s.after_write(ino, offset, data).files[ino],
            s.attrs[ino].size,
            (offset - s.attrs[ino].size) as nat,
        ) == zeros((offset - s.attrs[ino].size) as nat),
        s.after_write(ino, offset, data).dirs == s.dirs,
        forall|other: u64|
            other != ino ==> s.after_write(ino, offset, data).attrs.contains_key(other)
                == s.attrs.contains_key(other) && s.after_write(ino, offset, data).attrs[other]
                == s.attrs[other] && s.after_write(ino, offset, data).files[other]
                == s.files[other],
{
    let content = written_at(s.files[ino], offset as nat, data);
    assert(s.files.contains_key(ino));
    lemma_with_content_valid(s, ino, content);
    lemma_read_returns_written(
        s.files[ino],
        offset,
        data,
        offset as nat + data.len(),
    );
    if s.attrs[ino].size <= offset {
        lemma_gap_reads_zero(s.files[ino], offset, data);
    }
}

/// Inode numbers are never used again: the number of a new inode is greater
/// than every number in use, and no operation moves the counter back, so
/// that a number stays free once its inode is gone.
pub proof fn lemma_numbers_stay_fresh(
    s: FsState,
    parent: u64,
    name: Seq<char>,
    init: CreateFileAttr,
    other: u64,
    other_name: Seq<char>,
)
    requires
        s.valid(),
    ensures
        forall|ino: u64| #[trigger] s.attrs.contains_key(ino) ==> ino < s.next_ino,
        s.create_outcome(parent, name, init) is Ok ==> s.after_create(parent, name, init).next_ino
            == s.next_ino + 1,
        s.after_remove(parent, name).next_ino == s.next_ino,
        s.after_rename(parent, name, other, other_name).next_ino == s.next_ino,
{
}

/// A removed entry is gone, and so is the inode it pointed to: the name is
/// free again, the inode is not found, and every other entry of the
/// directory is found as before.
pub proof fn lemma_remove_visible(s: FsState, parent: u64, name: Seq<char>, other: Seq<char>)
    requires
        s.valid(),
        s.remove_outcome(parent, name) is Ok,
        other != name,
    ensures
        s.after_remove(parent, name).valid(),
        !s.after_remove(parent, name).has_entry(parent, name),
        s.after_remove(parent, name).find_outcome(parent, name) == Err::<(u64, FileType), FsError>(
            FsError::NotFound,
        ),
        !s.after_remove(parent, name).attrs.contains_key(s.entry_named(parent, name).ino),
        s.after_remove(parent, name).find_outcome(parent, other) == s.find_outcome(parent, other),
        s.after_remove(parent, name).dirs[parent].len() == s.dirs[parent].len() - 1,
{
    let gone = s.entry_named(parent, name).ino;
    let at = position_of(s.dirs[parent], name);
    assert(s.dirs.contains_key(parent));
    assert(s.is_entry(parent, at));
    lemma_remove_valid(s, parent, name);
    lemma_unlink(s, parent, name);
    let u = s.unlinked(parent, name);
    let t = s.after_remove(parent, name);
    assert(t.dirs[parent] == u.dirs[parent]);
    assert(has_name(s.dirs[parent], other) ==> u.entry_named(parent, other) == s.entry_named(
        parent,
        other,
    ));
}

/// The entries that creating `names` one after the other adds to a
/// directory, where `first` is the number of the first new inode.
pub open spec fn created_entries(first: u64, names: Seq<Seq<char>>, kind: FileType) -> Seq<
    EntryView,
> {
    Seq::new(names.len(), |i: int| EntryView { ino: (first + i) as u64, name: names[i], kind })
}

/// Creating entries under names that are new to a directory and differ from
/// one another adds exactly these entries to its listing, in their order:
/// as many entries more as names were given, each name once.
pub proof fn lemma_create_many(s: FsState, parent: u64, names: Seq<Seq<char>>, init: CreateFileAttr)
    requires
        s.valid(),
        s.is_dir(parent),
        s.next_ino + names.len() <= u64::MAX,
        forall|i: int| 0 <= i < names.len() ==> (#[trigger] names[i]).len() > 0 && !has_name(
            s.dirs[parent],
            names[i],
        ),
        forall|i: int, j: int| 0 <= i < j < names.len() ==> #[trigger] names[i] != #[trigger] names[j],
    ensures
        s.after_creates(parent, names, init).valid(),
        s.after_creates(parent, names, init).is_dir(parent),
        s.after_creates(parent, names, init).next_ino == s.next_ino + names.len(),
        s.after_creates(parent, names, init).listing(parent, 0) == s.listing(parent, 0)
            + created_entries(s.next_ino, names, init.kind),
        s.after_creates(parent, names, init).listing(parent, 0).len() == s.listing(parent, 0).len()
            + names.len(),
        names_unique(s.after_creates(parent, names, init).listing(parent, 0)),
    decreases names.len(),
{
    assert(s.dirs.contains_key(parent));
    if names.len() == 0 {
        assert(s.listing(parent, 0) =~= s.dirs[parent]);
        assert(s.listing(parent, 0) + created_entries(s.next_ino, names, init.kind)
            =~= s.listing(parent, 0));
    } else {
        let before = names.drop_last();
        let name = names.last();
        let count = before.len() as int;
        lemma_create_many(s, parent, before, init);
        let m = s.after_creates(parent, before, init);
        assert(m.dirs.contains_key(parent));
        assert(m.listing(parent, 0) =~= m.dirs[parent]);
        let old_entries = s.listing(parent, 0);
        let made = created_entries(s.next_ino, before, init.kind);
        assert(!has_name(m.dirs[parent], name)) by {
            assert forall|i: int| 0 <= i < m.dirs[parent].len() implies (
            #[trigger] m.dirs[parent][i]).name != name by {
                if i < old_entries.len() {
                    assert(old_entries[i] == s.dirs[parent][i]);
                    assert(!has_name(s.dirs[parent], names[count]));
                } else {
                    assert(m.dirs[parent][i] == made[i - old_entries.len()]);
                    assert(names[i - old_entries.len()] != names[count]);
                }
            }
        }
        lemma_create_visible(m, parent, name, init);
        let t = m.after_create(parent, name, init);
        assert(t.dirs.contains_key(parent));
        assert(t.listing(parent, 0) =~= old_entries + created_entries(
            s.next_ino,
            names,
            init.kind,
        ));
        lemma_listing_stable(t, parent, 0);
    }
}

/// Going up from an inode leads through directories only: every inode on
/// the way after the first is a directory.
pub proof fn lemma_way_up_is_directories(s: FsState, ino: u64, steps: nat)
    requires
        s.coherent(),
        steps > 0,
    ensures
        s.is_dir(s.ancestor(ino, steps)),
    decreases steps,
{
    let up = s.parent_of(ino);
    assert(s.ancestor(ino, steps) == s.ancestor(up, (steps - 1) as nat));
    if steps == 1 {
        assert(s.ancestor(up, 0) == up);
        if s.parents.contains_key(ino) {
            assert(s.has_link(up, ino));
            assert(s.dirs.contains_key(up));
        }
    } else {
        lemma_way_up_is_directories(s, up, (steps - 1) as nat);
    }
}

/// Nothing lies within an inode that is not a directory but that inode, and
/// the root lies within nothing but itself; so a rename of a file, or to a
/// name under the root, is never refused for moving a directory to within
/// itself.
pub proof fn lemma_within_file_or_above_root(s: FsState, top: u64, ino: u64)
    requires
        s.valid(),
        s.is_file(top) || ino == ROOT_INODE,
    ensures
        s.is_within(top, ino) <==> top == ino,
{
    lemma_root_has_no_parent(s);
    if top == ino {
        assert(s.ancestor(ino, 0) == top);
    } else {
        assert forall|steps: nat| #[trigger] s.ancestor(ino, steps) != top by {
            if steps > 0 {
                if ino == ROOT_INODE {
                    lemma_ancestor_of_top(s, ino, steps);
                } else {
                    lemma_way_up_is_directories(s, ino, steps);
                }
            }
        }
    }
}

/// Creating an entry leaves every other entry as it was: other names of the
/// same directory, and all names of other directories, are found as before,
/// and every inode that existed keeps its attributes and content.
pub proof fn lemma_create_keeps_others(
    s: FsState,
    parent: u64,
    name: Seq<char>,
    init: CreateFileAttr,
    dir: u64,
    other: Seq<char>,
)
    requires
        s.valid(),
        s.create_outcome(parent, name, init) is Ok,
        s.attrs.contains_key(dir),
        dir != parent || other != name,
    ensures
        s.after_create(parent, name, init).find_outcome(dir, other) == s.find_outcome(dir, other),
        s.after_create(parent, name, init).has_entry(dir, other) == s.has_entry(dir, other),
        forall|ino: u64| #[trigger]
            s.attrs.contains_key(ino) ==> s.after_create(parent, name, init).attrs.contains_key(ino)
                && s.after_create(parent, name, init).attrs[ino] == s.attrs[ino] && s.after_create(
                parent,
                name,
                init,
            ).content_len(ino) == s.content_len(ino),
        forall|ino: u64| #[trigger]
            s.files.contains_key(ino) ==> s.after_create(parent, name, init).files[ino]
                == s.files[ino],
{
    let t = s.after_create(parent, name, init);
    let entry = EntryView { ino: s.next_ino, name, kind: init.kind };
    assert(!s.attrs.contains_key(s.next_ino));
    assert(s.dirs.contains_key(parent));
    assert(s.dirs.contains_key(dir) <==> s.is_dir(dir));
    assert(!s.dirs.contains_key(s.next_ino));
    assert(!s.files.contains_key(s.next_ino));
    if s.is_dir(dir) {
        if dir == parent {
            lemma_push_keeps_unique(s.dirs[parent], entry);
            let old_entries = s.dirs[parent];
            let new_entries = t.dirs[parent];
            assert(new_entries == old_entries.push(entry));
            if has_name(old_entries, other) {
                let at = position_of(old_entries, other);
                assert(new_entries[at] == old_entries[at]);
                lemma_position_of(new_entries, at);
            }
            if has_name(new_entries, other) {
                let at = position_of(new_entries, other);
                assert(at < old_entries.len());
                assert(old_entries[at].name == other);
            }
        } else {
            assert(t.dirs[dir] == s.dirs[dir]);
        }
    }
    assert forall|ino: u64| #[trigger] s.attrs.contains_key(ino) implies t.content_len(ino)
        == s.content_len(ino) by {
        assert(s.files.contains_key(ino) <==> s.is_file(ino));
    }
}

/// Renaming leaves every other entry as it was: a name other than the two
/// of the rename, in a directory that the rename does not replace, is found
/// after the rename as it was before.
pub proof fn lemma_rename_keeps_others(
    s: FsState,
    old_parent: u64,
    old_name: Seq<char>,
    new_parent: u64,
    new_name: Seq<char>,
    dir: u64,
    other: Seq<char>,
)
    requires
        s.valid(),
        s.rename_outcome(old_parent, old_name, new_parent, new_name) is Ok,
        s.is_dir(dir),
        !(dir == old_parent && other == old_name),
        !(dir == new_parent && other == new_name),
        !(s.has_entry(new_parent, new_name) && s.entry_named(new_parent, new_name).ino == dir),
    ensures
        s.after_rename(old_parent, old_name, new_parent, new_name).find_outcome(dir, other)
            == s.find_outcome(dir, other),
{
    let t = s.after_rename(old_parent, old_name, new_parent, new_name);
    let source = s.entry_named(old_parent, old_name);
    assert(s.dirs.contains_key(dir));
    assert(s.dirs.contains_key(old_parent));
    assert(s.dirs.contains_key(new_parent));
    assert(s.is_entry(old_parent, position_of(s.dirs[old_parent], old_name)));
    let replaces = has_name(s.dirs[new_parent], new_name) && s.entry_named(
        new_parent,
        new_name,
    ).ino != source.ino;
    if has_name(s.dirs[new_parent], new_name) && !replaces {
    } else {
        // The state in which the move starts: the old one, or the one
        // without what the new name pointed to.
        let m = if replaces {
            s.after_remove(new_parent, new_name)
        } else {
            s
        };
        if replaces {
            lemma_rename_target_removed(s, old_parent, old_name, new_parent, new_name);
            lemma_unlink(s, new_parent, new_name);
            let u0 = s.unlinked(new_parent, new_name);
            assert(m.dirs[dir] == u0.dirs[dir]);
            if dir != new_parent {
                assert(u0.dirs[dir] == s.dirs[dir]);
            }
            assert(m.find_outcome(dir, other) == s.find_outcome(dir, other));
        }
        assert(m.valid());
        assert(m.dirs.contains_key(old_parent));
        assert(m.dirs.contains_key(new_parent));
        assert(m.is_dir(dir));
        lemma_unlink(m, old_parent, old_name);
        let u = m.unlinked(old_parent, old_name);
        if dir != old_parent {
            assert(u.dirs[dir] == m.dirs[dir]);
        }
        assert(!has_name(u.dirs[new_parent], new_name)) by {
            if new_parent != old_parent {
                assert(u.dirs[new_parent] == m.dirs[new_parent]);
            }
        }
        lemma_within_frame(m, u, source.ino, new_parent);
        lemma_link(u, source.ino, new_parent, new_name);
        if dir != new_parent {
            assert(t.dirs[dir] == u.dirs[dir]);
        }
        assert(t.find_outcome(dir, other) == m.find_outcome(dir, other));
    }
}

/// What a truncation changes: the content of the inode, which is the old
/// content cut or grown with zeros, and its size, and nothing else.
pub proof fn lemma_truncate_visible(s: FsState, ino: u64, size: u64)
    requires
        s.valid(),
        s.truncate_outcome(ino, size) is Ok,
    ensures
        s.after_truncate(ino, size).valid(),
        s.after_truncate(ino, size).attrs[ino].size == size,
        s.after_truncate(ino, size).files[ino].len() == size,
        forall|i: int|
            0 <= i < size ==> s.after_truncate(ino, size).files[ino][i] == if i
                < s.files[ino].len() {
                s.files[ino][i]
            } else {
                0u8
            },
        s.after_truncate(ino, size).dirs == s.dirs,
        forall|other: u64|
            other != ino ==> s.after_truncate(ino, size).attrs.contains_key(other)
                == s.attrs.contains_key(other) && s.after_truncate(ino, size).attrs[other]
                == s.attrs[other] && s.after_truncate(ino, size).files[other] == s.files[other],
{
    assert(s.files.contains_key(ino));
    lemma_with_content_valid(s, ino, resized(s.files[ino], size as nat));
}

} // verus!
