//! Why every operation keeps the engine consistent.
//!
//! An operation on entries is made of three steps: taking an entry away,
//! which leaves one inode without an entry; dropping such an inode; and
//! giving such an inode a new entry. Each step is shown to keep what it
//! must, and the operations follow.

use vstd::prelude::*;
use crate::encryptedfs::content::resized;
use crate::encryptedfs::dir_table::{
    has_name, lemma_position_of, lemma_push_keeps_unique, lemma_remove_keeps_unique, names_unique,
    position_of, tables_wf,
};
use crate::encryptedfs::inode_store::table_wf;
use crate::encryptedfs::state::FsState;
use crate::encryptedfs::types::{CreateFileAttr, EntryView, SetFileAttr, ROOT_INODE};

verus! {

/// A new engine is consistent.
pub proof fn lemma_initial_valid()
    ensures
        FsState::initial().valid(),
{
    let s = FsState::initial();
    assert(s.attrs.contains_key(ROOT_INODE));
    assert(names_unique(Seq::<EntryView>::empty()));
    assert forall|ino: u64| #[trigger] s.dirs.contains_key(ino) <==> s.is_dir(ino) by {}
    let rank = |ino: u64| 0nat;
    assert(s.ranked(rank));
}

/// Going up one step more is going to the parent of where one was.
pub proof fn lemma_ancestor_step(s: FsState, ino: u64, steps: nat)
    ensures
        s.ancestor(ino, steps + 1) == s.parent_of(s.ancestor(ino, steps)),
    decreases steps,
{
    let up = s.parent_of(ino);
    assert(s.ancestor(ino, steps + 1) == s.ancestor(up, steps));
    if steps == 0 {
        assert(s.ancestor(up, 0) == up);
        assert(s.ancestor(ino, 0) == ino);
    } else {
        lemma_ancestor_step(s, up, (steps - 1) as nat);
        assert(s.ancestor(ino, steps) == s.ancestor(up, (steps - 1) as nat));
    }
}

/// From an inode without a parent of its own, going up stays at the root.
pub proof fn lemma_ancestor_of_top(s: FsState, ino: u64, steps: nat)
    requires
        !s.parents.contains_key(ROOT_INODE),
        !s.parents.contains_key(ino),
        steps > 0,
    ensures
        s.ancestor(ino, steps) == ROOT_INODE,
    decreases steps,
{
    assert(s.parent_of(ino) == ROOT_INODE);
    assert(s.ancestor(ino, steps) == s.ancestor(ROOT_INODE, (steps - 1) as nat));
    if steps > 1 {
        lemma_ancestor_of_top(s, ROOT_INODE, (steps - 1) as nat);
    } else {
        assert(s.ancestor(ROOT_INODE, 0) == ROOT_INODE);
    }
}

/// Once the way up has reached the root it stays there.
pub proof fn lemma_ancestor_past_root(s: FsState, ino: u64, reached: nat, steps: nat)
    requires
        !s.parents.contains_key(ROOT_INODE),
        s.ancestor(ino, reached) == ROOT_INODE,
        steps >= reached,
    ensures
        s.ancestor(ino, steps) == ROOT_INODE,
    decreases steps - reached,
{
    if steps > reached {
        lemma_ancestor_past_root(s, ino, reached, (steps - 1) as nat);
        lemma_ancestor_step(s, ino, (steps - 1) as nat);
    }
}

/// On the way up from an inode, every inode after the first is the root or
/// has a smaller rank than the one the way started from.
pub proof fn lemma_way_up_ranks(s: FsState, rank: spec_fn(u64) -> nat, ino: u64, steps: nat)
    requires
        s.ranked(rank),
        !s.parents.contains_key(ROOT_INODE),
        steps > 0,
    ensures
        s.ancestor(ino, steps) == ROOT_INODE || rank(s.ancestor(ino, steps)) < rank(ino),
    decreases steps,
{
    if s.parents.contains_key(ino) {
        let up = s.parents[ino];
        assert(s.parent_of(ino) == up);
        assert(s.ancestor(ino, steps) == s.ancestor(up, (steps - 1) as nat));
        assert(rank(up) < rank(ino));
        if steps > 1 {
            lemma_way_up_ranks(s, rank, up, (steps - 1) as nat);
        } else {
            assert(s.ancestor(up, 0) == up);
        }
    } else {
        lemma_ancestor_of_top(s, ino, steps);
    }
}

/// Two states whose records of parents differ for one inode only have the
/// same way up from an inode as far as the way does not pass that one.
pub proof fn lemma_way_up_frame(s: FsState, t: FsState, changed: u64, ino: u64, steps: nat)
    requires
        forall|other: u64| other != changed ==> s.parent_of(other) == t.parent_of(other),
        forall|sooner: nat| sooner < steps ==> #[trigger] s.ancestor(ino, sooner) != changed,
    ensures
        t.ancestor(ino, steps) == s.ancestor(ino, steps),
    decreases steps,
{
    if steps > 0 {
        assert(s.ancestor(ino, 0) != changed);
        let up = s.parent_of(ino);
        assert forall|sooner: nat| sooner < steps - 1 implies #[trigger] s.ancestor(up, sooner)
            != changed by {
            assert(s.ancestor(ino, sooner + 1) != changed);
        }
        lemma_way_up_frame(s, t, changed, up, (steps - 1) as nat);
    }
}

/// Where an inode does not lie within another in one state, it does not in
/// a state whose record of parents differs for that other inode only.
pub proof fn lemma_within_frame(s: FsState, t: FsState, top: u64, ino: u64)
    requires
        forall|other: u64| other != top ==> s.parent_of(other) == t.parent_of(other),
        !s.is_within(top, ino),
    ensures
        !t.is_within(top, ino),
{
    assert forall|steps: nat| #[trigger] t.ancestor(ino, steps) != top by {
        assert forall|sooner: nat| sooner < steps implies #[trigger] s.ancestor(ino, sooner)
            != top by {}
        lemma_way_up_frame(s, t, top, ino, steps);
        assert(s.ancestor(ino, steps) != top);
    }
}

/// Creating an entry keeps the engine consistent.
pub proof fn lemma_create_valid(s: FsState, parent: u64, name: Seq<char>, init: CreateFileAttr)
    requires
        s.valid(),
        s.create_outcome(parent, name, init) is Ok,
    ensures
        s.after_create(parent, name, init).valid(),
{
    let t = s.after_create(parent, name, init);
    let ino = s.next_ino;
    let entry = EntryView { ino, name, kind: init.kind };
    let at = s.dirs[parent].len() as int;
    assert(s.dirs.contains_key(parent));
    assert(!s.attrs.contains_key(ino));
    assert(!s.dirs.contains_key(ino));
    assert(!s.files.contains_key(ino));
    assert(s.attrs.contains_key(ROOT_INODE));
    lemma_push_keeps_unique(s.dirs[parent], entry);
    // Every entry of the new state is the new one or an old one in its place.
    assert forall|d: u64, i: int| #[trigger] t.is_entry(d, i) implies (d == parent && i == at
        && t.dirs[d][i] == entry) || (s.is_entry(d, i) && t.dirs[d][i] == s.dirs[d][i]) by {
        if d == ino {
        } else if d == parent {
        } else {
            assert(t.dirs[d] == s.dirs[d]);
        }
    }
    assert forall|d: u64, i: int| #[trigger] s.is_entry(d, i) implies t.is_entry(d, i)
        && t.dirs[d][i] == s.dirs[d][i] && s.dirs[d][i].ino != ino by {
        assert(s.attrs.contains_key(s.dirs[d][i].ino));
    }
    assert(tables_wf(t.dirs)) by {
        assert forall|d: u64| #[trigger] t.dirs.contains_key(d) implies names_unique(t.dirs[d]) by {
            if d == ino {
            } else if d == parent {
            } else {
                assert(s.dirs.contains_key(d));
            }
        }
    }
    assert forall|ino2: u64| #[trigger] t.dirs.contains_key(ino2) <==> t.is_dir(ino2) by {
        assert(s.dirs.contains_key(ino2) <==> s.is_dir(ino2));
    }
    assert forall|ino2: u64| #[trigger] t.files.contains_key(ino2) <==> t.is_file(ino2) by {
        assert(s.files.contains_key(ino2) <==> s.is_file(ino2));
    }
    assert forall|ino2: u64| #[trigger] t.attrs.contains_key(ino2) implies t.attrs[ino2].nlink == 1
        && t.attrs[ino2].size == t.content_len(ino2) by {
        if ino2 != ino {
            assert(s.attrs.contains_key(ino2));
            assert(s.files.contains_key(ino2) <==> s.is_file(ino2));
        }
    }
    assert forall|d: u64, i: int| #[trigger] t.is_entry(d, i) implies ({
        let e = t.dirs[d][i];
        &&& e.ino != ROOT_INODE
        &&& e.ino != d
        &&& t.attrs.contains_key(e.ino)
        &&& t.attrs[e.ino].kind == e.kind
        &&& t.parents.contains_key(e.ino)
        &&& t.parents[e.ino] == d
    }) by {
        if s.is_entry(d, i) && t.dirs[d][i] == s.dirs[d][i] {
            assert(s.attrs.contains_key(s.dirs[d][i].ino));
        }
    }
    assert forall|d1: u64, i1: int, d2: u64, i2: int|
        #[trigger] t.is_entry(d1, i1) && #[trigger] t.is_entry(d2, i2) && t.dirs[d1][i1].ino
            == t.dirs[d2][i2].ino implies d1 == d2 && i1 == i2 by {
        if s.is_entry(d1, i1) && t.dirs[d1][i1] == s.dirs[d1][i1] {
            assert(s.dirs[d1][i1].ino != ino);
        }
        if s.is_entry(d2, i2) && t.dirs[d2][i2] == s.dirs[d2][i2] {
            assert(s.dirs[d2][i2].ino != ino);
        }
    }
    assert forall|ino2: u64| #[trigger] t.parents.contains_key(ino2) implies t.has_link(
        t.parents[ino2],
        ino2,
    ) by {
        if ino2 == ino {
            assert(t.is_entry(parent, at) && t.dirs[parent][at].ino == ino2);
        } else {
            let d = s.parents[ino2];
            assert(s.has_link(d, ino2));
            let i = choose|i: int| #[trigger] s.is_entry(d, i) && s.dirs[d][i].ino == ino2;
            assert(t.is_entry(d, i) && t.dirs[d][i].ino == ino2);
        }
    }
    assert(t.acyclic()) by {
        let rank = choose|rank: spec_fn(u64) -> nat| #[trigger] s.ranked(rank);
        let above = rank(parent);
        let grown = |n: u64|
            if n == ino {
                (above + 1) as nat
            } else {
                rank(n)
            };
        assert forall|c: u64| #[trigger] t.parents.contains_key(c) implies grown(c) > grown(
            t.parents[c],
        ) by {
            if c != ino {
                let d = s.parents[c];
                assert(s.has_link(d, c));
                assert(s.dirs.contains_key(d));
            }
        }
        assert(t.ranked(grown));
    }
}

/// The place in the table before an entry was taken out at `at` of the entry
/// that stands at `j` afterwards.
pub open spec fn place_before(at: int, j: int) -> int {
    if j < at {
        j
    } else {
        j + 1
    }
}

/// Taking an entry away leaves a coherent engine in which only the inode
/// that the entry pointed to is without an entry.
pub proof fn lemma_unlink(s: FsState, parent: u64, name: Seq<char>)
    requires
        s.valid(),
        s.dirs.contains_key(parent),
        has_name(s.dirs[parent], name),
    ensures
        s.unlinked(parent, name).detached(s.entry_named(parent, name).ino),
        !has_name(s.unlinked(parent, name).dirs[parent], name),
        s.unlinked(parent, name).dirs[parent].len() == s.dirs[parent].len() - 1,
        forall|other: Seq<char>|
            #![trigger has_name(s.dirs[parent], other)]
            other != name ==> (has_name(s.unlinked(parent, name).dirs[parent], other) <==> has_name(
                s.dirs[parent],
                other,
            )),
        forall|other: Seq<char>|
            #![trigger has_name(s.dirs[parent], other)]
            other != name && has_name(s.dirs[parent], other) ==> s.unlinked(
                parent,
                name,
            ).entry_named(parent, other) == s.entry_named(parent, other),
{
    let u = s.unlinked(parent, name);
    let at = position_of(s.dirs[parent], name);
    let gone = s.dirs[parent][at];
    assert(s.is_entry(parent, at));
    lemma_position_of(s.dirs[parent], at);
    lemma_remove_keeps_unique(s.dirs[parent], at);
    // Every entry that is left stood in the old state, one place further on
    // where it came after the one that went.
    assert forall|d: u64, j: int| #[trigger] u.is_entry(d, j) implies ({
        let j0 = if d == parent { place_before(at, j) } else { j };
        s.is_entry(d, j0) && u.dirs[d][j] == s.dirs[d][j0] && !(d == parent && j0 == at)
    }) by {
        if d != parent {
            assert(u.dirs[d] == s.dirs[d]);
        }
    }
    assert forall|d: u64, j0: int| #[trigger] s.is_entry(d, j0) && !(d == parent && j0 == at) implies ({
        let j = if d == parent && j0 > at { j0 - 1 } else { j0 };
        u.is_entry(d, j) && u.dirs[d][j] == s.dirs[d][j0]
    }) by {
        if d != parent {
            assert(u.dirs[d] == s.dirs[d]);
        }
    }
    assert(tables_wf(u.dirs)) by {
        assert forall|d: u64| #[trigger] u.dirs.contains_key(d) implies names_unique(u.dirs[d]) by {
            if d != parent {
                assert(s.dirs.contains_key(d));
            }
        }
    }
    assert forall|ino: u64| #[trigger] u.dirs.contains_key(ino) <==> u.is_dir(ino) by {
        assert(s.dirs.contains_key(ino) <==> s.is_dir(ino));
    }
    assert forall|d: u64, j: int| #[trigger] u.is_entry(d, j) implies ({
        let e = u.dirs[d][j];
        &&& e.ino != ROOT_INODE
        &&& e.ino != d
        &&& u.attrs.contains_key(e.ino)
        &&& u.attrs[e.ino].kind == e.kind
        &&& u.parents.contains_key(e.ino)
        &&& u.parents[e.ino] == d
    }) by {
        let j0 = if d == parent { place_before(at, j) } else { j };
        assert(s.is_entry(d, j0));
    }
    assert forall|d1: u64, i1: int, d2: u64, i2: int|
        #[trigger] u.is_entry(d1, i1) && #[trigger] u.is_entry(d2, i2) && u.dirs[d1][i1].ino
            == u.dirs[d2][i2].ino implies d1 == d2 && i1 == i2 by {
        let a = if d1 == parent { place_before(at, i1) } else { i1 };
        let b = if d2 == parent { place_before(at, i2) } else { i2 };
        assert(s.is_entry(d1, a) && s.is_entry(d2, b));
    }
    assert forall|ino: u64| #[trigger] u.parents.contains_key(ino) implies u.has_link(
        u.parents[ino],
        ino,
    ) by {
        let d = s.parents[ino];
        assert(s.has_link(d, ino));
        let j0 = choose|j0: int| #[trigger] s.is_entry(d, j0) && s.dirs[d][j0].ino == ino;
        let j = if d == parent && j0 > at { j0 - 1 } else { j0 };
        assert(u.is_entry(d, j) && u.dirs[d][j].ino == ino);
    }
    assert(u.acyclic()) by {
        let rank = choose|rank: spec_fn(u64) -> nat| #[trigger] s.ranked(rank);
        assert(u.ranked(rank));
    }
    assert forall|other: Seq<char>| #![trigger has_name(s.dirs[parent], other)] other != name implies (
    has_name(u.dirs[parent], other) <==> has_name(s.dirs[parent], other)) && (has_name(
        s.dirs[parent],
        other,
    ) ==> u.entry_named(parent, other) == s.entry_named(parent, other)) by {
        if has_name(s.dirs[parent], other) {
            let j0 = position_of(s.dirs[parent], other);
            assert(s.is_entry(parent, j0));
            let j = if j0 > at { j0 - 1 } else { j0 };
            assert(u.is_entry(parent, j));
            assert(u.dirs[parent][j] == s.dirs[parent][j0]);
            lemma_position_of(u.dirs[parent], j);
        }
        if has_name(u.dirs[parent], other) {
            let j = position_of(u.dirs[parent], other);
            assert(u.is_entry(parent, j));
            assert(s.dirs[parent][place_before(at, j)].name == other);
        }
    }
}

/// Giving the one inode without an entry a new entry, under a free name in
/// a directory that does not lie within it, makes the engine consistent
/// again.
pub proof fn lemma_link(u: FsState, loose: u64, parent: u64, name: Seq<char>)
    requires
        u.detached(loose),
        u.is_dir(parent),
        !u.is_within(loose, parent),
        name.len() > 0,
        !has_name(u.dirs[parent], name),
    ensures
        u.linked(parent, name, loose).valid(),
        has_name(u.linked(parent, name, loose).dirs[parent], name),
        u.linked(parent, name, loose).entry_named(parent, name) == (EntryView {
            ino: loose,
            name,
            kind: u.attrs[loose].kind,
        }),
        forall|other: Seq<char>|
            #![trigger has_name(u.dirs[parent], other)]
            other != name ==> (has_name(u.linked(parent, name, loose).dirs[parent], other)
                <==> has_name(u.dirs[parent], other)),
        forall|other: Seq<char>|
            #![trigger has_name(u.dirs[parent], other)]
            other != name && has_name(u.dirs[parent], other) ==> u.linked(
                parent,
                name,
                loose,
            ).entry_named(parent, other) == u.entry_named(parent, other),
{
    let t = u.linked(parent, name, loose);
    let entry = EntryView { ino: loose, name, kind: u.attrs[loose].kind };
    let at = u.dirs[parent].len() as int;
    assert(u.dirs.contains_key(parent));
    assert(loose != parent) by {
        assert(u.ancestor(parent, 0) != loose);
    }
    lemma_push_keeps_unique(u.dirs[parent], entry);
    assert forall|d: u64, i: int| #[trigger] t.is_entry(d, i) implies (d == parent && i == at
        && t.dirs[d][i] == entry) || (u.is_entry(d, i) && t.dirs[d][i] == u.dirs[d][i]) by {
        if d != parent {
            assert(t.dirs[d] == u.dirs[d]);
        }
    }
    assert forall|d: u64, i: int| #[trigger] u.is_entry(d, i) implies t.is_entry(d, i)
        && t.dirs[d][i] == u.dirs[d][i] && u.dirs[d][i].ino != loose by {}
    assert(tables_wf(t.dirs)) by {
        assert forall|d: u64| #[trigger] t.dirs.contains_key(d) implies names_unique(t.dirs[d]) by {
            if d != parent {
                assert(u.dirs.contains_key(d));
            }
        }
    }
    assert forall|ino: u64| #[trigger] t.dirs.contains_key(ino) <==> t.is_dir(ino) by {
        assert(u.dirs.contains_key(ino) <==> u.is_dir(ino));
    }
    assert forall|d: u64, i: int| #[trigger] t.is_entry(d, i) implies ({
        let e = t.dirs[d][i];
        &&& e.ino != ROOT_INODE
        &&& e.ino != d
        &&& t.attrs.contains_key(e.ino)
        &&& t.attrs[e.ino].kind == e.kind
        &&& t.parents.contains_key(e.ino)
        &&& t.parents[e.ino] == d
    }) by {
        if u.is_entry(d, i) && t.dirs[d][i] == u.dirs[d][i] {
        }
    }
    assert forall|d1: u64, i1: int, d2: u64, i2: int|
        #[trigger] t.is_entry(d1, i1) && #[trigger] t.is_entry(d2, i2) && t.dirs[d1][i1].ino
            == t.dirs[d2][i2].ino implies d1 == d2 && i1 == i2 by {
        if u.is_entry(d1, i1) && t.dirs[d1][i1] == u.dirs[d1][i1] {
            assert(u.dirs[d1][i1].ino != loose);
        }
        if u.is_entry(d2, i2) && t.dirs[d2][i2] == u.dirs[d2][i2] {
            assert(u.dirs[d2][i2].ino != loose);
        }
    }
    assert forall|ino: u64| #[trigger] t.parents.contains_key(ino) implies t.has_link(
        t.parents[ino],
        ino,
    ) by {
        if ino == loose {
            assert(t.is_entry(parent, at) && t.dirs[parent][at].ino == ino);
        } else {
            let d = u.parents[ino];
            assert(u.has_link(d, ino));
            let i = choose|i: int| #[trigger] u.is_entry(d, i) && u.dirs[d][i].ino == ino;
            assert(t.is_entry(d, i) && t.dirs[d][i].ino == ino);
        }
    }
    assert(t.acyclic()) by {
        // Everything within the moved inode is lifted above its new parent.
        let rank = choose|rank: spec_fn(u64) -> nat| #[trigger] u.ranked(rank);
        let lift = rank(parent) + 1;
        let lifted = |n: u64|
            if u.is_within(loose, n) {
                (rank(n) + lift) as nat
            } else {
                rank(n)
            };
        assert forall|c: u64| #[trigger] t.parents.contains_key(c) implies lifted(c) > lifted(
            t.parents[c],
        ) by {
            if c == loose {
                assert(u.ancestor(loose, 0) == loose);
            } else {
                let d = u.parents[c];
                assert(u.parent_of(c) == d);
                if u.is_within(loose, d) {
                    let k = choose|k: nat| #[trigger] u.ancestor(d, k) == loose;
                    assert(u.ancestor(c, k + 1) == loose);
                }
                if u.is_within(loose, c) {
                    let k = choose|k: nat| #[trigger] u.ancestor(c, k) == loose;
                    assert(k > 0);
                    assert(u.ancestor(d, (k - 1) as nat) == loose);
                }
            }
        }
        assert(t.ranked(lifted));
    }
    assert forall|other: Seq<char>| #![trigger has_name(u.dirs[parent], other)] other != name implies (
    has_name(t.dirs[parent], other) <==> has_name(u.dirs[parent], other)) && (has_name(
        u.dirs[parent],
        other,
    ) ==> t.entry_named(parent, other) == u.entry_named(parent, other)) by {
        if has_name(u.dirs[parent], other) {
            let j = position_of(u.dirs[parent], other);
            assert(t.dirs[parent][j].name == other);
            assert(t.dirs[parent][j] == u.dirs[parent][j]);
            lemma_position_of(t.dirs[parent], j);
        }
        if has_name(t.dirs[parent], other) {
            let j = position_of(t.dirs[parent], other);
            assert(u.dirs[parent][j].name == other);
        }
    }
}

/// Dropping the one inode without an entry, a directory only if it is
/// empty, makes the engine consistent again.
pub proof fn lemma_delete(u: FsState, loose: u64)
    requires
        u.detached(loose),
        !u.is_full_dir(loose),
    ensures
        u.deleted(loose).valid(),
{
    let t = u.deleted(loose);
    assert forall|d: u64, i: int| #[trigger] t.is_entry(d, i) implies u.is_entry(d, i)
        && t.dirs[d][i] == u.dirs[d][i] && u.dirs[d][i].ino != loose by {}
    assert forall|d: u64, i: int| #[trigger] u.is_entry(d, i) implies t.is_entry(d, i)
        && t.dirs[d][i] == u.dirs[d][i] by {}
    assert(tables_wf(t.dirs)) by {
        assert forall|d: u64| #[trigger] t.dirs.contains_key(d) implies names_unique(t.dirs[d]) by {
            assert(u.dirs.contains_key(d));
        }
    }
    assert forall|ino: u64| #[trigger] t.dirs.contains_key(ino) <==> t.is_dir(ino) by {
        assert(u.dirs.contains_key(ino) <==> u.is_dir(ino));
    }
    assert forall|ino: u64| #[trigger] t.files.contains_key(ino) <==> t.is_file(ino) by {
        assert(u.files.contains_key(ino) <==> u.is_file(ino));
    }
    assert forall|ino: u64| #[trigger] t.attrs.contains_key(ino) implies t.attrs[ino].nlink == 1
        && t.attrs[ino].size == t.content_len(ino) by {
        assert(u.attrs.contains_key(ino));
    }
    assert forall|d: u64, i: int| #[trigger] t.is_entry(d, i) implies ({
        let e = t.dirs[d][i];
        &&& e.ino != ROOT_INODE
        &&& e.ino != d
        &&& t.attrs.contains_key(e.ino)
        &&& t.attrs[e.ino].kind == e.kind
        &&& t.parents.contains_key(e.ino)
        &&& t.parents[e.ino] == d
    }) by {
        assert(u.is_entry(d, i));
    }
    assert forall|d1: u64, i1: int, d2: u64, i2: int|
        #[trigger] t.is_entry(d1, i1) && #[trigger] t.is_entry(d2, i2) && t.dirs[d1][i1].ino
            == t.dirs[d2][i2].ino implies d1 == d2 && i1 == i2 by {
        assert(u.is_entry(d1, i1) && u.is_entry(d2, i2));
    }
    assert forall|ino: u64| #[trigger] t.parents.contains_key(ino) implies t.has_link(
        t.parents[ino],
        ino,
    ) by {
        let d = u.parents[ino];
        assert(u.has_link(d, ino));
        let i = choose|i: int| #[trigger] u.is_entry(d, i) && u.dirs[d][i].ino == ino;
        assert(t.is_entry(d, i) && t.dirs[d][i].ino == ino);
    }
    assert(t.acyclic()) by {
        let rank = choose|rank: spec_fn(u64) -> nat| #[trigger] u.ranked(rank);
        assert(t.ranked(rank));
    }
}

/// Removing an entry keeps the engine consistent.
pub proof fn lemma_remove_valid(s: FsState, parent: u64, name: Seq<char>)
    requires
        s.valid(),
        s.remove_outcome(parent, name) is Ok,
    ensures
        s.after_remove(parent, name).valid(),
        !has_name(s.after_remove(parent, name).dirs[parent], name),
        s.after_remove(parent, name).is_dir(parent),
{
    let gone = s.entry_named(parent, name).ino;
    let at = position_of(s.dirs[parent], name);
    assert(s.dirs.contains_key(parent));
    assert(s.is_entry(parent, at));
    lemma_unlink(s, parent, name);
    let u = s.unlinked(parent, name);
    assert(u.dirs.contains_key(gone) ==> u.dirs[gone] == s.dirs[gone]);
    lemma_delete(u, gone);
}

/// Moving an entry to a free name in a directory that does not lie within
/// what is moved keeps the engine consistent, and the new name then points
/// to what the old one pointed to.
pub proof fn lemma_move_valid(
    s: FsState,
    old_parent: u64,
    old_name: Seq<char>,
    new_parent: u64,
    new_name: Seq<char>,
)
    requires
        s.valid(),
        s.is_dir(old_parent),
        s.is_dir(new_parent),
        has_name(s.dirs[old_parent], old_name),
        !has_name(s.dirs[new_parent], new_name),
        new_name.len() > 0,
        !s.is_within(s.entry_named(old_parent, old_name).ino, new_parent),
    ensures
        s.after_move(old_parent, old_name, new_parent, new_name).valid(),
        has_name(s.after_move(old_parent, old_name, new_parent, new_name).dirs[new_parent], new_name),
        s.after_move(old_parent, old_name, new_parent, new_name).entry_named(new_parent, new_name)
            == (EntryView {
            ino: s.entry_named(old_parent, old_name).ino,
            name: new_name,
            kind: s.entry_named(old_parent, old_name).kind,
        }),
        !has_name(s.after_move(old_parent, old_name, new_parent, new_name).dirs[old_parent], old_name),
{
    let source = s.entry_named(old_parent, old_name);
    let at = position_of(s.dirs[old_parent], old_name);
    assert(s.dirs.contains_key(old_parent));
    assert(s.dirs.contains_key(new_parent));
    assert(s.is_entry(old_parent, at));
    lemma_unlink(s, old_parent, old_name);
    let u = s.unlinked(old_parent, old_name);
    assert(!has_name(u.dirs[new_parent], new_name)) by {
        if new_parent != old_parent {
            assert(u.dirs[new_parent] == s.dirs[new_parent]);
        }
    }
    lemma_within_frame(s, u, source.ino, new_parent);
    lemma_link(u, source.ino, new_parent, new_name);
    let t = u.linked(new_parent, new_name, source.ino);
    assert(!has_name(t.dirs[old_parent], old_name)) by {
        if new_parent != old_parent {
            assert(t.dirs[old_parent] == u.dirs[old_parent]);
        }
    }
}

/// Where a rename replaces what the new name points to, removing that
/// leaves a consistent engine in which the entry to move stands as before,
/// the new name is free, and the new parent still does not lie within what
/// is to move.
pub proof fn lemma_rename_target_removed(
    s: FsState,
    old_parent: u64,
    old_name: Seq<char>,
    new_parent: u64,
    new_name: Seq<char>,
)
    requires
        s.valid(),
        s.rename_outcome(old_parent, old_name, new_parent, new_name) is Ok,
        has_name(s.dirs[new_parent], new_name),
        s.entry_named(new_parent, new_name).ino != s.entry_named(old_parent, old_name).ino,
    ensures
        s.remove_outcome(new_parent, new_name) is Ok,
        s.after_remove(new_parent, new_name).valid(),
        s.after_remove(new_parent, new_name).is_dir(old_parent),
        s.after_remove(new_parent, new_name).is_dir(new_parent),
        has_name(s.after_remove(new_parent, new_name).dirs[old_parent], old_name),
        !has_name(s.after_remove(new_parent, new_name).dirs[new_parent], new_name),
        s.after_remove(new_parent, new_name).entry_named(old_parent, old_name) == s.entry_named(
            old_parent,
            old_name,
        ),
        !s.after_remove(new_parent, new_name).attrs.contains_key(
            s.entry_named(new_parent, new_name).ino,
        ),
        !s.after_remove(new_parent, new_name).is_within(
            s.entry_named(old_parent, old_name).ino,
            new_parent,
        ),
{
    let source = s.entry_named(old_parent, old_name);
    let target = s.entry_named(new_parent, new_name);
    let from = position_of(s.dirs[old_parent], old_name);
    let to = position_of(s.dirs[new_parent], new_name);
    assert(s.dirs.contains_key(old_parent));
    assert(s.dirs.contains_key(new_parent));
    assert(s.is_entry(old_parent, from));
    assert(s.is_entry(new_parent, to));
    assert(!(old_parent == new_parent && old_name == new_name));
    assert(s.is_full_dir(old_parent));
    lemma_unlink(s, new_parent, new_name);
    let u = s.unlinked(new_parent, new_name);
    assert(u.dirs.contains_key(target.ino) ==> u.dirs[target.ino] == s.dirs[target.ino]);
    lemma_delete(u, target.ino);
    let s1 = s.after_remove(new_parent, new_name);
    assert(s1.dirs[new_parent] == u.dirs[new_parent]);
    assert(s1.dirs[old_parent] == u.dirs[old_parent]);
    if old_parent != new_parent {
        assert(u.dirs[old_parent] == s.dirs[old_parent]);
    }
    // The way up from the new parent does not pass what is removed, which
    // lies below it; so it is the same way afterwards.
    lemma_root_has_no_parent(s);
    let rank = choose|rank: spec_fn(u64) -> nat| #[trigger] s.ranked(rank);
    assert(s.parents.contains_key(target.ino) && s.parents[target.ino] == new_parent);
    assert(s1.parents =~= s.parents.remove(target.ino));
    assert forall|steps: nat| #[trigger] s1.ancestor(new_parent, steps) != source.ino by {
        assert forall|sooner: nat| sooner < steps implies #[trigger] s.ancestor(
            new_parent,
            sooner,
        ) != target.ino by {
            if sooner > 0 {
                lemma_way_up_ranks(s, rank, new_parent, sooner);
            }
        }
        lemma_way_up_frame(s, s1, target.ino, new_parent, steps);
        assert(s.ancestor(new_parent, steps) != source.ino);
    }
}

/// No entry points to the root, so that the root has no parent.
pub proof fn lemma_root_has_no_parent(s: FsState)
    requires
        s.coherent(),
    ensures
        !s.parents.contains_key(ROOT_INODE),
{
    if s.parents.contains_key(ROOT_INODE) {
        let d = s.parents[ROOT_INODE];
        assert(s.has_link(d, ROOT_INODE));
        let i = choose|i: int| #[trigger] s.is_entry(d, i) && s.dirs[d][i].ino == ROOT_INODE;
        assert(s.is_entry(d, i));
    }
}

/// Renaming keeps the engine consistent. Afterwards the new name points to
/// what the old name pointed to; the old name is gone, unless it is the new
/// name; and what the new name pointed to before is gone with its inode,
/// unless it was the renamed entry itself.
pub proof fn lemma_rename_valid(
    s: FsState,
    old_parent: u64,
    old_name: Seq<char>,
    new_parent: u64,
    new_name: Seq<char>,
)
    requires
        s.valid(),
        s.rename_outcome(old_parent, old_name, new_parent, new_name) is Ok,
    ensures
        s.after_rename(old_parent, old_name, new_parent, new_name).valid(),
        has_name(
            s.after_rename(old_parent, old_name, new_parent, new_name).dirs[new_parent],
            new_name,
        ),
        s.after_rename(old_parent, old_name, new_parent, new_name).entry_named(
            new_parent,
            new_name,
        ).ino == s.entry_named(old_parent, old_name).ino,
        s.after_rename(old_parent, old_name, new_parent, new_name).entry_named(
            new_parent,
            new_name,
        ).kind == s.entry_named(old_parent, old_name).kind,
        !(old_parent == new_parent && old_name == new_name) ==> !has_name(
            s.after_rename(old_parent, old_name, new_parent, new_name).dirs[old_parent],
            old_name,
        ),
        has_name(s.dirs[new_parent], new_name) && s.entry_named(new_parent, new_name).ino
            != s.entry_named(old_parent, old_name).ino ==> !s.after_rename(
            old_parent,
            old_name,
            new_parent,
            new_name,
        ).attrs.contains_key(s.entry_named(new_parent, new_name).ino),
{
    let source = s.entry_named(old_parent, old_name);
    let from = position_of(s.dirs[old_parent], old_name);
    assert(s.dirs.contains_key(old_parent));
    assert(s.dirs.contains_key(new_parent));
    assert(s.is_entry(old_parent, from));
    if !has_name(s.dirs[new_parent], new_name) {
        lemma_move_valid(s, old_parent, old_name, new_parent, new_name);
    } else {
        let target = s.entry_named(new_parent, new_name);
        let to = position_of(s.dirs[new_parent], new_name);
        assert(s.is_entry(new_parent, to));
        if target.ino == source.ino {
            assert(old_parent == new_parent && from == to);
        } else {
            lemma_rename_target_removed(s, old_parent, old_name, new_parent, new_name);
            lemma_move_valid(
                s.after_remove(new_parent, new_name),
                old_parent,
                old_name,
                new_parent,
                new_name,
            );
        }
    }
}

/// A state that differs from a consistent one in attributes only, and in
/// those neither in kind nor in link count, is consistent where the sizes
/// are those of the contents.
proof fn lemma_attrs_changed(s: FsState, t: FsState)
    requires
        s.valid(),
        t.dirs == s.dirs,
        t.parents == s.parents,
        t.next_ino == s.next_ino,
        t.files.dom() == s.files.dom(),
        t.attrs.dom() == s.attrs.dom(),
        forall|ino: u64| #[trigger]
            s.attrs.contains_key(ino) ==> t.attrs[ino].ino == ino && t.attrs[ino].kind
                == s.attrs[ino].kind && t.attrs[ino].nlink == 1 && t.attrs[ino].size
                == t.content_len(ino),
    ensures
        t.valid(),
{
    assert(s.attrs.contains_key(ROOT_INODE));
    assert forall|d: u64, i: int| #[trigger] t.is_entry(d, i) <==> s.is_entry(d, i) by {}
    assert forall|ino: u64| #[trigger] t.attrs.contains_key(ino) <==> s.attrs.contains_key(ino) by {}
    assert forall|ino: u64| #[trigger] t.files.contains_key(ino) <==> s.files.contains_key(ino) by {}
    assert(table_wf(t.attrs, t.next_ino)) by {
        assert forall|ino: u64| #[trigger] t.attrs.contains_key(ino) implies t.attrs[ino].ino
            == ino && ROOT_INODE <= ino < t.next_ino by {
            assert(s.attrs.contains_key(ino));
        }
    }
    assert forall|ino: u64| #[trigger] t.dirs.contains_key(ino) <==> t.is_dir(ino) by {
        assert(s.dirs.contains_key(ino) <==> s.is_dir(ino));
        assert(s.attrs.contains_key(ino) <==> t.attrs.contains_key(ino));
    }
    assert forall|ino: u64| #[trigger] t.files.contains_key(ino) <==> t.is_file(ino) by {
        assert(s.files.contains_key(ino) <==> s.is_file(ino));
        assert(s.attrs.contains_key(ino) <==> t.attrs.contains_key(ino));
    }
    assert forall|ino: u64| #[trigger] t.attrs.contains_key(ino) implies t.attrs[ino].nlink == 1
        && t.attrs[ino].size == t.content_len(ino) by {
        assert(s.attrs.contains_key(ino));
    }
    assert forall|d: u64, i: int| #[trigger] t.is_entry(d, i) implies ({
        let e = t.dirs[d][i];
        &&& e.ino != ROOT_INODE
        &&& e.ino != d
        &&& t.attrs.contains_key(e.ino)
        &&& t.attrs[e.ino].kind == e.kind
        &&& t.parents.contains_key(e.ino)
        &&& t.parents[e.ino] == d
    }) by {
        assert(s.is_entry(d, i));
        assert(s.attrs.contains_key(s.dirs[d][i].ino));
    }
    assert forall|d1: u64, i1: int, d2: u64, i2: int|
        #[trigger] t.is_entry(d1, i1) && #[trigger] t.is_entry(d2, i2) && t.dirs[d1][i1].ino
            == t.dirs[d2][i2].ino implies d1 == d2 && i1 == i2 by {
        assert(s.is_entry(d1, i1) && s.is_entry(d2, i2));
    }
    assert forall|ino: u64| #[trigger] t.parents.contains_key(ino) implies t.has_link(
        t.parents[ino],
        ino,
    ) by {
        let d = s.parents[ino];
        assert(s.has_link(d, ino));
        let i = choose|i: int| #[trigger] s.is_entry(d, i) && s.dirs[d][i].ino == ino;
        assert(t.is_entry(d, i) && t.dirs[d][i].ino == ino);
    }
    assert(t.acyclic()) by {
        let rank = choose|rank: spec_fn(u64) -> nat| #[trigger] s.ranked(rank);
        assert(t.ranked(rank));
    }
    assert forall|ino: u64| #[trigger]
        t.attrs.contains_key(ino) && ino != ROOT_INODE implies t.parents.contains_key(ino) by {
        assert(s.attrs.contains_key(ino));
    }
}

/// Giving a file other content, with the size that goes with it, keeps the
/// engine consistent.
pub proof fn lemma_with_content_valid(s: FsState, ino: u64, content: Seq<u8>)
    requires
        s.valid(),
        s.is_file(ino),
        content.len() <= u64::MAX,
    ensures
        s.with_content(ino, content).valid(),
{
    let t = s.with_content(ino, content);
    assert(s.files.contains_key(ino));
    assert(t.files.dom() =~= s.files.dom());
    assert(t.attrs.dom() =~= s.attrs.dom());
    assert forall|other: u64| #[trigger] s.attrs.contains_key(other) implies t.attrs[other].ino
        == other && t.attrs[other].kind == s.attrs[other].kind && t.attrs[other].nlink == 1
        && t.attrs[other].size == t.content_len(other) by {
        assert(s.files.contains_key(other) <==> s.is_file(other));
    }
    lemma_attrs_changed(s, t);
}

/// Changing attributes keeps the engine consistent.
pub proof fn lemma_update_valid(s: FsState, ino: u64, set: SetFileAttr)
    requires
        s.valid(),
        s.update_outcome(ino, set) is Ok,
    ensures
        s.after_update(ino, set).valid(),
{
    let sized = match set.size {
        Some(size) => s.after_truncate(ino, size),
        None => s,
    };
    match set.size {
        Some(size) => {
            lemma_with_content_valid(s, ino, resized(s.files[ino], size as nat));
        },
        None => {},
    }
    let t = s.after_update(ino, set);
    assert(sized.attrs.contains_key(ino));
    assert(t.attrs.dom() =~= sized.attrs.dom());
    assert forall|other: u64| #[trigger] sized.attrs.contains_key(other) implies t.attrs[other].ino
        == other && t.attrs[other].kind == sized.attrs[other].kind && t.attrs[other].nlink == 1
        && t.attrs[other].size == t.content_len(other) by {
        assert(s.attrs.contains_key(other));
    }
    lemma_attrs_changed(sized, t);
}

} // verus!
