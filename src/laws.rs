//! What holds across passes: idempotence, incremental rewrites, eviction of
//! deleted files, and invalidation by a schema bump.
use vstd::prelude::*;
use vstd::utf8::{encode_utf8, encode_utf8_decode_utf8};
use crate::cache::{keys_not_in, KeyView};
use crate::hashing::{content_hash_of, semantic_input};
use crate::indexer::{entry_key, entry_keys, keys_to_write, walk_call, walk_calls, PassView};
use crate::writer::{delete_calls, WriterCall};
use crate::repo::RepoDirectoryEntry;

verus! {

/// Whether the entries' normalized paths are pairwise distinct, as those of
/// one walk are.
pub open spec fn distinct_paths(c: PassView, entries: Seq<RepoDirectoryEntry>) -> bool {
    forall|a: int, b: int|
        0 <= a < entries.len() && 0 <= b < entries.len() && a != b ==> (#[trigger] entry_key(
            c,
            entries[a],
        )).1 != (#[trigger] entry_key(c, entries[b])).1
}

/// An entry's cache key depends on the pass and on the entry's path and
/// content alone: two entries that agree in both get the same key, in any
/// pass, process or order.
pub proof fn lemma_key_deterministic(c: PassView, a: RepoDirectoryEntry, b: RepoDirectoryEntry)
    requires
        a.path_spec() == b.path_spec(),
        a.content_spec() == b.content_spec(),
    ensures
        entry_key(c, a) == entry_key(c, b),
{
}

/// Where nothing is removed, every key stays.
pub proof fn lemma_nothing_removed(keys: Seq<KeyView>)
    ensures
        keys_not_in(keys, Seq::empty()) == keys,
    decreases keys.len(),
{
    if keys.len() > 0 {
        lemma_nothing_removed(keys.drop_last());
        assert(keys.drop_last().push(keys.last()) =~= keys);
    }
}

proof fn lemma_nothing_outside(keys: Seq<KeyView>, other: Seq<KeyView>)
    requires
        forall|k: KeyView| keys.contains(k) ==> other.contains(k),
    ensures
        keys_not_in(keys, other) == Seq::<KeyView>::empty(),
    decreases keys.len(),
{
    if keys.len() > 0 {
        assert(keys.contains(keys.last()));
        assert forall|k: KeyView| keys.drop_last().contains(k) implies other.contains(k) by {
            let j = choose|j: int| 0 <= j < keys.drop_last().len() && keys.drop_last()[j] == k;
            assert(keys[j] == k);
        }
        lemma_nothing_outside(keys.drop_last(), other);
    }
}

proof fn lemma_all_cached(c: PassView, snapshot: Seq<KeyView>, entries: Seq<RepoDirectoryEntry>)
    requires
        forall|j: int| 0 <= j < entries.len() ==> snapshot.contains(#[trigger] entry_key(c, entries[j])),
    ensures
        keys_to_write(c, snapshot, entries) == Seq::<KeyView>::empty(),
    decreases entries.len(),
{
    if entries.len() > 0 {
        let d = entries.drop_last();
        assert forall|j: int| 0 <= j < d.len() implies snapshot.contains(#[trigger] entry_key(c, d[j])) by {
            assert(d[j] == entries[j]);
        }
        lemma_all_cached(c, snapshot, d);
        assert(snapshot.contains(entry_key(c, entries[entries.len() - 1])));
    }
}

proof fn lemma_walk_keys_cached(c: PassView, entries: Seq<RepoDirectoryEntry>)
    ensures
        keys_to_write(c, entry_keys(c, entries), entries) == Seq::<KeyView>::empty(),
{
    assert forall|j: int| 0 <= j < entries.len() implies entry_keys(c, entries).contains(
        #[trigger] entry_key(c, entries[j]),
    ) by {
        assert(entry_keys(c, entries)[j] == entry_key(c, entries[j]));
    }
    lemma_all_cached(c, entry_keys(c, entries), entries);
}

/// A second pass over an unchanged walk writes nothing and evicts nothing.
///
/// The first pass, having abandoned no file, left the store holding the keys
/// of the walk. The second pass then finds every file fresh; whatever it
/// abandoned it had written, so it abandons nothing, keeps every key, and
/// evicts none.
pub proof fn lemma_unchanged_pass_is_idle(
    c: PassView,
    entries: Seq<RepoDirectoryEntry>,
    abandoned: Seq<KeyView>,
)
    requires
        forall|k: KeyView|
            abandoned.contains(k) ==> keys_to_write(
                c,
                keys_not_in(entry_keys(c, entries), Seq::empty()),
                entries,
            ).contains(k),
    ensures
        ({
            let store = keys_not_in(entry_keys(c, entries), Seq::empty());
            &&& keys_to_write(c, store, entries) == Seq::<KeyView>::empty()
            &&& keys_not_in(entry_keys(c, entries), abandoned) == store
            &&& keys_not_in(store, keys_not_in(entry_keys(c, entries), abandoned))
                == Seq::<KeyView>::empty()
        }),
{
    let keys = entry_keys(c, entries);
    lemma_nothing_removed(keys);
    lemma_walk_keys_cached(c, entries);
    assert(abandoned =~= Seq::<KeyView>::empty()) by {
        if abandoned.len() > 0 {
            assert(abandoned.contains(abandoned[0]));
        }
    }
    lemma_nothing_outside(keys, keys);
}

proof fn lemma_one_changed_prefix(
    c: PassView,
    snapshot: Seq<KeyView>,
    before: Seq<RepoDirectoryEntry>,
    after: Seq<RepoDirectoryEntry>,
    i: int,
    m: int,
)
    requires
        before.len() == after.len(),
        0 <= i < after.len(),
        0 <= m <= after.len(),
        forall|j: int| 0 <= j < after.len() && j != i ==> after[j] == before[j],
        forall|j: int|
            0 <= j < before.len() && j != i ==> snapshot.contains(#[trigger] entry_key(c, before[j])),
        after[i] is File,
        !snapshot.contains(entry_key(c, after[i])),
    ensures
        keys_to_write(c, snapshot, after.take(m)) == if m <= i {
            Seq::<KeyView>::empty()
        } else {
            seq![entry_key(c, after[i])]
        },
    decreases m,
{
    if m > 0 {
        lemma_one_changed_prefix(c, snapshot, before, after, i, m - 1);
        assert(after.take(m).drop_last() =~= after.take(m - 1));
        assert(after.take(m).last() == after[m - 1]);
        if m - 1 != i {
            assert(snapshot.contains(entry_key(c, before[m - 1])));
        }
    } else {
        assert(after.take(m) =~= Seq::<RepoDirectoryEntry>::empty());
    }
}

/// Changing the content of exactly one file rewrites exactly that file.
///
/// After a clean pass, the store holds the keys of the walk. A second walk
/// that differs only in the content of the file at `i`, to a content with
/// another hash, has the documents of that file written and every other file
/// skipped as fresh: the changed file's new key is not in the store, so a
/// pass that does not abandon it hands the writer each of its snippets.
pub proof fn lemma_one_file_changed(
    c: PassView,
    before: Seq<RepoDirectoryEntry>,
    after: Seq<RepoDirectoryEntry>,
    i: int,
)
    requires
        before.len() == after.len(),
        0 <= i < before.len(),
        forall|j: int| 0 <= j < before.len() && j != i ==> after[j] == before[j],
        before[i] is File,
        after[i] is File,
        after[i].path_spec() == before[i].path_spec(),
        content_hash_of(after[i].content_spec()) != content_hash_of(before[i].content_spec()),
        distinct_paths(c, before),
    ensures
        keys_to_write(c, entry_keys(c, before), after) == seq![entry_key(c, after[i])],
        !entry_keys(c, before).contains(entry_key(c, after[i])),
{
    let snapshot = entry_keys(c, before);
    let changed = entry_key(c, after[i]);
    assert forall|j: int| 0 <= j < before.len() && j != i implies snapshot.contains(
        #[trigger] entry_key(c, before[j]),
    ) by {
        assert(snapshot[j] == entry_key(c, before[j]));
    }
    assert(!snapshot.contains(changed)) by {
        if snapshot.contains(changed) {
            let k = choose|k: int| 0 <= k < snapshot.len() && snapshot[k] == changed;
            assert(snapshot[k] == entry_key(c, before[k]));
            assert(changed.1 == entry_key(c, before[i]).1);
            if k != i {
                assert(entry_key(c, before[k]).1 != entry_key(c, before[i]).1);
            }
        }
    }
    lemma_one_changed_prefix(c, snapshot, before, after, i, after.len() as int);
    assert(after.take(after.len() as int) =~= after);
}

proof fn lemma_removed_prefix(keys: Seq<KeyView>, remaining: Seq<KeyView>, i: int, m: int)
    requires
        0 <= i < keys.len(),
        0 <= m <= keys.len(),
        forall|j: int| 0 <= j < keys.len() && j != i ==> remaining.contains(#[trigger] keys[j]),
        !remaining.contains(keys[i]),
    ensures
        keys_not_in(keys.take(m), remaining) == if m <= i {
            Seq::<KeyView>::empty()
        } else {
            seq![keys[i]]
        },
    decreases m,
{
    if m > 0 {
        lemma_removed_prefix(keys, remaining, i, m - 1);
        assert(keys.take(m).drop_last() =~= keys.take(m - 1));
        assert(keys.take(m).last() == keys[m - 1]);
    } else {
        assert(keys.take(m) =~= Seq::<KeyView>::empty());
    }
}

/// Deleting a file from the walk evicts exactly its key.
///
/// After a clean pass, the store holds the keys of the walk. A second walk
/// without the entry at `i` writes nothing, and the reconciliation evicts the
/// removed entry's key, whose documents are then deleted, and no other.
pub proof fn lemma_deleted_file_evicted(
    c: PassView,
    before: Seq<RepoDirectoryEntry>,
    i: int,
)
    requires
        0 <= i < before.len(),
        distinct_paths(c, before),
    ensures
        keys_to_write(c, entry_keys(c, before), before.remove(i)) == Seq::<KeyView>::empty(),
        keys_not_in(entry_keys(c, before), entry_keys(c, before.remove(i))) == seq![
            entry_key(c, before[i]),
        ],
{
    let after = before.remove(i);
    let keys = entry_keys(c, before);
    let remaining = entry_keys(c, after);
    assert forall|j: int| 0 <= j < after.len() implies keys.contains(#[trigger] entry_key(c, after[j])) by {
        if j < i {
            assert(after[j] == before[j]);
            assert(keys[j] == entry_key(c, after[j]));
        } else {
            assert(after[j] == before[j + 1]);
            assert(keys[j + 1] == entry_key(c, after[j]));
        }
    }
    lemma_all_cached(c, keys, after);
    assert forall|j: int| 0 <= j < keys.len() && j != i implies remaining.contains(#[trigger] keys[j]) by {
        if j < i {
            assert(remaining[j] == keys[j]);
        } else {
            assert(after[j - 1] == before[j]);
            assert(remaining[j - 1] == keys[j]);
        }
    }
    assert(!remaining.contains(keys[i])) by {
        if remaining.contains(keys[i]) {
            let k = choose|k: int| 0 <= k < remaining.len() && remaining[k] == keys[i];
            if k < i {
                assert(after[k] == before[k]);
                assert(entry_key(c, before[k]).1 != entry_key(c, before[i]).1);
            } else {
                assert(after[k] == before[k + 1]);
                assert(entry_key(c, before[k + 1]).1 != entry_key(c, before[i]).1);
            }
        }
    }
    lemma_removed_prefix(keys, remaining, i, keys.len() as int);
    assert(keys.take(keys.len() as int) =~= keys);
}

proof fn lemma_none_cached(c: PassView, snapshot: Seq<KeyView>, entries: Seq<RepoDirectoryEntry>)
    requires
        forall|j: int|
            0 <= j < entries.len() && entries[j] is File ==> !snapshot.contains(
                #[trigger] entry_key(c, entries[j]),
            ),
    ensures
        keys_to_write(c, snapshot, entries) == keys_to_write(c, Seq::empty(), entries),
    decreases entries.len(),
{
    if entries.len() > 0 {
        let d = entries.drop_last();
        assert forall|j: int| 0 <= j < d.len() && d[j] is File implies !snapshot.contains(
            #[trigger] entry_key(c, d[j]),
        ) by {
            assert(d[j] == entries[j]);
        }
        lemma_none_cached(c, snapshot, d);
        if entries.last() is File {
            assert(!snapshot.contains(entry_key(c, entries[entries.len() - 1])));
        }
    }
}

/// The same pass under another schema version.
pub open spec fn with_schema(c: PassView, schema_version: Seq<char>) -> PassView {
    (schema_version, c.1, c.2, c.3)
}

/// Another schema version changes the bytes that every semantic hash is
/// taken over.
pub proof fn lemma_schema_bump_changes_input(
    old_schema: Seq<char>,
    new_schema: Seq<char>,
    relative_path: Seq<char>,
    repo_ref: Seq<char>,
    content: Seq<char>,
)
    requires
        old_schema != new_schema,
    ensures
        semantic_input(old_schema, relative_path, repo_ref, content) != semantic_input(
            new_schema,
            relative_path,
            repo_ref,
            content,
        ),
{
    let a = encode_utf8(old_schema);
    let b = encode_utf8(new_schema);
    let rest = encode_utf8(relative_path) + encode_utf8(repo_ref) + encode_utf8(content);
    let x = semantic_input(old_schema, relative_path, repo_ref, content);
    let y = semantic_input(new_schema, relative_path, repo_ref, content);
    assert(x =~= a + rest);
    assert(y =~= b + rest);
    if x == y {
        assert(a.len() == b.len());
        assert(a =~= x.take(a.len() as int));
        assert(b =~= y.take(b.len() as int));
        encode_utf8_decode_utf8(old_schema);
        encode_utf8_decode_utf8(new_schema);
    }
}

/// Bumping the schema version makes every file stale.
///
/// After a clean pass under `c`, the store holds the walk's keys. A pass over
/// the same walk under another schema version writes every file: for each of
/// them, the digest tells the new semantic input from the old one (which
/// differ, see `lemma_schema_bump_changes_input`), so no new key is in the
/// store, and a pass that abandons no file hands the writer each snippet of
/// every file.
pub proof fn lemma_schema_bump_invalidates(
    c: PassView,
    schema_version: Seq<char>,
    entries: Seq<RepoDirectoryEntry>,
)
    requires
        distinct_paths(c, entries),
        forall|j: int|
            0 <= j < entries.len() && entries[j] is File ==> (#[trigger] entry_key(
                with_schema(c, schema_version),
                entries[j],
            )).3 != entry_key(c, entries[j]).3,
    ensures
        keys_to_write(with_schema(c, schema_version), entry_keys(c, entries), entries)
            == keys_to_write(with_schema(c, schema_version), Seq::empty(), entries),
        forall|j: int|
            0 <= j < entries.len() && entries[j] is File ==> !entry_keys(c, entries).contains(
                #[trigger] entry_key(with_schema(c, schema_version), entries[j]),
            ),
{
    let bumped = with_schema(c, schema_version);
    let keys = entry_keys(c, entries);
    assert forall|j: int| 0 <= j < entries.len() && entries[j] is File implies !keys.contains(
        #[trigger] entry_key(bumped, entries[j]),
    ) by {
        if keys.contains(entry_key(bumped, entries[j])) {
            let k = choose|k: int| 0 <= k < keys.len() && keys[k] == entry_key(bumped, entries[j]);
            assert(keys[k] == entry_key(c, entries[k]));
            assert(entry_key(bumped, entries[j]).1 == entry_key(c, entries[j]).1);
            if k != j {
                assert(entry_key(c, entries[k]).1 != entry_key(c, entries[j]).1);
            }
        }
    }
    lemma_none_cached(bumped, keys, entries);
}

/// A pass that writes no file makes no other calls on the writer than the
/// deletions of its reconciliation.
///
/// During the walk a pass only adds documents of the files it writes and
/// deletes the keys of files it abandoned, which it had written; so with no
/// file written, the calls after `before` are exactly the deletions of the
/// evicted keys. After an unchanged walk (see
/// `lemma_unchanged_pass_is_idle`) there are none; after a deleted file (see
/// `lemma_deleted_file_evicted`) there is one, for its key.
pub proof fn lemma_quiet_pass_calls(
    before: Seq<WriterCall>,
    after: Seq<WriterCall>,
    walk_end: int,
    abandoned: Seq<KeyView>,
    evicted: Seq<KeyView>,
)
    requires
        before.len() <= walk_end <= after.len(),
        after.subrange(0, before.len() as int) == before,
        walk_calls(after, before.len() as int, walk_end, Seq::empty(), abandoned),
        forall|k: KeyView| #[trigger] abandoned.contains(k) ==> Seq::<KeyView>::empty().contains(k),
        after.subrange(walk_end, after.len() as int) == delete_calls(evicted),
    ensures
        after == before + delete_calls(evicted),
{
    if before.len() < walk_end {
        let call = after[before.len() as int];
        assert(walk_call(call, Seq::empty(), abandoned));
        match call {
            WriterCall::DeleteKey(k) => {
                assert(abandoned.contains(k));
            },
            _ => {},
        }
    }
    assert(after =~= after.subrange(0, before.len() as int) + after.subrange(walk_end, after.len() as int));
}

} // verus!
