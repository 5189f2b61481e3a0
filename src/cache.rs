//! Cache keys, the snapshot that a pass reads, and the store it reconciles.
use vstd::prelude::*;
use crate::hashing::{content_hash_of, semantic_hash_of};
use crate::text::{join_path_of, relative_path_of};
use crate::writer::{delete_calls, IndexWriter, LoggedWriter, WriterCall};

verus! {

/// A cache key as values: commit hash, normalized path, content hash and
/// semantic hash.
pub type KeyView = (Seq<char>, Seq<char>, Seq<char>, Seq<char>);

/// What identifies the indexed state of one entry.
///
/// Two keys are equal when all four parts are. The semantic hash is part of
/// the key, so that a change of schema version makes every earlier key stale.
pub struct CacheKey {
    pub commit_hash: String,
    pub path: String,
    pub content_hash: String,
    pub semantic_hash: String,
}

impl View for CacheKey {
    type V = KeyView;

    open spec fn view(&self) -> KeyView {
        (self.commit_hash@, self.path@, self.content_hash@, self.semantic_hash@)
    }
}

/// The key of an entry at `path` with `content`, in a repository rooted at
/// `root`, under the given schema version, reference and commit.
pub open spec fn key_of(
    schema_version: Seq<char>,
    repo_ref: Seq<char>,
    commit_hash: Seq<char>,
    root: Seq<char>,
    path: Seq<char>,
    content: Option<Seq<char>>,
) -> KeyView {
    let rel = relative_path_of(root, path);
    (
        commit_hash,
        join_path_of(root, rel),
        content_hash_of(content),
        semantic_hash_of(schema_version, rel, repo_ref, content),
    )
}

impl CacheKey {
    pub fn new(
        commit_hash: String,
        path: String,
        content_hash: String,
        semantic_hash: String,
    ) -> (r: CacheKey)
        ensures
            r@ == (commit_hash@, path@, content_hash@, semantic_hash@),
    {
        CacheKey { commit_hash, path, content_hash, semantic_hash }
    }

    /// Whether the two keys agree in all four parts.
    pub fn same(&self, other: &CacheKey) -> (r: bool)
        ensures
            r == (self@ == other@),
    {
        self.commit_hash == other.commit_hash && self.path == other.path && self.content_hash
            == other.content_hash && self.semantic_hash == other.semantic_hash
    }

    /// A copy of the key.
    pub fn duplicate(&self) -> (r: CacheKey)
        ensures
            r@ == self@,
    {
        CacheKey {
            commit_hash: self.commit_hash.clone(),
            path: self.path.clone(),
            content_hash: self.content_hash.clone(),
            semantic_hash: self.semantic_hash.clone(),
        }
    }
}

/// The views of a sequence of keys.
pub open spec fn key_views(keys: Seq<CacheKey>) -> Seq<KeyView> {
    keys.map_values(|k: CacheKey| k@)
}

fn contains_key(keys: &Vec<CacheKey>, key: &CacheKey) -> (r: bool)
    ensures
        r == key_views(keys@).contains(key@),
{
    let mut i: usize = 0;
    while i < keys.len()
        invariant
            i <= keys@.len(),
            forall|j: int| 0 <= j < i ==> keys@[j]@ != key@,
        decreases keys@.len() - i,
    {
        if keys[i].same(key) {
            assert(key_views(keys@)[i as int] == key@);
            return true;
        }
        i = i + 1;
    }
    assert(!key_views(keys@).contains(key@)) by {
        if key_views(keys@).contains(key@) {
            let j = choose|j: int| 0 <= j < key_views(keys@).len() && key_views(keys@)[j] == key@;
            assert(keys@[j]@ == key@);
        }
    }
    false
}

fn duplicate_keys(keys: &Vec<CacheKey>) -> (r: Vec<CacheKey>)
    ensures
        key_views(r@) == key_views(keys@),
{
    let mut out: Vec<CacheKey> = Vec::new();
    let mut i: usize = 0;
    while i < keys.len()
        invariant
            i <= keys@.len(),
            out@.len() == i,
            key_views(out@) == key_views(keys@.subrange(0, i as int)),
        decreases keys@.len() - i,
    {
        let ghost prev = out@;
        out.push(keys[i].duplicate());
        proof {
            assert forall|j: int| 0 <= j < i + 1 implies key_views(out@)[j] == key_views(
                keys@.subrange(0, i + 1),
            )[j] by {
                if j < i {
                    assert(key_views(prev)[j] == key_views(keys@.subrange(0, i as int))[j]);
                }
            }
        }
        i = i + 1;
        assert(key_views(out@) =~= key_views(keys@.subrange(0, i as int)));
    }
    assert(keys@.subrange(0, keys@.len() as int) == keys@);
    out
}

/// A point-in-time, read-only view of the cache store.
pub struct CacheSnapshot {
    keys: Vec<CacheKey>,
}

impl View for CacheSnapshot {
    type V = Seq<KeyView>;

    closed spec fn view(&self) -> Seq<KeyView> {
        key_views(self.keys@)
    }
}

impl CacheSnapshot {
    /// Whether the snapshot already holds `key`, and with it the same content
    /// hash: the index then holds up-to-date documents for it.
    pub fn is_fresh(&self, key: &CacheKey) -> (r: bool)
        ensures
            r == self@.contains(key@),
    {
        contains_key(&self.keys, key)
    }

    /// The keys of the snapshot, in order.
    pub fn keys(&self) -> (r: &Vec<CacheKey>)
        ensures
            key_views(r@) == self@,
    {
        &self.keys
    }
}

/// The keys of `keys` that `other` does not hold, in the order of `keys`.
pub open spec fn keys_not_in(keys: Seq<KeyView>, other: Seq<KeyView>) -> Seq<KeyView>
    decreases keys.len(),
{
    if keys.len() == 0 {
        Seq::empty()
    } else {
        let rest = keys_not_in(keys.drop_last(), other);
        if other.contains(keys.last()) {
            rest
        } else {
            rest.push(keys.last())
        }
    }
}

/// The keys of `keys` that `other` does not hold, in order.
pub fn retain_absent(keys: &Vec<CacheKey>, other: &Vec<CacheKey>) -> (r: Vec<CacheKey>)
    ensures
        key_views(r@) == keys_not_in(key_views(keys@), key_views(other@)),
{
    let mut out: Vec<CacheKey> = Vec::new();
    let mut i: usize = 0;
    while i < keys.len()
        invariant
            i <= keys@.len(),
            key_views(out@) == keys_not_in(
                key_views(keys@).subrange(0, i as int),
                key_views(other@),
            ),
        decreases keys@.len() - i,
    {
        let ghost prev = out@;
        proof {
            assert(key_views(keys@).subrange(0, i + 1).drop_last() =~= key_views(
                keys@,
            ).subrange(0, i as int));
        }
        if !contains_key(other, &keys[i]) {
            out.push(keys[i].duplicate());
            assert(key_views(out@) =~= key_views(prev).push(keys@[i as int]@));
        }
        i = i + 1;
    }
    assert(key_views(keys@).subrange(0, keys@.len() as int) =~= key_views(keys@));
    out
}

/// The persisted cache state of one repository reference.
pub struct CacheStore {
    keys: Vec<CacheKey>,
}

impl View for CacheStore {
    type V = Seq<KeyView>;

    closed spec fn view(&self) -> Seq<KeyView> {
        key_views(self.keys@)
    }
}

impl CacheStore {
    /// A store that holds nothing yet.
    pub fn new() -> (r: CacheStore)
        ensures
            r@ == Seq::<KeyView>::empty(),
    {
        let r = CacheStore { keys: Vec::new() };
        assert(r@ =~= Seq::<KeyView>::empty());
        r
    }

    /// A store that holds `keys`, as they were persisted.
    pub fn from_keys(keys: Vec<CacheKey>) -> (r: CacheStore)
        ensures
            r@ == key_views(keys@),
    {
        CacheStore { keys }
    }

    /// The keys the store holds, in order.
    pub fn keys(&self) -> (r: &Vec<CacheKey>)
        ensures
            key_views(r@) == self@,
    {
        &self.keys
    }

    /// A point-in-time copy of the store, for the workers of one pass.
    pub fn retrieve(&self) -> (r: CacheSnapshot)
        ensures
            r@ == self@,
    {
        CacheSnapshot { keys: duplicate_keys(&self.keys) }
    }

    /// Ends a pass: every key of `snapshot` that the pass did not confirm has its
    /// documents deleted from the index and leaves the store, which then holds
    /// exactly the confirmed keys. Returns the keys that were evicted.
    pub fn synchronize<W: IndexWriter>(
        &mut self,
        snapshot: &CacheSnapshot,
        kept: Vec<CacheKey>,
        writer: &mut LoggedWriter<W>,
    ) -> (evicted: Vec<CacheKey>)
        ensures
            final(self)@ == key_views(kept@),
            key_views(evicted@) == keys_not_in(snapshot@, key_views(kept@)),
            final(writer).calls() == old(writer).calls() + delete_calls(key_views(evicted@)),
    {
        let old_keys = snapshot.keys();
        let mut evicted: Vec<CacheKey> = Vec::new();
        let mut i: usize = 0;
        assert(old(writer).calls() + delete_calls(key_views(evicted@)) =~= writer.calls());
        while i < old_keys.len()
            invariant
                i <= old_keys@.len(),
                key_views(old_keys@) == snapshot@,
                key_views(evicted@) == keys_not_in(
                    key_views(old_keys@).subrange(0, i as int),
                    key_views(kept@),
                ),
                writer.calls() == old(writer).calls() + delete_calls(key_views(evicted@)),
            decreases old_keys@.len() - i,
        {
            let ghost prev = evicted@;
            proof {
                assert(key_views(old_keys@).subrange(0, i + 1).drop_last() =~= key_views(
                    old_keys@,
                ).subrange(0, i as int));
            }
            if !contains_key(&kept, &old_keys[i]) {
                writer.delete_by_cache_key(&old_keys[i]);
                evicted.push(old_keys[i].duplicate());
                assert(key_views(evicted@) =~= key_views(prev).push(old_keys@[i as int]@));
                assert(delete_calls(key_views(evicted@)) =~= delete_calls(key_views(prev)).push(
                    WriterCall::DeleteKey(old_keys@[i as int]@),
                ));
            }
            i = i + 1;
        }
        assert(key_views(old_keys@).subrange(0, old_keys@.len() as int) =~= key_views(old_keys@));
        self.keys = kept;
        evicted
    }
}

} // verus!
