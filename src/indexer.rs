//! One indexing pass over a repository.
use vstd::prelude::*;
use crate::cache::{key_of, key_views, keys_not_in, retain_absent, CacheKey, CacheSnapshot, CacheStore, KeyView};
use vstd::arithmetic::div_mod::{lemma_div_by_multiple, lemma_div_is_ordered};
use crate::document::{snippet_spans, snippet_spans_of, SnippetDocument, SnippetSpan, SpanView};
use crate::hashing::{content_hash_of, derive_hashes, semantic_hash_of};
use crate::repo::{RepoDirectoryEntry, RepoMetadata, RepoRef, Repository};
use crate::text::{join_path, relative_path, relative_path_of};
use crate::writer::{LoggedPipes, LoggedWriter, delete_calls, on_cancel_check, on_write, walk_step, write_step, IndexWriter, SyncPipes, WalkStep, WriteStep, WriterCall};

verus! {

/// Why a pass stopped before it reconciled the cache.
#[derive(PartialEq, Eq, Structural, Debug, Clone, Copy)]
pub enum IndexError {
    /// Cancellation was signalled; documents already written stay.
    Cancelled,
    /// The walk yielded an entry that is neither a file nor a directory.
    UnsupportedEntry,
    /// The index writer takes no more calls.
    WriterUnavailable,
}

/// What became of one entry.
#[derive(PartialEq, Eq, Structural, Debug, Clone, Copy)]
pub enum Outcome {
    /// The snapshot already held the entry's key: nothing was written.
    Fresh,
    /// A directory: it has no documents of its own.
    Directory,
    /// The file's documents were all written.
    Written,
    /// The index refused one of the file's documents: those written before
    /// it were deleted again, and the key is not kept.
    Abandoned,
}

/// What a pass keys its entries by: schema version, reference, commit hash
/// and repository root.
pub type PassView = (Seq<char>, Seq<char>, Seq<char>, Seq<char>);

/// The cache key of `entry` in a pass over `c`.
pub open spec fn entry_key(c: PassView, entry: RepoDirectoryEntry) -> KeyView {
    key_of(c.0, c.1, c.2, c.3, entry.path_spec(), entry.content_spec())
}

/// The cache keys of `entries`, in order.
pub open spec fn entry_keys(c: PassView, entries: Seq<RepoDirectoryEntry>) -> Seq<KeyView> {
    entries.map_values(|e: RepoDirectoryEntry| entry_key(c, e))
}

/// The keys of the files among `entries` that `snapshot` does not hold, in
/// order: the files whose documents a pass writes.
pub open spec fn keys_to_write(
    c: PassView,
    snapshot: Seq<KeyView>,
    entries: Seq<RepoDirectoryEntry>,
) -> Seq<KeyView>
    decreases entries.len(),
{
    if entries.len() == 0 {
        Seq::empty()
    } else {
        let rest = keys_to_write(c, snapshot, entries.drop_last());
        let e = entries.last();
        if e is File && !snapshot.contains(entry_key(c, e)) {
            rest.push(entry_key(c, e))
        } else {
            rest
        }
    }
}

/// Whether `entry` is neither a file nor a directory, and `snapshot` does not
/// hold its key: such an entry fails a pass.
pub open spec fn is_stale_other(c: PassView, snapshot: Seq<KeyView>, entry: RepoDirectoryEntry) -> bool {
    entry is Other && !snapshot.contains(entry_key(c, entry))
}

/// Whether some entry would fail a pass.
pub open spec fn has_stale_other(
    c: PassView,
    snapshot: Seq<KeyView>,
    entries: Seq<RepoDirectoryEntry>,
) -> bool {
    exists|i: int| 0 <= i < entries.len() && is_stale_other(c, snapshot, #[trigger] entries[i])
}

/// Whether `call`, made during the walk of a pass, is one the pass may make:
/// an addition under the key of a file it writes, answered with anything but
/// unavailability, or the deletion of an abandoned file's key.
pub open spec fn walk_call(call: WriterCall, written: Seq<KeyView>, abandoned: Seq<KeyView>) -> bool {
    match call {
        WriterCall::Add(doc, answer) => written.contains(doc.cache_key@) && write_step(answer)
            != WriteStep::Fail(IndexError::WriterUnavailable),
        WriterCall::DeleteKey(k) => abandoned.contains(k),
        WriterCall::DeleteRepo(_) => false,
    }
}

/// Whether every call of `calls` from `start` up to `end` is a walk call.
pub open spec fn walk_calls(
    calls: Seq<WriterCall>,
    start: int,
    end: int,
    written: Seq<KeyView>,
    abandoned: Seq<KeyView>,
) -> bool {
    forall|j: int| start <= j < end ==> walk_call(#[trigger] calls[j], written, abandoned)
}

proof fn lemma_push_contains<A>(s: Seq<A>, y: A)
    ensures
        forall|x: A| s.contains(x) ==> #[trigger] s.push(y).contains(x),
        s.push(y).contains(y),
{
    assert forall|x: A| s.contains(x) implies #[trigger] s.push(y).contains(x) by {
        let j = choose|j: int| 0 <= j < s.len() && s[j] == x;
        assert(s.push(y)[j] == x);
    }
    assert(s.push(y)[s.len() as int] == y);
}

/// The percentage reported once `done` of `total` entries are handled.
pub open spec fn percent_of(done: int, total: int) -> int {
    done * 100 / total
}

/// Whether the reported percentages never go down.
pub open spec fn is_nondecreasing(p: Seq<u8>) -> bool {
    forall|a: int, b: int| 0 <= a <= b < p.len() ==> p[a] <= p[b]
}

proof fn lemma_percent_ordered(a: int, b: int, total: int)
    requires
        0 <= a <= b <= total,
        0 < total,
    ensures
        percent_of(a, total) <= percent_of(b, total) <= 100,
{
    assert(a * 100 <= b * 100) by (nonlinear_arith)
        requires
            a <= b,
    ;
    assert(b * 100 <= 100 * total) by (nonlinear_arith)
        requires
            b <= total,
    ;
    lemma_div_is_ordered(a * 100, b * 100, total);
    lemma_div_is_ordered(b * 100, 100 * total, total);
    lemma_div_by_multiple(100, total);
}

/// What a pass did, call by call.
pub struct PassLog {
    /// How many entries were handed to a worker.
    pub processed: usize,
    /// The keys of the files whose documents were handed to the writer, in
    /// order, a file the writer failed on included.
    pub written: Vec<CacheKey>,
    /// The keys of the files that the index refused, in order.
    pub abandoned: Vec<CacheKey>,
    /// The keys that the final reconciliation evicted, in order.
    pub evicted: Vec<CacheKey>,
    /// Every percentage reported, in order.
    pub progress: Vec<u8>,
}

/// An entry that a worker has handled, with its cache key.
pub struct Processed {
    pub key: CacheKey,
    pub outcome: Outcome,
    /// How many documents the index took for the entry.
    pub sent: usize,
}

/// The snippet index: what it folds into every cache key.
pub struct Snippet {
    /// Bumped whenever the extraction logic changes.
    pub schema_version: String,
}

/// Everything a worker needs to know of one entry besides the entry itself.
pub struct Workload<'a> {
    pub cache: &'a CacheSnapshot,
    pub repo_disk_path: &'a str,
    pub repo_name: &'a str,
    pub repo_metadata: &'a RepoMetadata,
    pub repo_ref: String,
    pub relative_path: String,
    pub normalized_path: String,
    pub commit_hash: String,
}

impl<'a> Workload<'a> {
    pub fn new(
        cache: &'a CacheSnapshot,
        repo_disk_path: &'a str,
        repo_name: &'a str,
        repo_metadata: &'a RepoMetadata,
        repo_ref: String,
        relative_path: String,
        normalized_path: String,
        commit_hash: String,
    ) -> (r: Workload<'a>)
        ensures
            r.cache == cache,
            r.repo_disk_path == repo_disk_path,
            r.repo_name == repo_name,
            r.repo_metadata == repo_metadata,
            r.repo_ref == repo_ref,
            r.relative_path == relative_path,
            r.normalized_path == normalized_path,
            r.commit_hash == commit_hash,
    {
        Workload {
            cache,
            repo_disk_path,
            repo_name,
            repo_metadata,
            repo_ref,
            relative_path,
            normalized_path,
            commit_hash,
        }
    }

    /// The cache key of `entry` under `schema_version`.
    pub open spec fn key_spec(&self, schema_version: Seq<char>, entry: RepoDirectoryEntry) -> KeyView {
        (
            self.commit_hash@,
            self.normalized_path@,
            content_hash_of(entry.content_spec()),
            semantic_hash_of(
                schema_version,
                self.relative_path@,
                self.repo_ref@,
                entry.content_spec(),
            ),
        )
    }

    /// The cache key of `dir_entry`: the commit, the normalized path, and the
    /// two hashes of the entry's content. The semantic hash binds the schema
    /// version, the relative path and the reference too, so each file of a
    /// repository gets a key of its own.
    pub fn cache_keys(&self, schema_version: &str, dir_entry: &RepoDirectoryEntry) -> (r: CacheKey)
        ensures
            r@ == self.key_spec(schema_version@, *dir_entry),
    {
        let (semantic_hash, content_hash) = derive_hashes(
            schema_version,
            self.relative_path.as_str(),
            self.repo_ref.as_str(),
            dir_entry.buffer(),
        );
        CacheKey::new(self.commit_hash.clone(), self.normalized_path.clone(), content_hash, semantic_hash)
    }

    /// The document written for snippet `span` of a file with key `key`.
    pub open spec fn document_spec(&self, key: KeyView, span: (int, int, Seq<char>), doc: SnippetDocument) -> bool {
        &&& doc.relative_path@ == self.relative_path@
        &&& doc.repo_name@ == self.repo_name@
        &&& doc.repo_ref@ == self.repo_ref@
        &&& doc.content@ == span.2
        &&& doc.line_start == span.0
        &&& doc.line_end == span.1
        &&& doc.repo_disk_path@ == self.repo_disk_path@
        &&& doc.cache_key@ == key
        &&& doc.last_commit_unix_secs == match self.repo_metadata.last_commit_unix_secs {
            Some(t) => t,
            None => 0,
        }
    }

    /// Whether `calls`, from `start` on, begin with `m` additions of the
    /// documents of the first `m` snippets `spans` of a file with key `key`,
    /// each but the last of them taken by the index.
    pub open spec fn adds_built(
        &self,
        key: KeyView,
        spans: Seq<SpanView>,
        calls: Seq<WriterCall>,
        start: int,
        m: int,
    ) -> bool {
        &&& 0 <= m <= spans.len()
        &&& 0 <= start
        &&& start + m <= calls.len()
        &&& forall|k: int|
            0 <= k < m ==> (#[trigger] calls[start + k]) is Add && self.document_spec(
                key,
                spans[k],
                calls[start + k]->Add_0,
            )
        &&& forall|k: int|
            0 <= k < m - 1 ==> write_step((#[trigger] calls[start + k])->Add_1) == WriteStep::Next
    }

    /// The documents of a file with `content` and key `key`: one for each
    /// snippet of the content, in order.
    pub fn build_documents(&self, content: &str, key: &CacheKey) -> (r: Vec<SnippetDocument>)
        ensures
            r@.len() == snippet_spans(content@).len(),
            forall|k: int|
                0 <= k < r@.len() ==> self.document_spec(key@, snippet_spans(content@)[k], #[trigger] r@[k]),
    {
        let spans = snippet_spans_of(content);
        let ghost sv = spans@.map_values(|s: SnippetSpan| s@);
        let last_commit = match self.repo_metadata.last_commit_unix_secs {
            Some(t) => t,
            None => 0,
        };
        let mut docs: Vec<SnippetDocument> = Vec::new();
        let mut i: usize = 0;
        while i < spans.len()
            invariant
                i <= spans@.len(),
                sv == snippet_spans(content@),
                sv == spans@.map_values(|s: SnippetSpan| s@),
                docs@.len() == i,
                last_commit == match self.repo_metadata.last_commit_unix_secs {
                    Some(t) => t,
                    None => 0,
                },
                forall|k: int| 0 <= k < i ==> self.document_spec(key@, sv[k], #[trigger] docs@[k]),
            decreases spans@.len() - i,
        {
            let span = &spans[i];
            assert(sv[i as int] == span@);
            let doc = SnippetDocument {
                relative_path: self.relative_path.clone(),
                repo_name: self.repo_name.to_string(),
                repo_ref: self.repo_ref.clone(),
                content: span.content.clone(),
                line_start: span.line_start as u64,
                line_end: span.line_end as u64,
                repo_disk_path: self.repo_disk_path.to_string(),
                cache_key: key.duplicate(),
                last_commit_unix_secs: last_commit,
            };
            docs.push(doc);
            i = i + 1;
        }
        docs
    }
}

/// Whether `doc` is the document that a pass over `c` builds for snippet
/// `span` of `entry`, as far as the pass's view decides it.
pub open spec fn pass_document(c: PassView, entry: RepoDirectoryEntry, span: SpanView, doc: SnippetDocument) -> bool {
    &&& doc.relative_path@ == relative_path_of(c.3, entry.path_spec())
    &&& doc.repo_disk_path@ == c.3
    &&& doc.content@ == span.2
    &&& doc.line_start == span.0
    &&& doc.line_end == span.1
    &&& doc.cache_key@ == entry_key(c, entry)
}

/// Whether one of the calls of `calls` from `start` on handed the writer the
/// document of snippet `span` of `entry`.
pub open spec fn snippet_handed(
    c: PassView,
    entry: RepoDirectoryEntry,
    span: SpanView,
    calls: Seq<WriterCall>,
    start: int,
) -> bool {
    exists|idx: int|
        start <= idx < calls.len() && (#[trigger] calls[idx]) is Add && pass_document(
            c,
            entry,
            span,
            calls[idx]->Add_0,
        )
}

/// Whether, where `entry` is a file that the pass writes and does not
/// abandon, every snippet of it was handed to the writer by one of the calls
/// of `calls` from `start` on.
pub open spec fn file_handed(
    c: PassView,
    snapshot: Seq<KeyView>,
    abandoned: Seq<KeyView>,
    entry: RepoDirectoryEntry,
    calls: Seq<WriterCall>,
    start: int,
) -> bool {
    entry is File && !snapshot.contains(entry_key(c, entry)) && !abandoned.contains(entry_key(c, entry))
        ==> forall|s: int|
        0 <= s < snippet_spans(entry->File_0.buffer@).len() ==> #[trigger] snippet_handed(
            c,
            entry,
            snippet_spans(entry->File_0.buffer@)[s],
            calls,
            start,
        )
}

proof fn lemma_handed_extends(
    c: PassView,
    snapshot: Seq<KeyView>,
    abandoned: Seq<KeyView>,
    abandoned2: Seq<KeyView>,
    entry: RepoDirectoryEntry,
    calls: Seq<WriterCall>,
    calls2: Seq<WriterCall>,
    start: int,
)
    requires
        file_handed(c, snapshot, abandoned, entry, calls, start),
        0 <= start,
        calls2.len() >= calls.len(),
        calls2.subrange(0, calls.len() as int) == calls,
        forall|k: KeyView| abandoned.contains(k) ==> #[trigger] abandoned2.contains(k),
    ensures
        file_handed(c, snapshot, abandoned2, entry, calls2, start),
{
    if entry is File && !snapshot.contains(entry_key(c, entry)) && !abandoned2.contains(entry_key(c, entry)) {
        let spans = snippet_spans(entry->File_0.buffer@);
        let k = entry_key(c, entry);
        assert(!abandoned.contains(k)) by {
            if abandoned.contains(k) {
                assert(abandoned2.contains(k));
            }
        }
        assert forall|s: int| 0 <= s < spans.len() implies #[trigger] snippet_handed(
            c,
            entry,
            snippet_spans(entry->File_0.buffer@)[s],
            calls2,
            start,
        ) by {
            assert(snippet_spans(entry->File_0.buffer@)[s] == spans[s]);
            assert(snippet_handed(c, entry, spans[s], calls, start));
            let idx = choose|idx: int|
                start <= idx < calls.len() && calls[idx] is Add && pass_document(
                    c,
                    entry,
                    spans[s],
                    calls[idx]->Add_0,
                );
            assert(start <= idx < calls.len());
            assert(calls2.subrange(0, calls.len() as int)[idx] == calls[idx]);
            assert(calls2[idx] == calls[idx]);
        }
    }
}

proof fn lemma_new_answers(answers: Seq<bool>, a0: int, n: int)
    requires
        0 <= a0,
        a0 + n <= answers.len(),
        0 <= n,
        forall|j: int| 0 <= j < n ==> !(#[trigger] answers[a0 + j]),
    ensures
        forall|j: int| 0 <= j < n ==> !(#[trigger] answers.subrange(a0, answers.len() as int)[j]),
        answers.subrange(a0, answers.len() as int).len() == answers.len() - a0,
        n < answers.len() - a0 ==> answers.subrange(a0, answers.len() as int)[n] == answers[a0 + n],
{
    assert forall|j: int| 0 <= j < n implies !(#[trigger] answers.subrange(a0, answers.len() as int)[j]) by {
        assert(answers.subrange(a0, answers.len() as int)[j] == answers[a0 + j]);
    }
}

proof fn lemma_walk_call_grows(
    call: WriterCall,
    written: Seq<KeyView>,
    abandoned: Seq<KeyView>,
    written2: Seq<KeyView>,
    abandoned2: Seq<KeyView>,
)
    requires
        walk_call(call, written, abandoned),
        forall|k: KeyView| written.contains(k) ==> #[trigger] written2.contains(k),
        forall|k: KeyView| abandoned.contains(k) ==> #[trigger] abandoned2.contains(k),
    ensures
        walk_call(call, written2, abandoned2),
{
    match call {
        WriterCall::Add(doc, _) => {
            assert(written2.contains(doc.cache_key@));
        },
        WriterCall::DeleteKey(k) => {
            assert(abandoned2.contains(k));
        },
        _ => {},
    }
}

impl Snippet {
    /// The view that the keys of a pass over `reporef` at `repo` depend on.
    pub open spec fn pass_view(&self, reporef: &RepoRef, repo: &Repository, repo_metadata: &RepoMetadata) -> PassView {
        (self.schema_version@, reporef.reference@, repo_metadata.commit_hash@, repo.disk_path@)
    }

    /// Runs one indexing pass over the walked `entries` of `repo`.
    ///
    /// Before each entry the pass asks whether it was cancelled, and the
    /// answer decides what follows (see `on_cancel_check`): once it is yes, no
    /// further entry is handed to a worker and the pass ends as cancelled,
    /// without reconciling the cache. Each entry gets its cache key; a key
    /// that the snapshot holds is skipped, and a file whose key it does not
    /// hold has its snippets handed to the writer. An entry that is neither a
    /// file nor a directory, or a writer that takes no more calls, ends the
    /// pass at once. Once every entry is handled and a last check finds no
    /// cancellation, the store is reconciled: it then holds the keys of this
    /// walk except those of abandoned files, and every other key of the
    /// snapshot goes to exactly one deletion call. Progress is reported after
    /// each entry and, on success, as 100 at the very end.
    pub fn index_repository<W: IndexWriter, P: SyncPipes>(
        &self,
        reporef: &RepoRef,
        repo: &Repository,
        repo_metadata: &RepoMetadata,
        store: &mut CacheStore,
        entries: &Vec<RepoDirectoryEntry>,
        writer: &mut LoggedWriter<W>,
        pipes: &mut LoggedPipes<P>,
    ) -> (r: (Result<(), IndexError>, PassLog))
        ensures
            ({
                let c = self.pass_view(reporef, repo, repo_metadata);
                let snapshot = old(store)@;
                let (res, log) = r;
                let n = log.processed as int;
                let written = key_views(log.written@);
                let abandoned = key_views(log.abandoned@);
                let before = old(writer).calls();
                let after = final(writer).calls();
                let o = before.len() as int;
                let a0 = old(pipes).answers().len() as int;
                let asked = final(pipes).answers().subrange(a0, final(pipes).answers().len() as int);
                let walk_end = match res {
                    Ok(()) => after.len() - log.evicted@.len(),
                    Err(IndexError::WriterUnavailable) => after.len() - 1,
                    Err(_) => after.len() as int,
                };
                &&& n <= entries@.len()
                &&& written == keys_to_write(c, snapshot, entries@.take(n))
                &&& forall|k: KeyView| #[trigger] abandoned.contains(k) ==> written.contains(k)
                &&& forall|j: int|
                    0 <= j < n && j < log.progress@.len() ==> #[trigger] log.progress@[j]
                        == percent_of(j + 1, entries@.len() as int)
                &&& log.progress@.len() <= n + 1
                &&& is_nondecreasing(log.progress@)
                &&& forall|j: int| 0 <= j < log.progress@.len() ==> #[trigger] log.progress@[j] <= 100
                &&& final(pipes).reported() == old(pipes).reported() + log.progress@
                &&& final(pipes).answers().len() >= a0
                &&& final(pipes).answers().subrange(0, a0) == old(pipes).answers()
                &&& asked.len() >= n
                &&& forall|j: int| 0 <= j < n ==> !(#[trigger] asked[j])
                &&& o <= walk_end <= after.len()
                &&& after.subrange(0, o) == before
                &&& walk_calls(after, o, walk_end, written, abandoned)
                &&& match res {
                    Ok(()) => {
                        &&& n == entries@.len()
                        &&& asked.len() == n + 1
                        &&& !asked[n]
                        &&& !has_stale_other(c, snapshot, entries@)
                        &&& final(store)@ == keys_not_in(entry_keys(c, entries@), abandoned)
                        &&& key_views(log.evicted@) == keys_not_in(snapshot, final(store)@)
                        &&& after.subrange(walk_end, after.len() as int) == delete_calls(key_views(log.evicted@))
                        &&& log.progress@.len() == n + 1
                        &&& log.progress@[n] == 100
                        &&& forall|j: int|
                            0 <= j < n ==> file_handed(c, snapshot, abandoned, #[trigger] entries@[j], after, o)
                    },
                    Err(e) => {
                        &&& final(store)@ == snapshot
                        &&& log.evicted@.len() == 0
                        &&& e == IndexError::Cancelled ==> asked.len() == n + 1 && asked[n]
                            && !has_stale_other(c, snapshot, entries@.take(n))
                        &&& e == IndexError::UnsupportedEntry ==> asked.len() == n && n >= 1
                            && is_stale_other(c, snapshot, entries@[n - 1])
                            && !has_stale_other(c, snapshot, entries@.take(n - 1))
                        &&& e == IndexError::WriterUnavailable ==> asked.len() == n && n >= 1
                            && after.len() > o && after.last() is Add && write_step(after.last()->Add_1)
                            == WriteStep::Fail(IndexError::WriterUnavailable)
                            && !has_stale_other(c, snapshot, entries@.take(n))
                    },
                }
            }),
    {
        let ghost c = self.pass_view(reporef, repo, repo_metadata);
        let ghost before = writer.calls();
        let ghost o = before.len() as int;
        let ghost answers0 = pipes.answers();
        let ghost reported0 = pipes.reported();
        let cache = store.retrieve();
        let repo_name = reporef.indexed_name();
        let count = entries.len();
        let mut log = PassLog {
            processed: 0,
            written: Vec::new(),
            abandoned: Vec::new(),
            evicted: Vec::new(),
            progress: Vec::new(),
        };
        let mut seen: Vec<CacheKey> = Vec::new();
        let mut cancelled = false;
        let mut i: usize = 0;
        proof {
            assert(entries@.take(0) =~= Seq::<RepoDirectoryEntry>::empty());
            assert(key_views(seen@) =~= entry_keys(c, entries@.take(0)));
            assert(key_views(log.written@) =~= Seq::<KeyView>::empty());
            assert(writer.calls().subrange(0, o) =~= before);
            assert(pipes.reported() =~= reported0 + log.progress@);
            assert(pipes.answers().subrange(0, answers0.len() as int) =~= answers0);
        }
        while i < count
            invariant_except_break
                !cancelled,
            invariant
                count == entries@.len(),
                i <= count,
                log.processed == i,
                cache@ == old(store)@,
                *store == *old(store),
                c == self.pass_view(reporef, repo, repo_metadata),
                before == old(writer).calls(),
                o == before.len(),
                answers0 == old(pipes).answers(),
                reported0 == old(pipes).reported(),
                key_views(log.written@) == keys_to_write(c, cache@, entries@.take(i as int)),
                forall|k: KeyView| #[trigger]
                    key_views(log.abandoned@).contains(k) ==> key_views(log.written@).contains(k),
                key_views(seen@) == entry_keys(c, entries@.take(i as int)),
                !has_stale_other(c, cache@, entries@.take(i as int)),
                log.progress@.len() == i,
                forall|j: int| 0 <= j < i ==> #[trigger] log.progress@[j] == percent_of(j + 1, count as int),
                log.evicted@.len() == 0,
                writer.calls().len() >= o,
                writer.calls().subrange(0, o) == before,
                walk_calls(writer.calls(), o, writer.calls().len() as int, key_views(log.written@), key_views(log.abandoned@)),
                pipes.reported() == reported0 + log.progress@,
                pipes.answers().len() == answers0.len() + i + (if cancelled { 1int } else { 0int }),
                pipes.answers().subrange(0, answers0.len() as int) == answers0,
                forall|j: int| 0 <= j < i ==> !(#[trigger] pipes.answers()[answers0.len() + j]),
                cancelled ==> pipes.answers().last(),
                forall|j: int|
                    0 <= j < i ==> file_handed(
                        c,
                        cache@,
                        key_views(log.abandoned@),
                        #[trigger] entries@[j],
                        writer.calls(),
                        o,
                    ),
            ensures
                i <= count,
                log.processed == i,
                key_views(log.written@) == keys_to_write(c, cache@, entries@.take(i as int)),
                forall|k: KeyView| #[trigger]
                    key_views(log.abandoned@).contains(k) ==> key_views(log.written@).contains(k),
                key_views(seen@) == entry_keys(c, entries@.take(i as int)),
                !has_stale_other(c, cache@, entries@.take(i as int)),
                log.progress@.len() == i,
                forall|j: int| 0 <= j < i ==> #[trigger] log.progress@[j] == percent_of(j + 1, count as int),
                log.evicted@.len() == 0,
                writer.calls().len() >= o,
                writer.calls().subrange(0, o) == before,
                walk_calls(writer.calls(), o, writer.calls().len() as int, key_views(log.written@), key_views(log.abandoned@)),
                pipes.reported() == reported0 + log.progress@,
                pipes.answers().len() == answers0.len() + i + (if cancelled { 1int } else { 0int }),
                pipes.answers().subrange(0, answers0.len() as int) == answers0,
                forall|j: int| 0 <= j < i ==> !(#[trigger] pipes.answers()[answers0.len() + j]),
                cancelled ==> pipes.answers().last(),
                forall|j: int|
                    0 <= j < i ==> file_handed(
                        c,
                        cache@,
                        key_views(log.abandoned@),
                        #[trigger] entries@[j],
                        writer.calls(),
                        o,
                    ),
                !cancelled ==> i == count,
            decreases count - i,
        {
            let ghost answers_prev = pipes.answers();
            let check = pipes.is_cancelled();
            proof {
                assert(pipes.answers().subrange(0, answers0.len() as int) =~= answers0);
                assert forall|j: int| 0 <= j < i implies !(#[trigger] pipes.answers()[answers0.len() + j]) by {
                    assert(pipes.answers()[answers0.len() + j] == answers_prev[answers0.len() + j]);
                }
            }
            if let WalkStep::Stop(_) = on_cancel_check(check) {
                cancelled = true;
                break;
            }
            let entry = &entries[i];
            let entry_path = match entry.path() {
                Some(p) => p.to_string(),
                None => String::new(),
            };
            let relative = relative_path(repo.disk_path.as_str(), entry_path.as_str());
            let normalized = join_path(repo.disk_path.as_str(), relative.as_str());
            let relative_copy = relative.clone();
            let normalized_copy = normalized.clone();
            let workload = Workload::new(
                &cache,
                repo.disk_path.as_str(),
                repo_name.as_str(),
                repo_metadata,
                reporef.reference.clone(),
                relative,
                normalized,
                repo_metadata.commit_hash.clone(),
            );
            let ghost wl = workload;
            let ghost prev_written = log.written@;
            let ghost prev_abandoned = log.abandoned@;
            let ghost prev_seen = seen@;
            let ghost mid = writer.calls();
            let ghost ow = mid.len() as int;
            proof {
                assert(entries@.take(i + 1).drop_last() =~= entries@.take(i as int));
                assert(entries@.take(i + 1).last() == entries@[i as int]);
            }
            i = i + 1;
            log.processed = i;
            match self.worker(entry, workload, writer) {
                Ok(done) => {
                    proof {
                        assert(done.key@ == entry_key(c, entries@[i - 1]));
                    }
                    if done.outcome == Outcome::Written || done.outcome == Outcome::Abandoned {
                        log.written.push(done.key.duplicate());
                        assert(key_views(log.written@) =~= key_views(prev_written).push(done.key@));
                    }
                    if done.outcome == Outcome::Abandoned {
                        log.abandoned.push(done.key.duplicate());
                        assert(key_views(log.abandoned@) =~= key_views(prev_abandoned).push(done.key@));
                    }
                    proof {
                        let wv = key_views(log.written@);
                        let av = key_views(log.abandoned@);
                        lemma_push_contains(key_views(prev_written), done.key@);
                        lemma_push_contains(key_views(prev_abandoned), done.key@);
                        assert(forall|k: KeyView| key_views(prev_written).contains(k) ==> #[trigger] wv.contains(k));
                        assert(forall|k: KeyView| key_views(prev_abandoned).contains(k) ==> #[trigger] av.contains(k));
                        assert forall|k: KeyView| #[trigger] av.contains(k) implies wv.contains(k) by {
                            if !key_views(prev_abandoned).contains(k) {
                                assert(k == done.key@);
                            }
                        }
                        let calls = writer.calls();
                        assert(calls.subrange(0, o) =~= before) by {
                            assert forall|j: int| 0 <= j < o implies calls[j] == before[j] by {
                                assert(calls.subrange(0, ow)[j] == mid[j]);
                                assert(mid.subrange(0, o)[j] == before[j]);
                            }
                        }
                        assert forall|j: int| o <= j < calls.len() implies walk_call(#[trigger] calls[j], wv, av) by {
                            if j < ow {
                                assert(calls.subrange(0, ow)[j] == mid[j]);
                                assert(walk_call(mid[j], key_views(prev_written), key_views(prev_abandoned)));
                                lemma_walk_call_grows(mid[j], key_views(prev_written), key_views(prev_abandoned), wv, av);
                            } else {
                                let spans = snippet_spans(entries@[i - 1]->File_0.buffer@);
                                let k = j - ow;
                                assert(calls[ow + k] == calls[j]);
                                if done.outcome == Outcome::Written {
                                    assert(wl.adds_built(done.key@, spans, calls, ow, spans.len() as int));
                                    if k < spans.len() - 1 {
                                        assert(write_step(calls[ow + k]->Add_1) == WriteStep::Next);
                                    } else {
                                        assert(calls[j] == calls.last());
                                    }
                                } else {
                                    assert(done.outcome == Outcome::Abandoned);
                                    if k < done.sent {
                                        assert(write_step(calls[ow + k]->Add_1) == WriteStep::Next);
                                    } else if k == done.sent {
                                    } else {
                                        assert(calls[j] == calls.last());
                                    }
                                }
                            }
                        }
                    }
                    proof {
                        let calls = writer.calls();
                        let av = key_views(log.abandoned@);
                        assert(calls.subrange(0, ow) =~= mid);
                        assert forall|j: int| 0 <= j < i implies file_handed(c, cache@, av, #[trigger] entries@[j], calls, o) by {
                            if j < i - 1 {
                                lemma_handed_extends(c, cache@, key_views(prev_abandoned), av, entries@[j], mid, calls, o);
                            } else {
                                let e = entries@[j];
                                if e is File && !cache@.contains(entry_key(c, e)) && !av.contains(entry_key(c, e)) {
                                    let spans = snippet_spans(e->File_0.buffer@);
                                    assert(done.outcome == Outcome::Written);
                                    assert(wl.adds_built(done.key@, spans, calls, ow, spans.len() as int));
                                    assert forall|s: int| 0 <= s < spans.len() implies #[trigger] snippet_handed(
                                        c,
                                        e,
                                        snippet_spans(e->File_0.buffer@)[s],
                                        calls,
                                        o,
                                    ) by {
                                        assert(calls[ow + s] is Add);
                                        assert(wl.document_spec(done.key@, spans[s], calls[ow + s]->Add_0));
                                        assert(pass_document(c, e, spans[s], calls[ow + s]->Add_0));
                                    }
                                }
                            }
                        }
                    }
                    seen.push(done.key);
                    proof {
                        assert(key_views(seen@) =~= key_views(prev_seen).push(entry_key(c, entries@[i - 1])));
                        assert(entry_keys(c, entries@.take(i as int)) =~= entry_keys(c, entries@.take(i - 1)).push(
                            entry_key(c, entries@[i - 1]),
                        ));
                        assert(!has_stale_other(c, cache@, entries@.take(i as int))) by {
                            assert forall|j: int| 0 <= j < i implies !is_stale_other(c, cache@, #[trigger] entries@.take(i as int)[j]) by {
                                if j < i - 1 {
                                    assert(entries@.take(i as int)[j] == entries@.take(i - 1)[j]);
                                }
                            }
                        }
                    }
                },
                Err(e) => {
                    let ghost key = wl.key_spec(self.schema_version@, entries@[i - 1]);
                    proof {
                        assert(key == entry_key(c, entries@[i - 1]));
                        assert(entries@.take(i - 1) =~= entries@.take(i as int).drop_last());
                    }
                    if e == IndexError::WriterUnavailable {
                        let again = Workload::new(
                            &cache,
                            repo.disk_path.as_str(),
                            repo_name.as_str(),
                            repo_metadata,
                            reporef.reference.clone(),
                            relative_copy,
                            normalized_copy,
                            repo_metadata.commit_hash.clone(),
                        );
                        let failed_key = again.cache_keys(self.schema_version.as_str(), entry);
                        log.written.push(failed_key);
                        assert(key_views(log.written@) =~= key_views(prev_written).push(key));
                    }
                    proof {
                        let wv = key_views(log.written@);
                        let av = key_views(log.abandoned@);
                        lemma_push_contains(key_views(prev_written), key);
                        assert(forall|k: KeyView| key_views(prev_written).contains(k) ==> #[trigger] wv.contains(k));
                        assert forall|k: KeyView| #[trigger] av.contains(k) implies wv.contains(k) by {}
                        if e != IndexError::UnsupportedEntry {
                            assert(!has_stale_other(c, cache@, entries@.take(i as int))) by {
                                assert forall|j: int| 0 <= j < i implies !is_stale_other(c, cache@, #[trigger] entries@.take(i as int)[j]) by {
                                    if j < i - 1 {
                                        assert(entries@.take(i as int)[j] == entries@.take(i - 1)[j]);
                                    }
                                }
                            }
                        }
                        if e == IndexError::UnsupportedEntry {
                            assert(!(entries@.take(i as int).last() is File));
                        }
                        assert(is_nondecreasing(log.progress@)) by {
                            assert forall|a: int, b: int| 0 <= a <= b < log.progress@.len() implies log.progress@[a] <= log.progress@[b] by {
                                lemma_percent_ordered(a + 1, b + 1, count as int);
                            }
                        }
                        assert forall|j: int| 0 <= j < log.progress@.len() implies #[trigger] log.progress@[j] <= 100 by {
                            lemma_percent_ordered(j + 1, j + 1, count as int);
                        }
                        let calls = writer.calls();
                        assert(calls.subrange(0, o) =~= before) by {
                            assert forall|j: int| 0 <= j < o implies calls[j] == before[j] by {
                                assert(calls.subrange(0, ow)[j] == mid[j]);
                                assert(mid.subrange(0, o)[j] == before[j]);
                            }
                        }
                        let end = if e == IndexError::WriterUnavailable { calls.len() - 1 } else { calls.len() as int };
                        assert forall|j: int| o <= j < end implies walk_call(#[trigger] calls[j], wv, av) by {
                            if j < ow {
                                assert(calls.subrange(0, ow)[j] == mid[j]);
                                assert(walk_call(mid[j], key_views(prev_written), key_views(prev_abandoned)));
                                lemma_walk_call_grows(mid[j], key_views(prev_written), key_views(prev_abandoned), wv, av);
                            } else {
                                let spans = snippet_spans(entries@[i - 1]->File_0.buffer@);
                                let m = choose|m: int|
                                    1 <= m && calls.len() == ow + m && wl.adds_built(key, spans, calls, ow, m)
                                        && write_step(calls.last()->Add_1) == WriteStep::Fail(e);
                                let k = j - ow;
                                assert(calls[ow + k] == calls[j]);
                                assert(write_step(calls[ow + k]->Add_1) == WriteStep::Next);
                            }
                        }
                        if e == IndexError::WriterUnavailable {
                            let spans = snippet_spans(entries@[i - 1]->File_0.buffer@);
                            let m = choose|m: int|
                                1 <= m && calls.len() == ow + m && wl.adds_built(key, spans, calls, ow, m)
                                    && write_step(calls.last()->Add_1) == WriteStep::Fail(e);
                            assert(calls[ow + (m - 1)] is Add);
                            assert(calls.last() == calls[ow + (m - 1)]);
                        }
                    }
                    proof {
                        lemma_new_answers(pipes.answers(), answers0.len() as int, i as int);
                    }
                    return (Err(e), log);
                },
            }
            proof {
                lemma_percent_ordered(i as int, i as int, count as int);
            }
            let percent = ((i as u128) * 100 / (count as u128)) as u8;
            pipes.index_percent(percent);
            log.progress.push(percent);
            proof {
                assert(pipes.reported() =~= reported0 + log.progress@);
            }
        }
        proof {
            assert forall|a: int, b: int| 0 <= a <= b < log.progress@.len() implies log.progress@[a] <= log.progress@[b] by {
                lemma_percent_ordered(a + 1, b + 1, count as int);
            }
            assert forall|j: int| 0 <= j < log.progress@.len() implies #[trigger] log.progress@[j] <= 100 by {
                lemma_percent_ordered(j + 1, j + 1, count as int);
            }
        }
        if cancelled {
            proof {
                lemma_new_answers(pipes.answers(), answers0.len() as int, i as int);
                assert(pipes.answers().last() == pipes.answers()[answers0.len() + i]);
            }
            return (Err(IndexError::Cancelled), log);
        }
        let ghost answers_prev = pipes.answers();
        let last_check = pipes.is_cancelled();
        proof {
            assert(pipes.answers().subrange(0, answers0.len() as int) =~= answers0);
            assert forall|j: int| 0 <= j < i implies !(#[trigger] pipes.answers()[answers0.len() + j]) by {
                assert(pipes.answers()[answers0.len() + j] == answers_prev[answers0.len() + j]);
            }
        }
        proof {
            lemma_new_answers(pipes.answers(), answers0.len() as int, i as int);
            assert(pipes.answers()[answers0.len() + i] == last_check);
        }
        if let WalkStep::Stop(e) = on_cancel_check(last_check) {
            return (Err(e), log);
        }
        proof {
            assert(entries@.take(count as int) =~= entries@);
        }
        let kept = retain_absent(&seen, &log.abandoned);
        let ghost walk = writer.calls();
        let evicted = store.synchronize(&cache, kept, writer);
        log.evicted = evicted;
        proof {
            let calls = writer.calls();
            assert(calls.subrange(0, walk.len() as int) =~= walk);
            assert(calls.subrange(walk.len() as int, calls.len() as int) =~= delete_calls(key_views(log.evicted@)));
            assert(calls.subrange(0, o) =~= before) by {
                assert forall|j: int| 0 <= j < o implies calls[j] == before[j] by {
                    assert(calls.subrange(0, walk.len() as int)[j] == walk[j]);
                    assert(walk.subrange(0, o)[j] == before[j]);
                }
            }
            assert forall|j: int| o <= j < walk.len() implies walk_call(#[trigger] calls[j], key_views(log.written@), key_views(log.abandoned@)) by {
                assert(calls.subrange(0, walk.len() as int)[j] == walk[j]);
            }
            assert forall|j: int| 0 <= j < count implies file_handed(c, cache@, key_views(log.abandoned@), #[trigger] entries@[j], calls, o) by {
                lemma_handed_extends(c, cache@, key_views(log.abandoned@), key_views(log.abandoned@), entries@[j], walk, calls, o);
            }
        }
        pipes.index_percent(100);
        log.progress.push(100);
        proof {
            assert(pipes.reported() =~= reported0 + log.progress@);
        }
        (Ok(()), log)
    }
}

impl Snippet {
    /// Handles one walked entry. An entry whose key the snapshot holds is
    /// skipped; otherwise a directory has nothing to write, a file has its
    /// documents handed to the writer one by one, and any other entry fails
    /// the pass. The index's answer to each document decides what follows
    /// (see `on_write`): a refused document abandons the file, whose written
    /// documents are deleted again, and an unavailable writer fails the pass.
    pub fn worker<W: IndexWriter>(
        &self,
        dir_entry: &RepoDirectoryEntry,
        workload: Workload<'_>,
        writer: &mut LoggedWriter<W>,
    ) -> (r: Result<Processed, IndexError>)
        ensures
            ({
                let key = workload.key_spec(self.schema_version@, *dir_entry);
                let fresh = workload.cache@.contains(key);
                let before = old(writer).calls();
                let after = final(writer).calls();
                let o = before.len() as int;
                &&& after.len() >= o
                &&& after.subrange(0, o) == before
                &&& fresh ==> r is Ok && r->Ok_0.key@ == key && r->Ok_0.outcome == Outcome::Fresh
                    && r->Ok_0.sent == 0 && after == before
                &&& !fresh && *dir_entry is Other ==> r is Err && r->Err_0
                    == IndexError::UnsupportedEntry && after == before
                &&& !fresh && *dir_entry is Dir ==> r is Ok && r->Ok_0.key@ == key && r->Ok_0.outcome
                    == Outcome::Directory && r->Ok_0.sent == 0 && after == before
                &&& !fresh && *dir_entry is File ==> {
                    let spans = snippet_spans(dir_entry->File_0.buffer@);
                    match r {
                        Ok(p) => {
                            &&& p.key@ == key
                            &&& p.outcome == Outcome::Written || p.outcome == Outcome::Abandoned
                            &&& p.outcome == Outcome::Written ==> {
                                &&& p.sent == spans.len()
                                &&& after.len() == o + spans.len()
                                &&& workload.adds_built(key, spans, after, o, spans.len() as int)
                                &&& spans.len() > 0 ==> write_step(after.last()->Add_1) == WriteStep::Next
                            }
                            &&& p.outcome == Outcome::Abandoned ==> {
                                &&& p.sent < spans.len()
                                &&& after.len() == o + p.sent + 2
                                &&& workload.adds_built(key, spans, after, o, p.sent + 1)
                                &&& write_step(after[o + p.sent]->Add_1) == WriteStep::AbandonFile
                                &&& after.last() == WriterCall::DeleteKey(key)
                            }
                        },
                        Err(e) => exists|m: int|
                            1 <= m && after.len() == o + m && workload.adds_built(key, spans, after, o, m)
                                && write_step(after.last()->Add_1) == WriteStep::Fail(e),
                    }
                }
            }),
    {
        let ghost before = writer.calls();
        let ghost o = before.len() as int;
        let cache_keys = workload.cache_keys(self.schema_version.as_str(), dir_entry);
        if workload.cache.is_fresh(&cache_keys) {
            assert(writer.calls().subrange(0, o) =~= before);
            return Ok(Processed { key: cache_keys, outcome: Outcome::Fresh, sent: 0 });
        }
        assert(writer.calls().subrange(0, o) =~= before);
        match dir_entry {
            RepoDirectoryEntry::File(file) => {
                let documents = workload.build_documents(file.buffer.as_str(), &cache_keys);
                let ghost spans = snippet_spans(file.buffer@);
                let mut i: usize = 0;
                while i < documents.len()
                    invariant
                        i <= documents@.len(),
                        *dir_entry is File,
                        dir_entry->File_0 == *file,
                        spans == snippet_spans(file.buffer@),
                        cache_keys@ == workload.key_spec(self.schema_version@, *dir_entry),
                        !workload.cache@.contains(cache_keys@),
                        documents@.len() == spans.len(),
                        forall|k: int|
                            0 <= k < documents@.len() ==> workload.document_spec(
                                cache_keys@,
                                spans[k],
                                #[trigger] documents@[k],
                            ),
                        before == old(writer).calls(),
                        o == before.len(),
                        writer.calls().len() == o + i,
                        writer.calls().subrange(0, o) == before,
                        workload.adds_built(cache_keys@, spans, writer.calls(), o, i as int),
                        forall|k: int|
                            0 <= k < i ==> write_step((#[trigger] writer.calls()[o + k])->Add_1)
                                == WriteStep::Next,
                    decreases documents@.len() - i,
                {
                    let ghost prev = writer.calls();
                    let doc = documents[i].duplicate();
                    let ghost d = doc;
                    assert(workload.document_spec(cache_keys@, spans[i as int], d));
                    let answer = writer.add_document(doc);
                    proof {
                        assert(writer.calls() == prev.push(WriterCall::Add(d, answer)));
                        assert(writer.calls().subrange(0, o) =~= before);
                        assert forall|k: int| 0 <= k < i + 1 implies (#[trigger] writer.calls()[o + k]) is Add
                            && workload.document_spec(cache_keys@, spans[k], writer.calls()[o + k]->Add_0) by {
                            if k < i {
                                assert(writer.calls()[o + k] == prev[o + k]);
                            }
                        }
                        assert forall|k: int| 0 <= k < i implies write_step(
                            (#[trigger] writer.calls()[o + k])->Add_1,
                        ) == WriteStep::Next by {
                            assert(writer.calls()[o + k] == prev[o + k]);
                        }
                    }
                    match on_write(&answer) {
                        WriteStep::Next => {},
                        WriteStep::AbandonFile => {
                            let ghost mid = writer.calls();
                            writer.delete_by_cache_key(&cache_keys);
                            proof {
                                assert(writer.calls().subrange(0, o) =~= before);
                                assert forall|k: int| 0 <= k < i + 1 implies (#[trigger] writer.calls()[o + k]) is Add
                                    && workload.document_spec(cache_keys@, spans[k], writer.calls()[o + k]->Add_0) by {
                                    assert(writer.calls()[o + k] == mid[o + k]);
                                }
                                assert forall|k: int| 0 <= k < i implies write_step(
                                    (#[trigger] writer.calls()[o + k])->Add_1,
                                ) == WriteStep::Next by {
                                    assert(writer.calls()[o + k] == mid[o + k]);
                                }
                                assert(writer.calls()[o + i] == mid[o + i]);
                                assert(mid[o + i] == WriterCall::Add(d, answer));
                                assert(writer.calls().last() == WriterCall::DeleteKey(cache_keys@));
                                assert(workload.adds_built(cache_keys@, spans, writer.calls(), o, i + 1));
                            }
                            return Ok(Processed { key: cache_keys, outcome: Outcome::Abandoned, sent: i });
                        },
                        WriteStep::Fail(e) => {
                            assert(workload.adds_built(cache_keys@, spans, writer.calls(), o, i + 1));
                            assert(writer.calls().last() == WriterCall::Add(d, answer));
                            assert(write_step(writer.calls().last()->Add_1) == WriteStep::Fail(e));
                            return Err(e);
                        },
                    }
                    i = i + 1;
                }
                proof {
                    if i > 0 {
                        assert(writer.calls().last() == writer.calls()[o + (i - 1)]);
                    }
                }
                Ok(Processed { key: cache_keys, outcome: Outcome::Written, sent: i })
            },
            RepoDirectoryEntry::Dir(_) => Ok(Processed { key: cache_keys, outcome: Outcome::Directory, sent: 0 }),
            RepoDirectoryEntry::Other => Err(IndexError::UnsupportedEntry),
        }
    }

    /// Removes every document of `repo`, when the repository goes entirely:
    /// the writer is handed the repository's disk path, and nothing else.
    pub fn delete_by_repo<W: IndexWriter>(&self, writer: &mut LoggedWriter<W>, repo: &Repository)
        ensures
            final(writer).calls() == old(writer).calls().push(WriterCall::DeleteRepo(repo.disk_path@)),
    {
        writer.delete_by_repo_path(repo.disk_path.as_str());
    }

    /// The schema version that this index folds into its cache keys.
    pub fn schema(&self) -> (r: String)
        ensures
            r@ == self.schema_version@,
    {
        self.schema_version.clone()
    }
}

} // verus!
