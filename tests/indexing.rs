use std::cell::{Cell, RefCell};

use snippet_index::cache::{CacheKey, CacheStore};
use snippet_index::document::{snippet_spans_of, SnippetDocument, SNIPPET_LINES};
use snippet_index::hashing::derive_hashes;
use snippet_index::indexer::{IndexError, Outcome, Snippet, Workload};
use snippet_index::repo::{FileEntry, RepoDirectoryEntry, RepoMetadata, RepoRef, Repository};
use snippet_index::text::{join_path, relative_path};
use snippet_index::writer::{
    on_cancel_check, on_write, IndexWriter, LoggedPipes, LoggedWriter, SyncPipes, WalkStep,
    WriteError, WriteStep,
};

#[derive(Default)]
struct SpyWriter {
    added: Vec<SnippetDocument>,
    deleted_keys: Vec<CacheKey>,
    deleted_repos: Vec<String>,
    reject_path: Option<String>,
    unavailable: bool,
}

impl IndexWriter for SpyWriter {
    fn add_document(&mut self, doc: SnippetDocument) -> Result<(), WriteError> {
        if self.unavailable {
            return Err(WriteError::Unavailable);
        }
        if self.reject_path.as_deref() == Some(doc.relative_path.as_str()) {
            return Err(WriteError::Rejected);
        }
        self.added.push(doc);
        Ok(())
    }

    fn delete_by_cache_key(&mut self, key: &CacheKey) {
        self.deleted_keys.push(key.duplicate());
    }

    fn delete_by_repo_path(&mut self, disk_path: &str) {
        self.deleted_repos.push(disk_path.to_string());
    }
}

struct Pipes {
    percents: RefCell<Vec<u8>>,
    // Number of cancellation checks answered "no" before the first "yes".
    checks_before_cancel: Cell<Option<usize>>,
}

impl Pipes {
    fn new() -> Self {
        Pipes { percents: RefCell::new(Vec::new()), checks_before_cancel: Cell::new(None) }
    }

    fn cancelling_after(checks: usize) -> Self {
        Pipes { percents: RefCell::new(Vec::new()), checks_before_cancel: Cell::new(Some(checks)) }
    }
}

impl SyncPipes for Pipes {
    fn index_percent(&mut self, percent: u8) {
        self.percents.borrow_mut().push(percent);
    }

    fn is_cancelled(&mut self) -> bool {
        match self.checks_before_cancel.get() {
            None => false,
            Some(0) => true,
            Some(n) => {
                self.checks_before_cancel.set(Some(n - 1));
                false
            }
        }
    }
}

fn file(path: &str, content: &str) -> RepoDirectoryEntry {
    RepoDirectoryEntry::File(FileEntry { path: path.to_string(), buffer: content.to_string() })
}

fn dir(path: &str) -> RepoDirectoryEntry {
    RepoDirectoryEntry::Dir(path.to_string())
}

fn snippet(schema: &str) -> Snippet {
    Snippet { schema_version: schema.to_string() }
}

fn reporef() -> RepoRef {
    RepoRef::new("demo".to_string(), "local//repo".to_string())
}

fn repo() -> Repository {
    Repository { disk_path: "/repo".to_string() }
}

fn meta() -> RepoMetadata {
    RepoMetadata { commit_hash: "c0ffee".to_string(), last_commit_unix_secs: Some(1700000000) }
}

fn walk() -> Vec<RepoDirectoryEntry> {
    vec![
        dir("/repo/src"),
        file("/repo/src/a.rs", "fn a() {}\n"),
        file("/repo/src/b.rs", "fn b() {}\nfn c() {}\n"),
        file("/repo/README.md", "hello\n"),
    ]
}

fn run(
    s: &Snippet,
    store: &mut CacheStore,
    entries: &Vec<RepoDirectoryEntry>,
    writer: &mut SpyWriter,
    pipes: &mut Pipes,
) -> (Result<(), IndexError>, snippet_index::indexer::PassLog) {
    let mut lw = LoggedWriter::new(std::mem::take(writer));
    let mut lp = LoggedPipes::new(std::mem::replace(pipes, Pipes::new()));
    let out = s.index_repository(&reporef(), &repo(), &meta(), store, entries, &mut lw, &mut lp);
    *writer = lw.inner;
    *pipes = lp.inner;
    out
}

fn paths_of(keys: &[CacheKey]) -> Vec<String> {
    keys.iter().map(|k| k.path.clone()).collect()
}

#[test]
fn derive_hashes_is_deterministic() {
    let a = derive_hashes("v1", "src/a.rs", "local//repo", Some("fn a() {}\n"));
    let b = derive_hashes("v1", "src/a.rs", "local//repo", Some("fn a() {}\n"));
    assert_eq!(a, b);
    assert_eq!(a.0.len(), 64);
    assert_eq!(a.1.len(), 64);
}

#[test]
fn content_hash_is_blake3_of_content() {
    let (semantic, content) = derive_hashes("v1", "src/a.rs", "r", Some("abc"));
    assert_eq!(content, blake3::hash(b"abc").to_hex().to_string());
    assert_eq!(semantic, blake3::hash(b"v1src/a.rsrabc").to_hex().to_string());
    assert_ne!(semantic, content);
}

#[test]
fn content_hash_ignores_path_and_ref() {
    let a = derive_hashes("v1", "a.rs", "r1", Some("same"));
    let b = derive_hashes("v2", "b.rs", "r2", Some("same"));
    assert_eq!(a.1, b.1);
    assert_ne!(a.0, b.0);
}

#[test]
fn directory_gets_sentinel_content_hash() {
    let (semantic, content) = derive_hashes("v1", "src", "r", None);
    assert_eq!(content, "no_content_hash");
    assert_eq!(semantic, blake3::hash(b"v1srcr").to_hex().to_string());
}

#[test]
fn schema_version_changes_semantic_hash() {
    let a = derive_hashes("v1", "a.rs", "r", Some("x"));
    let b = derive_hashes("v2", "a.rs", "r", Some("x"));
    assert_ne!(a.0, b.0);
    assert_eq!(a.1, b.1);
}

#[test]
fn relative_path_strips_root() {
    assert_eq!(relative_path("/repo", "/repo/src/a.rs"), "src/a.rs");
    assert_eq!(relative_path("/repo/", "/repo/src/a.rs"), "src/a.rs");
    assert_eq!(relative_path("/repo", "/repo"), "");
    assert_eq!(relative_path("/repo", "/repository/a.rs"), "/repository/a.rs");
    assert_eq!(relative_path("/repo", "/other/a.rs"), "/other/a.rs");
}

#[test]
fn join_path_joins() {
    assert_eq!(join_path("/repo", "src/a.rs"), "/repo/src/a.rs");
    assert_eq!(join_path("/repo/", "src/a.rs"), "/repo/src/a.rs");
    assert_eq!(join_path("/repo", "/abs/a.rs"), "/abs/a.rs");
    assert_eq!(join_path("/repo", ""), "/repo/");
}

#[test]
fn empty_content_has_no_snippets() {
    assert!(snippet_spans_of("").is_empty());
}

#[test]
fn short_file_is_one_snippet() {
    let spans = snippet_spans_of("a\nb\nc");
    assert_eq!(spans.len(), 1);
    assert_eq!(spans[0].line_start, 0);
    assert_eq!(spans[0].line_end, 3);
    assert_eq!(spans[0].content, "a\nb\nc");
}

#[test]
fn trailing_newline_starts_no_line() {
    let spans = snippet_spans_of("a\nb\n");
    assert_eq!(spans.len(), 1);
    assert_eq!(spans[0].line_end, 2);
    assert_eq!(spans[0].content, "a\nb\n");
}

#[test]
fn long_file_is_split_by_line_count() {
    let text: String = (0..(SNIPPET_LINES * 2 + 5)).map(|i| format!("line {}\n", i)).collect();
    let spans = snippet_spans_of(&text);
    assert_eq!(spans.len(), 3);
    assert_eq!((spans[0].line_start, spans[0].line_end), (0, SNIPPET_LINES));
    assert_eq!((spans[1].line_start, spans[1].line_end), (SNIPPET_LINES, 2 * SNIPPET_LINES));
    assert_eq!((spans[2].line_start, spans[2].line_end), (2 * SNIPPET_LINES, 2 * SNIPPET_LINES + 5));
    assert!(spans[0].content.starts_with("line 0\n"));
    assert!(spans[1].content.starts_with(&format!("line {}\n", SNIPPET_LINES)));
    let joined: String = spans.iter().map(|s| s.content.as_str()).collect();
    assert_eq!(joined, text);
}

#[test]
fn first_pass_writes_every_file() {
    let s = snippet("v1");
    let mut store = CacheStore::new();
    let mut w = SpyWriter::default();
    let mut pipes = Pipes::new();
    let entries = walk();
    let (res, log) = run(&s, &mut store, &entries, &mut w, &mut pipes);
    assert_eq!(res, Ok(()));
    assert_eq!(log.processed, 4);
    assert_eq!(
        paths_of(&log.written),
        vec!["/repo/src/a.rs", "/repo/src/b.rs", "/repo/README.md"]
    );
    assert_eq!(w.added.len(), 3);
    assert_eq!(w.added[1].relative_path, "src/b.rs");
    assert_eq!(w.added[1].repo_name, "demo");
    assert_eq!(w.added[1].repo_ref, "local//repo");
    assert_eq!(w.added[1].line_end, 2);
    assert_eq!(w.added[1].last_commit_unix_secs, 1700000000);
    assert_eq!(w.added[1].repo_disk_path, "/repo");
    assert_eq!(store.keys().len(), 4);
    assert!(log.evicted.is_empty());
    assert!(w.deleted_keys.is_empty());
}

#[test]
fn second_pass_over_unchanged_repo_is_idle() {
    let s = snippet("v1");
    let mut store = CacheStore::new();
    let entries = walk();
    let mut w = SpyWriter::default();
    let (res, _) = run(&s, &mut store, &entries, &mut w, &mut Pipes::new());
    assert_eq!(res, Ok(()));
    let mut w2 = SpyWriter::default();
    let (res2, log2) = run(&s, &mut store, &entries, &mut w2, &mut Pipes::new());
    assert_eq!(res2, Ok(()));
    assert!(log2.written.is_empty());
    assert!(log2.evicted.is_empty());
    assert!(w2.added.is_empty());
    assert!(w2.deleted_keys.is_empty());
}

#[test]
fn changed_file_alone_is_rewritten() {
    let s = snippet("v1");
    let mut store = CacheStore::new();
    let entries = walk();
    run(&s, &mut store, &entries, &mut SpyWriter::default(), &mut Pipes::new());
    let mut changed = walk();
    changed[2] = file("/repo/src/b.rs", "fn b() { changed }\n");
    let mut w = SpyWriter::default();
    let (res, log) = run(&s, &mut store, &changed, &mut w, &mut Pipes::new());
    assert_eq!(res, Ok(()));
    assert_eq!(paths_of(&log.written), vec!["/repo/src/b.rs"]);
    assert_eq!(w.added.len(), 1);
    assert_eq!(w.added[0].content, "fn b() { changed }\n");
    // The old version's documents go at reconciliation.
    assert_eq!(paths_of(&log.evicted), vec!["/repo/src/b.rs"]);
    assert_eq!(w.deleted_keys.len(), 1);
    assert_eq!(store.keys().len(), 4);
}

#[test]
fn deleted_file_is_evicted() {
    let s = snippet("v1");
    let mut store = CacheStore::new();
    run(&s, &mut store, &walk(), &mut SpyWriter::default(), &mut Pipes::new());
    let mut fewer = walk();
    let gone = fewer.remove(1);
    let mut w = SpyWriter::default();
    let (res, log) = run(&s, &mut store, &fewer, &mut w, &mut Pipes::new());
    assert_eq!(res, Ok(()));
    assert!(log.written.is_empty());
    assert_eq!(paths_of(&log.evicted), vec!["/repo/src/a.rs"]);
    assert_eq!(paths_of(&w.deleted_keys), vec!["/repo/src/a.rs"]);
    assert_eq!(store.keys().len(), 3);
    assert!(matches!(gone, RepoDirectoryEntry::File(_)));
}

#[test]
fn schema_bump_reprocesses_every_file() {
    let mut store = CacheStore::new();
    run(&snippet("v1"), &mut store, &walk(), &mut SpyWriter::default(), &mut Pipes::new());
    let mut w = SpyWriter::default();
    let (res, log) = run(&snippet("v2"), &mut store, &walk(), &mut w, &mut Pipes::new());
    assert_eq!(res, Ok(()));
    assert_eq!(log.written.len(), 3);
    assert_eq!(w.added.len(), 3);
    // Every key of the old schema, the directory's too, is evicted.
    assert_eq!(log.evicted.len(), 4);
    assert_eq!(store.keys().len(), 4);
}

#[test]
fn cancellation_stops_without_synchronize() {
    let s = snippet("v1");
    let mut store = CacheStore::new();
    run(&s, &mut store, &walk(), &mut SpyWriter::default(), &mut Pipes::new());
    let before = store.keys().len();
    let mut fewer = walk();
    fewer.remove(1);
    fewer.push(file("/repo/new.rs", "new\n"));
    let mut w = SpyWriter::default();
    let mut pipes = Pipes::cancelling_after(2);
    let (res, log) = run(&s, &mut store, &fewer, &mut w, &mut pipes);
    assert_eq!(res, Err(IndexError::Cancelled));
    assert_eq!(log.processed, 2);
    assert!(log.evicted.is_empty());
    assert!(w.deleted_keys.is_empty());
    assert!(w.added.is_empty());
    assert_eq!(store.keys().len(), before);
    assert!(!pipes.percents.borrow().contains(&100));
}

#[test]
fn cancellation_after_the_walk_is_still_cancelled() {
    let s = snippet("v1");
    let mut store = CacheStore::new();
    let mut w = SpyWriter::default();
    let mut pipes = Pipes::cancelling_after(4);
    let (res, log) = run(&s, &mut store, &walk(), &mut w, &mut pipes);
    assert_eq!(res, Err(IndexError::Cancelled));
    assert_eq!(log.processed, 4);
    assert_eq!(w.added.len(), 3);
    assert!(store.keys().is_empty());
}

#[test]
fn other_entry_aborts_the_pass() {
    let s = snippet("v1");
    let mut store = CacheStore::new();
    let mut entries = walk();
    entries.insert(2, RepoDirectoryEntry::Other);
    let mut w = SpyWriter::default();
    let (res, log) = run(&s, &mut store, &entries, &mut w, &mut Pipes::new());
    assert_eq!(res, Err(IndexError::UnsupportedEntry));
    assert_eq!(log.processed, 3);
    assert_eq!(paths_of(&log.written), vec!["/repo/src/a.rs"]);
    assert_eq!(w.added.len(), 1);
    assert!(store.keys().is_empty());
    assert!(w.deleted_keys.is_empty());
}

#[test]
fn progress_is_monotone_and_ends_at_hundred() {
    let s = snippet("v1");
    let mut store = CacheStore::new();
    let mut pipes = Pipes::new();
    let (res, log) = run(&s, &mut store, &walk(), &mut SpyWriter::default(), &mut pipes);
    assert_eq!(res, Ok(()));
    let reported = pipes.percents.borrow().clone();
    assert_eq!(reported, vec![25, 50, 75, 100, 100]);
    assert_eq!(log.progress, reported);
    assert!(reported.windows(2).all(|w| w[0] <= w[1]));
}

#[test]
fn progress_rounds_down() {
    let s = snippet("v1");
    let mut store = CacheStore::new();
    let mut pipes = Pipes::new();
    let entries = vec![dir("/repo/a"), dir("/repo/b"), dir("/repo/c")];
    let (res, _) = run(&s, &mut store, &entries, &mut SpyWriter::default(), &mut pipes);
    assert_eq!(res, Ok(()));
    assert_eq!(*pipes.percents.borrow(), vec![33, 66, 100, 100]);
}

#[test]
fn empty_walk_reports_hundred() {
    let s = snippet("v1");
    let mut store = CacheStore::new();
    let mut pipes = Pipes::new();
    let (res, log) = run(&s, &mut store, &Vec::new(), &mut SpyWriter::default(), &mut pipes);
    assert_eq!(res, Ok(()));
    assert_eq!(log.progress, vec![100]);
}

#[test]
fn rejected_document_abandons_only_that_file() {
    let s = snippet("v1");
    let mut store = CacheStore::new();
    let mut w = SpyWriter { reject_path: Some("src/a.rs".to_string()), ..SpyWriter::default() };
    let (res, log) = run(&s, &mut store, &walk(), &mut w, &mut Pipes::new());
    assert_eq!(res, Ok(()));
    assert_eq!(paths_of(&log.abandoned), vec!["/repo/src/a.rs"]);
    assert_eq!(paths_of(&w.deleted_keys), vec!["/repo/src/a.rs"]);
    assert_eq!(w.added.len(), 2);
    assert_eq!(store.keys().len(), 3);
    // The abandoned file is retried by the next pass.
    let mut w2 = SpyWriter::default();
    let (res2, log2) = run(&s, &mut store, &walk(), &mut w2, &mut Pipes::new());
    assert_eq!(res2, Ok(()));
    assert_eq!(paths_of(&log2.written), vec!["/repo/src/a.rs"]);
}

#[test]
fn unavailable_writer_aborts_the_pass() {
    let s = snippet("v1");
    let mut store = CacheStore::new();
    let mut w = SpyWriter { unavailable: true, ..SpyWriter::default() };
    let (res, log) = run(&s, &mut store, &walk(), &mut w, &mut Pipes::new());
    assert_eq!(res, Err(IndexError::WriterUnavailable));
    assert_eq!(log.processed, 2);
    assert!(store.keys().is_empty());
}

#[test]
fn worker_skips_fresh_and_directories() {
    let s = snippet("v1");
    let mut store = CacheStore::new();
    run(&s, &mut store, &walk(), &mut SpyWriter::default(), &mut Pipes::new());
    let snapshot = store.retrieve();
    let m = meta();
    let entry = file("/repo/src/a.rs", "fn a() {}\n");
    let workload = Workload::new(
        &snapshot,
        "/repo",
        "demo",
        &m,
        "local//repo".to_string(),
        "src/a.rs".to_string(),
        "/repo/src/a.rs".to_string(),
        "c0ffee".to_string(),
    );
    let mut w = LoggedWriter::new(SpyWriter::default());
    let done = s.worker(&entry, workload, &mut w).ok().unwrap();
    assert!(w.inner.added.is_empty());
    assert_eq!(done.outcome, Outcome::Fresh);
    assert!(snapshot.is_fresh(&done.key));

    let fresh_store = CacheStore::new();
    let empty = fresh_store.retrieve();
    let workload = Workload::new(
        &empty,
        "/repo",
        "demo",
        &m,
        "local//repo".to_string(),
        "src".to_string(),
        "/repo/src".to_string(),
        "c0ffee".to_string(),
    );
    let done = s.worker(&dir("/repo/src"), workload, &mut w).ok().unwrap();
    assert_eq!(done.outcome, Outcome::Directory);
    assert_eq!(done.key.content_hash, "no_content_hash");
    assert!(w.inner.added.is_empty());
}

#[test]
fn worker_refuses_other_entries() {
    let s = snippet("v1");
    let store = CacheStore::new();
    let snapshot = store.retrieve();
    let m = meta();
    let workload = Workload::new(
        &snapshot,
        "/repo",
        "demo",
        &m,
        "r".to_string(),
        String::new(),
        "/repo/".to_string(),
        "c".to_string(),
    );
    let mut w = LoggedWriter::new(SpyWriter::default());
    let r = s.worker(&RepoDirectoryEntry::Other, workload, &mut w);
    assert!(w.inner.added.is_empty() && w.inner.deleted_keys.is_empty());
    assert!(matches!(r, Err(IndexError::UnsupportedEntry)));
}

#[test]
fn cache_key_parts() {
    let s = snippet("v1");
    let store = CacheStore::new();
    let snapshot = store.retrieve();
    let m = meta();
    let workload = Workload::new(
        &snapshot,
        "/repo",
        "demo",
        &m,
        "local//repo".to_string(),
        "src/a.rs".to_string(),
        "/repo/src/a.rs".to_string(),
        "c0ffee".to_string(),
    );
    let key = workload.cache_keys(&s.schema(), &file("/repo/src/a.rs", "abc"));
    assert_eq!(key.commit_hash, "c0ffee");
    assert_eq!(key.path, "/repo/src/a.rs");
    assert_eq!(key.content_hash, blake3::hash(b"abc").to_hex().to_string());
    assert_eq!(key.semantic_hash, blake3::hash(b"v1src/a.rslocal//repoabc").to_hex().to_string());
}

#[test]
fn delete_by_repo_uses_disk_path() {
    let s = snippet("v1");
    let mut w = LoggedWriter::new(SpyWriter::default());
    s.delete_by_repo(&mut w, &repo());
    assert_eq!(w.inner.deleted_repos, vec!["/repo".to_string()]);
}

#[test]
fn store_from_keys_round_trips() {
    let k = CacheKey::new("c".to_string(), "/p".to_string(), "h".to_string(), "s".to_string());
    let store = CacheStore::from_keys(vec![k.duplicate()]);
    let snap = store.retrieve();
    assert!(snap.is_fresh(&k));
    let other = CacheKey::new("c".to_string(), "/p".to_string(), "h2".to_string(), "s".to_string());
    assert!(!snap.is_fresh(&other));
    assert!(k.same(&k.duplicate()));
    assert!(!k.same(&other));
}

#[test]
fn worker_writes_each_snippet() {
    let s = snippet("v1");
    let store = CacheStore::new();
    let snapshot = store.retrieve();
    let m = meta();
    let text: String = (0..(SNIPPET_LINES + 1)).map(|i| format!("{}\n", i)).collect();
    let workload = Workload::new(
        &snapshot,
        "/repo",
        "demo",
        &m,
        "local//repo".to_string(),
        "big.txt".to_string(),
        "/repo/big.txt".to_string(),
        "c0ffee".to_string(),
    );
    let mut w = LoggedWriter::new(SpyWriter::default());
    let done = s.worker(&file("/repo/big.txt", &text), workload, &mut w).ok().unwrap();
    assert_eq!(done.outcome, Outcome::Written);
    assert_eq!(done.sent, 2);
    assert_eq!(w.inner.added.len(), 2);
    assert_eq!(w.inner.added[1].line_start, SNIPPET_LINES as u64);
    assert_eq!(w.inner.added[1].content, format!("{}\n", SNIPPET_LINES));
    assert!(w.inner.added.iter().all(|d| d.cache_key.same(&done.key)));
}

#[test]
fn write_answers_decide_the_step() {
    assert_eq!(on_write(&Ok(())), WriteStep::Next);
    assert_eq!(on_write(&Err(WriteError::Rejected)), WriteStep::AbandonFile);
    assert_eq!(
        on_write(&Err(WriteError::Unavailable)),
        WriteStep::Fail(IndexError::WriterUnavailable)
    );
}

#[test]
fn cancellation_answer_decides_the_step() {
    assert_eq!(on_cancel_check(true), WalkStep::Stop(IndexError::Cancelled));
    assert_eq!(on_cancel_check(false), WalkStep::Continue);
}

#[test]
fn logged_collaborators_see_a_pass() {
    let s = snippet("v1");
    let mut store = CacheStore::new();
    let mut w = LoggedWriter::new(SpyWriter::default());
    let mut pipes = LoggedPipes::new(Pipes::new());
    let (res, log) =
        s.index_repository(&reporef(), &repo(), &meta(), &mut store, &walk(), &mut w, &mut pipes);
    assert_eq!(res, Ok(()));
    assert_eq!(w.inner.added.len(), 3);
    assert!(w.inner.deleted_keys.is_empty());
    assert_eq!(*pipes.inner.percents.borrow(), log.progress);
    s.delete_by_repo(&mut w, &repo());
    assert_eq!(w.inner.deleted_repos, vec!["/repo".to_string()]);
}

#[test]
fn cancelled_before_any_work() {
    let s = snippet("v1");
    let mut store = CacheStore::new();
    let mut w = LoggedWriter::new(SpyWriter::default());
    let mut pipes = LoggedPipes::new(Pipes::cancelling_after(0));
    let (res, log) =
        s.index_repository(&reporef(), &repo(), &meta(), &mut store, &walk(), &mut w, &mut pipes);
    assert_eq!(res, Err(IndexError::Cancelled));
    assert_eq!(log.processed, 0);
    assert!(w.inner.added.is_empty());
    assert!(pipes.inner.percents.borrow().is_empty());
}

#[test]
fn unavailable_writer_counts_the_failed_file_as_written() {
    let s = snippet("v1");
    let mut store = CacheStore::new();
    let mut w = SpyWriter { unavailable: true, ..SpyWriter::default() };
    let (res, log) = run(&s, &mut store, &walk(), &mut w, &mut Pipes::new());
    assert_eq!(res, Err(IndexError::WriterUnavailable));
    assert_eq!(paths_of(&log.written), vec!["/repo/src/a.rs"]);
}

#[test]
fn fresh_other_entry_is_skipped() {
    let s = snippet("v1");
    let mut store = CacheStore::new();
    let (res, _) = run(&s, &mut store, &vec![dir("/repo")], &mut SpyWriter::default(), &mut Pipes::new());
    assert_eq!(res, Ok(()));
    // An entry without a path has the key of the repository root itself.
    let mut w = SpyWriter::default();
    let (res, log) =
        run(&s, &mut store, &vec![RepoDirectoryEntry::Other], &mut w, &mut Pipes::new());
    assert_eq!(res, Ok(()));
    assert_eq!(log.processed, 1);
    assert!(w.added.is_empty() && w.deleted_keys.is_empty());
}

#[test]
fn stale_other_entry_makes_no_writer_call() {
    let s = snippet("v1");
    let mut store = CacheStore::new();
    let mut w = SpyWriter::default();
    let (res, log) =
        run(&s, &mut store, &vec![RepoDirectoryEntry::Other], &mut w, &mut Pipes::new());
    assert_eq!(res, Err(IndexError::UnsupportedEntry));
    assert_eq!(log.processed, 1);
    assert!(w.added.is_empty() && w.deleted_keys.is_empty());
}
