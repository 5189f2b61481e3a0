//! The collaborators that a pass drives: the index writer, and the channel
//! that carries progress and cancellation. Each is modelled by the sequence
//! of calls made on it, so that contracts can say which calls a pass makes.
use vstd::prelude::*;
use crate::cache::{CacheKey, KeyView};
use crate::indexer::IndexError;
use crate::document::SnippetDocument;

verus! {

/// Why the index did not take a document.
#[derive(PartialEq, Eq, Structural, Debug, Clone, Copy)]
pub enum WriteError {
    /// This document was refused; other calls may still succeed.
    Rejected,
    /// The writer takes no more calls.
    Unavailable,
}

/// One call made on an index writer, with the writer's answer where it gives
/// one.
pub enum WriterCall {
    Add(SnippetDocument, Result<(), WriteError>),
    DeleteKey(KeyView),
    DeleteRepo(Seq<char>),
}

/// The deletion calls for `keys`, in order.
pub open spec fn delete_calls(keys: Seq<KeyView>) -> Seq<WriterCall> {
    keys.map_values(|k: KeyView| WriterCall::DeleteKey(k))
}

/// The search index as a pass sees it.
pub trait IndexWriter {
    fn add_document(&mut self, doc: SnippetDocument) -> Result<(), WriteError>;

    /// Removes every document written under `key`.
    fn delete_by_cache_key(&mut self, key: &CacheKey);

    /// Removes every document of the repository at `disk_path`.
    fn delete_by_repo_path(&mut self, disk_path: &str);
}

/// Progress reports and the cancellation signal of a pass.
pub trait SyncPipes {
    fn index_percent(&mut self, percent: u8);

    fn is_cancelled(&mut self) -> bool;
}

/// An index writer, with the calls made on it through this handle.
pub struct LoggedWriter<W: IndexWriter> {
    pub inner: W,
    /// Every call made so far, with the writer's answers.
    pub history: Ghost<Seq<WriterCall>>,
}

impl<W: IndexWriter> LoggedWriter<W> {
    pub fn new(inner: W) -> (r: LoggedWriter<W>)
        ensures
            r.inner == inner,
            r.calls() == Seq::<WriterCall>::empty(),
    {
        LoggedWriter { inner, history: Ghost(Seq::empty()) }
    }

    /// Every call made on the writer so far, in order.
    pub open spec fn calls(&self) -> Seq<WriterCall> {
        self.history@
    }

    pub fn add_document(&mut self, doc: SnippetDocument) -> (r: Result<(), WriteError>)
        ensures
            final(self).calls() == old(self).calls().push(WriterCall::Add(doc, r)),
    {
        let ghost d = doc;
        let r = self.inner.add_document(doc);
        self.history = Ghost(self.history@.push(WriterCall::Add(d, r)));
        r
    }

    /// Removes every document written under `key`.
    pub fn delete_by_cache_key(&mut self, key: &CacheKey)
        ensures
            final(self).calls() == old(self).calls().push(WriterCall::DeleteKey(key@)),
    {
        self.inner.delete_by_cache_key(key);
        self.history = Ghost(self.history@.push(WriterCall::DeleteKey(key@)));
    }

    /// Removes every document of the repository at `disk_path`.
    pub fn delete_by_repo_path(&mut self, disk_path: &str)
        ensures
            final(self).calls() == old(self).calls().push(WriterCall::DeleteRepo(disk_path@)),
    {
        self.inner.delete_by_repo_path(disk_path);
        self.history = Ghost(self.history@.push(WriterCall::DeleteRepo(disk_path@)));
    }
}

/// Progress and cancellation pipes, with what was reported through this
/// handle and every answer to a cancellation check.
pub struct LoggedPipes<P: SyncPipes> {
    pub inner: P,
    pub percents: Ghost<Seq<u8>>,
    pub checks: Ghost<Seq<bool>>,
}

impl<P: SyncPipes> LoggedPipes<P> {
    pub fn new(inner: P) -> (r: LoggedPipes<P>)
        ensures
            r.inner == inner,
            r.reported() == Seq::<u8>::empty(),
            r.answers() == Seq::<bool>::empty(),
    {
        LoggedPipes { inner, percents: Ghost(Seq::empty()), checks: Ghost(Seq::empty()) }
    }

    /// Every percentage reported so far, in order.
    pub open spec fn reported(&self) -> Seq<u8> {
        self.percents@
    }

    /// Every answer to a cancellation check so far, in order.
    pub open spec fn answers(&self) -> Seq<bool> {
        self.checks@
    }

    pub fn index_percent(&mut self, percent: u8)
        ensures
            final(self).reported() == old(self).reported().push(percent),
            final(self).answers() == old(self).answers(),
    {
        self.inner.index_percent(percent);
        self.percents = Ghost(self.percents@.push(percent));
    }

    pub fn is_cancelled(&mut self) -> (r: bool)
        ensures
            final(self).reported() == old(self).reported(),
            final(self).answers() == old(self).answers().push(r),
    {
        let r = self.inner.is_cancelled();
        self.checks = Ghost(self.checks@.push(r));
        r
    }
}

/// What a worker does after the index answered one document.
#[derive(PartialEq, Eq, Structural, Debug, Clone, Copy)]
pub enum WriteStep {
    /// Go on with the file's next document.
    Next,
    /// Give the file up: delete what was written of it and go on with the
    /// pass.
    AbandonFile,
    /// End the pass with this error.
    Fail(IndexError),
}

/// The step that follows the answer `r` to a document write.
pub open spec fn write_step(r: Result<(), WriteError>) -> WriteStep {
    match r {
        Ok(()) => WriteStep::Next,
        Err(WriteError::Rejected) => WriteStep::AbandonFile,
        Err(WriteError::Unavailable) => WriteStep::Fail(IndexError::WriterUnavailable),
    }
}

/// Decides what follows the index's answer to one document: a refused
/// document abandons its file only, and a writer that takes no more calls
/// ends the pass.
pub fn on_write(r: &Result<(), WriteError>) -> (s: WriteStep)
    ensures
        s == write_step(*r),
{
    match r {
        Ok(()) => WriteStep::Next,
        Err(WriteError::Rejected) => WriteStep::AbandonFile,
        Err(WriteError::Unavailable) => WriteStep::Fail(IndexError::WriterUnavailable),
    }
}

/// What a pass does after a cancellation check.
#[derive(PartialEq, Eq, Structural, Debug, Clone, Copy)]
pub enum WalkStep {
    /// Hand the next entry to a worker, or reconcile once the walk is done.
    Continue,
    /// Start no new work and end the pass with this error, without
    /// reconciling the cache.
    Stop(IndexError),
}

/// The step that follows the answer `cancelled` to a cancellation check.
pub open spec fn walk_step(cancelled: bool) -> WalkStep {
    if cancelled {
        WalkStep::Stop(IndexError::Cancelled)
    } else {
        WalkStep::Continue
    }
}

/// Decides what follows a cancellation check.
pub fn on_cancel_check(cancelled: bool) -> (s: WalkStep)
    ensures
        s == walk_step(cancelled),
{
    if cancelled {
        WalkStep::Stop(IndexError::Cancelled)
    } else {
        WalkStep::Continue
    }
}

} // verus!
