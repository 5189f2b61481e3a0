//! Indexable documents, and the split of a file into line-range snippets.
use vstd::prelude::*;
use crate::cache::CacheKey;
use crate::text::chars_of;

verus! {

/// The most lines that one snippet spans.
pub const SNIPPET_LINES: usize = 30;

/// The offsets at which the lines of `text` start, among its first `n`
/// characters: the first line starts at 0, and each newline that is not the
/// last character starts another.
pub open spec fn line_starts_upto(text: Seq<char>, n: int) -> Seq<int>
    decreases n,
{
    if n <= 0 {
        if text.len() > 0 {
            seq![0int]
        } else {
            Seq::empty()
        }
    } else {
        let prev = line_starts_upto(text, n - 1);
        if text[n - 1] == '\n' && n < text.len() {
            prev.push(n)
        } else {
            prev
        }
    }
}

/// The offsets at which the lines of `text` start.
pub open spec fn line_starts(text: Seq<char>) -> Seq<int> {
    line_starts_upto(text, text.len() as int)
}

/// A snippet as values: first line, end line (exclusive), both counted from
/// zero, and the characters of those lines.
pub type SpanView = (int, int, Seq<char>);

/// The snippet of `text` over lines `first` up to `last`.
pub open spec fn span_of(text: Seq<char>, first: int, last: int) -> SpanView {
    let starts = line_starts(text);
    let end = if last < starts.len() {
        starts[last]
    } else {
        text.len() as int
    };
    (first, last, text.subrange(starts[first], end))
}

/// The snippets of `text` from line `first` on: consecutive runs of at most
/// `SNIPPET_LINES` lines, the last one possibly shorter.
pub open spec fn spans_from(text: Seq<char>, first: int) -> Seq<SpanView>
    decreases line_starts(text).len() - first,
{
    let n = line_starts(text).len() as int;
    if first < 0 || first >= n {
        Seq::empty()
    } else {
        let last = if n - first > SNIPPET_LINES {
            first + SNIPPET_LINES
        } else {
            n
        };
        seq![span_of(text, first, last)] + spans_from(text, last)
    }
}

/// The snippets of `text`: none for an empty text.
pub open spec fn snippet_spans(text: Seq<char>) -> Seq<SpanView> {
    spans_from(text, 0)
}

/// The indexable unit written for a snippet.
pub struct SnippetDocument {
    pub relative_path: String,
    pub repo_name: String,
    pub repo_ref: String,
    pub content: String,
    /// First line of the snippet, counted from zero.
    pub line_start: u64,
    /// Line after the snippet's last one.
    pub line_end: u64,
    /// Where the repository lies on disk: documents are deleted by it when
    /// the repository goes.
    pub repo_disk_path: String,
    /// The key of the file the snippet was taken from: documents are deleted
    /// by it when the cache evicts the key.
    pub cache_key: CacheKey,
    /// The repository's last commit time, zero where unknown.
    pub last_commit_unix_secs: u64,
}

impl SnippetDocument {
    /// A copy of the document.
    pub fn duplicate(&self) -> (r: SnippetDocument)
        ensures
            r.relative_path@ == self.relative_path@,
            r.repo_name@ == self.repo_name@,
            r.repo_ref@ == self.repo_ref@,
            r.content@ == self.content@,
            r.line_start == self.line_start,
            r.line_end == self.line_end,
            r.repo_disk_path@ == self.repo_disk_path@,
            r.cache_key@ == self.cache_key@,
            r.last_commit_unix_secs == self.last_commit_unix_secs,
    {
        SnippetDocument {
            relative_path: self.relative_path.clone(),
            repo_name: self.repo_name.clone(),
            repo_ref: self.repo_ref.clone(),
            content: self.content.clone(),
            line_start: self.line_start,
            line_end: self.line_end,
            repo_disk_path: self.repo_disk_path.clone(),
            cache_key: self.cache_key.duplicate(),
            last_commit_unix_secs: self.last_commit_unix_secs,
        }
    }
}

/// A run of lines of one file.
pub struct SnippetSpan {
    pub line_start: usize,
    pub line_end: usize,
    pub content: String,
}

impl View for SnippetSpan {
    type V = SpanView;

    open spec fn view(&self) -> SpanView {
        (self.line_start as int, self.line_end as int, self.content@)
    }
}

fn line_start_offsets(text: &Vec<char>) -> (r: Vec<usize>)
    ensures
        r@.len() == line_starts(text@).len(),
        forall|j: int| 0 <= j < r@.len() ==> r@[j] as int == line_starts(text@)[j],
        forall|j: int| 0 <= j < r@.len() ==> r@[j] < text@.len(),
        forall|a: int, b: int| 0 <= a < b < r@.len() ==> r@[a] < r@[b],
        r@.len() > 0 ==> r@[0] == 0,
{
    let mut out: Vec<usize> = Vec::new();
    if text.len() > 0 {
        out.push(0);
    }
    let mut i: usize = 0;
    while i < text.len()
        invariant
            i <= text@.len(),
            out@.len() == line_starts_upto(text@, i as int).len(),
            forall|j: int| 0 <= j < out@.len() ==> out@[j] as int == line_starts_upto(text@, i as int)[j],
            forall|j: int| 0 <= j < out@.len() ==> out@[j] < text@.len(),
            forall|j: int| 0 <= j < out@.len() ==> out@[j] <= i,
            forall|a: int, b: int| 0 <= a < b < out@.len() ==> out@[a] < out@[b],
            out@.len() > 0 ==> out@[0] == 0,
            text@.len() > 0 ==> out@.len() > 0,
        decreases text@.len() - i,
    {
        if text[i] == '\n' && i + 1 < text.len() {
            out.push(i + 1);
        }
        i = i + 1;
    }
    out
}

/// Splits `text` into snippets of at most `SNIPPET_LINES` lines each.
pub fn snippet_spans_of(text: &str) -> (r: Vec<SnippetSpan>)
    ensures
        r@.map_values(|s: SnippetSpan| s@) == snippet_spans(text@),
{
    let chars = chars_of(text);
    let starts = line_start_offsets(&chars);
    let ghost t = text@;
    let n = starts.len();
    let mut out: Vec<SnippetSpan> = Vec::new();
    let mut first: usize = 0;
    assert(line_starts(t).len() == n);
    while first < n
        invariant
            chars@ == t,
            t == text@,
            n == starts@.len(),
            n == line_starts(t).len(),
            forall|j: int| 0 <= j < n ==> starts@[j] as int == line_starts(t)[j],
            forall|j: int| 0 <= j < n ==> starts@[j] < t.len(),
            forall|a: int, b: int| 0 <= a < b < n ==> starts@[a] < starts@[b],
            first <= n,
            out@.map_values(|s: SnippetSpan| s@) + spans_from(t, first as int) == snippet_spans(t),
        decreases n - first,
    {
        let last = if n - first > SNIPPET_LINES {
            first + SNIPPET_LINES
        } else {
            n
        };
        let end = if last < n {
            starts[last]
        } else {
            chars.len()
        };
        let content = text.substring_char(starts[first], end).to_string();
        let span = SnippetSpan { line_start: first, line_end: last, content };
        let ghost prev = out@;
        proof {
            assert(span@ == span_of(t, first as int, last as int));
            assert(spans_from(t, first as int) == seq![span@] + spans_from(t, last as int));
        }
        out.push(span);
        proof {
            assert(out@.map_values(|s: SnippetSpan| s@) =~= prev.map_values(|s: SnippetSpan| s@).push(span@));
            assert(out@.map_values(|s: SnippetSpan| s@) + spans_from(t, last as int) =~= prev.map_values(
                |s: SnippetSpan| s@,
            ) + spans_from(t, first as int));
        }
        first = last;
    }
    assert(out@.map_values(|s: SnippetSpan| s@) + spans_from(t, first as int) =~= out@.map_values(
        |s: SnippetSpan| s@,
    ));
    out
}

} // verus!
