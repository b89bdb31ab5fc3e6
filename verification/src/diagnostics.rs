//! What the compiler has to say about a document: per file a list of
//! diagnostics, in which nothing is said twice.

use vstd::prelude::*;
use crate::names::{same_text, views};

verus! {

/// How serious a diagnostic is.
#[derive(Clone, Copy, Debug, PartialEq, Eq, Structural)]
pub enum Level {
    Error,
    Warning,
}

/// A stretch of the source text: where it starts, in bytes, and how long it
/// is.
#[derive(Clone, Copy, Debug, PartialEq, Eq, Structural)]
pub struct Span {
    pub offset: usize,
    pub length: usize,
}

/// A message about a stretch of the source text.
#[derive(Debug)]
pub struct CompilerDiagnostic {
    pub message: String,
    pub span: Span,
    pub level: Level,
}

/// One thing that went wrong.
#[derive(Debug)]
pub enum Diagnostic {
    /// A file could not be read; the text says why.
    FileLoadError(String),
    CompilerDiagnostic(CompilerDiagnostic),
}

/// The content of a [`Diagnostic`].
pub enum DiagnosticView {
    FileLoadError(Seq<char>),
    CompilerDiagnostic { message: Seq<char>, span: Span, level: Level },
}

impl View for Diagnostic {
    type V = DiagnosticView;

    open spec fn view(&self) -> DiagnosticView {
        match *self {
            Diagnostic::FileLoadError(text) => DiagnosticView::FileLoadError(text@),
            Diagnostic::CompilerDiagnostic(d) => DiagnosticView::CompilerDiagnostic {
                message: d.message@,
                span: d.span,
                level: d.level,
            },
        }
    }
}

/// Whether a diagnostic is an error.
pub open spec fn is_error(d: DiagnosticView) -> bool {
    match d {
        DiagnosticView::FileLoadError(_) => true,
        DiagnosticView::CompilerDiagnostic { level, .. } => level == Level::Error,
    }
}

/// `list` with `d` at its end, unless `list` holds `d` already.
pub open spec fn with_diagnostic(list: Seq<DiagnosticView>, d: DiagnosticView) -> Seq<
    DiagnosticView,
> {
    if list.contains(d) {
        list
    } else {
        list.push(d)
    }
}

/// `list` followed by those of the first `n` items of `extra` that it does
/// not hold yet, each once.
pub open spec fn with_diagnostics(
    list: Seq<DiagnosticView>,
    extra: Seq<DiagnosticView>,
    n: int,
) -> Seq<DiagnosticView>
    decreases n,
{
    if n <= 0 {
        list
    } else {
        with_diagnostic(with_diagnostics(list, extra, n - 1), extra[n - 1])
    }
}

/// `list` followed by the items of `extra` that it does not hold yet, each
/// once.
pub open spec fn with_all(list: Seq<DiagnosticView>, extra: Seq<DiagnosticView>) -> Seq<
    DiagnosticView,
> {
    with_diagnostics(list, extra, extra.len() as int)
}

/// Adding the first items of a list does not depend on what follows them.
pub proof fn lemma_with_diagnostics_prefix(
    list: Seq<DiagnosticView>,
    extra: Seq<DiagnosticView>,
    longer: Seq<DiagnosticView>,
    n: int,
)
    requires
        0 <= n <= extra.len() <= longer.len(),
        forall|k: int| 0 <= k < extra.len() ==> extra[k] == longer[k],
    ensures
        with_diagnostics(list, longer, n) == with_diagnostics(list, extra, n),
    decreases n,
{
    if n > 0 {
        lemma_with_diagnostics_prefix(list, extra, longer, n - 1);
    }
}

/// Adding a list with one more item is adding the list, then the item.
pub proof fn lemma_with_all_push(
    list: Seq<DiagnosticView>,
    extra: Seq<DiagnosticView>,
    d: DiagnosticView,
)
    ensures
        with_all(list, extra.push(d)) == with_diagnostic(with_all(list, extra), d),
{
    lemma_with_diagnostics_prefix(list, extra, extra.push(d), extra.len() as int);
}

/// Adding two lists one after the other is adding their concatenation.
pub proof fn lemma_with_all_concat(
    list: Seq<DiagnosticView>,
    first: Seq<DiagnosticView>,
    second: Seq<DiagnosticView>,
)
    ensures
        with_all(list, first + second) == with_all(with_all(list, first), second),
    decreases second.len(),
{
    if second.len() == 0 {
        assert(first + second =~= first);
    } else {
        let shorter = second.drop_last();
        lemma_with_all_concat(list, first, shorter);
        assert(first + second =~= (first + shorter).push(second.last()));
        lemma_with_all_push(list, first + shorter, second.last());
        assert(second =~= shorter.push(second.last()));
        lemma_with_all_push(with_all(list, first), shorter, second.last());
    }
}

/// Adding nothing changes nothing.
pub proof fn lemma_with_all_empty(list: Seq<DiagnosticView>)
    ensures
        with_all(list, Seq::empty()) == list,
{
}

/// Whether nothing occurs twice in the list.
pub open spec fn no_duplicates(list: Seq<DiagnosticView>) -> bool {
    forall|i: int, j: int| 0 <= i < j < list.len() ==> list[i] != list[j]
}

/// Adding a diagnostic keeps a list free of duplicates.
pub proof fn lemma_with_diagnostic_no_duplicates(list: Seq<DiagnosticView>, d: DiagnosticView)
    requires
        no_duplicates(list),
    ensures
        no_duplicates(with_diagnostic(list, d)),
        with_diagnostic(list, d).contains(d),
{
    let out = with_diagnostic(list, d);
    if !list.contains(d) {
        assert(out[list.len() as int] == d);
        assert forall|i: int, j: int| 0 <= i < j < out.len() implies out[i] != out[j] by {
            if j == list.len() {
                assert(list[i] == out[i]);
                assert(list.contains(list[i]));
            }
        }
    }
}

/// Nothing is lost when diagnostics are added: what was in the list is in
/// it afterwards, and so is each of the diagnostics that were added.
pub proof fn lemma_with_diagnostics_keeps(
    list: Seq<DiagnosticView>,
    extra: Seq<DiagnosticView>,
    n: int,
)
    requires
        0 <= n <= extra.len(),
    ensures
        forall|d: DiagnosticView| list.contains(d) ==> with_diagnostics(list, extra, n).contains(d),
        forall|k: int| 0 <= k < n ==> with_diagnostics(list, extra, n).contains(#[trigger] extra[k]),
    decreases n,
{
    if n > 0 {
        lemma_with_diagnostics_keeps(list, extra, n - 1);
        let before = with_diagnostics(list, extra, n - 1);
        let after = with_diagnostics(list, extra, n);
        assert forall|d: DiagnosticView| before.contains(d) implies after.contains(d) by {
            let i = choose|i: int| 0 <= i < before.len() && before[i] == d;
            assert(after[i] == d);
        }
        if !before.contains(extra[n - 1]) {
            assert(after[before.len() as int] == extra[n - 1]);
        }
    }
}

/// Whether two diagnostics say the same.
pub fn same_diagnostic(a: &Diagnostic, b: &Diagnostic) -> (same: bool)
    ensures
        same == (a@ == b@),
{
    match (a, b) {
        (Diagnostic::FileLoadError(s), Diagnostic::FileLoadError(t)) => same_text(
            s.as_str(),
            t.as_str(),
        ),
        (Diagnostic::CompilerDiagnostic(x), Diagnostic::CompilerDiagnostic(y)) => {
            let same = same_text(x.message.as_str(), y.message.as_str());
            same && x.span == y.span && x.level == y.level
        },
        _ => false,
    }
}

/// A copy of a diagnostic.
pub fn clone_diagnostic(d: &Diagnostic) -> (copy: Diagnostic)
    ensures
        copy@ == d@,
{
    match d {
        Diagnostic::FileLoadError(text) => Diagnostic::FileLoadError(text.clone()),
        Diagnostic::CompilerDiagnostic(c) => Diagnostic::CompilerDiagnostic(
            CompilerDiagnostic { message: c.message.clone(), span: c.span, level: c.level },
        ),
    }
}

/// The diagnostics of one file.
#[derive(Debug)]
pub struct FileDiagnostics {
    pub inner: Vec<Diagnostic>,
    pub current_path: String,
}

/// The content of a [`FileDiagnostics`].
pub struct FileDiagnosticsView {
    pub inner: Seq<DiagnosticView>,
    pub current_path: Seq<char>,
}

impl View for FileDiagnostics {
    type V = FileDiagnosticsView;

    open spec fn view(&self) -> FileDiagnosticsView {
        FileDiagnosticsView { inner: views(self.inner@), current_path: self.current_path@ }
    }
}

/// An error about the given stretch of text.
pub open spec fn error_at(message: Seq<char>, span: Span) -> DiagnosticView {
    DiagnosticView::CompilerDiagnostic { message, span, level: Level::Error }
}

/// Whether the list holds an error.
pub open spec fn any_error(list: Seq<DiagnosticView>) -> bool {
    exists|i: int| 0 <= i < list.len() && is_error(#[trigger] list[i])
}

impl FileDiagnostics {
    /// Diagnostics for the file at `path`, none yet.
    pub fn new(path: String) -> (diag: Self)
        ensures
            diag@.inner == Seq::<DiagnosticView>::empty(),
            diag@.current_path == path@,
    {
        let diag = FileDiagnostics { inner: Vec::new(), current_path: path };
        assert(diag@.inner =~= Seq::<DiagnosticView>::empty());
        diag
    }

    /// Adds a diagnostic, unless the same one is there already.
    pub fn push(&mut self, d: Diagnostic)
        ensures
            final(self)@.inner == with_diagnostic(old(self)@.inner, d@),
            final(self)@.current_path == old(self)@.current_path,
    {
        let mut i: usize = 0;
        while i < self.inner.len()
            invariant
                i <= self.inner.len(),
                *self == *old(self),
                forall|k: int| 0 <= k < i ==> views(self.inner@)[k] != d@,
            decreases self.inner.len() - i,
        {
            if same_diagnostic(&self.inner[i], &d) {
                assert(views(self.inner@)[i as int] == d@);
                return ;
            }
            i += 1;
        }
        self.inner.push(d);
        assert(views(self.inner@) =~= views(old(self).inner@).push(d@));
    }

    /// Adds an error about the given stretch of text, unless the same error
    /// is there already.
    pub fn push_error(&mut self, message: String, span: Span)
        ensures
            final(self)@.inner == with_diagnostic(old(self)@.inner, error_at(message@, span)),
            final(self)@.current_path == old(self)@.current_path,
    {
        self.push(
            Diagnostic::CompilerDiagnostic(CompilerDiagnostic { message, span, level: Level::Error }),
        );
    }

    /// Whether one of the diagnostics is an error.
    pub fn has_error(&self) -> (found: bool)
        ensures
            found == any_error(self@.inner),
    {
        let mut i: usize = 0;
        while i < self.inner.len()
            invariant
                i <= self.inner.len(),
                forall|k: int| 0 <= k < i ==> !is_error(#[trigger] views(self.inner@)[k]),
            decreases self.inner.len() - i,
        {
            let error = match &self.inner[i] {
                Diagnostic::FileLoadError(_) => true,
                Diagnostic::CompilerDiagnostic(d) => d.level == Level::Error,
            };
            if error {
                assert(is_error(views(self.inner@)[i as int]));
                return true;
            }
            i += 1;
        }
        false
    }

    /// The number of diagnostics.
    pub fn len(&self) -> (n: usize)
        ensures
            n == self@.inner.len(),
    {
        self.inner.len()
    }

    /// Whether there is no diagnostic.
    pub fn is_empty(&self) -> (empty: bool)
        ensures
            empty == (self@.inner.len() == 0),
    {
        self.inner.len() == 0
    }
}

/// The position of the diagnostics of the file at `path`, if there are any.
pub open spec fn file_position(files: Seq<FileDiagnosticsView>, path: Seq<char>) -> Option<int>
    decreases files.len(),
{
    if files.len() == 0 {
        None
    } else if files.last().current_path == path {
        match file_position(files.drop_last(), path) {
            Some(i) => Some(i),
            None => Some(files.len() - 1),
        }
    } else {
        file_position(files.drop_last(), path)
    }
}

/// `file_position` gives the first entry for the path, and misses only a
/// path that has no entry.
pub proof fn lemma_file_position(files: Seq<FileDiagnosticsView>, path: Seq<char>)
    ensures
        match file_position(files, path) {
            Some(i) => 0 <= i < files.len() && files[i].current_path == path && forall|k: int|
                0 <= k < i ==> files[k].current_path != path,
            None => forall|k: int| 0 <= k < files.len() ==> files[k].current_path != path,
        },
    decreases files.len(),
{
    if files.len() > 0 {
        let rest = files.drop_last();
        lemma_file_position(rest, path);
        match file_position(rest, path) {
            Some(i) => {
                assert(rest[i] == files[i]);
                assert forall|k: int| 0 <= k < i implies files[k].current_path != path by {
                    assert(rest[k] == files[k]);
                }
            },
            None => {
                assert forall|k: int| 0 <= k < files.len() - 1 implies files[k].current_path
                    != path by {
                    assert(rest[k] == files[k]);
                }
            },
        }
    }
}

/// The diagnostics of a whole build after those of one file were added: they
/// join the entry of the same file if there is one, and make a new entry at
/// the end if not.
pub open spec fn added(files: Seq<FileDiagnosticsView>, d: FileDiagnosticsView) -> Seq<
    FileDiagnosticsView,
> {
    match file_position(files, d.current_path) {
        Some(i) => files.update(
            i,
            FileDiagnosticsView {
                inner: with_diagnostics(files[i].inner, d.inner, d.inner.len() as int),
                current_path: d.current_path,
            },
        ),
        None => files.push(
            FileDiagnosticsView {
                inner: with_diagnostics(Seq::empty(), d.inner, d.inner.len() as int),
                current_path: d.current_path,
            },
        ),
    }
}

/// The diagnostics of a build: one entry for each file that was looked at.
#[derive(Debug)]
pub struct BuildDiagnostics {
    files: Vec<FileDiagnostics>,
}

impl View for BuildDiagnostics {
    type V = Seq<FileDiagnosticsView>;

    closed spec fn view(&self) -> Seq<FileDiagnosticsView> {
        views(self.files@)
    }
}

/// Whether one of the files has an error.
pub open spec fn any_file_error(files: Seq<FileDiagnosticsView>) -> bool {
    exists|i: int| 0 <= i < files.len() && any_error(#[trigger] files[i].inner)
}

/// An error is never lost: a report has an error after diagnostics were
/// added to it if it had one before, and if one of those that were added
/// is an error.
pub proof fn lemma_added_keeps_errors(files: Seq<FileDiagnosticsView>, d: FileDiagnosticsView)
    ensures
        any_file_error(files) ==> any_file_error(added(files, d)),
        any_error(d.inner) ==> any_file_error(added(files, d)),
{
    let after = added(files, d);
    lemma_file_position(files, d.current_path);
    let at = match file_position(files, d.current_path) {
        Some(i) => i,
        None => files.len() as int,
    };
    let before = if at < files.len() {
        files[at].inner
    } else {
        Seq::empty()
    };
    lemma_with_diagnostics_keeps(before, d.inner, d.inner.len() as int);
    assert(after[at].inner == with_diagnostics(before, d.inner, d.inner.len() as int));
    if any_error(d.inner) {
        let k = choose|k: int| 0 <= k < d.inner.len() && is_error(#[trigger] d.inner[k]);
        let merged = after[at].inner;
        assert(merged.contains(d.inner[k]));
        let j = choose|j: int| 0 <= j < merged.len() && merged[j] == d.inner[k];
        assert(is_error(merged[j]));
        assert(any_error(after[at].inner));
    }
    if any_file_error(files) {
        let i = choose|i: int| 0 <= i < files.len() && any_error(#[trigger] files[i].inner);
        if i == at {
            let k = choose|k: int| 0 <= k < before.len() && is_error(#[trigger] before[k]);
            let merged = after[at].inner;
            assert(before.contains(before[k]));
            assert(merged.contains(before[k]));
            let j = choose|j: int| 0 <= j < merged.len() && merged[j] == before[k];
            assert(is_error(merged[j]));
            assert(any_error(after[at].inner));
        } else {
            assert(after[i] == files[i]);
            assert(any_error(after[i].inner));
        }
    }
}

impl BuildDiagnostics {
    /// No diagnostics.
    pub fn new() -> (diag: Self)
        ensures
            diag@ == Seq::<FileDiagnosticsView>::empty(),
    {
        let diag = BuildDiagnostics { files: Vec::new() };
        assert(diag@ =~= Seq::<FileDiagnosticsView>::empty());
        diag
    }

    /// Adds the diagnostics of one file.
    pub fn add(&mut self, diagnostics: FileDiagnostics)
        ensures
            final(self)@ == added(old(self)@, diagnostics@),
    {
        let mut target: usize = 0;
        while target < self.files.len() && !same_text(
            self.files[target].current_path.as_str(),
            diagnostics.current_path.as_str(),
        )
            invariant
                target <= self.files.len(),
                *self == *old(self),
                forall|k: int|
                    0 <= k < target ==> (#[trigger] self@[k]).current_path
                        != diagnostics@.current_path,
            decreases self.files.len() - target,
        {
            target += 1;
        }
        proof {
            lemma_file_position(self@, diagnostics@.current_path);
            if target < self.files.len() {
                assert(self@[target as int].current_path == diagnostics@.current_path);
            }
        }
        if target == self.files.len() {
            let path = diagnostics.current_path.clone();
            self.files.push(FileDiagnostics::new(path));
            assert(self@ =~= old(self)@.push(
                FileDiagnosticsView {
                    inner: Seq::empty(),
                    current_path: diagnostics@.current_path,
                },
            ));
        }
        let ghost start = self@;
        let mut n: usize = 0;
        while n < diagnostics.inner.len()
            invariant
                target < self.files.len(),
                self@.len() == start.len(),
                n <= diagnostics.inner.len(),
                forall|k: int|
                    0 <= k < start.len() && k != target ==> #[trigger] self@[k] == start[k],
                self@[target as int].current_path == diagnostics@.current_path,
                self@[target as int].inner == with_diagnostics(
                    start[target as int].inner,
                    diagnostics@.inner,
                    n as int,
                ),
            decreases diagnostics.inner.len() - n,
        {
            let d = clone_diagnostic(&diagnostics.inner[n]);
            let ghost before = self@;
            self.files[target].push(d);
            proof {
                assert(d@ == diagnostics@.inner[n as int]);
                assert forall|k: int| 0 <= k < start.len() && k != target implies #[trigger] self@[k]
                    == start[k] by {
                    assert(self@[k] == before[k]);
                }
            }
            n += 1;
        }
        proof {
            assert(self@ =~= added(old(self)@, diagnostics@));
        }
    }

    /// Whether one of the files has an error.
    pub fn has_error(&self) -> (found: bool)
        ensures
            found == any_file_error(self@),
    {
        let mut i: usize = 0;
        while i < self.files.len()
            invariant
                i <= self.files.len(),
                forall|k: int| 0 <= k < i ==> !any_error(#[trigger] self@[k].inner),
            decreases self.files.len() - i,
        {
            if self.files[i].has_error() {
                assert(any_error(self@[i as int].inner));
                return true;
            }
            i += 1;
        }
        false
    }

    /// The number of files that have an entry.
    pub fn len(&self) -> (n: usize)
        ensures
            n == self@.len(),
    {
        self.files.len()
    }

    /// Hands out the entries, one for each file, in the order in which the
    /// files were first named.
    pub fn into_files(self) -> (files: Vec<FileDiagnostics>)
        ensures
            views(files@) == self@,
    {
        self.files
    }
}

} // verus!
