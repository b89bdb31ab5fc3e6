//! Checks a source text against the errors it announces.
//!
//! A source text can say which errors the compiler is to report for it. It
//! does so in comment lines of the form
//!
//! ```text
//! //     ^error{pattern}
//! ```
//!
//! The `^` points at a column of the line above; the error is expected at
//! that place, with a message that the pattern matches. Every such line
//! must find one diagnostic of its own, and no diagnostic may be left over.
//!
//! A line is a marker when it follows a line break, starts, after any
//! number of spaces, with `//`, holds `^error{` after that and ends with
//! `}` and a line break. The last `^error{` of the line counts. A marker
//! takes the line break at its end with it, so the line right after a
//! marker is none.

use vstd::prelude::*;
use vstd::string::StringSliceAdditionalSpecFns;
use vstd::utf8::{decode_utf8, is_char_boundary};
use crate::compiler::{
    compile_syntax_node, document_of, lemma_nothing_included, lowering_errors, pass_errors,
    CompilerConfiguration, IncludeDirectory,
};
use crate::diagnostics::{
    added, any_error, clone_diagnostic, Diagnostic, DiagnosticView, FileDiagnostics,
    FileDiagnosticsView,
};
use crate::names::views;
use crate::parser::{SyntaxComponentView, SyntaxNode};
use crate::pattern::{tried, try_pattern};

verus! {

/// The byte of a line break.
pub const LINE_BREAK: u8 = 10;

/// The byte of a space.
pub const SPACE: u8 = 32;

/// The byte of `/`.
pub const SLASH: u8 = 47;

/// The byte of `^`.
pub const CARET: u8 = 94;

/// The byte of `{`.
pub const OPEN: u8 = 123;

/// The byte of `}`.
pub const CLOSE: u8 = 125;

/// An announced error: the offset at which it is expected and the stretch
/// of the source that holds its pattern.
pub struct Marker {
    /// The offset in the source at which the error is expected.
    pub offset: int,
    /// Where the pattern starts in the source.
    pub from: int,
    /// Where the pattern ends.
    pub to: int,
    /// The line break that ends the marker.
    pub end: int,
}

/// The first line break at or after `from`, if there is one.
pub open spec fn next_break(bytes: Seq<u8>, from: int) -> Option<int>
    decreases bytes.len() - from,
{
    if from < 0 || from >= bytes.len() {
        None
    } else if bytes[from] == LINE_BREAK {
        Some(from)
    } else {
        next_break(bytes, from + 1)
    }
}

/// The last line break before `n`, or the start of the text when there is
/// none.
pub open spec fn previous_break(bytes: Seq<u8>, n: int) -> int
    decreases n,
{
    if n <= 0 {
        0
    } else if bytes[n - 1] == LINE_BREAK {
        n - 1
    } else {
        previous_break(bytes, n - 1)
    }
}

/// The first position at or after `from` and before `end` that holds no
/// space, or `end`.
pub open spec fn skip_spaces(bytes: Seq<u8>, from: int, end: int) -> int
    decreases end - from,
{
    if from >= end {
        end
    } else if bytes[from] == SPACE {
        skip_spaces(bytes, from + 1, end)
    } else {
        from
    }
}

/// Whether `^error{` stands at position `c`.
pub open spec fn caret_at(bytes: Seq<u8>, c: int) -> bool {
    &&& 0 <= c
    &&& c + 7 <= bytes.len()
    &&& bytes[c] == CARET
    &&& bytes[c + 1] == 101
    &&& bytes[c + 2] == 114
    &&& bytes[c + 3] == 114
    &&& bytes[c + 4] == 111
    &&& bytes[c + 5] == 114
    &&& bytes[c + 6] == OPEN
}

/// The last position from `low` on and before `high` at which `^error{`
/// stands.
pub open spec fn last_caret(bytes: Seq<u8>, low: int, high: int) -> Option<int>
    decreases high - low,
{
    if high <= low {
        None
    } else if caret_at(bytes, high - 1) {
        Some(high - 1)
    } else {
        last_caret(bytes, low, high - 1)
    }
}

/// The marker that starts with the line break at `n`, if one does.
pub open spec fn marker_at(bytes: Seq<u8>, n: int) -> Option<Marker> {
    match next_break(bytes, n + 1) {
        Some(end) => {
            let start = skip_spaces(bytes, n + 1, end);
            if start + 2 <= end && bytes[start] == SLASH && bytes[start + 1] == SLASH && bytes[end
                - 1] == CLOSE {
                match last_caret(bytes, start + 2, end - 7) {
                    Some(c) => Some(
                        Marker {
                            offset: previous_break(bytes, n) + (c - n),
                            from: c + 7,
                            to: end - 1,
                            end,
                        },
                    ),
                    None => None,
                }
            } else {
                None
            }
        },
        None => None,
    }
}

/// The markers of the text from position `from` on.
pub open spec fn markers_from(bytes: Seq<u8>, from: int) -> Seq<Marker>
    decreases bytes.len() - from,
{
    if from < 0 || from >= bytes.len() {
        Seq::empty()
    } else if bytes[from] == LINE_BREAK {
        match marker_at(bytes, from) {
            Some(m) => if from <= m.end < bytes.len() {
                seq![m] + markers_from(bytes, m.end + 1)
            } else {
                Seq::empty()
            },
            None => markers_from(bytes, from + 1),
        }
    } else {
        markers_from(bytes, from + 1)
    }
}

/// The pattern of a marker as a text, if the stretch is a text of its own.
pub open spec fn pattern_text(bytes: Seq<u8>, m: Marker) -> Option<Seq<char>> {
    if 0 <= m.from <= m.to <= bytes.len() && is_char_boundary(bytes, m.to) && is_char_boundary(
        bytes.subrange(0, m.to),
        m.from,
    ) {
        Some(decode_utf8(bytes.subrange(m.from, m.to)))
    } else {
        None
    }
}

/// Whether a diagnostic is the error that a marker announces: it is a
/// message of the compiler at the offset of the marker, and the pattern
/// matches the message.
pub open spec fn announced(d: DiagnosticView, offset: int, pattern: Seq<char>) -> bool {
    match d {
        DiagnosticView::CompilerDiagnostic { message, span, level } => span.offset == offset
            && tried(pattern, message) == Some(true),
        DiagnosticView::FileLoadError(_) => false,
    }
}

/// The first diagnostic among the first `n` that a marker announces.
pub open spec fn first_announced(
    diagnostics: Seq<DiagnosticView>,
    offset: int,
    pattern: Seq<char>,
    n: int,
) -> Option<int>
    decreases n,
{
    if n <= 0 {
        None
    } else {
        match first_announced(diagnostics, offset, pattern, n - 1) {
            Some(i) => Some(i),
            None => if announced(diagnostics[n - 1], offset, pattern) {
                Some(n - 1)
            } else {
                None
            },
        }
    }
}

/// How the check stands: which diagnostics are not yet accounted for,
/// whether every marker so far has found its diagnostic, and whether a
/// marker held something that is no pattern.
pub struct Progress {
    pub remaining: Seq<DiagnosticView>,
    pub found_all: bool,
    pub broken: bool,
}

/// The check after one more marker. A marker whose pattern is no pattern
/// breaks the check off. Every other marker takes the first diagnostic
/// that it announces out of those that remain, or notes that it found
/// none.
pub open spec fn after_marker(bytes: Seq<u8>, progress: Progress, m: Marker) -> Progress {
    if progress.broken {
        progress
    } else {
        match pattern_text(bytes, m) {
            None => Progress { broken: true, ..progress },
            Some(pattern) => if tried(pattern, Seq::empty()).is_none() {
                Progress { broken: true, ..progress }
            } else {
                match first_announced(
                    progress.remaining,
                    m.offset,
                    pattern,
                    progress.remaining.len() as int,
                ) {
                    Some(i) => Progress { remaining: progress.remaining.remove(i), ..progress },
                    None => Progress { found_all: false, ..progress },
                }
            },
        }
    }
}

/// The check after the first `n` markers.
pub open spec fn after_markers(
    bytes: Seq<u8>,
    diagnostics: Seq<DiagnosticView>,
    markers: Seq<Marker>,
    n: int,
) -> Progress
    decreases n,
{
    if n <= 0 {
        Progress { remaining: diagnostics, found_all: true, broken: false }
    } else {
        after_marker(bytes, after_markers(bytes, diagnostics, markers, n - 1), markers[n - 1])
    }
}

/// Whether the diagnostics are those that the source announces: every
/// marker finds a diagnostic of its own, none is left over, and every
/// marker holds a pattern.
pub open spec fn expectations_met(bytes: Seq<u8>, diagnostics: Seq<DiagnosticView>) -> bool {
    let markers = markers_from(bytes, 0);
    let end = after_markers(bytes, diagnostics, markers, markers.len() as int);
    !end.broken && end.found_all && end.remaining.len() == 0
}

/// The first line break at or after `from`.
fn find_break(bytes: &[u8], from: usize) -> (found: Option<usize>)
    ensures
        match found {
            Some(e) => next_break(bytes@, from as int) == Some(e as int) && from <= e < bytes@.len(),
            None => next_break(bytes@, from as int).is_none(),
        },
{
    let mut i: usize = from;
    while i < bytes.len()
        invariant
            from <= i,
            next_break(bytes@, from as int) == next_break(bytes@, i as int),
        decreases bytes.len() - i,
    {
        if bytes[i] == LINE_BREAK {
            return Some(i);
        }
        i += 1;
    }
    None
}

/// The last line break before `n`, or the start of the text.
fn find_previous_break(bytes: &[u8], n: usize) -> (p: usize)
    requires
        n <= bytes@.len(),
    ensures
        p == previous_break(bytes@, n as int),
        p <= n,
{
    let mut i: usize = n;
    while i > 0
        invariant
            i <= n <= bytes@.len(),
            previous_break(bytes@, n as int) == previous_break(bytes@, i as int),
        decreases i,
    {
        i -= 1;
        if bytes[i] == LINE_BREAK {
            return i;
        }
    }
    0
}

/// The first position from `from` on that holds no space, or `end`.
fn find_start(bytes: &[u8], from: usize, end: usize) -> (start: usize)
    requires
        end <= bytes@.len(),
    ensures
        start == skip_spaces(bytes@, from as int, end as int),
        from <= end ==> from <= start <= end,
{
    let mut i: usize = from;
    while i < end
        invariant
            from <= i,
            end <= bytes@.len(),
            skip_spaces(bytes@, from as int, end as int) == skip_spaces(
                bytes@,
                i as int,
                end as int,
            ),
        decreases end - i,
    {
        if bytes[i] != SPACE {
            return i;
        }
        i += 1;
    }
    end
}

/// Whether `^error{` stands at position `c`.
fn is_caret(bytes: &[u8], c: usize) -> (ok: bool)
    ensures
        ok == caret_at(bytes@, c as int),
{
    if bytes.len() < 7 || c > bytes.len() - 7 {
        return false;
    }
    bytes[c] == CARET && bytes[c + 1] == 101 && bytes[c + 2] == 114 && bytes[c + 3] == 114
        && bytes[c + 4] == 111 && bytes[c + 5] == 114 && bytes[c + 6] == OPEN
}

/// The last position from `low` on and before `high` at which `^error{`
/// stands.
fn find_caret(bytes: &[u8], low: usize, high: usize) -> (found: Option<usize>)
    ensures
        match found {
            Some(c) => last_caret(bytes@, low as int, high as int) == Some(c as int) && low <= c
                < high && c + 7 <= bytes@.len(),
            None => last_caret(bytes@, low as int, high as int).is_none(),
        },
{
    let mut i: usize = high;
    while i > low
        invariant
            last_caret(bytes@, low as int, high as int) == last_caret(
                bytes@,
                low as int,
                i as int,
            ),
            i <= high,
        decreases i,
    {
        i -= 1;
        if is_caret(bytes, i) {
            return Some(i);
        }
    }
    None
}

/// An announced error, as the program holds it.
#[derive(Clone, Copy, Debug)]
pub struct FoundMarker {
    pub offset: usize,
    pub from: usize,
    pub to: usize,
    pub end: usize,
}

impl View for FoundMarker {
    type V = Marker;

    open spec fn view(&self) -> Marker {
        Marker {
            offset: self.offset as int,
            from: self.from as int,
            to: self.to as int,
            end: self.end as int,
        }
    }
}

/// The marker that starts with the line break at `n`.
fn find_marker(bytes: &[u8], n: usize) -> (found: Option<FoundMarker>)
    requires
        n < bytes@.len(),
    ensures
        match found {
            Some(m) => marker_at(bytes@, n as int) == Some(m@) && n < m.end < bytes@.len()
                && m.from <= m.to <= bytes@.len(),
            None => marker_at(bytes@, n as int).is_none(),
        },
{
    let total = bytes.len();
    let end = match find_break(bytes, n + 1) {
        Some(end) => end,
        None => {
            return None;
        },
    };
    let start = find_start(bytes, n + 1, end);
    if end - start < 2 {
        return None;
    }
    if !(bytes[start] == SLASH && bytes[start + 1] == SLASH && bytes[end - 1] == CLOSE) {
        return None;
    }
    if end < 7 {
        return None;
    }
    match find_caret(bytes, start + 2, end - 7) {
        Some(c) => {
            let before = find_previous_break(bytes, n);
            Some(FoundMarker { offset: before + (c - n), from: c + 7, to: end - 1, end })
        },
        None => None,
    }
}

/// The markers of a text.
pub fn find_markers(bytes: &[u8]) -> (found: Vec<FoundMarker>)
    ensures
        views(found@) == markers_from(bytes@, 0),
        forall|k: int|
            0 <= k < found@.len() ==> (#[trigger] found@[k]).from <= found@[k].to <= bytes@.len(),
{
    let mut found: Vec<FoundMarker> = Vec::new();
    let mut at: usize = 0;
    assert(views(found@) + markers_from(bytes@, 0) =~= markers_from(bytes@, 0));
    while at < bytes.len()
        invariant
            views(found@) + markers_from(bytes@, at as int) == markers_from(bytes@, 0),
            forall|k: int|
                0 <= k < found@.len() ==> (#[trigger] found@[k]).from <= found@[k].to
                    <= bytes@.len(),
        decreases bytes.len() - at,
    {
        let ghost sofar = views(found@);
        if bytes[at] == LINE_BREAK {
            match find_marker(bytes, at) {
                Some(m) => {
                    found.push(m);
                    proof {
                        assert(views(found@) =~= sofar.push(m@));
                        assert(sofar.push(m@) + markers_from(bytes@, m.end + 1) =~= sofar + (seq![
                            m@,
                        ] + markers_from(bytes@, m.end + 1)));
                    }
                    at = m.end + 1;
                },
                None => {
                    at += 1;
                },
            }
        } else {
            at += 1;
        }
    }
    proof {
        assert(views(found@) + markers_from(bytes@, at as int) =~= views(found@));
    }
    found
}

/// The pattern of a marker, if the stretch is a text of its own.
fn marker_pattern<'a>(source: &'a str, m: &FoundMarker) -> (pattern: Option<&'a str>)
    requires
        m.from <= m.to <= source.spec_bytes().len(),
    ensures
        match pattern {
            Some(p) => pattern_text(source.spec_bytes(), m@) == Some(p@),
            None => pattern_text(source.spec_bytes(), m@).is_none(),
        },
{
    if !source.is_char_boundary(m.to) {
        return None;
    }
    let (head, _) = source.split_at(m.to);
    if !head.is_char_boundary(m.from) {
        return None;
    }
    let (_, pattern) = head.split_at(m.from);
    proof {
        let bytes = source.spec_bytes();
        assert(head.spec_bytes() == bytes.subrange(0, m.to as int));
        assert(pattern.spec_bytes() =~= bytes.subrange(m.from as int, m.to as int));
        vstd::utf8::encode_utf8_decode_utf8(pattern@);
    }
    Some(pattern)
}

/// The first diagnostic that a marker announces.
fn find_announced(remaining: &Vec<Diagnostic>, offset: usize, pattern: &str) -> (found: Option<usize>)
    requires
        tried(pattern@, Seq::empty()).is_some(),
    ensures
        match found {
            Some(i) => first_announced(
                views(remaining@),
                offset as int,
                pattern@,
                remaining@.len() as int,
            ) == Some(i as int) && i < remaining@.len(),
            None => first_announced(
                views(remaining@),
                offset as int,
                pattern@,
                remaining@.len() as int,
            ).is_none(),
        },
{
    let mut i: usize = 0;
    while i < remaining.len()
        invariant
            i <= remaining.len(),
            first_announced(views(remaining@), offset as int, pattern@, i as int).is_none(),
        decreases remaining.len() - i,
    {
        assert(views(remaining@)[i as int] == remaining@[i as int]@);
        let is_it = match &remaining[i] {
            Diagnostic::CompilerDiagnostic(d) => {
                if d.span.offset == offset {
                    match try_pattern(pattern, d.message.as_str()) {
                        Some(matched) => matched,
                        None => false,
                    }
                } else {
                    false
                }
            },
            Diagnostic::FileLoadError(_) => false,
        };
        if is_it {
            proof {
                lemma_first_stays(
                    views(remaining@),
                    offset as int,
                    pattern@,
                    i + 1,
                    remaining@.len() as int,
                );
            }
            return Some(i);
        }
        i += 1;
    }
    None
}

/// A diagnostic that is the first among some is the first among more.
proof fn lemma_first_stays(
    diagnostics: Seq<DiagnosticView>,
    offset: int,
    pattern: Seq<char>,
    n: int,
    more: int,
)
    requires
        0 <= n <= more,
        first_announced(diagnostics, offset, pattern, n).is_some(),
    ensures
        first_announced(diagnostics, offset, pattern, more) == first_announced(
            diagnostics,
            offset,
            pattern,
            n,
        ),
    decreases more,
{
    if n < more {
        lemma_first_stays(diagnostics, offset, pattern, n, more - 1);
    }
}

/// Checks the diagnostics of a source text against the errors that the
/// text announces.
pub fn check_expected_errors(source: &str, diagnostics: &FileDiagnostics) -> (ok: bool)
    ensures
        ok == expectations_met(source.spec_bytes(), diagnostics@.inner),
{
    let bytes = source.as_bytes();
    let markers = find_markers(bytes);
    let ghost all = markers_from(bytes@, 0);
    let mut remaining: Vec<Diagnostic> = Vec::new();
    let mut d: usize = 0;
    while d < diagnostics.inner.len()
        invariant
            d <= diagnostics.inner.len(),
            remaining@.len() == d,
            forall|q: int| 0 <= q < d ==> (#[trigger] remaining@[q])@ == diagnostics.inner@[q]@,
        decreases diagnostics.inner.len() - d,
    {
        remaining.push(clone_diagnostic(&diagnostics.inner[d]));
        d += 1;
    }
    assert(views(remaining@) =~= diagnostics@.inner);
    let mut found_all = true;
    let mut k: usize = 0;
    while k < markers.len()
        invariant
            bytes@ == source.spec_bytes(),
            all == views(markers@),
            all == markers_from(bytes@, 0),
            forall|q: int|
                0 <= q < markers@.len() ==> (#[trigger] markers@[q]).from <= markers@[q].to
                    <= bytes@.len(),
            k <= markers.len(),
            after_markers(bytes@, diagnostics@.inner, all, k as int) == (Progress {
                remaining: views(remaining@),
                found_all,
                broken: false,
            }),
        decreases markers.len() - k,
    {
        let m = markers[k];
        assert(all[k as int] == m@);
        let pattern = match marker_pattern(source, &m) {
            Some(pattern) => pattern,
            None => {
                proof {
                    lemma_broken_stays(bytes@, diagnostics@.inner, all, k + 1, all.len() as int);
                }
                return false;
            },
        };
        if try_pattern(pattern, "").is_none() {
            proof {
                reveal_strlit("");
                assert(""@ =~= Seq::<char>::empty());
                lemma_broken_stays(bytes@, diagnostics@.inner, all, k + 1, all.len() as int);
            }
            return false;
        }
        proof {
            reveal_strlit("");
            assert(""@ =~= Seq::<char>::empty());
        }
        match find_announced(&remaining, m.offset, pattern) {
            Some(i) => {
                let ghost before = views(remaining@);
                remaining.remove(i);
                assert(views(remaining@) =~= before.remove(i as int));
            },
            None => {
                found_all = false;
            },
        }
        k += 1;
    }
    found_all && remaining.len() == 0
}

/// A check that is broken off stays broken off.
proof fn lemma_broken_stays(
    bytes: Seq<u8>,
    diagnostics: Seq<DiagnosticView>,
    markers: Seq<Marker>,
    n: int,
    more: int,
)
    requires
        0 <= n <= more,
        after_markers(bytes, diagnostics, markers, n).broken,
    ensures
        after_markers(bytes, diagnostics, markers, more).broken,
    decreases more,
{
    if n < more {
        lemma_broken_stays(bytes, diagnostics, markers, n, more - 1);
    }
}

/// What is reported of a source text: what the parser reported where it
/// reported an error, and else what the compiler reports of the tree that
/// the parser made, for a file that uses nothing from elsewhere.
pub open spec fn reported(
    node: Seq<SyntaxComponentView>,
    parsed: FileDiagnosticsView,
) -> Seq<FileDiagnosticsView> {
    if any_error(parsed.inner) {
        seq![parsed]
    } else {
        added(
            added(Seq::empty(), lowering_errors(node, parsed)),
            pass_errors(document_of(node, parsed.current_path)),
        )
    }
}

/// Compiles a parsed source text, unless the parser reported an error of
/// it, and says whether what is reported is what the text announces in
/// its comments. What is reported has to be about one file.
pub fn process_file_source(source: &str, doc_node: &SyntaxNode, parse_diagnostics: FileDiagnostics) -> (ok:
    bool)
    ensures
        ok == (reported(doc_node@, parse_diagnostics@).len() == 1 && expectations_met(
            source.spec_bytes(),
            reported(doc_node@, parse_diagnostics@)[0].inner,
        )),
{
    let ghost parsed = parse_diagnostics@;
    if parse_diagnostics.has_error() {
        return check_expected_errors(source, &parse_diagnostics);
    }
    let compiler_config = CompilerConfiguration::default();
    let directories: Vec<IncludeDirectory> = Vec::new();
    proof {
        lemma_nothing_included(
            compiler_config.include_paths@,
            parsed.current_path,
            views(directories@),
            doc_node@,
        );
    }
    let (_, build) = compile_syntax_node(doc_node, parse_diagnostics, &directories, &compiler_config);
    let files = build.into_files();
    if files.len() != 1 {
        return false;
    }
    assert(views(files@)[0] == files@[0]@);
    check_expected_errors(source, &files[0])
}

} // verus!
