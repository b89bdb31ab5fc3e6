//! The compiler: from a parsed file to a lowered document.
//!
//! The passes run in a fixed order. Names are bound first, so that every
//! later pass works on positions. Instances of components are inlined
//! next, so that the passes after it see the elements as they will be
//! instantiated. Layouts are lowered after inlining and before the states,
//! so that a state can still override what a layout gave. Repeated
//! elements are taken out when all bindings are made, and declarations
//! move to the roots last, in the templates too.

use vstd::prelude::*;
use crate::diagnostics::{added, with_all, BuildDiagnostics, FileDiagnostics, FileDiagnosticsView};
use crate::lowering::lowered;
use crate::names::{find_name, lemma_position_of, views};
use crate::object_tree::{ComponentView, Document, DocumentView, ElementView};
use crate::parser::{SyntaxComponent, SyntaxComponentView, SyntaxNode};
use crate::passes::collect_resources::{collect_resources, embedded_document};
use crate::passes::compile_paths::{compile_paths, compiled_paths};
use crate::passes::inlining::{inlined_components, inlined_document};
use crate::passes::lower_layout::{laid_out, lower_layouts};
use crate::passes::lower_states::{lower_states, lowered_states};
use crate::passes::move_declarations::{move_declarations, with_moved_declarations};
use crate::passes::repeater_component::{
    create_repeater_components, extracted_components, extracted_document, extracted_step,
    is_repeated, members, templates,
};
use crate::passes::resolving::{resolution_errors, resolve_expressions, resolved_document};
use crate::passes::unique_id::{assign_unique_id, numbered};
use crate::typeregister::TypeRegister;

verus! {

/// What the compiler is asked to do besides compiling.
#[derive(Debug)]
pub struct CompilerConfiguration {
    /// Whether images are recorded in the document, so that the program
    /// does not look for them in files when it runs.
    pub embed_resources: bool,
    /// Where the components that a file uses are looked for.
    pub include_paths: Vec<String>,
}

impl Default for CompilerConfiguration {
    fn default() -> (config: Self)
        ensures
            !config.embed_resources,
            config.include_paths@.len() == 0,
    {
        CompilerConfiguration { embed_resources: false, include_paths: Vec::new() }
    }
}

/// The position of the last `/` among the first `n` characters of a path.
pub open spec fn last_separator(path: Seq<char>, n: int) -> Option<int>
    decreases n,
{
    if n <= 0 {
        None
    } else if path[n - 1] == '/' {
        Some(n - 1)
    } else {
        last_separator(path, n - 1)
    }
}

/// The directory of a file: the path without its last part. It is empty
/// for a path of one part, and `/` for a file in the root directory.
pub open spec fn directory_of(path: Seq<char>) -> Seq<char> {
    match last_separator(path, path.len() as int) {
        Some(i) => if i == 0 {
            path.subrange(0, 1)
        } else {
            path.subrange(0, i)
        },
        None => Seq::empty(),
    }
}

/// Where a given path leads for the file at `current`: a path that
/// starts at the root leads where it says, every other path is taken from
/// the directory of the file.
pub open spec fn include_path(current: Seq<char>, given: Seq<char>) -> Seq<char> {
    if given.len() > 0 && given[0] == '/' {
        given
    } else if directory_of(current).len() == 0 {
        given
    } else if directory_of(current).last() == '/' {
        directory_of(current) + given
    } else {
        directory_of(current) + seq!['/'] + given
    }
}

/// The directory of a file.
pub fn directory(path: &str) -> (dir: String)
    ensures
        dir@ == directory_of(path@),
{
    let length = path.unicode_len();
    let mut n: usize = length;
    while n > 0
        invariant
            length == path@.len(),
            n <= length,
            last_separator(path@, path@.len() as int) == last_separator(path@, n as int),
        decreases n,
    {
        n -= 1;
        if path.get_char(n) == '/' {
            let to = if n == 0 {
                1
            } else {
                n
            };
            return String::from_str(path.substring_char(0, to));
        }
    }
    String::new()
}

/// Where a given path leads for the file at `current`.
pub fn resolve_include_path(current: &str, given: &str) -> (path: String)
    ensures
        path@ == include_path(current@, given@),
{
    let length = given.unicode_len();
    if length > 0 && given.get_char(0) == '/' {
        return String::from_str(given);
    }
    let dir = directory(current);
    let dir_length = dir.as_str().unicode_len();
    if dir_length == 0 {
        String::from_str(given)
    } else if dir.as_str().get_char(dir_length - 1) == '/' {
        dir.concat(given)
    } else {
        proof {
            reveal_strlit("/");
            assert("/"@ =~= seq!['/']);
        }
        dir.concat("/").concat(given)
    }
}

impl CompilerConfiguration {
    /// Where the components that the file at `current_path` uses are looked
    /// for: each of the given paths, taken from the directory of the file.
    pub fn search_paths(&self, current_path: &str) -> (paths: Vec<String>)
        ensures
            views(paths@) == Seq::new(
                self.include_paths@.len(),
                |i: int| include_path(current_path@, self.include_paths@[i]@),
            ),
    {
        let mut paths: Vec<String> = Vec::new();
        let mut i: usize = 0;
        while i < self.include_paths.len()
            invariant
                i <= self.include_paths.len(),
                paths@.len() == i,
                forall|q: int|
                    0 <= q < i ==> (#[trigger] paths@[q])@ == include_path(
                        current_path@,
                        self.include_paths@[q]@,
                    ),
            decreases self.include_paths.len() - i,
        {
            paths.push(resolve_include_path(current_path, self.include_paths[i].as_str()));
            i += 1;
        }
        assert(views(paths@) =~= Seq::new(
            self.include_paths@.len(),
            |i: int| include_path(current_path@, self.include_paths@[i]@),
        ));
        paths
    }
}

/// The document after paths were compiled, elements numbered and layouts
/// lowered in every component.
pub open spec fn shaped(doc: DocumentView) -> DocumentView {
    DocumentView {
        components: Seq::new(
            doc.components.len(),
            |k: int| laid_out(numbered(compiled_paths(doc.components[k]))),
        ),
        ..doc
    }
}

/// The document after the states of every component were lowered.
pub open spec fn without_states(doc: DocumentView) -> DocumentView {
    DocumentView {
        components: Seq::new(doc.components.len(), |k: int| lowered_states(doc.components[k])),
        ..doc
    }
}

/// The document after the declarations of every component moved to its
/// root.
pub open spec fn hoisted(doc: DocumentView) -> DocumentView {
    DocumentView {
        components: Seq::new(
            doc.components.len(),
            |k: int| with_moved_declarations(doc.components[k]),
        ),
        ..doc
    }
}

/// The document after all passes.
pub open spec fn passed(doc: DocumentView, embed_resources: bool) -> DocumentView {
    let shaped = shaped(inlined_document(resolved_document(doc)));
    let embedded = if embed_resources {
        embedded_document(shaped)
    } else {
        shaped
    };
    hoisted(extracted_document(without_states(embedded)))
}

/// Whether the components that there were are all there still, each at
/// its place and under its name.
pub open spec fn keeps_names(before: Seq<ComponentView>, after: Seq<ComponentView>) -> bool {
    &&& before.len() <= after.len()
    &&& forall|k: int| 0 <= k < before.len() ==> (#[trigger] after[k]).id == before[k].id
}

/// Inlining keeps the components under their names.
pub proof fn lemma_inlined_names(components: Seq<ComponentView>, n: int)
    requires
        0 <= n <= components.len(),
    ensures
        inlined_components(components, n).len() == n,
        forall|k: int|
            0 <= k < n ==> (#[trigger] inlined_components(components, n)[k]).id == components[k].id,
    decreases n,
{
    if n > 0 {
        lemma_inlined_names(components, n - 1);
    }
}

/// Taking the repeated elements out keeps the components under their
/// names; the templates come after them.
pub proof fn lemma_extracted_names(components: Seq<ComponentView>, n: int)
    requires
        0 <= n <= components.len(),
    ensures
        keeps_names(components, extracted_components(components, n)),
    decreases n,
{
    if n > 0 {
        lemma_extracted_names(components, n - 1);
        let before = extracted_components(components, n - 1);
        let after = extracted_step(before, n - 1);
        assert forall|k: int| 0 <= k < components.len() implies (#[trigger] after[k]).id
            == components[k].id by {
            assert(before[k].id == components[k].id);
        }
    }
}

/// The passes keep the components of a document under their names, and
/// its root: whatever they add comes after.
pub proof fn lemma_passes_keep_names(doc: DocumentView, embed_resources: bool)
    ensures
        keeps_names(doc.components, passed(doc, embed_resources).components),
        passed(doc, embed_resources).root_component == doc.root_component,
{
    let resolved = resolved_document(doc);
    let inlined = inlined_document(resolved);
    lemma_inlined_names(resolved.components, resolved.components.len() as int);
    let shaped = shaped(inlined);
    let embedded = if embed_resources {
        embedded_document(shaped)
    } else {
        shaped
    };
    let plain = without_states(embedded);
    let extracted = extracted_document(plain);
    lemma_extracted_names(plain.components, plain.components.len() as int);
    let last = hoisted(extracted);
    assert forall|k: int| 0 <= k < doc.components.len() implies (#[trigger] last.components[k]).id
        == doc.components[k].id by {
        assert(resolved.components[k].id == doc.components[k].id);
        assert(inlined.components[k].id == resolved.components[k].id);
        assert(shaped.components[k].id == inlined.components[k].id);
        assert(embedded.components[k].id == shaped.components[k].id);
        assert(plain.components[k].id == embedded.components[k].id);
        assert(extracted.components[k].id == plain.components[k].id);
        assert(last.components[k].id == extracted.components[k].id);
    }
}

/// Whether no element of the components has a state or a transition.
pub open spec fn stateless(components: Seq<ComponentView>) -> bool {
    forall|k: int, i: int|
        0 <= k < components.len() && 0 <= i < components[k].elements.len() ==> (
        #[trigger] components[k].elements[i]).states.len() == 0
            && components[k].elements[i].transitions.len() == 0
}

/// The elements of a template have no state and no transition.
pub proof fn lemma_members_stateless(elements: Seq<ElementView>, i: int, n: int)
    ensures
        forall|q: int|
            0 <= q < members(elements, i, n).len() ==> (#[trigger] members(elements, i, n)[q]).states.len()
                == 0 && members(elements, i, n)[q].transitions.len() == 0,
    decreases n,
{
    if n > 0 {
        lemma_members_stateless(elements, i, n - 1);
    }
}

/// Templates have no state and no transition.
pub proof fn lemma_templates_stateless(elements: Seq<ElementView>, base: int, n: int)
    ensures
        stateless(templates(elements, base, n)),
    decreases n,
{
    if n > 0 {
        lemma_templates_stateless(elements, base, n - 1);
        if is_repeated(elements, n - 1) {
            lemma_members_stateless(elements, n - 1, elements.len() as int);
            let before = templates(elements, base, n - 1);
            let after = templates(elements, base, n);
            assert forall|k: int, i: int|
                0 <= k < after.len() && 0 <= i < after[k].elements.len() implies (
            #[trigger] after[k].elements[i]).states.len() == 0
                && after[k].elements[i].transitions.len() == 0 by {
                if k < before.len() {
                    assert(after[k] == before[k]);
                }
            }
        }
    }
}

/// Taking the repeated elements out of components without states leaves
/// components without states.
pub proof fn lemma_extracted_stateless(components: Seq<ComponentView>, n: int)
    requires
        0 <= n <= components.len(),
        stateless(components),
    ensures
        stateless(extracted_components(components, n)),
        components.len() <= extracted_components(components, n).len(),
    decreases n,
{
    if n > 0 {
        lemma_extracted_stateless(components, n - 1);
        let before = extracted_components(components, n - 1);
        let after = extracted_step(before, n - 1);
        let elements = before[n - 1].elements;
        lemma_templates_stateless(elements, before.len() as int, elements.len() as int);
        let added = templates(elements, before.len() as int, elements.len() as int);
        assert forall|k: int, i: int|
            0 <= k < after.len() && 0 <= i < after[k].elements.len() implies (
        #[trigger] after[k].elements[i]).states.len() == 0
            && after[k].elements[i].transitions.len() == 0 by {
            if after != before {
                if k < before.len() {
                    if k != n - 1 {
                        assert(after[k] == before[k]);
                    } else {
                        assert(before[k].elements[i].states.len() == 0);
                    }
                } else {
                    assert(after[k] == added[k - before.len()]);
                }
            }
        }
    }
}

/// When the passes are through, no element of the document has a state or
/// a transition: what the states did is done by bindings.
pub proof fn lemma_passes_leave_no_state(doc: DocumentView, embed_resources: bool)
    ensures
        stateless(passed(doc, embed_resources).components),
{
    let shaped = shaped(inlined_document(resolved_document(doc)));
    let embedded = if embed_resources {
        embedded_document(shaped)
    } else {
        shaped
    };
    let plain = without_states(embedded);
    assert(stateless(plain.components));
    lemma_extracted_stateless(plain.components, plain.components.len() as int);
    let extracted = extracted_document(plain);
    let last = hoisted(extracted);
    assert forall|k: int, i: int|
        0 <= k < last.components.len() && 0 <= i < last.components[k].elements.len() implies (
    #[trigger] last.components[k].elements[i]).states.len() == 0
        && last.components[k].elements[i].transitions.len() == 0 by {
        assert(extracted.components[k].elements[i].states.len() == 0);
    }
}

/// The components of a document have the names that were written.
pub proof fn lemma_lowered_names(
    base: Seq<Seq<(Seq<char>, crate::typeregister::Type)>>,
    written: Seq<SyntaxComponentView>,
    n: int,
)
    requires
        0 <= n <= written.len(),
    ensures
        lowered(base, written, n).components.len() == n,
        forall|k: int|
            0 <= k < n ==> (#[trigger] lowered(base, written, n).components[k]).id == written[k].id,
    decreases n,
{
    if n > 0 {
        lemma_lowered_names(base, written, n - 1);
    }
}

/// What is compiled of a file has, for each component that was written,
/// a component of that name at the same place; the root is the component
/// that was written last.
pub proof fn lemma_compiled_names(
    written: Seq<SyntaxComponentView>,
    path: Seq<char>,
    embed_resources: bool,
)
    ensures
        ({
            let doc = passed(document_of(written, path), embed_resources);
            &&& written.len() <= doc.components.len()
            &&& forall|k: int|
                0 <= k < written.len() ==> (#[trigger] doc.components[k]).id == written[k].id
            &&& 0 < written.len() <= usize::MAX ==> doc.root_component == written.len() - 1
                && doc.components[doc.root_component as int].id == written.last().id
        }),
{
    let first = document_of(written, path);
    lemma_lowered_names(
        seq![crate::typeregister::builtin_scope()],
        written,
        written.len() as int,
    );
    lemma_passes_keep_names(first, embed_resources);
    let doc = passed(first, embed_resources);
    assert forall|k: int| 0 <= k < written.len() implies (#[trigger] doc.components[k]).id
        == written[k].id by {
        assert(first.components[k].id == written[k].id);
    }
}

/// What the passes have to say about a document.
pub open spec fn pass_errors(doc: DocumentView) -> FileDiagnosticsView {
    FileDiagnosticsView {
        inner: with_all(
            Seq::empty(),
            resolution_errors(doc.components, doc.components.len() as int),
        ),
        current_path: doc.path,
    }
}

/// Runs the passes on a document and adds what they report to `diag`,
/// under the file of the document.
pub fn run_passes(
    doc: &mut Document,
    diag: &mut BuildDiagnostics,
    compiler_config: &CompilerConfiguration,
)
    ensures
        final(doc)@ == passed(old(doc)@, compiler_config.embed_resources),
        final(diag)@ == added(old(diag)@, pass_errors(old(doc)@)),
{
    let ghost start = doc@;
    let mut local = FileDiagnostics::new(doc.path.clone());
    resolve_expressions(doc, &mut local);
    diag.add(local);
    crate::passes::inlining::inline(doc);
    let ghost inlined = doc@;
    let mut k: usize = 0;
    while k < doc.components.len()
        invariant
            inlined == inlined_document(resolved_document(start)),
            doc.root_component == inlined.root_component,
            doc@.embedded_resources == inlined.embedded_resources,
            doc@.path == inlined.path,
            doc.components@.len() == inlined.components.len(),
            k <= doc.components.len(),
            forall|q: int|
                0 <= q < k ==> (#[trigger] doc.components@[q])@ == laid_out(
                    numbered(compiled_paths(inlined.components[q])),
                ),
            forall|q: int|
                k <= q < inlined.components.len() ==> (#[trigger] doc.components@[q])@
                    == inlined.components[q],
        decreases doc.components.len() - k,
    {
        let ghost before = doc.components@;
        compile_paths(&mut doc.components[k]);
        assign_unique_id(&mut doc.components[k]);
        lower_layouts(&mut doc.components[k]);
        proof {
            assert forall|q: int| 0 <= q < k + 1 implies (#[trigger] doc.components@[q])@
                == laid_out(numbered(compiled_paths(inlined.components[q]))) by {
                if q < k {
                    assert(doc.components@[q] == before[q]);
                } else {
                    assert(before[q]@ == inlined.components[q]);
                }
            }
            assert forall|q: int| k + 1 <= q < inlined.components.len() implies (
            #[trigger] doc.components@[q])@ == inlined.components[q] by {
                assert(doc.components@[q] == before[q]);
            }
        }
        k += 1;
    }
    proof {
        assert(doc@.components =~= shaped(inlined).components);
    }
    if compiler_config.embed_resources {
        collect_resources(doc);
    }
    let ghost embedded = doc@;
    let mut s: usize = 0;
    while s < doc.components.len()
        invariant
            doc.root_component == embedded.root_component,
            doc@.embedded_resources == embedded.embedded_resources,
            doc@.path == embedded.path,
            doc.components@.len() == embedded.components.len(),
            s <= doc.components.len(),
            forall|q: int|
                0 <= q < s ==> (#[trigger] doc.components@[q])@ == lowered_states(
                    embedded.components[q],
                ),
            forall|q: int|
                s <= q < embedded.components.len() ==> (#[trigger] doc.components@[q])@
                    == embedded.components[q],
        decreases doc.components.len() - s,
    {
        let ghost before = doc.components@;
        lower_states(&mut doc.components[s]);
        proof {
            assert forall|q: int| 0 <= q < s + 1 implies (#[trigger] doc.components@[q])@
                == lowered_states(embedded.components[q]) by {
                if q < s {
                    assert(doc.components@[q] == before[q]);
                } else {
                    assert(before[q]@ == embedded.components[q]);
                }
            }
            assert forall|q: int| s + 1 <= q < embedded.components.len() implies (
            #[trigger] doc.components@[q])@ == embedded.components[q] by {
                assert(doc.components@[q] == before[q]);
            }
        }
        s += 1;
    }
    proof {
        assert(doc@.components =~= without_states(embedded).components);
    }
    create_repeater_components(doc);
    let ghost extracted = doc@;
    let mut m: usize = 0;
    while m < doc.components.len()
        invariant
            doc.root_component == extracted.root_component,
            doc@.embedded_resources == extracted.embedded_resources,
            doc@.path == extracted.path,
            doc.components@.len() == extracted.components.len(),
            m <= doc.components.len(),
            forall|q: int|
                0 <= q < m ==> (#[trigger] doc.components@[q])@ == with_moved_declarations(
                    extracted.components[q],
                ),
            forall|q: int|
                m <= q < extracted.components.len() ==> (#[trigger] doc.components@[q])@
                    == extracted.components[q],
        decreases doc.components.len() - m,
    {
        let ghost before = doc.components@;
        move_declarations(&mut doc.components[m]);
        proof {
            assert forall|q: int| 0 <= q < m + 1 implies (#[trigger] doc.components@[q])@
                == with_moved_declarations(extracted.components[q]) by {
                if q < m {
                    assert(doc.components@[q] == before[q]);
                } else {
                    assert(before[q]@ == extracted.components[q]);
                }
            }
            assert forall|q: int| m + 1 <= q < extracted.components.len() implies (
            #[trigger] doc.components@[q])@ == extracted.components[q] by {
                assert(doc.components@[q] == before[q]);
            }
        }
        m += 1;
    }
    proof {
        assert(doc@.components =~= hoisted(extracted).components);
    }
}

/// The document that a list of parsed components stands for, before the
/// passes.
pub open spec fn document_of(node: Seq<SyntaxComponentView>, path: Seq<char>) -> DocumentView {
    DocumentView {
        components: lowered(seq![crate::typeregister::builtin_scope()], node, node.len() as int).components,
        root_component: if node.len() > 0 {
            (node.len() - 1) as usize
        } else {
            0usize
        },
        embedded_resources: Seq::empty(),
        path,
    }
}

/// What is wrong with the names of a parsed file, given what was known to
/// be wrong with the file before.
pub open spec fn lowering_errors(
    node: Seq<SyntaxComponentView>,
    diagnostics: FileDiagnosticsView,
) -> FileDiagnosticsView {
    FileDiagnosticsView {
        inner: with_all(
            diagnostics.inner,
            lowered(seq![crate::typeregister::builtin_scope()], node, node.len() as int).errors,
        ),
        current_path: diagnostics.current_path,
    }
}

/// What one directory holds: the components of its files, as they were
/// parsed, in the order in which they are to be known. What the parser
/// reported of those files is not part of it: the host has it. What the
/// compiler finds wrong with one of the components is reported with the
/// file that is compiled.
#[derive(Debug)]
pub struct IncludeDirectory {
    pub path: String,
    pub components: Vec<SyntaxComponent>,
}

/// The content of an [`IncludeDirectory`].
pub struct IncludeDirectoryView {
    pub path: Seq<char>,
    pub components: Seq<SyntaxComponentView>,
}

impl View for IncludeDirectory {
    type V = IncludeDirectoryView;

    open spec fn view(&self) -> IncludeDirectoryView {
        IncludeDirectoryView { path: self.path@, components: views(self.components@) }
    }
}

/// Where the components that the file at `current` uses are looked for.
pub open spec fn searched(include_paths: Seq<String>, current: Seq<char>) -> Seq<Seq<char>> {
    Seq::new(include_paths.len(), |i: int| include_path(current, include_paths[i]@))
}

/// The components that the first `n` of the directories add: those of
/// each directory that is one of the places searched, in the order of
/// the directories. A directory that is no such place adds nothing.
pub open spec fn included(
    places: Seq<Seq<char>>,
    directories: Seq<IncludeDirectoryView>,
    n: int,
) -> Seq<SyntaxComponentView>
    decreases n,
{
    if n <= 0 {
        Seq::empty()
    } else {
        included(places, directories, n - 1) + (if places.contains(directories[n - 1].path) {
            directories[n - 1].components
        } else {
            Seq::empty()
        })
    }
}

/// The components that are compiled for a file: those that the
/// directories add, then those of the file. Each can use the built-in
/// types and the components before it as types; the last is the root.
pub open spec fn compiled_components(
    include_paths: Seq<String>,
    current: Seq<char>,
    directories: Seq<IncludeDirectoryView>,
    node: Seq<SyntaxComponentView>,
) -> Seq<SyntaxComponentView> {
    included(searched(include_paths, current), directories, directories.len() as int) + node
}

/// Without a place to search, and without directories, the components of
/// the file are all that is compiled: only the built-in types are known
/// besides them.
pub proof fn lemma_nothing_included(
    include_paths: Seq<String>,
    current: Seq<char>,
    directories: Seq<IncludeDirectoryView>,
    node: Seq<SyntaxComponentView>,
)
    requires
        include_paths.len() == 0 || directories.len() == 0,
    ensures
        compiled_components(include_paths, current, directories, node) == node,
{
    let places = searched(include_paths, current);
    lemma_included_nowhere(places, directories, directories.len() as int);
    assert(Seq::<SyntaxComponentView>::empty() + node =~= node);
}

/// Directories of which none is a place that is searched add nothing.
pub proof fn lemma_included_nowhere(
    places: Seq<Seq<char>>,
    directories: Seq<IncludeDirectoryView>,
    n: int,
)
    requires
        0 <= n <= directories.len(),
        forall|k: int| 0 <= k < n ==> !places.contains(#[trigger] directories[k].path),
    ensures
        included(places, directories, n) == Seq::<SyntaxComponentView>::empty(),
    decreases n,
{
    if n > 0 {
        lemma_included_nowhere(places, directories, n - 1);
        assert(Seq::<SyntaxComponentView>::empty() + Seq::<SyntaxComponentView>::empty()
            =~= Seq::<SyntaxComponentView>::empty());
    }
}

/// Whether a text is one of the texts of a list.
pub fn contains_text(list: &Vec<String>, text: &str) -> (found: bool)
    ensures
        found == views(list@).contains(text@),
{
    proof {
        lemma_position_of(views(list@), text@);
    }
    match find_name(list, text) {
        Some(i) => {
            assert(views(list@)[i as int] == text@);
            true
        },
        None => false,
    }
}

/// The components that are compiled for a file, each where it stands.
fn gather<'a>(
    places: &Vec<String>,
    directories: &'a Vec<IncludeDirectory>,
    doc_node: &'a SyntaxNode,
) -> (all: Vec<&'a SyntaxComponent>)
    ensures
        views(all@) == included(
            views(places@),
            views(directories@),
            directories@.len() as int,
        ) + doc_node@,
{
    let ghost sought = views(places@);
    let mut all: Vec<&SyntaxComponent> = Vec::new();
    let mut d: usize = 0;
    assert(views(all@) =~= included(sought, views(directories@), 0));
    while d < directories.len()
        invariant
            d <= directories.len(),
            views(places@) == sought,
            views(all@) == included(sought, views(directories@), d as int),
        decreases directories.len() - d,
    {
        let directory = &directories[d];
        assert(views(directories@)[d as int] == directory@);
        let ghost before = views(all@);
        if contains_text(places, directory.path.as_str()) {
            let mut c: usize = 0;
            while c < directory.components.len()
                invariant
                    c <= directory.components.len(),
                    views(all@) == before + directory@.components.subrange(0, c as int),
                decreases directory.components.len() - c,
            {
                let ghost sofar = views(all@);
                all.push(&directory.components[c]);
                assert(views(all@) =~= sofar.push(directory.components@[c as int]@));
                assert(views(all@) =~= before + directory@.components.subrange(0, c + 1));
                c += 1;
            }
            assert(directory@.components.subrange(0, c as int) =~= directory@.components);
        } else {
            assert(before + Seq::<SyntaxComponentView>::empty() =~= before);
        }
        d += 1;
    }
    let ghost first = views(all@);
    let mut k: usize = 0;
    assert(views(all@) =~= first + doc_node@.subrange(0, 0));
    while k < doc_node.components.len()
        invariant
            k <= doc_node.components.len(),
            views(all@) == first + doc_node@.subrange(0, k as int),
        decreases doc_node.components.len() - k,
    {
        let ghost sofar = views(all@);
        all.push(&doc_node.components[k]);
        assert(views(all@) =~= sofar.push(doc_node.components@[k as int]@));
        assert(views(all@) =~= first + doc_node@.subrange(0, k + 1));
        k += 1;
    }
    assert(doc_node@.subrange(0, k as int) =~= doc_node@);
    all
}

/// Compiles a parsed file: makes its document, runs the passes and gives
/// the lowered document with everything that was reported, what the parser
/// reported in `diagnostics` included.
///
/// `directories` is what the host found in the directories it read. Of
/// these the compiler takes those that the include paths of the
/// configuration lead to from the directory of the file; a directory that
/// the host could not read is not among them and adds nothing. Their
/// components come before those of the file, so that the file can use
/// them, besides the built-in types, as types.
pub fn compile_syntax_node(
    doc_node: &SyntaxNode,
    diagnostics: FileDiagnostics,
    directories: &Vec<IncludeDirectory>,
    compiler_config: &CompilerConfiguration,
) -> (out: (Document, BuildDiagnostics))
    ensures
        ({
            let all = compiled_components(
                compiler_config.include_paths@,
                diagnostics@.current_path,
                views(directories@),
                doc_node@,
            );
            &&& out.0@ == passed(
                document_of(all, diagnostics@.current_path),
                compiler_config.embed_resources,
            )
            &&& out.1@ == added(
                added(Seq::empty(), lowering_errors(all, diagnostics@)),
                pass_errors(document_of(all, diagnostics@.current_path)),
            )
            &&& all.len() <= usize::MAX
        }),
{
    let mut diagnostics = diagnostics;
    let places = compiler_config.search_paths(diagnostics.current_path.as_str());
    assert(views(places@) =~= searched(compiler_config.include_paths@, diagnostics@.current_path));
    let all = gather(&places, directories, doc_node);
    let mut build_diagnostics = BuildDiagnostics::new();
    let registry = TypeRegister::builtin();
    let mut doc = Document::from_components(&all, &mut diagnostics, &registry);
    build_diagnostics.add(diagnostics);
    run_passes(&mut doc, &mut build_diagnostics, compiler_config);
    (doc, build_diagnostics)
}

} // verus!
