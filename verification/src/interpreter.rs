//! Loading: from a parsed file to a description that instances can be made
//! from.

use vstd::prelude::*;
use std::rc::Rc;
use crate::compiler::{
    compile_syntax_node, compiled_components, document_of, lemma_compiled_names, lowering_errors,
    pass_errors, passed, CompilerConfiguration, IncludeDirectory,
};
use crate::diagnostics::{
    added, any_error, any_file_error, error_at, is_error, lemma_added_keeps_errors,
    BuildDiagnostics, FileDiagnostics, FileDiagnosticsView, Span,
};
use crate::dynamic_component::{outcome, BuildError, ComponentDescription, IdentitySource};
use crate::names::views;
use crate::parser::{SyntaxComponentView, SyntaxNode};

verus! {

/// What is said when a lowered document cannot be instantiated.
pub open spec fn build_error_text(e: BuildError) -> Seq<char> {
    match e {
        BuildError::UnknownComponent => "The document has no component"@,
        BuildError::TooLarge => "The component is too large"@,
        BuildError::IdentitiesExhausted => "Too many components were loaded"@,
        BuildError::NotLowered => "A repeater has no template"@,
    }
}

/// The report that a lowered document cannot be instantiated.
pub open spec fn build_failure(path: Seq<char>, e: BuildError) -> FileDiagnosticsView {
    FileDiagnosticsView {
        inner: seq![error_at(build_error_text(e), Span { offset: 0, length: 0 })],
        current_path: path,
    }
}

/// What the compiler reports about a file, given what the parser reported
/// of it.
pub open spec fn compile_errors(
    all: Seq<SyntaxComponentView>,
    diagnostics: FileDiagnosticsView,
) -> Seq<FileDiagnosticsView> {
    added(
        added(Seq::empty(), lowering_errors(all, diagnostics)),
        pass_errors(document_of(all, diagnostics.current_path)),
    )
}

/// Compiles a parsed file and makes the description of its root
/// component. `diagnostics` holds what the parser reported of the file,
/// and `directories` what the host found in the directories it read.
///
/// Where the parser reported an error, nothing is compiled and the
/// diagnostics of the parser are given back. Where the compiler reports an
/// error, and where the component cannot be instantiated, the diagnostics
/// are given instead of a description. Nothing fails in silence: the
/// diagnostics that are given hold an error. The description has the name
/// of the component that was written last.
pub fn load(
    doc_node: &SyntaxNode,
    diagnostics: FileDiagnostics,
    directories: &Vec<IncludeDirectory>,
    compiler_config: &CompilerConfiguration,
    identities: &mut IdentitySource,
) -> (result: Result<Rc<ComponentDescription>, BuildDiagnostics>)
    ensures
        ({
            let path = diagnostics@.current_path;
            let all = compiled_components(
                compiler_config.include_paths@,
                path,
                views(directories@),
                doc_node@,
            );
            let doc = passed(document_of(all, path), compiler_config.embed_resources);
            let errors = compile_errors(all, diagnostics@);
            if any_error(diagnostics@.inner) {
                &&& result is Err
                &&& result->Err_0@ == added(Seq::empty(), diagnostics@)
                &&& final(identities).upcoming() == old(identities).upcoming()
            } else if any_file_error(errors) {
                &&& result is Err
                &&& result->Err_0@ == errors
                &&& final(identities).upcoming() == old(identities).upcoming()
            } else {
                match outcome(doc, doc.root_component as int, old(identities).upcoming() as nat) {
                    Ok(after) => {
                        &&& result is Ok
                        &&& result->Ok_0.wf()
                        &&& result->Ok_0.describes(doc, doc.root_component as int)
                        &&& result->Ok_0.identity == old(identities).upcoming()
                        &&& final(identities).upcoming() == after
                    },
                    Err(e) => {
                        &&& result is Err
                        &&& result->Err_0@ == added(errors, build_failure(path, e))
                    },
                }
            }
        }),
        result is Err ==> any_file_error(result->Err_0@),
        ({
            let all = compiled_components(
                compiler_config.include_paths@,
                diagnostics@.current_path,
                views(directories@),
                doc_node@,
            );
            result is Ok && all.len() > 0 ==> result->Ok_0.id@ == all.last().id
        }),
{
    if diagnostics.has_error() {
        let mut report = BuildDiagnostics::new();
        proof {
            lemma_added_keeps_errors(report@, diagnostics@);
        }
        report.add(diagnostics);
        return Err(report);
    }
    let path = diagnostics.current_path.clone();
    let (doc, mut build) = compile_syntax_node(doc_node, diagnostics, directories, compiler_config);
    if build.has_error() {
        return Err(build);
    }
    proof {
        lemma_compiled_names(
            compiled_components(
                compiler_config.include_paths@,
                path@,
                views(directories@),
                doc_node@,
            ),
            path@,
            compiler_config.embed_resources,
        );
    }
    match ComponentDescription::build(&doc, doc.root_component, identities) {
        Ok(description) => Ok(description),
        Err(e) => {
            let text = match e {
                BuildError::UnknownComponent => "The document has no component",
                BuildError::TooLarge => "The component is too large",
                BuildError::IdentitiesExhausted => "Too many components were loaded",
                BuildError::NotLowered => "A repeater has no template",
            };
            let mut failure = FileDiagnostics::new(path);
            failure.push_error(String::from_str(text), Span { offset: 0, length: 0 });
            proof {
                assert(failure@.inner =~= seq![
                    error_at(build_error_text(e), Span { offset: 0, length: 0 }),
                ]);
                assert(is_error(failure@.inner[0]));
                lemma_added_keeps_errors(build@, failure@);
            }
            build.add(failure);
            Err(build)
        },
    }
}

} // verus!
