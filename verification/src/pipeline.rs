//! The whole pipeline: from source text to scope tables and final memory.
use crate::ast::{AstView, AST};
use crate::errors::{Error, ErrorView};
use crate::grammar::parse_text;
use crate::lexer::literals_fit;
use crate::interpreter::{run, Interpreteter, Memory, Value};
use crate::names::{entries_view, listing_map, sorted_by_name};
use crate::parser::parse_source;
use crate::semantic::{
    analyze, records_view, AnalyzerView, ScopeRecord, ScopeRecordView, SemanticAnalyzer,
};
use vstd::prelude::*;

verus! {

/// What a successful run of the whole pipeline reports.
#[derive(Debug)]
pub struct Report {
    /// The tree of the program.
    pub tree: AST,
    /// The scopes of the program, in the order in which the analysis left
    /// them.
    pub scopes: Vec<ScopeRecord>,
    /// The final memory: every variable with its value, in ascending
    /// byte-wise order of the names.
    pub memory: Vec<(String, Value)>,
}

/// The mathematical model of what the pipeline gives.
pub struct Outcome {
    pub tree: AstView,
    pub scopes: Seq<ScopeRecordView>,
    pub memory: Memory,
}

/// The pipeline: the text is parsed, the tree is analysed, and the tree is
/// evaluated, each stage on the whole program and only if the stage before
/// it succeeded. The first error of the first stage that fails is the
/// result.
pub open spec fn execute_text(text: Seq<char>) -> Result<Outcome, ErrorView> {
    match parse_text(text) {
        Ok(tree) => match analyze(tree, AnalyzerView::initial()) {
            Ok(analyzed) => match run(tree) {
                Ok(memory) => Ok(Outcome { tree, scopes: analyzed.left, memory }),
                Err(e) => Err(e),
            },
            Err(e) => Err(e),
        },
        Err(e) => Err(e),
    }
}

/// Runs a source text through the lexer, the parser, the semantic analyzer
/// and the interpreter.
pub fn execute(source: &str) -> (r: Result<Report, Error>)
    requires
        literals_fit(source@, 0),
    ensures
        match execute_text(source@) {
            Ok(outcome) => {
                &&& r is Ok
                &&& r->Ok_0.tree@ == outcome.tree
                &&& records_view(r->Ok_0.scopes@) == outcome.scopes
                &&& sorted_by_name(entries_view(r->Ok_0.memory@))
                &&& listing_map(entries_view(r->Ok_0.memory@)) == outcome.memory
            },
            Err(e) => r is Err && r->Err_0@ == e,
        },
{
    let tree = match parse_source(source) {
        Ok(tree) => tree,
        Err(e) => {
            return Err(e);
        },
    };
    let mut analyzer = SemanticAnalyzer::new();
    match analyzer.visit_node(&tree) {
        Ok(()) => {},
        Err(e) => {
            return Err(e);
        },
    }
    let interpreter = Interpreteter::new();
    let memory = match interpreter.interpret(&tree) {
        Ok(memory) => memory,
        Err(e) => {
            return Err(e);
        },
    };
    Ok(Report { tree, scopes: analyzer.into_scopes(), memory })
}

} // verus!
