//! The wire format between the compiler and the browser: plain data that the
//! front end reads. Results are discriminated on `ok`.

use vstd::prelude::*;

verus! {

/// Which pipeline stage produced a diagnostic.
#[derive(Clone, Copy, Debug, PartialEq, Eq, Structural)]
pub enum Phase {
    Parse,
    Resolve,
    Typecheck,
    Evaluate,
}

#[derive(Clone, Copy, Debug, PartialEq, Eq, Structural)]
pub enum Severity {
    Error,
    Warning,
    Advice,
}

/// One highlighted range: 1-based lines, 1-based columns in UTF-16 code units,
/// plus the byte span in the source text.
#[derive(Debug)]
pub struct Label {
    pub message: Option<String>,
    pub start_line: u32,
    pub start_column: u32,
    pub end_line: u32,
    pub end_column: u32,
    pub offset: u32,
    pub length: u32,
}

#[derive(Debug)]
pub struct Diagnostic {
    pub phase: Phase,
    pub severity: Severity,
    pub code: Option<String>,
    pub message: String,
    pub help: Option<String>,
    pub labels: Vec<Label>,
}

/// A top-level binding and the type inference settled on for it.
#[derive(Debug)]
pub struct Binding {
    pub name: String,
    pub ty: String,
    pub start_line: u32,
    pub start_column: u32,
    pub end_line: u32,
    pub end_column: u32,
}

#[derive(Debug)]
pub struct CheckOk {
    pub ok: bool,
    pub bindings: Vec<Binding>,
}

#[derive(Debug)]
pub struct RunOk {
    pub ok: bool,
    pub value: String,
    pub value_type: String,
    pub bindings: Vec<Binding>,
}

#[derive(Debug)]
pub struct Failure {
    pub ok: bool,
    pub diagnostics: Vec<Diagnostic>,
}

#[derive(Debug)]
pub enum CheckResult {
    Passed(CheckOk),
    Failed(Failure),
}

#[derive(Debug)]
pub enum RunResult {
    Passed(RunOk),
    Failed(Failure),
}

impl CheckResult {
    pub fn ok(bindings: Vec<Binding>) -> (result: Self)
        ensures
            result matches CheckResult::Passed(check) && check.ok && check.bindings == bindings,
    {
        CheckResult::Passed(CheckOk { ok: true, bindings })
    }

    pub fn failed(diagnostics: Vec<Diagnostic>) -> (result: Self)
        ensures
            result matches CheckResult::Failed(failure) && !failure.ok && failure.diagnostics
                == diagnostics,
    {
        CheckResult::Failed(Failure { ok: false, diagnostics })
    }
}

impl RunResult {
    pub fn ok(value: String, value_type: String, bindings: Vec<Binding>) -> (result: Self)
        ensures
            result matches RunResult::Passed(run) && run.ok && run.value == value && run.value_type
                == value_type && run.bindings == bindings,
    {
        RunResult::Passed(RunOk { ok: true, value, value_type, bindings })
    }

    pub fn failed(diagnostics: Vec<Diagnostic>) -> (result: Self)
        ensures
            result matches RunResult::Failed(failure) && !failure.ok && failure.diagnostics
                == diagnostics,
    {
        RunResult::Failed(Failure { ok: false, diagnostics })
    }
}

} // verus!
