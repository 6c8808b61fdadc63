//! Messages to the user.
use vstd::prelude::*;
use vstd::string::*;

verus! {

/// How serious a message is.
#[derive(Debug, Clone, Copy, PartialEq, Eq, Structural)]
pub enum Severity {
    Warning,
    Error,
}

/// What a message is about.
#[derive(Debug, Clone, Copy, PartialEq, Eq, Structural)]
pub enum DiagnosticOrigin {
    Inet,
    Readback,
}

/// A message.
#[derive(Debug, PartialEq, Eq)]
pub struct Diagnostic {
    pub message: String,
    pub severity: Severity,
    pub origin: DiagnosticOrigin,
}

/// The model of a message.
pub struct DiagnosticModel {
    pub message: Seq<char>,
    pub severity: Severity,
    pub origin: DiagnosticOrigin,
}

/// The messages so far, the oldest first.
#[derive(Debug, PartialEq, Eq)]
pub struct Diagnostics {
    pub diagnostics: Vec<Diagnostic>,
}

impl View for Diagnostic {
    type V = DiagnosticModel;

    open spec fn view(&self) -> DiagnosticModel {
        DiagnosticModel {
            message: self.message@,
            severity: self.severity,
            origin: self.origin,
        }
    }
}

impl View for Diagnostics {
    type V = Seq<DiagnosticModel>;

    open spec fn view(&self) -> Seq<DiagnosticModel> {
        self.diagnostics@.map_values(|diagnostic: Diagnostic| diagnostic@)
    }
}

impl Diagnostics {
    /// No messages.
    pub fn new() -> (diagnostics: Diagnostics)
        ensures
            diagnostics@ == Seq::<DiagnosticModel>::empty(),
    {
        let diagnostics = Diagnostics { diagnostics: Vec::new() };
        assert(diagnostics@ =~= Seq::<DiagnosticModel>::empty());
        diagnostics
    }

    /// Adds a message.
    pub fn add_diagnostic(&mut self, message: &str, severity: Severity, origin: DiagnosticOrigin)
        ensures
            final(self)@ == old(self)@.push(
                (DiagnosticModel { message: message@, severity, origin }),
            ),
    {
        self.diagnostics.push(Diagnostic { message: message.to_owned(), severity, origin });
        assert(self@ =~= old(self)@.push(
            (DiagnosticModel { message: message@, severity, origin }),
        ));
    }
}

/// The model of the messages holds each of them, in the same order.
pub proof fn law_model_of_diagnostics(diagnostics: Diagnostics, i: int)
    requires
        0 <= i < diagnostics.diagnostics@.len(),
    ensures
        diagnostics@.len() == diagnostics.diagnostics@.len(),
        diagnostics@[i].message == diagnostics.diagnostics@[i].message@,
        diagnostics@[i].severity == diagnostics.diagnostics@[i].severity,
        diagnostics@[i].origin == diagnostics.diagnostics@[i].origin,
{
}

} // verus!
