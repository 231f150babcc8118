//! The message shown in the status bar.
use vstd::prelude::*;

verus! {

/// The kind of a status message.
#[derive(Clone, Copy, PartialEq, Eq, Structural, Debug)]
pub enum StatusKind {
    Information,
    Success,
    Warning,
    Error,
}

/// The text and kind of the message shown at the bottom of the window.
pub struct StatusMessage {
    pub kind: StatusKind,
    pub text: String,
}

/// What a status message holds.
pub struct StatusView {
    pub kind: StatusKind,
    pub text: Seq<char>,
}

impl View for StatusMessage {
    type V = StatusView;

    open spec fn view(&self) -> StatusView {
        StatusView { kind: self.kind, text: self.text@ }
    }
}

/// The title shown before a message of the given kind.
pub open spec fn kind_title(kind: StatusKind) -> Seq<char> {
    match kind {
        StatusKind::Information => "INFORMAÇÃO"@,
        StatusKind::Success => "SUCESSO"@,
        StatusKind::Warning => "ATENÇÃO"@,
        StatusKind::Error => "ERRO"@,
    }
}

impl StatusMessage {
    pub fn information(text: String) -> (r: Self)
        ensures
            r@ == (StatusView { kind: StatusKind::Information, text: text@ }),
    {
        StatusMessage { kind: StatusKind::Information, text }
    }

    pub fn success(text: String) -> (r: Self)
        ensures
            r@ == (StatusView { kind: StatusKind::Success, text: text@ }),
    {
        StatusMessage { kind: StatusKind::Success, text }
    }

    pub fn warning(text: String) -> (r: Self)
        ensures
            r@ == (StatusView { kind: StatusKind::Warning, text: text@ }),
    {
        StatusMessage { kind: StatusKind::Warning, text }
    }

    pub fn error(text: String) -> (r: Self)
        ensures
            r@ == (StatusView { kind: StatusKind::Error, text: text@ }),
    {
        StatusMessage { kind: StatusKind::Error, text }
    }

    /// The title shown before the message.
    pub fn title(&self) -> (r: &'static str)
        ensures
            r@ == kind_title(self.kind),
    {
        match self.kind {
            StatusKind::Information => "INFORMAÇÃO",
            StatusKind::Success => "SUCESSO",
            StatusKind::Warning => "ATENÇÃO",
            StatusKind::Error => "ERRO",
        }
    }
}

} // verus!
