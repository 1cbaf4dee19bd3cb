//! Diagnostics for recoverable conditions met during a patch run.
//!
//! Every recoverable condition degrades to "leave this occurrence's text
//! unchanged" or "drop this edit" and is recorded here as plain data; how
//! (and whether) the records are printed is the caller's choice.

use vstd::prelude::*;

verus! {

/// One recoverable condition, reported and skipped.
pub enum Diagnostic {
    /// A reference element without its plugin-identity attribute; the
    /// element was skipped.  `at` is the element's byte offset.
    MissingUri { at: usize },
    /// An index occurrence whose text is not a strict run of ASCII digits
    /// with a value that fits; the occurrence was skipped.
    BadIndex { text: Vec<u8> },
    /// A controllable occurrence without its symbol attribute; the
    /// occurrence was skipped.  `at` is the element's byte offset.
    MissingSymbol { at: usize },
    /// No plugin is known under this URI; the whole reference element's
    /// occurrences were left untouched.
    PluginNotFound { uri: Vec<u8> },
    /// The plugin has no port with this symbol; a fallback index was
    /// assigned instead.
    PortNotFound { uri: Vec<u8>, symbol: Vec<u8> },
    /// An edit out of order with an earlier one; dropped while rendering.
    /// Unreachable when the recorded ranges do not overlap.
    OverlappingEdit { start: usize, end: usize, value: u32 },
    /// A URI or symbol holding an embedded NUL byte, rejected at the
    /// provider boundary and treated as "not found".
    EmbeddedNul { text: Vec<u8> },
}

/// Spec view of one diagnostic, over plain values.
pub enum DiagView {
    MissingUri { at: int },
    BadIndex { text: Seq<u8> },
    MissingSymbol { at: int },
    PluginNotFound { uri: Seq<u8> },
    PortNotFound { uri: Seq<u8>, symbol: Seq<u8> },
    OverlappingEdit { start: int, end: int, value: u32 },
    EmbeddedNul { text: Seq<u8> },
}

pub open spec fn diag_view(d: Diagnostic) -> DiagView {
    match d {
        Diagnostic::MissingUri { at } => DiagView::MissingUri { at: at as int },
        Diagnostic::BadIndex { text } => DiagView::BadIndex { text: text@ },
        Diagnostic::MissingSymbol { at } => DiagView::MissingSymbol { at: at as int },
        Diagnostic::PluginNotFound { uri } => DiagView::PluginNotFound { uri: uri@ },
        Diagnostic::PortNotFound { uri, symbol } => DiagView::PortNotFound {
            uri: uri@,
            symbol: symbol@,
        },
        Diagnostic::OverlappingEdit { start, end, value } => DiagView::OverlappingEdit {
            start: start as int,
            end: end as int,
            value,
        },
        Diagnostic::EmbeddedNul { text } => DiagView::EmbeddedNul { text: text@ },
    }
}

/// Views of a diagnostic list's entries, in order.
pub open spec fn diags_view(s: Seq<Diagnostic>) -> Seq<DiagView> {
    s.map(|i: int, d: Diagnostic| diag_view(d))
}

} // verus!
