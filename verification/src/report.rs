//! How diagnostics are reported to a person: severity words, the
//! `path:line:col: kind: message` line, and the refusal of a document that
//! holds an error.

use vstd::prelude::*;
use crate::error::{Diagnostic, DiagnosticModel, Severity};
use crate::numeric::{nat_text, nat_to_text};
use crate::parser::{diags_model, Document};
use crate::span::LineIndex;
use crate::text::{chars_of, push_all, push_lit, string_from, to_chars};

verus! {

pub open spec fn severity_word(s: Severity) -> Seq<char> {
    match s {
        Severity::Error => "error"@,
        Severity::Warning => "warning"@,
        Severity::Info => "info"@,
        Severity::Hint => "hint"@,
    }
}

/// The lower-case name of a severity.
pub fn severity_name(s: Severity) -> (r: &'static str)
    ensures
        r@ == severity_word(s),
{
    match s {
        Severity::Error => "error",
        Severity::Warning => "warning",
        Severity::Info => "info",
        Severity::Hint => "hint",
    }
}

/// A one-based number as written: `n + 1` in decimal.
pub open spec fn one_based(n: u32) -> Seq<char> {
    nat_text((n + 1) as nat)
}

/// `path:line:col: kind: message`, with one-based line and column.
pub open spec fn diagnostic_text(path: Seq<char>, idx: LineIndex, d: DiagnosticModel) -> Seq<char> {
    let (l, c) = idx.pos(d.span.start);
    path + ":"@ + one_based(l) + ":"@ + one_based(c) + ": "@ + severity_word(d.severity) + ": "@ + d.message
}

/// The line that reports a diagnostic.
pub fn diagnostic_line(path: &str, idx: &LineIndex, d: &Diagnostic) -> (r: String)
    ensures
        r@ == diagnostic_text(path@, *idx, d@),
{
    let (l, c) = idx.position(d.span.start);
    let mut out = to_chars(path);
    push_lit(&mut out, ":");
    push_all(&mut out, nat_to_text(l as u64 + 1).as_slice());
    push_lit(&mut out, ":");
    push_all(&mut out, nat_to_text(c as u64 + 1).as_slice());
    push_lit(&mut out, ": ");
    push_lit(&mut out, severity_name(d.severity));
    push_lit(&mut out, ": ");
    push_all(&mut out, chars_of(&d.message).as_slice());
    string_from(out.as_slice())
}

/// The first diagnostic of severity error.
pub open spec fn first_error(ds: Seq<DiagnosticModel>) -> Option<DiagnosticModel>
    decreases ds.len(),
{
    if ds.len() == 0 {
        None
    } else if ds[0].severity == Severity::Error {
        Some(ds[0])
    } else {
        first_error(ds.skip(1))
    }
}

/// Some diagnostic is an error.
pub open spec fn has_error(ds: Seq<DiagnosticModel>) -> bool {
    exists|i: int| 0 <= i < ds.len() && (#[trigger] ds[i]).severity == Severity::Error
}

/// The first error is found exactly when there is an error, and it is the
/// error that comes before every other.
pub proof fn law_first_error(ds: Seq<DiagnosticModel>)
    ensures
        (first_error(ds) is Some) == has_error(ds),
        first_error(ds) matches Some(d) ==> exists|i: int|
            0 <= i < ds.len() && ds[i] == d && d.severity == Severity::Error && forall|j: int|
                0 <= j < i ==> (#[trigger] ds[j]).severity != Severity::Error,
    decreases ds.len(),
{
    if ds.len() > 0 {
        let t = ds.skip(1);
        law_first_error(t);
        if ds[0].severity == Severity::Error {
            assert(ds[0].severity == Severity::Error);
        } else {
            assert forall|i: int| 0 <= i < t.len() implies t[i] == ds[i + 1] by {}
            if has_error(ds) {
                let i = choose|i: int| 0 <= i < ds.len() && (#[trigger] ds[i]).severity == Severity::Error;
                assert(t[i - 1] == ds[i]);
            }
            if has_error(t) {
                let i = choose|i: int| 0 <= i < t.len() && (#[trigger] t[i]).severity == Severity::Error;
                assert(ds[i + 1] == t[i]);
            }
            if let Some(d) = first_error(ds) {
                let i = choose|i: int|
                    0 <= i < t.len() && t[i] == d && d.severity == Severity::Error && forall|j: int|
                        0 <= j < i ==> (#[trigger] t[j]).severity != Severity::Error;
                assert(ds[i + 1] == d);
                assert forall|j: int| 0 <= j < i + 1 implies (#[trigger] ds[j]).severity != Severity::Error by {
                    if j > 0 {
                        assert(ds[j] == t[j - 1]);
                    }
                }
            }
        }
    }
}

/// `message (line L, col C)` with one-based position.
pub open spec fn error_text(idx: LineIndex, d: DiagnosticModel) -> Seq<char> {
    let (l, c) = idx.pos(d.span.start);
    d.message + " (line "@ + one_based(l) + ", col "@ + one_based(c) + ")"@
}

/// A parsed document that holds no error diagnostic.
pub struct TomlplusDoc {
    pub doc: Document,
}

impl TomlplusDoc {
    /// Accepts a parse, or refuses it with its first error and that error's
    /// position; warnings do not refuse.
    pub fn accept(doc: Document, idx: &LineIndex) -> (r: Result<TomlplusDoc, String>)
        ensures
            match first_error(doc@.diagnostics) {
                Some(d) => r matches Err(m) && m@ == error_text(*idx, d),
                None => r matches Ok(t) && t.doc@ == doc@,
            },
            (r is Err) == has_error(doc@.diagnostics),
    {
        proof {
            law_first_error(doc@.diagnostics);
        }
        let ghost ds = doc@.diagnostics;
        let mut i: usize = 0;
        assert(ds.skip(0) =~= ds);
        while i < doc.diagnostics.len()
            invariant
                ds == doc@.diagnostics,
                ds.len() == doc.diagnostics@.len(),
                i <= ds.len(),
                first_error(ds) == first_error(ds.skip(i as int)),
            decreases ds.len() - i,
        {
            assert(ds.skip(i as int)[0] == ds[i as int]);
            assert(ds.skip(i as int).skip(1) =~= ds.skip(i + 1));
            let d = &doc.diagnostics[i];
            match d.severity {
                Severity::Error => {
                    let (l, c) = idx.position(d.span.start);
                    let mut out = chars_of(&d.message);
                    push_lit(&mut out, " (line ");
                    push_all(&mut out, nat_to_text(l as u64 + 1).as_slice());
                    push_lit(&mut out, ", col ");
                    push_all(&mut out, nat_to_text(c as u64 + 1).as_slice());
                    push_lit(&mut out, ")");
                    return Err(string_from(out.as_slice()));
                },
                _ => {},
            }
            i = i + 1;
        }
        Ok(TomlplusDoc { doc })
    }
}

/// The message of the first error among diagnostics, as the bindings raise
/// it after validation.
pub fn first_error_message(ds: &Vec<Diagnostic>) -> (r: Option<String>)
    ensures
        match first_error(diags_model(ds@)) {
            Some(d) => r matches Some(m) && m@ == d.message,
            None => r is None,
        },
{
    let ghost dm = diags_model(ds@);
    let mut i: usize = 0;
    assert(dm.skip(0) =~= dm);
    while i < ds.len()
        invariant
            dm == diags_model(ds@),
            dm.len() == ds@.len(),
            i <= dm.len(),
            first_error(dm) == first_error(dm.skip(i as int)),
        decreases dm.len() - i,
    {
        assert(dm.skip(i as int)[0] == dm[i as int]);
        assert(dm.skip(i as int).skip(1) =~= dm.skip(i + 1));
        match ds[i].severity {
            Severity::Error => {
                return Some(ds[i].message.clone());
            },
            _ => {},
        }
        i = i + 1;
    }
    None
}

} // verus!
