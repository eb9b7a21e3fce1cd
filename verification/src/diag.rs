//! The diagnostic data model: raw stream events, extracted diagnostics,
//! and the extraction rules that turn one into the other.

use vstd::prelude::*;

use crate::text;

verus! {

/// A machine-readable code attached to a diagnostic, with an optional
/// long-form explanation.
#[derive(Debug)]
pub struct DiagnosticCode {
    pub code: String,
    pub explanation: Option<String>,
}

/// Mathematical image of a `DiagnosticCode`.
pub struct CodeView {
    pub code: Seq<char>,
    pub explanation: Option<Seq<char>>,
}

impl View for DiagnosticCode {
    type V = CodeView;

    open spec fn view(&self) -> CodeView {
        CodeView {
            code: self.code@,
            explanation: match self.explanation {
                Some(e) => Some(e@),
                None => None,
            },
        }
    }
}

impl DeepView for DiagnosticCode {
    type V = CodeView;

    open spec fn deep_view(&self) -> CodeView {
        self.view()
    }
}

impl Clone for DiagnosticCode {
    fn clone(&self) -> (r: Self)
        ensures
            r@ == self@,
    {
        DiagnosticCode {
            code: self.code.clone(),
            explanation: match &self.explanation {
                Some(e) => Some(e.clone()),
                None => None,
            },
        }
    }
}

/// One compiler message: its deduplication identity (first rendered
/// line), the full rendered text, an optional code, and the component
/// key of the crate it belongs to.
#[derive(Debug)]
pub struct Diagnostic {
    pub identity: String,
    pub rendered: String,
    pub code: Option<DiagnosticCode>,
    pub component: String,
}

/// Mathematical image of a `Diagnostic`.
pub struct DiagView {
    pub identity: Seq<char>,
    pub rendered: Seq<char>,
    pub code: Option<CodeView>,
    pub component: Seq<char>,
}

pub open spec fn view_opt_code(c: Option<DiagnosticCode>) -> Option<CodeView> {
    match c {
        Some(x) => Some(x@),
        None => None,
    }
}

impl View for Diagnostic {
    type V = DiagView;

    open spec fn view(&self) -> DiagView {
        DiagView {
            identity: self.identity@,
            rendered: self.rendered@,
            code: view_opt_code(self.code),
            component: self.component@,
        }
    }
}

impl DeepView for Diagnostic {
    type V = DiagView;

    open spec fn deep_view(&self) -> DiagView {
        self.view()
    }
}

impl Clone for Diagnostic {
    fn clone(&self) -> (r: Self)
        ensures
            r@ == self@,
    {
        Diagnostic {
            identity: self.identity.clone(),
            rendered: self.rendered.clone(),
            code: match &self.code {
                Some(c) => Some(c.clone()),
                None => None,
            },
            component: self.component.clone(),
        }
    }
}

/// One decoded record of the event stream. Only compiler messages carry
/// a payload the pipeline consumes; every other record kind is
/// represented as `Other` and skipped.
pub enum RawEvent {
    Message { package_id: String, rendered: Option<String>, code: Option<DiagnosticCode> },
    Other,
}

/// Mathematical image of a `RawEvent`.
pub enum RawEventView {
    Message { package_id: Seq<char>, rendered: Option<Seq<char>>, code: Option<CodeView> },
    Other,
}

impl View for RawEvent {
    type V = RawEventView;

    open spec fn view(&self) -> RawEventView {
        match self {
            RawEvent::Message { package_id, rendered, code } => RawEventView::Message {
                package_id: package_id@,
                rendered: match rendered {
                    Some(r) => Some(r@),
                    None => None,
                },
                code: view_opt_code(*code),
            },
            RawEvent::Other => RawEventView::Other,
        }
    }
}

impl DeepView for RawEvent {
    type V = RawEventView;

    open spec fn deep_view(&self) -> RawEventView {
        self.view()
    }
}

/// The ways reading the diagnostic stream can fail; each aborts the
/// whole run.
#[derive(Clone, Copy, Debug, PartialEq, Eq, Structural)]
pub enum StreamError {
    /// A record of the stream could not be decoded.
    MalformedRecord,
    /// A compiler-message record carried no rendered text.
    MissingRenderedText,
    /// The rendered text has an empty first line, so no identity can be
    /// derived.
    EmptyIdentity,
    /// The package identifier has no space, so no component key can be
    /// derived.
    MalformedPackageId,
}

/// What extraction yields for one event: a diagnostic for a well-formed
/// compiler message, nothing for any other record kind, or a fatal
/// error.
pub open spec fn spec_extract_event(ev: RawEventView) -> Result<Option<DiagView>, StreamError> {
    match ev {
        RawEventView::Other => Ok(None),
        RawEventView::Message { package_id, rendered, code } => match rendered {
            None => Err(StreamError::MissingRenderedText),
            Some(r) => {
                let id = text::spec_first_line(r);
                if id.len() == 0 {
                    Err(StreamError::EmptyIdentity)
                } else if !package_id.contains(' ') {
                    Err(StreamError::MalformedPackageId)
                } else {
                    Ok(
                        Some(
                            DiagView {
                                identity: id,
                                rendered: r,
                                code: code,
                                component: crate::spec_crate_name(package_id),
                            },
                        ),
                    )
                }
            },
        },
    }
}

/// The build tool's own summary line, excluded from every group.
pub open spec fn spec_is_noise(d: DiagView) -> bool {
    text::ends_with(d.identity, "warnings emitted"@)
}

/// Whether this diagnostic is the build tool's summary line rather than
/// a real message.
pub fn diagnostic_is_noise(d: &Diagnostic) -> (r: bool)
    ensures
        r == spec_is_noise(d@),
{
    text::str_ends_with(d.identity.as_str(), "warnings emitted")
}

/// Extracts the diagnostic carried by one event, if any. A compiler
/// message must have rendered text whose first line is non-empty, and a
/// package identifier with at least two space-separated tokens;
/// otherwise the run fails with the matching error.
pub fn extract_event(ev: &RawEvent) -> (r: Result<Option<Diagnostic>, StreamError>)
    ensures
        match r {
            Ok(Some(d)) => spec_extract_event(ev@) == Ok::<Option<DiagView>, StreamError>(
                Some(d@),
            ),
            Ok(None) => spec_extract_event(ev@) == Ok::<Option<DiagView>, StreamError>(None),
            Err(e) => spec_extract_event(ev@) == Err::<Option<DiagView>, StreamError>(e),
        },
{
    match ev {
        RawEvent::Other => Ok(None),
        RawEvent::Message { package_id, rendered, code } => {
            match rendered {
                None => Err(StreamError::MissingRenderedText),
                Some(rtext) => {
                    let id = text::first_line(rtext.as_str());
                    if id.unicode_len() == 0 {
                        Err(StreamError::EmptyIdentity)
                    } else if !text::str_contains_char(package_id.as_str(), ' ') {
                        Err(StreamError::MalformedPackageId)
                    } else {
                        let component = crate::crate_name(package_id.as_str());
                        let d = Diagnostic {
                            identity: id,
                            rendered: rtext.clone(),
                            code: match code {
                                Some(c) => Some(c.clone()),
                                None => None,
                            },
                            component,
                        };
                        Ok(Some(d))
                    }
                },
            }
        },
    }
}

} // verus!
