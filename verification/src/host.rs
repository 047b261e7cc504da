//! What the host sees of a bundler besides builds: the answer to a single
//! resolve request, and the switch that turns tracing on.

use crate::error::{BuildError, ErrorKind, ErrorView};
use vstd::prelude::*;

verus! {

/// What the default resolver makes of a request.
#[derive(Debug, PartialEq, Eq)]
pub enum ResolveResult {
    /// The request names the file at this path.
    Path(String),
    /// The request is to be ignored.
    Ignored,
}

/// What the host is told about a resolve request.
#[derive(Debug, PartialEq, Eq)]
pub struct ResolveRet {
    pub status: bool,
    pub result: Option<String>,
}

/// Mathematical content of a [`ResolveRet`].
pub struct ResolveRetView {
    pub status: bool,
    pub result: Option<Seq<char>>,
}

impl View for ResolveRet {
    type V = ResolveRetView;

    open spec fn view(&self) -> ResolveRetView {
        ResolveRetView { status: self.status, result: self.result.deep_view() }
    }
}

/// What the host is told, given what the default resolver made of the
/// request `id` or the message it failed with: a path is handed on; any
/// other result is reported as not resolved; a failure of the resolver is a
/// resolve failure of the request.
pub fn resolve(id: &String, resolved: Result<ResolveResult, String>) -> (outcome: Result<
    ResolveRet,
    BuildError,
>)
    ensures
        match resolved {
            Ok(ResolveResult::Path(path)) => outcome is Ok && outcome.unwrap()@ == (ResolveRetView {
                status: true,
                result: Some(path@),
            }),
            Ok(ResolveResult::Ignored) => outcome is Ok && outcome.unwrap()@ == (ResolveRetView {
                status: false,
                result: None,
            }),
            Err(message) => outcome is Err && outcome.unwrap_err()@ == (ErrorView {
                kind: ErrorKind::ResolveFailure,
                uri: id@,
                detail: message@,
            }),
        },
{
    match resolved {
        Ok(ResolveResult::Path(path)) => Ok(ResolveRet { status: true, result: Some(path) }),
        Ok(ResolveResult::Ignored) => Ok(ResolveRet { status: false, result: None }),
        Err(message) => Err(BuildError::new(ErrorKind::ResolveFailure, id.clone(), message)),
    }
}

/// The switch that turns tracing on. It is turned once: the first request
/// wins, and later ones change nothing.
#[derive(Debug, Clone, Copy, PartialEq, Eq, Structural)]
pub struct TraceSwitch {
    pub enabled: bool,
}

impl TraceSwitch {
    pub fn new() -> (switch: Self)
        ensures
            !switch.enabled,
    {
        TraceSwitch { enabled: false }
    }

    /// Asks for tracing, where `requested` says that the environment wants
    /// it. The result says whether tracing is to be set up now: when it is
    /// wanted and has not been set up before.
    pub fn enable(&mut self, requested: bool) -> (install: bool)
        ensures
            install == (requested && !old(self).enabled),
            final(self).enabled == (old(self).enabled || requested),
    {
        if requested && !self.enabled {
            self.enabled = true;
            true
        } else {
            false
        }
    }
}

} // verus!
