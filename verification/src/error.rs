//! What can go wrong during a build.

use crate::text::{contains_text, keep_by, texts};
use vstd::prelude::*;

verus! {

/// The kinds of failure.
#[derive(Debug, Clone, Copy, PartialEq, Eq, Hash, Structural)]
pub enum ErrorKind {
    /// A specifier that neither a plugin nor the default resolver could
    /// resolve.
    ResolveFailure,
    /// The source of a module could not be loaded.
    LoadFailure,
    /// The parser rejected the source of a module.
    ParseFailure,
    /// A transform raised an error.
    TransformFailure,
    /// The build's own bookkeeping was violated; fatal.
    InvariantViolation,
    /// The host cancelled the build or closed the result channel.
    HostFailure,
}

impl ErrorKind {
    /// Whether a failure of this kind concerns one module only and lets the
    /// build go on.
    pub open spec fn is_per_module_spec(self) -> bool {
        self == ErrorKind::ResolveFailure || self == ErrorKind::LoadFailure || self
            == ErrorKind::ParseFailure || self == ErrorKind::TransformFailure
    }

    #[verifier::when_used_as_spec(is_per_module_spec)]
    pub fn is_per_module(self) -> (per_module: bool)
        ensures
            per_module == self.is_per_module_spec(),
    {
        match self {
            ErrorKind::ResolveFailure => true,
            ErrorKind::LoadFailure => true,
            ErrorKind::ParseFailure => true,
            ErrorKind::TransformFailure => true,
            ErrorKind::InvariantViolation => false,
            ErrorKind::HostFailure => false,
        }
    }
}

/// A failure, recorded against the module it concerns.
#[derive(Debug, PartialEq, Eq)]
pub struct BuildError {
    pub kind: ErrorKind,
    /// The identifier of the module concerned.
    pub uri: String,
    /// The specifier that failed to resolve, or a message.
    pub detail: String,
}

/// Mathematical content of a [`BuildError`].
pub struct ErrorView {
    pub kind: ErrorKind,
    pub uri: Seq<char>,
    pub detail: Seq<char>,
}

impl View for BuildError {
    type V = ErrorView;

    open spec fn view(&self) -> ErrorView {
        ErrorView { kind: self.kind, uri: self.uri@, detail: self.detail@ }
    }
}

impl Clone for BuildError {
    fn clone(&self) -> (copy: Self)
        ensures
            copy@ == self@,
    {
        BuildError { kind: self.kind, uri: self.uri.clone(), detail: self.detail.clone() }
    }
}

impl BuildError {
    pub fn new(kind: ErrorKind, uri: String, detail: String) -> (error: Self)
        ensures
            error@ == (ErrorView { kind, uri: uri@, detail: detail@ }),
    {
        BuildError { kind, uri, detail }
    }

    /// A specifier of the module `uri` that could not be resolved.
    pub fn resolve_failure(uri: String, specifier: String) -> (error: Self)
        ensures
            error@ == (ErrorView { kind: ErrorKind::ResolveFailure, uri: uri@, detail: specifier@ }),
    {
        BuildError { kind: ErrorKind::ResolveFailure, uri, detail: specifier }
    }

    /// A result for the module `uri` that came after the host had closed the
    /// result channel.
    pub fn host_failure(uri: String) -> (error: Self)
        ensures
            error@.kind == ErrorKind::HostFailure,
            error@.uri == uri@,
    {
        BuildError { kind: ErrorKind::HostFailure, uri, detail: String::new() }
    }

    /// A violation of the build's bookkeeping that concerns the module `uri`.
    pub fn invariant_violation(uri: String) -> (error: Self)
        ensures
            error@.kind == ErrorKind::InvariantViolation,
            error@.uri == uri@,
    {
        BuildError { kind: ErrorKind::InvariantViolation, uri, detail: String::new() }
    }
}

/// The contents of a list of failures.
pub open spec fn error_views(errors: Seq<BuildError>) -> Seq<ErrorView> {
    errors.map_values(|e: BuildError| e@)
}

/// The failures that concern none of the modules `drop`, in their order.
pub fn retain_errors(errors: &Vec<BuildError>, drop: &Vec<String>) -> (kept: Vec<BuildError>)
    ensures
        error_views(kept@) == keep_by(
            error_views(errors@),
            |e: ErrorView| e.uri,
            texts(drop@).to_set(),
        ),
{
    let ghost all = error_views(errors@);
    let ghost gone = texts(drop@).to_set();
    let ghost key = |e: ErrorView| e.uri;
    let mut kept: Vec<BuildError> = Vec::new();
    let mut i: usize = 0;
    assert(all.take(0) =~= Seq::empty());
    assert(error_views(kept@) =~= Seq::empty());
    while i < errors.len()
        invariant
            i <= errors.len(),
            all == error_views(errors@),
            gone == texts(drop@).to_set(),
            key == |e: ErrorView| e.uri,
            error_views(kept@) == keep_by(all.take(i as int), key, gone),
        decreases errors.len() - i,
    {
        proof {
            let upto = all.take(i + 1);
            assert(upto.drop_last() =~= all.take(i as int));
            assert(upto.last() == errors[i as int]@);
            assert(key(errors[i as int]@) == errors[i as int]@.uri);
        }
        if !contains_text(drop, &errors[i].uri) {
            let ghost before = kept@;
            kept.push(errors[i].clone());
            assert(error_views(kept@) =~= error_views(before).push(errors[i as int]@));
        }
        i += 1;
    }
    assert(all.take(i as int) =~= all);
    kept
}

} // verus!
