//! How the answers of plugins to a hook are put together.
//!
//! The plugins themselves, and the default resolver and loader, live outside
//! this library; what they answer is handed in. For the hooks that the first
//! plugin with an answer decides, the plugins are asked in their configured
//! order, and where none answers, the default is asked.

use crate::error::{BuildError, ErrorKind, ErrorView};
use crate::task::ResolveArgs;
use crate::{ResolvedId, ResolvedView};
use vstd::prelude::*;

verus! {

/// The source of a module, as the load hook hands it over.
#[derive(Debug, PartialEq, Eq)]
pub struct ModuleSource {
    pub content: String,
    pub id: String,
}

/// Mathematical content of a [`ModuleSource`].
pub struct SourceView {
    pub content: Seq<char>,
    pub id: Seq<char>,
}

impl View for ModuleSource {
    type V = SourceView;

    open spec fn view(&self) -> SourceView {
        SourceView { content: self.content@, id: self.id@ }
    }
}

/// The first answer that is not `None`.
pub open spec fn first_some<T>(answers: Seq<Option<T>>) -> Option<T>
    decreases answers.len(),
{
    if answers.len() == 0 {
        None
    } else if answers[0] is Some {
        answers[0]
    } else {
        first_some(answers.drop_first())
    }
}

/// The answer of the hook: that of the first plugin with an answer, in the
/// configured order.
pub fn first_wins<T>(answers: Vec<Option<T>>) -> (winner: Option<T>)
    ensures
        winner == first_some(answers@),
{
    let ghost all = answers@;
    let mut answers = answers;
    let mut winner: Option<T> = None;
    assert(all.skip(all.len() as int) =~= Seq::empty());
    while answers.len() > 0
        invariant
            answers@.len() <= all.len(),
            answers@ == all.take(answers@.len() as int),
            winner == first_some(all.skip(answers@.len() as int)),
        decreases answers@.len(),
    {
        let ghost left = answers@.len();
        let answer = answers.pop();
        proof {
            let rest = all.skip(left as int);
            let more = all.skip(left - 1);
            assert(more.drop_first() =~= rest);
            assert(more[0] == all[left - 1]);
            assert(answers@ =~= all.take(left - 1));
        }
        if let Some(Some(value)) = answer {
            winner = Some(value);
        }
    }
    assert(all.skip(0) =~= all);
    winner
}

/// What a resolve hook ends in on given answers.
pub open spec fn resolve_outcome(
    args: crate::task::ResolveArgsView,
    answers: Seq<Option<ResolvedView>>,
    fallback: Option<ResolvedView>,
) -> Result<ResolvedView, ErrorView> {
    match first_some(answers) {
        Some(resolved) => Ok(resolved),
        None => match fallback {
            Some(resolved) => Ok(resolved),
            None => Err(
                ErrorView {
                    kind: ErrorKind::ResolveFailure,
                    uri: match args.importer {
                        Some(importer) => importer,
                        None => Seq::empty(),
                    },
                    detail: args.specifier,
                },
            ),
        },
    }
}

/// Where the default loader reads nothing, loading fails.
pub open spec fn load_outcome(
    id: Seq<char>,
    answers: Seq<Option<SourceView>>,
    fallback: Option<Seq<char>>,
) -> Result<SourceView, ErrorView> {
    match first_some(answers) {
        Some(source) => Ok(source),
        None => match fallback {
            Some(content) => Ok(SourceView { content, id }),
            None => Err(ErrorView { kind: ErrorKind::LoadFailure, uri: id, detail: Seq::empty() }),
        },
    }
}

/// The contents of a resolve outcome.
pub open spec fn resolved_outcome_view(outcome: Result<ResolvedId, BuildError>) -> Result<
    ResolvedView,
    ErrorView,
> {
    match outcome {
        Ok(resolved) => Ok(resolved@),
        Err(error) => Err(error@),
    }
}

/// The contents of a load outcome.
pub open spec fn source_outcome_view(outcome: Result<ModuleSource, BuildError>) -> Result<
    SourceView,
    ErrorView,
> {
    match outcome {
        Ok(source) => Ok(source@),
        Err(error) => Err(error@),
    }
}

/// The plugins of a bundler, by name, in the order in which they were
/// configured. The order is never changed.
#[derive(Debug, Clone, PartialEq, Eq)]
pub struct PluginDriver {
    pub plugins: Vec<String>,
}

impl PluginDriver {
    pub fn new(plugins: Vec<String>) -> (driver: Self)
        ensures
            driver.plugins@ == plugins@,
    {
        PluginDriver { plugins }
    }

    /// The plugin to ask after `asked` plugins have given no answer; `None`
    /// when all have been asked and the default is next.
    pub fn next_plugin(&self, asked: usize) -> (next: Option<usize>)
        ensures
            next == if asked < self.plugins@.len() {
                Some(asked)
            } else {
                None
            },
    {
        if asked < self.plugins.len() {
            Some(asked)
        } else {
            None
        }
    }

    /// The result of the resolve hook, given the answers of the plugins in
    /// their order and the answer of the default resolver: the first answer
    /// of a plugin, else that of the default resolver; where nobody
    /// resolves the specifier, a resolve failure recorded against the
    /// importer.
    pub fn resolve_id(
        &self,
        args: &ResolveArgs,
        answers: Vec<Option<ResolvedId>>,
        fallback: Option<ResolvedId>,
    ) -> (outcome: Result<ResolvedId, BuildError>)
        ensures
            resolved_outcome_view(outcome) == resolve_outcome(
                args@,
                answers@.map_values(
                    |a: Option<ResolvedId>|
                        match a {
                            Some(resolved) => Some(resolved@),
                            None => None,
                        },
                ),
                match fallback {
                    Some(resolved) => Some(resolved@),
                    None => None,
                },
            ),
    {
        let ghost views = answers@.map_values(
            |a: Option<ResolvedId>|
                match a {
                    Some(resolved) => Some(resolved@),
                    None => None,
                },
        );
        proof {
            lemma_first_some_views(
                answers@,
                |a: Option<ResolvedId>|
                    match a {
                        Some(resolved) => Some(resolved@),
                        None => None,
                    },
            );
        }
        match first_wins(answers) {
            Some(resolved) => Ok(resolved),
            None => match fallback {
                Some(resolved) => Ok(resolved),
                None => {
                    let uri = match &args.importer {
                        Some(importer) => importer.clone(),
                        None => String::new(),
                    };
                    Err(BuildError::resolve_failure(uri, args.specifier.clone()))
                },
            },
        }
    }

    /// The result of the load hook for the module `id`, given the answers of
    /// the plugins in their order and what the default loader read: the
    /// first answer of a plugin, else the text that the default loader read;
    /// where there is neither, a load failure.
    pub fn load(&self, id: &String, answers: Vec<Option<ModuleSource>>, fallback: Option<String>) -> (outcome:
        Result<ModuleSource, BuildError>)
        ensures
            source_outcome_view(outcome) == load_outcome(
                id@,
                answers@.map_values(
                    |a: Option<ModuleSource>|
                        match a {
                            Some(source) => Some(source@),
                            None => None,
                        },
                ),
                fallback.deep_view(),
            ),
    {
        proof {
            lemma_first_some_views(
                answers@,
                |a: Option<ModuleSource>|
                    match a {
                        Some(source) => Some(source@),
                        None => None,
                    },
            );
        }
        match first_wins(answers) {
            Some(source) => Ok(source),
            None => match fallback {
                Some(content) => Ok(ModuleSource { content, id: id.clone() }),
                None => Err(BuildError::new(ErrorKind::LoadFailure, id.clone(), String::new())),
            },
        }
    }
}

/// The first answer among the contents is the content of the first answer.
pub proof fn lemma_first_some_views<T, V>(answers: Seq<Option<T>>, view: spec_fn(Option<T>) -> Option<V>)
    requires
        forall|a: Option<T>| (#[trigger] view(a)) is Some <==> a is Some,
    ensures
        first_some(answers.map_values(view)) == view(first_some(answers)),
    decreases answers.len(),
{
    let views = answers.map_values(view);
    if answers.len() > 0 {
        assert(views[0] == view(answers[0]));
        assert(views.drop_first() =~= answers.drop_first().map_values(view));
        lemma_first_some_views(answers.drop_first(), view);
    } else {
        assert(view(None::<T>) is None);
    }
}

} // verus!
