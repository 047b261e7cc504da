//! The options of a bundler, as the host hands them over and as the bundler
//! works with them.

use crate::text::texts;
use vstd::prelude::*;
use vstd::string::StringExecFns;

verus! {

/// How a file of some extension is turned into a module.
#[derive(Debug, Clone, Copy, PartialEq, Eq, Hash, Structural)]
pub enum Loader {
    DataURI,
    Json,
    Text,
}

/// Whether the bundle is meant for development or for production.
#[derive(Debug, Clone, Copy, PartialEq, Eq, Hash, Structural)]
pub enum BundleMode {
    Dev,
    Prod,
}

/// The loader that a name stands for.
pub open spec fn loader_named(name: Seq<char>) -> Option<Loader> {
    if name == "dataURI"@ {
        Some(Loader::DataURI)
    } else if name == "json"@ {
        Some(Loader::Json)
    } else if name == "text"@ {
        Some(Loader::Text)
    } else {
        None
    }
}

/// The loader that `name` stands for; `None` for a name that stands for
/// none.
pub fn parse_loader_name(name: &String) -> (loader: Option<Loader>)
    ensures
        loader == loader_named(name@),
{
    let data_uri: String = "dataURI".to_owned();
    let json: String = "json".to_owned();
    let text: String = "text".to_owned();
    if *name == data_uri {
        Some(Loader::DataURI)
    } else if *name == json {
        Some(Loader::Json)
    } else if *name == text {
        Some(Loader::Text)
    } else {
        None
    }
}

/// The contents of a list of pairs of strings.
pub open spec fn pair_texts(pairs: Seq<(String, String)>) -> Seq<(Seq<char>, Seq<char>)> {
    pairs.map_values(|p: (String, String)| (p.0@, p.1@))
}

/// The contents of a loader table.
pub open spec fn loader_views(table: Seq<(String, Loader)>) -> Seq<(Seq<char>, Loader)> {
    table.map_values(|p: (String, Loader)| (p.0@, p.1))
}

/// The contents of an alias table.
pub open spec fn alias_views(table: Seq<(String, Option<String>)>) -> Seq<
    (Seq<char>, Option<Seq<char>>),
> {
    table.map_values(|p: (String, Option<String>)| (p.0@, p.1.deep_view()))
}

/// The loader table that the user's table stands for: the entries whose
/// loader name is known, in their order. An entry with an unknown name is
/// dropped.
pub open spec fn parse_loader_spec(user_input: Seq<(Seq<char>, Seq<char>)>) -> Seq<
    (Seq<char>, Loader),
>
    decreases user_input.len(),
{
    if user_input.len() == 0 {
        Seq::empty()
    } else {
        let before = parse_loader_spec(user_input.drop_last());
        match loader_named(user_input.last().1) {
            Some(loader) => before.push((user_input.last().0, loader)),
            None => before,
        }
    }
}

/// Turns the user's table from file extension to loader name into a loader
/// table. Entries whose loader name is not known are dropped without
/// notice.
pub fn parse_loader(user_input: Vec<(String, String)>) -> (table: Vec<(String, Loader)>)
    ensures
        loader_views(table@) == parse_loader_spec(pair_texts(user_input@)),
{
    let ghost all = pair_texts(user_input@);
    let mut table: Vec<(String, Loader)> = Vec::new();
    let mut i: usize = 0;
    assert(all.take(0) =~= Seq::empty());
    assert(loader_views(table@) =~= Seq::empty());
    while i < user_input.len()
        invariant
            i <= user_input.len(),
            all == pair_texts(user_input@),
            loader_views(table@) == parse_loader_spec(all.take(i as int)),
        decreases user_input.len() - i,
    {
        proof {
            let upto = all.take(i + 1);
            assert(upto.drop_last() =~= all.take(i as int));
            assert(upto.last() == (user_input[i as int].0@, user_input[i as int].1@));
        }
        if let Some(loader) = parse_loader_name(&user_input[i].1) {
            let ghost before = table@;
            let extension = user_input[i].0.clone();
            table.push((extension, loader));
            assert(loader_views(table@) =~= loader_views(before).push(
                (user_input[i as int].0@, loader),
            ));
        }
        i += 1;
    }
    assert(all.take(i as int) =~= all);
    table
}

/// The options as the host hands them over: what it left out is `None`.
#[derive(Debug, Clone, PartialEq, Eq)]
pub struct RawOptions {
    pub entries: Vec<String>,
    pub minify: bool,
    pub root: Option<String>,
    pub outdir: Option<String>,
    pub entry_file_names: String,
    pub loader: Option<Vec<(String, String)>>,
    pub inline_style: Option<bool>,
    pub alias: Option<Vec<(String, String)>>,
    pub refresh: Option<bool>,
    pub source_map: Option<bool>,
}

/// The options that a bundler works with.
#[derive(Debug, Clone, PartialEq, Eq)]
pub struct BundleOptions {
    /// The specifiers of the entries.
    pub entries: Vec<String>,
    pub minify: bool,
    /// The directory that the output goes to.
    pub outdir: String,
    pub source_map: bool,
    pub entry_file_names: String,
    pub mode: BundleMode,
    pub loader: Option<Vec<(String, Loader)>>,
    pub inline_style: bool,
    /// Whether modules are prepared for hot reloading of components.
    pub refresh: bool,
    /// From a prefix of specifiers to what the default resolver puts in its
    /// place.
    pub alias: Vec<(String, Option<String>)>,
    /// The directory that the default resolver starts from.
    pub root: String,
}

/// The alias table that the user's table stands for: every replacement is
/// present.
pub open spec fn alias_spec(user_input: Option<Seq<(Seq<char>, Seq<char>)>>) -> Seq<
    (Seq<char>, Option<Seq<char>>),
> {
    match user_input {
        Some(pairs) => pairs.map_values(|p: (Seq<char>, Seq<char>)| (p.0, Some(p.1))),
        None => Seq::empty(),
    }
}

fn aliases(user_input: Option<Vec<(String, String)>>) -> (table: Vec<(String, Option<String>)>)
    ensures
        alias_views(table@) == alias_spec(
            match user_input {
                Some(pairs) => Some(pair_texts(pairs@)),
                None => None,
            },
        ),
{
    let mut table: Vec<(String, Option<String>)> = Vec::new();
    match user_input {
        Some(pairs) => {
            let mut i: usize = 0;
            while i < pairs.len()
                invariant
                    i <= pairs.len(),
                    table@.len() == i,
                    forall|j: int|
                        0 <= j < i ==> (#[trigger] table@[j]).0@ == pairs@[j].0@ && table@[j].1.deep_view()
                            == Some(pairs@[j].1@),
                decreases pairs.len() - i,
            {
                table.push((pairs[i].0.clone(), Some(pairs[i].1.clone())));
                i += 1;
            }
            assert(alias_views(table@) =~= alias_spec(Some(pair_texts(pairs@))));
        },
        None => {
            assert(alias_views(table@) =~= Seq::empty());
        },
    }
    table
}

impl BundleOptions {
    /// Completes the host's options. The output directory defaults to
    /// `dist` below the working directory `cwd`, the root to `cwd` itself;
    /// switches that were left out are off; the mode is development.
    pub fn from_raw(raw: RawOptions, cwd: &String) -> (options: Self)
        ensures
            texts(options.entries@) == texts(raw.entries@),
            options.minify == raw.minify,
            options.outdir@ == match raw.outdir {
                Some(outdir) => outdir@,
                None => cwd@ + "/dist"@,
            },
            options.source_map == match raw.source_map {
                Some(on) => on,
                None => false,
            },
            options.entry_file_names@ == raw.entry_file_names@,
            options.mode == BundleMode::Dev,
            match raw.loader {
                Some(user_input) => options.loader is Some && loader_views(
                    options.loader.unwrap()@,
                ) == parse_loader_spec(pair_texts(user_input@)),
                None => options.loader is None,
            },
            options.inline_style == match raw.inline_style {
                Some(on) => on,
                None => false,
            },
            options.refresh == match raw.refresh {
                Some(on) => on,
                None => false,
            },
            alias_views(options.alias@) == alias_spec(
                match raw.alias {
                    Some(pairs) => Some(pair_texts(pairs@)),
                    None => None,
                },
            ),
            options.root@ == match raw.root {
                Some(root) => root@,
                None => cwd@,
            },
    {
        let RawOptions {
            entries,
            minify,
            root,
            outdir,
            entry_file_names,
            loader,
            inline_style,
            alias,
            refresh,
            source_map,
        } = raw;
        let loader = match loader {
            Some(user_input) => Some(parse_loader(user_input)),
            None => None,
        };
        let outdir = match outdir {
            Some(outdir) => outdir,
            None => cwd.clone().concat("/dist"),
        };
        let root = match root {
            Some(root) => root,
            None => cwd.clone(),
        };
        BundleOptions {
            entries,
            minify,
            outdir,
            source_map: match source_map {
                Some(on) => on,
                None => false,
            },
            entry_file_names,
            mode: BundleMode::Dev,
            loader,
            inline_style: match inline_style {
                Some(on) => on,
                None => false,
            },
            refresh: match refresh {
                Some(on) => on,
                None => false,
            },
            alias: aliases(alias),
            root,
        }
    }
}

} // verus!
