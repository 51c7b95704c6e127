use vstd::prelude::*;
use vstd::string::StringExecFns;

use crate::table::{merge_snippets, spec_merge, LangSnippetTable, SnippetSet};

verus! {

/// How the snippets-file option arrived: a path string, or a value of some
/// other shape, which the resolver treats as an empty file source.
pub enum FileSetting {
    GivenPath(String),
    NotAString,
}

/// How the inline snippets option arrived: a table, or a value that does not
/// have the shape of one, which the resolver treats as an empty source.
pub enum InlineSetting {
    GivenTable(LangSnippetTable),
    Invalid,
}

/// The recognised initialization options, validated and coerced at the
/// session boundary before they reach the resolver.
pub struct InitOptions {
    pub snippets_file: Option<FileSetting>,
    pub snippets: Option<InlineSetting>,
}

impl InitOptions {
    /// An inline table, where one was given, is well formed.
    pub open spec fn wf(self) -> bool {
        match self.snippets {
            Some(InlineSetting::GivenTable(t)) => t.wf(),
            _ => true,
        }
    }
}

/// The options behind an optional reference, as a spec value.
pub open spec fn opts_view(opts: Option<&InitOptions>) -> Option<InitOptions> {
    match opts {
        Some(o) => Some(*o),
        None => None,
    }
}

/// The characters of an optional borrowed string.
pub open spec fn opt_str_view(s: Option<&String>) -> Option<Seq<char>> {
    match s {
        Some(x) => Some(x@),
        None => None,
    }
}

/// The characters of an optional string slice.
pub open spec fn opt_text_view(s: Option<&str>) -> Option<Seq<char>> {
    match s {
        Some(x) => Some(x@),
        None => None,
    }
}

/// The characters of an optional owned string.
pub open spec fn opt_string_view(s: Option<String>) -> Option<Seq<char>> {
    match s {
        Some(x) => Some(x@),
        None => None,
    }
}

/// What parsing a snippet-table document yields: a table where the text is a
/// well-formed two-level document of strings, nothing otherwise.
pub uninterp spec fn toml_snippet_table(text: Seq<char>) -> Option<
    Map<Seq<char>, Map<Seq<char>, Seq<char>>>,
>;

/// Relies on toml::from_str: deserializing a document into a two-level table
/// of strings is a function of the document text alone, and an ill-formed
/// document is an error.
#[verifier::external_body]
fn parse_toml_table(text: &str) -> (r: Option<LangSnippetTable>)
    ensures
        r is Some <==> toml_snippet_table(text@) is Some,
        r matches Some(t) ==> t.wf() && Some(t@) == toml_snippet_table(text@),
{
    let parsed: Result<
        std::collections::HashMap<String, std::collections::HashMap<String, String>>,
        _,
    > = toml::from_str(text);
    match parsed {
        Ok(langs) => Some(LangSnippetTable {
            entries: langs.into_iter().map(
                |(lang, snippets)| (lang, SnippetSet { entries: snippets.into_iter().collect() }),
            ).collect(),
        }),
        Err(_) => None,
    }
}

/// Relies on str::strip_prefix: the remainder after the prefix where the
/// string starts with it, nothing otherwise.
#[verifier::external_body]
fn strip_prefix_of<'a>(s: &'a str, prefix: &str) -> (r: Option<&'a str>)
    ensures
        match r {
            Some(rest) => s@ == prefix@ + rest@,
            None => !(s@.len() >= prefix@.len() && s@.subrange(0, prefix@.len() as int)
                == prefix@),
        },
{
    s.strip_prefix(prefix)
}

/// Relies on directories::UserDirs::new and UserDirs::home_dir: the platform
/// home directory, where the system reports one in valid unicode. The result
/// depends on the environment, so nothing is promised of it.
#[verifier::external_body]
fn home_dir_string() -> (r: Option<String>) {
    directories::UserDirs::new().and_then(
        |dirs| dirs.home_dir().to_path_buf().into_os_string().into_string().ok(),
    )
}

/// A path with a leading `~/` rewritten against the home directory; the path
/// itself where it has no such prefix or no home directory is known.
pub open spec fn spec_expand_home(path: Seq<char>, home: Option<Seq<char>>) -> Seq<char> {
    match home {
        Some(h) => if path.len() >= 2 && path.subrange(0, 2) == "~/"@ {
            h + "/"@ + path.skip(2)
        } else {
            path
        },
        None => path,
    }
}

/// Expands a leading `~/` to the home directory, with a separator between;
/// a path without the prefix, or a prefix without a home, stays as it is.
pub fn expand_home(path: &str, home: Option<&String>) -> (r: String)
    ensures
        r@ == spec_expand_home(path@, opt_str_view(home)),
{
    proof {
        reveal_strlit("~/");
        reveal_strlit("/");
    }
    match strip_prefix_of(path, "~/") {
        Some(rest) => match home {
            Some(h) => {
                proof {
                    assert(path@.subrange(0, 2) =~= "~/"@);
                    assert(path@.skip(2) =~= rest@);
                }
                let mut out = h.clone();
                out.append("/");
                out.append(rest);
                out
            },
            None => path.to_owned(),
        },
        None => path.to_owned(),
    }
}

/// The place the snippets file is looked for. An explicit path is taken after
/// home expansion; an option of the wrong shape means no file is read; with no
/// explicit path, the well-known location under the home directory is used,
/// where a home directory is known. With no options at all, no file is read.
pub open spec fn spec_snippets_file_path(opts: Option<InitOptions>, home: Option<Seq<char>>) -> Option<
    Seq<char>,
> {
    match opts {
        None => None,
        Some(o) => match o.snippets_file {
            Some(FileSetting::GivenPath(p)) => Some(spec_expand_home(p@, home)),
            Some(FileSetting::NotAString) => None,
            None => match home {
                Some(h) => Some(h + "/.config/snippets-ls/snippets.toml"@),
                None => None,
            },
        },
    }
}

/// The path of the snippets file against a given home directory.
pub fn snippets_file_path(opts: Option<&InitOptions>, home: Option<&String>) -> (r: Option<String>)
    ensures
        opt_string_view(r) == spec_snippets_file_path(opts_view(opts), opt_str_view(home)),
{
    match opts {
        None => None,
        Some(o) => match &o.snippets_file {
            Some(FileSetting::GivenPath(p)) => Some(expand_home(p.as_str(), home)),
            Some(FileSetting::NotAString) => None,
            None => match home {
                Some(h) => {
                    let mut out = h.clone();
                    out.append("/.config/snippets-ls/snippets.toml");
                    Some(out)
                },
                None => None,
            },
        },
    }
}

/// The path of the snippets file, resolved against the home directory the
/// platform reports at the time of the call.
pub fn snippets_file_location(opts: Option<&InitOptions>) -> (r: Option<String>)
    ensures
        exists|home: Option<Seq<char>>|
            opt_string_view(r) == spec_snippets_file_path(opts_view(opts), home),
{
    let home = home_dir_string();
    let home_ref = home.as_ref();
    let r = snippets_file_path(opts, home_ref);
    proof {
        assert(opt_string_view(r) == spec_snippets_file_path(
            opts_view(opts),
            opt_str_view(home_ref),
        ));
    }
    r
}

/// The table a snippets file contributes: empty where there is no file, and
/// empty where the file does not parse — never a partial merge.
pub open spec fn spec_file_fragment(content: Option<Seq<char>>) -> Map<
    Seq<char>,
    Map<Seq<char>, Seq<char>>,
> {
    match content {
        None => Map::empty(),
        Some(text) => match toml_snippet_table(text) {
            Some(t) => t,
            None => Map::empty(),
        },
    }
}

/// The table the inline option contributes: empty where none was given or the
/// value did not have the shape of a table.
pub open spec fn spec_inline_fragment(o: InitOptions) -> Map<Seq<char>, Map<Seq<char>, Seq<char>>> {
    match o.snippets {
        Some(InlineSetting::GivenTable(t)) => t@,
        _ => Map::empty(),
    }
}

/// The resolved table: the file fragment written over the built-in table, the
/// inline fragment written over that — built-in lowest, inline highest. With
/// no initialization options, exactly the built-in table.
pub open spec fn spec_resolve(
    builtin: Map<Seq<char>, Map<Seq<char>, Seq<char>>>,
    opts: Option<InitOptions>,
    content: Option<Seq<char>>,
) -> Map<Seq<char>, Map<Seq<char>, Seq<char>>> {
    match opts {
        None => builtin,
        Some(o) => spec_merge(
            spec_merge(builtin, spec_file_fragment(content)),
            spec_inline_fragment(o),
        ),
    }
}

/// Resolves the final per-language table from the built-in table, the
/// initialization options, and the text of the snippets file where one could
/// be read. A missing or ill-formed source degrades to an empty fragment and
/// never disturbs the built-in table.
pub fn resolve(
    builtin: &LangSnippetTable,
    opts: Option<&InitOptions>,
    file_content: Option<&str>,
) -> (r: LangSnippetTable)
    requires
        builtin.wf(),
        opts matches Some(o) ==> o.wf(),
    ensures
        r.wf(),
        r@ == spec_resolve(builtin@, opts_view(opts), opt_text_view(file_content)),
{
    match opts {
        None => builtin.clone(),
        Some(o) => {
            let file_fragment = match file_content {
                Some(text) => match parse_toml_table(text) {
                    Some(t) => t,
                    None => LangSnippetTable::new(),
                },
                None => LangSnippetTable::new(),
            };
            let with_file = merge_snippets(builtin.clone(), file_fragment);
            let inline_fragment = match &o.snippets {
                Some(InlineSetting::GivenTable(t)) => t.clone(),
                _ => LangSnippetTable::new(),
            };
            merge_snippets(with_file, inline_fragment)
        },
    }
}

} // verus!
