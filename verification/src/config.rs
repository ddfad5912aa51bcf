//! The configuration: which engine to use and where a SearXNG instance lives.
//! The file `~/.config/bang/config.toml` and the variables `BANG_ENGINE` and
//! `BANG_SEARXNG_URL` are read by the caller; this module decides what they
//! amount to.

use vstd::prelude::*;

use crate::text::{nonblank_trimmed, opt_view, trimmed_nonblank};

verus! {

pub struct Config {
    pub engine: String,
    pub searxng_url: Option<String>,
}

impl View for Config {
    type V = (Seq<char>, Option<Seq<char>>);

    open spec fn view(&self) -> (Seq<char>, Option<Seq<char>>) {
        (self.engine@, opt_view(self.searxng_url))
    }
}

/// The configuration in force when no file sets one: DuckDuckGo, no instance.
pub open spec fn default_config() -> (Seq<char>, Option<Seq<char>>) {
    ("duckduckgo"@, None)
}

impl Default for Config {
    fn default() -> (c: Self)
        ensures
            c@ == default_config(),
    {
        Config { engine: "duckduckgo".to_owned(), searxng_url: None }
    }
}

/// The configuration that a file (if one was read and parsed) and the two
/// environment variables amount to: a variable that is set and not blank
/// overrides the file with its trimmed value.
pub open spec fn load_spec(
    file: Option<(Seq<char>, Option<Seq<char>>)>,
    engine_var: Option<Seq<char>>,
    url_var: Option<Seq<char>>,
) -> (Seq<char>, Option<Seq<char>>) {
    let base = match file {
        Some(c) => c,
        None => default_config(),
    };
    let engine = match engine_var {
        Some(e) => match trimmed_nonblank(e) {
            Some(t) => t,
            None => base.0,
        },
        None => base.0,
    };
    let url = match url_var {
        Some(u) => match trimmed_nonblank(u) {
            Some(t) => Some(t),
            None => base.1,
        },
        None => base.1,
    };
    (engine, url)
}

pub open spec fn config_opt_view(c: Option<Config>) -> Option<(Seq<char>, Option<Seq<char>>)> {
    match c {
        Some(c) => Some(c@),
        None => None,
    }
}

/// Combines the parsed file (`None` when it is absent or does not parse) with
/// the values of `BANG_ENGINE` and `BANG_SEARXNG_URL` (`None` when unset).
pub fn load(file: Option<Config>, engine_var: Option<String>, url_var: Option<String>) -> (c:
    Config)
    ensures
        c@ == load_spec(config_opt_view(file), opt_view(engine_var), opt_view(url_var)),
{
    let mut config = match file {
        Some(c) => c,
        None => Config::default(),
    };
    if let Some(e) = engine_var {
        if let Some(t) = nonblank_trimmed(e.as_str()) {
            config.engine = t;
        }
    }
    if let Some(u) = url_var {
        if let Some(t) = nonblank_trimmed(u.as_str()) {
            config.searxng_url = Some(t);
        }
    }
    config
}

/// An environment variable overrides the file exactly when it is set and not
/// blank, and then with its trimmed value; a blank one is as good as unset.
pub proof fn law_nonblank_variables_override(
    file: Option<(Seq<char>, Option<Seq<char>>)>,
    engine_var: Option<Seq<char>>,
    url_var: Option<Seq<char>>,
)
    ensures
        engine_var matches Some(e) ==> (trimmed_nonblank(e) is Some ==> load_spec(
            file,
            engine_var,
            url_var,
        ).0 == crate::text::trim(e)) && (trimmed_nonblank(e) is None ==> load_spec(
            file,
            engine_var,
            url_var,
        ).0 == load_spec(file, None, url_var).0),
        url_var matches Some(u) ==> (trimmed_nonblank(u) is Some ==> load_spec(
            file,
            engine_var,
            url_var,
        ).1 == Some(crate::text::trim(u))) && (trimmed_nonblank(u) is None ==> load_spec(
            file,
            engine_var,
            url_var,
        ).1 == load_spec(file, engine_var, None).1),
{
}

/// Without environment variables the parsed file is used as it is, and
/// without a file the defaults: DuckDuckGo and no SearXNG instance.
pub proof fn law_file_or_defaults(file: (Seq<char>, Option<Seq<char>>))
    ensures
        load_spec(Some(file), None, None) == file,
        load_spec(None, None, None) == ("duckduckgo"@, None::<Seq<char>>),
{
}

} // verus!
