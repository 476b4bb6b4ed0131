//! The user's configuration: its defaults, the fallbacks applied to a
//! loaded one, and the default configuration file.

use vstd::prelude::*;
use crate::types::{clone_strings, opt_view, string_views};

verus! {

/// The registry this installation publishes packages as.
#[derive(Debug, PartialEq)]
pub struct SourceConfig {
    pub id: String,
    pub name: String,
    pub namespace: String,
    pub default_provider: String,
    pub providers: Vec<String>,
}

/// The user's configuration.
#[derive(Debug, PartialEq)]
pub struct Config {
    pub repo_path: String,
    pub prefer_formats: Vec<String>,
    pub max_size_mb: u64,
    pub providers: Vec<String>,
    pub user_agent: Option<String>,
    pub source: SourceConfig,
}

/// The providers enabled by default, in order.
pub open spec fn default_providers() -> Seq<Seq<char>> {
    seq!["openlibrary"@, "googlebooks"@, "archive"@]
}

/// The configuration used when the user has none.
pub open spec fn is_default_config(c: Config) -> bool {
    &&& c.repo_path@ == "./philo_repo"@
    &&& string_views(c.prefer_formats@) == seq!["pdf"@, "epub"@]
    &&& c.max_size_mb == 200
    &&& string_views(c.providers@) == default_providers()
    &&& opt_view(c.user_agent) == Some("Philo/0.1"@)
    &&& c.source.id@ == "philo"@
    &&& c.source.name@ == "Philo Registry"@
    &&& c.source.namespace@ == "philo"@
    &&& c.source.default_provider@ == "openlibrary"@
    &&& string_views(c.source.providers@) == default_providers()
}

fn default_provider_list() -> (v: Vec<String>)
    ensures
        string_views(v@) == default_providers(),
{
    let mut v: Vec<String> = Vec::new();
    v.push(String::from_str("openlibrary"));
    v.push(String::from_str("googlebooks"));
    v.push(String::from_str("archive"));
    assert(string_views(v@) =~= default_providers());
    v
}

/// The configuration used when the user has none: the registry in
/// `./philo_repo`, PDF then EPUB preferred, files up to 200 MB, and the
/// `openlibrary`, `googlebooks` and `archive` providers.
pub fn default_config() -> (c: Config)
    ensures
        is_default_config(c),
{
    let mut formats: Vec<String> = Vec::new();
    formats.push(String::from_str("pdf"));
    formats.push(String::from_str("epub"));
    assert(string_views(formats@) =~= seq!["pdf"@, "epub"@]);
    Config {
        repo_path: String::from_str("./philo_repo"),
        prefer_formats: formats,
        max_size_mb: 200,
        providers: default_provider_list(),
        user_agent: Some(String::from_str("Philo/0.1")),
        source: SourceConfig {
            id: String::from_str("philo"),
            name: String::from_str("Philo Registry"),
            namespace: String::from_str("philo"),
            default_provider: String::from_str("openlibrary"),
            providers: default_provider_list(),
        },
    }
}

/// Completes a configuration read from the user's file: when it names no
/// providers, the source's providers are used.
pub fn apply_provider_fallback(cfg: &mut Config)
    ensures
        string_views(final(cfg).providers@) == if old(cfg).providers@.len() == 0 {
            string_views(old(cfg).source.providers@)
        } else {
            string_views(old(cfg).providers@)
        },
        final(cfg).repo_path == old(cfg).repo_path,
        final(cfg).prefer_formats == old(cfg).prefer_formats,
        final(cfg).max_size_mb == old(cfg).max_size_mb,
        final(cfg).user_agent == old(cfg).user_agent,
        final(cfg).source == old(cfg).source,
{
    if cfg.providers.len() == 0 {
        cfg.providers = clone_strings(&cfg.source.providers);
    }
}

/// The registry to work on: the one given on the command line, else the
/// configured one.
pub fn resolve_repo(cli_repo: Option<String>, cfg_repo: &str) -> (r: String)
    ensures
        r@ == match cli_repo {
            Some(p) => p@,
            None => cfg_repo@,
        },
{
    match cli_repo {
        Some(p) => p,
        None => String::from_str(cfg_repo),
    }
}

/// The text of the default configuration file before the registry path.
pub open spec fn yaml_head() -> Seq<char> {
    "repo_path: \""@
}

/// The text of the default configuration file after the registry path.
pub open spec fn yaml_tail() -> Seq<char> {
    "\"\nprefer_formats: [\"pdf\", \"epub\"]\nmax_size_mb: 200\nproviders: [\"openlibrary\", \"googlebooks\", \"archive\"]\nuser_agent: \"Philo/0.1\"\n\nsource:\n  id: \"philo\"\n  name: \"Philo Registry\"\n  namespace: \"philo\"\n  default_provider: \"openlibrary\"\n  providers: [\"openlibrary\", \"googlebooks\", \"archive\"]\n"@
}

/// The default configuration file (YAML) for a registry at `repo_path`.
pub fn default_config_yaml(repo_path: &str) -> (r: String)
    ensures
        r@ == yaml_head() + repo_path@ + yaml_tail(),
{
    let mut r = String::from_str("repo_path: \"");
    r.append(repo_path);
    r.append(
        "\"\nprefer_formats: [\"pdf\", \"epub\"]\nmax_size_mb: 200\nproviders: [\"openlibrary\", \"googlebooks\", \"archive\"]\nuser_agent: \"Philo/0.1\"\n\nsource:\n  id: \"philo\"\n  name: \"Philo Registry\"\n  namespace: \"philo\"\n  default_provider: \"openlibrary\"\n  providers: [\"openlibrary\", \"googlebooks\", \"archive\"]\n",
    );
    r
}

} // verus!
