//! Building package records: from a local file, or from a candidate chosen
//! in a search.

use vstd::prelude::*;
use crate::config::Config;
use crate::index::{self, entry_of, entry_views, lookup, spec_upsert};
use crate::paths;
use crate::naming;
use crate::text;
use crate::types::{
    clone_opt, opt_view, source_views, string_views, Confidence, IndexEntry, MatchItem, Package,
    SourceLink, SourceLinkView,
};

verus! {

/// What a scan of a folder reports for one file.
#[derive(Debug, PartialEq)]
pub struct ScanRecord {
    pub path: String,
    pub author_guess: String,
    pub title_guess: String,
    pub ext: String,
}

/// The scan record of the file shown as `path`, whose name without
/// extension is `stem` and whose extension is `ext` (empty when it has none):
/// author and title are guessed from the stem.
pub fn scan_record(path: &str, stem: &str, ext: &str) -> (r: ScanRecord)
    ensures
        r.path@ == path@,
        (r.author_guess@, r.title_guess@) == naming::spec_infer_from_filename(stem@),
        r.ext@ == ext@,
{
    let (author, title) = naming::infer_from_filename(stem);
    ScanRecord {
        path: String::from_str(path),
        author_guess: author,
        title_guess: title,
        ext: String::from_str(ext),
    }
}

/// The tags every new package gets.
pub open spec fn default_tags() -> Seq<Seq<char>> {
    seq!["felsefe"@]
}

fn default_tag_list() -> (v: Vec<String>)
    ensures
        string_views(v@) == default_tags(),
{
    let mut v: Vec<String> = Vec::new();
    v.push(String::from_str("felsefe"));
    assert(string_views(v@) =~= default_tags());
    v
}

/// The author and title of a file's package: each given one, else the one
/// guessed from the file's stem.
pub open spec fn file_author_title(
    stem: Seq<char>,
    title_override: Option<Seq<char>>,
    author_override: Option<Seq<char>>,
) -> (Seq<char>, Seq<char>) {
    let guess = naming::spec_infer_from_filename(stem);
    (
        match author_override {
            Some(a) => a,
            None => guess.0,
        },
        match title_override {
            Some(t) => t,
            None => guess.1,
        },
    )
}

/// The seen form of an optional text argument.
pub open spec fn opt_str_view(o: Option<&str>) -> Option<Seq<char>> {
    match o {
        Some(s) => Some(s@),
        None => None,
    }
}

/// `p` is the package of a local file: the file shown as `file`, with stem
/// `stem` and extension `ext`, created at time `now`. Author and title come
/// from the overrides or are guessed from the stem; the year is unknown; the
/// one source is the file itself (`local-file`, quality 7/10), from the
/// configured registry.
pub open spec fn is_file_package(
    p: Package,
    cfg: Config,
    file: Seq<char>,
    stem: Seq<char>,
    ext: Option<Seq<char>>,
    title_override: Option<Seq<char>>,
    author_override: Option<Seq<char>>,
    now: Seq<char>,
) -> bool {
    &&& (p.author@, p.title@) == file_author_title(stem, title_override, author_override)
    &&& p.id@ == naming::spec_package_id(cfg.source.namespace@, p.author@, p.title@, None)
    &&& p.year is None
    &&& p.language is None
    &&& p.publisher is None
    &&& opt_view(p.format) == ext
    &&& source_views(p.sources@) == seq![
        SourceLinkView {
            name: "local-file"@,
            url: file,
            mime: None,
            quality: Confidence { num: 7, den: 10 },
            checksum_sha256: None,
            registry_source_id: Some(cfg.source.id@),
            registry_source_name: Some(cfg.source.name@),
        },
    ]
    &&& p.isbn@.len() == 0
    &&& string_views(p.tags@) == default_tags()
    &&& p.created_at@ == now
    &&& p.updated_at@ == now
}

/// The package of the local file shown as `file`, with stem `stem` and
/// extension `ext`, created at time `now`.
pub fn build_file_package(
    cfg: &Config,
    file: &str,
    stem: &str,
    ext: Option<&str>,
    title_override: Option<String>,
    author_override: Option<String>,
    now: &str,
) -> (p: Package)
    ensures
        is_file_package(p, *cfg, file@, stem@, opt_str_view(ext), opt_view(title_override), opt_view(author_override), now@),
{
    let (guess_author, guess_title) = naming::infer_from_filename(stem);
    let author = match author_override {
        Some(a) => a,
        None => guess_author,
    };
    let title = match title_override {
        Some(t) => t,
        None => guess_title,
    };
    let id = naming::make_package_id_with_ns(cfg.source.namespace.as_str(), author.as_str(), title.as_str(), None);
    let format = match ext {
        Some(e) => Some(String::from_str(e)),
        None => None,
    };
    let mut sources: Vec<SourceLink> = Vec::new();
    sources.push(
        SourceLink {
            name: String::from_str("local-file"),
            url: String::from_str(file),
            mime: None,
            quality: Confidence::new(7, 10),
            checksum_sha256: None,
            registry_source_id: Some(cfg.source.id.clone()),
            registry_source_name: Some(cfg.source.name.clone()),
        },
    );
    let p = Package {
        id,
        title,
        author,
        year: None,
        language: None,
        publisher: None,
        format,
        sources,
        isbn: Vec::new(),
        tags: default_tag_list(),
        created_at: String::from_str(now),
        updated_at: String::from_str(now),
    };
    assert(source_views(p.sources@) =~= seq![p.sources@[0]@]);
    p
}

/// The MIME type announced for a file of format `f`: PDF and EPUB (in any
/// ASCII case) get theirs, anything else `application/octet-stream`.
pub open spec fn spec_mime_for_format(f: Seq<char>) -> Seq<char> {
    if text::spec_eq_ignore_ascii_case(f, "pdf"@) {
        "application/pdf"@
    } else if text::spec_eq_ignore_ascii_case(f, "epub"@) {
        "application/epub+zip"@
    } else {
        "application/octet-stream"@
    }
}

/// The MIME type announced for a file of format `f`.
pub fn mime_for_format(f: &str) -> (r: String)
    ensures
        r@ == spec_mime_for_format(f@),
{
    let cs = text::chars_of(f);
    if text::eq_ignore_ascii_case(&cs, &text::chars_of("pdf")) {
        String::from_str("application/pdf")
    } else if text::eq_ignore_ascii_case(&cs, &text::chars_of("epub")) {
        String::from_str("application/epub+zip")
    } else {
        String::from_str("application/octet-stream")
    }
}

/// The one source of a package made from a search candidate: where the
/// candidate can be downloaded, when it has a URL.
pub open spec fn match_sources(cfg: Config, item: MatchItem) -> Seq<SourceLinkView> {
    match item.url {
        Some(u) => seq![
            SourceLinkView {
                name: item.source@,
                url: u@,
                mime: match item.format {
                    Some(f) => Some(spec_mime_for_format(f@)),
                    None => None,
                },
                quality: item.confidence,
                checksum_sha256: None,
                registry_source_id: Some(cfg.source.id@),
                registry_source_name: Some(cfg.source.name@),
            },
        ],
        None => Seq::empty(),
    }
}

/// `p` is the package of a candidate chosen in a search, created at time
/// `now`: its identifier is made in the configured namespace, its metadata
/// is the candidate's, and its one source (if the candidate has a URL)
/// carries the candidate's confidence as quality.
pub open spec fn is_match_package(
    p: Package,
    cfg: Config,
    item: MatchItem,
    language: Option<Seq<char>>,
    publisher: Option<Seq<char>>,
    now: Seq<char>,
) -> bool {
    &&& p.id@ == naming::spec_package_id(cfg.source.namespace@, item.author@, item.title@, item.year)
    &&& p.title@ == item.title@
    &&& p.author@ == item.author@
    &&& p.year == item.year
    &&& opt_view(p.language) == language
    &&& opt_view(p.publisher) == publisher
    &&& opt_view(p.format) == opt_view(item.format)
    &&& source_views(p.sources@) == match_sources(cfg, item)
    &&& string_views(p.isbn@) == match item.isbn {
        Some(i) => seq![i@],
        None => Seq::<Seq<char>>::empty(),
    }
    &&& string_views(p.tags@) == default_tags()
    &&& p.created_at@ == now
    &&& p.updated_at@ == now
}

/// The package of a candidate chosen in a search, created at time `now`.
pub fn package_from_match(
    cfg: &Config,
    item: &MatchItem,
    language: Option<String>,
    publisher: Option<String>,
    now: &str,
) -> (p: Package)
    ensures
        is_match_package(p, *cfg, *item, opt_view(language), opt_view(publisher), now@),
{
    let id = naming::make_package_id_with_ns(
        cfg.source.namespace.as_str(),
        item.author.as_str(),
        item.title.as_str(),
        item.year,
    );
    let mut sources: Vec<SourceLink> = Vec::new();
    match &item.url {
        Some(url) => {
            let mime = match &item.format {
                Some(f) => Some(mime_for_format(f.as_str())),
                None => None,
            };
            sources.push(
                SourceLink {
                    name: item.source.clone(),
                    url: url.clone(),
                    mime,
                    quality: item.confidence,
                    checksum_sha256: None,
                    registry_source_id: Some(cfg.source.id.clone()),
                    registry_source_name: Some(cfg.source.name.clone()),
                },
            );
            assert(source_views(sources@) =~= match_sources(*cfg, *item));
        },
        None => {
            assert(source_views(sources@) =~= match_sources(*cfg, *item));
        },
    }
    let mut isbn: Vec<String> = Vec::new();
    match &item.isbn {
        Some(i) => {
            isbn.push(i.clone());
            assert(string_views(isbn@) =~= seq![i@]);
        },
        None => {
            assert(string_views(isbn@) =~= Seq::<Seq<char>>::empty());
        },
    }
    Package {
        id,
        title: item.title.clone(),
        author: item.author.clone(),
        year: item.year,
        language,
        publisher,
        format: clone_opt(&item.format),
        sources,
        isbn,
        tags: default_tag_list(),
        created_at: String::from_str(now),
        updated_at: String::from_str(now),
    }
}

/// A package added to the registry at `repo_path` has its file at the path
/// that `package_path` gives for its author, title and year, and the index
/// records it there under its identifier.
pub open spec fn is_placed(
    old_entries: Seq<IndexEntry>,
    new_entries: Seq<IndexEntry>,
    repo_path: Seq<char>,
    p: Package,
    path: Seq<char>,
) -> bool {
    let e = entry_of(p, paths::package_relative_path(p.author@, p.title@, p.year));
    &&& path == paths::spec_package_path(repo_path, p.author@, p.title@, p.year)
    &&& entry_views(new_entries) == spec_upsert(entry_views(old_entries), e)
    &&& lookup(entry_views(new_entries), p.id@) == Some(e)
}

/// Makes the package of a candidate chosen in a search, created at time
/// `now`, and records it in the index `entries` of the registry at
/// `repo_path`; gives the package and the path its file is to be written
/// to.
pub fn create_package(
    entries: &mut Vec<IndexEntry>,
    repo_path: &str,
    cfg: &Config,
    item: &MatchItem,
    language: Option<String>,
    publisher: Option<String>,
    now: &str,
) -> (r: (Package, String))
    ensures
        is_match_package(r.0, *cfg, *item, opt_view(language), opt_view(publisher), now@),
        r.1@ == paths::spec_package_path(repo_path@, item.author@, item.title@, item.year),
        r.0.id@ == naming::spec_package_id(cfg.source.namespace@, item.author@, item.title@, item.year),
        is_placed(old(entries)@, final(entries)@, repo_path@, r.0, r.1@),
{
    let pkg = package_from_match(cfg, item, language, publisher, now);
    let path = index::record_package(entries, repo_path, &pkg);
    (pkg, path)
}

/// Makes the package of the local file shown as `file`, with stem `stem`
/// and extension `ext`, created at time `now`, and records it in the index
/// `entries` of the registry at `repo_path`; gives the package and the path
/// its file is to be written to.
pub fn add_file_as_package(
    entries: &mut Vec<IndexEntry>,
    repo_path: &str,
    cfg: &Config,
    file: &str,
    stem: &str,
    ext: Option<&str>,
    title_override: Option<String>,
    author_override: Option<String>,
    now: &str,
) -> (r: (Package, String))
    ensures
        is_file_package(
            r.0,
            *cfg,
            file@,
            stem@,
            opt_str_view(ext),
            opt_view(title_override),
            opt_view(author_override),
            now@,
        ),
        is_placed(old(entries)@, final(entries)@, repo_path@, r.0, r.1@),
{
    let pkg = build_file_package(cfg, file, stem, ext, title_override, author_override, now);
    let path = index::record_package(entries, repo_path, &pkg);
    (pkg, path)
}

/// Adding a file without overrides records the author and title that a
/// scan of the same file shows.
pub proof fn lemma_add_records_what_scan_shows(stem: Seq<char>)
    ensures
        file_author_title(stem, None, None) == naming::spec_infer_from_filename(stem),
{
}

} // verus!
