use philo_core::config::default_config;
use philo_core::index::{rebuild_index, record_package, update_with_package};
use philo_core::naming::make_package_id_with_ns;
use philo_core::packages::{add_file_as_package, build_file_package, create_package, package_from_match};
use philo_core::paths::package_path;
use philo_core::types::{Confidence, IndexEntry, MatchItem, Package};

fn pkg(id: &str, title: &str, author: &str, year: Option<u16>) -> Package {
    Package {
        id: id.to_string(),
        title: title.to_string(),
        author: author.to_string(),
        year,
        language: None,
        publisher: None,
        format: Some("pdf".to_string()),
        sources: vec![],
        isbn: vec![],
        tags: vec![],
        created_at: "t".to_string(),
        updated_at: "t".to_string(),
    }
}

fn entry(id: &str, path: &str) -> IndexEntry {
    IndexEntry {
        id: id.to_string(),
        title: "old".to_string(),
        author: "old".to_string(),
        year: None,
        format: None,
        packages_path: path.to_string(),
    }
}

#[test]
fn update_adds_a_new_entry_at_the_end() {
    let mut entries = vec![entry("a", "x")];
    let p = pkg("b", "T", "A", Some(1900));
    update_with_package(&mut entries, "repo", &p, "repo/packages/a/t-1900.json");
    assert_eq!(entries.len(), 2);
    assert_eq!(entries[0], entry("a", "x"));
    assert_eq!(
        entries[1],
        IndexEntry {
            id: "b".to_string(),
            title: "T".to_string(),
            author: "A".to_string(),
            year: Some(1900),
            format: Some("pdf".to_string()),
            packages_path: "packages/a/t-1900.json".to_string(),
        }
    );
}

#[test]
fn update_replaces_the_first_entry_with_the_same_id() {
    let mut entries = vec![entry("a", "x"), entry("b", "y"), entry("b", "z")];
    let p = pkg("b", "T", "A", None);
    update_with_package(&mut entries, "repo", &p, "elsewhere/t.json");
    assert_eq!(entries.len(), 3);
    assert_eq!(entries[1].title, "T");
    assert_eq!(entries[1].packages_path, "elsewhere/t.json");
    assert_eq!(entries[2], entry("b", "z"));
    assert_eq!(entries[0], entry("a", "x"));
}

#[test]
fn update_twice_is_update_once() {
    let mut once = vec![entry("a", "x")];
    let p = pkg("c", "T", "A", None);
    update_with_package(&mut once, "r", &p, "r/p.json");
    let mut twice = vec![entry("a", "x")];
    update_with_package(&mut twice, "r", &p, "r/p.json");
    update_with_package(&mut twice, "r", &p, "r/p.json");
    assert_eq!(once, twice);
}

#[test]
fn recorded_package_is_found_at_its_relative_path() {
    let cfg = default_config();
    let p = build_file_package(&cfg, "/tmp/Kant - Critique.pdf", "Kant - Critique", Some("pdf"), None, None, "now");
    let path = package_path("./philo_repo", &p.author, &p.title, p.year);
    let mut entries = vec![];
    update_with_package(&mut entries, "./philo_repo", &p, &path);
    let found = entries.iter().find(|e| e.id == p.id).unwrap();
    assert_eq!(found.packages_path, "packages/kant/critique-unknown.json");
    assert_eq!(found.id, "philo:kant-critique-unknown");
}

#[test]
fn rebuild_index_succeeds() {
    assert_eq!(rebuild_index("./philo_repo"), Ok(()));
}

#[test]
fn record_package_puts_the_file_where_package_path_says() {
    let mut entries = vec![entry("a", "x")];
    let p = pkg("philo:kant-critique-1781", "Critique", "Kant", Some(1781));
    let path = record_package(&mut entries, "repo", &p);
    assert_eq!(path, "repo/packages/kant/critique-1781.json");
    assert_eq!(path, package_path("repo", "Kant", "Critique", Some(1781)));
    assert_eq!(entries.len(), 2);
    assert_eq!(entries[1].id, "philo:kant-critique-1781");
    assert_eq!(entries[1].packages_path, "packages/kant/critique-1781.json");
}

#[test]
fn create_package_writes_where_package_path_says_with_its_id() {
    let c = default_config();
    let m = MatchItem {
        title: "Critique of Pure Reason".to_string(),
        author: "Immanuel Kant".to_string(),
        year: Some(1781),
        format: Some("pdf".to_string()),
        source: "archive".to_string(),
        url: Some("https://example.org/k.pdf".to_string()),
        isbn: None,
        confidence: Confidence { num: 9, den: 10 },
    };
    let mut entries = vec![];
    let (p, path) = create_package(&mut entries, "/tmp/reg/", &c, &m, None, None, "now");
    assert_eq!(path, "/tmp/reg/packages/immanuel_kant/critique_of_pure_reason-1781.json");
    assert_eq!(p.id, "philo:immanuel_kant-critique_of_pure_reason-1781");
    assert_eq!(p.id, make_package_id_with_ns("philo", &m.author, &m.title, m.year));
    assert_eq!(p, package_from_match(&c, &m, None, None, "now"));
    assert_eq!(entries.len(), 1);
    assert_eq!(entries[0].id, p.id);
    assert_eq!(entries[0].packages_path, "packages/immanuel_kant/critique_of_pure_reason-1781.json");
    let (_, again) = create_package(&mut entries, "/tmp/reg/", &c, &m, None, None, "later");
    assert_eq!(again, path);
    assert_eq!(entries.len(), 1);
}

#[test]
fn add_file_as_package_records_the_guessed_book() {
    let c = default_config();
    let mut entries = vec![entry("other", "y")];
    let (p, path) = add_file_as_package(
        &mut entries, "repo", &c, "/home/u/Kant - Critique.pdf", "Kant - Critique", Some("pdf"), None, None, "now",
    );
    assert_eq!(p.author, "Kant");
    assert_eq!(p.title, "Critique");
    assert_eq!(p.id, "philo:kant-critique-unknown");
    assert_eq!(path, "repo/packages/kant/critique-unknown.json");
    assert_eq!(entries.len(), 2);
    assert_eq!(entries[1].packages_path, "packages/kant/critique-unknown.json");
}
