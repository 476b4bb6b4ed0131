use philo_core::config::{apply_provider_fallback, default_config, default_config_yaml, resolve_repo};
use philo_core::packages::{build_file_package, mime_for_format, package_from_match, scan_record};
use philo_core::types::{Confidence, MatchItem, SourceLink};

#[test]
fn default_configuration() {
    let c = default_config();
    assert_eq!(c.repo_path, "./philo_repo");
    assert_eq!(c.prefer_formats, vec!["pdf".to_string(), "epub".to_string()]);
    assert_eq!(c.max_size_mb, 200);
    assert_eq!(c.providers, vec!["openlibrary".to_string(), "googlebooks".to_string(), "archive".to_string()]);
    assert_eq!(c.user_agent, Some("Philo/0.1".to_string()));
    assert_eq!(c.source.id, "philo");
    assert_eq!(c.source.name, "Philo Registry");
    assert_eq!(c.source.namespace, "philo");
    assert_eq!(c.source.default_provider, "openlibrary");
    assert_eq!(c.source.providers, c.providers);
}

#[test]
fn empty_providers_fall_back_to_the_sources() {
    let mut c = default_config();
    c.providers = vec![];
    c.source.providers = vec!["archive".to_string()];
    apply_provider_fallback(&mut c);
    assert_eq!(c.providers, vec!["archive".to_string()]);
    let mut d = default_config();
    d.providers = vec!["x".to_string()];
    apply_provider_fallback(&mut d);
    assert_eq!(d.providers, vec!["x".to_string()]);
}

#[test]
fn command_line_repo_wins() {
    assert_eq!(resolve_repo(Some("/tmp/r".to_string()), "./philo_repo"), "/tmp/r");
    assert_eq!(resolve_repo(None, "./philo_repo"), "./philo_repo");
}

#[test]
fn default_yaml_text() {
    let y = default_config_yaml("/home/u/philo_repo");
    assert!(y.starts_with("repo_path: \"/home/u/philo_repo\"\nprefer_formats: [\"pdf\", \"epub\"]\n"));
    assert!(y.ends_with("  providers: [\"openlibrary\", \"googlebooks\", \"archive\"]\n"));
}

#[test]
fn default_yaml_describes_the_default_configuration() {
    let c = default_config();
    let y = default_config_yaml(&c.repo_path);
    let v: serde_yaml::Value = serde_yaml::from_str(&y).unwrap();
    assert_eq!(v["repo_path"].as_str(), Some(c.repo_path.as_str()));
    assert_eq!(v["max_size_mb"].as_u64(), Some(c.max_size_mb));
    assert_eq!(v["user_agent"].as_str(), c.user_agent.as_deref());
    let strs = |x: &serde_yaml::Value| -> Vec<String> {
        x.as_sequence().unwrap().iter().map(|s| s.as_str().unwrap().to_string()).collect()
    };
    assert_eq!(strs(&v["prefer_formats"]), c.prefer_formats);
    assert_eq!(strs(&v["providers"]), c.providers);
    assert_eq!(v["source"]["id"].as_str(), Some(c.source.id.as_str()));
    assert_eq!(v["source"]["name"].as_str(), Some(c.source.name.as_str()));
    assert_eq!(v["source"]["namespace"].as_str(), Some(c.source.namespace.as_str()));
    assert_eq!(v["source"]["default_provider"].as_str(), Some(c.source.default_provider.as_str()));
    assert_eq!(strs(&v["source"]["providers"]), c.source.providers);
}

#[test]
fn scan_record_guesses_from_the_stem() {
    let r = scan_record("/b/Hegel - Phenomenology.epub", "Hegel - Phenomenology", "epub");
    assert_eq!(r.path, "/b/Hegel - Phenomenology.epub");
    assert_eq!(r.author_guess, "Hegel");
    assert_eq!(r.title_guess, "Phenomenology");
    assert_eq!(r.ext, "epub");
}

#[test]
fn file_package_from_guess_and_overrides() {
    let c = default_config();
    let p = build_file_package(&c, "/b/Hegel - Phenomenology.epub", "Hegel - Phenomenology", Some("epub"), None, None, "2024-01-01T00:00:00+00:00");
    assert_eq!(p.id, "philo:hegel-phenomenology-unknown");
    assert_eq!(p.author, "Hegel");
    assert_eq!(p.title, "Phenomenology");
    assert_eq!(p.year, None);
    assert_eq!(p.format, Some("epub".to_string()));
    assert_eq!(p.tags, vec!["felsefe".to_string()]);
    assert!(p.isbn.is_empty());
    assert_eq!(p.created_at, "2024-01-01T00:00:00+00:00");
    assert_eq!(p.updated_at, p.created_at);
    assert_eq!(
        p.sources,
        vec![SourceLink {
            name: "local-file".to_string(),
            url: "/b/Hegel - Phenomenology.epub".to_string(),
            mime: None,
            quality: Confidence { num: 7, den: 10 },
            checksum_sha256: None,
            registry_source_id: Some("philo".to_string()),
            registry_source_name: Some("Philo Registry".to_string()),
        }]
    );
    let q = build_file_package(&c, "x", "x", None, Some("Logic".to_string()), Some("G. Hegel".to_string()), "t");
    assert_eq!(q.id, "philo:g-_hegel-logic-unknown");
    assert_eq!(q.format, None);
}

#[test]
fn mime_for_formats() {
    assert_eq!(mime_for_format("PDF"), "application/pdf");
    assert_eq!(mime_for_format("ePub"), "application/epub+zip");
    assert_eq!(mime_for_format("djvu"), "application/octet-stream");
    assert_eq!(mime_for_format(""), "application/octet-stream");
}

#[test]
fn package_from_a_search_candidate() {
    let c = default_config();
    let m = MatchItem {
        title: "Tinin Fenomenolojisi".to_string(),
        author: "G. W. F. Hegel".to_string(),
        year: Some(1807),
        format: Some("PDF".to_string()),
        source: "archive".to_string(),
        url: Some("https://example.org/hegel.pdf".to_string()),
        isbn: Some("978-x".to_string()),
        confidence: Confidence { num: 83, den: 100 },
    };
    let p = package_from_match(&c, &m, Some("tr".to_string()), None, "now");
    assert_eq!(p.id, "philo:g-_w-_f-_hegel-tinin_fenomenolojisi-1807");
    assert_eq!(p.language, Some("tr".to_string()));
    assert_eq!(p.isbn, vec!["978-x".to_string()]);
    assert_eq!(p.sources.len(), 1);
    assert_eq!(p.sources[0].mime, Some("application/pdf".to_string()));
    assert_eq!(p.sources[0].quality, Confidence { num: 83, den: 100 });
    assert_eq!(p.sources[0].registry_source_id, Some("philo".to_string()));
    let mut m2 = m.clone();
    m2.url = None;
    m2.isbn = None;
    let p2 = package_from_match(&c, &m2, None, None, "now");
    assert!(p2.sources.is_empty());
    assert!(p2.isbn.is_empty());
}
