use philo_core::naming::{infer_from_filename, make_package_id_with_ns, slugify};
use philo_core::paths::{extension, is_package_file, join_path, package_path, relative_to};

#[test]
fn slugify_lowercases_and_replaces_spaces() {
    assert_eq!(slugify("  Immanuel Kant  "), "immanuel_kant");
}

#[test]
fn slugify_maps_separators_to_dashes() {
    assert_eq!(slugify("G. W. F. Hegel"), "g-_w-_f-_hegel");
    assert_eq!(slugify("a/b\\c:d;e,f\"g'h"), "a-b-c-d-e-f-g-h");
}

#[test]
fn slugify_trims_dashes_at_both_ends() {
    assert_eq!(slugify("--Hello, World!--"), "hello-_world");
    assert_eq!(slugify("..."), "");
    assert_eq!(slugify(""), "");
}

#[test]
fn slugify_keeps_unicode_letters() {
    assert_eq!(slugify("Saf Akl\u{131}n Ele\u{15f}tirisi"), "saf_akl\u{131}n_ele\u{15f}tirisi");
}

#[test]
fn slugify_output_is_a_single_path_component() {
    for s in ["../../etc/passwd", " / ", "a.b.c", "x\ty", "Tinin Fenomenolojisi"] {
        let g = slugify(s);
        assert!(!g.contains('/'));
        assert!(!g.contains('.'));
        assert!(!g.contains(' '));
        assert!(!g.starts_with('-') && !g.ends_with('-'));
        assert!(g.chars().all(|c| c.is_alphanumeric() || c == '_' || c == '-'));
    }
}

#[test]
fn package_id_with_year() {
    assert_eq!(
        make_package_id_with_ns("philo", "Immanuel Kant", "Saf Akl\u{131}n Ele\u{15f}tirisi", Some(1781)),
        "philo:immanuel_kant-saf_akl\u{131}n_ele\u{15f}tirisi-1781"
    );
}

#[test]
fn package_id_without_year() {
    assert_eq!(make_package_id_with_ns("ns", "A", "B", None), "ns:a-b-unknown");
    assert_eq!(make_package_id_with_ns("ns", "A", "B", Some(0)), "ns:a-b-0");
    assert_eq!(make_package_id_with_ns("ns", "A", "B", Some(65535)), "ns:a-b-65535");
}

#[test]
fn package_path_layout() {
    assert_eq!(
        package_path("./philo_repo", "Immanuel Kant", "Critique", Some(1781)),
        "./philo_repo/packages/immanuel_kant/critique-1781.json"
    );
    assert_eq!(package_path("/r/", "A", "T", None), "/r/packages/a/t-unknown.json");
    assert_eq!(package_path("", "A", "T", None), "packages/a/t-unknown.json");
}

#[test]
fn package_path_with_empty_author_slug() {
    assert_eq!(package_path("r", "---", "T", Some(7)), "r/packages/t-7.json");
}

#[test]
fn join_path_follows_pathbuf() {
    assert_eq!(join_path("a", "b"), "a/b");
    assert_eq!(join_path("a/", "b"), "a/b");
    assert_eq!(join_path("", "b"), "b");
    assert_eq!(join_path("a", "/b"), "/b");
    assert_eq!(join_path("a", ""), "a/");
    for (b, c) in [("a", "b"), ("a/", "b"), ("", "b"), ("a", "/b"), ("x/y", "z")] {
        let p = std::path::Path::new(b).join(c);
        assert_eq!(join_path(b, c), p.to_string_lossy());
    }
}

#[test]
fn relative_to_strips_components() {
    assert_eq!(
        relative_to("./philo_repo/packages/a/b.json", "./philo_repo"),
        Some("packages/a/b.json".to_string())
    );
    assert_eq!(relative_to("/a/b", "/a/"), Some("b".to_string()));
    assert_eq!(relative_to("a/bc", "a/b"), None);
    assert_eq!(relative_to("a", "a"), Some("".to_string()));
    assert_eq!(relative_to("/a", ""), Some("/a".to_string()));
    assert_eq!(relative_to("a//b/./c", "a"), Some("b/./c".to_string()));
    assert_eq!(relative_to("a/b/./", ""), Some("a/b".to_string()));
    assert_eq!(relative_to("//", ""), Some("/".to_string()));
    assert_eq!(relative_to("a/b", "/a"), None);
}

#[test]
fn relative_to_agrees_with_strip_prefix() {
    let cases = [
        ("./philo_repo/packages/a/b.json", "./philo_repo"),
        ("/a/b", "/a/"),
        ("a/bc", "a/b"),
        ("a", "a"),
        ("/a", ""),
        ("a/b/c", "a/b"),
        ("./x/y", "."),
        ("x/y", "./x"),
        ("a//b/./c", "a"),
        ("a/./b//", "a"),
        ("a/b/./", ""),
        ("/", ""),
        ("//", ""),
        (".", ""),
        ("./", ""),
        ("/./a", "/"),
        ("./a/..", "."),
        ("", ""),
        ("a/b", "a/b/"),
    ];
    for (p, b) in cases {
        let expected = std::path::Path::new(p)
            .strip_prefix(b)
            .ok()
            .map(|r| r.to_string_lossy().to_string());
        assert_eq!(relative_to(p, b), expected, "{} under {}", p, b);
    }
}

#[test]
fn package_path_lies_under_its_registry() {
    for base in ["./philo_repo", "/home/u/repo/", "repo", ""] {
        let p = package_path(base, "Kant", "Critique", Some(1781));
        assert_eq!(relative_to(&p, base), Some("packages/kant/critique-1781.json".to_string()));
    }
    let p = package_path("repo", "...", "Critique", None);
    assert_eq!(relative_to(&p, "repo"), Some("packages/critique-unknown.json".to_string()));
}

#[test]
fn infer_author_and_title() {
    assert_eq!(
        infer_from_filename("Kant - Critique of Pure Reason"),
        ("Kant".to_string(), "Critique of Pure Reason".to_string())
    );
    assert_eq!(infer_from_filename("A-B-C"), ("A".to_string(), "B".to_string()));
    assert_eq!(infer_from_filename(" x -"), ("x".to_string(), "".to_string()));
}

#[test]
fn infer_without_dash_gives_unknown_author() {
    assert_eq!(
        infer_from_filename(" NoDash "),
        ("unknown".to_string(), " NoDash ".to_string())
    );
}

#[test]
fn slugify_is_idempotent_on_examples() {
    for s in ["  Immanuel Kant  ", "G. W. F. Hegel", "--Hello, World!--", "Saf Akl\u{131}n Ele\u{15f}tirisi", ""] {
        let g = slugify(s);
        assert_eq!(slugify(&g), g);
    }
}

#[test]
fn extension_agrees_with_path_extension() {
    for name in [
        "kant.json", "kant.JSON", "a.b.json", ".json", "..json", "json", "", ".", "..", "x.", "a..b", ".a.b",
        "tinin_fenomenolojisi-1807.json",
    ] {
        let std_ext = std::path::Path::new(name).extension().and_then(|e| e.to_str()).map(|e| e.to_string());
        assert_eq!(extension(name), std_ext, "{}", name);
    }
}

#[test]
fn package_files_are_json_files() {
    assert!(is_package_file("critique-1781.json"));
    assert!(is_package_file("a.b.json"));
    assert!(is_package_file("..json"));
    assert!(!is_package_file(".json"));
    assert!(!is_package_file("critique.JSON"));
    assert!(!is_package_file("critique.json.bak"));
    assert!(!is_package_file("json"));
}
