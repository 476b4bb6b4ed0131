use philo_core::index::update_with_package;
use philo_core::ranking::sort_by_confidence;
use philo_core::search::{
    after_local_search, choose_candidate, fuzzy_score, local_candidates, parse_usize,
    search_googlebooks, search_internet_archive, search_local, search_openlibrary,
    search_providers, select_from_input, Choice, LocalOutcome,
};
use philo_core::types::{Confidence, IndexEntry, MatchItem, Package};

fn item(title: &str, author: &str, num: u64, den: u64) -> MatchItem {
    MatchItem {
        title: title.to_string(),
        author: author.to_string(),
        year: None,
        format: None,
        source: "local".to_string(),
        url: None,
        isbn: None,
        confidence: Confidence { num, den },
    }
}

fn value(c: Confidence) -> f64 {
    c.num as f64 / c.den as f64
}

#[test]
fn fuzzy_score_of_equal_strings_is_one() {
    let c = fuzzy_score("  Kant ", "kANT");
    assert_eq!(c.num, c.den);
    assert_eq!(fuzzy_score("", "  "), Confidence { num: 1, den: 1 });
}

#[test]
fn fuzzy_score_matches_normalized_levenshtein() {
    assert_eq!(fuzzy_score("kitten", "sitting"), Confidence { num: 4, den: 7 });
    assert_eq!(fuzzy_score("", "abc"), Confidence { num: 0, den: 3 });
    for (a, b) in [("kitten", "sitting"), ("Hegel", "hegl"), ("Kant", "Kafka")] {
        let expected = strsim::normalized_levenshtein(a.to_lowercase().trim(), b.to_lowercase().trim());
        assert!((value(fuzzy_score(a, b)) - expected).abs() < 1e-12);
    }
}

#[test]
fn search_local_keeps_close_matches_best_first() {
    let cands = vec![
        item("Kants", "someone", 1, 1),
        item("Critique of Pure Reason", "Kant", 1, 1),
        item("Kanr", "someone", 1, 1),
        item("Phenomenology", "Hegel", 1, 1),
        item("kant", "x", 7, 10),
    ];
    let res = search_local(&cands, "Kant");
    let titles: Vec<&str> = res.iter().map(|m| m.title.as_str()).collect();
    assert_eq!(titles, vec!["Critique of Pure Reason", "kant", "Kants"]);
    assert_eq!(res[0].confidence.num, res[0].confidence.den);
    assert_eq!(res[1].confidence.num, res[1].confidence.den);
    assert_eq!(res[2].confidence, Confidence { num: 4, den: 5 });
}

#[test]
fn search_local_drops_scores_at_three_quarters() {
    let cands = vec![item("abcd", "zzzz", 1, 1)];
    assert!(search_local(&cands, "abce").is_empty());
    let cands = vec![item("abcde", "zzzz", 1, 1)];
    let res = search_local(&cands, "abcdf");
    assert_eq!(res.len(), 1);
    assert_eq!(res[0].confidence, Confidence { num: 4, den: 5 });
}

#[test]
fn local_candidates_from_index_and_files() {
    let entries = vec![IndexEntry {
        id: "philo:a-b-1".to_string(),
        title: "B".to_string(),
        author: "A".to_string(),
        year: Some(1),
        format: Some("pdf".to_string()),
        packages_path: "packages/a/b-1.json".to_string(),
    }];
    let stems = vec!["c-unknown".to_string()];
    let c = local_candidates(&entries, &stems);
    assert_eq!(c.len(), 2);
    assert_eq!(c[0].title, "B");
    assert_eq!(c[0].author, "A");
    assert_eq!(c[0].year, Some(1));
    assert_eq!(c[0].source, "local");
    assert_eq!(c[0].confidence, Confidence { num: 1, den: 1 });
    assert_eq!(c[1].title, "c-unknown");
    assert_eq!(c[1].author, "unknown");
    assert_eq!(c[1].confidence, Confidence { num: 7, den: 10 });
}

#[test]
fn local_search_finds_a_recorded_package() {
    let p = Package {
        id: "philo:kant-critique-unknown".to_string(),
        title: "Critique".to_string(),
        author: "Kant".to_string(),
        year: None,
        language: None,
        publisher: None,
        format: None,
        sources: vec![],
        isbn: vec![],
        tags: vec![],
        created_at: String::new(),
        updated_at: String::new(),
    };
    let mut entries = vec![];
    update_with_package(&mut entries, "r", &p, "r/packages/kant/critique-unknown.json");
    let res = search_local(&local_candidates(&entries, &vec![]), "critique");
    assert_eq!(res.len(), 1);
    assert_eq!(res[0].author, "Kant");
}

#[test]
fn openlibrary_answers_for_its_word() {
    assert_eq!(search_openlibrary("ELE\u{15e}TIRISI").len(), 1);
    let r = search_openlibrary("saf akl\u{131}n ele\u{15f}tirisi");
    assert_eq!(r.len(), 1);
    assert_eq!(r[0].author, "Immanuel Kant");
    assert_eq!(r[0].year, Some(1781));
    assert_eq!(r[0].confidence, Confidence { num: 88, den: 100 });
    assert!(search_openlibrary("hegel").is_empty());
}

#[test]
fn archive_answers_for_hegel() {
    let r = search_internet_archive("HEGEL");
    assert_eq!(r.len(), 1);
    assert_eq!(r[0].title, "Tinin Fenomenolojisi");
    assert_eq!(r[0].isbn, None);
    assert!(search_internet_archive("kant").is_empty());
    assert!(search_googlebooks("hegel").is_empty());
}

#[test]
fn providers_are_gathered_and_sorted() {
    let providers = vec!["archive".to_string(), "unknown".to_string(), "openlibrary".to_string(), "googlebooks".to_string()];
    let r = search_providers("hegel ele\u{15f}tirisi", &providers);
    assert_eq!(r.len(), 2);
    assert_eq!(r[0].source, "openlibrary");
    assert_eq!(r[1].source, "archive");
    assert!(search_providers("nothing", &providers).is_empty());
    let twice = vec!["archive".to_string(), "archive".to_string()];
    assert_eq!(search_providers("hegel", &twice).len(), 2);
}

#[test]
fn sorting_is_stable_and_descending() {
    let v = vec![item("a", "", 1, 2), item("b", "", 3, 4), item("c", "", 2, 4), item("d", "", 1, 1)];
    let s = sort_by_confidence(&v);
    let titles: Vec<&str> = s.iter().map(|m| m.title.as_str()).collect();
    assert_eq!(titles, vec!["d", "b", "a", "c"]);
}

#[test]
fn next_step_after_local_search() {
    assert_eq!(after_local_search(true, false), LocalOutcome::ShowLocal);
    assert_eq!(after_local_search(false, false), LocalOutcome::NotFoundOffline);
    assert_eq!(after_local_search(false, true), LocalOutcome::SearchOnline);
}

#[test]
fn choosing_a_candidate() {
    let c = vec![item("a", "", 1, 1), item("b", "", 1, 1)];
    assert_eq!(choose_candidate(&vec![], Some(0)), Choice::NoCandidates);
    assert_eq!(choose_candidate(&c, None), Choice::AskUser);
    assert_eq!(choose_candidate(&c, Some(2)), Choice::NoneChosen);
    assert_eq!(choose_candidate(&c, Some(1)), Choice::Chosen(item("b", "", 1, 1)));
}

#[test]
fn reading_the_users_choice() {
    let c = vec![item("a", "", 1, 1), item("b", "", 1, 1)];
    assert_eq!(select_from_input(&c, " 1 \n"), Some(item("b", "", 1, 1)));
    assert_eq!(select_from_input(&c, "+0"), Some(item("a", "", 1, 1)));
    assert_eq!(select_from_input(&c, ""), None);
    assert_eq!(select_from_input(&c, "2"), None);
    assert_eq!(select_from_input(&c, "-1"), None);
    assert_eq!(select_from_input(&c, "x"), None);
    assert_eq!(select_from_input(&c, "99999999999999999999999"), None);
}

#[test]
fn parse_usize_agrees_with_std() {
    for s in ["0", "+7", "+", "-0", "12a", "", "18446744073709551615", "18446744073709551616", "007", "++1"] {
        let chars: Vec<char> = s.chars().collect();
        assert_eq!(parse_usize(&chars), s.parse::<usize>().ok(), "{:?}", s);
    }
}

#[test]
fn fuzzy_score_is_symmetric() {
    for (a, b) in [("kitten", "sitting"), ("Hegel", "hegl"), ("", "abc"), ("Kant", "Kafka")] {
        assert_eq!(fuzzy_score(a, b), fuzzy_score(b, a));
    }
}

#[test]
fn names_that_answer_nothing_do_not_matter() {
    let q = "hegel ele\u{15f}tirisi";
    let a = search_providers(q, &vec!["openlibrary".to_string(), "archive".to_string()]);
    let b = search_providers(
        q,
        &vec!["x".to_string(), "openlibrary".to_string(), "googlebooks".to_string(), "archive".to_string(), "y".to_string()],
    );
    assert_eq!(a, b);
    assert!(search_providers(q, &vec![]).is_empty());
}
