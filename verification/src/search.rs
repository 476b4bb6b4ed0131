//! Searching for books: fuzzy matching of local candidates against a
//! query, the online providers, and choosing among candidates.

use vstd::prelude::*;
use crate::ranking;
use crate::text;
use crate::index::{entry_views, IndexEntryView};
use crate::types::{
    clone_opt, match_views, string_views, Confidence, IndexEntry, MatchItem, MatchItemView,
};

verus! {

// ---------------------------------------------------------------------------
// Fuzzy scores
// ---------------------------------------------------------------------------

/// The least of three numbers.
pub open spec fn min3(x: nat, y: nat, z: nat) -> nat {
    if x <= y && x <= z {
        x
    } else if y <= z {
        y
    } else {
        z
    }
}

/// The Levenshtein distance between the characters `a` and `b`: the least
/// number of one-character insertions, deletions and substitutions that turn
/// `a` into `b`. Going by the last characters: the distance to or from the
/// empty string is the other length; otherwise the best of matching (or
/// substituting) the two last characters, deleting the last of `a`, and
/// inserting the last of `b`.
pub open spec fn spec_levenshtein(a: Seq<char>, b: Seq<char>) -> nat
    decreases a.len() + b.len(),
{
    if a.len() == 0 {
        b.len()
    } else if b.len() == 0 {
        a.len()
    } else {
        min3(
            spec_levenshtein(a.drop_last(), b.drop_last()) + (if a.last() == b.last() {
                0nat
            } else {
                1nat
            }),
            spec_levenshtein(a.drop_last(), b) + 1,
            spec_levenshtein(a, b.drop_last()) + 1,
        )
    }
}

/// The larger of two lengths.
pub open spec fn max_len(a: Seq<char>, b: Seq<char>) -> nat {
    if a.len() >= b.len() {
        a.len()
    } else {
        b.len()
    }
}

/// The distance is at most the longer length: substitute along the shorter
/// string, then insert or delete the rest.
pub proof fn lemma_levenshtein_at_most_longer(a: Seq<char>, b: Seq<char>)
    ensures
        spec_levenshtein(a, b) <= max_len(a, b),
    decreases a.len() + b.len(),
{
    if a.len() > 0 && b.len() > 0 {
        lemma_levenshtein_at_most_longer(a.drop_last(), b.drop_last());
    }
}

/// The distance is symmetric: each edit of `a` into `b` is undone by one
/// edit of `b` into `a`.
pub proof fn lemma_levenshtein_symmetric(a: Seq<char>, b: Seq<char>)
    ensures
        spec_levenshtein(a, b) == spec_levenshtein(b, a),
    decreases a.len() + b.len(),
{
    if a.len() > 0 && b.len() > 0 {
        lemma_levenshtein_symmetric(a.drop_last(), b.drop_last());
        lemma_levenshtein_symmetric(a.drop_last(), b);
        lemma_levenshtein_symmetric(a, b.drop_last());
    }
}

/// The distance is zero exactly between equal strings.
pub proof fn lemma_levenshtein_zero(a: Seq<char>, b: Seq<char>)
    ensures
        (spec_levenshtein(a, b) == 0) == (a == b),
    decreases a.len() + b.len(),
{
    if a.len() > 0 && b.len() > 0 {
        lemma_levenshtein_zero(a.drop_last(), b.drop_last());
        if spec_levenshtein(a, b) == 0 {
            assert(a.drop_last() == b.drop_last());
            assert(a =~= a.drop_last().push(a.last()));
            assert(b =~= b.drop_last().push(b.last()));
        }
        if a == b {
            assert(a.drop_last() == b.drop_last());
        }
    } else if a.len() == 0 && b.len() == 0 {
        assert(a =~= b);
    }
}

/// Calls `strsim::levenshtein`, which the crate documents as the least
/// number of insertions, deletions and substitutions that change one string
/// into the other, counted in characters: `spec_levenshtein`.
#[verifier::external_body]
fn levenshtein(a: &str, b: &str) -> (d: usize)
    ensures
        d == spec_levenshtein(a@, b@),
{
    strsim::levenshtein(a, b)
}

/// A string as it is compared: lowercased, then trimmed.
pub open spec fn normalized(s: Seq<char>) -> Seq<char> {
    text::spec_trim(text::spec_to_lowercase(s))
}

/// The normalized Levenshtein similarity of `a` and `b` after normalizing
/// both: 1 when both are empty, otherwise `1 - distance / longer length`,
/// kept as the fraction `(longer length - distance) / longer length`.
pub open spec fn spec_fuzzy_score(a: Seq<char>, b: Seq<char>) -> Confidence {
    let x = normalized(a);
    let y = normalized(b);
    if x.len() == 0 && y.len() == 0 {
        Confidence { num: 1, den: 1 }
    } else {
        let m = max_len(x, y);
        Confidence { num: (m - spec_levenshtein(x, y)) as u64, den: m as u64 }
    }
}

/// How similar `a` and `b` are, from 0 to 1, ignoring case and surrounding
/// whitespace.
pub fn fuzzy_score(a: &str, b: &str) -> (c: Confidence)
    ensures
        c == spec_fuzzy_score(a@, b@),
        c == spec_fuzzy_score(b@, a@),
        c.wf(),
        normalized(a@) == normalized(b@) ==> c.num == c.den,
{
    let la = text::to_lowercase(a);
    let x = text::trim(la.as_str());
    let lb = text::to_lowercase(b);
    let y = text::trim(lb.as_str());
    let nx = text::chars_of(x.as_str()).len();
    let ny = text::chars_of(y.as_str()).len();
    if nx == 0 && ny == 0 {
        return Confidence::one();
    }
    let d = levenshtein(x.as_str(), y.as_str());
    proof {
        lemma_levenshtein_at_most_longer(x@, y@);
        lemma_levenshtein_symmetric(x@, y@);
        lemma_levenshtein_zero(x@, y@);
    }
    let m = if nx >= ny { nx } else { ny };
    Confidence::new((m - d) as u64, m as u64)
}

// ---------------------------------------------------------------------------
// Local candidates
// ---------------------------------------------------------------------------

/// The candidate an index entry stands for: its metadata, from `local`, with
/// full confidence.
pub open spec fn candidate_of_entry(e: IndexEntryView) -> MatchItemView {
    MatchItemView {
        title: e.title,
        author: e.author,
        year: e.year,
        format: e.format,
        source: "local"@,
        url: None,
        isbn: None,
        confidence: Confidence { num: 1, den: 1 },
    }
}

/// The candidate a package file stands for, known only by its file name
/// without extension: author `unknown`, from `local`, with confidence 7/10.
pub open spec fn candidate_of_file(stem: Seq<char>) -> MatchItemView {
    MatchItemView {
        title: stem,
        author: "unknown"@,
        year: None,
        format: None,
        source: "local"@,
        url: None,
        isbn: None,
        confidence: Confidence { num: 7, den: 10 },
    }
}

/// The local candidates: one per index entry, in order, then one per
/// package file, in order.
pub fn local_candidates(entries: &Vec<IndexEntry>, package_stems: &Vec<String>) -> (r: Vec<MatchItem>)
    ensures
        match_views(r@) == entry_views(entries@).map_values(|e: IndexEntryView| candidate_of_entry(e))
            + string_views(package_stems@).map_values(|s: Seq<char>| candidate_of_file(s)),
{
    let ghost ev = entry_views(entries@);
    let ghost sv = string_views(package_stems@);
    let mut out: Vec<MatchItem> = Vec::new();
    let n = entries.len();
    for i in 0..n
        invariant
            n == entries@.len(),
            ev == entry_views(entries@),
            match_views(out@) == ev.take(i as int).map_values(|e: IndexEntryView| candidate_of_entry(e)),
    {
        let e = &entries[i];
        let ghost before = match_views(out@);
        let item = MatchItem {
            title: e.title.clone(),
            author: e.author.clone(),
            year: e.year,
            format: clone_opt(&e.format),
            source: String::from_str("local"),
            url: None,
            isbn: None,
            confidence: Confidence::one(),
        };
        assert(ev[i as int] == e@);
        assert(item@ == candidate_of_entry(ev[i as int]));
        out.push(item);
        assert(match_views(out@) =~= before.push(item@));
        assert(ev.take(i + 1).map_values(|e: IndexEntryView| candidate_of_entry(e)) =~= ev.take(
            i as int,
        ).map_values(|e: IndexEntryView| candidate_of_entry(e)).push(candidate_of_entry(ev[i as int])));
    }
    assert(ev.take(n as int) == ev);
    let ghost head = match_views(out@);
    let m = package_stems.len();
    for j in 0..m
        invariant
            m == package_stems@.len(),
            sv == string_views(package_stems@),
            match_views(out@) == head + sv.take(j as int).map_values(|s: Seq<char>| candidate_of_file(s)),
    {
        let ghost before = match_views(out@);
        let item = MatchItem {
            title: package_stems[j].clone(),
            author: String::from_str("unknown"),
            year: None,
            format: None,
            source: String::from_str("local"),
            url: None,
            isbn: None,
            confidence: Confidence::new(7, 10),
        };
        assert(sv[j as int] == package_stems@[j as int]@);
        assert(item@ == candidate_of_file(sv[j as int]));
        out.push(item);
        assert(match_views(out@) =~= before.push(item@));
        assert(sv.take(j + 1).map_values(|s: Seq<char>| candidate_of_file(s)) =~= sv.take(
            j as int,
        ).map_values(|s: Seq<char>| candidate_of_file(s)).push(candidate_of_file(sv[j as int])));
    }
    assert(sv.take(m as int) == sv);
    out
}

// ---------------------------------------------------------------------------
// Local search
// ---------------------------------------------------------------------------

/// The score of a candidate for a query: the better of its title's and its
/// author's score.
pub open spec fn best_score(m: MatchItemView, query: Seq<char>) -> Confidence {
    let s1 = spec_fuzzy_score(m.title, query);
    let s2 = spec_fuzzy_score(m.author, query);
    if s1.spec_lt(s2) {
        s2
    } else {
        s1
    }
}

/// A score counts as a match when it is above 3/4.
pub open spec fn above_threshold(c: Confidence) -> bool {
    (c.num as int) * 4 > (c.den as int) * 3
}

/// The candidate with its confidence replaced.
pub open spec fn with_confidence(m: MatchItemView, c: Confidence) -> MatchItemView {
    MatchItemView {
        title: m.title,
        author: m.author,
        year: m.year,
        format: m.format,
        source: m.source,
        url: m.url,
        isbn: m.isbn,
        confidence: c,
    }
}

/// The candidates that match the query, in their order, each with its score
/// as confidence.
pub open spec fn local_hits(cs: Seq<MatchItemView>, query: Seq<char>) -> Seq<MatchItemView>
    decreases cs.len(),
{
    if cs.len() == 0 {
        Seq::empty()
    } else {
        let rest = local_hits(cs.drop_last(), query);
        let c = best_score(cs.last(), query);
        if above_threshold(c) {
            rest.push(with_confidence(cs.last(), c))
        } else {
            rest
        }
    }
}

/// The result of a local search: the matching candidates, best first.
pub open spec fn spec_search_local(cs: Seq<MatchItemView>, query: Seq<char>) -> Seq<MatchItemView> {
    ranking::rank(local_hits(cs, query))
}

/// Searches the local candidates (the registry's index and package files)
/// for `query`: keeps those whose title or author scores above 3/4, with
/// that score as confidence, best first.
pub fn search_local(candidates: &Vec<MatchItem>, query: &str) -> (r: Vec<MatchItem>)
    ensures
        match_views(r@) == spec_search_local(match_views(candidates@), query@),
        ranking::is_ranked(match_views(r@)),
        forall|j: int|
            0 <= j < r@.len() ==> {
                &&& above_threshold((#[trigger] r@[j]).confidence)
                &&& exists|k: int|
                    0 <= k < candidates@.len() && r@[j]@ == with_confidence(
                        #[trigger] candidates@[k]@,
                        best_score(candidates@[k]@, query@),
                    )
            },
        forall|k: int|
            0 <= k < candidates@.len() && (normalized((#[trigger] candidates@[k]).title@)
                == normalized(query@) || normalized(candidates@[k].author@) == normalized(
                query@,
            )) ==> {
                &&& best_score(candidates@[k]@, query@).num == best_score(
                    candidates@[k]@,
                    query@,
                ).den
                &&& match_views(r@).contains(
                    with_confidence(candidates@[k]@, best_score(candidates@[k]@, query@)),
                )
            },
{
    let n = candidates.len();
    let ghost cv = match_views(candidates@);
    let mut hits: Vec<MatchItem> = Vec::new();
    for i in 0..n
        invariant
            n == candidates@.len(),
            cv == match_views(candidates@),
            match_views(hits@) == local_hits(cv.take(i as int), query@),
            ranking::all_wf(match_views(hits@)),
            forall|k: int|
                0 <= k < i && (normalized((#[trigger] cv[k]).title) == normalized(query@)
                    || normalized(cv[k].author) == normalized(query@)) ==> {
                    &&& best_score(cv[k], query@).num == best_score(cv[k], query@).den
                    &&& match_views(hits@).contains(with_confidence(cv[k], best_score(cv[k], query@)))
                },
    {
        let m = &candidates[i];
        let s1 = fuzzy_score(m.title.as_str(), query);
        let s2 = fuzzy_score(m.author.as_str(), query);
        let conf = if s1.lt(&s2) { s2 } else { s1 };
        proof {
            assert(cv[i as int] == m@);
            assert(cv.take(i + 1).drop_last() == cv.take(i as int));
            assert(cv.take(i + 1).last() == m@);
        }
        if (conf.num as u128) * 4 > (conf.den as u128) * 3 {
            let mut mm = m.clone();
            mm.confidence = conf;
            let ghost before = match_views(hits@);
            hits.push(mm);
            assert(match_views(hits@) =~= before.push(with_confidence(m@, conf)));
            assert(match_views(hits@)[before.len() as int] == with_confidence(m@, conf));
            assert forall|k: int| 0 <= k < before.len() implies match_views(hits@)[k] == before[k] by {}
        }
        proof {
            if normalized(m.title@) == normalized(query@) || normalized(m.author@) == normalized(query@) {
                lemma_full_best(s1, s2);
            }
        }
    }
    assert(cv.take(n as int) == cv);
    let r = ranking::sort_by_confidence(&hits);
    proof {
        let hv = match_views(hits@);
        ranking::lemma_rank_is_sorted(hv);
        ranking::lemma_rank_is_permutation(hv);
        lemma_local_hits_shape(cv, query@);
        let rv = match_views(r@);
        assert forall|j: int| 0 <= j < r@.len() implies {
            &&& above_threshold((#[trigger] r@[j]).confidence)
            &&& exists|k: int|
                0 <= k < candidates@.len() && r@[j]@ == with_confidence(
                    #[trigger] candidates@[k]@,
                    best_score(candidates@[k]@, query@),
                )
        } by {
            assert(rv[j] == r@[j]@);
            vstd::seq_lib::to_multiset_contains(rv, rv[j]);
            vstd::seq_lib::to_multiset_contains(hv, rv[j]);
            assert(rv.contains(rv[j]));
            let h = choose|h: int| 0 <= h < hv.len() && hv[h] == rv[j];
            let k = choose|k: int| 0 <= k < cv.len() && hv[h] == with_confidence(cv[k], best_score(cv[k], query@)) && above_threshold(hv[h].confidence);
            assert(cv[k] == candidates@[k]@);
        }
        assert forall|k: int|
            0 <= k < candidates@.len() && (normalized((#[trigger] candidates@[k]).title@)
                == normalized(query@) || normalized(candidates@[k].author@) == normalized(
                query@,
            )) implies {
                &&& best_score(candidates@[k]@, query@).num == best_score(
                    candidates@[k]@,
                    query@,
                ).den
                &&& match_views(r@).contains(
                    with_confidence(candidates@[k]@, best_score(candidates@[k]@, query@)),
                )
            } by {
            assert(cv[k] == candidates@[k]@);
            let x = with_confidence(cv[k], best_score(cv[k], query@));
            vstd::seq_lib::to_multiset_contains(rv, x);
            vstd::seq_lib::to_multiset_contains(hv, x);
        }
    }
    r
}

/// When one of two well-formed scores is full, the better of them is full.
proof fn lemma_full_best(s1: Confidence, s2: Confidence)
    requires
        s1.wf(),
        s2.wf(),
        s1.num == s1.den || s2.num == s2.den,
    ensures
        ({
            let c = if s1.spec_lt(s2) { s2 } else { s1 };
            c.num == c.den && c.wf()
        }),
{
    let (n1, d1, n2, d2) = (s1.num as int, s1.den as int, s2.num as int, s2.den as int);
    if n1 == d1 {
        assert(!(n1 * d2 < n2 * d1)) by (nonlinear_arith)
            requires
                n1 == d1,
                d1 > 0,
                n2 <= d2,
        ;
    } else {
        if !(n1 * d2 < n2 * d1) {
            assert(n1 >= d1) by (nonlinear_arith)
                requires
                    n2 == d2,
                    d2 > 0,
                    n1 * d2 >= n2 * d1,
            ;
        }
    }
}

/// Every hit is some candidate above the threshold, with its score.
proof fn lemma_local_hits_shape(cs: Seq<MatchItemView>, query: Seq<char>)
    ensures
        forall|h: int|
            0 <= h < local_hits(cs, query).len() ==> exists|k: int|
                0 <= k < cs.len() && #[trigger] local_hits(cs, query)[h] == with_confidence(
                    cs[k],
                    best_score(cs[k], query),
                ) && above_threshold(local_hits(cs, query)[h].confidence),
    decreases cs.len(),
{
    if cs.len() > 0 {
        let t = cs.drop_last();
        lemma_local_hits_shape(t, query);
        let hs = local_hits(cs, query);
        let rest = local_hits(t, query);
        assert forall|h: int| 0 <= h < hs.len() implies exists|k: int|
            0 <= k < cs.len() && #[trigger] hs[h] == with_confidence(cs[k], best_score(cs[k], query))
                && above_threshold(hs[h].confidence) by {
            if h < rest.len() {
                assert(hs[h] == rest[h]);
                let k = choose|k: int| 0 <= k < t.len() && #[trigger] rest[h] == with_confidence(t[k], best_score(t[k], query)) && above_threshold(rest[h].confidence);
                assert(cs[k] == t[k]);
            } else {
                assert(hs[h] == with_confidence(cs.last(), best_score(cs.last(), query)));
                assert(cs[cs.len() - 1] == cs.last());
            }
        }
    }
}

/// A candidate scoring above the threshold is among the local hits, with
/// its score.
proof fn lemma_local_hits_keep(cs: Seq<MatchItemView>, query: Seq<char>, k: int)
    requires
        0 <= k < cs.len(),
        above_threshold(best_score(cs[k], query)),
    ensures
        local_hits(cs, query).contains(with_confidence(cs[k], best_score(cs[k], query))),
    decreases cs.len(),
{
    let t = cs.drop_last();
    let x = with_confidence(cs[k], best_score(cs[k], query));
    if k == cs.len() - 1 {
        let hs = local_hits(cs, query);
        assert(hs[hs.len() - 1] == x);
    } else {
        assert(t[k] == cs[k]);
        lemma_local_hits_keep(t, query, k);
        let rest = local_hits(t, query);
        let h = choose|h: int| 0 <= h < rest.len() && rest[h] == x;
        assert(local_hits(cs, query)[h] == x);
    }
}

/// The fuzzy score of two texts whose normalized lengths fit in 64 bits is a
/// well-formed fraction.
pub proof fn lemma_fuzzy_score_wf(a: Seq<char>, b: Seq<char>)
    requires
        normalized(a).len() <= u64::MAX,
        normalized(b).len() <= u64::MAX,
    ensures
        spec_fuzzy_score(a, b).wf(),
{
    lemma_levenshtein_at_most_longer(normalized(a), normalized(b));
}

/// A local search scores each candidate by the better of its title's and
/// its author's fuzzy score against the query: that score is at least each
/// of the two and is one of them. Every candidate whose title or author
/// alone scores above 3/4 is in the result, with that better score as its
/// confidence, which is itself above 3/4.
pub proof fn lemma_search_local_scores_title_and_author(
    cs: Seq<MatchItemView>,
    query: Seq<char>,
    k: int,
)
    requires
        0 <= k < cs.len(),
        normalized(cs[k].title).len() <= u64::MAX,
        normalized(cs[k].author).len() <= u64::MAX,
        normalized(query).len() <= u64::MAX,
    ensures
        ({
            let t = spec_fuzzy_score(cs[k].title, query);
            let a = spec_fuzzy_score(cs[k].author, query);
            let b = best_score(cs[k], query);
            &&& (t.num as int) * (b.den as int) <= (b.num as int) * (t.den as int)
            &&& (a.num as int) * (b.den as int) <= (b.num as int) * (a.den as int)
            &&& b == t || b == a
            &&& (above_threshold(t) || above_threshold(a)) ==> {
                &&& above_threshold(b)
                &&& spec_search_local(cs, query).contains(with_confidence(cs[k], b))
            }
        }),
{
    let t = spec_fuzzy_score(cs[k].title, query);
    let a = spec_fuzzy_score(cs[k].author, query);
    let b = best_score(cs[k], query);
    lemma_fuzzy_score_wf(cs[k].title, query);
    lemma_fuzzy_score_wf(cs[k].author, query);
    let (tn, td, an, ad) = (t.num as int, t.den as int, a.num as int, a.den as int);
    if !(tn * ad < an * td) {
        assert(b == t);
        if above_threshold(a) {
            assert(tn * 4 > td * 3) by (nonlinear_arith)
                requires
                    an * 4 > ad * 3,
                    an * td <= tn * ad,
                    td > 0,
                    ad > 0,
            ;
        }
    } else {
        assert(b == a);
        if above_threshold(t) {
            assert(an * 4 > ad * 3) by (nonlinear_arith)
                requires
                    tn * 4 > td * 3,
                    tn * ad < an * td,
                    td > 0,
                    ad > 0,
            ;
        }
    }
    if above_threshold(t) || above_threshold(a) {
        lemma_local_hits_keep(cs, query, k);
        let hs = local_hits(cs, query);
        let x = with_confidence(cs[k], b);
        ranking::lemma_rank_is_permutation(hs);
        vstd::seq_lib::to_multiset_contains(hs, x);
        vstd::seq_lib::to_multiset_contains(ranking::rank(hs), x);
    }
}

// ---------------------------------------------------------------------------
// Online providers
// ---------------------------------------------------------------------------

/// The book the `openlibrary` provider knows of.
pub open spec fn openlibrary_book() -> MatchItemView {
    MatchItemView {
        title: "Saf Akl\u{131}n Ele\u{15f}tirisi"@,
        author: "Immanuel Kant"@,
        year: Some(1781u16),
        format: Some("pdf"@),
        source: "openlibrary"@,
        url: Some("https://example.org/kant.pdf"@),
        isbn: Some("978-..."@),
        confidence: Confidence { num: 88, den: 100 },
    }
}

/// The book the `archive` provider knows of.
pub open spec fn archive_book() -> MatchItemView {
    MatchItemView {
        title: "Tinin Fenomenolojisi"@,
        author: "G. W. F. Hegel"@,
        year: Some(1807u16),
        format: Some("pdf"@),
        source: "archive"@,
        url: Some("https://example.org/hegel.pdf"@),
        isbn: None,
        confidence: Confidence { num: 83, den: 100 },
    }
}

/// What the `openlibrary` provider answers: its book when the lowercased
/// query contains `ele\u{15f}tirisi`, nothing otherwise.
pub open spec fn spec_openlibrary(query: Seq<char>) -> Seq<MatchItemView> {
    if text::spec_contains(text::spec_to_lowercase(query), "ele\u{15f}tirisi"@) {
        seq![openlibrary_book()]
    } else {
        Seq::empty()
    }
}

/// What the `archive` provider answers: its book when the lowercased query
/// contains `hegel`, nothing otherwise.
pub open spec fn spec_internet_archive(query: Seq<char>) -> Seq<MatchItemView> {
    if text::spec_contains(text::spec_to_lowercase(query), "hegel"@) {
        seq![archive_book()]
    } else {
        Seq::empty()
    }
}

/// Whether the lowercase of `query` contains `word`.
fn lowercase_contains(query: &str, word: &str) -> (r: bool)
    ensures
        r == text::spec_contains(text::spec_to_lowercase(query@), word@),
{
    let lower = text::to_lowercase(query);
    text::contains(&text::chars_of(lower.as_str()), &text::chars_of(word))
}

/// Asks the Open Library provider (a fixed stand-in for now).
pub fn search_openlibrary(query: &str) -> (r: Vec<MatchItem>)
    ensures
        match_views(r@) == spec_openlibrary(query@),
{
    let mut out: Vec<MatchItem> = Vec::new();
    if lowercase_contains(query, "ele\u{15f}tirisi") {
        out.push(
            MatchItem {
                title: String::from_str("Saf Akl\u{131}n Ele\u{15f}tirisi"),
                author: String::from_str("Immanuel Kant"),
                year: Some(1781),
                format: Some(String::from_str("pdf")),
                source: String::from_str("openlibrary"),
                url: Some(String::from_str("https://example.org/kant.pdf")),
                isbn: Some(String::from_str("978-...")),
                confidence: Confidence::new(88, 100),
            },
        );
        assert(match_views(out@) =~= seq![openlibrary_book()]);
    } else {
        assert(match_views(out@) =~= Seq::<MatchItemView>::empty());
    }
    out
}

/// Asks the Google Books provider, which answers nothing yet.
pub fn search_googlebooks(query: &str) -> (r: Vec<MatchItem>)
    ensures
        r@.len() == 0,
{
    let _ = query;
    Vec::new()
}

/// Asks the Internet Archive provider (a fixed stand-in for now).
pub fn search_internet_archive(query: &str) -> (r: Vec<MatchItem>)
    ensures
        match_views(r@) == spec_internet_archive(query@),
{
    let mut out: Vec<MatchItem> = Vec::new();
    if lowercase_contains(query, "hegel") {
        out.push(
            MatchItem {
                title: String::from_str("Tinin Fenomenolojisi"),
                author: String::from_str("G. W. F. Hegel"),
                year: Some(1807),
                format: Some(String::from_str("pdf")),
                source: String::from_str("archive"),
                url: Some(String::from_str("https://example.org/hegel.pdf")),
                isbn: None,
                confidence: Confidence::new(83, 100),
            },
        );
        assert(match_views(out@) =~= seq![archive_book()]);
    } else {
        assert(match_views(out@) =~= Seq::<MatchItemView>::empty());
    }
    out
}

/// The `archive` provider answers with its one book exactly when `hegel`
/// occurs somewhere in the lowercased query, at any position, and with
/// nothing otherwise.
pub proof fn lemma_archive_answers_hegel_anywhere(query: Seq<char>, before: Seq<char>, after: Seq<char>)
    ensures
        ({
            let lower = text::spec_to_lowercase(query);
            &&& spec_internet_archive(query) == seq![archive_book()] || spec_internet_archive(query)
                == Seq::<MatchItemView>::empty()
            &&& (spec_internet_archive(query).len() > 0) == (exists|i: int|
                0 <= i && i + 5 <= lower.len() && #[trigger] lower.subrange(i, i + 5) == "hegel"@)
            &&& lower == before + "hegel"@ + after ==> spec_internet_archive(query) == seq![archive_book()]
        }),
{
    let lower = text::spec_to_lowercase(query);
    reveal_strlit("hegel");
    if lower == before + "hegel"@ + after {
        let i = before.len() as int;
        assert(lower.subrange(i, i + 5) =~= "hegel"@);
        assert(text::occurs_at(lower, "hegel"@, i));
    }
    if exists|i: int| 0 <= i && i + 5 <= lower.len() && #[trigger] lower.subrange(i, i + 5) == "hegel"@ {
        let i = choose|i: int| 0 <= i && i + 5 <= lower.len() && #[trigger] lower.subrange(i, i + 5) == "hegel"@;
        assert(text::occurs_at(lower, "hegel"@, i));
    }
    if text::spec_contains(lower, "hegel"@) {
        let i = choose|i: int| text::occurs_at(lower, "hegel"@, i);
        assert(lower.subrange(i, i + 5) == "hegel"@);
    }
}

/// The `openlibrary` provider answers with its one book exactly when
/// `ele\u{15f}tirisi` occurs somewhere in the lowercased query, and with
/// nothing otherwise.
pub proof fn lemma_openlibrary_answers_word_anywhere(query: Seq<char>, before: Seq<char>, after: Seq<char>)
    ensures
        ({
            let lower = text::spec_to_lowercase(query);
            let w = "ele\u{15f}tirisi"@;
            &&& spec_openlibrary(query) == seq![openlibrary_book()] || spec_openlibrary(query)
                == Seq::<MatchItemView>::empty()
            &&& (spec_openlibrary(query).len() > 0) == (exists|i: int|
                0 <= i && i + w.len() <= lower.len() && #[trigger] lower.subrange(i, i + w.len()) == w)
            &&& lower == before + w + after ==> spec_openlibrary(query) == seq![openlibrary_book()]
        }),
{
    let lower = text::spec_to_lowercase(query);
    let w = "ele\u{15f}tirisi"@;
    if lower == before + w + after {
        let i = before.len() as int;
        assert(lower.subrange(i, i + w.len()) =~= w);
        assert(text::occurs_at(lower, w, i));
    }
    if exists|i: int| 0 <= i && i + w.len() <= lower.len() && #[trigger] lower.subrange(i, i + w.len()) == w {
        let i = choose|i: int| 0 <= i && i + w.len() <= lower.len() && #[trigger] lower.subrange(i, i + w.len()) == w;
        assert(text::occurs_at(lower, w, i));
    }
}

/// What the provider named `name` answers; unknown providers (and
/// `googlebooks`) answer nothing.
pub open spec fn provider_answer(name: Seq<char>, query: Seq<char>) -> Seq<MatchItemView> {
    if name == "openlibrary"@ {
        spec_openlibrary(query)
    } else if name == "archive"@ {
        spec_internet_archive(query)
    } else {
        Seq::empty()
    }
}

/// The answers of the providers, in the order the providers are named.
pub open spec fn gathered(names: Seq<Seq<char>>, query: Seq<char>) -> Seq<MatchItemView>
    decreases names.len(),
{
    if names.len() == 0 {
        Seq::empty()
    } else {
        gathered(names.drop_last(), query) + provider_answer(names.last(), query)
    }
}

/// Asks each named provider in turn and returns all their candidates, best
/// first.
pub fn search_providers(query: &str, providers: &Vec<String>) -> (r: Vec<MatchItem>)
    ensures
        match_views(r@) == ranking::rank(gathered(string_views(providers@), query@)),
        match_views(r@).to_multiset() == gathered(string_views(providers@), query@).to_multiset(),
        ranking::is_ranked(match_views(r@)),
{
    let n = providers.len();
    let ghost pv = string_views(providers@);
    let mut all: Vec<MatchItem> = Vec::new();
    let openlibrary = String::from_str("openlibrary");
    let googlebooks = String::from_str("googlebooks");
    let archive = String::from_str("archive");
    for i in 0..n
        invariant
            n == providers@.len(),
            pv == string_views(providers@),
            openlibrary@ == "openlibrary"@,
            googlebooks@ == "googlebooks"@,
            archive@ == "archive"@,
            match_views(all@) == gathered(pv.take(i as int), query@),
    {
        let p = &providers[i];
        let mut res = if *p == openlibrary {
            search_openlibrary(query)
        } else if *p == googlebooks {
            search_googlebooks(query)
        } else if *p == archive {
            search_internet_archive(query)
        } else {
            Vec::new()
        };
        proof {
            assert(pv[i as int] == p@);
            assert(pv.take(i + 1).drop_last() == pv.take(i as int));
            assert(pv.take(i + 1).last() == p@);
            reveal_strlit("openlibrary");
            reveal_strlit("googlebooks");
            reveal_strlit("archive");
            if p@ == "googlebooks"@ {
                assert(p@ != "openlibrary"@) by {
                    assert("googlebooks"@[0] != "openlibrary"@[0]);
                }
                assert(p@ != "archive"@) by {
                    assert(p@.len() != "archive"@.len());
                }
                assert(match_views(res@) =~= Seq::<MatchItemView>::empty());
            }
            if !(p@ == "openlibrary"@) && !(p@ == "googlebooks"@) && !(p@ == "archive"@) {
                assert(match_views(res@) =~= Seq::<MatchItemView>::empty());
            }
        }
        let ghost before = match_views(all@);
        let ghost added = match_views(res@);
        all.append(&mut res);
        assert(match_views(all@) =~= before + added);
    }
    assert(pv.take(n as int) == pv);
    proof {
        lemma_gathered_wf(pv, query@);
    }
    ranking::sort_by_confidence(&all)
}

proof fn lemma_gathered_wf(names: Seq<Seq<char>>, query: Seq<char>)
    ensures
        ranking::all_wf(gathered(names, query)),
    decreases names.len(),
{
    if names.len() > 0 {
        lemma_gathered_wf(names.drop_last(), query);
        let a = gathered(names.drop_last(), query);
        let b = provider_answer(names.last(), query);
        let g = gathered(names, query);
        assert forall|k: int| 0 <= k < g.len() implies (#[trigger] g[k]).confidence.wf() by {
            if k < a.len() {
                assert(g[k] == a[k]);
            } else {
                assert(g[k] == b[k - a.len()]);
            }
        }
    }
}

/// A provider name that answers something: `openlibrary` or `archive`.
pub open spec fn is_answering_provider(name: Seq<char>) -> bool {
    name == "openlibrary"@ || name == "archive"@
}

/// The names among `names` that answer something, in order.
pub open spec fn answering_providers(names: Seq<Seq<char>>) -> Seq<Seq<char>>
    decreases names.len(),
{
    if names.len() == 0 {
        Seq::empty()
    } else if is_answering_provider(names.last()) {
        answering_providers(names.drop_last()).push(names.last())
    } else {
        answering_providers(names.drop_last())
    }
}

proof fn lemma_gathered_answering(names: Seq<Seq<char>>, query: Seq<char>)
    ensures
        gathered(names, query) == gathered(answering_providers(names), query),
    decreases names.len(),
{
    if names.len() > 0 {
        let t = names.drop_last();
        lemma_gathered_answering(t, query);
        if is_answering_provider(names.last()) {
            let a = answering_providers(t).push(names.last());
            assert(a.drop_last() =~= answering_providers(t));
            assert(a.last() == names.last());
        } else {
            assert(provider_answer(names.last(), query) =~= Seq::<MatchItemView>::empty());
            assert(gathered(names, query) =~= gathered(t, query));
        }
    }
}

/// Names that answer nothing do not matter: two provider lists that name
/// the same answering providers in the same order (one may have other
/// names added or left out anywhere) give the same search result; with no
/// providers, nothing is found.
pub proof fn lemma_other_providers_do_not_matter(
    names1: Seq<Seq<char>>,
    names2: Seq<Seq<char>>,
    query: Seq<char>,
)
    requires
        answering_providers(names1) == answering_providers(names2),
    ensures
        ranking::rank(gathered(names1, query)) == ranking::rank(gathered(names2, query)),
        ranking::rank(gathered(Seq::empty(), query)) == Seq::<MatchItemView>::empty(),
{
    lemma_gathered_answering(names1, query);
    lemma_gathered_answering(names2, query);
    assert(ranking::rank(Seq::<MatchItemView>::empty()) == Seq::<MatchItemView>::empty());
}

// ---------------------------------------------------------------------------
// Deciding what a search does next
// ---------------------------------------------------------------------------

/// What happens once the local search is done.
#[derive(Debug, PartialEq, Eq, Clone, Copy)]
pub enum LocalOutcome {
    /// Local matches were found: show them and stop.
    ShowLocal,
    /// Nothing was found and online search is off: say so and stop.
    NotFoundOffline,
    /// Nothing was found: ask the online providers.
    SearchOnline,
}

/// The step after the local search, from whether it found anything and
/// whether online search is allowed.
pub fn after_local_search(local_found: bool, internet_enabled: bool) -> (r: LocalOutcome)
    ensures
        local_found ==> r == LocalOutcome::ShowLocal,
        !local_found && !internet_enabled ==> r == LocalOutcome::NotFoundOffline,
        !local_found && internet_enabled ==> r == LocalOutcome::SearchOnline,
{
    if local_found {
        LocalOutcome::ShowLocal
    } else if !internet_enabled {
        LocalOutcome::NotFoundOffline
    } else {
        LocalOutcome::SearchOnline
    }
}

/// The choice among online candidates.
#[derive(Debug, PartialEq)]
pub enum Choice {
    /// The providers found nothing.
    NoCandidates,
    /// This candidate is to be packaged.
    Chosen(MatchItem),
    /// The given index chose nothing.
    NoneChosen,
    /// No index was given: the user is to be asked.
    AskUser,
}

/// Chooses among the online candidates by the index given, if any.
pub fn choose_candidate(candidates: &Vec<MatchItem>, select: Option<usize>) -> (r: Choice)
    ensures
        candidates@.len() == 0 ==> r is NoCandidates,
        candidates@.len() > 0 ==> match select {
            None => r is AskUser,
            Some(i) => if i < candidates@.len() {
                r matches Choice::Chosen(m) && m@ == candidates@[i as int]@
            } else {
                r is NoneChosen
            },
        },
{
    if candidates.len() == 0 {
        return Choice::NoCandidates;
    }
    match select {
        None => Choice::AskUser,
        Some(i) => {
            if i < candidates.len() {
                Choice::Chosen(candidates[i].clone())
            } else {
                Choice::NoneChosen
            }
        },
    }
}

// ---------------------------------------------------------------------------
// Reading the user's choice
// ---------------------------------------------------------------------------

/// An ASCII decimal digit.
pub open spec fn is_digit(c: char) -> bool {
    '0' <= c && c <= '9'
}

/// The number written by the decimal digits `s`.
pub open spec fn digits_value(s: Seq<char>) -> nat
    decreases s.len(),
{
    if s.len() == 0 {
        0
    } else {
        digits_value(s.drop_last()) * 10 + ((s.last() as nat) - 48) as nat
    }
}

/// `s` without a leading `+`, when something follows it.
pub open spec fn unsigned_digits(s: Seq<char>) -> Seq<char> {
    if s.len() > 1 && s[0] == '+' {
        s.drop_first()
    } else {
        s
    }
}

/// Every character of `s` is a decimal digit.
pub open spec fn all_digits(s: Seq<char>) -> bool {
    forall|k: int| 0 <= k < s.len() ==> is_digit(#[trigger] s[k])
}

/// What `str::parse::<usize>` gives for `s`: an optional leading `+`
/// followed by at least one decimal digit and nothing else, with a value
/// that fits in `usize`.
pub open spec fn spec_parse_usize(s: Seq<char>) -> Option<nat> {
    let d = unsigned_digits(s);
    if d.len() == 0 || !all_digits(d) {
        None
    } else if digits_value(d) > usize::MAX {
        None
    } else {
        Some(digits_value(d))
    }
}

proof fn lemma_digits_value_grows(s: Seq<char>, i: int)
    requires
        0 <= i <= s.len(),
        forall|k: int| 0 <= k < s.len() ==> is_digit(#[trigger] s[k]),
    ensures
        digits_value(s) >= digits_value(s.take(i)),
    decreases s.len() - i,
{
    if i < s.len() {
        lemma_digits_value_grows(s, i + 1);
        let t = s.take(i + 1);
        assert(t.drop_last() == s.take(i));
        assert(t.last() == s[i]);
        assert(is_digit(s[i]));
    } else {
        assert(s.take(i) == s);
    }
}

/// Reads a number as `str::parse::<usize>` does.
pub fn parse_usize(s: &Vec<char>) -> (r: Option<usize>)
    ensures
        match r {
            Some(v) => spec_parse_usize(s@) == Some(v as nat),
            None => spec_parse_usize(s@) is None,
        },
{
    let n = s.len();
    let start: usize = if n > 1 && s[0] == '+' { 1 } else { 0 };
    let ghost d = unsigned_digits(s@);
    assert(d == s@.subrange(start as int, n as int));
    if start == n {
        return None;
    }
    let mut i = start;
    while i < n
        invariant
            n == s@.len(),
            start <= i <= n,
            start < n,
            d == s@.subrange(start as int, n as int),
            d == unsigned_digits(s@),
            forall|k: int| start <= k < i ==> is_digit(#[trigger] s@[k]),
        ensures
            start <= i <= n,
            forall|k: int| start <= k < i ==> is_digit(#[trigger] s@[k]),
            i == n || !is_digit(s@[i as int]),
        decreases n - i,
    {
        if !('0' <= s[i] && s[i] <= '9') {
            break;
        }
        i = i + 1;
    }
    if i < n {
        assert(!is_digit(d[i - start]));
        assert(!all_digits(d));
        return None;
    }
    assert forall|k: int| 0 <= k < d.len() implies is_digit(#[trigger] d[k]) by {
        assert(d[k] == s@[k + start]);
    }
    let mut acc: usize = 0;
    let mut j = start;
    while j < n
        invariant
            n == s@.len(),
            start <= j <= n,
            d == s@.subrange(start as int, n as int),
            d == unsigned_digits(s@),
            forall|k: int| 0 <= k < d.len() ==> is_digit(#[trigger] d[k]),
            acc as nat == digits_value(d.take(j - start)),
        decreases n - j,
    {
        let c = s[j];
        assert(c == d[j - start]);
        assert(is_digit(c));
        let dv = (c as u32 - 48) as usize;
        let ghost t = d.take(j - start + 1);
        proof {
            assert(t.drop_last() == d.take(j - start));
            assert(t.last() == c);
            assert(dv as nat == (c as nat) - 48);
            assert(digits_value(t) == digits_value(d.take(j - start)) * 10 + dv);
            lemma_digits_value_grows(d, j - start + 1);
            assert(all_digits(d));
        }
        match acc.checked_mul(10) {
            None => {
                assert(digits_value(d) > usize::MAX);
                return None;
            },
            Some(a) => {
                match a.checked_add(dv) {
                    None => {
                        assert(digits_value(d) > usize::MAX);
                        return None;
                    },
                    Some(b) => {
                        acc = b;
                    },
                }
            },
        }
        j = j + 1;
    }
    assert(d.take(d.len() as int) == d);
    Some(acc)
}

/// The candidate the user's answer `input` selects: its trimmed text read as
/// an index into `matches`; nothing when it is empty, not a number, or out
/// of range.
pub fn select_from_input(matches: &Vec<MatchItem>, input: &str) -> (r: Option<MatchItem>)
    ensures
        match spec_parse_usize(text::spec_trim(input@)) {
            Some(i) => if i < matches@.len() {
                r matches Some(m) && m@ == matches@[i as int]@
            } else {
                r is None
            },
            None => r is None,
        },
{
    let t = text::trim(input);
    let cs = text::chars_of(t.as_str());
    if cs.len() == 0 {
        return None;
    }
    match parse_usize(&cs) {
        None => None,
        Some(i) => {
            if i < matches.len() {
                Some(matches[i].clone())
            } else {
                None
            }
        },
    }
}

} // verus!
