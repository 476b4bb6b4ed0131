//! Names derived from a book's metadata: slugs, package identifiers, and
//! the author/title guessed from a file name.

use vstd::prelude::*;
use crate::text;

verus! {

// ---------------------------------------------------------------------------
// Slugs
// ---------------------------------------------------------------------------

/// The characters that a slug replaces by `'-'` whatever else they are.
pub open spec fn is_separator(c: char) -> bool {
    c == '/' || c == '\\' || c == ':' || c == ';' || c == ',' || c == '.' || c == '"'
        || c == '\''
}

/// How one (already lowercased) character appears in a slug: a space
/// becomes `'_'`, separators and anything not alphanumeric become `'-'`,
/// the rest stays.
pub open spec fn slug_char(c: char) -> char {
    if c == ' ' {
        '_'
    } else if is_separator(c) {
        '-'
    } else if text::spec_is_alphanumeric(c) || c == '_' || c == '-' {
        c
    } else {
        '-'
    }
}

/// The slug of `s`: trimmed, lowercased, each character mapped by
/// `slug_char`, and leading and trailing `'-'` removed.
pub open spec fn spec_slugify(s: Seq<char>) -> Seq<char> {
    text::strip(text::spec_to_lowercase(text::spec_trim(s)).map_values(|c: char| slug_char(c)), true)
}

fn slug_char_exec(c: char) -> (r: char)
    ensures
        r == slug_char(c),
{
    if c == ' ' {
        '_'
    } else if c == '/' || c == '\\' || c == ':' || c == ';' || c == ',' || c == '.' || c == '"'
        || c == '\'' {
        '-'
    } else if text::is_alphanumeric(c) || c == '_' || c == '-' {
        c
    } else {
        '-'
    }
}

/// The slug of `s`, as used in package identifiers and file names.
pub fn slugify(s: &str) -> (r: String)
    ensures
        r@ == spec_slugify(s@),
{
    let trimmed = text::trim(s);
    let lower = text::to_lowercase(trimmed.as_str());
    let cs = text::chars_of(lower.as_str());
    let n = cs.len();
    let mut mapped: Vec<char> = Vec::new();
    for i in 0..n
        invariant
            n == cs@.len(),
            mapped@ == cs@.take(i as int).map_values(|c: char| slug_char(c)),
    {
        mapped.push(slug_char_exec(cs[i]));
        assert(cs@.take(i + 1).map_values(|c: char| slug_char(c)) == cs@.take(i as int).map_values(
            |c: char| slug_char(c),
        ).push(slug_char(cs@[i as int])));
    }
    assert(cs@.take(n as int) == cs@);
    let stripped = text::strip_chars(&mapped, true);
    text::string_of(&stripped)
}

/// A word character (alphanumeric, or `'_'`) that is none of the characters
/// a slug replaces (space, `/`, `\\`, `:`, `;`, `,`, `.`, `"`, `'`) is
/// kept as it is in a slug; digits and letters alike.
pub proof fn lemma_slug_keeps_word_chars(c: char)
    requires
        text::spec_is_alphanumeric(c) || c == '_',
        c != ' ' && c != '/' && c != '\\' && c != ':' && c != ';' && c != ',' && c != '.' && c
            != '"' && c != '\'',
    ensures
        slug_char(c) == c,
{
}

/// A text whose trimmed lowercase is made of word characters only (none of
/// the replaced characters, and not beginning or ending with `'-'`) is its
/// own slug: slugging keeps every letter and digit, in place.
pub proof fn lemma_slugify_keeps_words(s: Seq<char>)
    requires
        ({
            let t = text::spec_to_lowercase(text::spec_trim(s));
            &&& forall|i: int|
                0 <= i < t.len() ==> {
                    let c = #[trigger] t[i];
                    &&& text::spec_is_alphanumeric(c) || c == '_' || c == '-'
                    &&& c != ' ' && c != '/' && c != '\\' && c != ':' && c != ';' && c != ','
                        && c != '.' && c != '"' && c != '\''
                }
            &&& t.len() > 0 ==> t[0] != '-' && t.last() != '-'
        }),
    ensures
        spec_slugify(s) == text::spec_to_lowercase(text::spec_trim(s)),
{
    let t = text::spec_to_lowercase(text::spec_trim(s));
    let m = t.map_values(|c: char| slug_char(c));
    assert(m =~= t) by {
        assert forall|i: int| 0 <= i < t.len() implies m[i] == t[i] by {
            let c = t[i];
            assert(slug_char(c) == c);
        }
    }
    assert(text::strip_start(t, true) == t);
    if t.len() > 0 {
        assert(text::strip_end(t, true) == t);
    } else {
        assert(text::strip_end(t, true) == t);
    }
}

/// A slug is safe as one path component: each of its characters is
/// alphanumeric, `'_'` or `'-'`; it holds no space and no separator (so no
/// `'/'` and no `'.'`); and it neither begins nor ends with `'-'`.
pub proof fn lemma_slug_is_path_safe(s: Seq<char>)
    ensures
        forall|i: int|
            0 <= i < spec_slugify(s).len() ==> {
                let c = #[trigger] spec_slugify(s)[i];
                &&& text::spec_is_alphanumeric(c) || c == '_' || c == '-'
                &&& c != ' '
                &&& !is_separator(c)
            },
        spec_slugify(s).len() > 0 ==> spec_slugify(s)[0] != '-',
        spec_slugify(s).len() > 0 ==> spec_slugify(s).last() != '-',
{
    let m = text::spec_to_lowercase(text::spec_trim(s)).map_values(|c: char| slug_char(c));
    text::lemma_strip_shape(m, true);
    let (a, b) = choose|a: int, b: int| 0 <= a <= b <= m.len() && text::strip(m, true) == #[trigger] m.subrange(a, b);
    assert forall|i: int| 0 <= i < spec_slugify(s).len() implies {
        let c = #[trigger] spec_slugify(s)[i];
        &&& text::spec_is_alphanumeric(c) || c == '_' || c == '-'
        &&& c != ' '
        &&& !is_separator(c)
    } by {
        assert(spec_slugify(s)[i] == m[a + i]);
    }
}

/// Slugging a slug again gives the same slug, provided the standard
/// library's lowercase leaves the slug as it is and neither of its ends is
/// whitespace (the Unicode facts that `slugify` goes through are named, not
/// stated, so they are taken here as the premise).
pub proof fn lemma_slugify_idempotent(s: Seq<char>)
    requires
        text::spec_to_lowercase(spec_slugify(s)) == spec_slugify(s),
        spec_slugify(s).len() > 0 ==> !text::spec_is_whitespace(spec_slugify(s)[0])
            && !text::spec_is_whitespace(spec_slugify(s).last()),
    ensures
        spec_slugify(spec_slugify(s)) == spec_slugify(s),
{
    let g = spec_slugify(s);
    lemma_slug_is_path_safe(s);
    assert(text::strip_start(g, false) == g);
    assert(text::strip_end(g, false) == g);
    assert(text::spec_trim(g) == g);
    let m = g.map_values(|c: char| slug_char(c));
    assert forall|i: int| 0 <= i < g.len() implies m[i] == g[i] by {
        let c = g[i];
        assert(spec_slugify(s)[i] == c);
        assert(slug_char(c) == c);
    }
    assert(m =~= g);
    assert(text::strip_start(g, true) == g);
    assert(text::strip_end(g, true) == g);
}

// ---------------------------------------------------------------------------
// Package identifiers
// ---------------------------------------------------------------------------

/// The year part of identifiers and file names: the year in decimal, or
/// `unknown`.
pub open spec fn year_text(year: Option<u16>) -> Seq<char> {
    match year {
        Some(y) => text::spec_decimal(y as nat),
        None => "unknown"@,
    }
}

/// The identifier of a package: `<namespace>:<author slug>-<title slug>-<year>`.
pub open spec fn spec_package_id(
    namespace: Seq<char>,
    author: Seq<char>,
    title: Seq<char>,
    year: Option<u16>,
) -> Seq<char> {
    namespace + ":"@ + spec_slugify(author) + "-"@ + spec_slugify(title) + "-"@ + year_text(year)
}

/// The year part as a string.
pub fn year_string(year: Option<u16>) -> (r: String)
    ensures
        r@ == year_text(year),
{
    match year {
        Some(y) => text::string_of(&text::decimal(y as u64)),
        None => String::from_str("unknown"),
    }
}

/// The identifier of the package of `title` by `author` (of `year`, if
/// known) in `namespace`.
pub fn make_package_id_with_ns(namespace: &str, author: &str, title: &str, year: Option<u16>) -> (r:
    String)
    ensures
        r@ == spec_package_id(namespace@, author@, title@, year),
{
    let mut r = String::from_str(namespace);
    r.append(":");
    r.append(slugify(author).as_str());
    r.append("-");
    r.append(slugify(title).as_str());
    r.append("-");
    r.append(year_string(year).as_str());
    r
}

// ---------------------------------------------------------------------------
// Guessing author and title from a file name
// ---------------------------------------------------------------------------

/// The part of `s` before its first `'-'` (all of `s` if there is none).
pub open spec fn before_dash(s: Seq<char>) -> Seq<char> {
    s.subrange(0, text::index_of_char(s, '-') as int)
}

/// The part of `s` after its first `'-'` (empty if there is none).
pub open spec fn after_dash(s: Seq<char>) -> Seq<char> {
    if text::index_of_char(s, '-') < s.len() {
        s.subrange(text::index_of_char(s, '-') as int + 1, s.len() as int)
    } else {
        Seq::empty()
    }
}

/// The `(author, title)` guessed from a file name of the shape
/// `Author - Title`: the first two `'-'`-separated parts, trimmed; when the
/// name holds no `'-'`, the author is `unknown` and the title is the whole name.
pub open spec fn spec_infer_from_filename(name: Seq<char>) -> (Seq<char>, Seq<char>) {
    if text::index_of_char(name, '-') < name.len() {
        (text::spec_trim(before_dash(name)), text::spec_trim(before_dash(after_dash(name))))
    } else {
        ("unknown"@, name)
    }
}

/// Guesses `(author, title)` from a file name of the shape `Author - Title`.
pub fn infer_from_filename(name: &str) -> (r: (String, String))
    ensures
        (r.0@, r.1@) == spec_infer_from_filename(name@),
{
    let v = text::chars_of(name);
    let n = v.len();
    let d = text::find_char(&v, 0, '-');
    assert(v@.subrange(0, n as int) == v@);
    if d < n {
        let e = text::find_char(&v, d + 1, '-');
        let author = text::strip_chars(&text::copy_range(&v, 0, d), false);
        let title = text::strip_chars(&text::copy_range(&v, d + 1, e), false);
        proof {
            let rest = v@.subrange(d + 1, n as int);
            assert(after_dash(v@) == rest);
            assert(before_dash(rest) == v@.subrange(d + 1, e as int));
        }
        (text::string_of(&author), text::string_of(&title))
    } else {
        (String::from_str("unknown"), String::from_str(name))
    }
}

} // verus!
