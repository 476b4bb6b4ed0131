//! The records of the registry: search candidates, package files, their
//! download sources, and the entries of the package index.

use vstd::prelude::*;

verus! {

/// A confidence or quality between 0 and 1, kept exactly as the fraction
/// `num / den`.
#[derive(Clone, Copy, Debug, PartialEq, Eq)]
pub struct Confidence {
    pub num: u64,
    pub den: u64,
}

impl Confidence {
    /// A well-formed confidence: a positive denominator and a value of at most 1.
    pub open spec fn wf(self) -> bool {
        self.den > 0 && self.num <= self.den
    }

    /// `self` is strictly less than `other`, compared as fractions.
    pub open spec fn spec_lt(self, other: Confidence) -> bool {
        self.num * other.den < other.num * self.den
    }

    /// `self` is at most `other`, compared as fractions.
    pub open spec fn spec_le(self, other: Confidence) -> bool {
        self.num * other.den <= other.num * self.den
    }

    /// The confidence `num / den`.
    pub fn new(num: u64, den: u64) -> (c: Confidence)
        requires
            0 < den,
            num <= den,
        ensures
            c.num == num,
            c.den == den,
            c.wf(),
    {
        Confidence { num, den }
    }

    /// Full confidence, 1.
    pub fn one() -> (c: Confidence)
        ensures
            c.num == 1,
            c.den == 1,
            c.wf(),
    {
        Confidence { num: 1, den: 1 }
    }

    /// Whether `self < other` as fractions.
    pub fn lt(&self, other: &Confidence) -> (r: bool)
        ensures
            r == self.spec_lt(*other),
    {
        proof {
            lemma_mul_u64_bound(self.num, other.den);
            lemma_mul_u64_bound(other.num, self.den);
        }
        (self.num as u128) * (other.den as u128) < (other.num as u128) * (self.den as u128)
    }
}

proof fn lemma_mul_u64_bound(a: u64, b: u64)
    ensures
        (a as int) * (b as int) <= u128::MAX,
{
    assert((a as int) * (b as int) <= (u64::MAX as int) * (u64::MAX as int)) by (nonlinear_arith)
        requires
            a <= u64::MAX,
            b <= u64::MAX,
            0 <= a,
            0 <= b,
    ;
}

/// A candidate found by a search: locally, or by an online provider.
#[derive(Debug, PartialEq)]
pub struct MatchItem {
    pub title: String,
    pub author: String,
    pub year: Option<u16>,
    pub format: Option<String>,
    pub source: String,
    pub url: Option<String>,
    pub isbn: Option<String>,
    pub confidence: Confidence,
}

/// A place a package's file can be had from.
#[derive(Debug, PartialEq)]
pub struct SourceLink {
    pub name: String,
    pub url: String,
    pub mime: Option<String>,
    pub quality: Confidence,
    pub checksum_sha256: Option<String>,
    pub registry_source_id: Option<String>,
    pub registry_source_name: Option<String>,
}

/// The metadata file of one book in the registry.
#[derive(Debug, PartialEq)]
pub struct Package {
    pub id: String,
    pub title: String,
    pub author: String,
    pub year: Option<u16>,
    pub language: Option<String>,
    pub publisher: Option<String>,
    pub format: Option<String>,
    pub sources: Vec<SourceLink>,
    pub isbn: Vec<String>,
    pub tags: Vec<String>,
    pub created_at: String,
    pub updated_at: String,
}

/// One line of the registry's index: where a package's file lies.
#[derive(Debug, PartialEq)]
pub struct IndexEntry {
    pub id: String,
    pub title: String,
    pub author: String,
    pub year: Option<u16>,
    pub format: Option<String>,
    pub packages_path: String,
}

/// The characters of an optional string.
pub open spec fn opt_view(o: Option<String>) -> Option<Seq<char>> {
    match o {
        Some(s) => Some(s@),
        None => None,
    }
}

/// What a search candidate holds, as plain values.
pub struct MatchItemView {
    pub title: Seq<char>,
    pub author: Seq<char>,
    pub year: Option<u16>,
    pub format: Option<Seq<char>>,
    pub source: Seq<char>,
    pub url: Option<Seq<char>>,
    pub isbn: Option<Seq<char>>,
    pub confidence: Confidence,
}

impl View for MatchItem {
    type V = MatchItemView;

    open spec fn view(&self) -> MatchItemView {
        MatchItemView {
            title: self.title@,
            author: self.author@,
            year: self.year,
            format: opt_view(self.format),
            source: self.source@,
            url: opt_view(self.url),
            isbn: opt_view(self.isbn),
            confidence: self.confidence,
        }
    }
}

/// What a download source holds, as plain values.
pub struct SourceLinkView {
    pub name: Seq<char>,
    pub url: Seq<char>,
    pub mime: Option<Seq<char>>,
    pub quality: Confidence,
    pub checksum_sha256: Option<Seq<char>>,
    pub registry_source_id: Option<Seq<char>>,
    pub registry_source_name: Option<Seq<char>>,
}

impl View for SourceLink {
    type V = SourceLinkView;

    open spec fn view(&self) -> SourceLinkView {
        SourceLinkView {
            name: self.name@,
            url: self.url@,
            mime: opt_view(self.mime),
            quality: self.quality,
            checksum_sha256: opt_view(self.checksum_sha256),
            registry_source_id: opt_view(self.registry_source_id),
            registry_source_name: opt_view(self.registry_source_name),
        }
    }
}

/// The views of a sequence of sources.
pub open spec fn source_views(ls: Seq<SourceLink>) -> Seq<SourceLinkView> {
    ls.map_values(|l: SourceLink| l@)
}

/// The views of a sequence of candidates.
pub open spec fn match_views(ms: Seq<MatchItem>) -> Seq<MatchItemView> {
    ms.map_values(|m: MatchItem| m@)
}

/// A copy of an optional string.
pub fn clone_opt(o: &Option<String>) -> (r: Option<String>)
    ensures
        r == *o,
{
    match o {
        Some(s) => Some(s.clone()),
        None => None,
    }
}

/// The characters of each string.
pub open spec fn string_views(v: Seq<String>) -> Seq<Seq<char>> {
    v.map_values(|s: String| s@)
}

/// A copy of a vector of strings.
pub fn clone_strings(v: &Vec<String>) -> (r: Vec<String>)
    ensures
        r@ == v@,
{
    let mut r: Vec<String> = Vec::new();
    let n = v.len();
    for i in 0..n
        invariant
            n == v@.len(),
            r@ == v@.take(i as int),
    {
        r.push(v[i].clone());
        assert(v@.take(i + 1) == v@.take(i as int).push(v@[i as int]));
    }
    assert(v@.take(n as int) == v@);
    r
}

impl Clone for MatchItem {
    fn clone(&self) -> (r: Self)
        ensures
            r == *self,
    {
        MatchItem {
            title: self.title.clone(),
            author: self.author.clone(),
            year: self.year,
            format: clone_opt(&self.format),
            source: self.source.clone(),
            url: clone_opt(&self.url),
            isbn: clone_opt(&self.isbn),
            confidence: self.confidence,
        }
    }
}

impl Clone for SourceLink {
    fn clone(&self) -> (r: Self)
        ensures
            r == *self,
    {
        SourceLink {
            name: self.name.clone(),
            url: self.url.clone(),
            mime: clone_opt(&self.mime),
            quality: self.quality,
            checksum_sha256: clone_opt(&self.checksum_sha256),
            registry_source_id: clone_opt(&self.registry_source_id),
            registry_source_name: clone_opt(&self.registry_source_name),
        }
    }
}

impl Clone for IndexEntry {
    fn clone(&self) -> (r: Self)
        ensures
            r == *self,
    {
        IndexEntry {
            id: self.id.clone(),
            title: self.title.clone(),
            author: self.author.clone(),
            year: self.year,
            format: clone_opt(&self.format),
            packages_path: self.packages_path.clone(),
        }
    }
}

} // verus!
