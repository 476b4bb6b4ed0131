//! Character and string primitives shared by the rest of the library.
//!
//! The Unicode-dependent questions (what is whitespace, what is
//! alphanumeric, what the lowercase of a string is) are answered by the
//! standard library; each of them has a name here, and the functions built
//! on top of them are verified against those names.

use vstd::prelude::*;

verus! {

// ---------------------------------------------------------------------------
// Names for what the standard library answers about Unicode text
// ---------------------------------------------------------------------------

/// What `char::is_whitespace` answers for `c` (the Unicode `White_Space`
/// property).
pub uninterp spec fn spec_is_whitespace(c: char) -> bool;

/// What `char::is_alphanumeric` answers for `c` (Unicode `Alphabetic` or
/// `Numeric`).
pub uninterp spec fn spec_is_alphanumeric(c: char) -> bool;

/// What `str::to_lowercase` returns for the characters `s`.
pub uninterp spec fn spec_to_lowercase(s: Seq<char>) -> Seq<char>;

/// Calls `char::is_whitespace`; the answer is named `spec_is_whitespace`.
#[verifier::external_body]
pub(crate) fn is_whitespace(c: char) -> (r: bool)
    ensures
        r == spec_is_whitespace(c),
{
    c.is_whitespace()
}

/// Calls `char::is_alphanumeric`; the answer is named `spec_is_alphanumeric`.
#[verifier::external_body]
pub(crate) fn is_alphanumeric(c: char) -> (r: bool)
    ensures
        r == spec_is_alphanumeric(c),
{
    c.is_alphanumeric()
}

/// Calls `str::to_lowercase`; the result's characters are named
/// `spec_to_lowercase` of the argument's characters. Nothing more is said of
/// the Unicode case mapping.
#[verifier::external_body]
pub(crate) fn to_lowercase(s: &str) -> (r: String)
    ensures
        r@ == spec_to_lowercase(s@),
{
    s.to_lowercase()
}

/// Calls `String::push`, which appends one character at the end.
#[verifier::external_body]
pub(crate) fn push_char(s: &mut String, c: char)
    ensures
        final(s)@ == old(s)@.push(c),
{
    s.push(c)
}

// ---------------------------------------------------------------------------
// Conversions between strings and character vectors
// ---------------------------------------------------------------------------

/// The characters of `s`, in order.
pub fn chars_of(s: &str) -> (v: Vec<char>)
    ensures
        v@ == s@,
{
    let mut v: Vec<char> = Vec::new();
    for c in it: s.chars()
        invariant
            v@ == it.seq().take(it.index()),
    {
        v.push(c);
    }
    v
}

/// The string made of the characters `v`, in order.
pub fn string_of(v: &Vec<char>) -> (s: String)
    ensures
        s@ == v@,
{
    let mut s = String::new();
    let n = v.len();
    for i in 0..n
        invariant
            n == v@.len(),
            s@ == v@.take(i as int),
    {
        push_char(&mut s, v[i]);
        assert(v@.take(i + 1) == v@.take(i as int).push(v@[i as int]));
    }
    assert(v@.take(n as int) == v@);
    s
}

/// Appends the characters of `v` to `s`.
pub fn push_all(s: &mut String, v: &Vec<char>)
    ensures
        final(s)@ == old(s)@ + v@,
{
    let n = v.len();
    let ghost start = s@;
    for i in 0..n
        invariant
            n == v@.len(),
            s@ == start + v@.take(i as int),
    {
        push_char(s, v[i]);
        assert(v@.take(i + 1) == v@.take(i as int).push(v@[i as int]));
    }
    assert(v@.take(n as int) == v@);
}

// ---------------------------------------------------------------------------
// Trimming
// ---------------------------------------------------------------------------

/// The character class that a trim removes: `'-'` when `dashes` holds,
/// whitespace otherwise.
pub open spec fn trimmed_class(c: char, dashes: bool) -> bool {
    if dashes {
        c == '-'
    } else {
        spec_is_whitespace(c)
    }
}

/// `s` without its leading characters of the class.
pub open spec fn strip_start(s: Seq<char>, dashes: bool) -> Seq<char>
    decreases s.len(),
{
    if s.len() > 0 && trimmed_class(s[0], dashes) {
        strip_start(s.drop_first(), dashes)
    } else {
        s
    }
}

/// `s` without its trailing characters of the class.
pub open spec fn strip_end(s: Seq<char>, dashes: bool) -> Seq<char>
    decreases s.len(),
{
    if s.len() > 0 && trimmed_class(s.last(), dashes) {
        strip_end(s.drop_last(), dashes)
    } else {
        s
    }
}

/// `s` without leading and trailing characters of the class
/// (`str::trim` when `dashes` is false, `str::trim_matches('-')` when it holds).
pub open spec fn strip(s: Seq<char>, dashes: bool) -> Seq<char> {
    strip_end(strip_start(s, dashes), dashes)
}

/// What `str::trim` returns: `s` without leading and trailing whitespace.
pub open spec fn spec_trim(s: Seq<char>) -> Seq<char> {
    strip(s, false)
}

proof fn lemma_strip_start_at(s: Seq<char>, dashes: bool, i: int)
    requires
        0 <= i <= s.len(),
        forall|k: int| 0 <= k < i ==> trimmed_class(#[trigger] s[k], dashes),
        i == s.len() || !trimmed_class(s[i], dashes),
    ensures
        strip_start(s, dashes) == s.subrange(i, s.len() as int),
    decreases i,
{
    if i == 0 {
        assert(s.subrange(0, s.len() as int) == s);
    } else {
        let t = s.drop_first();
        assert forall|k: int| 0 <= k < i - 1 implies trimmed_class(#[trigger] t[k], dashes) by {
            assert(t[k] == s[k + 1]);
        }
        lemma_strip_start_at(t, dashes, i - 1);
        assert(t.subrange(i - 1, t.len() as int) == s.subrange(i, s.len() as int));
    }
}

proof fn lemma_strip_end_at(s: Seq<char>, dashes: bool, j: int)
    requires
        0 <= j <= s.len(),
        forall|k: int| j <= k < s.len() ==> trimmed_class(#[trigger] s[k], dashes),
        j == 0 || !trimmed_class(s[j - 1], dashes),
    ensures
        strip_end(s, dashes) == s.subrange(0, j),
    decreases s.len() - j,
{
    if j == s.len() {
        assert(s.subrange(0, j) == s);
    } else {
        let t = s.drop_last();
        assert forall|k: int| j <= k < t.len() implies trimmed_class(#[trigger] t[k], dashes) by {
            assert(t[k] == s[k]);
        }
        assert(trimmed_class(s.last(), dashes));
        lemma_strip_end_at(t, dashes, j);
        assert(t.subrange(0, j) == s.subrange(0, j));
    }
}

/// Facts about `strip`: it is a contiguous piece of `s`, and neither of its
/// ends belongs to the trimmed class.
pub proof fn lemma_strip_shape(s: Seq<char>, dashes: bool)
    ensures
        strip(s, dashes).len() > 0 ==> !trimmed_class(strip(s, dashes)[0], dashes),
        strip(s, dashes).len() > 0 ==> !trimmed_class(strip(s, dashes).last(), dashes),
        exists|i: int, j: int| 0 <= i <= j <= s.len() && strip(s, dashes) == #[trigger] s.subrange(i, j),
    decreases s.len(),
{
    lemma_strip_start_shape(s, dashes);
    let t = strip_start(s, dashes);
    lemma_strip_end_shape(t, dashes);
    let i = choose|i: int| 0 <= i <= s.len() && t == #[trigger] s.subrange(i, s.len() as int);
    let j = choose|j: int| 0 <= j <= t.len() && strip_end(t, dashes) == #[trigger] t.subrange(0, j);
    assert(strip(s, dashes) == s.subrange(i, i + j));
}

proof fn lemma_strip_start_shape(s: Seq<char>, dashes: bool)
    ensures
        strip_start(s, dashes).len() > 0 ==> !trimmed_class(strip_start(s, dashes)[0], dashes),
        exists|i: int| 0 <= i <= s.len() && strip_start(s, dashes) == #[trigger] s.subrange(i, s.len() as int),
    decreases s.len(),
{
    if s.len() > 0 && trimmed_class(s[0], dashes) {
        lemma_strip_start_shape(s.drop_first(), dashes);
        let t = s.drop_first();
        let i = choose|i: int| 0 <= i <= t.len() && strip_start(t, dashes) == #[trigger] t.subrange(i, t.len() as int);
        assert(s.drop_first().subrange(i, s.drop_first().len() as int) == s.subrange(i + 1, s.len() as int));
        assert(strip_start(s, dashes) == s.subrange(i + 1, s.len() as int));
    } else {
        assert(s == s.subrange(0, s.len() as int));
        assert(strip_start(s, dashes) == s.subrange(0, s.len() as int));
    }
}

proof fn lemma_strip_end_shape(s: Seq<char>, dashes: bool)
    ensures
        strip_end(s, dashes).len() > 0 ==> !trimmed_class(strip_end(s, dashes).last(), dashes),
        exists|j: int| 0 <= j <= s.len() && strip_end(s, dashes) == #[trigger] s.subrange(0, j),
    decreases s.len(),
{
    if s.len() > 0 && trimmed_class(s.last(), dashes) {
        lemma_strip_end_shape(s.drop_last(), dashes);
        let t = s.drop_last();
        let j = choose|j: int| 0 <= j <= t.len() && strip_end(t, dashes) == #[trigger] t.subrange(0, j);
        assert(s.drop_last().subrange(0, j) == s.subrange(0, j));
    } else {
        assert(s == s.subrange(0, s.len() as int));
    }
}

/// Removes the leading and trailing characters of the class from `v`:
/// `str::trim` when `dashes` is false, `str::trim_matches('-')` when it holds.
pub fn strip_chars(v: &Vec<char>, dashes: bool) -> (r: Vec<char>)
    ensures
        r@ == strip(v@, dashes),
{
    let n = v.len();
    let mut i: usize = 0;
    while i < n
        invariant
            n == v@.len(),
            i <= n,
            forall|k: int| 0 <= k < i ==> trimmed_class(#[trigger] v@[k], dashes),
        ensures
            i <= n,
            forall|k: int| 0 <= k < i ==> trimmed_class(#[trigger] v@[k], dashes),
            i == n || !trimmed_class(v@[i as int], dashes),
        decreases n - i,
    {
        let c = v[i];
        let in_class = if dashes { c == '-' } else { is_whitespace(c) };
        if !in_class {
            break;
        }
        i = i + 1;
    }
    proof {
        lemma_strip_start_at(v@, dashes, i as int);
    }
    let ghost t = v@.subrange(i as int, n as int);
    let mut j: usize = n;
    while j > i
        invariant
            n == v@.len(),
            i <= j <= n,
            t == v@.subrange(i as int, n as int),
            forall|k: int| j <= k < n ==> trimmed_class(#[trigger] v@[k], dashes),
        ensures
            i <= j <= n,
            forall|k: int| j <= k < n ==> trimmed_class(#[trigger] v@[k], dashes),
            j == i || !trimmed_class(v@[j - 1], dashes),
        decreases j,
    {
        let c = v[j - 1];
        let in_class = if dashes { c == '-' } else { is_whitespace(c) };
        if !in_class {
            break;
        }
        j = j - 1;
    }
    proof {
        assert forall|k: int| j - i <= k < t.len() implies trimmed_class(#[trigger] t[k], dashes) by {
            assert(t[k] == v@[k + i]);
        }
        if j > i {
            assert(t[j - i - 1] == v@[j - 1]);
        }
        lemma_strip_end_at(t, dashes, j - i);
        assert(t.subrange(0, j - i) == v@.subrange(i as int, j as int));
    }
    let mut r: Vec<char> = Vec::new();
    let mut k: usize = i;
    while k < j
        invariant
            i <= k <= j <= n,
            n == v@.len(),
            r@ == v@.subrange(i as int, k as int),
        decreases j - k,
    {
        r.push(v[k]);
        assert(v@.subrange(i as int, k + 1) == v@.subrange(i as int, k as int).push(v@[k as int]));
        k = k + 1;
    }
    r
}

/// What `str::trim` returns for `s`, as a new string.
pub fn trim(s: &str) -> (r: String)
    ensures
        r@ == spec_trim(s@),
{
    let v = chars_of(s);
    let t = strip_chars(&v, false);
    string_of(&t)
}

// ---------------------------------------------------------------------------
// Searching and comparing
// ---------------------------------------------------------------------------

/// `p` occurs in `s` starting at position `i`.
pub open spec fn occurs_at(s: Seq<char>, p: Seq<char>, i: int) -> bool {
    0 <= i && i + p.len() <= s.len() && s.subrange(i, i + p.len()) == p
}

/// What `str::contains` answers for a string pattern: `p` occurs somewhere in `s`.
pub open spec fn spec_contains(s: Seq<char>, p: Seq<char>) -> bool {
    exists|i: int| occurs_at(s, p, i)
}

/// Whether `p` occurs in `s`.
pub fn contains(s: &Vec<char>, p: &Vec<char>) -> (r: bool)
    ensures
        r == spec_contains(s@, p@),
{
    let n = s.len();
    let m = p.len();
    if m > n {
        assert(!spec_contains(s@, p@));
        return false;
    }
    let mut i: usize = 0;
    while i <= n - m
        invariant
            n == s@.len(),
            m == p@.len(),
            m <= n,
            i <= n - m + 1,
            forall|k: int| 0 <= k < i ==> !#[trigger] occurs_at(s@, p@, k),
        decreases n - m + 1 - i,
    {
        let mut j: usize = 0;
        let mut same = true;
        while j < m
            invariant
                n == s@.len(),
                m == p@.len(),
                i + m <= n,
                j <= m,
                same == (forall|k: int| 0 <= k < j ==> s@[i + k] == p@[k]),
            decreases m - j,
        {
            if s[i + j] != p[j] {
                same = false;
            }
            j = j + 1;
        }
        if same {
            assert(s@.subrange(i as int, i + m) =~= p@);
            assert(occurs_at(s@, p@, i as int));
            return true;
        }
        assert(!occurs_at(s@, p@, i as int)) by {
            if occurs_at(s@, p@, i as int) {
                assert forall|k: int| 0 <= k < m implies s@[i + k] == p@[k] by {
                    assert(s@.subrange(i as int, i + m)[k] == s@[i + k]);
                }
            }
        }
        i = i + 1;
    }
    assert forall|k: int| !occurs_at(s@, p@, k) by {
        if 0 <= k && k + m <= n {
            assert(k < i);
        }
    }
    false
}

/// The ASCII lowercase of `c`; other characters are unchanged
/// (`char::to_ascii_lowercase`).
pub open spec fn spec_ascii_lower(c: char) -> char {
    if 'A' <= c && c <= 'Z' {
        ((c as u32) + 32) as char
    } else {
        c
    }
}

/// What `str::eq_ignore_ascii_case` answers: equal lengths, and equal
/// characters once ASCII letters are lowercased.
pub open spec fn spec_eq_ignore_ascii_case(a: Seq<char>, b: Seq<char>) -> bool {
    a.len() == b.len() && forall|i: int|
        0 <= i < a.len() ==> spec_ascii_lower(#[trigger] a[i]) == spec_ascii_lower(b[i])
}

fn ascii_lower(c: char) -> (r: char)
    ensures
        r == spec_ascii_lower(c),
{
    if 'A' <= c && c <= 'Z' {
        let u = (c as u32) + 32;
        assert(u <= 0x7f);
        char_of_ascii(u as u8)
    } else {
        c
    }
}

fn char_of_ascii(b: u8) -> (c: char)
    requires
        b < 128,
    ensures
        c == b as char,
        c as u32 == b as u32,
{
    b as char
}

/// Whether `a` and `b` are equal up to ASCII case.
pub fn eq_ignore_ascii_case(a: &Vec<char>, b: &Vec<char>) -> (r: bool)
    ensures
        r == spec_eq_ignore_ascii_case(a@, b@),
{
    if a.len() != b.len() {
        return false;
    }
    let n = a.len();
    let mut i: usize = 0;
    while i < n
        invariant
            n == a@.len(),
            n == b@.len(),
            i <= n,
            forall|k: int| 0 <= k < i ==> spec_ascii_lower(#[trigger] a@[k]) == spec_ascii_lower(b@[k]),
        decreases n - i,
    {
        if ascii_lower(a[i]) != ascii_lower(b[i]) {
            return false;
        }
        i = i + 1;
    }
    true
}

// ---------------------------------------------------------------------------
// Decimal numbers
// ---------------------------------------------------------------------------

/// The decimal digit character for `d < 10`.
pub open spec fn digit_char(d: nat) -> char {
    ((48 + d) as u8) as char
}

/// The decimal representation of `n`, without leading zeros, as `Display`
/// prints an unsigned integer.
pub open spec fn spec_decimal(n: nat) -> Seq<char>
    decreases n,
{
    if n < 10 {
        seq![digit_char(n)]
    } else {
        spec_decimal(n / 10).push(digit_char(n % 10))
    }
}

fn digit(d: u64) -> (c: char)
    requires
        d < 10,
    ensures
        c == digit_char(d as nat),
{
    char_of_ascii((d as u8) + 48)
}

/// The decimal representation of `n`.
pub fn decimal(n: u64) -> (v: Vec<char>)
    ensures
        v@ == spec_decimal(n as nat),
    decreases n,
{
    if n < 10 {
        let mut v = Vec::new();
        v.push(digit(n));
        v
    } else {
        let mut v = decimal(n / 10);
        v.push(digit(n % 10));
        v
    }
}

// ---------------------------------------------------------------------------
// Finding a character
// ---------------------------------------------------------------------------

/// The position of the first `c` in `s`, or the length of `s` when there is none.
pub open spec fn index_of_char(s: Seq<char>, c: char) -> nat
    decreases s.len(),
{
    if s.len() == 0 {
        0
    } else if s[0] == c {
        0
    } else {
        1 + index_of_char(s.drop_first(), c)
    }
}

/// `index_of_char` is the first position holding `c`.
pub proof fn lemma_index_of_char(s: Seq<char>, c: char, i: int)
    requires
        0 <= i <= s.len(),
        forall|k: int| 0 <= k < i ==> #[trigger] s[k] != c,
        i == s.len() || s[i] == c,
    ensures
        index_of_char(s, c) == i,
    decreases i,
{
    if i > 0 {
        let t = s.drop_first();
        assert forall|k: int| 0 <= k < i - 1 implies #[trigger] t[k] != c by {
            assert(t[k] == s[k + 1]);
        }
        lemma_index_of_char(t, c, i - 1);
    }
}

/// `index_of_char` is within `s`, and no earlier position holds `c`.
pub proof fn lemma_index_of_char_bounds(s: Seq<char>, c: char)
    ensures
        index_of_char(s, c) <= s.len(),
        index_of_char(s, c) < s.len() ==> s[index_of_char(s, c) as int] == c,
        forall|k: int| 0 <= k < index_of_char(s, c) ==> #[trigger] s[k] != c,
    decreases s.len(),
{
    if s.len() > 0 && s[0] != c {
        let t = s.drop_first();
        lemma_index_of_char_bounds(t, c);
        assert forall|k: int| 0 <= k < index_of_char(s, c) implies #[trigger] s[k] != c by {
            if k > 0 {
                assert(s[k] == t[k - 1]);
            }
        }
    }
}

/// The position of the first `c` in `v` from `start` on, or `v`'s length.
pub fn find_char(v: &Vec<char>, start: usize, c: char) -> (r: usize)
    requires
        start <= v@.len(),
    ensures
        index_of_char(v@.subrange(start as int, v@.len() as int), c) == r - start,
        start <= r <= v@.len(),
        r < v@.len() ==> v@[r as int] == c,
        forall|k: int| start <= k < r ==> #[trigger] v@[k] != c,
{
    let n = v.len();
    let mut i = start;
    while i < n
        invariant
            n == v@.len(),
            start <= i <= n,
            forall|k: int| start <= k < i ==> #[trigger] v@[k] != c,
        ensures
            start <= i <= n,
            forall|k: int| start <= k < i ==> #[trigger] v@[k] != c,
            i == n || v@[i as int] == c,
        decreases n - i,
    {
        if v[i] == c {
            break;
        }
        i = i + 1;
    }
    proof {
        let t = v@.subrange(start as int, n as int);
        assert forall|k: int| 0 <= k < i - start implies #[trigger] t[k] != c by {
            assert(t[k] == v@[k + start]);
        }
        if i < n {
            assert(t[i - start] == v@[i as int]);
        }
        lemma_index_of_char(t, c, i - start);
    }
    i
}

/// The characters of `v` from `from` up to `to`.
pub fn copy_range(v: &Vec<char>, from: usize, to: usize) -> (r: Vec<char>)
    requires
        from <= to <= v@.len(),
    ensures
        r@ == v@.subrange(from as int, to as int),
{
    let mut r: Vec<char> = Vec::new();
    let mut k = from;
    while k < to
        invariant
            from <= k <= to <= v@.len(),
            r@ == v@.subrange(from as int, k as int),
        decreases to - k,
    {
        r.push(v[k]);
        assert(v@.subrange(from as int, k + 1) == v@.subrange(from as int, k as int).push(
            v@[k as int],
        ));
        k = k + 1;
    }
    r
}

} // verus!
