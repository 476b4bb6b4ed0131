//! Unix-style paths held as strings: joining a component onto a path, the
//! components of a path, and a path relative to a base. These follow
//! `PathBuf::push`, `Path::components` and `Path::strip_prefix` on Unix.

use vstd::prelude::*;
use crate::naming;
use crate::text;
use crate::types::opt_view;

verus! {

// ---------------------------------------------------------------------------
// Joining
// ---------------------------------------------------------------------------

/// `base` with `comp` pushed onto it: an absolute `comp` replaces `base`;
/// otherwise a `'/'` is put between them unless `base` is empty or already
/// ends with one.
pub open spec fn spec_join(base: Seq<char>, comp: Seq<char>) -> Seq<char> {
    if comp.len() > 0 && comp[0] == '/' {
        comp
    } else if base.len() == 0 {
        comp
    } else if base.last() == '/' {
        base + comp
    } else {
        base + seq!['/'] + comp
    }
}

/// `base` joined with `comp`, as `Path::join` does on Unix.
pub fn join_path(base: &str, comp: &str) -> (r: String)
    ensures
        r@ == spec_join(base@, comp@),
{
    let b = text::chars_of(base);
    let c = text::chars_of(comp);
    if c.len() > 0 && c[0] == '/' {
        return String::from_str(comp);
    }
    let mut r = String::from_str(base);
    if b.len() > 0 && b[b.len() - 1] != '/' {
        text::push_char(&mut r, '/');
    }
    r.append(comp);
    r
}

// ---------------------------------------------------------------------------
// Package files
// ---------------------------------------------------------------------------

/// The file name of a package: `<title slug>-<year>.json`.
pub open spec fn package_file_name(title: Seq<char>, year: Option<u16>) -> Seq<char> {
    naming::spec_slugify(title) + "-"@ + naming::year_text(year) + ".json"@
}

/// Where a package's file lies under `base`:
/// `<base>/packages/<author slug>/<file name>`.
pub open spec fn spec_package_path(
    base: Seq<char>,
    author: Seq<char>,
    title: Seq<char>,
    year: Option<u16>,
) -> Seq<char> {
    spec_join(
        spec_join(spec_join(base, "packages"@), naming::spec_slugify(author)),
        package_file_name(title, year),
    )
}

/// The path of the package file of `title` by `author` under `base`.
pub fn package_path(base: &str, author: &str, title: &str, year: Option<u16>) -> (r: String)
    ensures
        r@ == spec_package_path(base@, author@, title@, year),
{
    let author_dir = naming::slugify(author);
    let mut fname = naming::slugify(title);
    fname.append("-");
    fname.append(naming::year_string(year).as_str());
    fname.append(".json");
    let p = join_path(base, "packages");
    let p = join_path(p.as_str(), author_dir.as_str());
    join_path(p.as_str(), fname.as_str())
}

// ---------------------------------------------------------------------------
// Components
// ---------------------------------------------------------------------------

/// `s` cut at each `'/'` (there is always at least one piece).
pub open spec fn split_slash(s: Seq<char>) -> Seq<Seq<char>>
    decreases s.len(),
{
    let i = text::index_of_char(s, '/');
    if i < s.len() {
        seq![s.subrange(0, i as int)] + split_slash(s.subrange(i as int + 1, s.len() as int))
    } else {
        seq![s]
    }
}

/// A piece that names a component: not empty and not `.`.
pub open spec fn is_normal(seg: Seq<char>) -> bool {
    seg.len() > 0 && seg != seq!['.']
}

/// The pieces of `segs` that name components, in order.
pub open spec fn keep_normal(segs: Seq<Seq<char>>) -> Seq<Seq<char>>
    decreases segs.len(),
{
    if segs.len() == 0 {
        Seq::empty()
    } else if is_normal(segs.last()) {
        keep_normal(segs.drop_last()).push(segs.last())
    } else {
        keep_normal(segs.drop_last())
    }
}

/// The components named by `segs`, the pieces of the path `s` (or the
/// first of them): the root `/` first for an absolute path, a leading `.`
/// kept for a path that begins with it, then every other piece that is
/// neither empty nor `.`.
pub open spec fn comps_of(s: Seq<char>, segs: Seq<Seq<char>>) -> Seq<Seq<char>> {
    if s.len() > 0 && s[0] == '/' {
        seq![seq!['/']] + keep_normal(segs.drop_first())
    } else if segs[0] == seq!['.'] {
        seq![seq!['.']] + keep_normal(segs.drop_first())
    } else {
        keep_normal(segs)
    }
}

/// The components of a path, as `Path::components` gives them on Unix.
pub open spec fn path_components(s: Seq<char>) -> Seq<Seq<char>> {
    comps_of(s, split_slash(s))
}

/// The pieces joined with `'/'` between them.
pub open spec fn join_with_slash(cs: Seq<Seq<char>>) -> Seq<char>
    decreases cs.len(),
{
    if cs.len() == 0 {
        Seq::empty()
    } else if cs.len() == 1 {
        cs[0]
    } else {
        cs[0] + seq!['/'] + join_with_slash(cs.drop_first())
    }
}

/// Piece `i` of `segs`, the pieces of the path `s`, names a component.
pub open spec fn seg_is_comp(s: Seq<char>, segs: Seq<Seq<char>>, i: int) -> bool {
    if i == 0 {
        (s.len() > 0 && s[0] == '/') || segs[0] == seq!['.'] || is_normal(segs[0])
    } else {
        is_normal(segs[i])
    }
}

/// How many components the first `i` pieces of the path `s` name.
pub open spec fn count_comps(s: Seq<char>, segs: Seq<Seq<char>>, i: int) -> nat {
    if i <= 0 {
        0
    } else {
        comps_of(s, segs.take(i)).len()
    }
}

/// The first piece index from `i` on by which `k` components have gone by
/// (or the number of pieces).
pub open spec fn start_after(s: Seq<char>, segs: Seq<Seq<char>>, k: nat, i: nat) -> nat
    decreases segs.len() - i,
{
    if i >= segs.len() || count_comps(s, segs, i as int) >= k {
        i
    } else {
        start_after(s, segs, k, i + 1)
    }
}

/// `segs` without its leading pieces that name no component.
pub open spec fn drop_leading_odd(segs: Seq<Seq<char>>) -> Seq<Seq<char>>
    decreases segs.len(),
{
    if segs.len() > 0 && !is_normal(segs[0]) {
        drop_leading_odd(segs.drop_first())
    } else {
        segs
    }
}

/// `segs` without its trailing pieces that name no component.
pub open spec fn drop_trailing_odd(segs: Seq<Seq<char>>) -> Seq<Seq<char>>
    decreases segs.len(),
{
    if segs.len() > 0 && !is_normal(segs.last()) {
        drop_trailing_odd(segs.drop_last())
    } else {
        segs
    }
}

/// What is left of the text of `path` once its first `k > 0` components are
/// taken off: the pieces from the first component after them to the last
/// component, as they stand in `path`.
pub open spec fn remainder_after(path: Seq<char>, k: nat) -> Seq<char> {
    let segs = split_slash(path);
    let start = start_after(path, segs, k, 0);
    join_with_slash(drop_trailing_odd(drop_leading_odd(segs.subrange(start as int, segs.len() as int))))
}

/// The pieces of the path `s` up to its last component.
pub open spec fn tail_kept(s: Seq<char>, segs: Seq<Seq<char>>) -> Seq<Seq<char>>
    decreases segs.len(),
{
    if segs.len() == 0 {
        segs
    } else if seg_is_comp(s, segs, segs.len() - 1) {
        segs
    } else {
        tail_kept(s, segs.drop_last())
    }
}

/// The text of `path` without trailing empty or `.` pieces (a root or a
/// leading `.` stays).
pub open spec fn trim_path_end(path: Seq<char>) -> Seq<char> {
    let t = tail_kept(path, split_slash(path));
    if path.len() > 0 && path[0] == '/' && t.len() == 1 {
        seq!['/']
    } else {
        join_with_slash(t)
    }
}

/// `path` relative to `base`, as `Path::strip_prefix` gives it on Unix:
/// defined when the components of `base` begin those of `path`; it is then
/// the text of `path` after those components, without leading or trailing
/// empty or `.` pieces (with no component to take off, only trailing ones
/// go).
pub open spec fn spec_relative(path: Seq<char>, base: Seq<char>) -> Option<Seq<char>> {
    let pc = path_components(path);
    let bc = path_components(base);
    if bc.len() <= pc.len() && pc.subrange(0, bc.len() as int) == bc {
        if bc.len() == 0 {
            Some(trim_path_end(path))
        } else {
            Some(remainder_after(path, bc.len()))
        }
    } else {
        None
    }
}

// ---------------------------------------------------------------------------
// Computing components and relative paths
// ---------------------------------------------------------------------------

/// The character sequences held by a vector of character vectors.
pub open spec fn views(vs: Seq<Vec<char>>) -> Seq<Seq<char>> {
    vs.map_values(|x: Vec<char>| x@)
}

proof fn lemma_views_push(vs: Seq<Vec<char>>, x: Vec<char>)
    ensures
        views(vs.push(x)) == views(vs).push(x@),
{
    assert(views(vs.push(x)) =~= views(vs).push(x@));
}

/// Whether `a` and `b` hold the same characters.
pub fn same_chars(a: &Vec<char>, b: &Vec<char>) -> (r: bool)
    ensures
        r == (a@ == b@),
{
    if a.len() != b.len() {
        return false;
    }
    let n = a.len();
    for i in 0..n
        invariant
            n == a@.len(),
            n == b@.len(),
            forall|k: int| 0 <= k < i ==> a@[k] == b@[k],
    {
        if a[i] != b[i] {
            return false;
        }
    }
    assert(a@ =~= b@);
    true
}

/// The pieces of `v` between slashes.
pub(crate) fn split_on_slash(v: &Vec<char>) -> (segs: Vec<Vec<char>>)
    ensures
        views(segs@) == split_slash(v@),
        segs@.len() >= 1,
{
    let n = v.len();
    let mut segs: Vec<Vec<char>> = Vec::new();
    let mut j: usize = 0;
    assert(v@.subrange(0, n as int) == v@);
    loop
        invariant_except_break
            views(segs@) + split_slash(v@.subrange(j as int, n as int)) == split_slash(v@),
        invariant
            n == v@.len(),
            j <= n,
        ensures
            views(segs@) == split_slash(v@),
            segs@.len() >= 1,
        decreases n - j,
    {
        let k = text::find_char(v, j, '/');
        let piece = text::copy_range(v, j, k);
        let ghost rest = v@.subrange(j as int, n as int);
        proof {
            lemma_views_push(segs@, piece);
        }
        segs.push(piece);
        if k == n {
            assert(split_slash(rest) == seq![rest]);
            assert(views(segs@) =~= split_slash(v@));
            break;
        }
        assert(rest.subrange(0, (k - j) as int) == v@.subrange(j as int, k as int));
        assert(rest.subrange((k - j) as int + 1, rest.len() as int) == v@.subrange(k + 1, n as int));
        assert(split_slash(rest) == seq![v@.subrange(j as int, k as int)] + split_slash(
            v@.subrange(k + 1, n as int),
        ));
        assert(views(segs@) + split_slash(v@.subrange(k + 1, n as int)) =~= split_slash(v@));
        j = k + 1;
    }
    segs
}

/// The components of the path `v`.
pub fn components(v: &Vec<char>) -> (r: Vec<Vec<char>>)
    ensures
        views(r@) == path_components(v@),
{
    let segs = split_on_slash(v);
    let ghost sv = views(segs@);
    let mut r: Vec<Vec<char>> = Vec::new();
    let mut start: usize = 0;
    let ghost lead: Seq<Seq<char>> = Seq::empty();
    if v.len() > 0 && v[0] == '/' {
        let mut root = Vec::new();
        root.push('/');
        proof {
            lemma_views_push(r@, root);
            lead = seq![seq!['/']];
        }
        r.push(root);
        start = 1;
    } else if segs[0].len() == 1 && segs[0][0] == '.' {
        let mut dot = Vec::new();
        dot.push('.');
        proof {
            lemma_views_push(r@, dot);
            lead = seq![seq!['.']];
            assert(sv[0] =~= seq!['.']);
        }
        r.push(dot);
        start = 1;
    } else {
        proof {
            if sv[0] == seq!['.'] {
                assert(segs@[0]@.len() == 1);
                assert(segs@[0]@[0] == '.');
            }
        }
    }
    assert(views(r@) == lead + keep_normal(sv.subrange(start as int, start as int)));
    let m = segs.len();
    for i in start..m
        invariant
            m == segs@.len(),
            sv == views(segs@),
            start <= 1,
            start <= m,
            views(r@) == lead + keep_normal(sv.subrange(start as int, i as int)),
    {
        let seg = &segs[i];
        let normal = !(seg.len() == 0 || (seg.len() == 1 && seg[0] == '.'));
        proof {
            assert(sv[i as int] == seg@);
            let sub = sv.subrange(start as int, i + 1);
            assert(sub.drop_last() == sv.subrange(start as int, i as int));
            assert(sub.last() == seg@);
            if normal {
                assert(is_normal(seg@)) by {
                    if seg@ == seq!['.'] {
                        assert(seg@.len() == 1);
                    }
                }
            } else {
                assert(!is_normal(seg@)) by {
                    if seg@.len() == 1 {
                        assert(seg@ =~= seq!['.']);
                    }
                }
            }
        }
        if normal {
            let copy = text::copy_range(seg, 0, seg.len());
            assert(seg@.subrange(0, seg@.len() as int) == seg@);
            proof {
                lemma_views_push(r@, copy);
            }
            r.push(copy);
        }
    }
    proof {
        assert(sv.subrange(start as int, m as int) == if start == 1 { sv.drop_first() } else { sv });
    }
    r
}

proof fn lemma_join_with_slash_push(cs: Seq<Seq<char>>, x: Seq<char>)
    ensures
        join_with_slash(cs.push(x)) == if cs.len() == 0 {
            x
        } else {
            join_with_slash(cs) + seq!['/'] + x
        },
    decreases cs.len(),
{
    if cs.len() == 0 {
        assert(cs.push(x) =~= seq![x]);
        assert(join_with_slash(seq![x]) == x);
    } else if cs.len() == 1 {
        assert(cs.push(x).drop_first() =~= seq![x]);
        assert(cs.push(x)[0] == cs[0]);
        assert(join_with_slash(seq![x]) == x);
        assert(join_with_slash(cs) == cs[0]);
        assert(join_with_slash(cs.push(x)) == cs[0] + seq!['/'] + x);
    } else {
        lemma_join_with_slash_push(cs.drop_first(), x);
        assert(cs.push(x).drop_first() =~= cs.drop_first().push(x));
        assert(cs.push(x)[0] == cs[0]);
        let a = cs[0];
        let b = join_with_slash(cs.drop_first());
        assert(a + seq!['/'] + (b + seq!['/'] + x) =~= (a + seq!['/'] + b) + seq!['/'] + x);
    }
}

/// The pieces `cs[from..to]` joined with `'/'`.
fn join_range(cs: &Vec<Vec<char>>, from: usize, to: usize) -> (r: String)
    requires
        from <= to <= cs@.len(),
    ensures
        r@ == join_with_slash(views(cs@).subrange(from as int, to as int)),
{
    let mut r = String::new();
    let mut i = from;
    proof {
        assert(views(cs@).subrange(from as int, from as int) =~= Seq::<Seq<char>>::empty());
    }
    while i < to
        invariant
            from <= i <= to <= cs@.len(),
            r@ == join_with_slash(views(cs@).subrange(from as int, i as int)),
        decreases to - i,
    {
        let ghost before = views(cs@).subrange(from as int, i as int);
        proof {
            lemma_join_with_slash_push(before, cs@[i as int]@);
            assert(views(cs@).subrange(from as int, i + 1) == before.push(cs@[i as int]@));
        }
        if i > from {
            text::push_char(&mut r, '/');
        }
        text::push_all(&mut r, &cs[i]);
        i = i + 1;
    }
    r
}

/// Whether a piece names a component.
fn is_normal_piece(seg: &Vec<char>) -> (r: bool)
    ensures
        r == is_normal(seg@),
{
    let r = !(seg.len() == 0 || (seg.len() == 1 && seg[0] == '.'));
    proof {
        if seg@.len() == 1 && seg@[0] == '.' {
            assert(seg@ =~= seq!['.']);
        }
        if seg@ == seq!['.'] {
            assert(seg@.len() == 1);
        }
    }
    r
}

/// Whether piece `i` of the path `v` names a component.
fn piece_is_comp(v: &Vec<char>, segs: &Vec<Vec<char>>, i: usize) -> (r: bool)
    requires
        i < segs@.len(),
    ensures
        r == seg_is_comp(v@, views(segs@), i as int),
{
    let normal = is_normal_piece(&segs[i]);
    assert(views(segs@)[i as int] == segs@[i as int]@);
    if i == 0 {
        let dot = segs[0].len() == 1 && segs[0][0] == '.';
        proof {
            if dot {
                assert(segs@[0]@ =~= seq!['.']);
            }
            if views(segs@)[0] == seq!['.'] {
                assert(segs@[0]@.len() == 1);
            }
        }
        (v.len() > 0 && v[0] == '/') || dot || normal
    } else {
        normal
    }
}

proof fn lemma_count_step(s: Seq<char>, segs: Seq<Seq<char>>, i: int)
    requires
        0 <= i < segs.len(),
    ensures
        count_comps(s, segs, i + 1) == count_comps(s, segs, i) + if seg_is_comp(s, segs, i) {
            1nat
        } else {
            0nat
        },
{
    let t1 = segs.take(i + 1);
    assert(t1[0] == segs[0]);
    if i == 0 {
        assert(t1.drop_first() =~= Seq::<Seq<char>>::empty());
        assert(keep_normal(Seq::<Seq<char>>::empty()) == Seq::<Seq<char>>::empty());
        assert(t1 =~= seq![segs[0]]);
        assert(seq![segs[0]].drop_last() =~= Seq::<Seq<char>>::empty());
    } else {
        let t0 = segs.take(i);
        assert(t0[0] == segs[0]);
        assert(t1.drop_last() =~= t0);
        assert(t1.last() == segs[i]);
        assert(t1.drop_first().drop_last() =~= t0.drop_first());
        assert(t1.drop_first().last() == segs[i]);
    }
}

proof fn lemma_start_after(s: Seq<char>, segs: Seq<Seq<char>>, k: nat, i: nat)
    requires
        i <= segs.len(),
    ensures
        i <= start_after(s, segs, k, i) <= segs.len(),
        start_after(s, segs, k, i) == segs.len() || count_comps(s, segs, start_after(s, segs, k, i) as int) >= k,
        forall|j: int| i <= j < start_after(s, segs, k, i) ==> count_comps(s, segs, j) < k,
    decreases segs.len() - i,
{
    if !(i >= segs.len() || count_comps(s, segs, i as int) >= k) {
        lemma_start_after(s, segs, k, i + 1);
    }
}

proof fn lemma_drop_leading_odd_at(segs: Seq<Seq<char>>, a: int)
    requires
        0 <= a <= segs.len(),
        forall|j: int| 0 <= j < a ==> !is_normal(#[trigger] segs[j]),
        a == segs.len() || is_normal(segs[a]),
    ensures
        drop_leading_odd(segs) == segs.subrange(a, segs.len() as int),
    decreases a,
{
    if a == 0 {
        assert(segs.subrange(0, segs.len() as int) == segs);
    } else {
        let t = segs.drop_first();
        assert forall|j: int| 0 <= j < a - 1 implies !is_normal(#[trigger] t[j]) by {
            assert(t[j] == segs[j + 1]);
        }
        lemma_drop_leading_odd_at(t, a - 1);
        assert(t.subrange(a - 1, t.len() as int) == segs.subrange(a, segs.len() as int));
    }
}

proof fn lemma_drop_trailing_odd_at(segs: Seq<Seq<char>>, b: int)
    requires
        0 <= b <= segs.len(),
        forall|j: int| b <= j < segs.len() ==> !is_normal(#[trigger] segs[j]),
        b == 0 || is_normal(segs[b - 1]),
    ensures
        drop_trailing_odd(segs) == segs.subrange(0, b),
    decreases segs.len() - b,
{
    if b == segs.len() {
        assert(segs.subrange(0, b) == segs);
    } else {
        let t = segs.drop_last();
        assert forall|j: int| b <= j < t.len() implies !is_normal(#[trigger] t[j]) by {
            assert(t[j] == segs[j]);
        }
        assert(!is_normal(segs.last()));
        lemma_drop_trailing_odd_at(t, b);
        assert(t.subrange(0, b) == segs.subrange(0, b));
    }
}

proof fn lemma_tail_kept_at(s: Seq<char>, segs: Seq<Seq<char>>, j: int)
    requires
        0 <= j <= segs.len(),
        forall|i: int| j <= i < segs.len() ==> !seg_is_comp(s, segs, i),
        j == 0 || seg_is_comp(s, segs, j - 1),
    ensures
        tail_kept(s, segs) == segs.subrange(0, j),
    decreases segs.len() - j,
{
    if j == segs.len() {
        assert(segs.subrange(0, j) == segs);
    } else {
        let t = segs.drop_last();
        assert forall|i: int| j <= i < t.len() implies !seg_is_comp(s, t, i) by {
            assert(t[i] == segs[i]);
            if i == 0 {
                assert(!seg_is_comp(s, segs, 0));
            } else {
                assert(!seg_is_comp(s, segs, i));
            }
        }
        if j > 0 {
            assert(t[0] == segs[0]);
            assert(t[j - 1] == segs[j - 1]);
            assert(seg_is_comp(s, t, j - 1));
        }
        assert(!seg_is_comp(s, segs, segs.len() - 1));
        lemma_tail_kept_at(s, t, j);
        assert(t.subrange(0, j) == segs.subrange(0, j));
    }
}

/// What is left of `v` once its first `k > 0` components are taken off.
fn remainder_exec(v: &Vec<char>, k: usize) -> (r: String)
    requires
        k >= 1,
    ensures
        r@ == remainder_after(v@, k as nat),
{
    let segs = split_on_slash(v);
    let ghost sv = views(segs@);
    let m = segs.len();
    let mut i: usize = 0;
    let mut count: usize = 0;
    proof {
        lemma_start_after(v@, sv, k as nat, 0);
    }
    while i < m && count < k
        invariant
            m == segs@.len(),
            sv == views(segs@),
            sv == split_slash(v@),
            i <= m,
            count <= i,
            count == count_comps(v@, sv, i as int),
            start_after(v@, sv, k as nat, 0) == start_after(v@, sv, k as nat, i as nat),
        decreases m - i,
    {
        let c = piece_is_comp(v, &segs, i);
        proof {
            lemma_count_step(v@, sv, i as int);
        }
        if c {
            count = count + 1;
        }
        i = i + 1;
    }
    let start = i;
    assert(start_after(v@, sv, k as nat, start as nat) == start);
    let mut a = start;
    while a < m
        invariant
            m == segs@.len(),
            sv == views(segs@),
            start <= a <= m,
            forall|j: int| start <= j < a ==> !is_normal(#[trigger] sv[j]),
        ensures
            start <= a <= m,
            forall|j: int| start <= j < a ==> !is_normal(#[trigger] sv[j]),
            a == m || is_normal(sv[a as int]),
        decreases m - a,
    {
        assert(sv[a as int] == segs@[a as int]@);
        if is_normal_piece(&segs[a]) {
            break;
        }
        a = a + 1;
    }
    let mut b = m;
    while b > a
        invariant
            m == segs@.len(),
            sv == views(segs@),
            a <= b <= m,
            forall|j: int| b <= j < m ==> !is_normal(#[trigger] sv[j]),
        ensures
            a <= b <= m,
            forall|j: int| b <= j < m ==> !is_normal(#[trigger] sv[j]),
            b == a || is_normal(sv[b - 1]),
        decreases b,
    {
        assert(sv[b - 1] == segs@[b - 1]@);
        if is_normal_piece(&segs[b - 1]) {
            break;
        }
        b = b - 1;
    }
    proof {
        let rest = sv.subrange(start as int, m as int);
        assert forall|j: int| 0 <= j < a - start implies !is_normal(#[trigger] rest[j]) by {
            assert(rest[j] == sv[j + start]);
        }
        if a < m {
            assert(rest[a - start] == sv[a as int]);
        }
        lemma_drop_leading_odd_at(rest, a - start);
        assert(rest.subrange(a - start, rest.len() as int) == sv.subrange(a as int, m as int));
        let mid = sv.subrange(a as int, m as int);
        assert forall|j: int| b - a <= j < mid.len() implies !is_normal(#[trigger] mid[j]) by {
            assert(mid[j] == sv[j + a]);
        }
        if b > a {
            assert(mid[b - a - 1] == sv[b - 1]);
        }
        lemma_drop_trailing_odd_at(mid, b - a);
        assert(mid.subrange(0, b - a) == sv.subrange(a as int, b as int));
    }
    join_range(&segs, a, b)
}

/// The text of the path `v` without trailing empty or `.` pieces.
fn trim_path_end_exec(v: &Vec<char>) -> (r: String)
    ensures
        r@ == trim_path_end(v@),
{
    let segs = split_on_slash(v);
    let ghost sv = views(segs@);
    let m = segs.len();
    let mut j = m;
    while j > 0
        invariant
            m == segs@.len(),
            sv == views(segs@),
            j <= m,
            forall|i: int| j <= i < m ==> !seg_is_comp(v@, sv, i),
        ensures
            j <= m,
            forall|i: int| j <= i < m ==> !seg_is_comp(v@, sv, i),
            j == 0 || seg_is_comp(v@, sv, j - 1),
        decreases j,
    {
        if piece_is_comp(v, &segs, j - 1) {
            break;
        }
        j = j - 1;
    }
    proof {
        lemma_tail_kept_at(v@, sv, j as int);
    }
    if v.len() > 0 && v[0] == '/' && j == 1 {
        let mut r = String::new();
        text::push_char(&mut r, '/');
        r
    } else {
        join_range(&segs, 0, j)
    }
}

/// `path` relative to `base` (see `spec_relative`), or `None` when `base`
/// is not a prefix of `path` component by component.
pub fn relative_to(path: &str, base: &str) -> (r: Option<String>)
    ensures
        match r {
            Some(s) => spec_relative(path@, base@) == Some(s@),
            None => spec_relative(path@, base@) is None,
        },
{
    let pv_chars = text::chars_of(path);
    let pc = components(&pv_chars);
    let bc = components(&text::chars_of(base));
    let ghost pv = views(pc@);
    let ghost bv = views(bc@);
    if bc.len() > pc.len() {
        return None;
    }
    let m = bc.len();
    for i in 0..m
        invariant
            m == bc@.len(),
            m <= pc@.len(),
            pv == views(pc@),
            bv == views(bc@),
            pv == path_components(path@),
            bv == path_components(base@),
            forall|k: int| 0 <= k < i ==> pv[k] == bv[k],
    {
        assert(pv[i as int] == pc@[i as int]@);
        assert(bv[i as int] == bc@[i as int]@);
        if !same_chars(&pc[i], &bc[i]) {
            assert(pv.subrange(0, m as int)[i as int] != bv[i as int]);
            return None;
        }
    }
    assert(pv.subrange(0, m as int) =~= bv);
    if m == 0 {
        Some(trim_path_end_exec(&pv_chars))
    } else {
        Some(remainder_exec(&pv_chars, m))
    }
}

// ---------------------------------------------------------------------------
// Extensions
// ---------------------------------------------------------------------------

/// The index of the last `c` in `s`, or -1 when there is none.
pub open spec fn last_index_of(s: Seq<char>, c: char) -> int
    decreases s.len(),
{
    if s.len() == 0 {
        -1
    } else if s.last() == c {
        s.len() - 1
    } else {
        last_index_of(s.drop_last(), c)
    }
}

/// The extension of the file name `name`, as `Path::extension` gives it:
/// what follows its last `'.'`, unless there is none, the name begins with
/// that one `'.'`, or the name is `..`.
pub open spec fn spec_extension(name: Seq<char>) -> Option<Seq<char>> {
    let i = last_index_of(name, '.');
    if name == seq!['.', '.'] || i <= 0 {
        None
    } else {
        Some(name.subrange(i + 1, name.len() as int))
    }
}

proof fn lemma_last_index_of(s: Seq<char>, c: char, i: int)
    requires
        0 <= i <= s.len(),
        forall|k: int| i <= k < s.len() ==> #[trigger] s[k] != c,
        i > 0 ==> s[i - 1] == c,
    ensures
        last_index_of(s, c) == i - 1,
    decreases s.len(),
{
    if s.len() > i {
        let t = s.drop_last();
        assert(s.last() != c) by {
            assert(s[s.len() - 1] != c);
        }
        assert forall|k: int| i <= k < t.len() implies #[trigger] t[k] != c by {
            assert(t[k] == s[k]);
        }
        if i > 0 {
            assert(t[i - 1] == s[i - 1]);
        }
        lemma_last_index_of(t, c, i);
    } else if i > 0 {
        assert(s.last() == s[i - 1]);
    }
}

/// The extension of the file name `name`.
pub fn extension(name: &str) -> (r: Option<String>)
    ensures
        opt_view(r) == spec_extension(name@),
{
    let v = text::chars_of(name);
    let n = v.len();
    let mut i = n;
    while i > 0 && v[i - 1] != '.'
        invariant
            n == v@.len(),
            i <= n,
            forall|k: int| i <= k < n ==> #[trigger] v@[k] != '.',
        decreases i,
    {
        i = i - 1;
    }
    proof {
        lemma_last_index_of(v@, '.', i as int);
    }
    if i <= 1 || (n == 2 && v[0] == '.' && v[1] == '.') {
        proof {
            if n == 2 && v@[0] == '.' && v@[1] == '.' {
                assert(v@ =~= seq!['.', '.']);
            }
        }
        None
    } else {
        proof {
            if v@ == seq!['.', '.'] {
                assert(n == 2 && v@[0] == '.' && v@[1] == '.');
            }
        }
        let ext = text::copy_range(&v, i, n);
        Some(text::string_of(&ext))
    }
}

/// A package file is named with the extension `json`.
pub open spec fn is_package_file_name(name: Seq<char>) -> bool {
    spec_extension(name) == Some("json"@)
}

/// Whether the file named `name` is a package file.
pub fn is_package_file(name: &str) -> (r: bool)
    ensures
        r == is_package_file_name(name@),
{
    match extension(name) {
        Some(e) => {
            let ev = text::chars_of(e.as_str());
            let json = text::chars_of("json");
            same_chars(&ev, &json)
        },
        None => false,
    }
}

// ---------------------------------------------------------------------------
// Where a package file lies relative to the registry
// ---------------------------------------------------------------------------

/// `s` holds no `'/'`.
pub open spec fn no_slash(s: Seq<char>) -> bool {
    forall|k: int| 0 <= k < s.len() ==> #[trigger] s[k] != '/'
}

proof fn lemma_split_no_slash(c: Seq<char>)
    requires
        no_slash(c),
    ensures
        split_slash(c) == seq![c],
{
    text::lemma_index_of_char(c, '/', c.len() as int);
}

proof fn lemma_split_len(s: Seq<char>)
    ensures
        split_slash(s).len() >= 1,
        split_slash(s)[0] == s.subrange(0, text::index_of_char(s, '/') as int),
{
    text::lemma_index_of_char_bounds(s, '/');
    if text::index_of_char(s, '/') == s.len() {
        assert(s.subrange(0, s.len() as int) == s);
    }
}

proof fn lemma_split_concat(x: Seq<char>, y: Seq<char>)
    ensures
        split_slash(x + seq!['/'] + y) == split_slash(x) + split_slash(y),
    decreases x.len(),
{
    let s = x + seq!['/'] + y;
    text::lemma_index_of_char_bounds(x, '/');
    let i = text::index_of_char(x, '/') as int;
    assert forall|k: int| 0 <= k < i implies #[trigger] s[k] != '/' by {
        assert(s[k] == x[k]);
    }
    text::lemma_index_of_char(s, '/', i);
    if i < x.len() {
        let x1 = x.subrange(i + 1, x.len() as int);
        lemma_split_concat(x1, y);
        assert(s.subrange(0, i) == x.subrange(0, i));
        assert(s.subrange(i + 1, s.len() as int) =~= x1 + seq!['/'] + y);
        assert(split_slash(s) == seq![x.subrange(0, i)] + split_slash(x1 + seq!['/'] + y));
        assert(split_slash(x) == seq![x.subrange(0, i)] + split_slash(x1));
        assert(split_slash(s) =~= split_slash(x) + split_slash(y));
    } else {
        assert(s.subrange(0, i) == x);
        assert(s.subrange(i + 1, s.len() as int) =~= y);
        assert(split_slash(x) == seq![x]) by {
            assert(x.subrange(0, x.len() as int) == x);
        }
    }
}

proof fn lemma_keep_normal_concat(a: Seq<Seq<char>>, b: Seq<Seq<char>>)
    ensures
        keep_normal(a + b) == keep_normal(a) + keep_normal(b),
    decreases b.len(),
{
    if b.len() == 0 {
        assert(a + b =~= a);
    } else {
        lemma_keep_normal_concat(a, b.drop_last());
        assert((a + b).drop_last() =~= a + b.drop_last());
        assert((a + b).last() == b.last());
        if is_normal(b.last()) {
            assert(keep_normal(a + b) =~= keep_normal(a) + keep_normal(b));
        }
    }
}

/// Pushing a component that holds no `'/'` onto a path adds it to the
/// path's components (an empty one or `.` adds nothing).
pub proof fn lemma_components_of_join(b: Seq<char>, c: Seq<char>)
    requires
        no_slash(c),
        c != seq!['.'],
    ensures
        path_components(spec_join(b, c)) == path_components(b) + keep_normal(seq![c]),
{
    let j = spec_join(b, c);
    lemma_split_no_slash(c);
    assert(keep_normal(Seq::<Seq<char>>::empty()) == Seq::<Seq<char>>::empty());
    if b.len() == 0 {
        lemma_split_no_slash(b);
        assert(keep_normal(seq![b]) =~= Seq::<Seq<char>>::empty()) by {
            assert(seq![b].drop_last() =~= Seq::<Seq<char>>::empty());
        }
        assert(j == c);
        if c.len() > 0 {
            assert(c[0] != '/');
        }
        assert(path_components(b) =~= Seq::<Seq<char>>::empty());
        assert(path_components(j) =~= keep_normal(seq![c]));
    } else {
        let (sx, tail) = if b.last() != '/' {
            (split_slash(b), Seq::<Seq<char>>::empty())
        } else {
            (split_slash(b.drop_last()), seq![Seq::<char>::empty()])
        };
        if b.last() != '/' {
            lemma_split_concat(b, c);
            assert(j == b + seq!['/'] + c);
            assert(split_slash(b) =~= sx + tail);
        } else {
            let x = b.drop_last();
            assert(b =~= x + seq!['/'] + Seq::<char>::empty());
            lemma_split_concat(x, Seq::<char>::empty());
            lemma_split_no_slash(Seq::<char>::empty());
            assert(j =~= x + seq!['/'] + c);
            lemma_split_concat(x, c);
        }
        assert(split_slash(j) == sx + seq![c]);
        assert(split_slash(b) == sx + tail);
        lemma_split_len(if b.last() != '/' { b } else { b.drop_last() });
        assert(sx.len() >= 1);
        assert(keep_normal(tail) =~= Seq::<Seq<char>>::empty()) by {
            if tail.len() > 0 {
                assert(tail.drop_last() =~= Seq::<Seq<char>>::empty());
            }
        }
        assert(j[0] == b[0]) by {
            if b.last() != '/' {
                assert(j == b + seq!['/'] + c);
            } else {
                assert(j == b + c);
            }
        }
        assert(split_slash(j)[0] == sx[0]);
        assert(split_slash(b)[0] == sx[0]);
        if b[0] == '/' || sx[0] == seq!['.'] {
            let s1 = sx.drop_first();
            assert(split_slash(j).drop_first() =~= s1 + seq![c]);
            assert(split_slash(b).drop_first() =~= s1 + tail);
            lemma_keep_normal_concat(s1, seq![c]);
            lemma_keep_normal_concat(s1, tail);
            assert(keep_normal(s1 + tail) =~= keep_normal(s1));
            if b[0] == '/' {
                assert(path_components(j) =~= seq![seq!['/']] + keep_normal(s1) + keep_normal(seq![c]));
            } else {
                assert(path_components(j) =~= seq![seq!['.']] + keep_normal(s1) + keep_normal(seq![c]));
            }
        } else {
            lemma_keep_normal_concat(sx, seq![c]);
            lemma_keep_normal_concat(sx, tail);
            assert(keep_normal(sx + tail) =~= keep_normal(sx));
        }
    }
}

/// Where a package file lies inside its registry:
/// `packages/<author slug>/<file name>`, without the author part when the
/// author's slug is empty.
pub open spec fn package_relative_path(author: Seq<char>, title: Seq<char>, year: Option<u16>) -> Seq<
    char,
> {
    let a = naming::spec_slugify(author);
    if a.len() == 0 {
        "packages"@ + seq!['/'] + package_file_name(title, year)
    } else {
        "packages"@ + seq!['/'] + a + seq!['/'] + package_file_name(title, year)
    }
}

proof fn lemma_decimal_no_slash(n: nat)
    ensures
        no_slash(text::spec_decimal(n)),
    decreases n,
{
    if n >= 10 {
        lemma_decimal_no_slash(n / 10);
        let d = text::spec_decimal(n);
        assert forall|k: int| 0 <= k < d.len() implies #[trigger] d[k] != '/' by {
            if k < d.len() - 1 {
                assert(d[k] == text::spec_decimal(n / 10)[k]);
            } else {
                assert(d[k] == text::digit_char(n % 10));
                lemma_digit_not_slash(n % 10);
            }
        }
    } else {
        lemma_digit_not_slash(n);
    }
}

proof fn lemma_digit_not_slash(d: nat)
    requires
        d < 10,
    ensures
        text::digit_char(d) != '/',
{
    let b = (48 + d) as u8;
    assert(b == 48 + d);
    assert(b as char != '/');
}

proof fn lemma_no_slash_concat(a: Seq<char>, b: Seq<char>)
    requires
        no_slash(a),
        no_slash(b),
    ensures
        no_slash(a + b),
{
    assert forall|k: int| 0 <= k < (a + b).len() implies #[trigger] (a + b)[k] != '/' by {
        if k < a.len() {
            assert((a + b)[k] == a[k]);
        } else {
            assert((a + b)[k] == b[k - a.len()]);
        }
    }
}

proof fn lemma_slug_no_slash(s: Seq<char>)
    ensures
        no_slash(naming::spec_slugify(s)),
        naming::spec_slugify(s) != seq!['.'],
{
    naming::lemma_slug_is_path_safe(s);
    let g = naming::spec_slugify(s);
    assert forall|k: int| 0 <= k < g.len() implies #[trigger] g[k] != '/' by {
        assert(!naming::is_separator(g[k]));
    }
    if g == seq!['.'] {
        assert(!naming::is_separator(g[0]));
    }
}

proof fn lemma_keep_one(c: Seq<char>)
    ensures
        keep_normal(seq![c]) == if is_normal(c) {
            seq![c]
        } else {
            Seq::<Seq<char>>::empty()
        },
{
    assert(seq![c].drop_last() =~= Seq::<Seq<char>>::empty());
    assert(keep_normal(Seq::<Seq<char>>::empty()) == Seq::<Seq<char>>::empty());
    assert(Seq::<Seq<char>>::empty().push(c) =~= seq![c]);
}

/// The pieces of `b` that a component pushed onto `b` follows.
pub open spec fn leading_segs(b: Seq<char>) -> Seq<Seq<char>> {
    if b.len() > 0 && b.last() == '/' {
        split_slash(b).drop_last()
    } else {
        split_slash(b)
    }
}

proof fn lemma_split_of_join(b: Seq<char>, c: Seq<char>)
    requires
        b.len() > 0,
        no_slash(c),
    ensures
        split_slash(spec_join(b, c)) == leading_segs(b) + seq![c],
        leading_segs(b).len() >= 1,
        spec_join(b, c)[0] == b[0],
        c.len() > 0 ==> spec_join(b, c).last() == c.last(),
        c.len() == 0 ==> spec_join(b, c).last() == '/',
{
    let j = spec_join(b, c);
    lemma_split_no_slash(c);
    if c.len() > 0 {
        assert(c[0] != '/');
    }
    if b.last() != '/' {
        lemma_split_concat(b, c);
        assert(j == b + seq!['/'] + c);
        lemma_split_len(b);
    } else {
        let x = b.drop_last();
        assert(b =~= x + seq!['/'] + Seq::<char>::empty());
        lemma_split_concat(x, Seq::<char>::empty());
        lemma_split_no_slash(Seq::<char>::empty());
        assert(j =~= x + seq!['/'] + c);
        lemma_split_concat(x, c);
        lemma_split_len(x);
        assert(split_slash(b).drop_last() =~= split_slash(x));
    }
}

proof fn lemma_count_mono(s: Seq<char>, segs: Seq<Seq<char>>, x: int, y: int)
    requires
        0 <= x <= y <= segs.len(),
    ensures
        count_comps(s, segs, x) <= count_comps(s, segs, y),
        count_comps(s, segs, y) <= count_comps(s, segs, x) + (y - x),
    decreases y - x,
{
    if x < y {
        lemma_count_step(s, segs, y - 1);
        lemma_count_mono(s, segs, x, y - 1);
    }
}

proof fn lemma_join_three(p: Seq<char>, a: Seq<char>, f: Seq<char>)
    ensures
        join_with_slash(seq![p, f]) == p + seq!['/'] + f,
        join_with_slash(seq![p, a, f]) == p + seq!['/'] + a + seq!['/'] + f,
{
    assert(seq![p, f].drop_first() =~= seq![f]);
    assert(seq![p, a, f].drop_first() =~= seq![a, f]);
    assert(seq![a, f].drop_first() =~= seq![f]);
    assert(join_with_slash(seq![f]) == f);
    assert(join_with_slash(seq![a, f]) == a + seq!['/'] + f);
    assert(p + seq!['/'] + (a + seq!['/'] + f) =~= p + seq!['/'] + a + seq!['/'] + f);
}

proof fn lemma_nonempty_has_component(base: Seq<char>)
    requires
        base.len() > 0,
    ensures
        path_components(base).len() >= 1,
{
    lemma_split_len(base);
    if !(base[0] == '/') {
        let sb = split_slash(base);
        text::lemma_index_of_char_bounds(base, '/');
        assert(text::index_of_char(base, '/') > 0);
        assert(sb[0].len() > 0);
        if sb[0] != seq!['.'] {
            lemma_keep_normal_concat(seq![sb[0]], sb.drop_first());
            assert(sb =~= seq![sb[0]] + sb.drop_first());
            lemma_keep_one(sb[0]);
        }
    }
}

/// When the pieces of `path` end with `tail`, all naming components, and
/// `path` has `k > 0` components more than `tail`, taking `k` components off
/// leaves exactly `tail`.
proof fn lemma_remainder_is_tail(path: Seq<char>, sp: Seq<Seq<char>>, tail: Seq<Seq<char>>, k: nat)
    requires
        split_slash(path) == sp + tail,
        sp.len() >= 1,
        tail.len() >= 1,
        forall|j: int| 0 <= j < tail.len() ==> is_normal(#[trigger] tail[j]),
        path_components(path).len() == k + tail.len(),
        k >= 1,
    ensures
        remainder_after(path, k) == join_with_slash(tail),
{
    let segs = split_slash(path);
    let m = segs.len() as int;
    let q = sp.len() as int;
    assert(count_comps(path, segs, m) == k + tail.len()) by {
        assert(segs.take(m) == segs);
    }
    assert forall|i: int| q <= i < m implies is_normal(#[trigger] segs[i]) by {
        assert(segs[i] == tail[i - q]);
    }
    lemma_count_up(path, segs, q, m);
    assert(count_comps(path, segs, q) == k);
    lemma_start_after(path, segs, k, 0);
    let start = start_after(path, segs, k, 0) as int;
    if start > q {
        assert(count_comps(path, segs, q) < k);
    }
    lemma_count_mono(path, segs, start, q);
    assert(count_comps(path, segs, start) == k);
    assert(start >= 1) by {
        if start == 0 {
            assert(count_comps(path, segs, 0) == 0);
        }
    }
    let r = segs.subrange(start, m);
    assert forall|j: int| 0 <= j < q - start implies !is_normal(#[trigger] r[j]) by {
        assert(r[j] == segs[start + j]);
        lemma_count_step(path, segs, start + j);
        lemma_count_mono(path, segs, start, start + j);
        lemma_count_mono(path, segs, start + j + 1, q);
    }
    assert(r[q - start] == tail[0]);
    lemma_drop_leading_odd_at(r, q - start);
    assert(r.subrange(q - start, r.len() as int) =~= tail);
    lemma_drop_trailing_odd_at(tail, tail.len() as int);
    assert(tail.subrange(0, tail.len() as int) == tail);
}

proof fn lemma_count_up(s: Seq<char>, segs: Seq<Seq<char>>, q: int, j: int)
    requires
        1 <= q <= j <= segs.len(),
        forall|i: int| q <= i < j ==> is_normal(#[trigger] segs[i]),
    ensures
        count_comps(s, segs, j) == count_comps(s, segs, q) + (j - q),
    decreases j - q,
{
    if j > q {
        lemma_count_up(s, segs, q, j - 1);
        lemma_count_step(s, segs, j - 1);
        assert(is_normal(segs[j - 1]));
    }
}

/// The pieces of a package path after those of its registry: `packages`,
/// the author slug (when not empty) and the file name.
pub open spec fn package_tail(author: Seq<char>, title: Seq<char>, year: Option<u16>) -> Seq<Seq<char>> {
    let a = naming::spec_slugify(author);
    if a.len() == 0 {
        seq!["packages"@, package_file_name(title, year)]
    } else {
        seq!["packages"@, a, package_file_name(title, year)]
    }
}

proof fn lemma_package_parts(title: Seq<char>, year: Option<u16>)
    ensures
        no_slash("packages"@),
        is_normal("packages"@),
        "packages"@[0] != '/',
        "packages"@.last() != '/',
        no_slash(package_file_name(title, year)),
        is_normal(package_file_name(title, year)),
{
    reveal_strlit("packages");
    reveal_strlit("-");
    reveal_strlit(".json");
    reveal_strlit("unknown");
    let f = package_file_name(title, year);
    lemma_slug_no_slash(title);
    match year {
        Some(y) => lemma_decimal_no_slash(y as nat),
        None => {},
    }
    lemma_no_slash_concat(naming::spec_slugify(title), "-"@);
    lemma_no_slash_concat(naming::spec_slugify(title) + "-"@, naming::year_text(year));
    lemma_no_slash_concat(naming::spec_slugify(title) + "-"@ + naming::year_text(year), ".json"@);
    assert(f.len() >= 5);
}

proof fn lemma_package_path_pieces(base: Seq<char>, author: Seq<char>, title: Seq<char>, year: Option<u16>)
    ensures
        split_slash(spec_package_path(base, author, title, year)) == (if base.len() == 0 {
            Seq::<Seq<char>>::empty()
        } else {
            leading_segs(base)
        }) + package_tail(author, title, year),
        base.len() > 0 ==> leading_segs(base).len() >= 1,
        base.len() > 0 ==> spec_package_path(base, author, title, year)[0] == base[0],
        base.len() == 0 ==> spec_package_path(base, author, title, year)[0] != '/',
{
    let p = "packages"@;
    let a = naming::spec_slugify(author);
    let f = package_file_name(title, year);
    lemma_package_parts(title, year);
    lemma_slug_no_slash(author);
    let p1 = spec_join(base, p);
    let p2 = spec_join(p1, a);
    let sp = if base.len() == 0 { Seq::<Seq<char>>::empty() } else { leading_segs(base) };
    if base.len() == 0 {
        assert(p1 == p);
        lemma_split_no_slash(p);
    } else {
        lemma_split_of_join(base, p);
    }
    assert(p1.len() > 0 && p1.last() == p.last());
    assert(leading_segs(p1) == sp + seq![p]);
    lemma_split_of_join(p1, a);
    lemma_split_of_join(p2, f);
    if a.len() == 0 {
        assert(split_slash(p2).drop_last() =~= sp + seq![p]);
    } else {
        assert(a.last() != '/') by {
            assert(a[a.len() - 1] != '/');
        }
    }
    assert(split_slash(spec_join(p2, f)) =~= sp + package_tail(author, title, year));
}

/// A package file made by `package_path` under `base` lies, relative to
/// `base`, at `packages/<author slug>/<file name>` (the author part left out
/// when the slug is empty), whatever `base` is.
pub proof fn lemma_package_path_relative(
    base: Seq<char>,
    author: Seq<char>,
    title: Seq<char>,
    year: Option<u16>,
)
    ensures
        spec_relative(spec_package_path(base, author, title, year), base) == Some(
            package_relative_path(author, title, year),
        ),
{
    let p = "packages"@;
    let a = naming::spec_slugify(author);
    let f = package_file_name(title, year);
    lemma_package_parts(title, year);
    lemma_slug_no_slash(author);
    let p1 = spec_join(base, p);
    let p2 = spec_join(p1, a);
    let path = spec_join(p2, f);
    lemma_components_of_join(base, p);
    lemma_components_of_join(p1, a);
    lemma_components_of_join(p2, f);
    lemma_keep_one(p);
    lemma_keep_one(f);
    lemma_keep_one(a);
    let bc = path_components(base);
    let pc = path_components(path);
    let tail = package_tail(author, title, year);
    assert(pc =~= bc + seq![p] + keep_normal(seq![a]) + seq![f]);
    assert(pc.subrange(0, bc.len() as int) =~= bc);
    lemma_join_three(p, a, f);
    assert(join_with_slash(tail) == package_relative_path(author, title, year));
    lemma_package_path_pieces(base, author, title, year);
    assert forall|j: int| 0 <= j < tail.len() implies is_normal(#[trigger] tail[j]) by {
        if a.len() > 0 && j == 1 {
            assert(is_normal(a));
        }
    }
    if base.len() == 0 {
        assert(bc =~= Seq::<Seq<char>>::empty()) by {
            lemma_split_no_slash(base);
            assert(split_slash(base) == seq![base]);
            assert(seq![base][0] == base);
            assert(base != seq!['.']) by {
                assert(seq!['.'].len() == 1);
            }
            assert(!is_normal(base));
            assert(seq![base].drop_last() =~= Seq::<Seq<char>>::empty());
            assert(keep_normal(seq![base]) == keep_normal(Seq::<Seq<char>>::empty()));
            assert(keep_normal(Seq::<Seq<char>>::empty()) == Seq::<Seq<char>>::empty());
        }
        let segs = split_slash(path);
        assert(segs =~= tail);
        assert(seg_is_comp(path, segs, segs.len() - 1));
        assert(tail_kept(path, segs) == segs);
    } else {
        lemma_nonempty_has_component(base);
        lemma_remainder_is_tail(path, leading_segs(base), tail, bc.len());
    }
}


/// Pushing a relative path `c` onto a path `b` that is not empty puts the
/// pieces of `c` after those of `b`.
proof fn lemma_split_of_join_path(b: Seq<char>, c: Seq<char>)
    requires
        b.len() > 0,
        c.len() > 0,
        c[0] != '/',
    ensures
        split_slash(spec_join(b, c)) == leading_segs(b) + split_slash(c),
        split_slash(b) == leading_segs(b) + (if b.last() == '/' {
            seq![Seq::<char>::empty()]
        } else {
            Seq::<Seq<char>>::empty()
        }),
        leading_segs(b).len() >= 1,
        spec_join(b, c)[0] == b[0],
{
    let j = spec_join(b, c);
    if b.last() != '/' {
        lemma_split_concat(b, c);
        assert(j == b + seq!['/'] + c);
        lemma_split_len(b);
        assert(split_slash(b) + Seq::<Seq<char>>::empty() =~= split_slash(b));
    } else {
        let x = b.drop_last();
        assert(b =~= x + seq!['/'] + Seq::<char>::empty());
        lemma_split_concat(x, Seq::<char>::empty());
        lemma_split_no_slash(Seq::<char>::empty());
        assert(j =~= x + seq!['/'] + c);
        lemma_split_concat(x, c);
        lemma_split_len(x);
        assert(split_slash(b).drop_last() =~= split_slash(x));
        assert(split_slash(b) =~= split_slash(x) + seq![Seq::<char>::empty()]);
    }
}

/// Pushing a relative path `c` onto a path `b` that is not empty adds the
/// components that the pieces of `c` name to those of `b`.
pub proof fn lemma_components_of_join_path(b: Seq<char>, c: Seq<char>)
    requires
        b.len() > 0,
        c.len() > 0,
        c[0] != '/',
    ensures
        path_components(spec_join(b, c)) == path_components(b) + keep_normal(split_slash(c)),
{
    let j = spec_join(b, c);
    lemma_split_of_join_path(b, c);
    let sx = leading_segs(b);
    let tail = if b.last() == '/' {
        seq![Seq::<char>::empty()]
    } else {
        Seq::<Seq<char>>::empty()
    };
    let sc = split_slash(c);
    assert(keep_normal(tail) =~= Seq::<Seq<char>>::empty()) by {
        assert(keep_normal(Seq::<Seq<char>>::empty()) == Seq::<Seq<char>>::empty());
        if tail.len() > 0 {
            assert(tail.drop_last() =~= Seq::<Seq<char>>::empty());
        }
    }
    assert(split_slash(j)[0] == sx[0]);
    assert(split_slash(b)[0] == sx[0]);
    if b[0] == '/' || sx[0] == seq!['.'] {
        let s1 = sx.drop_first();
        assert(split_slash(j).drop_first() =~= s1 + sc);
        assert(split_slash(b).drop_first() =~= s1 + tail);
        lemma_keep_normal_concat(s1, sc);
        lemma_keep_normal_concat(s1, tail);
        assert(keep_normal(s1 + tail) =~= keep_normal(s1));
        if b[0] == '/' {
            assert(path_components(j) =~= seq![seq!['/']] + keep_normal(s1) + keep_normal(sc));
        } else {
            assert(path_components(j) =~= seq![seq!['.']] + keep_normal(s1) + keep_normal(sc));
        }
    } else {
        lemma_keep_normal_concat(sx, sc);
        lemma_keep_normal_concat(sx, tail);
        assert(keep_normal(sx + tail) =~= keep_normal(sx));
    }
}

/// Every component that `keep_normal` keeps is one of the pieces, and names
/// a component.
pub proof fn lemma_keep_normal_members(segs: Seq<Seq<char>>)
    ensures
        forall|i: int|
            0 <= i < keep_normal(segs).len() ==> is_normal(#[trigger] keep_normal(segs)[i])
                && segs.contains(keep_normal(segs)[i]),
        (exists|i: int| 0 <= i < segs.len() && is_normal(#[trigger] segs[i])) ==> keep_normal(
            segs,
        ).len() > 0,
    decreases segs.len(),
{
    if segs.len() > 0 {
        let init = segs.drop_last();
        lemma_keep_normal_members(init);
        let k = keep_normal(segs);
        assert forall|i: int| 0 <= i < k.len() implies is_normal(#[trigger] k[i]) && segs.contains(
            k[i],
        ) by {
            if is_normal(segs.last()) && i == k.len() - 1 {
                assert(segs[segs.len() - 1] == k[i]);
            } else {
                let x = keep_normal(init)[i];
                assert(k[i] == x);
                let w = choose|m: int| 0 <= m < init.len() && init[m] == x;
                assert(segs[w] == x);
            }
        }
        if exists|i: int| 0 <= i < segs.len() && is_normal(#[trigger] segs[i]) {
            let w = choose|i: int| 0 <= i < segs.len() && is_normal(#[trigger] segs[i]);
            if w < segs.len() - 1 {
                assert(is_normal(init[w]));
            }
        }
    }
}

/// Taking a path's base back off: a component that names itself and holds
/// no `'/'`, pushed onto `b`, is exactly what is left relative to `b`.
pub proof fn lemma_relative_of_join(b: Seq<char>, c: Seq<char>)
    requires
        no_slash(c),
        is_normal(c),
    ensures
        spec_relative(spec_join(b, c), b) == Some(c),
{
    let path = spec_join(b, c);
    lemma_components_of_join(b, c);
    lemma_keep_one(c);
    let bc = path_components(b);
    let pc = path_components(path);
    assert(pc =~= bc + seq![c]);
    assert(pc.subrange(0, bc.len() as int) =~= bc);
    assert(join_with_slash(seq![c]) == c);
    assert(c[0] != '/');
    if b.len() == 0 {
        assert(bc =~= Seq::<Seq<char>>::empty()) by {
            lemma_split_no_slash(b);
            assert(split_slash(b) == seq![b]);
            assert(seq![b][0] == b);
            assert(b != seq!['.']) by {
                assert(seq!['.'].len() == 1);
            }
            assert(!is_normal(b));
            assert(seq![b].drop_last() =~= Seq::<Seq<char>>::empty());
            assert(keep_normal(seq![b]) == keep_normal(Seq::<Seq<char>>::empty()));
            assert(keep_normal(Seq::<Seq<char>>::empty()) == Seq::<Seq<char>>::empty());
        }
        assert(path == c);
        lemma_split_no_slash(c);
        let segs = split_slash(path);
        assert(seg_is_comp(path, segs, 0));
        assert(tail_kept(path, segs) == segs);
    } else {
        lemma_nonempty_has_component(b);
        lemma_split_of_join(b, c);
        assert forall|j: int| 0 <= j < seq![c].len() implies is_normal(#[trigger] seq![c][j]) by {}
        lemma_remainder_is_tail(path, leading_segs(b), seq![c], bc.len());
    }
}

} // verus!
