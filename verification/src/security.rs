//! Checks applied to a downloaded file while it sits in quarantine: its
//! size, its detected MIME type against the expected extension, and its
//! SHA-256 checksum.

use vstd::prelude::*;
use sha2::Digest;
use crate::paths;
use crate::text;
use crate::types::opt_view;

verus! {

// ---------------------------------------------------------------------------
// MIME detection
// ---------------------------------------------------------------------------

/// How many leading bytes of a file its MIME type is detected from, as
/// `infer::get_from_path` does.
pub const MIME_SNIFF_LEN: usize = 8192;

/// The MIME type that `infer::get` recognizes from the bytes `data` (by
/// their magic numbers), if any.
pub uninterp spec fn spec_infer_mime(data: Seq<u8>) -> Option<Seq<char>>;

/// Calls `infer::get` and takes the MIME type of what it recognizes; the
/// answer is named `spec_infer_mime`, and which magic numbers `infer` knows
/// is not stated here.
///
/// The buffer is limited to `MIME_SNIFF_LEN` bytes. On skippable Zstandard
/// frames `infer` recurses once per 8 bytes, so a long buffer can exhaust
/// the stack; 8192 bytes nest at most 1024 calls. The target must be 64-bit:
/// that matcher adds a 32-bit frame length read from the data to 8 in a
/// `usize`, which overflows on a 32-bit target. A buffer that begins with
/// the OLE2 signature goes to `cfb::CompoundFile::open`; that it returns on
/// every such buffer is not stated beyond the bound on its length.
#[verifier::external_body]
fn infer_mime(data: &[u8]) -> (r: Option<String>)
    requires
        data@.len() <= MIME_SNIFF_LEN,
        usize::BITS == 64,
    ensures
        opt_view(r) == spec_infer_mime(data@),
{
    match infer::get(data) {
        Some(kind) => Some(kind.mime_type().to_string()),
        None => None,
    }
}

/// The leading bytes of `data` that its MIME type is detected from.
pub open spec fn sniffed(data: Seq<u8>) -> Seq<u8> {
    if data.len() <= MIME_SNIFF_LEN {
        data
    } else {
        data.take(MIME_SNIFF_LEN as int)
    }
}

/// The MIME type of a file's content: what `infer` recognizes in its first
/// `MIME_SNIFF_LEN` bytes, else `application/octet-stream`. A type whose
/// signature lies further into the file (such as an ISO 9660 image) is
/// not recognized.
pub open spec fn spec_detect_mime(data: Seq<u8>) -> Seq<char> {
    match spec_infer_mime(sniffed(data)) {
        Some(m) => m,
        None => "application/octet-stream"@,
    }
}

/// The MIME type of the file content `data`, from its first
/// `MIME_SNIFF_LEN` bytes (on a 64-bit target, which `infer` needs).
pub fn detect_mime(data: &[u8]) -> (r: String)
    requires
        usize::BITS == 64,
    ensures
        r@ == spec_detect_mime(data@),
        data@.len() <= 8192 ==> r@ == match spec_infer_mime(data@) {
            Some(m) => m,
            None => "application/octet-stream"@,
        },
{
    let n = if data.len() <= MIME_SNIFF_LEN { data.len() } else { MIME_SNIFF_LEN };
    let mut head: Vec<u8> = Vec::new();
    for i in 0..n
        invariant
            n <= data@.len(),
            n <= MIME_SNIFF_LEN,
            head@ == data@.take(i as int),
    {
        head.push(data[i]);
        assert(data@.take(i + 1) == data@.take(i as int).push(data@[i as int]));
    }
    assert(head@ =~= sniffed(data@));
    assert(data@.len() <= 8192 ==> sniffed(data@) == data@);
    match infer_mime(head.as_slice()) {
        Some(m) => m,
        None => String::from_str("application/octet-stream"),
    }
}

/// MIME detection reads the first 8192 bytes of the content, or all of it
/// when shorter: on content of at most 8192 bytes it is exactly what
/// `infer` recognizes in the whole content (else
/// `application/octet-stream`), and longer content is detected as its first
/// 8192 bytes are.
pub proof fn lemma_detect_mime_reads_leading_bytes(data: Seq<u8>)
    ensures
        sniffed(data) == data.take(if data.len() <= 8192 { data.len() as int } else { 8192 }),
        data.len() <= 8192 ==> spec_detect_mime(data) == match spec_infer_mime(data) {
            Some(m) => m,
            None => "application/octet-stream"@,
        },
        data.len() > 8192 ==> spec_detect_mime(data) == spec_detect_mime(data.take(8192)),
{
    assert(data.take(data.len() as int) =~= data);
    if data.len() > 8192 {
        assert(data.take(8192).take(8192) =~= data.take(8192));
    }
}

// ---------------------------------------------------------------------------
// Checksums
// ---------------------------------------------------------------------------

/// The SHA-256 digest of `data`.
pub uninterp spec fn spec_sha256(data: Seq<u8>) -> Seq<u8>;

/// Calls `Sha256::digest` from `sha2`; the digest is named `spec_sha256`
/// and, SHA-256 being a 256-bit hash, has 32 bytes.
#[verifier::external_body]
fn sha256_digest(data: &[u8]) -> (d: Vec<u8>)
    ensures
        d@ == spec_sha256(data@),
        d@.len() == 32,
{
    sha2::Sha256::digest(data).to_vec()
}

/// The lowercase hexadecimal digit for `n < 16`.
pub open spec fn hex_digit(n: nat) -> char {
    if n < 10 {
        ((48 + n) as u8) as char
    } else {
        ((87 + n) as u8) as char
    }
}

/// `bytes` in lowercase hexadecimal, two digits per byte, as `{:x}` prints
/// a digest.
pub open spec fn spec_hex_lower(bytes: Seq<u8>) -> Seq<char>
    decreases bytes.len(),
{
    if bytes.len() == 0 {
        Seq::empty()
    } else {
        spec_hex_lower(bytes.drop_last()).push(hex_digit((bytes.last() / 16) as nat)).push(
            hex_digit((bytes.last() % 16) as nat),
        )
    }
}

fn hex_digit_exec(n: u8) -> (c: char)
    requires
        n < 16,
    ensures
        c == hex_digit(n as nat),
{
    if n < 10 {
        ((48 + n) as u8) as char
    } else {
        ((87 + n) as u8) as char
    }
}

proof fn lemma_hex_len(bytes: Seq<u8>)
    ensures
        spec_hex_lower(bytes).len() == 2 * bytes.len(),
    decreases bytes.len(),
{
    if bytes.len() > 0 {
        lemma_hex_len(bytes.drop_last());
    }
}

/// `data` in lowercase hexadecimal.
pub fn hex_lower(data: &[u8]) -> (r: String)
    ensures
        r@ == spec_hex_lower(data@),
        r@.len() == 2 * data@.len(),
{
    let mut r = String::new();
    let n = data.len();
    for i in 0..n
        invariant
            n == data@.len(),
            r@ == spec_hex_lower(data@.take(i as int)),
    {
        let b = data[i];
        text::push_char(&mut r, hex_digit_exec(b / 16));
        text::push_char(&mut r, hex_digit_exec(b % 16));
        assert(data@.take(i + 1).drop_last() == data@.take(i as int));
        assert(data@.take(i + 1).last() == b);
    }
    assert(data@.take(n as int) == data@);
    proof {
        lemma_hex_len(data@);
    }
    r
}

/// The SHA-256 checksum of `data`, as 64 lowercase hexadecimal digits.
pub fn sha256_hex(data: &[u8]) -> (r: String)
    ensures
        r@ == spec_hex_lower(spec_sha256(data@)),
        r@.len() == 64,
{
    let d = sha256_digest(data);
    hex_lower(d.as_slice())
}

// ---------------------------------------------------------------------------
// Quarantine checks
// ---------------------------------------------------------------------------

/// Why a file in quarantine was refused.
#[derive(Debug, PartialEq)]
pub enum QuarantineError {
    /// The file is larger than allowed; its size in whole megabytes.
    TooLarge { size_mb: u64 },
    /// The detected MIME type does not fit the expected extension.
    MimeMismatch { ext: String, mime: String },
}

/// The size of `len` bytes in whole megabytes (of 1024 * 1024 bytes).
pub open spec fn size_in_mb(len: u64) -> u64 {
    len / 1048576u64
}

/// Refuses a file of `len` bytes whose size in whole megabytes exceeds
/// `max_size_mb`.
pub fn check_size(len: u64, max_size_mb: u64) -> (r: Result<(), QuarantineError>)
    ensures
        r is Ok <==> size_in_mb(len) <= max_size_mb,
        r matches Err(e) ==> e == (QuarantineError::TooLarge { size_mb: size_in_mb(len) }),
{
    let size_mb = len / (1024 * 1024);
    if size_mb > max_size_mb {
        Err(QuarantineError::TooLarge { size_mb })
    } else {
        Ok(())
    }
}

/// The extension and MIME type agree: `pdf` with `application/pdf`, or
/// `epub` with `application/epub+zip`.
pub open spec fn extension_fits(ext: Seq<char>, mime: Seq<char>) -> bool {
    (ext == "pdf"@ && mime == "application/pdf"@) || (ext == "epub"@ && mime
        == "application/epub+zip"@)
}

/// Refuses a MIME type that does not fit the expected extension; with no
/// expected extension, any type is accepted.
pub fn check_mime_for_extension(expect_ext: Option<&str>, mime: &str) -> (r: Result<
    (),
    QuarantineError,
>)
    ensures
        match expect_ext {
            None => r is Ok,
            Some(ext) => if extension_fits(ext@, mime@) {
                r is Ok
            } else {
                r matches Err(QuarantineError::MimeMismatch { ext: e, mime: m }) && e@ == ext@ && m@
                    == mime@
            },
        },
{
    match expect_ext {
        None => Ok(()),
        Some(ext) => {
            let e = String::from_str(ext);
            let m = String::from_str(mime);
            let pdf = String::from_str("pdf");
            let epub = String::from_str("epub");
            let app_pdf = String::from_str("application/pdf");
            let app_epub = String::from_str("application/epub+zip");
            if (e == pdf && m == app_pdf) || (e == epub && m == app_epub) {
                Ok(())
            } else {
                Err(QuarantineError::MimeMismatch { ext: e, mime: m })
            }
        },
    }
}

/// Inspects the content of a file in quarantine: detects its MIME type and
/// refuses it when that does not fit the expected extension; otherwise gives
/// the MIME type.
pub fn check_quarantine_content(data: &[u8], expect_ext: Option<&str>) -> (r: Result<
    String,
    QuarantineError,
>)
    requires
        usize::BITS == 64,
    ensures
        match expect_ext {
            Some(ext) => r is Ok <==> extension_fits(ext@, spec_detect_mime(data@)),
            None => r is Ok,
        },
        r matches Err(e) ==> (expect_ext matches Some(ext) && e matches QuarantineError::MimeMismatch { ext: x, mime: m } && x@ == ext@ && m@ == spec_detect_mime(data@)),
        r matches Ok(mime) ==> mime@ == spec_detect_mime(data@),
{
    let mime = detect_mime(data);
    match check_mime_for_extension(expect_ext, mime.as_str()) {
        Err(e) => Err(e),
        Ok(()) => Ok(mime),
    }
}

// ---------------------------------------------------------------------------
// Where quarantined and stored files go
// ---------------------------------------------------------------------------

/// A relative path that stays inside the folder it is put in: not empty,
/// not starting with `'/'`, with no piece `..` and at least one piece that
/// names a component (such as `kant.pdf` or `sub/kant.pdf`).
pub open spec fn is_inside_name(name: Seq<char>) -> bool {
    let segs = paths::split_slash(name);
    &&& name.len() > 0
    &&& name[0] != '/'
    &&& forall|i: int| 0 <= i < segs.len() ==> #[trigger] segs[i] != ".."@
    &&& exists|i: int| 0 <= i < segs.len() && paths::is_normal(#[trigger] segs[i])
}

/// Whether `name` stays inside the folder it is put in.
pub fn inside_name(name: &str) -> (r: bool)
    ensures
        r == is_inside_name(name@),
{
    let v = text::chars_of(name);
    if v.len() == 0 || v[0] == '/' {
        return false;
    }
    let segs = paths::split_on_slash(&v);
    let ghost sv = paths::views(segs@);
    let m = segs.len();
    let mut normal = false;
    for i in 0..m
        invariant
            m == segs@.len(),
            sv == paths::views(segs@),
            sv == paths::split_slash(v@),
            v@ == name@,
            forall|k: int| 0 <= k < i ==> #[trigger] sv[k] != ".."@,
            normal <==> exists|k: int| 0 <= k < i && paths::is_normal(#[trigger] sv[k]),
    {
        let seg = &segs[i];
        assert(sv[i as int] == seg@);
        proof {
            reveal_strlit("..");
        }
        if seg.len() == 2 && seg[0] == '.' && seg[1] == '.' {
            assert(seg@ =~= ".."@);
            assert(sv[i as int] == ".."@);
            return false;
        }
        assert(seg@ != ".."@) by {
            if seg@ == ".."@ {
                assert(seg@.len() == 2 && seg@[0] == '.' && seg@[1] == '.');
            }
        }
        if !(seg.len() == 0 || (seg.len() == 1 && seg[0] == '.')) {
            assert(paths::is_normal(seg@)) by {
                if seg@ == seq!['.'] {
                    assert(seg@.len() == 1);
                }
            }
            normal = true;
        } else {
            assert(!paths::is_normal(seg@)) by {
                if seg@.len() == 1 {
                    assert(seg@ =~= seq!['.']);
                }
            }
        }
    }
    normal
}

/// Any file name without `'/'` other than the empty name, `.` and `..`
/// stays inside its folder, whatever characters it holds (spaces, letters,
/// digits, punctuation).
pub proof fn lemma_simple_names_stay_inside(name: Seq<char>)
    requires
        name.len() > 0,
        forall|k: int| 0 <= k < name.len() ==> #[trigger] name[k] != '/',
        name != seq!['.'],
        name != seq!['.', '.'],
    ensures
        is_inside_name(name),
{
    reveal_strlit("..");
    text::lemma_index_of_char(name, '/', name.len() as int);
    assert(name.subrange(0, name.len() as int) == name);
    let segs = paths::split_slash(name);
    assert(segs == seq![name]);
    assert(segs[0] == name);
    assert(".."@ == seq!['.', '.']) by {
        assert(".."@ =~= seq!['.', '.']);
    }
}

/// Two texts of the same shape: equally long, with `'/'` and `'.'` at the
/// same places.
pub open spec fn same_shape(a: Seq<char>, b: Seq<char>) -> bool {
    &&& a.len() == b.len()
    &&& forall|i: int| 0 <= i < a.len() ==> ((a[i] == '/') == (b[i] == '/') && (a[i] == '.') == (
        #[trigger] b[i] == '.'))
}

proof fn lemma_same_shape_sub(a: Seq<char>, b: Seq<char>, i: int, j: int)
    requires
        same_shape(a, b),
        0 <= i <= j <= a.len(),
    ensures
        same_shape(a.subrange(i, j), b.subrange(i, j)),
{
    assert forall|k: int| 0 <= k < j - i implies ((a.subrange(i, j)[k] == '/') == (b.subrange(i, j)[k] == '/') && (a.subrange(i, j)[k] == '.') == (
        #[trigger] b.subrange(i, j)[k] == '.')) by {
        assert(a.subrange(i, j)[k] == a[i + k]);
        assert(b.subrange(i, j)[k] == b[i + k]);
    }
}

proof fn lemma_same_shape_split(a: Seq<char>, b: Seq<char>)
    requires
        same_shape(a, b),
    ensures
        paths::split_slash(a).len() == paths::split_slash(b).len(),
        forall|k: int| 0 <= k < paths::split_slash(a).len() ==> same_shape(
            #[trigger] paths::split_slash(a)[k],
            paths::split_slash(b)[k],
        ),
    decreases a.len(),
{
    text::lemma_index_of_char_bounds(a, '/');
    let i = text::index_of_char(a, '/') as int;
    assert forall|k: int| 0 <= k < i implies #[trigger] b[k] != '/' by {
        assert(a[k] != '/');
    }
    if i < a.len() {
        assert(b[i] == '/');
    }
    text::lemma_index_of_char(b, '/', i);
    lemma_same_shape_sub(a, b, 0, i);
    if i < a.len() {
        let ra = a.subrange(i + 1, a.len() as int);
        let rb = b.subrange(i + 1, b.len() as int);
        lemma_same_shape_sub(a, b, i + 1, a.len() as int);
        lemma_same_shape_split(ra, rb);
        let sa = paths::split_slash(a);
        let sb = paths::split_slash(b);
        assert(sa == seq![a.subrange(0, i)] + paths::split_slash(ra));
        assert(sb == seq![b.subrange(0, i)] + paths::split_slash(rb));
        assert forall|k: int| 0 <= k < sa.len() implies same_shape(#[trigger] sa[k], sb[k]) by {
            if k > 0 {
                assert(sa[k] == paths::split_slash(ra)[k - 1]);
                assert(sb[k] == paths::split_slash(rb)[k - 1]);
            }
        }
    } else {
        assert(a.subrange(0, i) == a);
        assert(b.subrange(0, i) == b);
    }
}

proof fn lemma_same_shape_piece(x: Seq<char>, y: Seq<char>)
    requires
        same_shape(x, y),
    ensures
        paths::is_normal(x) == paths::is_normal(y),
        (x == ".."@) == (y == ".."@),
{
    reveal_strlit("..");
    if x == seq!['.'] {
        assert(y[0] == '.');
        assert(y =~= seq!['.']);
    }
    if y == seq!['.'] {
        assert(y[0] == '.');
        assert(x[0] == '.');
        assert(x =~= seq!['.']);
    }
    if x == ".."@ {
        assert(y[0] == '.' && y[1] == '.');
        assert(y =~= ".."@);
    }
    if y == ".."@ {
        assert(y[0] == '.' && y[1] == '.');
        assert(x[0] == '.' && x[1] == '.');
        assert(x =~= ".."@);
    }
}

/// Whether a name stays inside its folder depends only on where its `'/'`
/// and `'.'` characters stand: replacing any other character by any other
/// such character keeps the answer.
pub proof fn lemma_inside_name_depends_on_slashes_and_dots(a: Seq<char>, b: Seq<char>)
    requires
        same_shape(a, b),
    ensures
        is_inside_name(a) == is_inside_name(b),
{
    lemma_same_shape_split(a, b);
    let sa = paths::split_slash(a);
    let sb = paths::split_slash(b);
    assert forall|i: int| 0 <= i < sa.len() implies (#[trigger] sa[i] == ".."@) == (sb[i] == ".."@)
        && paths::is_normal(sa[i]) == paths::is_normal(sb[i]) by {
        lemma_same_shape_piece(sa[i], sb[i]);
    }
    if a.len() > 0 {
        assert((a[0] == '/') == (b[0] == '/'));
    }
    if exists|i: int| 0 <= i < sa.len() && paths::is_normal(#[trigger] sa[i]) {
        let i = choose|i: int| 0 <= i < sa.len() && paths::is_normal(#[trigger] sa[i]);
        assert(paths::is_normal(sb[i]));
    }
    if exists|i: int| 0 <= i < sb.len() && paths::is_normal(#[trigger] sb[i]) {
        let i = choose|i: int| 0 <= i < sb.len() && paths::is_normal(#[trigger] sb[i]);
        assert(paths::is_normal(sa[i]));
    }
    if exists|i: int| 0 <= i < sa.len() && #[trigger] sa[i] == ".."@ {
        let i = choose|i: int| 0 <= i < sa.len() && #[trigger] sa[i] == ".."@;
        assert(sb[i] == ".."@);
    }
    if exists|i: int| 0 <= i < sb.len() && #[trigger] sb[i] == ".."@ {
        let i = choose|i: int| 0 <= i < sb.len() && #[trigger] sb[i] == ".."@;
        assert(sa[i] == ".."@);
    }
}

/// Where a file named `name` goes in the folder `folder` of the registry at
/// `repo_path`.
pub open spec fn spec_folder_file(repo_path: Seq<char>, folder: Seq<char>, name: Seq<char>) -> Seq<
    char,
> {
    paths::spec_join(paths::spec_join(repo_path, folder), name)
}

/// The path of a downloaded file named `name` in the registry's quarantine
/// folder; names that could lead out of that folder are refused.
pub fn quarantine_path(repo_path: &str, name: &str) -> (r: Option<String>)
    ensures
        is_inside_name(name@) ==> (r matches Some(p) && p@ == spec_folder_file(
            repo_path@,
            "quarantine"@,
            name@,
        )),
        !is_inside_name(name@) ==> r is None,
{
    if inside_name(name) {
        let dir = paths::join_path(repo_path, "quarantine");
        Some(paths::join_path(dir.as_str(), name))
    } else {
        None
    }
}

/// The path of a checked file named `name` in the registry's store folder;
/// names that could lead out of that folder are refused.
pub fn store_path(repo_path: &str, name: &str) -> (r: Option<String>)
    ensures
        is_inside_name(name@) ==> (r matches Some(p) && p@ == spec_folder_file(
            repo_path@,
            "store"@,
            name@,
        )),
        !is_inside_name(name@) ==> r is None,
{
    if inside_name(name) {
        let dir = paths::join_path(repo_path, "store");
        Some(paths::join_path(dir.as_str(), name))
    } else {
        None
    }
}

/// A file put in a folder of the registry under a name that stays inside
/// lies inside that folder: its components are those of the folder followed
/// by at least one more, none of them `..`; it has a path relative to the
/// folder, and a name without `'/'` is that very path.
pub proof fn lemma_folder_file_stays_inside(repo_path: Seq<char>, folder: Seq<char>, name: Seq<char>)
    requires
        folder.len() > 0,
        is_inside_name(name),
    ensures
        ({
            let dir = paths::spec_join(repo_path, folder);
            let rest = paths::keep_normal(paths::split_slash(name));
            &&& paths::path_components(spec_folder_file(repo_path, folder, name))
                == paths::path_components(dir) + rest
            &&& rest.len() > 0
            &&& forall|i: int| 0 <= i < rest.len() ==> #[trigger] rest[i] != ".."@
            &&& paths::spec_relative(spec_folder_file(repo_path, folder, name), dir) is Some
            &&& paths::no_slash(name) ==> paths::spec_relative(
                spec_folder_file(repo_path, folder, name),
                dir,
            ) == Some(name)
        }),
{
    let dir = paths::spec_join(repo_path, folder);
    let segs = paths::split_slash(name);
    let rest = paths::keep_normal(segs);
    assert(dir.len() > 0) by {
        if folder[0] != '/' && repo_path.len() > 0 {
            assert(dir.len() >= repo_path.len());
        }
    }
    paths::lemma_components_of_join_path(dir, name);
    paths::lemma_keep_normal_members(segs);
    assert forall|i: int| 0 <= i < rest.len() implies #[trigger] rest[i] != ".."@ by {
        assert(segs.contains(rest[i]));
    }
    let pc = paths::path_components(spec_folder_file(repo_path, folder, name));
    let bc = paths::path_components(dir);
    assert(pc.subrange(0, bc.len() as int) =~= bc);
    if paths::no_slash(name) {
        assert(segs == seq![name]) by {
            text::lemma_index_of_char(name, '/', name.len() as int);
        }
        assert(segs[0] == name);
        assert(paths::is_normal(name));
        paths::lemma_relative_of_join(dir, name);
    }
}

} // verus!
