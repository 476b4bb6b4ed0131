use philo_core::security::{
    check_mime_for_extension, check_quarantine_content, check_size, detect_mime, hex_lower,
    inside_name, quarantine_path, sha256_hex, store_path, QuarantineError, MIME_SNIFF_LEN,
};

const PDF: &[u8] = b"%PDF-1.4\n%\xe2\xe3\xcf\xd3\n1 0 obj\n<<>>\nendobj\n";

#[test]
fn detects_pdf_and_unknown_content() {
    assert_eq!(detect_mime(PDF), "application/pdf");
    assert_eq!(detect_mime(b"just some text"), "application/octet-stream");
    assert_eq!(detect_mime(b""), "application/octet-stream");
}

#[test]
fn sha256_of_known_inputs() {
    assert_eq!(sha256_hex(b"abc"), "ba7816bf8f01cfea414140de5dae2223b00361a396177a9cb410ff61f20015ad");
    assert_eq!(sha256_hex(b""), "e3b0c44298fc1c149afbf4c8996fb92427ae41e4649b934ca495991b7852b855");
}

#[test]
fn hex_is_two_lowercase_digits_per_byte() {
    assert_eq!(hex_lower(&[0x00, 0x0f, 0xa0, 0xff]), "000fa0ff");
    assert_eq!(hex_lower(&[]), "");
}

#[test]
fn size_limit_in_whole_megabytes() {
    let mb = 1024 * 1024;
    assert_eq!(check_size(200 * mb, 200), Ok(()));
    assert_eq!(check_size(201 * mb - 1, 200), Ok(()));
    assert_eq!(check_size(201 * mb, 200), Err(QuarantineError::TooLarge { size_mb: 201 }));
    assert_eq!(check_size(0, 0), Ok(()));
}

#[test]
fn mime_must_fit_extension() {
    assert_eq!(check_mime_for_extension(None, "image/png"), Ok(()));
    assert_eq!(check_mime_for_extension(Some("pdf"), "application/pdf"), Ok(()));
    assert_eq!(check_mime_for_extension(Some("epub"), "application/epub+zip"), Ok(()));
    assert_eq!(
        check_mime_for_extension(Some("pdf"), "application/epub+zip"),
        Err(QuarantineError::MimeMismatch { ext: "pdf".to_string(), mime: "application/epub+zip".to_string() })
    );
    assert_eq!(
        check_mime_for_extension(Some("PDF"), "application/pdf"),
        Err(QuarantineError::MimeMismatch { ext: "PDF".to_string(), mime: "application/pdf".to_string() })
    );
}

#[test]
fn quarantine_content_gives_mime() {
    assert_eq!(check_quarantine_content(PDF, Some("pdf")), Ok("application/pdf".to_string()));
    assert_eq!(
        check_quarantine_content(b"text", Some("epub")),
        Err(QuarantineError::MimeMismatch { ext: "epub".to_string(), mime: "application/octet-stream".to_string() })
    );
    assert_eq!(check_quarantine_content(b"text", None), Ok("application/octet-stream".to_string()));
}

#[test]
fn mime_is_detected_from_the_leading_bytes() {
    let mut long = PDF.to_vec();
    long.resize(3 * MIME_SNIFF_LEN, b'x');
    assert_eq!(detect_mime(&long), "application/pdf");
    let mut late = vec![b'x'; MIME_SNIFF_LEN];
    late.extend_from_slice(PDF);
    assert_eq!(detect_mime(&late), "application/octet-stream");
}

#[test]
fn many_skippable_zstd_frames_are_handled() {
    let frame = [0x50u8, 0x2A, 0x4D, 0x18, 0, 0, 0, 0];
    let data: Vec<u8> = frame.iter().copied().cycle().take(1 << 20).collect();
    assert_eq!(detect_mime(&data), "application/octet-stream");
}

#[test]
fn quarantine_and_store_paths_stay_inside() {
    assert_eq!(quarantine_path("./philo_repo", "kant.pdf"), Some("./philo_repo/quarantine/kant.pdf".to_string()));
    assert_eq!(store_path("/r/", "a..b.epub"), Some("/r/store/a..b.epub".to_string()));
    assert_eq!(store_path("repo", "sub/x.pdf"), Some("repo/store/sub/x.pdf".to_string()));
    assert_eq!(quarantine_path("repo", "./x.pdf"), Some("repo/quarantine/./x.pdf".to_string()));
    for good in ["kant.pdf", "sub/x.pdf", "a/b/c", "./x", "x/", ".hidden", "..x"] {
        assert!(inside_name(good), "{}", good);
    }
    for bad in ["", ".", "..", "./", "//", "../x", "/etc/passwd", "a/../b", "a/.."] {
        assert!(!inside_name(bad), "{}", bad);
        assert_eq!(quarantine_path("repo", bad), None);
        assert_eq!(store_path("repo", bad), None);
    }
}
