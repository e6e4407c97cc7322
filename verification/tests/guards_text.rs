use fileserve_core::exclusions::is_system_file_or_folder;
use fileserve_core::filetype::{is_viewable_file, get_file_type_class};
use fileserve_core::multipart::{extract_filename, extract_file_content, find_boundary_end};
use fileserve_core::pathguard::{
    resolve_request, check_containment, safe_filename, get_parent_url, PathError,
};
use fileserve_core::performance::PerformanceOptimizations;
use fileserve_core::requests::{
    parse_content_range_start, parse_u64, session_token_from_cookie, form_field, trim_blanks,
};
use fileserve_core::sizefmt::format_file_size;
use fileserve_core::urlcodec::{url_decode, url_encode};

#[test]
fn system_entries_are_excluded() {
    assert!(is_system_file_or_folder("Thumbs.db", false));
    assert!(is_system_file_or_folder(".git", false));
    assert!(!is_system_file_or_folder("report.pdf", false));
    assert!(is_system_file_or_folder("report.pdf", true));
    assert!(is_system_file_or_folder("pagefile.sys", false));
    assert!(is_system_file_or_folder("SYSTEM VOLUME INFORMATION", false));
    assert!(is_system_file_or_folder("draft.tmp", false));
    assert!(is_system_file_or_folder("notes.temp", false));
    assert!(is_system_file_or_folder("backup~", false));
    assert!(is_system_file_or_folder("shortcut.lnk", false));
    assert!(!is_system_file_or_folder("Windows.txt", false));
}

#[test]
fn parent_traversal_fails_closed() {
    for root in ["/srv/files", "/home/user", "/"] {
        assert_eq!(
            resolve_request(root, "../secrets"),
            Err(PathError::Traversal)
        );
        assert_eq!(
            resolve_request(root, "a/../../etc/passwd"),
            Err(PathError::Traversal)
        );
        assert_eq!(
            resolve_request(root, "%2e%2e/secrets"),
            Err(PathError::Traversal)
        );
        assert_eq!(resolve_request(root, "/etc/passwd"), Err(PathError::Traversal));
        assert_eq!(resolve_request(root, "C:\\loot"), Err(PathError::Traversal));
    }
}

#[test]
fn inner_dotdot_resolves_lexically() {
    assert_eq!(
        resolve_request("/srv/files", "a/b/../c.txt"),
        Ok("/srv/files/a/c.txt".to_string())
    );
    assert_eq!(
        resolve_request("/srv/files", "docs%2Freports/x.pdf"),
        Ok("/srv/files/docs/reports/x.pdf".to_string())
    );
    assert_eq!(resolve_request("/srv", ""), Ok("/srv".to_string()));
    assert_eq!(resolve_request("/srv", "./a//b/"), Ok("/srv/a/b".to_string()));
}

#[test]
fn containment_is_component_wise() {
    assert!(check_containment("/srv/files", "/srv/files"));
    assert!(check_containment("/srv/files", "/srv/files/a.txt"));
    assert!(!check_containment("/srv/files", "/srv/files-evil/a.txt"));
    assert!(!check_containment("/srv/files", "/etc/passwd"));
}

#[test]
fn filename_safety() {
    assert!(safe_filename("report.pdf"));
    assert!(!safe_filename(""));
    assert!(!safe_filename("."));
    assert!(!safe_filename(".."));
    assert!(!safe_filename("a/b.txt"));
    assert!(!safe_filename("a\\b.txt"));
}

#[test]
fn parent_url_navigation() {
    assert_eq!(get_parent_url("/browse/docs/reports"), "/browse/docs");
    assert_eq!(get_parent_url("/browse/docs/"), "/browse");
    assert_eq!(get_parent_url("/browse/docs"), "/browse");
    assert_eq!(get_parent_url("/browse"), "/browse");
    assert_eq!(get_parent_url("plain"), "/browse");
}

#[test]
fn percent_codec_roundtrip() {
    assert_eq!(url_decode("a%20b"), "a b");
    assert_eq!(url_decode("plain"), "plain");
    assert_eq!(url_decode("%2e%2E"), "..");
    // a malformed escape is copied through
    assert_eq!(url_decode("%zz"), "%zz");
    // digits missing at the end are read as zero
    assert_eq!(url_decode("%4"), "@");
    assert_eq!(url_encode("a b"), "a%20b");
    assert_eq!(url_encode("file-name_1.txt"), "file-name_1.txt");
    assert_eq!(url_encode("50%+50%"), "50%25%2B50%25");
    assert_eq!(url_decode(&url_encode("report (final).pdf")), "report (final).pdf");
}

#[test]
fn file_size_formatting() {
    assert_eq!(format_file_size(0), "0 B");
    assert_eq!(format_file_size(512), "512 B");
    assert_eq!(format_file_size(1023), "1023 B");
    assert_eq!(format_file_size(1024), "1.0 KB");
    assert_eq!(format_file_size(1536), "1.5 KB");
    assert_eq!(format_file_size(1048576), "1.0 MB");
    assert_eq!(format_file_size(5 * 1048576 + 524288), "5.5 MB");
    assert_eq!(format_file_size(3 * 1073741824), "3.0 GB");
}

#[test]
fn compressible_content_types() {
    assert!(PerformanceOptimizations::should_compress("text/html"));
    assert!(PerformanceOptimizations::should_compress("application/json"));
    assert!(!PerformanceOptimizations::should_compress("image/png"));
    assert!(!PerformanceOptimizations::should_compress("text/html; charset=utf-8"));
}

#[test]
fn file_type_classes() {
    assert!(is_viewable_file("photo.JPG"));
    assert!(is_viewable_file("notes.md"));
    assert!(!is_viewable_file("archive.zip"));
    assert_eq!(get_file_type_class("photo.jpeg"), "image-file");
    assert_eq!(get_file_type_class("clip.MOV"), "video-file");
    assert_eq!(get_file_type_class("main.rs"), "text-file");
    assert_eq!(get_file_type_class("paper.pdf"), "pdf-file");
    assert_eq!(get_file_type_class("archive.zip"), "");
}

#[test]
fn content_range_start_parsing() {
    assert_eq!(parse_content_range_start("bytes 0-1023/1024"), Some(0));
    assert_eq!(parse_content_range_start("bytes 512-1023/1024"), Some(512));
    assert_eq!(parse_content_range_start("bytes 512"), Some(512));
    assert_eq!(parse_content_range_start("chunk 0-1/2"), None);
    assert_eq!(parse_content_range_start("bytes x-1/2"), None);
    assert_eq!(parse_u64("184467440737095516150"), None);
    assert_eq!(parse_u64("+42"), Some(42));
    assert_eq!(parse_u64(""), None);
}

#[test]
fn session_cookie_extraction() {
    assert_eq!(
        session_token_from_cookie("session_id=abc123"),
        Some("abc123".to_string())
    );
    assert_eq!(
        session_token_from_cookie("theme=dark; session_id=tok; lang=en"),
        Some("tok".to_string())
    );
    assert_eq!(session_token_from_cookie("theme=dark"), None);
    assert_eq!(trim_blanks("  x \t"), "x");
}

#[test]
fn login_form_fields() {
    let body = "username=admin&password=admin%21";
    assert_eq!(form_field(body, "username"), Some("admin".to_string()));
    assert_eq!(form_field(body, "password"), Some("admin!".to_string()));
    assert_eq!(form_field(body, "other"), None);
    // the last occurrence of a repeated key wins
    assert_eq!(
        form_field("u=a&u=b", "u"),
        Some("b".to_string())
    );
}

#[test]
fn form_values_assemble_utf8() {
    // a multi-byte character arrives as its UTF-8 bytes, percent-encoded
    assert_eq!(
        form_field("password=caf%C3%A9", "password"),
        Some("caf\u{e9}".to_string())
    );
    // bytes that are no UTF-8 yield no value
    assert_eq!(form_field("p=%FF", "p"), None);
    // a raw multi-byte character passes through
    assert_eq!(form_field("p=\u{e9}", "p"), Some("\u{e9}".to_string()));
}

#[test]
fn multipart_scanning() {
    let body = "--x\r\nContent-Disposition: form-data; name=\"file\"; filename=\"a.txt\"\r\n";
    assert_eq!(extract_filename(body), Some("a.txt".to_string()));
    assert_eq!(extract_filename("no fields here"), None);

    let mut bytes = Vec::new();
    bytes.extend_from_slice(b"header: v\r\n\r\npayload");
    bytes.extend_from_slice(b"\r\n--x--");
    assert_eq!(extract_file_content(&bytes), b"payload".to_vec());
    assert_eq!(find_boundary_end(b"abc\r\n--x"), Some(3));
    assert_eq!(find_boundary_end(b"abc"), None);
}
