use message_share::media::{
    content_type_for_extension, extension, get_content_type, get_mime_type, is_image_extension,
    is_image_file, mime_for_extension,
};

#[test]
fn extension_follows_last_dot() {
    assert_eq!(extension("a.png"), "png");
    assert_eq!(extension("archive.tar.gz"), "gz");
    assert_eq!(extension("README"), "README");
    assert_eq!(extension("trailing."), "");
    assert_eq!(extension(""), "");
    assert_eq!(extension(".hidden"), "hidden");
}

#[test]
fn mime_types_by_extension() {
    assert_eq!(get_mime_type("a.png"), "image/png");
    assert_eq!(get_mime_type("a.JPG"), "image/jpeg");
    assert_eq!(get_mime_type("a.jpeg"), "image/jpeg");
    assert_eq!(get_mime_type("a.gif"), "image/gif");
    assert_eq!(get_mime_type("a.svg"), "image/svg+xml");
    assert_eq!(get_mime_type("a.webp"), "image/webp");
    assert_eq!(get_mime_type("a.bmp"), "image/bmp");
    assert_eq!(get_mime_type("a.ico"), "image/x-icon");
    assert_eq!(get_mime_type("a.pdf"), "application/pdf");
    assert_eq!(get_mime_type("a.txt"), "text/plain");
    assert_eq!(get_mime_type("a.html"), "text/html");
    assert_eq!(get_mime_type("a.css"), "text/css");
    assert_eq!(get_mime_type("a.js"), "application/javascript");
    assert_eq!(get_mime_type("a.json"), "application/json");
    assert_eq!(get_mime_type("a.xml"), "application/xml");
    assert_eq!(get_mime_type("a.zip"), "application/zip");
    assert_eq!(get_mime_type("a.doc"), "application/msword");
    assert_eq!(
        get_mime_type("a.docx"),
        "application/vnd.openxmlformats-officedocument.wordprocessingml.document"
    );
    assert_eq!(get_mime_type("a.xls"), "application/vnd.ms-excel");
    assert_eq!(
        get_mime_type("a.xlsx"),
        "application/vnd.openxmlformats-officedocument.spreadsheetml.sheet"
    );
    assert_eq!(get_mime_type("a.exe"), "application/octet-stream");
    assert_eq!(get_mime_type("png"), "image/png");
    assert_eq!(get_mime_type("noext"), "application/octet-stream");
    assert_eq!(mime_for_extension("PNG"), "application/octet-stream");
    assert_eq!(mime_for_extension("png"), "image/png");
}

#[test]
fn images_by_extension() {
    for name in ["a.jpg", "a.jpeg", "a.png", "a.gif", "a.svg", "a.webp", "a.bmp", "a.ico", "A.PnG"] {
        assert!(is_image_file(name));
    }
    for name in ["a.pdf", "a.txt", "a", "a.png.zip", "a.png."] {
        assert!(!is_image_file(name));
    }
    assert!(is_image_extension("png"));
    assert!(!is_image_extension("PNG"));
}

#[test]
fn content_types_by_extension() {
    assert_eq!(get_content_type("index.html"), Some("text/html; charset=utf-8"));
    assert_eq!(get_content_type("a.css"), Some("text/css"));
    assert_eq!(get_content_type("a.js"), Some("application/javascript"));
    assert_eq!(get_content_type("a.json"), Some("application/json"));
    assert_eq!(get_content_type("a.png"), Some("image/png"));
    assert_eq!(get_content_type("a.jpg"), Some("image/jpeg"));
    assert_eq!(get_content_type("a.JPEG"), Some("image/jpeg"));
    assert_eq!(get_content_type("a.gif"), Some("image/gif"));
    assert_eq!(get_content_type("a.svg"), Some("image/svg+xml"));
    assert_eq!(get_content_type("a.ico"), Some("image/x-icon"));
    assert_eq!(get_content_type("a.xml"), Some("application/xml"));
    assert_eq!(get_content_type("a.txt"), Some("text/plain"));
    assert_eq!(get_content_type("a.webp"), None);
    assert_eq!(get_content_type("a"), None);
    assert_eq!(content_type_for_extension("HTML"), None);
}
