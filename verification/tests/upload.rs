use message_share::clock::parse_instant;
use message_share::message::MessageKind;
use message_share::multipart::DecodeError;
use message_share::upload::{
    boundary_of, is_multipart, stage_upload, stage_upload_as, stored_name, upload_message,
    upload_message_as, UploadError,
};

fn png_body() -> Vec<u8> {
    let mut body: Vec<u8> = Vec::new();
    body.extend_from_slice(
        b"--XYZ\r\nContent-Disposition: form-data; name=\"file\"; filename=\"a.png\"\r\n\r\n",
    );
    body.extend_from_slice(&[0x89, 0x50, 0x4E]);
    body.extend_from_slice(b"\r\n--XYZ--");
    body
}

#[test]
fn three_byte_png_becomes_image_message() {
    let staged = stage_upload_as(&png_body(), "multipart/form-data; boundary=XYZ", "f1").unwrap();
    assert_eq!(staged.stored_filename, "f1.png");
    assert_eq!(staged.upload.file_bytes, vec![0x89, 0x50, 0x4E]);
    assert_eq!(staged.upload.filename, "a.png");
    assert_eq!(staged.upload.sender, "Unknown");
    let message = upload_message_as(&staged, "m1".to_string(), "2024-01-01T00:00:00Z".to_string());
    assert_eq!(message.id, "m1");
    assert_eq!(message.content, "f1.png");
    assert_eq!(message.sender, "Unknown");
    assert_eq!(message.timestamp, "2024-01-01T00:00:00Z");
    assert_eq!(message.kind, MessageKind::Image);
    assert_eq!(message.kind.as_str(), "image");
    assert_eq!(message.filename, Some("a.png".to_string()));
    assert_eq!(message.file_size, Some(3));
    assert_eq!(message.mime_type, Some("image/png".to_string()));
}

#[test]
fn other_files_become_file_messages() {
    let body = b"--q\r\nContent-Disposition: form-data; filename=\"Report.PDF\"\r\n\r\n%PDF\r\n--q--";
    let staged = stage_upload_as(body, "multipart/form-data; boundary=\"q\"", "42").unwrap();
    assert_eq!(staged.stored_filename, "42.PDF");
    let message = upload_message_as(&staged, "m".to_string(), "t".to_string());
    assert_eq!(message.kind, MessageKind::File);
    assert_eq!(message.mime_type, Some("application/pdf".to_string()));
    assert_eq!(message.file_size, Some(4));
}

#[test]
fn fresh_identifiers_are_used() {
    let staged = stage_upload(&png_body(), "multipart/form-data; boundary=XYZ").unwrap();
    assert_eq!(staged.stored_filename.len(), 36 + 4);
    assert!(staged.stored_filename.ends_with(".png"));
    let message = upload_message(&staged);
    assert_eq!(message.id.len(), 36);
    assert_eq!(message.content, staged.stored_filename);
    assert!(parse_instant(&message.timestamp).is_some());
}

#[test]
fn stages_fail_in_order() {
    assert_eq!(
        stage_upload_as(&png_body(), "application/json; boundary=XYZ", "f"),
        Err(UploadError::NotMultipart)
    );
    assert_eq!(
        stage_upload_as(&png_body(), "multipart/form-data", "f"),
        Err(UploadError::MissingBoundary)
    );
    assert_eq!(
        stage_upload_as(&png_body(), "multipart/form-data; boundary=ABC", "f"),
        Err(UploadError::Decode(DecodeError::NoFileData))
    );
    assert_eq!(
        stage_upload(b"", "multipart/form-data; boundary=ABC"),
        Err(UploadError::Decode(DecodeError::NoFileData))
    );
}

#[test]
fn boundary_is_read_from_content_type() {
    assert_eq!(boundary_of("multipart/form-data; boundary=XYZ"), Some("XYZ".to_string()));
    assert_eq!(boundary_of("multipart/form-data; boundary=\"X Y\""), Some("X Y".to_string()));
    assert_eq!(boundary_of("boundary=\"\"a\"\"\""), Some("a".to_string()));
    assert_eq!(boundary_of("boundary=aboundary=b"), Some("a".to_string()));
    assert_eq!(boundary_of("boundary="), Some("".to_string()));
    assert_eq!(boundary_of("multipart/form-data"), None);
    assert_eq!(boundary_of(""), None);
    assert!(is_multipart("multipart/form-data; boundary=x"));
    assert!(is_multipart("multipart/form-data"));
    assert!(!is_multipart("Multipart/form-data"));
    assert!(!is_multipart(" multipart/form-data"));
    assert!(!is_multipart(""));
}

#[test]
fn stored_name_keeps_extension() {
    assert_eq!(stored_name("id", "a.png"), "id.png");
    assert_eq!(stored_name("id", "a.tar.GZ"), "id.GZ");
    assert_eq!(stored_name("id", "README"), "id.README");
    assert_eq!(stored_name("id", "x."), "id.");
}

#[test]
fn failures_have_status_and_message() {
    let cases = [
        (UploadError::BodyUnreadable, 400, "Failed to read request body"),
        (UploadError::NotMultipart, 400, "Expected multipart/form-data"),
        (UploadError::MissingBoundary, 400, "Missing boundary in multipart data"),
        (
            UploadError::Decode(DecodeError::NoFileData),
            400,
            "Multipart parsing error: No file data found",
        ),
        (
            UploadError::Decode(DecodeError::NoFilename),
            400,
            "Multipart parsing error: No filename found",
        ),
        (UploadError::NoUploadDirectory, 500, "Failed to create upload directory"),
        (UploadError::FileNotSaved, 500, "Failed to save file"),
        (UploadError::MessageNotSaved, 500, "Failed to save message"),
    ];
    for (error, status, message) in cases {
        assert_eq!(error.status(), status);
        assert_eq!(error.message(), message);
    }
}
