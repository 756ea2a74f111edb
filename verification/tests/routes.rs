use message_share::routes::{
    asset_candidates, delivery_for, route, text_starts_with, upload_location, Action, Failure,
};

#[test]
fn requests_are_routed() {
    assert_eq!(route("/api/messages", "GET"), Action::ListMessages);
    assert_eq!(route("/api/messages", "POST"), Action::SendMessage);
    assert_eq!(route("/api/messages", "PUT"), Action::MethodNotAllowed);
    assert_eq!(route("/api/messages/poll", "GET"), Action::PollMessages);
    assert_eq!(route("/api/messages/poll", "POST"), Action::MethodNotAllowed);
    assert_eq!(route("/api/upload", "POST"), Action::UploadFile);
    assert_eq!(route("/api/upload", "GET"), Action::MethodNotAllowed);
    assert_eq!(route("/api/files/a.png", "GET"), Action::ServeFile);
    assert_eq!(route("/api/files/", "GET"), Action::ServeFile);
    assert_eq!(route("/api/files/a.png", "DELETE"), Action::MethodNotAllowed);
    assert_eq!(route("/", "GET"), Action::Home);
    assert_eq!(route("/", "POST"), Action::Home);
    assert_eq!(route("/app.js", "GET"), Action::Asset);
    assert_eq!(route("/api/files", "GET"), Action::Asset);
    assert_eq!(route("/api/messages/", "GET"), Action::Asset);
    assert_eq!(route("", "GET"), Action::Asset);
    assert_eq!(route("/api/messages", "get"), Action::MethodNotAllowed);
}

#[test]
fn failures_have_status_codes() {
    assert_eq!(Failure::BadRequest.status(), 400);
    assert_eq!(Failure::Internal.status(), 500);
    assert_eq!(Failure::NotImplemented.status(), 501);
    assert_eq!(Failure::NotFound.status(), 404);
    assert_eq!(Failure::MethodNotAllowed.status(), 405);
}

#[test]
fn uploaded_files_are_delivered_by_kind() {
    let image = delivery_for("/api/files/1f.PNG");
    assert_eq!(image.location, "data/uploads/1f.PNG");
    assert_eq!(image.content_type, Some("image/png"));
    assert!(!image.attachment);
    let archive = delivery_for("/api/files/1f.zip");
    assert_eq!(archive.location, "data/uploads/1f.zip");
    assert_eq!(archive.content_type, None);
    assert!(archive.attachment);
    let text = delivery_for("/api/files/notes.txt");
    assert_eq!(text.content_type, Some("text/plain"));
    assert!(text.attachment);
    let webp = delivery_for("/api/files/p.webp");
    assert_eq!(webp.content_type, None);
    assert!(!webp.attachment);
    let other = delivery_for("/elsewhere/a.png");
    assert_eq!(other.location, "data/uploads/");
    assert_eq!(other.content_type, None);
    assert!(other.attachment);
    assert_eq!(upload_location("x.bin"), "data/uploads/x.bin");
}

#[test]
fn assets_are_looked_up_in_order() {
    assert_eq!(asset_candidates("/"), vec!["index.html"]);
    assert_eq!(asset_candidates(""), vec!["index.html"]);
    assert_eq!(asset_candidates("///"), vec!["index.html"]);
    assert_eq!(asset_candidates("/app.js"), vec!["app.js", "app.js/index.html"]);
    assert_eq!(asset_candidates("/docs/"), vec!["docs/", "docs/index.html"]);
    assert_eq!(asset_candidates("//a/b//"), vec!["a/b//", "a/b/index.html"]);
}

#[test]
fn prefixes() {
    assert!(text_starts_with("/api/files/x", "/api/files/"));
    assert!(text_starts_with("abc", ""));
    assert!(!text_starts_with("ab", "abc"));
}
