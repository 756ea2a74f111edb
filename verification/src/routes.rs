//! What a request asks for, and how files and assets are looked up and
//! served.

use vstd::prelude::*;
use vstd::string::StringExecFns;
use crate::media::{
    content_type_of, extension_of, get_content_type, image_extension, is_image_file, type_view,
};
use crate::text::{
    from_chars, range_starts_with, same_text, skip_closing, skip_leading, starts_with, to_chars,
    unicode_lowercase, without_closing, without_leading,
};

verus! {

/// What a request asks the service to do.
#[derive(Debug, Clone, Copy, PartialEq, Eq, Structural)]
pub enum Action {
    /// Return all messages.
    ListMessages,
    /// Post a message.
    SendMessage,
    /// Return the messages newer than a threshold.
    PollMessages,
    /// Upload a file.
    UploadFile,
    /// Return an uploaded file.
    ServeFile,
    /// Return the start page.
    Home,
    /// Return a static asset.
    Asset,
    /// Nothing: the path does not take the method.
    MethodNotAllowed,
}

/// What a request with the given path and method asks for.
pub open spec fn routed(path: Seq<char>, method: Seq<char>) -> Action {
    if path == "/api/messages"@ {
        if method == "GET"@ {
            Action::ListMessages
        } else if method == "POST"@ {
            Action::SendMessage
        } else {
            Action::MethodNotAllowed
        }
    } else if path == "/api/messages/poll"@ {
        if method == "GET"@ {
            Action::PollMessages
        } else {
            Action::MethodNotAllowed
        }
    } else if path == "/api/upload"@ {
        if method == "POST"@ {
            Action::UploadFile
        } else {
            Action::MethodNotAllowed
        }
    } else if starts_with(path, "/api/files/"@) {
        if method == "GET"@ {
            Action::ServeFile
        } else {
            Action::MethodNotAllowed
        }
    } else if path == "/"@ {
        Action::Home
    } else {
        Action::Asset
    }
}

/// Whether `text` starts with `prefix`.
pub fn text_starts_with(text: &str, prefix: &str) -> (starts: bool)
    ensures
        starts == starts_with(text@, prefix@),
{
    let chars = to_chars(text);
    let lead = to_chars(prefix);
    assert(chars@.subrange(0, chars@.len() as int) =~= chars@);
    range_starts_with(chars.as_slice(), 0, chars.len(), lead.as_slice())
}

/// What a request with the given path and method asks for.
pub fn route(path: &str, method: &str) -> (action: Action)
    ensures
        action == routed(path@, method@),
{
    if same_text(path, "/api/messages") {
        if same_text(method, "GET") {
            Action::ListMessages
        } else if same_text(method, "POST") {
            Action::SendMessage
        } else {
            Action::MethodNotAllowed
        }
    } else if same_text(path, "/api/messages/poll") {
        if same_text(method, "GET") {
            Action::PollMessages
        } else {
            Action::MethodNotAllowed
        }
    } else if same_text(path, "/api/upload") {
        if same_text(method, "POST") {
            Action::UploadFile
        } else {
            Action::MethodNotAllowed
        }
    } else if text_starts_with(path, "/api/files/") {
        if same_text(method, "GET") {
            Action::ServeFile
        } else {
            Action::MethodNotAllowed
        }
    } else if same_text(path, "/") {
        Action::Home
    } else {
        Action::Asset
    }
}

/// The kinds of failure that a response reports.
#[derive(Debug, Clone, Copy, PartialEq, Eq, Structural)]
pub enum Failure {
    /// The request is at fault.
    BadRequest,
    /// The server is at fault.
    Internal,
    /// The feature is not there.
    NotImplemented,
    /// There is no such route or file.
    NotFound,
    /// The path does not take the method.
    MethodNotAllowed,
}

impl Failure {
    /// The HTTP status that reports the failure.
    pub open spec fn code(self) -> u16 {
        match self {
            Failure::BadRequest => 400,
            Failure::Internal => 500,
            Failure::NotImplemented => 501,
            Failure::NotFound => 404,
            Failure::MethodNotAllowed => 405,
        }
    }

    /// The HTTP status that reports the failure.
    pub fn status(&self) -> (code: u16)
        ensures
            code == self.code(),
    {
        match self {
            Failure::BadRequest => 400,
            Failure::Internal => 500,
            Failure::NotImplemented => 501,
            Failure::NotFound => 404,
            Failure::MethodNotAllowed => 405,
        }
    }
}

/// The name of the stored file that a path under `/api/files/` asks for;
/// empty for any other path.
pub open spec fn stored_file_of(path: Seq<char>) -> Seq<char> {
    if starts_with(path, "/api/files/"@) {
        path.skip("/api/files/"@.len() as int)
    } else {
        Seq::empty()
    }
}

/// Where a stored file lies.
pub open spec fn location_of(stored_filename: Seq<char>) -> Seq<char> {
    "data/uploads/"@ + stored_filename
}

/// Where a stored file lies.
pub fn upload_location(stored_filename: &str) -> (location: String)
    ensures
        location@ == location_of(stored_filename@),
{
    let mut location = "data/uploads/".to_owned();
    location.append(stored_filename);
    location
}

/// How an uploaded file is served.
#[derive(Debug, Clone, PartialEq, Eq)]
pub struct Delivery {
    /// Where the file lies.
    pub location: String,
    /// The `Content-Type` of the response, where one is known.
    pub content_type: Option<&'static str>,
    /// Whether the response asks the client to save the file rather than
    /// show it.
    pub attachment: bool,
}

/// How the file that `path` asks for is served: from the upload
/// directory, under the `Content-Type` of its extension, and as an
/// attachment unless it is an image.
pub fn delivery_for(path: &str) -> (delivery: Delivery)
    ensures
        delivery.location@ == location_of(stored_file_of(path@)),
        type_view(delivery.content_type) == content_type_of(
            unicode_lowercase(extension_of(stored_file_of(path@))),
        ),
        delivery.attachment == !image_extension(
            unicode_lowercase(extension_of(stored_file_of(path@))),
        ),
{
    let chars = to_chars(path);
    let prefix = to_chars("/api/files/");
    assert(chars@.subrange(0, chars@.len() as int) =~= chars@);
    let stored = if range_starts_with(chars.as_slice(), 0, chars.len(), prefix.as_slice()) {
        assert(chars@.skip(prefix@.len() as int) =~= chars@.subrange(
            prefix@.len() as int,
            chars@.len() as int,
        ));
        from_chars(chars.as_slice(), prefix.len(), chars.len())
    } else {
        String::new()
    };
    Delivery {
        location: upload_location(stored.as_str()),
        content_type: get_content_type(stored.as_str()),
        attachment: !is_image_file(stored.as_str()),
    }
}

/// The names under which the asset for a path is looked up, in order: for
/// the root, the index page; for any other path, the path without its
/// leading slashes, then the index page of the directory of that name.
pub open spec fn asset_names(path: Seq<char>) -> Seq<Seq<char>> {
    let name = without_leading(path, '/');
    if name.len() == 0 {
        seq!["index.html"@]
    } else {
        seq![name, without_closing(name, '/') + "/index.html"@]
    }
}

/// The texts of a list as mathematical values.
pub open spec fn texts(names: Seq<String>) -> Seq<Seq<char>> {
    names.map_values(|name: String| name@)
}

/// The names under which the asset for a path is looked up, in order.
pub fn asset_candidates(path: &str) -> (names: Vec<String>)
    ensures
        texts(names@) == asset_names(path@),
{
    let chars = to_chars(path);
    let len = chars.len();
    assert(chars@.subrange(0, len as int) =~= chars@);
    let start = skip_leading(chars.as_slice(), 0, len, '/');
    let mut names: Vec<String> = Vec::new();
    if start == len {
        names.push("index.html".to_owned());
        assert(texts(names@) =~= asset_names(path@));
        return names;
    }
    let end = skip_closing(chars.as_slice(), start, len, '/');
    let name = from_chars(chars.as_slice(), start, len);
    let mut index = from_chars(chars.as_slice(), start, end);
    index.append("/index.html");
    names.push(name);
    names.push(index);
    assert(texts(names@) =~= asset_names(path@));
    names
}

} // verus!
