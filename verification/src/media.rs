//! What a file is taken to be, judged by the extension of its name.

use vstd::prelude::*;
use crate::text::{from_chars, lowercase, same_text, to_chars, unicode_lowercase};

verus! {

/// Offset of the last `.` of `name`, or -1 where it has none.
pub open spec fn last_dot(name: Seq<char>) -> int
    decreases name.len(),
{
    if name.len() == 0 {
        -1
    } else if name.last() == '.' {
        name.len() - 1
    } else {
        last_dot(name.drop_last())
    }
}

/// The extension of `name`: what follows its last `.`, and all of it
/// where it has none.
pub open spec fn extension_of(name: Seq<char>) -> Seq<char> {
    name.subrange(last_dot(name) + 1, name.len() as int)
}

/// A `.` with none behind it is the last one; a name without any has none.
pub proof fn lemma_last_dot(name: Seq<char>, from: int)
    requires
        0 <= from <= name.len(),
        forall|j: int| from <= j < name.len() ==> name[j] != '.',
        from > 0 ==> name[from - 1] == '.',
    ensures
        last_dot(name) == from - 1,
    decreases name.len(),
{
    if name.len() > 0 && from < name.len() {
        let shorter = name.drop_last();
        lemma_last_dot(shorter, from);
    }
}

/// The extension of `filename`.
pub fn extension(filename: &str) -> (ext: String)
    ensures
        ext@ == extension_of(filename@),
{
    let chars = to_chars(filename);
    let mut from: usize = chars.len();
    while from > 0 && chars[from - 1] != '.'
        invariant
            from <= chars.len(),
            forall|j: int| from <= j < chars.len() ==> chars@[j] != '.',
        decreases from,
    {
        from -= 1;
    }
    proof {
        lemma_last_dot(chars@, from as int);
    }
    from_chars(chars.as_slice(), from, chars.len())
}

/// The media type that a lowercase extension stands for in a message.
pub open spec fn mime_of(ext: Seq<char>) -> Seq<char> {
    if ext == "png"@ {
        "image/png"@
    } else if ext == "jpg"@ || ext == "jpeg"@ {
        "image/jpeg"@
    } else if ext == "gif"@ {
        "image/gif"@
    } else if ext == "svg"@ {
        "image/svg+xml"@
    } else if ext == "webp"@ {
        "image/webp"@
    } else if ext == "bmp"@ {
        "image/bmp"@
    } else if ext == "ico"@ {
        "image/x-icon"@
    } else if ext == "pdf"@ {
        "application/pdf"@
    } else if ext == "txt"@ {
        "text/plain"@
    } else if ext == "html"@ {
        "text/html"@
    } else if ext == "css"@ {
        "text/css"@
    } else if ext == "js"@ {
        "application/javascript"@
    } else if ext == "json"@ {
        "application/json"@
    } else if ext == "xml"@ {
        "application/xml"@
    } else if ext == "zip"@ {
        "application/zip"@
    } else if ext == "doc"@ {
        "application/msword"@
    } else if ext == "docx"@ {
        "application/vnd.openxmlformats-officedocument.wordprocessingml.document"@
    } else if ext == "xls"@ {
        "application/vnd.ms-excel"@
    } else if ext == "xlsx"@ {
        "application/vnd.openxmlformats-officedocument.spreadsheetml.sheet"@
    } else {
        "application/octet-stream"@
    }
}

/// Whether a lowercase extension is that of an image.
pub open spec fn image_extension(ext: Seq<char>) -> bool {
    ||| ext == "jpg"@
    ||| ext == "jpeg"@
    ||| ext == "png"@
    ||| ext == "gif"@
    ||| ext == "svg"@
    ||| ext == "webp"@
    ||| ext == "bmp"@
    ||| ext == "ico"@
}

/// The `Content-Type` under which a file with a lowercase extension is
/// served, where one is known.
pub open spec fn content_type_of(ext: Seq<char>) -> Option<Seq<char>> {
    if ext == "html"@ {
        Some("text/html; charset=utf-8"@)
    } else if ext == "css"@ {
        Some("text/css"@)
    } else if ext == "js"@ {
        Some("application/javascript"@)
    } else if ext == "json"@ {
        Some("application/json"@)
    } else if ext == "png"@ {
        Some("image/png"@)
    } else if ext == "jpg"@ || ext == "jpeg"@ {
        Some("image/jpeg"@)
    } else if ext == "gif"@ {
        Some("image/gif"@)
    } else if ext == "svg"@ {
        Some("image/svg+xml"@)
    } else if ext == "ico"@ {
        Some("image/x-icon"@)
    } else if ext == "xml"@ {
        Some("application/xml"@)
    } else if ext == "txt"@ {
        Some("text/plain"@)
    } else {
        None
    }
}

/// What a served `Content-Type` is as mathematical text.
pub open spec fn type_view(content_type: Option<&'static str>) -> Option<Seq<char>> {
    match content_type {
        Some(text) => Some(text@),
        None => None,
    }
}

/// The media type for a lowercase extension; `application/octet-stream`
/// for one that is not known.
pub fn mime_for_extension(ext: &str) -> (mime: &'static str)
    ensures
        mime@ == mime_of(ext@),
{
    if same_text(ext, "png") {
        "image/png"
    } else if same_text(ext, "jpg") || same_text(ext, "jpeg") {
        "image/jpeg"
    } else if same_text(ext, "gif") {
        "image/gif"
    } else if same_text(ext, "svg") {
        "image/svg+xml"
    } else if same_text(ext, "webp") {
        "image/webp"
    } else if same_text(ext, "bmp") {
        "image/bmp"
    } else if same_text(ext, "ico") {
        "image/x-icon"
    } else if same_text(ext, "pdf") {
        "application/pdf"
    } else if same_text(ext, "txt") {
        "text/plain"
    } else if same_text(ext, "html") {
        "text/html"
    } else if same_text(ext, "css") {
        "text/css"
    } else if same_text(ext, "js") {
        "application/javascript"
    } else if same_text(ext, "json") {
        "application/json"
    } else if same_text(ext, "xml") {
        "application/xml"
    } else if same_text(ext, "zip") {
        "application/zip"
    } else if same_text(ext, "doc") {
        "application/msword"
    } else if same_text(ext, "docx") {
        "application/vnd.openxmlformats-officedocument.wordprocessingml.document"
    } else if same_text(ext, "xls") {
        "application/vnd.ms-excel"
    } else if same_text(ext, "xlsx") {
        "application/vnd.openxmlformats-officedocument.spreadsheetml.sheet"
    } else {
        "application/octet-stream"
    }
}

/// Whether a lowercase extension is that of an image.
pub fn is_image_extension(ext: &str) -> (image: bool)
    ensures
        image == image_extension(ext@),
{
    same_text(ext, "jpg") || same_text(ext, "jpeg") || same_text(ext, "png") || same_text(
        ext,
        "gif",
    ) || same_text(ext, "svg") || same_text(ext, "webp") || same_text(ext, "bmp") || same_text(
        ext,
        "ico",
    )
}

/// The `Content-Type` for a lowercase extension, where one is known.
pub fn content_type_for_extension(ext: &str) -> (content_type: Option<&'static str>)
    ensures
        type_view(content_type) == content_type_of(ext@),
{
    if same_text(ext, "html") {
        Some("text/html; charset=utf-8")
    } else if same_text(ext, "css") {
        Some("text/css")
    } else if same_text(ext, "js") {
        Some("application/javascript")
    } else if same_text(ext, "json") {
        Some("application/json")
    } else if same_text(ext, "png") {
        Some("image/png")
    } else if same_text(ext, "jpg") || same_text(ext, "jpeg") {
        Some("image/jpeg")
    } else if same_text(ext, "gif") {
        Some("image/gif")
    } else if same_text(ext, "svg") {
        Some("image/svg+xml")
    } else if same_text(ext, "ico") {
        Some("image/x-icon")
    } else if same_text(ext, "xml") {
        Some("application/xml")
    } else if same_text(ext, "txt") {
        Some("text/plain")
    } else {
        None
    }
}

/// The media type recorded for an uploaded file: that of its extension,
/// whatever the case of its letters.
pub fn get_mime_type(filename: &str) -> (mime: &'static str)
    ensures
        mime@ == mime_of(unicode_lowercase(extension_of(filename@))),
{
    let ext = extension(filename);
    let lower = lowercase(ext.as_str());
    mime_for_extension(lower.as_str())
}

/// Whether a file is shown as an image: whether its extension is that of
/// one, whatever the case of its letters.
pub fn is_image_file(filename: &str) -> (image: bool)
    ensures
        image == image_extension(unicode_lowercase(extension_of(filename@))),
{
    let ext = extension(filename);
    let lower = lowercase(ext.as_str());
    is_image_extension(lower.as_str())
}

/// The `Content-Type` under which a file is served: that of its
/// extension, whatever the case of its letters, where one is known.
pub fn get_content_type(filename: &str) -> (content_type: Option<&'static str>)
    ensures
        type_view(content_type) == content_type_of(unicode_lowercase(extension_of(filename@))),
{
    let ext = extension(filename);
    let lower = lowercase(ext.as_str());
    content_type_for_extension(lower.as_str())
}

} // verus!
