//! The upload pipeline: from a request body and its `Content-Type` to the
//! file to store and the message to record.

use vstd::prelude::*;
use vstd::string::StringExecFns;
use crate::clock::{random_uuid, utc_now_rfc3339};
use crate::media::{
    extension, extension_of, get_mime_type, image_extension, is_image_file, mime_of,
};
use crate::message::{Message, MessageKind, MessageView};
use crate::multipart::{decoded, parse_multipart_data, DecodeError, DecodedUpload, UploadView};
use crate::text::{
    find_text, first_occurrence, from_chars, range_starts_with, starts_with, to_chars,
    unicode_lowercase, unquote_range, unquoted,
};

verus! {

/// Why an upload failed, at whichever stage.
#[derive(Debug, Clone, Copy, PartialEq, Eq)]
pub enum UploadError {
    /// The request body could not be read.
    BodyUnreadable,
    /// The request is not `multipart/form-data`.
    NotMultipart,
    /// The `Content-Type` names no boundary.
    MissingBoundary,
    /// The body could not be decoded.
    Decode(DecodeError),
    /// The directory for uploads could not be made.
    NoUploadDirectory,
    /// The file could not be written.
    FileNotSaved,
    /// The message could not be appended to the log.
    MessageNotSaved,
}

impl UploadError {
    /// The failure lies with the request, not with the server.
    pub open spec fn bad_request(self) -> bool {
        match self {
            UploadError::BodyUnreadable
            | UploadError::NotMultipart
            | UploadError::MissingBoundary
            | UploadError::Decode(_) => true,
            _ => false,
        }
    }

    /// What the client is told.
    pub open spec fn text(self) -> Seq<char> {
        match self {
            UploadError::BodyUnreadable => "Failed to read request body"@,
            UploadError::NotMultipart => "Expected multipart/form-data"@,
            UploadError::MissingBoundary => "Missing boundary in multipart data"@,
            UploadError::Decode(error) => "Multipart parsing error: "@ + error.text(),
            UploadError::NoUploadDirectory => "Failed to create upload directory"@,
            UploadError::FileNotSaved => "Failed to save file"@,
            UploadError::MessageNotSaved => "Failed to save message"@,
        }
    }

    /// The HTTP status of the response: 400 where the request is at
    /// fault, 500 where the server is.
    pub fn status(&self) -> (code: u16)
        ensures
            code == if self.bad_request() { 400u16 } else { 500u16 },
    {
        match self {
            UploadError::BodyUnreadable
            | UploadError::NotMultipart
            | UploadError::MissingBoundary
            | UploadError::Decode(_) => 400,
            _ => 500,
        }
    }

    /// What the client is told.
    pub fn message(&self) -> (message: String)
        ensures
            message@ == self.text(),
    {
        match self {
            UploadError::BodyUnreadable => "Failed to read request body".to_owned(),
            UploadError::NotMultipart => "Expected multipart/form-data".to_owned(),
            UploadError::MissingBoundary => "Missing boundary in multipart data".to_owned(),
            UploadError::Decode(error) => {
                let mut message = "Multipart parsing error: ".to_owned();
                let reason = error.message();
                message.append(reason.as_str());
                message
            },
            UploadError::NoUploadDirectory => "Failed to create upload directory".to_owned(),
            UploadError::FileNotSaved => "Failed to save file".to_owned(),
            UploadError::MessageNotSaved => "Failed to save message".to_owned(),
        }
    }
}

/// The boundary that a `Content-Type` names: what stands between its
/// first `boundary=` and the next one, or its end, without the double
/// quotes around it.
pub open spec fn boundary_param(content_type: Seq<char>) -> Option<Seq<char>> {
    let key = "boundary="@;
    let at = first_occurrence(content_type, key);
    if at < 0 {
        None
    } else {
        let rest = content_type.skip(at + key.len());
        let stop = first_occurrence(rest, key);
        Some(
            unquoted(
                if stop < 0 {
                    rest
                } else {
                    rest.take(stop)
                },
            ),
        )
    }
}

/// An optional text as mathematical value.
pub open spec fn found_text(text: Option<String>) -> Option<Seq<char>> {
    match text {
        Some(text) => Some(text@),
        None => None,
    }
}

/// Whether a `Content-Type` announces `multipart/form-data`.
pub fn is_multipart(content_type: &str) -> (multipart: bool)
    ensures
        multipart == starts_with(content_type@, "multipart/form-data"@),
{
    let chars = to_chars(content_type);
    let prefix = to_chars("multipart/form-data");
    assert(chars@.subrange(0, chars@.len() as int) =~= chars@);
    range_starts_with(chars.as_slice(), 0, chars.len(), prefix.as_slice())
}

/// The boundary that a `Content-Type` names.
pub fn boundary_of(content_type: &str) -> (boundary: Option<String>)
    ensures
        found_text(boundary) == boundary_param(content_type@),
{
    let chars = to_chars(content_type);
    let key = to_chars("boundary=");
    let len = chars.len();
    assert(chars@.subrange(0, len as int) =~= chars@);
    let at = match find_text(chars.as_slice(), 0, len, key.as_slice()) {
        Some(at) => at,
        None => {
            return None;
        },
    };
    let start = at + key.len();
    let ghost rest = chars@.skip(at + key@.len());
    assert(rest =~= chars@.subrange(start as int, len as int));
    let end = match find_text(chars.as_slice(), start, len, key.as_slice()) {
        Some(stop) => {
            assert(rest.take(stop - start) =~= chars@.subrange(start as int, stop as int));
            stop
        },
        None => len,
    };
    let (lo, hi) = unquote_range(chars.as_slice(), start, end);
    Some(from_chars(chars.as_slice(), lo, hi))
}

/// The name under which an uploaded file is stored: the identifier, a dot,
/// and the extension of the name that the client gave, as it stands.
pub open spec fn stored_name_of(file_id: Seq<char>, filename: Seq<char>) -> Seq<char> {
    file_id + "."@ + extension_of(filename)
}

/// The name under which an uploaded file is stored.
pub fn stored_name(file_id: &str, filename: &str) -> (name: String)
    ensures
        name@ == stored_name_of(file_id@, filename@),
{
    let mut name = file_id.to_owned();
    let ext = extension(filename);
    name.append(".");
    name.append(ext.as_str());
    name
}

/// An upload that is ready to be stored.
#[derive(Debug, Clone, PartialEq, Eq)]
pub struct StagedUpload {
    /// Name under which the file is to be stored.
    pub stored_filename: String,
    /// The decoded upload.
    pub upload: DecodedUpload,
}

/// A staged upload as mathematical values.
pub struct StagedView {
    pub stored_filename: Seq<char>,
    pub upload: UploadView,
}

impl View for StagedUpload {
    type V = StagedView;

    open spec fn view(&self) -> StagedView {
        StagedView { stored_filename: self.stored_filename@, upload: self.upload@ }
    }
}

/// What staging makes of a request body with the given `Content-Type`,
/// when the file is stored under the identifier `file_id`.
///
/// A request that is not `multipart/form-data` is refused, then one whose
/// `Content-Type` names no boundary, then one whose body does not decode.
pub open spec fn staged(body: Seq<u8>, content_type: Seq<char>, file_id: Seq<char>) -> Result<
    StagedView,
    UploadError,
> {
    if !starts_with(content_type, "multipart/form-data"@) {
        Err(UploadError::NotMultipart)
    } else {
        match boundary_param(content_type) {
            None => Err(UploadError::MissingBoundary),
            Some(boundary) => match decoded(body, boundary) {
                Err(error) => Err(UploadError::Decode(error)),
                Ok(upload) => Ok(
                    StagedView {
                        stored_filename: stored_name_of(file_id, upload.filename),
                        upload,
                    },
                ),
            },
        }
    }
}

/// Stages an upload whose file is to be stored under the identifier
/// `file_id`.
pub fn stage_upload_as(body: &[u8], content_type: &str, file_id: &str) -> (result: Result<
    StagedUpload,
    UploadError,
>)
    ensures
        match result {
            Ok(upload) => staged(body@, content_type@, file_id@) == Ok::<StagedView, UploadError>(
                upload@,
            ),
            Err(error) => staged(body@, content_type@, file_id@) == Err::<StagedView, UploadError>(
                error,
            ),
        },
{
    if !is_multipart(content_type) {
        return Err(UploadError::NotMultipart);
    }
    let boundary = match boundary_of(content_type) {
        Some(boundary) => boundary,
        None => {
            return Err(UploadError::MissingBoundary);
        },
    };
    match parse_multipart_data(body, boundary.as_str()) {
        Ok(upload) => {
            let stored_filename = stored_name(file_id, upload.filename.as_str());
            Ok(StagedUpload { stored_filename, upload })
        },
        Err(error) => Err(UploadError::Decode(error)),
    }
}

/// Stages an upload whose file is to be stored under a fresh identifier.
///
/// The result is what `stage_upload_as` gives for some identifier; which
/// one is left to chance.
pub fn stage_upload(body: &[u8], content_type: &str) -> (result: Result<StagedUpload, UploadError>)
    ensures
        exists|file_id: Seq<char>|
            match result {
                Ok(upload) => #[trigger] staged(body@, content_type@, file_id) == Ok::<
                    StagedView,
                    UploadError,
                >(upload@),
                Err(error) => staged(body@, content_type@, file_id) == Err::<
                    StagedView,
                    UploadError,
                >(error),
            },
{
    let file_id = random_uuid();
    stage_upload_as(body, content_type, file_id.as_str())
}

/// The message that records a staged upload under the given identifier
/// and timestamp: its content is the stored name, it is an image or a
/// file by the extension of the client's name, and it carries that name,
/// the size of the file and its media type.
pub open spec fn upload_record(
    staged: StagedView,
    id: Seq<char>,
    timestamp: Seq<char>,
) -> MessageView {
    let extension = unicode_lowercase(extension_of(staged.upload.filename));
    MessageView {
        id,
        content: staged.stored_filename,
        sender: staged.upload.sender,
        timestamp,
        kind: if image_extension(extension) {
            MessageKind::Image
        } else {
            MessageKind::File
        },
        filename: Some(staged.upload.filename),
        file_size: Some(staged.upload.file_bytes.len() as u64),
        mime_type: Some(mime_of(extension)),
    }
}

/// Makes the message that records a staged upload under the given
/// identifier and timestamp.
pub fn upload_message_as(staged: &StagedUpload, id: String, timestamp: String) -> (message: Message)
    ensures
        message@ == upload_record(staged@, id@, timestamp@),
{
    let filename = staged.upload.filename.as_str();
    let kind = if is_image_file(filename) {
        MessageKind::Image
    } else {
        MessageKind::File
    };
    Message {
        id,
        content: staged.stored_filename.clone(),
        sender: staged.upload.sender.clone(),
        timestamp,
        kind,
        filename: Some(staged.upload.filename.clone()),
        file_size: Some(staged.upload.file_bytes.len() as u64),
        mime_type: Some(get_mime_type(filename).to_owned()),
    }
}

/// Makes the message that records a staged upload now, under a fresh
/// identifier.
pub fn upload_message(staged: &StagedUpload) -> (message: Message)
    ensures
        message@ == upload_record(staged@, message.id@, message.timestamp@),
{
    let id = random_uuid();
    let timestamp = utc_now_rfc3339();
    upload_message_as(staged, id, timestamp)
}

} // verus!
