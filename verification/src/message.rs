//! Messages: the records of the log.

use vstd::prelude::*;
use crate::clock::{random_uuid, utc_now_rfc3339};
use crate::text::same_text;

verus! {

/// What a message carries.
#[derive(Debug, Clone, Copy, PartialEq, Eq, Structural)]
pub enum MessageKind {
    Text,
    Image,
    File,
}

impl MessageKind {
    /// The word that stands for the kind in a record.
    pub open spec fn label(self) -> Seq<char> {
        match self {
            MessageKind::Text => "text"@,
            MessageKind::Image => "image"@,
            MessageKind::File => "file"@,
        }
    }

    /// The kind that a word stands for.
    pub open spec fn labelled(word: Seq<char>) -> Option<MessageKind> {
        if word == "text"@ {
            Some(MessageKind::Text)
        } else if word == "image"@ {
            Some(MessageKind::Image)
        } else if word == "file"@ {
            Some(MessageKind::File)
        } else {
            None
        }
    }

    /// The word that stands for the kind in a record.
    pub fn as_str(&self) -> (word: &'static str)
        ensures
            word@ == self.label(),
    {
        match self {
            MessageKind::Text => "text",
            MessageKind::Image => "image",
            MessageKind::File => "file",
        }
    }

    /// The kind that a word stands for; `None` for any other word.
    pub fn parse(word: &str) -> (kind: Option<MessageKind>)
        ensures
            kind == MessageKind::labelled(word@),
    {
        if same_text(word, "text") {
            Some(MessageKind::Text)
        } else if same_text(word, "image") {
            Some(MessageKind::Image)
        } else if same_text(word, "file") {
            Some(MessageKind::File)
        } else {
            None
        }
    }
}

/// One record of the log.
#[derive(Debug, Clone, PartialEq, Eq)]
pub struct Message {
    /// Identifier given by the server.
    pub id: String,
    /// The text; for an upload, the name under which the file is stored.
    pub content: String,
    /// Display name of the sender, as the client gave it.
    pub sender: String,
    /// RFC 3339 timestamp of the moment the message was made.
    pub timestamp: String,
    pub kind: MessageKind,
    /// Name of the file as the client gave it.
    pub filename: Option<String>,
    /// Length of an uploaded file in bytes.
    pub file_size: Option<u64>,
    /// Media type of an uploaded file.
    pub mime_type: Option<String>,
}

/// A message as mathematical values.
pub struct MessageView {
    pub id: Seq<char>,
    pub content: Seq<char>,
    pub sender: Seq<char>,
    pub timestamp: Seq<char>,
    pub kind: MessageKind,
    pub filename: Option<Seq<char>>,
    pub file_size: Option<u64>,
    pub mime_type: Option<Seq<char>>,
}

/// An optional text as mathematical value.
pub open spec fn text_view(text: Option<String>) -> Option<Seq<char>> {
    match text {
        Some(text) => Some(text@),
        None => None,
    }
}

impl View for Message {
    type V = MessageView;

    open spec fn view(&self) -> MessageView {
        MessageView {
            id: self.id@,
            content: self.content@,
            sender: self.sender@,
            timestamp: self.timestamp@,
            kind: self.kind,
            filename: text_view(self.filename),
            file_size: self.file_size,
            mime_type: text_view(self.mime_type),
        }
    }
}

/// The messages of a sequence as mathematical values.
pub open spec fn views(messages: Seq<Message>) -> Seq<MessageView> {
    messages.map_values(|message: Message| message@)
}

/// A copy of an optional text.
pub fn copy_text(text: &Option<String>) -> (copy: Option<String>)
    ensures
        text_view(copy) == text_view(*text),
{
    match text {
        Some(text) => Some(text.clone()),
        None => None,
    }
}

impl Message {
    /// A copy of the message.
    pub fn duplicate(&self) -> (copy: Message)
        ensures
            copy@ == self@,
    {
        Message {
            id: self.id.clone(),
            content: self.content.clone(),
            sender: self.sender.clone(),
            timestamp: self.timestamp.clone(),
            kind: self.kind,
            filename: copy_text(&self.filename),
            file_size: self.file_size,
            mime_type: copy_text(&self.mime_type),
        }
    }
}

/// What a client asks to be posted.
#[derive(Debug, Clone, PartialEq, Eq)]
pub struct SendRequest {
    pub content: String,
    pub sender: String,
    pub kind: MessageKind,
    pub filename: Option<String>,
}

/// What came of reading a request to post a message.
#[derive(Debug, Clone, PartialEq, Eq)]
pub enum Submission {
    /// The body was read and understood.
    Accepted(SendRequest),
    /// The body was read, but is no request.
    Unparseable,
    /// The body could not be read.
    Unreadable,
}

/// The content of the message posted in place of a request that could
/// not be understood.
pub open spec fn unparseable_text() -> Seq<char> {
    "Failed to parse request"@
}

/// The content of the message posted in place of a request whose body
/// could not be read.
pub open spec fn unreadable_text() -> Seq<char> {
    "Body read failed"@
}

/// The message that a submission becomes under the given identifier and
/// timestamp. A request that failed is posted as a text by `Unknown` that
/// says so. No posted message has a size or a media type.
pub open spec fn composed(
    submission: Submission,
    id: Seq<char>,
    timestamp: Seq<char>,
) -> MessageView {
    match submission {
        Submission::Accepted(request) => MessageView {
            id,
            content: request.content@,
            sender: request.sender@,
            timestamp,
            kind: request.kind,
            filename: text_view(request.filename),
            file_size: None,
            mime_type: None,
        },
        Submission::Unparseable => failure_notice(unparseable_text(), id, timestamp),
        Submission::Unreadable => failure_notice(unreadable_text(), id, timestamp),
    }
}

/// A text message by `Unknown`.
pub open spec fn failure_notice(
    content: Seq<char>,
    id: Seq<char>,
    timestamp: Seq<char>,
) -> MessageView {
    MessageView {
        id,
        content,
        sender: "Unknown"@,
        timestamp,
        kind: MessageKind::Text,
        filename: None,
        file_size: None,
        mime_type: None,
    }
}

/// Makes the message that a submission becomes under the given
/// identifier and timestamp.
pub fn compose_message(submission: Submission, id: String, timestamp: String) -> (message: Message)
    ensures
        message@ == composed(submission, id@, timestamp@),
{
    match submission {
        Submission::Accepted(request) => Message {
            id,
            content: request.content,
            sender: request.sender,
            timestamp,
            kind: request.kind,
            filename: request.filename,
            file_size: None,
            mime_type: None,
        },
        Submission::Unparseable => Message {
            id,
            content: "Failed to parse request".to_owned(),
            sender: "Unknown".to_owned(),
            timestamp,
            kind: MessageKind::Text,
            filename: None,
            file_size: None,
            mime_type: None,
        },
        Submission::Unreadable => Message {
            id,
            content: "Body read failed".to_owned(),
            sender: "Unknown".to_owned(),
            timestamp,
            kind: MessageKind::Text,
            filename: None,
            file_size: None,
            mime_type: None,
        },
    }
}

/// Makes the message that a submission becomes now, under a fresh
/// identifier.
pub fn new_message(submission: Submission) -> (message: Message)
    ensures
        message@ == composed(submission, message.id@, message.timestamp@),
{
    let id = random_uuid();
    let timestamp = utc_now_rfc3339();
    compose_message(submission, id, timestamp)
}

} // verus!
