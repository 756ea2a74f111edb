//! The message log: an append-only sequence of lines, each a record or a
//! line that could not be read as one.

use vstd::prelude::*;
use crate::bytes::{
    first_match_from, lemma_first_match_is, lemma_first_match_least, matches_at, search_in_bytes,
};
use crate::clock::{instant_of, parse_instant, utc_now_rfc3339, Instant};
use crate::message::{views, Message, MessageView};
use crate::multipart::lf;
use crate::query::{parse_since_parameter, since_parameter};

verus! {

/// A line of the log as mathematical value: the record it holds, or
/// `None` for a line that holds none.
pub open spec fn line_view(line: Option<Message>) -> Option<MessageView> {
    match line {
        Some(message) => Some(message@),
        None => None,
    }
}

/// The lines of a log as mathematical values.
pub open spec fn line_views(lines: Seq<Option<Message>>) -> Seq<Option<MessageView>> {
    lines.map_values(|line: Option<Message>| line_view(line))
}

/// The records among the lines, in the order of the lines.
pub open spec fn records(lines: Seq<Option<MessageView>>) -> Seq<MessageView>
    decreases lines.len(),
{
    if lines.len() == 0 {
        Seq::empty()
    } else {
        match lines.last() {
            Some(message) => records(lines.drop_last()).push(message),
            None => records(lines.drop_last()),
        }
    }
}

/// A message with the timestamp `stamp` is newer than `threshold`: its
/// time is strictly later, or it has none that can be read.
pub open spec fn newer(stamp: Option<Instant>, threshold: Instant) -> bool {
    match stamp {
        Some(time) => time.later_than(threshold),
        None => true,
    }
}

/// The messages newer than `threshold`, in their order.
pub open spec fn newer_than(messages: Seq<MessageView>, threshold: Instant) -> Seq<MessageView>
    decreases messages.len(),
{
    if messages.len() == 0 {
        Seq::empty()
    } else if newer(instant_of(messages.last().timestamp), threshold) {
        newer_than(messages.drop_last(), threshold).push(messages.last())
    } else {
        newer_than(messages.drop_last(), threshold)
    }
}

/// The messages that a poll with the threshold `since` is answered with:
/// those newer than it, and all of them where it is no timestamp.
pub open spec fn since(messages: Seq<MessageView>, since: Seq<char>) -> Seq<MessageView> {
    match instant_of(since) {
        Some(threshold) => newer_than(messages, threshold),
        None => messages,
    }
}

/// Whether a message with the timestamp `stamp` is newer than
/// `threshold`.
pub fn is_newer(stamp: Option<Instant>, threshold: &Instant) -> (kept: bool)
    ensures
        kept == newer(stamp, *threshold),
{
    match stamp {
        Some(time) => time.is_later_than(threshold),
        None => true,
    }
}

/// The messages among `messages` that a poll with the threshold `since`
/// is answered with.
pub fn get_messages_since(messages: &[Message], since: &str) -> (kept: Vec<Message>)
    ensures
        views(kept@) == self::since(views(messages@), since@),
{
    let threshold = parse_instant(since);
    let mut kept: Vec<Message> = Vec::new();
    let mut i: usize = 0;
    assert(views(kept@) =~= Seq::<MessageView>::empty());
    while i < messages.len()
        invariant
            i <= messages.len(),
            threshold == instant_of(since@),
            views(kept@) == self::since(views(messages@).take(i as int), since@),
        decreases messages.len() - i,
    {
        let ghost before = views(messages@).take(i as int);
        let ghost after = views(messages@).take(i + 1);
        assert(after.drop_last() =~= before);
        assert(after.last() == messages@[i as int]@);
        let keep = match &threshold {
            Some(threshold) => is_newer(parse_instant(messages[i].timestamp.as_str()), threshold),
            None => true,
        };
        if keep {
            let ghost old_kept = kept@;
            kept.push(messages[i].duplicate());
            assert(views(kept@) =~= views(old_kept).push(messages@[i as int]@));
        }
        assert(threshold is None ==> after =~= before.push(after.last()));
        i += 1;
    }
    assert(views(messages@).take(messages@.len() as int) =~= views(messages@));
    kept
}

/// The message log.
pub struct MessageLog {
    lines: Vec<Option<Message>>,
}

impl View for MessageLog {
    type V = Seq<Option<MessageView>>;

    closed spec fn view(&self) -> Seq<Option<MessageView>> {
        line_views(self.lines@)
    }
}

/// What a poll is answered with.
#[derive(Debug, Clone, PartialEq, Eq)]
pub struct PollReply {
    /// The messages newer than the threshold asked for.
    pub messages: Vec<Message>,
    /// The time of the answer, from which the next poll goes on.
    pub timestamp: String,
}

impl MessageLog {
    /// A log without lines.
    pub fn new() -> (log: MessageLog)
        ensures
            log@ == Seq::<Option<MessageView>>::empty(),
    {
        let log = MessageLog { lines: Vec::new() };
        assert(log@ =~= Seq::<Option<MessageView>>::empty());
        log
    }

    /// The log with the given lines: for each line the record read from
    /// it, or `None` where it holds none.
    pub fn from_lines(lines: Vec<Option<Message>>) -> (log: MessageLog)
        ensures
            log@ == line_views(lines@),
    {
        MessageLog { lines }
    }

    /// Number of lines.
    pub fn len(&self) -> (len: usize)
        ensures
            len == self@.len(),
    {
        self.lines.len()
    }

    /// Appends a record at the end of the log. Every other line stays as
    /// it is.
    pub fn append(&mut self, message: Message)
        ensures
            final(self)@ == old(self)@.push(Some(message@)),
    {
        self.lines.push(Some(message));
        assert(final(self)@ =~= old(self)@.push(Some(message@)));
    }

    /// All records of the log, in its order. Lines that hold no record
    /// are passed over.
    pub fn load_all(&self) -> (messages: Vec<Message>)
        ensures
            views(messages@) == records(self@),
    {
        let mut messages: Vec<Message> = Vec::new();
        let mut i: usize = 0;
        assert(views(messages@) =~= Seq::<MessageView>::empty());
        while i < self.lines.len()
            invariant
                i <= self.lines.len(),
                views(messages@) == records(self@.take(i as int)),
            decreases self.lines.len() - i,
        {
            assert(self@.take(i + 1).drop_last() =~= self@.take(i as int));
            assert(self@.take(i + 1).last() == line_view(self.lines@[i as int]));
            match &self.lines[i] {
                Some(message) => {
                    let ghost before = messages@;
                    messages.push(message.duplicate());
                    assert(views(messages@) =~= views(before).push(message@));
                },
                None => {},
            }
            i += 1;
        }
        assert(self@.take(self@.len() as int) =~= self@);
        messages
    }

    /// The records newer than the threshold `since`, in the order of the
    /// log; all records where `since` is no timestamp.
    pub fn load_since(&self, since: &str) -> (messages: Vec<Message>)
        ensures
            views(messages@) == self::since(records(self@), since@),
    {
        let all = self.load_all();
        get_messages_since(all.as_slice(), since)
    }

    /// Answers a poll: the records newer than the threshold that the
    /// query string asks for, and the time of the answer.
    pub fn answer_poll(&self, query: &str) -> (reply: PollReply)
        ensures
            views(reply.messages@) == self::since(records(self@), since_parameter(query@)),
    {
        let threshold = parse_since_parameter(query);
        let messages = self.load_since(threshold.as_str());
        PollReply { messages, timestamp: utc_now_rfc3339() }
    }
}

/// The lines of a log in which every line holds a record.
pub open spec fn all_records(messages: Seq<MessageView>) -> Seq<Option<MessageView>> {
    messages.map_values(|message: MessageView| Some(message))
}

/// The records of two runs of lines are those of the first run, then
/// those of the second.
pub proof fn lemma_records_of_runs(first: Seq<Option<MessageView>>, second: Seq<Option<MessageView>>)
    ensures
        records(first + second) == records(first) + records(second),
    decreases second.len(),
{
    if second.len() == 0 {
        assert(first + second =~= first);
        assert(records(first) + records(second) =~= records(first));
    } else {
        lemma_records_of_runs(first, second.drop_last());
        assert((first + second).drop_last() =~= first + second.drop_last());
        assert((first + second).last() == second.last());
        match second.last() {
            Some(message) => {
                assert((records(first) + records(second.drop_last())).push(message) =~= records(
                    first,
                ) + records(second.drop_last()).push(message));
            },
            None => {},
        }
    }
}

/// Where every line holds a record, the records are the lines.
pub proof fn lemma_records_of_all(messages: Seq<MessageView>)
    ensures
        records(all_records(messages)) == messages,
    decreases messages.len(),
{
    if messages.len() == 0 {
        assert(records(all_records(messages)) =~= messages);
    } else {
        lemma_records_of_all(messages.drop_last());
        assert(all_records(messages).drop_last() =~= all_records(messages.drop_last()));
        assert(messages.drop_last().push(messages.last()) =~= messages);
    }
}

/// Loading after an append: the records are those from before, then the
/// appended message. So the appended message is among what is loaded, as
/// it was appended.
pub proof fn lemma_append_then_load_all(lines: Seq<Option<MessageView>>, message: MessageView)
    ensures
        records(lines.push(Some(message))) == records(lines).push(message),
        records(lines.push(Some(message))).contains(message),
{
    assert(lines.push(Some(message)).drop_last() =~= lines);
    let loaded = records(lines).push(message);
    assert(loaded[loaded.len() - 1] == message);
}

/// A line that holds no record changes nothing in what is loaded,
/// wherever it stands.
pub proof fn lemma_corrupt_line_skipped(lines: Seq<Option<MessageView>>, at: int)
    requires
        0 <= at <= lines.len(),
    ensures
        records(lines.insert(at, None)) == records(lines),
{
    let head = lines.take(at);
    let tail = lines.skip(at);
    let gap = seq![None::<MessageView>];
    assert(lines.insert(at, None) =~= (head + gap) + tail);
    assert(lines =~= head + tail);
    lemma_records_of_runs(head + gap, tail);
    lemma_records_of_runs(head, gap);
    lemma_records_of_runs(head, tail);
    assert(gap.last() is None);
    assert(records(gap.drop_last()) =~= Seq::<MessageView>::empty());
    assert(records(gap) =~= Seq::<MessageView>::empty());
    assert(records(head) + records(gap) =~= records(head));
}

/// A log of valid lines with one line among them that holds no record
/// yields exactly the records of the valid lines, in their order.
pub proof fn lemma_one_corrupt_line(valid: Seq<MessageView>, at: int)
    requires
        0 <= at <= valid.len(),
    ensures
        records(all_records(valid).insert(at, None)) == valid,
        records(all_records(valid).insert(at, None)).len() == valid.len(),
{
    lemma_corrupt_line_skipped(all_records(valid), at);
    lemma_records_of_all(valid);
}

/// What `newer_than` keeps: exactly the messages that are newer than the
/// threshold.
pub proof fn lemma_newer_than_keeps(
    messages: Seq<MessageView>,
    threshold: Instant,
    message: MessageView,
)
    ensures
        newer_than(messages, threshold).contains(message) <==> messages.contains(message) && newer(
            instant_of(message.timestamp),
            threshold,
        ),
        newer_than(messages, threshold).len() <= messages.len(),
    decreases messages.len(),
{
    if messages.len() == 0 {
    } else {
        let rest = messages.drop_last();
        let last = messages.last();
        lemma_newer_than_keeps(rest, threshold, message);
        let kept = newer_than(messages, threshold);
        if messages.contains(message) {
            let i = choose|i: int| 0 <= i < messages.len() && messages[i] == message;
            if i < rest.len() {
                assert(rest[i] == message);
            }
        }
        if rest.contains(message) {
            let i = choose|i: int| 0 <= i < rest.len() && rest[i] == message;
            assert(messages[i] == message);
        }
        if newer(instant_of(last.timestamp), threshold) {
            let before = newer_than(rest, threshold);
            assert(kept == before.push(last));
            if before.contains(message) {
                let i = choose|i: int| 0 <= i < before.len() && before[i] == message;
                assert(kept[i] == message);
            }
            if last == message {
                assert(kept[kept.len() - 1] == message);
                assert(messages[messages.len() - 1] == message);
            }
            if kept.contains(message) {
                let i = choose|i: int| 0 <= i < kept.len() && kept[i] == message;
                if i < before.len() {
                    assert(before[i] == message);
                }
            }
        } else {
            if last == message {
                assert(messages[messages.len() - 1] == message);
            }
        }
    }
}

/// Whatever the threshold, a poll is answered with records that loading
/// all of them yields too, and with no more of them.
pub proof fn lemma_load_all_covers_load_since(
    lines: Seq<Option<MessageView>>,
    threshold: Seq<char>,
    message: MessageView,
)
    ensures
        since(records(lines), threshold).contains(message) ==> records(lines).contains(message),
        since(records(lines), threshold).len() <= records(lines).len(),
{
    match instant_of(threshold) {
        Some(instant) => {
            lemma_newer_than_keeps(records(lines), instant, message);
        },
        None => {},
    }
}

/// A poll after an append, where the threshold and the timestamp of the
/// appended message can both be read: the message is in the answer if its
/// time is strictly later than the threshold, and not in it otherwise.
pub proof fn lemma_append_then_load_since(
    lines: Seq<Option<MessageView>>,
    message: MessageView,
    threshold: Seq<char>,
)
    requires
        instant_of(message.timestamp) is Some,
        instant_of(threshold) is Some,
    ensures
        since(records(lines.push(Some(message))), threshold).contains(message) <==> instant_of(
            message.timestamp,
        )->0.later_than(instant_of(threshold)->0),
{
    lemma_append_then_load_all(lines, message);
    lemma_newer_than_keeps(
        records(lines.push(Some(message))),
        instant_of(threshold)->0,
        message,
    );
}

/// A line without the carriage return at its end, if it has one.
pub open spec fn without_carriage_return(line: Seq<u8>) -> Seq<u8> {
    if line.len() > 0 && line.last() == 13 {
        line.drop_last()
    } else {
        line
    }
}

/// The lines of a log file: what stands between one line feed and the
/// next, without the carriage return in front of the line feed. What
/// follows the last line feed is a line too, as it stands, unless it is
/// empty.
pub open spec fn lines_of(data: Seq<u8>) -> Seq<Seq<u8>>
    decreases data.len(),
    via lines_of_decreases
{
    if data.len() == 0 {
        Seq::empty()
    } else {
        match first_match_from(data, lf(), 0) {
            None => seq![data],
            Some(end) => seq![without_carriage_return(data.take(end))] + lines_of(
                data.skip(end + 1),
            ),
        }
    }
}

#[via_fn]
proof fn lines_of_decreases(data: Seq<u8>) {
    lemma_first_match_least(data, lf(), 0);
}

/// The lines of a list as mathematical values.
pub open spec fn rows(lines: Seq<Vec<u8>>) -> Seq<Seq<u8>> {
    lines.map_values(|line: Vec<u8>| line@)
}

/// Cuts the content of a log file into its lines.
pub fn split_lines(data: &[u8]) -> (lines: Vec<Vec<u8>>)
    ensures
        rows(lines@) == lines_of(data@),
{
    let line_feed: [u8; 1] = [10];
    assert(line_feed@ =~= lf());
    let len = data.len();
    let mut lines: Vec<Vec<u8>> = Vec::new();
    let mut from: usize = 0;
    assert(data@.subrange(0, len as int) =~= data@);
    assert(rows(lines@) + lines_of(data@) =~= lines_of(data@));
    while from < len
        invariant
            from <= len == data.len(),
            line_feed@ == lf(),
            lines_of(data@) == rows(lines@) + lines_of(data@.subrange(from as int, len as int)),
        decreases len - from,
    {
        let rest = vstd::slice::slice_subrange(data, from, len);
        let ghost before = lines@;
        proof {
            lemma_first_match_least(rest@, lf(), 0);
        }
        match search_in_bytes(rest, line_feed.as_slice()) {
            None => {
                lines.push(vstd::slice::slice_to_vec(rest));
                assert(rows(lines@) =~= rows(before) + seq![rest@]);
                return lines;
            },
            Some(end) => {
                let cut: usize = if end > 0 && rest[end - 1] == 13 {
                    end - 1
                } else {
                    end
                };
                let line = vstd::slice::slice_to_vec(vstd::slice::slice_subrange(rest, 0, cut));
                assert(line@ =~= without_carriage_return(rest@.take(end as int)));
                lines.push(line);
                assert(rest@.skip(end + 1) =~= data@.subrange(from + end + 1, len as int));
                assert(rows(lines@) + lines_of(rest@.skip(end + 1)) =~= rows(before) + (seq![
                    without_carriage_return(rest@.take(end as int)),
                ] + lines_of(rest@.skip(end + 1))));
                from = from + end + 1;
            },
        }
    }
    assert(rows(lines@) + lines_of(data@.subrange(from as int, len as int)) =~= rows(lines@));
    lines
}

/// A record as it is written to the log: its bytes and a line feed.
pub open spec fn framed(record: Seq<u8>) -> Seq<u8> {
    record + lf()
}

/// The bytes that are appended to the log file for a record.
pub fn frame_record(record: &str) -> (line: Vec<u8>)
    ensures
        line@ == framed(vstd::utf8::encode_utf8(record@)),
{
    let mut line = vstd::slice::slice_to_vec(record.as_bytes());
    line.push(10);
    assert(line@ =~= framed(vstd::utf8::encode_utf8(record@)));
    line
}

/// A log file to which records can be appended: empty, or with a line
/// feed at its end.
pub open spec fn closed_log(data: Seq<u8>) -> bool {
    data.len() == 0 || data.last() == 10
}

/// A record that fits on a line: it holds no line feed and does not end
/// with a carriage return.
pub open spec fn one_line(record: Seq<u8>) -> bool {
    &&& forall|k: int| 0 <= k < record.len() ==> record[k] != 10
    &&& record.len() > 0 ==> record.last() != 13
}

/// A record that is appended to a log file is read back as its last
/// line, and the lines before it stay as they were. The log file can take
/// the next record.
pub proof fn lemma_framed_record_is_last_line(data: Seq<u8>, record: Seq<u8>)
    requires
        closed_log(data),
        one_line(record),
    ensures
        lines_of(data + framed(record)) == lines_of(data).push(record),
        closed_log(data + framed(record)),
    decreases data.len(),
{
    let line = framed(record);
    let whole = data + line;
    if data.len() == 0 {
        assert(whole =~= line);
        assert(line.subrange(record.len() as int, record.len() as int + 1) =~= lf());
        assert forall|j: int| 0 <= j < record.len() implies !matches_at(line, lf(), j) by {
            if matches_at(line, lf(), j) {
                assert(line.subrange(j, j + 1)[0] == line[j]);
            }
        }
        lemma_first_match_is(line, lf(), 0, record.len() as int);
        assert(line.take(record.len() as int) =~= record);
        assert(line.skip(record.len() as int + 1) =~= Seq::<u8>::empty());
        assert(lines_of(line) =~= seq![record] + lines_of(Seq::<u8>::empty()));
        assert(lines_of(data).push(record) =~= seq![record]);
    } else {
        lemma_first_match_least(data, lf(), 0);
        assert(data.subrange(data.len() - 1, data.len() as int) =~= lf());
        assert(matches_at(data, lf(), data.len() - 1));
        let end = first_match_from(data, lf(), 0)->0;
        assert(whole.subrange(end, end + 1) =~= data.subrange(end, end + 1));
        assert forall|j: int| 0 <= j < end implies !matches_at(whole, lf(), j) by {
            assert(whole.subrange(j, j + 1) =~= data.subrange(j, j + 1));
            assert(!matches_at(data, lf(), j));
        }
        lemma_first_match_is(whole, lf(), 0, end);
        assert(whole.take(end) =~= data.take(end));
        assert(whole.skip(end + 1) =~= data.skip(end + 1) + line);
        lemma_framed_record_is_last_line(data.skip(end + 1), record);
        let first = seq![without_carriage_return(data.take(end))];
        assert(first + lines_of(data.skip(end + 1)).push(record) =~= (first + lines_of(
            data.skip(end + 1),
        )).push(record));
    }
}

} // verus!
