//! Bounded recordings of lifecycle events: which lines a recording holds
//! for a given size limit.
use vstd::prelude::*;
use crate::events::{Event, event_json};
use crate::text::push_str;

verus! {

/// The first line of every recording: its type, its schema version and
/// that process command lines are not included.
pub open spec fn header_text() -> Seq<char> {
    "{\"record_type\":\"whats-running-events\",\"schema_version\":1,\"commands_included\":false}\n"@
}

/// The number of bytes a text takes in UTF-8.
pub open spec fn byte_len(s: Seq<char>) -> int {
    vstd::utf8::encode_utf8(s).len() as int
}

/// The line that records one event: its JSON object and a newline.
pub open spec fn event_line(e: Event) -> Seq<char> {
    event_json(e) + "\n"@
}

/// The number of bytes that the lines of the first `n` events take.
pub open spec fn lines_bytes(events: Seq<Event>, n: int) -> int
    decreases n,
{
    if n <= 0 {
        0
    } else {
        lines_bytes(events, n - 1) + byte_len(event_line(events[n - 1]))
    }
}

/// The lines of more events take at least as many bytes.
pub proof fn lemma_lines_bytes_grow(events: Seq<Event>, m: int, n: int)
    requires
        0 <= m <= n <= events.len(),
    ensures
        lines_bytes(events, m) <= lines_bytes(events, n),
    decreases n - m,
{
    if m < n {
        lemma_lines_bytes_grow(events, m, n - 1);
    }
}

/// A recording holds as many events as fit: under a larger size limit it
/// never holds fewer, and the number it holds is the same for any two
/// recordings of the same events under the same limit. Each recording is
/// described by what `recording_lines` promises of its count and size.
pub proof fn lemma_recording_fills_the_limit(
    events: Seq<Event>,
    max1: u64,
    count1: int,
    max2: u64,
    count2: int,
)
    requires
        max1 <= max2,
        0 <= count1 <= events.len(),
        0 <= count2 <= events.len(),
        byte_len(header_text()) + lines_bytes(events, count1) <= max1,
        byte_len(header_text()) + lines_bytes(events, count2) <= max2,
        count1 == events.len() || byte_len(header_text()) + lines_bytes(events, count1) + byte_len(
            event_line(events[count1]),
        ) > max1,
        count2 == events.len() || byte_len(header_text()) + lines_bytes(events, count2) + byte_len(
            event_line(events[count2]),
        ) > max2,
    ensures
        count1 <= count2,
        max1 == max2 ==> count1 == count2,
{
    if count1 > count2 {
        lemma_lines_bytes_grow(events, count2 + 1, count1);
        assert(lines_bytes(events, count2 + 1) == lines_bytes(events, count2) + byte_len(
            event_line(events[count2]),
        ));
    }
    if max1 == max2 && count2 > count1 {
        lemma_lines_bytes_grow(events, count1 + 1, count2);
        assert(lines_bytes(events, count1 + 1) == lines_bytes(events, count1) + byte_len(
            event_line(events[count1]),
        ));
    }
}

/// The contents of a recording: its lines (the header first), the number
/// of events it holds and its size in bytes.
pub struct Recording {
    pub lines: Vec<String>,
    pub count: usize,
    pub bytes: u64,
}

/// Why no recording can be made.
#[derive(Debug, Clone, Copy, PartialEq, Eq, Structural)]
pub enum RecordingError {
    /// The size limit is smaller than the header alone.
    TooSmall,
}

/// Lays out a recording of `events` that stays within `max_bytes`: the
/// header, then the lines of as many events, in order, as fit; the first
/// event whose line would overflow the limit ends the recording. Fails
/// when not even the header fits.
pub fn recording_lines(events: &[Event], max_bytes: u64) -> (r: Result<Recording, RecordingError>)
    ensures
        r is Err <==> byte_len(header_text()) > max_bytes,
        r matches Ok(rec) ==> {
            &&& rec.count <= events@.len()
            &&& rec.bytes == byte_len(header_text()) + lines_bytes(events@, rec.count as int)
            &&& rec.bytes <= max_bytes
            &&& (rec.count == events@.len() || rec.bytes + byte_len(
                event_line(events@[rec.count as int]),
            ) > max_bytes)
            &&& rec.lines@.len() == rec.count + 1
            &&& rec.lines@[0]@ == header_text()
            &&& forall|i: int|
                0 <= i < rec.count ==> (#[trigger] rec.lines@[i + 1])@ == event_line(events@[i])
        },
{
    let header = "{\"record_type\":\"whats-running-events\",\"schema_version\":1,\"commands_included\":false}\n";
    let header_len = header.as_bytes().len();
    if header_len as u64 > max_bytes {
        return Err(RecordingError::TooSmall);
    }
    let mut lines: Vec<String> = Vec::new();
    lines.push(String::from_str(header));
    let mut bytes: u64 = header_len as u64;
    let mut count: usize = 0;
    while count < events.len()
        invariant
            count <= events@.len(),
            bytes == byte_len(header_text()) + lines_bytes(events@, count as int),
            bytes <= max_bytes,
            lines@.len() == count + 1,
            lines@[0]@ == header_text(),
            forall|i: int| 0 <= i < count ==> (#[trigger] lines@[i + 1])@ == event_line(events@[i]),
        ensures
            count <= events@.len(),
            bytes == byte_len(header_text()) + lines_bytes(events@, count as int),
            bytes <= max_bytes,
            lines@.len() == count + 1,
            lines@[0]@ == header_text(),
            forall|i: int| 0 <= i < count ==> (#[trigger] lines@[i + 1])@ == event_line(events@[i]),
            count == events@.len() || bytes + byte_len(event_line(events@[count as int]))
                > max_bytes,
        decreases events@.len() - count,
    {
        let mut line = events[count].json();
        push_str(&mut line, "\n");
        let len = line.as_str().as_bytes().len();
        if bytes as u128 + len as u128 > max_bytes as u128 {
            break;
        }
        bytes = bytes + len as u64;
        lines.push(line);
        count = count + 1;
    }
    Ok(Recording { lines, count, bytes })
}

} // verus!
