//! One decoded record and what can be read off it.

use crate::time::{decimal_i64, parse_decimal, stamp_of_micros, Timestamp};
use crate::wire::FieldBytes;
use vstd::string::StringExecFns;
use vstd::prelude::*;
use vstd::utf8::*;

verus! {

/// One record of the journal: its fields in the order in which they came,
/// a field that came twice held twice.
#[derive(Debug, PartialEq, Clone)]
pub struct JournalMessage {
    pub fields: Vec<(Vec<u8>, Vec<u8>)>,
}

impl View for JournalMessage {
    type V = Seq<FieldBytes>;

    open spec fn view(&self) -> Seq<FieldBytes> {
        Seq::new(self.fields@.len(), |i: int| (self.fields@[i].0@, self.fields@[i].1@))
    }
}

/// Some field of `rec` is named `key`.
pub open spec fn has_field(rec: Seq<FieldBytes>, key: Seq<u8>) -> bool {
    exists|i: int| 0 <= i < rec.len() && (#[trigger] rec[i]).0 == key
}

/// The field at `i` is the first of `rec` that is named `key`.
pub open spec fn is_first_match(rec: Seq<FieldBytes>, key: Seq<u8>, i: int) -> bool {
    &&& 0 <= i < rec.len()
    &&& rec[i].0 == key
    &&& forall|j: int| 0 <= j < i ==> (#[trigger] rec[j]).0 != key
}

/// The value of the first field of `rec` that is named `key`.
pub open spec fn field_bytes(rec: Seq<FieldBytes>, key: Seq<u8>) -> Option<Seq<u8>> {
    if has_field(rec, key) {
        Some(rec[choose|i: int| is_first_match(rec, key, i)].1)
    } else {
        None
    }
}

/// The value of the first field of `rec` that is named `key`, as text. A
/// value that is not UTF-8 has no text: the field then counts as absent.
pub open spec fn field_text(rec: Seq<FieldBytes>, key: Seq<u8>) -> Option<Seq<char>> {
    match field_bytes(rec, key) {
        Some(value) => if valid_utf8(value) {
            Some(decode_utf8(value))
        } else {
            None
        },
        None => None,
    }
}

/// The text of the field named `name`, and no text where it is absent.
pub open spec fn text_or_empty(rec: Seq<FieldBytes>, name: Seq<char>) -> Seq<char> {
    match field_text(rec, encode_utf8(name)) {
        Some(text) => text,
        None => Seq::empty(),
    }
}

/// What the record says: the text of `MESSAGE`, or where that is empty the
/// text of `SYSLOG_RAW`.
pub open spec fn message_of(rec: Seq<FieldBytes>) -> Option<Seq<char>> {
    match field_text(rec, encode_utf8("MESSAGE"@)) {
        Some(text) => if text.len() == 0 {
            field_text(rec, encode_utf8("SYSLOG_RAW"@))
        } else {
            Some(text)
        },
        None => None,
    }
}

/// The text from which the record's instant is read: that of
/// `_SOURCE_REALTIME_TIMESTAMP`, or where that field is absent that of
/// `__REALTIME_TIMESTAMP`.
pub open spec fn clock_text(rec: Seq<FieldBytes>) -> Option<Seq<char>> {
    match field_text(rec, encode_utf8("_SOURCE_REALTIME_TIMESTAMP"@)) {
        Some(text) => Some(text),
        None => field_text(rec, encode_utf8("__REALTIME_TIMESTAMP"@)),
    }
}

/// The record's instant: its clock text read as a decimal count of
/// microseconds since the beginning of 1970. A text that spells no number
/// gives no instant.
pub open spec fn date_time_of(rec: Seq<FieldBytes>) -> Option<Timestamp> {
    match clock_text(rec) {
        Some(text) => match decimal_i64(encode_utf8(text)) {
            Some(micros) => stamp_of_micros(micros),
            None => None,
        },
        None => None,
    }
}

/// The record's instant as text.
pub open spec fn timestamp_of(rec: Seq<FieldBytes>) -> Option<Seq<char>> {
    match date_time_of(rec) {
        Some(stamp) => Some(stamp.text()),
        None => None,
    }
}

/// `text`, or no text where there is none.
pub open spec fn or_empty(text: Option<Seq<char>>) -> Seq<char> {
    match text {
        Some(t) => t,
        None => Seq::empty(),
    }
}

/// The line made of five texts: instant, host, command, process id in
/// square brackets, a colon, and what was said, closed by a newline.
pub open spec fn line_from(
    timestamp: Seq<char>,
    host: Seq<char>,
    comm: Seq<char>,
    pid: Seq<char>,
    message: Seq<char>,
) -> Seq<char> {
    timestamp + " "@ + host + " "@ + comm + "["@ + pid + "]: "@ + message + "\n"@
}

/// The line that stands for a record: the line made of its instant, host,
/// command, process id and what it says, each empty where the record does
/// not tell.
pub open spec fn line_of(rec: Seq<FieldBytes>) -> Seq<char> {
    line_from(
        or_empty(timestamp_of(rec)),
        text_or_empty(rec, "_HOSTNAME"@),
        text_or_empty(rec, "_COMM"@),
        text_or_empty(rec, "_PID"@),
        or_empty(message_of(rec)),
    )
}

/// The ways of writing a record out that can be asked for.
#[allow(non_camel_case_types)]
#[derive(Debug, Clone, Copy, PartialEq, Eq, Structural)]
pub enum OutputMode {
    short,
    short_precise,
    short_iso,
    short_iso_precise,
    short_full,
    short_monotonic,
    short_unix,
    verbose,
    export,
    json,
    json_pretty,
    json_sse,
    json_seq,
    cat,
    with_unit,
}

/// Why a record was not written out.
#[derive(Debug, Clone, Copy, PartialEq, Eq, Structural)]
pub enum RenderError {
    /// Nothing writes records in this mode yet.
    NotImplemented(OutputMode),
}

/// What a text that may be absent holds, for use in contracts.
pub open spec fn text_view(text: Option<String>) -> Option<Seq<char>> {
    match text {
        Some(s) => Some(s@),
        None => None,
    }
}

/// The first match is the one that [`field_bytes`] speaks of.
pub proof fn lemma_first_match(rec: Seq<FieldBytes>, key: Seq<u8>, i: int)
    requires
        is_first_match(rec, key, i),
    ensures
        field_bytes(rec, key) == Some(rec[i].1),
{
    let c = choose|c: int| is_first_match(rec, key, c);
    if c < i {
        assert(rec[c].0 != key);
    } else if i < c {
        assert(rec[i].0 != key);
    }
}

/// `core::str::from_utf8`: the bytes are read as text where they are UTF-8,
/// and only there; the text then holds the characters that the bytes encode.
#[verifier::external_body]
fn as_utf8<'a>(bytes: &'a [u8]) -> (res: Option<&'a str>)
    ensures
        res is Some <==> valid_utf8(bytes@),
        res matches Some(text) ==> text@ == decode_utf8(bytes@),
{
    core::str::from_utf8(bytes).ok()
}

/// Whether two runs of bytes are the same.
fn same_bytes(a: &[u8], b: &[u8]) -> (same: bool)
    ensures
        same == (a@ == b@),
{
    if a.len() != b.len() {
        return false;
    }
    let mut i: usize = 0;
    while i < a.len()
        invariant
            i <= a@.len(),
            a@.len() == b@.len(),
            forall|j: int| 0 <= j < i ==> a@[j] == b@[j],
        decreases a@.len() - i,
    {
        if a[i] != b[i] {
            return false;
        }
        i += 1;
    }
    assert(a@ =~= b@);
    true
}

/// Lays out one line: `<timestamp> <host> <comm>[<pid>]: <message>` and a
/// newline.
pub fn short_iso_line(timestamp: &str, host: &str, comm: &str, pid: &str, message: &str) -> (line:
    String)
    ensures
        line@ == timestamp@ + " "@ + host@ + " "@ + comm@ + "["@ + pid@ + "]: "@ + message@
            + "\n"@,
        line@ == line_from(timestamp@, host@, comm@, pid@, message@),
{
    let mut line = String::new();
    line.append(timestamp);
    line.append(" ");
    line.append(host);
    line.append(" ");
    line.append(comm);
    line.append("[");
    line.append(pid);
    line.append("]: ");
    line.append(message);
    line.append("\n");
    assert(Seq::<char>::empty() + timestamp@ == timestamp@);
    line
}

impl JournalMessage {
    /// Where the first field named `key` stands.
    fn find(&self, key: &[u8]) -> (res: Option<usize>)
        ensures
            match res {
                Some(i) => is_first_match(self@, key@, i as int),
                None => !has_field(self@, key@),
            },
    {
        let mut i: usize = 0;
        while i < self.fields.len()
            invariant
                i <= self.fields@.len(),
                forall|j: int| 0 <= j < i ==> (#[trigger] self@[j]).0 != key@,
            decreases self.fields@.len() - i,
        {
            if same_bytes(self.fields[i].0.as_slice(), key) {
                return Some(i);
            }
            i += 1;
        }
        None
    }

    /// The value of the first field named `key`, as text. There is none
    /// where no field has that name, or where the value is not UTF-8.
    pub fn field(&self, key: &[u8]) -> (res: Option<String>)
        ensures
            text_view(res) == field_text(self@, key@),
    {
        match self.find(key) {
            None => None,
            Some(i) => {
                proof {
                    lemma_first_match(self@, key@, i as int);
                }
                match as_utf8(self.fields[i].1.as_slice()) {
                    Some(text) => Some(text.to_owned()),
                    None => None,
                }
            },
        }
    }

    /// The text of the field named `name`, empty where there is none.
    fn text(&self, name: &str) -> (res: String)
        ensures
            res@ == text_or_empty(self@, name@),
    {
        match self.field(name.as_bytes()) {
            Some(text) => text,
            None => String::new(),
        }
    }

    /// What the record says: `MESSAGE`, or where that is empty `SYSLOG_RAW`.
    pub fn message(&self) -> (res: Option<String>)
        ensures
            text_view(res) == message_of(self@),
    {
        match self.field("MESSAGE".as_bytes()) {
            Some(text) => {
                if text.as_str().is_empty() {
                    self.field("SYSLOG_RAW".as_bytes())
                } else {
                    Some(text)
                }
            },
            None => None,
        }
    }

    /// The record's instant, read from its clock field.
    pub fn date_time(&self) -> (res: Option<Timestamp>)
        ensures
            res == date_time_of(self@),
            res matches Some(stamp) ==> stamp.valid(),
    {
        let text = match self.field("_SOURCE_REALTIME_TIMESTAMP".as_bytes()) {
            Some(text) => text,
            None => match self.field("__REALTIME_TIMESTAMP".as_bytes()) {
                Some(text) => text,
                None => {
                    return None;
                },
            },
        };
        match parse_decimal(text.as_str().as_bytes()) {
            Some(micros) => Timestamp::from_micros(micros),
            None => None,
        }
    }

    /// The record's instant as text.
    pub fn timestamp(&self) -> (res: Option<String>)
        ensures
            text_view(res) == timestamp_of(self@),
    {
        match self.date_time() {
            Some(stamp) => stamp.to_text(),
            None => None,
        }
    }

    /// Writes the record out as one line. Without a mode, and in the mode
    /// `short_iso`, the line is that of [`line_of`]; no other mode is
    /// implemented.
    pub fn to_string(&self, mode: Option<OutputMode>) -> (res: Result<String, RenderError>)
        ensures
            match mode {
                None | Some(OutputMode::short_iso) => res matches Ok(line) && line@ == line_of(
                    self@,
                ),
                Some(other) => res == Err::<String, RenderError>(
                    RenderError::NotImplemented(other),
                ),
            },
    {
        match mode {
            None | Some(OutputMode::short_iso) => {
                let timestamp = match self.timestamp() {
                    Some(text) => text,
                    None => String::new(),
                };
                let message = match self.message() {
                    Some(text) => text,
                    None => String::new(),
                };
                Ok(
                    short_iso_line(
                        timestamp.as_str(),
                        self.hostname().as_str(),
                        self.comm().as_str(),
                        self.pid().as_str(),
                        message.as_str(),
                    ),
                )
            },
            Some(other) => Err(RenderError::NotImplemented(other)),
        }
    }

    /// The id of the process that wrote the record: `_PID`, or nothing.
    pub fn pid(&self) -> (res: String)
        ensures
            res@ == text_or_empty(self@, "_PID"@),
    {
        self.text("_PID")
    }

    /// The name of the command that wrote the record: `_COMM`, or nothing.
    pub fn comm(&self) -> (res: String)
        ensures
            res@ == text_or_empty(self@, "_COMM"@),
    {
        self.text("_COMM")
    }

    /// The unit that the record belongs to: `_SYSTEMD_UNIT`, or nothing.
    pub fn systemd_unit(&self) -> (res: String)
        ensures
            res@ == text_or_empty(self@, "_SYSTEMD_UNIT"@),
    {
        self.text("_SYSTEMD_UNIT")
    }

    /// The host that the record came from: `_HOSTNAME`, or nothing.
    pub fn hostname(&self) -> (res: String)
        ensures
            res@ == text_or_empty(self@, "_HOSTNAME"@),
    {
        self.text("_HOSTNAME")
    }
}

} // verus!
