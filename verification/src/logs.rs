use crate::addr::{parse_socket_addr, socket_addr, IpAddress};
use crate::envelope::{
    has_complete_zones, parse_message, syslog_message, utc_instant, utc_instant_exists,
    zones_complete, SyslogEnvelope,
};
use crate::error::Error;
use crate::text::{
    chars_of, ends_in, ends_with, same, split, split_str, string_views, trim, trim_matches,
    trim_matches_str, trim_str, views,
};
use vstd::prelude::*;

verus! {

/// What happened to a connection.
#[derive(Debug, Clone, Copy, PartialEq, Eq, Structural)]
pub enum LogEvent {
    Connecting,
    Connected,
    Disconnected,
}

/// The event that a word names.
pub open spec fn event_of(word: Seq<char>) -> Option<LogEvent> {
    if word == "connecting"@ {
        Some(LogEvent::Connecting)
    } else if word == "connected"@ {
        Some(LogEvent::Connected)
    } else if word == "disconnected"@ {
        Some(LogEvent::Disconnected)
    } else {
        None
    }
}

impl LogEvent {
    /// The word that names the event.
    pub open spec fn word(self) -> Seq<char> {
        match self {
            LogEvent::Connecting => "connecting"@,
            LogEvent::Connected => "connected"@,
            LogEvent::Disconnected => "disconnected"@,
        }
    }

    /// The word that names the event.
    pub fn name(&self) -> (name: &'static str)
        ensures
            name@ == self.word(),
    {
        match self {
            LogEvent::Connecting => "connecting",
            LogEvent::Connected => "connected",
            LogEvent::Disconnected => "disconnected",
        }
    }

    /// The event that the word `s` names; every other word is an unknown
    /// event.
    pub fn from_str(s: &str) -> (result: Result<LogEvent, Error>)
        ensures
            match result {
                Ok(event) => event_of(s@) == Some(event),
                Err(error) => error == Error::UnknownEvent && event_of(s@) is None,
            },
    {
        let word = chars_of(s);
        let connecting = chars_of("connecting");
        let connected = chars_of("connected");
        let disconnected = chars_of("disconnected");
        if same(word.as_slice(), connecting.as_slice()) {
            Ok(LogEvent::Connecting)
        } else if same(word.as_slice(), connected.as_slice()) {
            Ok(LogEvent::Connected)
        } else if same(word.as_slice(), disconnected.as_slice()) {
            Ok(LogEvent::Disconnected)
        } else {
            Err(Error::UnknownEvent)
        }
    }
}

/// An instant: seconds since the epoch in UTC, and the nanoseconds within
/// the second.
#[derive(Debug, Clone, Copy, PartialEq, Eq, Structural)]
pub struct Timestamp {
    pub secs: i64,
    pub nanos: u32,
}

/// One event of the connection log. Its time is an instant; in which time
/// zone the instant is shown is up to the reader.
#[derive(Debug, PartialEq, Eq)]
pub struct LogEntry {
    pub event: LogEvent,
    pub time: Timestamp,
    pub ip: IpAddress,
    pub port: u16,
    pub user: String,
    pub server: String,
}

/// What a log entry holds, as values.
pub struct LogEntryView {
    pub event: LogEvent,
    pub time: Timestamp,
    pub ip: IpAddress,
    pub port: u16,
    pub user: Seq<char>,
    pub server: Seq<char>,
}

impl View for LogEntry {
    type V = LogEntryView;

    open spec fn view(&self) -> LogEntryView {
        LogEntryView {
            event: self.event,
            time: self.time,
            ip: self.ip,
            port: self.port,
            user: self.user@,
            server: self.server@,
        }
    }
}

impl Clone for LogEntry {
    fn clone(&self) -> (copy: LogEntry)
        ensures
            copy@ == self@,
    {
        LogEntry {
            event: self.event,
            time: self.time,
            ip: self.ip,
            port: self.port,
            user: self.user.clone(),
            server: self.server.clone(),
        }
    }
}

/// The views of a list of entries.
pub open spec fn entry_views(entries: Seq<LogEntry>) -> Seq<LogEntryView> {
    Seq::new(entries.len(), |i: int| entries[i]@)
}

/// What `result` holds, as values.
pub open spec fn entry_result_view(result: Result<LogEntry, Error>) -> Result<
    LogEntryView,
    Error,
> {
    match result {
        Ok(entry) => Ok(entry@),
        Err(error) => Err(error),
    }
}

/// The words of a message body: its pieces between single spaces.
pub open spec fn words(msg: Seq<char>) -> Seq<Seq<char>> {
    split(msg, seq![' '])
}

/// A word without the quotes around it.
pub open spec fn unquoted(word: Seq<char>) -> Seq<char> {
    trim_matches(word, '\'')
}

/// The entry that the message body `msg`, sent at `time`, stands for. The
/// body has nine words: the third is the server in quotes, the fifth the user
/// in quotes, the seventh the peer's address and port in quotes, and the
/// ninth names the event.
pub open spec fn event_entry(msg: Seq<char>, time: Timestamp) -> Result<LogEntryView, Error> {
    let word = words(msg);
    if word.len() != 9 {
        Err(Error::MalformedMessage)
    } else {
        match (socket_addr(unquoted(word[6])), event_of(word[8])) {
            (None, _) => Err(Error::BadAddress),
            (Some(_), None) => Err(Error::UnknownEvent),
            (Some((ip, port)), Some(event)) => Ok(
                LogEntryView {
                    event,
                    time,
                    ip,
                    port,
                    user: unquoted(word[4]),
                    server: unquoted(word[2]),
                },
            ),
        }
    }
}

/// The instant that the transport's timestamp names, where it names one.
pub open spec fn instant(secs: Option<i64>, nanos: Option<u32>) -> Option<Timestamp> {
    match (secs, nanos) {
        (Some(secs), Some(nanos)) => if utc_instant_exists(secs, nanos) {
            Some(Timestamp { secs, nanos })
        } else {
            None
        },
        _ => None,
    }
}

/// The entry that a syslog message with the given timestamp and body stands
/// for.
pub open spec fn envelope_entry(secs: Option<i64>, nanos: Option<u32>, msg: Seq<char>) -> Result<
    LogEntryView,
    Error,
> {
    match instant(secs, nanos) {
        None => Err(Error::BadTimestamp),
        Some(time) => event_entry(msg, time),
    }
}

/// Decodes the message body `msg`, which the transport stamped with `time`.
pub fn parse_event(msg: &str, time: Timestamp) -> (result: Result<LogEntry, Error>)
    ensures
        entry_result_view(result) == event_entry(msg@, time),
{
    let space: [char; 1] = [' '];
    assert(space@ =~= seq![' ']);
    let word = split_str(msg, space.as_slice());
    if word.len() != 9 {
        return Err(Error::MalformedMessage);
    }
    proof {
        assert(views(word@)[2] == word@[2]@);
        assert(views(word@)[4] == word@[4]@);
        assert(views(word@)[6] == word@[6]@);
        assert(views(word@)[8] == word@[8]@);
    }
    let (ip, port) = match parse_socket_addr(trim_matches_str(word[6], '\'')) {
        Some(addr) => addr,
        None => {
            return Err(Error::BadAddress);
        },
    };
    let event = match LogEvent::from_str(word[8]) {
        Ok(event) => event,
        Err(error) => {
            return Err(error);
        },
    };
    Ok(
        LogEntry {
            event,
            time,
            ip,
            port,
            user: trim_matches_str(word[4], '\'').to_owned(),
            server: trim_matches_str(word[2], '\'').to_owned(),
        },
    )
}

/// The instant that the transport's timestamp names.
pub fn resolve_instant(secs: Option<i64>, nanos: Option<u32>) -> (result: Result<Timestamp, Error>)
    ensures
        match result {
            Ok(time) => instant(secs, nanos) == Some(time),
            Err(error) => error == Error::BadTimestamp && instant(secs, nanos) is None,
        },
{
    match (secs, nanos) {
        (Some(secs), Some(nanos)) => {
            if utc_instant(secs, nanos) {
                Ok(Timestamp { secs, nanos })
            } else {
                Err(Error::BadTimestamp)
            }
        },
        _ => Err(Error::BadTimestamp),
    }
}

impl LogEntry {
    /// The entry that a syslog message stands for.
    pub fn try_from(envelope: &SyslogEnvelope) -> (result: Result<LogEntry, Error>)
        ensures
            entry_result_view(result) == envelope_entry(
                envelope.timestamp,
                envelope.timestamp_nanos,
                envelope.msg@,
            ),
    {
        match resolve_instant(envelope.timestamp, envelope.timestamp_nanos) {
            Ok(time) => parse_event(envelope.msg.as_str(), time),
            Err(error) => Err(error),
        }
    }
}

/// A line that may report an event: it ends in one of the three event
/// words.
pub open spec fn is_candidate(line: Seq<char>) -> bool {
    ends_with(line, "connected"@) || ends_with(line, "disconnected"@) || ends_with(
        line,
        "connecting"@,
    )
}

/// What one line of the log gives: nothing where it is no candidate, else
/// the entry that it stands for, or the reason why it stands for none.
pub open spec fn line_entry(raw: Seq<char>) -> Result<Option<LogEntryView>, Error> {
    let line = trim(raw);
    if !is_candidate(line) {
        Ok(None)
    } else if !zones_complete(line) {
        Err(Error::BadEnvelope)
    } else {
        match syslog_message(line) {
            None => Err(Error::BadEnvelope),
            Some((secs, nanos, msg)) => match envelope_entry(secs, nanos, msg) {
                Ok(entry) => Ok(Some(entry)),
                Err(error) => Err(error),
            },
        }
    }
}

/// The history after one more line: a line that is no candidate changes
/// nothing, a candidate adds its entry or fails the scan, and a scan that
/// has failed stays failed.
pub open spec fn scan_step(history: Result<Seq<LogEntryView>, Error>, raw: Seq<char>) -> Result<
    Seq<LogEntryView>,
    Error,
> {
    match history {
        Err(error) => Err(error),
        Ok(entries) => match line_entry(raw) {
            Err(error) => Err(error),
            Ok(None) => Ok(entries),
            Ok(Some(entry)) => Ok(entries.push(entry)),
        },
    }
}

/// The history that the lines of a log give: the entries of its candidate
/// lines in the order of the lines, or the failure of the first line that
/// fails.
pub open spec fn scan(lines: Seq<Seq<char>>) -> Result<Seq<LogEntryView>, Error>
    decreases lines.len(),
{
    if lines.len() == 0 {
        Ok(Seq::empty())
    } else {
        scan_step(scan(lines.drop_last()), lines.last())
    }
}

/// What `result` holds, as values.
pub open spec fn entries_result_view(result: Result<Vec<LogEntry>, Error>) -> Result<
    Seq<LogEntryView>,
    Error,
> {
    match result {
        Ok(entries) => Ok(entry_views(entries@)),
        Err(error) => Err(error),
    }
}

/// Whether `line` may report an event.
fn candidate(line: &[char]) -> (b: bool)
    ensures
        b == is_candidate(line@),
{
    let connected = chars_of("connected");
    let disconnected = chars_of("disconnected");
    let connecting = chars_of("connecting");
    ends_in(line, connected.as_slice()) || ends_in(line, disconnected.as_slice()) || ends_in(
        line,
        connecting.as_slice(),
    )
}

/// Reads one line of the log.
pub fn scan_line(raw: &str) -> (result: Result<Option<LogEntry>, Error>)
    ensures
        match result {
            Ok(Some(entry)) => line_entry(raw@) == Ok::<Option<LogEntryView>, Error>(
                Some(entry@),
            ),
            Ok(None) => line_entry(raw@) == Ok::<Option<LogEntryView>, Error>(None),
            Err(error) => line_entry(raw@) == Err::<Option<LogEntryView>, Error>(error),
        },
{
    let line = trim_str(raw);
    let chars = chars_of(line);
    if !candidate(chars.as_slice()) {
        return Ok(None);
    }
    if !has_complete_zones(chars.as_slice()) {
        return Err(Error::BadEnvelope);
    }
    match parse_message(line) {
        Err(_) => Err(Error::BadEnvelope),
        Ok(envelope) => match LogEntry::try_from(&envelope) {
            Ok(entry) => Ok(Some(entry)),
            Err(error) => Err(error),
        },
    }
}

/// The scanner of a log: it takes the lines one at a time and keeps the
/// history so far, or the failure of the first line that failed.
pub struct LogScanner {
    history: Result<Vec<LogEntry>, Error>,
}

impl View for LogScanner {
    type V = Result<Seq<LogEntryView>, Error>;

    closed spec fn view(&self) -> Result<Seq<LogEntryView>, Error> {
        entries_result_view(self.history)
    }
}

impl LogScanner {
    /// A scanner that has read nothing.
    pub fn new() -> (scanner: LogScanner)
        ensures
            scanner@ == Ok::<Seq<LogEntryView>, Error>(Seq::empty()),
    {
        let history: Vec<LogEntry> = Vec::new();
        assert(entry_views(history@) =~= Seq::empty());
        LogScanner { history: Ok(history) }
    }

    /// Whether a line has failed the scan.
    pub fn has_failed(&self) -> (b: bool)
        ensures
            b == (self@ is Err),
    {
        self.history.is_err()
    }

    /// Takes the next line of the log, as it was read.
    pub fn feed(self, raw: &str) -> (next: LogScanner)
        ensures
            next@ == scan_step(self@, raw@),
    {
        match self.history {
            Err(error) => LogScanner { history: Err(error) },
            Ok(mut entries) => match scan_line(raw) {
                Err(error) => LogScanner { history: Err(error) },
                Ok(None) => LogScanner { history: Ok(entries) },
                Ok(Some(entry)) => {
                    let ghost before = entry_views(entries@);
                    entries.push(entry);
                    assert(entry_views(entries@) =~= before.push(entry@));
                    LogScanner { history: Ok(entries) }
                },
            },
        }
    }

    /// Ends the scan: the history, or the failure of the first line that
    /// failed.
    pub fn finish(self) -> (result: Result<Vec<LogEntry>, Error>)
        ensures
            entries_result_view(result) == self@,
    {
        self.history
    }
}

/// Reads the history of connection events from the lines of the log.
pub fn filter_from_logs(lines: &Vec<String>) -> (result: Result<Vec<LogEntry>, Error>)
    ensures
        entries_result_view(result) == scan(string_views(lines@)),
{
    let ghost all = string_views(lines@);
    let mut scanner = LogScanner::new();
    let mut i: usize = 0;
    while i < lines.len()
        invariant
            i <= lines@.len(),
            all == string_views(lines@),
            scanner@ == scan(all.take(i as int)),
        decreases lines@.len() - i,
    {
        proof {
            assert(all.take(i + 1).drop_last() =~= all.take(i as int));
            assert(all.take(i + 1).last() == lines@[i as int]@);
        }
        scanner = scanner.feed(lines[i].as_str());
        i += 1;
    }
    assert(all.take(i as int) =~= all);
    scanner.finish()
}

/// A scan that has failed stays failed, whatever lines follow: the failure
/// of a log is that of its first line that fails.
pub proof fn law_scan_stays_failed(lines: Seq<Seq<char>>, k: int)
    requires
        0 <= k <= lines.len(),
        scan(lines.take(k)) is Err,
    ensures
        scan(lines) == scan(lines.take(k)),
    decreases lines.len() - k,
{
    if k == lines.len() {
        assert(lines.take(k) =~= lines);
    } else {
        assert(lines.take(k + 1).drop_last() =~= lines.take(k));
        law_scan_stays_failed(lines, k + 1);
    }
}

/// A log without a failing line gives one entry for each candidate line, in
/// the order of the lines: the history of two logs, one after the other, is
/// the history of the first and then the history of the second.
pub proof fn law_scan_in_order(first: Seq<Seq<char>>, second: Seq<Seq<char>>)
    requires
        scan(first) is Ok,
        scan(second) is Ok,
    ensures
        scan(first + second) == Ok::<Seq<LogEntryView>, Error>(
            scan(first)->Ok_0 + scan(second)->Ok_0,
        ),
    decreases second.len(),
{
    if second.len() == 0 {
        assert(first + second =~= first);
        assert(scan(first)->Ok_0 + scan(second)->Ok_0 =~= scan(first)->Ok_0);
    } else {
        assert((first + second).drop_last() =~= first + second.drop_last());
        assert((first + second).last() == second.last());
        law_scan_in_order(first, second.drop_last());
        let front = scan(first)->Ok_0 + scan(second.drop_last())->Ok_0;
        match line_entry(second.last()) {
            Ok(Some(entry)) => {
                assert(front.push(entry) =~= scan(first)->Ok_0 + scan(second.drop_last())->Ok_0.push(
                    entry,
                ));
            },
            _ => {},
        }
    }
}

/// What a reader of the history asks for: any of a server, a user and an
/// event, the event by its word.
#[derive(Debug, PartialEq, Eq)]
pub struct AuthQuery {
    pub server: Option<String>,
    pub user: Option<String>,
    pub event: Option<String>,
}

/// What is asked of an entry: a server, a user, an event, or any of them
/// left open.
pub struct Wanted {
    pub server: Option<Seq<char>>,
    pub user: Option<Seq<char>>,
    pub event: Option<LogEvent>,
}

/// Whether `entry` is what is asked for.
pub open spec fn is_wanted(entry: LogEntryView, wanted: Wanted) -> bool {
    &&& wanted.server matches Some(server) ==> entry.server == server
    &&& wanted.user matches Some(user) ==> entry.user == user
    &&& wanted.event matches Some(event) ==> entry.event == event
}

/// The entries of `entries` that are asked for, in their order.
pub open spec fn keep(entries: Seq<LogEntryView>, wanted: Wanted) -> Seq<LogEntryView>
    decreases entries.len(),
{
    if entries.len() == 0 {
        Seq::empty()
    } else if is_wanted(entries.last(), wanted) {
        keep(entries.drop_last(), wanted).push(entries.last())
    } else {
        keep(entries.drop_last(), wanted)
    }
}

/// What a query asks for, where its event word names an event.
pub open spec fn wanted_by(
    server: Option<Seq<char>>,
    user: Option<Seq<char>>,
    event: Option<Seq<char>>,
) -> Result<Wanted, Error> {
    match event {
        None => Ok(Wanted { server, user, event: None }),
        Some(word) => match event_of(word) {
            None => Err(Error::UnknownEvent),
            Some(event) => Ok(Wanted { server, user, event: Some(event) }),
        },
    }
}

/// The view of an optional string.
pub open spec fn text_view(text: Option<String>) -> Option<Seq<char>> {
    match text {
        Some(text) => Some(text@),
        None => None,
    }
}

/// The answer to a query over `entries`.
pub open spec fn answer(
    entries: Seq<LogEntryView>,
    server: Option<Seq<char>>,
    user: Option<Seq<char>>,
    event: Option<Seq<char>>,
) -> Result<Seq<LogEntryView>, Error> {
    match wanted_by(server, user, event) {
        Err(error) => Err(error),
        Ok(wanted) => Ok(keep(entries, wanted)),
    }
}

/// The entries of the history that the query asks for, in their order. A
/// query whose event word names no event fails.
pub fn filter_entries(entries: &Vec<LogEntry>, query: &AuthQuery) -> (result: Result<
    Vec<LogEntry>,
    Error,
>)
    ensures
        entries_result_view(result) == answer(
            entry_views(entries@),
            text_view(query.server),
            text_view(query.user),
            text_view(query.event),
        ),
{
    let event: Option<LogEvent> = match &query.event {
        None => None,
        Some(word) => match LogEvent::from_str(word.as_str()) {
            Ok(event) => Some(event),
            Err(error) => {
                return Err(error);
            },
        },
    };
    let ghost wanted = Wanted {
        server: text_view(query.server),
        user: text_view(query.user),
        event,
    };
    let ghost all = entry_views(entries@);
    let mut kept: Vec<LogEntry> = Vec::new();
    let mut i: usize = 0;
    assert(entry_views(kept@) =~= Seq::empty());
    while i < entries.len()
        invariant
            i <= entries@.len(),
            all == entry_views(entries@),
            wanted.server == text_view(query.server),
            wanted.user == text_view(query.user),
            wanted.event == event,
            entry_views(kept@) == keep(all.take(i as int), wanted),
        decreases entries@.len() - i,
    {
        proof {
            assert(all.take(i + 1).drop_last() =~= all.take(i as int));
            assert(all.take(i + 1).last() == entries@[i as int]@);
        }
        let entry = &entries[i];
        let server_fits = match &query.server {
            Some(server) => entry.server == *server,
            None => true,
        };
        let user_fits = match &query.user {
            Some(user) => entry.user == *user,
            None => true,
        };
        let event_fits = match event {
            Some(event) => entry.event == event,
            None => true,
        };
        if server_fits && user_fits && event_fits {
            let ghost before = entry_views(kept@);
            kept.push(entry.clone());
            assert(entry_views(kept@) =~= before.push(entry@));
        }
        i += 1;
    }
    assert(all.take(i as int) =~= all);
    Ok(kept)
}

/// Every entry that a filter keeps is asked for, and it keeps no more
/// entries than there are.
pub proof fn law_keep_is_wanted(entries: Seq<LogEntryView>, wanted: Wanted)
    ensures
        forall|i: int|
            0 <= i < keep(entries, wanted).len() ==> is_wanted(
                #[trigger] keep(entries, wanted)[i],
                wanted,
            ),
        keep(entries, wanted).len() <= entries.len(),
    decreases entries.len(),
{
    if entries.len() > 0 {
        law_keep_is_wanted(entries.drop_last(), wanted);
    }
}

/// A filter keeps the order: what it keeps of two histories, one after the
/// other, is what it keeps of the first and then what it keeps of the second.
pub proof fn law_keep_in_order(first: Seq<LogEntryView>, second: Seq<LogEntryView>, wanted: Wanted)
    ensures
        keep(first + second, wanted) == keep(first, wanted) + keep(second, wanted),
    decreases second.len(),
{
    if second.len() == 0 {
        assert(first + second =~= first);
        assert(keep(first, wanted) + keep(second, wanted) =~= keep(first, wanted));
    } else {
        assert((first + second).drop_last() =~= first + second.drop_last());
        assert((first + second).last() == second.last());
        law_keep_in_order(first, second.drop_last(), wanted);
        let front = keep(first, wanted) + keep(second.drop_last(), wanted);
        if is_wanted(second.last(), wanted) {
            assert(front.push(second.last()) =~= keep(first, wanted) + keep(
                second.drop_last(),
                wanted,
            ).push(second.last()));
        }
    }
}

/// A filter keeps a single entry where it is asked for and drops it where
/// it is not.
pub proof fn law_keep_one(entry: LogEntryView, wanted: Wanted)
    ensures
        keep(seq![entry], wanted) == if is_wanted(entry, wanted) {
            seq![entry]
        } else {
            Seq::empty()
        },
{
    assert(seq![entry].drop_last() =~= Seq::<LogEntryView>::empty());
    assert(keep(seq![entry].drop_last(), wanted) =~= Seq::empty());
    assert(Seq::<LogEntryView>::empty().push(entry) =~= seq![entry]);
}

/// A message body is decoded exactly where it has nine words, the seventh
/// an address with a port in quotes and the ninth the word of an event; a
/// body of any other number of words is malformed.
pub proof fn law_parse_event_total(msg: Seq<char>, time: Timestamp)
    ensures
        words(msg).len() != 9 ==> event_entry(msg, time) == Err::<LogEntryView, Error>(
            Error::MalformedMessage,
        ),
        event_entry(msg, time) is Ok <==> words(msg).len() == 9 && socket_addr(
            unquoted(words(msg)[6]),
        ) is Some && event_of(words(msg)[8]) is Some,
        event_entry(msg, time) matches Ok(entry) ==> entry.time == time && entry.server
            == unquoted(words(msg)[2]) && entry.user == unquoted(words(msg)[4]) && Some(
            entry.event,
        ) == event_of(words(msg)[8]) && Some((entry.ip, entry.port)) == socket_addr(
            unquoted(words(msg)[6]),
        ),
{
}

/// The word of an event names that event, and a word names an event only
/// where it is the word of that event.
pub proof fn law_event_words(event: LogEvent, word: Seq<char>)
    ensures
        event_of(event.word()) == Some(event),
        event_of(word) == Some(event) ==> word == event.word(),
{
    reveal_strlit("connecting");
    reveal_strlit("connected");
    reveal_strlit("disconnected");
    assert("connecting"@.len() == 10);
    assert("connected"@.len() == 9);
    assert("disconnected"@.len() == 12);
}

} // verus!
