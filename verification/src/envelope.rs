use crate::addr::is_digit;
use vstd::prelude::*;

verus! {

/// What the log transport says of one message: when it was sent, and its
/// body.
#[derive(Debug, PartialEq, Eq)]
pub struct SyslogEnvelope {
    /// Seconds since the epoch, in UTC.
    pub timestamp: Option<i64>,
    /// Nanoseconds within the second.
    pub timestamp_nanos: Option<u32>,
    /// The message body.
    pub msg: String,
}

/// The number of spaces in `s`.
pub open spec fn spaces_in(s: Seq<char>) -> nat
    decreases s.len(),
{
    if s.len() == 0 {
        0
    } else {
        spaces_in(s.drop_last()) + if s.last() == ' ' {
            1nat
        } else {
            0nat
        }
    }
}

/// A plus or minus sign at position `i`, directly after a digit and within
/// the first two words of the line: the only place where the sign of a time
/// zone can stand.
pub open spec fn zone_sign_at(line: Seq<char>, i: int) -> bool {
    1 <= i < line.len() && (line[i] == '+' || line[i] == '-') && is_digit(line[i - 1])
        && spaces_in(line.take(i)) <= 1
}

/// An ASCII character.
pub open spec fn is_ascii(c: char) -> bool {
    (c as u32) < 128
}

/// Five ASCII characters follow position `i`.
pub open spec fn five_follow(line: Seq<char>, i: int) -> bool {
    i + 6 <= line.len() && forall|j: int| i < j <= i + 5 ==> is_ascii(#[trigger] line[j])
}

/// Every sign that may be the sign of a time zone is followed by the five
/// characters that a time zone takes.
pub open spec fn zones_complete(line: Seq<char>) -> bool {
    forall|i: int| zone_sign_at(line, i) ==> five_follow(line, i)
}

/// The syslog message that a line holds: its timestamp in seconds, the
/// nanoseconds of the timestamp and the message body; `None` where the line
/// is no syslog message.
pub uninterp spec fn syslog_message(line: Seq<char>) -> Option<(Option<i64>, Option<u32>, Seq<char>)>;

/// Whether the seconds and nanoseconds name exactly one instant in UTC.
pub uninterp spec fn utc_instant_exists(secs: i64, nanos: u32) -> bool;

/// The error of `syslog_rfc5424::parse_message`. Nothing is read from it:
/// whatever it says, the line is no syslog message.
#[verifier::external_type_specification]
#[verifier::external_body]
pub struct ExParseErr(syslog_rfc5424::parser::ParseErr);

/// Calls `syslog_rfc5424::parse_message` and keeps of its message the
/// timestamp, the nanoseconds and the body. Not proved, but taken from the
/// parser's source: the result depends on the line alone, so that
/// `syslog_message` can name it; and the parser does not panic on a line
/// whose time zone signs are complete. It slices the five bytes after the
/// sign of a time zone without looking whether they are there, and it takes
/// for such a sign a plus or minus that follows the digits of the time in
/// the line's second word.
#[verifier::external_body]
pub(crate) fn parse_message(line: &str) -> (result: Result<
    SyslogEnvelope,
    syslog_rfc5424::parser::ParseErr,
>)
    requires
        zones_complete(line@),
    ensures
        match result {
            Ok(envelope) => syslog_message(line@) == Some(
                (envelope.timestamp, envelope.timestamp_nanos, envelope.msg@),
            ),
            Err(_) => syslog_message(line@) is None,
        },
{
    match syslog_rfc5424::parse_message(line) {
        Ok(message) => Ok(
            SyslogEnvelope {
                timestamp: message.timestamp,
                timestamp_nanos: message.timestamp_nanos,
                msg: message.msg,
            },
        ),
        Err(error) => Err(error),
    }
}

/// Calls `chrono::TimeZone::timestamp_opt` on `chrono::Utc` and tells
/// whether it gave a single instant. Not proved, but taken from its source:
/// the answer depends on the two numbers alone, so that `utc_instant_exists`
/// can name it.
#[verifier::external_body]
pub(crate) fn utc_instant(secs: i64, nanos: u32) -> (found: bool)
    ensures
        found == utc_instant_exists(secs, nanos),
{
    chrono::TimeZone::timestamp_opt(&chrono::Utc, secs, nanos).single().is_some()
}

/// The spaces of a text are at least those of its first characters.
proof fn lemma_spaces_grow(s: Seq<char>, i: int, j: int)
    requires
        0 <= i <= j <= s.len(),
    ensures
        spaces_in(s.take(i)) <= spaces_in(s.take(j)),
    decreases j - i,
{
    if i < j {
        assert(s.take(j).drop_last() =~= s.take(j - 1));
        lemma_spaces_grow(s, i, j - 1);
    }
}

/// Whether every sign that may be the sign of a time zone is followed by the
/// five characters that a time zone takes.
pub fn has_complete_zones(line: &[char]) -> (b: bool)
    ensures
        b == zones_complete(line@),
{
    let mut spaces: usize = 0;
    let mut i: usize = 0;
    while i < line.len()
        invariant
            i <= line@.len(),
            spaces == spaces_in(line@.take(i as int)),
            spaces <= i,
            spaces <= 1,
            forall|k: int| zone_sign_at(line@, k) && k < i ==> five_follow(line@, k),
        decreases line@.len() - i,
    {
        let c = line[i];
        if i >= 1 && (c == '+' || c == '-') && '0' <= line[i - 1] && line[i - 1] <= '9' {
            if line.len() - i < 6 {
                assert(zone_sign_at(line@, i as int));
                return false;
            }
            let end: usize = i + 6;
            let mut j: usize = i + 1;
            while j < end
                invariant
                    end == i + 6,
                    end <= line@.len(),
                    i < j <= end,
                    zone_sign_at(line@, i as int),
                    forall|k: int| i < k < j ==> is_ascii(#[trigger] line@[k]),
                decreases end - j,
            {
                let code: u32 = line[j] as u32;
                if code >= 128 {
                    assert(!is_ascii(line@[j as int]));
                    return false;
                }
                j += 1;
            }
        }
        assert(line@.take(i + 1).drop_last() =~= line@.take(i as int));
        if c == ' ' {
            if spaces == 1 {
                assert forall|k: int| zone_sign_at(line@, k) implies five_follow(line@, k) by {
                    if k > i {
                        lemma_spaces_grow(line@, i + 1, k);
                    }
                }
                return true;
            }
            spaces += 1;
        }
        i += 1;
    }
    true
}

} // verus!
