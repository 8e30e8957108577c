use crate::error::Error;
use crate::table::{
    decode_table, line_events, record_views, run, Record, Scan, TableDecoder,
};
use crate::text::{chars_of, string_views, trim, trim_str};
use std::ops::ControlFlow;
use vstd::prelude::*;

verus! {

/// The characters that a server name is made of: `a` to `z` and `0` to `9`.
pub open spec fn is_name_char(c: char) -> bool {
    ('a' <= c && c <= 'z') || ('0' <= c && c <= '9')
}

/// A server name: one or more lower-case letters and digits.
pub open spec fn is_server_name(name: Seq<char>) -> bool {
    name.len() > 0 && forall|i: int| 0 <= i < name.len() ==> is_name_char(#[trigger] name[i])
}

/// The path of the administrative socket of the server `name`.
pub open spec fn socket_path(name: Seq<char>) -> Seq<char> {
    "/var/etc/openvpn/"@ + name + "/sock"@
}

/// What `result` holds, as values.
pub open spec fn table_view(result: Result<Vec<Record>, Error>) -> Result<
    Seq<Seq<(Seq<char>, Seq<char>)>>,
    Error,
> {
    match result {
        Ok(rows) => Ok(record_views(rows@)),
        Err(error) => Err(error),
    }
}

/// The handler `f` answers `answer` to the line `raw`, which it is given
/// without the white space at its ends.
pub open spec fn answers<T, F: Fn(&str) -> ControlFlow<T>>(
    f: F,
    raw: Seq<char>,
    answer: ControlFlow<T>,
) -> bool {
    exists|line: &str| line@ == trim(raw) && call_ensures(f, (line,), answer)
}

/// A session with the management interface of one server. The session
/// decides; the caller owns the connection, reads the lines and hands them
/// over.
#[derive(Debug)]
pub struct OpenVpnMgmnt {
    server_name: String,
}

impl OpenVpnMgmnt {
    #[verifier::type_invariant]
    spec fn named(self) -> bool {
        is_server_name(self.server_name@)
    }

    /// The name of the server.
    pub closed spec fn name(&self) -> Seq<char> {
        self.server_name@
    }

    /// Opens a session for the server `server_name`, which must be a server
    /// name.
    pub fn connect(server_name: &str) -> (result: Result<OpenVpnMgmnt, Error>)
        ensures
            result is Ok <==> is_server_name(server_name@),
            result matches Ok(session) ==> session.name() == server_name@,
            result matches Err(error) ==> error == Error::InvalidName,
    {
        let chars = chars_of(server_name);
        if chars.len() == 0 {
            return Err(Error::InvalidName);
        }
        let mut i: usize = 0;
        while i < chars.len()
            invariant
                i <= chars@.len(),
                chars@ == server_name@,
                forall|j: int| 0 <= j < i ==> is_name_char(#[trigger] chars@[j]),
            decreases chars@.len() - i,
        {
            let c = chars[i];
            if !(('a' <= c && c <= 'z') || ('0' <= c && c <= '9')) {
                assert(!is_name_char(server_name@[i as int]));
                return Err(Error::InvalidName);
            }
            i += 1;
        }
        Ok(OpenVpnMgmnt { server_name: server_name.to_owned() })
    }

    /// The name of the server, which is a server name.
    pub fn server_name(&self) -> (name: &str)
        ensures
            name@ == self.name(),
            is_server_name(name@),
    {
        proof {
            use_type_invariant(self);
        }
        self.server_name.as_str()
    }

    /// The path of the server's administrative socket.
    pub fn sock_path(&self) -> (path: String)
        ensures
            path@ == socket_path(self.name()),
    {
        let mut path = String::from_str("/var/etc/openvpn/");
        path.append(self.server_name.as_str());
        path.append("/sock");
        path
    }

    /// What is sent for the command `cmd`: the command and a line feed.
    pub fn command_line(cmd: &str) -> (line: String)
        ensures
            line@ == cmd@.push('\n'),
    {
        let mut line = String::from_str(cmd);
        proof {
            reveal_strlit("\n");
            assert("\n"@ =~= seq!['\n']);
        }
        line.append("\n");
        assert(line@ =~= cmd@.push('\n'));
        line
    }

    /// Hands the lines of `reply` to the handler `f`, one after the other
    /// and each without the white space at its ends, until `f` breaks with a
    /// value. Where `f` asks for more after the last line, the stream has
    /// ended too early.
    pub fn execute<T, F: Fn(&str) -> ControlFlow<T>>(&self, reply: &Vec<String>, f: F) -> (result:
        Result<T, Error>)
        requires
            forall|line: &str| call_requires(f, (line,)),
        ensures
            match result {
                Ok(value) => exists|i: int|
                    0 <= i < reply@.len() && answers(
                        f,
                        (#[trigger] reply@[i])@,
                        ControlFlow::Break(value),
                    ) && forall|j: int|
                        0 <= j < i ==> answers(f, (#[trigger] reply@[j])@, ControlFlow::Continue(())),
                Err(error) => error == Error::UnexpectedEof && forall|j: int|
                    0 <= j < reply@.len() ==> answers(
                        f,
                        (#[trigger] reply@[j])@,
                        ControlFlow::Continue(()),
                    ),
            },
    {
        let mut i: usize = 0;
        while i < reply.len()
            invariant
                i <= reply@.len(),
                forall|line: &str| call_requires(f, (line,)),
                forall|j: int|
                    0 <= j < i ==> answers(f, (#[trigger] reply@[j])@, ControlFlow::Continue(())),
            decreases reply@.len() - i,
        {
            let line = trim_str(reply[i].as_str());
            let answer = f(line);
            assert(answers(f, reply@[i as int]@, answer));
            match answer {
                ControlFlow::Break(value) => {
                    return Ok(value);
                },
                ControlFlow::Continue(unit) => {
                    assert(unit == ());
                },
            }
            i += 1;
        }
        Err(Error::UnexpectedEof)
    }

    /// The table of `key` in a reply that consists of the lines `reply` and
    /// then ends.
    pub fn execute_to_map(&self, reply: &Vec<String>, key: &str) -> (result: Result<
        Vec<Record>,
        Error,
    >)
        ensures
            table_view(result) == decode_table(string_views(reply@), key@),
    {
        let ghost events = line_events(string_views(reply@));
        let mut decoder = TableDecoder::new(key);
        let mut i: usize = 0;
        while i < reply.len()
            invariant
                i <= reply@.len(),
                events == line_events(string_views(reply@)),
                decoder.key() == key@,
                decoder@ == run(Scan::AwaitHeader, key@, events.take(i as int)),
            decreases reply@.len() - i,
        {
            proof {
                assert(events.take(i + 1).drop_last() =~= events.take(i as int));
                assert(events.take(i + 1).last() == Some(reply@[i as int]@));
            }
            decoder = decoder.feed(Some(reply[i].as_str()));
            i += 1;
        }
        assert(events.take(i as int) =~= events);
        decoder.finish()
    }
}

} // verus!
