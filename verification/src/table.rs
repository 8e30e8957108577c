use crate::error::{Error, ProtocolFault};
use crate::text::{
    chars_of, contains, occurs_in, same, split, split_str, string_views, trim, trim_str, views,
};
use vstd::prelude::*;

verus! {

/// One field of a record: the name that the header gave it and its value in
/// the row.
#[derive(Debug, PartialEq, Eq)]
pub struct Field {
    pub name: String,
    pub value: String,
}

/// One row of a table: a value for each field of the header, in the header's
/// order. Where the header names a field twice the record holds both values,
/// and a lookup by name finds the later one.
#[derive(Debug, PartialEq, Eq)]
pub struct Record {
    pub fields: Vec<Field>,
}

impl View for Record {
    type V = Seq<(Seq<char>, Seq<char>)>;

    open spec fn view(&self) -> Seq<(Seq<char>, Seq<char>)> {
        Seq::new(self.fields@.len(), |i: int| (self.fields@[i].name@, self.fields@[i].value@))
    }
}

/// The value that a record gives for a field name: that of the last field
/// of that name.
pub open spec fn lookup(record: Seq<(Seq<char>, Seq<char>)>, name: Seq<char>) -> Option<Seq<char>>
    decreases record.len(),
{
    if record.len() == 0 {
        None
    } else if record.last().0 == name {
        Some(record.last().1)
    } else {
        lookup(record.drop_last(), name)
    }
}

/// A record as a mapping from field names to values, where a later field
/// takes the place of an earlier one of the same name.
pub open spec fn to_map(record: Seq<(Seq<char>, Seq<char>)>) -> Map<Seq<char>, Seq<char>>
    decreases record.len(),
{
    if record.len() == 0 {
        Map::empty()
    } else {
        to_map(record.drop_last()).insert(record.last().0, record.last().1)
    }
}

/// The mapping of a record holds, for each field name, what a lookup gives.
pub proof fn law_map_is_lookup(record: Seq<(Seq<char>, Seq<char>)>, name: Seq<char>)
    ensures
        to_map(record).contains_key(name) <==> lookup(record, name) is Some,
        lookup(record, name) matches Some(value) ==> to_map(record)[name] == value,
    decreases record.len(),
{
    if record.len() > 0 {
        law_map_is_lookup(record.drop_last(), name);
    }
}

impl Record {
    /// The value of the field `name`: that of the last field of that name.
    pub fn get(&self, name: &str) -> (value: Option<&str>)
        ensures
            match value {
                Some(value) => lookup(self@, name@) == Some(value@),
                None => lookup(self@, name@) is None,
            },
    {
        let wanted = chars_of(name);
        let mut i: usize = self.fields.len();
        assert(self@.take(i as int) =~= self@);
        while i > 0
            invariant
                i <= self.fields@.len(),
                wanted@ == name@,
                lookup(self@, name@) == lookup(self@.take(i as int), name@),
            decreases i,
        {
            let field = &self.fields[i - 1];
            let found = chars_of(field.name.as_str());
            proof {
                assert(self@.take(i as int).drop_last() =~= self@.take(i - 1));
                assert(self@.take(i as int).last() == (field.name@, field.value@));
            }
            if same(found.as_slice(), wanted.as_slice()) {
                return Some(field.value.as_str());
            }
            i -= 1;
        }
        assert(self@.take(0) =~= Seq::empty());
        None
    }
}

/// The views of a list of records.
pub open spec fn record_views(rows: Seq<Record>) -> Seq<Seq<(Seq<char>, Seq<char>)>> {
    Seq::new(rows.len(), |i: int| rows[i]@)
}

/// A line that signals out of band: it carries `END` or `ERROR`.
pub open spec fn is_sentinel(line: Seq<char>) -> bool {
    contains(line, "END"@) || contains(line, "ERROR"@)
}

/// A line that announces the table of `key`: it carries `HEADER` and `key`.
pub open spec fn is_header(line: Seq<char>, key: Seq<char>) -> bool {
    contains(line, "HEADER"@) && contains(line, key)
}

/// The comma-separated tokens of `line` without the first `n` of them.
pub open spec fn tokens_after(line: Seq<char>, n: nat) -> Seq<Seq<char>> {
    let tokens = split(line, seq![',']);
    if tokens.len() <= n {
        Seq::empty()
    } else {
        tokens.skip(n as int)
    }
}

/// The field names that a header line gives: its tokens after the first two.
pub open spec fn header_fields(line: Seq<char>) -> Seq<Seq<char>> {
    tokens_after(line, 2)
}

/// The values that a row gives: its tokens after the first, which tells the
/// kind of line.
pub open spec fn row_values(line: Seq<char>) -> Seq<Seq<char>> {
    tokens_after(line, 1)
}

/// Names and values paired by position.
pub open spec fn zip(names: Seq<Seq<char>>, values: Seq<Seq<char>>) -> Seq<
    (Seq<char>, Seq<char>),
> {
    Seq::new(names.len(), |i: int| (names[i], values[i]))
}

/// Where the decoding of one table stands.
pub enum Scan {
    /// No header line has been seen yet.
    AwaitHeader,
    /// The header has been read, and `rows` after it.
    ReadRows { header: Seq<Seq<char>>, rows: Seq<Seq<(Seq<char>, Seq<char>)>> },
    /// The table ended with a line that is no row of it.
    Done { header: Seq<Seq<char>>, rows: Seq<Seq<(Seq<char>, Seq<char>)>> },
    /// The reply was not a table.
    Failed { error: Error },
}

/// The state after one event in `state`. An event is a line as it was read,
/// or `None` where the read gave nothing because the stream has ended.
pub open spec fn step(state: Scan, key: Seq<char>, event: Option<Seq<char>>) -> Scan {
    match state {
        Scan::AwaitHeader => match event {
            None => Scan::Failed { error: Error::UnexpectedEof },
            Some(raw) => {
                let line = trim(raw);
                if is_sentinel(line) {
                    Scan::Failed { error: Error::ProtocolError(ProtocolFault::Sentinel) }
                } else if is_header(line, key) {
                    if header_fields(line).len() == 0 {
                        Scan::Failed { error: Error::ProtocolError(ProtocolFault::EmptyHeader) }
                    } else {
                        Scan::ReadRows { header: header_fields(line), rows: Seq::empty() }
                    }
                } else {
                    Scan::AwaitHeader
                }
            },
        },
        Scan::ReadRows { header, rows } => match event {
            None => Scan::Failed { error: Error::UnexpectedEof },
            Some(raw) => {
                let line = trim(raw);
                if is_sentinel(line) {
                    Scan::Failed { error: Error::ProtocolError(ProtocolFault::Sentinel) }
                } else if !contains(line, key) {
                    Scan::Done { header, rows }
                } else if row_values(line).len() != header.len() {
                    Scan::Failed {
                        error: Error::ProtocolError(
                            ProtocolFault::LengthMismatch {
                                got: row_values(line).len() as usize,
                                expected: header.len() as usize,
                            },
                        ),
                    }
                } else {
                    Scan::ReadRows { header, rows: rows.push(zip(header, row_values(line))) }
                }
            },
        },
        Scan::Done { header, rows } => state,
        Scan::Failed { error } => state,
    }
}

/// The state after the events `events`, one after the other, from `state`.
pub open spec fn run(state: Scan, key: Seq<char>, events: Seq<Option<Seq<char>>>) -> Scan
    decreases events.len(),
{
    if events.len() == 0 {
        state
    } else {
        step(run(state, key, events.drop_last()), key, events.last())
    }
}

/// What a scan that stops in `state` has to show: the table when it ended in
/// order, the failure when it failed, and `UnexpectedEof` when the lines ran
/// out before the table ended.
pub open spec fn outcome(state: Scan) -> Result<Seq<Seq<(Seq<char>, Seq<char>)>>, Error> {
    match state {
        Scan::Done { header, rows } => Ok(rows),
        Scan::Failed { error } => Err(error),
        _ => Err(Error::UnexpectedEof),
    }
}

/// The lines of a reply as events.
pub open spec fn line_events(lines: Seq<Seq<char>>) -> Seq<Option<Seq<char>>> {
    Seq::new(lines.len(), |i: int| Some(lines[i]))
}

/// The table of `key` in a reply that consists of `lines` and then ends.
pub open spec fn decode_table(lines: Seq<Seq<char>>, key: Seq<char>) -> Result<
    Seq<Seq<(Seq<char>, Seq<char>)>>,
    Error,
> {
    outcome(run(Scan::AwaitHeader, key, line_events(lines)))
}

/// Whether `line` signals out of band.
fn sentinel(line: &[char]) -> (b: bool)
    ensures
        b == is_sentinel(line@),
{
    let end: [char; 3] = ['E', 'N', 'D'];
    let error: [char; 5] = ['E', 'R', 'R', 'O', 'R'];
    proof {
        reveal_strlit("END");
        reveal_strlit("ERROR");
        assert(end@ =~= "END"@);
        assert(error@ =~= "ERROR"@);
    }
    occurs_in(line, end.as_slice()) || occurs_in(line, error.as_slice())
}

/// Whether `line` announces the table of `key`.
fn announces(line: &[char], key: &[char]) -> (b: bool)
    ensures
        b == is_header(line@, key@),
{
    let header: [char; 6] = ['H', 'E', 'A', 'D', 'E', 'R'];
    proof {
        reveal_strlit("HEADER");
        assert(header@ =~= "HEADER"@);
    }
    occurs_in(line, header.as_slice()) && occurs_in(line, key)
}

/// The comma-separated tokens of `line` without the first `n` of them.
fn tokens(line: &str, n: usize) -> (out: Vec<String>)
    ensures
        string_views(out@) == tokens_after(line@, n as nat),
{
    let comma: [char; 1] = [','];
    assert(comma@ =~= seq![',']);
    let all = split_str(line, comma.as_slice());
    let mut out: Vec<String> = Vec::new();
    let mut i: usize = n;
    while i < all.len()
        invariant
            n <= i,
            views(all@) == split(line@, seq![',']),
            n <= all@.len() ==> i <= all@.len() && out@.len() == i - n,
            n > all@.len() ==> out@.len() == 0,
            forall|j: int| 0 <= j < out@.len() ==> (#[trigger] out@[j])@ == all@[n + j]@,
        decreases all@.len() - i,
    {
        out.push(all[i].to_owned());
        i += 1;
    }
    proof {
        let whole = split(line@, seq![',']);
        assert(whole.len() == all@.len());
        assert forall|j: int| 0 <= j < all@.len() implies whole[j] == all@[j]@ by {
            assert(views(all@)[j] == all@[j]@);
        }
        if whole.len() <= n {
            assert(out@.len() == 0);
        } else {
            assert(i == all@.len());
            assert(out@.len() == whole.len() - n);
            assert forall|j: int| 0 <= j < out@.len() implies string_views(out@)[j]
                == whole.skip(n as int)[j] by {
                assert(out@[j]@ == all@[n + j]@);
            }
        }
        assert(string_views(out@) =~= tokens_after(line@, n as nat));
    }
    out
}

/// The record that pairs the names of `header` with `values`.
fn pair(header: &Vec<String>, values: &Vec<String>) -> (record: Record)
    requires
        header@.len() == values@.len(),
    ensures
        record@ == zip(string_views(header@), string_views(values@)),
{
    let mut fields: Vec<Field> = Vec::new();
    let mut i: usize = 0;
    while i < header.len()
        invariant
            i <= header@.len(),
            header@.len() == values@.len(),
            fields@.len() == i,
            forall|j: int|
                0 <= j < i ==> (#[trigger] fields@[j]).name@ == header@[j]@ && fields@[j].value@
                    == values@[j]@,
        decreases header@.len() - i,
    {
        fields.push(Field { name: header[i].clone(), value: values[i].clone() });
        i += 1;
    }
    let record = Record { fields };
    assert(record@ =~= zip(string_views(header@), string_views(values@)));
    record
}

enum State {
    AwaitHeader,
    ReadRows { header: Vec<String>, rows: Vec<Record> },
    Done { header: Vec<String>, rows: Vec<Record> },
    Failed { error: Error },
}

/// The decoder of one table: it takes the lines of the daemon's reply one at
/// a time and tells after each whether it needs another.
pub struct TableDecoder {
    key: Vec<char>,
    state: State,
}

impl View for TableDecoder {
    type V = Scan;

    closed spec fn view(&self) -> Scan {
        match self.state {
            State::AwaitHeader => Scan::AwaitHeader,
            State::ReadRows { header, rows } => Scan::ReadRows {
                header: string_views(header@),
                rows: record_views(rows@),
            },
            State::Done { header, rows } => Scan::Done {
                header: string_views(header@),
                rows: record_views(rows@),
            },
            State::Failed { error } => Scan::Failed { error },
        }
    }
}

impl TableDecoder {
    /// The row key: the text that marks the lines of the table.
    pub closed spec fn key(&self) -> Seq<char> {
        self.key@
    }

    /// A decoder that waits for the header of the table of `key`.
    pub fn new(key: &str) -> (decoder: TableDecoder)
        ensures
            decoder@ == Scan::AwaitHeader,
            decoder.key() == key@,
    {
        TableDecoder { key: chars_of(key), state: State::AwaitHeader }
    }

    /// Whether the decoder needs another line.
    pub fn wants_line(&self) -> (b: bool)
        ensures
            b == (self@ is AwaitHeader || self@ is ReadRows),
    {
        match &self.state {
            State::AwaitHeader => true,
            State::ReadRows { .. } => true,
            _ => false,
        }
    }

    /// Takes one event: a line as it was read, or `None` where the stream has
    /// ended.
    pub fn feed(self, event: Option<&str>) -> (next: TableDecoder)
        ensures
            next.key() == self.key(),
            next@ == step(
                self@,
                self.key(),
                match event {
                    Some(raw) => Some(raw@),
                    None => None,
                },
            ),
    {
        let key = self.key;
        match self.state {
            State::AwaitHeader => match event {
                None => TableDecoder { key, state: State::Failed { error: Error::UnexpectedEof } },
                Some(raw) => {
                    let line = trim_str(raw);
                    let chars = chars_of(line);
                    if sentinel(chars.as_slice()) {
                        TableDecoder {
                            key,
                            state: State::Failed {
                                error: Error::ProtocolError(ProtocolFault::Sentinel),
                            },
                        }
                    } else if announces(chars.as_slice(), key.as_slice()) {
                        let header = tokens(line, 2);
                        if header.len() == 0 {
                            TableDecoder {
                                key,
                                state: State::Failed {
                                    error: Error::ProtocolError(ProtocolFault::EmptyHeader),
                                },
                            }
                        } else {
                            let rows: Vec<Record> = Vec::new();
                            assert(record_views(rows@) =~= Seq::empty());
                            TableDecoder { key, state: State::ReadRows { header, rows } }
                        }
                    } else {
                        TableDecoder { key, state: State::AwaitHeader }
                    }
                },
            },
            State::ReadRows { header, mut rows } => match event {
                None => TableDecoder { key, state: State::Failed { error: Error::UnexpectedEof } },
                Some(raw) => {
                    let line = trim_str(raw);
                    let chars = chars_of(line);
                    if sentinel(chars.as_slice()) {
                        TableDecoder {
                            key,
                            state: State::Failed {
                                error: Error::ProtocolError(ProtocolFault::Sentinel),
                            },
                        }
                    } else if !occurs_in(chars.as_slice(), key.as_slice()) {
                        TableDecoder { key, state: State::Done { header, rows } }
                    } else {
                        let values = tokens(line, 1);
                        if values.len() != header.len() {
                            TableDecoder {
                                key,
                                state: State::Failed {
                                    error: Error::ProtocolError(
                                        ProtocolFault::LengthMismatch {
                                            got: values.len(),
                                            expected: header.len(),
                                        },
                                    ),
                                },
                            }
                        } else {
                            let ghost before = record_views(rows@);
                            let record = pair(&header, &values);
                            rows.push(record);
                            assert(record_views(rows@) =~= before.push(
                                zip(string_views(header@), row_values(line@)),
                            ));
                            TableDecoder { key, state: State::ReadRows { header, rows } }
                        }
                    }
                },
            },
            State::Done { header, rows } => TableDecoder {
                key,
                state: State::Done { header, rows },
            },
            State::Failed { error } => TableDecoder { key, state: State::Failed { error } },
        }
    }

    /// Ends the scan: the table when it was complete, else the failure.
    pub fn finish(self) -> (result: Result<Vec<Record>, Error>)
        ensures
            match result {
                Ok(rows) => outcome(self@) == Ok::<Seq<Seq<(Seq<char>, Seq<char>)>>, Error>(
                    record_views(rows@),
                ),
                Err(error) => outcome(self@) == Err::<Seq<Seq<(Seq<char>, Seq<char>)>>, Error>(
                    error,
                ),
            },
    {
        match self.state {
            State::Done { header, rows } => Ok(rows),
            State::Failed { error } => Err(error),
            _ => Err(Error::UnexpectedEof),
        }
    }
}

/// The scan still reads: it has neither ended nor failed.
pub open spec fn is_active(state: Scan) -> bool {
    state is AwaitHeader || state is ReadRows
}

/// A line that is neither a sentinel nor the header of `key`: while the
/// header is awaited it is passed over.
pub open spec fn is_passed_over(raw: Seq<char>, key: Seq<char>) -> bool {
    !is_sentinel(trim(raw)) && !is_header(trim(raw), key)
}

/// A well-formed header line for `key`: no sentinel, it announces the table
/// and names at least one field.
pub open spec fn is_good_header(raw: Seq<char>, key: Seq<char>) -> bool {
    !is_sentinel(trim(raw)) && is_header(trim(raw), key) && header_fields(trim(raw)).len() > 0
}

/// A well-formed row of `key` under a header of `width` fields.
pub open spec fn is_good_row(raw: Seq<char>, key: Seq<char>, width: nat) -> bool {
    !is_sentinel(trim(raw)) && contains(trim(raw), key) && row_values(trim(raw)).len() == width
}

/// A line that ends the table of `key` in order: no sentinel and no row.
pub open spec fn is_table_end(raw: Seq<char>, key: Seq<char>) -> bool {
    !is_sentinel(trim(raw)) && !contains(trim(raw), key)
}

/// The records that the rows `rows` give under the header line `header`.
pub open spec fn records_of(header: Seq<char>, rows: Seq<Seq<char>>) -> Seq<
    Seq<(Seq<char>, Seq<char>)>,
> {
    Seq::new(rows.len(), |i: int| zip(header_fields(trim(header)), row_values(trim(rows[i]))))
}

/// Running over two runs of events is running over the first and then over
/// the second.
pub proof fn lemma_run_concat(
    state: Scan,
    key: Seq<char>,
    first: Seq<Option<Seq<char>>>,
    second: Seq<Option<Seq<char>>>,
)
    ensures
        run(state, key, first + second) == run(run(state, key, first), key, second),
    decreases second.len(),
{
    if second.len() == 0 {
        assert(first + second =~= first);
    } else {
        assert((first + second).drop_last() =~= first + second.drop_last());
        assert((first + second).last() == second.last());
        lemma_run_concat(state, key, first, second.drop_last());
    }
}

/// A scan that has ended or failed stays as it is, whatever follows.
pub proof fn lemma_run_settled(state: Scan, key: Seq<char>, events: Seq<Option<Seq<char>>>)
    requires
        !is_active(state),
    ensures
        run(state, key, events) == state,
    decreases events.len(),
{
    if events.len() > 0 {
        lemma_run_settled(state, key, events.drop_last());
    }
}

/// The events of two runs of lines, one after the other.
pub proof fn lemma_line_events_concat(first: Seq<Seq<char>>, second: Seq<Seq<char>>)
    ensures
        line_events(first + second) == line_events(first) + line_events(second),
{
    assert(line_events(first + second) =~= line_events(first) + line_events(second));
}

/// Lines that are passed over leave the scan waiting for the header.
pub proof fn lemma_run_passed_over(key: Seq<char>, lines: Seq<Seq<char>>)
    requires
        forall|i: int| 0 <= i < lines.len() ==> is_passed_over(#[trigger] lines[i], key),
    ensures
        run(Scan::AwaitHeader, key, line_events(lines)) == Scan::AwaitHeader,
    decreases lines.len(),
{
    if lines.len() > 0 {
        assert(line_events(lines).drop_last() =~= line_events(lines.drop_last()));
        assert forall|i: int| 0 <= i < lines.drop_last().len() implies is_passed_over(
            #[trigger] lines.drop_last()[i],
            key,
        ) by {
            assert(lines.drop_last()[i] == lines[i]);
        }
        lemma_run_passed_over(key, lines.drop_last());
        assert(is_passed_over(lines[lines.len() - 1], key));
    }
}

/// Well-formed rows under a header add one record each, in their order.
pub proof fn lemma_run_rows(key: Seq<char>, header: Seq<char>, rows: Seq<Seq<char>>)
    requires
        is_good_header(header, key),
        forall|i: int|
            0 <= i < rows.len() ==> is_good_row(
                #[trigger] rows[i],
                key,
                header_fields(trim(header)).len(),
            ),
    ensures
        run(
            Scan::ReadRows { header: header_fields(trim(header)), rows: Seq::empty() },
            key,
            line_events(rows),
        ) == (Scan::ReadRows {
            header: header_fields(trim(header)),
            rows: records_of(header, rows),
        }),
    decreases rows.len(),
{
    let start = Scan::ReadRows { header: header_fields(trim(header)), rows: Seq::empty() };
    if rows.len() == 0 {
        assert(records_of(header, rows) =~= Seq::empty());
    } else {
        let front = rows.drop_last();
        assert(line_events(rows).drop_last() =~= line_events(front));
        assert forall|i: int| 0 <= i < front.len() implies is_good_row(
            #[trigger] front[i],
            key,
            header_fields(trim(header)).len(),
        ) by {
            assert(front[i] == rows[i]);
        }
        lemma_run_rows(key, header, front);
        assert(is_good_row(rows[rows.len() - 1], key, header_fields(trim(header)).len()));
        assert(records_of(header, rows) =~= records_of(header, front).push(
            zip(header_fields(trim(header)), row_values(trim(rows.last()))),
        ));
    }
}

/// A well-formed header, then well-formed rows, then a line that is no row:
/// the table holds one record for each row, in the rows' order, and each
/// record pairs the header's field names, in the header's order, with the
/// row's values. The lines before the header that are passed over and the
/// lines after the table do not count.
pub proof fn law_rows_become_records(
    key: Seq<char>,
    before: Seq<Seq<char>>,
    header: Seq<char>,
    rows: Seq<Seq<char>>,
    end: Seq<char>,
    after: Seq<Seq<char>>,
)
    requires
        forall|i: int| 0 <= i < before.len() ==> is_passed_over(#[trigger] before[i], key),
        is_good_header(header, key),
        forall|i: int|
            0 <= i < rows.len() ==> is_good_row(
                #[trigger] rows[i],
                key,
                header_fields(trim(header)).len(),
            ),
        is_table_end(end, key),
    ensures
        decode_table(before + seq![header] + rows + seq![end] + after, key) == Ok::<
            Seq<Seq<(Seq<char>, Seq<char>)>>,
            Error,
        >(records_of(header, rows)),
        records_of(header, rows).len() == rows.len(),
        forall|i: int, j: int|
            0 <= i < rows.len() && 0 <= j < header_fields(trim(header)).len() ==> (
            #[trigger] records_of(header, rows)[i][j]).0 == header_fields(trim(header))[j],
        forall|i: int|
            0 <= i < rows.len() ==> (#[trigger] records_of(header, rows)[i]).len()
                == header_fields(trim(header)).len(),
{
    let fields = header_fields(trim(header));
    let start = Scan::AwaitHeader;
    let lines = before + seq![header] + rows + seq![end] + after;
    lemma_line_events_concat(before + seq![header] + rows + seq![end], after);
    lemma_line_events_concat(before + seq![header] + rows, seq![end]);
    lemma_line_events_concat(before + seq![header], rows);
    lemma_line_events_concat(before, seq![header]);
    let e_before = line_events(before);
    let e_header = line_events(seq![header]);
    let e_rows = line_events(rows);
    let e_end = line_events(seq![end]);
    let e_after = line_events(after);
    lemma_run_concat(start, key, e_before + e_header + e_rows + e_end, e_after);
    lemma_run_concat(start, key, e_before + e_header + e_rows, e_end);
    lemma_run_concat(start, key, e_before + e_header, e_rows);
    lemma_run_concat(start, key, e_before, e_header);
    lemma_run_passed_over(key, before);
    let s1 = run(start, key, e_before);
    assert(s1 == Scan::AwaitHeader);
    assert(e_header.drop_last() =~= Seq::empty());
    assert(e_header.last() == Some(header));
    let s2 = run(s1, key, e_header);
    assert(s2 == step(run(s1, key, e_header.drop_last()), key, e_header.last()));
    assert(s2 == (Scan::ReadRows { header: fields, rows: Seq::empty() }));
    lemma_run_rows(key, header, rows);
    let s3 = run(s2, key, e_rows);
    assert(s3 == (Scan::ReadRows { header: fields, rows: records_of(header, rows) }));
    assert(e_end.drop_last() =~= Seq::empty());
    assert(e_end.last() == Some(end));
    let s4 = run(s3, key, e_end);
    assert(s4 == step(run(s3, key, e_end.drop_last()), key, e_end.last()));
    assert(s4 == (Scan::Done { header: fields, rows: records_of(header, rows) }));
    lemma_run_settled(s4, key, e_after);
}

/// The state in which line `k` of `lines` is read.
pub open spec fn state_before(key: Seq<char>, lines: Seq<Seq<char>>, k: int) -> Scan {
    run(Scan::AwaitHeader, key, line_events(lines.take(k)))
}

/// Reading `lines` is reading up to line `k`, then line `k`, then the rest.
proof fn lemma_run_around(key: Seq<char>, lines: Seq<Seq<char>>, k: int)
    requires
        0 <= k < lines.len(),
    ensures
        run(Scan::AwaitHeader, key, line_events(lines)) == run(
            step(state_before(key, lines, k), key, Some(lines[k])),
            key,
            line_events(lines.skip(k + 1)),
        ),
{
    let front = lines.take(k);
    let at = seq![lines[k]];
    let back = lines.skip(k + 1);
    assert(lines =~= front + at + back);
    lemma_line_events_concat(front + at, back);
    lemma_line_events_concat(front, at);
    lemma_run_concat(Scan::AwaitHeader, key, line_events(front) + line_events(at), line_events(back));
    lemma_run_concat(Scan::AwaitHeader, key, line_events(front), line_events(at));
    assert(line_events(at).drop_last() =~= Seq::empty());
    assert(line_events(at).last() == Some(lines[k]));
    let s = state_before(key, lines, k);
    assert(run(s, key, line_events(at)) == step(
        run(s, key, line_events(at).drop_last()),
        key,
        line_events(at).last(),
    ));
}

/// A row whose number of values differs from the header's number of fields
/// fails the whole reply with a protocol error, whatever the row holds and
/// whatever follows it.
pub proof fn law_row_length_mismatch_fails(key: Seq<char>, lines: Seq<Seq<char>>, k: int)
    requires
        0 <= k < lines.len(),
        state_before(key, lines, k) is ReadRows,
        contains(trim(lines[k]), key),
        row_values(trim(lines[k])).len() != state_before(key, lines, k)->ReadRows_header.len(),
    ensures
        decode_table(lines, key) matches Err(Error::ProtocolError(_)),
        !is_sentinel(trim(lines[k])) ==> decode_table(lines, key) == Err::<
            Seq<Seq<(Seq<char>, Seq<char>)>>,
            Error,
        >(
            Error::ProtocolError(
                ProtocolFault::LengthMismatch {
                    got: row_values(trim(lines[k])).len() as usize,
                    expected: state_before(key, lines, k)->ReadRows_header.len() as usize,
                },
            ),
        ),
{
    lemma_run_around(key, lines, k);
    let failed = step(state_before(key, lines, k), key, Some(lines[k]));
    lemma_run_settled(failed, key, line_events(lines.skip(k + 1)));
}

/// A sentinel line that is read before the header is found, or before the
/// rows have ended in order, fails the whole reply with a protocol error.
pub proof fn law_sentinel_fails(key: Seq<char>, lines: Seq<Seq<char>>, k: int)
    requires
        0 <= k < lines.len(),
        is_active(state_before(key, lines, k)),
        is_sentinel(trim(lines[k])),
    ensures
        decode_table(lines, key) == Err::<Seq<Seq<(Seq<char>, Seq<char>)>>, Error>(
            Error::ProtocolError(ProtocolFault::Sentinel),
        ),
{
    lemma_run_around(key, lines, k);
    let failed = step(state_before(key, lines, k), key, Some(lines[k]));
    lemma_run_settled(failed, key, line_events(lines.skip(k + 1)));
}

/// A reply that ends while the scan still reads fails with `UnexpectedEof`.
pub proof fn law_early_end_fails(key: Seq<char>, lines: Seq<Seq<char>>)
    requires
        is_active(run(Scan::AwaitHeader, key, line_events(lines))),
    ensures
        decode_table(lines, key) == Err::<Seq<Seq<(Seq<char>, Seq<char>)>>, Error>(
            Error::UnexpectedEof,
        ),
        outcome(step(run(Scan::AwaitHeader, key, line_events(lines)), key, None))
            == decode_table(lines, key),
{
}

/// The header of a table that is being read or has been read is not empty,
/// and the records fit it.
pub open spec fn fits(state: Scan) -> bool {
    match state {
        Scan::ReadRows { header, rows } => header.len() > 0 && forall|i: int|
            0 <= i < rows.len() ==> names_of(#[trigger] rows[i]) == header,
        Scan::Done { header, rows } => header.len() > 0 && forall|i: int|
            0 <= i < rows.len() ==> names_of(#[trigger] rows[i]) == header,
        _ => true,
    }
}

/// The field names of a record, in its order.
pub open spec fn names_of(record: Seq<(Seq<char>, Seq<char>)>) -> Seq<Seq<char>> {
    Seq::new(record.len(), |j: int| record[j].0)
}

/// In every state that a scan reaches, the header names at least one field
/// and each record holds exactly the header's field names, in the header's
/// order.
pub proof fn law_records_fit_header(key: Seq<char>, events: Seq<Option<Seq<char>>>)
    ensures
        fits(run(Scan::AwaitHeader, key, events)),
    decreases events.len(),
{
    if events.len() > 0 {
        law_records_fit_header(key, events.drop_last());
        let prev = run(Scan::AwaitHeader, key, events.drop_last());
        let next = step(prev, key, events.last());
        match prev {
            Scan::ReadRows { header, rows } => {
                match next {
                    Scan::ReadRows { header: h2, rows: r2 } => {
                        let line = trim(events.last()->0);
                        assert(r2 == rows.push(zip(header, row_values(line))));
                        assert(names_of(zip(header, row_values(line))) =~= header);
                        assert forall|i: int| 0 <= i < r2.len() implies names_of(
                            #[trigger] r2[i],
                        ) == h2 by {
                            if i < rows.len() {
                                assert(r2[i] == rows[i]);
                            }
                        }
                    },
                    _ => {},
                }
            },
            _ => {},
        }
    }
}

} // verus!
