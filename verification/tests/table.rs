use openvpn_mgmt::error::{Error, ProtocolFault};
use openvpn_mgmt::socket::OpenVpnMgmnt;
use openvpn_mgmt::table::{Record, TableDecoder};

fn lines(text: &[&str]) -> Vec<String> {
    text.iter().map(|line| line.to_string()).collect()
}

fn pairs(record: &Record) -> Vec<(String, String)> {
    record.fields.iter().map(|field| (field.name.clone(), field.value.clone())).collect()
}

fn pair(name: &str, value: &str) -> (String, String) {
    (name.to_string(), value.to_string())
}

fn session() -> OpenVpnMgmnt {
    OpenVpnMgmnt::connect("ovpns1").unwrap()
}

const HEADER: &str = "HEADER,CLIENT_LIST,Common Name,Real Address,Bytes Received";

#[test]
fn status_reply_gives_one_record_per_row() {
    let reply = lines(&[
        "TITLE,OpenVPN 2.5.4\r\n",
        "TIME,2023-03-01 12:00:00,1677672000\r\n",
        "HEADER,CLIENT_LIST,Common Name,Real Address,Bytes Received\r\n",
        "CLIENT_LIST,alice,10.0.0.5:55555,1024\r\n",
        "CLIENT_LIST,bob,10.0.0.6:40000,2048\r\n",
        "HEADER,ROUTING_TABLE,Virtual Address,Common Name\r\n",
        "ROUTING_TABLE,10.8.0.2,alice\r\n",
        "GLOBAL_STATS,Max bcast/mcast queue length,0\r\n",
        "END\r\n",
    ]);
    let table = session().execute_to_map(&reply, "CLIENT_LIST").unwrap();
    assert_eq!(table.len(), 2);
    assert_eq!(
        pairs(&table[0]),
        vec![
            pair("Common Name", "alice"),
            pair("Real Address", "10.0.0.5:55555"),
            pair("Bytes Received", "1024"),
        ]
    );
    assert_eq!(
        pairs(&table[1]),
        vec![
            pair("Common Name", "bob"),
            pair("Real Address", "10.0.0.6:40000"),
            pair("Bytes Received", "2048"),
        ]
    );
}

#[test]
fn header_and_n_rows_give_n_records_in_row_order() {
    let mut reply = vec![HEADER.to_string()];
    for i in 0..7 {
        reply.push(format!("CLIENT_LIST,user{},10.0.0.{}:1000,{}", i, i, i * 10));
    }
    reply.push("ROUTING_TABLE,10.8.0.2,alice".to_string());
    let table = session().execute_to_map(&reply, "CLIENT_LIST").unwrap();
    assert_eq!(table.len(), 7);
    for (i, record) in table.iter().enumerate() {
        let names: Vec<&str> = record.fields.iter().map(|field| field.name.as_str()).collect();
        assert_eq!(names, vec!["Common Name", "Real Address", "Bytes Received"]);
        assert_eq!(record.fields[0].value, format!("user{}", i));
        assert_eq!(record.fields[2].value, format!("{}", i * 10));
    }
}

#[test]
fn header_without_rows_gives_an_empty_table() {
    let reply = lines(&[HEADER, "GLOBAL_STATS,x,0"]);
    let table = session().execute_to_map(&reply, "CLIENT_LIST").unwrap();
    assert!(table.is_empty());
}

#[test]
fn empty_line_ends_the_rows() {
    let reply = lines(&[HEADER, "CLIENT_LIST,alice,10.0.0.5:55555,1024", "\n", "CLIENT_LIST,late,x,y"]);
    let table = session().execute_to_map(&reply, "CLIENT_LIST").unwrap();
    assert_eq!(table.len(), 1);
}

#[test]
fn short_row_is_a_protocol_error() {
    let reply = lines(&[HEADER, "CLIENT_LIST,alice,10.0.0.5:55555", "ROUTING_TABLE,x"]);
    assert_eq!(
        session().execute_to_map(&reply, "CLIENT_LIST").unwrap_err(),
        Error::ProtocolError(ProtocolFault::LengthMismatch { got: 2, expected: 3 })
    );
}

#[test]
fn long_row_is_a_protocol_error() {
    let reply = lines(&[
        HEADER,
        "CLIENT_LIST,alice,10.0.0.5:55555,1024",
        "CLIENT_LIST,bob,10.0.0.6:40000,2048,extra",
        "ROUTING_TABLE,x",
    ]);
    assert_eq!(
        session().execute_to_map(&reply, "CLIENT_LIST").unwrap_err(),
        Error::ProtocolError(ProtocolFault::LengthMismatch { got: 4, expected: 3 })
    );
}

#[test]
fn row_with_empty_values_keeps_them() {
    let reply = lines(&[HEADER, "CLIENT_LIST,,,", "x"]);
    let table = session().execute_to_map(&reply, "CLIENT_LIST").unwrap();
    assert_eq!(
        pairs(&table[0]),
        vec![pair("Common Name", ""), pair("Real Address", ""), pair("Bytes Received", "")]
    );
}

#[test]
fn sentinel_before_header_is_a_protocol_error() {
    let reply = lines(&["TITLE,OpenVPN", "END", HEADER, "CLIENT_LIST,a,b,c", "x"]);
    assert_eq!(
        session().execute_to_map(&reply, "CLIENT_LIST").unwrap_err(),
        Error::ProtocolError(ProtocolFault::Sentinel)
    );
}

#[test]
fn error_line_before_header_is_a_protocol_error() {
    let reply = lines(&["ERROR: unknown command", HEADER]);
    assert_eq!(
        session().execute_to_map(&reply, "CLIENT_LIST").unwrap_err(),
        Error::ProtocolError(ProtocolFault::Sentinel)
    );
}

#[test]
fn sentinel_among_rows_is_a_protocol_error() {
    let reply = lines(&[HEADER, "CLIENT_LIST,a,b,c", "END", "x"]);
    assert_eq!(
        session().execute_to_map(&reply, "CLIENT_LIST").unwrap_err(),
        Error::ProtocolError(ProtocolFault::Sentinel)
    );
}

#[test]
fn row_that_carries_a_sentinel_word_is_a_protocol_error() {
    let reply = lines(&[HEADER, "CLIENT_LIST,BRENDA,b,c", "x"]);
    assert_eq!(
        session().execute_to_map(&reply, "CLIENT_LIST").unwrap_err(),
        Error::ProtocolError(ProtocolFault::Sentinel)
    );
}

#[test]
fn sentinel_after_the_table_does_not_count() {
    let reply = lines(&[HEADER, "CLIENT_LIST,a,b,c", "GLOBAL_STATS,x,0", "END"]);
    assert_eq!(session().execute_to_map(&reply, "CLIENT_LIST").unwrap().len(), 1);
}

#[test]
fn reply_that_ends_before_the_header_is_an_unexpected_eof() {
    let reply = lines(&["TITLE,OpenVPN", "TIME,x"]);
    assert_eq!(
        session().execute_to_map(&reply, "CLIENT_LIST").unwrap_err(),
        Error::UnexpectedEof
    );
    assert_eq!(
        session().execute_to_map(&Vec::new(), "CLIENT_LIST").unwrap_err(),
        Error::UnexpectedEof
    );
}

#[test]
fn reply_that_ends_among_the_rows_is_an_unexpected_eof() {
    let reply = lines(&[HEADER, "CLIENT_LIST,a,b,c"]);
    assert_eq!(
        session().execute_to_map(&reply, "CLIENT_LIST").unwrap_err(),
        Error::UnexpectedEof
    );
}

#[test]
fn header_without_fields_is_a_protocol_error() {
    let reply = lines(&["HEADER,CLIENT_LIST", "CLIENT_LIST", "x"]);
    assert_eq!(
        session().execute_to_map(&reply, "CLIENT_LIST").unwrap_err(),
        Error::ProtocolError(ProtocolFault::EmptyHeader)
    );
}

#[test]
fn header_of_another_table_is_passed_over() {
    let reply = lines(&[
        "HEADER,ROUTING_TABLE,Virtual Address,Common Name",
        "ROUTING_TABLE,10.8.0.2,alice",
        HEADER,
        "CLIENT_LIST,a,b,c",
        "x",
    ]);
    let table = session().execute_to_map(&reply, "CLIENT_LIST").unwrap();
    assert_eq!(table.len(), 1);
    assert_eq!(table[0].fields[0].name, "Common Name");
}

#[test]
fn repeated_field_names_are_kept() {
    let reply = lines(&["HEADER,K,a,a", "K,1,2", "x"]);
    let table = session().execute_to_map(&reply, "K").unwrap();
    assert_eq!(pairs(&table[0]), vec![pair("a", "1"), pair("a", "2")]);
}

#[test]
fn lines_are_trimmed_before_they_are_read() {
    let reply = lines(&["  HEADER,K,a,b \r\n", "\tK,1,2\r\n", "\r\n"]);
    let table = session().execute_to_map(&reply, "K").unwrap();
    assert_eq!(pairs(&table[0]), vec![pair("a", "1"), pair("b", "2")]);
}

#[test]
fn decoder_takes_lines_one_at_a_time() {
    let mut decoder = TableDecoder::new("CLIENT_LIST");
    assert!(decoder.wants_line());
    decoder = decoder.feed(Some("TITLE,OpenVPN\r\n"));
    assert!(decoder.wants_line());
    decoder = decoder.feed(Some(HEADER));
    assert!(decoder.wants_line());
    decoder = decoder.feed(Some("CLIENT_LIST,alice,10.0.0.5:55555,1024\r\n"));
    assert!(decoder.wants_line());
    decoder = decoder.feed(Some("ROUTING_TABLE,x\r\n"));
    assert!(!decoder.wants_line());
    decoder = decoder.feed(Some("END\r\n"));
    decoder = decoder.feed(None);
    let table = decoder.finish().unwrap();
    assert_eq!(table.len(), 1);
    assert_eq!(table[0].fields[1].value, "10.0.0.5:55555");
}

#[test]
fn decoder_fails_when_the_stream_ends() {
    let mut decoder = TableDecoder::new("CLIENT_LIST");
    decoder = decoder.feed(Some(HEADER));
    decoder = decoder.feed(None);
    assert!(!decoder.wants_line());
    assert_eq!(decoder.finish().unwrap_err(), Error::UnexpectedEof);
    let waiting = TableDecoder::new("CLIENT_LIST");
    assert_eq!(waiting.finish().unwrap_err(), Error::UnexpectedEof);
}

#[test]
fn decoder_stays_failed() {
    let mut decoder = TableDecoder::new("K");
    decoder = decoder.feed(Some("ERROR"));
    decoder = decoder.feed(Some("HEADER,K,a"));
    decoder = decoder.feed(Some("K,1"));
    decoder = decoder.feed(Some("x"));
    assert_eq!(decoder.finish().unwrap_err(), Error::ProtocolError(ProtocolFault::Sentinel));
}
