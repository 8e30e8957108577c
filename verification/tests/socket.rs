use openvpn_mgmt::error::Error;
use openvpn_mgmt::socket::OpenVpnMgmnt;
use std::ops::ControlFlow;

fn lines(text: &[&str]) -> Vec<String> {
    text.iter().map(|line| line.to_string()).collect()
}

#[test]
fn server_names_of_letters_and_digits_connect() {
    for name in ["ovpns1", "a", "0", "server2", "abcxyz0189"] {
        let session = OpenVpnMgmnt::connect(name).unwrap();
        assert_eq!(session.server_name(), name);
    }
}

#[test]
fn other_server_names_are_invalid() {
    for name in ["", "OVPN", "ovpn-1", "ovpn_1", "../etc", "a b", "a\n", "\na", "é", "a/b", "a.b", "A1", "{", "`", "/", ":"] {
        assert_eq!(OpenVpnMgmnt::connect(name).err(), Some(Error::InvalidName));
    }
}

#[test]
fn socket_path_holds_the_server_name() {
    let session = OpenVpnMgmnt::connect("ovpns1").unwrap();
    assert_eq!(session.sock_path(), "/var/etc/openvpn/ovpns1/sock");
}

#[test]
fn command_line_ends_in_a_line_feed() {
    assert_eq!(OpenVpnMgmnt::command_line("status 2"), "status 2\n");
    assert_eq!(OpenVpnMgmnt::command_line(""), "\n");
}

#[test]
fn execute_stops_where_the_handler_breaks() {
    let session = OpenVpnMgmnt::connect("ovpns1").unwrap();
    let reply = lines(&["one\r\n", "  two  \r\n", "three\r\n", "four\r\n"]);
    let found = session.execute(&reply, |line: &str| {
        if line.starts_with('t') {
            ControlFlow::Break(line.to_string())
        } else {
            ControlFlow::Continue(())
        }
    });
    assert_eq!(found, Ok("two".to_string()));
}

#[test]
fn execute_fails_when_the_lines_run_out() {
    let session = OpenVpnMgmnt::connect("ovpns1").unwrap();
    let reply = lines(&["one", "two"]);
    let found: Result<u8, Error> = session.execute(&reply, |_line: &str| ControlFlow::Continue(()));
    assert_eq!(found, Err(Error::UnexpectedEof));
    let none: Result<u8, Error> = session.execute(&Vec::new(), |_line: &str| ControlFlow::Break(1));
    assert_eq!(none, Err(Error::UnexpectedEof));
}
