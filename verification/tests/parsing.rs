//! Response decoding, end to end: single-line responses, multi-line
//! listings, and the per-line record parsers.

use haptik::addr::IpAddr;
use haptik::errors::Error;
use haptik::models::AclEntry;
use haptik::parsers::{
    parse_acl_add, parse_acl_entries, parse_acl_list, parse_cli_sockets, parse_errors,
    skip_comment_or_empty_lines, split_lines,
};
use haptik::responses::{Acl, CliSocket, CliSocketAddr, CliSocketProcesses, Level};

#[test]
fn parse_acl_add_success_response() {
    assert!(parse_acl_add("\n").is_ok());
}

#[test]
fn parse_acl_add_error_responses() {
    assert!(parse_acl_add("'add acl' expects two parameters: ACL identifier and pattern.\n")
        .is_err());
    assert!(parse_acl_add("Unknown ACL identifier. Please use #<id> or <file>.\n").is_err());
    assert!(parse_acl_add("'abcd' is not a valid IPv4 or IPv6 address.\n").is_err());
    assert!(parse_acl_add("Unknown ACL identifier. Please use #<id> or <file>.\n").is_err());
}

#[test]
fn parse_acl_add_classification() {
    assert!(matches!(
        parse_acl_add("'add acl' expects two parameters: ACL identifier and pattern.\n"),
        Err(Error::MissingParameters)
    ));
    assert!(matches!(
        parse_acl_add("Unknown ACL identifier. Please use #<id> or <file>.\n"),
        Err(Error::UnknownId)
    ));
    assert!(matches!(
        parse_acl_add("'abcd' is not a valid IPv4 or IPv6 address.\n"),
        Err(Error::ParseFailure)
    ));
    assert!(matches!(parse_acl_add(""), Err(Error::ParseFailure)));
}

#[test]
fn parse_acl_list_valid_input() {
    let response =
        "# id (file) description\n0 () acl 'src' file '/usr/local/etc/haproxy/haproxy.cfg' line 20";
    assert_eq!(parse_acl_list(response).unwrap().len(), 1);
}

#[test]
fn parse_acl_list_skips_lines_anywhere() {
    let response = "# header\n\n0 () first acl\n# middle comment\n\n1 (f) second acl\n";
    let acls = parse_acl_list(response).unwrap();
    assert_eq!(acls.len(), 2);
    assert_eq!(acls[0].id, 0);
    assert_eq!(acls[0].description, "first acl");
    assert_eq!(acls[1].id, 1);
    assert_eq!(acls[1].reference, Some("f".to_string()));
}

#[test]
fn parse_acl_list_aborts_on_bad_line() {
    let response = "0 () good line\nnot a record\n1 () another good line\n";
    assert!(matches!(parse_acl_list(response), Err(Error::ParseFailure)));
}

#[test]
fn parse_acl_entries_valid_input() {
    let response = "0x55fd35e0e190 127.0.0.1\n0x55fd35e0e220 127.0.0.2\n\n";
    assert_eq!(
        parse_acl_entries::<IpAddr>(response).unwrap(),
        vec![
            AclEntry { id: 0x55fd35e0e190, value: IpAddr::parse("127.0.0.1").unwrap() },
            AclEntry { id: 0x55fd35e0e220, value: IpAddr::parse("127.0.0.2").unwrap() }
        ]
    );
}

#[test]
fn parse_acl_entries_unknown_id() {
    let response = "Unknown ACL identifier. Please use #<id> or <file>.\n";
    assert!(matches!(
        parse_acl_entries::<String>(response),
        Err(Error::UnknownId)
    ));
}

#[test]
fn parse_errors_valid_input() {
    assert_eq!(
        parse_errors("Total events captured on [01/Jan/2020:03:15:05.071] : 0\n").unwrap(),
        0
    );
    assert_eq!(
        parse_errors("Total events captured on [01/Jan/2020:03:15:05.071] : 100\n").unwrap(),
        100
    );
}

#[test]
fn parse_errors_rejects_malformed_lines() {
    assert!(matches!(
        parse_errors("no trailing count here\n"),
        Err(Error::ParseFailure)
    ));
    assert!(matches!(parse_errors("100\n"), Err(Error::ParseFailure)));
    assert!(matches!(parse_errors(""), Err(Error::ParseFailure)));
}

#[test]
fn parse_cli_sockets_valid_input() {
    let response = "unix@/var/run/haproxy.sock admin all\nipv4@127.0.0.1:9999 user all\n\n";
    let sockets = parse_cli_sockets(response).expect("Failed to parse valid input");

    assert_eq!(sockets.len(), 2);
    assert_eq!(
        sockets[0],
        CliSocket {
            address: CliSocketAddr::Unix("/var/run/haproxy.sock".to_string()),
            level: Level::Admin,
            processes: CliSocketProcesses::All
        }
    );
    assert_eq!(
        sockets[1],
        CliSocket {
            address: CliSocketAddr::Ip(
                haptik::addr::SocketAddr::parse("127.0.0.1:9999").unwrap()
            ),
            level: Level::User,
            processes: CliSocketProcesses::All
        }
    );
}

#[test]
fn cli_socket_from_str() {
    assert_eq!(
        CliSocket::parse("unix@/var/run/haproxy.sock admin all").unwrap(),
        CliSocket {
            address: CliSocketAddr::Unix("/var/run/haproxy.sock".to_string()),
            level: Level::Admin,
            processes: CliSocketProcesses::All,
        }
    )
}

#[test]
fn acl_from_bytes() {
    assert_eq!(
        Acl::parse("0 () acl 'src' file '/usr/local/etc/haproxy/haproxy.cfg' line 20").unwrap(),
        Acl {
            id: 0,
            reference: None,
            description: "acl 'src' file '/usr/local/etc/haproxy/haproxy.cfg' line 20"
                .to_string()
        }
    );
    assert_eq!(
        Acl::parse("1 (test) acl 'src' file '/usr/local/etc/haproxy/haproxy.cfg' line 20")
            .unwrap(),
        Acl {
            id: 1,
            reference: Some("test".to_string()),
            description: "acl 'src' file '/usr/local/etc/haproxy/haproxy.cfg' line 20"
                .to_string()
        }
    );
    Acl::parse("1 ( acl 'src' file '/usr/local/etc/haproxy/haproxy.cfg' line 20")
        .expect_err("Parsed an invalid ACL without error");
    Acl::parse("1 ()").expect_err("Parsed an invalid ACL without error");
}

#[test]
fn level_from_bytes() {
    assert_eq!(Level::parse("admin").unwrap(), Level::Admin);
    assert_eq!(Level::parse("operator").unwrap(), Level::Operator);
    assert_eq!(Level::parse("user").unwrap(), Level::User);
    Level::parse("1234").expect_err("Parsed invalid level");
}

#[test]
fn cli_socket_processes_from_str() {
    assert_eq!(
        CliSocketProcesses::parse("all").unwrap(),
        CliSocketProcesses::All,
    );
    assert_eq!(
        CliSocketProcesses::parse("0,1,2").unwrap(),
        CliSocketProcesses::List(vec![0, 1, 2]),
    );
}

#[test]
fn cli_socket_processes_rejects_bad_element() {
    assert!(matches!(
        CliSocketProcesses::parse("0,x,2"),
        Err(Error::ParseFailure)
    ));
    assert!(matches!(CliSocketProcesses::parse(""), Err(Error::ParseFailure)));
}

#[test]
fn split_lines_matches_line_reader() {
    let lines = split_lines("a\nb\n\nc");
    assert_eq!(lines, vec!["a", "b", "", "c"]);
    let lines = split_lines("a\r\nb\n");
    assert_eq!(lines, vec!["a", "b"]);
    assert_eq!(split_lines(""), Vec::<String>::new());
}

#[test]
fn skip_lines_filters_blank_and_comment() {
    let lines = vec![
        "# header".to_string(),
        "".to_string(),
        "data".to_string(),
        "# tail".to_string(),
        "more".to_string(),
    ];
    assert_eq!(skip_comment_or_empty_lines(&lines), vec!["data", "more"]);
}
