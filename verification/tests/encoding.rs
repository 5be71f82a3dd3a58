//! Command encoding: the exact wire text, and the round trip from an
//! encoded command back to its keywords and parameters.

use haptik::commands::{
    add_acl, encode, end, show_acl, show_acl_entries, show_cli_level, show_cli_sockets,
    show_errors, show_errors_backend, Command,
};
use haptik::models::AclId;
use haptik::requests::{BackendId, ErrorFlag};

#[test]
fn fixed_commands_render_exactly() {
    assert_eq!(show_acl(), "show acl");
    assert_eq!(show_cli_level(), "show cli level");
    assert_eq!(show_cli_sockets(), "show cli sockets");
    assert_eq!(show_errors(), "show errors");
    assert_eq!(end(), "\n");
}

#[test]
fn show_acl_entries_renders_id() {
    assert_eq!(show_acl_entries(AclId::Id(0)), "show acl #0");
    assert_eq!(show_acl_entries(AclId::Id(42)), "show acl #42");
    assert_eq!(show_acl_entries(AclId::Id(-7)), "show acl #-7");
    assert_eq!(show_acl_entries(AclId::Id(i32::MAX)), "show acl #2147483647");
    assert_eq!(show_acl_entries(AclId::Id(i32::MIN)), "show acl #-2147483648");
}

#[test]
fn show_errors_backend_renders_selector_and_flag() {
    assert_eq!(
        show_errors_backend(BackendId::All, ErrorFlag::All),
        "show errors -1"
    );
    assert_eq!(
        show_errors_backend(BackendId::Id(3), ErrorFlag::Request),
        "show errors 3 request"
    );
    assert_eq!(
        show_errors_backend(BackendId::Name("web"), ErrorFlag::Response),
        "show errors web response"
    );
}

#[test]
fn add_acl_renders_id_and_value() {
    assert_eq!(add_acl(AclId::Id(0), "127.0.0.1"), "add acl #0 127.0.0.1");
}

#[test]
fn encode_matches_the_direct_encoders() {
    assert_eq!(encode(Command::ShowAcl), show_acl());
    assert_eq!(
        encode(Command::ShowAclEntries { id: AclId::Id(5) }),
        show_acl_entries(AclId::Id(5))
    );
    assert_eq!(encode(Command::ShowCliLevel), show_cli_level());
    assert_eq!(encode(Command::ShowCliSockets), show_cli_sockets());
    assert_eq!(encode(Command::ShowErrors), show_errors());
    assert_eq!(
        encode(Command::ShowErrorsBackend { backend: BackendId::Id(1), flag: ErrorFlag::All }),
        show_errors_backend(BackendId::Id(1), ErrorFlag::All)
    );
    assert_eq!(
        encode(Command::AddAcl { id: AclId::Id(2), value: "10.0.0.1" }),
        add_acl(AclId::Id(2), "10.0.0.1")
    );
}

#[test]
fn encoded_commands_tokenize_back_to_their_parts() {
    let text = encode(Command::ShowAclEntries { id: AclId::Id(17) });
    let tokens: Vec<&str> = text.split(' ').collect();
    assert_eq!(tokens, vec!["show", "acl", "#17"]);
    assert_eq!(tokens[2].strip_prefix('#').unwrap().parse::<i32>().unwrap(), 17);

    let text = encode(Command::ShowErrorsBackend {
        backend: BackendId::Id(-1),
        flag: ErrorFlag::Request,
    });
    let tokens: Vec<&str> = text.split(' ').collect();
    assert_eq!(tokens, vec!["show", "errors", "-1", "request"]);
    assert_eq!(tokens[2].parse::<i32>().unwrap(), -1);

    let text = encode(Command::AddAcl { id: AclId::Id(0), value: "10.1.2.3" });
    let tokens: Vec<&str> = text.split(' ').collect();
    assert_eq!(tokens, vec!["add", "acl", "#0", "10.1.2.3"]);
}
