//! Renders typed commands into the exact ASCII text the remote process
//! expects. No trailing newline is added: termination is a separate,
//! explicit step ([`end`]), so a caller can batch writes before flushing.

use vstd::prelude::*;

use crate::models::{acl_id_rep, AclId};
use crate::requests::{backend_id_rep, error_flag_suffix, BackendId, ErrorFlag};
use crate::text::{
    i32_text_ok, i32_text_val, int_rep, lemma_i32_rep_round_trip, lemma_int_rep_no_space,
    lemma_split_all_append, lemma_split_all_whole, split_all,
};

verus! {

/// A request to the remote process, one variant per supported wire
/// command.
#[derive(Clone, Copy, Debug, Eq, PartialEq)]
pub enum Command<'a> {
    /// List the configured access-control lists.
    ShowAcl,
    /// List the entries of one access-control list.
    ShowAclEntries { id: AclId },
    /// Report the privilege level of the session.
    ShowCliLevel,
    /// List the configured control sockets.
    ShowCliSockets,
    /// Report the error count over all backends.
    ShowErrors,
    /// Report the error count of selected backends, optionally narrowed to
    /// one direction of traffic.
    ShowErrorsBackend { backend: BackendId<'a>, flag: ErrorFlag },
    /// Add an entry to an access-control list. The value must not contain
    /// a space; the remote protocol cannot represent one.
    AddAcl { id: AclId, value: &'a str },
}

/// The exact text a command puts on the wire.
pub open spec fn encode_spec(c: Command) -> Seq<char> {
    match c {
        Command::ShowAcl => "show acl"@,
        Command::ShowAclEntries { id } => "show acl "@ + acl_id_rep(id),
        Command::ShowCliLevel => "show cli level"@,
        Command::ShowCliSockets => "show cli sockets"@,
        Command::ShowErrors => "show errors"@,
        Command::ShowErrorsBackend { backend, flag } => "show errors "@ + backend_id_rep(backend)
            + error_flag_suffix(flag),
        Command::AddAcl { id, value } => "add acl "@ + acl_id_rep(id) + " "@ + value@,
    }
}

/// Renders a command.
pub fn encode(c: Command<'_>) -> (s: String)
    ensures
        s@ == encode_spec(c),
{
    match c {
        Command::ShowAcl => show_acl(),
        Command::ShowAclEntries { id } => show_acl_entries(id),
        Command::ShowCliLevel => show_cli_level(),
        Command::ShowCliSockets => show_cli_sockets(),
        Command::ShowErrors => show_errors(),
        Command::ShowErrorsBackend { backend, flag } => show_errors_backend(backend, flag),
        Command::AddAcl { id, value } => add_acl(id, value),
    }
}

/// The terminator every command must be followed by: a single newline,
/// which tells the remote process that the request is complete.
pub fn end() -> (s: String)
    ensures
        s@ == "\n"@,
{
    String::from_str("\n")
}

/// Renders `show acl`.
pub fn show_acl() -> (s: String)
    ensures
        s@ == encode_spec(Command::ShowAcl),
{
    String::from_str("show acl")
}

/// Renders `show acl #<id>`.
pub fn show_acl_entries(id: AclId) -> (s: String)
    ensures
        s@ == encode_spec(Command::ShowAclEntries { id }),
{
    let mut s = String::from_str("show acl ");
    let tail = id.render();
    s.append(tail.as_str());
    s
}

/// Renders `show cli level`.
pub fn show_cli_level() -> (s: String)
    ensures
        s@ == encode_spec(Command::ShowCliLevel),
{
    String::from_str("show cli level")
}

/// Renders `show cli sockets`.
pub fn show_cli_sockets() -> (s: String)
    ensures
        s@ == encode_spec(Command::ShowCliSockets),
{
    String::from_str("show cli sockets")
}

/// Renders `show errors`.
pub fn show_errors() -> (s: String)
    ensures
        s@ == encode_spec(Command::ShowErrors),
{
    String::from_str("show errors")
}

/// Renders `show errors <backend>[ request| response]`.
pub fn show_errors_backend(backend: BackendId<'_>, flag: ErrorFlag) -> (s: String)
    ensures
        s@ == encode_spec(Command::ShowErrorsBackend { backend, flag }),
{
    let mut s = String::from_str("show errors ");
    let b = backend.render();
    s.append(b.as_str());
    s.append(flag.render());
    s
}

/// Renders `add acl #<id> <value>`. The caller is responsible for handing
/// in a value without spaces; see [`Command::AddAcl`].
pub fn add_acl(id: AclId, value: &str) -> (s: String)
    ensures
        s@ == encode_spec(Command::AddAcl { id, value }),
{
    let mut s = String::from_str("add acl ");
    let i = id.render();
    s.append(i.as_str());
    s.append(" ");
    s.append(value);
    proof {
        reveal_strlit(" ");
    }
    assert(s@ =~= "add acl "@ + acl_id_rep(id) + " "@ + value@);
    s
}

// ---------------------------------------------------------------------------
// The round trip: re-tokenizing an encoded command gives back its parts
// ---------------------------------------------------------------------------

/// The keyword the direction flag contributes, if any.
pub open spec fn flag_tokens(f: ErrorFlag) -> Seq<Seq<char>> {
    match f {
        ErrorFlag::All => Seq::empty(),
        ErrorFlag::Request => seq!["request"@],
        ErrorFlag::Response => seq!["response"@],
    }
}

/// The tokens an encoded command consists of: its keywords, then its
/// rendered parameters.
pub open spec fn command_tokens(c: Command) -> Seq<Seq<char>> {
    match c {
        Command::ShowAcl => seq!["show"@, "acl"@],
        Command::ShowAclEntries { id } => seq!["show"@, "acl"@, acl_id_rep(id)],
        Command::ShowCliLevel => seq!["show"@, "cli"@, "level"@],
        Command::ShowCliSockets => seq!["show"@, "cli"@, "sockets"@],
        Command::ShowErrors => seq!["show"@, "errors"@],
        Command::ShowErrorsBackend { backend, flag } => seq![
            "show"@,
            "errors"@,
            backend_id_rep(backend),
        ] + flag_tokens(flag),
        Command::AddAcl { id, value } => seq!["add"@, "acl"@, acl_id_rep(id), value@],
    }
}

/// The parameters that are raw text must not contain the token separator;
/// the protocol cannot represent one that does.
pub open spec fn command_wf(c: Command) -> bool {
    match c {
        Command::ShowErrorsBackend { backend, .. } => match backend {
            BackendId::Name(name) => !name@.contains(' '),
            _ => true,
        },
        Command::AddAcl { value, .. } => !value@.contains(' '),
        _ => true,
    }
}

/// A sequence none of whose characters is a space does not contain one.
proof fn lemma_no_space(s: Seq<char>)
    requires
        forall|j: int| 0 <= j < s.len() ==> s[j] != ' ',
    ensures
        !s.contains(' '),
{
    if s.contains(' ') {
        let j = choose|j: int| 0 <= j < s.len() && s[j] == ' ';
    }
}

/// A rendered ACL id is a single token: a hash sign and digits.
proof fn lemma_acl_id_rep_no_space(id: AclId)
    ensures
        !acl_id_rep(id).contains(' '),
{
    match id {
        AclId::Id(n) => {
            let rep = acl_id_rep(id);
            lemma_int_rep_no_space(n as int);
            assert forall|j: int| 0 <= j < rep.len() implies rep[j] != ' ' by {
                if j == 0 {
                    assert(rep[j] == '#');
                } else {
                    assert(rep[j] == int_rep(n as int)[j - 1]);
                    if rep[j] == ' ' {
                        assert(int_rep(n as int).contains(' '));
                    }
                }
            }
            lemma_no_space(rep);
        },
    }
}

/// A rendered backend selector of a well-formed command is a single token.
proof fn lemma_backend_id_rep_no_space(b: BackendId)
    requires
        match b {
            BackendId::Name(name) => !name@.contains(' '),
            _ => true,
        },
    ensures
        !backend_id_rep(b).contains(' '),
{
    match b {
        BackendId::All => lemma_int_rep_no_space(-1),
        BackendId::Id(n) => lemma_int_rep_no_space(n as int),
        BackendId::Name(name) => {},
    }
}

/// Splitting a space-free word followed by a space peels the word off.
proof fn lemma_peel(w: Seq<char>, rest: Seq<char>)
    requires
        !w.contains(' '),
    ensures
        split_all(w + seq![' '] + rest, ' ') == seq![w] + split_all(rest, ' '),
{
    lemma_split_all_append(w, ' ', rest);
}

/// Encoding a well-formed command and splitting the text on spaces yields
/// exactly the command's keywords and rendered parameters, and the
/// numeric parameters read back as the values they were built from.
pub proof fn lemma_encode_round_trip(c: Command)
    requires
        command_wf(c),
    ensures
        split_all(encode_spec(c), ' ') == command_tokens(c),
        match c {
            Command::ShowAclEntries { id } => match id {
                AclId::Id(n) => {
                    let t = command_tokens(c)[2];
                    t[0] == '#' && i32_text_ok(t.skip(1)) && i32_text_val(t.skip(1)) == n as int
                },
            },
            Command::ShowErrorsBackend { backend, .. } => match backend {
                BackendId::All => {
                    let t = command_tokens(c)[2];
                    i32_text_ok(t) && i32_text_val(t) == -1
                },
                BackendId::Id(n) => {
                    let t = command_tokens(c)[2];
                    i32_text_ok(t) && i32_text_val(t) == n as int
                },
                BackendId::Name(name) => command_tokens(c)[2] == name@,
            },
            Command::AddAcl { id, value } => match id {
                AclId::Id(n) => {
                    let t = command_tokens(c)[2];
                    t[0] == '#' && i32_text_ok(t.skip(1)) && i32_text_val(t.skip(1)) == n as int
                        && command_tokens(c)[3] == value@
                },
            },
            _ => true,
        },
{
    reveal_strlit(" ");
    reveal_strlit("show acl");
    reveal_strlit("show acl ");
    reveal_strlit("show cli level");
    reveal_strlit("show cli sockets");
    reveal_strlit("show errors");
    reveal_strlit("show errors ");
    reveal_strlit("add acl ");
    reveal_strlit(" request");
    reveal_strlit(" response");
    reveal_strlit("show");
    reveal_strlit("acl");
    reveal_strlit("cli");
    reveal_strlit("level");
    reveal_strlit("sockets");
    reveal_strlit("errors");
    reveal_strlit("add");
    reveal_strlit("request");
    reveal_strlit("response");
    assert forall|j: int| 0 <= j < "show"@.len() implies "show"@[j] != ' ' by {}
    lemma_no_space("show"@);
    assert forall|j: int| 0 <= j < "acl"@.len() implies "acl"@[j] != ' ' by {}
    lemma_no_space("acl"@);
    assert forall|j: int| 0 <= j < "cli"@.len() implies "cli"@[j] != ' ' by {}
    lemma_no_space("cli"@);
    assert forall|j: int| 0 <= j < "level"@.len() implies "level"@[j] != ' ' by {}
    lemma_no_space("level"@);
    assert forall|j: int| 0 <= j < "sockets"@.len() implies "sockets"@[j] != ' ' by {}
    lemma_no_space("sockets"@);
    assert forall|j: int| 0 <= j < "errors"@.len() implies "errors"@[j] != ' ' by {}
    lemma_no_space("errors"@);
    assert forall|j: int| 0 <= j < "add"@.len() implies "add"@[j] != ' ' by {}
    lemma_no_space("add"@);
    assert forall|j: int| 0 <= j < "request"@.len() implies "request"@[j] != ' ' by {}
    lemma_no_space("request"@);
    assert forall|j: int| 0 <= j < "response"@.len() implies "response"@[j] != ' ' by {}
    lemma_no_space("response"@);
    match c {
        Command::ShowAcl => {
            assert(encode_spec(c) =~= "show"@ + seq![' '] + "acl"@);
            lemma_peel("show"@, "acl"@);
            lemma_split_all_whole("acl"@, ' ');
            assert(seq!["show"@] + seq!["acl"@] =~= command_tokens(c));
        },
        Command::ShowAclEntries { id } => {
            let rep = acl_id_rep(id);
            lemma_acl_id_rep_no_space(id);
            assert(encode_spec(c) =~= "show"@ + seq![' '] + ("acl"@ + seq![' '] + rep));
            lemma_peel("show"@, "acl"@ + seq![' '] + rep);
            lemma_peel("acl"@, rep);
            lemma_split_all_whole(rep, ' ');
            assert(seq!["show"@] + (seq!["acl"@] + seq![rep]) =~= command_tokens(c));
            match id {
                AclId::Id(n) => {
                    assert(rep[0] == '#');
                    assert(rep.skip(1) =~= int_rep(n as int));
                    lemma_i32_rep_round_trip(n);
                },
            }
        },
        Command::ShowCliLevel => {
            assert(encode_spec(c) =~= "show"@ + seq![' '] + ("cli"@ + seq![' '] + "level"@));
            lemma_peel("show"@, "cli"@ + seq![' '] + "level"@);
            lemma_peel("cli"@, "level"@);
            lemma_split_all_whole("level"@, ' ');
            assert(seq!["show"@] + (seq!["cli"@] + seq!["level"@]) =~= command_tokens(c));
        },
        Command::ShowCliSockets => {
            assert(encode_spec(c) =~= "show"@ + seq![' '] + ("cli"@ + seq![' '] + "sockets"@));
            lemma_peel("show"@, "cli"@ + seq![' '] + "sockets"@);
            lemma_peel("cli"@, "sockets"@);
            lemma_split_all_whole("sockets"@, ' ');
            assert(seq!["show"@] + (seq!["cli"@] + seq!["sockets"@]) =~= command_tokens(c));
        },
        Command::ShowErrors => {
            assert(encode_spec(c) =~= "show"@ + seq![' '] + "errors"@);
            lemma_peel("show"@, "errors"@);
            lemma_split_all_whole("errors"@, ' ');
            assert(seq!["show"@] + seq!["errors"@] =~= command_tokens(c));
        },
        Command::ShowErrorsBackend { backend, flag } => {
            let rep = backend_id_rep(backend);
            lemma_backend_id_rep_no_space(backend);
            match flag {
                ErrorFlag::All => {
                    assert(encode_spec(c) =~= "show"@ + seq![' '] + ("errors"@ + seq![' ']
                        + rep));
                    lemma_peel("show"@, "errors"@ + seq![' '] + rep);
                    lemma_peel("errors"@, rep);
                    lemma_split_all_whole(rep, ' ');
                    assert(seq!["show"@] + (seq!["errors"@] + seq![rep]) =~= command_tokens(c));
                },
                ErrorFlag::Request => {
                    assert(encode_spec(c) =~= "show"@ + seq![' '] + ("errors"@ + seq![' '] + (rep
                        + seq![' '] + "request"@)));
                    lemma_peel("show"@, "errors"@ + seq![' '] + (rep + seq![' '] + "request"@));
                    lemma_peel("errors"@, rep + seq![' '] + "request"@);
                    lemma_peel(rep, "request"@);
                    lemma_split_all_whole("request"@, ' ');
                    assert(seq!["show"@] + (seq!["errors"@] + (seq![rep] + seq!["request"@]))
                        =~= command_tokens(c));
                },
                ErrorFlag::Response => {
                    assert(encode_spec(c) =~= "show"@ + seq![' '] + ("errors"@ + seq![' '] + (rep
                        + seq![' '] + "response"@)));
                    lemma_peel("show"@, "errors"@ + seq![' '] + (rep + seq![' '] + "response"@));
                    lemma_peel("errors"@, rep + seq![' '] + "response"@);
                    lemma_peel(rep, "response"@);
                    lemma_split_all_whole("response"@, ' ');
                    assert(seq!["show"@] + (seq!["errors"@] + (seq![rep] + seq!["response"@]))
                        =~= command_tokens(c));
                },
            }
            match backend {
                BackendId::All => {
                    lemma_i32_rep_round_trip(-1i32);
                },
                BackendId::Id(n) => lemma_i32_rep_round_trip(n),
                BackendId::Name(name) => {},
            }
        },
        Command::AddAcl { id, value } => {
            let rep = acl_id_rep(id);
            lemma_acl_id_rep_no_space(id);
            assert(encode_spec(c) =~= "add"@ + seq![' '] + ("acl"@ + seq![' '] + (rep + seq![' ']
                + value@)));
            lemma_peel("add"@, "acl"@ + seq![' '] + (rep + seq![' '] + value@));
            lemma_peel("acl"@, rep + seq![' '] + value@);
            lemma_peel(rep, value@);
            lemma_split_all_whole(value@, ' ');
            assert(seq!["add"@] + (seq!["acl"@] + (seq![rep] + seq![value@]))
                =~= command_tokens(c));
            match id {
                AclId::Id(n) => {
                    assert(rep[0] == '#');
                    assert(rep.skip(1) =~= int_rep(n as int));
                    lemma_i32_rep_round_trip(n);
                },
            }
        },
    }
}

} // verus!
