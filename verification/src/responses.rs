//! The typed values that response lines decode to, with one parser per
//! textual sub-format.

use vstd::prelude::*;

use crate::addr::{
    sockaddr_v4_matches, sockaddr_v4_text_ok, sockaddr_v6_matches, sockaddr_v6_text_ok,
    SocketAddr, SocketAddrV4, SocketAddrV6,
};
use crate::errors::Error;
use crate::text::{
    dec_text_ok, dec_text_val, find_char, first_index_of, i32_text_ok, i32_text_val,
    lemma_first_index_of, parse_dec, parse_i32, split_all, split_str, str_eq,
};

verus! {

// ---------------------------------------------------------------------------
// Access-control-list records
// ---------------------------------------------------------------------------

/// One row of the access-control-list listing.
#[derive(Clone, Debug, Eq, PartialEq)]
pub struct Acl {
    /// The numeric index of the list.
    pub id: i32,
    /// The file or alias the list was loaded from, absent when the row
    /// shows `()`.
    pub reference: Option<String>,
    /// The rest of the row, free text that may itself contain spaces.
    pub description: String,
}

/// The reference field is either the literal `()` or at least three
/// characters, a name wrapped in a single-character delimiter pair.
pub open spec fn ref_text_ok(t: Seq<char>) -> bool {
    t == "()"@ || t.len() >= 3
}

/// The reference a well-formed reference field stands for: none for `()`,
/// else the text with the delimiter pair stripped.
pub open spec fn ref_of(t: Seq<char>) -> Option<Seq<char>> {
    if t == "()"@ {
        None
    } else {
        Some(t.subrange(1, t.len() as int - 1))
    }
}

/// A record line is `<id> <reference> <description>`: three fields cut at
/// the first two spaces, so the description may contain spaces.
pub open spec fn acl_text_ok(l: Seq<char>) -> bool {
    match first_index_of(l, ' ') {
        Some(i) => match first_index_of(l.skip(i + 1), ' ') {
            Some(j) => i32_text_ok(l.take(i)) && ref_text_ok(l.skip(i + 1).take(j)),
            None => false,
        },
        None => false,
    }
}

/// The record `a` is what the line `l` decodes to.
pub open spec fn acl_matches(l: Seq<char>, a: Acl) -> bool {
    &&& acl_text_ok(l)
    &&& match first_index_of(l, ' ') {
        Some(i) => {
            let rest = l.skip(i + 1);
            match first_index_of(rest, ' ') {
                Some(j) => {
                    &&& a.id as int == i32_text_val(l.take(i))
                    &&& match a.reference {
                        None => ref_of(rest.take(j)) is None,
                        Some(r) => ref_of(rest.take(j)) == Some(r@),
                    }
                    &&& a.description@ == rest.skip(j + 1)
                },
                None => false,
            }
        },
        None => false,
    }
}

impl Acl {
    /// Decodes one listing row, exactly when it is well formed.
    pub fn parse(s: &str) -> (r: Result<Acl, Error>)
        ensures
            r is Ok <==> acl_text_ok(s@),
            r is Ok ==> acl_matches(s@, r.unwrap()),
            r is Err ==> r->Err_0 is ParseFailure,
    {
        let n = s.unicode_len();
        let i = match find_char(s, ' ') {
            Some(i) => i,
            None => {
                return Err(Error::ParseFailure);
            },
        };
        proof {
            lemma_first_index_of(s@, ' ');
        }
        let id_tok = s.substring_char(0, i);
        assert(id_tok@ =~= s@.take(i as int));
        let rest = s.substring_char(i + 1, n);
        assert(rest@ =~= s@.skip(i + 1));
        let m = rest.unicode_len();
        let j = match find_char(rest, ' ') {
            Some(j) => j,
            None => {
                return Err(Error::ParseFailure);
            },
        };
        proof {
            lemma_first_index_of(rest@, ' ');
        }
        let ref_tok = rest.substring_char(0, j);
        assert(ref_tok@ =~= rest@.take(j as int));
        let desc = rest.substring_char(j + 1, m);
        assert(desc@ =~= rest@.skip(j + 1));
        let id = match parse_i32(id_tok) {
            Some(v) => v,
            None => {
                return Err(Error::ParseFailure);
            },
        };
        let reference = if str_eq(ref_tok, "()") {
            None
        } else {
            let rl = ref_tok.unicode_len();
            if rl < 3 {
                return Err(Error::ParseFailure);
            }
            Some(String::from_str(ref_tok.substring_char(1, rl - 1)))
        };
        Ok(Acl { id, reference, description: String::from_str(desc) })
    }
}

// ---------------------------------------------------------------------------
// Privilege levels
// ---------------------------------------------------------------------------

/// The privilege level of a control session.
#[derive(Debug, Hash, Eq, PartialEq, Structural)]
pub enum Level {
    Admin,
    Operator,
    User,
}

/// The level a line stands for, if any: the wire text is exactly one of
/// three keywords, with the trailing newline already stripped by the
/// caller.
pub open spec fn level_of(s: Seq<char>) -> Option<Level> {
    if s == "admin"@ {
        Some(Level::Admin)
    } else if s == "operator"@ {
        Some(Level::Operator)
    } else if s == "user"@ {
        Some(Level::User)
    } else {
        None
    }
}

impl Level {
    /// Decodes a privilege level, exactly when the text is one of the
    /// three keywords.
    pub fn parse(s: &str) -> (r: Result<Level, Error>)
        ensures
            r is Ok <==> level_of(s@) is Some,
            r is Ok ==> level_of(s@) == Some(r.unwrap()),
            r is Err ==> r->Err_0 is ParseFailure,
    {
        if str_eq(s, "admin") {
            Ok(Level::Admin)
        } else if str_eq(s, "operator") {
            Ok(Level::Operator)
        } else if str_eq(s, "user") {
            Ok(Level::User)
        } else {
            Err(Error::ParseFailure)
        }
    }
}

// ---------------------------------------------------------------------------
// Process sets
// ---------------------------------------------------------------------------

/// The processes a control socket is bound to: all of them, or a listed
/// set of process indices.
#[derive(Debug, Hash, Eq, PartialEq)]
pub enum CliSocketProcesses {
    All,
    List(Vec<u32>),
}

/// The field is the keyword `all`, or a comma-separated list of unsigned
/// integers.
pub open spec fn processes_text_ok(t: Seq<char>) -> bool {
    t == "all"@ || {
        let parts = split_all(t, ',');
        forall|k: int| 0 <= k < parts.len() ==> dec_text_ok(#[trigger] parts[k], u32::MAX as nat)
    }
}

/// The process set `p` is what the field `t` decodes to.
pub open spec fn processes_matches(t: Seq<char>, p: CliSocketProcesses) -> bool {
    &&& processes_text_ok(t)
    &&& match p {
        CliSocketProcesses::All => t == "all"@,
        CliSocketProcesses::List(v) => {
            let parts = split_all(t, ',');
            &&& t != "all"@
            &&& v@.len() == parts.len()
            &&& forall|k: int|
                0 <= k < parts.len() ==> v@[k] == dec_text_val(#[trigger] parts[k])
        },
    }
}

impl CliSocketProcesses {
    /// Decodes the process-set field, exactly when it is well formed; one
    /// bad element fails the whole field.
    pub fn parse(s: &str) -> (r: Result<CliSocketProcesses, Error>)
        ensures
            r is Ok <==> processes_text_ok(s@),
            r is Ok ==> processes_matches(s@, r.unwrap()),
            r is Err ==> r->Err_0 is ParseFailure,
    {
        if str_eq(s, "all") {
            return Ok(CliSocketProcesses::All);
        }
        let parts = split_str(s, ',');
        let ghost pv = split_all(s@, ',');
        let mut out: Vec<u32> = Vec::new();
        let mut k: usize = 0;
        while k < parts.len()
            invariant
                0 <= k <= parts.len(),
                s@ != "all"@,
                parts.deep_view() == pv,
                pv == split_all(s@, ','),
                out@.len() == k,
                forall|q: int|
                    0 <= q < k ==> dec_text_ok(#[trigger] pv[q], u32::MAX as nat) && out@[q]
                        == dec_text_val(pv[q]),
            decreases parts.len() - k,
        {
            assert(parts@[k as int]@ == pv[k as int]);
            match parse_dec(parts[k].as_str(), u32::MAX) {
                Some(v) => out.push(v),
                None => {
                    assert(!dec_text_ok(pv[k as int], u32::MAX as nat));
                    return Err(Error::ParseFailure);
                },
            }
            k = k + 1;
        }
        Ok(CliSocketProcesses::List(out))
    }
}

// ---------------------------------------------------------------------------
// Control-socket listings
// ---------------------------------------------------------------------------

/// The address of one configured control socket. The wire form is
/// `<scheme>@<value>`, except for the literal catchall `unknown` that the
/// remote formatter prints for anything else.
#[derive(Debug, Hash, Eq, PartialEq)]
pub enum CliSocketAddr {
    /// A filesystem socket path.
    Unix(String),
    /// A TCP listener of either address family.
    Ip(SocketAddr),
    /// A socket-pair token.
    SocketPair(String),
    /// An abstract socket-namespace token.
    AbstractSocket(String),
    /// The remote side could not name the address.
    Unknown,
}

/// The field is `unknown`, or a known scheme, `@`, and a value that the
/// scheme accepts; the value of an IP scheme must be a socket address of
/// that family.
pub open spec fn csa_text_ok(t: Seq<char>) -> bool {
    match first_index_of(t, '@') {
        None => t == "unknown"@,
        Some(i) => {
            let scheme = t.take(i);
            let rest = t.skip(i + 1);
            ||| scheme == "unix"@
            ||| (scheme == "ipv4"@ && sockaddr_v4_text_ok(rest))
            ||| (scheme == "ipv6"@ && sockaddr_v6_text_ok(rest))
            ||| scheme == "sockpair"@
            ||| scheme == "abns"@
        },
    }
}

/// The address `a` is what the field `t` decodes to.
pub open spec fn csa_matches(t: Seq<char>, a: CliSocketAddr) -> bool {
    &&& csa_text_ok(t)
    &&& match first_index_of(t, '@') {
        None => a is Unknown,
        Some(i) => {
            let scheme = t.take(i);
            let rest = t.skip(i + 1);
            if scheme == "unix"@ {
                a matches CliSocketAddr::Unix(p) && p@ == rest
            } else if scheme == "ipv4"@ {
                a matches CliSocketAddr::Ip(sa) && sa matches SocketAddr::V4(v)
                    && sockaddr_v4_matches(rest, v)
            } else if scheme == "ipv6"@ {
                a matches CliSocketAddr::Ip(sa) && sa matches SocketAddr::V6(v)
                    && sockaddr_v6_matches(rest, v)
            } else if scheme == "sockpair"@ {
                a matches CliSocketAddr::SocketPair(p) && p@ == rest
            } else {
                a matches CliSocketAddr::AbstractSocket(p) && p@ == rest
            }
        },
    }
}

impl CliSocketAddr {
    /// Decodes the address field, exactly when it is well formed.
    #[verifier::rlimit(30)]
    pub fn parse(s: &str) -> (r: Result<CliSocketAddr, Error>)
        ensures
            r is Ok <==> csa_text_ok(s@),
            r is Ok ==> csa_matches(s@, r.unwrap()),
            r is Err ==> r->Err_0 is ParseFailure,
    {
        proof {
            reveal_strlit("unix");
            reveal_strlit("ipv4");
            reveal_strlit("ipv6");
            reveal_strlit("sockpair");
            reveal_strlit("abns");
            // The same-length scheme keywords differ in a character, so no
            // field can satisfy two branches of `csa_text_ok` at once.
            assert("unix"@[0] == 'u' && "ipv4"@[0] == 'i' && "abns"@[0] == 'a');
            assert("ipv4"@[3] == '4' && "ipv6"@[3] == '6');
            assert("ipv4"@ != "ipv6"@ && "ipv4"@ != "abns"@ && "ipv6"@ != "abns"@);
            assert("unix"@ != "ipv4"@ && "unix"@ != "ipv6"@ && "unix"@ != "abns"@);
        }
        let n = s.unicode_len();
        match find_char(s, '@') {
            None => {
                if str_eq(s, "unknown") {
                    Ok(CliSocketAddr::Unknown)
                } else {
                    Err(Error::ParseFailure)
                }
            },
            Some(i) => {
                proof {
                    lemma_first_index_of(s@, '@');
                }
                let scheme = s.substring_char(0, i);
                assert(scheme@ =~= s@.take(i as int));
                let rest = s.substring_char(i + 1, n);
                assert(rest@ =~= s@.skip(i + 1));
                if str_eq(scheme, "unix") {
                    Ok(CliSocketAddr::Unix(String::from_str(rest)))
                } else if str_eq(scheme, "ipv4") {
                    match SocketAddrV4::parse(rest) {
                        Ok(v) => Ok(CliSocketAddr::Ip(SocketAddr::V4(v))),
                        Err(_) => Err(Error::ParseFailure),
                    }
                } else if str_eq(scheme, "ipv6") {
                    match SocketAddrV6::parse(rest) {
                        Ok(v) => Ok(CliSocketAddr::Ip(SocketAddr::V6(v))),
                        Err(_) => Err(Error::ParseFailure),
                    }
                } else if str_eq(scheme, "sockpair") {
                    Ok(CliSocketAddr::SocketPair(String::from_str(rest)))
                } else if str_eq(scheme, "abns") {
                    Ok(CliSocketAddr::AbstractSocket(String::from_str(rest)))
                } else {
                    Err(Error::ParseFailure)
                }
            },
        }
    }
}

/// One configured control socket: its address, the privilege level it
/// grants, and the processes it is bound to.
#[derive(Debug, Hash, Eq, PartialEq)]
pub struct CliSocket {
    pub address: CliSocketAddr,
    pub level: Level,
    pub processes: CliSocketProcesses,
}

/// A listing line is exactly three space-separated fields: address,
/// level, process set. The cut is at the first two spaces.
pub open spec fn cli_socket_text_ok(l: Seq<char>) -> bool {
    match first_index_of(l, ' ') {
        Some(i) => match first_index_of(l.skip(i + 1), ' ') {
            Some(j) => {
                &&& csa_text_ok(l.take(i))
                &&& level_of(l.skip(i + 1).take(j)) is Some
                &&& processes_text_ok(l.skip(i + 1).skip(j + 1))
            },
            None => false,
        },
        None => false,
    }
}

/// The socket `c` is what the line `l` decodes to.
pub open spec fn cli_socket_matches(l: Seq<char>, c: CliSocket) -> bool {
    &&& cli_socket_text_ok(l)
    &&& match first_index_of(l, ' ') {
        Some(i) => {
            let rest = l.skip(i + 1);
            match first_index_of(rest, ' ') {
                Some(j) => {
                    &&& csa_matches(l.take(i), c.address)
                    &&& level_of(rest.take(j)) == Some(c.level)
                    &&& processes_matches(rest.skip(j + 1), c.processes)
                },
                None => false,
            }
        },
        None => false,
    }
}

impl CliSocket {
    /// Decodes one listing line, exactly when it is well formed.
    pub fn parse(s: &str) -> (r: Result<CliSocket, Error>)
        ensures
            r is Ok <==> cli_socket_text_ok(s@),
            r is Ok ==> cli_socket_matches(s@, r.unwrap()),
            r is Err ==> r->Err_0 is ParseFailure,
    {
        let n = s.unicode_len();
        let i = match find_char(s, ' ') {
            Some(i) => i,
            None => {
                return Err(Error::ParseFailure);
            },
        };
        proof {
            lemma_first_index_of(s@, ' ');
        }
        let addr_tok = s.substring_char(0, i);
        assert(addr_tok@ =~= s@.take(i as int));
        let rest = s.substring_char(i + 1, n);
        assert(rest@ =~= s@.skip(i + 1));
        let m = rest.unicode_len();
        let j = match find_char(rest, ' ') {
            Some(j) => j,
            None => {
                return Err(Error::ParseFailure);
            },
        };
        proof {
            lemma_first_index_of(rest@, ' ');
        }
        let level_tok = rest.substring_char(0, j);
        assert(level_tok@ =~= rest@.take(j as int));
        let proc_tok = rest.substring_char(j + 1, m);
        assert(proc_tok@ =~= rest@.skip(j + 1));
        let address = match CliSocketAddr::parse(addr_tok) {
            Ok(a) => a,
            Err(_) => {
                return Err(Error::ParseFailure);
            },
        };
        let level = match Level::parse(level_tok) {
            Ok(l) => l,
            Err(_) => {
                return Err(Error::ParseFailure);
            },
        };
        let processes = match CliSocketProcesses::parse(proc_tok) {
            Ok(p) => p,
            Err(_) => {
                return Err(Error::ParseFailure);
            },
        };
        Ok(CliSocket { address, level, processes })
    }
}

} // verus!
