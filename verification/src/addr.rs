//! The crate's own socket-address types and their textual forms.
//!
//! The wire protocol prints addresses as text; these types keep exactly
//! what the listings carry — octets, groups and ports as plain integers —
//! so that the parsers can be specified and checked down to the digit.

use vstd::prelude::*;

use crate::errors::Error;
use crate::text::{
    all_digits, all_hex_digits, dec_val, find_char, first_index_of, hex_digit_val, hex_val,
    is_digit, is_hex_digit, lemma_first_index_of, parse_dec, parse_hex_u64, split_all, split_str,
};

verus! {

// ---------------------------------------------------------------------------
// IPv4 addresses
// ---------------------------------------------------------------------------

/// An IPv4 address, four octets.
#[derive(Clone, Copy, Debug, Hash, Eq, PartialEq, Structural)]
pub struct Ipv4Addr {
    pub o0: u8,
    pub o1: u8,
    pub o2: u8,
    pub o3: u8,
}

/// One octet of a dotted quad: one to three digits, no leading zero, and
/// a value of at most 255.
pub open spec fn octet_ok(p: Seq<char>) -> bool {
    &&& 1 <= p.len() <= 3
    &&& all_digits(p)
    &&& (p[0] != '0' || p.len() == 1)
    &&& dec_val(p) <= 255
}

/// `t` is a dotted quad: four octets separated by dots.
pub open spec fn ipv4_text_ok(t: Seq<char>) -> bool {
    let parts = split_all(t, '.');
    parts.len() == 4 && forall|k: int| 0 <= k < 4 ==> octet_ok(#[trigger] parts[k])
}

/// The address `a` is what the dotted quad `t` stands for.
pub open spec fn ipv4_matches(t: Seq<char>, a: Ipv4Addr) -> bool {
    let parts = split_all(t, '.');
    &&& ipv4_text_ok(t)
    &&& a.o0 as nat == dec_val(parts[0])
    &&& a.o1 as nat == dec_val(parts[1])
    &&& a.o2 as nat == dec_val(parts[2])
    &&& a.o3 as nat == dec_val(parts[3])
}

/// Decodes one octet, exactly when it is well formed.
fn parse_octet(s: &str) -> (r: Option<u8>)
    ensures
        r is Some <==> octet_ok(s@),
        r is Some ==> r.unwrap() as nat == dec_val(s@),
{
    let n = s.unicode_len();
    if n < 1 || n > 3 {
        return None;
    }
    let c0 = s.get_char(0);
    if !(c0 >= '0' && c0 <= '9') {
        assert(!is_digit(s@[0]));
        return None;
    }
    if c0 == '0' && n > 1 {
        return None;
    }
    assert(s@[0] != '+');
    match parse_dec(s, 255) {
        Some(v) => Some(v as u8),
        None => None,
    }
}

impl Ipv4Addr {
    /// Decodes a dotted quad, exactly when it is well formed.
    pub fn parse(s: &str) -> (r: Result<Ipv4Addr, Error>)
        ensures
            r is Ok <==> ipv4_text_ok(s@),
            r is Ok ==> ipv4_matches(s@, r.unwrap()),
            r is Err ==> r->Err_0 is ParseFailure,
    {
        let parts = split_str(s, '.');
        let ghost pv = split_all(s@, '.');
        if parts.len() != 4 {
            return Err(Error::ParseFailure);
        }
        assert(parts@[0]@ == pv[0]);
        assert(parts@[1]@ == pv[1]);
        assert(parts@[2]@ == pv[2]);
        assert(parts@[3]@ == pv[3]);
        let o0 = match parse_octet(parts[0].as_str()) {
            Some(v) => v,
            None => {
                return Err(Error::ParseFailure);
            },
        };
        let o1 = match parse_octet(parts[1].as_str()) {
            Some(v) => v,
            None => {
                return Err(Error::ParseFailure);
            },
        };
        let o2 = match parse_octet(parts[2].as_str()) {
            Some(v) => v,
            None => {
                return Err(Error::ParseFailure);
            },
        };
        let o3 = match parse_octet(parts[3].as_str()) {
            Some(v) => v,
            None => {
                return Err(Error::ParseFailure);
            },
        };
        Ok(Ipv4Addr { o0, o1, o2, o3 })
    }
}

// ---------------------------------------------------------------------------
// Ports
// ---------------------------------------------------------------------------

/// A port field: one or more digits with a value of at most 65535.
pub open spec fn port_ok(p: Seq<char>) -> bool {
    p.len() > 0 && all_digits(p) && dec_val(p) <= 65535
}

/// Decodes a port, exactly when the field is well formed.
fn parse_port(s: &str) -> (r: Option<u16>)
    ensures
        r is Some <==> port_ok(s@),
        r is Some ==> r.unwrap() as nat == dec_val(s@),
{
    let n = s.unicode_len();
    if n == 0 {
        return None;
    }
    let c0 = s.get_char(0);
    if !(c0 >= '0' && c0 <= '9') {
        assert(!is_digit(s@[0]));
        return None;
    }
    assert(s@[0] != '+');
    match parse_dec(s, 65535) {
        Some(v) => Some(v as u16),
        None => None,
    }
}

// ---------------------------------------------------------------------------
// IPv4 socket addresses
// ---------------------------------------------------------------------------

/// An IPv4 address with a port.
#[derive(Clone, Copy, Debug, Hash, Eq, PartialEq, Structural)]
pub struct SocketAddrV4 {
    pub addr: Ipv4Addr,
    pub port: u16,
}

/// `t` is `<dotted-quad>:<port>`, cut at the first colon.
pub open spec fn sockaddr_v4_text_ok(t: Seq<char>) -> bool {
    match first_index_of(t, ':') {
        Some(i) => ipv4_text_ok(t.take(i)) && port_ok(t.skip(i + 1)),
        None => false,
    }
}

/// The socket address `a` is what `t` stands for.
pub open spec fn sockaddr_v4_matches(t: Seq<char>, a: SocketAddrV4) -> bool {
    &&& sockaddr_v4_text_ok(t)
    &&& match first_index_of(t, ':') {
        Some(i) => ipv4_matches(t.take(i), a.addr) && a.port as nat == dec_val(t.skip(i + 1)),
        None => false,
    }
}

impl SocketAddrV4 {
    /// Decodes `<dotted-quad>:<port>`, exactly when it is well formed.
    pub fn parse(s: &str) -> (r: Result<SocketAddrV4, Error>)
        ensures
            r is Ok <==> sockaddr_v4_text_ok(s@),
            r is Ok ==> sockaddr_v4_matches(s@, r.unwrap()),
            r is Err ==> r->Err_0 is ParseFailure,
    {
        let n = s.unicode_len();
        let i = match find_char(s, ':') {
            Some(i) => i,
            None => {
                return Err(Error::ParseFailure);
            },
        };
        proof {
            lemma_first_index_of(s@, ':');
        }
        let addr_tok = s.substring_char(0, i);
        assert(addr_tok@ =~= s@.take(i as int));
        let port_tok = s.substring_char(i + 1, n);
        assert(port_tok@ =~= s@.skip(i + 1));
        let addr = match Ipv4Addr::parse(addr_tok) {
            Ok(a) => a,
            Err(_) => {
                return Err(Error::ParseFailure);
            },
        };
        let port = match parse_port(port_tok) {
            Some(p) => p,
            None => {
                return Err(Error::ParseFailure);
            },
        };
        Ok(SocketAddrV4 { addr, port })
    }
}

// ---------------------------------------------------------------------------
// IPv6 addresses
// ---------------------------------------------------------------------------

/// An IPv6 address, eight 16-bit groups.
#[derive(Clone, Copy, Debug, Hash, Eq, PartialEq, Structural)]
pub struct Ipv6Addr {
    pub s0: u16,
    pub s1: u16,
    pub s2: u16,
    pub s3: u16,
    pub s4: u16,
    pub s5: u16,
    pub s6: u16,
    pub s7: u16,
}

/// One group of an IPv6 address: one to four hexadecimal digits.
pub open spec fn hex_group_ok(p: Seq<char>) -> bool {
    1 <= p.len() <= 4 && all_hex_digits(p)
}

/// Every part is a well-formed group.
pub open spec fn groups_ok(parts: Seq<Seq<char>>) -> bool {
    forall|k: int| 0 <= k < parts.len() ==> hex_group_ok(#[trigger] parts[k])
}

/// The index of the first `::` in `b`, if any.
pub open spec fn first_dc(b: Seq<char>) -> Option<int>
    decreases b.len(),
{
    if b.len() < 2 {
        None
    } else if b[0] == ':' && b[1] == ':' {
        Some(0)
    } else {
        match first_dc(b.skip(1)) {
            None => None,
            Some(i) => Some(i + 1),
        }
    }
}

/// What `first_dc` finds is the first double colon.
pub proof fn lemma_first_dc(b: Seq<char>)
    ensures
        match first_dc(b) {
            Some(i) => 0 <= i < b.len() - 1 && b[i] == ':' && b[i + 1] == ':' && (forall|j: int|
                0 <= j < i ==> !(#[trigger] b[j] == ':' && b[j + 1] == ':')),
            None => forall|j: int| 0 <= j < b.len() - 1 ==> !(#[trigger] b[j] == ':' && b[j + 1]
                == ':'),
        },
    decreases b.len(),
{
    if b.len() >= 2 && !(b[0] == ':' && b[1] == ':') {
        lemma_first_dc(b.skip(1));
        assert(forall|j: int| 1 <= j < b.len() ==> b[j] == b.skip(1)[j - 1]);
    }
}

/// The first double colon determines `first_dc`.
pub proof fn lemma_first_dc_is(b: Seq<char>, i: int)
    requires
        0 <= i < b.len() - 1,
        b[i] == ':' && b[i + 1] == ':',
        forall|j: int| 0 <= j < i ==> !(#[trigger] b[j] == ':' && b[j + 1] == ':'),
    ensures
        first_dc(b) == Some(i),
{
    lemma_first_dc(b);
    match first_dc(b) {
        Some(k) => {
            if k < i {
                assert(!(b[k] == ':' && b[k + 1] == ':'));
            }
            if k > i {
                assert(!(b[i] == ':' && b[i + 1] == ':'));
            }
        },
        None => {
            assert(!(b[i] == ':' && b[i + 1] == ':'));
        },
    }
}

/// Finds the first `::` in `s`.
fn find_dc(s: &str) -> (r: Option<usize>)
    ensures
        match r {
            Some(i) => first_dc(s@) == Some(i as int),
            None => first_dc(s@) is None,
        },
{
    let n = s.unicode_len();
    if n < 2 {
        proof {
            lemma_first_dc(s@);
            if first_dc(s@) is Some {
                let k = first_dc(s@).unwrap();
            }
        }
        return None;
    }
    let mut i: usize = 0;
    while i < n - 1
        invariant
            0 <= i <= n - 1,
            n == s@.len(),
            n >= 2,
            forall|j: int| 0 <= j < i ==> !(#[trigger] s@[j] == ':' && s@[j + 1] == ':'),
        decreases n - i,
    {
        if s.get_char(i) == ':' && s.get_char(i + 1) == ':' {
            proof {
                lemma_first_dc_is(s@, i as int);
            }
            return Some(i);
        }
        i = i + 1;
    }
    proof {
        lemma_first_dc(s@);
        if first_dc(s@) is Some {
            let k = first_dc(s@).unwrap();
            assert(!(s@[k] == ':' && s@[k + 1] == ':'));
        }
    }
    None
}

/// The groups on one side of a `::`: none when the side is empty.
pub open spec fn side_parts(x: Seq<char>) -> Seq<Seq<char>> {
    if x.len() == 0 {
        Seq::empty()
    } else {
        split_all(x, ':')
    }
}

/// The group values of a part list.
pub open spec fn group_vals(parts: Seq<Seq<char>>) -> Seq<nat> {
    parts.map_values(|p: Seq<char>| hex_val(p))
}

/// `b` is an IPv6 address body: eight colon-separated groups, or at most
/// seven groups around one `::` that stands for the missing zero groups.
pub open spec fn ipv6_text_ok(b: Seq<char>) -> bool {
    match first_dc(b) {
        None => {
            let parts = split_all(b, ':');
            parts.len() == 8 && groups_ok(parts)
        },
        Some(i) => {
            let lp = side_parts(b.take(i));
            let rp = side_parts(b.skip(i + 2));
            groups_ok(lp) && groups_ok(rp) && lp.len() + rp.len() <= 7
        },
    }
}

/// The eight group values `b` stands for, with the `::` expanded to zero
/// groups.
pub open spec fn ipv6_groups(b: Seq<char>) -> Seq<nat> {
    match first_dc(b) {
        None => group_vals(split_all(b, ':')),
        Some(i) => {
            let lp = side_parts(b.take(i));
            let rp = side_parts(b.skip(i + 2));
            group_vals(lp) + Seq::new((8 - lp.len() - rp.len()) as nat, |k: int| 0 as nat)
                + group_vals(rp)
        },
    }
}

/// The address `a` is what the body `b` stands for.
pub open spec fn ipv6_matches(b: Seq<char>, a: Ipv6Addr) -> bool {
    let g = ipv6_groups(b);
    &&& ipv6_text_ok(b)
    &&& a.s0 as nat == g[0]
    &&& a.s1 as nat == g[1]
    &&& a.s2 as nat == g[2]
    &&& a.s3 as nat == g[3]
    &&& a.s4 as nat == g[4]
    &&& a.s5 as nat == g[5]
    &&& a.s6 as nat == g[6]
    &&& a.s7 as nat == g[7]
}

/// Sixteen to the power `n`.
spec fn pow16(n: nat) -> nat
    decreases n,
{
    if n == 0 {
        1
    } else {
        16 * pow16((n - 1) as nat)
    }
}

/// A hexadecimal numeral is bounded by sixteen to the number of digits.
proof fn lemma_hex_val_bound(s: Seq<char>)
    requires
        all_hex_digits(s),
    ensures
        hex_val(s) < pow16(s.len()),
    decreases s.len(),
{
    if s.len() > 0 {
        assert(all_hex_digits(s.drop_last())) by {
            assert(forall|j: int|
                0 <= j < s.len() - 1 ==> #[trigger] s.drop_last()[j] == s[j]);
        }
        lemma_hex_val_bound(s.drop_last());
        assert(is_hex_digit(s.last()));
        assert(hex_digit_val(s.last()) <= 15);
    }
}

/// A group of at most four digits fits sixteen bits.
proof fn lemma_group_val_small(s: Seq<char>)
    requires
        all_hex_digits(s),
        s.len() <= 4,
    ensures
        hex_val(s) < 0x10000,
{
    lemma_hex_val_bound(s);
    assert(pow16(0) == 1);
    assert(pow16(1) == 16);
    assert(pow16(2) == 256);
    assert(pow16(3) == 4096);
    assert(pow16(4) == 0x10000);
}

/// Decodes one group, exactly when it is well formed.
fn parse_group(s: &str) -> (r: Option<u16>)
    ensures
        r is Some <==> hex_group_ok(s@),
        r is Some ==> r.unwrap() as nat == hex_val(s@),
{
    let n = s.unicode_len();
    if n < 1 || n > 4 {
        return None;
    }
    let c0 = s.get_char(0);
    let digit = c0 >= '0' && c0 <= '9';
    let lower = c0 >= 'a' && c0 <= 'f';
    let upper = c0 >= 'A' && c0 <= 'F';
    if !(digit || lower || upper) {
        assert(!is_hex_digit(s@[0]));
        return None;
    }
    assert(s@[0] != '+');
    match parse_hex_u64(s) {
        Some(v) => {
            proof {
                lemma_group_val_small(s@);
            }
            Some(v as u16)
        },
        None => {
            proof {
                if hex_group_ok(s@) {
                    lemma_group_val_small(s@);
                }
            }
            None
        },
    }
}

/// Decodes every part as a group, exactly when all are well formed.
fn parse_groups(parts: &Vec<String>) -> (r: Option<Vec<u16>>)
    ensures
        r is Some <==> groups_ok(parts.deep_view()),
        r is Some ==> {
            let v = r.unwrap();
            v@.len() == parts.deep_view().len() && (forall|k: int|
                0 <= k < v@.len() ==> v@[k] as nat == hex_val(#[trigger] parts.deep_view()[k]))
        },
{
    let ghost pv = parts.deep_view();
    let mut out: Vec<u16> = Vec::new();
    let mut k: usize = 0;
    while k < parts.len()
        invariant
            0 <= k <= parts.len(),
            pv == parts.deep_view(),
            pv.len() == parts@.len(),
            out@.len() == k,
            forall|q: int|
                0 <= q < k ==> hex_group_ok(#[trigger] pv[q]) && out@[q] as nat == hex_val(pv[q]),
        decreases parts.len() - k,
    {
        assert(parts@[k as int]@ == pv[k as int]);
        match parse_group(parts[k].as_str()) {
            Some(v) => out.push(v),
            None => {
                assert(!hex_group_ok(pv[k as int]));
                return None;
            },
        }
        k = k + 1;
    }
    Some(out)
}

impl Ipv6Addr {
    /// Decodes an IPv6 address body, exactly when it is well formed.
    pub fn parse(s: &str) -> (r: Result<Ipv6Addr, Error>)
        ensures
            r is Ok <==> ipv6_text_ok(s@),
            r is Ok ==> ipv6_matches(s@, r.unwrap()),
            r is Err ==> r->Err_0 is ParseFailure,
    {
        let n = s.unicode_len();
        match find_dc(s) {
            None => {
                let parts = split_str(s, ':');
                let ghost pv = split_all(s@, ':');
                if parts.len() != 8 {
                    return Err(Error::ParseFailure);
                }
                let g = match parse_groups(&parts) {
                    Some(g) => g,
                    None => {
                        return Err(Error::ParseFailure);
                    },
                };
                let a = Ipv6Addr {
                    s0: g[0],
                    s1: g[1],
                    s2: g[2],
                    s3: g[3],
                    s4: g[4],
                    s5: g[5],
                    s6: g[6],
                    s7: g[7],
                };
                proof {
                    let gv = ipv6_groups(s@);
                    assert(gv == group_vals(pv));
                    assert(forall|k: int| 0 <= k < 8 ==> gv[k] == hex_val(#[trigger] pv[k]));
                }
                Ok(a)
            },
            Some(i) => {
                proof {
                    lemma_first_dc(s@);
                }
                let left = s.substring_char(0, i);
                assert(left@ =~= s@.take(i as int));
                let right = s.substring_char(i + 2, n);
                assert(right@ =~= s@.skip(i + 2));
                let lparts: Vec<String> = if left.unicode_len() == 0 {
                    Vec::new()
                } else {
                    split_str(left, ':')
                };
                assert(lparts.deep_view() =~~= side_parts(s@.take(i as int)));
                let rparts: Vec<String> = if right.unicode_len() == 0 {
                    Vec::new()
                } else {
                    split_str(right, ':')
                };
                assert(rparts.deep_view() =~~= side_parts(s@.skip(i + 2)));
                let lv = match parse_groups(&lparts) {
                    Some(v) => v,
                    None => {
                        return Err(Error::ParseFailure);
                    },
                };
                let rv = match parse_groups(&rparts) {
                    Some(v) => v,
                    None => {
                        return Err(Error::ParseFailure);
                    },
                };
                if lv.len() > 7 || rv.len() > 7 - lv.len() {
                    return Err(Error::ParseFailure);
                }
                let fill = 8 - lv.len() - rv.len();
                let mut g: Vec<u16> = lv;
                let mut z: usize = 0;
                while z < fill
                    invariant
                        0 <= z <= fill,
                        g@.len() == lv@.len() + z,
                        g@.take(lv@.len() as int) == lv@,
                        forall|q: int| lv@.len() <= q < g@.len() ==> g@[q] == 0u16,
                    decreases fill - z,
                {
                    g.push(0);
                    assert(g@.take(lv@.len() as int) =~= lv@);
                    z = z + 1;
                }
                let mut w: usize = 0;
                while w < rv.len()
                    invariant
                        0 <= w <= rv@.len(),
                        g@.len() == lv@.len() + fill + w,
                        g@.take(lv@.len() as int) == lv@,
                        forall|q: int| lv@.len() <= q < lv@.len() + fill ==> g@[q] == 0u16,
                        forall|q: int|
                            0 <= q < w ==> g@[lv@.len() + fill + q] == rv@[q],
                    decreases rv@.len() - w,
                {
                    g.push(rv[w]);
                    assert(g@.take(lv@.len() as int) =~= lv@);
                    w = w + 1;
                }
                assert(g@.len() == 8);
                let a = Ipv6Addr {
                    s0: g[0],
                    s1: g[1],
                    s2: g[2],
                    s3: g[3],
                    s4: g[4],
                    s5: g[5],
                    s6: g[6],
                    s7: g[7],
                };
                proof {
                    let lp = side_parts(s@.take(i as int));
                    let rp = side_parts(s@.skip(i + 2));
                    let gv = ipv6_groups(s@);
                    assert(gv == group_vals(lp) + Seq::new((8 - lp.len() - rp.len()) as nat,
                        |k: int| 0 as nat) + group_vals(rp));
                    assert(forall|k: int|
                        0 <= k < lv@.len() ==> gv[k] == hex_val(#[trigger] lp[k]));
                    assert(forall|k: int|
                        0 <= k < rv@.len() ==> gv[lv@.len() + fill + k] == hex_val(
                            #[trigger] rp[k]));
                    assert(forall|k: int|
                        lv@.len() <= k < lv@.len() + fill ==> gv[k] == 0);
                    assert(forall|k: int| 0 <= k < lv@.len() ==> g@[k] == lv@[k]);
                }
                Ok(a)
            },
        }
    }
}

// ---------------------------------------------------------------------------
// IPv6 socket addresses
// ---------------------------------------------------------------------------

/// An IPv6 address with a port.
#[derive(Clone, Copy, Debug, Hash, Eq, PartialEq, Structural)]
pub struct SocketAddrV6 {
    pub addr: Ipv6Addr,
    pub port: u16,
}

/// `t` is `[<address body>]:<port>`: the body in brackets, cut at the
/// first closing bracket, then a colon and the port.
pub open spec fn sockaddr_v6_text_ok(t: Seq<char>) -> bool {
    &&& t.len() >= 1
    &&& t[0] == '['
    &&& match first_index_of(t, ']') {
        Some(j) => {
            &&& j + 1 < t.len()
            &&& t[j + 1] == ':'
            &&& ipv6_text_ok(t.subrange(1, j))
            &&& port_ok(t.skip(j + 2))
        },
        None => false,
    }
}

/// The socket address `a` is what `t` stands for.
pub open spec fn sockaddr_v6_matches(t: Seq<char>, a: SocketAddrV6) -> bool {
    &&& sockaddr_v6_text_ok(t)
    &&& match first_index_of(t, ']') {
        Some(j) => ipv6_matches(t.subrange(1, j), a.addr) && a.port as nat == dec_val(
            t.skip(j + 2),
        ),
        None => false,
    }
}

impl SocketAddrV6 {
    /// Decodes `[<address body>]:<port>`, exactly when it is well formed.
    pub fn parse(s: &str) -> (r: Result<SocketAddrV6, Error>)
        ensures
            r is Ok <==> sockaddr_v6_text_ok(s@),
            r is Ok ==> sockaddr_v6_matches(s@, r.unwrap()),
            r is Err ==> r->Err_0 is ParseFailure,
    {
        let n = s.unicode_len();
        if n == 0 || s.get_char(0) != '[' {
            return Err(Error::ParseFailure);
        }
        let j = match find_char(s, ']') {
            Some(j) => j,
            None => {
                return Err(Error::ParseFailure);
            },
        };
        proof {
            lemma_first_index_of(s@, ']');
        }
        assert(j >= 1);
        if j + 1 >= n || s.get_char(j + 1) != ':' {
            return Err(Error::ParseFailure);
        }
        let body = s.substring_char(1, j);
        assert(body@ =~= s@.subrange(1, j as int));
        let port_tok = s.substring_char(j + 2, n);
        assert(port_tok@ =~= s@.skip(j + 2));
        let addr = match Ipv6Addr::parse(body) {
            Ok(a) => a,
            Err(_) => {
                return Err(Error::ParseFailure);
            },
        };
        let port = match parse_port(port_tok) {
            Some(p) => p,
            None => {
                return Err(Error::ParseFailure);
            },
        };
        Ok(SocketAddrV6 { addr, port })
    }
}

// ---------------------------------------------------------------------------
// Addresses of either family
// ---------------------------------------------------------------------------

/// A socket address of either family.
#[derive(Clone, Copy, Debug, Hash, Eq, PartialEq, Structural)]
pub enum SocketAddr {
    V4(SocketAddrV4),
    V6(SocketAddrV6),
}

/// `t` is a socket address of either family.
pub open spec fn sockaddr_text_ok(t: Seq<char>) -> bool {
    sockaddr_v4_text_ok(t) || sockaddr_v6_text_ok(t)
}

/// The socket address `a` is what `t` stands for; the IPv4 form is tried
/// first, though no text is both.
pub open spec fn sockaddr_matches(t: Seq<char>, a: SocketAddr) -> bool {
    match a {
        SocketAddr::V4(v) => sockaddr_v4_matches(t, v),
        SocketAddr::V6(v) => !sockaddr_v4_text_ok(t) && sockaddr_v6_matches(t, v),
    }
}

impl SocketAddr {
    /// Decodes a socket address of either family, exactly when the text is
    /// one.
    pub fn parse(s: &str) -> (r: Result<SocketAddr, Error>)
        ensures
            r is Ok <==> sockaddr_text_ok(s@),
            r is Ok ==> sockaddr_matches(s@, r.unwrap()),
            r is Err ==> r->Err_0 is ParseFailure,
    {
        match SocketAddrV4::parse(s) {
            Ok(v) => Ok(SocketAddr::V4(v)),
            Err(_) => match SocketAddrV6::parse(s) {
                Ok(v) => Ok(SocketAddr::V6(v)),
                Err(_) => Err(Error::ParseFailure),
            },
        }
    }
}

/// An address of either family, without a port: the value form of an ACL
/// entry that holds an address.
#[derive(Clone, Copy, Debug, Hash, Eq, PartialEq, Structural)]
pub enum IpAddr {
    V4(Ipv4Addr),
    V6(Ipv6Addr),
}

/// `t` is an address of either family.
pub open spec fn ip_text_ok(t: Seq<char>) -> bool {
    ipv4_text_ok(t) || ipv6_text_ok(t)
}

/// The address `a` is what `t` stands for; the IPv4 form is tried first,
/// though no text is both.
pub open spec fn ip_matches(t: Seq<char>, a: IpAddr) -> bool {
    match a {
        IpAddr::V4(v) => ipv4_matches(t, v),
        IpAddr::V6(v) => !ipv4_text_ok(t) && ipv6_matches(t, v),
    }
}

impl IpAddr {
    /// Decodes an address of either family, exactly when the text is one.
    pub fn parse(s: &str) -> (r: Result<IpAddr, Error>)
        ensures
            r is Ok <==> ip_text_ok(s@),
            r is Ok ==> ip_matches(s@, r.unwrap()),
            r is Err ==> r->Err_0 is ParseFailure,
    {
        match Ipv4Addr::parse(s) {
            Ok(v) => Ok(IpAddr::V4(v)),
            Err(_) => match Ipv6Addr::parse(s) {
                Ok(v) => Ok(IpAddr::V6(v)),
                Err(_) => Err(Error::ParseFailure),
            },
        }
    }
}

/// ACL entries may hold addresses: decode the value field as one.
impl crate::models::ParseValue for IpAddr {
    open spec fn parse_ok(s: Seq<char>) -> bool {
        ip_text_ok(s)
    }

    open spec fn parse_matches(s: Seq<char>, v: Self) -> bool {
        ip_matches(s, v)
    }

    fn parse_value(s: &str) -> (r: Result<Self, Error>) {
        IpAddr::parse(s)
    }
}

} // verus!
