//! The access-control-list identifiers and entries the protocol speaks of.

use vstd::prelude::*;

use crate::errors::Error;
use crate::text::{
    find_char, first_index_of, hex_text_ok, hex_text_val, int_rep, lemma_first_index_of,
    parse_hex_u64, render_i32,
};

verus! {

/// Identifies an access-control list by its numeric index; rendered as
/// `#<n>` on the wire.
#[derive(Clone, Copy, Debug, Eq, PartialEq, Structural)]
pub enum AclId {
    Id(i32),
}

/// The exact text an ACL id puts on the wire.
pub open spec fn acl_id_rep(id: AclId) -> Seq<char> {
    match id {
        AclId::Id(n) => seq!['#'] + int_rep(n as int),
    }
}

impl AclId {
    /// Renders the id as the remote process expects it.
    pub fn render(&self) -> (s: String)
        ensures
            s@ == acl_id_rep(*self),
    {
        match self {
            AclId::Id(n) => {
                let mut s = String::from_str("#");
                proof { reveal_strlit("#"); }
                let tail = render_i32(*n);
                s.append(tail.as_str());
                assert(s@ =~= acl_id_rep(*self));
                s
            },
        }
    }
}

/// A type whose values can be decoded from the value field of an ACL
/// entry. The two spec functions are the model of the decoder: which texts
/// it accepts, and which value a text stands for.
pub trait ParseValue: Sized {
    /// The decoder accepts `s`.
    spec fn parse_ok(s: Seq<char>) -> bool;

    /// The value `v` is what `s` decodes to.
    spec fn parse_matches(s: Seq<char>, v: Self) -> bool;

    /// Decodes `s`, exactly when the model accepts it.
    fn parse_value(s: &str) -> (r: Result<Self, Error>)
        ensures
            r is Ok <==> Self::parse_ok(s@),
            r is Ok ==> Self::parse_matches(s@, r.unwrap()),
            r is Err ==> r->Err_0 is ParseFailure,
    ;
}

/// The trivial decoder: any text is its own value.
impl ParseValue for String {
    open spec fn parse_ok(s: Seq<char>) -> bool {
        true
    }

    open spec fn parse_matches(s: Seq<char>, v: Self) -> bool {
        v@ == s
    }

    fn parse_value(s: &str) -> (r: Result<Self, Error>) {
        Ok(String::from_str(s))
    }
}

/// One member of an access-control list.
#[derive(Clone, Debug, Eq, Hash, PartialEq)]
pub struct AclEntry<V> {
    /// The handle the remote process uses for this entry. It derives from a
    /// memory address on the remote side but is kept as an opaque 64-bit
    /// value here, so that the width never depends on the local machine.
    pub id: u64,
    /// The value of the entry.
    pub value: V,
}

/// An entry line is `0x<hex> <value>`: a handle token and a value token
/// separated by the first space.
pub open spec fn entry_text_ok<V: ParseValue>(l: Seq<char>) -> bool {
    match first_index_of(l, ' ') {
        Some(i) => {
            let id_tok = l.take(i);
            id_tok.len() >= 2 && id_tok[0] == '0' && id_tok[1] == 'x' && hex_text_ok(
                id_tok.skip(2),
            ) && V::parse_ok(l.skip(i + 1))
        },
        None => false,
    }
}

/// The handle value of a well-formed entry line.
pub open spec fn entry_id_val(l: Seq<char>) -> nat {
    match first_index_of(l, ' ') {
        Some(i) => hex_text_val(l.take(i).skip(2)),
        None => 0,
    }
}

/// The entry `e` is what the line `l` decodes to.
pub open spec fn entry_matches<V: ParseValue>(l: Seq<char>, e: AclEntry<V>) -> bool {
    &&& entry_text_ok::<V>(l)
    &&& e.id as nat == entry_id_val(l)
    &&& match first_index_of(l, ' ') {
        Some(i) => V::parse_matches(l.skip(i + 1), e.value),
        None => false,
    }
}

impl<V: ParseValue> AclEntry<V> {
    /// Decodes one entry line, exactly when it is well formed; any failure
    /// of the value decoder collapses to `ParseFailure`, its detail is
    /// discarded by design.
    pub fn parse(s: &str) -> (r: Result<Self, Error>)
        ensures
            r is Ok <==> entry_text_ok::<V>(s@),
            r is Ok ==> entry_matches::<V>(s@, r.unwrap()),
            r is Err ==> r->Err_0 is ParseFailure,
    {
        let n = s.unicode_len();
        match find_char(s, ' ') {
            None => Err(Error::ParseFailure),
            Some(i) => {
                proof {
                    lemma_first_index_of(s@, ' ');
                }
                let id_tok = s.substring_char(0, i);
                assert(id_tok@ =~= s@.take(i as int));
                if id_tok.unicode_len() < 2 || id_tok.get_char(0) != '0' || id_tok.get_char(1)
                    != 'x' {
                    return Err(Error::ParseFailure);
                }
                let hex_part = id_tok.substring_char(2, id_tok.unicode_len());
                assert(hex_part@ =~= s@.take(i as int).skip(2));
                let id = match parse_hex_u64(hex_part) {
                    Some(v) => v,
                    None => {
                        return Err(Error::ParseFailure);
                    },
                };
                let val_tok = s.substring_char(i + 1, n);
                assert(val_tok@ =~= s@.skip(i + 1));
                match V::parse_value(val_tok) {
                    Ok(value) => Ok(AclEntry { id, value }),
                    Err(_) => Err(Error::ParseFailure),
                }
            },
        }
    }
}

} // verus!
