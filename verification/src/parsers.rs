//! Decoders for whole responses: one routine per command, each taking the
//! response text as the connection layer read it.
//!
//! Multi-line listings share one policy: blank lines and `#`-comment lines
//! are skipped wherever they stand, every other line must parse, and the
//! first malformed data line fails the whole response — there is no
//! partial output.

use vstd::prelude::*;

use crate::errors::Error;
use crate::models::{entry_matches, entry_text_ok, AclEntry, ParseValue};
use crate::responses::{acl_matches, acl_text_ok, cli_socket_matches, cli_socket_text_ok, Acl,
    CliSocket};
use crate::text::{
    dec_text_ok, dec_text_val, find_char, find_last_char, first_index_of, last_index_of,
    lemma_first_index_of, lemma_last_index_of, parse_dec, starts_with, str_eq, str_starts_with,
};

verus! {

// ---------------------------------------------------------------------------
// Lines
// ---------------------------------------------------------------------------

/// A line with a trailing carriage return stripped, as a line reader
/// strips it.
pub open spec fn chomp_cr(l: Seq<char>) -> Seq<char> {
    if l.len() > 0 && l.last() == '\r' {
        l.drop_last()
    } else {
        l
    }
}

/// The lines of a response: split at every newline, each line stripped of
/// a trailing carriage return; a final newline does not open an empty
/// last line.
pub open spec fn lines_of(s: Seq<char>) -> Seq<Seq<char>>
    decreases s.len(),
    via lines_of_decreases
{
    if s.len() == 0 {
        Seq::empty()
    } else {
        match first_index_of(s, '\n') {
            None => seq![chomp_cr(s)],
            Some(i) => seq![chomp_cr(s.take(i))] + lines_of(s.skip(i + 1)),
        }
    }
}

#[via_fn]
proof fn lines_of_decreases(s: Seq<char>) {
    lemma_first_index_of(s, '\n');
}

/// Strips one trailing carriage return.
fn chomp_cr_str(s: &str) -> (r: &str)
    ensures
        r@ == chomp_cr(s@),
{
    let n = s.unicode_len();
    if n > 0 && s.get_char(n - 1) == '\r' {
        let r = s.substring_char(0, n - 1);
        assert(r@ =~= s@.drop_last());
        r
    } else {
        s
    }
}

/// Splits a response into its lines.
pub fn split_lines(s: &str) -> (r: Vec<String>)
    ensures
        r.deep_view() == lines_of(s@),
    decreases s@.len(),
{
    let n = s.unicode_len();
    if n == 0 {
        let v: Vec<String> = Vec::new();
        assert(v.deep_view() =~~= lines_of(s@));
        return v;
    }
    match find_char(s, '\n') {
        None => {
            let mut v: Vec<String> = Vec::new();
            v.push(String::from_str(chomp_cr_str(s)));
            assert(v.deep_view() =~~= lines_of(s@));
            v
        },
        Some(i) => {
            proof {
                lemma_first_index_of(s@, '\n');
            }
            let head = s.substring_char(0, i);
            assert(head@ =~= s@.take(i as int));
            let head = chomp_cr_str(head);
            let tail = s.substring_char(i + 1, n);
            assert(tail@ =~= s@.skip(i + 1));
            let mut v = split_lines(tail);
            v.insert(0, String::from_str(head));
            assert(v.deep_view() =~~= seq![chomp_cr(s@.take(i as int))] + lines_of(
                s@.skip(i + 1)));
            v
        },
    }
}

// ---------------------------------------------------------------------------
// Skipping blank and comment lines
// ---------------------------------------------------------------------------

/// A line the listings ignore: empty, or a `#` comment.
pub open spec fn skip_line(l: Seq<char>) -> bool {
    l.len() == 0 || l[0] == '#'
}

/// The lines that remain once blank and comment lines are dropped,
/// wherever they stand.
pub open spec fn kept_lines(ls: Seq<Seq<char>>) -> Seq<Seq<char>>
    decreases ls.len(),
{
    if ls.len() == 0 {
        Seq::empty()
    } else if skip_line(ls.first()) {
        kept_lines(ls.drop_first())
    } else {
        seq![ls.first()] + kept_lines(ls.drop_first())
    }
}

/// Drops blank lines and `#`-comment lines, keeping every other line in
/// order.
pub fn skip_comment_or_empty_lines(lines: &Vec<String>) -> (r: Vec<String>)
    ensures
        r.deep_view() == kept_lines(lines.deep_view()),
{
    let ghost lv = lines.deep_view();
    let mut out: Vec<String> = Vec::new();
    let mut k: usize = 0;
    assert(lv.skip(0) =~~= lv);
    assert(out.deep_view() + kept_lines(lv) =~~= kept_lines(lv));
    while k < lines.len()
        invariant
            0 <= k <= lines.len(),
            lv == lines.deep_view(),
            lv.len() == lines@.len(),
            kept_lines(lv) == out.deep_view() + kept_lines(lv.skip(k as int)),
        decreases lines.len() - k,
    {
        assert(lines@[k as int]@ == lv[k as int]);
        let ghost rest = lv.skip(k as int);
        assert(rest.first() == lv[k as int]);
        assert(rest.drop_first() =~= lv.skip(k as int + 1));
        let l = &lines[k];
        let n = l.as_str().unicode_len();
        let keep = n > 0 && l.as_str().get_char(0) != '#';
        if keep {
            out.push(l.clone());
            assert(out.deep_view() =~~= out.deep_view().take(out.deep_view().len() as int - 1)
                + seq![lv[k as int]]);
        }
        proof {
            if keep {
                assert(kept_lines(rest) == seq![rest.first()] + kept_lines(rest.drop_first()));
            } else {
                assert(skip_line(rest.first()));
            }
            assert(kept_lines(lv) =~~= out.deep_view() + kept_lines(lv.skip(k as int + 1)));
        }
        k = k + 1;
    }
    assert(lv.skip(k as int) =~= Seq::<Seq<char>>::empty());
    assert(kept_lines(lv) =~~= out.deep_view());
    out
}

/// The kept lines of a response: its lines, with blank and comment lines
/// dropped.
pub open spec fn data_lines(s: Seq<char>) -> Seq<Seq<char>> {
    kept_lines(lines_of(s))
}

// ---------------------------------------------------------------------------
// Single-line responses
// ---------------------------------------------------------------------------

/// A line with a trailing newline stripped.
pub open spec fn chomp_nl(l: Seq<char>) -> Seq<char> {
    if l.len() > 0 && l.last() == '\n' {
        l.drop_last()
    } else {
        l
    }
}

/// The error-count line is free text ending in a space and an unsigned
/// count: only the token after the last space is significant.
pub open spec fn errors_text_ok(s: Seq<char>) -> bool {
    let t = chomp_nl(s);
    match last_index_of(t, ' ') {
        Some(i) => dec_text_ok(t.skip(i + 1), u32::MAX as nat),
        None => false,
    }
}

/// The count the error line carries.
pub open spec fn errors_text_val(s: Seq<char>) -> nat {
    let t = chomp_nl(s);
    match last_index_of(t, ' ') {
        Some(i) => dec_text_val(t.skip(i + 1)),
        None => 0,
    }
}

/// Decodes the `show errors` response: one line whose last
/// space-separated token is the count. A line without a space, or whose
/// last token is not an unsigned 32-bit integer, is rejected.
pub fn parse_errors(s: &str) -> (r: Result<u32, Error>)
    ensures
        r is Ok <==> errors_text_ok(s@),
        r is Ok ==> r.unwrap() as nat == errors_text_val(s@),
        r is Err ==> r->Err_0 is ParseFailure,
{
    let n = s.unicode_len();
    let t = if n > 0 && s.get_char(n - 1) == '\n' {
        let t = s.substring_char(0, n - 1);
        assert(t@ =~= s@.drop_last());
        t
    } else {
        s
    };
    let m = t.unicode_len();
    let i = match find_last_char(t, ' ') {
        Some(i) => i,
        None => {
            return Err(Error::ParseFailure);
        },
    };
    proof {
        lemma_last_index_of(t@, ' ');
    }
    let tok = t.substring_char(i + 1, m);
    assert(tok@ =~= t@.skip(i + 1));
    match parse_dec(tok, u32::MAX) {
        Some(v) => Ok(v),
        None => Err(Error::ParseFailure),
    }
}

/// Decodes the `add acl` response: a bare newline is success, the two
/// fixed error prefixes name their failures, anything else is malformed.
pub fn parse_acl_add(s: &str) -> (r: Result<(), Error>)
    ensures
        r is Ok <==> s@ == "\n"@,
        (r matches Err(e) && e is MissingParameters) <==> (s@ != "\n"@ && starts_with(
            s@,
            "'add acl' expects two parameters"@,
        )),
        (r matches Err(e) && e is UnknownId) <==> (s@ != "\n"@ && !starts_with(
            s@,
            "'add acl' expects two parameters"@,
        ) && starts_with(s@, "Unknown ACL identifier"@)),
        (r matches Err(e) && e is ParseFailure) <==> (s@ != "\n"@ && !starts_with(
            s@,
            "'add acl' expects two parameters"@,
        ) && !starts_with(s@, "Unknown ACL identifier"@)),
{
    if str_eq(s, "\n") {
        Ok(())
    } else if str_starts_with(s, "'add acl' expects two parameters") {
        Err(Error::MissingParameters)
    } else if str_starts_with(s, "Unknown ACL identifier") {
        Err(Error::UnknownId)
    } else {
        Err(Error::ParseFailure)
    }
}

// ---------------------------------------------------------------------------
// Multi-line responses
// ---------------------------------------------------------------------------

/// Decodes the `show acl` response: every kept line is a record, in
/// order; the first malformed record fails the whole listing.
pub fn parse_acl_list(s: &str) -> (r: Result<Vec<Acl>, Error>)
    ensures
        r is Ok <==> (forall|k: int|
            0 <= k < data_lines(s@).len() ==> acl_text_ok(#[trigger] data_lines(s@)[k])),
        r matches Ok(v) ==> v@.len() == data_lines(s@).len() && (forall|k: int|
            0 <= k < v@.len() ==> acl_matches(data_lines(s@)[k], #[trigger] v@[k])),
        r is Err ==> r->Err_0 is ParseFailure,
{
    let lines = split_lines(s);
    let kept = skip_comment_or_empty_lines(&lines);
    let ghost ls = data_lines(s@);
    assert(kept.deep_view() == ls);
    let mut out: Vec<Acl> = Vec::new();
    let mut k: usize = 0;
    while k < kept.len()
        invariant
            0 <= k <= kept.len(),
            kept.deep_view() == ls,
            ls == data_lines(s@),
            ls.len() == kept@.len(),
            out@.len() == k,
            forall|q: int|
                0 <= q < k ==> acl_text_ok(#[trigger] ls[q]) && acl_matches(ls[q], out@[q]),
        decreases kept.len() - k,
    {
        assert(kept@[k as int]@ == ls[k as int]);
        match Acl::parse(kept[k].as_str()) {
            Ok(a) => out.push(a),
            Err(_) => {
                return Err(Error::ParseFailure);
            },
        }
        k = k + 1;
    }
    Ok(out)
}

/// Decodes the `show acl #<id>` response. A first kept line reporting an
/// unknown identifier short-circuits; otherwise every kept line is an
/// entry, decoded with the caller's value parser.
pub fn parse_acl_entries<V: ParseValue>(s: &str) -> (r: Result<Vec<AclEntry<V>>, Error>)
    ensures
        (r matches Err(e) && e is UnknownId) <==> (data_lines(s@).len() > 0 && starts_with(
            data_lines(s@)[0],
            "Unknown ACL identifier"@,
        )),
        r is Ok <==> (!(data_lines(s@).len() > 0 && starts_with(
            data_lines(s@)[0],
            "Unknown ACL identifier"@,
        )) && (forall|k: int|
            0 <= k < data_lines(s@).len() ==> entry_text_ok::<V>(#[trigger] data_lines(s@)[k]))),
        r matches Ok(v) ==> v@.len() == data_lines(s@).len() && (forall|k: int|
            0 <= k < v@.len() ==> entry_matches::<V>(data_lines(s@)[k], #[trigger] v@[k])),
        (r matches Err(e) && !(e is UnknownId)) ==> r->Err_0 is ParseFailure,
{
    let lines = split_lines(s);
    let kept = skip_comment_or_empty_lines(&lines);
    let ghost ls = data_lines(s@);
    assert(kept.deep_view() == ls);
    if kept.len() > 0 {
        assert(kept@[0]@ == ls[0]);
        if str_starts_with(kept[0].as_str(), "Unknown ACL identifier") {
            return Err(Error::UnknownId);
        }
    }
    let mut out: Vec<AclEntry<V>> = Vec::new();
    let mut k: usize = 0;
    while k < kept.len()
        invariant
            0 <= k <= kept.len(),
            kept.deep_view() == ls,
            ls == data_lines(s@),
            ls.len() == kept@.len(),
            !(ls.len() > 0 && starts_with(ls[0], "Unknown ACL identifier"@)),
            out@.len() == k,
            forall|q: int|
                0 <= q < k ==> entry_text_ok::<V>(#[trigger] ls[q]) && entry_matches::<V>(
                    ls[q],
                    out@[q],
                ),
        decreases kept.len() - k,
    {
        assert(kept@[k as int]@ == ls[k as int]);
        match AclEntry::<V>::parse(kept[k].as_str()) {
            Ok(e) => out.push(e),
            Err(_) => {
                return Err(Error::ParseFailure);
            },
        }
        k = k + 1;
    }
    Ok(out)
}

/// Decodes the `show cli sockets` response: every kept line is a socket
/// listing, in order.
pub fn parse_cli_sockets(s: &str) -> (r: Result<Vec<CliSocket>, Error>)
    ensures
        r is Ok <==> (forall|k: int|
            0 <= k < data_lines(s@).len() ==> cli_socket_text_ok(#[trigger] data_lines(s@)[k])),
        r matches Ok(v) ==> v@.len() == data_lines(s@).len() && (forall|k: int|
            0 <= k < v@.len() ==> cli_socket_matches(data_lines(s@)[k], #[trigger] v@[k])),
        r is Err ==> r->Err_0 is ParseFailure,
{
    let lines = split_lines(s);
    let kept = skip_comment_or_empty_lines(&lines);
    let ghost ls = data_lines(s@);
    assert(kept.deep_view() == ls);
    let mut out: Vec<CliSocket> = Vec::new();
    let mut k: usize = 0;
    while k < kept.len()
        invariant
            0 <= k <= kept.len(),
            kept.deep_view() == ls,
            ls == data_lines(s@),
            ls.len() == kept@.len(),
            out@.len() == k,
            forall|q: int|
                0 <= q < k ==> cli_socket_text_ok(#[trigger] ls[q]) && cli_socket_matches(
                    ls[q],
                    out@[q],
                ),
        decreases kept.len() - k,
    {
        assert(kept@[k as int]@ == ls[k as int]);
        match CliSocket::parse(kept[k].as_str()) {
            Ok(c) => out.push(c),
            Err(_) => {
                return Err(Error::ParseFailure);
            },
        }
        k = k + 1;
    }
    Ok(out)
}

} // verus!
