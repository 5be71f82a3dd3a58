//! Character-level building blocks shared by the encoders and decoders:
//! decimal and hexadecimal numerals with their mathematical models, and
//! searching for a character in a string.

use vstd::prelude::*;

verus! {

// ---------------------------------------------------------------------------
// Decimal digits
// ---------------------------------------------------------------------------

/// `c` is a decimal digit.
pub open spec fn is_digit(c: char) -> bool {
    '0' <= c && c <= '9'
}

/// The numeric value of a decimal digit.
pub open spec fn digit_val(c: char) -> nat {
    (c as nat - '0' as nat) as nat
}

/// Every character of `s` is a decimal digit.
pub open spec fn all_digits(s: Seq<char>) -> bool {
    forall|i: int| 0 <= i < s.len() ==> is_digit(#[trigger] s[i])
}

/// The value of `s` read as a decimal numeral (0 for the empty sequence).
pub open spec fn dec_val(s: Seq<char>) -> nat
    decreases s.len(),
{
    if s.len() == 0 {
        0
    } else {
        dec_val(s.drop_last()) * 10 + digit_val(s.last())
    }
}

/// Reading one more digit never decreases the value of a numeral.
proof fn lemma_dec_val_take_step(s: Seq<char>, i: int)
    requires
        0 <= i < s.len(),
    ensures
        dec_val(s.take(i)) <= dec_val(s.take(i + 1)),
        dec_val(s.take(i + 1)) == dec_val(s.take(i)) * 10 + digit_val(s[i]),
{
    assert(s.take(i + 1).drop_last() =~= s.take(i));
    assert(s.take(i + 1).last() == s[i]);
}

/// The value of a prefix of a numeral is at most the value of the whole.
proof fn lemma_dec_val_take_le(s: Seq<char>, i: int)
    requires
        0 <= i <= s.len(),
    ensures
        dec_val(s.take(i)) <= dec_val(s),
    decreases s.len() - i,
{
    if i == s.len() {
        assert(s.take(i) =~= s);
    } else {
        lemma_dec_val_take_step(s, i);
        lemma_dec_val_take_le(s, i + 1);
    }
}

/// The digits of an unsigned numeral, after an optional leading plus sign.
pub open spec fn unsigned_digits(s: Seq<char>) -> Seq<char> {
    if s.len() > 0 && s[0] == '+' {
        s.skip(1)
    } else {
        s
    }
}

/// `s` is a well-formed unsigned decimal numeral whose value is at most `cap`:
/// an optional `+`, then at least one digit.
pub open spec fn dec_text_ok(s: Seq<char>, cap: nat) -> bool {
    let d = unsigned_digits(s);
    d.len() > 0 && all_digits(d) && dec_val(d) <= cap
}

/// The value of an unsigned decimal numeral.
pub open spec fn dec_text_val(s: Seq<char>) -> nat {
    dec_val(unsigned_digits(s))
}

/// Decodes the suffix of `s` that starts at `from` as a run of decimal
/// digits of value at most `cap`, exactly when it is one.
fn parse_digits(s: &str, from: usize, cap: u32) -> (r: Option<u32>)
    requires
        from <= s@.len(),
    ensures
        r is Some <==> {
            let d = s@.skip(from as int);
            d.len() > 0 && all_digits(d) && dec_val(d) <= cap
        },
        r is Some ==> r.unwrap() == dec_val(s@.skip(from as int)),
{
    let n = s.unicode_len();
    let ghost d = s@.skip(from as int);
    if from >= n {
        return None;
    }
    let mut acc: u64 = 0;
    let mut i: usize = from;
    while i < n
        invariant
            from <= i <= n,
            n == s@.len(),
            d == s@.skip(from as int),
            all_digits(d.take(i - from)),
            acc == dec_val(d.take(i - from)),
            acc <= cap,
        decreases n - i,
    {
        let c = s.get_char(i);
        if !(c >= '0' && c <= '9') {
            assert(d[i - from] == s@[i as int]);
            assert(!is_digit(d[i - from]));
            return None;
        }
        let v: u64 = (c as u32 - '0' as u32) as u64;
        proof {
            lemma_dec_val_take_step(d, i - from);
            assert(d[i - from] == s@[i as int]);
            assert(digit_val(d[i - from]) == v);
        }
        acc = acc * 10 + v;
        i = i + 1;
        if acc > cap as u64 {
            proof {
                lemma_dec_val_take_le(d, i - from);
            }
            return None;
        }
    }
    assert(d.take(i - from) =~= d);
    Some(acc as u32)
}

/// Decodes `s` as an unsigned decimal numeral of value at most `cap`,
/// exactly when it is one.
pub fn parse_dec(s: &str, cap: u32) -> (r: Option<u32>)
    ensures
        r is Some <==> dec_text_ok(s@, cap as nat),
        r is Some ==> r.unwrap() == dec_text_val(s@),
{
    let n = s.unicode_len();
    let mut start: usize = 0;
    if n > 0 && s.get_char(0) == '+' {
        start = 1;
    }
    let r = parse_digits(s, start, cap);
    assert(unsigned_digits(s@) =~= s@.skip(start as int));
    r
}

// ---------------------------------------------------------------------------
// Rendering decimal numerals
// ---------------------------------------------------------------------------

/// The digit character for a value below ten.
pub open spec fn digit_char(n: nat) -> char {
    (('0' as u8) + n) as char
}

/// The canonical decimal numeral for `n`: no sign, no leading zero except
/// for `n == 0` itself.
pub open spec fn dec_rep(n: nat) -> Seq<char>
    decreases n,
{
    if n < 10 {
        seq![digit_char(n)]
    } else {
        dec_rep(n / 10).push(digit_char(n % 10))
    }
}

/// The canonical decimal numeral for `i`, with a minus sign when negative.
pub open spec fn int_rep(i: int) -> Seq<char> {
    if i < 0 {
        seq!['-'] + dec_rep((-i) as nat)
    } else {
        dec_rep(i as nat)
    }
}

/// The canonical numeral consists of digits and is never empty.
pub proof fn lemma_dec_rep_digits(n: nat)
    ensures
        dec_rep(n).len() >= 1,
        all_digits(dec_rep(n)),
    decreases n,
{
    if n < 10 {
        assert(is_digit(digit_char(n)));
    } else {
        lemma_dec_rep_digits(n / 10);
        assert(is_digit(digit_char(n % 10)));
        assert(forall|i: int| 0 <= i < dec_rep(n).len() ==> is_digit(#[trigger] dec_rep(n)[i]));
    }
}

/// Reading the canonical numeral back gives the value it was made from.
pub proof fn lemma_dec_rep_val(n: nat)
    ensures
        dec_val(dec_rep(n)) == n,
    decreases n,
{
    if n < 10 {
        let s = dec_rep(n);
        assert(s =~= seq![digit_char(n)]);
        assert(s.drop_last() =~= Seq::<char>::empty());
        assert(dec_val(s.drop_last()) == 0);
        assert(dec_val(s) == dec_val(s.drop_last()) * 10 + digit_val(s.last()));
        assert(digit_val(digit_char(n)) == n);
    } else {
        lemma_dec_rep_val(n / 10);
        let s = dec_rep(n);
        assert(s == dec_rep(n / 10).push(digit_char(n % 10)));
        assert(s.drop_last() =~= dec_rep(n / 10));
        assert(s.last() == digit_char(n % 10));
        assert(digit_val(digit_char(n % 10)) == n % 10);
        assert(dec_val(s) == dec_val(s.drop_last()) * 10 + digit_val(s.last()));
        assert(dec_val(s) == (n / 10) * 10 + n % 10);
    }
}

/// Rebuilds the decimal digits of `n`.
pub fn render_u32(n: u32) -> (s: String)
    ensures
        s@ == dec_rep(n as nat),
    decreases n,
{
    let d: u32 = n % 10;
    let c = digit_str(d);
    if n < 10 {
        let s = String::from_str(c);
        assert(s@ =~= dec_rep(n as nat));
        s
    } else {
        let mut s = render_u32(n / 10);
        s.append(c);
        assert(s@ =~= dec_rep(n as nat));
        s
    }
}

/// The one-character string for a digit value.
fn digit_str(d: u32) -> (r: &'static str)
    requires
        d < 10,
    ensures
        r@ =~= seq![digit_char(d as nat)],
{
    if d == 0 {
        let r = "0";
        proof { reveal_strlit("0"); }
        r
    } else if d == 1 {
        let r = "1";
        proof { reveal_strlit("1"); }
        r
    } else if d == 2 {
        let r = "2";
        proof { reveal_strlit("2"); }
        r
    } else if d == 3 {
        let r = "3";
        proof { reveal_strlit("3"); }
        r
    } else if d == 4 {
        let r = "4";
        proof { reveal_strlit("4"); }
        r
    } else if d == 5 {
        let r = "5";
        proof { reveal_strlit("5"); }
        r
    } else if d == 6 {
        let r = "6";
        proof { reveal_strlit("6"); }
        r
    } else if d == 7 {
        let r = "7";
        proof { reveal_strlit("7"); }
        r
    } else if d == 8 {
        let r = "8";
        proof { reveal_strlit("8"); }
        r
    } else {
        let r = "9";
        proof { reveal_strlit("9"); }
        r
    }
}

/// Rebuilds the decimal digits of `i`, with a minus sign when negative.
pub fn render_i32(i: i32) -> (s: String)
    ensures
        s@ == int_rep(i as int),
{
    if i >= 0 {
        render_u32(i as u32)
    } else {
        let m: u32 = (-(i as i64)) as u32;
        let mut s = String::from_str("-");
        proof { reveal_strlit("-"); }
        let tail = render_u32(m);
        s.append(tail.as_str());
        assert(s@ =~= int_rep(i as int));
        s
    }
}

// ---------------------------------------------------------------------------
// Signed decimal numerals
// ---------------------------------------------------------------------------

/// The digits of a signed numeral, after an optional sign.
pub open spec fn signed_digits(s: Seq<char>) -> Seq<char> {
    if s.len() > 0 && (s[0] == '+' || s[0] == '-') {
        s.skip(1)
    } else {
        s
    }
}

/// The numeral `s` carries a minus sign.
pub open spec fn signed_neg(s: Seq<char>) -> bool {
    s.len() > 0 && s[0] == '-'
}

/// `s` is a well-formed signed decimal numeral whose value fits an `i32`:
/// an optional sign, then at least one digit.
pub open spec fn i32_text_ok(s: Seq<char>) -> bool {
    let d = signed_digits(s);
    d.len() > 0 && all_digits(d) && (if signed_neg(s) {
        dec_val(d) <= 0x8000_0000
    } else {
        dec_val(d) <= 0x7fff_ffff
    })
}

/// The value of a signed decimal numeral.
pub open spec fn i32_text_val(s: Seq<char>) -> int {
    if signed_neg(s) {
        -(dec_val(signed_digits(s)) as int)
    } else {
        dec_val(signed_digits(s)) as int
    }
}

/// Decodes `s` as a signed decimal numeral, exactly when it is one that
/// fits an `i32`.
pub fn parse_i32(s: &str) -> (r: Option<i32>)
    ensures
        r is Some <==> i32_text_ok(s@),
        r is Some ==> r.unwrap() as int == i32_text_val(s@),
{
    let n = s.unicode_len();
    let mut start: usize = 0;
    let mut neg = false;
    if n > 0 {
        let c = s.get_char(0);
        if c == '+' {
            start = 1;
        } else if c == '-' {
            start = 1;
            neg = true;
        }
    }
    assert(signed_digits(s@) =~= s@.skip(start as int));
    assert(neg == signed_neg(s@));
    if neg {
        match parse_digits(s, start, 0x8000_0000) {
            Some(v) => Some((-(v as i64)) as i32),
            None => None,
        }
    } else {
        match parse_digits(s, start, 0x7fff_ffff) {
            Some(v) => Some(v as i32),
            None => None,
        }
    }
}

// ---------------------------------------------------------------------------
// Hexadecimal numerals
// ---------------------------------------------------------------------------

/// `c` is a hexadecimal digit, in either case.
pub open spec fn is_hex_digit(c: char) -> bool {
    is_digit(c) || ('a' <= c && c <= 'f') || ('A' <= c && c <= 'F')
}

/// The numeric value of a hexadecimal digit.
pub open spec fn hex_digit_val(c: char) -> nat {
    if is_digit(c) {
        digit_val(c)
    } else if 'a' <= c && c <= 'f' {
        (c as nat - 'a' as nat + 10) as nat
    } else {
        (c as nat - 'A' as nat + 10) as nat
    }
}

/// Every character of `s` is a hexadecimal digit.
pub open spec fn all_hex_digits(s: Seq<char>) -> bool {
    forall|i: int| 0 <= i < s.len() ==> is_hex_digit(#[trigger] s[i])
}

/// The value of `s` read as a hexadecimal numeral (0 for the empty sequence).
pub open spec fn hex_val(s: Seq<char>) -> nat
    decreases s.len(),
{
    if s.len() == 0 {
        0
    } else {
        hex_val(s.drop_last()) * 16 + hex_digit_val(s.last())
    }
}

proof fn lemma_hex_val_take_step(s: Seq<char>, i: int)
    requires
        0 <= i < s.len(),
    ensures
        hex_val(s.take(i)) <= hex_val(s.take(i + 1)),
        hex_val(s.take(i + 1)) == hex_val(s.take(i)) * 16 + hex_digit_val(s[i]),
{
    assert(s.take(i + 1).drop_last() =~= s.take(i));
    assert(s.take(i + 1).last() == s[i]);
}

proof fn lemma_hex_val_take_le(s: Seq<char>, i: int)
    requires
        0 <= i <= s.len(),
    ensures
        hex_val(s.take(i)) <= hex_val(s),
    decreases s.len() - i,
{
    if i == s.len() {
        assert(s.take(i) =~= s);
    } else {
        lemma_hex_val_take_step(s, i);
        lemma_hex_val_take_le(s, i + 1);
    }
}

/// `s` is a well-formed hexadecimal numeral that fits a `u64`: an optional
/// `+`, then at least one hexadecimal digit.
pub open spec fn hex_text_ok(s: Seq<char>) -> bool {
    let d = unsigned_digits(s);
    d.len() > 0 && all_hex_digits(d) && hex_val(d) <= u64::MAX
}

/// The value of a hexadecimal numeral.
pub open spec fn hex_text_val(s: Seq<char>) -> nat {
    hex_val(unsigned_digits(s))
}

/// Decodes `s` as a hexadecimal numeral, exactly when it is one that fits
/// a `u64`.
pub fn parse_hex_u64(s: &str) -> (r: Option<u64>)
    ensures
        r is Some <==> hex_text_ok(s@),
        r is Some ==> r.unwrap() as nat == hex_text_val(s@),
{
    let n = s.unicode_len();
    let mut start: usize = 0;
    if n > 0 && s.get_char(0) == '+' {
        start = 1;
    }
    let ghost d = unsigned_digits(s@);
    assert(d =~= s@.skip(start as int));
    if start >= n {
        return None;
    }
    let mut acc: u64 = 0;
    let mut i: usize = start;
    while i < n
        invariant
            start <= i <= n,
            n == s@.len(),
            d == s@.skip(start as int),
            d == unsigned_digits(s@),
            all_hex_digits(d.take(i - start)),
            acc == hex_val(d.take(i - start)),
        decreases n - i,
    {
        let c = s.get_char(i);
        let v: u64 = if c >= '0' && c <= '9' {
            (c as u32 - '0' as u32) as u64
        } else if c >= 'a' && c <= 'f' {
            (c as u32 - 'a' as u32 + 10) as u64
        } else if c >= 'A' && c <= 'F' {
            (c as u32 - 'A' as u32 + 10) as u64
        } else {
            assert(d[i - start] == s@[i as int]);
            assert(!is_hex_digit(d[i - start]));
            return None;
        };
        proof {
            lemma_hex_val_take_step(d, i - start);
            assert(d[i - start] == s@[i as int]);
            assert(hex_digit_val(d[i - start]) == v);
        }
        if acc > (u64::MAX - v) / 16 {
            proof {
                let q = ((u64::MAX - v) / 16) as int;
                assert(16 * q <= u64::MAX - v < 16 * (q + 1)) by (nonlinear_arith)
                    requires q == ((u64::MAX - v) / 16) as int && v <= u64::MAX,
                ;
                assert(acc * 16 >= (q + 1) * 16) by (nonlinear_arith)
                    requires acc >= q + 1,
                ;
                assert(hex_val(d.take(i - start + 1)) > u64::MAX);
                lemma_hex_val_take_le(d, i - start + 1);
            }
            return None;
        }
        proof {
            let q = ((u64::MAX - v) / 16) as int;
            assert(16 * q <= u64::MAX - v) by (nonlinear_arith)
                requires q == ((u64::MAX - v) / 16) as int && v <= u64::MAX,
            ;
            assert(acc * 16 <= 16 * q) by (nonlinear_arith)
                requires 0 <= acc <= q,
            ;
        }
        acc = acc * 16 + v;
        i = i + 1;
    }
    assert(d.take(i - start) =~= d);
    Some(acc)
}

// ---------------------------------------------------------------------------
// Searching and comparing
// ---------------------------------------------------------------------------

/// The index of the first occurrence of `d` in `s`, if any.
pub open spec fn first_index_of(s: Seq<char>, d: char) -> Option<int>
    decreases s.len(),
{
    if s.len() == 0 {
        None
    } else if s[0] == d {
        Some(0)
    } else {
        match first_index_of(s.skip(1), d) {
            None => None,
            Some(i) => Some(i + 1),
        }
    }
}

/// What `first_index_of` finds is the first occurrence.
pub proof fn lemma_first_index_of(s: Seq<char>, d: char)
    ensures
        match first_index_of(s, d) {
            Some(i) => 0 <= i < s.len() && s[i] == d && (forall|j: int|
                0 <= j < i ==> s[j] != d),
            None => forall|j: int| 0 <= j < s.len() ==> s[j] != d,
        },
    decreases s.len(),
{
    if s.len() > 0 && s[0] != d {
        lemma_first_index_of(s.skip(1), d);
        assert(forall|j: int| 1 <= j < s.len() ==> s[j] == s.skip(1)[j - 1]);
    }
}

/// The first occurrence determines `first_index_of`.
pub proof fn lemma_first_index_of_is(s: Seq<char>, d: char, i: int)
    requires
        0 <= i < s.len(),
        s[i] == d,
        forall|j: int| 0 <= j < i ==> s[j] != d,
    ensures
        first_index_of(s, d) == Some(i),
{
    lemma_first_index_of(s, d);
    match first_index_of(s, d) {
        Some(k) => {
            if k < i {
                assert(s[k] != d);
            }
            if k > i {
                assert(s[i] != d);
            }
        },
        None => {
            assert(s[i] != d);
        },
    }
}

/// Finds the first occurrence of `d` in `s`.
pub fn find_char(s: &str, d: char) -> (r: Option<usize>)
    ensures
        match r {
            Some(i) => first_index_of(s@, d) == Some(i as int),
            None => first_index_of(s@, d) is None,
        },
{
    let n = s.unicode_len();
    let mut i: usize = 0;
    while i < n
        invariant
            0 <= i <= n,
            n == s@.len(),
            forall|j: int| 0 <= j < i ==> s@[j] != d,
        decreases n - i,
    {
        if s.get_char(i) == d {
            proof {
                lemma_first_index_of_is(s@, d, i as int);
            }
            return Some(i);
        }
        i = i + 1;
    }
    proof {
        lemma_first_index_of(s@, d);
        if first_index_of(s@, d) is Some {
            let k = first_index_of(s@, d).unwrap();
            assert(s@[k] != d);
        }
    }
    None
}

/// The index of the last occurrence of `d` in `s`, if any.
pub open spec fn last_index_of(s: Seq<char>, d: char) -> Option<int>
    decreases s.len(),
{
    if s.len() == 0 {
        None
    } else if s.last() == d {
        Some(s.len() - 1)
    } else {
        last_index_of(s.drop_last(), d)
    }
}

/// What `last_index_of` finds is the last occurrence.
pub proof fn lemma_last_index_of(s: Seq<char>, d: char)
    ensures
        match last_index_of(s, d) {
            Some(i) => 0 <= i < s.len() && s[i] == d && (forall|j: int|
                i < j < s.len() ==> s[j] != d),
            None => forall|j: int| 0 <= j < s.len() ==> s[j] != d,
        },
    decreases s.len(),
{
    if s.len() > 0 && s.last() != d {
        lemma_last_index_of(s.drop_last(), d);
        assert(forall|j: int| 0 <= j < s.len() - 1 ==> s[j] == s.drop_last()[j]);
    }
}

/// The last occurrence determines `last_index_of`.
pub proof fn lemma_last_index_of_is(s: Seq<char>, d: char, i: int)
    requires
        0 <= i < s.len(),
        s[i] == d,
        forall|j: int| i < j < s.len() ==> s[j] != d,
    ensures
        last_index_of(s, d) == Some(i),
{
    lemma_last_index_of(s, d);
    match last_index_of(s, d) {
        Some(k) => {
            if k < i {
                assert(s[i] != d);
            }
            if k > i {
                assert(s[k] != d);
            }
        },
        None => {
            assert(s[i] != d);
        },
    }
}

/// Finds the last occurrence of `d` in `s`.
pub fn find_last_char(s: &str, d: char) -> (r: Option<usize>)
    ensures
        match r {
            Some(i) => last_index_of(s@, d) == Some(i as int),
            None => last_index_of(s@, d) is None,
        },
{
    let n = s.unicode_len();
    let mut i: usize = n;
    while i > 0
        invariant
            0 <= i <= n,
            n == s@.len(),
            forall|j: int| i <= j < n ==> s@[j] != d,
        decreases i,
    {
        i = i - 1;
        if s.get_char(i) == d {
            proof {
                lemma_last_index_of_is(s@, d, i as int);
            }
            return Some(i);
        }
    }
    proof {
        lemma_last_index_of(s@, d);
        if last_index_of(s@, d) is Some {
            let k = last_index_of(s@, d).unwrap();
            assert(s@[k] != d);
        }
    }
    None
}

// ---------------------------------------------------------------------------
// Splitting on a separator
// ---------------------------------------------------------------------------

/// `s` split at every occurrence of `d`. There is always at least one
/// part; a separator at either end contributes an empty part.
pub open spec fn split_all(s: Seq<char>, d: char) -> Seq<Seq<char>>
    decreases s.len(),
    via split_all_decreases
{
    match first_index_of(s, d) {
        None => seq![s],
        Some(i) => seq![s.take(i)] + split_all(s.skip(i + 1), d),
    }
}

#[via_fn]
proof fn split_all_decreases(s: Seq<char>, d: char) {
    lemma_first_index_of(s, d);
}

/// A sequence without the separator is a single part.
pub proof fn lemma_split_all_whole(s: Seq<char>, d: char)
    requires
        !s.contains(d),
    ensures
        split_all(s, d) == seq![s],
{
    lemma_first_index_of(s, d);
    if first_index_of(s, d) is Some {
        let i = first_index_of(s, d).unwrap();
        assert(s[i] == d);
    }
}

/// Splitting after a separator-free prefix peels that prefix off.
pub proof fn lemma_split_all_append(a: Seq<char>, d: char, b: Seq<char>)
    requires
        !a.contains(d),
    ensures
        split_all(a + seq![d] + b, d) == seq![a] + split_all(b, d),
{
    let s = a + seq![d] + b;
    assert(s[a.len() as int] == d);
    assert forall|j: int| 0 <= j < a.len() implies s[j] != d by {
        assert(s[j] == a[j]);
        assert(!a.contains(d));
    }
    lemma_first_index_of_is(s, d, a.len() as int);
    assert(s.take(a.len() as int) =~= a);
    assert(s.skip(a.len() as int + 1) =~= b);
}

/// The text before the first space of `s`, or all of `s` when it has
/// none: the part of a value that an `add acl` command can carry.
pub fn first_field(s: &str) -> (r: &str)
    ensures
        r@ == match first_index_of(s@, ' ') {
            None => s@,
            Some(i) => s@.take(i),
        },
        !r@.contains(' '),
{
    proof {
        lemma_first_index_of(s@, ' ');
    }
    let r = match find_char(s, ' ') {
        None => s,
        Some(i) => s.substring_char(0, i),
    };
    assert(r@ =~= match first_index_of(s@, ' ') {
        None => s@,
        Some(i) => s@.take(i),
    });
    proof {
        if r@.contains(' ') {
            let j = choose|j: int| 0 <= j < r@.len() && r@[j] == ' ';
            match first_index_of(s@, ' ') {
                None => {
                    assert(s@[j] != ' ');
                },
                Some(i) => {
                    assert(s@[j] != ' ');
                },
            }
        }
    }
    r
}

/// Splits `s` at every occurrence of `d`.
pub fn split_str(s: &str, d: char) -> (r: Vec<String>)
    ensures
        r.deep_view() == split_all(s@, d),
    decreases s@.len(),
{
    match find_char(s, d) {
        None => {
            let mut v: Vec<String> = Vec::new();
            v.push(String::from_str(s));
            assert(v.deep_view() =~~= seq![s@]);
            v
        },
        Some(i) => {
            proof {
                lemma_first_index_of(s@, d);
            }
            let n = s.unicode_len();
            let head = s.substring_char(0, i);
            let tail = s.substring_char(i + 1, n);
            assert(tail@ =~= s@.skip(i + 1));
            let mut v = split_str(tail, d);
            v.insert(0, String::from_str(head));
            assert(v.deep_view() =~~= seq![s@.take(i as int)] + split_all(s@.skip(i + 1), d));
            v
        },
    }
}

// ---------------------------------------------------------------------------
// Numeral round trips
// ---------------------------------------------------------------------------

/// The canonical signed numeral of an `i32` reads back as the value it was
/// made from.
pub proof fn lemma_i32_rep_round_trip(n: i32)
    ensures
        i32_text_ok(int_rep(n as int)),
        i32_text_val(int_rep(n as int)) == n as int,
{
    let s = int_rep(n as int);
    if n < 0 {
        let m = (-(n as int)) as nat;
        lemma_dec_rep_digits(m);
        lemma_dec_rep_val(m);
        assert(s == seq!['-'] + dec_rep(m));
        assert(s[0] == '-');
        assert(s.skip(1) =~= dec_rep(m));
        assert(signed_neg(s));
        assert(signed_digits(s) == dec_rep(m));
    } else {
        let m = n as nat;
        lemma_dec_rep_digits(m);
        lemma_dec_rep_val(m);
        assert(s == dec_rep(m));
        assert(is_digit(s[0]));
        assert(s[0] != '+' && s[0] != '-');
        assert(signed_digits(s) == s);
        assert(!signed_neg(s));
    }
}

/// Digits are not separators: the canonical numeral never contains a
/// space, so tokenizing cannot cut through it.
pub proof fn lemma_int_rep_no_space(i: int)
    ensures
        !int_rep(i).contains(' '),
{
    let s = int_rep(i);
    if i < 0 {
        lemma_dec_rep_digits((-i) as nat);
        assert forall|j: int| 0 <= j < s.len() implies s[j] != ' ' by {
            if j == 0 {
                assert(s[j] == '-');
            } else {
                assert(s[j] == dec_rep((-i) as nat)[j - 1]);
                assert(is_digit(s[j]));
            }
        }
    } else {
        lemma_dec_rep_digits(i as nat);
        assert forall|j: int| 0 <= j < s.len() implies s[j] != ' ' by {
            assert(is_digit(s[j]));
        }
    }
    if s.contains(' ') {
        let j = choose|j: int| 0 <= j < s.len() && s[j] == ' ';
    }
}

/// Compares two strings character by character.
pub fn str_eq(a: &str, b: &str) -> (r: bool)
    ensures
        r == (a@ == b@),
{
    let n = a.unicode_len();
    if n != b.unicode_len() {
        return false;
    }
    let mut i: usize = 0;
    while i < n
        invariant
            0 <= i <= n,
            n == a@.len() == b@.len(),
            forall|j: int| 0 <= j < i ==> a@[j] == b@[j],
        decreases n - i,
    {
        if a.get_char(i) != b.get_char(i) {
            return false;
        }
        i = i + 1;
    }
    assert(a@ =~= b@);
    true
}

/// `p` is a prefix of `s`.
pub open spec fn starts_with(s: Seq<char>, p: Seq<char>) -> bool {
    s.len() >= p.len() && s.take(p.len() as int) == p
}

/// Decides whether `p` is a prefix of `s`.
pub fn str_starts_with(s: &str, p: &str) -> (r: bool)
    ensures
        r == starts_with(s@, p@),
{
    let n = s.unicode_len();
    let m = p.unicode_len();
    if m > n {
        assert(!starts_with(s@, p@));
        return false;
    }
    let mut i: usize = 0;
    while i < m
        invariant
            0 <= i <= m <= n,
            n == s@.len(),
            m == p@.len(),
            forall|j: int| 0 <= j < i ==> s@[j] == p@[j],
        decreases m - i,
    {
        if s.get_char(i) != p.get_char(i) {
            assert(s@.take(m as int)[i as int] != p@[i as int]);
            return false;
        }
        i = i + 1;
    }
    assert(s@.take(m as int) =~= p@);
    true
}

} // verus!
