//! The shared framing codec.
//!
//! One frame is one record serialized as a JSON object
//! `{"index":<uint>,"timestamp":<int>,"message":"<text>"}`. Frames are written
//! back-to-back with no separator; the balanced-brace structure of the
//! encoding itself delimits them. The grammar accepted here is fixed-key-order
//! JSON with optional whitespace between tokens; string values use the JSON
//! escapes `\" \\ \/ \n \r \t \b \f` (no `\u` form: the text is carried as
//! UTF-8 directly).

use vstd::prelude::*;
use vstd::utf8::encode_utf8;
use vstd::string::StrSliceExecFns;
use crate::record::{Record, RecordModel};

verus! {

// ---------------------------------------------------------------------------
// Spec: characters
// ---------------------------------------------------------------------------

pub open spec fn is_ws(c: char) -> bool {
    c == ' ' || c == '\t' || c == '\n' || c == '\r'
}

pub open spec fn is_digit(c: char) -> bool {
    '0' <= c && c <= '9'
}

pub open spec fn digit_char(d: nat) -> char {
    ((48 + d) as u8) as char
}

pub open spec fn digit_val(c: char) -> nat {
    (c as u32 - 48) as nat
}

// ---------------------------------------------------------------------------
// Spec: encoding one record
// ---------------------------------------------------------------------------

/// The decimal digits of `n`, most significant first.
pub open spec fn dec_chars(n: nat) -> Seq<char>
    decreases n,
{
    if n < 10 {
        seq![digit_char(n)]
    } else {
        dec_chars(n / 10).push(digit_char(n % 10))
    }
}

/// A signed decimal number: a minus sign for negative values, then digits.
pub open spec fn int_chars(v: int) -> Seq<char> {
    if v < 0 {
        seq!['-'] + dec_chars((-v) as nat)
    } else {
        dec_chars(v as nat)
    }
}

/// How one message character appears inside a JSON string value.
pub open spec fn escape_char(c: char) -> Seq<char> {
    if c == '"' {
        seq!['\\', '"']
    } else if c == '\\' {
        seq!['\\', '\\']
    } else if c == '\n' {
        seq!['\\', 'n']
    } else if c == '\r' {
        seq!['\\', 'r']
    } else if c == '\t' {
        seq!['\\', 't']
    } else if c == '\u{8}' {
        seq!['\\', 'b']
    } else if c == '\u{c}' {
        seq!['\\', 'f']
    } else {
        seq![c]
    }
}

pub open spec fn escape_seq(s: Seq<char>) -> Seq<char>
    decreases s.len(),
{
    if s.len() == 0 {
        Seq::empty()
    } else {
        escape_char(s[0]) + escape_seq(s.drop_first())
    }
}

/// The canonical text of one frame: fixed key order, no whitespace.
pub open spec fn frame_chars(r: RecordModel) -> Seq<char> {
    "{\"index\":"@ + dec_chars(r.index) + ",\"timestamp\":"@ + int_chars(r.timestamp)
        + ",\"message\":\""@ + escape_seq(r.message) + "\"}"@
}

/// The bytes the emitter writes for one record: the UTF-8 encoding of the
/// frame text.
pub open spec fn frame_bytes(r: RecordModel) -> Seq<u8> {
    encode_utf8(frame_chars(r))
}

// ---------------------------------------------------------------------------
// Spec: parsing one frame
// ---------------------------------------------------------------------------

/// The first position at or after `i` holding a non-whitespace character.
pub open spec fn skip_ws(t: Seq<char>, i: nat) -> nat
    decreases t.len() - i,
{
    if i < t.len() && is_ws(t[i as int]) {
        skip_ws(t, i + 1)
    } else {
        i
    }
}

/// Position just past `lit` if the text at `i` starts with `lit`.
pub open spec fn parse_lit(t: Seq<char>, i: nat, lit: Seq<char>) -> Option<nat> {
    if i + lit.len() <= t.len() && t.subrange(i as int, (i + lit.len()) as int) == lit {
        Some((i + lit.len()) as nat)
    } else {
        None
    }
}

/// The end of the run of decimal digits starting at `i`.
pub open spec fn digits_end(t: Seq<char>, i: nat) -> nat
    decreases t.len() - i,
{
    if i < t.len() && is_digit(t[i as int]) {
        digits_end(t, i + 1)
    } else {
        i
    }
}

/// The value of the digits in positions `i..j`.
pub open spec fn digits_val(t: Seq<char>, i: nat, j: nat) -> int
    decreases j,
{
    if j <= i {
        0
    } else {
        digits_val(t, i, (j - 1) as nat) * 10 + digit_val(t[j - 1])
    }
}

/// An unsigned decimal number that fits in a `u64`: at least one digit.
pub open spec fn parse_u64(t: Seq<char>, i: nat) -> Option<(u64, nat)> {
    let j = digits_end(t, i);
    if j == i {
        None
    } else {
        let v = digits_val(t, i, j);
        if v <= u64::MAX {
            Some((v as u64, j))
        } else {
            None
        }
    }
}

/// A signed decimal number that fits in an `i64`.
pub open spec fn parse_i64(t: Seq<char>, i: nat) -> Option<(i64, nat)> {
    if i < t.len() && t[i as int] == '-' {
        let j = digits_end(t, i + 1);
        if j == i + 1 {
            None
        } else {
            let v = digits_val(t, i + 1, j);
            if v <= 0x8000_0000_0000_0000 {
                Some(((-v) as i64, j))
            } else {
                None
            }
        }
    } else {
        let j = digits_end(t, i);
        if j == i {
            None
        } else {
            let v = digits_val(t, i, j);
            if v <= i64::MAX {
                Some((v as i64, j))
            } else {
                None
            }
        }
    }
}

/// The character denoted by the escape `\x` for each accepted `x`.
pub open spec fn unescape_char(c: char) -> Option<char> {
    if c == '"' {
        Some('"')
    } else if c == '\\' {
        Some('\\')
    } else if c == '/' {
        Some('/')
    } else if c == 'n' {
        Some('\n')
    } else if c == 'r' {
        Some('\r')
    } else if c == 't' {
        Some('\t')
    } else if c == 'b' {
        Some('\u{8}')
    } else if c == 'f' {
        Some('\u{c}')
    } else {
        None
    }
}

/// The body of a JSON string value starting at `i` (the opening quote already
/// consumed): the denoted text and the position just past the closing quote.
pub open spec fn parse_str_body(t: Seq<char>, i: nat) -> Option<(Seq<char>, nat)>
    decreases t.len() - i,
{
    if i >= t.len() {
        None
    } else if t[i as int] == '"' {
        Some((Seq::empty(), (i + 1) as nat))
    } else if t[i as int] == '\\' {
        if i + 1 >= t.len() {
            None
        } else {
            match unescape_char(t[i as int + 1]) {
                Some(c) => match parse_str_body(t, i + 2) {
                    Some(p) => Some((seq![c] + p.0, p.1)),
                    None => None,
                },
                None => None,
            }
        }
    } else {
        match parse_str_body(t, i + 1) {
            Some(p) => Some((seq![t[i as int]] + p.0, p.1)),
            None => None,
        }
    }
}

// ---------------------------------------------------------------------------
// Round trip: the canonical encoding parses back to the same record
// ---------------------------------------------------------------------------

proof fn lemma_digit_char_val(d: nat)
    requires
        d < 10,
    ensures
        is_digit(digit_char(d)),
        digit_val(digit_char(d)) == d,
        digit_char(d) != '-',
        !is_ws(digit_char(d)),
        digit_char(d) != '"',
        digit_char(d) != '\\',
{
    assert(digit_char(d) as u32 == 48 + d);
}

proof fn lemma_dec_chars_are_digits(n: nat)
    ensures
        dec_chars(n).len() >= 1,
        forall|k: int| 0 <= k < dec_chars(n).len() ==> is_digit(#[trigger] dec_chars(n)[k]),
    decreases n,
{
    if n < 10 {
        lemma_digit_char_val(n);
    } else {
        lemma_dec_chars_are_digits(n / 10);
        lemma_digit_char_val(n % 10);
    }
}

/// A run of digits in `i..j` with a non-digit (or the end) at `j` is exactly
/// the digit run that starts at `i`.
proof fn lemma_digits_end_here(t: Seq<char>, i: nat, j: nat)
    requires
        i <= j <= t.len(),
        forall|k: int| i <= k < j ==> is_digit(#[trigger] t[k]),
        j == t.len() || !is_digit(t[j as int]),
    ensures
        digits_end(t, i) == j,
    decreases j - i,
{
    if i < j {
        lemma_digits_end_here(t, i + 1, j);
    }
}

/// The digits of `n`, read back as a number, give `n`.
proof fn lemma_digits_val_of_dec(t: Seq<char>, i: nat, n: nat)
    requires
        i + dec_chars(n).len() <= t.len(),
        t.subrange(i as int, i + dec_chars(n).len() as int) == dec_chars(n),
    ensures
        digits_val(t, i, (i + dec_chars(n).len()) as nat) == n,
    decreases n,
{
    let d = dec_chars(n);
    let j = (i + d.len()) as nat;
    if n < 10 {
        assert(t[j - 1] == d[0]);
        lemma_digit_char_val(n);
        assert(digits_val(t, i, (j - 1) as nat) == 0);
    } else {
        let dh = dec_chars(n / 10);
        assert(d == dh.push(digit_char(n % 10)));
        assert(t.subrange(i as int, i + dh.len() as int) =~= dh);
        lemma_digits_val_of_dec(t, i, n / 10);
        assert(t[j - 1] == d[d.len() - 1]);
        assert(d[d.len() - 1] == digit_char(n % 10));
        lemma_digit_char_val(n % 10);
        assert(digits_val(t, i, j) == digits_val(t, i, (j - 1) as nat) * 10 + digit_val(
            t[j - 1],
        ));
        vstd::arithmetic::div_mod::lemma_fundamental_div_mod(n as int, 10);
    }
}

/// A `u64` written in decimal at `i`, followed by a non-digit, parses back to
/// itself.
proof fn lemma_parse_u64_of_dec(t: Seq<char>, i: nat, n: nat)
    requires
        n <= u64::MAX,
        i + dec_chars(n).len() <= t.len(),
        t.subrange(i as int, i + dec_chars(n).len() as int) == dec_chars(n),
        i + dec_chars(n).len() == t.len() || !is_digit(t[i + dec_chars(n).len() as int]),
    ensures
        parse_u64(t, i) == Some((n as u64, (i + dec_chars(n).len()) as nat)),
{
    let j = (i + dec_chars(n).len()) as nat;
    lemma_dec_chars_are_digits(n);
    assert(forall|k: int| i <= k < j ==> is_digit(#[trigger] t[k])) by {
        assert(forall|k: int|
            i <= k < j ==> t[k] == t.subrange(i as int, j as int)[k - i] && is_digit(
                #[trigger] t[k],
            ));
    }
    lemma_digits_end_here(t, i, j);
    lemma_digits_val_of_dec(t, i, n);
}

/// An `i64` written in decimal at `i`, followed by a non-digit, parses back
/// to itself.
proof fn lemma_parse_i64_of_int(t: Seq<char>, i: nat, v: int)
    requires
        i64::MIN <= v <= i64::MAX,
        i + int_chars(v).len() <= t.len(),
        t.subrange(i as int, i + int_chars(v).len() as int) == int_chars(v),
        i + int_chars(v).len() == t.len() || !is_digit(t[i + int_chars(v).len() as int]),
    ensures
        parse_i64(t, i) == Some((v as i64, (i + int_chars(v).len()) as nat)),
{
    if v < 0 {
        let m = (-v) as nat;
        let d = dec_chars(m);
        assert(int_chars(v) == seq!['-'] + d);
        assert(t[i as int] == (seq!['-'] + d)[0]);
        assert forall|k: int|
            0 <= k < d.len() implies t.subrange(i as int + 1, i + 1 + d.len() as int)[k] == d[k] by {
            assert(t.subrange(i as int, i + int_chars(v).len() as int)[k + 1] == d[k]);
        }
        assert(t.subrange(i as int + 1, i + 1 + d.len() as int) =~= d);
        lemma_parse_u64_of_dec(t, (i + 1) as nat, m);
        lemma_dec_chars_are_digits(m);
        assert(digits_end(t, (i + 1) as nat) == i + 1 + d.len());
        lemma_digits_val_of_dec(t, (i + 1) as nat, m);
    } else {
        let d = dec_chars(v as nat);
        lemma_dec_chars_are_digits(v as nat);
        assert(t[i as int] == d[0]);
        lemma_digit_char_val(digit_val(d[0]));
        assert(t[i as int] != '-') by {
            assert(is_digit(d[0]));
            assert(d[0] as u32 >= 48);
            assert('-' as u32 == 45);
        }
        lemma_parse_u64_of_dec(t, i, v as nat);
        lemma_digits_val_of_dec(t, i, v as nat);
        assert(digits_end(t, i) == i + d.len());
    }
}

/// Every character of a decimal number is a minus sign or a digit: ASCII,
/// and never a quote or a brace.
pub proof fn lemma_int_chars_shape(v: int, i: int)
    requires
        0 <= i < int_chars(v).len(),
    ensures
        '\0' <= int_chars(v)[i] <= '\u{7f}',
        int_chars(v)[i] != '"',
        int_chars(v)[i] != '{',
        int_chars(v)[i] != '}',
{
    let c = int_chars(v)[i];
    if v < 0 {
        if i == 0 {
            assert(c == '-');
        } else {
            lemma_dec_chars_are_digits((-v) as nat);
            assert(c == dec_chars((-v) as nat)[i - 1]);
            assert(is_digit(c));
        }
    } else {
        lemma_dec_chars_are_digits(v as nat);
        assert(is_digit(c));
    }
}

proof fn lemma_escape_char_cases(c: char)
    ensures
        escape_char(c).len() == 1 || escape_char(c).len() == 2,
        escape_char(c).len() == 2 ==> escape_char(c)[0] == '\\' && unescape_char(
            escape_char(c)[1],
        ) == Some(c),
        escape_char(c).len() == 1 ==> escape_char(c)[0] == c && c != '"' && c != '\\',
{
}

/// The escaped form of a text, followed by a closing quote, parses back to
/// exactly the text.
proof fn lemma_parse_escaped(t: Seq<char>, p: nat, m: Seq<char>)
    requires
        p + escape_seq(m).len() + 1 <= t.len(),
        t.subrange(p as int, p + escape_seq(m).len() as int) == escape_seq(m),
        t[p + escape_seq(m).len() as int] == '"',
    ensures
        parse_str_body(t, p) == Some((m, (p + escape_seq(m).len() + 1) as nat)),
    decreases m.len(),
{
    let e = escape_seq(m);
    if m.len() == 0 {
        assert(t[p as int] == '"');
    } else {
        let c = m[0];
        let u = escape_char(c);
        let e2 = escape_seq(m.drop_first());
        assert(e == u + e2);
        lemma_escape_char_cases(c);
        assert(t[p as int] == e[0]);
        assert(e[0] == u[0]);
        assert forall|k: int|
            0 <= k < e2.len() implies t.subrange(
            p + u.len() as int,
            p + e.len() as int,
        )[k] == e2[k] by {
            assert(e[u.len() + k] == e2[k]);
            assert(t.subrange(p as int, p + e.len() as int)[u.len() + k] == e[u.len() + k]);
        }
        assert(t.subrange(p + u.len() as int, p + e.len() as int) =~= e2);
        lemma_parse_escaped(t, (p + u.len()) as nat, m.drop_first());
        assert(seq![c] + m.drop_first() =~= m);
        if u.len() == 2 {
            assert(t[p as int] == '\\');
            assert(t[p as int + 1] == t.subrange(p as int, p + e.len() as int)[1]);
            assert(t[p as int + 1] == u[1]);
        } else {
            assert(t[p as int] == c);
        }
    }
}

/// Round trip: the canonical frame text of any record that an executable
/// `Record` can hold parses back to exactly that record.
#[verifier::rlimit(60)]
pub proof fn lemma_frame_round_trip(r: RecordModel)
    requires
        crate::record::wf_record(r),
    ensures
        parse_frame_model(frame_chars(r)) == Some(r),
{
    let t = frame_chars(r);
    reveal_strlit("{\"index\":");
    reveal_strlit(",\"timestamp\":");
    reveal_strlit(",\"message\":\"");
    reveal_strlit("\"}");
    reveal_strlit("{");
    reveal_strlit("\"index\"");
    reveal_strlit(":");
    reveal_strlit(",");
    reveal_strlit("\"timestamp\"");
    reveal_strlit("\"message\"");
    reveal_strlit("\"");
    reveal_strlit("}");
    let d = dec_chars(r.index);
    let ti = int_chars(r.timestamp);
    let e = escape_seq(r.message);
    lemma_dec_chars_are_digits(r.index);
    let p2: int = 9 + d.len() as int;
    let p3: int = p2 + 13;
    let p4: int = p3 + ti.len() as int;
    let p5: int = p4 + 12;
    let p6: int = p5 + e.len() as int;
    assert(t.len() == p6 + 2);
    // the opening brace and the index key
    assert(t[0] == '{');
    assert(skip_ws(t, 0) == 0);
    assert(t.subrange(0, 1) =~= "{"@);
    assert(parse_lit(t, 0, "{"@) == Some(1nat));
    assert(t[1] == '"');
    assert(skip_ws(t, 1) == 1);
    assert(t.subrange(1, 8) =~= "\"index\""@);
    assert(parse_lit(t, 1nat, "\"index\""@) == Some(8nat));
    assert(t[8] == ':');
    assert(skip_ws(t, 8) == 8);
    assert(t.subrange(8, 9) =~= ":"@);
    assert(parse_lit(t, 8nat, ":"@) == Some(9nat));
    // the index digits
    assert(t[9] == d[0]);
    lemma_digit_char_val(digit_val(d[0]));
    assert(!is_ws(t[9]));
    assert(skip_ws(t, 9) == 9);
    assert(t.subrange(9, p2) =~= d);
    assert(t[p2] == ',');
    assert(!is_digit(t[p2]));
    lemma_parse_u64_of_dec(t, 9, r.index);
    assert(parse_u64(t, 9) == Some((r.index as u64, p2 as nat)));
    // the timestamp key
    assert(skip_ws(t, p2 as nat) == p2);
    assert(t.subrange(p2, p2 + 1) =~= ","@);
    assert(parse_lit(t, p2 as nat, ","@) == Some((p2 + 1) as nat));
    assert(t[p2 + 1] == '"');
    assert(skip_ws(t, (p2 + 1) as nat) == p2 + 1);
    assert(t.subrange(p2 + 1, p2 + 12) =~= "\"timestamp\""@);
    assert(parse_lit(t, (p2 + 1) as nat, "\"timestamp\""@) == Some((p2 + 12) as nat));
    assert(t[p2 + 12] == ':');
    assert(skip_ws(t, (p2 + 12) as nat) == p2 + 12);
    assert(t.subrange(p2 + 12, p3) =~= ":"@);
    assert(parse_lit(t, (p2 + 12) as nat, ":"@) == Some(p3 as nat));
    // the timestamp value
    assert(t[p3] == ti[0]);
    if r.timestamp < 0 {
        assert(ti[0] == '-');
        assert(!is_ws(t[p3]));
    } else {
        lemma_dec_chars_are_digits(r.timestamp as nat);
        lemma_digit_char_val(digit_val(ti[0]));
        assert(!is_ws(t[p3]));
    }
    assert(skip_ws(t, p3 as nat) == p3);
    assert(t.subrange(p3, p4) =~= ti);
    assert(t[p4] == ',');
    assert(!is_digit(t[p4]));
    lemma_parse_i64_of_int(t, p3 as nat, r.timestamp);
    assert(parse_i64(t, p3 as nat) == Some((r.timestamp as i64, p4 as nat)));
    // the message key
    assert(skip_ws(t, p4 as nat) == p4);
    assert(t.subrange(p4, p4 + 1) =~= ","@);
    assert(parse_lit(t, p4 as nat, ","@) == Some((p4 + 1) as nat));
    assert(t[p4 + 1] == '"');
    assert(skip_ws(t, (p4 + 1) as nat) == p4 + 1);
    assert(t.subrange(p4 + 1, p4 + 10) =~= "\"message\""@);
    assert(parse_lit(t, (p4 + 1) as nat, "\"message\""@) == Some((p4 + 10) as nat));
    assert(t[p4 + 10] == ':');
    assert(skip_ws(t, (p4 + 10) as nat) == p4 + 10);
    assert(t.subrange(p4 + 10, p4 + 11) =~= ":"@);
    assert(parse_lit(t, (p4 + 10) as nat, ":"@) == Some((p4 + 11) as nat));
    assert(t[p4 + 11] == '"');
    assert(skip_ws(t, (p4 + 11) as nat) == p4 + 11);
    assert(t.subrange(p4 + 11, p5) =~= "\""@);
    assert(parse_lit(t, (p4 + 11) as nat, "\""@) == Some(p5 as nat));
    // the message body
    assert(t.subrange(p5, p6) =~= e);
    assert(t[p6] == '"');
    lemma_parse_escaped(t, p5 as nat, r.message);
    assert(parse_str_body(t, p5 as nat) == Some((r.message, (p6 + 1) as nat)));
    // the closing brace and the end of the text
    assert(t[p6 + 1] == '}');
    assert(skip_ws(t, (p6 + 1) as nat) == p6 + 1);
    assert(t.subrange(p6 + 1, p6 + 2) =~= "}"@);
    assert(parse_lit(t, (p6 + 1) as nat, "}"@) == Some((p6 + 2) as nat));
    assert(skip_ws(t, (p6 + 2) as nat) == t.len());
    assert(parse_frame_tail(t, r.index as u64, r.timestamp as i64, p4 as nat) == Some(
        RecordModel {
            index: (r.index as u64) as nat,
            timestamp: (r.timestamp as i64) as int,
            message: r.message,
        },
    ));
    assert(RecordModel {
        index: (r.index as u64) as nat,
        timestamp: (r.timestamp as i64) as int,
        message: r.message,
    } =~= r);
}

/// The record denoted by a complete frame text, if it matches the grammar
/// exactly (whole input consumed).
pub open spec fn parse_frame_model(t: Seq<char>) -> Option<RecordModel> {
    let i1 = skip_ws(t, 0);
    match parse_lit(t, i1, "{"@) {
        None => None,
        Some(i2) => match parse_lit(t, skip_ws(t, i2), "\"index\""@) {
            None => None,
            Some(i4) => match parse_lit(t, skip_ws(t, i4), ":"@) {
                None => None,
                Some(i6) => match parse_u64(t, skip_ws(t, i6)) {
                    None => None,
                    Some((index, i8)) => match parse_lit(t, skip_ws(t, i8), ","@) {
                        None => None,
                        Some(i10) => match parse_lit(t, skip_ws(t, i10), "\"timestamp\""@) {
                            None => None,
                            Some(i12) => match parse_lit(t, skip_ws(t, i12), ":"@) {
                                None => None,
                                Some(i14) => match parse_i64(t, skip_ws(t, i14)) {
                                    None => None,
                                    Some((ts, i16)) => parse_frame_tail(t, index, ts, i16),
                                },
                            },
                        },
                    },
                },
            },
        },
    }
}

/// The rest of the frame grammar after the timestamp value.
pub open spec fn parse_frame_tail(t: Seq<char>, index: u64, ts: i64, i16: nat) -> Option<
    RecordModel,
> {
    match parse_lit(t, skip_ws(t, i16), ","@) {
        None => None,
        Some(i18) => match parse_lit(t, skip_ws(t, i18), "\"message\""@) {
            None => None,
            Some(i20) => match parse_lit(t, skip_ws(t, i20), ":"@) {
                None => None,
                Some(i22) => match parse_lit(t, skip_ws(t, i22), "\""@) {
                    None => None,
                    Some(i24) => match parse_str_body(t, i24) {
                        None => None,
                        Some((msg, i25)) => match parse_lit(t, skip_ws(t, i25), "}"@) {
                            None => None,
                            Some(i27) => if skip_ws(t, i27) == t.len() {
                                Some(
                                    RecordModel {
                                        index: index as nat,
                                        timestamp: ts as int,
                                        message: msg,
                                    },
                                )
                            } else {
                                None
                            },
                        },
                    },
                },
            },
        },
    }
}

// ---------------------------------------------------------------------------
// Exec: encoding
// ---------------------------------------------------------------------------

/// Turns a finished character buffer into a `String`.
///
/// Relies on the standard library's `FromIterator<char>` for `String`:
/// collecting characters yields the string of exactly those characters, in
/// order.
#[verifier::external_body]
pub(crate) fn chars_to_string(v: Vec<char>) -> (r: String)
    ensures
        r@ == v@,
{
    v.into_iter().collect()
}

/// Turns received bytes into text.
///
/// Relies on `String::from_utf8`: it succeeds exactly on valid UTF-8 input,
/// and the returned string holds the decoded characters of those bytes.
#[verifier::external_body]
pub(crate) fn string_from_utf8(v: Vec<u8>) -> (r: Option<String>)
    ensures
        r is Some <==> vstd::utf8::valid_utf8(v@),
        r is Some ==> r.unwrap()@ == vstd::utf8::decode_utf8(v@),
{
    match String::from_utf8(v) {
        Ok(s) => Some(s),
        Err(_) => None,
    }
}

pub(crate) fn digit_to_char(d: u64) -> (c: char)
    requires
        d < 10,
    ensures
        c == digit_char(d as nat),
{
    (48 + d as u8) as char
}

/// Appends the characters of `s` to `v`.
pub(crate) fn push_str_chars(v: &mut Vec<char>, s: &str)
    ensures
        final(v)@ == old(v)@ + s@,
{
    let n = s.unicode_len();
    let mut j: usize = 0;
    while j < n
        invariant
            j <= n,
            n as nat == s@.len(),
            v@ == old(v)@ + s@.take(j as int),
        decreases n - j,
    {
        v.push(s.get_char(j));
        j = j + 1;
        proof {
            assert(s@.take(j as int) =~= s@.take(j - 1).push(s@[j - 1]));
        }
    }
    proof {
        assert(s@.take(n as int) =~= s@);
    }
}

/// Appends the decimal digits of `n` to `v`.
pub(crate) fn push_dec(v: &mut Vec<char>, n: u64)
    ensures
        final(v)@ == old(v)@ + dec_chars(n as nat),
    decreases n,
{
    if n < 10 {
        v.push(digit_to_char(n));
        proof {
            assert(old(v)@ + dec_chars(n as nat) =~= old(v)@.push(digit_char(n as nat)));
        }
    } else {
        push_dec(v, n / 10);
        v.push(digit_to_char(n % 10));
        proof {
            assert(old(v)@ + dec_chars(n as nat) =~= (old(v)@ + dec_chars(n as nat / 10)).push(
                digit_char(n as nat % 10),
            ));
        }
    }
}

/// Appends the signed decimal form of `t` to `v`.
fn push_i64(v: &mut Vec<char>, t: i64)
    ensures
        final(v)@ == old(v)@ + int_chars(t as int),
{
    if t >= 0 {
        push_dec(v, t as u64);
    } else {
        v.push('-');
        let mag: u64 = if t == i64::MIN {
            9223372036854775808
        } else {
            (-t) as u64
        };
        assert(mag as nat == (-(t as int)) as nat);
        push_dec(v, mag);
        proof {
            assert(old(v)@ + int_chars(t as int) =~= (old(v)@.push('-')) + dec_chars(
                (-(t as int)) as nat,
            ));
        }
    }
}

proof fn lemma_escape_snoc(s: Seq<char>, c: char)
    ensures
        escape_seq(s.push(c)) == escape_seq(s) + escape_char(c),
    decreases s.len(),
{
    if s.len() == 0 {
        assert(s.push(c).drop_first() =~= Seq::<char>::empty());
        assert(s.push(c)[0] == c);
        assert(escape_seq(s.push(c)) =~= escape_char(c) + escape_seq(Seq::<char>::empty()));
        assert(escape_char(c) + Seq::<char>::empty() =~= escape_char(c));
        assert(escape_seq(s) + escape_char(c) =~= escape_char(c));
    } else {
        assert(s.push(c).drop_first() =~= s.drop_first().push(c));
        lemma_escape_snoc(s.drop_first(), c);
        assert(escape_seq(s.push(c)) =~= escape_seq(s) + escape_char(c));
    }
}

/// Appends the escaped form of the message text to `v`.
fn push_escaped(v: &mut Vec<char>, s: &str)
    ensures
        final(v)@ == old(v)@ + escape_seq(s@),
{
    let n = s.unicode_len();
    let mut j: usize = 0;
    proof {
        assert(s@.take(0) =~= Seq::<char>::empty());
        assert(escape_seq(s@.take(0)) =~= Seq::<char>::empty());
        assert(v@ =~= old(v)@ + escape_seq(s@.take(0)));
    }
    while j < n
        invariant
            j <= n,
            n as nat == s@.len(),
            v@ == old(v)@ + escape_seq(s@.take(j as int)),
        decreases n - j,
    {
        let c = s.get_char(j);
        if c == '"' {
            v.push('\\');
            v.push('"');
        } else if c == '\\' {
            v.push('\\');
            v.push('\\');
        } else if c == '\n' {
            v.push('\\');
            v.push('n');
        } else if c == '\r' {
            v.push('\\');
            v.push('r');
        } else if c == '\t' {
            v.push('\\');
            v.push('t');
        } else if c == '\u{8}' {
            v.push('\\');
            v.push('b');
        } else if c == '\u{c}' {
            v.push('\\');
            v.push('f');
        } else {
            v.push(c);
        }
        proof {
            assert(v@ =~= (old(v)@ + escape_seq(s@.take(j as int))) + escape_char(s@[j as int]));
            assert(s@.take(j + 1) =~= s@.take(j as int).push(s@[j as int]));
            lemma_escape_snoc(s@.take(j as int), s@[j as int]);
            assert(v@ =~= old(v)@ + escape_seq(s@.take(j + 1)));
        }
        j = j + 1;
    }
    proof {
        assert(s@.take(n as int) =~= s@);
    }
}

/// Encodes one record as the bytes of one frame.
pub fn encode_record(r: &Record) -> (out: Vec<u8>)
    ensures
        out@ == frame_bytes(r@),
{
    let mut cs: Vec<char> = Vec::new();
    push_str_chars(&mut cs, "{\"index\":");
    push_dec(&mut cs, r.index);
    push_str_chars(&mut cs, ",\"timestamp\":");
    push_i64(&mut cs, r.timestamp);
    push_str_chars(&mut cs, ",\"message\":\"");
    push_escaped(&mut cs, r.message.as_str());
    push_str_chars(&mut cs, "\"}");
    proof {
        assert(cs@ =~= frame_chars(r@));
    }
    let s = chars_to_string(cs);
    s.as_str().as_bytes_vec()
}

// ---------------------------------------------------------------------------
// Exec: parsing
// ---------------------------------------------------------------------------

proof fn lemma_digits_val_nonneg(t: Seq<char>, i: nat, j: nat)
    ensures
        digits_val(t, i, j) >= 0,
    decreases j,
{
    if j > i {
        lemma_digits_val_nonneg(t, i, (j - 1) as nat);
    }
}

proof fn lemma_digits_val_mono(t: Seq<char>, i: nat, a: nat, b: nat)
    requires
        a <= b,
    ensures
        digits_val(t, i, a) <= digits_val(t, i, b),
    decreases b,
{
    if b > a && b > i {
        lemma_digits_val_mono(t, i, a, (b - 1) as nat);
        lemma_digits_val_nonneg(t, i, (b - 1) as nat);
    }
}

proof fn lemma_digits_end_le(t: Seq<char>, i: nat)
    requires
        i <= t.len(),
    ensures
        i <= digits_end(t, i) <= t.len(),
    decreases t.len() - i,
{
    if i < t.len() && is_digit(t[i as int]) {
        lemma_digits_end_le(t, i + 1);
    }
}

proof fn lemma_digits_run(t: Seq<char>, i: nat)
    ensures
        forall|k: int| i <= k < digits_end(t, i) ==> is_digit(#[trigger] t[k]),
    decreases t.len() - i,
{
    if i < t.len() && is_digit(t[i as int]) {
        lemma_digits_run(t, i + 1);
    }
}

/// The first non-whitespace position at or after `i`.
fn ws_end(s: &str, i: usize) -> (r: usize)
    ensures
        r as nat == skip_ws(s@, i as nat),
        i <= r,
        i as nat <= s@.len() ==> r as nat <= s@.len(),
{
    let n = s.unicode_len();
    let mut j = i;
    loop
        invariant
            i <= j,
            n as nat == s@.len(),
            skip_ws(s@, i as nat) == skip_ws(s@, j as nat),
            i <= n ==> j <= n,
        decreases n + 1 - j,
    {
        if j >= n {
            return j;
        }
        let c = s.get_char(j);
        if c == ' ' || c == '\t' || c == '\n' || c == '\r' {
            j = j + 1;
        } else {
            return j;
        }
    }
}

/// Position past `lit` if the text at `i` starts with `lit`, else `None`.
fn lit_at(s: &str, i: usize, lit: &str) -> (r: Option<usize>)
    ensures
        ({
            let sp = parse_lit(s@, i as nat, lit@);
            match (r, sp) {
                (Some(x), Some(y)) => x as nat == y && x as nat <= s@.len(),
                (None, None) => true,
                _ => false,
            }
        }),
{
    let n = s.unicode_len();
    let m = lit.unicode_len();
    if i > n || m > n - i {
        return None;
    }
    let mut j: usize = 0;
    while j < m
        invariant
            j <= m,
            i + m <= n,
            n as nat == s@.len(),
            m as nat == lit@.len(),
            forall|k: int| 0 <= k < j ==> s@[i + k] == lit@[k],
        decreases m - j,
    {
        if s.get_char(i + j) != lit.get_char(j) {
            proof {
                let sub = s@.subrange(i as int, i + lit@.len() as int);
                assert(sub[j as int] == s@[i + j as int]);
                assert(sub != lit@);
            }
            return None;
        }
        j = j + 1;
    }
    proof {
        assert(s@.subrange(i as int, i + lit@.len() as int) =~= lit@);
    }
    Some(i + m)
}

/// The end of the run of digits starting at `i`.
fn digits_scan(s: &str, i: usize) -> (j: usize)
    ensures
        j as nat == digits_end(s@, i as nat),
        i <= j,
        i as nat <= s@.len() ==> j as nat <= s@.len(),
{
    let n = s.unicode_len();
    let mut j = i;
    loop
        invariant
            i <= j,
            n as nat == s@.len(),
            digits_end(s@, i as nat) == digits_end(s@, j as nat),
            i <= n ==> j <= n,
        decreases n + 1 - j,
    {
        if j >= n {
            return j;
        }
        let c = s.get_char(j);
        if c >= '0' && c <= '9' {
            j = j + 1;
        } else {
            return j;
        }
    }
}

/// An unsigned decimal number at `i`, if the digits fit in a `u64`.
fn u64_at(s: &str, i: usize) -> (r: Option<(u64, usize)>)
    ensures
        ({
            let sp = parse_u64(s@, i as nat);
            match (r, sp) {
                (Some(a), Some(b)) => a.0 == b.0 && a.1 as nat == b.1 && a.1 as nat <= s@.len(),
                (None, None) => true,
                _ => false,
            }
        }),
{
    let n = s.unicode_len();
    let j = digits_scan(s, i);
    if j == i {
        return None;
    }
    proof {
        assert((i as nat) < s@.len());
        lemma_digits_run(s@, i as nat);
        lemma_digits_end_le(s@, i as nat);
    }
    let ghost t = s@;
    let ghost jend = j as nat;
    let mut acc: u64 = 0;
    let mut k = i;
    while k < j
        invariant
            i <= k <= j,
            j <= n,
            n as nat == t.len(),
            t == s@,
            jend == j as nat,
            jend == digits_end(t, i as nat),
            forall|q: int| i <= q < jend ==> is_digit(#[trigger] t[q]),
            acc as int == digits_val(t, i as nat, k as nat),
        decreases j - k,
    {
        let c = s.get_char(k);
        assert(is_digit(t[k as int]));
        let d: u64 = (c as u32 - 48) as u64;
        assert(d as nat == digit_val(t[k as int]));
        let step = match acc.checked_mul(10) {
            Some(x) => x.checked_add(d),
            None => None,
        };
        match step {
            Some(x) => {
                acc = x;
                k = k + 1;
                assert(acc as int == digits_val(t, i as nat, k as nat));
            },
            None => {
                proof {
                    assert(digits_val(t, i as nat, (k + 1) as nat) == acc as int * 10 + d);
                    lemma_digits_val_nonneg(t, i as nat, k as nat);
                    assert(digits_val(t, i as nat, (k + 1) as nat) > u64::MAX);
                    lemma_digits_val_mono(t, i as nat, (k + 1) as nat, jend);
                    assert(digits_val(t, i as nat, jend) > u64::MAX);
                }
                return None;
            },
        }
    }
    Some((acc, j))
}

/// A signed decimal number at `i`, if it fits in an `i64`.
fn i64_at(s: &str, i: usize) -> (r: Option<(i64, usize)>)
    ensures
        ({
            let sp = parse_i64(s@, i as nat);
            match (r, sp) {
                (Some(a), Some(b)) => a.0 == b.0 && a.1 as nat == b.1 && a.1 as nat <= s@.len(),
                (None, None) => true,
                _ => false,
            }
        }),
{
    let n = s.unicode_len();
    proof {
        lemma_digits_val_nonneg(s@, (i + 1) as nat, digits_end(s@, (i + 1) as nat));
        lemma_digits_val_nonneg(s@, i as nat, digits_end(s@, i as nat));
    }
    if i < n && s.get_char(i) == '-' {
        match u64_at(s, i + 1) {
            Some((v, j)) => {
                if v <= 9223372036854775808 {
                    let tv: i64 = if v == 9223372036854775808 {
                        i64::MIN
                    } else {
                        -(v as i64)
                    };
                    Some((tv, j))
                } else {
                    None
                }
            },
            None => None,
        }
    } else {
        match u64_at(s, i) {
            Some((v, j)) => {
                if v <= 9223372036854775807 {
                    Some((v as i64, j))
                } else {
                    None
                }
            },
            None => None,
        }
    }
}

fn unesc(c: char) -> (r: Option<char>)
    ensures
        r == unescape_char(c),
{
    if c == '"' {
        Some('"')
    } else if c == '\\' {
        Some('\\')
    } else if c == '/' {
        Some('/')
    } else if c == 'n' {
        Some('\n')
    } else if c == 'r' {
        Some('\r')
    } else if c == 't' {
        Some('\t')
    } else if c == 'b' {
        Some('\u{8}')
    } else if c == 'f' {
        Some('\u{c}')
    } else {
        None
    }
}

/// The body of a string value at `i` (after the opening quote): the denoted
/// text and the position past the closing quote.
fn str_body_at(s: &str, i: usize) -> (r: Option<(Vec<char>, usize)>)
    ensures
        ({
            let sp = parse_str_body(s@, i as nat);
            match (r, sp) {
                (Some(a), Some(b)) => a.0@ == b.0 && a.1 as nat == b.1 && a.1 as nat <= s@.len(),
                (None, None) => true,
                _ => false,
            }
        }),
{
    let n = s.unicode_len();
    let mut acc: Vec<char> = Vec::new();
    let mut j = i;
    loop
        invariant
            i <= j,
            n as nat == s@.len(),
            ({
                match parse_str_body(s@, j as nat) {
                    Some(p) => parse_str_body(s@, i as nat) == Some((acc@ + p.0, p.1)),
                    None => parse_str_body(s@, i as nat) is None,
                }
            }),
        decreases n - j,
    {
        if j >= n {
            return None;
        }
        let c = s.get_char(j);
        if c == '"' {
            proof {
                assert(parse_str_body(s@, j as nat) == Some(
                    (Seq::<char>::empty(), (j + 1) as nat),
                ));
                assert(acc@ + Seq::<char>::empty() =~= acc@);
            }
            return Some((acc, j + 1));
        } else if c == '\\' {
            if j + 1 >= n {
                return None;
            }
            let e = s.get_char(j + 1);
            match unesc(e) {
                None => {
                    return None;
                },
                Some(u) => {
                    proof {
                        let tail = parse_str_body(s@, (j + 2) as nat);
                        match tail {
                            Some(p) => {
                                assert(parse_str_body(s@, j as nat) == Some(
                                    (seq![u] + p.0, p.1),
                                ));
                                assert(acc@ + (seq![u] + p.0) =~= (acc@.push(u)) + p.0);
                            },
                            None => {},
                        }
                    }
                    acc.push(u);
                    j = j + 2;
                },
            }
        } else {
            proof {
                let tail = parse_str_body(s@, (j + 1) as nat);
                match tail {
                    Some(p) => {
                        assert(parse_str_body(s@, j as nat) == Some((seq![c] + p.0, p.1)));
                        assert(acc@ + (seq![c] + p.0) =~= (acc@.push(c)) + p.0);
                    },
                    None => {},
                }
            }
            acc.push(c);
            j = j + 1;
        }
    }
}

/// Parses one complete frame text into a record: `None` exactly when the text
/// does not match the frame grammar.
pub fn parse_frame(s: &str) -> (r: Option<Record>)
    ensures
        ({
            let sp = parse_frame_model(s@);
            match (r, sp) {
                (Some(rec), Some(rm)) => rec@ == rm,
                (None, None) => true,
                _ => false,
            }
        }),
{
    let n = s.unicode_len();
    let i1 = ws_end(s, 0);
    let i2 = match lit_at(s, i1, "{") {
        None => {
            return None;
        },
        Some(x) => x,
    };
    let i4 = match lit_at(s, ws_end(s, i2), "\"index\"") {
        None => {
            return None;
        },
        Some(x) => x,
    };
    let i6 = match lit_at(s, ws_end(s, i4), ":") {
        None => {
            return None;
        },
        Some(x) => x,
    };
    let (index, i8) = match u64_at(s, ws_end(s, i6)) {
        None => {
            return None;
        },
        Some(p) => p,
    };
    let i10 = match lit_at(s, ws_end(s, i8), ",") {
        None => {
            return None;
        },
        Some(x) => x,
    };
    let i12 = match lit_at(s, ws_end(s, i10), "\"timestamp\"") {
        None => {
            return None;
        },
        Some(x) => x,
    };
    let i14 = match lit_at(s, ws_end(s, i12), ":") {
        None => {
            return None;
        },
        Some(x) => x,
    };
    let (ts, i16) = match i64_at(s, ws_end(s, i14)) {
        None => {
            return None;
        },
        Some(p) => p,
    };
    let i18 = match lit_at(s, ws_end(s, i16), ",") {
        None => {
            return None;
        },
        Some(x) => x,
    };
    let i20 = match lit_at(s, ws_end(s, i18), "\"message\"") {
        None => {
            return None;
        },
        Some(x) => x,
    };
    let i22 = match lit_at(s, ws_end(s, i20), ":") {
        None => {
            return None;
        },
        Some(x) => x,
    };
    let i24 = match lit_at(s, ws_end(s, i22), "\"") {
        None => {
            return None;
        },
        Some(x) => x,
    };
    let (msg, i25) = match str_body_at(s, i24) {
        None => {
            return None;
        },
        Some(p) => p,
    };
    let i27 = match lit_at(s, ws_end(s, i25), "}") {
        None => {
            return None;
        },
        Some(x) => x,
    };
    if ws_end(s, i27) != n {
        return None;
    }
    let message = chars_to_string(msg);
    Some(Record { index, timestamp: ts, message })
}

} // verus!
