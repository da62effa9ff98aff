//! The wire codec: a bidirectional map between JSON text frames and the
//! `ClientRequest` / `ServerEvent` values of `protocol`.
//!
//! A value is encoded externally tagged: a variant with data becomes
//! `{"VariantName":{...fields}}`, a variant without data becomes the bare
//! string `"VariantName"`. Strings are escaped as JSON requires: quote,
//! backslash and the control characters; all other characters pass through
//! unchanged. `decode_request` and `decode_event` accept exactly the frames
//! that `encode_request` and `encode_event` produce, and
//! `lemma_request_round_trip` / `lemma_event_round_trip` prove that every
//! value survives the round trip.
use vstd::prelude::*;

use vstd::string::{StrSliceExecFns, StringExecFns};

use crate::protocol::{views_of, ClientRequest, ClientRequestView, ServerEvent, ServerEventView};

verus! {

// ---------------------------------------------------------------------------
// Character classes and digits
// ---------------------------------------------------------------------------

/// ASCII decimal digit.
pub open spec fn is_digit(c: char) -> bool {
    48 <= c as u32 <= 57
}

/// Value of an ASCII decimal digit.
pub open spec fn digit_val(c: char) -> int {
    c as u32 - 48
}

/// The digit character for a value in 0..10.
pub open spec fn digit_char(d: int) -> char {
    if d == 0 {
        '0'
    } else if d == 1 {
        '1'
    } else if d == 2 {
        '2'
    } else if d == 3 {
        '3'
    } else if d == 4 {
        '4'
    } else if d == 5 {
        '5'
    } else if d == 6 {
        '6'
    } else if d == 7 {
        '7'
    } else if d == 8 {
        '8'
    } else {
        '9'
    }
}

/// Lower-case hexadecimal digit character for a value in 0..16.
pub open spec fn hex_char(d: int) -> char {
    if d < 10 {
        digit_char(d)
    } else if d == 10 {
        'a'
    } else if d == 11 {
        'b'
    } else if d == 12 {
        'c'
    } else if d == 13 {
        'd'
    } else if d == 14 {
        'e'
    } else {
        'f'
    }
}

/// Lower-case hexadecimal digit (as used in `\u00..` escapes).
pub open spec fn is_hex_lower(c: char) -> bool {
    is_digit(c) || 97 <= c as u32 <= 102
}

/// Value of a lower-case hexadecimal digit.
pub open spec fn hex_val(c: char) -> int {
    if is_digit(c) {
        digit_val(c)
    } else {
        c as u32 - 87
    }
}

/// A control character, which JSON requires to be escaped inside strings.
pub open spec fn is_control(c: char) -> bool {
    (c as u32) < 32
}

/// The canonical decimal digits of `n`, most significant first.
pub open spec fn dec_str(n: int) -> Seq<char>
    decreases n,
{
    if n < 10 {
        seq![digit_char(n)]
    } else {
        dec_str(n / 10) + seq![digit_char(n % 10)]
    }
}

// ---------------------------------------------------------------------------
// String escaping
// ---------------------------------------------------------------------------

/// Control characters with a short escape form (`\b \t \n \f \r`).
pub open spec fn has_short_escape(u: u32) -> bool {
    u == 8 || u == 9 || u == 10 || u == 12 || u == 13
}

/// The JSON escape sequence (or the character itself) for one character.
pub open spec fn escape_char(c: char) -> Seq<char> {
    let u = c as u32;
    if u == 34 {
        seq!['\\', '"']
    } else if u == 92 {
        seq!['\\', '\\']
    } else if u == 8 {
        seq!['\\', 'b']
    } else if u == 9 {
        seq!['\\', 't']
    } else if u == 10 {
        seq!['\\', 'n']
    } else if u == 12 {
        seq!['\\', 'f']
    } else if u == 13 {
        seq!['\\', 'r']
    } else if u < 32 {
        seq!['\\', 'u', '0', '0', hex_char(u as int / 16), hex_char(u as int % 16)]
    } else {
        seq![c]
    }
}

/// A whole string escaped, character by character.
pub open spec fn escape_string(s: Seq<char>) -> Seq<char>
    decreases s.len(),
{
    if s.len() == 0 {
        Seq::empty()
    } else {
        escape_char(s[0]) + escape_string(s.skip(1))
    }
}

/// A JSON string literal: quote, escaped content, quote.
pub open spec fn json_string(s: Seq<char>) -> Seq<char> {
    seq!['"'] + escape_string(s) + seq!['"']
}

/// The items of a JSON string array after the first: `,"a","b"...`.
pub open spec fn json_string_items(l: Seq<Seq<char>>) -> Seq<char>
    decreases l.len(),
{
    if l.len() == 0 {
        Seq::empty()
    } else {
        seq![','] + json_string(l[0]) + json_string_items(l.skip(1))
    }
}

/// A JSON array of strings.
pub open spec fn json_string_list(l: Seq<Seq<char>>) -> Seq<char> {
    if l.len() == 0 {
        seq!['[', ']']
    } else {
        seq!['['] + json_string(l[0]) + json_string_items(l.skip(1)) + seq![']']
    }
}

// ---------------------------------------------------------------------------
// The canonical encodings
// ---------------------------------------------------------------------------

/// The canonical JSON frame for a client request.
pub open spec fn spec_encode_request(req: ClientRequestView) -> Seq<char> {
    match req {
        ClientRequestView::Join { room, name } => "{\"Join\":{\"room\":"@ + json_string(room)
            + ",\"name\":"@ + json_string(name) + "}}"@,
        ClientRequestView::Leave { room } => "{\"Leave\":{\"room\":"@ + json_string(room) + "}}"@,
        ClientRequestView::Message { room, text } => "{\"Message\":{\"room\":"@ + json_string(room)
            + ",\"text\":"@ + json_string(text) + "}}"@,
        ClientRequestView::RoomList => "\"RoomList\""@,
        ClientRequestView::Members { room } => "{\"Members\":{\"room\":"@ + json_string(room)
            + "}}"@,
    }
}

/// The canonical JSON frame for a server event.
pub open spec fn spec_encode_event(ev: ServerEventView) -> Seq<char> {
    match ev {
        ServerEventView::UserJoined { room, name } => "{\"UserJoined\":{\"room\":"@ + json_string(
            room,
        ) + ",\"name\":"@ + json_string(name) + "}}"@,
        ServerEventView::UserLeft { room, name } => "{\"UserLeft\":{\"room\":"@ + json_string(room)
            + ",\"name\":"@ + json_string(name) + "}}"@,
        ServerEventView::NewMessage { room, name, text, ts } => "{\"NewMessage\":{\"room\":"@
            + json_string(room) + ",\"name\":"@ + json_string(name) + ",\"text\":"@ + json_string(
            text,
        ) + ",\"ts\":"@ + dec_str(ts as int) + "}}"@,
        ServerEventView::RoomList { rooms } => "{\"RoomList\":{\"rooms\":"@ + json_string_list(
            rooms,
        ) + "}}"@,
        ServerEventView::MemberList { room, members } => "{\"MemberList\":{\"room\":"@
            + json_string(room) + ",\"members\":"@ + json_string_list(members) + "}}"@,
    }
}

// ---------------------------------------------------------------------------
// The parser, at the specification level
// ---------------------------------------------------------------------------
// Each `sp_` function consumes input from a character index and yields the
// parsed value together with the index just past what it consumed. The
// executable parser below implements these functions exactly, so they are
// the single definition of which frames are accepted.

/// `p` occurs in `s` starting at index `i`.
pub open spec fn matches_at(s: Seq<char>, i: int, p: Seq<char>) -> bool {
    &&& 0 <= i
    &&& i + p.len() <= s.len()
    &&& forall|j: int| 0 <= j < p.len() ==> s[i + j] == p[j]
}

/// Prepend a character to the result of a string-body parse.
pub open spec fn cons_char(c: char, r: Option<(Seq<char>, int)>) -> Option<(Seq<char>, int)> {
    match r {
        Some((t, j)) => Some((seq![c] + t, j)),
        None => None,
    }
}

/// Parse the body of a JSON string starting just after the opening quote,
/// up to and including the closing quote. Escapes are accepted only in the
/// canonical form the encoder produces.
pub open spec fn sp_str_body(s: Seq<char>, i: int) -> Option<(Seq<char>, int)>
    decreases s.len() - i,
{
    if !(0 <= i < s.len()) {
        None
    } else {
        let u = s[i] as u32;
        if u == 34 {
            Some((Seq::empty(), i + 1))
        } else if u == 92 {
            if i + 1 < s.len() {
                let e = s[i + 1] as u32;
                if e == 117 {
                    // \u00xx, only for control characters without a short form
                    if i + 5 < s.len() && s[i + 2] == '0' && s[i + 3] == '0' && is_hex_lower(
                        s[i + 4],
                    ) && is_hex_lower(s[i + 5]) {
                        let v = hex_val(s[i + 4]) * 16 + hex_val(s[i + 5]);
                        if v < 32 && !has_short_escape(v as u32) {
                            cons_char((v as u32) as char, sp_str_body(s, i + 6))
                        } else {
                            None
                        }
                    } else {
                        None
                    }
                } else if e == 34 {
                    cons_char((34 as u32) as char, sp_str_body(s, i + 2))
                } else if e == 92 {
                    cons_char((92 as u32) as char, sp_str_body(s, i + 2))
                } else if e == 98 {
                    // \b
                    cons_char((8 as u32) as char, sp_str_body(s, i + 2))
                } else if e == 116 {
                    // \t
                    cons_char((9 as u32) as char, sp_str_body(s, i + 2))
                } else if e == 110 {
                    // \n
                    cons_char((10 as u32) as char, sp_str_body(s, i + 2))
                } else if e == 102 {
                    // \f
                    cons_char((12 as u32) as char, sp_str_body(s, i + 2))
                } else if e == 114 {
                    // \r
                    cons_char((13 as u32) as char, sp_str_body(s, i + 2))
                } else {
                    None
                }
            } else {
                None
            }
        } else if is_control(s[i]) {
            None
        } else {
            cons_char(s[i], sp_str_body(s, i + 1))
        }
    }
}

/// Parse a complete JSON string starting at its opening quote.
pub open spec fn sp_jstring(s: Seq<char>, i: int) -> Option<(Seq<char>, int)> {
    if 0 <= i < s.len() && s[i] == '"' {
        sp_str_body(s, i + 1)
    } else {
        None
    }
}

/// Consume a maximal run of decimal digits, folding them onto `acc`.
/// Returns the folded value and the index after the run.
pub open spec fn sp_digits(s: Seq<char>, i: int, acc: int) -> (int, int)
    decreases s.len() - i,
{
    if 0 <= i < s.len() && is_digit(s[i]) {
        sp_digits(s, i + 1, acc * 10 + digit_val(s[i]))
    } else {
        (acc, i)
    }
}

/// Parse a canonical unsigned decimal number: at least one digit, no
/// leading zero (except for zero itself), value within `u64`.
pub open spec fn sp_u64(s: Seq<char>, i: int) -> Option<(u64, int)> {
    if 0 <= i < s.len() && is_digit(s[i]) && !(s[i] == '0' && i + 1 < s.len() && is_digit(
        s[i + 1],
    )) {
        let (v, j) = sp_digits(s, i, 0);
        if v <= u64::MAX {
            Some((v as u64, j))
        } else {
            None
        }
    } else {
        None
    }
}

/// Parse the items of a JSON string array after the first: each one is a
/// comma followed by a string, until the closing bracket.
pub open spec fn sp_list_tail(s: Seq<char>, i: int, acc: Seq<Seq<char>>) -> Option<
    (Seq<Seq<char>>, int),
>
    decreases s.len() - i,
{
    if !(0 <= i < s.len()) {
        None
    } else if s[i] == ']' {
        Some((acc, i + 1))
    } else if s[i] == ',' {
        match sp_jstring(s, i + 1) {
            Some((t, j)) => {
                if i + 1 < j <= s.len() {
                    sp_list_tail(s, j, acc.push(t))
                } else {
                    None
                }
            },
            None => None,
        }
    } else {
        None
    }
}

/// Parse a JSON array of strings starting at its opening bracket.
pub open spec fn sp_string_list(s: Seq<char>, i: int) -> Option<(Seq<Seq<char>>, int)> {
    if 0 <= i < s.len() && s[i] == '[' {
        if i + 1 < s.len() && s[i + 1] == ']' {
            Some((Seq::empty(), i + 2))
        } else {
            match sp_jstring(s, i + 1) {
                Some((t, j)) => sp_list_tail(s, j, seq![t]),
                None => None,
            }
        }
    } else {
        None
    }
}

/// Parse a string field: the literal `key` followed by a JSON string.
pub open spec fn sp_str_field(s: Seq<char>, i: int, key: Seq<char>) -> Option<(Seq<char>, int)> {
    if matches_at(s, i, key) {
        sp_jstring(s, i + key.len())
    } else {
        None
    }
}

/// The frame closes with `}}` exactly at the end of the input.
pub open spec fn sp_close(s: Seq<char>, i: int) -> bool {
    matches_at(s, i, "}}"@) && i + "}}"@.len() == s.len()
}

// ---------------------------------------------------------------------------
// Round-trip lemmas for the parser components
// ---------------------------------------------------------------------------

/// Splitting an occurrence of a concatenation.
proof fn lemma_matches_at_concat(s: Seq<char>, i: int, a: Seq<char>, b: Seq<char>)
    ensures
        matches_at(s, i, a + b) <==> (matches_at(s, i, a) && matches_at(s, i + a.len(), b)),
{
    if matches_at(s, i, a + b) {
        assert forall|j: int| 0 <= j < a.len() implies s[i + j] == a[j] by {
            assert(s[i + j] == (a + b)[j]);
        }
        assert forall|j: int| 0 <= j < b.len() implies s[i + a.len() + j] == b[j] by {
            assert(s[i + (a.len() + j)] == (a + b)[a.len() + j]);
        }
    }
    if matches_at(s, i, a) && matches_at(s, i + a.len(), b) {
        assert forall|j: int| 0 <= j < (a + b).len() implies s[i + j] == (a + b)[j] by {
            if j < a.len() {
                assert(s[i + j] == a[j]);
            } else {
                assert(s[(i + a.len()) + (j - a.len())] == b[j - a.len()]);
            }
        }
    }
}

/// Reading one character out of an occurrence.
proof fn lemma_matches_at_index(s: Seq<char>, i: int, p: Seq<char>, j: int)
    requires
        matches_at(s, i, p),
        0 <= j < p.len(),
    ensures
        s[i + j] == p[j],
{
}

/// Parsing a string body at an occurrence of an escaped string followed by
/// its closing quote recovers exactly the original string.
#[verifier::rlimit(100)]
proof fn lemma_sp_str_body(s: Seq<char>, i: int, t: Seq<char>)
    requires
        matches_at(s, i, escape_string(t) + seq!['"']),
    ensures
        sp_str_body(s, i) == Some((t, i + escape_string(t).len() + 1)),
    decreases t.len(),
{
    broadcast use vstd::utf8::char_u32_cast;

    if t.len() == 0 {
        assert(escape_string(t) + seq!['"'] =~= seq!['"']);
        lemma_matches_at_index(s, i, escape_string(t) + seq!['"'], 0);
        assert(s[i] == '"');
        assert(t =~= Seq::<char>::empty());
    } else {
        let e0 = escape_char(t[0]);
        let rest = escape_string(t.skip(1));
        assert(escape_string(t) == e0 + rest);
        assert((e0 + rest) + seq!['"'] =~= e0 + (rest + seq!['"']));
        lemma_matches_at_concat(s, i, e0, rest + seq!['"']);
        lemma_sp_str_body(s, i + e0.len(), t.skip(1));
        let u = t[0] as u32;
        if u == 34 || u == 92 || u == 8 || u == 9 || u == 10 || u == 12 || u == 13 {
            lemma_matches_at_index(s, i, e0, 0);
            lemma_matches_at_index(s, i, e0, 1);
            assert(s[i] == e0[0]);
            assert(s[i + 1] == e0[1]);
            assert(sp_str_body(s, i) == cons_char((u as u32) as char, sp_str_body(s, i + 2)));
            vstd::utf8::char_u32_cast(t[0], u);
            assert((u as u32) as char == t[0]);
        } else if u < 32 {
            lemma_matches_at_index(s, i, e0, 0);
            lemma_matches_at_index(s, i, e0, 1);
            lemma_matches_at_index(s, i, e0, 2);
            lemma_matches_at_index(s, i, e0, 3);
            lemma_matches_at_index(s, i, e0, 4);
            lemma_matches_at_index(s, i, e0, 5);
            assert(s[i] == e0[0]);
            assert(s[i + 1] == e0[1]);
            assert(s[i + 2] == e0[2]);
            assert(s[i + 3] == e0[3]);
            assert(s[i + 4] == e0[4]);
            assert(s[i + 5] == e0[5]);
            assert(hex_val(hex_char(u as int / 16)) == u as int / 16);
            assert(hex_val(hex_char(u as int % 16)) == u as int % 16);
            let v = hex_val(s[i + 4]) * 16 + hex_val(s[i + 5]);
            assert(v == u);
            assert(sp_str_body(s, i) == cons_char((v as u32) as char, sp_str_body(s, i + 6)));
            vstd::utf8::char_u32_cast(t[0], v as u32);
            assert((v as u32) as char == t[0]);
        } else {
            lemma_matches_at_index(s, i, e0, 0);
            assert(s[i] == t[0]);
            assert(sp_str_body(s, i) == cons_char(t[0], sp_str_body(s, i + 1)));
        }
        assert(seq![t[0]] + t.skip(1) =~= t);
    }
}

/// Parsing a JSON string at an occurrence of an encoded string recovers it.
proof fn lemma_sp_jstring(s: Seq<char>, i: int, t: Seq<char>)
    requires
        matches_at(s, i, json_string(t)),
    ensures
        sp_jstring(s, i) == Some((t, i + json_string(t).len())),
{
    assert(json_string(t) =~= seq!['"'] + (escape_string(t) + seq!['"']));
    lemma_matches_at_concat(s, i, seq!['"'], escape_string(t) + seq!['"']);
    lemma_matches_at_index(s, i, seq!['"'], 0);
    assert(s[i] == '"');
    lemma_sp_str_body(s, i + 1, t);
}

/// Powers of ten.
pub open spec fn pow10(k: nat) -> int
    decreases k,
{
    if k == 0 {
        1
    } else {
        10 * pow10((k - 1) as nat)
    }
}

/// The canonical decimal digits of a number are digits, start with a
/// non-zero digit unless the number is zero, and are never empty.
proof fn lemma_dec_str_wf(n: int)
    requires
        0 <= n,
    ensures
        dec_str(n).len() >= 1,
        forall|j: int| 0 <= j < dec_str(n).len() ==> is_digit(#[trigger] dec_str(n)[j]),
        n >= 1 ==> dec_str(n)[0] != '0',
        n == 0 ==> dec_str(n) == seq!['0'],
    decreases n,
{
    if n < 10 {
    } else {
        lemma_dec_str_wf(n / 10);
        assert(dec_str(n) == dec_str(n / 10) + seq![digit_char(n % 10)]);
        assert forall|j: int| 0 <= j < dec_str(n).len() implies is_digit(
            #[trigger] dec_str(n)[j],
        ) by {
            if j < dec_str(n / 10).len() {
                assert(dec_str(n)[j] == dec_str(n / 10)[j]);
            }
        }
        assert(dec_str(n)[0] == dec_str(n / 10)[0]);
    }
}

/// Folding the digit run of `n` onto `acc` shifts `acc` by the length of
/// the run and adds `n`.
proof fn lemma_sp_digits_shift(s: Seq<char>, i: int, acc: int, n: int)
    requires
        0 <= n,
        0 <= acc,
        matches_at(s, i, dec_str(n)),
    ensures
        sp_digits(s, i, acc) == sp_digits(
            s,
            i + dec_str(n).len(),
            acc * pow10(dec_str(n).len() as nat) + n,
        ),
    decreases n,
{
    lemma_dec_str_wf(n);
    if n < 10 {
        lemma_matches_at_index(s, i, dec_str(n), 0);
        assert(s[i] == dec_str(n)[0]);
        assert(digit_val(digit_char(n)) == n);
        assert(pow10(0) == 1);
        assert(pow10(1) == 10);
    } else {
        let hd = dec_str(n / 10);
        assert(dec_str(n) == hd + seq![digit_char(n % 10)]);
        lemma_matches_at_concat(s, i, hd, seq![digit_char(n % 10)]);
        lemma_sp_digits_shift(s, i, acc, n / 10);
        let p = pow10(hd.len() as nat);
        let q = n / 10;
        let r = n % 10;
        lemma_matches_at_index(s, i + hd.len(), seq![digit_char(n % 10)], 0);
        assert(s[i + hd.len()] == digit_char(r));
        assert(digit_val(digit_char(r)) == r);
        assert(sp_digits(s, i + hd.len(), acc * p + q) == sp_digits(
            s,
            i + hd.len() + 1,
            (acc * p + q) * 10 + r,
        ));
        assert(pow10(dec_str(n).len() as nat) == 10 * p);
        assert((acc * p + q) * 10 + r == acc * (10 * p) + (q * 10 + r)) by (nonlinear_arith);
        assert(q * 10 + r == n);
    }
}

/// Parsing a number at an occurrence of the canonical digits of `n`,
/// followed by the end of the input or a non-digit, yields `n`.
proof fn lemma_sp_u64(s: Seq<char>, i: int, n: u64)
    requires
        matches_at(s, i, dec_str(n as int)),
        i + dec_str(n as int).len() == s.len() || !is_digit(s[i + dec_str(n as int).len()]),
    ensures
        sp_u64(s, i) == Some((n, i + dec_str(n as int).len())),
{
    lemma_dec_str_wf(n as int);
    let end = i + dec_str(n as int).len();
    lemma_matches_at_index(s, i, dec_str(n as int), 0);
    assert(s[i] == dec_str(n as int)[0]);
    lemma_sp_digits_shift(s, i, 0, n as int);
    assert(0 * pow10(dec_str(n as int).len() as nat) + n == n);
    assert(sp_digits(s, end, n as int) == (n as int, end));
    if s[i] == '0' {
        assert(n == 0);
        assert(dec_str(n as int).len() == 1);
    } else {
        if 1 <= n && i + 1 < s.len() && is_digit(s[i + 1]) {
        }
    }
}

/// Parsing the tail of a string array at an occurrence of its encoded
/// items appends exactly those items.
proof fn lemma_sp_list_tail(s: Seq<char>, i: int, l: Seq<Seq<char>>, acc: Seq<Seq<char>>)
    requires
        matches_at(s, i, json_string_items(l) + seq![']']),
    ensures
        sp_list_tail(s, i, acc) == Some((acc + l, i + json_string_items(l).len() + 1)),
    decreases l.len(),
{
    if l.len() == 0 {
        assert(json_string_items(l) + seq![']'] =~= seq![']']);
        lemma_matches_at_index(s, i, json_string_items(l) + seq![']'], 0);
        assert(s[i] == ']');
        assert(acc + l =~= acc);
    } else {
        let js = json_string(l[0]);
        let rest = json_string_items(l.skip(1));
        assert(json_string_items(l) == seq![','] + js + rest);
        assert((seq![','] + js + rest) + seq![']'] =~= seq![','] + (js + (rest + seq![']'])));
        lemma_matches_at_concat(s, i, seq![','], js + (rest + seq![']']));
        lemma_matches_at_concat(s, i + 1, js, rest + seq![']']);
        lemma_matches_at_index(s, i, seq![','], 0);
        assert(s[i] == ',');
        lemma_sp_jstring(s, i + 1, l[0]);
        let j = i + 1 + js.len();
        assert(js.len() >= 2);
        lemma_sp_list_tail(s, j, l.skip(1), acc.push(l[0]));
        assert(acc.push(l[0]) + l.skip(1) =~= acc + l);
        assert(json_string_items(l).len() == 1 + js.len() + rest.len());
    }
}

/// Parsing a string array at an occurrence of an encoded array recovers it.
proof fn lemma_sp_string_list(s: Seq<char>, i: int, l: Seq<Seq<char>>)
    requires
        matches_at(s, i, json_string_list(l)),
    ensures
        sp_string_list(s, i) == Some((l, i + json_string_list(l).len())),
{
    if l.len() == 0 {
        lemma_matches_at_index(s, i, json_string_list(l), 0);
        lemma_matches_at_index(s, i, json_string_list(l), 1);
        assert(s[i] == json_string_list(l)[0]);
        assert(s[i + 1] == json_string_list(l)[1]);
        assert(l =~= Seq::<Seq<char>>::empty());
    } else {
        let js = json_string(l[0]);
        let rest = json_string_items(l.skip(1));
        assert(json_string_list(l) =~= seq!['['] + (js + (rest + seq![']'])));
        lemma_matches_at_concat(s, i, seq!['['], js + (rest + seq![']']));
        lemma_matches_at_concat(s, i + 1, js, rest + seq![']']);
        lemma_matches_at_index(s, i, seq!['['], 0);
        lemma_matches_at_index(s, i + 1, js, 0);
        assert(s[i] == '[');
        assert(s[i + 1] == js[0]);
        assert(js[0] == '"');
        lemma_sp_jstring(s, i + 1, l[0]);
        let j = i + 1 + js.len();
        lemma_sp_list_tail(s, j, l.skip(1), seq![l[0]]);
        assert(seq![l[0]] + l.skip(1) =~= l);
    }
}

/// A sequence occurs in itself at the start.
proof fn lemma_matches_self(s: Seq<char>)
    ensures
        matches_at(s, 0, s),
{
    assert forall|j: int| 0 <= j < s.len() implies s[0 + j] == #[trigger] s[j] by {}
}

/// Parse a whole client-request frame.
pub open spec fn sp_request(s: Seq<char>) -> Option<ClientRequestView> {
    if s == "\"RoomList\""@ {
        Some(ClientRequestView::RoomList)
    } else if matches_at(s, 0, "{\"Join\":{\"room\":"@) {
        match sp_jstring(s, "{\"Join\":{\"room\":"@.len() as int) {
            Some((room, i)) => match sp_str_field(s, i, ",\"name\":"@) {
                Some((name, j)) => if sp_close(s, j) {
                    Some(ClientRequestView::Join { room, name })
                } else {
                    None
                },
                None => None,
            },
            None => None,
        }
    } else if matches_at(s, 0, "{\"Leave\":{\"room\":"@) {
        match sp_jstring(s, "{\"Leave\":{\"room\":"@.len() as int) {
            Some((room, i)) => if sp_close(s, i) {
                Some(ClientRequestView::Leave { room })
            } else {
                None
            },
            None => None,
        }
    } else if matches_at(s, 0, "{\"Message\":{\"room\":"@) {
        match sp_jstring(s, "{\"Message\":{\"room\":"@.len() as int) {
            Some((room, i)) => match sp_str_field(s, i, ",\"text\":"@) {
                Some((text, j)) => if sp_close(s, j) {
                    Some(ClientRequestView::Message { room, text })
                } else {
                    None
                },
                None => None,
            },
            None => None,
        }
    } else if matches_at(s, 0, "{\"Members\":{\"room\":"@) {
        match sp_jstring(s, "{\"Members\":{\"room\":"@.len() as int) {
            Some((room, i)) => if sp_close(s, i) {
                Some(ClientRequestView::Members { room })
            } else {
                None
            },
            None => None,
        }
    } else {
        None
    }
}

/// Parse a whole server-event frame.
pub open spec fn sp_event(s: Seq<char>) -> Option<ServerEventView> {
    if matches_at(s, 0, "{\"UserJoined\":{\"room\":"@) {
        match sp_jstring(s, "{\"UserJoined\":{\"room\":"@.len() as int) {
            Some((room, i)) => match sp_str_field(s, i, ",\"name\":"@) {
                Some((name, j)) => if sp_close(s, j) {
                    Some(ServerEventView::UserJoined { room, name })
                } else {
                    None
                },
                None => None,
            },
            None => None,
        }
    } else if matches_at(s, 0, "{\"UserLeft\":{\"room\":"@) {
        match sp_jstring(s, "{\"UserLeft\":{\"room\":"@.len() as int) {
            Some((room, i)) => match sp_str_field(s, i, ",\"name\":"@) {
                Some((name, j)) => if sp_close(s, j) {
                    Some(ServerEventView::UserLeft { room, name })
                } else {
                    None
                },
                None => None,
            },
            None => None,
        }
    } else if matches_at(s, 0, "{\"NewMessage\":{\"room\":"@) {
        match sp_jstring(s, "{\"NewMessage\":{\"room\":"@.len() as int) {
            Some((room, i)) => match sp_str_field(s, i, ",\"name\":"@) {
                Some((name, j)) => match sp_str_field(s, j, ",\"text\":"@) {
                    Some((text, k)) => if matches_at(s, k, ",\"ts\":"@) {
                        match sp_u64(s, k + ",\"ts\":"@.len()) {
                            Some((ts, m)) => if sp_close(s, m) {
                                Some(ServerEventView::NewMessage { room, name, text, ts })
                            } else {
                                None
                            },
                            None => None,
                        }
                    } else {
                        None
                    },
                    None => None,
                },
                None => None,
            },
            None => None,
        }
    } else if matches_at(s, 0, "{\"RoomList\":{\"rooms\":"@) {
        match sp_string_list(s, "{\"RoomList\":{\"rooms\":"@.len() as int) {
            Some((rooms, i)) => if sp_close(s, i) {
                Some(ServerEventView::RoomList { rooms })
            } else {
                None
            },
            None => None,
        }
    } else if matches_at(s, 0, "{\"MemberList\":{\"room\":"@) {
        match sp_jstring(s, "{\"MemberList\":{\"room\":"@.len() as int) {
            Some((room, i)) => if matches_at(s, i, ",\"members\":"@) {
                match sp_string_list(s, i + ",\"members\":"@.len()) {
                    Some((members, j)) => if sp_close(s, j) {
                        Some(ServerEventView::MemberList { room, members })
                    } else {
                        None
                    },
                    None => None,
                }
            } else {
                None
            },
            None => None,
        }
    } else {
        None
    }
}

// ---------------------------------------------------------------------------
// The round-trip law
// ---------------------------------------------------------------------------

/// Every client request survives the round trip: parsing the canonical
/// frame of a request yields exactly that request.
pub proof fn lemma_request_round_trip(rv: ClientRequestView)
    ensures
        sp_request(spec_encode_request(rv)) == Some(rv),
{
    reveal_strlit("\"RoomList\"");
    reveal_strlit("{\"Join\":{\"room\":");
    reveal_strlit("{\"Leave\":{\"room\":");
    reveal_strlit("{\"Message\":{\"room\":");
    reveal_strlit("{\"Members\":{\"room\":");
    let s = spec_encode_request(rv);
    match rv {
        ClientRequestView::Join { room, name } => {
            let a = "{\"Join\":{\"room\":"@;
            let b = ",\"name\":"@;
            let r1 = json_string(room);
            let r2 = json_string(name);
            lemma_matches_self(s);
            lemma_matches_at_concat(s, 0, a + r1 + b + r2, "}}"@);
            lemma_matches_at_concat(s, 0, a + r1 + b, r2);
            lemma_matches_at_concat(s, 0, a + r1, b);
            lemma_matches_at_concat(s, 0, a, r1);
            lemma_matches_at_index(s, 0, a, 0);
            assert(s != "\"RoomList\""@);
            lemma_sp_jstring(s, a.len() as int, room);
            lemma_sp_jstring(s, (a.len() + r1.len() + b.len()) as int, name);
        },
        ClientRequestView::Leave { room } => {
            let a = "{\"Leave\":{\"room\":"@;
            let r1 = json_string(room);
            lemma_matches_self(s);
            lemma_matches_at_concat(s, 0, a + r1, "}}"@);
            lemma_matches_at_concat(s, 0, a, r1);
            lemma_matches_at_index(s, 0, a, 0);
            lemma_matches_at_index(s, 0, a, 2);
            assert(s != "\"RoomList\""@);
            assert(!matches_at(s, 0, "{\"Join\":{\"room\":"@)) by {
                if matches_at(s, 0, "{\"Join\":{\"room\":"@) {
                    lemma_matches_at_index(s, 0, "{\"Join\":{\"room\":"@, 2);
                }
            }
            lemma_sp_jstring(s, a.len() as int, room);
        },
        ClientRequestView::Message { room, text } => {
            let a = "{\"Message\":{\"room\":"@;
            let b = ",\"text\":"@;
            let r1 = json_string(room);
            let r2 = json_string(text);
            lemma_matches_self(s);
            lemma_matches_at_concat(s, 0, a + r1 + b + r2, "}}"@);
            lemma_matches_at_concat(s, 0, a + r1 + b, r2);
            lemma_matches_at_concat(s, 0, a + r1, b);
            lemma_matches_at_concat(s, 0, a, r1);
            lemma_matches_at_index(s, 0, a, 0);
            lemma_matches_at_index(s, 0, a, 2);
            assert(s != "\"RoomList\""@);
            assert(!matches_at(s, 0, "{\"Join\":{\"room\":"@)) by {
                if matches_at(s, 0, "{\"Join\":{\"room\":"@) {
                    lemma_matches_at_index(s, 0, "{\"Join\":{\"room\":"@, 2);
                }
            }
            assert(!matches_at(s, 0, "{\"Leave\":{\"room\":"@)) by {
                if matches_at(s, 0, "{\"Leave\":{\"room\":"@) {
                    lemma_matches_at_index(s, 0, "{\"Leave\":{\"room\":"@, 2);
                }
            }
            lemma_sp_jstring(s, a.len() as int, room);
            lemma_sp_jstring(s, (a.len() + r1.len() + b.len()) as int, text);
        },
        ClientRequestView::RoomList => {
        },
        ClientRequestView::Members { room } => {
            let a = "{\"Members\":{\"room\":"@;
            let r1 = json_string(room);
            lemma_matches_self(s);
            lemma_matches_at_concat(s, 0, a + r1, "}}"@);
            lemma_matches_at_concat(s, 0, a, r1);
            lemma_matches_at_index(s, 0, a, 0);
            lemma_matches_at_index(s, 0, a, 2);
            lemma_matches_at_index(s, 0, a, 4);
            assert(s != "\"RoomList\""@);
            assert(!matches_at(s, 0, "{\"Join\":{\"room\":"@)) by {
                if matches_at(s, 0, "{\"Join\":{\"room\":"@) {
                    lemma_matches_at_index(s, 0, "{\"Join\":{\"room\":"@, 2);
                }
            }
            assert(!matches_at(s, 0, "{\"Leave\":{\"room\":"@)) by {
                if matches_at(s, 0, "{\"Leave\":{\"room\":"@) {
                    lemma_matches_at_index(s, 0, "{\"Leave\":{\"room\":"@, 2);
                }
            }
            assert(!matches_at(s, 0, "{\"Message\":{\"room\":"@)) by {
                if matches_at(s, 0, "{\"Message\":{\"room\":"@) {
                    lemma_matches_at_index(s, 0, "{\"Message\":{\"room\":"@, 4);
                }
            }
            lemma_sp_jstring(s, a.len() as int, room);
        },
    }
}

/// Round trip of a `UserJoined` frame.
proof fn lemma_event_rt_user_joined(room: Seq<char>, name: Seq<char>)
    ensures
        sp_event(spec_encode_event(ServerEventView::UserJoined { room, name })) == Some(
            ServerEventView::UserJoined { room, name },
        ),
{
    reveal_strlit("{\"UserJoined\":{\"room\":");
    let s = spec_encode_event(ServerEventView::UserJoined { room, name });
    let a = "{\"UserJoined\":{\"room\":"@;
    let b = ",\"name\":"@;
    let r1 = json_string(room);
    let r2 = json_string(name);
    lemma_matches_self(s);
    lemma_matches_at_concat(s, 0, a + r1 + b + r2, "}}"@);
    lemma_matches_at_concat(s, 0, a + r1 + b, r2);
    lemma_matches_at_concat(s, 0, a + r1, b);
    lemma_matches_at_concat(s, 0, a, r1);
    lemma_sp_jstring(s, a.len() as int, room);
    lemma_sp_jstring(s, (a.len() + r1.len() + b.len()) as int, name);
}

/// Round trip of a `UserLeft` frame.
proof fn lemma_event_rt_user_left(room: Seq<char>, name: Seq<char>)
    ensures
        sp_event(spec_encode_event(ServerEventView::UserLeft { room, name })) == Some(
            ServerEventView::UserLeft { room, name },
        ),
{
    reveal_strlit("{\"UserJoined\":{\"room\":");
    reveal_strlit("{\"UserLeft\":{\"room\":");
    let s = spec_encode_event(ServerEventView::UserLeft { room, name });
    let a = "{\"UserLeft\":{\"room\":"@;
    let b = ",\"name\":"@;
    let r1 = json_string(room);
    let r2 = json_string(name);
    lemma_matches_self(s);
    lemma_matches_at_concat(s, 0, a + r1 + b + r2, "}}"@);
    lemma_matches_at_concat(s, 0, a + r1 + b, r2);
    lemma_matches_at_concat(s, 0, a + r1, b);
    lemma_matches_at_concat(s, 0, a, r1);
    lemma_matches_at_index(s, 0, a, 6);
    assert(!matches_at(s, 0, "{\"UserJoined\":{\"room\":"@)) by {
        if matches_at(s, 0, "{\"UserJoined\":{\"room\":"@) {
            lemma_matches_at_index(s, 0, "{\"UserJoined\":{\"room\":"@, 6);
        }
    }
    lemma_sp_jstring(s, a.len() as int, room);
    lemma_sp_jstring(s, (a.len() + r1.len() + b.len()) as int, name);
}

/// Where each piece of a `NewMessage` frame sits in the encoded text.
proof fn lemma_nm_spine(room: Seq<char>, name: Seq<char>, text: Seq<char>, ts: u64)
    ensures
        ({
            let s = spec_encode_event(ServerEventView::NewMessage { room, name, text, ts });
            let a = "{\"NewMessage\":{\"room\":"@;
            let b = ",\"name\":"@;
            let c = ",\"text\":"@;
            let d = ",\"ts\":"@;
            let r1 = json_string(room);
            let r2 = json_string(name);
            let r3 = json_string(text);
            let num = dec_str(ts as int);
            let i1 = a.len() as int;
            let i3 = i1 + r1.len() + b.len();
            let i5 = i3 + r2.len() + c.len();
            let i7 = i5 + r3.len() + d.len();
            &&& matches_at(s, 0, a)
            &&& matches_at(s, i1, r1)
            &&& matches_at(s, i1 + r1.len(), b)
            &&& matches_at(s, i3, r2)
            &&& matches_at(s, i3 + r2.len(), c)
            &&& matches_at(s, i5, r3)
            &&& matches_at(s, i5 + r3.len(), d)
            &&& matches_at(s, i7, num)
            &&& matches_at(s, i7 + num.len(), "}}"@)
            &&& s.len() == i7 + num.len() + 2
        }),
{
    reveal_strlit("{\"NewMessage\":{\"room\":");
    reveal_strlit("}}");
    let s = spec_encode_event(ServerEventView::NewMessage { room, name, text, ts });
    let a = "{\"NewMessage\":{\"room\":"@;
    let b = ",\"name\":"@;
    let c = ",\"text\":"@;
    let d = ",\"ts\":"@;
    let e = "}}"@;
    let r1 = json_string(room);
    let r2 = json_string(name);
    let r3 = json_string(text);
    let num = dec_str(ts as int);
    lemma_matches_self(s);
    lemma_matches_at_concat(s, 0, a + r1 + b + r2 + c + r3 + d + num, e);
    lemma_matches_at_concat(s, 0, a + r1 + b + r2 + c + r3 + d, num);
    lemma_matches_at_concat(s, 0, a + r1 + b + r2 + c + r3, d);
    lemma_matches_at_concat(s, 0, a + r1 + b + r2 + c, r3);
    lemma_matches_at_concat(s, 0, a + r1 + b + r2, c);
    lemma_matches_at_concat(s, 0, a + r1 + b, r2);
    lemma_matches_at_concat(s, 0, a + r1, b);
    lemma_matches_at_concat(s, 0, a, r1);
}

/// Round trip of a `NewMessage` frame.
proof fn lemma_event_rt_new_message(room: Seq<char>, name: Seq<char>, text: Seq<char>, ts: u64)
    ensures
        sp_event(spec_encode_event(ServerEventView::NewMessage { room, name, text, ts })) == Some(
            ServerEventView::NewMessage { room, name, text, ts },
        ),
{
    reveal_strlit("{\"UserJoined\":{\"room\":");
    reveal_strlit("{\"UserLeft\":{\"room\":");
    reveal_strlit("{\"NewMessage\":{\"room\":");
    reveal_strlit("}}");
    let s = spec_encode_event(ServerEventView::NewMessage { room, name, text, ts });
    let a = "{\"NewMessage\":{\"room\":"@;
    let b = ",\"name\":"@;
    let c = ",\"text\":"@;
    let d = ",\"ts\":"@;
    let e = "}}"@;
    let r1 = json_string(room);
    let r2 = json_string(name);
    let r3 = json_string(text);
    let num = dec_str(ts as int);
    lemma_nm_spine(room, name, text, ts);
    lemma_matches_at_index(s, 0, a, 2);
    assert(!matches_at(s, 0, "{\"UserJoined\":{\"room\":"@)) by {
        if matches_at(s, 0, "{\"UserJoined\":{\"room\":"@) {
            lemma_matches_at_index(s, 0, "{\"UserJoined\":{\"room\":"@, 2);
        }
    }
    assert(!matches_at(s, 0, "{\"UserLeft\":{\"room\":"@)) by {
        if matches_at(s, 0, "{\"UserLeft\":{\"room\":"@) {
            lemma_matches_at_index(s, 0, "{\"UserLeft\":{\"room\":"@, 2);
        }
    }
    lemma_sp_jstring(s, a.len() as int, room);
    let i3 = (a.len() + r1.len() + b.len()) as int;
    lemma_sp_jstring(s, i3, name);
    let i5 = i3 + r2.len() + c.len();
    lemma_sp_jstring(s, i5, text);
    let i7 = i5 + r3.len() + d.len();
    lemma_matches_at_index(s, i7 + num.len(), e, 0);
    assert(s[i7 + num.len()] == '}');
    lemma_sp_u64(s, i7, ts);
}

/// Round trip of a `RoomList` frame.
proof fn lemma_event_rt_room_list(rooms: Seq<Seq<char>>)
    ensures
        sp_event(spec_encode_event(ServerEventView::RoomList { rooms })) == Some(
            ServerEventView::RoomList { rooms },
        ),
{
    reveal_strlit("{\"UserJoined\":{\"room\":");
    reveal_strlit("{\"UserLeft\":{\"room\":");
    reveal_strlit("{\"NewMessage\":{\"room\":");
    reveal_strlit("{\"RoomList\":{\"rooms\":");
    let s = spec_encode_event(ServerEventView::RoomList { rooms });
    let a = "{\"RoomList\":{\"rooms\":"@;
    let r1 = json_string_list(rooms);
    lemma_matches_self(s);
    lemma_matches_at_concat(s, 0, a + r1, "}}"@);
    lemma_matches_at_concat(s, 0, a, r1);
    lemma_matches_at_index(s, 0, a, 2);
    assert(!matches_at(s, 0, "{\"UserJoined\":{\"room\":"@)) by {
        if matches_at(s, 0, "{\"UserJoined\":{\"room\":"@) {
            lemma_matches_at_index(s, 0, "{\"UserJoined\":{\"room\":"@, 2);
        }
    }
    assert(!matches_at(s, 0, "{\"UserLeft\":{\"room\":"@)) by {
        if matches_at(s, 0, "{\"UserLeft\":{\"room\":"@) {
            lemma_matches_at_index(s, 0, "{\"UserLeft\":{\"room\":"@, 2);
        }
    }
    assert(!matches_at(s, 0, "{\"NewMessage\":{\"room\":"@)) by {
        if matches_at(s, 0, "{\"NewMessage\":{\"room\":"@) {
            lemma_matches_at_index(s, 0, "{\"NewMessage\":{\"room\":"@, 2);
        }
    }
    lemma_sp_string_list(s, a.len() as int, rooms);
}

/// Round trip of a `MemberList` frame.
proof fn lemma_event_rt_member_list(room: Seq<char>, members: Seq<Seq<char>>)
    ensures
        sp_event(spec_encode_event(ServerEventView::MemberList { room, members })) == Some(
            ServerEventView::MemberList { room, members },
        ),
{
    reveal_strlit("{\"UserJoined\":{\"room\":");
    reveal_strlit("{\"UserLeft\":{\"room\":");
    reveal_strlit("{\"NewMessage\":{\"room\":");
    reveal_strlit("{\"RoomList\":{\"rooms\":");
    reveal_strlit("{\"MemberList\":{\"room\":");
    let s = spec_encode_event(ServerEventView::MemberList { room, members });
    let a = "{\"MemberList\":{\"room\":"@;
    let b = ",\"members\":"@;
    let r1 = json_string(room);
    let r2 = json_string_list(members);
    lemma_matches_self(s);
    lemma_matches_at_concat(s, 0, a + r1 + b + r2, "}}"@);
    lemma_matches_at_concat(s, 0, a + r1 + b, r2);
    lemma_matches_at_concat(s, 0, a + r1, b);
    lemma_matches_at_concat(s, 0, a, r1);
    lemma_matches_at_index(s, 0, a, 2);
    assert(!matches_at(s, 0, "{\"UserJoined\":{\"room\":"@)) by {
        if matches_at(s, 0, "{\"UserJoined\":{\"room\":"@) {
            lemma_matches_at_index(s, 0, "{\"UserJoined\":{\"room\":"@, 2);
        }
    }
    assert(!matches_at(s, 0, "{\"UserLeft\":{\"room\":"@)) by {
        if matches_at(s, 0, "{\"UserLeft\":{\"room\":"@) {
            lemma_matches_at_index(s, 0, "{\"UserLeft\":{\"room\":"@, 2);
        }
    }
    assert(!matches_at(s, 0, "{\"NewMessage\":{\"room\":"@)) by {
        if matches_at(s, 0, "{\"NewMessage\":{\"room\":"@) {
            lemma_matches_at_index(s, 0, "{\"NewMessage\":{\"room\":"@, 2);
        }
    }
    assert(!matches_at(s, 0, "{\"RoomList\":{\"rooms\":"@)) by {
        if matches_at(s, 0, "{\"RoomList\":{\"rooms\":"@) {
            lemma_matches_at_index(s, 0, "{\"RoomList\":{\"rooms\":"@, 2);
        }
    }
    lemma_sp_jstring(s, a.len() as int, room);
    lemma_sp_string_list(s, (a.len() + r1.len() + b.len()) as int, members);
}

/// Every server event survives the round trip: parsing the canonical
/// frame of an event yields exactly that event.
pub proof fn lemma_event_round_trip(ev: ServerEventView)
    ensures
        sp_event(spec_encode_event(ev)) == Some(ev),
{
    match ev {
        ServerEventView::UserJoined { room, name } => lemma_event_rt_user_joined(room, name),
        ServerEventView::UserLeft { room, name } => lemma_event_rt_user_left(room, name),
        ServerEventView::NewMessage { room, name, text, ts } => lemma_event_rt_new_message(
            room,
            name,
            text,
            ts,
        ),
        ServerEventView::RoomList { rooms } => lemma_event_rt_room_list(rooms),
        ServerEventView::MemberList { room, members } => lemma_event_rt_member_list(room, members),
    }
}

/// Encoding is injective: two requests with the same frame are the same
/// request.
pub proof fn lemma_encode_request_injective(a: ClientRequestView, b: ClientRequestView)
    requires
        spec_encode_request(a) == spec_encode_request(b),
    ensures
        a == b,
{
    lemma_request_round_trip(a);
    lemma_request_round_trip(b);
}

/// Encoding is injective: two events with the same frame are the same
/// event.
pub proof fn lemma_encode_event_injective(a: ServerEventView, b: ServerEventView)
    requires
        spec_encode_event(a) == spec_encode_event(b),
    ensures
        a == b,
{
    lemma_event_round_trip(a);
    lemma_event_round_trip(b);
}

// ---------------------------------------------------------------------------
// The executable encoder
// ---------------------------------------------------------------------------

/// Relies on `String::push`: appends the given character to the end of the
/// string.
#[verifier::external_body]
fn push_char(s: &mut String, c: char)
    ensures
        final(s)@ == old(s)@.push(c),
{
    s.push(c);
}

/// Escaping a string one character longer appends that character's escape.
proof fn lemma_escape_string_push(x: Seq<char>, c: char)
    ensures
        escape_string(x.push(c)) == escape_string(x) + escape_char(c),
    decreases x.len(),
{
    if x.len() == 0 {
        assert(x.push(c) =~= seq![c]);
        assert(x.push(c).skip(1) =~= Seq::<char>::empty());
        assert(escape_string(x.push(c)) == escape_char(c) + escape_string(Seq::<char>::empty()));
        assert(escape_char(c) + Seq::<char>::empty() =~= escape_char(c));
        assert(escape_string(x) + escape_char(c) =~= escape_char(c));
    } else {
        assert(x.push(c).skip(1) =~= x.skip(1).push(c));
        lemma_escape_string_push(x.skip(1), c);
        assert(escape_string(x.push(c)) == escape_char(x[0]) + (escape_string(x.skip(1))
            + escape_char(c)));
        assert(escape_char(x[0]) + (escape_string(x.skip(1)) + escape_char(c)) =~= (escape_char(
            x[0],
        ) + escape_string(x.skip(1))) + escape_char(c));
    }
}

/// Encoding one more list item appends a comma and its string form.
proof fn lemma_json_items_push(x: Seq<Seq<char>>, t: Seq<char>)
    ensures
        json_string_items(x.push(t)) == json_string_items(x) + (seq![','] + json_string(t)),
    decreases x.len(),
{
    if x.len() == 0 {
        assert(x.push(t) =~= seq![t]);
        assert(x.push(t).skip(1) =~= Seq::<Seq<char>>::empty());
        assert(json_string_items(x.push(t)) == seq![','] + json_string(t) + json_string_items(
            Seq::<Seq<char>>::empty(),
        ));
        assert(seq![','] + json_string(t) + Seq::<char>::empty() =~= seq![','] + json_string(t));
        assert(json_string_items(x) + (seq![','] + json_string(t)) =~= seq![','] + json_string(t));
    } else {
        assert(x.push(t).skip(1) =~= x.skip(1).push(t));
        lemma_json_items_push(x.skip(1), t);
        assert(json_string_items(x.push(t)) == seq![','] + json_string(x[0]) + (json_string_items(
            x.skip(1),
        ) + (seq![','] + json_string(t))));
        assert(seq![','] + json_string(x[0]) + (json_string_items(x.skip(1)) + (seq![',']
            + json_string(t))) =~= (seq![','] + json_string(x[0]) + json_string_items(x.skip(1)))
            + (seq![','] + json_string(t)));
    }
}

/// The digit character of a value below ten.
fn digit_char_of(d: u64) -> (c: char)
    requires
        d < 10,
    ensures
        c == digit_char(d as int),
{
    if d == 0 {
        '0'
    } else if d == 1 {
        '1'
    } else if d == 2 {
        '2'
    } else if d == 3 {
        '3'
    } else if d == 4 {
        '4'
    } else if d == 5 {
        '5'
    } else if d == 6 {
        '6'
    } else if d == 7 {
        '7'
    } else if d == 8 {
        '8'
    } else {
        '9'
    }
}

/// The lower-case hexadecimal digit character of a value below sixteen.
fn hex_char_of(d: u32) -> (c: char)
    requires
        d < 16,
    ensures
        c == hex_char(d as int),
{
    if d < 10 {
        digit_char_of(d as u64)
    } else if d == 10 {
        'a'
    } else if d == 11 {
        'b'
    } else if d == 12 {
        'c'
    } else if d == 13 {
        'd'
    } else if d == 14 {
        'e'
    } else {
        'f'
    }
}

/// Append the canonical decimal digits of `n`.
fn encode_u64_into(out: &mut String, n: u64)
    ensures
        final(out)@ == old(out)@ + dec_str(n as int),
    decreases n,
{
    if n < 10 {
        push_char(out, digit_char_of(n));
        proof {
            assert(old(out)@.push(digit_char(n as int)) =~= old(out)@ + dec_str(n as int));
        }
    } else {
        encode_u64_into(out, n / 10);
        let ghost mid = out@;
        push_char(out, digit_char_of(n % 10));
        proof {
            assert(mid.push(digit_char((n % 10) as int)) =~= mid + seq![
                digit_char((n % 10) as int),
            ]);
            assert((old(out)@ + dec_str((n / 10) as int)) + seq![digit_char((n % 10) as int)]
                =~= old(out)@ + (dec_str((n / 10) as int) + seq![digit_char((n % 10) as int)]));
        }
    }
}

/// Append one character in its JSON-escaped form.
fn encode_escaped_char_into(out: &mut String, c: char)
    ensures
        final(out)@ == old(out)@ + escape_char(c),
{
    let u = c as u32;
    let ghost start = out@;
    if u == 34 {
        push_char(out, '\\');
        push_char(out, '"');
        proof {
            assert(start.push('\\').push('"') =~= start + escape_char(c));
        }
    } else if u == 92 {
        push_char(out, '\\');
        push_char(out, '\\');
        proof {
            assert(start.push('\\').push('\\') =~= start + escape_char(c));
        }
    } else if u == 8 {
        push_char(out, '\\');
        push_char(out, 'b');
        proof {
            assert(start.push('\\').push('b') =~= start + escape_char(c));
        }
    } else if u == 9 {
        push_char(out, '\\');
        push_char(out, 't');
        proof {
            assert(start.push('\\').push('t') =~= start + escape_char(c));
        }
    } else if u == 10 {
        push_char(out, '\\');
        push_char(out, 'n');
        proof {
            assert(start.push('\\').push('n') =~= start + escape_char(c));
        }
    } else if u == 12 {
        push_char(out, '\\');
        push_char(out, 'f');
        proof {
            assert(start.push('\\').push('f') =~= start + escape_char(c));
        }
    } else if u == 13 {
        push_char(out, '\\');
        push_char(out, 'r');
        proof {
            assert(start.push('\\').push('r') =~= start + escape_char(c));
        }
    } else if u < 32 {
        push_char(out, '\\');
        push_char(out, 'u');
        push_char(out, '0');
        push_char(out, '0');
        push_char(out, hex_char_of(u / 16));
        push_char(out, hex_char_of(u % 16));
        proof {
            assert(start.push('\\').push('u').push('0').push('0').push(
                hex_char(u as int / 16),
            ).push(hex_char(u as int % 16)) =~= start + escape_char(c));
        }
    } else {
        push_char(out, c);
        proof {
            assert(start.push(c) =~= start + escape_char(c));
        }
    }
}

/// Append a whole JSON string literal: quote, escaped content, quote.
fn encode_json_string_into(out: &mut String, t: &str)
    ensures
        final(out)@ == old(out)@ + json_string(t@),
{
    let ghost start = out@;
    push_char(out, '"');
    proof {
        assert(start.push('"') =~= start + seq!['"']);
        assert(t@.take(0) =~= Seq::<char>::empty());
    }
    let n = t.unicode_len();
    let mut k: usize = 0;
    while k < n
        invariant
            n == t@.len(),
            k <= n,
            out@ == start + seq!['"'] + escape_string(t@.take(k as int)),
        decreases n - k,
    {
        let c = t.get_char(k);
        let ghost mid = out@;
        encode_escaped_char_into(out, c);
        proof {
            lemma_escape_string_push(t@.take(k as int), c);
            assert(t@.take(k as int).push(t@[k as int]) =~= t@.take(k as int + 1));
            assert((start + seq!['"'] + escape_string(t@.take(k as int))) + escape_char(c)
                =~= start + seq!['"'] + (escape_string(t@.take(k as int)) + escape_char(c)));
        }
        k = k + 1;
    }
    let ghost mid = out@;
    push_char(out, '"');
    proof {
        assert(t@.take(n as int) =~= t@);
        assert(mid.push('"') =~= mid + seq!['"']);
        assert(start + seq!['"'] + escape_string(t@) + seq!['"'] =~= start + (seq!['"']
            + escape_string(t@) + seq!['"']));
    }
}

/// Append a JSON array of strings.
fn encode_string_list_into(out: &mut String, items: &Vec<String>)
    ensures
        final(out)@ == old(out)@ + json_string_list(views_of(items@)),
{
    let ghost start = out@;
    let ghost l = views_of(items@);
    proof {
        assert(l.len() == items@.len());
    }
    push_char(out, '[');
    if items.len() == 0 {
        push_char(out, ']');
        proof {
            assert(start.push('[').push(']') =~= start + json_string_list(l));
        }
    } else {
        proof {
            assert(start.push('[') =~= start + seq!['[']);
            assert(l[0] == items@[0]@);
        }
        encode_json_string_into(out, items[0].as_str());
        proof {
            assert(l.subrange(1, 1) =~= Seq::<Seq<char>>::empty());
            assert((start + seq!['[']) + json_string(l[0]) =~= start + seq!['['] + json_string(
                l[0],
            ) + json_string_items(l.subrange(1, 1)));
        }
        let n = items.len();
        let mut k: usize = 1;
        while k < n
            invariant
                n == items@.len(),
                1 <= k <= n,
                l == views_of(items@),
                l.len() == n,
                out@ == start + seq!['['] + json_string(l[0]) + json_string_items(
                    l.subrange(1, k as int),
                ),
            decreases n - k,
        {
            let ghost mid = out@;
            push_char(out, ',');
            encode_json_string_into(out, items[k].as_str());
            proof {
                assert(l[k as int] == items@[k as int]@);
                lemma_json_items_push(l.subrange(1, k as int), l[k as int]);
                assert(l.subrange(1, k as int).push(l[k as int]) =~= l.subrange(1, k as int + 1));
                assert(mid.push(',') =~= mid + seq![',']);
                assert(((mid + seq![',']) + json_string(l[k as int])) =~= start + seq!['[']
                    + json_string(l[0]) + (json_string_items(l.subrange(1, k as int)) + (seq![',']
                    + json_string(l[k as int]))));
            }
            k = k + 1;
        }
        let ghost mid = out@;
        push_char(out, ']');
        proof {
            assert(l.subrange(1, n as int) =~= l.skip(1));
            assert(mid.push(']') =~= mid + seq![']']);
            assert(start + seq!['['] + json_string(l[0]) + json_string_items(l.skip(1)) + seq![']']
                =~= start + (seq!['['] + json_string(l[0]) + json_string_items(l.skip(1))
                + seq![']']));
        }
    }
}

/// Encode a client request into its canonical JSON frame.
pub fn encode_request(req: &ClientRequest) -> (r: String)
    ensures
        r@ == spec_encode_request(req@),
{
    let mut out = String::new();
    match req {
        ClientRequest::Join { room, name } => {
            out.append("{\"Join\":{\"room\":");
            encode_json_string_into(&mut out, room.as_str());
            out.append(",\"name\":");
            encode_json_string_into(&mut out, name.as_str());
            out.append("}}");
        },
        ClientRequest::Leave { room } => {
            out.append("{\"Leave\":{\"room\":");
            encode_json_string_into(&mut out, room.as_str());
            out.append("}}");
        },
        ClientRequest::Message { room, text } => {
            out.append("{\"Message\":{\"room\":");
            encode_json_string_into(&mut out, room.as_str());
            out.append(",\"text\":");
            encode_json_string_into(&mut out, text.as_str());
            out.append("}}");
        },
        ClientRequest::RoomList => {
            out.append("\"RoomList\"");
        },
        ClientRequest::Members { room } => {
            out.append("{\"Members\":{\"room\":");
            encode_json_string_into(&mut out, room.as_str());
            out.append("}}");
        },
    }
    proof {
        assert(out@ =~= spec_encode_request(req@));
    }
    out
}

/// Encode a server event into its canonical JSON frame.
pub fn encode_event(ev: &ServerEvent) -> (r: String)
    ensures
        r@ == spec_encode_event(ev@),
{
    let mut out = String::new();
    match ev {
        ServerEvent::UserJoined { room, name } => {
            out.append("{\"UserJoined\":{\"room\":");
            encode_json_string_into(&mut out, room.as_str());
            out.append(",\"name\":");
            encode_json_string_into(&mut out, name.as_str());
            out.append("}}");
        },
        ServerEvent::UserLeft { room, name } => {
            out.append("{\"UserLeft\":{\"room\":");
            encode_json_string_into(&mut out, room.as_str());
            out.append(",\"name\":");
            encode_json_string_into(&mut out, name.as_str());
            out.append("}}");
        },
        ServerEvent::NewMessage { room, name, text, ts } => {
            out.append("{\"NewMessage\":{\"room\":");
            encode_json_string_into(&mut out, room.as_str());
            out.append(",\"name\":");
            encode_json_string_into(&mut out, name.as_str());
            out.append(",\"text\":");
            encode_json_string_into(&mut out, text.as_str());
            out.append(",\"ts\":");
            encode_u64_into(&mut out, *ts);
            out.append("}}");
        },
        ServerEvent::RoomList { rooms } => {
            out.append("{\"RoomList\":{\"rooms\":");
            encode_string_list_into(&mut out, rooms);
            out.append("}}");
        },
        ServerEvent::MemberList { room, members } => {
            out.append("{\"MemberList\":{\"room\":");
            encode_json_string_into(&mut out, room.as_str());
            out.append(",\"members\":");
            encode_string_list_into(&mut out, members);
            out.append("}}");
        },
    }
    proof {
        assert(out@ =~= spec_encode_event(ev@));
    }
    out
}

// ---------------------------------------------------------------------------
// The executable parser
// ---------------------------------------------------------------------------

/// Whether a character is an ASCII decimal digit.
fn is_digit_c(c: char) -> (r: bool)
    ensures
        r == is_digit(c),
{
    let u = c as u32;
    48 <= u && u <= 57
}

/// The value of a lower-case hexadecimal digit, if it is one.
fn hex_val_of(c: char) -> (r: Option<u32>)
    ensures
        match r {
            Some(v) => is_hex_lower(c) && v as int == hex_val(c) && v < 16,
            None => !is_hex_lower(c),
        },
{
    let u = c as u32;
    if 48 <= u && u <= 57 {
        Some(u - 48)
    } else if 97 <= u && u <= 102 {
        Some(u - 87)
    } else {
        None
    }
}

/// Whether the literal `lit` occurs in `s` at character index `i`; on
/// success, the index just past the occurrence.
fn match_lit(s: &str, n: usize, i: usize, lit: &str) -> (r: Option<usize>)
    requires
        n == s@.len(),
        i <= n,
    ensures
        match r {
            Some(j) => matches_at(s@, i as int, lit@) && j == i + lit@.len() && i <= j <= n,
            None => !matches_at(s@, i as int, lit@),
        },
{
    let m = lit.unicode_len();
    if m > n - i {
        return None;
    }
    let mut j: usize = 0;
    while j < m
        invariant
            n == s@.len(),
            m == lit@.len(),
            i <= n,
            m <= n - i,
            j <= m,
            forall|k: int| 0 <= k < j ==> s@[i as int + k] == lit@[k],
        decreases m - j,
    {
        let a = s.get_char(i + j);
        let b = lit.get_char(j);
        if a != b {
            proof {
                assert(!matches_at(s@, i as int, lit@)) by {
                    if matches_at(s@, i as int, lit@) {
                        lemma_matches_at_index(s@, i as int, lit@, j as int);
                    }
                }
            }
            return None;
        }
        j = j + 1;
    }
    Some(i + m)
}

/// Collect a vector of characters into an owned string.
fn chars_to_string(v: &Vec<char>) -> (r: String)
    ensures
        r@ == v@,
{
    let mut out = String::new();
    proof {
        assert(v@.take(0) =~= Seq::<char>::empty());
    }
    let mut k: usize = 0;
    while k < v.len()
        invariant
            k <= v@.len(),
            out@ == v@.take(k as int),
        decreases v@.len() - k,
    {
        push_char(&mut out, v[k]);
        proof {
            assert(v@.take(k as int).push(v@[k as int]) =~= v@.take(k as int + 1));
        }
        k = k + 1;
    }
    proof {
        assert(v@.take(v@.len() as int) =~= v@);
    }
    out
}

/// Prepend an already-decoded prefix to a string-body parse result.
pub open spec fn prefix_result(p: Seq<char>, r: Option<(Seq<char>, int)>) -> Option<
    (Seq<char>, int),
> {
    match r {
        Some(tj) => Some((p + tj.0, tj.1)),
        None => None,
    }
}

/// Prepending commutes with decoding one more character.
proof fn lemma_prefix_cons(p: Seq<char>, c: char, r: Option<(Seq<char>, int)>)
    ensures
        prefix_result(p, cons_char(c, r)) == prefix_result(p.push(c), r),
{
    match r {
        Some(tj) => {
            assert(p + (seq![c] + tj.0) =~= p.push(c) + tj.0);
        },
        None => {},
    }
}

/// Parse a string body from just after the opening quote, through the
/// closing quote. Implements `sp_str_body` exactly.
fn parse_str_body(s: &str, n: usize, i0: usize) -> (r: Option<(String, usize)>)
    requires
        n == s@.len(),
        i0 <= n,
    ensures
        match r {
            Some(tj) => sp_str_body(s@, i0 as int) == Some((tj.0@, tj.1 as int)) && i0 < tj.1 <= n,
            None => sp_str_body(s@, i0 as int) is None,
        },
{
    broadcast use vstd::utf8::char_u32_cast;

    let mut acc: Vec<char> = Vec::new();
    let mut i: usize = i0;
    proof {
        assert(prefix_result(acc@, sp_str_body(s@, i0 as int)) == sp_str_body(s@, i0 as int)) by {
            match sp_str_body(s@, i0 as int) {
                Some(tj) => {
                    assert(acc@ + tj.0 =~= tj.0);
                },
                None => {},
            }
        }
    }
    loop
        invariant
            n == s@.len(),
            i0 <= i <= n,
            sp_str_body(s@, i0 as int) == prefix_result(acc@, sp_str_body(s@, i as int)),
        decreases n - i,
    {
        if i >= n {
            return None;
        }
        let c = s.get_char(i);
        let u = c as u32;
        if u == 34 {
            let t = chars_to_string(&acc);
            proof {
                assert(acc@ + Seq::<char>::empty() =~= acc@);
            }
            return Some((t, i + 1));
        } else if u == 92 {
            if n - i <= 1 {
                return None;
            }
            let e = s.get_char(i + 1);
            let eu = e as u32;
            if eu == 117 {
                if n - i <= 5 {
                    return None;
                }
                if s.get_char(i + 2) != '0' || s.get_char(i + 3) != '0' {
                    return None;
                }
                let h1 = match hex_val_of(s.get_char(i + 4)) {
                    Some(v) => v,
                    None => {
                        return None;
                    },
                };
                let h2 = match hex_val_of(s.get_char(i + 5)) {
                    Some(v) => v,
                    None => {
                        return None;
                    },
                };
                let v = h1 * 16 + h2;
                if v < 32 && !(v == 8 || v == 9 || v == 10 || v == 12 || v == 13) {
                    let d = (v as u8) as char;
                    proof {
                        lemma_prefix_cons(acc@, (v as u32) as char, sp_str_body(s@, i as int + 6));
                    }
                    acc.push(d);
                    i = i + 6;
                } else {
                    return None;
                }
            } else if eu == 34 {
                proof {
                    lemma_prefix_cons(acc@, (34 as u32) as char, sp_str_body(s@, i as int + 2));
                }
                acc.push('"');
                i = i + 2;
            } else if eu == 92 {
                proof {
                    lemma_prefix_cons(acc@, (92 as u32) as char, sp_str_body(s@, i as int + 2));
                }
                acc.push('\\');
                i = i + 2;
            } else if eu == 98 {
                proof {
                    lemma_prefix_cons(acc@, (8 as u32) as char, sp_str_body(s@, i as int + 2));
                }
                acc.push('\u{8}');
                i = i + 2;
            } else if eu == 116 {
                proof {
                    lemma_prefix_cons(acc@, (9 as u32) as char, sp_str_body(s@, i as int + 2));
                }
                acc.push('\t');
                i = i + 2;
            } else if eu == 110 {
                proof {
                    lemma_prefix_cons(acc@, (10 as u32) as char, sp_str_body(s@, i as int + 2));
                }
                acc.push('\n');
                i = i + 2;
            } else if eu == 102 {
                proof {
                    lemma_prefix_cons(acc@, (12 as u32) as char, sp_str_body(s@, i as int + 2));
                }
                acc.push('\u{c}');
                i = i + 2;
            } else if eu == 114 {
                proof {
                    lemma_prefix_cons(acc@, (13 as u32) as char, sp_str_body(s@, i as int + 2));
                }
                acc.push('\r');
                i = i + 2;
            } else {
                return None;
            }
        } else if u < 32 {
            return None;
        } else {
            proof {
                lemma_prefix_cons(acc@, c, sp_str_body(s@, i as int + 1));
            }
            acc.push(c);
            i = i + 1;
        }
    }
}

/// Parse a complete JSON string starting at its opening quote.
/// Implements `sp_jstring` exactly.
fn parse_jstring(s: &str, n: usize, i: usize) -> (r: Option<(String, usize)>)
    requires
        n == s@.len(),
        i <= n,
    ensures
        match r {
            Some(tj) => sp_jstring(s@, i as int) == Some((tj.0@, tj.1 as int)) && i < tj.1 <= n,
            None => sp_jstring(s@, i as int) is None,
        },
{
    if i < n && s.get_char(i) == '"' {
        parse_str_body(s, n, i + 1)
    } else {
        None
    }
}

/// The folded value of a digit run never falls below its accumulator.
proof fn lemma_sp_digits_lower(s: Seq<char>, i: int, acc: int)
    requires
        0 <= acc,
    ensures
        sp_digits(s, i, acc).0 >= acc,
        sp_digits(s, i, acc).1 >= i,
    decreases s.len() - i,
{
    if 0 <= i < s.len() && is_digit(s[i]) {
        lemma_sp_digits_lower(s, i + 1, acc * 10 + digit_val(s[i]));
    }
}

/// Parse a maximal digit run, folding onto `acc`. Implements `sp_digits`,
/// reporting a value that does not fit in a `u64` as `None`.
pub(crate) fn parse_digits(s: &str, n: usize, j: usize, acc: u64) -> (r: Option<(u64, usize)>)
    requires
        n == s@.len(),
        j <= n,
    ensures
        match r {
            Some(vk) => sp_digits(s@, j as int, acc as int) == (vk.0 as int, vk.1 as int) && j
                <= vk.1 <= n,
            None => sp_digits(s@, j as int, acc as int).0 > u64::MAX,
        },
    decreases n - j,
{
    if j >= n {
        return Some((acc, j));
    }
    let c = s.get_char(j);
    if !is_digit_c(c) {
        return Some((acc, j));
    }
    let d = ((c as u32) - 48) as u64;
    let max10 = u64::MAX / 10;
    if acc > max10 || (acc == max10 && d > u64::MAX % 10) {
        proof {
            assert(acc as int * 10 + d as int > u64::MAX) by {
                if acc as int > max10 as int {
                    vstd::arithmetic::mul::lemma_mul_inequality(
                        max10 as int + 1,
                        acc as int,
                        10,
                    );
                }
            }
            lemma_sp_digits_lower(s@, j as int + 1, acc as int * 10 + d as int);
        }
        return None;
    }
    proof {
        assert(acc as int * 10 + d as int <= u64::MAX) by {
            vstd::arithmetic::mul::lemma_mul_inequality(acc as int, max10 as int, 10);
        }
    }
    parse_digits(s, n, j + 1, acc * 10 + d)
}

/// Parse a canonical unsigned decimal number. Implements `sp_u64` exactly.
fn parse_u64_at(s: &str, n: usize, i: usize) -> (r: Option<(u64, usize)>)
    requires
        n == s@.len(),
        i <= n,
    ensures
        match r {
            Some(vj) => sp_u64(s@, i as int) == Some((vj.0, vj.1 as int)) && i < vj.1 <= n,
            None => sp_u64(s@, i as int) is None,
        },
{
    if i >= n {
        return None;
    }
    let c0 = s.get_char(i);
    if !is_digit_c(c0) {
        return None;
    }
    if c0 == '0' && i + 1 < n && is_digit_c(s.get_char(i + 1)) {
        return None;
    }
    match parse_digits(s, n, i, 0) {
        None => None,
        Some((v, j)) => {
            proof {
                lemma_sp_digits_lower(s@, i as int + 1, digit_val(s@[i as int]));
            }
            Some((v, j))
        },
    }
}

/// Parse a JSON array of strings. Implements `sp_string_list` exactly.
fn parse_string_list(s: &str, n: usize, i: usize) -> (r: Option<(Vec<String>, usize)>)
    requires
        n == s@.len(),
        i <= n,
    ensures
        match r {
            Some(lj) => sp_string_list(s@, i as int) == Some((views_of(lj.0@), lj.1 as int)) && i
                < lj.1 <= n,
            None => sp_string_list(s@, i as int) is None,
        },
{
    if i >= n || s.get_char(i) != '[' {
        return None;
    }
    if i + 1 < n && s.get_char(i + 1) == ']' {
        let empty: Vec<String> = Vec::new();
        proof {
            assert(views_of(empty@) =~= Seq::<Seq<char>>::empty());
        }
        return Some((empty, i + 2));
    }
    let (t0, j0) = match parse_jstring(s, n, i + 1) {
        Some(x) => x,
        None => {
            return None;
        },
    };
    let mut acc: Vec<String> = Vec::new();
    let ghost t0v = t0@;
    acc.push(t0);
    proof {
        assert(views_of(acc@) =~= seq![t0v]);
    }
    let mut j: usize = j0;
    loop
        invariant
            n == s@.len(),
            i < j <= n,
            sp_string_list(s@, i as int) == sp_list_tail(s@, j as int, views_of(acc@)),
        decreases n - j,
    {
        if j >= n {
            return None;
        }
        let c = s.get_char(j);
        if c == ']' {
            return Some((acc, j + 1));
        }
        if c != ',' {
            return None;
        }
        match parse_jstring(s, n, j + 1) {
            None => {
                return None;
            },
            Some((t, j2)) => {
                proof {
                    assert(views_of(acc@.push(t)) =~= views_of(acc@).push(t@));
                }
                acc.push(t);
                j = j2;
            },
        }
    }
}

/// Decode a client-request frame; accepts exactly the canonical frames the
/// encoder produces (`sp_request` is the precise definition).
pub fn decode_request(s: &str) -> (r: Option<ClientRequest>)
    ensures
        match r {
            Some(v) => sp_request(s@) == Some(v@),
            None => sp_request(s@) is None,
        },
{
    let n = s.unicode_len();
    match match_lit(s, n, 0, "\"RoomList\"") {
        Some(j) => {
            if j == n {
                proof {
                    assert(s@ =~= "\"RoomList\""@);
                }
                return Some(ClientRequest::RoomList);
            }
        },
        None => {
            proof {
                if s@ == "\"RoomList\""@ {
                    lemma_matches_self(s@);
                }
            }
        },
    }
    if let Some(i1) = match_lit(s, n, 0, "{\"Join\":{\"room\":") {
        if let Some((room, i2)) = parse_jstring(s, n, i1) {
            if let Some(i3) = match_lit(s, n, i2, ",\"name\":") {
                if let Some((name, i4)) = parse_jstring(s, n, i3) {
                    if let Some(i5) = match_lit(s, n, i4, "}}") {
                        if i5 == n {
                            return Some(ClientRequest::Join { room, name });
                        }
                    }
                }
            }
        }
        return None;
    }
    if let Some(i1) = match_lit(s, n, 0, "{\"Leave\":{\"room\":") {
        if let Some((room, i2)) = parse_jstring(s, n, i1) {
            if let Some(i3) = match_lit(s, n, i2, "}}") {
                if i3 == n {
                    return Some(ClientRequest::Leave { room });
                }
            }
        }
        return None;
    }
    if let Some(i1) = match_lit(s, n, 0, "{\"Message\":{\"room\":") {
        if let Some((room, i2)) = parse_jstring(s, n, i1) {
            if let Some(i3) = match_lit(s, n, i2, ",\"text\":") {
                if let Some((text, i4)) = parse_jstring(s, n, i3) {
                    if let Some(i5) = match_lit(s, n, i4, "}}") {
                        if i5 == n {
                            return Some(ClientRequest::Message { room, text });
                        }
                    }
                }
            }
        }
        return None;
    }
    if let Some(i1) = match_lit(s, n, 0, "{\"Members\":{\"room\":") {
        if let Some((room, i2)) = parse_jstring(s, n, i1) {
            if let Some(i3) = match_lit(s, n, i2, "}}") {
                if i3 == n {
                    return Some(ClientRequest::Members { room });
                }
            }
        }
        return None;
    }
    None
}

/// Decode a server-event frame; accepts exactly the canonical frames the
/// encoder produces (`sp_event` is the precise definition).
pub fn decode_event(s: &str) -> (r: Option<ServerEvent>)
    ensures
        match r {
            Some(v) => sp_event(s@) == Some(v@),
            None => sp_event(s@) is None,
        },
{
    let n = s.unicode_len();
    if let Some(i1) = match_lit(s, n, 0, "{\"UserJoined\":{\"room\":") {
        if let Some((room, i2)) = parse_jstring(s, n, i1) {
            if let Some(i3) = match_lit(s, n, i2, ",\"name\":") {
                if let Some((name, i4)) = parse_jstring(s, n, i3) {
                    if let Some(i5) = match_lit(s, n, i4, "}}") {
                        if i5 == n {
                            return Some(ServerEvent::UserJoined { room, name });
                        }
                    }
                }
            }
        }
        return None;
    }
    if let Some(i1) = match_lit(s, n, 0, "{\"UserLeft\":{\"room\":") {
        if let Some((room, i2)) = parse_jstring(s, n, i1) {
            if let Some(i3) = match_lit(s, n, i2, ",\"name\":") {
                if let Some((name, i4)) = parse_jstring(s, n, i3) {
                    if let Some(i5) = match_lit(s, n, i4, "}}") {
                        if i5 == n {
                            return Some(ServerEvent::UserLeft { room, name });
                        }
                    }
                }
            }
        }
        return None;
    }
    if let Some(i1) = match_lit(s, n, 0, "{\"NewMessage\":{\"room\":") {
        if let Some((room, i2)) = parse_jstring(s, n, i1) {
            if let Some(i3) = match_lit(s, n, i2, ",\"name\":") {
                if let Some((name, i4)) = parse_jstring(s, n, i3) {
                    if let Some(i5) = match_lit(s, n, i4, ",\"text\":") {
                        if let Some((text, i6)) = parse_jstring(s, n, i5) {
                            if let Some(i7) = match_lit(s, n, i6, ",\"ts\":") {
                                if let Some((ts, i8)) = parse_u64_at(s, n, i7) {
                                    if let Some(i9) = match_lit(s, n, i8, "}}") {
                                        if i9 == n {
                                            return Some(
                                                ServerEvent::NewMessage { room, name, text, ts },
                                            );
                                        }
                                    }
                                }
                            }
                        }
                    }
                }
            }
        }
        return None;
    }
    if let Some(i1) = match_lit(s, n, 0, "{\"RoomList\":{\"rooms\":") {
        if let Some((rooms, i2)) = parse_string_list(s, n, i1) {
            if let Some(i3) = match_lit(s, n, i2, "}}") {
                if i3 == n {
                    return Some(ServerEvent::RoomList { rooms });
                }
            }
        }
        return None;
    }
    if let Some(i1) = match_lit(s, n, 0, "{\"MemberList\":{\"room\":") {
        if let Some((room, i2)) = parse_jstring(s, n, i1) {
            if let Some(i3) = match_lit(s, n, i2, ",\"members\":") {
                if let Some((members, i4)) = parse_string_list(s, n, i3) {
                    if let Some(i5) = match_lit(s, n, i4, "}}") {
                        if i5 == n {
                            return Some(ServerEvent::MemberList { room, members });
                        }
                    }
                }
            }
        }
        return None;
    }
    None
}

// ---------------------------------------------------------------------------
// Canonical inputs: a frame the parser accepts is the encoder's output
// ---------------------------------------------------------------------------

/// Casting a low code point to a character and back is the identity.
proof fn lemma_low_codepoint_cast(v: int)
    requires
        0 <= v < 32,
    ensures
        (((v as u32) as char) as u32) == v as u32,
{
    if v == 0 {
        assert((((0 as u32) as char) as u32) == 0);
    }
    else if v == 1 {
        assert((((1 as u32) as char) as u32) == 1);
    }
    else if v == 2 {
        assert((((2 as u32) as char) as u32) == 2);
    }
    else if v == 3 {
        assert((((3 as u32) as char) as u32) == 3);
    }
    else if v == 4 {
        assert((((4 as u32) as char) as u32) == 4);
    }
    else if v == 5 {
        assert((((5 as u32) as char) as u32) == 5);
    }
    else if v == 6 {
        assert((((6 as u32) as char) as u32) == 6);
    }
    else if v == 7 {
        assert((((7 as u32) as char) as u32) == 7);
    }
    else if v == 8 {
        assert((((8 as u32) as char) as u32) == 8);
    }
    else if v == 9 {
        assert((((9 as u32) as char) as u32) == 9);
    }
    else if v == 10 {
        assert((((10 as u32) as char) as u32) == 10);
    }
    else if v == 11 {
        assert((((11 as u32) as char) as u32) == 11);
    }
    else if v == 12 {
        assert((((12 as u32) as char) as u32) == 12);
    }
    else if v == 13 {
        assert((((13 as u32) as char) as u32) == 13);
    }
    else if v == 14 {
        assert((((14 as u32) as char) as u32) == 14);
    }
    else if v == 15 {
        assert((((15 as u32) as char) as u32) == 15);
    }
    else if v == 16 {
        assert((((16 as u32) as char) as u32) == 16);
    }
    else if v == 17 {
        assert((((17 as u32) as char) as u32) == 17);
    }
    else if v == 18 {
        assert((((18 as u32) as char) as u32) == 18);
    }
    else if v == 19 {
        assert((((19 as u32) as char) as u32) == 19);
    }
    else if v == 20 {
        assert((((20 as u32) as char) as u32) == 20);
    }
    else if v == 21 {
        assert((((21 as u32) as char) as u32) == 21);
    }
    else if v == 22 {
        assert((((22 as u32) as char) as u32) == 22);
    }
    else if v == 23 {
        assert((((23 as u32) as char) as u32) == 23);
    }
    else if v == 24 {
        assert((((24 as u32) as char) as u32) == 24);
    }
    else if v == 25 {
        assert((((25 as u32) as char) as u32) == 25);
    }
    else if v == 26 {
        assert((((26 as u32) as char) as u32) == 26);
    }
    else if v == 27 {
        assert((((27 as u32) as char) as u32) == 27);
    }
    else if v == 28 {
        assert((((28 as u32) as char) as u32) == 28);
    }
    else if v == 29 {
        assert((((29 as u32) as char) as u32) == 29);
    }
    else if v == 30 {
        assert((((30 as u32) as char) as u32) == 30);
    }
    else if v == 31 {
        assert((((31 as u32) as char) as u32) == 31);
    }
}

/// A lower-case hexadecimal digit is recovered from its value.
proof fn lemma_hex_char_of_val(x: char)
    requires
        is_hex_lower(x),
    ensures
        hex_char(hex_val(x)) == x,
{
    broadcast use vstd::utf8::char_u32_cast;

    let u = x as u32;
    if u == 48 {
        assert(((48 as u32) as char) == x);
    }
    else if u == 49 {
        assert(((49 as u32) as char) == x);
    }
    else if u == 50 {
        assert(((50 as u32) as char) == x);
    }
    else if u == 51 {
        assert(((51 as u32) as char) == x);
    }
    else if u == 52 {
        assert(((52 as u32) as char) == x);
    }
    else if u == 53 {
        assert(((53 as u32) as char) == x);
    }
    else if u == 54 {
        assert(((54 as u32) as char) == x);
    }
    else if u == 55 {
        assert(((55 as u32) as char) == x);
    }
    else if u == 56 {
        assert(((56 as u32) as char) == x);
    }
    else if u == 57 {
        assert(((57 as u32) as char) == x);
    }
    else if u == 97 {
        assert(((97 as u32) as char) == x);
    }
    else if u == 98 {
        assert(((98 as u32) as char) == x);
    }
    else if u == 99 {
        assert(((99 as u32) as char) == x);
    }
    else if u == 100 {
        assert(((100 as u32) as char) == x);
    }
    else if u == 101 {
        assert(((101 as u32) as char) == x);
    }
    else if u == 102 {
        assert(((102 as u32) as char) == x);
    }
}

/// The character after a backslash is recovered from its code point.
proof fn lemma_escape_char_cast(s: Seq<char>, i: int)
    requires
        0 <= i + 1 < s.len(),
    ensures
        ((s[i + 1] as u32) as char) == s[i + 1],
{
    vstd::utf8::char_u32_cast(s[i + 1], s[i + 1] as u32);
}

/// A string body the parser accepts is exactly an escaped string followed
/// by its closing quote.
#[verifier::rlimit(100)]
proof fn lemma_sp_str_body_canon(s: Seq<char>, i: int, t: Seq<char>, j: int)
    requires
        sp_str_body(s, i) == Some((t, j)),
    ensures
        matches_at(s, i, escape_string(t) + seq!['"']),
        j == i + escape_string(t).len() + 1,
    decreases s.len() - i,
{
    broadcast use vstd::utf8::char_u32_cast;

    assert(0 <= i < s.len());
    let u = s[i] as u32;
    if u == 34 {
        vstd::utf8::char_u32_cast(s[i], u);
        assert(((34 as u32) as char) == s[i]);
        assert(escape_string(t) + seq!['"'] =~= seq!['"']);
        assert forall|k: int| 0 <= k < 1 implies s[i + k] == (escape_string(t) + seq!['"'])[k] by {}
    } else if u == 92 {
        vstd::utf8::char_u32_cast(s[i], u);
        assert(((92 as u32) as char) == s[i]);
        let e = s[i + 1] as u32;
        lemma_escape_char_cast(s, i);
        let (c, w): (char, int) = if e == 117 {
            let v = hex_val(s[i + 4]) * 16 + hex_val(s[i + 5]);
            ((v as u32) as char, 6)
        } else if e == 34 {
            ((34 as u32) as char, 2)
        } else if e == 92 {
            ((92 as u32) as char, 2)
        } else if e == 98 {
            ((8 as u32) as char, 2)
        } else if e == 116 {
            ((9 as u32) as char, 2)
        } else if e == 110 {
            ((10 as u32) as char, 2)
        } else if e == 102 {
            ((12 as u32) as char, 2)
        } else if e == 114 {
            ((13 as u32) as char, 2)
        } else {
            assert(false);
            (' ', 0)
        };
        assert(sp_str_body(s, i) == cons_char(c, sp_str_body(s, i + w)));
        let inner = sp_str_body(s, i + w);
        assert(inner matches Some(tj2) && t == seq![c] + tj2.0 && j == tj2.1);
        let t2 = inner.unwrap().0;
        lemma_sp_str_body_canon(s, i + w, t2, j);
        assert(t[0] == c);
        assert(t.skip(1) =~= t2);
        assert(escape_string(t) == escape_char(c) + escape_string(t2));
        let ec = escape_char(c);
        if e == 117 {
            assert(i + 5 < s.len() && s[i + 2] == '0' && s[i + 3] == '0' && is_hex_lower(
                s[i + 4],
            ) && is_hex_lower(s[i + 5]));
            let v = hex_val(s[i + 4]) * 16 + hex_val(s[i + 5]);
            assert(0 <= hex_val(s[i + 4]) < 16);
            assert(0 <= hex_val(s[i + 5]) < 16);
            assert(v < 32 && !has_short_escape(v as u32));
            lemma_low_codepoint_cast(v);
            assert(c as u32 == v);
            assert(hex_val(s[i + 4]) == v / 16 && hex_val(s[i + 5]) == v % 16);
            lemma_hex_char_of_val(s[i + 4]);
            lemma_hex_char_of_val(s[i + 5]);
            assert(ec == seq!['\\', 'u', '0', '0', hex_char(v / 16), hex_char(v % 16)]);
            assert(((117 as u32) as char) == s[i + 1]);
            assert(ec[1] == 'u');
            assert(ec[0] == s[i]);
            assert(ec[1] == s[i + 1]);
            assert(ec[2] == s[i + 2]);
            assert(ec[3] == s[i + 3]);
            assert(ec[4] == s[i + 4]);
            assert(ec[5] == s[i + 5]);
        } else {
            assert((e as char) == s[i + 1]);
            assert(ec[0] == s[i]);
            assert(ec[1] == s[i + 1]);
        }
        assert(ec.len() == w);
        assert forall|k: int| 0 <= k < ec.len() implies s[i + k] == ec[k] by {}
        assert(matches_at(s, i, ec));
        lemma_matches_at_concat(s, i, ec, escape_string(t2) + seq!['"']);
        assert((ec + escape_string(t2)) + seq!['"'] =~= ec + (escape_string(t2) + seq!['"']));
    } else if is_control(s[i]) {
        assert(false);
    } else {
        let c = s[i];
        assert(sp_str_body(s, i) == cons_char(c, sp_str_body(s, i + 1)));
        let inner = sp_str_body(s, i + 1);
        assert(inner matches Some(tj2) && t == seq![c] + tj2.0 && j == tj2.1);
        let t2 = inner.unwrap().0;
        lemma_sp_str_body_canon(s, i + 1, t2, j);
        assert(t[0] == c);
        assert(t.skip(1) =~= t2);
        assert(escape_string(t) == escape_char(c) + escape_string(t2));
        let ec = escape_char(c);
        assert(ec == seq![c]);
        assert forall|k: int| 0 <= k < ec.len() implies s[i + k] == ec[k] by {}
        assert(matches_at(s, i, ec));
        lemma_matches_at_concat(s, i, ec, escape_string(t2) + seq!['"']);
        assert((ec + escape_string(t2)) + seq!['"'] =~= ec + (escape_string(t2) + seq!['"']));
    }
}

/// A JSON string the parser accepts is exactly an encoded string.
proof fn lemma_sp_jstring_canon(s: Seq<char>, i: int, t: Seq<char>, j: int)
    requires
        sp_jstring(s, i) == Some((t, j)),
    ensures
        matches_at(s, i, json_string(t)),
        j == i + json_string(t).len(),
{
    assert(0 <= i < s.len() && s[i] == '"');
    lemma_sp_str_body_canon(s, i + 1, t, j);
    assert(matches_at(s, i, seq!['"'])) by {
        assert forall|k: int| 0 <= k < 1 implies s[i + k] == seq!['"'][k] by {}
    }
    lemma_matches_at_concat(s, i, seq!['"'], escape_string(t) + seq!['"']);
    assert(seq!['"'] + (escape_string(t) + seq!['"']) =~= json_string(t));
}

/// A sequence that occurs at the start of `s` and has its length is `s`.
proof fn lemma_matches_full(s: Seq<char>, x: Seq<char>)
    requires
        matches_at(s, 0, x),
        x.len() == s.len(),
    ensures
        s == x,
{
    assert forall|k: int| 0 <= k < s.len() implies s[k] == x[k] by {
        assert(s[0 + k] == x[k]);
    }
    assert(s =~= x);
}

/// Request frames are canonical: any frame the parser accepts is exactly
/// the encoder's output for the request it yields. Together with
/// `lemma_request_round_trip`, parsing succeeds on precisely the encoded
/// frames.
pub proof fn lemma_request_decode_canonical(s: Seq<char>, v: ClientRequestView)
    requires
        sp_request(s) == Some(v),
    ensures
        s == spec_encode_request(v),
{
    if s == "\"RoomList\""@ {
    } else if matches_at(s, 0, "{\"Join\":{\"room\":"@) {
        let a = "{\"Join\":{\"room\":"@;
        let b = ",\"name\":"@;
        let c = "}}"@;
        let r0 = sp_jstring(s, a.len() as int);
        assert(r0 is Some);
        let room = r0.unwrap().0;
        let i1 = r0.unwrap().1;
        lemma_sp_jstring_canon(s, a.len() as int, room, i1);
        assert(matches_at(s, i1, b));
        let r1 = sp_jstring(s, i1 + b.len());
        assert(r1 is Some);
        let name = r1.unwrap().0;
        let j2 = r1.unwrap().1;
        lemma_sp_jstring_canon(s, i1 + b.len(), name, j2);
        assert(sp_close(s, j2));
        assert(v == (ClientRequestView::Join { room, name }));
        lemma_matches_at_concat(s, 0, a, json_string(room));
        lemma_matches_at_concat(s, 0, a + json_string(room), b);
        lemma_matches_at_concat(s, 0, a + json_string(room) + b, json_string(name));
        lemma_matches_at_concat(s, 0, a + json_string(room) + b + json_string(name), c);
        lemma_matches_full(s, a + json_string(room) + b + json_string(name) + c);
    } else if matches_at(s, 0, "{\"Leave\":{\"room\":"@) {
        let a = "{\"Leave\":{\"room\":"@;
        let c = "}}"@;
        let r0 = sp_jstring(s, a.len() as int);
        assert(r0 is Some);
        let room = r0.unwrap().0;
        let i1 = r0.unwrap().1;
        lemma_sp_jstring_canon(s, a.len() as int, room, i1);
        assert(sp_close(s, i1));
        assert(v == (ClientRequestView::Leave { room }));
        lemma_matches_at_concat(s, 0, a, json_string(room));
        lemma_matches_at_concat(s, 0, a + json_string(room), c);
        lemma_matches_full(s, a + json_string(room) + c);
    } else if matches_at(s, 0, "{\"Message\":{\"room\":"@) {
        let a = "{\"Message\":{\"room\":"@;
        let b = ",\"text\":"@;
        let c = "}}"@;
        let r0 = sp_jstring(s, a.len() as int);
        assert(r0 is Some);
        let room = r0.unwrap().0;
        let i1 = r0.unwrap().1;
        lemma_sp_jstring_canon(s, a.len() as int, room, i1);
        assert(matches_at(s, i1, b));
        let r1 = sp_jstring(s, i1 + b.len());
        assert(r1 is Some);
        let text = r1.unwrap().0;
        let j2 = r1.unwrap().1;
        lemma_sp_jstring_canon(s, i1 + b.len(), text, j2);
        assert(sp_close(s, j2));
        assert(v == (ClientRequestView::Message { room, text }));
        lemma_matches_at_concat(s, 0, a, json_string(room));
        lemma_matches_at_concat(s, 0, a + json_string(room), b);
        lemma_matches_at_concat(s, 0, a + json_string(room) + b, json_string(text));
        lemma_matches_at_concat(s, 0, a + json_string(room) + b + json_string(text), c);
        lemma_matches_full(s, a + json_string(room) + b + json_string(text) + c);
    } else if matches_at(s, 0, "{\"Members\":{\"room\":"@) {
        let a = "{\"Members\":{\"room\":"@;
        let c = "}}"@;
        let r0 = sp_jstring(s, a.len() as int);
        assert(r0 is Some);
        let room = r0.unwrap().0;
        let i1 = r0.unwrap().1;
        lemma_sp_jstring_canon(s, a.len() as int, room, i1);
        assert(sp_close(s, i1));
        assert(v == (ClientRequestView::Members { room }));
        lemma_matches_at_concat(s, 0, a, json_string(room));
        lemma_matches_at_concat(s, 0, a + json_string(room), c);
        lemma_matches_full(s, a + json_string(room) + c);
    } else {
        assert(false);
    }
}

/// A decimal digit is recovered from its value.
proof fn lemma_digit_char_of_val(x: char)
    requires
        is_digit(x),
    ensures
        digit_char(digit_val(x)) == x,
{
    broadcast use vstd::utf8::char_u32_cast;

    let u = x as u32;
    if u == 48 {
        assert(((48 as u32) as char) == x);
    }
    else if u == 49 {
        assert(((49 as u32) as char) == x);
    }
    else if u == 50 {
        assert(((50 as u32) as char) == x);
    }
    else if u == 51 {
        assert(((51 as u32) as char) == x);
    }
    else if u == 52 {
        assert(((52 as u32) as char) == x);
    }
    else if u == 53 {
        assert(((53 as u32) as char) == x);
    }
    else if u == 54 {
        assert(((54 as u32) as char) == x);
    }
    else if u == 55 {
        assert(((55 as u32) as char) == x);
    }
    else if u == 56 {
        assert(((56 as u32) as char) == x);
    }
    else if u == 57 {
        assert(((57 as u32) as char) == x);
    }
}

/// The numeric value of a run of decimal digits, most significant first.
pub open spec fn digit_run_val(d: Seq<char>) -> int
    decreases d.len(),
{
    if d.len() == 0 {
        0
    } else {
        digit_run_val(d.drop_last()) * 10 + digit_val(d.last())
    }
}

/// A digit run's value is nonnegative.
proof fn lemma_digit_run_val_nonneg(d: Seq<char>)
    requires
        forall|k: int| 0 <= k < d.len() ==> is_digit(#[trigger] d[k]),
    ensures
        digit_run_val(d) >= 0,
    decreases d.len(),
{
    if d.len() > 0 {
        assert(forall|k: int|
            0 <= k < d.drop_last().len() ==> is_digit(#[trigger] d.drop_last()[k]));
        lemma_digit_run_val_nonneg(d.drop_last());
        assert(is_digit(d.last()));
    }
}

/// Peeling the first digit off a run.
proof fn lemma_digit_run_val_cons(d0: char, x: Seq<char>)
    requires
        is_digit(d0),
        forall|k: int| 0 <= k < x.len() ==> is_digit(#[trigger] x[k]),
    ensures
        digit_run_val(seq![d0] + x) == digit_val(d0) * pow10(x.len() as nat) + digit_run_val(x),
    decreases x.len(),
{
    let r = seq![d0] + x;
    if x.len() == 0 {
        assert(r =~= seq![d0]);
        assert(r.drop_last() =~= Seq::<char>::empty());
        assert(digit_run_val(Seq::<char>::empty()) == 0);
        assert(r.last() == d0);
        assert(digit_run_val(r) == digit_val(d0));
        assert(pow10(0) == 1);
    } else {
        assert(r.drop_last() =~= seq![d0] + x.drop_last());
        assert(forall|k: int|
            0 <= k < x.drop_last().len() ==> is_digit(#[trigger] x.drop_last()[k]));
        lemma_digit_run_val_cons(d0, x.drop_last());
        assert(r.last() == x.last());
        let p = pow10(x.drop_last().len() as nat);
        assert(pow10(x.len() as nat) == 10 * p);
        assert((digit_val(d0) * p + digit_run_val(x.drop_last())) * 10 + digit_val(x.last())
            == digit_val(d0) * (10 * p) + (digit_run_val(x.drop_last()) * 10 + digit_val(
            x.last(),
        ))) by (nonlinear_arith);
    }
}

/// What a fold over a maximal digit run returns: the shifted accumulator
/// plus the run's value, and the index just past the run; everything in
/// the run is a digit and the run is maximal.
proof fn lemma_sp_digits_canon(s: Seq<char>, i: int, acc: int)
    requires
        0 <= i <= s.len(),
        0 <= acc,
    ensures
        ({
            let (v, j) = sp_digits(s, i, acc);
            &&& i <= j <= s.len()
            &&& forall|k: int| i <= k < j ==> is_digit(#[trigger] s[k])
            &&& j == s.len() || !is_digit(s[j])
            &&& v == acc * pow10((j - i) as nat) + digit_run_val(s.subrange(i, j))
        }),
    decreases s.len() - i,
{
    let (v, j) = sp_digits(s, i, acc);
    if i < s.len() && is_digit(s[i]) {
        lemma_sp_digits_canon(s, i + 1, acc * 10 + digit_val(s[i]));
        let r = s.subrange(i, j);
        let x = s.subrange(i + 1, j);
        assert(r =~= seq![s[i]] + x);
        assert(forall|k: int| 0 <= k < x.len() ==> is_digit(#[trigger] x[k])) by {
            assert(forall|k: int| 0 <= k < x.len() ==> x[k] == s[i + 1 + k]);
        }
        lemma_digit_run_val_cons(s[i], x);
        let p = pow10(x.len() as nat);
        assert(pow10((j - i) as nat) == 10 * p);
        assert((acc * 10 + digit_val(s[i])) * p == acc * (10 * p) + digit_val(s[i]) * p)
            by (nonlinear_arith);
    } else {
        assert(s.subrange(i, i) =~= Seq::<char>::empty());
        assert(pow10(0) == 1);
    }
}

/// A nonempty digit run without a leading zero is the canonical decimal
/// form of its value.
proof fn lemma_digit_run_canonical(r: Seq<char>)
    requires
        r.len() >= 1,
        forall|k: int| 0 <= k < r.len() ==> is_digit(#[trigger] r[k]),
        r.len() == 1 || r[0] != '0',
    ensures
        dec_str(digit_run_val(r)) == r,
    decreases r.len(),
{
    lemma_digit_run_val_nonneg(r);
    if r.len() == 1 {
        assert(r.drop_last() =~= Seq::<char>::empty());
        assert(digit_run_val(Seq::<char>::empty()) == 0);
        assert(r.last() == r[0]);
        assert(digit_run_val(r) == digit_val(r[0]));
        lemma_digit_char_of_val(r[0]);
        assert(dec_str(digit_run_val(r)) =~= r);
    } else {
        let p = r.drop_last();
        assert forall|k: int| 0 <= k < p.len() implies is_digit(#[trigger] p[k]) by {
            assert(p[k] == r[k]);
        }
        lemma_digit_run_canonical(p);
        // the prefix value is at least one, so the whole value is at least ten
        assert(digit_run_val(p) >= 1) by {
            let x = p.skip(1);
            assert(p =~= seq![p[0]] + x);
            assert(forall|k: int| 0 <= k < x.len() ==> is_digit(#[trigger] x[k])) by {
                assert(forall|k: int| 0 <= k < x.len() ==> x[k] == p[1 + k]);
            }
            lemma_digit_run_val_cons(p[0], x);
            lemma_digit_run_val_nonneg(x);
            assert(p[0] == r[0]);
            if p[0] as u32 == 48 {
                vstd::utf8::char_u32_cast(p[0], 48);
                assert(((48 as u32) as char) == p[0]);
                assert(false);
            }
            assert(digit_val(p[0]) >= 1);
            lemma_pow10_positive(x.len() as nat);
            assert(digit_val(p[0]) * pow10(x.len() as nat) >= 1) by (nonlinear_arith)
                requires
                    digit_val(p[0]) >= 1,
                    pow10(x.len() as nat) >= 1,
            ;
        }
        let n = digit_run_val(r);
        assert(n == digit_run_val(p) * 10 + digit_val(r.last()));
        assert(n >= 10);
        assert(n / 10 == digit_run_val(p) && n % 10 == digit_val(r.last()));
        lemma_digit_char_of_val(r.last());
        assert(dec_str(n) == dec_str(n / 10) + seq![digit_char(n % 10)]);
        assert(p + seq![r.last()] =~= r);
    }
}

/// Powers of ten are positive.
proof fn lemma_pow10_positive(k: nat)
    ensures
        pow10(k) >= 1,
    decreases k,
{
    if k > 0 {
        lemma_pow10_positive((k - 1) as nat);
    }
}

/// A number the parser accepts sits in the input as its canonical digits.
proof fn lemma_sp_u64_canon(s: Seq<char>, i: int, n: u64, j: int)
    requires
        sp_u64(s, i) == Some((n, j)),
    ensures
        matches_at(s, i, dec_str(n as int)),
        j == i + dec_str(n as int).len(),
{
    assert(0 <= i < s.len() && is_digit(s[i]));
    lemma_sp_digits_canon(s, i, 0);
    let r = s.subrange(i, j);
    assert(r.len() >= 1);
    assert(forall|k: int| 0 <= k < r.len() ==> is_digit(#[trigger] r[k])) by {
        assert(forall|k: int| 0 <= k < r.len() ==> r[k] == s[i + k]);
    }
    lemma_digit_run_val_nonneg(r);
    assert(n as int == digit_run_val(r));
    if r.len() > 1 && r[0] == '0' {
        assert(s[i] == '0' && is_digit(s[i + 1]));
        assert(false);
    }
    lemma_digit_run_canonical(r);
    assert forall|k: int| 0 <= k < dec_str(n as int).len() implies s[i + k] == dec_str(
        n as int,
    )[k] by {
        assert(r[k] == s[i + k]);
    }
}

/// A list tail the parser accepts is exactly the encoded items it added
/// to the accumulator, followed by the closing bracket.
proof fn lemma_sp_list_tail_canon(
    s: Seq<char>,
    i: int,
    acc: Seq<Seq<char>>,
    res: Seq<Seq<char>>,
    j: int,
)
    requires
        sp_list_tail(s, i, acc) == Some((res, j)),
    ensures
        res.len() >= acc.len(),
        res.take(acc.len() as int) == acc,
        matches_at(s, i, json_string_items(res.skip(acc.len() as int)) + seq![']']),
        j == i + json_string_items(res.skip(acc.len() as int)).len() + 1,
    decreases s.len() - i,
{
    assert(0 <= i < s.len());
    if s[i] == ']' {
        assert(res.skip(acc.len() as int) =~= Seq::<Seq<char>>::empty());
        assert(res.take(acc.len() as int) =~= acc);
        let full = json_string_items(res.skip(acc.len() as int)) + seq![']'];
        assert(full =~= seq![']']);
        assert forall|k: int| 0 <= k < 1 implies s[i + k] == full[k] by {}
    } else {
        assert(s[i] == ',');
        let r0 = sp_jstring(s, i + 1);
        assert(r0 is Some);
        let t = r0.unwrap().0;
        let j1 = r0.unwrap().1;
        lemma_sp_jstring_canon(s, i + 1, t, j1);
        lemma_sp_list_tail_canon(s, j1, acc.push(t), res, j);
        assert(res.take((acc.len() + 1) as int) == acc.push(t));
        assert(res[acc.len() as int] == t) by {
            assert(res.take((acc.len() + 1) as int)[acc.len() as int] == t);
        }
        assert(res.take(acc.len() as int) =~= acc) by {
            assert forall|k: int| 0 <= k < acc.len() implies res.take(acc.len() as int)[k]
                == acc[k] by {
                assert(res.take((acc.len() + 1) as int)[k] == acc.push(t)[k]);
            }
        }
        let items = res.skip(acc.len() as int);
        let items2 = res.skip(acc.len() as int + 1);
        assert(items =~= seq![t] + items2);
        assert(items[0] == t);
        assert(items.skip(1) =~= items2);
        assert(json_string_items(items) == seq![','] + json_string(t) + json_string_items(
            items2,
        ));
        assert(matches_at(s, i, seq![','])) by {
            assert forall|k: int| 0 <= k < 1 implies s[i + k] == seq![','][k] by {}
        }
        lemma_matches_at_concat(s, i, seq![','], json_string(t));
        lemma_matches_at_concat(
            s,
            i,
            seq![','] + json_string(t),
            json_string_items(items2) + seq![']'],
        );
        assert((seq![','] + json_string(t)) + (json_string_items(items2) + seq![']']) =~= (
        seq![','] + json_string(t) + json_string_items(items2)) + seq![']']);
    }
}

/// A string array the parser accepts is exactly an encoded array.
proof fn lemma_sp_string_list_canon(s: Seq<char>, i: int, l: Seq<Seq<char>>, j: int)
    requires
        sp_string_list(s, i) == Some((l, j)),
    ensures
        matches_at(s, i, json_string_list(l)),
        j == i + json_string_list(l).len(),
{
    assert(0 <= i < s.len() && s[i] == '[');
    if i + 1 < s.len() && s[i + 1] == ']' {
        assert(l =~= Seq::<Seq<char>>::empty());
        let full = json_string_list(l);
        assert(full =~= seq!['[', ']']);
        assert forall|k: int| 0 <= k < 2 implies s[i + k] == full[k] by {}
    } else {
        let r0 = sp_jstring(s, i + 1);
        assert(r0 is Some);
        let t = r0.unwrap().0;
        let j1 = r0.unwrap().1;
        lemma_sp_jstring_canon(s, i + 1, t, j1);
        lemma_sp_list_tail_canon(s, j1, seq![t], l, j);
        assert(l.take(1) == seq![t]);
        assert(l[0] == t) by {
            assert(l.take(1)[0] == t);
        }
        let items = l.skip(1);
        assert(json_string_list(l) == seq!['['] + json_string(l[0]) + json_string_items(items)
            + seq![']']);
        assert(matches_at(s, i, seq!['['])) by {
            assert forall|k: int| 0 <= k < 1 implies s[i + k] == seq!['['][k] by {}
        }
        lemma_matches_at_concat(s, i, seq!['['], json_string(t));
        lemma_matches_at_concat(
            s,
            i,
            seq!['['] + json_string(t),
            json_string_items(items) + seq![']'],
        );
        assert((seq!['['] + json_string(t)) + (json_string_items(items) + seq![']']) =~= (
        seq!['['] + json_string(t) + json_string_items(items)) + seq![']']);
    }
}

/// Canonical form of an accepted `UserJoined` frame.
proof fn lemma_event_canon_user_joined(s: Seq<char>, v: ServerEventView)
    requires
        sp_event(s) == Some(v),
        matches_at(s, 0, "{\"UserJoined\":{\"room\":"@),
    ensures
        s == spec_encode_event(v),
{
    let a = "{\"UserJoined\":{\"room\":"@;
    let b = ",\"name\":"@;
    let c = "}}"@;
    let r0 = sp_jstring(s, a.len() as int);
    assert(r0 is Some);
    let room = r0.unwrap().0;
    let i1 = r0.unwrap().1;
    lemma_sp_jstring_canon(s, a.len() as int, room, i1);
    assert(matches_at(s, i1, b));
    let r1 = sp_jstring(s, i1 + b.len());
    assert(r1 is Some);
    let name = r1.unwrap().0;
    let j2 = r1.unwrap().1;
    lemma_sp_jstring_canon(s, i1 + b.len(), name, j2);
    assert(sp_close(s, j2));
    assert(v == (ServerEventView::UserJoined { room, name }));
    lemma_matches_at_concat(s, 0, a, json_string(room));
    lemma_matches_at_concat(s, 0, a + json_string(room), b);
    lemma_matches_at_concat(s, 0, a + json_string(room) + b, json_string(name));
    lemma_matches_at_concat(s, 0, a + json_string(room) + b + json_string(name), c);
    lemma_matches_full(s, a + json_string(room) + b + json_string(name) + c);
}

/// Canonical form of an accepted `UserLeft` frame.
proof fn lemma_event_canon_user_left(s: Seq<char>, v: ServerEventView)
    requires
        sp_event(s) == Some(v),
        !matches_at(s, 0, "{\"UserJoined\":{\"room\":"@),
        matches_at(s, 0, "{\"UserLeft\":{\"room\":"@),
    ensures
        s == spec_encode_event(v),
{
    let a = "{\"UserLeft\":{\"room\":"@;
    let b = ",\"name\":"@;
    let c = "}}"@;
    let r0 = sp_jstring(s, a.len() as int);
    assert(r0 is Some);
    let room = r0.unwrap().0;
    let i1 = r0.unwrap().1;
    lemma_sp_jstring_canon(s, a.len() as int, room, i1);
    assert(matches_at(s, i1, b));
    let r1 = sp_jstring(s, i1 + b.len());
    assert(r1 is Some);
    let name = r1.unwrap().0;
    let j2 = r1.unwrap().1;
    lemma_sp_jstring_canon(s, i1 + b.len(), name, j2);
    assert(sp_close(s, j2));
    assert(v == (ServerEventView::UserLeft { room, name }));
    lemma_matches_at_concat(s, 0, a, json_string(room));
    lemma_matches_at_concat(s, 0, a + json_string(room), b);
    lemma_matches_at_concat(s, 0, a + json_string(room) + b, json_string(name));
    lemma_matches_at_concat(s, 0, a + json_string(room) + b + json_string(name), c);
    lemma_matches_full(s, a + json_string(room) + b + json_string(name) + c);
}

/// Canonical form of an accepted `NewMessage` frame.
proof fn lemma_event_canon_new_message(s: Seq<char>, v: ServerEventView)
    requires
        sp_event(s) == Some(v),
        !matches_at(s, 0, "{\"UserJoined\":{\"room\":"@),
        !matches_at(s, 0, "{\"UserLeft\":{\"room\":"@),
        matches_at(s, 0, "{\"NewMessage\":{\"room\":"@),
    ensures
        s == spec_encode_event(v),
{
    let a = "{\"NewMessage\":{\"room\":"@;
    let b = ",\"name\":"@;
    let c = ",\"text\":"@;
    let d = ",\"ts\":"@;
    let e = "}}"@;
    let r0 = sp_jstring(s, a.len() as int);
    assert(r0 is Some);
    let room = r0.unwrap().0;
    let i1 = r0.unwrap().1;
    lemma_sp_jstring_canon(s, a.len() as int, room, i1);
    assert(matches_at(s, i1, b));
    let r1 = sp_jstring(s, i1 + b.len());
    assert(r1 is Some);
    let name = r1.unwrap().0;
    let i2 = r1.unwrap().1;
    lemma_sp_jstring_canon(s, i1 + b.len(), name, i2);
    assert(matches_at(s, i2, c));
    let r2 = sp_jstring(s, i2 + c.len());
    assert(r2 is Some);
    let text = r2.unwrap().0;
    let i3 = r2.unwrap().1;
    lemma_sp_jstring_canon(s, i2 + c.len(), text, i3);
    assert(matches_at(s, i3, d));
    let r3 = sp_u64(s, i3 + d.len());
    assert(r3 is Some);
    let ts = r3.unwrap().0;
    let i4 = r3.unwrap().1;
    lemma_sp_u64_canon(s, i3 + d.len(), ts, i4);
    assert(sp_close(s, i4));
    assert(v == (ServerEventView::NewMessage { room, name, text, ts }));
    let num = dec_str(ts as int);
    lemma_matches_at_concat(s, 0, a, json_string(room));
    lemma_matches_at_concat(s, 0, a + json_string(room), b);
    lemma_matches_at_concat(s, 0, a + json_string(room) + b, json_string(name));
    lemma_matches_at_concat(s, 0, a + json_string(room) + b + json_string(name), c);
    lemma_matches_at_concat(
        s,
        0,
        a + json_string(room) + b + json_string(name) + c,
        json_string(text),
    );
    lemma_matches_at_concat(
        s,
        0,
        a + json_string(room) + b + json_string(name) + c + json_string(text),
        d,
    );
    lemma_matches_at_concat(
        s,
        0,
        a + json_string(room) + b + json_string(name) + c + json_string(text) + d,
        num,
    );
    lemma_matches_at_concat(
        s,
        0,
        a + json_string(room) + b + json_string(name) + c + json_string(text) + d + num,
        e,
    );
    lemma_matches_full(
        s,
        a + json_string(room) + b + json_string(name) + c + json_string(text) + d + num + e,
    );
}

/// Canonical form of an accepted `RoomList` frame.
proof fn lemma_event_canon_room_list(s: Seq<char>, v: ServerEventView)
    requires
        sp_event(s) == Some(v),
        !matches_at(s, 0, "{\"UserJoined\":{\"room\":"@),
        !matches_at(s, 0, "{\"UserLeft\":{\"room\":"@),
        !matches_at(s, 0, "{\"NewMessage\":{\"room\":"@),
        matches_at(s, 0, "{\"RoomList\":{\"rooms\":"@),
    ensures
        s == spec_encode_event(v),
{
    let a = "{\"RoomList\":{\"rooms\":"@;
    let c = "}}"@;
    let r0 = sp_string_list(s, a.len() as int);
    assert(r0 is Some);
    let rooms = r0.unwrap().0;
    let i1 = r0.unwrap().1;
    lemma_sp_string_list_canon(s, a.len() as int, rooms, i1);
    assert(sp_close(s, i1));
    assert(v == (ServerEventView::RoomList { rooms }));
    lemma_matches_at_concat(s, 0, a, json_string_list(rooms));
    lemma_matches_at_concat(s, 0, a + json_string_list(rooms), c);
    lemma_matches_full(s, a + json_string_list(rooms) + c);
}

/// Canonical form of an accepted `MemberList` frame.
proof fn lemma_event_canon_member_list(s: Seq<char>, v: ServerEventView)
    requires
        sp_event(s) == Some(v),
        !matches_at(s, 0, "{\"UserJoined\":{\"room\":"@),
        !matches_at(s, 0, "{\"UserLeft\":{\"room\":"@),
        !matches_at(s, 0, "{\"NewMessage\":{\"room\":"@),
        !matches_at(s, 0, "{\"RoomList\":{\"rooms\":"@),
        matches_at(s, 0, "{\"MemberList\":{\"room\":"@),
    ensures
        s == spec_encode_event(v),
{
    let a = "{\"MemberList\":{\"room\":"@;
    let b = ",\"members\":"@;
    let c = "}}"@;
    let r0 = sp_jstring(s, a.len() as int);
    assert(r0 is Some);
    let room = r0.unwrap().0;
    let i1 = r0.unwrap().1;
    lemma_sp_jstring_canon(s, a.len() as int, room, i1);
    assert(matches_at(s, i1, b));
    let r1 = sp_string_list(s, i1 + b.len());
    assert(r1 is Some);
    let members = r1.unwrap().0;
    let j2 = r1.unwrap().1;
    lemma_sp_string_list_canon(s, i1 + b.len(), members, j2);
    assert(sp_close(s, j2));
    assert(v == (ServerEventView::MemberList { room, members }));
    lemma_matches_at_concat(s, 0, a, json_string(room));
    lemma_matches_at_concat(s, 0, a + json_string(room), b);
    lemma_matches_at_concat(s, 0, a + json_string(room) + b, json_string_list(members));
    lemma_matches_at_concat(s, 0, a + json_string(room) + b + json_string_list(members), c);
    lemma_matches_full(s, a + json_string(room) + b + json_string_list(members) + c);
}

/// Event frames are canonical: any frame the parser accepts is exactly
/// the encoder's output for the event it yields. Together with
/// `lemma_event_round_trip`, parsing succeeds on precisely the encoded
/// frames.
pub proof fn lemma_event_decode_canonical(s: Seq<char>, v: ServerEventView)
    requires
        sp_event(s) == Some(v),
    ensures
        s == spec_encode_event(v),
{
    if matches_at(s, 0, "{\"UserJoined\":{\"room\":"@) {
        lemma_event_canon_user_joined(s, v);
    } else if matches_at(s, 0, "{\"UserLeft\":{\"room\":"@) {
        lemma_event_canon_user_left(s, v);
    } else if matches_at(s, 0, "{\"NewMessage\":{\"room\":"@) {
        lemma_event_canon_new_message(s, v);
    } else if matches_at(s, 0, "{\"RoomList\":{\"rooms\":"@) {
        lemma_event_canon_room_list(s, v);
    } else if matches_at(s, 0, "{\"MemberList\":{\"room\":"@) {
        lemma_event_canon_member_list(s, v);
    } else {
        assert(false);
    }
}

} // verus!
