//! JSON-lines serialization of SQL events, with a parser for the same
//! format. One event becomes one line holding the timestamp (RFC 3339 with
//! nanoseconds), flow identity, SQL text, table list, operation, optional
//! label and, when present, the raw message bytes as a number array.

use vstd::prelude::*;
use crate::output::{CivilTime, SqlEvent, SqlEventV, strings_views};
use crate::text::{digit_char, digit_val, is_digit, dec_rep, parse_dec};

verus! {

/// Powers of ten.
pub open spec fn pow10(w: nat) -> int
    decreases w,
{
    if w == 0 {
        1
    } else {
        10 * pow10((w - 1) as nat)
    }
}

/// `n` in exactly `w` decimal digits (zero padded, truncated to `w` digits).
pub open spec fn fixed_rep(n: int, w: nat) -> Seq<char>
    decreases w,
{
    if w == 0 {
        Seq::empty()
    } else {
        fixed_rep(n / 10, (w - 1) as nat).push(digit_char(n % 10))
    }
}

/// The value of the `w` digits at `pos`.
pub open spec fn digits_val(s: Seq<char>, pos: int, w: nat) -> int
    decreases w,
{
    if w == 0 {
        0
    } else {
        digits_val(s, pos, (w - 1) as nat) * 10 + digit_val(s[pos + w - 1])
    }
}

/// All `w` characters at `pos` are digits.
pub open spec fn digits_at(s: Seq<char>, pos: int, w: nat) -> bool {
    0 <= pos && pos + w <= s.len() && forall|k: int| 0 <= k < w ==> is_digit(#[trigger] s[pos + k])
}

/// The RFC 3339 notation of a timestamp, with nanosecond precision, in UTC.
pub open spec fn rfc3339(t: CivilTime) -> Seq<char> {
    fixed_rep(t.year as int, 4) + seq!['-'] + fixed_rep(t.month as int, 2) + seq!['-'] + fixed_rep(
        t.day as int,
        2,
    ) + seq!['T'] + fixed_rep(t.hour as int, 2) + seq![':'] + fixed_rep(t.minute as int, 2)
        + seq![':'] + fixed_rep(t.second as int, 2) + seq!['.'] + fixed_rep(t.nanos as int, 9)
        + seq!['Z']
}

pub open spec fn hex_digit(d: int) -> char {
    if d < 10 {
        digit_char(d)
    } else if d == 10 {
        'a'
    } else if d == 11 {
        'b'
    } else if d == 12 {
        'c'
    } else if d == 13 {
        'd'
    } else if d == 14 {
        'e'
    } else {
        'f'
    }
}

pub open spec fn hex_val(c: char) -> int {
    if c == 'a' {
        10
    } else if c == 'b' {
        11
    } else if c == 'c' {
        12
    } else if c == 'd' {
        13
    } else if c == 'e' {
        14
    } else if c == 'f' {
        15
    } else {
        digit_val(c)
    }
}

/// How one character is written inside a JSON string: quotes and
/// backslashes escaped, control characters as `\u00XX`, everything else
/// verbatim.
pub open spec fn esc_char(c: char) -> Seq<char> {
    if c == '"' {
        seq!['\\', '"']
    } else if c == '\\' {
        seq!['\\', '\\']
    } else if (c as u32) < 0x20 {
        seq!['\\', 'u', '0', '0', hex_digit(c as u32 as int / 16), hex_digit(c as u32 as int % 16)]
    } else {
        seq![c]
    }
}

pub open spec fn escape_str(s: Seq<char>) -> Seq<char>
    decreases s.len(),
{
    if s.len() == 0 {
        Seq::empty()
    } else {
        esc_char(s[0]) + escape_str(s.drop_first())
    }
}

/// A JSON string: the escaped text in double quotes.
pub open spec fn jstring(s: Seq<char>) -> Seq<char> {
    seq!['"'] + escape_str(s) + seq!['"']
}

pub open spec fn jstr_items(v: Seq<Seq<char>>) -> Seq<char>
    decreases v.len(),
{
    if v.len() == 0 {
        Seq::empty()
    } else if v.len() == 1 {
        jstring(v[0])
    } else {
        jstring(v[0]) + seq![','] + jstr_items(v.drop_first())
    }
}

/// A JSON array of strings.
pub open spec fn jstr_list(v: Seq<Seq<char>>) -> Seq<char> {
    seq!['['] + jstr_items(v) + seq![']']
}

pub open spec fn jbyte_items(v: Seq<u8>) -> Seq<char>
    decreases v.len(),
{
    if v.len() == 0 {
        Seq::empty()
    } else if v.len() == 1 {
        dec_rep(v[0] as nat)
    } else {
        dec_rep(v[0] as nat) + seq![','] + jbyte_items(v.drop_first())
    }
}

/// A JSON array of byte values.
pub open spec fn jbytes(v: Seq<u8>) -> Seq<char> {
    seq!['['] + jbyte_items(v) + seq![']']
}

pub open spec fn lit_timestamp() -> Seq<char> {
    seq!['{', '"', 't', 'i', 'm', 'e', 's', 't', 'a', 'm', 'p', '"', ':', '"']
}

pub open spec fn lit_flow_id() -> Seq<char> {
    seq![',', '"', 'f', 'l', 'o', 'w', '_', 'i', 'd', '"', ':']
}

pub open spec fn lit_sql_text() -> Seq<char> {
    seq![',', '"', 's', 'q', 'l', '_', 't', 'e', 'x', 't', '"', ':']
}

pub open spec fn lit_tables() -> Seq<char> {
    seq![',', '"', 't', 'a', 'b', 'l', 'e', 's', '"', ':']
}

pub open spec fn lit_operation() -> Seq<char> {
    seq![',', '"', 'o', 'p', 'e', 'r', 'a', 't', 'i', 'o', 'n', '"', ':']
}

pub open spec fn lit_label() -> Seq<char> {
    seq![',', '"', 'l', 'a', 'b', 'e', 'l', '"', ':']
}

pub open spec fn lit_raw_data() -> Seq<char> {
    seq![',', '"', 'r', 'a', 'w', '_', 'd', 'a', 't', 'a', '"', ':']
}

pub open spec fn lit_null() -> Seq<char> {
    seq!['n', 'u', 'l', 'l']
}

/// The JSON line of one event. The `raw_data` key is omitted when the event
/// carries no raw bytes.
pub open spec fn spec_event_jsonl(e: SqlEventV) -> Seq<char> {
    lit_timestamp() + (rfc3339(e.timestamp) + (seq!['"'] + (lit_flow_id() + (jstring(e.flow_id)
        + (lit_sql_text() + (jstring(e.sql_text) + (lit_tables() + (jstr_list(e.tables) + (
    lit_operation() + (jstring(e.operation) + (lit_label() + ((match e.label {
        None => lit_null(),
        Some(l) => jstring(l),
    }) + ((match e.raw_data {
        None => Seq::<char>::empty(),
        Some(d) => lit_raw_data() + jbytes(d),
    }) + seq!['}'])))))))))))))
}

// ---------------------------------------------------------------------
// The parser, one cursor-threading function per construct.
// ---------------------------------------------------------------------

/// The cursor after the literal, when it sits at `pos`.
pub open spec fn expect_lit(s: Seq<char>, pos: int, lit: Seq<char>) -> Option<int> {
    if 0 <= pos && pos + lit.len() <= s.len() && s.subrange(pos, pos + lit.len()) == lit {
        Some(pos + lit.len())
    } else {
        None
    }
}

/// A fixed-width digit run and its value.
pub open spec fn parse_fixed(s: Seq<char>, pos: int, w: nat) -> Option<(int, int)> {
    if digits_at(s, pos, w) {
        Some((digits_val(s, pos, w), pos + w))
    } else {
        None
    }
}

/// The body of a JSON string, read until the closing quote.
pub open spec fn parse_str_body(s: Seq<char>, pos: int) -> Option<(Seq<char>, int)>
    decreases (if s.len() - pos > 0 {
        s.len() - pos
    } else {
        0
    }),
{
    if pos < 0 || pos >= s.len() {
        None
    } else if s[pos] == '"' {
        Some((Seq::empty(), pos + 1))
    } else if s[pos] == '\\' {
        if pos + 1 < s.len() && (s[pos + 1] == '"' || s[pos + 1] == '\\') {
            match parse_str_body(s, pos + 2) {
                Some((t, e)) => Some((seq![s[pos + 1]] + t, e)),
                None => None,
            }
        } else if pos + 5 < s.len() && s[pos + 1] == 'u' && s[pos + 2] == '0' && s[pos + 3] == '0'
            && is_hex_char(s[pos + 4]) && is_hex_char(s[pos + 5]) && hex_val(s[pos + 4]) * 16
            + hex_val(s[pos + 5]) < 0x20 {
            let c = ((hex_val(s[pos + 4]) * 16 + hex_val(s[pos + 5])) as u32) as char;
            match parse_str_body(s, pos + 6) {
                Some((t, e)) => Some((seq![c] + t, e)),
                None => None,
            }
        } else {
            None
        }
    } else {
        match parse_str_body(s, pos + 1) {
            Some((t, e)) => Some((seq![s[pos]] + t, e)),
            None => None,
        }
    }
}

pub open spec fn is_hex_char(c: char) -> bool {
    is_digit(c) || c == 'a' || c == 'b' || c == 'c' || c == 'd' || c == 'e' || c == 'f'
}

/// A quoted JSON string.
pub open spec fn parse_jstring(s: Seq<char>, pos: int) -> Option<(Seq<char>, int)> {
    if 0 <= pos && pos < s.len() && s[pos] == '"' {
        parse_str_body(s, pos + 1)
    } else {
        None
    }
}

/// One or more comma-separated JSON strings, up to the closing bracket.
pub open spec fn parse_jstr_items(s: Seq<char>, pos: int) -> Option<(Seq<Seq<char>>, int)>
    decreases (if s.len() - pos > 0 {
        s.len() - pos
    } else {
        0
    }),
{
    match parse_jstring(s, pos) {
        None => None,
        Some((v, p2)) => {
            if p2 <= pos || p2 >= s.len() {
                None
            } else if s[p2] == ']' {
                Some((seq![v], p2 + 1))
            } else if s[p2] == ',' {
                match parse_jstr_items(s, p2 + 1) {
                    None => None,
                    Some((vs, p3)) => Some((seq![v] + vs, p3)),
                }
            } else {
                None
            }
        },
    }
}

/// A JSON array of strings, bracket to bracket.
pub open spec fn parse_jstr_list(s: Seq<char>, pos: int) -> Option<(Seq<Seq<char>>, int)> {
    if 0 <= pos && pos + 2 <= s.len() && s[pos] == '[' {
        if s[pos + 1] == ']' {
            Some((Seq::empty(), pos + 2))
        } else {
            parse_jstr_items(s, pos + 1)
        }
    } else {
        None
    }
}

/// A maximal digit run of length at least one, as a byte value.
pub open spec fn digit_run_end(s: Seq<char>, pos: int) -> int
    decreases (if s.len() - pos > 0 {
        s.len() - pos
    } else {
        0
    }),
{
    if 0 <= pos && pos < s.len() && is_digit(s[pos]) {
        digit_run_end(s, pos + 1)
    } else {
        pos
    }
}

pub open spec fn parse_byte(s: Seq<char>, pos: int) -> Option<(u8, int)> {
    let e = digit_run_end(s, pos);
    if e > pos && parse_dec(s.subrange(pos, e)) <= 255 {
        Some((parse_dec(s.subrange(pos, e)) as u8, e))
    } else {
        None
    }
}

/// One or more comma-separated byte values, up to the closing bracket.
pub open spec fn parse_jbyte_items(s: Seq<char>, pos: int) -> Option<(Seq<u8>, int)>
    decreases (if s.len() - pos > 0 {
        s.len() - pos
    } else {
        0
    }),
{
    match parse_byte(s, pos) {
        None => None,
        Some((v, p2)) => {
            if p2 <= pos || p2 >= s.len() {
                None
            } else if s[p2] == ']' {
                Some((seq![v], p2 + 1))
            } else if s[p2] == ',' {
                match parse_jbyte_items(s, p2 + 1) {
                    None => None,
                    Some((vs, p3)) => Some((seq![v] + vs, p3)),
                }
            } else {
                None
            }
        },
    }
}

/// A JSON array of byte values.
pub open spec fn parse_jbytes(s: Seq<char>, pos: int) -> Option<(Seq<u8>, int)> {
    if 0 <= pos && pos + 2 <= s.len() && s[pos] == '[' {
        if s[pos + 1] == ']' {
            Some((Seq::empty(), pos + 2))
        } else {
            parse_jbyte_items(s, pos + 1)
        }
    } else {
        None
    }
}

/// The RFC 3339 timestamp between its quotes.
pub open spec fn parse_timestamp(s: Seq<char>, pos: int) -> Option<(CivilTime, int)> {
    match parse_fixed(s, pos, 4) {
        None => None,
        Some((y, p1)) => match expect_lit(s, p1, seq!['-']) {
            None => None,
            Some(p2) => match parse_fixed(s, p2, 2) {
                None => None,
                Some((mo, p3)) => match expect_lit(s, p3, seq!['-']) {
                    None => None,
                    Some(p4) => match parse_fixed(s, p4, 2) {
                        None => None,
                        Some((d, p5)) => match expect_lit(s, p5, seq!['T']) {
                            None => None,
                            Some(p6) => match parse_fixed(s, p6, 2) {
                                None => None,
                                Some((h, p7)) => match expect_lit(s, p7, seq![':']) {
                                    None => None,
                                    Some(p8) => match parse_fixed(s, p8, 2) {
                                        None => None,
                                        Some((mi, p9)) => match expect_lit(s, p9, seq![':']) {
                                            None => None,
                                            Some(p10) => match parse_fixed(s, p10, 2) {
                                                None => None,
                                                Some((sec, p11)) => match expect_lit(
                                                    s,
                                                    p11,
                                                    seq!['.'],
                                                ) {
                                                    None => None,
                                                    Some(p12) => match parse_fixed(s, p12, 9) {
                                                        None => None,
                                                        Some((ns, p13)) => match expect_lit(
                                                            s,
                                                            p13,
                                                            seq!['Z', '"'],
                                                        ) {
                                                            None => None,
                                                            Some(p14) => Some(
                                                                (
                                                                    CivilTime {
                                                                        year: y as u16,
                                                                        month: mo as u8,
                                                                        day: d as u8,
                                                                        hour: h as u8,
                                                                        minute: mi as u8,
                                                                        second: sec as u8,
                                                                        nanos: ns as u32,
                                                                    },
                                                                    p14,
                                                                ),
                                                            ),
                                                        },
                                                    },
                                                },
                                            },
                                        },
                                    },
                                },
                            },
                        },
                    },
                },
            },
        },
    }
}

/// Parse one JSON line back into an event. The line must have exactly the
/// shape the serializer produces, be fully consumed, and carry a
/// well-formed timestamp.
pub open spec fn spec_parse_jsonl(s: Seq<char>) -> Option<SqlEventV> {
    match expect_lit(s, 0, lit_timestamp()) {
        None => None,
        Some(p0) => match parse_timestamp(s, p0) {
            None => None,
            Some((ts, p1)) => match expect_lit(s, p1, lit_flow_id()) {
                None => None,
                Some(p2) => match parse_jstring(s, p2) {
                    None => None,
                    Some((fid, p3)) => match expect_lit(s, p3, lit_sql_text()) {
                        None => None,
                        Some(p4) => match parse_jstring(s, p4) {
                            None => None,
                            Some((sql, p5)) => match expect_lit(s, p5, lit_tables()) {
                                None => None,
                                Some(p6) => match parse_jstr_list(s, p6) {
                                    None => None,
                                    Some((tabs, p7)) => match expect_lit(s, p7, lit_operation()) {
                                        None => None,
                                        Some(p8) => match parse_jstring(s, p8) {
                                            None => None,
                                            Some((op, p9)) => match expect_lit(
                                                s,
                                                p9,
                                                lit_label(),
                                            ) {
                                                None => None,
                                                Some(p10) => {
                                                    let lab = if expect_lit(s, p10, lit_null())
                                                        is Some {
                                                        Some(
                                                            (
                                                                None::<Seq<char>>,
                                                                expect_lit(
                                                                    s,
                                                                    p10,
                                                                    lit_null(),
                                                                ).unwrap(),
                                                            ),
                                                        )
                                                    } else {
                                                        match parse_jstring(s, p10) {
                                                            None => None,
                                                            Some((l, pl)) => Some((Some(l), pl)),
                                                        }
                                                    };
                                                    match lab {
                                                        None => None,
                                                        Some((label, p11)) => spec_parse_tail(
                                                            s,
                                                            p11,
                                                            ts,
                                                            fid,
                                                            sql,
                                                            tabs,
                                                            op,
                                                            label,
                                                        ),
                                                    }
                                                },
                                            },
                                        },
                                    },
                                },
                            },
                        },
                    },
                },
            },
        },
    }
}

/// The optional raw-data field and the closing brace.
pub open spec fn spec_parse_tail(
    s: Seq<char>,
    pos: int,
    ts: CivilTime,
    fid: Seq<char>,
    sql: Seq<char>,
    tabs: Seq<Seq<char>>,
    op: Seq<char>,
    label: Option<Seq<char>>,
) -> Option<SqlEventV> {
    let raw = if expect_lit(s, pos, lit_raw_data()) is Some {
        match parse_jbytes(s, expect_lit(s, pos, lit_raw_data()).unwrap()) {
            None => None,
            Some((d, pr)) => Some((Some(d), pr)),
        }
    } else {
        Some((None::<Seq<u8>>, pos))
    };
    match raw {
        None => None,
        Some((raw_data, p12)) => {
            if expect_lit(s, p12, seq!['}']) == Some(s.len() as int) {
                let ev = SqlEventV {
                    timestamp: ts,
                    flow_id: fid,
                    sql_text: sql,
                    tables: tabs,
                    operation: op,
                    label,
                    raw_data,
                };
                if ts.wf() {
                    Some(ev)
                } else {
                    None
                }
            } else {
                None
            }
        },
    }
}

// ---------------------------------------------------------------------
// Round-trip lemmas: parsing what the serializer wrote gives the event
// back.
// ---------------------------------------------------------------------

/// Splitting a concatenation off the tail of `s`: the first part's
/// characters sit at `pos`, the rest of the tail is the second part.
proof fn lemma_tail_split(s: Seq<char>, pos: int, a: Seq<char>, b: Seq<char>)
    requires
        0 <= pos <= s.len(),
        s.subrange(pos, s.len() as int) == a + b,
    ensures
        pos + a.len() + b.len() == s.len(),
        s.subrange(pos + a.len(), s.len() as int) == b,
        forall|k: int| 0 <= k < a.len() ==> s[pos + k] == #[trigger] a[k],
{
    assert((a + b).len() == a.len() + b.len());
    assert(s.subrange(pos, s.len() as int).len() == s.len() - pos);
    assert forall|k: int| 0 <= k < a.len() implies s[pos + k] == #[trigger] a[k] by {
        assert(s.subrange(pos, s.len() as int)[k] == s[pos + k]);
        assert((a + b)[k] == a[k]);
        assert(s.subrange(pos, s.len() as int)[k] == (a + b)[k]);
    }
    assert(s.subrange(pos + a.len(), s.len() as int) =~= b) by {
        assert forall|k: int|
            0 <= k < b.len() implies s.subrange(pos + a.len(), s.len() as int)[k] == b[k] by {
            assert(s.subrange(pos, s.len() as int)[a.len() + k] == s[pos + a.len() + k]);
            assert((a + b)[a.len() + k] == b[k]);
            assert(s.subrange(pos, s.len() as int)[a.len() + k] == (a + b)[a.len() + k]);
            assert(s.subrange(pos + a.len(), s.len() as int)[k] == s[pos + a.len() + k]);
        }
    }
}

proof fn lemma_expect_lit(s: Seq<char>, pos: int, lit: Seq<char>, suffix: Seq<char>)
    requires
        0 <= pos <= s.len(),
        s.subrange(pos, s.len() as int) == lit + suffix,
    ensures
        expect_lit(s, pos, lit) == Some(pos + lit.len()),
        pos + lit.len() <= s.len(),
        s.subrange(pos + lit.len(), s.len() as int) == suffix,
{
    lemma_tail_split(s, pos, lit, suffix);
    assert(s.subrange(pos, pos + lit.len()) =~= lit) by {
        assert(forall|k: int|
            0 <= k < lit.len() ==> s.subrange(pos, pos + lit.len())[k] == #[trigger] lit[k]);
    }
}

proof fn lemma_digit_val_of_char(d: int)
    requires
        0 <= d <= 9,
    ensures
        digit_val(digit_char(d)) == d,
        is_digit(digit_char(d)),
{
}

proof fn lemma_fixed_rep_shape(n: int, w: nat)
    requires
        0 <= n,
    ensures
        fixed_rep(n, w).len() == w,
        forall|k: int| 0 <= k < w ==> is_digit(#[trigger] fixed_rep(n, w)[k]),
    decreases w,
{
    if w > 0 {
        lemma_fixed_rep_shape(n / 10, (w - 1) as nat);
        lemma_digit_val_of_char(n % 10);
        let r = fixed_rep(n, w);
        assert(r == fixed_rep(n / 10, (w - 1) as nat).push(digit_char(n % 10)));
        assert(forall|k: int|
            0 <= k < w - 1 ==> r[k] == #[trigger] fixed_rep(n / 10, (w - 1) as nat)[k]);
        assert(r[w - 1] == digit_char(n % 10));
    }
}

proof fn lemma_pow10_pos(w: nat)
    ensures
        pow10(w) >= 1,
    decreases w,
{
    if w > 0 {
        lemma_pow10_pos((w - 1) as nat);
    }
}

proof fn lemma_digits_val(s: Seq<char>, pos: int, n: int, w: nat)
    requires
        0 <= pos,
        pos + w <= s.len(),
        0 <= n < pow10(w),
        forall|k: int| 0 <= k < w ==> s[pos + k] == #[trigger] fixed_rep(n, w)[k],
    ensures
        digits_val(s, pos, w) == n,
    decreases w,
{
    if w == 0 {
        lemma_pow10_pos(w);
    } else {
        let m = n / 10;
        lemma_fixed_rep_shape(n, w);
        lemma_fixed_rep_shape(m, (w - 1) as nat);
        assert(fixed_rep(n, w) == fixed_rep(m, (w - 1) as nat).push(digit_char(n % 10)));
        assert(m < pow10((w - 1) as nat)) by {
            lemma_pow10_pos((w - 1) as nat);
            assert(pow10(w) == 10 * pow10((w - 1) as nat));
        }
        assert forall|k: int|
            0 <= k < w - 1 implies s[pos + k] == #[trigger] fixed_rep(m, (w - 1) as nat)[k] by {
            assert(s[pos + k] == fixed_rep(n, w)[k]);
            assert(fixed_rep(n, w)[k] == fixed_rep(m, (w - 1) as nat).push(digit_char(n % 10))[k]);
        }
        lemma_digits_val(s, pos, m, (w - 1) as nat);
        lemma_digit_val_of_char(n % 10);
        assert(s[pos + (w - 1)] == fixed_rep(n, w)[w - 1]);
        assert(fixed_rep(n, w)[w - 1] == digit_char(n % 10));
        assert(digits_val(s, pos, w) == m * 10 + n % 10);
        assert(n / 10 * 10 + n % 10 == n);
    }
}

proof fn lemma_fixed_roundtrip(s: Seq<char>, pos: int, n: int, w: nat, suffix: Seq<char>)
    requires
        0 <= pos <= s.len(),
        0 <= n < pow10(w),
        s.subrange(pos, s.len() as int) == fixed_rep(n, w) + suffix,
    ensures
        parse_fixed(s, pos, w) == Some((n, pos + w)),
        pos + w <= s.len(),
        s.subrange(pos + w, s.len() as int) == suffix,
{
    lemma_fixed_rep_shape(n, w);
    lemma_tail_split(s, pos, fixed_rep(n, w), suffix);
    assert(digits_at(s, pos, w)) by {
        assert forall|k: int| 0 <= k < w implies is_digit(#[trigger] s[pos + k]) by {
            assert(s[pos + k] == fixed_rep(n, w)[k]);
            assert(is_digit(fixed_rep(n, w)[k]));
        }
    }
    lemma_digits_val(s, pos, n, w);
}

proof fn lemma_hex_digit(d: int)
    requires
        0 <= d <= 15,
    ensures
        is_hex_char(hex_digit(d)),
        hex_val(hex_digit(d)) == d,
{
}

proof fn lemma_str_body_roundtrip(s: Seq<char>, pos: int, x: Seq<char>, suffix: Seq<char>)
    requires
        0 <= pos <= s.len(),
        s.subrange(pos, s.len() as int) == escape_str(x) + seq!['"'] + suffix,
    ensures
        parse_str_body(s, pos) == Some((x, pos + escape_str(x).len() + 1)),
        pos + escape_str(x).len() + 1 <= s.len(),
        s.subrange(pos + escape_str(x).len() + 1, s.len() as int) == suffix,
    decreases x.len(),
{
    if x.len() == 0 {
        assert(escape_str(x) == Seq::<char>::empty());
        assert(escape_str(x) + seq!['"'] + suffix =~= seq!['"'] + suffix);
        lemma_tail_split(s, pos, seq!['"'], suffix);
        assert(seq!['"'][0] == '"');
        assert(s[pos + 0] == seq!['"'][0]);
        assert(s[pos] == '"');
    } else {
        let c = x[0];
        let xr = x.drop_first();
        assert(escape_str(x) == esc_char(c) + escape_str(xr));
        let el = esc_char(c).len();
        let rest = escape_str(xr) + seq!['"'] + suffix;
        assert(escape_str(x) + seq!['"'] + suffix =~= esc_char(c) + rest);
        lemma_tail_split(s, pos, esc_char(c), rest);
        lemma_str_body_roundtrip(s, pos + el, xr, suffix);
        if c == '"' {
            assert(s[pos] == esc_char(c)[0]);
            assert(s[pos + 1] == esc_char(c)[1]);
            assert(s[pos] == '\\');
            assert(s[pos + 1] == '"');
            assert(seq![s[pos + 1]] + xr =~= x);
        } else if c == '\\' {
            assert(s[pos] == esc_char(c)[0]);
            assert(s[pos + 1] == esc_char(c)[1]);
            assert(s[pos] == '\\');
            assert(s[pos + 1] == '\\');
            assert(seq![s[pos + 1]] + xr =~= x);
        } else if (c as u32) < 0x20 {
            let v = c as u32 as int;
            lemma_hex_digit(v / 16);
            lemma_hex_digit(v % 16);
            assert(s[pos] == esc_char(c)[0]);
            assert(s[pos + 1] == esc_char(c)[1]);
            assert(s[pos + 2] == esc_char(c)[2]);
            assert(s[pos + 3] == esc_char(c)[3]);
            assert(s[pos + 4] == esc_char(c)[4]);
            assert(s[pos + 5] == esc_char(c)[5]);
            assert(s[pos + 4] == hex_digit(v / 16));
            assert(s[pos + 5] == hex_digit(v % 16));
            assert(hex_val(s[pos + 4]) * 16 + hex_val(s[pos + 5]) == v) by {
                assert(v / 16 * 16 + v % 16 == v);
            }
            assert(((v as u32) as char) == c) by {
                vstd::utf8::char_u32_cast(c, c as u32);
            }
            assert(seq![c] + xr =~= x);
        } else {
            assert(s[pos] == esc_char(c)[0]);
            assert(s[pos] == c);
            assert(c != '"' && c != '\\');
            assert(seq![c] + xr =~= x);
        }
    }
}

proof fn lemma_jstring_roundtrip(s: Seq<char>, pos: int, x: Seq<char>, suffix: Seq<char>)
    requires
        0 <= pos <= s.len(),
        s.subrange(pos, s.len() as int) == jstring(x) + suffix,
    ensures
        parse_jstring(s, pos) == Some((x, pos + jstring(x).len())),
        pos + jstring(x).len() <= s.len(),
        s.subrange(pos + jstring(x).len(), s.len() as int) == suffix,
{
    let rest = escape_str(x) + seq!['"'] + suffix;
    assert(jstring(x) + suffix =~= seq!['"'] + rest);
    lemma_tail_split(s, pos, seq!['"'], rest);
    assert(seq!['"'][0] == '"');
    assert(s[pos + 0] == seq!['"'][0]);
    assert(s[pos] == '"');
    lemma_str_body_roundtrip(s, pos + 1, x, suffix);
}

proof fn lemma_digit_run_end(s: Seq<char>, pos: int, e: int)
    requires
        0 <= pos <= e < s.len(),
        forall|k: int| pos <= k < e ==> is_digit(#[trigger] s[k]),
        !is_digit(s[e]),
    ensures
        digit_run_end(s, pos) == e,
    decreases e - pos,
{
    if pos == e {
    } else {
        assert(is_digit(s[pos]));
        lemma_digit_run_end(s, pos + 1, e);
    }
}

proof fn lemma_jbyte_items_roundtrip(s: Seq<char>, pos: int, v: Seq<u8>, suffix: Seq<char>)
    requires
        v.len() >= 1,
        0 <= pos <= s.len(),
        s.subrange(pos, s.len() as int) == jbyte_items(v) + seq![']'] + suffix,
    ensures
        parse_jbyte_items(s, pos) == Some((v, pos + jbyte_items(v).len() + 1)),
        pos + jbyte_items(v).len() + 1 <= s.len(),
        s.subrange(pos + jbyte_items(v).len() + 1, s.len() as int) == suffix,
    decreases v.len(),
{
    let d0 = dec_rep(v[0] as nat);
    crate::text::lemma_dec_roundtrip(v[0] as nat);
    let dl = d0.len() as int;
    if v.len() == 1 {
        assert(jbyte_items(v) == d0);
        let rest = seq![']'] + suffix;
        assert(jbyte_items(v) + seq![']'] + suffix =~= d0 + rest);
        lemma_tail_split(s, pos, d0, rest);
        lemma_tail_split(s, pos + dl, seq![']'], suffix);
        assert(seq![']'][0] == ']');
        assert(s[pos + dl + 0] == seq![']'][0]);
        assert(s[pos + dl] == ']');
        assert(!is_digit(']'));
        assert forall|k: int| pos <= k < pos + dl implies is_digit(#[trigger] s[k]) by {
            assert(s[pos + (k - pos)] == d0[k - pos]);
            assert(crate::text::all_digits(d0));
        }
        lemma_digit_run_end(s, pos, pos + dl);
        assert(s.subrange(pos, pos + dl) =~= d0) by {
            assert(forall|k: int|
                0 <= k < dl ==> s.subrange(pos, pos + dl)[k] == #[trigger] d0[k]);
        }
        assert(parse_dec(s.subrange(pos, pos + dl)) == v[0]);
        assert(parse_byte(s, pos) == Some((v[0], pos + dl)));
        assert(seq![v[0]] =~= v);
    } else {
        let vr = v.drop_first();
        assert(jbyte_items(v) == d0 + seq![','] + jbyte_items(vr));
        let rest = seq![','] + (jbyte_items(vr) + seq![']'] + suffix);
        assert(jbyte_items(v) + seq![']'] + suffix =~= d0 + rest);
        lemma_tail_split(s, pos, d0, rest);
        lemma_tail_split(s, pos + dl, seq![','], jbyte_items(vr) + seq![']'] + suffix);
        assert(seq![','][0] == ',');
        assert(s[pos + dl + 0] == seq![','][0]);
        assert(s[pos + dl] == ',');
        assert(!is_digit(','));
        assert forall|k: int| pos <= k < pos + dl implies is_digit(#[trigger] s[k]) by {
            assert(s[pos + (k - pos)] == d0[k - pos]);
            assert(crate::text::all_digits(d0));
        }
        lemma_digit_run_end(s, pos, pos + dl);
        assert(s.subrange(pos, pos + dl) =~= d0) by {
            assert(forall|k: int|
                0 <= k < dl ==> s.subrange(pos, pos + dl)[k] == #[trigger] d0[k]);
        }
        assert(parse_dec(s.subrange(pos, pos + dl)) == v[0]);
        assert(parse_byte(s, pos) == Some((v[0], pos + dl)));
        lemma_jbyte_items_roundtrip(s, pos + dl + 1, vr, suffix);
        assert(seq![v[0]] + vr =~= v);
    }
}

proof fn lemma_jbytes_roundtrip(s: Seq<char>, pos: int, v: Seq<u8>, suffix: Seq<char>)
    requires
        0 <= pos <= s.len(),
        s.subrange(pos, s.len() as int) == jbytes(v) + suffix,
    ensures
        parse_jbytes(s, pos) == Some((v, pos + jbytes(v).len())),
        pos + jbytes(v).len() <= s.len(),
        s.subrange(pos + jbytes(v).len(), s.len() as int) == suffix,
{
    let rest = jbyte_items(v) + seq![']'] + suffix;
    assert(jbytes(v) + suffix =~= seq!['['] + rest);
    lemma_tail_split(s, pos, seq!['['], rest);
    assert(seq!['['][0] == '[');
    assert(s[pos + 0] == seq!['['][0]);
    assert(s[pos] == '[');
    if v.len() == 0 {
        assert(jbyte_items(v) == Seq::<char>::empty());
        assert(rest =~= seq![']'] + suffix);
        lemma_tail_split(s, pos + 1, seq![']'], suffix);
        assert(seq![']'][0] == ']');
        assert(s[pos + 1 + 0] == seq![']'][0]);
        assert(s[pos + 1] == ']');
        assert(s.subrange(pos + 2, s.len() as int) == suffix);
    } else {
        crate::text::lemma_dec_roundtrip(v[0] as nat);
        let d0 = dec_rep(v[0] as nat);
        assert(jbyte_items(v).len() >= d0.len()) by {
            if v.len() > 1 {
                assert(jbyte_items(v) == d0 + seq![','] + jbyte_items(v.drop_first()));
            }
        }
        assert(s.subrange(pos + 1, s.len() as int) == rest);
        lemma_jbyte_items_roundtrip(s, pos + 1, v, suffix);
        // the first character after the bracket is a digit, not a bracket
        assert(jbyte_items(v)[0] == d0[0]) by {
            if v.len() > 1 {
                assert(jbyte_items(v) == d0 + seq![','] + jbyte_items(v.drop_first()));
            }
        }
        assert(s[pos + 1 + 0] == rest[0]) by {
            lemma_tail_split(s, pos + 1, rest, Seq::<char>::empty());
            assert(rest + Seq::<char>::empty() =~= rest);
        }
        assert(rest[0] == jbyte_items(v)[0]);
        assert(is_digit(s[pos + 1])) by {
            assert(crate::text::all_digits(d0));
            assert(d0[0] == jbyte_items(v)[0]);
        }
        assert(s[pos + 1] != ']');
    }
}

proof fn lemma_jstr_items_roundtrip(s: Seq<char>, pos: int, v: Seq<Seq<char>>, suffix: Seq<char>)
    requires
        v.len() >= 1,
        0 <= pos <= s.len(),
        s.subrange(pos, s.len() as int) == jstr_items(v) + seq![']'] + suffix,
    ensures
        parse_jstr_items(s, pos) == Some((v, pos + jstr_items(v).len() + 1)),
        pos + jstr_items(v).len() + 1 <= s.len(),
        s.subrange(pos + jstr_items(v).len() + 1, s.len() as int) == suffix,
    decreases v.len(),
{
    let j0 = jstring(v[0]);
    let jl = j0.len() as int;
    if v.len() == 1 {
        assert(jstr_items(v) == j0);
        assert(jstr_items(v) + seq![']'] + suffix =~= j0 + (seq![']'] + suffix));
        lemma_jstring_roundtrip(s, pos, v[0], seq![']'] + suffix);
        lemma_tail_split(s, pos + jl, seq![']'], suffix);
        assert(seq![']'][0] == ']');
        assert(s[pos + jl + 0] == seq![']'][0]);
        assert(s[pos + jl] == ']');
        assert(seq![v[0]] =~= v);
    } else {
        let vr = v.drop_first();
        assert(jstr_items(v) == j0 + seq![','] + jstr_items(vr));
        let after = jstr_items(vr) + seq![']'] + suffix;
        assert(jstr_items(v) + seq![']'] + suffix =~= j0 + (seq![','] + after));
        lemma_jstring_roundtrip(s, pos, v[0], seq![','] + after);
        lemma_tail_split(s, pos + jl, seq![','], after);
        assert(seq![','][0] == ',');
        assert(s[pos + jl + 0] == seq![','][0]);
        assert(s[pos + jl] == ',');
        lemma_jstr_items_roundtrip(s, pos + jl + 1, vr, suffix);
        assert(seq![v[0]] + vr =~= v);
    }
}

proof fn lemma_jstr_list_roundtrip(s: Seq<char>, pos: int, v: Seq<Seq<char>>, suffix: Seq<char>)
    requires
        0 <= pos <= s.len(),
        s.subrange(pos, s.len() as int) == jstr_list(v) + suffix,
    ensures
        parse_jstr_list(s, pos) == Some((v, pos + jstr_list(v).len())),
        pos + jstr_list(v).len() <= s.len(),
        s.subrange(pos + jstr_list(v).len(), s.len() as int) == suffix,
{
    let rest = jstr_items(v) + seq![']'] + suffix;
    assert(jstr_list(v) + suffix =~= seq!['['] + rest);
    lemma_tail_split(s, pos, seq!['['], rest);
    assert(seq!['['][0] == '[');
    assert(s[pos + 0] == seq!['['][0]);
    assert(s[pos] == '[');
    if v.len() == 0 {
        assert(jstr_items(v) == Seq::<char>::empty());
        assert(rest =~= seq![']'] + suffix);
        lemma_tail_split(s, pos + 1, seq![']'], suffix);
        assert(seq![']'][0] == ']');
        assert(s[pos + 1 + 0] == seq![']'][0]);
        assert(s[pos + 1] == ']');
        assert(s.subrange(pos + 2, s.len() as int) == suffix);
    } else {
        lemma_jstr_items_roundtrip(s, pos + 1, v, suffix);
        assert(jstr_items(v)[0] == jstring(v[0])[0]) by {
            if v.len() > 1 {
                assert(jstr_items(v) == jstring(v[0]) + seq![','] + jstr_items(v.drop_first()));
            }
        }
        assert(jstring(v[0])[0] == '"');
        assert(s[pos + 1 + 0] == rest[0]) by {
            lemma_tail_split(s, pos + 1, rest, Seq::<char>::empty());
            assert(rest + Seq::<char>::empty() =~= rest);
        }
        assert(rest[0] == jstr_items(v)[0]);
        assert(s[pos + 1] == '"');
        assert(s[pos + 1] != ']');
    }
}

proof fn lemma_pow10_values()
    ensures
        pow10(2) == 100,
        pow10(4) == 10000,
        pow10(9) == 1000000000,
{
    assert(pow10(0) == 1);
    assert(pow10(1) == 10);
    assert(pow10(2) == 100);
    assert(pow10(3) == 1000);
    assert(pow10(4) == 10000);
    assert(pow10(5) == 100000);
    assert(pow10(6) == 1000000);
    assert(pow10(7) == 10000000);
    assert(pow10(8) == 100000000);
    assert(pow10(9) == 1000000000);
}

proof fn lemma_timestamp_roundtrip(s: Seq<char>, pos: int, t: CivilTime, suffix: Seq<char>)
    requires
        t.wf(),
        0 <= pos <= s.len(),
        s.subrange(pos, s.len() as int) == rfc3339(t) + (seq!['"'] + suffix),
    ensures
        parse_timestamp(s, pos) == Some((t, pos + rfc3339(t).len() + 1)),
        pos + rfc3339(t).len() + 1 <= s.len(),
        s.subrange(pos + rfc3339(t).len() + 1, s.len() as int) == suffix,
{
    lemma_pow10_values();
    let f_y = fixed_rep(t.year as int, 4);
    let f_mo = fixed_rep(t.month as int, 2);
    let f_d = fixed_rep(t.day as int, 2);
    let f_h = fixed_rep(t.hour as int, 2);
    let f_mi = fixed_rep(t.minute as int, 2);
    let f_s = fixed_rep(t.second as int, 2);
    let f_n = fixed_rep(t.nanos as int, 9);
    let r1 = seq!['-'] + (f_mo + (seq!['-'] + (f_d + (seq!['T'] + (f_h + (seq![':'] + (f_mi + (
    seq![':'] + (f_s + (seq!['.'] + (f_n + seq!['Z', '"'] + suffix)))))))))));
    assert(rfc3339(t) + (seq!['"'] + suffix) =~= f_y + r1);
    lemma_fixed_roundtrip(s, pos, t.year as int, 4, r1);
    let p1 = pos + 4;
    lemma_expect_lit(s, p1, seq!['-'], f_mo + (seq!['-'] + (f_d + (seq!['T'] + (f_h + (seq![':']
        + (f_mi + (seq![':'] + (f_s + (seq!['.'] + (f_n + seq!['Z', '"'] + suffix)))))))))));
    let p2 = p1 + 1;
    lemma_fixed_roundtrip(s, p2, t.month as int, 2, seq!['-'] + (f_d + (seq!['T'] + (f_h + (
    seq![':'] + (f_mi + (seq![':'] + (f_s + (seq!['.'] + (f_n + seq!['Z', '"'] + suffix))))))))));
    let p3 = p2 + 2;
    lemma_expect_lit(s, p3, seq!['-'], f_d + (seq!['T'] + (f_h + (seq![':'] + (f_mi + (seq![':']
        + (f_s + (seq!['.'] + (f_n + seq!['Z', '"'] + suffix)))))))));
    let p4 = p3 + 1;
    lemma_fixed_roundtrip(s, p4, t.day as int, 2, seq!['T'] + (f_h + (seq![':'] + (f_mi + (
    seq![':'] + (f_s + (seq!['.'] + (f_n + seq!['Z', '"'] + suffix))))))));
    let p5 = p4 + 2;
    lemma_expect_lit(s, p5, seq!['T'], f_h + (seq![':'] + (f_mi + (seq![':'] + (f_s + (seq!['.']
        + (f_n + seq!['Z', '"'] + suffix)))))));
    let p6 = p5 + 1;
    lemma_fixed_roundtrip(s, p6, t.hour as int, 2, seq![':'] + (f_mi + (seq![':'] + (f_s + (
    seq!['.'] + (f_n + seq!['Z', '"'] + suffix))))));
    let p7 = p6 + 2;
    lemma_expect_lit(s, p7, seq![':'], f_mi + (seq![':'] + (f_s + (seq!['.'] + (f_n + seq![
        'Z',
        '"',
    ] + suffix)))));
    let p8 = p7 + 1;
    lemma_fixed_roundtrip(s, p8, t.minute as int, 2, seq![':'] + (f_s + (seq!['.'] + (f_n + seq![
        'Z',
        '"',
    ] + suffix))));
    let p9 = p8 + 2;
    lemma_expect_lit(s, p9, seq![':'], f_s + (seq!['.'] + (f_n + seq!['Z', '"'] + suffix)));
    let p10 = p9 + 1;
    lemma_fixed_roundtrip(s, p10, t.second as int, 2, seq!['.'] + (f_n + seq!['Z', '"'] + suffix));
    let p11 = p10 + 2;
    lemma_expect_lit(s, p11, seq!['.'], f_n + seq!['Z', '"'] + suffix);
    let p12 = p11 + 1;
    assert(f_n + seq!['Z', '"'] + suffix =~= f_n + (seq!['Z', '"'] + suffix));
    lemma_fixed_roundtrip(s, p12, t.nanos as int, 9, seq!['Z', '"'] + suffix);
    let p13 = p12 + 9;
    lemma_expect_lit(s, p13, seq!['Z', '"'], suffix);
    assert(rfc3339(t).len() == 4 + 1 + 2 + 1 + 2 + 1 + 2 + 1 + 2 + 1 + 2 + 1 + 9 + 1) by {
        lemma_fixed_rep_shape(t.year as int, 4);
        lemma_fixed_rep_shape(t.month as int, 2);
        lemma_fixed_rep_shape(t.day as int, 2);
        lemma_fixed_rep_shape(t.hour as int, 2);
        lemma_fixed_rep_shape(t.minute as int, 2);
        lemma_fixed_rep_shape(t.second as int, 2);
        lemma_fixed_rep_shape(t.nanos as int, 9);
    }
}

/// The label and raw-data fields parse back, from the label key onward.
#[verifier::rlimit(100)]
proof fn lemma_roundtrip_label_tail(e: SqlEventV, s: Seq<char>, p9: int)
    requires
        e.timestamp.wf(),
        0 <= p9 <= s.len(),
        s.subrange(p9, s.len() as int) == lit_label() + ((match e.label {
            None => lit_null(),
            Some(l) => jstring(l),
        }) + ((match e.raw_data {
            None => Seq::<char>::empty(),
            Some(d) => lit_raw_data() + jbytes(d),
        }) + seq!['}'])),
    ensures
        ({
            let p10 = p9 + lit_label().len();
            &&& expect_lit(s, p9, lit_label()) == Some(p10)
            &&& match e.label {
                None => expect_lit(s, p10, lit_null()) == Some(p10 + 4) && spec_parse_tail(
                    s,
                    p10 + 4,
                    e.timestamp,
                    e.flow_id,
                    e.sql_text,
                    e.tables,
                    e.operation,
                    e.label,
                ) == Some(e),
                Some(l) => expect_lit(s, p10, lit_null()) is None && parse_jstring(s, p10)
                    == Some((l, p10 + jstring(l).len())) && spec_parse_tail(
                    s,
                    p10 + jstring(l).len(),
                    e.timestamp,
                    e.flow_id,
                    e.sql_text,
                    e.tables,
                    e.operation,
                    e.label,
                ) == Some(e),
            }
        }),
{
    let lab_rep = match e.label {
        None => lit_null(),
        Some(l) => jstring(l),
    };
    let raw_rep = match e.raw_data {
        None => Seq::<char>::empty(),
        Some(d) => lit_raw_data() + jbytes(d),
    };
    let tail9 = raw_rep + seq!['}'];
    lemma_expect_lit(s, p9, lit_label(), lab_rep + tail9);
    let p10 = p9 + lit_label().len();
    assert(lab_rep + tail9 =~= lab_rep + (raw_rep + seq!['}']));
    let p11: int;
    match e.label {
        None => {
            assert(lab_rep == lit_null());
            lemma_expect_lit(s, p10, lit_null(), tail9);
            p11 = p10 + 4;
        },
        Some(l) => {
            lemma_jstring_roundtrip(s, p10, l, tail9);
            p11 = p10 + jstring(l).len();
            assert(jstring(l)[0] == '"');
            assert(s[p10 + 0] == jstring(l)[0]) by {
                lemma_tail_split(s, p10, jstring(l), tail9);
            }
            assert(lit_null()[0] == 'n');
            if expect_lit(s, p10, lit_null()) is Some {
                assert(s.subrange(p10, p10 + 4) == lit_null());
                assert(s.subrange(p10, p10 + 4)[0] == s[p10]);
                assert(false);
            }
        },
    }
    match e.raw_data {
        None => {
            assert(tail9 =~= seq!['}']);
            lemma_expect_lit(s, p11, seq!['}'], Seq::<char>::empty());
            assert(p11 + 1 == s.len());
            if expect_lit(s, p11, lit_raw_data()) is Some {
                assert(s.subrange(p11, p11 + lit_raw_data().len()) == lit_raw_data());
                assert(s.subrange(p11, p11 + lit_raw_data().len())[0] == s[p11]);
                assert(s[p11 + 0] == seq!['}'][0]) by {
                    lemma_tail_split(s, p11, seq!['}'], Seq::<char>::empty());
                    assert(seq!['}'] + Seq::<char>::empty() =~= seq!['}']);
                }
                assert(lit_raw_data()[0] == ',');
                assert(false);
            }
            assert(spec_parse_tail(s, p11, e.timestamp, e.flow_id, e.sql_text, e.tables,
                e.operation, e.label) == Some(e));
        },
        Some(d) => {
            assert(tail9 =~= lit_raw_data() + (jbytes(d) + seq!['}']));
            lemma_expect_lit(s, p11, lit_raw_data(), jbytes(d) + seq!['}']);
            let p12 = p11 + lit_raw_data().len();
            lemma_jbytes_roundtrip(s, p12, d, seq!['}']);
            let p13 = p12 + jbytes(d).len();
            lemma_expect_lit(s, p13, seq!['}'], Seq::<char>::empty());
            assert(p13 + 1 == s.len());
            assert(spec_parse_tail(s, p11, e.timestamp, e.flow_id, e.sql_text, e.tables,
                e.operation, e.label) == Some(e));
        },
    }
}

/// The tables, operation, label and raw-data fields parse back, from the
/// tables key onward.
#[verifier::rlimit(100)]
proof fn lemma_roundtrip_mid(e: SqlEventV, s: Seq<char>, p5: int)
    requires
        e.timestamp.wf(),
        0 <= p5 <= s.len(),
        s.subrange(p5, s.len() as int) == lit_tables() + (jstr_list(e.tables) + (lit_operation()
            + (jstring(e.operation) + (lit_label() + ((match e.label {
            None => lit_null(),
            Some(l) => jstring(l),
        }) + ((match e.raw_data {
            None => Seq::<char>::empty(),
            Some(d) => lit_raw_data() + jbytes(d),
        }) + seq!['}'])))))),
    ensures
        ({
            let p6 = p5 + lit_tables().len();
            let p7 = p6 + jstr_list(e.tables).len();
            let p8 = p7 + lit_operation().len();
            let p9 = p8 + jstring(e.operation).len();
            let p10 = p9 + lit_label().len();
            &&& expect_lit(s, p5, lit_tables()) == Some(p6)
            &&& parse_jstr_list(s, p6) == Some((e.tables, p7))
            &&& expect_lit(s, p7, lit_operation()) == Some(p8)
            &&& parse_jstring(s, p8) == Some((e.operation, p9))
            &&& expect_lit(s, p9, lit_label()) == Some(p10)
            &&& match e.label {
                None => expect_lit(s, p10, lit_null()) == Some(p10 + 4) && spec_parse_tail(
                    s,
                    p10 + 4,
                    e.timestamp,
                    e.flow_id,
                    e.sql_text,
                    e.tables,
                    e.operation,
                    e.label,
                ) == Some(e),
                Some(l) => expect_lit(s, p10, lit_null()) is None && parse_jstring(s, p10)
                    == Some((l, p10 + jstring(l).len())) && spec_parse_tail(
                    s,
                    p10 + jstring(l).len(),
                    e.timestamp,
                    e.flow_id,
                    e.sql_text,
                    e.tables,
                    e.operation,
                    e.label,
                ) == Some(e),
            }
        }),
{
    let lab_rep = match e.label {
        None => lit_null(),
        Some(l) => jstring(l),
    };
    let raw_rep = match e.raw_data {
        None => Seq::<char>::empty(),
        Some(d) => lit_raw_data() + jbytes(d),
    };
    let tail9 = raw_rep + seq!['}'];
    let tail8 = lab_rep + tail9;
    let tail7 = lit_label() + tail8;
    let tail6 = jstring(e.operation) + tail7;
    let tail5 = lit_operation() + tail6;
    let tail4 = jstr_list(e.tables) + tail5;
    lemma_expect_lit(s, p5, lit_tables(), tail4);
    let p6 = p5 + lit_tables().len();
    lemma_jstr_list_roundtrip(s, p6, e.tables, tail5);
    let p7 = p6 + jstr_list(e.tables).len();
    lemma_expect_lit(s, p7, lit_operation(), tail6);
    let p8 = p7 + lit_operation().len();
    lemma_jstring_roundtrip(s, p8, e.operation, tail7);
    let p9 = p8 + jstring(e.operation).len();
    lemma_roundtrip_label_tail(e, s, p9);
}

/// Parsing the serialized line of a well-formed event gives the event back,
/// on every field.
#[verifier::rlimit(100)]
pub proof fn lemma_jsonl_roundtrip(e: SqlEventV)
    requires
        e.timestamp.wf(),
    ensures
        spec_parse_jsonl(spec_event_jsonl(e)) == Some(e),
{
    let s = spec_event_jsonl(e);
    let lab_rep = match e.label {
        None => lit_null(),
        Some(l) => jstring(l),
    };
    let raw_rep = match e.raw_data {
        None => Seq::<char>::empty(),
        Some(d) => lit_raw_data() + jbytes(d),
    };
    let tail9 = raw_rep + seq!['}'];
    let tail8 = lab_rep + tail9;
    let tail7 = lit_label() + tail8;
    let tail6 = jstring(e.operation) + tail7;
    let tail5 = lit_operation() + tail6;
    let tail4 = jstr_list(e.tables) + tail5;
    let tail3 = lit_tables() + tail4;
    let tail2 = jstring(e.sql_text) + tail3;
    let tail1 = lit_sql_text() + tail2;
    let tail0 = jstring(e.flow_id) + tail1;
    assert(s.subrange(0, s.len() as int) =~= s);
    lemma_expect_lit(s, 0, lit_timestamp(), rfc3339(e.timestamp) + (seq!['"'] + (lit_flow_id()
        + tail0)));
    let p0 = lit_timestamp().len() as int;
    lemma_timestamp_roundtrip(s, p0, e.timestamp, lit_flow_id() + tail0);
    let p1 = p0 + rfc3339(e.timestamp).len() + 1;
    lemma_expect_lit(s, p1, lit_flow_id(), tail0);
    let p2 = p1 + lit_flow_id().len();
    lemma_jstring_roundtrip(s, p2, e.flow_id, tail1);
    let p3 = p2 + jstring(e.flow_id).len();
    lemma_expect_lit(s, p3, lit_sql_text(), tail2);
    let p4 = p3 + lit_sql_text().len();
    lemma_jstring_roundtrip(s, p4, e.sql_text, tail3);
    let p5 = p4 + jstring(e.sql_text).len();
    lemma_roundtrip_mid(e, s, p5);
}

// ---------------------------------------------------------------------
// Executable serializer.
// ---------------------------------------------------------------------

fn digit_char_exec(d: u64) -> (r: char)
    requires
        d <= 9,
    ensures
        r == digit_char(d as int),
{
    match d {
        0 => '0',
        1 => '1',
        2 => '2',
        3 => '3',
        4 => '4',
        5 => '5',
        6 => '6',
        7 => '7',
        8 => '8',
        _ => '9',
    }
}

fn hex_digit_exec(d: u32) -> (r: char)
    requires
        d <= 15,
    ensures
        r == hex_digit(d as int),
{
    match d {
        0 => '0',
        1 => '1',
        2 => '2',
        3 => '3',
        4 => '4',
        5 => '5',
        6 => '6',
        7 => '7',
        8 => '8',
        9 => '9',
        10 => 'a',
        11 => 'b',
        12 => 'c',
        13 => 'd',
        14 => 'e',
        _ => 'f',
    }
}

pub(crate) fn fmt_fixed(n: u64, w: u8) -> (r: Vec<char>)
    ensures
        r@ == fixed_rep(n as int, w as nat),
    decreases w,
{
    if w == 0 {
        let r: Vec<char> = Vec::new();
        proof {
            assert(r@ =~= fixed_rep(n as int, 0));
        }
        r
    } else {
        let mut r = fmt_fixed(n / 10, w - 1);
        r.push(digit_char_exec(n % 10));
        r
    }
}

proof fn lemma_escape_push(a: Seq<char>, x: char)
    ensures
        escape_str(a.push(x)) == escape_str(a) + esc_char(x),
    decreases a.len(),
{
    let ap = a.push(x);
    if a.len() == 0 {
        assert(ap[0] == x);
        assert(ap.drop_first() =~= Seq::<char>::empty());
        assert(escape_str(ap) == esc_char(x) + escape_str(Seq::<char>::empty()));
        assert(esc_char(x) + Seq::<char>::empty() =~= esc_char(x));
        assert(escape_str(a) + esc_char(x) =~= esc_char(x));
    } else {
        assert(ap[0] == a[0]);
        assert(ap.drop_first() =~= a.drop_first().push(x));
        lemma_escape_push(a.drop_first(), x);
        assert(escape_str(ap) == esc_char(a[0]) + (escape_str(a.drop_first()) + esc_char(x)));
        assert(esc_char(a[0]) + (escape_str(a.drop_first()) + esc_char(x)) =~= (esc_char(a[0])
            + escape_str(a.drop_first())) + esc_char(x));
    }
}

/// Append the escaped form of `src` to `out`.
fn append_escaped(out: &mut Vec<char>, src: &Vec<char>)
    ensures
        final(out)@ == old(out)@ + escape_str(src@),
{
    let n = src.len();
    let mut i: usize = 0;
    proof {
        assert(src@.take(0) =~= Seq::<char>::empty());
        assert(old(out)@ + escape_str(Seq::<char>::empty()) =~= old(out)@);
    }
    while i < n
        invariant
            n == src@.len(),
            i <= n,
            out@ == old(out)@ + escape_str(src@.take(i as int)),
        decreases n - i,
    {
        let c = src[i];
        proof {
            assert(src@.take(i + 1) =~= src@.take(i as int).push(src@[i as int]));
            lemma_escape_push(src@.take(i as int), src@[i as int]);
        }
        let ghost before = out@;
        if c == '"' {
            out.push('\\');
            out.push('"');
        } else if c == '\\' {
            out.push('\\');
            out.push('\\');
        } else if (c as u32) < 0x20 {
            let u = c as u32;
            out.push('\\');
            out.push('u');
            out.push('0');
            out.push('0');
            out.push(hex_digit_exec(u / 16));
            out.push(hex_digit_exec(u % 16));
        } else {
            out.push(c);
        }
        proof {
            assert(out@ =~= before + esc_char(c));
            assert(before + esc_char(c) =~= old(out)@ + (escape_str(src@.take(i as int))
                + esc_char(c)));
            assert(old(out)@ + (escape_str(src@.take(i as int)) + esc_char(c)) =~= old(out)@
                + escape_str(src@.take(i + 1)));
        }
        i += 1;
    }
    proof {
        assert(src@.take(n as int) =~= src@);
    }
}

/// Append a quoted JSON string.
fn append_jstring(out: &mut Vec<char>, src: &Vec<char>)
    ensures
        final(out)@ == old(out)@ + jstring(src@),
{
    let ghost before = out@;
    out.push('"');
    append_escaped(out, src);
    out.push('"');
    proof {
        assert(out@ =~= before + jstring(src@));
    }
}

/// Append a JSON array of strings.
fn append_jstr_list(out: &mut Vec<char>, v: &Vec<String>)
    ensures
        final(out)@ == old(out)@ + jstr_list(strings_views(v@)),
{
    let ghost views = strings_views(v@);
    let ghost before = out@;
    out.push('[');
    let n = v.len();
    let mut i: usize = 0;
    if n > 0 {
        let c0 = crate::text::str_to_chars(v[0].as_str());
        append_jstring(out, &c0);
        proof {
            assert(views.skip(0) =~= views);
            if n == 1 {
                assert(jstr_items(views) == jstring(views[0]));
            } else {
                assert(jstr_items(views.skip(0)) == jstring(views[0]) + seq![','] + jstr_items(
                    views.skip(1),
                )) by {
                    assert(views.skip(0)[0] == views[0]);
                    assert(views.skip(0).drop_first() =~= views.skip(1));
                }
            }
        }
        i = 1;
        while i < n
            invariant
                1 <= i <= n,
                n == v@.len(),
                views == strings_views(v@),
                i < n ==> out@ + (seq![','] + jstr_items(views.skip(i as int))) == before
                    + seq!['['] + jstr_items(views),
                i == n ==> out@ == before + seq!['['] + jstr_items(views),
            decreases n - i,
        {
            proof {
                assert(jstr_items(views.skip(i as int)) == (if i + 1 == n {
                    jstring(views[i as int])
                } else {
                    jstring(views[i as int]) + seq![','] + jstr_items(views.skip(i + 1))
                })) by {
                    assert(views.skip(i as int)[0] == views[i as int]);
                    assert(views.skip(i as int).drop_first() =~= views.skip(i + 1));
                    assert(views.skip(i as int).len() == n - i);
                }
            }
            let ghost at_entry = out@;
            out.push(',');
            let ci = crate::text::str_to_chars(v[i].as_str());
            append_jstring(out, &ci);
            proof {
                assert(out@ =~= at_entry + (seq![','] + jstring(views[i as int])));
                if i + 1 == n {
                    assert(at_entry + (seq![','] + jstring(views[i as int])) =~= at_entry + (
                    seq![','] + jstr_items(views.skip(i as int))));
                } else {
                    assert((at_entry + (seq![','] + jstring(views[i as int]))) + (seq![',']
                        + jstr_items(views.skip(i + 1))) =~= at_entry + (seq![','] + jstr_items(
                        views.skip(i as int),
                    )));
                }
            }
            i += 1;
        }
    } else {
        proof {
            assert(jstr_items(views) == Seq::<char>::empty());
        }
    }
    out.push(']');
    proof {
        assert(out@ =~= before + jstr_list(views));
    }
}

/// Append a JSON array of byte values.
fn append_jbytes(out: &mut Vec<char>, v: &Vec<u8>)
    ensures
        final(out)@ == old(out)@ + jbytes(v@),
{
    let ghost before = out@;
    out.push('[');
    let n = v.len();
    let mut i: usize = 0;
    if n > 0 {
        let d0 = crate::text::fmt_u64(v[0] as u64);
        crate::text::append_chars(out, &d0);
        proof {
            assert(v@.skip(0) =~= v@);
            if n == 1 {
                assert(jbyte_items(v@) == dec_rep(v@[0] as nat));
            } else {
                assert(jbyte_items(v@.skip(0)) == dec_rep(v@[0] as nat) + seq![','] + jbyte_items(
                    v@.skip(1),
                )) by {
                    assert(v@.skip(0)[0] == v@[0]);
                    assert(v@.skip(0).drop_first() =~= v@.skip(1));
                }
            }
        }
        i = 1;
        while i < n
            invariant
                1 <= i <= n,
                n == v@.len(),
                i < n ==> out@ + (seq![','] + jbyte_items(v@.skip(i as int))) == before
                    + seq!['['] + jbyte_items(v@),
                i == n ==> out@ == before + seq!['['] + jbyte_items(v@),
            decreases n - i,
        {
            proof {
                assert(jbyte_items(v@.skip(i as int)) == (if i + 1 == n {
                    dec_rep(v@[i as int] as nat)
                } else {
                    dec_rep(v@[i as int] as nat) + seq![','] + jbyte_items(v@.skip(i + 1))
                })) by {
                    assert(v@.skip(i as int)[0] == v@[i as int]);
                    assert(v@.skip(i as int).drop_first() =~= v@.skip(i + 1));
                    assert(v@.skip(i as int).len() == n - i);
                }
            }
            let ghost at_entry = out@;
            out.push(',');
            let di = crate::text::fmt_u64(v[i] as u64);
            crate::text::append_chars(out, &di);
            proof {
                assert(out@ =~= at_entry + (seq![','] + dec_rep(v@[i as int] as nat)));
                if i + 1 == n {
                    assert(at_entry + (seq![','] + dec_rep(v@[i as int] as nat)) =~= at_entry + (
                    seq![','] + jbyte_items(v@.skip(i as int))));
                } else {
                    assert((at_entry + (seq![','] + dec_rep(v@[i as int] as nat))) + (seq![',']
                        + jbyte_items(v@.skip(i + 1))) =~= at_entry + (seq![','] + jbyte_items(
                        v@.skip(i as int),
                    )));
                }
            }
            i += 1;
        }
    } else {
        proof {
            assert(jbyte_items(v@) == Seq::<char>::empty());
        }
    }
    out.push(']');
    proof {
        assert(out@ =~= before + jbytes(v@));
    }
}

/// Append the RFC 3339 notation of a timestamp.
fn append_rfc3339(out: &mut Vec<char>, t: &CivilTime)
    ensures
        final(out)@ == old(out)@ + rfc3339(*t),
{
    let y = fmt_fixed(t.year as u64, 4);
    let mo = fmt_fixed(t.month as u64, 2);
    let d = fmt_fixed(t.day as u64, 2);
    let h = fmt_fixed(t.hour as u64, 2);
    let mi = fmt_fixed(t.minute as u64, 2);
    let sec = fmt_fixed(t.second as u64, 2);
    let ns = fmt_fixed(t.nanos as u64, 9);
    crate::text::append_chars(out, &y);
    out.push('-');
    crate::text::append_chars(out, &mo);
    out.push('-');
    crate::text::append_chars(out, &d);
    out.push('T');
    crate::text::append_chars(out, &h);
    out.push(':');
    crate::text::append_chars(out, &mi);
    out.push(':');
    crate::text::append_chars(out, &sec);
    out.push('.');
    crate::text::append_chars(out, &ns);
    out.push('Z');
    proof {
        assert(final(out)@ =~= old(out)@ + rfc3339(*t));
    }
}

/// Serialize one event as a JSON line.
#[verifier::rlimit(100)]
pub fn serialize_event(e: &SqlEvent) -> (r: String)
    ensures
        r@ == spec_event_jsonl(e@),
{
    let ghost target = spec_event_jsonl(e@);
    let ghost tlab = (match e@.label {
        None => lit_null(),
        Some(l) => jstring(l),
    });
    let ghost traw = (match e@.raw_data {
        None => Seq::<char>::empty(),
        Some(d) => lit_raw_data() + jbytes(d),
    });
    let ghost t13 = traw + seq!['}'];
    let ghost t12 = tlab + t13;
    let ghost t11 = lit_label() + t12;
    let ghost t10 = jstring(e@.operation) + t11;
    let ghost t9 = lit_operation() + t10;
    let ghost t8 = jstr_list(e@.tables) + t9;
    let ghost t7 = lit_tables() + t8;
    let ghost t6 = jstring(e@.sql_text) + t7;
    let ghost t5 = lit_sql_text() + t6;
    let ghost t4 = jstring(e@.flow_id) + t5;
    let ghost t3 = lit_flow_id() + t4;
    let ghost t2 = seq!['"'] + t3;
    let ghost t1 = rfc3339(e@.timestamp) + t2;
    proof {
        assert(target == lit_timestamp() + t1);
    }
    let mut out: Vec<char> = Vec::new();
    let l1 = vec!['{', '"', 't', 'i', 'm', 'e', 's', 't', 'a', 'm', 'p', '"', ':', '"'];
    proof {
        assert(l1@ =~= lit_timestamp());
    }
    crate::text::append_chars(&mut out, &l1);
    proof {
        assert(out@ =~= lit_timestamp());
        assert(out@ + t1 =~= target);
    }
    let ghost o1 = out@;
    append_rfc3339(&mut out, &e.timestamp);
    proof {
        assert(out@ + t2 =~= target) by {
            assert((o1 + rfc3339(e@.timestamp)) + t2 =~= o1 + t1);
        }
    }
    let ghost o2 = out@;
    out.push('"');
    proof {
        assert(out@ + t3 =~= target) by {
            assert(out@ =~= o2 + seq!['"']);
            assert((o2 + seq!['"']) + t3 =~= o2 + t2);
        }
    }
    let ghost o3 = out@;
    let l2 = vec![',', '"', 'f', 'l', 'o', 'w', '_', 'i', 'd', '"', ':'];
    proof {
        assert(l2@ =~= lit_flow_id());
    }
    crate::text::append_chars(&mut out, &l2);
    proof {
        assert(out@ + t4 =~= target) by {
            assert((o3 + lit_flow_id()) + t4 =~= o3 + t3);
        }
    }
    let ghost o4 = out@;
    let fid = crate::text::str_to_chars(e.flow_id.as_str());
    append_jstring(&mut out, &fid);
    proof {
        assert(out@ + t5 =~= target) by {
            assert((o4 + jstring(e@.flow_id)) + t5 =~= o4 + t4);
        }
    }
    let ghost o5 = out@;
    let l3 = vec![',', '"', 's', 'q', 'l', '_', 't', 'e', 'x', 't', '"', ':'];
    proof {
        assert(l3@ =~= lit_sql_text());
    }
    crate::text::append_chars(&mut out, &l3);
    proof {
        assert(out@ + t6 =~= target) by {
            assert((o5 + lit_sql_text()) + t6 =~= o5 + t5);
        }
    }
    let ghost o6 = out@;
    let sql = crate::text::str_to_chars(e.sql_text.as_str());
    append_jstring(&mut out, &sql);
    proof {
        assert(out@ + t7 =~= target) by {
            assert((o6 + jstring(e@.sql_text)) + t7 =~= o6 + t6);
        }
    }
    let ghost o7 = out@;
    let l4 = vec![',', '"', 't', 'a', 'b', 'l', 'e', 's', '"', ':'];
    proof {
        assert(l4@ =~= lit_tables());
    }
    crate::text::append_chars(&mut out, &l4);
    proof {
        assert(out@ + t8 =~= target) by {
            assert((o7 + lit_tables()) + t8 =~= o7 + t7);
        }
    }
    let ghost o8 = out@;
    append_jstr_list(&mut out, &e.tables);
    proof {
        assert(out@ + t9 =~= target) by {
            assert((o8 + jstr_list(e@.tables)) + t9 =~= o8 + t8);
        }
    }
    let ghost o9 = out@;
    let l5 = vec![',', '"', 'o', 'p', 'e', 'r', 'a', 't', 'i', 'o', 'n', '"', ':'];
    proof {
        assert(l5@ =~= lit_operation());
    }
    crate::text::append_chars(&mut out, &l5);
    proof {
        assert(out@ + t10 =~= target) by {
            assert((o9 + lit_operation()) + t10 =~= o9 + t9);
        }
    }
    let ghost o10 = out@;
    let op = crate::text::str_to_chars(e.operation.as_str());
    append_jstring(&mut out, &op);
    proof {
        assert(out@ + t11 =~= target) by {
            assert((o10 + jstring(e@.operation)) + t11 =~= o10 + t10);
        }
    }
    let ghost o11 = out@;
    let l6 = vec![',', '"', 'l', 'a', 'b', 'e', 'l', '"', ':'];
    proof {
        assert(l6@ =~= lit_label());
    }
    crate::text::append_chars(&mut out, &l6);
    proof {
        assert(out@ + t12 =~= target) by {
            assert((o11 + lit_label()) + t12 =~= o11 + t11);
        }
    }
    let ghost o12 = out@;
    match &e.label {
        Some(l) => {
            let lc = crate::text::str_to_chars(l.as_str());
            append_jstring(&mut out, &lc);
            proof {
                assert(out@ =~= o12 + tlab);
            }
        },
        None => {
            out.push('n');
            out.push('u');
            out.push('l');
            out.push('l');
            proof {
                assert(out@ =~= o12 + tlab);
            }
        },
    }
    proof {
        assert(out@ + t13 =~= target) by {
            assert((o12 + tlab) + t13 =~= o12 + t12);
        }
    }
    let ghost o13 = out@;
    match &e.raw_data {
        Some(d) => {
            let l7 = vec![',', '"', 'r', 'a', 'w', '_', 'd', 'a', 't', 'a', '"', ':'];
            proof {
                assert(l7@ =~= lit_raw_data());
            }
            let ghost ox = out@;
            crate::text::append_chars(&mut out, &l7);
            append_jbytes(&mut out, d);
            proof {
                assert(out@ =~= o13 + traw);
            }
        },
        None => {
            proof {
                assert(traw =~= Seq::<char>::empty());
                assert(out@ =~= o13 + traw);
            }
        },
    }
    proof {
        assert(out@ + seq!['}'] =~= target) by {
            assert((o13 + traw) + seq!['}'] =~= o13 + t13);
        }
    }
    out.push('}');
    proof {
        assert(out@ =~= target);
    }
    crate::text::chars_to_string(&out)
}

// ---------------------------------------------------------------------
// Executable parser.
// ---------------------------------------------------------------------

fn expect_lit_exec(v: &Vec<char>, pos: usize, lit: &Vec<char>) -> (r: Option<usize>)
    ensures
        match r {
            Some(p) => p as int == pos + lit@.len() && expect_lit(v@, pos as int, lit@) == Some(
                p as int,
            ),
            None => expect_lit(v@, pos as int, lit@) is None,
        },
{
    let n = v.len();
    if pos > n || n - pos < lit.len() {
        return None;
    }
    if crate::text::check_match_at(v, lit, pos) {
        Some(pos + lit.len())
    } else {
        None
    }
}

fn digit_val_exec(c: char) -> (r: Option<u64>)
    ensures
        match r {
            Some(d) => is_digit(c) && d as int == digit_val(c) && d <= 9,
            None => !is_digit(c),
        },
{
    if c == '0' {
        Some(0)
    } else if c == '1' {
        Some(1)
    } else if c == '2' {
        Some(2)
    } else if c == '3' {
        Some(3)
    } else if c == '4' {
        Some(4)
    } else if c == '5' {
        Some(5)
    } else if c == '6' {
        Some(6)
    } else if c == '7' {
        Some(7)
    } else if c == '8' {
        Some(8)
    } else if c == '9' {
        Some(9)
    } else {
        proof {
            assert(!is_digit(c)) by {
                if is_digit(c) {
                    assert('0' <= c && c <= '9');
                }
            }
        }
        None
    }
}

fn parse_fixed_exec(v: &Vec<char>, pos: usize, w: u8) -> (r: Option<(u64, usize)>)
    requires
        w <= 9,
    ensures
        match r {
            Some((x, p)) => p as int == pos + w && x < pow10(w as nat) && parse_fixed(
                v@,
                pos as int,
                w as nat,
            ) == Some((x as int, p as int)),
            None => parse_fixed(v@, pos as int, w as nat) is None,
        },
{
    let n = v.len();
    if pos > n || n - pos < w as usize {
        proof {
            assert(!digits_at(v@, pos as int, w as nat));
        }
        return None;
    }
    let mut acc: u64 = 0;
    let mut i: usize = 0;
    proof {
        lemma_pow10_values();
        assert(pow10(0) == 1);
    }
    while i < w as usize
        invariant
            w <= 9,
            i <= w as usize,
            n == v@.len(),
            pos + w as usize <= n,
            acc as int == digits_val(v@, pos as int, i as nat),
            (acc as int) < pow10(i as nat),
            forall|k: int| 0 <= k < i ==> is_digit(#[trigger] v@[pos + k]),
        decreases w as usize - i,
    {
        let c = v[pos + i];
        match digit_val_exec(c) {
            Some(d) => {
                proof {
                    assert(pow10((i + 1) as nat) == 10 * pow10(i as nat));
                    lemma_pow10_values();
                    assert(pow10(i as nat) <= pow10(9)) by {
                        lemma_pow10_mono(i as nat, 9);
                    }
                }
                acc = acc * 10 + d;
                proof {
                    assert(digits_val(v@, pos as int, (i + 1) as nat) == digits_val(
                        v@,
                        pos as int,
                        i as nat,
                    ) * 10 + digit_val(v@[pos + i]));
                }
                i += 1;
            },
            None => {
                proof {
                    assert(!digits_at(v@, pos as int, w as nat));
                }
                return None;
            },
        }
    }
    proof {
        assert(digits_at(v@, pos as int, w as nat));
    }
    Some((acc, pos + w as usize))
}

proof fn lemma_pow10_mono(a: nat, b: nat)
    requires
        a <= b,
    ensures
        pow10(a) <= pow10(b),
    decreases b,
{
    if a < b {
        lemma_pow10_mono(a, (b - 1) as nat);
        lemma_pow10_pos((b - 1) as nat);
    }
}

fn hex_val_exec(c: char) -> (r: Option<u32>)
    ensures
        match r {
            Some(d) => is_hex_char(c) && d as int == hex_val(c) && d <= 15,
            None => !is_hex_char(c),
        },
{
    match digit_val_exec(c) {
        Some(d) => {
            proof {
                assert(c != 'a' && c != 'b' && c != 'c' && c != 'd' && c != 'e' && c != 'f') by {
                    assert(is_digit(c));
                }
            }
            Some(d as u32)
        },
        None => {
            if c == 'a' {
                Some(10)
            } else if c == 'b' {
                Some(11)
            } else if c == 'c' {
                Some(12)
            } else if c == 'd' {
                Some(13)
            } else if c == 'e' {
                Some(14)
            } else if c == 'f' {
                Some(15)
            } else {
                None
            }
        },
    }
}

fn parse_str_body_exec(v: &Vec<char>, pos: usize) -> (r: Option<(Vec<char>, usize)>)
    ensures
        match r {
            Some((t, e)) => pos < e <= v@.len() && parse_str_body(v@, pos as int) == Some(
                (t@, e as int),
            ),
            None => parse_str_body(v@, pos as int) is None,
        },
{
    let n = v.len();
    if pos > n {
        return None;
    }
    let mut cur = pos;
    let mut acc: Vec<char> = Vec::new();
    proof {
        assert(acc@ =~= Seq::<char>::empty());
    }
    loop
        invariant
            pos <= cur,
            n == v@.len(),
            cur <= n,
            (match parse_str_body(v@, cur as int) {
                Some((t, e)) => parse_str_body(v@, pos as int) == Some((acc@ + t, e)),
                None => parse_str_body(v@, pos as int) is None,
            }),
        decreases n - cur,
    {
        if cur >= n {
            return None;
        }
        let c = v[cur];
        if c == '"' {
            proof {
                assert(parse_str_body(v@, cur as int) == Some(
                    (Seq::<char>::empty(), cur + 1int),
                ));
                assert(acc@ + Seq::<char>::empty() =~= acc@);
            }
            return Some((acc, cur + 1));
        }
        if c == '\\' {
            if cur + 1 < n && (v[cur + 1] == '"' || v[cur + 1] == '\\') {
                let c2 = v[cur + 1];
                let ghost acc_old = acc@;
                acc.push(c2);
                proof {
                    let inner = parse_str_body(v@, cur + 2);
                    assert(parse_str_body(v@, cur as int) == (match inner {
                        Some((t, e)) => Some((seq![v@[cur + 1]] + t, e)),
                        None => None,
                    }));
                    if inner is Some {
                        let (t, e) = inner.unwrap();
                        assert(acc_old + (seq![v@[cur + 1]] + t) =~= acc@ + t);
                    }
                }
                cur = cur + 2;
            } else if n - cur > 5 && v[cur + 1] == 'u' && v[cur + 2] == '0' && v[cur + 3] == '0' {
                let h1 = match hex_val_exec(v[cur + 4]) {
                    Some(h) => h,
                    None => {
                        return None;
                    },
                };
                let h2 = match hex_val_exec(v[cur + 5]) {
                    Some(h) => h,
                    None => {
                        return None;
                    },
                };
                let val = h1 * 16 + h2;
                if val >= 0x20 {
                    return None;
                }
                let ch = (val as u8) as char;
                proof {
                    let spec_ch = ((hex_val(v@[cur + 4]) * 16 + hex_val(v@[cur + 5])) as u32)
                        as char;
                    assert(ch as u32 == val);
                    assert(spec_ch as u32 == val);
                    vstd::utf8::char_u32_cast(ch, ch as u32);
                    vstd::utf8::char_u32_cast(spec_ch, spec_ch as u32);
                    assert(ch == spec_ch);
                }
                let ghost acc_old = acc@;
                acc.push(ch);
                proof {
                    let inner = parse_str_body(v@, cur + 6);
                    if inner is Some {
                        let (t, e) = inner.unwrap();
                        assert(acc_old + (seq![ch] + t) =~= acc@ + t);
                    }
                }
                cur = cur + 6;
            } else {
                proof {
                    assert(parse_str_body(v@, cur as int) is None);
                }
                return None;
            }
        } else {
            let ghost acc_old = acc@;
            acc.push(c);
            proof {
                let inner = parse_str_body(v@, cur + 1);
                if inner is Some {
                    let (t, e) = inner.unwrap();
                    assert(acc_old + (seq![v@[cur as int]] + t) =~= acc@ + t);
                }
            }
            cur = cur + 1;
        }
    }
}

fn parse_jstring_exec(v: &Vec<char>, pos: usize) -> (r: Option<(Vec<char>, usize)>)
    ensures
        match r {
            Some((t, e)) => pos < e <= v@.len() && parse_jstring(v@, pos as int) == Some(
                (t@, e as int),
            ),
            None => parse_jstring(v@, pos as int) is None,
        },
{
    if pos >= v.len() {
        return None;
    }
    if v[pos] != '"' {
        return None;
    }
    parse_str_body_exec(v, pos + 1)
}

fn parse_jstr_list_exec(v: &Vec<char>, pos: usize) -> (r: Option<(Vec<String>, usize)>)
    ensures
        match r {
            Some((ts, e)) => pos < e <= v@.len() && parse_jstr_list(v@, pos as int) == Some(
                (strings_views(ts@), e as int),
            ),
            None => parse_jstr_list(v@, pos as int) is None,
        },
{
    let n = v.len();
    if pos > n || n - pos < 2 || v[pos] != '[' {
        return None;
    }
    if v[pos + 1] == ']' {
        let ts: Vec<String> = Vec::new();
        proof {
            assert(strings_views(ts@) =~= Seq::<Seq<char>>::empty());
        }
        return Some((ts, pos + 2));
    }
    let mut cur = pos + 1;
    let mut acc: Vec<String> = Vec::new();
    proof {
        assert(strings_views(acc@) =~= Seq::<Seq<char>>::empty());
    }
    loop
        invariant
            pos + 1 <= cur <= n,
            pos + 2 <= n,
            n == v@.len(),
            v@[pos as int] == '[',
            v@[pos + 1] != ']',
            (match parse_jstr_items(v@, cur as int) {
                Some((vs, e)) => parse_jstr_items(v@, pos + 1) == Some(
                    (strings_views(acc@) + vs, e),
                ),
                None => parse_jstr_items(v@, pos + 1) is None,
            }),
        decreases n - cur,
    {
        let (t, p2) = match parse_jstring_exec(v, cur) {
            Some(x) => x,
            None => {
                return None;
            },
        };
        if p2 >= n {
            return None;
        }
        let ghost acc_old = strings_views(acc@);
        let ts = crate::text::chars_to_string(&t);
        if v[p2] == ']' {
            acc.push(ts);
            proof {
                assert(parse_jstr_items(v@, cur as int) == Some((seq![t@], p2 + 1int)));
                assert(strings_views(acc@) =~= acc_old.push(t@));
                assert(acc_old + seq![t@] =~= acc_old.push(t@));
            }
            return Some((acc, p2 + 1));
        }
        if v[p2] != ',' {
            return None;
        }
        acc.push(ts);
        proof {
            let inner = parse_jstr_items(v@, p2 + 1);
            assert(parse_jstr_items(v@, cur as int) == (match inner {
                Some((vs, e)) => Some((seq![t@] + vs, e)),
                None => None,
            }));
            assert(strings_views(acc@) =~= acc_old.push(t@));
            if inner is Some {
                let (vs, e2) = inner.unwrap();
                assert(acc_old + (seq![t@] + vs) =~= acc_old.push(t@) + vs);
            }
        }
        cur = p2 + 1;
    }
}

fn parse_jbytes_exec(v: &Vec<char>, pos: usize) -> (r: Option<(Vec<u8>, usize)>)
    ensures
        match r {
            Some((bs, e)) => pos < e <= v@.len() && parse_jbytes(v@, pos as int) == Some(
                (bs@, e as int),
            ),
            None => parse_jbytes(v@, pos as int) is None,
        },
{
    let n = v.len();
    if pos > n || n - pos < 2 || v[pos] != '[' {
        return None;
    }
    if v[pos + 1] == ']' {
        let bs: Vec<u8> = Vec::new();
        proof {
            assert(bs@ =~= Seq::<u8>::empty());
        }
        return Some((bs, pos + 2));
    }
    let mut cur = pos + 1;
    let mut acc: Vec<u8> = Vec::new();
    loop
        invariant
            pos + 1 <= cur <= n,
            pos + 2 <= n,
            n == v@.len(),
            v@[pos as int] == '[',
            v@[pos + 1] != ']',
            (match parse_jbyte_items(v@, cur as int) {
                Some((vs, e)) => parse_jbyte_items(v@, pos + 1) == Some((acc@ + vs, e)),
                None => parse_jbyte_items(v@, pos + 1) is None,
            }),
        decreases n - cur,
    {
        let (b, p2) = match parse_byte_exec(v, cur) {
            Some(x) => x,
            None => {
                return None;
            },
        };
        if p2 >= n {
            return None;
        }
        let ghost acc_old = acc@;
        if v[p2] == ']' {
            acc.push(b);
            proof {
                assert(parse_jbyte_items(v@, cur as int) == Some((seq![b], p2 + 1int)));
                assert(acc_old + seq![b] =~= acc@);
            }
            return Some((acc, p2 + 1));
        }
        if v[p2] != ',' {
            return None;
        }
        acc.push(b);
        proof {
            let inner = parse_jbyte_items(v@, p2 + 1);
            if inner is Some {
                let (vs, e2) = inner.unwrap();
                assert(acc_old + (seq![b] + vs) =~= acc@ + vs);
            }
        }
        cur = p2 + 1;
    }
}

fn parse_byte_exec(v: &Vec<char>, pos: usize) -> (r: Option<(u8, usize)>)
    ensures
        match r {
            Some((b, e)) => pos < e <= v@.len() && parse_byte(v@, pos as int) == Some(
                (b, e as int),
            ),
            None => parse_byte(v@, pos as int) is None,
        },
{
    let n = v.len();
    if pos >= n {
        proof {
            assert(digit_run_end(v@, pos as int) == pos as int);
        }
        return None;
    }
    let mut e = pos;
    let mut acc: u64 = 0;
    let mut too_big = false;
    proof {
        assert(v@.subrange(pos as int, pos as int) =~= Seq::<char>::empty());
    }
    while e < n && matches!(digit_val_exec(v[e]), Some(_))
        invariant
            pos <= e <= n,
            n == v@.len(),
            digit_run_end(v@, pos as int) == digit_run_end(v@, e as int),
            forall|k: int| pos <= k < e ==> is_digit(#[trigger] v@[k]),
            !too_big ==> acc as int == parse_dec(v@.subrange(pos as int, e as int)) && acc <= 255,
            too_big ==> parse_dec(v@.subrange(pos as int, e as int)) > 255,
            parse_dec(v@.subrange(pos as int, e as int)) >= 0,
        decreases n - e,
    {
        let d = match digit_val_exec(v[e]) {
            Some(d) => d,
            None => {
                proof {
                    assert(false);
                }
                0
            },
        };
        proof {
            assert(v@.subrange(pos as int, e + 1).drop_last() =~= v@.subrange(
                pos as int,
                e as int,
            ));
            assert(v@.subrange(pos as int, e + 1).last() == v@[e as int]);
            assert(parse_dec(v@.subrange(pos as int, e + 1)) == parse_dec(
                v@.subrange(pos as int, e as int),
            ) * 10 + digit_val(v@[e as int]));
        }
        if too_big {
            proof {
                assert(parse_dec(v@.subrange(pos as int, e + 1)) > 255);
            }
        } else if acc * 10 + d > 255 {
            too_big = true;
        } else {
            acc = acc * 10 + d;
        }
        e += 1;
    }
    proof {
        if e < n {
            assert(!is_digit(v@[e as int]));
        }
        assert(digit_run_end(v@, e as int) == e as int);
    }
    if e == pos {
        proof {
            assert(parse_byte(v@, pos as int) is None);
        }
        return None;
    }
    if too_big {
        proof {
            assert(parse_byte(v@, pos as int) is None);
        }
        return None;
    }
    proof {
        assert(parse_byte(v@, pos as int) == Some((acc as u8, e as int)));
    }
    Some((acc as u8, e))
}

fn parse_timestamp_exec(v: &Vec<char>, pos: usize) -> (r: Option<(CivilTime, usize)>)
    ensures
        match r {
            Some((t, e)) => pos < e <= v@.len() && parse_timestamp(v@, pos as int) == Some(
                (t, e as int),
            ),
            None => parse_timestamp(v@, pos as int) is None,
        },
{
    let dash = vec!['-'];
    let tee = vec!['T'];
    let colon = vec![':'];
    let dot = vec!['.'];
    let zq = vec!['Z', '"'];
    proof {
        assert(dash@ =~= seq!['-']);
        assert(tee@ =~= seq!['T']);
        assert(colon@ =~= seq![':']);
        assert(dot@ =~= seq!['.']);
        assert(zq@ =~= seq!['Z', '"']);
    }
    let (y, p1) = match parse_fixed_exec(v, pos, 4) {
        Some(x) => x,
        None => {
            return None;
        },
    };
    let p2 = match expect_lit_exec(v, p1, &dash) {
        Some(p) => p,
        None => {
            return None;
        },
    };
    let (mo, p3) = match parse_fixed_exec(v, p2, 2) {
        Some(x) => x,
        None => {
            return None;
        },
    };
    let p4 = match expect_lit_exec(v, p3, &dash) {
        Some(p) => p,
        None => {
            return None;
        },
    };
    let (d, p5) = match parse_fixed_exec(v, p4, 2) {
        Some(x) => x,
        None => {
            return None;
        },
    };
    let p6 = match expect_lit_exec(v, p5, &tee) {
        Some(p) => p,
        None => {
            return None;
        },
    };
    let (h, p7) = match parse_fixed_exec(v, p6, 2) {
        Some(x) => x,
        None => {
            return None;
        },
    };
    let p8 = match expect_lit_exec(v, p7, &colon) {
        Some(p) => p,
        None => {
            return None;
        },
    };
    let (mi, p9) = match parse_fixed_exec(v, p8, 2) {
        Some(x) => x,
        None => {
            return None;
        },
    };
    let p10 = match expect_lit_exec(v, p9, &colon) {
        Some(p) => p,
        None => {
            return None;
        },
    };
    let (sec, p11) = match parse_fixed_exec(v, p10, 2) {
        Some(x) => x,
        None => {
            return None;
        },
    };
    let p12 = match expect_lit_exec(v, p11, &dot) {
        Some(p) => p,
        None => {
            return None;
        },
    };
    let (ns, p13) = match parse_fixed_exec(v, p12, 9) {
        Some(x) => x,
        None => {
            return None;
        },
    };
    let p14 = match expect_lit_exec(v, p13, &zq) {
        Some(p) => p,
        None => {
            return None;
        },
    };
    proof {
        lemma_pow10_values();
    }
    let t = CivilTime {
        year: y as u16,
        month: mo as u8,
        day: d as u8,
        hour: h as u8,
        minute: mi as u8,
        second: sec as u8,
        nanos: ns as u32,
    };
    Some((t, p14))
}

/// Parse one JSON line back into an event.
#[verifier::rlimit(100)]
pub fn parse_event(line: &str) -> (r: Option<SqlEvent>)
    ensures
        match r {
            Some(ev) => spec_parse_jsonl(line@) == Some(ev@),
            None => spec_parse_jsonl(line@) is None,
        },
{
    let v = crate::text::str_to_chars(line);
    let l1 = vec!['{', '"', 't', 'i', 'm', 'e', 's', 't', 'a', 'm', 'p', '"', ':', '"'];
    let l2 = vec![',', '"', 'f', 'l', 'o', 'w', '_', 'i', 'd', '"', ':'];
    let l3 = vec![',', '"', 's', 'q', 'l', '_', 't', 'e', 'x', 't', '"', ':'];
    let l4 = vec![',', '"', 't', 'a', 'b', 'l', 'e', 's', '"', ':'];
    let l5 = vec![',', '"', 'o', 'p', 'e', 'r', 'a', 't', 'i', 'o', 'n', '"', ':'];
    let l6 = vec![',', '"', 'l', 'a', 'b', 'e', 'l', '"', ':'];
    let l7 = vec![',', '"', 'r', 'a', 'w', '_', 'd', 'a', 't', 'a', '"', ':'];
    let lnull = vec!['n', 'u', 'l', 'l'];
    let brace = vec!['}'];
    proof {
        assert(l1@ =~= lit_timestamp());
        assert(l2@ =~= lit_flow_id());
        assert(l3@ =~= lit_sql_text());
        assert(l4@ =~= lit_tables());
        assert(l5@ =~= lit_operation());
        assert(l6@ =~= lit_label());
        assert(l7@ =~= lit_raw_data());
        assert(lnull@ =~= lit_null());
        assert(brace@ =~= seq!['}']);
    }
    let p0 = match expect_lit_exec(&v, 0, &l1) {
        Some(p) => p,
        None => {
            return None;
        },
    };
    let (ts, p1) = match parse_timestamp_exec(&v, p0) {
        Some(x) => x,
        None => {
            return None;
        },
    };
    let p2 = match expect_lit_exec(&v, p1, &l2) {
        Some(p) => p,
        None => {
            return None;
        },
    };
    let (fid, p3) = match parse_jstring_exec(&v, p2) {
        Some(x) => x,
        None => {
            return None;
        },
    };
    let p4 = match expect_lit_exec(&v, p3, &l3) {
        Some(p) => p,
        None => {
            return None;
        },
    };
    let (sql, p5) = match parse_jstring_exec(&v, p4) {
        Some(x) => x,
        None => {
            return None;
        },
    };
    let p6 = match expect_lit_exec(&v, p5, &l4) {
        Some(p) => p,
        None => {
            return None;
        },
    };
    let (tabs, p7) = match parse_jstr_list_exec(&v, p6) {
        Some(x) => x,
        None => {
            return None;
        },
    };
    let p8 = match expect_lit_exec(&v, p7, &l5) {
        Some(p) => p,
        None => {
            return None;
        },
    };
    let (op, p9) = match parse_jstring_exec(&v, p8) {
        Some(x) => x,
        None => {
            return None;
        },
    };
    let p10 = match expect_lit_exec(&v, p9, &l6) {
        Some(p) => p,
        None => {
            return None;
        },
    };
    let label: Option<String>;
    let p11: usize;
    match expect_lit_exec(&v, p10, &lnull) {
        Some(p) => {
            label = None;
            p11 = p;
        },
        None => {
            match parse_jstring_exec(&v, p10) {
                Some((l, p)) => {
                    label = Some(crate::text::chars_to_string(&l));
                    p11 = p;
                },
                None => {
                    return None;
                },
            }
        },
    }
    let raw_data: Option<Vec<u8>>;
    let p12: usize;
    match expect_lit_exec(&v, p11, &l7) {
        Some(p) => {
            match parse_jbytes_exec(&v, p) {
                Some((bs, pr)) => {
                    raw_data = Some(bs);
                    p12 = pr;
                },
                None => {
                    return None;
                },
            }
        },
        None => {
            raw_data = None;
            p12 = p11;
        },
    }
    match expect_lit_exec(&v, p12, &brace) {
        Some(p) => {
            if p != v.len() {
                return None;
            }
        },
        None => {
            return None;
        },
    }
    let wf_ok = ts.year <= 9999 && 1 <= ts.month && ts.month <= 12 && 1 <= ts.day && ts.day <= 31
        && ts.hour <= 23 && ts.minute <= 59 && ts.second <= 59 && ts.nanos <= 999999999;
    if !wf_ok {
        return None;
    }
    let ev = SqlEvent {
        timestamp: ts,
        flow_id: crate::text::chars_to_string(&fid),
        sql_text: crate::text::chars_to_string(&sql),
        tables: tabs,
        operation: crate::text::chars_to_string(&op),
        label,
        raw_data,
    };
    proof {
        assert(spec_parse_jsonl(line@) == Some(ev@));
    }
    Some(ev)
}

} // verus!
