//! SQL events and the interface-level SQL text passes: operation keywords,
//! table names, and a calendar timestamp for event records.

use vstd::prelude::*;
use vstd::string::StrSliceExecFns;
use chrono::Datelike;
use chrono::Timelike;
use crate::text::{
    str_to_chars, chars_to_string, contains_sub, chars_eq, seq_contains, matches_at, is_ws,
    is_ws_char,
};

verus! {

/// A UTC calendar timestamp with nanosecond precision.
#[derive(Clone, Copy, PartialEq, Eq, Structural, Debug)]
pub struct CivilTime {
    pub year: u16,
    pub month: u8,
    pub day: u8,
    pub hour: u8,
    pub minute: u8,
    pub second: u8,
    pub nanos: u32,
}

impl CivilTime {
    /// Field ranges of a well-formed timestamp.
    pub open spec fn wf(self) -> bool {
        self.year <= 9999 && 1 <= self.month && self.month <= 12 && 1 <= self.day && self.day
            <= 31 && self.hour <= 23 && self.minute <= 59 && self.second <= 59 && self.nanos
            <= 999999999
    }

    /// The Unix epoch, used when a capture timestamp cannot be converted.
    pub fn epoch() -> (r: CivilTime)
        ensures
            r.wf(),
            r == (CivilTime { year: 1970u16, month: 1u8, day: 1u8, hour: 0u8, minute: 0u8, second: 0u8, nanos: 0u32 }),
    {
        CivilTime { year: 1970, month: 1, day: 1, hour: 0, minute: 0, second: 0, nanos: 0 }
    }
}

/// The UTC calendar fields (year, month, day, hour, minute, second) that a
/// Unix timestamp converts to, or nothing when it is out of range: what
/// `chrono::DateTime::from_timestamp` returns, a function of its arguments
/// alone.
pub uninterp spec fn civil_of(sec: i64, nanos: u32) -> Option<(i64, u32, u32, u32, u32, u32)>;

/// Relies on `chrono::DateTime::from_timestamp` with the `Datelike` and
/// `Timelike` accessors: the UTC calendar fields of an in-range Unix
/// timestamp, with month in 1..=12, day in 1..=31, hour at most 23, minute
/// and second at most 59 (the nanoseconds passed in are below one second).
#[verifier::external_body]
fn unix_to_civil(sec: i64, nanos: u32) -> (r: Option<(i64, u32, u32, u32, u32, u32)>)
    requires
        nanos <= 999999999,
    ensures
        r == civil_of(sec, nanos),
        match r {
            Some(t) => 1 <= t.1 <= 12 && 1 <= t.2 <= 31 && t.3 <= 23 && t.4 <= 59 && t.5 <= 59,
            None => true,
        },
{
    match chrono::DateTime::from_timestamp(sec, nanos) {
        Some(dt) => Some(
            (dt.year() as i64, dt.month(), dt.day(), dt.hour(), dt.minute(), dt.second()),
        ),
        None => None,
    }
}

/// The epoch carrying the given fraction of a second.
pub open spec fn epoch_with_nanos(nanos: u32) -> CivilTime {
    CivilTime { year: 1970, month: 1, day: 1, hour: 0, minute: 0, second: 0, nanos }
}

/// What `civil_from_unix` returns: microseconds clamped to a sub-second
/// nanosecond count, then the calendar fields of the conversion; the epoch
/// (with that nanosecond count) when the timestamp is out of range or its
/// year does not fit four digits.
pub open spec fn spec_civil_from_unix(sec: u64, usec: u32) -> CivilTime {
    let nanos: u32 = if usec <= 999999 {
        (usec * 1000) as u32
    } else {
        999999999u32
    };
    if sec > 0x7FFFFFFFFFFFFFFFu64 {
        epoch_with_nanos(nanos)
    } else {
        match civil_of(sec as i64, nanos) {
            Some(t) => {
                if 0 <= t.0 <= 9999 {
                    CivilTime {
                        year: t.0 as u16,
                        month: t.1 as u8,
                        day: t.2 as u8,
                        hour: t.3 as u8,
                        minute: t.4 as u8,
                        second: t.5 as u8,
                        nanos,
                    }
                } else {
                    epoch_with_nanos(nanos)
                }
            },
            None => epoch_with_nanos(nanos),
        }
    }
}

/// Convert a capture timestamp (seconds and microseconds since the Unix
/// epoch) to a well-formed UTC calendar timestamp; out-of-range inputs fall
/// back to the epoch.
pub fn civil_from_unix(sec: u64, usec: u32) -> (r: CivilTime)
    ensures
        r == spec_civil_from_unix(sec, usec),
        r.wf(),
{
    let nanos: u32 = if usec <= 999999 {
        usec * 1000
    } else {
        999999999
    };
    if sec > 0x7FFFFFFFFFFFFFFFu64 {
        let mut e = CivilTime::epoch();
        e.nanos = nanos;
        return e;
    }
    match unix_to_civil(sec as i64, nanos) {
        Some((y, mo, d, h, mi, s)) => {
            if 0 <= y && y <= 9999 {
                CivilTime {
                    year: y as u16,
                    month: mo as u8,
                    day: d as u8,
                    hour: h as u8,
                    minute: mi as u8,
                    second: s as u8,
                    nanos,
                }
            } else {
                let mut e = CivilTime::epoch();
                e.nanos = nanos;
                e
            }
        },
        None => {
            let mut e = CivilTime::epoch();
            e.nanos = nanos;
            e
        },
    }
}

/// One extracted SQL statement with its provenance: when the flow was first
/// seen, which endpoints carried it, the decoded text, and the raw bytes of
/// the TDS message it came from.
pub struct SqlEvent {
    pub timestamp: CivilTime,
    pub flow_id: String,
    pub sql_text: String,
    pub tables: Vec<String>,
    pub operation: String,
    pub label: Option<String>,
    pub raw_data: Option<Vec<u8>>,
}

/// The abstract contents of an event.
pub struct SqlEventV {
    pub timestamp: CivilTime,
    pub flow_id: Seq<char>,
    pub sql_text: Seq<char>,
    pub tables: Seq<Seq<char>>,
    pub operation: Seq<char>,
    pub label: Option<Seq<char>>,
    pub raw_data: Option<Seq<u8>>,
}

/// The abstract contents of a list of strings.
pub open spec fn strings_views(v: Seq<String>) -> Seq<Seq<char>> {
    Seq::new(v.len(), |i: int| v[i]@)
}

impl View for SqlEvent {
    type V = SqlEventV;

    open spec fn view(&self) -> SqlEventV {
        SqlEventV {
            timestamp: self.timestamp,
            flow_id: self.flow_id@,
            sql_text: self.sql_text@,
            tables: strings_views(self.tables@),
            operation: self.operation@,
            label: match self.label {
                Some(l) => Some(l@),
                None => None,
            },
            raw_data: match self.raw_data {
                Some(d) => Some(d@),
                None => None,
            },
        }
    }
}

/// What `str::to_uppercase` returns for the given characters: a pure
/// function of the characters alone.
pub uninterp spec fn upper_of(s: Seq<char>) -> Seq<char>;

/// Relies on `str::to_uppercase`: the Unicode uppercase of the string,
/// depending on its characters alone; an empty string stays empty.
#[verifier::external_body]
fn to_upper(s: &str) -> (r: String)
    ensures
        r@ == upper_of(s@),
        s@.len() == 0 ==> r@.len() == 0,
{
    s.to_uppercase()
}

pub open spec fn kw_execute() -> Seq<char> {
    seq!['E', 'X', 'E', 'C', 'U', 'T', 'E']
}

/// The operation keywords found in the uppercased SQL text, in the fixed
/// order SELECT, INSERT, UPDATE, DELETE, EXEC, EXECUTE.
pub open spec fn spec_operations(s: Seq<char>) -> Seq<Seq<char>> {
    let u = upper_of(s);
    (if seq_contains(u, crate::tds::kw_select()) {
        seq![crate::tds::kw_select()]
    } else {
        Seq::empty()
    }) + (if seq_contains(u, crate::tds::kw_insert()) {
        seq![crate::tds::kw_insert()]
    } else {
        Seq::empty()
    }) + (if seq_contains(u, crate::tds::kw_update()) {
        seq![crate::tds::kw_update()]
    } else {
        Seq::empty()
    }) + (if seq_contains(u, crate::tds::kw_delete()) {
        seq![crate::tds::kw_delete()]
    } else {
        Seq::empty()
    }) + (if seq_contains(u, crate::tds::kw_exec()) {
        seq![crate::tds::kw_exec()]
    } else {
        Seq::empty()
    }) + (if seq_contains(u, kw_execute()) {
        seq![kw_execute()]
    } else {
        Seq::empty()
    })
}

/// The operation keywords the uppercased SQL text contains.
pub fn extract_operations(sql_text: &str) -> (r: Vec<String>)
    ensures
        strings_views(r@) == spec_operations(sql_text@),
{
    let upper = to_upper(sql_text);
    let uc = str_to_chars(upper.as_str());
    let mut r: Vec<String> = Vec::new();
    let ghost u = upper_of(sql_text@);
    let kw1 = vec!['S', 'E', 'L', 'E', 'C', 'T'];
    let kw2 = vec!['I', 'N', 'S', 'E', 'R', 'T'];
    let kw3 = vec!['U', 'P', 'D', 'A', 'T', 'E'];
    let kw4 = vec!['D', 'E', 'L', 'E', 'T', 'E'];
    let kw5 = vec!['E', 'X', 'E', 'C'];
    let kw6 = vec!['E', 'X', 'E', 'C', 'U', 'T', 'E'];
    proof {
        assert(kw1@ =~= crate::tds::kw_select());
        assert(kw2@ =~= crate::tds::kw_insert());
        assert(kw3@ =~= crate::tds::kw_update());
        assert(kw4@ =~= crate::tds::kw_delete());
        assert(kw5@ =~= crate::tds::kw_exec());
        assert(kw6@ =~= kw_execute());
    }
    let ghost s1 = (if seq_contains(u, crate::tds::kw_select()) {
        seq![crate::tds::kw_select()]
    } else {
        Seq::<Seq<char>>::empty()
    });
    if contains_sub(&uc, &kw1) {
        r.push(chars_to_string(&kw1));
    }
    proof {
        assert(strings_views(r@) =~= s1);
    }
    let ghost s2 = s1 + (if seq_contains(u, crate::tds::kw_insert()) {
        seq![crate::tds::kw_insert()]
    } else {
        Seq::<Seq<char>>::empty()
    });
    if contains_sub(&uc, &kw2) {
        r.push(chars_to_string(&kw2));
    }
    proof {
        assert(strings_views(r@) =~= s2);
    }
    let ghost s3 = s2 + (if seq_contains(u, crate::tds::kw_update()) {
        seq![crate::tds::kw_update()]
    } else {
        Seq::<Seq<char>>::empty()
    });
    if contains_sub(&uc, &kw3) {
        r.push(chars_to_string(&kw3));
    }
    proof {
        assert(strings_views(r@) =~= s3);
    }
    let ghost s4 = s3 + (if seq_contains(u, crate::tds::kw_delete()) {
        seq![crate::tds::kw_delete()]
    } else {
        Seq::<Seq<char>>::empty()
    });
    if contains_sub(&uc, &kw4) {
        r.push(chars_to_string(&kw4));
    }
    proof {
        assert(strings_views(r@) =~= s4);
    }
    let ghost s5 = s4 + (if seq_contains(u, crate::tds::kw_exec()) {
        seq![crate::tds::kw_exec()]
    } else {
        Seq::<Seq<char>>::empty()
    });
    if contains_sub(&uc, &kw5) {
        r.push(chars_to_string(&kw5));
    }
    proof {
        assert(strings_views(r@) =~= s5);
    }
    let ghost s6 = s5 + (if seq_contains(u, kw_execute()) {
        seq![kw_execute()]
    } else {
        Seq::<Seq<char>>::empty()
    });
    if contains_sub(&uc, &kw6) {
        r.push(chars_to_string(&kw6));
    }
    proof {
        assert(strings_views(r@) =~= s6);
        assert(s6 =~= spec_operations(sql_text@));
    }
    r
}

/// The index of the last dot in `s`, or `-1`.
pub open spec fn last_dot(s: Seq<char>) -> int
    decreases s.len(),
{
    if s.len() == 0 {
        -1
    } else if s.last() == '.' {
        s.len() - 1
    } else {
        last_dot(s.drop_last())
    }
}

/// The index of the first occurrence of `sub` in `s`, or `-1`.
pub open spec fn find_sub(s: Seq<char>, sub: Seq<char>) -> int
    decreases s.len(),
{
    if sub.len() > s.len() {
        -1
    } else if matches_at(s, sub, 0) {
        0
    } else if s.len() == 0 {
        -1
    } else {
        let r = find_sub(s.drop_first(), sub);
        if r < 0 {
            -1
        } else {
            1 + r
        }
    }
}

pub open spec fn tb_marker() -> Seq<char> {
    seq!['T', 'B', '_']
}

/// The short table name: the segment after the last dot, and within it
/// whatever follows the first `TB_` marker.
pub open spec fn spec_table_name(s: Seq<char>) -> Seq<char> {
    let part = if last_dot(s) < 0 {
        s
    } else {
        s.skip(last_dot(s) + 1)
    };
    let p = find_sub(part, tb_marker());
    if p >= 0 {
        part.skip(p + 3)
    } else {
        part
    }
}

proof fn lemma_last_dot_char(s: Seq<char>, j: int)
    requires
        -1 <= j < s.len(),
        j >= 0 ==> s[j] == '.',
        forall|k: int| j < k < s.len() ==> s[k] != '.',
    ensures
        last_dot(s) == j,
    decreases s.len(),
{
    if s.len() == 0 {
    } else if s.last() == '.' {
        assert(j == s.len() - 1);
    } else {
        assert(j < s.len() - 1);
        lemma_last_dot_char(s.drop_last(), j);
    }
}

proof fn lemma_find_sub_at(s: Seq<char>, sub: Seq<char>, j: int)
    requires
        0 <= j,
        matches_at(s, sub, j),
        forall|m: int| 0 <= m < j ==> !matches_at(s, sub, m),
    ensures
        find_sub(s, sub) == j,
    decreases s.len(),
{
    if matches_at(s, sub, 0) {
        assert(j == 0);
    } else {
        assert(j >= 1);
        assert(s.len() > 0);
        let t = s.drop_first();
        assert(t.subrange(j - 1, j - 1 + sub.len()) =~= s.subrange(j, j + sub.len()));
        assert(matches_at(t, sub, j - 1));
        assert(forall|m: int| 0 <= m < j - 1 ==> !matches_at(t, sub, m)) by {
            assert forall|m: int| 0 <= m < j - 1 implies !matches_at(t, sub, m) by {
                assert(!matches_at(s, sub, m + 1));
                if matches_at(t, sub, m) {
                    assert(t.subrange(m, m + sub.len()) =~= s.subrange(m + 1, m + 1 + sub.len()));
                }
            }
        }
        lemma_find_sub_at(t, sub, j - 1);
    }
}

proof fn lemma_find_sub_none(s: Seq<char>, sub: Seq<char>)
    requires
        forall|m: int| !matches_at(s, sub, m),
    ensures
        find_sub(s, sub) == -1,
    decreases s.len(),
{
    if sub.len() > s.len() {
    } else if s.len() == 0 {
    } else {
        let t = s.drop_first();
        assert(forall|m: int| !matches_at(t, sub, m)) by {
            assert forall|m: int| !matches_at(t, sub, m) by {
                if 0 <= m && m + sub.len() <= t.len() {
                    assert(!matches_at(s, sub, m + 1));
                    if matches_at(t, sub, m) {
                        assert(t.subrange(m, m + sub.len()) =~= s.subrange(
                            m + 1,
                            m + 1 + sub.len(),
                        ));
                    }
                }
            }
        }
        lemma_find_sub_none(t, sub);
    }
}

/// Extract the short table name from a possibly qualified one.
pub fn extract_table_name(table: &str) -> (r: String)
    ensures
        r@ == spec_table_name(table@),
{
    let v = str_to_chars(table);
    let n = v.len();
    // last dot
    let mut i = n;
    while i > 0 && v[i - 1] != '.'
        invariant
            n == v@.len(),
            i <= n,
            forall|k: int| i <= k < n ==> v@[k] != '.',
        decreases i,
    {
        i -= 1;
    }
    proof {
        if i > 0 {
            lemma_last_dot_char(v@, i - 1);
        } else {
            lemma_last_dot_char(v@, -1);
        }
    }
    // the part after the last dot (the whole string when there is no dot)
    let part_start = i;
    let ghost part = if last_dot(v@) < 0 {
        v@
    } else {
        v@.skip(last_dot(v@) + 1)
    };
    proof {
        assert(part =~= v@.subrange(part_start as int, n as int));
    }
    let mut pv: Vec<char> = Vec::new();
    let mut k = part_start;
    while k < n
        invariant
            part_start <= k <= n,
            n == v@.len(),
            pv@ == v@.subrange(part_start as int, k as int),
        decreases n - k,
    {
        pv.push(v[k]);
        proof {
            assert(v@.subrange(part_start as int, k + 1) =~= v@.subrange(
                part_start as int,
                k as int,
            ).push(v@[k as int]));
        }
        k += 1;
    }
    // find TB_
    let marker = vec!['T', 'B', '_'];
    proof {
        assert(marker@ =~= tb_marker());
    }
    let pn = pv.len();
    let mut pos: usize = 0;
    let mut found = false;
    while !found && pos <= pn && pn - pos >= 3
        invariant
            pn == pv@.len(),
            pos <= pn,
            marker@ == tb_marker(),
            !found ==> forall|m: int| 0 <= m < pos ==> !matches_at(pv@, tb_marker(), m),
            found ==> 0 <= pos && matches_at(pv@, tb_marker(), pos as int) && forall|m: int|
                0 <= m < pos ==> !matches_at(pv@, tb_marker(), m),
        decreases pn - pos, (if found { 0int } else { 1int }),
    {
        if crate::text::check_match_at(&pv, &marker, pos) {
            found = true;
        } else {
            pos += 1;
        }
    }
    proof {
        if found {
            lemma_find_sub_at(pv@, tb_marker(), pos as int);
        } else {
            assert(forall|m: int| !matches_at(pv@, tb_marker(), m)) by {
                assert forall|m: int| !matches_at(pv@, tb_marker(), m) by {
                    if 0 <= m && m + 3 <= pv@.len() {
                        assert(m < pos);
                    }
                }
            }
            lemma_find_sub_none(pv@, tb_marker());
        }
    }
    if found {
        let mut out: Vec<char> = Vec::new();
        let mut k2 = pos + 3;
        while k2 < pn
            invariant
                pos + 3 <= k2 <= pn,
                pn == pv@.len(),
                out@ == pv@.subrange(pos + 3, k2 as int),
            decreases pn - k2,
        {
            out.push(pv[k2]);
            proof {
                assert(pv@.subrange(pos + 3, k2 + 1) =~= pv@.subrange(pos + 3, k2 as int).push(
                    pv@[k2 as int],
                ));
            }
            k2 += 1;
        }
        proof {
            assert(out@ =~= part.skip(pos + 3));
        }
        chars_to_string(&out)
    } else {
        proof {
            assert(pv@ =~= part);
        }
        chars_to_string(&pv)
    }
}

/// Characters that can begin a table identifier: ASCII letters, underscore,
/// and Hangul syllables.
pub open spec fn is_ident_start(c: char) -> bool {
    ('A' <= c && c <= 'Z') || ('a' <= c && c <= 'z') || c == '_' || (0xAC00 <= c as u32 && c as u32
        <= 0xD7A3)
}

/// Characters that can continue a table identifier (also the word class for
/// the keyword boundary check): identifier starters and ASCII digits.
pub open spec fn is_ident_char(c: char) -> bool {
    is_ident_start(c) || ('0' <= c && c <= '9')
}

fn is_ident_start_exec(c: char) -> (r: bool)
    ensures
        r == is_ident_start(c),
{
    ('A' <= c && c <= 'Z') || ('a' <= c && c <= 'z') || c == '_' || (0xAC00 <= c as u32 && c as u32
        <= 0xD7A3)
}

fn is_ident_char_exec(c: char) -> (r: bool)
    ensures
        r == is_ident_char(c),
{
    is_ident_start_exec(c) || ('0' <= c && c <= '9')
}

/// Case-insensitive match of one character against an uppercase ASCII
/// letter.
pub open spec fn ci_eq(c: char, k: char) -> bool {
    c == k || c as u32 == k as u32 + 32
}

/// The keyword matches case-insensitively at position `i`.
pub open spec fn kw_ci_at(s: Seq<char>, i: int, kw: Seq<char>) -> bool {
    0 <= i && i + kw.len() <= s.len() && forall|m: int|
        0 <= m < kw.len() ==> ci_eq(s[i + m], #[trigger] kw[m])
}

/// The first position at or after `j` that does not hold whitespace.
pub open spec fn ws_end(s: Seq<char>, j: int) -> int
    decreases (if s.len() - j > 0 {
        s.len() - j
    } else {
        0
    }),
{
    if 0 <= j && j < s.len() && is_ws_char(s[j]) {
        ws_end(s, j + 1)
    } else {
        j
    }
}

/// The first position at or after `j` that does not hold an identifier
/// character.
pub open spec fn ident_end(s: Seq<char>, j: int) -> int
    decreases (if s.len() - j > 0 {
        s.len() - j
    } else {
        0
    }),
{
    if 0 <= j && j < s.len() && is_ident_char(s[j]) {
        ident_end(s, j + 1)
    } else {
        j
    }
}

/// Extend an identifier with up to `groups` further dot-separated segments.
pub open spec fn tbl_ext(s: Seq<char>, e: int, groups: nat) -> int
    decreases groups,
{
    if groups > 0 && 0 <= e && e + 1 < s.len() && s[e] == '.' && is_ident_start(s[e + 1]) {
        tbl_ext(s, ident_end(s, e + 1), (groups - 1) as nat)
    } else {
        e
    }
}

/// Where the captured identifier would start after the keyword chain at
/// position `i`: each keyword must match case-insensitively and be followed
/// by at least one whitespace character; `-1` when the chain does not match.
pub open spec fn after_kws(s: Seq<char>, i: int, kws: Seq<Seq<char>>) -> int
    decreases kws.len(),
{
    if kws.len() == 0 {
        i
    } else if kw_ci_at(s, i, kws[0]) {
        let j = ws_end(s, i + kws[0].len());
        if j > i + kws[0].len() {
            after_kws(s, j, kws.drop_first())
        } else {
            -1
        }
    } else {
        -1
    }
}

/// The table name captured at position `i`, with the position where the
/// match ends: the keyword chain must begin at a word boundary and be
/// followed by an identifier of up to three dot-separated segments.
pub open spec fn capture_at(s: Seq<char>, i: int, kws: Seq<Seq<char>>) -> Option<
    (Seq<char>, int),
> {
    if 0 <= i && i < s.len() && (i == 0 || !is_ident_char(s[i - 1])) {
        let cs = after_kws(s, i, kws);
        if 0 <= cs && cs < s.len() && is_ident_start(s[cs]) {
            let e = tbl_ext(s, ident_end(s, cs + 1), 2);
            Some((s.subrange(cs, e), e))
        } else {
            None
        }
    } else {
        None
    }
}

/// All table names captured for one keyword chain, scanning left to right
/// and continuing after each match.
pub open spec fn scan_tables(s: Seq<char>, i: int, kws: Seq<Seq<char>>) -> Seq<Seq<char>>
    decreases (if s.len() - i > 0 {
        s.len() - i
    } else {
        0
    }),
{
    if i < 0 || i >= s.len() {
        Seq::empty()
    } else {
        match capture_at(s, i, kws) {
            Some((t, e)) => {
                if e > i {
                    seq![t] + scan_tables(s, e, kws)
                } else {
                    scan_tables(s, i + 1, kws)
                }
            },
            None => scan_tables(s, i + 1, kws),
        }
    }
}

/// Keep the first occurrence of each name.
pub open spec fn dedup_names(v: Seq<Seq<char>>) -> Seq<Seq<char>>
    decreases v.len(),
{
    if v.len() == 0 {
        Seq::empty()
    } else {
        let init = dedup_names(v.drop_last());
        if v.drop_last().contains(v.last()) {
            init
        } else {
            init.push(v.last())
        }
    }
}

pub open spec fn kws_from() -> Seq<Seq<char>> {
    seq![seq!['F', 'R', 'O', 'M']]
}

pub open spec fn kws_update() -> Seq<Seq<char>> {
    seq![seq!['U', 'P', 'D', 'A', 'T', 'E']]
}

pub open spec fn kws_insert_into() -> Seq<Seq<char>> {
    seq![seq!['I', 'N', 'S', 'E', 'R', 'T'], seq!['I', 'N', 'T', 'O']]
}

pub open spec fn kws_join() -> Seq<Seq<char>> {
    seq![seq!['J', 'O', 'I', 'N']]
}

/// The table names of a SQL text: everything captured after FROM, UPDATE,
/// INSERT INTO and JOIN, in that pass order, first occurrences kept.
pub open spec fn spec_tables_from_sql(s: Seq<char>) -> Seq<Seq<char>> {
    dedup_names(
        scan_tables(s, 0, kws_from()) + scan_tables(s, 0, kws_update()) + scan_tables(
            s,
            0,
            kws_insert_into(),
        ) + scan_tables(s, 0, kws_join()),
    )
}

fn ws_end_exec(v: &Vec<char>, j: usize) -> (r: usize)
    requires
        j <= v@.len(),
    ensures
        r as int == ws_end(v@, j as int),
        j <= r <= v@.len(),
{
    let n = v.len();
    let mut k = j;
    while k < n && is_ws(v[k])
        invariant
            j <= k <= n,
            n == v@.len(),
            ws_end(v@, j as int) == ws_end(v@, k as int),
        decreases n - k,
    {
        k += 1;
    }
    k
}

fn ident_end_exec(v: &Vec<char>, j: usize) -> (r: usize)
    requires
        j <= v@.len(),
    ensures
        r as int == ident_end(v@, j as int),
        j <= r <= v@.len(),
{
    let n = v.len();
    let mut k = j;
    while k < n && is_ident_char_exec(v[k])
        invariant
            j <= k <= n,
            n == v@.len(),
            ident_end(v@, j as int) == ident_end(v@, k as int),
        decreases n - k,
    {
        k += 1;
    }
    k
}

fn tbl_ext_exec(v: &Vec<char>, e: usize) -> (r: usize)
    requires
        e <= v@.len(),
    ensures
        r as int == tbl_ext(v@, e as int, 2),
        e <= r <= v@.len(),
{
    let n = v.len();
    let mut e2 = e;
    let mut g: usize = 2;
    while g > 0
        invariant
            e <= e2 <= n,
            n == v@.len(),
            g <= 2,
            tbl_ext(v@, e as int, 2) == tbl_ext(v@, e2 as int, g as nat),
        decreases g,
    {
        if n >= 2 && e2 < n - 1 && v[e2] == '.' && is_ident_start_exec(v[e2 + 1]) {
            let ne = ident_end_exec(v, e2 + 1);
            proof {
                assert(tbl_ext(v@, e2 as int, g as nat) == tbl_ext(
                    v@,
                    ident_end(v@, e2 + 1),
                    (g - 1) as nat,
                ));
            }
            e2 = ne;
            g -= 1;
        } else {
            proof {
                assert(tbl_ext(v@, e2 as int, g as nat) == e2 as int);
                assert(tbl_ext(v@, e2 as int, 0nat) == e2 as int);
            }
            g = 0;
        }
    }
    e2
}

fn kw_ci_at_exec(v: &Vec<char>, i: usize, kw: &Vec<char>) -> (r: bool)
    requires
        i <= v@.len(),
    ensures
        r == kw_ci_at(v@, i as int, kw@),
{
    let n = v.len();
    if kw.len() > n - i {
        return false;
    }
    let mut m: usize = 0;
    while m < kw.len()
        invariant
            n == v@.len(),
            i + kw@.len() <= n,
            m <= kw@.len(),
            forall|k: int| 0 <= k < m ==> ci_eq(v@[i + k], #[trigger] kw@[k]),
        decreases kw@.len() - m,
    {
        let c = v[i + m];
        let k = kw[m];
        if !(c == k || (c as u32) as u64 == (k as u32) as u64 + 32) {
            return false;
        }
        m += 1;
    }
    true
}

fn after_kws_exec(v: &Vec<char>, i: usize, kws: &Vec<Vec<char>>) -> (r: Option<usize>)
    requires
        i <= v@.len(),
    ensures
        match r {
            Some(j) => i <= j <= v@.len() && after_kws(v@, i as int, crate::tds::parts_views(kws@))
                == j as int,
            None => after_kws(v@, i as int, crate::tds::parts_views(kws@)) == -1,
        },
{
    let ghost kv = crate::tds::parts_views(kws@);
    let n = v.len();
    proof {
        assert(kv.skip(0) =~= kv);
    }
    let mut cur = i;
    let mut t: usize = 0;
    while t < kws.len()
        invariant
            n == v@.len(),
            i <= cur <= v@.len(),
            t <= kws@.len(),
            kv == crate::tds::parts_views(kws@),
            after_kws(v@, i as int, kv) == after_kws(v@, cur as int, kv.skip(t as int)),
        decreases kws@.len() - t,
    {
        let ghost rem = kv.skip(t as int);
        proof {
            assert(rem[0] == kv[t as int]);
            assert(rem.drop_first() =~= kv.skip(t + 1));
        }
        let kwt = &kws[t];
        if !kw_ci_at_exec(v, cur, kwt) {
            proof {
                assert(after_kws(v@, cur as int, rem) == -1);
            }
            return None;
        }
        let kl = kwt.len();
        proof {
            assert(kw_ci_at(v@, cur as int, kwt@));
            assert(cur + kwt@.len() <= v@.len());
            assert(kl == kwt@.len());
            assert(cur + kl <= n);
        }
        let j = ws_end_exec(v, cur + kl);
        if j == cur + kl {
            proof {
                assert(after_kws(v@, cur as int, rem) == -1);
            }
            return None;
        }
        proof {
            assert(after_kws(v@, cur as int, rem) == after_kws(v@, j as int, kv.skip(t + 1)));
        }
        cur = j;
        t += 1;
    }
    proof {
        assert(kv.skip(kws@.len() as int).len() == 0);
        assert(after_kws(v@, cur as int, kv.skip(kws@.len() as int)) == cur as int);
    }
    Some(cur)
}

/// Scan the text once for one keyword chain, appending every captured table
/// name.
fn scan_into(v: &Vec<char>, kws: &Vec<Vec<char>>, found: &mut Vec<Vec<char>>)
    ensures
        crate::tds::parts_views(final(found)@) == crate::tds::parts_views(old(found)@)
            + scan_tables(v@, 0, crate::tds::parts_views(kws@)),
{
    let ghost kv = crate::tds::parts_views(kws@);
    let ghost base = crate::tds::parts_views(found@);
    let n = v.len();
    let mut i: usize = 0;
    while i < n
        invariant
            i <= n,
            n == v@.len(),
            kv == crate::tds::parts_views(kws@),
            base + scan_tables(v@, 0, kv) == crate::tds::parts_views(found@) + scan_tables(
                v@,
                i as int,
                kv,
            ),
        decreases n - i,
    {
        let ghost acc_in = crate::tds::parts_views(found@);
        let boundary = i == 0 || !is_ident_char_exec(v[i - 1]);
        let mut advanced = false;
        if boundary {
            match after_kws_exec(v, i, kws) {
                Some(cs) => {
                    if cs < n && is_ident_start_exec(v[cs]) {
                        let ie = ident_end_exec(v, cs + 1);
                        let e = tbl_ext_exec(v, ie);
                        let mut cap: Vec<char> = Vec::new();
                        let mut k = cs;
                        while k < e
                            invariant
                                cs <= k <= e <= v@.len(),
                                cap@ == v@.subrange(cs as int, k as int),
                            decreases e - k,
                        {
                            cap.push(v[k]);
                            proof {
                                assert(v@.subrange(cs as int, k + 1) =~= v@.subrange(
                                    cs as int,
                                    k as int,
                                ).push(v@[k as int]));
                            }
                            k += 1;
                        }
                        proof {
                            assert(capture_at(v@, i as int, kv) == Some(
                                (v@.subrange(cs as int, e as int), e as int),
                            ));
                            assert(e > i);
                            assert(scan_tables(v@, i as int, kv) == seq![
                                v@.subrange(cs as int, e as int),
                            ] + scan_tables(v@, e as int, kv));
                        }
                        found.push(cap);
                        proof {
                            assert(crate::tds::parts_views(found@) =~= acc_in.push(
                                v@.subrange(cs as int, e as int),
                            ));
                            assert(acc_in + (seq![v@.subrange(cs as int, e as int)] + scan_tables(
                                v@,
                                e as int,
                                kv,
                            )) =~= acc_in.push(v@.subrange(cs as int, e as int)) + scan_tables(
                                v@,
                                e as int,
                                kv,
                            ));
                        }
                        i = e;
                        advanced = true;
                    } else {
                        proof {
                            assert(capture_at(v@, i as int, kv) is None);
                        }
                    }
                },
                None => {
                    proof {
                        assert(capture_at(v@, i as int, kv) is None);
                    }
                },
            }
        } else {
            proof {
                assert(capture_at(v@, i as int, kv) is None);
            }
        }
        if !advanced {
            proof {
                assert(scan_tables(v@, i as int, kv) == scan_tables(v@, i + 1, kv));
            }
            i += 1;
        }
    }
    proof {
        assert(scan_tables(v@, n as int, kv) == Seq::<Seq<char>>::empty());
        assert(crate::tds::parts_views(found@) + Seq::<Seq<char>>::empty() =~= crate::tds::parts_views(
            found@,
        ));
        assert(base + scan_tables(v@, 0, kv) =~= crate::tds::parts_views(found@));
    }
}

/// Whether a name is already among the collected ones.
fn names_contain(names: &Vec<Vec<char>>, x: &Vec<char>) -> (r: bool)
    ensures
        r == crate::tds::parts_views(names@).contains(x@),
{
    let ghost nv = crate::tds::parts_views(names@);
    let mut i: usize = 0;
    while i < names.len()
        invariant
            i <= names@.len(),
            nv == crate::tds::parts_views(names@),
            forall|k: int| 0 <= k < i ==> nv[k] != x@,
        decreases names@.len() - i,
    {
        if chars_eq(&names[i], x) {
            proof {
                assert(nv[i as int] == x@);
            }
            return true;
        }
        i += 1;
    }
    proof {
        if nv.contains(x@) {
            let w = choose|k: int| 0 <= k < nv.len() && nv[k] == x@;
            assert(nv[w] == x@);
        }
    }
    false
}

/// The table names referenced by a SQL text: identifiers (up to three
/// dot-separated segments, ASCII or Hangul) that follow FROM, UPDATE,
/// INSERT INTO or JOIN, deduplicated keeping first occurrences.
pub fn extract_tables_from_sql(sql_text: &str) -> (r: Vec<String>)
    ensures
        strings_views(r@) == spec_tables_from_sql(sql_text@),
{
    let v = str_to_chars(sql_text);
    let kw_f: Vec<Vec<char>> = vec![vec!['F', 'R', 'O', 'M']];
    let kw_u: Vec<Vec<char>> = vec![vec!['U', 'P', 'D', 'A', 'T', 'E']];
    let kw_ii: Vec<Vec<char>> = vec![
        vec!['I', 'N', 'S', 'E', 'R', 'T'],
        vec!['I', 'N', 'T', 'O'],
    ];
    let kw_j: Vec<Vec<char>> = vec![vec!['J', 'O', 'I', 'N']];
    proof {
        assert(crate::tds::parts_views(kw_f@) =~= kws_from());
        assert(crate::tds::parts_views(kw_u@) =~= kws_update());
        assert(crate::tds::parts_views(kw_ii@) =~= kws_insert_into());
        assert(crate::tds::parts_views(kw_j@) =~= kws_join());
    }
    let mut found: Vec<Vec<char>> = Vec::new();
    proof {
        assert(crate::tds::parts_views(found@) =~= Seq::<Seq<char>>::empty());
    }
    scan_into(&v, &kw_f, &mut found);
    scan_into(&v, &kw_u, &mut found);
    scan_into(&v, &kw_ii, &mut found);
    scan_into(&v, &kw_j, &mut found);
    let ghost all = scan_tables(v@, 0, kws_from()) + scan_tables(v@, 0, kws_update())
        + scan_tables(v@, 0, kws_insert_into()) + scan_tables(v@, 0, kws_join());
    proof {
        assert(crate::tds::parts_views(found@) =~= all);
    }
    let mut uniq: Vec<Vec<char>> = Vec::new();
    let mut out: Vec<String> = Vec::new();
    let mut i: usize = 0;
    proof {
        assert(all.take(0) =~= Seq::<Seq<char>>::empty());
    }
    while i < found.len()
        invariant
            i <= found@.len(),
            all == crate::tds::parts_views(found@),
            crate::tds::parts_views(uniq@) == dedup_names(all.take(i as int)),
            strings_views(out@) == crate::tds::parts_views(uniq@),
        decreases found@.len() - i,
    {
        let ghost pre = all.take(i as int);
        proof {
            assert(all.take(i + 1).drop_last() =~= pre);
            assert(all.take(i + 1).last() == all[i as int]);
        }
        let name = &found[i];
        if !names_contain(&uniq, name) {
            proof {
                if pre.contains(name@) {
                    let w = choose|k: int| 0 <= k < pre.len() && pre[k] == name@;
                    // every earlier occurrence is either in uniq or a duplicate
                    lemma_dedup_contains(pre, name@);
                    assert(crate::tds::parts_views(uniq@).contains(name@));
                }
            }
            let cap = crate::text::copy_chars(name);
            uniq.push(cap);
            out.push(chars_to_string(name));
            proof {
                assert(crate::tds::parts_views(uniq@) =~= dedup_names(pre).push(name@));
                assert(strings_views(out@) =~= crate::tds::parts_views(uniq@));
            }
        } else {
            proof {
                lemma_dedup_contains(pre, name@);
                assert(pre.contains(name@));
            }
        }
        i += 1;
    }
    proof {
        assert(all.take(all.len() as int) =~= all);
    }
    out
}

/// A name occurs in a list exactly when it occurs in the deduplicated list.
proof fn lemma_dedup_contains(v: Seq<Seq<char>>, x: Seq<char>)
    ensures
        dedup_names(v).contains(x) == v.contains(x),
    decreases v.len(),
{
    if v.len() == 0 {
        assert(!v.contains(x));
        assert(!dedup_names(v).contains(x));
    } else {
        let init = v.drop_last();
        lemma_dedup_contains(init, x);
        let d = dedup_names(v);
        if v.contains(x) {
            if x == v.last() {
                if init.contains(x) {
                    assert(d == dedup_names(init) || d == dedup_names(init).push(v.last()));
                    assert(dedup_names(init).contains(x));
                    if d == dedup_names(init).push(v.last()) {
                        let w = choose|k: int|
                            0 <= k < dedup_names(init).len() && dedup_names(init)[k] == x;
                        assert(d[w] == x);
                        assert(d.contains(x));
                    }
                } else {
                    assert(d == dedup_names(init).push(v.last()));
                    assert(d.last() == x);
                    assert(d.contains(x));
                }
            } else {
                let w = choose|k: int| 0 <= k < v.len() && v[k] == x;
                assert(w < v.len() - 1) by {
                    if w == v.len() - 1 {
                        assert(v.last() == x);
                    }
                }
                assert(init[w] == x);
                assert(init.contains(x));
                assert(dedup_names(init).contains(x));
                if init.contains(v.last()) {
                    assert(d == dedup_names(init));
                } else {
                    assert(d == dedup_names(init).push(v.last()));
                    let w2 = choose|k: int|
                        0 <= k < dedup_names(init).len() && dedup_names(init)[k] == x;
                    assert(d[w2] == x);
                }
                assert(d.contains(x));
            }
        } else {
            assert(!init.contains(x)) by {
                if init.contains(x) {
                    let w = choose|k: int| 0 <= k < init.len() && init[k] == x;
                    assert(v[w] == x);
                }
            }
            assert(!dedup_names(init).contains(x));
            assert(v.last() != x) by {
                if v.last() == x {
                    assert(v[v.len() - 1] == x);
                }
            }
            if d == dedup_names(init) {
                assert(!d.contains(x));
            } else {
                assert(d == dedup_names(init).push(v.last()));
                if d.contains(x) {
                    let w = choose|k: int| 0 <= k < d.len() && d[k] == x;
                    if w < d.len() - 1 {
                        assert(dedup_names(init)[w] == x);
                        assert(dedup_names(init).contains(x));
                    } else {
                        assert(d[w] == v.last());
                    }
                }
                assert(!d.contains(x));
            }
        }
    }
}

} // verus!
