//! Pure formatting of log records: the hex dump of raw message bytes and
//! the per-event log entry text. Writing the records to disk is the
//! caller's business.

use vstd::prelude::*;
use crate::jsonl::{hex_digit, fixed_rep};
use crate::output::{CivilTime, SqlEvent, SqlEventV, strings_views, spec_tables_from_sql};
use crate::tds::{join_parts, sep_comma, parts_views};
use crate::text::{chars_to_string, str_to_chars, append_chars};

verus! {

/// `n` in exactly `w` lowercase hexadecimal digits.
pub open spec fn hex_rep(n: int, w: nat) -> Seq<char>
    decreases w,
{
    if w == 0 {
        Seq::empty()
    } else {
        hex_rep(n / 16, (w - 1) as nat).push(hex_digit(n % 16))
    }
}

/// One byte as two hexadecimal digits.
pub open spec fn hex2(b: u8) -> Seq<char> {
    seq![hex_digit(b as int / 16), hex_digit(b as int % 16)]
}

/// The bytes of one dump line, two digits each, separated by single spaces.
pub open spec fn hex_bytes_line(v: Seq<u8>) -> Seq<char>
    decreases v.len(),
{
    if v.len() == 0 {
        Seq::empty()
    } else if v.len() == 1 {
        hex2(v[0])
    } else {
        hex2(v[0]) + seq![' '] + hex_bytes_line(v.drop_first())
    }
}

/// The dump of `v` starting at byte offset `off`: one line per 16 bytes,
/// each opened by the 8-digit hexadecimal offset, a colon and two spaces.
pub open spec fn hex_dump_from(v: Seq<u8>, off: int) -> Seq<char>
    decreases v.len(),
{
    if v.len() == 0 {
        Seq::empty()
    } else if v.len() <= 16 {
        hex_rep(off, 8) + seq![':', ' ', ' '] + hex_bytes_line(v)
    } else {
        hex_rep(off, 8) + seq![':', ' ', ' '] + hex_bytes_line(v.take(16)) + seq!['\n']
            + hex_dump_from(v.skip(16), off + 16)
    }
}

/// The hex dump of a byte string, 16 bytes per line.
pub open spec fn spec_hex_dump(v: Seq<u8>) -> Seq<char> {
    hex_dump_from(v, 0)
}

fn hex_digit_exec(d: u64) -> (r: char)
    requires
        d <= 15,
    ensures
        r == hex_digit(d as int),
{
    match d {
        0 => '0',
        1 => '1',
        2 => '2',
        3 => '3',
        4 => '4',
        5 => '5',
        6 => '6',
        7 => '7',
        8 => '8',
        9 => '9',
        10 => 'a',
        11 => 'b',
        12 => 'c',
        13 => 'd',
        14 => 'e',
        _ => 'f',
    }
}

fn push_hex_rep(out: &mut Vec<char>, n: u64, w: u8)
    ensures
        final(out)@ == old(out)@ + hex_rep(n as int, w as nat),
    decreases w,
{
    if w == 0 {
        proof {
            assert(old(out)@ + hex_rep(n as int, 0) =~= old(out)@);
        }
    } else {
        push_hex_rep(out, n / 16, w - 1);
        out.push(hex_digit_exec(n % 16));
    }
}

fn push_hex_bytes(out: &mut Vec<char>, v: &[u8], from: usize, to: usize)
    requires
        from <= to <= v@.len(),
    ensures
        final(out)@ == old(out)@ + hex_bytes_line(v@.subrange(from as int, to as int)),
    decreases to - from,
{
    if from == to {
        proof {
            assert(v@.subrange(from as int, to as int).len() == 0);
            assert(old(out)@ + hex_bytes_line(v@.subrange(from as int, to as int)) =~= old(out)@);
        }
        return ;
    }
    let b = v[from];
    let ghost chunk = v@.subrange(from as int, to as int);
    proof {
        assert(chunk[0] == v@[from as int]);
        assert(chunk.drop_first() =~= v@.subrange(from + 1, to as int));
    }
    out.push(hex_digit_exec((b / 16) as u64));
    out.push(hex_digit_exec((b % 16) as u64));
    if from + 1 == to {
        proof {
            assert(final(out)@ =~= old(out)@ + hex2(v@[from as int]));
        }
    } else {
        out.push(' ');
        push_hex_bytes(out, v, from + 1, to);
        proof {
            assert(final(out)@ =~= old(out)@ + hex_bytes_line(chunk));
        }
    }
}

/// The hex dump of a byte string: 16 bytes per line, each line led by its
/// 8-digit offset.
pub fn format_hex_dump(data: &[u8]) -> (r: String)
    ensures
        r@ == spec_hex_dump(data@),
{
    let n = data.len();
    let mut out: Vec<char> = Vec::new();
    let mut off: usize = 0;
    proof {
        assert(data@.skip(0) =~= data@);
        assert(Seq::<char>::empty() + hex_dump_from(data@, 0) =~= hex_dump_from(data@, 0));
    }
    while off < n
        invariant
            off <= n,
            n == data@.len(),
            off % 16 == 0 || off >= n,
            spec_hex_dump(data@) == out@ + hex_dump_from(data@.skip(off as int), off as int),
        decreases n - off,
    {
        let ghost rem = data@.skip(off as int);
        let end = if n - off < 16 {
            n
        } else {
            off + 16
        };
        let ghost before = out@;
        push_hex_rep(&mut out, off as u64, 8);
        out.push(':');
        out.push(' ');
        out.push(' ');
        push_hex_bytes(&mut out, data, off, end);
        if end < n {
            out.push('\n');
            proof {
                assert(rem.take(16) =~= data@.subrange(off as int, end as int));
                assert(rem.skip(16) =~= data@.skip(end as int));
                assert(out@ =~= before + (hex_rep(off as int, 8) + seq![':', ' ', ' ']
                    + hex_bytes_line(rem.take(16)) + seq!['\n']));
                assert(before + (hex_rep(off as int, 8) + seq![':', ' ', ' '] + hex_bytes_line(
                    rem.take(16),
                ) + seq!['\n']) + hex_dump_from(data@.skip(end as int), end as int) =~= before
                    + hex_dump_from(rem, off as int));
            }
        } else {
            proof {
                assert(rem.len() <= 16 && rem.len() > 0);
                assert(rem =~= data@.subrange(off as int, end as int));
                assert(out@ =~= before + (hex_rep(off as int, 8) + seq![':', ' ', ' ']
                    + hex_bytes_line(rem)));
                assert(out@ =~= before + hex_dump_from(rem, off as int));
                assert(data@.skip(end as int).len() == 0);
                assert(out@ + hex_dump_from(data@.skip(end as int), end as int) =~= out@);
            }
        }
        off = end;
    }
    proof {
        assert(data@.skip(n as int).len() == 0);
        assert(out@ + hex_dump_from(data@.skip(n as int), n as int) =~= out@);
    }
    chars_to_string(&out)
}

/// The timestamp notation of a log record: date and time with millisecond
/// precision.
pub open spec fn spec_log_time(t: CivilTime) -> Seq<char> {
    fixed_rep(t.year as int, 4) + seq!['-'] + fixed_rep(t.month as int, 2) + seq!['-'] + fixed_rep(
        t.day as int,
        2,
    ) + seq![' '] + fixed_rep(t.hour as int, 2) + seq![':'] + fixed_rep(t.minute as int, 2)
        + seq![':'] + fixed_rep(t.second as int, 2) + seq!['.'] + fixed_rep(
        t.nanos as int / 1000000,
        3,
    )
}

/// The rule that frames each record: eighty equals signs.
pub open spec fn rule_line() -> Seq<char> {
    Seq::new(80, |i: int| '=')
}

/// The tables named by a record: the event's own list, or the ones read out
/// of its SQL text when the list is empty.
pub open spec fn spec_entry_tables(e: SqlEventV) -> Seq<Seq<char>> {
    if e.tables.len() == 0 {
        spec_tables_from_sql(e.sql_text)
    } else {
        e.tables
    }
}

/// The table list as written into the record: a placeholder when there is
/// none, else the names joined by a comma and a space.
pub open spec fn spec_tables_line(e: SqlEventV) -> Seq<char> {
    if spec_entry_tables(e).len() == 0 {
        seq!['N', '/', 'A']
    } else {
        join_parts(spec_entry_tables(e), sep_comma())
    }
}

pub open spec fn lbl_timestamp() -> Seq<char> {
    seq!['T', 'i', 'm', 'e', 's', 't', 'a', 'm', 'p', ':', ' ']
}

pub open spec fn lbl_flow() -> Seq<char> {
    seq!['F', 'l', 'o', 'w', ':', ' ']
}

pub open spec fn lbl_tables() -> Seq<char> {
    seq!['T', 'a', 'b', 'l', 'e', 's', ':', ' ']
}

pub open spec fn lbl_sql() -> Seq<char> {
    seq!['S', 'Q', 'L', ':']
}

pub open spec fn lbl_raw() -> Seq<char> {
    seq!['R', 'a', 'w', ' ', 'D', 'a', 't', 'a', ' ', '(', 'H', 'e', 'x', ')', ':']
}

/// One log record: a rule, the timestamp, flow, tables and SQL text, closed
/// by another rule.
pub open spec fn spec_log_entry(e: SqlEventV) -> Seq<char> {
    seq!['\n'] + rule_line() + seq!['\n'] + lbl_timestamp() + spec_log_time(e.timestamp)
        + seq!['\n'] + lbl_flow() + e.flow_id + seq!['\n'] + lbl_tables() + spec_tables_line(e)
        + seq!['\n'] + lbl_sql() + seq!['\n'] + e.sql_text + seq!['\n'] + rule_line() + seq!['\n']
}

/// One log record with the raw message bytes appended as a hex dump; the
/// plain record when the event carries no raw bytes.
pub open spec fn spec_raw_log_entry(e: SqlEventV) -> Seq<char> {
    match e.raw_data {
        None => spec_log_entry(e),
        Some(d) => seq!['\n'] + rule_line() + seq!['\n'] + lbl_timestamp() + spec_log_time(
            e.timestamp,
        ) + seq!['\n'] + lbl_flow() + e.flow_id + seq!['\n'] + lbl_tables() + spec_tables_line(e)
            + seq!['\n'] + lbl_sql() + seq!['\n'] + e.sql_text + seq!['\n'] + seq!['\n']
            + lbl_raw() + seq!['\n'] + spec_hex_dump(d) + seq!['\n'] + rule_line() + seq!['\n'],
    }
}

fn push_rule(out: &mut Vec<char>)
    ensures
        final(out)@ == old(out)@ + rule_line(),
{
    let mut i: usize = 0;
    while i < 80
        invariant
            i <= 80,
            out@ == old(out)@ + Seq::new(i as nat, |k: int| '='),
        decreases 80 - i,
    {
        out.push('=');
        proof {
            assert(old(out)@ + Seq::new((i + 1) as nat, |k: int| '=') =~= (old(out)@ + Seq::new(
                i as nat,
                |k: int| '=',
            )).push('='));
        }
        i += 1;
    }
}

fn push_log_time(out: &mut Vec<char>, t: &CivilTime)
    ensures
        final(out)@ == old(out)@ + spec_log_time(*t),
{
    let y = crate::jsonl::fmt_fixed(t.year as u64, 4);
    let mo = crate::jsonl::fmt_fixed(t.month as u64, 2);
    let d = crate::jsonl::fmt_fixed(t.day as u64, 2);
    let h = crate::jsonl::fmt_fixed(t.hour as u64, 2);
    let mi = crate::jsonl::fmt_fixed(t.minute as u64, 2);
    let sec = crate::jsonl::fmt_fixed(t.second as u64, 2);
    let ms = crate::jsonl::fmt_fixed((t.nanos / 1000000) as u64, 3);
    append_chars(out, &y);
    out.push('-');
    append_chars(out, &mo);
    out.push('-');
    append_chars(out, &d);
    out.push(' ');
    append_chars(out, &h);
    out.push(':');
    append_chars(out, &mi);
    out.push(':');
    append_chars(out, &sec);
    out.push('.');
    append_chars(out, &ms);
    proof {
        assert(final(out)@ =~= old(out)@ + spec_log_time(*t));
    }
}

/// The record's table list, written out.
fn push_tables_line(out: &mut Vec<char>, e: &SqlEvent)
    ensures
        final(out)@ == old(out)@ + spec_tables_line(e@),
{
    let tables: Vec<String> = if e.tables.len() == 0 {
        crate::output::extract_tables_from_sql(e.sql_text.as_str())
    } else {
        let mut copy: Vec<String> = Vec::new();
        let mut i: usize = 0;
        while i < e.tables.len()
            invariant
                i <= e.tables@.len(),
                strings_views(copy@) == strings_views(e.tables@).subrange(0, i as int),
            decreases e.tables@.len() - i,
        {
            let ti = &e.tables[i];
            let tc = ti.clone();
            proof {
                assert(tc@ == e.tables@[i as int]@);
            }
            let ghost prev = copy@;
            copy.push(tc);
            proof {
                assert(strings_views(e.tables@).len() == e.tables@.len());
                assert(strings_views(prev).len() == strings_views(e.tables@).subrange(
                    0,
                    i as int,
                ).len());
                assert(strings_views(e.tables@).subrange(0, i as int).len() == i);
                assert(prev.len() == i);
                assert(copy@.len() == i + 1);
                assert(strings_views(copy@) =~= strings_views(e.tables@).subrange(0, i + 1)) by {
                    assert forall|k: int|
                        0 <= k < i + 1 implies strings_views(copy@)[k] == strings_views(
                        e.tables@,
                    ).subrange(0, i + 1)[k] by {
                        assert(strings_views(e.tables@).subrange(0, i + 1)[k] == strings_views(
                            e.tables@,
                        )[k]);
                        assert(strings_views(e.tables@)[k] == e.tables@[k]@);
                        assert(strings_views(copy@)[k] == copy@[k]@);
                        if k < i {
                            assert(copy@[k] == prev[k]);
                            assert(strings_views(prev)[k] == strings_views(e.tables@).subrange(
                                0,
                                i as int,
                            )[k]);
                            assert(strings_views(prev)[k] == prev[k]@);
                            assert(strings_views(e.tables@).subrange(0, i as int)[k]
                                == strings_views(e.tables@)[k]);
                        } else {
                            assert(copy@[k] == tc);
                        }
                    }
                }
            }
            i += 1;
        }
        proof {
            assert(strings_views(copy@) =~= strings_views(e.tables@));
        }
        copy
    };
    proof {
        assert(strings_views(tables@) == spec_entry_tables(e@));
    }
    if tables.len() == 0 {
        out.push('N');
        out.push('/');
        out.push('A');
        proof {
            assert(final(out)@ =~= old(out)@ + spec_tables_line(e@));
        }
        return ;
    }
    let mut tv: Vec<Vec<char>> = Vec::new();
    let mut i: usize = 0;
    while i < tables.len()
        invariant
            i <= tables@.len(),
            parts_views(tv@) == strings_views(tables@).subrange(0, i as int),
        decreases tables@.len() - i,
    {
        let si = &tables[i];
        let sc = str_to_chars(si.as_str());
        proof {
            assert(sc@ == tables@[i as int]@);
        }
        let ghost prev = tv@;
        tv.push(sc);
        proof {
            assert(strings_views(tables@).len() == tables@.len());
            assert(parts_views(prev).len() == strings_views(tables@).subrange(0, i as int).len());
            assert(strings_views(tables@).subrange(0, i as int).len() == i);
            assert(prev.len() == i);
            assert(tv@.len() == i + 1);
            assert(parts_views(tv@) =~= strings_views(tables@).subrange(0, i + 1)) by {
                assert forall|k: int|
                    0 <= k < i + 1 implies parts_views(tv@)[k] == strings_views(tables@).subrange(
                    0,
                    i + 1,
                )[k] by {
                    assert(strings_views(tables@).subrange(0, i + 1)[k] == strings_views(
                        tables@,
                    )[k]);
                    assert(strings_views(tables@)[k] == tables@[k]@);
                    assert(parts_views(tv@)[k] == tv@[k]@);
                    if k < i {
                        assert(tv@[k] == prev[k]);
                        assert(parts_views(prev)[k] == strings_views(tables@).subrange(
                            0,
                            i as int,
                        )[k]);
                        assert(parts_views(prev)[k] == prev[k]@);
                        assert(strings_views(tables@).subrange(0, i as int)[k] == strings_views(
                            tables@,
                        )[k]);
                    } else {
                        assert(tv@[k] == sc);
                    }
                }
            }
        }
        i += 1;
    }
    proof {
        assert(parts_views(tv@) =~= strings_views(tables@));
    }
    let sep = vec![',', ' '];
    proof {
        assert(sep@ =~= sep_comma());
    }
    let joined = crate::tds::join_from(&tv, 0, &sep);
    proof {
        assert(parts_views(tv@).skip(0) =~= parts_views(tv@));
    }
    append_chars(out, &joined);
}

#[verifier::rlimit(60)]
fn push_entry_head(out: &mut Vec<char>, e: &SqlEvent)
    ensures
        final(out)@ == old(out)@ + (seq!['\n'] + rule_line() + seq!['\n'] + lbl_timestamp()
            + spec_log_time(e@.timestamp) + seq!['\n'] + lbl_flow() + e@.flow_id + seq!['\n']
            + lbl_tables() + spec_tables_line(e@) + seq!['\n'] + lbl_sql() + seq!['\n']
            + e@.sql_text + seq!['\n']),
{
    out.push('\n');
    push_rule(out);
    out.push('\n');
    let lt = vec!['T', 'i', 'm', 'e', 's', 't', 'a', 'm', 'p', ':', ' '];
    proof {
        assert(lt@ =~= lbl_timestamp());
    }
    append_chars(out, &lt);
    push_log_time(out, &e.timestamp);
    out.push('\n');
    let lf = vec!['F', 'l', 'o', 'w', ':', ' '];
    proof {
        assert(lf@ =~= lbl_flow());
    }
    append_chars(out, &lf);
    let fid = str_to_chars(e.flow_id.as_str());
    append_chars(out, &fid);
    out.push('\n');
    let lta = vec!['T', 'a', 'b', 'l', 'e', 's', ':', ' '];
    proof {
        assert(lta@ =~= lbl_tables());
    }
    append_chars(out, &lta);
    push_tables_line(out, e);
    out.push('\n');
    let ls = vec!['S', 'Q', 'L', ':'];
    proof {
        assert(ls@ =~= lbl_sql());
    }
    append_chars(out, &ls);
    out.push('\n');
    let sql = str_to_chars(e.sql_text.as_str());
    append_chars(out, &sql);
    out.push('\n');
    proof {
        assert(final(out)@ =~= old(out)@ + (seq!['\n'] + rule_line() + seq!['\n']
            + lbl_timestamp() + spec_log_time(e@.timestamp) + seq!['\n'] + lbl_flow() + e@.flow_id
            + seq!['\n'] + lbl_tables() + spec_tables_line(e@) + seq!['\n'] + lbl_sql()
            + seq!['\n'] + e@.sql_text + seq!['\n']));
    }
}

/// The log record of one event: rule, timestamp, flow, tables and SQL text.
pub fn format_log_entry(e: &SqlEvent) -> (r: String)
    ensures
        r@ == spec_log_entry(e@),
{
    let mut out: Vec<char> = Vec::new();
    push_entry_head(&mut out, e);
    push_rule(&mut out);
    out.push('\n');
    proof {
        assert(out@ =~= spec_log_entry(e@));
    }
    chars_to_string(&out)
}

/// The log record of one event with its raw message bytes as a hex dump.
pub fn format_raw_log_entry(e: &SqlEvent) -> (r: String)
    ensures
        r@ == spec_raw_log_entry(e@),
{
    let mut out: Vec<char> = Vec::new();
    push_entry_head(&mut out, e);
    match &e.raw_data {
        None => {
            push_rule(&mut out);
            out.push('\n');
            proof {
                assert(out@ =~= spec_log_entry(e@));
            }
        },
        Some(d) => {
            out.push('\n');
            let lr = vec!['R', 'a', 'w', ' ', 'D', 'a', 't', 'a', ' ', '(', 'H', 'e', 'x', ')', ':'];
            proof {
                assert(lr@ =~= lbl_raw());
            }
            append_chars(&mut out, &lr);
            out.push('\n');
            let dump = format_hex_dump(d.as_slice());
            let dc = str_to_chars(dump.as_str());
            append_chars(&mut out, &dc);
            out.push('\n');
            push_rule(&mut out);
            out.push('\n');
            proof {
                assert(out@ =~= spec_raw_log_entry(e@));
            }
        },
    }
    chars_to_string(&out)
}

} // verus!
