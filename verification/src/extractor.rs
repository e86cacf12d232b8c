//! The capture pipeline: dissect one raw Ethernet/IPv4/TCP frame, feed the
//! per-flow reassembler, frame and decode the client-to-server TDS stream,
//! and emit deduplicated SQL events.

use vstd::prelude::*;
use crate::tcp::{
    FlowId, TcpReassembler, spec_flow_id, find_flow, spec_add_packet, reassembled,
    lemma_find_flow_char,
};
use crate::tds::{spec_looks_like_tds, frame_messages, decode_results, utf8_len_of, TdsParser};
use crate::output::{SqlEvent, SqlEventV, CivilTime, civil_from_unix};
use crate::text::{trimmed, trim_chars, str_to_chars, chars_to_string, dec_rep, fmt_u64};

verus! {

/// Big-endian 32-bit read.
pub open spec fn be32(b0: u8, b1: u8, b2: u8, b3: u8) -> u32 {
    (b0 as int * 0x1000000 + b1 as int * 0x10000 + b2 as int * 0x100 + b3 as int) as u32
}

/// What the dissector finds in one frame.
pub struct Dissected {
    pub flow: FlowId,
    pub seq: u32,
    pub payload: Vec<u8>,
    pub is_client: bool,
    pub src_ip: u32,
    pub src_port: u16,
    pub dst_ip: u32,
    pub dst_port: u16,
}

/// The abstract contents of a dissected frame.
pub struct DissectedV {
    pub flow: FlowId,
    pub seq: u32,
    pub payload: Seq<u8>,
    pub is_client: bool,
    pub src_ip: u32,
    pub src_port: u16,
    pub dst_ip: u32,
    pub dst_port: u16,
}

impl View for Dissected {
    type V = DissectedV;

    open spec fn view(&self) -> DissectedV {
        DissectedV {
            flow: self.flow,
            seq: self.seq,
            payload: self.payload@,
            is_client: self.is_client,
            src_ip: self.src_ip,
            src_port: self.src_port,
            dst_ip: self.dst_ip,
            dst_port: self.dst_port,
        }
    }
}

/// What frame dissection yields: for an Ethernet II frame carrying IPv4 and
/// TCP, the canonical flow identity, sequence number, payload and the
/// packet's own endpoints; nothing for anything else.
pub open spec fn spec_dissect(f: Seq<u8>) -> Option<DissectedV> {
    if f.len() < 14 {
        None
    } else if f.len() < 34 {
        None
    } else if (f[14] >> 4) & 0x0F != 4 {
        None
    } else if f[23] != 6 {
        None
    } else {
        let ihl = ((f[14] & 0x0F) * 4) as int;
        let src_ip = be32(f[26], f[27], f[28], f[29]);
        let dst_ip = be32(f[30], f[31], f[32], f[33]);
        let tcp_start = 14 + ihl;
        if f.len() < tcp_start + 20 {
            None
        } else {
            let src_port = crate::tds::be16(f[tcp_start], f[tcp_start + 1]);
            let dst_port = crate::tds::be16(f[tcp_start + 2], f[tcp_start + 3]);
            let seq = be32(f[tcp_start + 4], f[tcp_start + 5], f[tcp_start + 6], f[tcp_start + 7]);
            let doff = ((f[tcp_start + 12] >> 4) * 4) as int;
            let ps = tcp_start + doff;
            if f.len() < ps {
                None
            } else {
                let flow = spec_flow_id(src_ip, src_port, dst_ip, dst_port);
                Some(
                    DissectedV {
                        flow,
                        seq,
                        payload: f.skip(ps),
                        is_client: flow.spec_is_client_to_server(src_ip, src_port),
                        src_ip,
                        src_port,
                        dst_ip,
                        dst_port,
                    },
                )
            }
        }
    }
}

/// Dissect one captured frame: Ethernet II, then IPv4 (version 4, protocol
/// TCP), then TCP; reject everything else.
pub fn dissect_frame(data: &[u8]) -> (r: Option<Dissected>)
    ensures
        match r {
            Some(d) => spec_dissect(data@) == Some(d@),
            None => spec_dissect(data@) is None,
        },
{
    let n = data.len();
    if n < 14 {
        return None;
    }
    if n < 34 {
        return None;
    }
    let vb = data[14];
    if (vb >> 4) & 0x0F != 4 {
        return None;
    }
    if data[23] != 6 {
        return None;
    }
    let ihl: usize = ((vb & 0x0F) as usize) * 4;
    let src_ip = (data[26] as u32) * 0x1000000 + (data[27] as u32) * 0x10000 + (data[28] as u32)
        * 0x100 + (data[29] as u32);
    let dst_ip = (data[30] as u32) * 0x1000000 + (data[31] as u32) * 0x10000 + (data[32] as u32)
        * 0x100 + (data[33] as u32);
    let tcp_start = 14 + ihl;
    if n < tcp_start + 20 {
        return None;
    }
    let src_port = (data[tcp_start] as u16) * 256 + (data[tcp_start + 1] as u16);
    let dst_port = (data[tcp_start + 2] as u16) * 256 + (data[tcp_start + 3] as u16);
    let seq = (data[tcp_start + 4] as u32) * 0x1000000 + (data[tcp_start + 5] as u32) * 0x10000 + (
    data[tcp_start + 6] as u32) * 0x100 + (data[tcp_start + 7] as u32);
    let doff: usize = ((data[tcp_start + 12] >> 4) as usize) * 4;
    let ps = tcp_start + doff;
    if n < ps {
        return None;
    }
    let payload = vstd::slice::slice_to_vec(vstd::slice::slice_subrange(data, ps, n));
    proof {
        assert(payload@ =~= data@.skip(ps as int));
    }
    let flow = FlowId::new(src_ip, src_port, dst_ip, dst_port);
    let is_client = flow.is_client_to_server(src_ip, src_port);
    Some(Dissected { flow, seq, payload, is_client, src_ip, src_port, dst_ip, dst_port })
}

/// The dotted-quad notation of an IPv4 address.
pub open spec fn ip_chars(ip: u32) -> Seq<char> {
    dec_rep((ip as int / 0x1000000) as nat) + seq!['.'] + dec_rep(
        (ip as int / 0x10000 % 256) as nat,
    ) + seq!['.'] + dec_rep((ip as int / 256 % 256) as nat) + seq!['.'] + dec_rep(
        (ip as int % 256) as nat,
    )
}

/// The printable flow identity of a packet: its own source and destination
/// endpoints, direction visible.
pub open spec fn flow_str(src_ip: u32, src_port: u16, dst_ip: u32, dst_port: u16) -> Seq<char> {
    ip_chars(src_ip) + seq![':'] + dec_rep(src_port as nat) + seq!['-', '>'] + ip_chars(dst_ip)
        + seq![':'] + dec_rep(dst_port as nat)
}

fn push_ip(out: &mut Vec<char>, ip: u32)
    ensures
        final(out)@ == old(out)@ + ip_chars(ip),
{
    let a = fmt_u64((ip / 0x1000000) as u64);
    let b = fmt_u64((ip / 0x10000 % 256) as u64);
    let c = fmt_u64((ip / 256 % 256) as u64);
    let d = fmt_u64((ip % 256) as u64);
    crate::text::append_chars(out, &a);
    out.push('.');
    crate::text::append_chars(out, &b);
    out.push('.');
    crate::text::append_chars(out, &c);
    out.push('.');
    crate::text::append_chars(out, &d);
    proof {
        assert(final(out)@ =~= old(out)@ + ip_chars(ip));
    }
}

/// Build the printable flow identity.
fn build_flow_str(src_ip: u32, src_port: u16, dst_ip: u32, dst_port: u16) -> (r: String)
    ensures
        r@ == flow_str(src_ip, src_port, dst_ip, dst_port),
{
    let mut out: Vec<char> = Vec::new();
    push_ip(&mut out, src_ip);
    out.push(':');
    let sp = fmt_u64(src_port as u64);
    crate::text::append_chars(&mut out, &sp);
    out.push('-');
    out.push('>');
    push_ip(&mut out, dst_ip);
    out.push(':');
    let dp = fmt_u64(dst_port as u64);
    crate::text::append_chars(&mut out, &dp);
    proof {
        assert(out@ =~= flow_str(src_ip, src_port, dst_ip, dst_port));
    }
    chars_to_string(&out)
}

/// The SQL Server ports watched by the capture loop.
pub open spec fn port_watched(p: u16) -> bool {
    p == 1433 || p == 1434 || p == 1436
}

pub open spec fn op_tds() -> Seq<char> {
    seq!['T', 'D', 'S']
}

/// One pass of the emitter over decoded results: trim each text, drop the
/// too-short ones, drop duplicates of the seen set, and emit the rest in
/// order, recording each emitted text as seen.
pub open spec fn spec_emit(
    seen: Seq<Seq<char>>,
    results: Seq<(Seq<char>, Seq<u8>)>,
    ts: CivilTime,
    fid: Seq<char>,
) -> (Seq<Seq<char>>, Seq<SqlEventV>)
    decreases results.len(),
{
    if results.len() == 0 {
        (seen, Seq::empty())
    } else {
        let t = trimmed(results[0].0);
        if utf8_len_of(t) < 3 || seen.contains(t) {
            spec_emit(seen, results.drop_first(), ts, fid)
        } else {
            let ev = SqlEventV {
                timestamp: ts,
                flow_id: fid,
                sql_text: t,
                tables: Seq::empty(),
                operation: op_tds(),
                label: None,
                raw_data: Some(results[0].1),
            };
            let r = spec_emit(seen.push(t), results.drop_first(), ts, fid);
            (r.0, seq![ev] + r.1)
        }
    }
}

/// Deduplication: one emitter pass never emits the same trimmed text twice,
/// never emits a text that was already seen, and records every emitted text
/// in the seen set it returns; the seen set only grows.
pub proof fn lemma_emit_dedup(
    seen: Seq<Seq<char>>,
    results: Seq<(Seq<char>, Seq<u8>)>,
    ts: CivilTime,
    fid: Seq<char>,
)
    ensures
        ({
            let r = spec_emit(seen, results, ts, fid);
            &&& forall|i: int, j: int|
                0 <= i < j < r.1.len() ==> r.1[i].sql_text != r.1[j].sql_text
            &&& forall|i: int| 0 <= i < r.1.len() ==> !seen.contains(#[trigger] r.1[i].sql_text)
            &&& forall|i: int| 0 <= i < r.1.len() ==> r.0.contains(#[trigger] r.1[i].sql_text)
            &&& forall|x: Seq<char>| seen.contains(x) ==> #[trigger] r.0.contains(x)
        }),
    decreases results.len(),
{
    if results.len() == 0 {
    } else {
        let t = trimmed(results[0].0);
        let rest = results.drop_first();
        if utf8_len_of(t) < 3 || seen.contains(t) {
            lemma_emit_dedup(seen, rest, ts, fid);
        } else {
            let seen1 = seen.push(t);
            lemma_emit_dedup(seen1, rest, ts, fid);
            let sub = spec_emit(seen1, rest, ts, fid);
            let r = spec_emit(seen, results, ts, fid);
            assert(seen1[seen.len() as int] == t);
            assert(seen1.contains(t));
            assert(r.1[0].sql_text == t);
            assert(forall|i: int| 0 <= i < sub.1.len() ==> r.1[i + 1] == sub.1[i]);
            assert(forall|x: Seq<char>| seen.contains(x) ==> seen1.contains(x)) by {
                assert forall|x: Seq<char>| seen.contains(x) implies seen1.contains(x) by {
                    let w = choose|k: int| 0 <= k < seen.len() && seen[k] == x;
                    assert(seen1[w] == x);
                }
            }
            assert forall|i: int, j: int|
                0 <= i < j < r.1.len() implies r.1[i].sql_text != r.1[j].sql_text by {
                if i == 0 {
                    assert(r.1[j] == sub.1[j - 1]);
                    assert(!seen1.contains(sub.1[j - 1].sql_text));
                } else {
                    assert(r.1[i] == sub.1[i - 1]);
                    assert(r.1[j] == sub.1[j - 1]);
                }
            }
            assert forall|i: int|
                0 <= i < r.1.len() implies !seen.contains(#[trigger] r.1[i].sql_text) by {
                if i > 0 {
                    assert(r.1[i] == sub.1[i - 1]);
                    assert(!seen1.contains(sub.1[i - 1].sql_text));
                }
            }
            assert forall|i: int|
                0 <= i < r.1.len() implies r.0.contains(#[trigger] r.1[i].sql_text) by {
                if i == 0 {
                    assert(sub.0.contains(t));
                } else {
                    assert(r.1[i] == sub.1[i - 1]);
                }
            }
        }
    }
}

/// Emitting the same trimmed text twice produces exactly one outbound
/// event: whatever a first emitter pass sent, a later pass over the grown
/// seen set never repeats.
pub proof fn lemma_emit_once_across_passes(
    seen: Seq<Seq<char>>,
    res1: Seq<(Seq<char>, Seq<u8>)>,
    res2: Seq<(Seq<char>, Seq<u8>)>,
    ts1: CivilTime,
    ts2: CivilTime,
    fid1: Seq<char>,
    fid2: Seq<char>,
)
    ensures
        ({
            let p1 = spec_emit(seen, res1, ts1, fid1);
            let p2 = spec_emit(p1.0, res2, ts2, fid2);
            forall|i: int, j: int|
                0 <= i < p1.1.len() && 0 <= j < p2.1.len() ==> (#[trigger] p1.1[i]).sql_text != (
                #[trigger] p2.1[j]).sql_text
        }),
{
    let p1 = spec_emit(seen, res1, ts1, fid1);
    lemma_emit_dedup(seen, res1, ts1, fid1);
    lemma_emit_dedup(p1.0, res2, ts2, fid2);
}

/// The abstract state of an extractor.
pub struct ExtractorV {
    pub flows: Seq<(FlowId, (Seq<(u32, Seq<u8>)>, Seq<(u32, Seq<u8>)>))>,
    pub times: Seq<(FlowId, CivilTime)>,
    pub seen: Seq<Seq<char>>,
}

/// The state the pipeline carries across packets: the reassembler, the
/// first-seen timestamp of each flow, and the set of SQL texts already
/// emitted.
pub struct Extractor {
    reassembler: TcpReassembler,
    flow_times: Vec<(FlowId, CivilTime)>,
    seen: Vec<String>,
}

impl View for Extractor {
    type V = ExtractorV;

    closed spec fn view(&self) -> ExtractorV {
        ExtractorV {
            flows: self.reassembler@,
            times: self.flow_times@,
            seen: Seq::new(self.seen@.len(), |i: int| self.seen@[i]@),
        }
    }
}

/// The first-seen timestamp recorded for a flow.
pub open spec fn time_of(times: Seq<(FlowId, CivilTime)>, flow: FlowId, fallback: CivilTime) -> CivilTime {
    let i = find_flow(times, flow);
    if i >= 0 {
        times[i].1
    } else {
        fallback
    }
}

/// How one frame changes the state and which events it produces, given the
/// calendar timestamp `civil` of its capture time.
pub open spec fn spec_process(st: ExtractorV, frame: Seq<u8>, civil: CivilTime) -> (
    ExtractorV,
    Seq<SqlEventV>,
) {
    match spec_dissect(frame) {
        None => (st, Seq::empty()),
        Some(d) => {
            let times1 = if find_flow(st.times, d.flow) < 0 {
                st.times.push((d.flow, civil))
            } else {
                st.times
            };
            if !(port_watched(d.flow.src_port) || port_watched(d.flow.dst_port)) {
                (ExtractorV { times: times1, ..st }, Seq::empty())
            } else {
                let flows1 = if d.payload.len() > 0 {
                    spec_add_packet(st.flows, d.flow, d.src_ip, d.src_port, d.seq, d.payload)
                } else {
                    st.flows
                };
                let st1 = ExtractorV { flows: flows1, times: times1, ..st };
                if d.is_client {
                    let fi = find_flow(flows1, d.flow);
                    if fi >= 0 && reassembled(flows1[fi].1.0).len() > 0 {
                        let data = reassembled(flows1[fi].1.0);
                        if spec_looks_like_tds(data) {
                            let results = decode_results(frame_messages(data));
                            let ts = time_of(times1, d.flow, civil);
                            let fid = flow_str(d.src_ip, d.src_port, d.dst_ip, d.dst_port);
                            let r = spec_emit(st.seen, results, ts, fid);
                            (ExtractorV { seen: r.0, ..st1 }, r.1)
                        } else {
                            (st1, Seq::empty())
                        }
                    } else {
                        (st1, Seq::empty())
                    }
                } else {
                    (st1, Seq::empty())
                }
            }
        },
    }
}

/// The abstract contents of a list of events.
pub open spec fn events_views(v: Seq<SqlEvent>) -> Seq<SqlEventV> {
    Seq::new(v.len(), |i: int| v[i]@)
}

fn seen_contains(seen: &Vec<String>, t: &Vec<char>) -> (r: bool)
    ensures
        r == Seq::new(seen@.len(), |i: int| seen@[i]@).contains(t@),
{
    let ghost sv = Seq::new(seen@.len(), |i: int| seen@[i]@);
    let mut i: usize = 0;
    while i < seen.len()
        invariant
            i <= seen@.len(),
            sv == Seq::new(seen@.len(), |k: int| seen@[k]@),
            forall|k: int| 0 <= k < i ==> sv[k] != t@,
        decreases seen@.len() - i,
    {
        let ts = chars_to_string(t);
        if seen[i] == ts {
            proof {
                assert(sv[i as int] == t@);
            }
            return true;
        }
        i += 1;
    }
    proof {
        if sv.contains(t@) {
            let w = choose|k: int| 0 <= k < sv.len() && sv[k] == t@;
            assert(sv[w] == t@);
        }
    }
    false
}

impl Extractor {
    /// A fresh pipeline with no flows and nothing seen.
    pub fn new(_use_tds_parsing: bool) -> (r: Extractor)
        ensures
            r@.flows.len() == 0,
            r@.times.len() == 0,
            r@.seen.len() == 0,
    {
        Extractor {
            reassembler: TcpReassembler::new(),
            flow_times: Vec::new(),
            seen: Vec::new(),
        }
    }

    /// Run one frame through the pipeline, stamped with the given capture
    /// time.
    pub fn process_packet_at(
        &mut self,
        frame: &[u8],
        ts_sec: u64,
        ts_usec: u32,
        civil: CivilTime,
    ) -> (events: Vec<SqlEvent>)
        ensures
            ({
                let r = spec_process(old(self)@, frame@, civil);
                final(self)@ == r.0 && events_views(events@) == r.1
            }),
    {
        let ghost st0 = self@;
        let d = match dissect_frame(frame) {
            Some(d) => d,
            None => {
                proof {
                    assert(events_views(Seq::empty()) =~= Seq::<SqlEventV>::empty());
                }
                return Vec::new();
            },
        };
        // record the first-seen timestamp of the flow
        let ti = self.find_time(&d.flow);
        if ti.is_none() {
            self.flow_times.push((d.flow, civil));
            proof {
                assert(self@.times =~= st0.times.push((d.flow, civil)));
            }
        }
        let ghost times1 = self@.times;
        // port filter
        let sp = d.flow.src_port;
        let dp = d.flow.dst_port;
        let port_ok = sp == 1433 || sp == 1434 || sp == 1436 || dp == 1433 || dp == 1434 || dp
            == 1436;
        if !port_ok {
            proof {
                assert(events_views(Seq::empty()) =~= Seq::<SqlEventV>::empty());
            }
            return Vec::new();
        }
        // feed the reassembler
        let has_payload = d.payload.len() > 0;
        let payload = d.payload;
        if has_payload {
            self.reassembler.add_packet(
                d.flow,
                d.src_ip,
                d.src_port,
                d.seq,
                payload,
                ts_sec,
                ts_usec,
            );
        }
        let ghost flows1 = self@.flows;
        if !d.is_client {
            proof {
                assert(events_views(Seq::empty()) =~= Seq::<SqlEventV>::empty());
            }
            return Vec::new();
        }
        // read the client-to-server stream and decode it
        let client_data = match self.reassembler.get_client_data(&d.flow) {
            Some(c) => c,
            None => {
                proof {
                    assert(events_views(Seq::empty()) =~= Seq::<SqlEventV>::empty());
                }
                return Vec::new();
            },
        };
        if !TdsParser::looks_like_tds(client_data.as_slice()) {
            proof {
                assert(events_views(Seq::empty()) =~= Seq::<SqlEventV>::empty());
            }
            return Vec::new();
        }
        let (texts, raws) = TdsParser::decode_tds_packets_with_raw(client_data.as_slice());
        // look the first-seen timestamp up again (it is always there)
        let ts = match self.find_time(&d.flow) {
            Some(i) => self.flow_times[i].1,
            None => civil,
        };
        proof {
            assert(ts == time_of(times1, d.flow, civil));
        }
        let fid = build_flow_str(d.src_ip, d.src_port, d.dst_ip, d.dst_port);
        let ghost results = decode_results(frame_messages(client_data@));
        let ghost seen0 = self@.seen;
        let ghost fidv = fid@;
        let mut events: Vec<SqlEvent> = Vec::new();
        let mut k: usize = 0;
        proof {
            assert(crate::tds::result_pairs(texts@, raws@).skip(0) =~= crate::tds::result_pairs(
                texts@,
                raws@,
            ));
            assert(events_views(events@) =~= Seq::<SqlEventV>::empty());
            assert(Seq::<SqlEventV>::empty() + spec_emit(seen0, results, ts, fidv).1 =~= spec_emit(
                seen0,
                results,
                ts,
                fidv,
            ).1);
        }
        while k < texts.len()
            invariant
                texts@.len() == raws@.len(),
                k <= texts@.len(),
                results == crate::tds::result_pairs(texts@, raws@),
                fidv == fid@,
                self@.flows == flows1,
                self@.times == times1,
                spec_emit(seen0, results, ts, fidv).0 == spec_emit(
                    self@.seen,
                    results.skip(k as int),
                    ts,
                    fidv,
                ).0,
                spec_emit(seen0, results, ts, fidv).1 == events_views(events@) + spec_emit(
                    self@.seen,
                    results.skip(k as int),
                    ts,
                    fidv,
                ).1,
            decreases texts@.len() - k,
        {
            let ghost seen_in = self@.seen;
            let ghost rem = results.skip(k as int);
            proof {
                assert(rem.len() > 0);
                assert(rem[0] == results[k as int]);
                assert(rem.drop_first() =~= results.skip(k + 1));
            }
            let tchars = str_to_chars(texts[k].as_str());
            let t = trim_chars(&tchars);
            let (_printable, bytes) = crate::tds::text_measures(&t);
            let mut skip_it = bytes < 3;
            if !skip_it {
                if seen_contains(&self.seen, &t) {
                    skip_it = true;
                    proof {
                        assert(seen_in.contains(trimmed(results[k as int].0)));
                    }
                } else {
                    proof {
                        assert(!seen_in.contains(trimmed(results[k as int].0)));
                    }
                }
            } else {
                proof {
                    assert(utf8_len_of(trimmed(results[k as int].0)) < 3);
                }
            }
            if !skip_it {
                let ghost evs_in = events@;
                let text_s = chars_to_string(&t);
                let raw = vstd::slice::slice_to_vec(raws[k].as_slice());
                proof {
                    assert(raw@ =~= raws@[k as int]@);
                    assert(results[k as int] == (texts@[k as int]@, raws@[k as int]@));
                }
                let ev = SqlEvent {
                    timestamp: ts,
                    flow_id: fid.clone(),
                    sql_text: text_s,
                    tables: Vec::new(),
                    operation: chars_to_string(&vec!['T', 'D', 'S']),
                    label: None,
                    raw_data: Some(raw),
                };
                proof {
                    assert(ev@.operation =~= op_tds());
                    assert(ev@.tables =~= Seq::<Seq<char>>::empty());
                    assert(ev@ == (SqlEventV {
                        timestamp: ts,
                        flow_id: fidv,
                        sql_text: trimmed(results[k as int].0),
                        tables: Seq::empty(),
                        operation: op_tds(),
                        label: None,
                        raw_data: Some(results[k as int].1),
                    }));
                }
                let seen_s = chars_to_string(&t);
                self.seen.push(seen_s);
                events.push(ev);
                proof {
                    assert(self@.seen =~= seen_in.push(trimmed(results[k as int].0)));
                    assert(events_views(events@) =~= events_views(evs_in).push(ev@));
                    assert(events_views(evs_in) + (seq![ev@] + spec_emit(
                        self@.seen,
                        results.skip(k + 1),
                        ts,
                        fidv,
                    ).1) =~= events_views(events@) + spec_emit(
                        self@.seen,
                        results.skip(k + 1),
                        ts,
                        fidv,
                    ).1);
                }
            }
            k += 1;
        }
        proof {
            assert(results.skip(results.len() as int).len() == 0);
            assert(events_views(events@) + Seq::<SqlEventV>::empty() =~= events_views(events@));
        }
        events
    }

    /// Run one frame through the pipeline, stamping it with the UTC calendar
    /// time of its capture timestamp.
    pub fn process_packet(&mut self, frame: &[u8], ts_sec: u64, ts_usec: u32) -> (events: Vec<
        SqlEvent,
    >)
        ensures
            ({
                let r = spec_process(
                    old(self)@,
                    frame@,
                    crate::output::spec_civil_from_unix(ts_sec, ts_usec),
                );
                final(self)@ == r.0 && events_views(events@) == r.1
            }),
    {
        let civil = civil_from_unix(ts_sec, ts_usec);
        self.process_packet_at(frame, ts_sec, ts_usec, civil)
    }

    fn find_time(&self, flow: &FlowId) -> (r: Option<usize>)
        ensures
            match r {
                Some(i) => i < self@.times.len() && find_flow(self@.times, *flow) == i as int
                    && self@.times[i as int].0 == *flow,
                None => find_flow(self@.times, *flow) == -1,
            },
    {
        let mut i: usize = 0;
        while i < self.flow_times.len()
            invariant
                i <= self@.times.len(),
                self@.times == self.flow_times@,
                forall|k: int| 0 <= k < i ==> (#[trigger] self@.times[k]).0 != *flow,
            decreases self.flow_times.len() - i,
        {
            if self.flow_times[i].0 == *flow {
                proof {
                    lemma_find_flow_char(self@.times, *flow, i as int);
                }
                return Some(i);
            }
            i += 1;
        }
        proof {
            lemma_find_flow_char(self@.times, *flow, self@.times.len() as int);
        }
        None
    }
}

} // verus!
