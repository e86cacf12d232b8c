//! End-to-end scenarios: TDS message construction, framing, decoding and
//! the capture pipeline.

use tds_extract::extractor::{dissect_frame, Extractor};
use tds_extract::output::CivilTime;
use tds_extract::tcp::{FlowId, TcpReassembler, TcpSegment};
use tds_extract::tds::{TdsPacketType, TdsParser};

fn utf16le(s: &str) -> Vec<u8> {
    let mut out = Vec::new();
    for u in s.encode_utf16() {
        out.push((u & 0xFF) as u8);
        out.push((u >> 8) as u8);
    }
    out
}

/// A well-formed SQLBatch message: 8-byte header, 22-byte ALL_HEADERS,
/// UTF-16LE body.
fn build_batch(sql: &str) -> Vec<u8> {
    let body = utf16le(sql);
    let total_len = 8 + 22 + body.len();
    let mut m = Vec::new();
    m.push(0x01); // SQLBatch
    m.push(0x01); // end of message
    m.push((total_len >> 8) as u8);
    m.push((total_len & 0xFF) as u8);
    m.extend_from_slice(&[0x00, 0x00, 0x01, 0x00]); // SPID, packet id, window
    // ALL_HEADERS: TotalLength (22, includes itself), one transaction
    // descriptor header
    m.extend_from_slice(&[0x16, 0x00, 0x00, 0x00]);
    m.extend_from_slice(&[0x12, 0x00, 0x00, 0x00]); // header length 18
    m.extend_from_slice(&[0x02, 0x00]); // type: transaction descriptor
    m.extend_from_slice(&[0x00, 0x00, 0x00, 0x00, 0x00, 0x00, 0x00, 0x00]);
    m.extend_from_slice(&[0x01, 0x00, 0x00, 0x00]); // outstanding requests
    m.extend_from_slice(&body);
    assert_eq!(m.len(), total_len);
    m
}

/// A well-formed RPC message calling sp_executesql with an NVARCHAR `@stmt`
/// and an INT `@id`.
fn build_rpc_executesql(stmt: &str, id: i32) -> Vec<u8> {
    let mut payload = Vec::new();
    // ALL_HEADERS
    payload.extend_from_slice(&[0x16, 0x00, 0x00, 0x00]);
    payload.extend_from_slice(&[0x12, 0x00, 0x00, 0x00]);
    payload.extend_from_slice(&[0x02, 0x00]);
    payload.extend_from_slice(&[0x00, 0x00, 0x00, 0x00, 0x00, 0x00, 0x00, 0x00]);
    payload.extend_from_slice(&[0x01, 0x00, 0x00, 0x00]);
    // ProcID marker and sp_executesql
    payload.extend_from_slice(&[0xFF, 0xFF, 0x0A, 0x00]);
    // option flags
    payload.extend_from_slice(&[0x00, 0x00]);
    // @stmt NVARCHAR
    let name = utf16le("@stmt");
    payload.push((name.len() / 2) as u8);
    payload.extend_from_slice(&name);
    payload.push(0x00); // status flags
    payload.push(0xE7); // NVARCHAR
    payload.extend_from_slice(&[0xFF, 0x0F]); // max length
    payload.extend_from_slice(&[0x09, 0x04, 0xD0, 0x00, 0x34]); // collation
    let val = utf16le(stmt);
    payload.push((val.len() & 0xFF) as u8);
    payload.push((val.len() >> 8) as u8);
    payload.extend_from_slice(&val);
    // @id INT
    let name2 = utf16le("@id");
    payload.push((name2.len() / 2) as u8);
    payload.extend_from_slice(&name2);
    payload.push(0x00);
    payload.push(0x26); // INTN
    payload.extend_from_slice(&[0x04, 0x00]); // data length 4
    payload.extend_from_slice(&id.to_le_bytes());
    let total_len = 8 + payload.len();
    let mut m = Vec::new();
    m.push(0x03); // RPC
    m.push(0x01);
    m.push((total_len >> 8) as u8);
    m.push((total_len & 0xFF) as u8);
    m.extend_from_slice(&[0x00, 0x00, 0x01, 0x00]);
    m.extend_from_slice(&payload);
    m
}

/// An Ethernet II + IPv4 + TCP frame around the given payload.
fn build_frame(
    src_ip: [u8; 4],
    src_port: u16,
    dst_ip: [u8; 4],
    dst_port: u16,
    seq: u32,
    payload: &[u8],
) -> Vec<u8> {
    let mut f = vec![0u8; 14];
    f[12] = 0x08; // EtherType IPv4
    f[13] = 0x00;
    let mut ip = vec![0u8; 20];
    ip[0] = 0x45; // version 4, IHL 5
    ip[9] = 6; // TCP
    ip[12..16].copy_from_slice(&src_ip);
    ip[16..20].copy_from_slice(&dst_ip);
    f.extend_from_slice(&ip);
    let mut tcp = vec![0u8; 20];
    tcp[0..2].copy_from_slice(&src_port.to_be_bytes());
    tcp[2..4].copy_from_slice(&dst_port.to_be_bytes());
    tcp[4..8].copy_from_slice(&seq.to_be_bytes());
    tcp[12] = 0x50; // data offset 5
    f.extend_from_slice(&tcp);
    f.extend_from_slice(payload);
    f
}

fn epoch_civil() -> CivilTime {
    CivilTime { year: 1970, month: 1, day: 1, hour: 0, minute: 0, second: 0, nanos: 0 }
}

#[test]
fn sqlbatch_single_message_decodes() {
    // S1: one SQLBatch with an ALL_HEADERS prefix carrying "SELECT 1"
    let m = build_batch("SELECT 1");
    let decoded = TdsParser::decode_tds_packet(&m);
    assert_eq!(decoded, Some("SELECT 1".to_string()));
}

#[test]
fn sqlbatch_two_messages_back_to_back() {
    // S2: two SQLBatches in one reassembled buffer
    let mut buf = build_batch("SELECT 1");
    buf.extend_from_slice(&build_batch("SELECT 2"));
    let texts = TdsParser::decode_tds_packets(&buf);
    assert_eq!(texts, vec!["SELECT 1".to_string(), "SELECT 2".to_string()]);
}

#[test]
fn rpc_sp_executesql_decodes() {
    // S3: sp_executesql with @stmt and @id
    let m = build_rpc_executesql("SELECT * FROM T WHERE id=@id", 7);
    let decoded = TdsParser::decode_tds_packet(&m);
    assert_eq!(decoded, Some("SELECT * FROM T WHERE id=@id -- @id=7".to_string()));
}

#[test]
fn out_of_order_segments_reassemble() {
    // S4: segments arrive A, C, B; reassembly yields M1 || M2
    let m1 = build_batch("SELECT 1");
    let m2 = build_batch("SELECT 2");
    let mut stream = m1.clone();
    stream.extend_from_slice(&m2);
    let a = &stream[..20];
    let b = &stream[20..60];
    let c = &stream[60..];
    let flow = FlowId::new(0x0A000001, 50000, 0x0A000002, 1433);
    let mut r = TcpReassembler::new();
    r.add_packet(flow, 0x0A000001, 50000, 1000, a.to_vec(), 0, 0);
    r.add_packet(flow, 0x0A000001, 50000, 1060, c.to_vec(), 0, 0);
    r.add_packet(flow, 0x0A000001, 50000, 1020, b.to_vec(), 0, 0);
    let data = r.get_client_data(&flow).expect("contiguous stream");
    assert_eq!(data, stream);
    let texts = TdsParser::decode_tds_packets(&data);
    assert_eq!(texts, vec!["SELECT 1".to_string(), "SELECT 2".to_string()]);
}

#[test]
fn gap_halts_framing_then_resumes() {
    // S5: a gap returns only the prefix; filling it releases both messages
    let m1 = build_batch("SELECT 1");
    let m2 = build_batch("SELECT 2");
    let flow = FlowId::new(0x0A000001, 50000, 0x0A000002, 1433);
    let mut r = TcpReassembler::new();
    let a = &m1[..8];
    r.add_packet(flow, 0x0A000001, 50000, 1000, a.to_vec(), 0, 0);
    let seq_m2 = 1000 + m1.len() as u32;
    r.add_packet(flow, 0x0A000001, 50000, seq_m2, m2.clone(), 0, 0);
    let partial = r.get_client_data(&flow).expect("prefix available");
    assert_eq!(partial, a);
    assert!(TdsParser::decode_tds_packets(&partial).is_empty());
    let b = &m1[8..];
    r.add_packet(flow, 0x0A000001, 50000, 1008, b.to_vec(), 0, 0);
    let full = r.get_client_data(&flow).expect("gap filled");
    let mut want = m1.clone();
    want.extend_from_slice(&m2);
    assert_eq!(full, want);
    let texts = TdsParser::decode_tds_packets(&full);
    assert_eq!(texts, vec!["SELECT 1".to_string(), "SELECT 2".to_string()]);
}

#[test]
fn resync_skips_noise_before_message() {
    // S6: non-TDS noise, then a valid SQLBatch
    let mut buf = vec![0xDE, 0xAD, 0xBE, 0xEF];
    buf.extend_from_slice(&build_batch("SELECT 3"));
    let texts = TdsParser::decode_tds_packets(&buf);
    assert_eq!(texts, vec!["SELECT 3".to_string()]);
}

#[test]
fn flow_id_canonical_both_directions() {
    // flow canonicalization on concrete endpoints
    let f1 = FlowId::new(0x0A000001, 50000, 0x0A000002, 1433);
    let f2 = FlowId::new(0x0A000002, 1433, 0x0A000001, 50000);
    assert_eq!(f1, f2);
}

#[test]
fn direction_classification_exclusive() {
    let f = FlowId::new(0x0A000001, 50000, 0x0A000002, 1433);
    let c1 = f.is_client_to_server(0x0A000001, 50000);
    let c2 = f.is_client_to_server(0x0A000002, 1433);
    assert_ne!(c1, c2);
}

#[test]
fn duplicate_segment_changes_nothing() {
    // reassembly idempotence on a concrete duplicate
    let flow = FlowId::new(1, 1, 2, 2);
    let mut r1 = TcpReassembler::new();
    r1.add_packet(flow, 1, 1, 100, vec![1, 2, 3], 0, 0);
    r1.add_packet(flow, 1, 1, 103, vec![4, 5], 0, 0);
    let once = r1.get_client_data(&flow).unwrap();
    let mut r2 = TcpReassembler::new();
    r2.add_packet(flow, 1, 1, 100, vec![1, 2, 3], 0, 0);
    r2.add_packet(flow, 1, 1, 103, vec![4, 5], 0, 0);
    r2.add_packet(flow, 1, 1, 103, vec![4, 5], 0, 0);
    let twice = r2.get_client_data(&flow).unwrap();
    assert_eq!(once, twice);
    assert_eq!(once, vec![1, 2, 3, 4, 5]);
    // the duplicate's original need not be the latest segment
    let mut r3 = TcpReassembler::new();
    r3.add_packet(flow, 1, 1, 100, vec![1, 2, 3], 0, 0);
    r3.add_packet(flow, 1, 1, 103, vec![4, 5], 0, 0);
    r3.add_packet(flow, 1, 1, 100, vec![1, 2, 3], 0, 0);
    assert_eq!(r3.get_client_data(&flow).unwrap(), once);
}

#[test]
fn overlapping_segments_keep_each_byte_once() {
    // overlap correctness: B starts inside A and reaches further
    let flow = FlowId::new(1, 1, 2, 2);
    let mut r = TcpReassembler::new();
    r.add_packet(flow, 1, 1, 1000, vec![10, 11, 12, 13, 14, 15, 16, 17], 0, 0);
    r.add_packet(flow, 1, 1, 1004, vec![14, 15, 16, 17, 18, 19, 20, 21], 0, 0);
    let out = r.get_client_data(&flow).unwrap();
    assert_eq!(out, vec![10, 11, 12, 13, 14, 15, 16, 17, 18, 19, 20, 21]);
}

#[test]
fn framer_carves_every_message_exactly() {
    // length framing: three concatenated messages, three raw carvings
    let m1 = build_batch("SELECT 1");
    let m2 = build_rpc_executesql("SELECT * FROM T WHERE id=@id", 7);
    let m3 = build_batch("SELECT 3");
    let mut buf = m1.clone();
    buf.extend_from_slice(&m2);
    buf.extend_from_slice(&m3);
    let (texts, raws) = TdsParser::decode_tds_packets_with_raw(&buf);
    assert_eq!(texts.len(), 3);
    assert_eq!(raws, vec![m1, m2, m3]);
}

#[test]
fn unknown_type_skipped_via_resync() {
    // a Response (0x04) packet between two batches is skipped byte by byte;
    // none of its bytes is 0x01 or 0x03, so resynchronization walks past it
    let m1 = build_batch("SELECT 1");
    let mut resp = vec![0x04, 0x00, 0x00, 0x10, 0x00, 0x00, 0xEE, 0x00];
    resp.extend_from_slice(&[0xEEu8; 8]);
    let m3 = build_batch("SELECT 3");
    let mut buf = m1.clone();
    buf.extend_from_slice(&resp);
    buf.extend_from_slice(&m3);
    let texts = TdsParser::decode_tds_packets(&buf);
    assert_eq!(texts, vec!["SELECT 1".to_string(), "SELECT 3".to_string()]);
}

#[test]
fn looks_like_tds_checks_status_byte() {
    // a defined status byte passes, an undefined one fails header decode
    let m = build_batch("SELECT 1");
    assert!(TdsParser::looks_like_tds(&m));
    let mut bad = m.clone();
    bad[1] = 0x04; // not a defined status flag
    assert!(!TdsParser::looks_like_tds(&bad));
    let mut wrong_type = m.clone();
    wrong_type[0] = 0x04;
    assert!(!TdsParser::looks_like_tds(&wrong_type));
    assert!(!TdsParser::looks_like_tds(&m[..7]));
}

#[test]
fn parse_header_reads_fields_big_endian() {
    let m = build_batch("SELECT 1");
    let h = TdsParser::parse_header(&m).unwrap();
    assert_eq!(h.packet_type, TdsPacketType::SqlBatch);
    assert_eq!(h.status, 0x01);
    assert_eq!(h.length as usize, m.len());
    assert_eq!(h.spid, 0);
    assert_eq!(h.packet_id, 1);
    assert_eq!(h.window, 0);
    assert!(TdsParser::parse_header(&[0x05, 0x00, 0x00]).is_none());
}

#[test]
fn extract_payload_skips_all_headers() {
    let m = build_batch("SELECT 1");
    let p = TdsParser::extract_payload(&m).unwrap();
    assert_eq!(p, &utf16le("SELECT 1")[..]);
    assert!(TdsParser::extract_payload(&m[..6]).is_none());
}

#[test]
fn decode_utf16le_accepts_plain_text() {
    let bytes = utf16le("SELECT 42");
    assert_eq!(TdsParser::decode_utf16le(&bytes), Some("SELECT 42".to_string()));
    // too short after trimming
    assert_eq!(TdsParser::decode_utf16le(&utf16le("a")), None);
    // mostly control characters
    let noisy = utf16le("\u{1}\u{2}\u{3}\u{4}ab");
    assert_eq!(TdsParser::decode_utf16le(&noisy), None);
}

#[test]
fn decode_utf16le_strips_nuls() {
    // leading NUL code units are stripped, an interior NUL cuts the text
    let mut bytes = vec![0x00, 0x00, 0x00, 0x00];
    bytes.extend_from_slice(&utf16le("SELECT 9"));
    bytes.extend_from_slice(&[0x00, 0x00]);
    bytes.extend_from_slice(&utf16le("junk"));
    assert_eq!(TdsParser::decode_utf16le(&bytes), Some("SELECT 9".to_string()));
}

#[test]
fn rpc_varchar_parameter_utf8() {
    // a VARCHAR (0xA7) parameter is decoded as UTF-8
    // no plausible ALL_HEADERS: the ProcID marker stands right behind the
    // TDS header
    let mut payload = Vec::new();
    payload.extend_from_slice(&[0xFF, 0xFF, 0x0A, 0x00, 0x00, 0x00]);
    let name = |s: &str| utf16le(s);
    let n = name("@p");
    payload.push((n.len() / 2) as u8);
    payload.extend_from_slice(&n);
    payload.push(0x00);
    payload.push(0xA7); // VARCHAR
    payload.extend_from_slice(&[0xFF, 0x0F]);
    payload.extend_from_slice(&[0x09, 0x04, 0xD0, 0x00, 0x34]);
    let val = b"hello";
    payload.extend_from_slice(&[val.len() as u8, 0x00]);
    payload.extend_from_slice(val);
    let total_len = 8 + payload.len();
    let mut m = vec![
        0x03,
        0x01,
        (total_len >> 8) as u8,
        (total_len & 0xFF) as u8,
        0x00,
        0x00,
        0x01,
        0x00,
    ];
    m.extend_from_slice(&payload);
    let decoded = TdsParser::decode_tds_packet(&m);
    assert_eq!(decoded, Some("@p=hello".to_string()));
}

#[test]
fn pipeline_emits_event_for_batch() {
    // the full pipeline: frame in, deduplicated event out
    let m = build_batch("SELECT 1");
    let frame = build_frame([10, 0, 0, 1], 50000, [10, 0, 0, 2], 1433, 1000, &m);
    let mut ex = Extractor::new(true);
    let ts = epoch_civil();
    let events = ex.process_packet_at(&frame, 7, 500, ts);
    assert_eq!(events.len(), 1);
    assert_eq!(events[0].sql_text, "SELECT 1");
    assert_eq!(events[0].operation, "TDS");
    assert_eq!(events[0].flow_id, "10.0.0.1:50000->10.0.0.2:1433");
    assert_eq!(events[0].timestamp, ts);
    assert_eq!(events[0].raw_data.as_deref(), Some(&m[..]));
    assert!(events[0].tables.is_empty());
    assert_eq!(events[0].label, None);
}

#[test]
fn pipeline_deduplicates_repeated_text() {
    // the same trimmed SQL text is emitted exactly once
    let m = build_batch("SELECT 1");
    let frame = build_frame([10, 0, 0, 1], 50000, [10, 0, 0, 2], 1433, 1000, &m);
    let mut ex = Extractor::new(true);
    let ts = epoch_civil();
    let first = ex.process_packet_at(&frame, 0, 0, ts);
    assert_eq!(first.len(), 1);
    // the duplicate segment re-decodes the same stream: no new event
    let again = ex.process_packet_at(&frame, 1, 0, ts);
    assert!(again.is_empty());
    // the same text at a different place in the stream is also a duplicate
    let frame2 = build_frame(
        [10, 0, 0, 1],
        50000,
        [10, 0, 0, 2],
        1433,
        1000 + m.len() as u32,
        &m,
    );
    let third = ex.process_packet_at(&frame2, 2, 0, ts);
    assert!(third.is_empty());
}

#[test]
fn pipeline_filters_ports() {
    // traffic outside the SQL Server ports is ignored
    let m = build_batch("SELECT 1");
    let frame = build_frame([10, 0, 0, 1], 50000, [10, 0, 0, 2], 8080, 1000, &m);
    let mut ex = Extractor::new(true);
    let events = ex.process_packet_at(&frame, 0, 0, epoch_civil());
    assert!(events.is_empty());
}

#[test]
fn pipeline_ignores_server_to_client() {
    // only the client-to-server stream is decoded
    let m = build_batch("SELECT 1");
    // source port 1433: the server side of the canonical flow
    let frame = build_frame([10, 0, 0, 2], 1433, [10, 0, 0, 1], 50000, 1000, &m);
    let mut ex = Extractor::new(true);
    let events = ex.process_packet_at(&frame, 0, 0, epoch_civil());
    // 10.0.0.1:50000 is the canonical client endpoint, so this packet is
    // server-to-client
    assert!(events.is_empty());
}

#[test]
fn dissect_frame_reads_headers() {
    let frame = build_frame([192, 168, 0, 1], 1234, [192, 168, 0, 2], 1433, 77, &[1, 2, 3]);
    let d = dissect_frame(&frame).unwrap();
    assert_eq!(d.seq, 77);
    assert_eq!(d.payload, vec![1, 2, 3]);
    assert_eq!(d.src_ip, 0xC0A80001);
    assert_eq!(d.dst_ip, 0xC0A80002);
    assert_eq!(d.src_port, 1234);
    assert_eq!(d.dst_port, 1433);
    let mut not_ip = frame.clone();
    not_ip[14] = 0x65; // version 6
    assert!(dissect_frame(&not_ip).is_none());
    let mut not_tcp = frame.clone();
    not_tcp[23] = 17; // UDP
    assert!(dissect_frame(&not_tcp).is_none());
    assert!(dissect_frame(&frame[..20]).is_none());
}

#[test]
fn reassembler_tracks_flows_and_directions() {
    let flow = FlowId::new(0x0A000001, 50000, 0x0A000002, 1433);
    let mut r = TcpReassembler::new();
    r.add_packet(flow, 0x0A000001, 50000, 10, vec![1], 0, 0);
    r.add_packet(flow, 0x0A000002, 1433, 20, vec![2, 3], 0, 0);
    assert_eq!(r.get_flows(), vec![flow]);
    assert_eq!(r.get_client_data(&flow).unwrap(), vec![1]);
    assert_eq!(r.get_server_data(&flow).unwrap(), vec![2, 3]);
    let other = FlowId::new(9, 9, 8, 8);
    assert!(r.get_client_data(&other).is_none());
}

#[test]
fn segment_struct_holds_capture_time() {
    let s = TcpSegment { seq: 5, data: vec![1, 2], ts_sec: 100, ts_usec: 250 };
    assert_eq!(s.seq, 5);
    assert_eq!(s.data, vec![1, 2]);
    assert_eq!(s.ts_sec, 100);
    assert_eq!(s.ts_usec, 250);
}

#[test]
fn rpc_negative_int_parameter() {
    let m = build_rpc_executesql("DELETE FROM T WHERE id=@id", -7);
    let decoded = TdsParser::decode_tds_packet(&m);
    assert_eq!(decoded, Some("DELETE FROM T WHERE id=@id -- @id=-7".to_string()));
}

#[test]
fn out_of_range_timestamp_falls_back_to_epoch() {
    let t = tds_extract::output::civil_from_unix(u64::MAX, 42);
    assert_eq!(t.year, 1970);
    assert_eq!(t.month, 1);
    assert_eq!(t.day, 1);
    assert_eq!(t.nanos, 42000);
}

#[test]
fn rpc_short_composite_is_rejected() {
    // the validity filter applies to the RPC path too: a nameless INT
    // parameter alone composes to "=5", shorter than three bytes trimmed
    let mut payload = Vec::new();
    payload.extend_from_slice(&[0xFF, 0xFF, 0x0A, 0x00, 0x00, 0x00]);
    payload.push(0x00); // empty parameter name
    payload.push(0x00); // status flags
    payload.push(0x26); // INTN
    payload.extend_from_slice(&[0x04, 0x00]);
    payload.extend_from_slice(&5i32.to_le_bytes());
    let total_len = 8 + payload.len();
    let mut m = vec![
        0x03,
        0x01,
        (total_len >> 8) as u8,
        (total_len & 0xFF) as u8,
        0x00,
        0x00,
        0x01,
        0x00,
    ];
    m.extend_from_slice(&payload);
    assert_eq!(TdsParser::decode_tds_packet(&m), None);
}

#[test]
fn rpc_varchar_non_utf8_falls_back_to_latin1() {
    // a VARCHAR value that is not valid UTF-8 is read byte-for-byte
    let mut payload = Vec::new();
    payload.extend_from_slice(&[0xFF, 0xFF, 0x0A, 0x00, 0x00, 0x00]);
    let name = {
        let mut n = Vec::new();
        for u in "@p".encode_utf16() {
            n.push((u & 0xFF) as u8);
            n.push((u >> 8) as u8);
        }
        n
    };
    payload.push((name.len() / 2) as u8);
    payload.extend_from_slice(&name);
    payload.push(0x00);
    payload.push(0xA7); // VARCHAR
    payload.extend_from_slice(&[0xFF, 0x0F]);
    payload.extend_from_slice(&[0x09, 0x04, 0xD0, 0x00, 0x34]);
    let val = [0xE9u8, 0x74, 0xE9]; // invalid UTF-8
    payload.extend_from_slice(&[val.len() as u8, 0x00]);
    payload.extend_from_slice(&val);
    let total_len = 8 + payload.len();
    let mut m = vec![
        0x03,
        0x01,
        (total_len >> 8) as u8,
        (total_len & 0xFF) as u8,
        0x00,
        0x00,
        0x01,
        0x00,
    ];
    m.extend_from_slice(&payload);
    assert_eq!(TdsParser::decode_tds_packet(&m), Some("@p=\u{e9}t\u{e9}".to_string()));
}
