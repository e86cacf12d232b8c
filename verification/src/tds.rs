//! TDS message framing and body decoding.
//!
//! A TDS packet starts with an 8-byte header: type, status, big-endian
//! length (which includes the header itself), SPID, packet id and window.
//! SQLBatch (0x01) bodies carry UTF-16LE SQL text behind an optional
//! ALL_HEADERS prefix; RPC (0x03) bodies carry a typed parameter stream.

use vstd::prelude::*;
use crate::text::{is_printable_char, is_printable, trimmed, trim_chars, str_to_chars};

verus! {

/// The TDS packet types this library distinguishes; every other defined
/// type byte is kept as `Unknown`.
#[derive(Clone, Copy, PartialEq, Eq, Structural, Debug)]
pub enum TdsPacketType {
    SqlBatch,
    RpcRequest,
    Response,
    Unknown(u8),
}

/// The fields of the 8-byte TDS packet header. `length` counts the whole
/// packet, header included.
#[derive(Clone, Copy, PartialEq, Eq, Structural, Debug)]
pub struct TdsHeader {
    pub packet_type: TdsPacketType,
    pub status: u8,
    pub length: u16,
    pub spid: u16,
    pub packet_id: u8,
    pub window: u8,
}

/// The eleven packet type bytes that the TDS header decoder accepts.
pub open spec fn valid_type_byte(b: u8) -> bool {
    b == 0x01 || b == 0x02 || b == 0x03 || b == 0x04 || b == 0x06 || b == 0x07 || b == 0x08 || b
        == 0x0E || b == 0x10 || b == 0x11 || b == 0x12
}

/// The status byte may only carry the five defined flag bits (mask 0x1B).
pub open spec fn valid_status_byte(b: u8) -> bool {
    b & 0xE4 == 0
}

/// Map a packet type byte to the types this library distinguishes.
pub open spec fn type_of_byte(b: u8) -> TdsPacketType {
    if b == 0x01 {
        TdsPacketType::SqlBatch
    } else if b == 0x03 {
        TdsPacketType::RpcRequest
    } else if b == 0x04 {
        TdsPacketType::Response
    } else {
        TdsPacketType::Unknown(b)
    }
}

/// Big-endian 16-bit read.
pub open spec fn be16(hi: u8, lo: u8) -> u16 {
    (hi as int * 256 + lo as int) as u16
}

/// Little-endian 16-bit read.
pub open spec fn le16(lo: u8, hi: u8) -> u16 {
    (hi as int * 256 + lo as int) as u16
}

/// Little-endian 32-bit read.
pub open spec fn le32(b0: u8, b1: u8, b2: u8, b3: u8) -> u32 {
    (b3 as int * 0x1000000 + b2 as int * 0x10000 + b1 as int * 0x100 + b0 as int) as u32
}

/// An 8-byte header at the start of `s` decodes successfully: defined type
/// byte and no undefined status bits.
pub open spec fn header_decodes(s: Seq<u8>) -> bool {
    s.len() >= 8 && valid_type_byte(s[0]) && valid_status_byte(s[1])
}

/// The header fields read from the first 8 bytes of `s`.
pub open spec fn spec_header(s: Seq<u8>) -> TdsHeader
    recommends
        s.len() >= 8,
{
    TdsHeader {
        packet_type: type_of_byte(s[0]),
        status: s[1],
        length: be16(s[2], s[3]),
        spid: be16(s[4], s[5]),
        packet_id: s[6],
        window: s[7],
    }
}

/// Relies on `tds_protocol::packet::PacketHeader::decode`: with 8 bytes
/// available it succeeds exactly when `PacketType::from_u8` accepts the
/// first byte (one of the eleven defined type bytes) and
/// `PacketStatus::from_bits` accepts the second (no bits outside 0x1B).
#[verifier::external_body]
fn tds_header_decode_ok(data: &[u8]) -> (r: bool)
    requires
        data@.len() >= 8,
    ensures
        r == header_decodes(data@),
{
    let mut buf = &data[..8];
    tds_protocol::packet::PacketHeader::decode(&mut buf).is_ok()
}

/// Whether a buffer begins with a complete, well-formed SQLBatch or RPC
/// header: at least 8 bytes, first byte 0x01 or 0x03, and a header that
/// decodes.
pub open spec fn spec_looks_like_tds(s: Seq<u8>) -> bool {
    s.len() >= 8 && (s[0] == 0x01 || s[0] == 0x03) && header_decodes(s)
}

pub struct TdsParser;

impl TdsParser {
    /// Whether the buffer starts with a well-formed SQLBatch or RPC header.
    pub fn looks_like_tds(bytes: &[u8]) -> (r: bool)
        ensures
            r == spec_looks_like_tds(bytes@),
    {
        if bytes.len() < 8 {
            return false;
        }
        let b0 = bytes[0];
        if b0 != 0x01 && b0 != 0x03 {
            return false;
        }
        tds_header_decode_ok(bytes)
    }

    /// Parse the 8-byte header at the start of the buffer.
    pub fn parse_header(data: &[u8]) -> (r: Option<TdsHeader>)
        ensures
            match r {
                Some(h) => header_decodes(data@) && h == spec_header(data@),
                None => !header_decodes(data@),
            },
    {
        if data.len() < 8 {
            return None;
        }
        if !tds_header_decode_ok(data) {
            return None;
        }
        let b0 = data[0];
        let packet_type = if b0 == 0x01 {
            TdsPacketType::SqlBatch
        } else if b0 == 0x03 {
            TdsPacketType::RpcRequest
        } else if b0 == 0x04 {
            TdsPacketType::Response
        } else {
            TdsPacketType::Unknown(b0)
        };
        let length = (data[2] as u16) * 256 + (data[3] as u16);
        let spid = (data[4] as u16) * 256 + (data[5] as u16);
        Some(
            TdsHeader {
                packet_type,
                status: data[1],
                length,
                spid,
                packet_id: data[6],
                window: data[7],
            },
        )
    }
}

/// Where the body of a SQLBatch or RPC packet starts: behind the
/// ALL_HEADERS prefix when its total length field is plausible, directly
/// behind the header otherwise.
pub open spec fn spec_body_start(s: Seq<u8>) -> int
    recommends
        s.len() >= 8,
{
    let h = spec_header(s);
    if (h.packet_type == TdsPacketType::SqlBatch || h.packet_type == TdsPacketType::RpcRequest)
        && s.len() >= 12 {
        let total = le32(s[8], s[9], s[10], s[11]) as int;
        if total > 0 && total <= 65535 && s.len() >= 8 + total {
            8 + total
        } else {
            8
        }
    } else {
        8
    }
}

/// The body bytes of a packet: from the body start up to the header length
/// (or the end of the buffer, whichever comes first).
pub open spec fn spec_extract_payload(s: Seq<u8>) -> Option<Seq<u8>> {
    if s.len() < 8 {
        None
    } else if !header_decodes(s) {
        None
    } else {
        let bs = spec_body_start(s);
        let end = if spec_header(s).length as int <= s.len() {
            spec_header(s).length as int
        } else {
            s.len() as int
        };
        if bs >= s.len() {
            None
        } else if bs < end {
            Some(s.subrange(bs, end))
        } else {
            None
        }
    }
}

impl TdsParser {
    /// Strip the header (and a plausible ALL_HEADERS prefix) from a packet
    /// and return the body bytes.
    pub fn extract_payload<'a>(data: &'a [u8]) -> (r: Option<&'a [u8]>)
        ensures
            match r {
                Some(p) => spec_extract_payload(data@) == Some(p@),
                None => spec_extract_payload(data@) is None,
            },
    {
        if data.len() < 8 {
            return None;
        }
        let header = match Self::parse_header(data) {
            Some(h) => h,
            None => {
                return None;
            },
        };
        let body_start: usize = if (matches!(header.packet_type, TdsPacketType::SqlBatch)
            || matches!(header.packet_type, TdsPacketType::RpcRequest)) && data.len() >= 12 {
            let total = (data[11] as usize) * 0x1000000 + (data[10] as usize) * 0x10000 + (
            data[9] as usize) * 0x100 + (data[8] as usize);
            if total > 0 && total <= 65535 && data.len() >= 8 + total {
                8 + total
            } else {
                8
            }
        } else {
            8
        };
        if body_start >= data.len() {
            return None;
        }
        let end: usize = if (header.length as usize) <= data.len() {
            header.length as usize
        } else {
            data.len()
        };
        if body_start < end {
            Some(vstd::slice::slice_subrange(data, body_start, end))
        } else {
            None
        }
    }
}

/// What `encoding_rs::UTF_16LE.decode` returns for the given bytes: a pure
/// function of the input alone.
pub uninterp spec fn utf16le_chars(bytes: Seq<u8>) -> Seq<char>;

/// Relies on `encoding_rs::UTF_16LE.decode`: UTF-16LE decoding with BOM
/// sniffing, malformed sequences replaced with U+FFFD. The result depends on
/// the input bytes alone, and an empty input decodes to an empty string.
#[verifier::external_body]
fn utf16_decode(bytes: &[u8]) -> (r: String)
    ensures
        r@ == utf16le_chars(bytes@),
        bytes@.len() == 0 ==> r@.len() == 0,
{
    let (cow, _, _) = encoding_rs::UTF_16LE.decode(bytes);
    cow.into_owned()
}

/// The characters before the first NUL.
pub open spec fn before_nul(s: Seq<char>) -> Seq<char>
    decreases s.len(),
{
    if s.len() == 0 {
        s
    } else if s[0] == '\0' {
        Seq::empty()
    } else {
        seq![s[0]] + before_nul(s.drop_first())
    }
}

/// Leading NULs removed.
pub open spec fn drop_leading_nuls(s: Seq<char>) -> Seq<char>
    decreases s.len(),
{
    if s.len() > 0 && s[0] == '\0' {
        drop_leading_nuls(s.drop_first())
    } else {
        s
    }
}

/// Decoded text with leading NUL characters stripped and cut at the first
/// interior NUL.
pub open spec fn nul_cleaned(s: Seq<char>) -> Seq<char> {
    before_nul(drop_leading_nuls(s))
}

/// How many characters of `s` count as printable.
pub open spec fn printable_count(s: Seq<char>) -> int
    decreases s.len(),
{
    if s.len() == 0 {
        0
    } else {
        printable_count(s.drop_last()) + if is_printable_char(s.last()) {
            1int
        } else {
            0int
        }
    }
}

/// The UTF-8 byte length of one character.
pub open spec fn char_utf8_len(c: char) -> int {
    if (c as u32) < 0x80 {
        1
    } else if (c as u32) < 0x800 {
        2
    } else if (c as u32) < 0x10000 {
        3
    } else {
        4
    }
}

/// The UTF-8 byte length of a character sequence, as `str::len` reports it.
pub open spec fn utf8_len_of(s: Seq<char>) -> int
    decreases s.len(),
{
    if s.len() == 0 {
        0
    } else {
        utf8_len_of(s.drop_last()) + char_utf8_len(s.last())
    }
}

/// The validity filter applied to every decoded SQL text: the trimmed text
/// must be at least 3 UTF-8 bytes long and at most half of its characters
/// may be control characters. The accepted value is the untrimmed text.
pub open spec fn spec_filter_sql_text(s: Seq<char>) -> Option<Seq<char>> {
    let t = trimmed(s);
    if utf8_len_of(t) < 3 {
        None
    } else if 2 * printable_count(t) < t.len() {
        None
    } else {
        Some(s)
    }
}

/// The filter applied to decoded SQLBatch text: strip NULs, then apply the
/// validity filter to the NUL-cleaned text.
pub open spec fn spec_accept_sql_text(s: Seq<char>) -> Option<Seq<char>> {
    spec_filter_sql_text(nul_cleaned(s))
}

/// Strip leading NULs and cut at the first interior NUL.
fn nul_clean_chars(v: &Vec<char>) -> (r: Vec<char>)
    ensures
        r@ == nul_cleaned(v@),
{
    let n = v.len();
    let mut start: usize = 0;
    proof {
        assert(v@.skip(0) =~= v@);
    }
    while start < n && v[start] == '\0'
        invariant
            n == v@.len(),
            start <= n,
            drop_leading_nuls(v@) == drop_leading_nuls(v@.skip(start as int)),
        decreases n - start,
    {
        proof {
            assert(v@.skip(start as int)[0] == v@[start as int]);
            assert(v@.skip(start as int).drop_first() =~= v@.skip(start + 1));
        }
        start += 1;
    }
    proof {
        if start < n {
            assert(v@.skip(start as int)[0] == v@[start as int]);
        }
        assert(drop_leading_nuls(v@) == v@.skip(start as int));
    }
    let ghost tail = v@.skip(start as int);
    let mut r: Vec<char> = Vec::new();
    let mut i = start;
    while i < n && v[i] != '\0'
        invariant
            n == v@.len(),
            start <= i <= n,
            tail == v@.skip(start as int),
            r@ == v@.subrange(start as int, i as int),
            forall|k: int| start <= k < i ==> v@[k] != '\0',
            before_nul(tail) == v@.subrange(start as int, i as int) + before_nul(
                v@.skip(i as int),
            ),
        decreases n - i,
    {
        proof {
            assert(v@.skip(i as int)[0] == v@[i as int]);
            assert(v@.skip(i as int).drop_first() =~= v@.skip(i + 1));
            assert(before_nul(v@.skip(i as int)) == seq![v@[i as int]] + before_nul(
                v@.skip(i + 1),
            ));
            assert(v@.subrange(start as int, i + 1) =~= v@.subrange(start as int, i as int).push(
                v@[i as int],
            ));
            assert(v@.subrange(start as int, i as int) + (seq![v@[i as int]] + before_nul(
                v@.skip(i + 1),
            )) =~= v@.subrange(start as int, i + 1) + before_nul(v@.skip(i + 1)));
        }
        r.push(v[i]);
        i += 1;
    }
    proof {
        if i < n {
            assert(v@.skip(i as int)[0] == v@[i as int]);
            assert(before_nul(v@.skip(i as int)) =~= Seq::<char>::empty());
        } else {
            assert(v@.skip(i as int).len() == 0);
        }
        assert(r@ + before_nul(v@.skip(i as int)) =~= r@);
    }
    r
}

/// Count printable characters and total UTF-8 byte length of a character
/// list.
pub(crate) fn text_measures(v: &Vec<char>) -> (r: (usize, usize))
    ensures
        v@.len() <= usize::MAX,
        r.0 as int == printable_count(v@),
        r.1 as int == if utf8_len_of(v@) <= usize::MAX {
            utf8_len_of(v@)
        } else {
            usize::MAX as int
        },
{
    let n = v.len();
    let mut printable: usize = 0;
    let mut bytes: usize = 0;
    let mut i: usize = 0;
    proof {
        assert(v@.subrange(0, 0) =~= Seq::<char>::empty());
    }
    while i < n
        invariant
            n == v@.len(),
            i <= n,
            printable as int == printable_count(v@.subrange(0, i as int)),
            printable <= i,
            bytes as int == if utf8_len_of(v@.subrange(0, i as int)) <= usize::MAX {
                utf8_len_of(v@.subrange(0, i as int))
            } else {
                usize::MAX as int
            },
            utf8_len_of(v@.subrange(0, i as int)) >= 0,
        decreases n - i,
    {
        let c = v[i];
        proof {
            assert(v@.subrange(0, i + 1).drop_last() =~= v@.subrange(0, i as int));
            assert(v@.subrange(0, i + 1).last() == v@[i as int]);
        }
        if is_printable(c) {
            printable += 1;
        }
        let cl: usize = if (c as u32) < 0x80 {
            1
        } else if (c as u32) < 0x800 {
            2
        } else if (c as u32) < 0x10000 {
            3
        } else {
            4
        };
        assert(cl as int == char_utf8_len(c));
        if bytes > usize::MAX - cl {
            bytes = usize::MAX;
        } else {
            bytes += cl;
        }
        i += 1;
    }
    proof {
        assert(v@.subrange(0, n as int) =~= v@);
    }
    (printable, bytes)
}

/// Apply the validity filter to a decoded text.
fn filter_sql_text(v: Vec<char>) -> (r: Option<Vec<char>>)
    ensures
        match r {
            Some(t) => spec_filter_sql_text(v@) == Some(t@),
            None => spec_filter_sql_text(v@) is None,
        },
{
    let t = trim_chars(&v);
    let (printable, bytes) = text_measures(&t);
    if bytes < 3 {
        return None;
    }
    proof {
        assert(utf8_len_of(t@) >= 3);
    }
    if printable > usize::MAX / 2 {
        // more printable characters than half of any possible length
        proof {
            assert(2 * printable_count(t@) >= t@.len());
        }
        return Some(v);
    }
    if 2 * printable < t.len() {
        return None;
    }
    Some(v)
}

/// Apply the SQLBatch acceptance filter (NUL cleaning, then the validity
/// filter) to decoded characters.
fn accept_sql_text(v: &Vec<char>) -> (r: Option<Vec<char>>)
    ensures
        match r {
            Some(t) => spec_accept_sql_text(v@) == Some(t@),
            None => spec_accept_sql_text(v@) is None,
        },
{
    let clean = nul_clean_chars(v);
    filter_sql_text(clean)
}

impl TdsParser {
    /// Decode a buffer as UTF-16LE SQL text: strip a TDS header (and
    /// ALL_HEADERS) when one is present, even the byte count, decode, and
    /// apply the acceptance filter.
    pub fn decode_utf16le(bytes: &[u8]) -> (r: Option<String>)
        ensures
            match r {
                Some(s) => spec_decode_utf16le(bytes@) == Some(s@),
                None => spec_decode_utf16le(bytes@) is None,
            },
    {
        if bytes.len() == 0 {
            return None;
        }
        let data: &[u8] = if bytes.len() > 8 && Self::looks_like_tds(bytes) {
            let header = match Self::parse_header(bytes) {
                Some(h) => h,
                None => {
                    proof {
                        assert(false);
                    }
                    return None;
                },
            };
            if matches!(header.packet_type, TdsPacketType::SqlBatch) && bytes.len() >= 12 {
                let total = (bytes[11] as usize) * 0x1000000 + (bytes[10] as usize) * 0x10000 + (
                bytes[9] as usize) * 0x100 + (bytes[8] as usize);
                if total > 0 && total <= 65535 && bytes.len() >= 8 + total {
                    vstd::slice::slice_subrange(bytes, 8 + total, bytes.len())
                } else {
                    vstd::slice::slice_subrange(bytes, 8, bytes.len())
                }
            } else {
                vstd::slice::slice_subrange(bytes, 8, bytes.len())
            }
        } else {
            bytes
        };
        proof {
            assert(data@ == spec_utf16_input(bytes@));
        }
        if data.len() == 0 {
            return None;
        }
        let even: &[u8] = if data.len() % 2 != 0 {
            vstd::slice::slice_subrange(data, 0, data.len() - 1)
        } else {
            data
        };
        proof {
            if data@.len() % 2 != 0 {
                assert(even@ =~= data@.drop_last());
            }
        }
        if even.len() == 0 {
            return None;
        }
        let decoded = utf16_decode(even);
        let chars = str_to_chars(decoded.as_str());
        match accept_sql_text(&chars) {
            Some(t) => Some(crate::text::chars_to_string(&t)),
            None => None,
        }
    }
}

/// The bytes handed to the UTF-16LE decoder: the input with a leading TDS
/// header (and, for SQLBatch, a plausible ALL_HEADERS prefix) removed.
pub open spec fn spec_utf16_input(bytes: Seq<u8>) -> Seq<u8> {
    if bytes.len() > 8 && spec_looks_like_tds(bytes) {
        if spec_header(bytes).packet_type == TdsPacketType::SqlBatch && bytes.len() >= 12 {
            let total = le32(bytes[8], bytes[9], bytes[10], bytes[11]) as int;
            if total > 0 && total <= 65535 && bytes.len() >= 8 + total {
                bytes.skip(8 + total)
            } else {
                bytes.skip(8)
            }
        } else {
            bytes.skip(8)
        }
    } else {
        bytes
    }
}

/// What `decode_utf16le` returns: the accepted, NUL-cleaned decoded text of
/// the (possibly header-stripped, evened) input bytes.
pub open spec fn spec_decode_utf16le(bytes: Seq<u8>) -> Option<Seq<char>> {
    if bytes.len() == 0 {
        None
    } else {
        let data = spec_utf16_input(bytes);
        if data.len() == 0 {
            None
        } else {
            let even = if data.len() % 2 != 0 {
                data.drop_last()
            } else {
                data
            };
            if even.len() == 0 {
                None
            } else {
                spec_accept_sql_text(utf16le_chars(even))
            }
        }
    }
}

/// What `String::from_utf8` decodes. Relies on `String::from_utf8`: it
/// succeeds exactly on valid UTF-8 and returns the string made of those
/// bytes.
#[verifier::external_body]
fn utf8_to_string(bytes: &[u8]) -> (r: Option<String>)
    ensures
        match r {
            Some(s) => vstd::utf8::valid_utf8(bytes@) && s@ == vstd::utf8::decode_utf8(bytes@),
            None => !vstd::utf8::valid_utf8(bytes@),
        },
{
    String::from_utf8(bytes.to_vec()).ok()
}

pub open spec fn at_stmt() -> Seq<char> {
    seq!['@', 's', 't', 'm', 't']
}

pub open spec fn at_statement() -> Seq<char> {
    seq!['@', 's', 't', 'a', 't', 'e', 'm', 'e', 'n', 't']
}

pub open spec fn kw_select() -> Seq<char> {
    seq!['S', 'E', 'L', 'E', 'C', 'T']
}

pub open spec fn kw_insert() -> Seq<char> {
    seq!['I', 'N', 'S', 'E', 'R', 'T']
}

pub open spec fn kw_update() -> Seq<char> {
    seq!['U', 'P', 'D', 'A', 'T', 'E']
}

pub open spec fn kw_delete() -> Seq<char> {
    seq!['D', 'E', 'L', 'E', 'T', 'E']
}

pub open spec fn kw_exec() -> Seq<char> {
    seq!['E', 'X', 'E', 'C']
}

/// The composite string opens with the statement itself when the first part
/// begins with a SQL keyword (case-sensitive).
pub open spec fn rpc_keyword_lead(s: Seq<char>) -> bool {
    crate::text::starts_with(s, kw_select()) || crate::text::starts_with(s, kw_insert())
        || crate::text::starts_with(s, kw_update()) || crate::text::starts_with(s, kw_delete())
        || crate::text::starts_with(s, kw_exec())
}

/// `parts[0] sep parts[1] sep ...`; empty for no parts.
pub open spec fn join_rest(parts: Seq<Seq<char>>, sep: Seq<char>) -> Seq<char>
    decreases parts.len(),
{
    if parts.len() == 0 {
        Seq::empty()
    } else {
        sep + parts[0] + join_rest(parts.drop_first(), sep)
    }
}

pub open spec fn join_parts(parts: Seq<Seq<char>>, sep: Seq<char>) -> Seq<char> {
    if parts.len() == 0 {
        Seq::empty()
    } else {
        parts[0] + join_rest(parts.drop_first(), sep)
    }
}

/// The decimal notation of the little-endian 32-bit two's-complement value
/// in four bytes.
pub open spec fn i32_dec_from_le(b0: u8, b1: u8, b2: u8, b3: u8) -> Seq<char> {
    let u = le32(b0, b1, b2, b3) as int;
    if u >= 0x80000000 {
        seq!['-'] + crate::text::dec_rep((0x100000000 - u) as nat)
    } else {
        crate::text::dec_rep(u as nat)
    }
}

fn fmt_i32_le(b0: u8, b1: u8, b2: u8, b3: u8) -> (r: Vec<char>)
    ensures
        r@ == i32_dec_from_le(b0, b1, b2, b3),
{
    let u: u64 = (b3 as u64) * 0x1000000 + (b2 as u64) * 0x10000 + (b1 as u64) * 0x100 + (
    b0 as u64);
    if u >= 0x80000000 {
        let mag = 0x100000000u64 - u;
        crate::text::fmt_i64(-(mag as i64))
    } else {
        crate::text::fmt_u64(u)
    }
}

/// Bytes read as Latin-1-like text: each byte becomes the character with
/// that code point. The fallback for a VARCHAR value that is not valid
/// UTF-8.
pub open spec fn latin1_chars(bytes: Seq<u8>) -> Seq<char> {
    Seq::new(bytes.len(), |i: int| bytes[i] as char)
}

/// One parameter value, parsed at `pos` (just past the type byte). `None`
/// means a bounds check failed and the parameter loop stops with the parts
/// collected so far; otherwise the position after the value and the updated
/// parts come back. A `DataLen` of 0xFFFF encodes SQL NULL and contributes
/// nothing.
pub open spec fn rpc_param_value(
    data: Seq<u8>,
    acc: Seq<Seq<char>>,
    name: Seq<char>,
    tid: u8,
    pos: int,
) -> Option<(int, Seq<Seq<char>>)> {
    if tid == 0xE7 || tid == 0xA7 {
        // NVARCHAR / VARCHAR: MaxLen (2 bytes) and collation (5 bytes) first
        if pos + 7 > data.len() {
            None
        } else {
            let p = pos + 7;
            if p + 2 > data.len() {
                None
            } else {
                let dl = le16(data[p], data[p + 1]) as int;
                let p2 = p + 2;
                if dl == 0xFFFF {
                    Some((p2, acc))
                } else if p2 + dl > data.len() {
                    None
                } else {
                    let bytes = data.subrange(p2, p2 + dl);
                    let p3 = p2 + dl;
                    if tid == 0xE7 {
                        if dl % 2 == 0 {
                            let t = trimmed(utf16le_chars(bytes));
                            if t.len() > 0 {
                                if name == at_stmt() || name == at_statement() {
                                    Some((p3, seq![t] + acc))
                                } else {
                                    Some((p3, acc.push(name + seq!['='] + t)))
                                }
                            } else {
                                Some((p3, acc))
                            }
                        } else {
                            Some((p3, acc))
                        }
                    } else {
                        // VARCHAR: best-effort UTF-8, else the raw bytes as
                        // Latin-1-like text
                        let dec = if vstd::utf8::valid_utf8(bytes) {
                            vstd::utf8::decode_utf8(bytes)
                        } else {
                            latin1_chars(bytes)
                        };
                        if trimmed(dec).len() > 0 {
                            Some((p3, acc.push(name + seq!['='] + dec)))
                        } else {
                            Some((p3, acc))
                        }
                    }
                }
            }
        }
    } else {
        // INT (0x26), FLOAT (0x6A) and unknown types carry DataLen directly.
        // A four-byte INT contributes its decimal value; a FLOAT's eight
        // data bytes hold a floating-point value whose text this crate
        // cannot render (no floating point here), so the parameter is
        // consumed without a part, like an unknown type.
        if pos + 2 > data.len() {
            None
        } else {
            let dl = le16(data[pos], data[pos + 1]) as int;
            let p2 = pos + 2;
            if dl == 0xFFFF {
                Some((p2, acc))
            } else if p2 + dl > data.len() {
                None
            } else {
                let p3 = p2 + dl;
                if tid == 0x26 && dl == 4 {
                    Some(
                        (
                            p3,
                            acc.push(
                                name + seq!['='] + i32_dec_from_le(
                                    data[p2],
                                    data[p2 + 1],
                                    data[p2 + 2],
                                    data[p2 + 3],
                                ),
                            ),
                        ),
                    )
                } else {
                    Some((p3, acc))
                }
            }
        }
    }
}

/// The parameter loop of an RPC request: starting at `pos`, read parameters
/// until the packet length is consumed or a bounds check stops the loop. An
/// `@stmt`/`@statement` NVARCHAR value goes to the front of the parts list;
/// every other decoded value is appended as `name=value`.
pub open spec fn rpc_params(
    data: Seq<u8>,
    pos: int,
    limit: int,
    acc: Seq<Seq<char>>,
) -> Seq<Seq<char>>
    decreases (if limit - pos > 0 {
        limit - pos
    } else {
        0
    }),
{
    if pos >= limit || pos >= data.len() || pos < 0 {
        acc
    } else {
        let nl = data[pos] as int;
        let p1 = pos + 1;
        if p1 + nl * 2 > data.len() {
            acc
        } else {
            let name = utf16le_chars(data.subrange(p1, p1 + nl * 2));
            let p2 = p1 + nl * 2;
            if p2 >= data.len() {
                acc
            } else {
                let p3 = p2 + 1;
                if p3 >= data.len() {
                    acc
                } else {
                    let tid = data[p3];
                    let p4 = p3 + 1;
                    match rpc_param_value(data, acc, name, tid, p4) {
                        None => acc,
                        Some((p5, acc2)) => {
                            if p5 > pos {
                                rpc_params(data, p5, limit, acc2)
                            } else {
                                // a parameter always advances the cursor;
                                // this branch is unreachable
                                acc2
                            }
                        },
                    }
                }
            }
        }
    }
}

/// Where the RPC body continues behind the ALL_HEADERS prefix.
pub open spec fn spec_all_headers_skip(data: Seq<u8>) -> int {
    if data.len() >= 12 {
        let total = le32(data[8], data[9], data[10], data[11]) as int;
        if total > 0 && total <= 65535 && 8 + total <= data.len() {
            8 + total
        } else {
            8
        }
    } else {
        8
    }
}

/// The parts list of an RPC request, or `None` when the fixed prelude
/// (header, procedure identifier, option flags) cannot be read.
pub open spec fn spec_rpc_parts(data: Seq<u8>) -> Option<Seq<Seq<char>>> {
    if data.len() < 8 {
        None
    } else {
        let plen = be16(data[2], data[3]) as int;
        if data.len() < plen {
            None
        } else {
            let p0 = spec_all_headers_skip(data);
            if p0 + 2 > data.len() {
                None
            } else if le16(data[p0], data[p0 + 1]) == 0xFFFF {
                if p0 + 4 > data.len() {
                    None
                } else {
                    spec_rpc_after_proc(data, plen, p0 + 4)
                }
            } else {
                let nl = data[p0] as int;
                if p0 + 1 + nl * 2 > data.len() {
                    None
                } else {
                    spec_rpc_after_proc(data, plen, p0 + 1 + nl * 2)
                }
            }
        }
    }
}

pub open spec fn spec_rpc_after_proc(data: Seq<u8>, plen: int, pos: int) -> Option<
    Seq<Seq<char>>,
> {
    if pos + 2 > data.len() {
        None
    } else {
        Some(rpc_params(data, pos + 2, plen, Seq::empty()))
    }
}

pub open spec fn sep_dashes() -> Seq<char> {
    seq![' ', '-', '-', ' ']
}

pub open spec fn sep_comma() -> Seq<char> {
    seq![',', ' ']
}

pub open spec fn sep_pipe() -> Seq<char> {
    seq![' ', '|', ' ']
}

/// The composite SQL string of an RPC request: the statement followed by
/// `name=value` parameters when the first part opens with a SQL keyword,
/// otherwise all parts joined with a pipe. No parts, no result.
pub open spec fn spec_compose_sql(parts: Seq<Seq<char>>) -> Option<Seq<char>> {
    if parts.len() == 0 {
        None
    } else if rpc_keyword_lead(parts[0]) {
        if parts.len() == 1 {
            Some(parts[0])
        } else {
            Some(parts[0] + sep_dashes() + join_parts(parts.drop_first(), sep_comma()))
        }
    } else {
        Some(join_parts(parts, sep_pipe()))
    }
}

/// What an RPC request decodes to.
pub open spec fn spec_parse_rpc(data: Seq<u8>) -> Option<Seq<char>> {
    match spec_rpc_parts(data) {
        None => None,
        Some(parts) => spec_compose_sql(parts),
    }
}

/// The abstract contents of a list of parts.
pub open spec fn parts_views(v: Seq<Vec<char>>) -> Seq<Seq<char>> {
    Seq::new(v.len(), |i: int| v[i]@)
}

/// Read bytes as Latin-1-like text.
fn latin1_to_chars(bytes: &[u8]) -> (r: Vec<char>)
    ensures
        r@ == latin1_chars(bytes@),
{
    let n = bytes.len();
    let mut r: Vec<char> = Vec::new();
    let mut i: usize = 0;
    while i < n
        invariant
            n == bytes@.len(),
            i <= n,
            r@.len() == i,
            forall|k: int| 0 <= k < i ==> r@[k] == (#[trigger] bytes@[k]) as char,
        decreases n - i,
    {
        r.push(bytes[i] as char);
        i += 1;
    }
    proof {
        assert(r@ =~= latin1_chars(bytes@));
    }
    r
}

fn rpc_read_param_value(
    data: &[u8],
    parts: &mut Vec<Vec<char>>,
    name: &Vec<char>,
    tid: u8,
    pos: usize,
) -> (r: Option<usize>)
    requires
        pos <= data@.len(),
        pos <= 0x12000,
    ensures
        match r {
            Some(p2) => p2 <= data@.len() && pos < p2 && rpc_param_value(
                data@,
                parts_views(old(parts)@),
                name@,
                tid,
                pos as int,
            ) == Some((p2 as int, parts_views(final(parts)@))),
            None => final(parts)@ == old(parts)@ && rpc_param_value(
                data@,
                parts_views(old(parts)@),
                name@,
                tid,
                pos as int,
            ) is None,
        },
{
    let ghost acc = parts_views(parts@);
    if tid == 0xE7 || tid == 0xA7 {
        if pos + 7 > data.len() {
            return None;
        }
        let p = pos + 7;
        if p + 2 > data.len() {
            return None;
        }
        let dl = (data[p + 1] as usize) * 256 + (data[p] as usize);
        assert(dl as int == le16(data@[p as int], data@[p + 1]) as int);
        let p2 = p + 2;
        if dl == 0xFFFF {
            return Some(p2);
        }
        if p2 + dl > data.len() {
            return None;
        }
        let bytes = vstd::slice::slice_subrange(data, p2, p2 + dl);
        let p3 = p2 + dl;
        if tid == 0xE7 {
            if dl % 2 == 0 {
                let dec = utf16_decode(bytes);
                let chars = str_to_chars(dec.as_str());
                let t = trim_chars(&chars);
                if t.len() > 0 {
                    let stmt1 = vec!['@', 's', 't', 'm', 't'];
                    let stmt2 = vec!['@', 's', 't', 'a', 't', 'e', 'm', 'e', 'n', 't'];
                    proof {
                        assert(stmt1@ =~= at_stmt());
                        assert(stmt2@ =~= at_statement());
                    }
                    if crate::text::chars_eq(name, &stmt1) || crate::text::chars_eq(name, &stmt2) {
                        parts.insert(0, t);
                        proof {
                            assert(parts_views(parts@) =~= seq![
                                trimmed(utf16le_chars(bytes@)),
                            ] + acc);
                        }
                    } else {
                        let mut part = crate::text::copy_chars(name);
                        part.push('=');
                        crate::text::append_chars(&mut part, &t);
                        proof {
                            assert(part@ =~= name@ + seq!['='] + trimmed(utf16le_chars(bytes@)));
                        }
                        parts.push(part);
                        proof {
                            assert(parts_views(parts@) =~= acc.push(
                                name@ + seq!['='] + trimmed(utf16le_chars(bytes@)),
                            ));
                        }
                    }
                }
                Some(p3)
            } else {
                Some(p3)
            }
        } else {
            let chars = match utf8_to_string(bytes) {
                Some(s) => str_to_chars(s.as_str()),
                None => latin1_to_chars(bytes),
            };
            let ghost dec = if vstd::utf8::valid_utf8(bytes@) {
                vstd::utf8::decode_utf8(bytes@)
            } else {
                latin1_chars(bytes@)
            };
            proof {
                assert(chars@ == dec);
            }
            let t = trim_chars(&chars);
            if t.len() > 0 {
                let mut part = crate::text::copy_chars(name);
                part.push('=');
                crate::text::append_chars(&mut part, &chars);
                proof {
                    assert(part@ =~= name@ + seq!['='] + dec);
                }
                parts.push(part);
                proof {
                    assert(parts_views(parts@) =~= acc.push(name@ + seq!['='] + dec));
                }
            }
            Some(p3)
        }
    } else {
        if pos + 2 > data.len() {
            return None;
        }
        let dl = (data[pos + 1] as usize) * 256 + (data[pos] as usize);
        assert(dl as int == le16(data@[pos as int], data@[pos + 1]) as int);
        let p2 = pos + 2;
        if dl == 0xFFFF {
            return Some(p2);
        }
        if p2 + dl > data.len() {
            return None;
        }
        let p3 = p2 + dl;
        if tid == 0x26 && dl == 4 {
            let digits = fmt_i32_le(data[p2], data[p2 + 1], data[p2 + 2], data[p2 + 3]);
            let mut part = crate::text::copy_chars(name);
            part.push('=');
            crate::text::append_chars(&mut part, &digits);
            proof {
                assert(part@ =~= name@ + seq!['='] + i32_dec_from_le(
                    data@[p2 as int],
                    data@[p2 + 1],
                    data@[p2 + 2],
                    data@[p2 + 3],
                ));
            }
            parts.push(part);
            proof {
                assert(parts_views(parts@) =~= acc.push(
                    name@ + seq!['='] + i32_dec_from_le(
                        data@[p2 as int],
                        data@[p2 + 1],
                        data@[p2 + 2],
                        data@[p2 + 3],
                    ),
                ));
            }
        }
        Some(p3)
    }
}

/// Join the parts from index `from` on with the separator.
pub(crate) fn join_from(parts: &Vec<Vec<char>>, from: usize, sep: &Vec<char>) -> (r: Vec<char>)
    requires
        from <= parts@.len(),
    ensures
        r@ == join_parts(parts_views(parts@).skip(from as int), sep@),
{
    let ghost views = parts_views(parts@);
    let mut out: Vec<char> = Vec::new();
    if from >= parts.len() {
        proof {
            assert(views.skip(from as int).len() == 0);
        }
        return out;
    }
    crate::text::append_chars(&mut out, &parts[from]);
    proof {
        assert(out@ =~= views[from as int]);
        assert(views.skip(from as int)[0] == views[from as int]);
        assert(views.skip(from as int).drop_first() =~= views.skip(from + 1));
    }
    let ghost target = join_parts(views.skip(from as int), sep@);
    let mut i = from + 1;
    while i < parts.len()
        invariant
            from < i <= parts@.len(),
            views == parts_views(parts@),
            target == join_parts(views.skip(from as int), sep@),
            out@ + join_rest(views.skip(i as int), sep@) == target,
        decreases parts@.len() - i,
    {
        let ghost out_old = out@;
        crate::text::append_chars(&mut out, sep);
        crate::text::append_chars(&mut out, &parts[i]);
        proof {
            assert(views.skip(i as int)[0] == views[i as int]);
            assert(views.skip(i as int).drop_first() =~= views.skip(i + 1));
            assert(out@ == out_old + sep@ + views[i as int]);
            assert((out_old + sep@ + views[i as int]) + join_rest(views.skip(i + 1), sep@)
                =~= out_old + (sep@ + views[i as int] + join_rest(views.skip(i + 1), sep@)));
        }
        i += 1;
    }
    proof {
        assert(views.skip(parts@.len() as int) =~= Seq::<Seq<char>>::empty());
        assert(out@ + Seq::<char>::empty() =~= out@);
    }
    out
}

/// Build the composite SQL string from the collected parts.
fn compose_sql(parts: &Vec<Vec<char>>) -> (r: Option<Vec<char>>)
    ensures
        match r {
            Some(s) => spec_compose_sql(parts_views(parts@)) == Some(s@),
            None => spec_compose_sql(parts_views(parts@)) is None,
        },
{
    let ghost views = parts_views(parts@);
    if parts.len() == 0 {
        return None;
    }
    let kw1 = vec!['S', 'E', 'L', 'E', 'C', 'T'];
    let kw2 = vec!['I', 'N', 'S', 'E', 'R', 'T'];
    let kw3 = vec!['U', 'P', 'D', 'A', 'T', 'E'];
    let kw4 = vec!['D', 'E', 'L', 'E', 'T', 'E'];
    let kw5 = vec!['E', 'X', 'E', 'C'];
    proof {
        assert(kw1@ =~= kw_select());
        assert(kw2@ =~= kw_insert());
        assert(kw3@ =~= kw_update());
        assert(kw4@ =~= kw_delete());
        assert(kw5@ =~= kw_exec());
        assert(views[0] == parts@[0]@);
    }
    let lead = crate::text::check_starts_with(&parts[0], &kw1) || crate::text::check_starts_with(
        &parts[0],
        &kw2,
    ) || crate::text::check_starts_with(&parts[0], &kw3) || crate::text::check_starts_with(
        &parts[0],
        &kw4,
    ) || crate::text::check_starts_with(&parts[0], &kw5);
    if lead {
        if parts.len() == 1 {
            return Some(crate::text::copy_chars(&parts[0]));
        }
        let mut out = crate::text::copy_chars(&parts[0]);
        let sepd = vec![' ', '-', '-', ' '];
        crate::text::append_chars(&mut out, &sepd);
        let sep = vec![',', ' '];
        let joined = join_from(parts, 1, &sep);
        crate::text::append_chars(&mut out, &joined);
        proof {
            assert(views.skip(1) =~= views.drop_first());
            assert(out@ =~= views[0] + sep_dashes() + join_parts(views.drop_first(), sep_comma()));
        }
        Some(out)
    } else {
        let sep = vec![' ', '|', ' '];
        let joined = join_from(parts, 0, &sep);
        proof {
            assert(views.skip(0) =~= views);
        }
        Some(joined)
    }
}

impl TdsParser {
    /// Decode an RPC request body into the composite SQL string.
    fn parse_rpc_packet(data: &[u8]) -> (r: Option<Vec<char>>)
        ensures
            match r {
                Some(s) => spec_parse_rpc(data@) == Some(s@),
                None => spec_parse_rpc(data@) is None,
            },
    {
        if data.len() < 8 {
            return None;
        }
        let plen = (data[2] as usize) * 256 + (data[3] as usize);
        assert(plen as int == be16(data@[2], data@[3]) as int);
        if data.len() < plen {
            return None;
        }
        let mut pos: usize = 8;
        if data.len() >= 12 {
            let total = (data[11] as usize) * 0x1000000 + (data[10] as usize) * 0x10000 + (
            data[9] as usize) * 0x100 + (data[8] as usize);
            if total > 0 && total <= 65535 && 8 + total <= data.len() {
                pos = 8 + total;
            }
        }
        proof {
            assert(pos as int == spec_all_headers_skip(data@));
        }
        if pos + 2 > data.len() {
            return None;
        }
        let marker = (data[pos + 1] as u32) * 256 + (data[pos] as u32);
        assert(marker as int == le16(data@[pos as int], data@[pos + 1]) as int);
        let after_proc: usize;
        if marker == 0xFFFF {
            if pos + 4 > data.len() {
                return None;
            }
            after_proc = pos + 4;
        } else {
            let nl = data[pos] as usize;
            if pos + 1 + nl * 2 > data.len() {
                return None;
            }
            after_proc = pos + 1 + nl * 2;
        }
        if after_proc + 2 > data.len() {
            return None;
        }
        let start = after_proc + 2;
        let ghost start_g = start as int;
        let mut parts: Vec<Vec<char>> = Vec::new();
        proof {
            assert(parts_views(parts@) =~= Seq::<Seq<char>>::empty());
        }
        let mut p: usize = start;
        let mut done = false;
        while p < plen && !done
            invariant
                data@.len() >= plen,
                plen <= 65535,
                plen as int == be16(data@[2], data@[3]) as int,
                p <= data@.len(),
                p <= 0x30000,
                !done ==> rpc_params(data@, start_g, plen as int, Seq::empty()) == rpc_params(
                    data@,
                    p as int,
                    plen as int,
                    parts_views(parts@),
                ),
                done ==> rpc_params(data@, start_g, plen as int, Seq::empty()) == parts_views(
                    parts@,
                ),
            decreases
                    (if plen > p {
                        plen - p
                    } else {
                        0int
                    }),
                    (if done {
                        0int
                    } else {
                        1int
                    }),
        {
            let ghost acc_in = parts_views(parts@);
            let ghost p_in = p as int;
            let nl = data[p] as usize;
            if p + 1 + nl * 2 > data.len() {
                proof {
                    assert(rpc_params(data@, p_in, plen as int, acc_in) == acc_in);
                }
                done = true;
            } else {
                let name_bytes = vstd::slice::slice_subrange(data, p + 1, p + 1 + nl * 2);
                let name_str = utf16_decode(name_bytes);
                let name = str_to_chars(name_str.as_str());
                let p2 = p + 1 + nl * 2;
                if p2 >= data.len() {
                    proof {
                        assert(rpc_params(data@, p_in, plen as int, acc_in) == acc_in);
                    }
                    done = true;
                } else {
                    let p3 = p2 + 1;
                    if p3 >= data.len() {
                        proof {
                            assert(rpc_params(data@, p_in, plen as int, acc_in) == acc_in);
                        }
                        done = true;
                    } else {
                        let tid = data[p3];
                        let p4 = p3 + 1;
                        match rpc_read_param_value(data, &mut parts, &name, tid, p4) {
                            Some(p5) => {
                                proof {
                                    assert(rpc_params(data@, p_in, plen as int, acc_in)
                                        == rpc_params(
                                        data@,
                                        p5 as int,
                                        plen as int,
                                        parts_views(parts@),
                                    ));
                                }
                                p = p5;
                            },
                            None => {
                                proof {
                                    assert(rpc_params(data@, p_in, plen as int, acc_in) == acc_in);
                                }
                                done = true;
                            },
                        }
                    }
                }
            }
        }
        proof {
            if !done {
                assert(rpc_params(data@, p as int, plen as int, parts_views(parts@))
                    == parts_views(parts@));
            }
            assert(spec_rpc_parts(data@) == Some(parts_views(parts@)));
        }
        compose_sql(&parts)
    }
}

/// What a single framed packet decodes to: the UTF-16LE body of a SQLBatch,
/// the composite parameter string of an RPC request, nothing otherwise. The
/// validity filter applies to both paths.
pub open spec fn spec_decode_tds_packet(data: Seq<u8>) -> Option<Seq<char>> {
    if !spec_looks_like_tds(data) {
        None
    } else if spec_header(data).packet_type == TdsPacketType::RpcRequest {
        match spec_parse_rpc(data) {
            None => None,
            Some(t) => spec_filter_sql_text(t),
        }
    } else {
        match spec_extract_payload(data) {
            Some(p) => spec_decode_utf16le(p),
            None => None,
        }
    }
}

impl TdsParser {
    /// Decode one framed TDS packet into SQL text.
    pub fn decode_tds_packet(data: &[u8]) -> (r: Option<String>)
        ensures
            match r {
                Some(s) => spec_decode_tds_packet(data@) == Some(s@),
                None => spec_decode_tds_packet(data@) is None,
            },
    {
        if !Self::looks_like_tds(data) {
            return None;
        }
        let header = match Self::parse_header(data) {
            Some(h) => h,
            None => {
                proof {
                    assert(false);
                }
                return None;
            },
        };
        if matches!(header.packet_type, TdsPacketType::RpcRequest) {
            match Self::parse_rpc_packet(data) {
                Some(v) => match filter_sql_text(v) {
                    Some(t) => Some(crate::text::chars_to_string(&t)),
                    None => None,
                },
                None => None,
            }
        } else {
            match Self::extract_payload(data) {
                Some(p) => Self::decode_utf16le(p),
                None => None,
            }
        }
    }
}

/// The messages the framer carves out of a reassembled buffer. A byte that
/// cannot begin a SQLBatch/RPC message (wrong first byte, undecodable
/// header, or a length below the 8-byte minimum) is skipped one at a time
/// (resynchronization); an incomplete message stops framing until more
/// bytes arrive.
pub open spec fn frame_messages(buf: Seq<u8>) -> Seq<Seq<u8>>
    decreases buf.len(),
{
    if buf.len() < 8 {
        Seq::empty()
    } else if !(buf[0] == 0x01 || buf[0] == 0x03) {
        frame_messages(buf.drop_first())
    } else if !valid_status_byte(buf[1]) {
        frame_messages(buf.drop_first())
    } else {
        let plen = be16(buf[2], buf[3]) as int;
        if plen < 8 {
            frame_messages(buf.drop_first())
        } else if buf.len() < plen {
            Seq::empty()
        } else {
            seq![buf.take(plen)] + frame_messages(buf.skip(plen))
        }
    }
}

/// How many single-byte advances the framer makes over a buffer.
pub open spec fn resync_advances(buf: Seq<u8>) -> nat
    decreases buf.len(),
{
    if buf.len() < 8 {
        0
    } else if !(buf[0] == 0x01 || buf[0] == 0x03) {
        1 + resync_advances(buf.drop_first())
    } else if !valid_status_byte(buf[1]) {
        1 + resync_advances(buf.drop_first())
    } else {
        let plen = be16(buf[2], buf[3]) as int;
        if plen < 8 {
            1 + resync_advances(buf.drop_first())
        } else if buf.len() < plen {
            0
        } else {
            resync_advances(buf.skip(plen))
        }
    }
}

/// The successfully decoded messages among the framed ones, each paired
/// with its raw bytes.
pub open spec fn decode_results(frames: Seq<Seq<u8>>) -> Seq<(Seq<char>, Seq<u8>)>
    decreases frames.len(),
{
    if frames.len() == 0 {
        Seq::empty()
    } else {
        match spec_decode_tds_packet(frames[0]) {
            Some(t) => seq![(t, frames[0])] + decode_results(frames.drop_first()),
            None => decode_results(frames.drop_first()),
        }
    }
}

/// A complete, well-formed SQLBatch or RPC message: decodable header of
/// type 0x01 or 0x03 whose length field equals the message length.
pub open spec fn wf_frame(m: Seq<u8>) -> bool {
    m.len() >= 8 && (m[0] == 0x01 || m[0] == 0x03) && valid_status_byte(m[1]) && be16(m[2], m[3])
        as int == m.len()
}

/// Length framing is exact: over a concatenation of well-formed
/// SQLBatch/RPC messages the framer carves exactly those messages, in
/// order, and attempts to decode each one.
pub proof fn lemma_framing_exact(msgs: Seq<Seq<u8>>)
    requires
        forall|i: int| 0 <= i < msgs.len() ==> wf_frame(#[trigger] msgs[i]),
    ensures
        frame_messages(msgs.flatten()) == msgs,
    decreases msgs.len(),
{
    if msgs.len() == 0 {
        assert(msgs.flatten() =~= Seq::<u8>::empty());
    } else {
        let m = msgs[0];
        let rest = msgs.drop_first();
        assert(wf_frame(m));
        assert(msgs.first() == m);
        let buf = msgs.flatten();
        assert(buf == m + rest.flatten());
        assert(buf.len() >= 8);
        assert(buf[0] == m[0]);
        assert(buf[1] == m[1]);
        assert(buf[2] == m[2]);
        assert(buf[3] == m[3]);
        let plen = be16(buf[2], buf[3]) as int;
        assert(plen == m.len());
        assert(buf.len() >= plen);
        assert(buf.take(plen) =~= m);
        assert(buf.skip(plen) =~= rest.flatten());
        assert(forall|i: int| 0 <= i < rest.len() ==> wf_frame(#[trigger] rest[i])) by {
            assert(forall|i: int| 0 <= i < rest.len() ==> rest[i] == #[trigger] msgs[i + 1]);
        }
        lemma_framing_exact(rest);
        assert(frame_messages(buf) == seq![m] + frame_messages(rest.flatten()));
        assert(seq![m] + rest =~= msgs);
    }
}

/// A well-formed stream needs no resynchronization at all.
pub proof fn lemma_framed_stream_no_advances(msgs: Seq<Seq<u8>>)
    requires
        forall|i: int| 0 <= i < msgs.len() ==> wf_frame(#[trigger] msgs[i]),
    ensures
        resync_advances(msgs.flatten()) == 0,
    decreases msgs.len(),
{
    if msgs.len() == 0 {
        assert(msgs.flatten() =~= Seq::<u8>::empty());
    } else {
        let m = msgs[0];
        let rest = msgs.drop_first();
        let buf = msgs.flatten();
        assert(buf == m + rest.flatten());
        assert(buf[0] == m[0]);
        assert(buf[1] == m[1]);
        assert(buf[2] == m[2]);
        assert(buf[3] == m[3]);
        let plen = be16(buf[2], buf[3]) as int;
        assert(plen == m.len());
        assert(buf.skip(plen) =~= rest.flatten());
        assert(forall|i: int| 0 <= i < rest.len() ==> wf_frame(#[trigger] rest[i])) by {
            assert(forall|i: int| 0 <= i < rest.len() ==> rest[i] == #[trigger] msgs[i + 1]);
        }
        lemma_framed_stream_no_advances(rest);
    }
}

/// Resynchronization is bounded by the noise: leading bytes that can never
/// start a SQLBatch/RPC message are skipped one by one and do not change
/// what is framed afterwards; the single-byte advances they cost never
/// exceed their number, with equality whenever at least 8 bytes follow.
pub proof fn lemma_resync_skips_noise(noise: Seq<u8>, rest: Seq<u8>)
    requires
        forall|i: int|
            0 <= i < noise.len() ==> #[trigger] noise[i] != 0x01 && noise[i] != 0x03,
    ensures
        frame_messages(noise + rest) == frame_messages(rest),
        resync_advances(noise + rest) <= noise.len() + resync_advances(rest),
        rest.len() >= 8 ==> resync_advances(noise + rest) == noise.len() + resync_advances(rest),
    decreases noise.len(),
{
    let buf = noise + rest;
    if noise.len() == 0 {
        assert(buf =~= rest);
    } else if buf.len() < 8 {
        assert(rest.len() < 8);
        assert(frame_messages(buf) == Seq::<Seq<u8>>::empty());
        assert(frame_messages(rest) == Seq::<Seq<u8>>::empty());
        assert(resync_advances(buf) == 0);
    } else {
        assert(buf[0] == noise[0]);
        assert(buf.drop_first() =~= noise.drop_first() + rest);
        lemma_resync_skips_noise(noise.drop_first(), rest);
    }
}

/// The pairs a framing run has produced so far, abstractly.
pub open spec fn result_pairs(texts: Seq<String>, raws: Seq<Vec<u8>>) -> Seq<
    (Seq<char>, Seq<u8>),
>
    recommends
        texts.len() == raws.len(),
{
    Seq::new(texts.len(), |i: int| (texts[i]@, raws[i]@))
}

impl TdsParser {
    /// Frame a reassembled buffer into TDS messages and decode each
    /// SQLBatch/RPC message that is completely present, returning the
    /// decoded texts together with the raw bytes of their messages.
    #[verifier::rlimit(60)]
    pub fn decode_tds_packets_with_raw(data: &[u8]) -> (r: (Vec<String>, Vec<Vec<u8>>))
        ensures
            result_pairs(r.0@, r.1@) == decode_results(frame_messages(data@)),
            r.0@.len() == r.1@.len(),
    {
        let mut texts: Vec<String> = Vec::new();
        let mut raws: Vec<Vec<u8>> = Vec::new();
        let mut off: usize = 0;
        let mut stop = false;
        let n = data.len();
        proof {
            assert(data@.skip(0) =~= data@);
            assert(result_pairs(texts@, raws@) =~= Seq::<(Seq<char>, Seq<u8>)>::empty());
            assert(Seq::<(Seq<char>, Seq<u8>)>::empty() + decode_results(frame_messages(data@))
                =~= decode_results(frame_messages(data@)));
        }
        while n - off >= 8 && !stop
            invariant
                n == data@.len(),
                off <= n,
                texts@.len() == raws@.len(),
                !stop ==> decode_results(frame_messages(data@)) == result_pairs(texts@, raws@)
                    + decode_results(frame_messages(data@.skip(off as int))),
                stop ==> decode_results(frame_messages(data@)) == result_pairs(texts@, raws@),
            decreases
                    n - off,
                    (if stop {
                        0int
                    } else {
                        1int
                    }),
        {
            let ghost rem = data@.skip(off as int);
            proof {
                assert(rem.len() == n - off);
                assert(rem[0] == data@[off as int]);
                assert(rem.drop_first() =~= data@.skip(off + 1));
            }
            let b0 = data[off];
            if b0 != 0x01 && b0 != 0x03 {
                proof {
                    assert(frame_messages(rem) == frame_messages(data@.skip(off + 1)));
                }
                off += 1;
            } else {
                let tail = vstd::slice::slice_subrange(data, off, n);
                if !tds_header_decode_ok(tail) {
                    proof {
                        assert(rem[1] == data@[off + 1]);
                        assert(!valid_status_byte(rem[1]));
                        assert(frame_messages(rem) == frame_messages(data@.skip(off + 1)));
                    }
                    off += 1;
                } else {
                    let plen = (data[off + 2] as usize) * 256 + (data[off + 3] as usize);
                    proof {
                        assert(rem[2] == data@[off + 2]);
                        assert(rem[3] == data@[off + 3]);
                        assert(plen as int == be16(rem[2], rem[3]) as int);
                    }
                    if plen < 8 {
                        proof {
                            assert(frame_messages(rem) == frame_messages(data@.skip(off + 1)));
                        }
                        off += 1;
                    } else if n - off < plen {
                        proof {
                            assert(frame_messages(rem) == Seq::<Seq<u8>>::empty());
                            assert(result_pairs(texts@, raws@) + Seq::<
                                (Seq<char>, Seq<u8>),
                            >::empty() =~= result_pairs(texts@, raws@));
                        }
                        stop = true;
                    } else {
                        let packet = vstd::slice::slice_subrange(data, off, off + plen);
                        proof {
                            assert(packet@ =~= rem.take(plen as int));
                            assert(rem.skip(plen as int) =~= data@.skip(off + plen));
                            assert(frame_messages(rem) == seq![packet@] + frame_messages(
                                data@.skip(off + plen),
                            ));
                            assert((seq![packet@] + frame_messages(data@.skip(off + plen)))[0]
                                == packet@);
                            assert((seq![packet@] + frame_messages(data@.skip(off + plen)))
                                .drop_first() =~= frame_messages(data@.skip(off + plen)));
                        }
                        let ghost pairs_in = result_pairs(texts@, raws@);
                        match Self::decode_tds_packet(packet) {
                            Some(s) => {
                                let raw = vstd::slice::slice_to_vec(packet);
                                texts.push(s);
                                raws.push(raw);
                                proof {
                                    assert(result_pairs(texts@, raws@) =~= pairs_in.push(
                                        (s@, packet@),
                                    ));
                                    assert(pairs_in + (seq![(s@, packet@)] + decode_results(
                                        frame_messages(data@.skip(off + plen)),
                                    )) =~= pairs_in.push((s@, packet@)) + decode_results(
                                        frame_messages(data@.skip(off + plen)),
                                    ));
                                }
                            },
                            None => {
                            },
                        }
                        off += plen;
                    }
                }
            }
        }
        proof {
            if !stop {
                assert(data@.skip(off as int).len() < 8);
                assert(frame_messages(data@.skip(off as int)) == Seq::<Seq<u8>>::empty());
                assert(result_pairs(texts@, raws@) + Seq::<(Seq<char>, Seq<u8>)>::empty()
                    =~= result_pairs(texts@, raws@));
            }
        }
        (texts, raws)
    }

    /// Frame a reassembled buffer and decode the messages, texts only.
    pub fn decode_tds_packets(data: &[u8]) -> (r: Vec<String>)
        ensures
            r@.len() == decode_results(frame_messages(data@)).len(),
            forall|i: int|
                0 <= i < r@.len() ==> (#[trigger] r@[i])@ == decode_results(
                    frame_messages(data@),
                )[i].0,
    {
        let pair = Self::decode_tds_packets_with_raw(data);
        proof {
            assert(forall|i: int|
                0 <= i < pair.0@.len() ==> (#[trigger] pair.0@[i])@ == result_pairs(
                    pair.0@,
                    pair.1@,
                )[i].0);
        }
        pair.0
    }
}

} // verus!
