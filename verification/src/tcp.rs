//! TCP flow identity and per-flow stream reassembly.
//!
//! A flow is a TCP conversation identified by a canonicalized 4-tuple, so
//! that both directions of the conversation map to the same key. The
//! reassembler keeps the segments of each direction verbatim and produces a
//! best-effort contiguous byte stream on demand.

use vstd::prelude::*;

verus! {

/// Canonicalized identity of a TCP conversation. IPv4 addresses are held in
/// their numeric (big-endian interpreted) form. The invariant is that
/// `(src_ip, src_port)` is lexicographically at most `(dst_ip, dst_port)`,
/// so the two directions of one conversation build the same `FlowId`.
#[derive(Clone, Copy, PartialEq, Eq, Structural, Debug, Hash)]
pub struct FlowId {
    pub src_ip: u32,
    pub src_port: u16,
    pub dst_ip: u32,
    pub dst_port: u16,
}

/// Lexicographic order on endpoints: address first, port second.
pub open spec fn endpoint_le(ip1: u32, port1: u16, ip2: u32, port2: u16) -> bool {
    ip1 < ip2 || (ip1 == ip2 && port1 <= port2)
}

/// The canonical flow identity of a packet seen travelling from
/// `(src_ip, src_port)` to `(dst_ip, dst_port)`.
pub open spec fn spec_flow_id(src_ip: u32, src_port: u16, dst_ip: u32, dst_port: u16) -> FlowId {
    if endpoint_le(src_ip, src_port, dst_ip, dst_port) {
        FlowId { src_ip, src_port, dst_ip, dst_port }
    } else {
        FlowId { src_ip: dst_ip, src_port: dst_port, dst_ip: src_ip, dst_port: src_port }
    }
}

impl FlowId {
    /// Canonical form of the 4-tuple: the lexicographically smaller endpoint
    /// is stored first, so both directions of a conversation are equal keys.
    pub fn new(src_ip: u32, src_port: u16, dst_ip: u32, dst_port: u16) -> (r: FlowId)
        ensures
            r == spec_flow_id(src_ip, src_port, dst_ip, dst_port),
    {
        if src_ip < dst_ip || (src_ip == dst_ip && src_port <= dst_port) {
            FlowId { src_ip, src_port, dst_ip, dst_port }
        } else {
            FlowId { src_ip: dst_ip, src_port: dst_port, dst_ip: src_ip, dst_port: src_port }
        }
    }

    /// Whether a packet sent from this endpoint travels in the
    /// client-to-server direction of the flow.
    pub open spec fn spec_is_client_to_server(self, ip: u32, port: u16) -> bool {
        ip == self.src_ip && port == self.src_port
    }

    /// A packet travels client-to-server exactly when its source endpoint is
    /// the canonical first endpoint of the flow.
    pub fn is_client_to_server(&self, src_ip: u32, src_port: u16) -> (r: bool)
        ensures
            r == self.spec_is_client_to_server(src_ip, src_port),
    {
        src_ip == self.src_ip && src_port == self.src_port
    }
}

/// Building a flow identity is independent of the direction in which the
/// first packet was seen.
pub proof fn lemma_flow_id_canonical(a_ip: u32, a_port: u16, b_ip: u32, b_port: u16)
    ensures
        spec_flow_id(a_ip, a_port, b_ip, b_port) == spec_flow_id(b_ip, b_port, a_ip, a_port),
{
}

/// When the two endpoints of a packet differ, exactly one of them is
/// classified as the client side of the flow the packet belongs to.
pub proof fn lemma_direction_exclusive(src_ip: u32, src_port: u16, dst_ip: u32, dst_port: u16)
    requires
        !(src_ip == dst_ip && src_port == dst_port),
    ensures
        spec_flow_id(src_ip, src_port, dst_ip, dst_port).spec_is_client_to_server(src_ip, src_port)
            != spec_flow_id(src_ip, src_port, dst_ip, dst_port).spec_is_client_to_server(
            dst_ip,
            dst_port,
        ),
{
}

/// One captured TCP segment, stored verbatim: sequence number, payload and
/// the capture timestamp (seconds and microseconds since the Unix epoch).
pub struct TcpSegment {
    pub seq: u32,
    pub data: Vec<u8>,
    pub ts_sec: u64,
    pub ts_usec: u32,
}

impl View for TcpSegment {
    type V = (u32, Seq<u8>);

    open spec fn view(&self) -> (u32, Seq<u8>) {
        (self.seq, self.data@)
    }
}

/// The abstract contents of a list of segments: sequence number and payload
/// of each, in insertion order.
pub open spec fn seg_views(v: Seq<TcpSegment>) -> Seq<(u32, Seq<u8>)> {
    Seq::new(v.len(), |k: int| v[k]@)
}

/// Number of leading elements of `w` whose sequence number is at most that
/// of `x`: the position at which a stable insertion sort places `x`.
pub open spec fn insert_pos(w: Seq<(u32, Seq<u8>)>, x: (u32, Seq<u8>)) -> int
    decreases w.len(),
{
    if w.len() == 0 {
        0
    } else if w[0].0 <= x.0 {
        1 + insert_pos(w.drop_first(), x)
    } else {
        0
    }
}

/// Stable insertion of `x` into `w`: `x` goes after every element with an
/// equal or smaller sequence number.
pub open spec fn insert_by_seq(
    w: Seq<(u32, Seq<u8>)>,
    x: (u32, Seq<u8>),
) -> Seq<(u32, Seq<u8>)>
    decreases w.len(),
{
    if w.len() == 0 {
        seq![x]
    } else if w[0].0 <= x.0 {
        seq![w[0]] + insert_by_seq(w.drop_first(), x)
    } else {
        seq![x] + w
    }
}

/// Stable sort by sequence number, as an insertion sort over the list.
pub open spec fn sort_by_seq(v: Seq<(u32, Seq<u8>)>) -> Seq<(u32, Seq<u8>)>
    decreases v.len(),
{
    if v.len() == 0 {
        Seq::empty()
    } else {
        insert_by_seq(sort_by_seq(v.drop_last()), v.last())
    }
}

/// The bytes assembled from a sorted segment list, starting with the stream
/// position `expected`. A segment behind the current position contributes
/// only its fresh tail; a duplicate contributes nothing; the first gap stops
/// assembly. Positions are unbounded integers, so a flow whose sequence
/// numbers wrap around 2^32 is read as having a gap (an accepted limitation
/// of a passive observer).
pub open spec fn assemble(segs: Seq<(u32, Seq<u8>)>, expected: int) -> Seq<u8>
    decreases segs.len(),
{
    if segs.len() == 0 {
        Seq::empty()
    } else {
        let q = segs[0].0 as int;
        let d = segs[0].1;
        if q < expected {
            if expected - q < d.len() {
                d.skip(expected - q) + assemble(segs.drop_first(), q + d.len())
            } else {
                assemble(segs.drop_first(), expected)
            }
        } else if q == expected {
            d + assemble(segs.drop_first(), expected + d.len())
        } else {
            Seq::empty()
        }
    }
}

/// The reassembled byte stream of a list of segments: sort stably by
/// sequence number, then assemble from the smallest sequence number seen.
pub open spec fn reassembled(v: Seq<(u32, Seq<u8>)>) -> Seq<u8> {
    if v.len() == 0 {
        Seq::empty()
    } else {
        let s = sort_by_seq(v);
        assemble(s, s[0].0 as int)
    }
}

proof fn lemma_insert_pos_char(w: Seq<(u32, Seq<u8>)>, x: (u32, Seq<u8>), j: int)
    requires
        0 <= j <= w.len(),
        forall|k: int| 0 <= k < j ==> (#[trigger] w[k]).0 <= x.0,
        j < w.len() ==> w[j].0 > x.0,
    ensures
        insert_pos(w, x) == j,
    decreases w.len(),
{
    if w.len() == 0 {
    } else if w[0].0 <= x.0 {
        assert(j >= 1);
        lemma_insert_pos_char(w.drop_first(), x, j - 1);
    } else {
        assert(j == 0) by {
            if j >= 1 {
                assert(w[0].0 <= x.0);
            }
        }
    }
}

proof fn lemma_insert_shape(w: Seq<(u32, Seq<u8>)>, x: (u32, Seq<u8>))
    ensures
        0 <= insert_pos(w, x) <= w.len(),
        insert_by_seq(w, x) == w.take(insert_pos(w, x)) + seq![x] + w.skip(insert_pos(w, x)),
    decreases w.len(),
{
    if w.len() == 0 {
        assert(insert_by_seq(w, x) =~= w.take(0) + seq![x] + w.skip(0));
    } else if w[0].0 <= x.0 {
        lemma_insert_shape(w.drop_first(), x);
        let p = insert_pos(w.drop_first(), x);
        assert(insert_by_seq(w, x) =~= w.take(1 + p) + seq![x] + w.skip(1 + p));
    } else {
        assert(insert_by_seq(w, x) =~= w.take(0) + seq![x] + w.skip(0));
    }
}

proof fn lemma_sort_push(v: Seq<(u32, Seq<u8>)>, x: (u32, Seq<u8>))
    ensures
        sort_by_seq(v.push(x)) == insert_by_seq(sort_by_seq(v), x),
{
    assert(v.push(x).drop_last() =~= v);
    assert(v.push(x).last() == x);
}

/// The list is ordered by sequence number.
pub open spec fn sorted_by_key(w: Seq<(u32, Seq<u8>)>) -> bool {
    forall|i: int, j: int| 0 <= i < j < w.len() ==> (#[trigger] w[i]).0 <= (#[trigger] w[j]).0
}

proof fn lemma_insert_pos_props(w: Seq<(u32, Seq<u8>)>, x: (u32, Seq<u8>))
    ensures
        0 <= insert_pos(w, x) <= w.len(),
        forall|i: int| 0 <= i < insert_pos(w, x) ==> (#[trigger] w[i]).0 <= x.0,
        insert_pos(w, x) < w.len() ==> w[insert_pos(w, x)].0 > x.0,
    decreases w.len(),
{
    if w.len() == 0 {
    } else if w[0].0 <= x.0 {
        lemma_insert_pos_props(w.drop_first(), x);
        let p = insert_pos(w, x);
        assert forall|i: int| 0 <= i < p implies (#[trigger] w[i]).0 <= x.0 by {
            if i >= 1 {
                assert(w.drop_first()[i - 1].0 <= x.0);
            }
        }
        if p < w.len() {
            assert(w.drop_first()[p - 1].0 > x.0);
        }
    } else {
    }
}

proof fn lemma_sort_len(v: Seq<(u32, Seq<u8>)>)
    ensures
        sort_by_seq(v).len() == v.len(),
    decreases v.len(),
{
    if v.len() > 0 {
        lemma_sort_len(v.drop_last());
        lemma_insert_shape(sort_by_seq(v.drop_last()), v.last());
    }
}

proof fn lemma_insert_sorted(w: Seq<(u32, Seq<u8>)>, x: (u32, Seq<u8>))
    requires
        sorted_by_key(w),
    ensures
        sorted_by_key(insert_by_seq(w, x)),
{
    lemma_insert_shape(w, x);
    lemma_insert_pos_props(w, x);
    let p = insert_pos(w, x);
    let r = insert_by_seq(w, x);
    assert forall|i: int, j: int|
        0 <= i < j < r.len() implies (#[trigger] r[i]).0 <= (#[trigger] r[j]).0 by {
        let ri = if i < p {
            w[i]
        } else if i == p {
            x
        } else {
            w[i - 1]
        };
        assert(r[i] == ri);
        let rj = if j < p {
            w[j]
        } else if j == p {
            x
        } else {
            w[j - 1]
        };
        assert(r[j] == rj);
        if i < p && j > p {
            assert(w[i].0 <= x.0);
            assert(w[p].0 > x.0);
            assert(w[p].0 <= w[j - 1].0 || p == j - 1);
        } else if i == p && j > p {
            assert(w[p].0 > x.0);
            assert(w[p].0 <= w[j - 1].0 || p == j - 1);
        }
    }
}

proof fn lemma_insert_contains(w: Seq<(u32, Seq<u8>)>, x: (u32, Seq<u8>), y: (u32, Seq<u8>))
    ensures
        insert_by_seq(w, x).contains(y) <==> (w.contains(y) || y == x),
{
    lemma_insert_shape(w, x);
    lemma_insert_pos_props(w, x);
    let p = insert_pos(w, x);
    let r = insert_by_seq(w, x);
    if w.contains(y) {
        let k = choose|k: int| 0 <= k < w.len() && w[k] == y;
        if k < p {
            assert(r[k] == y);
        } else {
            assert(r[k + 1] == y);
        }
        assert(r.contains(y));
    }
    assert(r[p] == x);
    assert(r.contains(x));
    if r.contains(y) {
        let k = choose|k: int| 0 <= k < r.len() && r[k] == y;
        if k < p {
            assert(w[k] == y);
            assert(w.contains(y));
        } else if k == p {
            assert(y == x);
        } else {
            assert(w[k - 1] == y);
            assert(w.contains(y));
        }
    }
}

proof fn lemma_sort_sorted_contains(v: Seq<(u32, Seq<u8>)>, y: (u32, Seq<u8>))
    ensures
        sorted_by_key(sort_by_seq(v)),
        sort_by_seq(v).contains(y) <==> v.contains(y),
    decreases v.len(),
{
    if v.len() == 0 {
        assert(!sort_by_seq(v).contains(y));
        assert(!v.contains(y));
    } else {
        let init = v.drop_last();
        lemma_sort_sorted_contains(init, y);
        lemma_insert_sorted(sort_by_seq(init), v.last());
        lemma_insert_contains(sort_by_seq(init), v.last(), y);
        if init.contains(y) {
            let k = choose|k: int| 0 <= k < init.len() && init[k] == y;
            assert(v[k] == y);
            assert(v.contains(y));
        }
        if v.last() == y {
            assert(v[v.len() - 1] == y);
            assert(v.contains(y));
        }
        if v.contains(y) {
            let k = choose|k: int| 0 <= k < v.len() && v[k] == y;
            if k < v.len() - 1 {
                assert(init[k] == y);
                assert(init.contains(y));
            } else {
                assert(v.last() == y);
            }
        }
    }
}

/// A segment whose stream bytes are already fully behind the current
/// position contributes nothing, wherever it stands in the rest of the
/// list.
proof fn lemma_covered_skip(
    l1: Seq<(u32, Seq<u8>)>,
    l2: Seq<(u32, Seq<u8>)>,
    s: (u32, Seq<u8>),
    e: int,
)
    requires
        e >= s.0 + s.1.len(),
    ensures
        assemble(l1 + seq![s] + l2, e) == assemble(l1 + l2, e),
    decreases l1.len(),
{
    let lhs = l1 + seq![s] + l2;
    let rhs = l1 + l2;
    if l1.len() == 0 {
        assert(lhs.len() > 0);
        assert(lhs[0] == s);
        assert(lhs.drop_first() =~= l2);
        assert(rhs =~= l2);
        let q = s.0 as int;
        let d = s.1;
        if q == e {
            assert(d.len() == 0);
            assert(assemble(lhs, e) == d + assemble(l2, e));
            assert(d + assemble(l2, e) =~= assemble(l2, e));
        } else {
            assert(q < e);
            assert(e - q >= d.len());
            assert(assemble(lhs, e) == assemble(l2, e));
        }
    } else {
        assert(lhs.len() > 0);
        assert(rhs.len() > 0);
        assert(lhs[0] == l1[0]);
        assert(rhs[0] == l1[0]);
        assert(lhs.drop_first() =~= l1.drop_first() + seq![s] + l2);
        assert(rhs.drop_first() =~= l1.drop_first() + l2);
        let q = l1[0].0 as int;
        let d = l1[0].1;
        if q < e {
            if e - q < d.len() {
                lemma_covered_skip(l1.drop_first(), l2, s, q + d.len());
                assert(assemble(lhs, e) == d.skip(e - q) + assemble(lhs.drop_first(), q + d.len()));
                assert(assemble(rhs, e) == d.skip(e - q) + assemble(rhs.drop_first(), q + d.len()));
            } else {
                lemma_covered_skip(l1.drop_first(), l2, s, e);
                assert(assemble(lhs, e) == assemble(lhs.drop_first(), e));
                assert(assemble(rhs, e) == assemble(rhs.drop_first(), e));
            }
        } else if q == e {
            lemma_covered_skip(l1.drop_first(), l2, s, e + d.len());
            assert(assemble(lhs, e) == d + assemble(lhs.drop_first(), e + d.len()));
            assert(assemble(rhs, e) == d + assemble(rhs.drop_first(), e + d.len()));
        } else {
            assert(assemble(lhs, e) == Seq::<u8>::empty());
            assert(assemble(rhs, e) == Seq::<u8>::empty());
        }
    }
}

/// A duplicate of a segment that stands somewhere earlier in the list
/// contributes nothing: once the earlier copy has been processed, the
/// stream position has passed the duplicate's bytes.
proof fn lemma_dup_covered(
    l1: Seq<(u32, Seq<u8>)>,
    l2: Seq<(u32, Seq<u8>)>,
    s: (u32, Seq<u8>),
    e: int,
)
    requires
        l1.contains(s),
    ensures
        assemble(l1 + seq![s] + l2, e) == assemble(l1 + l2, e),
    decreases l1.len(),
{
    let lhs = l1 + seq![s] + l2;
    let rhs = l1 + l2;
    assert(l1.len() > 0);
    assert(lhs.len() > 0);
    assert(rhs.len() > 0);
    assert(lhs[0] == l1[0]);
    assert(rhs[0] == l1[0]);
    assert(lhs.drop_first() =~= l1.drop_first() + seq![s] + l2);
    assert(rhs.drop_first() =~= l1.drop_first() + l2);
    let tail_has_s = l1.drop_first().contains(s);
    if !tail_has_s {
        // the only copy in l1 is its head
        let k = choose|k: int| 0 <= k < l1.len() && l1[k] == s;
        if k > 0 {
            assert(l1.drop_first()[k - 1] == s);
            assert(l1.drop_first().contains(s));
        }
        assert(l1[0] == s);
    }
    let q = l1[0].0 as int;
    let d = l1[0].1;
    if q < e {
        if e - q < d.len() {
            if tail_has_s {
                lemma_dup_covered(l1.drop_first(), l2, s, q + d.len());
            } else {
                lemma_covered_skip(l1.drop_first(), l2, s, q + d.len());
            }
            assert(assemble(lhs, e) == d.skip(e - q) + assemble(lhs.drop_first(), q + d.len()));
            assert(assemble(rhs, e) == d.skip(e - q) + assemble(rhs.drop_first(), q + d.len()));
        } else {
            if tail_has_s {
                lemma_dup_covered(l1.drop_first(), l2, s, e);
            } else {
                lemma_covered_skip(l1.drop_first(), l2, s, e);
            }
            assert(assemble(lhs, e) == assemble(lhs.drop_first(), e));
            assert(assemble(rhs, e) == assemble(rhs.drop_first(), e));
        }
    } else if q == e {
        if tail_has_s {
            lemma_dup_covered(l1.drop_first(), l2, s, e + d.len());
        } else {
            lemma_covered_skip(l1.drop_first(), l2, s, e + d.len());
        }
        assert(assemble(lhs, e) == d + assemble(lhs.drop_first(), e + d.len()));
        assert(assemble(rhs, e) == d + assemble(rhs.drop_first(), e + d.len()));
    } else {
        assert(assemble(lhs, e) == Seq::<u8>::empty());
        assert(assemble(rhs, e) == Seq::<u8>::empty());
    }
}

/// Reassembly is idempotent under duplicate insertion: adding a segment
/// whose sequence number and payload the list already holds, anywhere in
/// it, does not change the assembled bytes.
pub proof fn lemma_reassembly_idempotent(v: Seq<(u32, Seq<u8>)>, s: (u32, Seq<u8>))
    requires
        v.contains(s),
    ensures
        reassembled(v.push(s)) == reassembled(v),
{
    let w = sort_by_seq(v);
    lemma_sort_sorted_contains(v, s);
    lemma_sort_len(v);
    assert(v.len() > 0);
    assert(w.len() > 0);
    lemma_sort_push(v, s);
    lemma_insert_shape(w, s);
    lemma_insert_pos_props(w, s);
    let p = insert_pos(w, s);
    let w2 = sort_by_seq(v.push(s));
    assert(w2 == w.take(p) + seq![s] + w.skip(p));
    // the copy already in the sorted list stands before the insertion point
    let k = choose|k: int| 0 <= k < w.len() && w[k] == s;
    assert(k < p) by {
        if k >= p {
            assert(p < w.len());
            assert(w[p].0 > s.0);
            if k > p {
                assert(w[p].0 <= w[k].0);
            }
        }
    }
    assert(w.take(p)[k] == s);
    assert(w.take(p).contains(s));
    assert(p >= 1);
    assert(w2.len() > 0);
    assert(w2[0] == w[0]) by {
        assert(w2[0] == w.take(p)[0]);
    }
    lemma_dup_covered(w.take(p), w.skip(p), s, w[0].0 as int);
    assert(w.take(p) + w.skip(p) =~= w);
    assert(v.push(s).len() > 0);
    assert(assemble(w2, w2[0].0 as int) == assemble(w, w[0].0 as int));
}

/// Overlap resolution keeps every stream byte exactly once, in sequence
/// order: when segment `b` starts inside segment `a` and reaches at least as
/// far, the assembled stream covers exactly the positions `[a.0, b.0 + |b|)`,
/// taking each byte from `a` where `a` covers it and from `b` after that.
pub proof fn lemma_overlap_coverage(a: (u32, Seq<u8>), b: (u32, Seq<u8>))
    requires
        a.0 <= b.0,
        (b.0 as int) < a.0 + a.1.len(),
        a.0 + a.1.len() <= b.0 + b.1.len(),
    ensures
        reassembled(seq![a, b]).len() == b.0 + b.1.len() - a.0,
        forall|i: int|
            0 <= i < reassembled(seq![a, b]).len() ==> reassembled(seq![a, b])[i] == (if i
                < a.1.len() {
                a.1[i]
            } else {
                b.1[i - (b.0 - a.0)]
            }),
{
    let empty = Seq::<(u32, Seq<u8>)>::empty();
    assert(sort_by_seq(empty) == empty);
    let va = seq![a];
    assert(va.len() == 1);
    assert(va.drop_last() =~= empty);
    assert(va.last() == a);
    assert(sort_by_seq(va) == insert_by_seq(sort_by_seq(va.drop_last()), a));
    assert(insert_by_seq(empty, a) == seq![a]);
    assert(sort_by_seq(va) == seq![a]);
    let v = seq![a, b];
    assert(v.len() == 2);
    assert(v.drop_last() =~= va);
    assert(v.last() == b);
    let s = sort_by_seq(v);
    assert(s == insert_by_seq(seq![a], b));
    assert(va[0] == a);
    assert(va.drop_first() =~= empty);
    assert(insert_by_seq(va, b) == seq![a] + insert_by_seq(empty, b));
    assert(insert_by_seq(empty, b) == seq![b]);
    assert(s =~= seq![a, b]);
    assert(s.len() > 0);
    assert(s[0] == a);
    assert(s.drop_first() =~= seq![b]);
    let e0 = a.0 as int;
    let e1 = a.0 + a.1.len();
    assert(assemble(s, e0) == a.1 + assemble(seq![b], e1));
    let sb = seq![b];
    assert(sb.len() == 1);
    assert(sb[0] == b);
    assert(sb.drop_first() =~= empty);
    assert((b.0 as int) < e1);
    let o = e1 - b.0;
    if o < b.1.len() {
        assert(assemble(sb, e1) == b.1.skip(o) + assemble(empty, b.0 + b.1.len()));
        assert(assemble(empty, b.0 + b.1.len()) == Seq::<u8>::empty());
        assert(assemble(sb, e1) =~= b.1.skip(o));
    } else {
        assert(o == b.1.len());
        assert(assemble(sb, e1) == assemble(empty, e1));
        assert(assemble(empty, e1) == Seq::<u8>::empty());
        assert(b.1.skip(o) =~= Seq::<u8>::empty());
        assert(assemble(sb, e1) =~= b.1.skip(o));
    }
    let out = reassembled(v);
    assert(out == assemble(s, e0));
    assert(out =~= a.1 + b.1.skip(o));
    assert(out.len() == b.0 + b.1.len() - a.0);
    assert forall|i: int| 0 <= i < out.len() implies out[i] == (if i < a.1.len() {
        a.1[i]
    } else {
        b.1[i - (b.0 - a.0)]
    }) by {
        if i < a.1.len() {
            assert(out[i] == a.1[i]);
        } else {
            assert(out[i] == b.1.skip(o)[i - a.1.len()]);
            assert(b.1.skip(o)[i - a.1.len()] == b.1[i - a.1.len() + o]);
        }
    }
}

/// The contents of `order` read as segment views: `order` is a list of
/// indices into `segs`.
pub open spec fn views_of(order: Seq<usize>, segs: Seq<TcpSegment>) -> Seq<(u32, Seq<u8>)> {
    Seq::new(order.len(), |k: int| segs[order[k] as int]@)
}

fn extend_tail(out: &mut Vec<u8>, data: &Vec<u8>, start: usize)
    requires
        start <= data.len(),
    ensures
        final(out)@ == old(out)@ + data@.skip(start as int),
{
    let mut m = start;
    while m < data.len()
        invariant
            start <= m <= data.len(),
            out@ == old(out)@ + data@.subrange(start as int, m as int),
        decreases data.len() - m,
    {
        out.push(data[m]);
        assert(old(out)@ + data@.subrange(start as int, m + 1) =~= (old(out)@ + data@.subrange(
            start as int,
            m as int,
        )).push(data@[m as int]));
        m += 1;
    }
    assert(data@.subrange(start as int, data@.len() as int) =~= data@.skip(start as int));
}

/// Reassemble a list of segments into a contiguous byte stream, or `None`
/// when nothing contiguous is available.
pub fn reassemble_segments(segments: &Vec<TcpSegment>) -> (r: Option<Vec<u8>>)
    ensures
        match r {
            Some(d) => d@ == reassembled(seg_views(segments@)) && d@.len() > 0,
            None => reassembled(seg_views(segments@)).len() == 0,
        },
{
    let n = segments.len();
    if n == 0 {
        return None;
    }
    // Stable insertion sort of segment indices by sequence number.
    let mut order: Vec<usize> = Vec::new();
    let mut i: usize = 0;
    while i < n
        invariant
            n == segments@.len(),
            i <= n,
            order@.len() == i,
            forall|k: int| 0 <= k < i ==> (#[trigger] order@[k]) < n,
            views_of(order@, segments@) == sort_by_seq(seg_views(segments@.take(i as int))),
        decreases n - i,
    {
        let ghost w = views_of(order@, segments@);
        let ghost xv = segments@[i as int]@;
        let mut j: usize = 0;
        while j < i && segments[order[j]].seq <= segments[i].seq
            invariant
                n == segments@.len(),
                i < n,
                order@.len() == i,
                forall|k: int| 0 <= k < i ==> (#[trigger] order@[k]) < n,
                w == views_of(order@, segments@),
                xv == segments@[i as int]@,
                j <= i,
                forall|k: int| 0 <= k < j ==> (#[trigger] w[k]).0 <= xv.0,
            decreases i - j,
        {
            j += 1;
        }
        proof {
            lemma_insert_pos_char(w, xv, j as int);
            lemma_insert_shape(w, xv);
        }
        order.insert(j, i);
        proof {
            assert(views_of(order@, segments@) =~= w.take(j as int) + seq![xv] + w.skip(j as int));
            assert(views_of(order@, segments@) == insert_by_seq(w, xv));
            let t1 = seg_views(segments@.take(i + 1));
            assert(t1.len() == i + 1);
            assert(t1.drop_last() =~= seg_views(segments@.take(i as int)));
            assert(t1.last() == xv);
            assert(sort_by_seq(t1) == insert_by_seq(sort_by_seq(t1.drop_last()), xv));
        }
        i += 1;
    }
    proof {
        assert(segments@.take(n as int) =~= segments@);
    }
    let ghost sorted = sort_by_seq(seg_views(segments@));
    let ghost e0 = sorted[0].0 as int;
    assert(sorted.len() == order@.len()) by {
        assert(views_of(order@, segments@).len() == sorted.len());
    }

    // Walk the sorted segments, appending fresh bytes; stop at the first gap.
    let mut out: Vec<u8> = Vec::new();
    let first_idx = order[0];
    let mut expected: u128 = segments[first_idx].seq as u128;
    assert(expected as int == e0) by {
        assert(views_of(order@, segments@)[0] == sorted[0]);
    }
    let mut k: usize = 0;
    let mut gap = false;
    proof {
        assert(sorted.skip(0) =~= sorted);
        assert(Seq::<u8>::empty() + assemble(sorted, e0) =~= assemble(sorted, e0));
    }
    while k < order.len() && !gap
        invariant
            n == segments@.len(),
            order@.len() == n,
            forall|m: int| 0 <= m < n ==> (#[trigger] order@[m]) < n,
            sorted == views_of(order@, segments@),
            k <= n,
            expected < 0x1000000000000000000000000u128,
            !gap ==> assemble(sorted, e0) == out@ + assemble(
                sorted.skip(k as int),
                expected as int,
            ),
            gap ==> assemble(sorted, e0) == out@,
        decreases n - k, 1int - (if gap { 1int } else { 0int }),
    {
        let idx = order[k];
        let seg = &segments[idx];
        let ghost sk = sorted.skip(k as int);
        proof {
            assert(sk.len() > 0);
            assert(sk[0] == sorted[k as int]);
            assert(sorted[k as int] == segments@[order@[k as int] as int]@);
            assert(sk.drop_first() =~= sorted.skip(k + 1));
        }
        if (seg.seq as u128) < expected {
            let overlap = expected - (seg.seq as u128);
            if overlap < seg.data.len() as u128 {
                let start = overlap as usize;
                extend_tail(&mut out, &seg.data, start);
                expected = (seg.seq as u128) + (seg.data.len() as u128);
                proof {
                    assert(assemble(sk, (expected as int) - seg.data@.len() + overlap as int)
                        == seg.data@.skip(overlap as int) + assemble(
                        sorted.skip(k + 1),
                        seg.seq + seg.data@.len(),
                    ));
                }
            }
            k += 1;
        } else if (seg.seq as u128) == expected {
            extend_tail(&mut out, &seg.data, 0);
            proof {
                assert(seg.data@.skip(0) =~= seg.data@);
            }
            expected = expected + (seg.data.len() as u128);
            k += 1;
        } else {
            proof {
                assert(assemble(sk, expected as int) == Seq::<u8>::empty());
                assert(out@ + Seq::<u8>::empty() =~= out@);
            }
            gap = true;
        }
    }
    proof {
        if !gap {
            assert(sorted.skip(n as int) =~= Seq::<(u32, Seq<u8>)>::empty());
            assert(assemble(Seq::<(u32, Seq<u8>)>::empty(), expected as int) == Seq::<
                u8,
            >::empty());
            assert(out@ + Seq::<u8>::empty() =~= out@);
        }
        assert(out@ == reassembled(seg_views(segments@)));
    }
    if out.len() == 0 {
        None
    } else {
        Some(out)
    }
}

/// The two directions of one TCP conversation, segments stored verbatim in
/// arrival order.
pub struct TcpStream {
    pub client_segments: Vec<TcpSegment>,
    pub server_segments: Vec<TcpSegment>,
}

impl View for TcpStream {
    type V = (Seq<(u32, Seq<u8>)>, Seq<(u32, Seq<u8>)>);

    open spec fn view(&self) -> (Seq<(u32, Seq<u8>)>, Seq<(u32, Seq<u8>)>) {
        (seg_views(self.client_segments@), seg_views(self.server_segments@))
    }
}

/// Per-flow segment store. Flows are looked up by their canonical `FlowId`;
/// reassembly happens on demand at read time.
pub struct TcpReassembler {
    flows: Vec<(FlowId, TcpStream)>,
}

impl View for TcpReassembler {
    type V = Seq<(FlowId, (Seq<(u32, Seq<u8>)>, Seq<(u32, Seq<u8>)>))>;

    closed spec fn view(&self) -> Seq<(FlowId, (Seq<(u32, Seq<u8>)>, Seq<(u32, Seq<u8>)>))> {
        Seq::new(self.flows@.len(), |i: int| (self.flows@[i].0, self.flows@[i].1@))
    }
}

/// Index of the first entry for `id`, or `-1` when there is none.
pub open spec fn find_flow<V>(v: Seq<(FlowId, V)>, id: FlowId) -> int
    decreases v.len(),
{
    if v.len() == 0 {
        -1
    } else if v[0].0 == id {
        0
    } else {
        let r = find_flow(v.drop_first(), id);
        if r < 0 {
            -1
        } else {
            1 + r
        }
    }
}

pub(crate) proof fn lemma_find_flow_char<V>(v: Seq<(FlowId, V)>, id: FlowId, j: int)
    requires
        0 <= j <= v.len(),
        forall|k: int| 0 <= k < j ==> (#[trigger] v[k]).0 != id,
        j < v.len() ==> v[j].0 == id,
    ensures
        find_flow(v, id) == if j < v.len() {
            j
        } else {
            -1
        },
    decreases v.len(),
{
    if v.len() == 0 {
    } else if v[0].0 == id {
        assert(j == 0);
    } else {
        assert(j >= 1);
        lemma_find_flow_char(v.drop_first(), id, j - 1);
    }
}

/// How `add_packet` changes the flow table: the segment is appended to the
/// matching direction of its flow, and a previously unseen flow is created
/// at the end of the table.
pub open spec fn spec_add_packet(
    flows: Seq<(FlowId, (Seq<(u32, Seq<u8>)>, Seq<(u32, Seq<u8>)>))>,
    flow_id: FlowId,
    src_ip: u32,
    src_port: u16,
    seq: u32,
    data: Seq<u8>,
) -> Seq<(FlowId, (Seq<(u32, Seq<u8>)>, Seq<(u32, Seq<u8>)>))> {
    let is_client = flow_id.spec_is_client_to_server(src_ip, src_port);
    let sv = (seq, data);
    let i = find_flow(flows, flow_id);
    if i < 0 {
        flows.push(
            (
                flow_id,
                if is_client {
                    (seq![sv], Seq::<(u32, Seq<u8>)>::empty())
                } else {
                    (Seq::<(u32, Seq<u8>)>::empty(), seq![sv])
                },
            ),
        )
    } else {
        flows.update(
            i,
            (
                flow_id,
                if is_client {
                    (flows[i].1.0.push(sv), flows[i].1.1)
                } else {
                    (flows[i].1.0, flows[i].1.1.push(sv))
                },
            ),
        )
    }
}

impl TcpReassembler {
    /// An empty flow table.
    pub fn new() -> (r: TcpReassembler)
        ensures
            r@ == Seq::<(FlowId, (Seq<(u32, Seq<u8>)>, Seq<(u32, Seq<u8>)>))>::empty(),
    {
        let r = TcpReassembler { flows: Vec::new() };
        proof {
            assert(r@ =~= Seq::<(FlowId, (Seq<(u32, Seq<u8>)>, Seq<(u32, Seq<u8>)>))>::empty());
        }
        r
    }

    fn find_index(&self, flow_id: &FlowId) -> (r: Option<usize>)
        ensures
            match r {
                Some(i) => i < self@.len() && find_flow(self@, *flow_id) == i as int && self@[
                    i as int
                ].0 == *flow_id,
                None => find_flow(self@, *flow_id) == -1,
            },
    {
        let mut i: usize = 0;
        while i < self.flows.len()
            invariant
                forall|k: int| 0 <= k < i ==> (#[trigger] self@[k]).0 != *flow_id,
                i <= self@.len(),
                self@.len() == self.flows@.len(),
                forall|k: int|
                    0 <= k < self@.len() ==> (#[trigger] self@[k]).0 == self.flows@[k].0,
            decreases self.flows.len() - i,
        {
            if self.flows[i].0 == *flow_id {
                proof {
                    lemma_find_flow_char(self@, *flow_id, i as int);
                }
                return Some(i);
            }
            i += 1;
        }
        proof {
            lemma_find_flow_char(self@, *flow_id, self@.len() as int);
        }
        None
    }

    /// Append one segment to the proper direction of its flow, creating the
    /// flow on first sight. The segment is stored verbatim.
    pub fn add_packet(
        &mut self,
        flow_id: FlowId,
        src_ip: u32,
        src_port: u16,
        seq: u32,
        data: Vec<u8>,
        ts_sec: u64,
        ts_usec: u32,
    )
        ensures
            final(self)@ == spec_add_packet(old(self)@, flow_id, src_ip, src_port, seq, data@),
    {
        let is_client = flow_id.is_client_to_server(src_ip, src_port);
        let segment = TcpSegment { seq, data, ts_sec, ts_usec };
        let found = self.find_index(&flow_id);
        match found {
            Some(i) => {
                let entry = &mut self.flows[i];
                if is_client {
                    entry.1.client_segments.push(segment);
                } else {
                    entry.1.server_segments.push(segment);
                }
                proof {
                    let sv = (seq, segment.data@);
                    assert(old(self)@[i as int].0 == flow_id);
                    assert(old(self)@[i as int].1.0 == seg_views(
                        old(self).flows@[i as int].1.client_segments@,
                    ));
                    assert(old(self)@[i as int].1.1 == seg_views(
                        old(self).flows@[i as int].1.server_segments@,
                    ));
                    assert(self.flows@[i as int].0 == flow_id);
                    assert(forall|k: int|
                        0 <= k < self.flows@.len() && k != i ==> self.flows@[k] == old(
                            self,
                        ).flows@[k]);
                    assert(seg_views(self.flows@[i as int].1.client_segments@) =~= (if is_client {
                        old(self)@[i as int].1.0.push(sv)
                    } else {
                        old(self)@[i as int].1.0
                    }));
                    assert(seg_views(self.flows@[i as int].1.server_segments@) =~= (if is_client {
                        old(self)@[i as int].1.1
                    } else {
                        old(self)@[i as int].1.1.push(sv)
                    }));
                    assert(self@ =~~= old(self)@.update(
                        i as int,
                        (
                            flow_id,
                            if is_client {
                                (old(self)@[i as int].1.0.push(sv), old(self)@[i as int].1.1)
                            } else {
                                (old(self)@[i as int].1.0, old(self)@[i as int].1.1.push(sv))
                            },
                        ),
                    ));
                }
            },
            None => {
                let stream = if is_client {
                    TcpStream { client_segments: vec![segment], server_segments: Vec::new() }
                } else {
                    TcpStream { client_segments: Vec::new(), server_segments: vec![segment] }
                };
                self.flows.push((flow_id, stream));
                proof {
                    let svv = (seq, segment.data@);
                    assert(seg_views(Seq::<TcpSegment>::empty()) =~= Seq::<
                        (u32, Seq<u8>),
                    >::empty());
                    assert(seg_views(self.flows@[old(self).flows@.len() as int].1.client_segments@)
                        =~= (if is_client {
                        seq![svv]
                    } else {
                        Seq::<(u32, Seq<u8>)>::empty()
                    }));
                    assert(seg_views(self.flows@[old(self).flows@.len() as int].1.server_segments@)
                        =~= (if is_client {
                        Seq::<(u32, Seq<u8>)>::empty()
                    } else {
                        seq![svv]
                    }));
                    assert(self@ =~~= old(self)@.push(
                        (
                            flow_id,
                            if is_client {
                                (seq![svv], Seq::<(u32, Seq<u8>)>::empty())
                            } else {
                                (Seq::<(u32, Seq<u8>)>::empty(), seq![svv])
                            },
                        ),
                    ));
                }
            },
        }
    }

    /// Reassembled client-to-server bytes of a flow, when any are available.
    pub fn get_client_data(&self, flow_id: &FlowId) -> (r: Option<Vec<u8>>)
        ensures
            ({
                let i = find_flow(self@, *flow_id);
                match r {
                    Some(d) => i >= 0 && d@ == reassembled(self@[i].1.0) && d@.len() > 0,
                    None => i < 0 || reassembled(self@[i].1.0).len() == 0,
                }
            }),
    {
        match self.find_index(flow_id) {
            Some(i) => reassemble_segments(&self.flows[i].1.client_segments),
            None => None,
        }
    }

    /// Reassembled server-to-client bytes of a flow, when any are available.
    pub fn get_server_data(&self, flow_id: &FlowId) -> (r: Option<Vec<u8>>)
        ensures
            ({
                let i = find_flow(self@, *flow_id);
                match r {
                    Some(d) => i >= 0 && d@ == reassembled(self@[i].1.1) && d@.len() > 0,
                    None => i < 0 || reassembled(self@[i].1.1).len() == 0,
                }
            }),
    {
        match self.find_index(flow_id) {
            Some(i) => reassemble_segments(&self.flows[i].1.server_segments),
            None => None,
        }
    }

    /// All flow identities currently tracked, in order of first sight.
    pub fn get_flows(&self) -> (r: Vec<FlowId>)
        ensures
            r@ == Seq::new(self@.len(), |i: int| self@[i].0),
    {
        let mut r: Vec<FlowId> = Vec::new();
        let mut i: usize = 0;
        while i < self.flows.len()
            invariant
                i <= self.flows@.len(),
                self@.len() == self.flows@.len(),
                forall|k: int|
                    0 <= k < self@.len() ==> (#[trigger] self@[k]).0 == self.flows@[k].0,
                r@ == Seq::new(i as nat, |k: int| self@[k].0),
            decreases self.flows.len() - i,
        {
            r.push(self.flows[i].0);
            proof {
                assert(r@ =~= Seq::new((i + 1) as nat, |k: int| self@[k].0));
            }
            i += 1;
        }
        proof {
            assert(r@ =~= Seq::new(self@.len(), |k: int| self@[k].0));
        }
        r
    }
}

} // verus!
