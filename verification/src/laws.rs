//! The laws of the library, proved once over the specifications: length
//! accuracy, framing correctness and its round trip, order preservation,
//! bounded memory, and failing closed on unmeasured files.

use vstd::prelude::*;

use crate::encode::{
    body_wire, closing, delim, node_wire, parts_wire_from, plan_body, plan_node, plan_parts_from,
};
use crate::error::Error;
use crate::header::crlf;
use crate::node::{file_len_of, FileLen, MultipartNode};
use crate::stream::{fs_fits, seg_bytes, seg_len, segs_bytes, segs_len, SegView};

verus! {

/// `segs_bytes` distributes over concatenation.
pub proof fn lemma_segs_bytes_concat(a: Seq<SegView>, b: Seq<SegView>, fs: Map<Seq<char>, Seq<u8>>)
    ensures
        segs_bytes(a + b, fs) == segs_bytes(a, fs) + segs_bytes(b, fs),
    decreases a.len(),
{
    if a.len() == 0 {
        assert(a + b =~= b);
        assert(segs_bytes(a, fs) + segs_bytes(b, fs) =~= segs_bytes(b, fs));
    } else {
        assert((a + b).drop_first() =~= a.drop_first() + b);
        assert((a + b)[0] == a[0]);
        lemma_segs_bytes_concat(a.drop_first(), b, fs);
        assert(segs_bytes(a + b, fs) =~= segs_bytes(a, fs) + segs_bytes(b, fs));
    }
}

/// The bytes of a one-segment sequence are that segment's bytes.
proof fn lemma_segs_bytes_one(s: SegView, fs: Map<Seq<char>, Seq<u8>>)
    ensures
        segs_bytes(seq![s], fs) == seg_bytes(s, fs),
{
    assert(seq![s].drop_first() =~= Seq::<SegView>::empty());
    assert(seq![s][0] == s);
    assert(segs_bytes(Seq::<SegView>::empty(), fs) == Seq::<u8>::empty());
    assert(segs_bytes(seq![s], fs) =~= seg_bytes(s, fs));
}

/// Length accuracy, segment by segment: when the file contents in `fs`
/// have exactly the lengths the segments declare, draining the segments
/// yields exactly as many bytes as they declare.
pub proof fn lemma_drained_length(segs: Seq<SegView>, fs: Map<Seq<char>, Seq<u8>>)
    requires
        fs_fits(fs, segs),
    ensures
        segs_bytes(segs, fs).len() == segs_len(segs),
    decreases segs.len(),
{
    if segs.len() > 0 {
        let rest = segs.drop_first();
        assert forall|i: int|
            0 <= i < rest.len() implies (#[trigger] rest[i] matches SegView::FileRef {
            path,
            len,
        } ==> fs.contains_key(path) && fs[path].len() == len) by {
            assert(rest[i] == segs[i + 1]);
        }
        lemma_drained_length(rest, fs);
        assert(segs[0] matches SegView::FileRef { path, len } ==> fs.contains_key(path)
            && fs[path].len() == len);
    }
}

/// Framing correctness at the node level: on success, draining a node's
/// planned segments yields exactly that node's wire bytes.
pub proof fn lemma_node_plan_wire(
    node: MultipartNode,
    table: Seq<FileLen>,
    fs: Map<Seq<char>, Seq<u8>>,
)
    requires
        plan_node(node, table) is Ok,
    ensures
        segs_bytes(plan_node(node, table)->Ok_0, fs) == node_wire(node, fs),
    decreases node, 2int, 0int,
{
    match node {
        MultipartNode::Part(p) => {
            lemma_segs_bytes_one(
                SegView::Data(crate::header::headers_wire(p.headers@) + crlf() + p.body@),
                fs,
            );
        },
        MultipartNode::File(f) => {
            let hw = crate::header::headers_wire(f.headers@) + crlf();
            let n = file_len_of(f, table)->Some_0;
            let segs = seq![SegView::Data(hw), SegView::FileRef { path: f.path@, len: n }];
            assert(segs.drop_first() =~= seq![SegView::FileRef { path: f.path@, len: n }]);
            lemma_segs_bytes_one(SegView::FileRef { path: f.path@, len: n }, fs);
            assert(segs_bytes(segs, fs) =~= hw + fs[f.path@]);
            assert(node_wire(node, fs) =~= hw + fs[f.path@]);
        },
        MultipartNode::Nested { headers, children } => {
            let b = crate::boundary::boundary_of_headers(headers@)->Some_0;
            let hw = crate::header::headers_wire(headers@) + crlf();
            let sub = plan_body(b, children@, table)->Ok_0;
            lemma_body_plan_wire(b, children@, table, fs);
            lemma_segs_bytes_concat(seq![SegView::Data(hw)], sub, fs);
            lemma_segs_bytes_one(SegView::Data(hw), fs);
        },
    }
}

/// Framing correctness for the nodes from index `i` on.
pub proof fn lemma_parts_plan_wire(
    boundary: Seq<u8>,
    nodes: Seq<MultipartNode>,
    i: int,
    table: Seq<FileLen>,
    fs: Map<Seq<char>, Seq<u8>>,
)
    requires
        plan_parts_from(boundary, nodes, i, table) is Ok,
    ensures
        segs_bytes(plan_parts_from(boundary, nodes, i, table)->Ok_0, fs) == parts_wire_from(
            boundary,
            nodes,
            i,
            fs,
        ),
    decreases nodes, 0int, nodes.len() - i,
{
    if i < 0 || i >= nodes.len() {
    } else {
        assert(plan_node(nodes[i], table) is Ok);
        assert(plan_parts_from(boundary, nodes, i + 1, table) is Ok);
        let nsegs = plan_node(nodes[i], table)->Ok_0;
        let rest = plan_parts_from(boundary, nodes, i + 1, table)->Ok_0;
        lemma_node_plan_wire(nodes[i], table, fs);
        lemma_parts_plan_wire(boundary, nodes, i + 1, table, fs);
        lemma_segs_bytes_one(SegView::Data(delim(boundary)), fs);
        lemma_segs_bytes_one(SegView::Data(crlf()), fs);
        lemma_segs_bytes_concat(seq![SegView::Data(delim(boundary))], nsegs, fs);
        lemma_segs_bytes_concat(seq![SegView::Data(delim(boundary))] + nsegs, seq![
            SegView::Data(crlf()),
        ], fs);
        lemma_segs_bytes_concat(
            seq![SegView::Data(delim(boundary))] + nsegs + seq![SegView::Data(crlf())],
            rest,
            fs,
        );
        assert(segs_bytes(plan_parts_from(boundary, nodes, i, table)->Ok_0, fs) =~= parts_wire_from(
            boundary,
            nodes,
            i,
            fs,
        ));
    }
}

/// Framing correctness: on success, draining a body's planned segments in
/// order yields exactly the RFC 2046 wire form of the node list — every
/// delimiter line, header block, content and the closing delimiter, in
/// place. `fs` supplies the file contents the drain would read.
pub proof fn lemma_body_plan_wire(
    boundary: Seq<u8>,
    nodes: Seq<MultipartNode>,
    table: Seq<FileLen>,
    fs: Map<Seq<char>, Seq<u8>>,
)
    requires
        plan_body(boundary, nodes, table) is Ok,
    ensures
        segs_bytes(plan_body(boundary, nodes, table)->Ok_0, fs) == body_wire(boundary, nodes, fs),
    decreases nodes, 1int, 0int,
{
    assert(plan_parts_from(boundary, nodes, 0, table) is Ok);
    let parts = plan_parts_from(boundary, nodes, 0, table)->Ok_0;
    lemma_parts_plan_wire(boundary, nodes, 0, table, fs);
    lemma_segs_bytes_concat(parts, seq![SegView::Data(closing(boundary))], fs);
    lemma_segs_bytes_one(SegView::Data(closing(boundary)), fs);
}

/// Length accuracy for a whole body: when the file contents in `fs` have
/// the declared lengths, the declared total of the plan equals the length
/// of the full wire form.
pub proof fn lemma_total_is_wire_length(
    boundary: Seq<u8>,
    nodes: Seq<MultipartNode>,
    table: Seq<FileLen>,
    fs: Map<Seq<char>, Seq<u8>>,
)
    requires
        plan_body(boundary, nodes, table) is Ok,
        fs_fits(fs, plan_body(boundary, nodes, table)->Ok_0),
    ensures
        body_wire(boundary, nodes, fs).len() == segs_len(plan_body(boundary, nodes, table)->Ok_0),
{
    lemma_body_plan_wire(boundary, nodes, table, fs);
    lemma_drained_length(plan_body(boundary, nodes, table)->Ok_0, fs);
}

/// Order preservation: the wire form of two node lists, one after the
/// other, is the wire form of the first followed by the wire form of the
/// second. Each node's framed content keeps its place.
pub proof fn lemma_order_preserved(
    boundary: Seq<u8>,
    ns1: Seq<MultipartNode>,
    ns2: Seq<MultipartNode>,
    fs: Map<Seq<char>, Seq<u8>>,
)
    ensures
        parts_wire_from(boundary, ns1 + ns2, 0, fs) == parts_wire_from(boundary, ns1, 0, fs)
            + parts_wire_from(boundary, ns2, 0, fs),
{
    lemma_order_preserved_from(boundary, ns1, ns2, 0, fs);
}

/// `lemma_order_preserved`, generalized over the start index into the
/// first list.
proof fn lemma_order_preserved_from(
    boundary: Seq<u8>,
    ns1: Seq<MultipartNode>,
    ns2: Seq<MultipartNode>,
    i: int,
    fs: Map<Seq<char>, Seq<u8>>,
)
    requires
        0 <= i <= ns1.len(),
    ensures
        parts_wire_from(boundary, ns1 + ns2, i, fs) == parts_wire_from(boundary, ns1, i, fs)
            + parts_wire_from(boundary, ns2, 0, fs),
    decreases ns1.len() - i,
{
    if i == ns1.len() {
        lemma_parts_wire_shift(boundary, ns1, ns2, 0, fs);
        assert(parts_wire_from(boundary, ns1, i, fs) + parts_wire_from(boundary, ns2, 0, fs)
            =~= parts_wire_from(boundary, ns2, 0, fs));
    } else {
        assert((ns1 + ns2)[i] == ns1[i]);
        lemma_order_preserved_from(boundary, ns1, ns2, i + 1, fs);
        assert(parts_wire_from(boundary, ns1 + ns2, i, fs) =~= parts_wire_from(boundary, ns1, i, fs)
            + parts_wire_from(boundary, ns2, 0, fs));
    }
}

/// The wire form of a concatenation, read from the second list's start.
proof fn lemma_parts_wire_shift(
    boundary: Seq<u8>,
    ns1: Seq<MultipartNode>,
    ns2: Seq<MultipartNode>,
    j: int,
    fs: Map<Seq<char>, Seq<u8>>,
)
    requires
        0 <= j <= ns2.len(),
    ensures
        parts_wire_from(boundary, ns1 + ns2, ns1.len() + j, fs) == parts_wire_from(
            boundary,
            ns2,
            j,
            fs,
        ),
    decreases ns2.len() - j,
{
    if j < ns2.len() {
        assert((ns1 + ns2)[ns1.len() + j] == ns2[j]);
        lemma_parts_wire_shift(boundary, ns1, ns2, j + 1, fs);
    }
}

/// A segment with its declared file length forgotten: exactly the bytes
/// the builder holds in memory, plus which file goes where.
pub open spec fn seg_shape(s: SegView) -> SegView {
    match s {
        SegView::Data(b) => SegView::Data(b),
        SegView::FileRef { path, len } => SegView::FileRef { path, len: 0 },
    }
}

/// The shapes of a segment sequence, in order.
pub open spec fn shapes_of(segs: Seq<SegView>) -> Seq<SegView> {
    segs.map_values(|s: SegView| seg_shape(s))
}

/// `shapes_of` distributes over concatenation.
proof fn lemma_shapes_concat(a: Seq<SegView>, b: Seq<SegView>)
    ensures
        shapes_of(a + b) == shapes_of(a) + shapes_of(b),
{
    assert(shapes_of(a + b) =~= shapes_of(a) + shapes_of(b));
}

/// Bounded memory: what the builder holds in memory does not depend on the
/// measured file lengths. Two builds of the same nodes whose measurements
/// both succeed yield plans that agree on every in-memory byte and on the
/// order and paths of the file references; only the declared lengths can
/// differ. No byte of any file enters the plan at all.
pub proof fn lemma_memory_independent_of_sizes(
    boundary: Seq<u8>,
    nodes: Seq<MultipartNode>,
    t1: Seq<FileLen>,
    t2: Seq<FileLen>,
)
    requires
        plan_body(boundary, nodes, t1) is Ok,
        plan_body(boundary, nodes, t2) is Ok,
    ensures
        shapes_of(plan_body(boundary, nodes, t1)->Ok_0) == shapes_of(
            plan_body(boundary, nodes, t2)->Ok_0,
        ),
    decreases nodes, 1int, 0int,
{
    assert(plan_parts_from(boundary, nodes, 0, t1) is Ok);
    assert(plan_parts_from(boundary, nodes, 0, t2) is Ok);
    lemma_shape_parts(boundary, nodes, 0, t1, t2);
    let parts1 = plan_parts_from(boundary, nodes, 0, t1)->Ok_0;
    let parts2 = plan_parts_from(boundary, nodes, 0, t2)->Ok_0;
    lemma_shapes_concat(parts1, seq![SegView::Data(closing(boundary))]);
    lemma_shapes_concat(parts2, seq![SegView::Data(closing(boundary))]);
}

/// `lemma_memory_independent_of_sizes` for one node.
proof fn lemma_shape_node(node: MultipartNode, t1: Seq<FileLen>, t2: Seq<FileLen>)
    requires
        plan_node(node, t1) is Ok,
        plan_node(node, t2) is Ok,
    ensures
        shapes_of(plan_node(node, t1)->Ok_0) == shapes_of(plan_node(node, t2)->Ok_0),
    decreases node, 2int, 0int,
{
    match node {
        MultipartNode::Part(p) => {
        },
        MultipartNode::File(f) => {
            assert(shapes_of(plan_node(node, t1)->Ok_0) =~= shapes_of(plan_node(node, t2)->Ok_0));
        },
        MultipartNode::Nested { headers, children } => {
            let b = crate::boundary::boundary_of_headers(headers@)->Some_0;
            assert(plan_body(b, children@, t1) is Ok);
            assert(plan_body(b, children@, t2) is Ok);
            assert(plan_parts_from(b, children@, 0, t1) is Ok);
            assert(plan_parts_from(b, children@, 0, t2) is Ok);
            lemma_shape_parts(b, children@, 0, t1, t2);
            let parts1 = plan_parts_from(b, children@, 0, t1)->Ok_0;
            let parts2 = plan_parts_from(b, children@, 0, t2)->Ok_0;
            lemma_shapes_concat(parts1, seq![SegView::Data(closing(b))]);
            lemma_shapes_concat(parts2, seq![SegView::Data(closing(b))]);
            let hw = seq![SegView::Data(crate::header::headers_wire(headers@) + crlf())];
            lemma_shapes_concat(hw, plan_body(b, children@, t1)->Ok_0);
            lemma_shapes_concat(hw, plan_body(b, children@, t2)->Ok_0);
        },
    }
}

/// `lemma_memory_independent_of_sizes` for the nodes from index `i` on.
proof fn lemma_shape_parts(
    boundary: Seq<u8>,
    nodes: Seq<MultipartNode>,
    i: int,
    t1: Seq<FileLen>,
    t2: Seq<FileLen>,
)
    requires
        plan_parts_from(boundary, nodes, i, t1) is Ok,
        plan_parts_from(boundary, nodes, i, t2) is Ok,
    ensures
        shapes_of(plan_parts_from(boundary, nodes, i, t1)->Ok_0) == shapes_of(
            plan_parts_from(boundary, nodes, i, t2)->Ok_0,
        ),
    decreases nodes, 0int, nodes.len() - i,
{
    if i < 0 || i >= nodes.len() {
    } else {
        assert(plan_node(nodes[i], t1) is Ok);
        assert(plan_node(nodes[i], t2) is Ok);
        assert(plan_parts_from(boundary, nodes, i + 1, t1) is Ok);
        assert(plan_parts_from(boundary, nodes, i + 1, t2) is Ok);
        lemma_shape_node(nodes[i], t1, t2);
        lemma_shape_parts(boundary, nodes, i + 1, t1, t2);
        let d = seq![SegView::Data(delim(boundary))];
        let c = seq![SegView::Data(crlf())];
        let n1 = plan_node(nodes[i], t1)->Ok_0;
        let n2 = plan_node(nodes[i], t2)->Ok_0;
        let r1 = plan_parts_from(boundary, nodes, i + 1, t1)->Ok_0;
        let r2 = plan_parts_from(boundary, nodes, i + 1, t2)->Ok_0;
        lemma_shapes_concat(d, n1);
        lemma_shapes_concat(d, n2);
        lemma_shapes_concat(d + n1, c);
        lemma_shapes_concat(d + n2, c);
        lemma_shapes_concat(d + n1 + c, r1);
        lemma_shapes_concat(d + n2 + c, r2);
    }
}

/// The delimiter token a parser scans for between parts: `\r\n--boundary`.
pub open spec fn delim_token(b: Seq<u8>) -> Seq<u8> {
    crlf() + crate::header::double_dash() + b
}

/// `t` occurs in `w + t` only at the very end. This is the hygiene every
/// multipart body needs of its parts: the delimiter token must not appear
/// inside a part's framed bytes, nor straddling its trailing CRLF; callers
/// choose boundaries long and random enough to make this so.
pub open spec fn clean(w: Seq<u8>, t: Seq<u8>) -> bool {
    forall|p: int| 0 <= p < w.len() ==> #[trigger] (w + t).subrange(p, p + t.len()) != t
}

/// Every node's framed bytes are clean of the delimiter token.
pub open spec fn frames_clean(
    b: Seq<u8>,
    ns: Seq<MultipartNode>,
    fs: Map<Seq<char>, Seq<u8>>,
) -> bool {
    forall|i: int| 0 <= i < ns.len() ==> clean(node_wire(#[trigger] ns[i], fs), delim_token(b))
}

/// Equal sequences with an equal prefix have equal suffixes.
proof fn lemma_prefix_cancel(a: Seq<u8>, x: Seq<u8>, y: Seq<u8>)
    requires
        a + x == a + y,
    ensures
        x == y,
{
    assert((a + x).len() == (a + y).len());
    assert((a + x).len() == a.len() + x.len());
    assert((a + y).len() == a.len() + y.len());
    assert(x.len() == y.len());
    assert forall|i: int| 0 <= i < x.len() implies x[i] == y[i] by {
        assert((a + x)[a.len() + i] == x[i]);
        assert((a + y)[a.len() + i] == y[i]);
    }
    assert(x =~= y);
}

/// The heart of frame uniqueness: a string of the form `x + t + y` with
/// `x` clean of `t` determines `x` and `y`.
proof fn lemma_token_split(x1: Seq<u8>, y1: Seq<u8>, x2: Seq<u8>, y2: Seq<u8>, t: Seq<u8>)
    requires
        clean(x1, t),
        clean(x2, t),
        x1 + t + y1 == x2 + t + y2,
    ensures
        x1 == x2,
        y1 == y2,
{
    lemma_token_not_early(x1, y1, x2, y2, t);
    lemma_token_not_early(x2, y2, x1, y1, t);
    assert forall|i: int| 0 <= i < x1.len() implies x1[i] == x2[i] by {
        assert((x1 + t + y1)[i] == (x1 + t)[i]);
        assert((x1 + t)[i] == x1[i]);
        assert((x2 + t + y2)[i] == (x2 + t)[i]);
        assert((x2 + t)[i] == x2[i]);
    }
    assert(x1 =~= x2);
    assert((x1 + t + y1).len() == (x2 + t + y2).len());
    assert((x1 + t + y1).len() == (x1 + t).len() + y1.len());
    assert((x2 + t + y2).len() == (x2 + t).len() + y2.len());
    assert((x1 + t).len() == x1.len() + t.len());
    assert((x2 + t).len() == x2.len() + t.len());
    assert(y1.len() == y2.len());
    assert forall|i: int| 0 <= i < y1.len() implies y1[i] == y2[i] by {
        assert((x1 + t + y1)[(x1 + t).len() + i] == y1[i]);
        assert((x2 + t + y2)[(x2 + t).len() + i] == y2[i]);
    }
    assert(y1 =~= y2);
}

/// A clean right-hand prefix is never longer: `t` would occur early inside
/// `x2 + t`.
proof fn lemma_token_not_early(x1: Seq<u8>, y1: Seq<u8>, x2: Seq<u8>, y2: Seq<u8>, t: Seq<u8>)
    requires
        clean(x2, t),
        x1 + t + y1 == x2 + t + y2,
    ensures
        x1.len() >= x2.len(),
{
    if x1.len() < x2.len() {
        let p = x1.len() as int;
        assert forall|k: int|
            0 <= k < t.len() implies (x2 + t).subrange(p, p + t.len())[k] == t[k] by {
            assert((x2 + t).subrange(p, p + t.len())[k] == (x2 + t)[p + k]);
            assert((x2 + t + y2)[p + k] == (x2 + t)[p + k]);
            assert((x1 + t + y1)[p + k] == (x1 + t)[p + k]);
            assert((x1 + t)[p + k] == t[k]);
        }
        assert((x2 + t).subrange(p, p + t.len()) =~= t);
    }
}

/// Framing correctness, read back: with one boundary, two clean node lists
/// that encode to the same wire bytes frame the same parts — the same
/// number of them, and byte-identical framed content for each, in order. A
/// parser that splits the body at the delimiter lines therefore recovers
/// exactly the parts that were encoded.
pub proof fn lemma_frames_unique(
    b: Seq<u8>,
    ns1: Seq<MultipartNode>,
    ns2: Seq<MultipartNode>,
    fs: Map<Seq<char>, Seq<u8>>,
)
    requires
        frames_clean(b, ns1, fs),
        frames_clean(b, ns2, fs),
        body_wire(b, ns1, fs) == body_wire(b, ns2, fs),
    ensures
        ns1.len() == ns2.len(),
        forall|k: int| 0 <= k < ns1.len() ==> node_wire(#[trigger] ns1[k], fs) == node_wire(
            ns2[k],
            fs,
        ),
{
    lemma_frames_unique_from(b, ns1, ns2, 0, 0, fs);
    assert forall|k: int| 0 <= k < ns1.len() implies node_wire(#[trigger] ns1[k], fs)
        == node_wire(ns2[k], fs) by {
        assert(node_wire(ns1[0 + k], fs) == node_wire(ns2[0 + k], fs));
    }
}

/// `lemma_frames_unique`, generalized over start indices into both lists.
#[verifier::rlimit(60)]
proof fn lemma_frames_unique_from(
    b: Seq<u8>,
    ns1: Seq<MultipartNode>,
    ns2: Seq<MultipartNode>,
    i: int,
    j: int,
    fs: Map<Seq<char>, Seq<u8>>,
)
    requires
        0 <= i <= ns1.len(),
        0 <= j <= ns2.len(),
        frames_clean(b, ns1, fs),
        frames_clean(b, ns2, fs),
        parts_wire_from(b, ns1, i, fs) + closing(b) == parts_wire_from(b, ns2, j, fs) + closing(
            b,
        ),
    ensures
        ns1.len() - i == ns2.len() - j,
        forall|k: int|
            0 <= k < ns1.len() - i ==> node_wire(#[trigger] ns1[i + k], fs) == node_wire(
                ns2[j + k],
                fs,
            ),
    decreases ns1.len() - i,
{
    let t1 = parts_wire_from(b, ns1, i, fs) + closing(b);
    let t2 = parts_wire_from(b, ns2, j, fs) + closing(b);
    if i == ns1.len() && j == ns2.len() {
    } else if i == ns1.len() {
        lemma_closing_is_no_part(b, ns2, j, fs);
        assert(t1 =~= closing(b));
    } else if j == ns2.len() {
        lemma_closing_is_no_part(b, ns1, i, fs);
        assert(t2 =~= closing(b));
    } else {
        let w1 = node_wire(ns1[i], fs);
        let w2 = node_wire(ns2[j], fs);
        let r1 = parts_wire_from(b, ns1, i + 1, fs) + closing(b);
        let r2 = parts_wire_from(b, ns2, j + 1, fs) + closing(b);
        let u1 = w1 + crlf() + r1;
        let u2 = w2 + crlf() + r2;
        assert(t1 =~= delim(b) + u1);
        assert(t2 =~= delim(b) + u2);
        lemma_prefix_cancel(delim(b), u1, u2);
        lemma_tail_starts_with_dashes(b, ns1, i + 1, fs);
        lemma_tail_starts_with_dashes(b, ns2, j + 1, fs);
        let y1 = r1.skip(2 + b.len() as int);
        let y2 = r2.skip(2 + b.len() as int);
        let tok = delim_token(b);
        assert(u1 =~= w1 + tok + y1);
        assert(u2 =~= w2 + tok + y2);
        lemma_token_split(w1, y1, w2, y2, tok);
        assert(r1 =~= r2);
        lemma_frames_unique_from(b, ns1, ns2, i + 1, j + 1, fs);
        assert forall|k: int|
            0 <= k < ns1.len() - i implies node_wire(#[trigger] ns1[i + k], fs) == node_wire(
            ns2[j + k],
            fs,
        ) by {
            if k > 0 {
                assert(node_wire(ns1[i + 1 + (k - 1)], fs) == node_wire(ns2[j + 1 + (k - 1)], fs));
            }
        }
    }
}

/// The tail of a body from any index starts with `--` and the boundary.
proof fn lemma_tail_starts_with_dashes(
    b: Seq<u8>,
    ns: Seq<MultipartNode>,
    i: int,
    fs: Map<Seq<char>, Seq<u8>>,
)
    requires
        0 <= i <= ns.len(),
    ensures
        parts_wire_from(b, ns, i, fs) + closing(b) == (crate::header::double_dash() + b) + (
        parts_wire_from(b, ns, i, fs) + closing(b)).skip(2 + b.len() as int),
{
    let r = parts_wire_from(b, ns, i, fs) + closing(b);
    if i >= ns.len() {
        assert(r =~= closing(b));
        assert(r =~= (crate::header::double_dash() + b) + r.skip(2 + b.len() as int));
    } else {
        assert(parts_wire_from(b, ns, i, fs) == delim(b) + node_wire(ns[i], fs) + crlf()
            + parts_wire_from(b, ns, i + 1, fs));
        assert(r =~= (crate::header::double_dash() + b) + r.skip(2 + b.len() as int));
    }
}

/// A closing delimiter alone never equals a body that still has a part:
/// they differ right after the boundary, dash against CR.
proof fn lemma_closing_is_no_part(
    b: Seq<u8>,
    ns: Seq<MultipartNode>,
    i: int,
    fs: Map<Seq<char>, Seq<u8>>,
)
    requires
        0 <= i < ns.len(),
    ensures
        closing(b) != parts_wire_from(b, ns, i, fs) + closing(b),
{
    let q = 2 + b.len() as int;
    let t = parts_wire_from(b, ns, i, fs) + closing(b);
    assert(closing(b)[q] == 45) by {
        assert(closing(b) == crate::header::double_dash() + b + crate::header::double_dash());
        assert((crate::header::double_dash() + b + crate::header::double_dash())[q] == 45);
    }
    assert(parts_wire_from(b, ns, i, fs) == delim(b) + node_wire(ns[i], fs) + crlf()
        + parts_wire_from(b, ns, i + 1, fs));
    assert(t[q] == 13) by {
        assert(delim(b)[q] == 13);
        assert(t[q] == delim(b)[q]);
    }
    assert(closing(b).len() == q + 2);
    assert(t.len() > q);
}

/// No byte of `s` equals `b`.
pub open spec fn free_of(s: Seq<u8>, b: u8) -> bool {
    forall|p: int| 0 <= p < s.len() ==> s[p] != b
}

/// A string without the token's first byte is clean of the token.
proof fn lemma_free_clean(x: Seq<u8>, t: Seq<u8>)
    requires
        t.len() > 0,
        free_of(x, t[0]),
    ensures
        clean(x, t),
{
    assert forall|p: int| 0 <= p < x.len() implies #[trigger] (x + t).subrange(p, p + t.len())
        != t by {
        assert((x + t).subrange(p, p + t.len())[0] == (x + t)[p]);
        assert((x + t)[p] == x[p]);
    }
}

/// Header text a parser can split: a non-empty name free of CR, LF and
/// colon, and a value free of CR and LF.
pub open spec fn header_text_ok(h: crate::header::HeaderV) -> bool {
    &&& h.name.len() > 0
    &&& free_of(h.name, 13)
    &&& free_of(h.name, 10)
    &&& free_of(h.name, 58)
    &&& free_of(h.value, 13)
    &&& free_of(h.value, 10)
}

/// `header_text_ok` for a whole header list.
pub open spec fn headers_text_ok(hs: Seq<crate::header::Header>) -> bool {
    forall|i: int| 0 <= i < hs.len() ==> header_text_ok((#[trigger] hs[i])@)
}

/// The bytes of one header line before its CRLF: name, colon and space,
/// value.
pub open spec fn line_of(h: crate::header::Header) -> Seq<u8> {
    h.name@ + crate::header::colon_space() + h.value@
}

/// A hygienic header line is free of CR.
proof fn lemma_line_cr_free(h: crate::header::Header)
    requires
        header_text_ok(h@),
    ensures
        free_of(line_of(h), 13),
{
    let cs = crate::header::colon_space();
    assert forall|p: int| 0 <= p < line_of(h).len() implies line_of(h)[p] != 13 by {
        if p < h.name@.len() {
            assert(line_of(h)[p] == (h.name@ + cs)[p]);
            assert((h.name@ + cs)[p] == h.name@[p]);
        } else if p < h.name@.len() + 2 {
            assert(line_of(h)[p] == (h.name@ + cs)[p]);
            assert((h.name@ + cs)[p] == cs[p - h.name@.len()]);
        } else {
            assert(line_of(h)[p] == h.value@[p - (h.name@.len() + 2)]);
        }
    }
}

/// Headers and body are read back from a part's framed bytes: two
/// hygienic header lists followed by a blank line and a body that encode
/// to the same bytes are the same headers and the same body.
pub proof fn lemma_headers_unique(
    hs1: Seq<crate::header::Header>,
    b1: Seq<u8>,
    hs2: Seq<crate::header::Header>,
    b2: Seq<u8>,
)
    requires
        headers_text_ok(hs1),
        headers_text_ok(hs2),
        crate::header::headers_wire(hs1) + crlf() + b1 == crate::header::headers_wire(hs2)
            + crlf() + b2,
    ensures
        crate::header::hviews(hs1) == crate::header::hviews(hs2),
        b1 == b2,
    decreases hs1.len(),
{
    if hs1.len() == 0 && hs2.len() == 0 {
        assert(crate::header::headers_wire(hs1) + crlf() + b1 =~= crlf() + b1);
        assert(crate::header::headers_wire(hs2) + crlf() + b2 =~= crlf() + b2);
        lemma_prefix_cancel(crlf(), b1, b2);
        assert(crate::header::hviews(hs1) =~= crate::header::hviews(hs2));
    } else if hs1.len() == 0 {
        lemma_headers_lead_byte(hs1, b1, hs2, b2);
    } else if hs2.len() == 0 {
        lemma_headers_lead_byte(hs2, b2, hs1, b1);
    } else {
        let x1 = line_of(hs1[0]);
        let x2 = line_of(hs2[0]);
        let t1 = hs1.drop_first();
        let t2 = hs2.drop_first();
        let y1 = crate::header::headers_wire(t1) + crlf() + b1;
        let y2 = crate::header::headers_wire(t2) + crlf() + b2;
        assert(crate::header::headers_wire(hs1) + crlf() + b1 =~= x1 + crlf() + y1);
        assert(crate::header::headers_wire(hs2) + crlf() + b2 =~= x2 + crlf() + y2);
        lemma_line_cr_free(hs1[0]);
        lemma_line_cr_free(hs2[0]);
        assert(crlf()[0] == 13);
        lemma_free_clean(x1, crlf());
        lemma_free_clean(x2, crlf());
        lemma_token_split(x1, y1, x2, y2, crlf());
        let cs = crate::header::colon_space();
        assert(cs[0] == 58);
        lemma_free_clean(hs1[0].name@, cs);
        lemma_free_clean(hs2[0].name@, cs);
        lemma_token_split(hs1[0].name@, hs1[0].value@, hs2[0].name@, hs2[0].value@, cs);
        assert forall|i: int| 0 <= i < t1.len() implies header_text_ok((#[trigger] t1[i])@) by {
            assert(t1[i] == hs1[i + 1]);
        }
        assert forall|i: int| 0 <= i < t2.len() implies header_text_ok((#[trigger] t2[i])@) by {
            assert(t2[i] == hs2[i + 1]);
        }
        lemma_headers_unique(t1, b1, t2, b2);
        assert(crate::header::hviews(t1).len() == t1.len());
        assert(crate::header::hviews(t2).len() == t2.len());
        assert(hs1.len() == hs2.len());
        assert(crate::header::hviews(hs1).len() == hs1.len());
        assert(crate::header::hviews(hs2).len() == hs2.len());
        assert forall|k: int|
            0 <= k < hs1.len() implies crate::header::hviews(hs1)[k] == crate::header::hviews(
            hs2,
        )[k] by {
            if k == 0 {
                assert(hs1[0]@ == hs2[0]@);
            } else {
                assert(crate::header::hviews(t1)[k - 1] == crate::header::hviews(t2)[k - 1]);
                assert(crate::header::hviews(t1)[k - 1] == t1[k - 1]@);
                assert(t1[k - 1] == hs1[k]);
                assert(crate::header::hviews(t2)[k - 1] == t2[k - 1]@);
                assert(t2[k - 1] == hs2[k]);
            }
        }
        assert(crate::header::hviews(hs1) =~= crate::header::hviews(hs2));
    }
}

/// An empty header block and a non-empty one never frame the same bytes:
/// they differ at the very first byte, CR against a name byte.
proof fn lemma_headers_lead_byte(
    hs1: Seq<crate::header::Header>,
    b1: Seq<u8>,
    hs2: Seq<crate::header::Header>,
    b2: Seq<u8>,
)
    requires
        hs1.len() == 0,
        hs2.len() > 0,
        headers_text_ok(hs2),
        crate::header::headers_wire(hs1) + crlf() + b1 == crate::header::headers_wire(hs2)
            + crlf() + b2,
    ensures
        crate::header::hviews(hs1) == crate::header::hviews(hs2),
        b1 == b2,
{
    let lhs = crate::header::headers_wire(hs1) + crlf() + b1;
    let rhs = crate::header::headers_wire(hs2) + crlf() + b2;
    assert(lhs[0] == 13) by {
        assert(lhs =~= crlf() + b1);
        assert((crlf() + b1)[0] == crlf()[0]);
    }
    assert(rhs[0] == hs2[0].name@[0]) by {
        let w0 = hs2[0].wire();
        assert(crate::header::headers_wire(hs2) == w0 + crate::header::headers_wire(
            hs2.drop_first(),
        ));
        assert(rhs =~= w0 + (crate::header::headers_wire(hs2.drop_first()) + crlf() + b2));
        assert(w0.len() > 0);
        assert((w0 + (crate::header::headers_wire(hs2.drop_first()) + crlf() + b2))[0] == w0[0]);
        assert(w0 =~= hs2[0].name@ + (crate::header::colon_space() + hs2[0].value@ + crlf()));
        assert(w0[0] == hs2[0].name@[0]);
    }
    assert(hs2[0].name@[0] != 13);
}

/// The full round trip for a body of plain parts: a parser that splits
/// the wire bytes at the delimiter lines, then each part at its blank
/// line, then each header line at its colon, recovers exactly the ordered
/// parts that were encoded — identical headers and identical body bytes —
/// because no other part list frames to the same bytes. Hygiene asked:
/// each part's framed bytes clean of the delimiter token, and header text
/// a parser can split.
pub proof fn lemma_body_round_trip(
    b: Seq<u8>,
    ns1: Seq<MultipartNode>,
    ns2: Seq<MultipartNode>,
    fs: Map<Seq<char>, Seq<u8>>,
)
    requires
        frames_clean(b, ns1, fs),
        frames_clean(b, ns2, fs),
        forall|i: int|
            0 <= i < ns1.len() ==> (#[trigger] ns1[i]) is Part && headers_text_ok(
                ns1[i]->Part_0.headers@,
            ),
        forall|i: int|
            0 <= i < ns2.len() ==> (#[trigger] ns2[i]) is Part && headers_text_ok(
                ns2[i]->Part_0.headers@,
            ),
        body_wire(b, ns1, fs) == body_wire(b, ns2, fs),
    ensures
        ns1.len() == ns2.len(),
        forall|k: int|
            0 <= k < ns1.len() ==> crate::header::hviews((#[trigger] ns1[k])->Part_0.headers@)
                == crate::header::hviews(ns2[k]->Part_0.headers@) && ns1[k]->Part_0.body@
                == ns2[k]->Part_0.body@,
{
    lemma_frames_unique(b, ns1, ns2, fs);
    assert forall|k: int|
        0 <= k < ns1.len() implies crate::header::hviews((#[trigger] ns1[k])->Part_0.headers@)
        == crate::header::hviews(ns2[k]->Part_0.headers@) && ns1[k]->Part_0.body@
        == ns2[k]->Part_0.body@ by {
        assert(node_wire(ns1[k], fs) == node_wire(ns2[k], fs));
        let p1 = ns1[k]->Part_0;
        let p2 = ns2[k]->Part_0;
        assert(node_wire(ns1[k], fs) == crate::header::headers_wire(p1.headers@) + crlf()
            + p1.body@);
        assert(node_wire(ns2[k], fs) == crate::header::headers_wire(p2.headers@) + crlf()
            + p2.body@);
        lemma_headers_unique(p1.headers@, p1.body@, p2.headers@, p2.body@);
    }
}

/// Does every nested node of this tree declare a usable boundary?
pub open spec fn node_boundaries_ok(n: MultipartNode) -> bool
    decreases n, 2int, 0int,
{
    match n {
        MultipartNode::Part(p) => true,
        MultipartNode::File(f) => true,
        MultipartNode::Nested { headers, children } => {
            crate::boundary::boundary_of_headers(headers@) is Some && nodes_boundaries_ok(
                children@,
                0,
            )
        },
    }
}

/// `node_boundaries_ok` over the nodes from index `i` on.
pub open spec fn nodes_boundaries_ok(ns: Seq<MultipartNode>, i: int) -> bool
    decreases ns, 0int, ns.len() - i,
{
    if i < 0 || i >= ns.len() {
        true
    } else {
        node_boundaries_ok(ns[i]) && nodes_boundaries_ok(ns, i + 1)
    }
}

/// Does this tree hold a file whose length is neither carried by its node
/// nor found in the measurement table?
pub open spec fn node_has_unmeasured(n: MultipartNode, table: Seq<FileLen>) -> bool
    decreases n, 2int, 0int,
{
    match n {
        MultipartNode::Part(p) => false,
        MultipartNode::File(f) => file_len_of(f, table) is None,
        MultipartNode::Nested { headers, children } => nodes_have_unmeasured(
            children@,
            0,
            table,
        ),
    }
}

/// `node_has_unmeasured` over the nodes from index `i` on.
pub open spec fn nodes_have_unmeasured(ns: Seq<MultipartNode>, i: int, table: Seq<FileLen>) -> bool
    decreases ns, 0int, ns.len() - i,
{
    if i < 0 || i >= ns.len() {
        false
    } else {
        node_has_unmeasured(ns[i], table) || nodes_have_unmeasured(ns, i + 1, table)
    }
}

/// Failing closed, and success owed: when every nested node of the tree
/// declares a usable boundary, the build fails — with exactly
/// `InvalidFile`, and no partial result — precisely when some file in the
/// tree is unmeasured.
pub proof fn lemma_missing_file_fails(
    boundary: Seq<u8>,
    nodes: Seq<MultipartNode>,
    table: Seq<FileLen>,
)
    requires
        nodes_boundaries_ok(nodes, 0),
    ensures
        nodes_have_unmeasured(nodes, 0, table) <==> plan_body(boundary, nodes, table) == Err::<
            Seq<SegView>,
            Error,
        >(Error::InvalidFile),
        !nodes_have_unmeasured(nodes, 0, table) <==> plan_body(boundary, nodes, table) is Ok,
{
    lemma_measured_parts(boundary, nodes, 0, table);
}

/// `lemma_missing_file_fails` for one node.
proof fn lemma_measured_node(node: MultipartNode, table: Seq<FileLen>)
    requires
        node_boundaries_ok(node),
    ensures
        node_has_unmeasured(node, table) ==> plan_node(node, table) == Err::<Seq<SegView>, Error>(
            Error::InvalidFile,
        ),
        !node_has_unmeasured(node, table) ==> plan_node(node, table) is Ok,
    decreases node, 2int, 0int,
{
    match node {
        MultipartNode::Part(p) => {
        },
        MultipartNode::File(f) => {
        },
        MultipartNode::Nested { headers, children } => {
            let b = crate::boundary::boundary_of_headers(headers@)->Some_0;
            lemma_measured_parts(b, children@, 0, table);
        },
    }
}

/// `lemma_missing_file_fails` for the nodes from index `i` on.
proof fn lemma_measured_parts(
    boundary: Seq<u8>,
    nodes: Seq<MultipartNode>,
    i: int,
    table: Seq<FileLen>,
)
    requires
        nodes_boundaries_ok(nodes, i),
    ensures
        nodes_have_unmeasured(nodes, i, table) ==> plan_parts_from(boundary, nodes, i, table)
            == Err::<Seq<SegView>, Error>(Error::InvalidFile),
        !nodes_have_unmeasured(nodes, i, table) ==> plan_parts_from(boundary, nodes, i, table)
            is Ok,
    decreases nodes, 0int, nodes.len() - i,
{
    if i < 0 || i >= nodes.len() {
    } else {
        lemma_measured_node(nodes[i], table);
        lemma_measured_parts(boundary, nodes, i + 1, table);
    }
}

} // verus!
