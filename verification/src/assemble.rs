//! The builder: turns a boundary and a node tree into the exact segment
//! plan of the body, with its total byte count, or the first error met.

use vstd::prelude::*;

use crate::boundary::multipart_boundary;
use crate::encode::{closing, delim, plan_body, plan_node, plan_parts_from};
use crate::error::Error;
use crate::header::{crlf, headers_wire, push_bytes, push_headers};
use crate::node::{FileLen, MultipartNode};
use crate::stream::{segments_view, segs_len, BodyReader, SegView, Segment};

verus! {

/// Appends the delimiter line `--boundary\r\n` to `out`.
fn push_delim(out: &mut Vec<u8>, boundary: &Vec<u8>)
    ensures
        final(out)@ == old(out)@ + delim(boundary@),
{
    out.push(45);
    out.push(45);
    push_bytes(out, boundary);
    out.push(13);
    out.push(10);
    proof {
        assert(out@ =~= old(out)@ + delim(boundary@));
    }
}

/// Appends the closing delimiter `--boundary--` to `out`.
fn push_closing(out: &mut Vec<u8>, boundary: &Vec<u8>)
    ensures
        final(out)@ == old(out)@ + closing(boundary@),
{
    out.push(45);
    out.push(45);
    push_bytes(out, boundary);
    out.push(45);
    out.push(45);
    proof {
        assert(out@ =~= old(out)@ + closing(boundary@));
    }
}

/// Appends one node's own segments to `out`, or reports the node's first
/// error and leaves `out` to be discarded.
fn build_node(node: &MultipartNode, table: &Vec<FileLen>, out: &mut Vec<Segment>) -> (r: Result<
    (),
    Error,
>)
    ensures
        match plan_node(*node, table@) {
            Ok(segs) => r is Ok && segments_view(final(out)@) == segments_view(old(out)@) + segs,
            Err(e) => r == Err::<(), Error>(e),
        },
    decreases *node, 2int, 0int,
{
    match node {
        MultipartNode::Part(p) => {
            let mut data: Vec<u8> = Vec::new();
            push_headers(&mut data, &p.headers);
            data.push(13);
            data.push(10);
            push_bytes(&mut data, &p.body);
            proof {
                assert(data@ =~= headers_wire(p.headers@) + crlf() + p.body@);
            }
            out.push(Segment::Data(data));
            proof {
                assert(segments_view(out@) =~= segments_view(old(out)@) + seq![
                    SegView::Data(headers_wire(p.headers@) + crlf() + p.body@),
                ]);
            }
            Ok(())
        },
        MultipartNode::File(f) => {
            let n_opt: Option<u64> = match f.size {
                Some(n) => Some(n),
                None => crate::node::lookup_len(table, &f.path),
            };
            match n_opt {
                None => Err(Error::InvalidFile),
                Some(n) => {
                    let mut data: Vec<u8> = Vec::new();
                    push_headers(&mut data, &f.headers);
                    data.push(13);
                    data.push(10);
                    proof {
                        assert(data@ =~= headers_wire(f.headers@) + crlf());
                    }
                    out.push(Segment::Data(data));
                    out.push(Segment::FileRef { path: f.path.clone(), len: n });
                    proof {
                        assert(segments_view(out@) =~= segments_view(old(out)@) + seq![
                            SegView::Data(headers_wire(f.headers@) + crlf()),
                            SegView::FileRef { path: f.path@, len: n },
                        ]);
                    }
                    Ok(())
                },
            }
        },
        MultipartNode::Nested { headers, children } => {
            match multipart_boundary(headers) {
                None => Err(Error::MalformedNestedBoundary),
                Some(b) => {
                    let mut data: Vec<u8> = Vec::new();
                    push_headers(&mut data, headers);
                    data.push(13);
                    data.push(10);
                    proof {
                        assert(data@ =~= headers_wire(headers@) + crlf());
                    }
                    out.push(Segment::Data(data));
                    proof {
                        assert(segments_view(out@) =~= segments_view(old(out)@) + seq![
                            SegView::Data(headers_wire(headers@) + crlf()),
                        ]);
                    }
                    let ghost mid = segments_view(out@);
                    match build_parts_from(&b, children, 0, table, out) {
                        Err(e) => Err(e),
                        Ok(()) => {
                            let mut cl: Vec<u8> = Vec::new();
                            push_closing(&mut cl, &b);
                            out.push(Segment::Data(cl));
                            proof {
                                assert(plan_parts_from(b@, children@, 0, table@) is Ok);
                                let parts = plan_parts_from(b@, children@, 0, table@)->Ok_0;
                                assert(plan_body(b@, children@, table@) == Ok::<
                                    Seq<SegView>,
                                    Error,
                                >(parts + seq![SegView::Data(closing(b@))]));
                                let sub = plan_body(b@, children@, table@)->Ok_0;
                                assert(segments_view(out@) =~= mid + parts + seq![
                                    SegView::Data(closing(b@)),
                                ]);
                                assert(segments_view(out@) =~= segments_view(old(out)@) + (seq![
                                    SegView::Data(headers_wire(headers@) + crlf()),
                                ] + sub));
                            }
                            Ok(())
                        },
                    }
                },
            }
        },
    }
}

/// Appends the segments of the nodes from index `i` on to `out`: for each
/// one a delimiter line, its own segments, and a terminating CRLF. On an
/// error, `out` is to be discarded.
fn build_parts_from(
    boundary: &Vec<u8>,
    nodes: &Vec<MultipartNode>,
    i: usize,
    table: &Vec<FileLen>,
    out: &mut Vec<Segment>,
) -> (r: Result<(), Error>)
    requires
        i <= nodes@.len(),
    ensures
        match plan_parts_from(boundary@, nodes@, i as int, table@) {
            Ok(segs) => r is Ok && segments_view(final(out)@) == segments_view(old(out)@) + segs,
            Err(e) => r == Err::<(), Error>(e),
        },
    decreases nodes@, 0int, nodes@.len() - i,
{
    if i >= nodes.len() {
        proof {
            assert(segments_view(out@) =~= segments_view(out@) + Seq::<SegView>::empty());
        }
        return Ok(());
    }
    let mut dl: Vec<u8> = Vec::new();
    push_delim(&mut dl, boundary);
    out.push(Segment::Data(dl));
    proof {
        assert(segments_view(out@) =~= segments_view(old(out)@) + seq![
            SegView::Data(delim(boundary@)),
        ]);
    }
    let ghost after_delim = segments_view(out@);
    match build_node(&nodes[i], table, out) {
        Err(e) => Err(e),
        Ok(()) => {
            let mut tl: Vec<u8> = Vec::new();
            tl.push(13);
            tl.push(10);
            proof {
                assert(tl@ =~= crlf());
            }
            out.push(Segment::Data(tl));
            let ghost after_node = after_delim + plan_node(nodes@[i as int], table@)->Ok_0;
            proof {
                assert(segments_view(out@) =~= after_node + seq![SegView::Data(crlf())]);
            }
            let ghost before_rest = segments_view(out@);
            match build_parts_from(boundary, nodes, i + 1, table, out) {
                Err(e) => Err(e),
                Ok(()) => {
                    proof {
                        assert(plan_node(nodes@[i as int], table@) is Ok);
                        assert(plan_parts_from(boundary@, nodes@, i + 1, table@) is Ok);
                        let nsegs = plan_node(nodes@[i as int], table@)->Ok_0;
                        let rest = plan_parts_from(boundary@, nodes@, i + 1, table@)->Ok_0;
                        assert(plan_parts_from(boundary@, nodes@, i as int, table@) == Ok::<
                            Seq<SegView>,
                            Error,
                        >(
                            seq![SegView::Data(delim(boundary@))] + nsegs + seq![
                                SegView::Data(crlf()),
                            ] + rest,
                        ));
                        assert(segments_view(out@) == before_rest + rest);
                        assert(segments_view(out@) =~= segments_view(old(out)@) + (seq![
                            SegView::Data(delim(boundary@)),
                        ] + nsegs + seq![SegView::Data(crlf())] + rest));
                    }
                    Ok(())
                },
            }
        },
    }
}

/// Sums the declared lengths of `segs`, or reports that they do not fit in
/// a machine integer.
fn sum_segment_lens(segs: &Vec<Segment>) -> (r: Option<usize>)
    ensures
        match r {
            Some(n) => n == segs_len(segments_view(segs@)),
            None => segs_len(segments_view(segs@)) > usize::MAX,
        },
{
    let ghost all = segments_view(segs@);
    let mut total: usize = 0;
    let mut i: usize = 0;
    proof {
        assert(all.take(0) =~= Seq::<SegView>::empty());
    }
    while i < segs.len()
        invariant
            i <= segs@.len(),
            all == segments_view(segs@),
            total == segs_len(all.take(i as int)),
        decreases segs@.len() - i,
    {
        proof {
            assert(all[i as int] == segs@[i as int]@);
        }
        let l: usize = match &segs[i] {
            Segment::Data(d) => d.len(),
            Segment::FileRef { path, len } => {
                if *len > usize::MAX as u64 {
                    proof {
                        lemma_segs_len_take_step(all, i as int);
                        lemma_segs_len_take_le(all, i as int + 1);
                    }
                    return None;
                }
                *len as usize
            },
        };
        proof {
            lemma_segs_len_take_step(all, i as int);
        }
        if l > usize::MAX - total {
            proof {
                lemma_segs_len_take_le(all, i as int + 1);
            }
            return None;
        }
        total = total + l;
        i = i + 1;
    }
    proof {
        assert(all.take(segs@.len() as int) =~= all);
    }
    Some(total)
}

/// `segs_len` of a prefix grows by the next segment's length.
proof fn lemma_segs_len_take_step(segs: Seq<SegView>, i: int)
    requires
        0 <= i < segs.len(),
    ensures
        segs_len(segs.take(i + 1)) == segs_len(segs.take(i)) + seg_len_of(segs[i]),
{
    lemma_segs_len_snoc(segs.take(i), segs[i]);
    assert(segs.take(i + 1) =~= segs.take(i).push(segs[i]));
}

/// A name for `crate::stream::seg_len`, kept local to the lemmas here.
spec fn seg_len_of(s: SegView) -> nat {
    crate::stream::seg_len(s)
}

/// `segs_len` over a sequence with one segment appended.
proof fn lemma_segs_len_snoc(segs: Seq<SegView>, s: SegView)
    ensures
        segs_len(segs.push(s)) == segs_len(segs) + seg_len_of(s),
    decreases segs.len(),
{
    if segs.len() == 0 {
        assert(segs.push(s).drop_first() =~= Seq::<SegView>::empty());
        assert(segs.push(s)[0] == s);
        assert(segs_len(Seq::<SegView>::empty()) == 0);
    } else {
        assert(segs.push(s).drop_first() =~= segs.drop_first().push(s));
        assert(segs.push(s)[0] == segs[0]);
        lemma_segs_len_snoc(segs.drop_first(), s);
    }
}

/// A prefix never declares more bytes than the whole.
proof fn lemma_segs_len_take_le(segs: Seq<SegView>, i: int)
    requires
        0 <= i <= segs.len(),
    ensures
        segs_len(segs.take(i)) <= segs_len(segs),
    decreases segs.len() - i,
{
    if i < segs.len() {
        lemma_segs_len_take_step(segs, i);
        lemma_segs_len_take_le(segs, i + 1);
    } else {
        assert(segs.take(i) =~= segs);
    }
}

/// Assembles the multipart body for `nodes` framed with `boundary`: the
/// exact total byte count and the single-pass segment reader. File lengths
/// come from each node's own `size` or, failing that, from `table`; the
/// body fails as a whole on the first node in order whose file is
/// unmeasured or whose nested boundary is malformed, and no partial reader
/// is handed back.
pub fn multipart_to_read(
    boundary: Vec<u8>,
    nodes: Vec<MultipartNode>,
    table: &Vec<FileLen>,
) -> (r: Result<(usize, BodyReader), Error>)
    requires
        boundary@.len() > 0,
    ensures
        match plan_body(boundary@, nodes@, table@) {
            Ok(segs) => if segs_len(segs) <= usize::MAX {
                r matches Ok((count, reader)) && count == segs_len(segs) && reader@ == segs
            } else {
                r == Err::<(usize, BodyReader), Error>(Error::TooLarge)
            },
            Err(e) => r == Err::<(usize, BodyReader), Error>(e),
        },
{
    let mut segs: Vec<Segment> = Vec::new();
    match build_parts_from(&boundary, &nodes, 0, table, &mut segs) {
        Err(e) => {
            return Err(e);
        },
        Ok(()) => {},
    }
    let mut cl: Vec<u8> = Vec::new();
    push_closing(&mut cl, &boundary);
    segs.push(Segment::Data(cl));
    proof {
        let parts = plan_parts_from(boundary@, nodes@, 0, table@)->Ok_0;
        assert(segments_view(segs@) =~= parts + seq![SegView::Data(closing(boundary@))]);
    }
    match sum_segment_lens(&segs) {
        None => Err(Error::TooLarge),
        Some(count) => Ok((count, BodyReader { segments: segs })),
    }
}

} // verus!
