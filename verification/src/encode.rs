//! What a multipart body is, mathematically: its RFC 2046 wire form, and
//! the segment plan a builder produces for it.

use vstd::prelude::*;

use crate::boundary::boundary_of_headers;
use crate::error::Error;
use crate::header::{crlf, double_dash, headers_wire};
use crate::node::{file_len_of, FileLen, MultipartNode};
use crate::stream::SegView;

verus! {

broadcast use vstd::std_specs::vec::group_vec_axioms;

/// The delimiter line that opens a part: `--boundary\r\n`.
pub open spec fn delim(boundary: Seq<u8>) -> Seq<u8> {
    double_dash() + boundary + crlf()
}

/// The closing delimiter of a body: `--boundary--`, with no trailing CRLF.
pub open spec fn closing(boundary: Seq<u8>) -> Seq<u8> {
    double_dash() + boundary + double_dash()
}

/// The wire bytes of one node's content, between its delimiter line and its
/// terminating CRLF. `fs` assigns content bytes to file paths; a nested node
/// whose headers yield no boundary contributes nothing (such a tree never
/// encodes successfully).
pub open spec fn node_wire(node: MultipartNode, fs: Map<Seq<char>, Seq<u8>>) -> Seq<u8>
    decreases node, 2int, 0int,
{
    match node {
        MultipartNode::Part(p) => headers_wire(p.headers@) + crlf() + p.body@,
        MultipartNode::File(f) => headers_wire(f.headers@) + crlf() + fs[f.path@],
        MultipartNode::Nested { headers, children } => {
            headers_wire(headers@) + crlf() + match boundary_of_headers(headers@) {
                Some(b) => body_wire(b, children@, fs),
                None => Seq::<u8>::empty(),
            }
        },
    }
}

/// The wire bytes of the nodes from index `i` on: for each one a delimiter
/// line, its content, and a terminating CRLF.
pub open spec fn parts_wire_from(
    boundary: Seq<u8>,
    nodes: Seq<MultipartNode>,
    i: int,
    fs: Map<Seq<char>, Seq<u8>>,
) -> Seq<u8>
    decreases nodes, 0int, nodes.len() - i,
{
    if i < 0 || i >= nodes.len() {
        Seq::<u8>::empty()
    } else {
        delim(boundary) + node_wire(nodes[i], fs) + crlf() + parts_wire_from(
            boundary,
            nodes,
            i + 1,
            fs,
        )
    }
}

/// The full wire form of a multipart body: every node in order, then the
/// closing delimiter.
pub open spec fn body_wire(
    boundary: Seq<u8>,
    nodes: Seq<MultipartNode>,
    fs: Map<Seq<char>, Seq<u8>>,
) -> Seq<u8>
    decreases nodes, 1int, 0int,
{
    parts_wire_from(boundary, nodes, 0, fs) + closing(boundary)
}

/// The segments one node contributes, between its delimiter line and its
/// terminating CRLF; or the first error met. A file's declared length comes
/// from the node itself or, failing that, from the measurement table.
pub open spec fn plan_node(node: MultipartNode, table: Seq<FileLen>) -> Result<Seq<SegView>, Error>
    decreases node, 2int, 0int,
{
    match node {
        MultipartNode::Part(p) => Ok(
            seq![SegView::Data(headers_wire(p.headers@) + crlf() + p.body@)],
        ),
        MultipartNode::File(f) => match file_len_of(f, table) {
            Some(n) => Ok(
                seq![
                    SegView::Data(headers_wire(f.headers@) + crlf()),
                    SegView::FileRef { path: f.path@, len: n },
                ],
            ),
            None => Err(Error::InvalidFile),
        },
        MultipartNode::Nested { headers, children } => match boundary_of_headers(headers@) {
            Some(b) => match plan_body(b, children@, table) {
                Ok(sub) => Ok(seq![SegView::Data(headers_wire(headers@) + crlf())] + sub),
                Err(e) => Err(e),
            },
            None => Err(Error::MalformedNestedBoundary),
        },
    }
}

/// The segments of the nodes from index `i` on: for each one a delimiter
/// line, its own segments, and a terminating CRLF; or the first error met,
/// in node order.
pub open spec fn plan_parts_from(
    boundary: Seq<u8>,
    nodes: Seq<MultipartNode>,
    i: int,
    table: Seq<FileLen>,
) -> Result<Seq<SegView>, Error>
    decreases nodes, 0int, nodes.len() - i,
{
    if i < 0 || i >= nodes.len() {
        Ok(Seq::<SegView>::empty())
    } else {
        match plan_node(nodes[i], table) {
            Ok(nsegs) => match plan_parts_from(boundary, nodes, i + 1, table) {
                Ok(rest) => Ok(
                    seq![SegView::Data(delim(boundary))] + nsegs + seq![SegView::Data(crlf())]
                        + rest,
                ),
                Err(e) => Err(e),
            },
            Err(e) => Err(e),
        }
    }
}

/// The segment plan of a whole multipart body: every node in order, then
/// the closing delimiter; or the first error met.
pub open spec fn plan_body(
    boundary: Seq<u8>,
    nodes: Seq<MultipartNode>,
    table: Seq<FileLen>,
) -> Result<Seq<SegView>, Error>
    decreases nodes, 1int, 0int,
{
    match plan_parts_from(boundary, nodes, 0, table) {
        Ok(s) => Ok(s + seq![SegView::Data(closing(boundary))]),
        Err(e) => Err(e),
    }
}

} // verus!
