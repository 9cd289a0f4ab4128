//! The segments of an assembled body and the single-pass reader over them.

use vstd::prelude::*;

verus! {

/// One piece of an assembled multipart body.
#[derive(Debug)]
pub enum Segment {
    /// Bytes held in memory: delimiter lines, headers, field content.
    Data(Vec<u8>),
    /// `len` bytes to be read from the file at `path` when the body is
    /// sent. The builder never reads them; holding the reference keeps the
    /// memory cost of a body independent of its files' sizes.
    FileRef { path: String, len: u64 },
}

/// The mathematical shape of a segment.
pub enum SegView {
    Data(Seq<u8>),
    FileRef { path: Seq<char>, len: u64 },
}

impl View for Segment {
    type V = SegView;

    open spec fn view(&self) -> SegView {
        match self {
            Segment::Data(b) => SegView::Data(b@),
            Segment::FileRef { path, len } => SegView::FileRef { path: path@, len: *len },
        }
    }
}

/// The views of a segment vector, in order.
pub open spec fn segments_view(v: Seq<Segment>) -> Seq<SegView> {
    v.map_values(|s: Segment| s@)
}

/// The bytes one segment stands for, given the contents `fs` assigns to
/// file paths.
pub open spec fn seg_bytes(s: SegView, fs: Map<Seq<char>, Seq<u8>>) -> Seq<u8> {
    match s {
        SegView::Data(b) => b,
        SegView::FileRef { path, len } => fs[path],
    }
}

/// The byte length one segment declares.
pub open spec fn seg_len(s: SegView) -> nat {
    match s {
        SegView::Data(b) => b.len(),
        SegView::FileRef { path, len } => len as nat,
    }
}

/// The bytes a segment sequence stands for, concatenated in order.
pub open spec fn segs_bytes(segs: Seq<SegView>, fs: Map<Seq<char>, Seq<u8>>) -> Seq<u8>
    decreases segs.len(),
{
    if segs.len() == 0 {
        Seq::<u8>::empty()
    } else {
        seg_bytes(segs[0], fs) + segs_bytes(segs.drop_first(), fs)
    }
}

/// The total byte length a segment sequence declares.
pub open spec fn segs_len(segs: Seq<SegView>) -> nat
    decreases segs.len(),
{
    if segs.len() == 0 {
        0
    } else {
        seg_len(segs[0]) + segs_len(segs.drop_first())
    }
}

/// Do the file contents in `fs` have exactly the lengths the segments
/// declare?
pub open spec fn fs_fits(fs: Map<Seq<char>, Seq<u8>>, segs: Seq<SegView>) -> bool {
    forall|i: int|
        0 <= i < segs.len() ==> (#[trigger] segs[i] matches SegView::FileRef { path, len }
            ==> fs.contains_key(path) && fs[path].len() == len)
}

/// The single-pass byte source of an assembled body: the segments not yet
/// handed out, in order.
///
/// A consumer pulls segments one at a time with `next_segment` and is owed
/// them exactly once; a drained reader keeps answering `None`.
#[derive(Debug)]
pub struct BodyReader {
    pub segments: Vec<Segment>,
}

impl View for BodyReader {
    type V = Seq<SegView>;

    open spec fn view(&self) -> Seq<SegView> {
        segments_view(self.segments@)
    }
}

impl BodyReader {
    /// Hands out the next segment, advancing past it for good; `None` once
    /// everything has been consumed.
    pub fn next_segment(&mut self) -> (r: Option<Segment>)
        ensures
            old(self)@.len() == 0 ==> r is None && final(self)@ == old(self)@,
            old(self)@.len() > 0 ==> (r matches Some(s)
                && s@ == old(self)@[0]
                && final(self)@ == old(self)@.drop_first()),
    {
        if self.segments.len() == 0 {
            None
        } else {
            let s = self.segments.remove(0);
            proof {
                assert(self@ =~= old(self)@.drop_first());
            }
            Some(s)
        }
    }

    /// How many segments are still to come.
    pub fn remaining(&self) -> (r: usize)
        ensures
            r == self@.len(),
    {
        self.segments.len()
    }
}

/// An assembled multipart body: the boundary it was framed with, its exact
/// byte count, and the single-pass reader over its segments.
#[derive(Debug)]
pub struct FormStream {
    pub boundary: Vec<u8>,
    pub reader: BodyReader,
    pub count: usize,
}

} // verus!
