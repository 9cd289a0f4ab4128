//! The part tree: in-memory fields, file attachments, nested bodies, and
//! the table of file measurements.

use vstd::prelude::*;

use crate::header::Header;

verus! {

/// A named field whose content sits in memory.
#[derive(Debug)]
pub struct FormPart {
    /// The headers of the part, emitted in order.
    pub headers: Vec<Header>,
    /// The content bytes of the part.
    pub body: Vec<u8>,
}

/// A named file attachment whose content stays on disk.
#[derive(Debug)]
pub struct FilePart {
    /// The headers of the part, emitted in order.
    pub headers: Vec<Header>,
    /// Where the content lives; the caller keeps ownership of the file.
    pub path: String,
    /// The content length in bytes, when the caller has measured it already.
    pub size: Option<u64>,
}

impl FilePart {
    /// A file part with no pre-measured size.
    pub fn new(headers: Vec<Header>, path: String) -> (r: FilePart)
        ensures
            r.headers == headers,
            r.path == path,
            r.size is None,
    {
        FilePart { headers, path, size: None }
    }
}

/// One node of the part tree.
#[derive(Debug)]
pub enum MultipartNode {
    /// An in-memory field.
    Part(FormPart),
    /// A file attachment, read lazily.
    File(FilePart),
    /// A multipart body nested as one part of the outer body; its own
    /// boundary comes from its `Content-Type` header.
    Nested { headers: Vec<Header>, children: Vec<MultipartNode> },
}

/// One measured file: what a stat of `path` reported.
#[derive(Debug)]
pub struct FileLen {
    pub path: String,
    pub len: u64,
}

/// The length that a table of measurements reports for `path`: the first
/// matching entry wins.
pub open spec fn stat_of(table: Seq<FileLen>, path: Seq<char>) -> Option<u64>
    decreases table.len(),
{
    if table.len() == 0 {
        None
    } else if table[0].path@ == path {
        Some(table[0].len)
    } else {
        stat_of(table.drop_first(), path)
    }
}

/// The content length used for a file part: its own `size` when present,
/// else what the measurement table holds for its path.
pub open spec fn file_len_of(f: FilePart, table: Seq<FileLen>) -> Option<u64> {
    match f.size {
        Some(n) => Some(n),
        None => stat_of(table, f.path@),
    }
}

/// Looks `path` up in a table of measurements.
pub fn lookup_len(table: &Vec<FileLen>, path: &String) -> (r: Option<u64>)
    ensures
        r == stat_of(table@, path@),
{
    let mut i: usize = 0;
    proof {
        assert(table@.skip(0) =~= table@);
    }
    while i < table.len()
        invariant
            i <= table.len(),
            stat_of(table@, path@) == stat_of(table@.skip(i as int), path@),
        decreases table.len() - i,
    {
        proof {
            assert(table@.skip(i as int).drop_first() =~= table@.skip(i + 1 as int));
        }
        if table[i].path == *path {
            return Some(table[i].len);
        }
        i = i + 1;
    }
    None
}

} // verus!
