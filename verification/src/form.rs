//! `multipart/form-data` forms: named text fields and file attachments,
//! and how they become multipart nodes and a sendable body.

use vstd::prelude::*;

use crate::assemble::multipart_to_read;
use crate::boundary::{ct_name, find_byte, lemma_find_byte_le};
use crate::encode::plan_body;
use crate::error::Error;
use crate::header::{fold_case, push_bytes, Header, HeaderV};
use crate::node::{FileLen, FilePart, FormPart, MultipartNode};
use crate::stream::{segs_len, FormStream};
use vstd::string::StrSliceExecFns;
use vstd::utf8::encode_utf8;

verus! {

/// The bytes of `Content-Type`, in its canonical case.
pub open spec fn ct_hdr_name() -> Seq<u8> {
    seq![67u8, 111u8, 110u8, 116u8, 101u8, 110u8, 116u8, 45u8, 84u8, 121u8, 112u8, 101u8]
}

/// The bytes of `Content-Disposition`, in its canonical case.
pub open spec fn cd_hdr_name() -> Seq<u8> {
    seq![
        67u8, 111u8, 110u8, 116u8, 101u8, 110u8, 116u8, 45u8, 68u8, 105u8, 115u8, 112u8, 111u8,
        115u8, 105u8, 116u8, 105u8, 111u8, 110u8,
    ]
}

/// The bytes of `content-disposition`: `cd_hdr_name` folded to lower case.
pub open spec fn cd_name() -> Seq<u8> {
    seq![
        99u8, 111u8, 110u8, 116u8, 101u8, 110u8, 116u8, 45u8, 100u8, 105u8, 115u8, 112u8, 111u8,
        115u8, 105u8, 116u8, 105u8, 111u8, 110u8,
    ]
}

/// The bytes of `text/plain`.
pub open spec fn text_plain() -> Seq<u8> {
    seq![116u8, 101u8, 120u8, 116u8, 47u8, 112u8, 108u8, 97u8, 105u8, 110u8]
}

/// The bytes of `form-data; name=`.
pub open spec fn form_data_prefix() -> Seq<u8> {
    seq![
        102u8, 111u8, 114u8, 109u8, 45u8, 100u8, 97u8, 116u8, 97u8, 59u8, 32u8, 110u8, 97u8,
        109u8, 101u8, 61u8,
    ]
}

/// The bytes of `; filename=`.
pub open spec fn filename_infix() -> Seq<u8> {
    seq![59u8, 32u8, 102u8, 105u8, 108u8, 101u8, 110u8, 97u8, 109u8, 101u8, 61u8]
}

/// `b` wrapped in one pair of double quotes.
pub open spec fn quoted(b: Seq<u8>) -> Seq<u8> {
    seq![34u8] + b + seq![34u8]
}

/// The `Content-Disposition` value of a plain field: `form-data;
/// name="..."`.
pub open spec fn cd_field_value(name: Seq<u8>) -> Seq<u8> {
    form_data_prefix() + quoted(name)
}

/// The `Content-Disposition` value of a file field: `form-data;
/// name="..."; filename="..."`.
pub open spec fn cd_file_value(name: Seq<u8>, fname: Seq<u8>) -> Seq<u8> {
    form_data_prefix() + quoted(name) + filename_infix() + quoted(fname)
}

/// The piece of `p` after its last `/`; all of `p` when it has none.
pub open spec fn last_component(p: Seq<u8>) -> Seq<u8>
    decreases p.len() via last_component_dec
{
    let i = find_byte(p, 47);
    if i == p.len() {
        p
    } else {
        last_component(p.skip(i + 1))
    }
}

#[via_fn]
proof fn last_component_dec(p: Seq<u8>) {
    lemma_find_byte_le(p, 47);
}

/// Does `p` end in a lone-`.` path component?
pub open spec fn ends_in_dot_component(p: Seq<u8>) -> bool {
    p.len() > 0 && p.last() == 46 && (p.len() == 1 || p[p.len() - 2] == 47)
}

/// The file name a path refers to: its last component, with trailing `/`
/// runs and lone-`.` components ignored, as the platform's own path
/// splitting ignores them. The result is empty when nothing remains of the
/// path, and `..` when it ends in a parent step: neither names a file.
pub open spec fn file_name_of(p: Seq<u8>) -> Seq<u8>
    decreases p.len(),
{
    if p.len() == 0 {
        p
    } else if p.last() == 47 || ends_in_dot_component(p) {
        file_name_of(p.drop_last())
    } else {
        last_component(p)
    }
}

/// The extension of a file name: the piece after its last `.`. A dot that
/// begins the name marks a dot file, not an extension; empty when no `.`
/// remains.
pub open spec fn extension_of(f: Seq<u8>) -> Seq<u8> {
    if f.len() > 0 && f[0] == 46 {
        extension_tail(f.skip(1))
    } else {
        extension_tail(f)
    }
}

/// The piece of `f` after its last `.`; empty when `f` has none.
pub open spec fn extension_tail(f: Seq<u8>) -> Seq<u8>
    decreases f.len() via extension_tail_dec
{
    let i = find_byte(f, 46);
    if i == f.len() {
        Seq::<u8>::empty()
    } else {
        let rest = f.skip(i + 1);
        if find_byte(rest, 46) == rest.len() {
            rest
        } else {
            extension_tail(rest)
        }
    }
}

#[via_fn]
proof fn extension_tail_dec(f: Seq<u8>) {
    lemma_find_byte_le(f, 46);
}

/// A usable file name: non-empty and not a parent step. (`file_name_of`
/// never yields a lone `.`: such components are ignored.)
pub open spec fn valid_filename(f: Seq<u8>) -> bool {
    f.len() > 0 && f != seq![46u8, 46u8]
}

/// Every file of the form has a usable file name at the end of its path.
pub open spec fn filenames_ok(files: Seq<(String, FilePart)>) -> bool {
    forall|j: int|
        0 <= j < files.len() ==> valid_filename(
            file_name_of(encode_utf8((#[trigger] files[j]).1.path@)),
        )
}

/// The headers kept from a caller's file part: everything except
/// `Content-Disposition`, in order, as views.
pub open spec fn keep_non_cd(hs: Seq<Header>) -> Seq<HeaderV>
    decreases hs.len(),
{
    if hs.len() == 0 {
        Seq::<HeaderV>::empty()
    } else if fold_case(hs[0].name@) == cd_name() {
        keep_non_cd(hs.drop_first())
    } else {
        seq![hs[0]@] + keep_non_cd(hs.drop_first())
    }
}

/// Does the header list carry a `Content-Type`, up to ASCII case?
pub open spec fn has_content_type(hs: Seq<Header>) -> bool {
    exists|i: int| 0 <= i < hs.len() && fold_case((#[trigger] hs[i]).name@) == ct_name()
}

/// What `mime_guess` answers for a file extension: the first guessed MIME
/// essence, or `application/octet-stream` when it has none. A fixed table,
/// depending on the extension bytes alone.
pub uninterp spec fn mime_of_ext(ext: Seq<u8>) -> Seq<u8>;

/// Relies on `mime_guess::from_ext` and `MimeGuess::first_raw`: the first
/// guess for the extension (ASCII case does not matter to the table), or
/// `application/octet-stream` when the table has none.
#[verifier::external_body]
fn guess_mime(ext: &Vec<u8>) -> (r: Vec<u8>)
    ensures
        r@ == mime_of_ext(ext@),
{
    let s = core::str::from_utf8(ext).unwrap_or("");
    match mime_guess::from_ext(s).first_raw() {
        Some(m) => m.as_bytes().to_vec(),
        None => b"application/octet-stream".to_vec(),
    }
}

/// Relies on `mime_multipart::generate_boundary`: 68 characters of base64
/// text with `=` and `/` substituted, so never empty and free of CR and
/// LF. Fresh randomness each call; nothing more is assumed of it.
#[verifier::external_body]
fn gen_boundary() -> (r: Vec<u8>)
    ensures
        r@.len() == 68,
        forall|i: int| 0 <= i < r@.len() ==> r@[i] != 13 && r@[i] != 10,
{
    mime_multipart::generate_boundary()
}

/// The node a plain field becomes: a `text/plain` part whose
/// `Content-Disposition` names the field and whose body is the field's
/// value, UTF-8 encoded.
pub open spec fn is_field_node(n: MultipartNode, name: Seq<char>, value: Seq<char>) -> bool {
    n matches MultipartNode::Part(p) && crate::header::hviews(p.headers@) == seq![
        HeaderV { name: ct_hdr_name(), value: text_plain() },
        HeaderV { name: cd_hdr_name(), value: cd_field_value(encode_utf8(name)) },
    ] && p.body@ == encode_utf8(value)
}

/// The node a file field becomes: the caller's headers less any
/// `Content-Disposition`, then a rewritten `Content-Disposition` carrying
/// the field name and the path's file name, then — when the caller gave no
/// `Content-Type` — one guessed from the file name's extension. Path and
/// pre-measured size carry over.
pub open spec fn is_file_node(n: MultipartNode, name: Seq<char>, fp: FilePart) -> bool {
    n matches MultipartNode::File(g) && {
        let fname = file_name_of(encode_utf8(fp.path@));
        let cd = HeaderV {
            name: cd_hdr_name(),
            value: cd_file_value(encode_utf8(name), fname),
        };
        &&& g.path@ == fp.path@
        &&& g.size == fp.size
        &&& crate::header::hviews(g.headers@) == if has_content_type(fp.headers@) {
            keep_non_cd(fp.headers@).push(cd)
        } else {
            keep_non_cd(fp.headers@).push(cd).push(
                HeaderV { name: ct_hdr_name(), value: mime_of_ext(extension_of(fname)) },
            )
        }
    }
}

/// The node list a form yields: its fields in order, then its files in
/// order.
pub open spec fn nodes_of_form(fd: FormData, nodes: Seq<MultipartNode>) -> bool {
    &&& nodes.len() == fd.fields@.len() + fd.files@.len()
    &&& forall|i: int|
        0 <= i < fd.fields@.len() ==> is_field_node(
            #[trigger] nodes[i],
            fd.fields@[i].0@,
            fd.fields@[i].1@,
        )
    &&& forall|j: int|
        0 <= j < fd.files@.len() ==> is_file_node(
            #[trigger] nodes[fd.fields@.len() + j],
            fd.files@[j].0@,
            fd.files@[j].1,
        )
}

/// The text fields and file attachments of a `multipart/form-data` body,
/// in the order they will be sent.
#[derive(Debug)]
pub struct FormData {
    /// Name and value of each plain text field.
    pub fields: Vec<(String, String)>,
    /// Name and file part of each attachment.
    pub files: Vec<(String, FilePart)>,
}

/// The bytes of `Content-Type`, as a vector.
fn ct_hdr_name_vec() -> (r: Vec<u8>)
    ensures
        r@ == ct_hdr_name(),
{
    let r: Vec<u8> = vec![67u8, 111u8, 110u8, 116u8, 101u8, 110u8, 116u8, 45u8, 84u8, 121u8, 112u8, 101u8];
    proof {
        assert(r@ =~= ct_hdr_name());
    }
    r
}

/// The bytes of `Content-Disposition`, as a vector.
fn cd_hdr_name_vec() -> (r: Vec<u8>)
    ensures
        r@ == cd_hdr_name(),
{
    let r: Vec<u8> = vec![
        67u8, 111u8, 110u8, 116u8, 101u8, 110u8, 116u8, 45u8, 68u8, 105u8, 115u8, 112u8, 111u8,
        115u8, 105u8, 116u8, 105u8, 111u8, 110u8,
    ];
    proof {
        assert(r@ =~= cd_hdr_name());
    }
    r
}

/// The bytes of `text/plain`, as a vector.
fn text_plain_vec() -> (r: Vec<u8>)
    ensures
        r@ == text_plain(),
{
    let r: Vec<u8> = vec![116u8, 101u8, 120u8, 116u8, 47u8, 112u8, 108u8, 97u8, 105u8, 110u8];
    proof {
        assert(r@ =~= text_plain());
    }
    r
}

/// The bytes of `form-data; name=`, as a vector.
fn form_data_prefix_vec() -> (r: Vec<u8>)
    ensures
        r@ == form_data_prefix(),
{
    let r: Vec<u8> = vec![
        102u8, 111u8, 114u8, 109u8, 45u8, 100u8, 97u8, 116u8, 97u8, 59u8, 32u8, 110u8, 97u8,
        109u8, 101u8, 61u8,
    ];
    proof {
        assert(r@ =~= form_data_prefix());
    }
    r
}

/// The bytes of `; filename=`, as a vector.
fn filename_infix_vec() -> (r: Vec<u8>)
    ensures
        r@ == filename_infix(),
{
    let r: Vec<u8> = vec![59u8, 32u8, 102u8, 105u8, 108u8, 101u8, 110u8, 97u8, 109u8, 101u8, 61u8];
    proof {
        assert(r@ =~= filename_infix());
    }
    r
}

/// The piece of `p` after its last `/`.
fn last_component_vec(p: &Vec<u8>) -> (r: Vec<u8>)
    ensures
        r@ == last_component(p@),
    decreases p@.len(),
{
    let i = crate::boundary::find_in(p, 47);
    if i == p.len() {
        crate::boundary::copy_range(p, 0, p.len())
    } else {
        let rest = crate::boundary::copy_range(p, i + 1, p.len());
        proof {
            assert(rest@ =~= p@.skip(i + 1 as int));
        }
        last_component_vec(&rest)
    }
}

/// The file name at the end of a path, as `file_name_of` states it.
fn file_name_vec(p: &Vec<u8>) -> (r: Vec<u8>)
    ensures
        r@ == file_name_of(p@),
    decreases p@.len(),
{
    if p.len() == 0 {
        let r: Vec<u8> = Vec::new();
        proof {
            assert(r@ =~= p@);
        }
        r
    } else if p[p.len() - 1] == 47 || (p[p.len() - 1] == 46 && (p.len() == 1 || p[p.len() - 2]
        == 47)) {
        let q = crate::boundary::copy_range(p, 0, p.len() - 1);
        proof {
            assert(q@ =~= p@.drop_last());
        }
        file_name_vec(&q)
    } else {
        last_component_vec(p)
    }
}

/// The extension of a file name, as `extension_of` states it.
fn extension_vec(f: &Vec<u8>) -> (r: Vec<u8>)
    ensures
        r@ == extension_of(f@),
{
    if f.len() > 0 && f[0] == 46 {
        let rest = crate::boundary::copy_range(f, 1, f.len());
        proof {
            assert(rest@ =~= f@.skip(1));
        }
        extension_tail_vec(&rest)
    } else {
        extension_tail_vec(f)
    }
}

/// The piece of `f` after its last `.`, or nothing.
fn extension_tail_vec(f: &Vec<u8>) -> (r: Vec<u8>)
    ensures
        r@ == extension_tail(f@),
    decreases f@.len(),
{
    let i = crate::boundary::find_in(f, 46);
    if i == f.len() {
        Vec::new()
    } else {
        let rest = crate::boundary::copy_range(f, i + 1, f.len());
        proof {
            assert(rest@ =~= f@.skip(i + 1 as int));
        }
        let j = crate::boundary::find_in(&rest, 46);
        if j == rest.len() {
            rest
        } else {
            extension_tail_vec(&rest)
        }
    }
}

impl FormData {
    /// An empty form.
    pub fn new() -> (r: FormData)
        ensures
            r.fields@.len() == 0,
            r.files@.len() == 0,
    {
        FormData { fields: Vec::new(), files: Vec::new() }
    }

    /// Turns the form into multipart nodes: each field in order, then each
    /// file in order, framed as `nodes_of_form` states; `InvalidFile` when
    /// some file's path ends in no usable file name.
    pub fn to_multipart(&self) -> (r: Result<Vec<MultipartNode>, Error>)
        ensures
            match r {
                Ok(nodes) => nodes_of_form(*self, nodes@) && filenames_ok(self.files@),
                Err(e) => e == Error::InvalidFile && !filenames_ok(self.files@),
            },
    {
        let mut nodes: Vec<MultipartNode> = Vec::new();
        let mut i: usize = 0;
        while i < self.fields.len()
            invariant
                i <= self.fields@.len(),
                nodes@.len() == i,
                forall|k: int|
                    0 <= k < i ==> is_field_node(
                        #[trigger] nodes@[k],
                        self.fields@[k].0@,
                        self.fields@[k].1@,
                    ),
            decreases self.fields@.len() - i,
        {
            let name_b = self.fields[i].0.as_str().as_bytes_vec();
            let val_b = self.fields[i].1.as_str().as_bytes_vec();
            let mut hs: Vec<Header> = Vec::new();
            hs.push(Header { name: ct_hdr_name_vec(), value: text_plain_vec() });
            let mut cdv = form_data_prefix_vec();
            cdv.push(34);
            push_bytes(&mut cdv, &name_b);
            cdv.push(34);
            proof {
                assert(cdv@ =~= cd_field_value(encode_utf8(self.fields@[i as int].0@)));
            }
            hs.push(Header { name: cd_hdr_name_vec(), value: cdv });
            proof {
                assert(crate::header::hviews(hs@) =~= seq![
                    HeaderV { name: ct_hdr_name(), value: text_plain() },
                    HeaderV {
                        name: cd_hdr_name(),
                        value: cd_field_value(encode_utf8(self.fields@[i as int].0@)),
                    },
                ]);
            }
            nodes.push(MultipartNode::Part(FormPart { headers: hs, body: val_b }));
            proof {
                assert(is_field_node(
                    nodes@[i as int],
                    self.fields@[i as int].0@,
                    self.fields@[i as int].1@,
                ));
            }
            i = i + 1;
        }
        let ghost nfields = self.fields@.len();
        let mut j: usize = 0;
        while j < self.files.len()
            invariant
                j <= self.files@.len(),
                nfields == self.fields@.len(),
                nodes@.len() == nfields + j,
                forall|k: int|
                    0 <= k < nfields ==> is_field_node(
                        #[trigger] nodes@[k],
                        self.fields@[k].0@,
                        self.fields@[k].1@,
                    ),
                forall|k: int|
                    0 <= k < j ==> is_file_node(
                        #[trigger] nodes@[nfields + k],
                        self.files@[k].0@,
                        self.files@[k].1,
                    ),
                forall|k: int|
                    0 <= k < j ==> valid_filename(
                        file_name_of(encode_utf8((#[trigger] self.files@[k]).1.path@)),
                    ),
            decreases self.files@.len() - j,
        {
            let name_b = self.files[j].0.as_str().as_bytes_vec();
            let fp = &self.files[j].1;
            let path_b = fp.path.as_str().as_bytes_vec();
            let fname = file_name_vec(&path_b);
            let bad = fname.len() == 0 || (fname.len() == 2 && fname[0] == 46 && fname[1] == 46);
            if bad {
                proof {
                    let f = file_name_of(encode_utf8(fp.path@));
                    if f.len() == 2 && f[0] == 46 && f[1] == 46 {
                        assert(f =~= seq![46u8, 46u8]);
                    }
                    assert(!valid_filename(f));
                }
                return Err(Error::InvalidFile);
            }
            proof {
                let f = file_name_of(encode_utf8(fp.path@));
                assert(f != seq![46u8, 46u8]) by {
                    if f == seq![46u8, 46u8] {
                        assert(f.len() == 2 && f[0] == 46 && f[1] == 46);
                    }
                }
                assert(valid_filename(f));
            }
            let cdn = cd_hdr_name_vec();
            let ctn = ct_hdr_name_vec();
            let mut hs: Vec<Header> = Vec::new();
            let mut has_ct = false;
            let mut k: usize = 0;
            proof {
                assert(fp.headers@.skip(0) =~= fp.headers@);
                assert(crate::header::hviews(hs@) =~= Seq::<HeaderV>::empty());
            }
            while k < fp.headers.len()
                invariant
                    k <= fp.headers@.len(),
                    cdn@ == cd_hdr_name(),
                    ctn@ == ct_hdr_name(),
                    crate::header::hviews(hs@) + keep_non_cd(fp.headers@.skip(k as int))
                        == keep_non_cd(fp.headers@),
                    has_ct == exists|t: int|
                        0 <= t < k && fold_case((#[trigger] fp.headers@[t]).name@) == ct_name(),
                decreases fp.headers@.len() - k,
            {
                proof {
                    assert(fold_case(cd_hdr_name()) =~= cd_name());
                    assert(fold_case(ct_hdr_name()) =~= ct_name());
                    assert(fp.headers@.skip(k as int)[0] == fp.headers@[k as int]);
                    assert(fp.headers@.skip(k as int).drop_first() =~= fp.headers@.skip(
                        k + 1 as int,
                    ));
                }
                let h = &fp.headers[k];
                if !crate::header::eq_ignore_case(&h.name, &cdn) {
                    let ghost hs_prev = hs@;
                    hs.push(crate::header::copy_header(h));
                    proof {
                        assert(crate::header::hviews(hs@) =~= crate::header::hviews(hs_prev)
                            + seq![fp.headers@[k as int]@]);
                        assert(crate::header::hviews(hs@) + keep_non_cd(
                            fp.headers@.skip(k + 1 as int),
                        ) =~= crate::header::hviews(hs_prev) + keep_non_cd(
                            fp.headers@.skip(k as int),
                        ));
                    }
                } else {
                    proof {
                        assert(keep_non_cd(fp.headers@.skip(k as int)) == keep_non_cd(
                            fp.headers@.skip(k + 1 as int),
                        ));
                    }
                }
                if crate::header::eq_ignore_case(&h.name, &ctn) {
                    has_ct = true;
                }
                k = k + 1;
            }
            proof {
                assert(keep_non_cd(fp.headers@.skip(fp.headers@.len() as int)) == Seq::<
                    HeaderV,
                >::empty());
                assert(crate::header::hviews(hs@) + Seq::<HeaderV>::empty() =~= crate::header::hviews(
                    hs@,
                ));
            }
            let mut cdv = form_data_prefix_vec();
            cdv.push(34);
            push_bytes(&mut cdv, &name_b);
            cdv.push(34);
            let infix = filename_infix_vec();
            push_bytes(&mut cdv, &infix);
            cdv.push(34);
            push_bytes(&mut cdv, &fname);
            cdv.push(34);
            proof {
                assert(cdv@ =~= cd_file_value(
                    encode_utf8(self.files@[j as int].0@),
                    file_name_of(encode_utf8(fp.path@)),
                ));
            }
            let ghost kept = crate::header::hviews(hs@);
            let ghost cd = HeaderV {
                name: cd_hdr_name(),
                value: cd_file_value(
                    encode_utf8(self.files@[j as int].0@),
                    file_name_of(encode_utf8(fp.path@)),
                ),
            };
            hs.push(Header { name: cd_hdr_name_vec(), value: cdv });
            proof {
                assert(crate::header::hviews(hs@) =~= kept.push(cd));
            }
            if !has_ct {
                let ext = extension_vec(&fname);
                let mime = guess_mime(&ext);
                let ghost with_cd = crate::header::hviews(hs@);
                hs.push(Header { name: ct_hdr_name_vec(), value: mime });
                proof {
                    assert(crate::header::hviews(hs@) =~= with_cd.push(
                        HeaderV {
                            name: ct_hdr_name(),
                            value: mime_of_ext(extension_of(file_name_of(encode_utf8(fp.path@)))),
                        },
                    ));
                }
            }
            let node = MultipartNode::File(
                FilePart { headers: hs, path: fp.path.clone(), size: fp.size },
            );
            nodes.push(node);
            proof {
                assert(is_file_node(
                    nodes@[nfields + j as int],
                    self.files@[j as int].0@,
                    self.files@[j as int].1,
                ));
            }
            j = j + 1;
        }
        Ok(nodes)
    }

    /// Assembles the whole form into a sendable body: a fresh boundary,
    /// the exact byte count, and the single-pass reader. File lengths come
    /// from each part's own `size` or from `table`; the build fails as a
    /// whole, with no partial stream, on a path without a usable file
    /// name, on the first unmeasured file, or when the total overflows.
    pub fn into_form_stream(self, table: &Vec<FileLen>) -> (r: Result<FormStream, Error>)
        ensures
            match r {
                Ok(stream) => {
                    &&& stream.boundary@.len() == 68
                    &&& forall|i: int|
                        0 <= i < stream.boundary@.len() ==> #[trigger] stream.boundary@[i] != 13
                            && stream.boundary@[i] != 10
                    &&& exists|nodes: Seq<MultipartNode>|
                        #[trigger] nodes_of_form(self, nodes) && (plan_body(
                            stream.boundary@,
                            nodes,
                            table@,
                        ) matches Ok(segs) && segs_len(segs) <= usize::MAX && stream.count
                            == segs_len(segs) && stream.reader@ == segs)
                },
                Err(e) => (e == Error::InvalidFile && !filenames_ok(self.files@)) || (exists|
                    b: Seq<u8>,
                    nodes: Seq<MultipartNode>,
                |
                    #![trigger plan_body(b, nodes, table@)]
                    b.len() == 68 && nodes_of_form(self, nodes) && (match plan_body(
                        b,
                        nodes,
                        table@,
                    ) {
                        Ok(segs) => e == Error::TooLarge && segs_len(segs) > usize::MAX,
                        Err(e2) => e == e2,
                    })),
            },
    {
        let nodes = match self.to_multipart() {
            Ok(n) => n,
            Err(e) => {
                return Err(e);
            },
        };
        let ghost nodes_snap = nodes@;
        let boundary = gen_boundary();
        let b2 = crate::boundary::copy_range(&boundary, 0, boundary.len());
        proof {
            assert(b2@ =~= boundary@);
        }
        match multipart_to_read(b2, nodes, table) {
            Ok((count, reader)) => {
                let stream = FormStream { boundary, reader, count };
                proof {
                    assert(nodes_of_form(self, nodes_snap));
                }
                Ok(stream)
            },
            Err(e) => {
                proof {
                    assert(nodes_of_form(self, nodes_snap));
                    assert(boundary@.len() == 68 && nodes_of_form(self, nodes_snap) && (
                    match plan_body(boundary@, nodes_snap, table@) {
                        Ok(segs) => e == Error::TooLarge && segs_len(segs) > usize::MAX,
                        Err(e2) => e == e2,
                    }));
                }
                Err(e)
            },
        }
    }
}

} // verus!
