//! The boundary a nested multipart part declares in its `Content-Type`
//! header, and the grammar by which it is read.

use vstd::prelude::*;

use crate::header::{fold_case, to_lower, Header};

verus! {

// The grammar accepted for a nested part's own boundary, over the value of
// its `Content-Type` header:
//
//     multipart/<subtype> *( ";" parameter )
//
// The type is matched up to ASCII case after trimming blanks; parameters are
// the `;`-separated pieces after it. The first parameter whose key, trimmed
// and matched up to ASCII case, is `boundary` supplies the boundary: its
// value is trimmed and, when it is wrapped in one pair of double quotes,
// unquoted. An empty boundary counts as absent. Quoted `;` is not supported;
// a caller with such a boundary writes it unquoted.
/// The bytes of `content-type`.
pub open spec fn ct_name() -> Seq<u8> {
    seq![99u8, 111u8, 110u8, 116u8, 101u8, 110u8, 116u8, 45u8, 116u8, 121u8, 112u8, 101u8]
}

/// The bytes of `multipart/`.
pub open spec fn multipart_slash() -> Seq<u8> {
    seq![109u8, 117u8, 108u8, 116u8, 105u8, 112u8, 97u8, 114u8, 116u8, 47u8]
}

/// The bytes of `boundary`.
pub open spec fn boundary_name() -> Seq<u8> {
    seq![98u8, 111u8, 117u8, 110u8, 100u8, 97u8, 114u8, 121u8]
}

/// A blank byte: space or horizontal tab.
pub open spec fn is_ws(b: u8) -> bool {
    b == 32 || b == 9
}

/// The index of the first occurrence of `b` in `v`, or `v.len()` when `b`
/// does not occur.
pub open spec fn find_byte(v: Seq<u8>, b: u8) -> int
    decreases v.len(),
{
    if v.len() == 0 {
        0
    } else if v[0] == b {
        0
    } else {
        1 + find_byte(v.drop_first(), b)
    }
}

/// `find_byte` stays within `0 ..= v.len()`.
pub proof fn lemma_find_byte_le(v: Seq<u8>, b: u8)
    ensures
        0 <= find_byte(v, b) <= v.len(),
    decreases v.len(),
{
    if v.len() > 0 && v[0] != b {
        lemma_find_byte_le(v.drop_first(), b);
    }
}

/// `find_byte` returns exactly the index before which `b` does not occur.
pub proof fn lemma_find_byte_is(v: Seq<u8>, b: u8, i: int)
    requires
        0 <= i <= v.len(),
        forall|j: int| 0 <= j < i ==> v[j] != b,
        i < v.len() ==> v[i] == b,
    ensures
        find_byte(v, b) == if i < v.len() {
            i
        } else {
            v.len() as int
        },
    decreases v.len(),
{
    if v.len() == 0 {
    } else if v[0] == b {
        assert(i == 0);
    } else {
        assert(i > 0);
        let w = v.drop_first();
        assert forall|j: int| 0 <= j < i - 1 implies w[j] != b by {
            assert(w[j] == v[j + 1]);
        }
        lemma_find_byte_is(w, b, i - 1);
    }
}

/// `v` without its leading blanks.
pub open spec fn trim_left(v: Seq<u8>) -> Seq<u8>
    decreases v.len(),
{
    if v.len() > 0 && is_ws(v[0]) {
        trim_left(v.drop_first())
    } else {
        v
    }
}

/// `v` without its trailing blanks.
pub open spec fn trim_right(v: Seq<u8>) -> Seq<u8>
    decreases v.len(),
{
    if v.len() > 0 && is_ws(v.last()) {
        trim_right(v.drop_last())
    } else {
        v
    }
}

/// `v` without leading and trailing blanks.
pub open spec fn trim(v: Seq<u8>) -> Seq<u8> {
    trim_right(trim_left(v))
}

/// `v` stripped of one pair of wrapping double quotes, if both are present.
pub open spec fn unquote(v: Seq<u8>) -> Seq<u8> {
    if v.len() >= 2 && v[0] == 34 && v.last() == 34 {
        v.subrange(1, v.len() - 1)
    } else {
        v
    }
}

/// The boundary that one `;`-separated parameter piece supplies, if its key
/// is `boundary`.
pub open spec fn param_boundary(seg: Seq<u8>) -> Option<Seq<u8>> {
    let t = trim(seg);
    let e = find_byte(t, 61);
    if e == t.len() {
        None
    } else {
        let key = trim(t.take(e));
        let val = trim(t.skip(e + 1));
        if fold_case(key) == boundary_name() {
            Some(unquote(val))
        } else {
            None
        }
    }
}

/// Scans the `;`-separated parameter pieces of `v` for the first one that
/// supplies a boundary.
pub open spec fn scan_params(v: Seq<u8>) -> Option<Seq<u8>>
    decreases v.len() via scan_params_dec
{
    let e = find_byte(v, 59);
    let seg = v.take(e);
    if param_boundary(seg) is Some {
        param_boundary(seg)
    } else if e == v.len() {
        None
    } else {
        scan_params(v.skip(e + 1))
    }
}

#[via_fn]
proof fn scan_params_dec(v: Seq<u8>) {
    lemma_find_byte_le(v, 59);
}

/// The boundary declared by a `Content-Type` value, per the grammar above.
pub open spec fn boundary_of_value(v: Seq<u8>) -> Option<Seq<u8>> {
    let e = find_byte(v, 59);
    let t = trim(v.take(e));
    if t.len() >= 10 && fold_case(t.take(10)) == multipart_slash() {
        if e == v.len() {
            None
        } else {
            match scan_params(v.skip(e + 1)) {
                Some(b) => if b.len() > 0 {
                    Some(b)
                } else {
                    None
                },
                None => None,
            }
        }
    } else {
        None
    }
}

/// The value of the first `Content-Type` header, matched up to ASCII case.
pub open spec fn content_type_of(hs: Seq<Header>) -> Option<Seq<u8>>
    decreases hs.len(),
{
    if hs.len() == 0 {
        None
    } else if fold_case(hs[0].name@) == ct_name() {
        Some(hs[0].value@)
    } else {
        content_type_of(hs.drop_first())
    }
}

/// The boundary that a header list declares for its nested multipart body:
/// the `boundary=` parameter of its `Content-Type: multipart/...` header.
pub open spec fn boundary_of_headers(hs: Seq<Header>) -> Option<Seq<u8>> {
    match content_type_of(hs) {
        Some(v) => boundary_of_value(v),
        None => None,
    }
}

/// Copies `v[a .. b]` into a fresh vector.
pub fn copy_range(v: &Vec<u8>, a: usize, b: usize) -> (r: Vec<u8>)
    requires
        a <= b <= v@.len(),
    ensures
        r@ == v@.subrange(a as int, b as int),
{
    let mut r: Vec<u8> = Vec::new();
    let mut i: usize = a;
    while i < b
        invariant
            a <= i <= b <= v@.len(),
            r@ == v@.subrange(a as int, i as int),
        decreases b - i,
    {
        r.push(v[i]);
        proof {
            assert(v@.subrange(a as int, i + 1 as int) =~= v@.subrange(a as int, i as int).push(
                v@[i as int],
            ));
        }
        i = i + 1;
    }
    r
}

/// Finds the first occurrence of `b` in `v`, or `v.len()`.
pub fn find_in(v: &Vec<u8>, b: u8) -> (r: usize)
    ensures
        r as int == find_byte(v@, b),
        r <= v@.len(),
{
    let mut i: usize = 0;
    while i < v.len()
        invariant
            i <= v.len(),
            forall|j: int| 0 <= j < i ==> v@[j] != b,
        decreases v.len() - i,
    {
        if v[i] == b {
            proof {
                lemma_find_byte_is(v@, b, i as int);
            }
            return i;
        }
        i = i + 1;
    }
    proof {
        lemma_find_byte_is(v@, b, v@.len() as int);
    }
    i
}

/// Trims leading and trailing blanks off `v`.
pub fn trim_vec(v: &Vec<u8>) -> (r: Vec<u8>)
    ensures
        r@ == trim(v@),
{
    let mut start: usize = 0;
    proof {
        assert(v@.skip(0) =~= v@);
    }
    while start < v.len() && (v[start] == 32 || v[start] == 9)
        invariant
            start <= v.len(),
            trim_left(v@) == trim_left(v@.skip(start as int)),
        decreases v.len() - start,
    {
        proof {
            assert(v@.skip(start as int)[0] == v@[start as int]);
            assert(v@.skip(start as int).drop_first() =~= v@.skip(start + 1 as int));
        }
        start = start + 1;
    }
    proof {
        if start < v.len() {
            assert(v@.skip(start as int)[0] == v@[start as int]);
        }
        assert(trim_left(v@) == v@.skip(start as int));
        assert(v@.skip(start as int) =~= v@.subrange(start as int, v@.len() as int));
    }
    let mut end: usize = v.len();
    while end > start && (v[end - 1] == 32 || v[end - 1] == 9)
        invariant
            start <= end <= v.len(),
            trim_right(v@.skip(start as int)) == trim_right(
                v@.subrange(start as int, end as int),
            ),
        decreases end,
    {
        proof {
            let s = v@.subrange(start as int, end as int);
            assert(s.last() == v@[end - 1]);
            assert(s.drop_last() =~= v@.subrange(start as int, end - 1));
        }
        end = end - 1;
    }
    proof {
        let s = v@.subrange(start as int, end as int);
        if end > start {
            assert(s.last() == v@[end - 1]);
        }
        assert(trim_right(s) == s);
    }
    copy_range(v, start, end)
}

/// Strips one pair of wrapping double quotes, if both are present.
pub fn unquote_vec(v: Vec<u8>) -> (r: Vec<u8>)
    ensures
        r@ == unquote(v@),
{
    if v.len() >= 2 && v[0] == 34 && v[v.len() - 1] == 34 {
        copy_range(&v, 1, v.len() - 1)
    } else {
        v
    }
}

/// The bytes of `content-type`, as a vector.
fn ct_name_vec() -> (r: Vec<u8>)
    ensures
        r@ == ct_name(),
{
    let r: Vec<u8> = vec![99u8, 111u8, 110u8, 116u8, 101u8, 110u8, 116u8, 45u8, 116u8, 121u8, 112u8, 101u8];
    proof {
        assert(r@ =~= ct_name());
    }
    r
}

/// The bytes of `multipart/`, as a vector.
fn multipart_slash_vec() -> (r: Vec<u8>)
    ensures
        r@ == multipart_slash(),
{
    let r: Vec<u8> = vec![109u8, 117u8, 108u8, 116u8, 105u8, 112u8, 97u8, 114u8, 116u8, 47u8];
    proof {
        assert(r@ =~= multipart_slash());
    }
    r
}

/// The bytes of `boundary`, as a vector.
fn boundary_name_vec() -> (r: Vec<u8>)
    ensures
        r@ == boundary_name(),
{
    let r: Vec<u8> = vec![98u8, 111u8, 117u8, 110u8, 100u8, 97u8, 114u8, 121u8];
    proof {
        assert(r@ =~= boundary_name());
    }
    r
}

/// Does the trimmed type piece start with `multipart/`, up to ASCII case?
fn is_multipart_type(t: &Vec<u8>) -> (r: bool)
    ensures
        r == (t@.len() >= 10 && fold_case(t@.take(10)) == multipart_slash()),
{
    if t.len() < 10 {
        return false;
    }
    let p = copy_range(t, 0, 10);
    let m = multipart_slash_vec();
    proof {
        assert(p@ =~= t@.take(10));
        assert(fold_case(multipart_slash()) =~= multipart_slash());
    }
    crate::header::eq_ignore_case(&p, &m)
}

/// The boundary supplied by one parameter piece, if its key is `boundary`.
fn param_boundary_vec(seg: &Vec<u8>) -> (r: Option<Vec<u8>>)
    ensures
        match r {
            Some(b) => param_boundary(seg@) == Some(b@),
            None => param_boundary(seg@) is None,
        },
{
    let t = trim_vec(seg);
    let e = find_in(&t, 61);
    if e == t.len() {
        return None;
    }
    let keyraw = copy_range(&t, 0, e);
    let key = trim_vec(&keyraw);
    let bn = boundary_name_vec();
    proof {
        assert(keyraw@ =~= t@.take(e as int));
        assert(fold_case(boundary_name()) =~= boundary_name());
    }
    if crate::header::eq_ignore_case(&key, &bn) {
        let valraw = copy_range(&t, e + 1, t.len());
        let val = trim_vec(&valraw);
        proof {
            assert(valraw@ =~= t@.skip(e + 1 as int));
        }
        Some(unquote_vec(val))
    } else {
        None
    }
}

/// The boundary declared by a `Content-Type` value, per the grammar above.
fn boundary_of_value_vec(v: &Vec<u8>) -> (r: Option<Vec<u8>>)
    ensures
        match r {
            Some(b) => boundary_of_value(v@) == Some(b@),
            None => boundary_of_value(v@) is None,
        },
{
    let e = find_in(v, 59);
    let head = copy_range(v, 0, e);
    let t = trim_vec(&head);
    proof {
        assert(head@ =~= v@.take(e as int));
    }
    if !is_multipart_type(&t) {
        return None;
    }
    if e == v.len() {
        return None;
    }
    let mut rest = copy_range(v, e + 1, v.len());
    proof {
        assert(rest@ =~= v@.skip(e + 1 as int));
    }
    loop
        invariant
            scan_params(v@.skip(find_byte(v@, 59) + 1)) == scan_params(rest@),
            boundary_of_value(v@) == (match scan_params(v@.skip(find_byte(v@, 59) + 1)) {
                Some(b) => if b.len() > 0 {
                    Some(b)
                } else {
                    None::<Seq<u8>>
                },
                None => None::<Seq<u8>>,
            }),
        decreases rest@.len(),
    {
        let e2 = find_in(&rest, 59);
        let seg = copy_range(&rest, 0, e2);
        proof {
            assert(seg@ =~= rest@.take(e2 as int));
        }
        match param_boundary_vec(&seg) {
            Some(b) => {
                if b.len() > 0 {
                    return Some(b);
                } else {
                    return None;
                }
            },
            None => {
                if e2 == rest.len() {
                    return None;
                }
                let next = copy_range(&rest, e2 + 1, rest.len());
                proof {
                    assert(next@ =~= rest@.skip(e2 + 1 as int));
                }
                rest = next;
            },
        }
    }
}

/// Extracts the boundary that `headers` declares for a nested multipart
/// body, per the grammar above; `None` when no `Content-Type` header is
/// present, when its value is not a `multipart/*` type, or when no
/// non-empty `boundary=` parameter follows it.
pub fn multipart_boundary(headers: &Vec<Header>) -> (r: Option<Vec<u8>>)
    ensures
        match r {
            Some(b) => boundary_of_headers(headers@) == Some(b@),
            None => boundary_of_headers(headers@) is None,
        },
{
    let ctn = ct_name_vec();
    proof {
        assert(fold_case(ct_name()) =~= ct_name());
        assert(headers@.skip(0) =~= headers@);
    }
    let mut i: usize = 0;
    while i < headers.len()
        invariant
            i <= headers.len(),
            ctn@ == ct_name(),
            content_type_of(headers@) == content_type_of(headers@.skip(i as int)),
        decreases headers.len() - i,
    {
        proof {
            assert(fold_case(ct_name()) =~= ct_name());
            assert(headers@.skip(i as int)[0] == headers@[i as int]);
            assert(headers@.skip(i as int).drop_first() =~= headers@.skip(i + 1 as int));
        }
        if crate::header::eq_ignore_case(&headers[i].name, &ctn) {
            return boundary_of_value_vec(&headers[i].value);
        }
        i = i + 1;
    }
    None
}

} // verus!
