//! Part headers as raw bytes, and their wire form.

use vstd::prelude::*;

verus! {

/// One header of a multipart part, held as raw bytes.
///
/// On the wire a header is the name, a colon and a space, the value, CRLF.
#[derive(Debug)]
pub struct Header {
    pub name: Vec<u8>,
    pub value: Vec<u8>,
}

/// The mathematical shape of a header: its name and value bytes.
pub struct HeaderV {
    pub name: Seq<u8>,
    pub value: Seq<u8>,
}

impl View for Header {
    type V = HeaderV;

    open spec fn view(&self) -> HeaderV {
        HeaderV { name: self.name@, value: self.value@ }
    }
}

/// The views of a header vector, in order.
pub open spec fn hviews(hs: Seq<Header>) -> Seq<HeaderV> {
    hs.map_values(|h: Header| h@)
}

/// A copy of a header, byte for byte.
pub fn copy_header(h: &Header) -> (r: Header)
    ensures
        r@ == h@,
{
    let mut name: Vec<u8> = Vec::new();
    push_bytes(&mut name, &h.name);
    let mut value: Vec<u8> = Vec::new();
    push_bytes(&mut value, &h.value);
    proof {
        assert(name@ =~= h.name@);
        assert(value@ =~= h.value@);
    }
    Header { name, value }
}

/// The two-byte line terminator `\r\n`.
pub open spec fn crlf() -> Seq<u8> {
    seq![13u8, 10u8]
}

/// The separator between a header name and its value: `: `.
pub open spec fn colon_space() -> Seq<u8> {
    seq![58u8, 32u8]
}

/// The two dashes that open a delimiter line: `--`.
pub open spec fn double_dash() -> Seq<u8> {
    seq![45u8, 45u8]
}

impl Header {
    /// The wire form of this header line.
    pub open spec fn wire(self) -> Seq<u8> {
        self.name@ + colon_space() + self.value@ + crlf()
    }
}

/// The wire form of a header list: each header line in order.
pub open spec fn headers_wire(hs: Seq<Header>) -> Seq<u8>
    decreases hs.len(),
{
    if hs.len() == 0 {
        Seq::<u8>::empty()
    } else {
        hs[0].wire() + headers_wire(hs.drop_first())
    }
}

/// `headers_wire` grows by one line when a header is appended.
pub proof fn lemma_headers_wire_snoc(hs: Seq<Header>, h: Header)
    ensures
        headers_wire(hs.push(h)) == headers_wire(hs) + h.wire(),
    decreases hs.len(),
{
    if hs.len() == 0 {
        assert(hs.push(h).drop_first() =~= Seq::<Header>::empty());
        assert(hs.push(h)[0] == h);
        assert(headers_wire(Seq::<Header>::empty()) == Seq::<u8>::empty());
        assert(headers_wire(hs.push(h)) =~= headers_wire(hs) + h.wire());
    } else {
        assert(hs.push(h).drop_first() =~= hs.drop_first().push(h));
        assert(hs.push(h)[0] == hs[0]);
        lemma_headers_wire_snoc(hs.drop_first(), h);
        assert(headers_wire(hs.push(h)) =~= headers_wire(hs) + h.wire());
    }
}

/// An upper-case ASCII letter mapped to lower case; any other byte unchanged.
pub open spec fn to_lower(b: u8) -> u8 {
    if 65 <= b && b <= 90 {
        (b + 32) as u8
    } else {
        b
    }
}

/// A byte string with its ASCII letters mapped to lower case.
pub open spec fn fold_case(s: Seq<u8>) -> Seq<u8> {
    s.map_values(|b: u8| to_lower(b))
}

/// Appends all of `src` to `out`.
pub fn push_bytes(out: &mut Vec<u8>, src: &Vec<u8>)
    ensures
        final(out)@ == old(out)@ + src@,
{
    let mut i: usize = 0;
    while i < src.len()
        invariant
            i <= src.len(),
            out@ == old(out)@ + src@.take(i as int),
        decreases src.len() - i,
    {
        out.push(src[i]);
        proof {
            assert(old(out)@ + src@.take(i + 1 as int) =~= (old(out)@ + src@.take(i as int)).push(
                src@[i as int],
            ));
        }
        i = i + 1;
    }
    proof {
        assert(src@.take(src@.len() as int) =~= src@);
    }
}

/// Appends the wire form of one header to `out`.
pub fn push_header(out: &mut Vec<u8>, h: &Header)
    ensures
        final(out)@ == old(out)@ + h.wire(),
{
    push_bytes(out, &h.name);
    out.push(58);
    out.push(32);
    push_bytes(out, &h.value);
    out.push(13);
    out.push(10);
    proof {
        assert(out@ =~= old(out)@ + h.wire());
    }
}

/// Appends the wire form of a whole header list to `out`.
pub fn push_headers(out: &mut Vec<u8>, hs: &Vec<Header>)
    ensures
        final(out)@ == old(out)@ + headers_wire(hs@),
{
    let mut i: usize = 0;
    while i < hs.len()
        invariant
            i <= hs.len(),
            out@ == old(out)@ + headers_wire(hs@.take(i as int)),
        decreases hs.len() - i,
    {
        push_header(out, &hs[i]);
        proof {
            assert(hs@.take(i + 1 as int) =~= hs@.take(i as int).push(hs@[i as int]));
            lemma_headers_wire_snoc(hs@.take(i as int), hs@[i as int]);
        }
        i = i + 1;
    }
    proof {
        assert(hs@.take(hs@.len() as int) =~= hs@);
    }
}

/// Compares two byte strings up to ASCII case.
pub fn eq_ignore_case(a: &Vec<u8>, b: &Vec<u8>) -> (r: bool)
    ensures
        r == (fold_case(a@) == fold_case(b@)),
{
    if a.len() != b.len() {
        proof {
            assert(fold_case(a@).len() == a@.len());
            assert(fold_case(b@).len() == b@.len());
        }
        return false;
    }
    let mut i: usize = 0;
    while i < a.len()
        invariant
            a@.len() == b@.len(),
            i <= a.len(),
            forall|j: int| 0 <= j < i ==> to_lower(a@[j]) == to_lower(b@[j]),
        decreases a.len() - i,
    {
        let x = a[i];
        let y = b[i];
        let lx = if 65 <= x && x <= 90 { x + 32 } else { x };
        let ly = if 65 <= y && y <= 90 { y + 32 } else { y };
        if lx != ly {
            proof {
                let fa = fold_case(a@);
                let fb = fold_case(b@);
                assert(fa[i as int] == to_lower(a@[i as int]));
                assert(fb[i as int] == to_lower(b@[i as int]));
                assert(fa != fb) by {
                    if fa == fb {
                        assert(fa[i as int] == fb[i as int]);
                    }
                }
            }
            return false;
        }
        i = i + 1;
    }
    proof {
        assert(fold_case(a@) =~= fold_case(b@));
    }
    true
}

} // verus!
