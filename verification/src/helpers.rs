//! Validated request parameters.

use vstd::prelude::*;

use vstd::string::StrSliceExecFns;
use vstd::utf8::encode_utf8;

verus! {

/// Does `sub` occur in `s` as a contiguous run?
pub open spec fn contains_sub(s: Seq<u8>, sub: Seq<u8>) -> bool {
    exists|i: int|
        0 <= i && i + sub.len() <= s.len() && #[trigger] s.subrange(i, i + sub.len()) == sub
}

/// The bytes of `erase`.
pub open spec fn erase_word() -> Seq<u8> {
    seq![101u8, 114u8, 97u8, 115u8, 101u8]
}

/// The bytes of `trash`.
pub open spec fn trash_word() -> Seq<u8> {
    seq![116u8, 114u8, 97u8, 115u8, 104u8]
}

/// The bytes of `restore`.
pub open spec fn restore_word() -> Seq<u8> {
    seq![114u8, 101u8, 115u8, 116u8, 111u8, 114u8, 101u8]
}

/// A delete mode is accepted when it mentions one of the three words.
pub open spec fn valid_mode(mode: Seq<char>) -> bool {
    contains_sub(encode_utf8(mode), erase_word()) || contains_sub(encode_utf8(mode), trash_word())
        || contains_sub(encode_utf8(mode), restore_word())
}

/// Searches `hay` for `needle` as a contiguous run of bytes.
fn contains_bytes(hay: &Vec<u8>, needle: &Vec<u8>) -> (r: bool)
    ensures
        r == contains_sub(hay@, needle@),
{
    if needle.len() > hay.len() {
        return false;
    }
    if needle.len() == 0 {
        proof {
            assert(hay@.subrange(0, 0 + needle@.len() as int) =~= needle@);
        }
        return true;
    }
    let limit = hay.len() - needle.len();
    let mut i: usize = 0;
    while i <= limit
        invariant
            hay@.len() <= usize::MAX,
            1 <= needle@.len() <= hay@.len(),
            limit == hay@.len() - needle@.len(),
            i <= limit + 1,
            forall|p: int|
                0 <= p < i ==> #[trigger] hay@.subrange(p, p + needle@.len()) != needle@,
        decreases limit + 1 - i,
    {
        let mut m: usize = 0;
        let mut hit = true;
        while m < needle.len()
            invariant
                hay@.len() <= usize::MAX,
                needle@.len() <= hay@.len(),
                i + needle@.len() <= hay@.len(),
                m <= needle@.len(),
                hit ==> forall|q: int| 0 <= q < m ==> hay@[i + q] == needle@[q],
                !hit ==> hay@.subrange(i as int, i + needle@.len()) != needle@,
            decreases needle@.len() - m,
        {
            proof {
                assert(i + m < hay@.len());
            }
            if hay[i + m] != needle[m] {
                proof {
                    assert(hay@.subrange(i as int, i + needle@.len())[m as int] == hay@[i + m]);
                }
                hit = false;
            }
            m = m + 1;
        }
        if hit {
            proof {
                assert(hay@.subrange(i as int, i + needle@.len()) =~= needle@);
            }
            return true;
        }
        i = i + 1;
    }
    proof {
        assert forall|p: int|
            0 <= p && p + needle@.len() <= hay@.len() implies #[trigger] hay@.subrange(
            p,
            p + needle@.len(),
        ) != needle@ by {
            assert(p <= limit as int);
            assert(p < i);
        }
    }
    false
}

/// The parameters of a delete request: which of the three delete modes the
/// caller asks for.
#[derive(Debug)]
pub struct DeleteParams {
    /// The requested mode; accepted when it mentions `erase`, `trash` or
    /// `restore`.
    pub mode: String,
}

impl DeleteParams {
    /// Does the mode pass validation: does it mention `erase`, `trash` or
    /// `restore`?
    pub fn is_valid(&self) -> (r: bool)
        ensures
            r == valid_mode(self.mode@),
    {
        let mode_b = self.mode.as_str().as_bytes_vec();
        let erase: Vec<u8> = vec![101u8, 114u8, 97u8, 115u8, 101u8];
        let trash: Vec<u8> = vec![116u8, 114u8, 97u8, 115u8, 104u8];
        let restore: Vec<u8> = vec![114u8, 101u8, 115u8, 116u8, 111u8, 114u8, 101u8];
        proof {
            assert(erase@ =~= erase_word());
            assert(trash@ =~= trash_word());
            assert(restore@ =~= restore_word());
        }
        contains_bytes(&mode_b, &erase) || contains_bytes(&mode_b, &trash) || contains_bytes(
            &mode_b,
            &restore,
        )
    }
}

} // verus!
