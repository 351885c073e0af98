//! Text/binary classification of byte buffers.
//!
//! A buffer is treated as substitutable text exactly when it is free of NUL
//! bytes and is well-formed UTF-8; anything else is treated as opaque binary.

use vstd::prelude::*;

verus! {

/// A continuation byte of a multi-byte UTF-8 sequence.
pub open spec fn is_cont_byte(b: u8) -> bool {
    0x80 <= b <= 0xBF
}

/// Well-formed UTF-8, following the byte-pattern table of RFC 3629:
/// each scalar value is encoded in its shortest form and surrogate
/// code points are excluded.
pub open spec fn is_utf8(s: Seq<u8>) -> bool
    decreases s.len(),
{
    if s.len() == 0 {
        true
    } else {
        let b0 = s[0];
        if b0 < 0x80 {
            is_utf8(s.skip(1))
        } else if 0xC2 <= b0 && b0 <= 0xDF {
            s.len() >= 2 && is_cont_byte(s[1]) && is_utf8(s.skip(2))
        } else if b0 == 0xE0 {
            s.len() >= 3 && 0xA0 <= s[1] && s[1] <= 0xBF && is_cont_byte(s[2]) && is_utf8(
                s.skip(3),
            )
        } else if 0xE1 <= b0 && b0 <= 0xEC || b0 == 0xEE || b0 == 0xEF {
            s.len() >= 3 && is_cont_byte(s[1]) && is_cont_byte(s[2]) && is_utf8(s.skip(3))
        } else if b0 == 0xED {
            s.len() >= 3 && 0x80 <= s[1] && s[1] <= 0x9F && is_cont_byte(s[2]) && is_utf8(
                s.skip(3),
            )
        } else if b0 == 0xF0 {
            s.len() >= 4 && 0x90 <= s[1] && s[1] <= 0xBF && is_cont_byte(s[2]) && is_cont_byte(
                s[3],
            ) && is_utf8(s.skip(4))
        } else if 0xF1 <= b0 && b0 <= 0xF3 {
            s.len() >= 4 && is_cont_byte(s[1]) && is_cont_byte(s[2]) && is_cont_byte(s[3])
                && is_utf8(s.skip(4))
        } else if b0 == 0xF4 {
            s.len() >= 4 && 0x80 <= s[1] && s[1] <= 0x8F && is_cont_byte(s[2]) && is_cont_byte(
                s[3],
            ) && is_utf8(s.skip(4))
        } else {
            false
        }
    }
}

/// The buffer holds at least one NUL byte.
pub open spec fn has_nul(s: Seq<u8>) -> bool {
    exists|i: int| 0 <= i < s.len() && s[i] == 0u8
}

/// The classification itself: text means NUL-free and well-formed UTF-8.
pub open spec fn spec_is_text(s: Seq<u8>) -> bool {
    !has_nul(s) && is_utf8(s)
}

proof fn lemma_skip_skip(s: Seq<u8>, i: int, k: int)
    requires
        0 <= i,
        0 <= k,
        i + k <= s.len(),
    ensures
        s.skip(i).skip(k) == s.skip(i + k),
{
    assert(s.skip(i).skip(k) =~= s.skip(i + k));
}

/// Checks well-formed UTF-8 by walking the byte patterns left to right.
pub fn is_utf8_bytes(buf: &[u8]) -> (r: bool)
    ensures
        r == is_utf8(buf@),
{
    let n = buf.len();
    let mut i: usize = 0;
    proof {
        assert(buf@.skip(0) =~= buf@);
    }
    while i < n
        invariant
            i <= n,
            n == buf@.len(),
            is_utf8(buf@) == is_utf8(buf@.skip(i as int)),
        decreases n - i,
    {
        let ghost s = buf@.skip(i as int);
        proof {
            assert(s[0] == buf@[i as int]);
        }
        let b0 = buf[i];
        let need: usize = if b0 < 0x80 {
            1
        } else if 0xC2 <= b0 && b0 <= 0xDF {
            2
        } else if 0xE0 <= b0 && b0 <= 0xEF {
            3
        } else if 0xF0 <= b0 && b0 <= 0xF4 {
            4
        } else {
            return false;
        };
        if n - i < need {
            return false;
        }
        proof {
            assert(forall|k: int| 0 < k < need ==> s[k] == buf@[i + k]);
        }
        let ok = if b0 < 0x80 {
            true
        } else if 0xC2 <= b0 && b0 <= 0xDF {
            0x80 <= buf[i + 1] && buf[i + 1] <= 0xBF
        } else if b0 == 0xE0 {
            0xA0 <= buf[i + 1] && buf[i + 1] <= 0xBF && 0x80 <= buf[i + 2] && buf[i + 2] <= 0xBF
        } else if b0 == 0xED {
            0x80 <= buf[i + 1] && buf[i + 1] <= 0x9F && 0x80 <= buf[i + 2] && buf[i + 2] <= 0xBF
        } else if 0xE1 <= b0 && b0 <= 0xEF {
            0x80 <= buf[i + 1] && buf[i + 1] <= 0xBF && 0x80 <= buf[i + 2] && buf[i + 2] <= 0xBF
        } else if b0 == 0xF0 {
            0x90 <= buf[i + 1] && buf[i + 1] <= 0xBF && 0x80 <= buf[i + 2] && buf[i + 2] <= 0xBF
                && 0x80 <= buf[i + 3] && buf[i + 3] <= 0xBF
        } else if b0 == 0xF4 {
            0x80 <= buf[i + 1] && buf[i + 1] <= 0x8F && 0x80 <= buf[i + 2] && buf[i + 2] <= 0xBF
                && 0x80 <= buf[i + 3] && buf[i + 3] <= 0xBF
        } else {
            0x80 <= buf[i + 1] && buf[i + 1] <= 0xBF && 0x80 <= buf[i + 2] && buf[i + 2] <= 0xBF
                && 0x80 <= buf[i + 3] && buf[i + 3] <= 0xBF
        };
        if !ok {
            return false;
        }
        proof {
            lemma_skip_skip(buf@, i as int, need as int);
        }
        i = i + need;
    }
    proof {
        assert(buf@.skip(n as int) =~= Seq::<u8>::empty());
    }
    true
}

/// Decides whether a byte buffer should be treated as substitutable text:
/// any NUL byte forces binary, otherwise the buffer is text exactly when it
/// is well-formed UTF-8.
pub fn is_text_bytes(buf: &[u8]) -> (r: bool)
    ensures
        r == spec_is_text(buf@),
{
    let n = buf.len();
    let mut i: usize = 0;
    while i < n
        invariant
            i <= n,
            n == buf@.len(),
            forall|j: int| 0 <= j < i ==> buf@[j] != 0u8,
        decreases n - i,
    {
        if buf[i] == 0 {
            proof {
                assert(buf@[i as int] == 0u8);
            }
            return false;
        }
        i = i + 1;
    }
    is_utf8_bytes(buf)
}

/// A buffer holding a NUL byte is classified binary, whatever surrounds it.
pub proof fn lemma_nul_is_binary(s: Seq<u8>, i: int)
    requires
        0 <= i < s.len(),
        s[i] == 0u8,
    ensures
        !spec_is_text(s),
{
}

/// A NUL-free, well-formed UTF-8 buffer is classified text.
pub proof fn lemma_utf8_nul_free_is_text(s: Seq<u8>)
    requires
        is_utf8(s),
        forall|i: int| 0 <= i < s.len() ==> s[i] != 0u8,
    ensures
        spec_is_text(s),
{
}

} // verus!
