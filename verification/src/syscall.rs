//! The write system call: what it logs of the caller's buffer.
use vstd::prelude::*;

verus! {

/// The buffer the kernel copies a write into; a write must leave room for
/// the terminating zero.
pub const WRITE_BUFFER_SIZE: usize = 512;

/// How long the writing thread sleeps after a write, in milliseconds.
pub const WRITE_SLEEP_MS: u64 = 500;

/// The index of the first zero byte of `s`, or its length when it has none.
pub open spec fn text_len(s: Seq<u8>) -> int
    decreases s.len(),
{
    if s.len() == 0 {
        0
    } else if s[0] == 0 {
        0
    } else {
        1 + text_len(s.drop_first())
    }
}

pub(crate) proof fn lemma_text_len(s: Seq<u8>)
    ensures
        0 <= text_len(s) <= s.len(),
        forall|i: int| 0 <= i < text_len(s) ==> s[i] != 0,
        text_len(s) < s.len() ==> s[text_len(s)] == 0,
    decreases s.len(),
{
    if s.len() > 0 && s[0] != 0 {
        lemma_text_len(s.drop_first());
        assert forall|i: int| 0 <= i < text_len(s) implies s[i] != 0 by {
            if i > 0 {
                assert(s[i] == s.drop_first()[i - 1]);
            }
        }
        if text_len(s) < s.len() {
            assert(s[text_len(s)] == s.drop_first()[text_len(s) - 1]);
        }
    }
}

/// The text that a write of `bytes` logs: the bytes as a zero-terminated
/// string, that is up to the first zero byte, or all of them when none is
/// zero. A write of the whole buffer or more is refused.
pub fn write_syscall_text(bytes: &[u8]) -> (r: Vec<u8>)
    requires
        bytes@.len() < WRITE_BUFFER_SIZE,
    ensures
        r@ == bytes@.subrange(0, text_len(bytes@)),
        forall|i: int| 0 <= i < r@.len() ==> r@[i] != 0,
        r@.len() < bytes@.len() ==> bytes@[r@.len() as int] == 0,
{
    proof {
        lemma_text_len(bytes@);
    }
    let mut out: Vec<u8> = Vec::new();
    let mut i: usize = 0;
    while i < bytes.len() && bytes[i] != 0
        invariant
            i <= text_len(bytes@),
            0 <= text_len(bytes@) <= bytes@.len(),
            forall|k: int| 0 <= k < text_len(bytes@) ==> bytes@[k] != 0,
            text_len(bytes@) < bytes@.len() ==> bytes@[text_len(bytes@)] == 0,
            out@ == bytes@.subrange(0, i as int),
        decreases bytes@.len() - i,
    {
        out.push(bytes[i]);
        i = i + 1;
    }
    out
}

} // verus!
