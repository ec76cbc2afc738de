//! A short key held in place: up to 63 bytes and their number, with no
//! allocation and no reference into another buffer.

use vstd::prelude::*;

verus! {

/// The greatest number of bytes that a `MyString` holds.
pub const STR_INTERNED: usize = 63;

/// A key of at most `STR_INTERNED` bytes. The bytes behind the key are zero,
/// so that two keys with the same bytes are the same value.
#[derive(Clone, Copy, Debug, PartialEq, Eq, Hash)]
pub struct MyString {
    buf: [u8; STR_INTERNED],
    len: u8,
}

impl View for MyString {
    type V = Seq<u8>;

    closed spec fn view(&self) -> Seq<u8> {
        self.buf@.take(self.len as int)
    }
}

impl MyString {
    /// The key fits its buffer, and the bytes behind it are zero.
    pub closed spec fn wf(&self) -> bool {
        &&& self.len <= STR_INTERNED
        &&& forall|i: int| self.len <= i < STR_INTERNED ==> self.buf@[i] == 0
    }

    /// Two keys that hold the same bytes are the same value.
    pub proof fn lemma_same_bytes_same_value(a: MyString, b: MyString)
        requires
            a.wf(),
            b.wf(),
            a@ == b@,
        ensures
            a == b,
    {
        assert(a@.len() == a.len && b@.len() == b.len);
        assert forall|i: int| 0 <= i < STR_INTERNED implies a.buf@[i] == b.buf@[i] by {
            if i < a.len {
                assert(a@[i] == a.buf@[i] && b@[i] == b.buf@[i]);
            }
        }
        assert(a.buf =~= b.buf);
    }

    /// A copy of `src`, which holds at most `STR_INTERNED` bytes.
    pub fn new(src: &[u8]) -> (s: MyString)
        requires
            src@.len() <= STR_INTERNED,
        ensures
            s.wf(),
            s@ == src@,
    {
        let mut b: [u8; STR_INTERNED] = [0u8; STR_INTERNED];
        let n: usize = src.len();
        let mut i: usize = 0;
        while i < n
            invariant
                i <= n,
                n == src@.len(),
                n <= STR_INTERNED,
                forall|j: int| 0 <= j < i ==> b@[j] == src@[j],
                forall|j: int| i <= j < STR_INTERNED ==> b@[j] == 0,
            decreases n - i,
        {
            b[i] = src[i];
            i += 1;
        }
        let s = MyString { buf: b, len: n as u8 };
        proof {
            assert(s@ =~= src@);
        }
        s
    }

    /// How many bytes the key holds.
    pub fn len(&self) -> (n: usize)
        requires
            self.wf(),
        ensures
            n == self@.len(),
            n <= STR_INTERNED,
    {
        self.len as usize
    }

    /// The bytes of the key.
    pub fn as_bytes(&self) -> (bytes: &[u8])
        requires
            self.wf(),
        ensures
            bytes@ == self@,
    {
        let all: &[u8] = self.buf.as_slice();
        let n: usize = self.len as usize;
        let bytes: &[u8] = &all[0..n];
        proof {
            assert(bytes@ =~= self@);
        }
        bytes
    }

    /// Whether `other` holds the same bytes.
    pub fn same_key(&self, other: &MyString) -> (r: bool)
        requires
            self.wf(),
            other.wf(),
        ensures
            r == (self@ == other@),
    {
        if self.len != other.len {
            proof {
                assert(self@.len() == self.len);
                assert(other@.len() == other.len);
            }
            return false;
        }
        let n: usize = self.len as usize;
        let mut i: usize = 0;
        while i < n
            invariant
                i <= n,
                n == self.len,
                n == other.len,
                n <= STR_INTERNED,
                forall|j: int| 0 <= j < i ==> self.buf@[j] == other.buf@[j],
            decreases n - i,
        {
            if self.buf[i] != other.buf[i] {
                proof {
                    assert(self@[i as int] != other@[i as int]);
                }
                return false;
            }
            i += 1;
        }
        proof {
            assert(self@ =~= other@);
        }
        true
    }
}

} // verus!
