//! A growing byte buffer that stores keys end to end.
//!
//! A key is handed back as a handle: the place of its bytes in the buffer.
//! The buffer only grows, but for one thing: the key stored last can be taken
//! back, which shortens the buffer by that key.

use vstd::prelude::*;

verus! {

/// The place of one key in an arena.
#[derive(Clone, Copy, Debug, PartialEq, Eq, Structural)]
pub struct KeyHandle {
    pub offset: usize,
    pub len: usize,
}

/// What `intern` leaves in an arena that held `store`.
pub open spec fn interned(store: Seq<u8>, key: Seq<u8>) -> Seq<u8> {
    store + key
}

/// The handle that `intern` returns for `key` in an arena that held `store`.
pub open spec fn handle_for(store: Seq<u8>, key: Seq<u8>) -> KeyHandle {
    KeyHandle { offset: store.len() as usize, len: key.len() as usize }
}

/// What `retract` leaves in an arena that held `store`.
pub open spec fn retracted(store: Seq<u8>, h: KeyHandle) -> Seq<u8> {
    store.take(h.offset as int)
}

/// The bytes of `h` lie within `store`.
pub open spec fn holds(store: Seq<u8>, h: KeyHandle) -> bool {
    h.offset + h.len <= store.len()
}

/// The bytes of `h` are the last ones of `store`.
pub open spec fn is_last(store: Seq<u8>, h: KeyHandle) -> bool {
    h.offset + h.len == store.len()
}

/// The key that `h` stands for in `store`.
pub open spec fn key_at(store: Seq<u8>, h: KeyHandle) -> Seq<u8> {
    store.subrange(h.offset as int, h.offset + h.len)
}

/// `longer` begins with all of `shorter`.
pub open spec fn extends(longer: Seq<u8>, shorter: Seq<u8>) -> bool {
    shorter.len() <= longer.len() && longer.take(shorter.len() as int) == shorter
}

/// Storing a key and taking it back at once leaves an arena as it was: the
/// same length and the same bytes. While the key is stored, and after it is
/// taken back, every handle given out before still lies within the arena and
/// stands for the same key.
pub proof fn lemma_intern_then_retract(store: Seq<u8>, key: Seq<u8>)
    requires
        store.len() + key.len() <= usize::MAX,
    ensures
        is_last(interned(store, key), handle_for(store, key)),
        key_at(interned(store, key), handle_for(store, key)) == key,
        retracted(interned(store, key), handle_for(store, key)) == store,
        forall|h: KeyHandle| #[trigger]
            holds(store, h) ==> holds(interned(store, key), h) && key_at(interned(store, key), h)
                == key_at(store, h),
{
    let grown = interned(store, key);
    let h = handle_for(store, key);
    assert(key_at(grown, h) =~= key);
    assert(retracted(grown, h) =~= store);
    assert forall|g: KeyHandle| #[trigger] holds(store, g) implies holds(grown, g) && key_at(
        grown,
        g,
    ) == key_at(store, g) by {
        assert(key_at(grown, g) =~= key_at(store, g));
    }
}

/// A store that begins with a second, which begins with a third, begins with
/// the third.
pub proof fn lemma_extends_transitive(a: Seq<u8>, b: Seq<u8>, c: Seq<u8>)
    requires
        extends(a, b),
        extends(b, c),
    ensures
        extends(a, c),
{
    assert(a.take(c.len() as int) =~= b.take(c.len() as int)) by {
        assert forall|i: int| 0 <= i < c.len() implies a[i] == b[i] by {
            assert(a.take(b.len() as int)[i] == b[i]);
        }
    }
}

/// Every store begins with itself, and with what it was before something was
/// put behind it.
pub proof fn lemma_extends_append(a: Seq<u8>, more: Seq<u8>)
    ensures
        extends(a, a),
        extends(a + more, a),
{
    assert(a.take(a.len() as int) =~= a);
    assert((a + more).take(a.len() as int) =~= a);
}

/// A handle that lies within a store stands for the same key in every store
/// that begins with that one.
pub proof fn lemma_key_kept(longer: Seq<u8>, shorter: Seq<u8>, h: KeyHandle)
    requires
        extends(longer, shorter),
        holds(shorter, h),
    ensures
        holds(longer, h),
        key_at(longer, h) == key_at(shorter, h),
{
    assert forall|i: int| 0 <= i < shorter.len() implies longer[i] == shorter[i] by {
        assert(longer.take(shorter.len() as int)[i] == shorter[i]);
    }
    assert(key_at(longer, h) =~= key_at(shorter, h));
}

/// A byte store for the keys of one worker. It keeps the number of bytes
/// that it was asked to set room aside for when it was made.
pub struct Arena {
    bytes: Vec<u8>,
    reserved: usize,
}

impl View for Arena {
    type V = Seq<u8>;

    closed spec fn view(&self) -> Seq<u8> {
        self.bytes@
    }
}

impl Arena {
    /// For how many bytes the arena was asked to set room aside when it was
    /// made.
    pub closed spec fn reserved(&self) -> usize {
        self.reserved
    }

    /// An empty arena that was asked for no room.
    pub fn new() -> (a: Arena)
        ensures
            a@ == Seq::<u8>::empty(),
            a.reserved() == 0,
    {
        Arena { bytes: Vec::new(), reserved: 0 }
    }

    /// An empty arena that asks for room for `capacity` bytes at once, and
    /// keeps that number.
    pub fn with_capacity(capacity: usize) -> (a: Arena)
        ensures
            a@ == Seq::<u8>::empty(),
            a.reserved() == capacity,
    {
        Arena { bytes: Vec::with_capacity(capacity), reserved: capacity }
    }

    /// For how many bytes the arena was asked to set room aside when it was
    /// made.
    pub fn room(&self) -> (n: usize)
        ensures
            n == self.reserved(),
    {
        self.reserved
    }

    /// How many bytes are stored.
    pub fn len(&self) -> (n: usize)
        ensures
            n == self@.len(),
    {
        self.bytes.len()
    }

    /// Stores `key` behind everything stored so far.
    pub fn intern(&mut self, key: &[u8]) -> (h: KeyHandle)
        ensures
            final(self)@ == interned(old(self)@, key@),
            h == handle_for(old(self)@, key@),
            is_last(final(self)@, h),
            key_at(final(self)@, h) == key@,
            extends(final(self)@, old(self)@),
            final(self).reserved() == old(self).reserved(),
    {
        let offset: usize = self.bytes.len();
        self.bytes.extend_from_slice(key);
        proof {
            assert(self.bytes@ =~= old(self).bytes@ + key@);
            assert(key_at(self.bytes@, KeyHandle { offset, len: key.len() }) =~= key@);
            assert(self.bytes@.take(old(self).bytes@.len() as int) =~= old(self).bytes@);
        }
        KeyHandle { offset, len: key.len() }
    }

    /// Takes back the key stored last.
    pub fn retract(&mut self, h: KeyHandle)
        requires
            is_last(old(self)@, h),
        ensures
            final(self)@ == retracted(old(self)@, h),
            extends(old(self)@, final(self)@),
            final(self).reserved() == old(self).reserved(),
    {
        self.bytes.truncate(h.offset);
        proof {
            assert(self.bytes@ =~= old(self).bytes@.take(h.offset as int));
        }
    }

    /// The bytes of the key that `h` stands for.
    pub fn get(&self, h: KeyHandle) -> (key: &[u8])
        requires
            holds(self@, h),
        ensures
            key@ == key_at(self@, h),
    {
        let all: &[u8] = self.bytes.as_slice();
        assert(h.offset + h.len <= all.len());
        &all[h.offset..h.offset + h.len]
    }
}

} // verus!
