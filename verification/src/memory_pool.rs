//! A recyclable byte-buffer pool for the broadcast hot path, over the
//! `bytes` crate: a mutable buffer is drawn from the pool, filled once with
//! one encoded event, and frozen into an immutable, cheaply cloneable
//! `Frame` that is fanned out to every subscriber and, for chat messages,
//! kept in the room's history ring.
//!
//! The pool itself is a plain value; sharing it between tasks (a lock, a
//! process-wide instance) is the embedding program's concern.
use vstd::prelude::*;

use vstd::utf8::{decode_utf8, encode_utf8};

verus! {

#[verifier::external_type_specification]
#[verifier::external_body]
pub struct ExBytesMut(bytes::BytesMut);

#[verifier::external_type_specification]
#[verifier::external_body]
pub struct ExBytes(bytes::Bytes);

/// The bytes a mutable `bytes::BytesMut` buffer currently holds.
pub uninterp spec fn bm_view(b: bytes::BytesMut) -> Seq<u8>;

/// The bytes an immutable `bytes::Bytes` value holds.
pub uninterp spec fn bytes_view(b: bytes::Bytes) -> Seq<u8>;

/// Relies on `BytesMut::with_capacity`: the new buffer holds no bytes.
#[verifier::external_body]
fn bm_with_capacity(n: usize) -> (r: bytes::BytesMut)
    ensures
        bm_view(r) == Seq::<u8>::empty(),
{
    bytes::BytesMut::with_capacity(n)
}

/// Relies on `BytesMut::extend_from_slice`: appends the slice's bytes.
#[verifier::external_body]
fn bm_extend_from_slice(b: &mut bytes::BytesMut, s: &[u8])
    ensures
        bm_view(*final(b)) == bm_view(*old(b)) + s@,
{
    b.extend_from_slice(s);
}

/// Relies on `BytesMut::clear`: removes all bytes.
#[verifier::external_body]
fn bm_clear(b: &mut bytes::BytesMut)
    ensures
        bm_view(*final(b)) == Seq::<u8>::empty(),
{
    b.clear();
}

/// Relies on `BytesMut::freeze`: the frozen value holds exactly the
/// buffer's bytes.
#[verifier::external_body]
fn bm_freeze(b: bytes::BytesMut) -> (r: bytes::Bytes)
    ensures
        bytes_view(r) == bm_view(b),
{
    b.freeze()
}

/// Relies on `Bytes::clone`: a clone holds the same bytes (it shares the
/// same reference-counted storage).
#[verifier::external_body]
fn bytes_clone(b: &bytes::Bytes) -> (r: bytes::Bytes)
    ensures
        bytes_view(r) == bytes_view(*b),
{
    b.clone()
}

/// Relies on `Bytes::to_vec` (through its slice view): copies out all
/// held bytes.
#[verifier::external_body]
fn bytes_copy_to_vec(b: &bytes::Bytes) -> (r: Vec<u8>)
    ensures
        r@ == bytes_view(*b),
{
    b.to_vec()
}

/// An immutable, cheaply cloneable byte sequence carrying the wire
/// encoding of one server event. Its view is the JSON text it carries.
#[derive(Debug)]
pub struct Frame {
    bytes: bytes::Bytes,
}

impl View for Frame {
    type V = Seq<char>;

    open spec fn view(&self) -> Seq<char> {
        decode_utf8(frame_bytes(*self))
    }
}

/// The raw bytes of a frame.
pub closed spec fn frame_bytes(f: Frame) -> Seq<u8> {
    bytes_view(f.bytes)
}

impl Frame {
    /// A frame is well formed when its bytes are the UTF-8 encoding of its
    /// text; every frame the library builds is.
    pub open spec fn wf(&self) -> bool {
        frame_bytes(*self) == encode_utf8(self@)
    }

    /// A copy sharing the same storage, with the same bytes.
    pub fn clone_frame(&self) -> (r: Frame)
        ensures
            r@ == self@,
            frame_bytes(r) == frame_bytes(*self),
            r.wf() == self.wf(),
    {
        Frame { bytes: bytes_clone(&self.bytes) }
    }

    /// The frame's bytes, as an owned vector.
    pub fn to_vec(&self) -> (r: Vec<u8>)
        ensures
            r@ == frame_bytes(*self),
            self.wf() ==> r@ == encode_utf8(self@),
    {
        bytes_copy_to_vec(&self.bytes)
    }

    /// The underlying shared byte value, for the transport.
    pub fn into_bytes(self) -> (r: bytes::Bytes)
        ensures
            bytes_view(r) == frame_bytes(self),
    {
        self.bytes
    }
}

/// A mutable buffer drawn from the pool, remembering the capacity it was
/// requested with so the pool can match it to later requests.
pub struct PooledBytes {
    buf: bytes::BytesMut,
    cap: usize,
}

impl View for PooledBytes {
    type V = Seq<u8>;

    closed spec fn view(&self) -> Seq<u8> {
        bm_view(self.buf)
    }
}

impl PooledBytes {
    /// The capacity this buffer was requested with.
    pub closed spec fn spec_cap(&self) -> usize {
        self.cap
    }

    /// Append bytes to the buffer.
    pub fn extend_from_slice(&mut self, s: &[u8])
        ensures
            final(self)@ == old(self)@ + s@,
            final(self).spec_cap() == old(self).spec_cap(),
    {
        bm_extend_from_slice(&mut self.buf, s);
    }

    /// Convert the buffer into an immutable frame holding exactly the
    /// bytes written so far.
    pub fn freeze(self) -> (r: Frame)
        ensures
            frame_bytes(r) == self@,
    {
        Frame { bytes: bm_freeze(self.buf) }
    }
}

/// A pool of retired buffers, reused to serve later allocations. Every
/// buffer in the pool is cleared; the pool's abstract value is the
/// sequence of their recorded capacities.
pub struct MemoryPool {
    free: Vec<PooledBytes>,
}

impl MemoryPool {
    /// All retired buffers are cleared.
    pub closed spec fn wf(&self) -> bool {
        forall|k: int| 0 <= k < self.free@.len() ==> (#[trigger] self.free@[k])@ =~= Seq::<
            u8,
        >::empty()
    }

    /// The recorded capacities of the retired buffers.
    pub closed spec fn caps(&self) -> Seq<usize> {
        self.free@.map_values(|p: PooledBytes| p.spec_cap())
    }

    /// An empty pool.
    pub fn new() -> (r: MemoryPool)
        ensures
            r.wf(),
            r.caps() == Seq::<usize>::empty(),
    {
        let r = MemoryPool { free: Vec::new() };
        proof {
            assert(r.caps() =~= Seq::<usize>::empty());
        }
        r
    }

    /// Return a cleared buffer of recorded capacity at least `size`: any
    /// retired buffer whose capacity suffices, else a fresh one of exactly
    /// `size`.
    #[verifier::loop_isolation(false)]
    pub fn allocate(&mut self, size: usize) -> (r: PooledBytes)
        requires
            old(self).wf(),
        ensures
            final(self).wf(),
            r@ == Seq::<u8>::empty(),
            r.spec_cap() >= size,
            (exists|k: int|
                0 <= k < old(self).caps().len() && old(self).caps()[k] >= size
                    && final(self).caps() == old(self).caps().remove(k)) || (final(self).caps()
                == old(self).caps() && r.spec_cap() == size),
    {
        let mut k: usize = 0;
        while k < self.free.len()
            invariant
                self == old(self),
                k <= self.free@.len(),
            decreases self.free@.len() - k,
        {
            if self.free[k].cap >= size {
                let p = self.free.remove(k);
                proof {
                    old(self).free@.remove_ensures(k as int);
                    old(self).caps().remove_ensures(k as int);
                    assert(old(self).caps()[k as int] == old(self).free@[k as int].spec_cap());
                    assert forall|m: int| 0 <= m < self.free@.len() implies (
                    #[trigger] self.free@[m])@ =~= Seq::<u8>::empty() by {
                        if m < k {
                            assert(self.free@[m] == old(self).free@[m]);
                            assert((old(self).free@[m])@ =~= Seq::<u8>::empty());
                        } else {
                            assert(self.free@[m] == old(self).free@[m + 1]);
                            assert((old(self).free@[m + 1])@ =~= Seq::<u8>::empty());
                        }
                    }
                    assert forall|m: int| 0 <= m < self.caps().len() implies self.caps()[m]
                        == old(self).caps().remove(k as int)[m] by {
                        if m < k {
                            assert(self.free@[m] == old(self).free@[m]);
                        } else {
                            assert(self.free@[m] == old(self).free@[m + 1]);
                        }
                    }
                    assert(self.caps() =~= old(self).caps().remove(k as int));
                    assert((old(self).free@[k as int])@ =~= Seq::<u8>::empty());
                }
                return p;
            }
            k = k + 1;
        }
        PooledBytes { buf: bm_with_capacity(size), cap: size }
    }

    /// Retire a buffer into the pool, clearing it.
    pub fn recycle(&mut self, p: PooledBytes)
        requires
            old(self).wf(),
        ensures
            final(self).wf(),
            final(self).caps() == old(self).caps().push(p.spec_cap()),
    {
        let mut p = p;
        bm_clear(&mut p.buf);
        let ghost cap = p.spec_cap();
        self.free.push(p);
        proof {
            assert(final(self).caps() =~= old(self).caps().push(cap));
        }
    }
}

} // verus!
