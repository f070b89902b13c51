//! Pre-allocated buffer pool to bound memory under traffic bursts.

use bytes::BytesMut;
use crossbeam_queue::ArrayQueue;
use vstd::prelude::*;

verus! {

/// The byte buffer of the `bytes` crate.
#[verifier::external_type_specification]
#[verifier::external_body]
pub struct ExBytesMut(BytesMut);

/// The bounded queue of the `crossbeam-queue` crate.
#[verifier::external_type_specification]
#[verifier::external_body]
#[verifier::reject_recursive_types(T)]
pub struct ExArrayQueue<T>(ArrayQueue<T>);

/// What a buffer holds.
pub uninterp spec fn held(b: BytesMut) -> Seq<u8>;

/// What a queue holds: the contents of its buffers, from the one that leaves next.
pub uninterp spec fn queued(q: ArrayQueue<BytesMut>) -> Seq<Seq<u8>>;

/// How many buffers a queue was made for.
pub uninterp spec fn room(q: ArrayQueue<BytesMut>) -> nat;

/// A new buffer is empty. How much it can hold is at least the given capacity; that is up to the
/// allocator, and not stated.
pub assume_specification[ BytesMut::with_capacity ](capacity: usize) -> (r: BytesMut)
    requires
        capacity <= isize::MAX,
    ensures
        held(r) == Seq::<u8>::empty(),
;

/// A cleared buffer is empty.
pub assume_specification[ BytesMut::clear ](b: &mut BytesMut)
    ensures
        held(*final(b)) == Seq::<u8>::empty(),
;

/// How much a buffer can hold is up to the allocator, but it is at least what the buffer holds.
pub assume_specification[ BytesMut::capacity ](b: &BytesMut) -> (r: usize)
    ensures
        r >= held(*b).len(),
;

/// A queue without buffers, from `ArrayQueue::new`. That panics where the capacity is zero or too
/// large for an allocation.
#[verifier::external_body]
fn queue(cap: usize) -> (r: ArrayQueue<BytesMut>)
    requires
        0 < cap <= isize::MAX / 64,
    ensures
        queued(r).len() == 0,
        room(r) == cap,
{
    ArrayQueue::new(cap)
}

/// Puts a buffer behind the others with `ArrayQueue::push`, which drops it exactly where the queue
/// is full.
#[verifier::external_body]
fn push(q: &mut ArrayQueue<BytesMut>, b: BytesMut) -> (r: bool)
    ensures
        r == (queued(*old(q)).len() < room(*old(q))),
        room(*final(q)) == room(*old(q)),
        queued(*final(q)) == (if r {
            queued(*old(q)).push(held(b))
        } else {
            queued(*old(q))
        }),
{
    q.push(b).is_ok()
}

/// Takes the foremost buffer with `ArrayQueue::pop`, if there is one.
#[verifier::external_body]
fn pop(q: &mut ArrayQueue<BytesMut>) -> (r: Option<BytesMut>)
    ensures
        room(*final(q)) == room(*old(q)),
        match r {
            Some(b) => queued(*old(q)).len() > 0 && held(b) == queued(*old(q))[0] && queued(
                *final(q),
            ) == queued(*old(q)).skip(1),
            None => queued(*old(q)).len() == 0 && queued(*final(q)) == queued(*old(q)),
        },
{
    q.pop()
}

/// How many buffers a queue holds, by `ArrayQueue::len`.
#[verifier::external_body]
fn queue_len(q: &ArrayQueue<BytesMut>) -> (r: usize)
    ensures
        r == queued(*q).len(),
{
    q.len()
}

/// How many buffers a queue was made for, by `ArrayQueue::capacity`.
#[verifier::external_body]
fn queue_capacity(q: &ArrayQueue<BytesMut>) -> (r: usize)
    ensures
        r == room(*q),
{
    q.capacity()
}

/// 16 KiB.
pub const DEFAULT_BUF_CAPACITY: usize = 16384;

pub const DEFAULT_POOL_SIZE: usize = 4096;

/// The fewest buffers that a pool is made with.
pub const MIN_POOL_SIZE: usize = 64;

/// The smallest buffers that a pool is made with.
pub const MIN_BUF_CAPACITY: usize = 1024;

/// The larger of two sizes.
pub open spec fn larger(a: usize, b: usize) -> usize {
    if a >= b {
        a
    } else {
        b
    }
}

/// A pool of empty buffers.
pub struct BufferPool {
    inner: ArrayQueue<BytesMut>,
    capacity: usize,
}

impl BufferPool {
    /// How many buffers are in the pool.
    pub closed spec fn idle(&self) -> nat {
        queued(self.inner).len()
    }

    /// How many buffers the pool was made for.
    pub closed spec fn bound(&self) -> nat {
        room(self.inner)
    }

    /// How much a buffer of the pool is made to hold.
    pub closed spec fn size(&self) -> usize {
        self.capacity
    }

    /// The pool holds no more buffers than it was made for, and each of them is empty.
    pub closed spec fn wf(&self) -> bool {
        &&& queued(self.inner).len() <= room(self.inner)
        &&& self.capacity <= isize::MAX
        &&& forall|i: int|
            0 <= i < queued(self.inner).len() ==> (#[trigger] queued(self.inner)[i]).len() == 0
    }

    /// A pool full of empty buffers: at least 64 of them, each of at least 1 KiB.
    pub fn new(size: usize, buf_capacity: usize) -> (r: Self)
        requires
            size <= isize::MAX / 64,
            buf_capacity <= isize::MAX,
        ensures
            r.wf(),
            r.bound() == larger(size, MIN_POOL_SIZE),
            r.idle() == r.bound(),
            r.size() == larger(buf_capacity, MIN_BUF_CAPACITY),
            r.bound() >= 64 && r.bound() >= size && (r.bound() == 64 || r.bound() == size),
            r.size() >= 1024 && r.size() >= buf_capacity && (r.size() == 1024 || r.size()
                == buf_capacity),
    {
        let n: usize = if size >= MIN_POOL_SIZE {
            size
        } else {
            MIN_POOL_SIZE
        };
        let capacity: usize = if buf_capacity >= MIN_BUF_CAPACITY {
            buf_capacity
        } else {
            MIN_BUF_CAPACITY
        };
        proof {
            lemma_isize_max();
        }
        let mut q: ArrayQueue<BytesMut> = queue(n);
        let mut i: usize = 0;
        while i < n
            invariant
                i <= n,
                room(q) == n,
                queued(q).len() == i,
                capacity <= isize::MAX,
                forall|j: int| 0 <= j < queued(q).len() ==> (#[trigger] queued(q)[j]).len() == 0,
            decreases n - i,
        {
            let b: BytesMut = BytesMut::with_capacity(capacity);
            let _ = push(&mut q, b);
            i = i + 1;
        }
        BufferPool { inner: q, capacity }
    }

    /// A pool of the default size.
    pub fn with_defaults() -> (r: Self)
        ensures
            r.wf(),
            r.bound() == DEFAULT_POOL_SIZE,
            r.idle() == DEFAULT_POOL_SIZE,
            r.size() == DEFAULT_BUF_CAPACITY,
            r.bound() == 4096,
            r.idle() == 4096,
            r.size() == 16384,
    {
        proof {
            lemma_isize_max();
        }
        Self::new(DEFAULT_POOL_SIZE, DEFAULT_BUF_CAPACITY)
    }

    /// Takes an empty buffer out of the pool, or makes one where the pool has none.
    pub fn acquire(&mut self) -> (r: PooledBuf)
        requires
            old(self).wf(),
        ensures
            final(self).wf(),
            final(self).bound() == old(self).bound(),
            final(self).size() == old(self).size(),
            final(self).idle() == (if old(self).idle() > 0 {
                old(self).idle() - 1
            } else {
                0
            }),
            r.content() == Some(Seq::<u8>::empty()),
    {
        let buf: BytesMut = match pop(&mut self.inner) {
            Some(b) => b,
            None => BytesMut::with_capacity(self.capacity),
        };
        assert(held(buf) =~= Seq::empty());
        PooledBuf { buf: Some(buf) }
    }

    /// The number of buffers in the pool.
    pub fn len(&self) -> (r: usize)
        ensures
            r == self.idle(),
    {
        queue_len(&self.inner)
    }

    /// The number of buffers that the pool was made for.
    pub fn capacity(&self) -> (r: usize)
        ensures
            r == self.bound(),
    {
        queue_capacity(&self.inner)
    }

    /// Puts a buffer back that can hold `can_hold` bytes: it is emptied first, and dropped where
    /// the pool is full or the buffer has grown to more than twice the size of the pool's.
    pub fn put_back(&mut self, buf: BytesMut, can_hold: usize)
        requires
            old(self).wf(),
        ensures
            final(self).wf(),
            final(self).bound() == old(self).bound(),
            final(self).size() == old(self).size(),
            final(self).idle() == old(self).idle() + (if kept(
                can_hold,
                old(self).size(),
                old(self).idle(),
                old(self).bound(),
            ) {
                1int
            } else {
                0
            }),
    {
        if can_hold <= self.capacity * 2 {
            let mut b: BytesMut = buf;
            b.clear();
            let _ = push(&mut self.inner, b);
        }
    }

    /// Puts a buffer back, as when it is dropped.
    ///
    /// Whether the pool keeps it depends on what the allocator gave the buffer: it is put back as
    /// one that can hold what `BytesMut::capacity` says of it. One that was taken out adds nothing.
    pub fn release(&mut self, buf: PooledBuf)
        requires
            old(self).wf(),
        ensures
            final(self).wf(),
            final(self).bound() == old(self).bound(),
            final(self).size() == old(self).size(),
            buf.content() is None ==> final(self).idle() == old(self).idle(),
            buf.content() matches Some(c) ==> exists|can_hold: usize|
                {
                    &&& c.len() <= can_hold
                    &&& #[trigger] buf.measures(can_hold)
                    &&& final(self).idle() == old(self).idle() + (if kept(
                        can_hold,
                        old(self).size(),
                        old(self).idle(),
                        old(self).bound(),
                    ) {
                        1int
                    } else {
                        0
                    })
                },
    {
        match buf.buf {
            Some(b) => {
                let can_hold: usize = b.capacity();
                assert(buf.measures(can_hold));
                self.put_back(b, can_hold);
            },
            None => {},
        }
    }
}

/// Memory is bounded: a pool never holds more buffers than it was made for.
pub proof fn law_pool_is_bounded(pool: BufferPool)
    requires
        pool.wf(),
    ensures
        pool.idle() <= pool.bound(),
{
}

/// Whether a pool keeps a buffer that comes back.
pub open spec fn kept(can_hold: usize, size: usize, idle: nat, bound: nat) -> bool {
    can_hold <= size * 2 && idle < bound
}

proof fn lemma_isize_max()
    ensures
        isize::MAX >= 0x7FFF_FFFF,
        isize::MAX * 2 <= usize::MAX,
        isize::MAX / 64 >= 4096,
{
    vstd::layout::unsigned_int_max_values();
    vstd::layout::signed_int_min_max_values();
}

/// A buffer out of a pool.
pub struct PooledBuf {
    buf: Option<BytesMut>,
}

impl PooledBuf {
    /// What the buffer holds, unless it was taken out.
    pub closed spec fn content(&self) -> Option<Seq<u8>> {
        match self.buf {
            Some(b) => Some(held(b)),
            None => None,
        }
    }

    /// Whether `BytesMut::capacity` may say of the buffer that it can hold so many bytes.
    pub closed spec fn measures(&self, can_hold: usize) -> bool {
        match self.buf {
            Some(b) => call_ensures(BytesMut::capacity, (&b,), can_hold),
            None => false,
        }
    }

    /// The buffer, to be filled.
    pub fn as_mut(&mut self) -> (r: &mut BytesMut)
        requires
            old(self).content() is Some,
        ensures
            old(self).content() == Some(held(*r)),
            final(self).content() == Some(held(*final(r))),
    {
        self.buf.as_mut().unwrap()
    }

    /// The buffer itself, which then does not go back to the pool.
    pub fn into_inner(self) -> (r: BytesMut)
        requires
            self.content() is Some,
        ensures
            self.content() == Some(held(r)),
    {
        self.buf.unwrap()
    }
}

/// Which buffers come back into a pool: while it has room, those that can hold no more than twice
/// what the pool's own do; larger ones do not, and none does into a full pool.
pub proof fn law_kept(can_hold: usize, size: usize, idle: nat, bound: nat)
    ensures
        can_hold > 2 * size ==> !kept(can_hold, size, idle, bound),
        idle >= bound ==> !kept(can_hold, size, idle, bound),
        idle < bound && can_hold <= 2 * size ==> kept(can_hold, size, idle, bound),
{
}

/// The larger of two sizes is one of them and no smaller than the other.
pub proof fn law_larger(a: usize, b: usize)
    ensures
        larger(a, b) == a || larger(a, b) == b,
        larger(a, b) >= a,
        larger(a, b) >= b,
{
}

} // verus!
