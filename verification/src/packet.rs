//! Packets and their bounded pools. A packet owns one pooled body and
//! gives it back to its pool by an explicit move. A pool never holds
//! more bodies than its capacity, and every body is either free in the
//! pool or outstanding in a packet.

use vstd::prelude::*;
use crate::executor::PoolObjectTrait;

verus! {

/// What may travel as a packet body: any pool-managed object.
pub trait PacketTrait: PoolObjectTrait {

}

/// A unit of data in flight: a body, tagged with the pool that owns it
/// (or none for a one-off packet).
pub struct Packet<T> {
    pub object: T,
    pub pool_tag: Option<u64>,
}

/// A packet stripped of its type, for routing through one queue; only the
/// owning pool's tag remains visible.
pub struct PacketAny {
    pub pool_tag: Option<u64>,
}

impl<T> Packet<T> {
    /// A packet that belongs to no pool.
    pub fn new_simple(data: T) -> (r: Self)
        ensures
            r.object == data,
            r.pool_tag is None,
    {
        Packet { object: data, pool_tag: None }
    }
}

/// A bounded pool of packet bodies.
pub struct PacketsPool<T> {
    pub free: Vec<T>,
    pub cap: usize,
    pub outstanding: usize,
    pub tag: u64,
}

impl<T: PoolObjectTrait> PacketsPool<T> {
    /// Every body is accounted for: free plus outstanding equals the
    /// capacity.
    pub open spec fn wf(&self) -> bool {
        &&& self.free@.len() + self.outstanding == self.cap
        &&& self.cap <= i64::MAX
    }

    /// A pool of `cap` freshly allocated bodies.
    pub fn new(cap: usize, tag: u64) -> (r: Self)
        requires
            cap <= i64::MAX,
        ensures
            r.wf(),
            r.cap == cap,
            r.tag == tag,
            r.outstanding == 0,
    {
        let mut free: Vec<T> = Vec::new();
        let mut i: usize = 0;
        while i < cap
            invariant
                i <= cap,
                free@.len() == i,
            decreases cap - i,
        {
            free.push(T::allocate_new());
            i = i + 1;
        }
        PacketsPool { free, cap, outstanding: 0, tag }
    }

    /// Takes one body out of the pool, or nothing when the pool is
    /// empty; a caller that would rather block asks again.
    pub fn alloc_packet(&mut self) -> (r: Option<Packet<T>>)
        requires
            old(self).wf(),
        ensures
            final(self).wf(),
            final(self).cap == old(self).cap,
            final(self).tag == old(self).tag,
            match r {
                Some(p) => {
                    &&& old(self).free@.len() > 0
                    &&& p.pool_tag == Some(old(self).tag)
                    &&& p.object == old(self).free@.last()
                    &&& final(self).free@ == old(self).free@.drop_last()
                    &&& final(self).outstanding == old(self).outstanding + 1
                },
                None => {
                    &&& old(self).free@.len() == 0
                    &&& *final(self) == *old(self)
                },
            },
    {
        if self.free.len() == 0 {
            return None;
        }
        let body = self.free.pop().unwrap();
        self.outstanding = self.outstanding + 1;
        Some(Packet { object: body, pool_tag: Some(self.tag) })
    }

    /// Gives a packet's body back to its pool.
    pub fn return_packet(&mut self, p: Packet<T>) -> (r: ())
        requires
            old(self).wf(),
            p.pool_tag == Some(old(self).tag),
            old(self).outstanding > 0,
        ensures
            final(self).wf(),
            final(self).cap == old(self).cap,
            final(self).tag == old(self).tag,
            final(self).free@ == old(self).free@.push(p.object),
            final(self).outstanding == old(self).outstanding - 1,
    {
        let Packet { object, pool_tag: _ } = p;
        self.free.push(object);
        self.outstanding = self.outstanding - 1;
    }

    /// How many bodies are free right now.
    pub fn get_available_items(&self) -> (r: i64)
        requires
            self.wf(),
        ensures
            r == self.free@.len(),
    {
        self.free.len() as i64
    }

    /// Whether a body is already free; parking the caller up to the
    /// timeout is the surrounding runtime's business.
    pub fn wait_for_item_timeout(&self, timeout_ms: u64) -> (r: bool)
        ensures
            r == (self.free@.len() > 0),
    {
        let _ = timeout_ms;
        self.free.len() > 0
    }
}

} // verus!
