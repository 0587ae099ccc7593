//! The interrupt-fed scancode queue: a fixed-capacity ring buffer that drops
//! the newest byte when full, and wakes the task that waits on it.
use vstd::prelude::*;
use crate::executor::Executor;

verus! {

/// The number of scancodes the kernel's queue holds.
pub const SCANCODE_QUEUE_SIZE: usize = 100;

/// A push found the queue full; the byte was dropped.
#[derive(Clone, Copy, Debug, PartialEq, Eq, Structural)]
pub struct QueueFull;

/// A ring buffer of scancodes, oldest at `head`, with the task to wake on
/// the next push.
pub struct ScancodeQueue {
    pub buf: Vec<u8>,
    pub head: usize,
    pub len: usize,
    pub waker: Option<usize>,
}

impl ScancodeQueue {
    /// The slot of the `i`-th oldest byte.
    pub open spec fn slot(&self, i: int) -> int {
        if self.head + i < self.buf@.len() {
            self.head + i
        } else {
            self.head + i - self.buf@.len()
        }
    }

    /// The queued bytes, oldest first.
    pub open spec fn view(&self) -> Seq<u8> {
        Seq::new(self.len as nat, |i: int| self.buf@[self.slot(i)])
    }

    /// How many bytes the queue holds at most.
    pub open spec fn capacity(&self) -> nat {
        self.buf@.len()
    }

    pub open spec fn wf(&self) -> bool {
        &&& self.buf@.len() > 0
        &&& self.head < self.buf@.len()
        &&& self.len <= self.buf@.len()
    }

    /// An empty queue that holds up to `capacity` bytes, with no task waiting.
    pub fn new(capacity: usize) -> (r: Self)
        requires
            capacity > 0,
        ensures
            r.wf(),
            r.capacity() == capacity,
            r.view() == Seq::<u8>::empty(),
            r.waker is None,
    {
        let mut buf: Vec<u8> = Vec::new();
        let mut i: usize = 0;
        while i < capacity
            invariant
                i <= capacity,
                buf@.len() == i,
            decreases capacity - i,
        {
            buf.push(0);
            i = i + 1;
        }
        let r = ScancodeQueue { buf, head: 0, len: 0, waker: None };
        assert(r.view() =~= Seq::<u8>::empty());
        r
    }

    /// Appends a byte unless the queue is full, in which case the byte is
    /// dropped and the queue left as it was. Never blocks or allocates.
    pub fn push(&mut self, byte: u8) -> (r: Result<(), QueueFull>)
        requires
            old(self).wf(),
        ensures
            final(self).wf(),
            final(self).capacity() == old(self).capacity(),
            final(self).waker == old(self).waker,
            r is Err <==> old(self).view().len() == old(self).capacity(),
            r is Err ==> final(self).view() == old(self).view(),
            r is Ok ==> final(self).view() == old(self).view().push(byte),
    {
        let cap = self.buf.len();
        if self.len == cap {
            return Err(QueueFull);
        }
        let tail: usize = if self.head < cap - self.len {
            self.head + self.len
        } else {
            self.head - (cap - self.len)
        };
        let ghost before = self.view();
        self.buf.set(tail, byte);
        self.len = self.len + 1;
        assert(self.view() =~= before.push(byte)) by {
            assert forall|i: int| 0 <= i < before.len() implies self.view()[i] == before[i] by {
                assert(self.slot(i) != tail);
            }
        }
        Ok(())
    }

    /// Removes and returns the oldest byte, if any.
    pub fn pop(&mut self) -> (r: Option<u8>)
        requires
            old(self).wf(),
        ensures
            final(self).wf(),
            final(self).capacity() == old(self).capacity(),
            final(self).waker == old(self).waker,
            r is None <==> old(self).view().len() == 0,
            r is None ==> final(self).view() == old(self).view(),
            r is Some ==> r == Some(old(self).view()[0]) && final(self).view()
                == old(self).view().drop_first(),
    {
        if self.len == 0 {
            return None;
        }
        let ghost before = self.view();
        let byte = self.buf[self.head];
        self.head = if self.head == self.buf.len() - 1 {
            0
        } else {
            self.head + 1
        };
        self.len = self.len - 1;
        assert(self.view() =~= before.drop_first());
        Some(byte)
    }
}

/// Called on each keyboard interrupt: queues the scancode and, when it was
/// queued, fires the wakeup handle of the task waiting on the queue, which
/// is used up. A full queue drops the scancode and wakes nobody.
pub fn add_scancode(queue: &mut ScancodeQueue, executor: &mut Executor, scancode: u8) -> (r: Result<(), QueueFull>)
    requires
        old(queue).wf(),
        old(executor).wf(),
    ensures
        final(queue).wf(),
        final(executor).wf(),
        final(queue).capacity() == old(queue).capacity(),
        r is Err <==> old(queue).view().len() == old(queue).capacity(),
        r is Err ==> final(queue).view() == old(queue).view() && final(queue).waker == old(queue).waker
            && *final(executor) == *old(executor),
        r is Ok ==> final(queue).view() == old(queue).view().push(scancode) && final(queue).waker is None,
        r is Ok && old(queue).waker is None ==> *final(executor) == *old(executor),
        r is Ok && old(queue).waker is Some ==> ({
            let id = old(queue).waker->Some_0;
            id < old(executor).tasks@.len() && old(executor).tasks@[id as int] == crate::executor::TaskState::Suspended
                ==> final(executor).tasks@ == old(executor).tasks@.update(id as int, crate::executor::TaskState::Queued)
                && final(executor).run_queue@ == old(executor).run_queue@.push(id)
        }),
{
    let r = queue.push(scancode);
    if r.is_ok() {
        match queue.waker.take() {
            Some(id) => executor.wake(id),
            None => {},
        }
    }
    r
}

/// One step of the consumer: the oldest scancode if there is one; otherwise
/// task `task` registers as the one to wake on the next push, and the caller
/// suspends it.
pub fn poll_scancode(queue: &mut ScancodeQueue, task: usize) -> (r: Option<u8>)
    requires
        old(queue).wf(),
    ensures
        final(queue).wf(),
        final(queue).capacity() == old(queue).capacity(),
        r is None <==> old(queue).view().len() == 0,
        r is None ==> final(queue).view() == old(queue).view() && final(queue).waker == Some(task),
        r is Some ==> r == Some(old(queue).view()[0]) && final(queue).view() == old(queue).view().drop_first()
            && final(queue).waker == old(queue).waker,
{
    match queue.pop() {
        Some(b) => Some(b),
        None => {
            queue.waker = Some(task);
            None
        },
    }
}

/// The contents after each byte of `bytes` was pushed, in order, onto
/// contents `q`, every push being accepted.
pub open spec fn push_all(q: Seq<u8>, bytes: Seq<u8>) -> Seq<u8>
    decreases bytes.len(),
{
    if bytes.len() == 0 {
        q
    } else {
        push_all(q, bytes.drop_last()).push(bytes.last())
    }
}

/// The contents after `n` successful pops.
pub open spec fn pop_n(q: Seq<u8>, n: nat) -> Seq<u8>
    decreases n,
{
    if n == 0 {
        q
    } else {
        pop_n(q.drop_first(), (n - 1) as nat)
    }
}

proof fn lemma_push_all(q: Seq<u8>, bytes: Seq<u8>)
    ensures
        push_all(q, bytes) == q + bytes,
    decreases bytes.len(),
{
    if bytes.len() > 0 {
        lemma_push_all(q, bytes.drop_last());
        assert((q + bytes.drop_last()).push(bytes.last()) =~= q + bytes);
    }
}

proof fn lemma_pop_n(q: Seq<u8>, n: nat)
    requires
        n <= q.len(),
    ensures
        pop_n(q, n) == q.skip(n as int),
    decreases n,
{
    if n > 0 {
        lemma_pop_n(q.drop_first(), (n - 1) as nat);
        assert(q.drop_first().skip(n - 1) =~= q.skip(n as int));
    }
}

/// Bytes leave the queue in the order they entered it: after the bytes of
/// `bytes` are pushed onto contents `q` and `n` bytes are popped, the next
/// pop returns the byte at position `n` of `q` followed by `bytes`.
pub proof fn lemma_fifo_order(q: Seq<u8>, bytes: Seq<u8>, n: nat)
    requires
        n < q.len() + bytes.len(),
    ensures
        pop_n(push_all(q, bytes), n)[0] == (q + bytes)[n as int],
{
    lemma_push_all(q, bytes);
    lemma_pop_n(q + bytes, n);
}

} // verus!
