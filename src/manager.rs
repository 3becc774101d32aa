//! The ready queue: runnable tasks ordered by their stride accumulator, the
//! least stride first, compared with wrap-aware ordering.
use vstd::prelude::*;

verus! {

/// The stride a task of priority 1 is charged per dispatch.
pub const BIG_STRIDE: u64 = 0x100000;

/// What one dispatch adds to the stride of a task of the given priority.
pub open spec fn pass_of(priority: u64) -> u64
    recommends
        priority >= 1,
{
    (BIG_STRIDE / priority) as u64
}

/// How far `b` lies ahead of `a` on the circle of 2^64 stride values, taken in
/// the half-open range [-2^63, 2^63).
pub open spec fn stride_offset(a: u64, b: u64) -> int {
    let d = b as int - a as int;
    if d >= 0x8000_0000_0000_0000 {
        d - 0x1_0000_0000_0000_0000
    } else if d < -0x8000_0000_0000_0000 {
        d + 0x1_0000_0000_0000_0000
    } else {
        d
    }
}

/// Wrap-aware order: `a` comes strictly before `b`.
pub open spec fn stride_less(a: u64, b: u64) -> bool {
    stride_offset(a, b) > 0
}

/// Two strides lie within 2^62 of each other, where the wrap-aware order is
/// transitive.
pub open spec fn strides_close(a: u64, b: u64) -> bool {
    -0x4000_0000_0000_0000 < stride_offset(a, b) < 0x4000_0000_0000_0000
}

/// Offsets of close strides add up.
pub proof fn lemma_offset_add(a: u64, b: u64, c: u64)
    requires
        strides_close(a, b),
        strides_close(b, c),
    ensures
        stride_offset(a, c) == stride_offset(a, b) + stride_offset(b, c),
        stride_offset(b, a) == -stride_offset(a, b),
{
}

/// Wrap-aware `a < b`.
pub fn stride_lt(a: u64, b: u64) -> (r: bool)
    ensures
        r == stride_less(a, b),
{
    let d = b.wrapping_sub(a);
    d != 0 && d < 0x8000_0000_0000_0000
}

/// The stride after one dispatch of a task with the given priority; the
/// accumulator wraps around on overflow.
pub fn advance_stride(stride: u64, priority: u64) -> (r: u64)
    requires
        priority >= 1,
    ensures
        r as int == (stride as int + pass_of(priority) as int) % 0x1_0000_0000_0000_0000,
        stride_offset(stride, r) == pass_of(priority),
{
    let pass = BIG_STRIDE / priority;
    assert(pass <= BIG_STRIDE) by (nonlinear_arith)
        requires
            priority >= 1,
            pass == BIG_STRIDE / priority,
    ;
    stride.wrapping_add(pass)
}

/// A runnable task waiting in the queue, with its stride when it was queued.
#[derive(Clone, Copy, Debug, PartialEq, Eq, Structural)]
pub struct ReadyTask {
    pub pid: usize,
    pub stride: u64,
}

/// Every two strides in the queue are close.
pub open spec fn queue_close(q: Seq<ReadyTask>) -> bool {
    forall|x: int, y: int|
        0 <= x < q.len() && 0 <= y < q.len() ==> strides_close(#[trigger] q[x].stride, #[trigger] q[y].stride)
}

/// Every queued stride lies between `base` and one `BIG_STRIDE` ahead of it,
/// in wrap-aware terms.
pub open spec fn within_one_pass(q: Seq<ReadyTask>, base: u64) -> bool {
    forall|x: int| 0 <= x < q.len() ==> 0 <= #[trigger] stride_offset(base, q[x].stride) <= BIG_STRIDE
}

/// Strides within one pass of a common base are pairwise close, so the
/// queue's wrap-aware least stride is well defined.
pub proof fn lemma_within_one_pass_close(q: Seq<ReadyTask>, base: u64)
    requires
        within_one_pass(q, base),
    ensures
        queue_close(q),
{
    assert forall|x: int, y: int| 0 <= x < q.len() && 0 <= y < q.len() implies strides_close(
        #[trigger] q[x].stride,
        #[trigger] q[y].stride,
    ) by {
        assert(0 <= stride_offset(base, q[x].stride) <= BIG_STRIDE);
        assert(0 <= stride_offset(base, q[y].stride) <= BIG_STRIDE);
    }
}

/// Bounded lag of stride scheduling: where every queued stride lies within
/// one `BIG_STRIDE` ahead of a common base, taking out a task of least stride
/// and queueing it again with its stride advanced by its pass leaves every
/// queued stride within one `BIG_STRIDE` ahead of the stride taken out. The
/// comparison is wrap-aware, so this holds across overflow of the accumulator.
pub proof fn lemma_dispatch_keeps_one_pass(q: Seq<ReadyTask>, base: u64, x: int, priority: u64, next: u64)
    requires
        within_one_pass(q, base),
        0 <= x < q.len(),
        forall|y: int| 0 <= y < q.len() ==> !stride_less(#[trigger] q[y].stride, q[x].stride),
        priority >= 1,
        stride_offset(q[x].stride, next) == pass_of(priority),
    ensures
        within_one_pass(q.remove(x).push(ReadyTask { pid: q[x].pid, stride: next }), q[x].stride),
{
    let m = q[x].stride;
    let r = q.remove(x).push(ReadyTask { pid: q[x].pid, stride: next });
    assert(pass_of(priority) <= BIG_STRIDE) by (nonlinear_arith)
        requires
            priority >= 1,
    ;
    assert(0 <= stride_offset(base, m) <= BIG_STRIDE);
    assert forall|y: int| 0 <= y < r.len() implies 0 <= #[trigger] stride_offset(m, r[y].stride) <= BIG_STRIDE by {
        if y < r.len() - 1 {
            let z = if y < x { y } else { y + 1 };
            assert(r[y] == q[z]);
            assert(0 <= stride_offset(base, q[z].stride) <= BIG_STRIDE);
            assert(!stride_less(q[z].stride, m));
        }
    }
}

/// The ready queue.
pub struct TaskManager {
    ready_queue: Vec<ReadyTask>,
}

impl View for TaskManager {
    type V = Seq<ReadyTask>;

    closed spec fn view(&self) -> Seq<ReadyTask> {
        self.ready_queue@
    }
}

impl TaskManager {
    /// An empty queue.
    pub fn new() -> (r: Self)
        ensures
            r@ == Seq::<ReadyTask>::empty(),
    {
        TaskManager { ready_queue: Vec::new() }
    }

    /// Queues task `pid` with stride `stride`.
    pub fn add(&mut self, pid: usize, stride: u64)
        ensures
            final(self)@ == old(self)@.push(ReadyTask { pid, stride }),
    {
        self.ready_queue.push(ReadyTask { pid, stride });
    }

    /// Number of queued tasks.
    pub fn len(&self) -> (r: usize)
        ensures
            r == self@.len(),
    {
        self.ready_queue.len()
    }

    /// Takes out a queued task of least stride, or `None` when the queue is
    /// empty. Among equal strides any may come out. Where the queued strides
    /// are pairwise close, no queued stride comes strictly before the one
    /// taken out.
    pub fn fetch(&mut self) -> (r: Option<ReadyTask>)
        ensures
            old(self)@.len() == 0 ==> r is None && final(self)@ == old(self)@,
            old(self)@.len() > 0 ==> exists|k: int|
                0 <= k < old(self)@.len() && r == Some(old(self)@[k]) && final(self)@ == old(
                    self)@.remove(k),
            r matches Some(t) ==> (queue_close(old(self)@) ==> forall|x: int|
                0 <= x < old(self)@.len() ==> !stride_less(#[trigger] old(self)@[x].stride, t.stride)),
    {
        let n = self.ready_queue.len();
        if n == 0 {
            return None;
        }
        let mut best: usize = 0;
        let mut i: usize = 1;
        while i < n
            invariant
                n == self.ready_queue.len(),
                1 <= i <= n,
                best < i,
                queue_close(self.ready_queue@) ==> forall|x: int|
                    0 <= x < i ==> !stride_less(
                        #[trigger] self.ready_queue@[x].stride,
                        self.ready_queue@[best as int].stride,
                    ),
            decreases n - i,
        {
            if stride_lt(self.ready_queue[i].stride, self.ready_queue[best].stride) {
                proof {
                    let q = self.ready_queue@;
                    if queue_close(q) {
                        assert forall|x: int| 0 <= x <= i implies !stride_less(
                            #[trigger] q[x].stride,
                            q[i as int].stride,
                        ) by {
                            let (a, b, c) = (q[x].stride, q[best as int].stride, q[i as int].stride);
                            lemma_offset_add(a, b, c);
                            lemma_offset_add(c, b, c);
                        }
                    }
                }
                best = i;
            }
            i += 1;
        }
        let t = self.ready_queue.remove(best);
        Some(t)
    }
}

} // verus!
