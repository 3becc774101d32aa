//! Deadlock avoidance for lock- and semaphore-like resources shared by the
//! threads of one task: the allocation / need / available matrices and the
//! safety algorithm that judges a pending request.
use vstd::prelude::*;

verus! {

/// What thread `i` contributes to the sum over the threads marked in `fin`.
pub open spec fn part(alloc: Seq<Seq<u32>>, fin: Seq<bool>, j: int, i: int) -> nat {
    if fin[i] {
        alloc[i][j] as nat
    } else {
        0
    }
}

/// Units of class `j` held by the threads among the first `n` rows that are
/// marked in `fin`.
pub open spec fn held(alloc: Seq<Seq<u32>>, fin: Seq<bool>, j: int, n: int) -> nat
    decreases n,
{
    if n <= 0 {
        0
    } else {
        held(alloc, fin, j, n - 1) + part(alloc, fin, j, n - 1)
    }
}

/// Every one of `n` threads marked.
pub open spec fn all_marked(n: nat) -> Seq<bool> {
    Seq::new(n, |i: int| true)
}

/// Units of class `j` held by all threads together.
pub open spec fn allocated(alloc: Seq<Seq<u32>>, j: int) -> nat {
    held(alloc, all_marked(alloc.len()), j, alloc.len() as int)
}

/// Units of class `j` free once every thread marked in `fin` has run to
/// completion and given back all it holds.
pub open spec fn work_of(avail: Seq<u32>, alloc: Seq<Seq<u32>>, fin: Seq<bool>, j: int) -> nat {
    avail[j] as nat + held(alloc, fin, j, alloc.len() as int)
}

/// A thread with this pending request can run to completion once the threads
/// marked in `fin` have finished.
pub open spec fn can_finish(
    need: Option<usize>,
    avail: Seq<u32>,
    alloc: Seq<Seq<u32>>,
    fin: Seq<bool>,
) -> bool {
    match need {
        None => true,
        Some(r) => work_of(avail, alloc, fin, r as int) >= 1,
    }
}

/// The threads that come before position `k` of `order`, as marks over `n` threads.
pub open spec fn marks_before(order: Seq<int>, k: int, n: nat) -> Seq<bool> {
    Seq::new(n, |i: int| order.subrange(0, k).contains(i))
}

/// `order` lists distinct threads, each of which can finish once those before it have.
pub open spec fn is_finish_order(
    avail: Seq<u32>,
    alloc: Seq<Seq<u32>>,
    need: Seq<Option<usize>>,
    order: Seq<int>,
) -> bool {
    &&& forall|k: int| 0 <= k < order.len() ==> 0 <= #[trigger] order[k] < alloc.len()
    &&& forall|k: int, l: int| 0 <= k < l < order.len() ==> order[k] != order[l]
    &&& forall|k: int|
        0 <= k < order.len() ==> can_finish(
            need[#[trigger] order[k]],
            avail,
            alloc,
            marks_before(order, k, alloc.len()),
        )
}

/// The state is safe: some order lets every thread run to completion.
pub open spec fn is_safe(avail: Seq<u32>, alloc: Seq<Seq<u32>>, need: Seq<Option<usize>>) -> bool {
    exists|order: Seq<int>|
        #[trigger] is_finish_order(avail, alloc, need, order) && forall|i: int|
            0 <= i < alloc.len() ==> order.contains(i)
}

/// Number of marked entries among the first `n`.
pub open spec fn count_marked(fin: Seq<bool>, n: int) -> nat
    decreases n,
{
    if n <= 0 {
        0
    } else {
        count_marked(fin, n - 1) + if fin[n - 1] {
            1nat
        } else {
            0nat
        }
    }
}

proof fn lemma_count_mark(fin: Seq<bool>, t: int, n: int)
    requires
        0 <= t < fin.len(),
        0 <= n <= fin.len(),
        !fin[t],
    ensures
        count_marked(fin.update(t, true), n) == count_marked(fin, n) + if t < n {
            1nat
        } else {
            0nat
        },
        count_marked(fin, n) <= n,
    decreases n,
{
    if n > 0 {
        lemma_count_mark(fin, t, n - 1);
    }
}

proof fn lemma_count_none(fin: Seq<bool>, n: int)
    requires
        0 <= n <= fin.len(),
        forall|i: int| 0 <= i < n ==> !fin[i],
    ensures
        count_marked(fin, n) == 0,
    decreases n,
{
    if n > 0 {
        lemma_count_none(fin, n - 1);
    }
}

proof fn lemma_count_le(fin: Seq<bool>, n: int)
    requires
        0 <= n,
    ensures
        count_marked(fin, n) <= n,
    decreases n,
{
    if n > 0 {
        lemma_count_le(fin, n - 1);
    }
}

/// Sums that agree term by term are equal.
proof fn lemma_held_congr(
    a1: Seq<Seq<u32>>,
    f1: Seq<bool>,
    j1: int,
    a2: Seq<Seq<u32>>,
    f2: Seq<bool>,
    j2: int,
    n: int,
)
    requires
        forall|i: int| 0 <= i < n ==> part(a1, f1, j1, i) == part(a2, f2, j2, i),
    ensures
        held(a1, f1, j1, n) == held(a2, f2, j2, n),
    decreases n,
{
    if n > 0 {
        lemma_held_congr(a1, f1, j1, a2, f2, j2, n - 1);
    }
}

/// Terms that are zero from `lo` on add nothing.
proof fn lemma_held_zero_tail(a: Seq<Seq<u32>>, f: Seq<bool>, j: int, lo: int, n: int)
    requires
        0 <= lo <= n,
        forall|i: int| lo <= i < n ==> part(a, f, j, i) == 0,
    ensures
        held(a, f, j, n) == held(a, f, j, lo),
    decreases n,
{
    if n > lo {
        lemma_held_zero_tail(a, f, j, lo, n - 1);
    }
}

/// Marking more threads never lowers the sum.
proof fn lemma_held_mono(a: Seq<Seq<u32>>, f1: Seq<bool>, f2: Seq<bool>, j: int, n: int)
    requires
        n <= f1.len(),
        n <= f2.len(),
        forall|i: int| 0 <= i < n && f1[i] ==> f2[i],
    ensures
        held(a, f1, j, n) <= held(a, f2, j, n),
    decreases n,
{
    if n > 0 {
        lemma_held_mono(a, f1, f2, j, n - 1);
    }
}

/// Marking one more thread adds its row.
proof fn lemma_held_mark(a: Seq<Seq<u32>>, f: Seq<bool>, t: int, j: int, n: int)
    requires
        0 <= t < f.len(),
        n <= f.len(),
        !f[t],
    ensures
        held(a, f.update(t, true), j, n) == held(a, f, j, n) + if t < n {
            a[t][j] as nat
        } else {
            0
        },
    decreases n,
{
    if n > 0 {
        lemma_held_mark(a, f, t, j, n - 1);
    }
}

/// Changing one thread's entry changes the sum by the difference.
proof fn lemma_held_change(a1: Seq<Seq<u32>>, a2: Seq<Seq<u32>>, f: Seq<bool>, t: int, j: int, n: int)
    requires
        0 <= t < n,
        n <= f.len(),
        forall|i: int| 0 <= i < n && i != t ==> a1[i][j] == a2[i][j],
        f[t],
    ensures
        held(a2, f, j, n) + a1[t][j] == held(a1, f, j, n) + a2[t][j],
    decreases n,
{
    if n - 1 == t {
        lemma_held_congr(a1, f, j, a2, f, j, n - 1);
    } else {
        lemma_held_change(a1, a2, f, t, j, n - 1);
    }
}

/// Every thread's entry is part of the column sum.
proof fn lemma_entry_le_held(a: Seq<Seq<u32>>, f: Seq<bool>, t: int, j: int, n: int)
    requires
        0 <= t < n,
        n <= f.len(),
        f[t],
    ensures
        a[t][j] <= held(a, f, j, n),
    decreases n,
{
    if n - 1 != t {
        lemma_entry_le_held(a, f, t, j, n - 1);
    }
}

/// The work vector of any marking stays within the class's total.
proof fn lemma_work_le_total(avail: Seq<u32>, a: Seq<Seq<u32>>, f: Seq<bool>, j: int)
    requires
        f.len() == a.len(),
    ensures
        work_of(avail, a, f, j) <= avail[j] as nat + allocated(a, j),
{
    lemma_held_mono(a, f, all_marked(a.len()), j, a.len() as int);
}

/// Where no unfinished thread can finish, each thread of a finish order is finished.
proof fn lemma_order_within_fixpoint(
    avail: Seq<u32>,
    alloc: Seq<Seq<u32>>,
    need: Seq<Option<usize>>,
    fin: Seq<bool>,
    order: Seq<int>,
    k: int,
)
    requires
        fin.len() == alloc.len(),
        need.len() == alloc.len(),
        is_finish_order(avail, alloc, need, order),
        0 <= k <= order.len(),
        forall|i: int| 0 <= i < alloc.len() ==> fin[i] || !can_finish(need[i], avail, alloc, fin),
    ensures
        forall|l: int| 0 <= l < k ==> fin[#[trigger] order[l]],
    decreases k,
{
    if k > 0 {
        lemma_order_within_fixpoint(avail, alloc, need, fin, order, k - 1);
        let n = alloc.len();
        let marks = marks_before(order, k - 1, n);
        assert forall|i: int| 0 <= i < n && marks[i] implies fin[i] by {
            let pre = order.subrange(0, k - 1);
            let l = choose|l: int| 0 <= l < pre.len() && pre[l] == i;
            assert(order[l] == i);
        }
        let t = order[k - 1];
        assert(can_finish(need[t], avail, alloc, marks));
        if let Some(r) = need[t] {
            lemma_held_mono(alloc, marks, fin, r as int, n as int);
        }
    }
}

/// No finish order covers every thread when the greedy pass leaves one unfinished.
proof fn lemma_unsafe_at_fixpoint(
    avail: Seq<u32>,
    alloc: Seq<Seq<u32>>,
    need: Seq<Option<usize>>,
    fin: Seq<bool>,
    u: int,
)
    requires
        fin.len() == alloc.len(),
        need.len() == alloc.len(),
        0 <= u < alloc.len(),
        !fin[u],
        forall|i: int| 0 <= i < alloc.len() ==> fin[i] || !can_finish(need[i], avail, alloc, fin),
    ensures
        !is_safe(avail, alloc, need),
{
    if is_safe(avail, alloc, need) {
        let order = choose|order: Seq<int>|
            #[trigger] is_finish_order(avail, alloc, need, order) && forall|i: int|
                0 <= i < alloc.len() ==> order.contains(i);
        lemma_order_within_fixpoint(avail, alloc, need, fin, order, order.len() as int);
        assert(order.contains(u));
        let l = choose|l: int| 0 <= l < order.len() && order[l] == u;
        assert(fin[order[l]]);
    }
}

/// Safety checker for the threads of one task.
pub struct DeadlockCheck {
    is_enabled: bool,
    /// Free units of each class.
    available: Vec<u32>,
    /// Units of each class held by each thread.
    allocation: Vec<Vec<u32>>,
    /// The class each thread waits for, if any.
    need: Vec<Option<usize>>,
}

impl DeadlockCheck {
    /// Whether the check's verdict is reported.
    pub closed spec fn enabled(&self) -> bool {
        self.is_enabled
    }

    /// Free units of each class.
    pub closed spec fn avail(&self) -> Seq<u32> {
        self.available@
    }

    /// Units of each class held by each thread.
    pub closed spec fn allocs(&self) -> Seq<Seq<u32>> {
        Seq::new(self.allocation@.len(), |i: int| self.allocation@[i]@)
    }

    /// The class each thread waits for, if any.
    pub closed spec fn needs(&self) -> Seq<Option<usize>> {
        self.need@
    }

    /// Units of class `j` in existence: free ones plus held ones.
    pub open spec fn total(&self, j: int) -> nat {
        self.avail()[j] as nat + allocated(self.allocs(), j)
    }

    pub open spec fn wf(&self) -> bool {
        &&& self.needs().len() == self.allocs().len()
        &&& forall|i: int|
            0 <= i < self.allocs().len() ==> (#[trigger] self.allocs()[i]).len() == self.avail().len()
        &&& forall|i: int|
            0 <= i < self.needs().len() ==> match #[trigger] self.needs()[i] {
                Some(r) => r < self.avail().len(),
                None => true,
            }
        &&& forall|j: int| 0 <= j < self.avail().len() ==> #[trigger] self.total(j) <= u32::MAX
    }

    /// A checker for a task with its main thread only, no resource classes,
    /// and the check switched off.
    pub fn new() -> (r: Self)
        ensures
            r.wf(),
            !r.enabled(),
            r.avail() == Seq::<u32>::empty(),
            r.allocs() == seq![Seq::<u32>::empty()],
            r.needs() == seq![None::<usize>],
    {
        let mut allocation: Vec<Vec<u32>> = Vec::new();
        allocation.push(Vec::new());
        let mut need: Vec<Option<usize>> = Vec::new();
        need.push(None);
        let r = DeadlockCheck { is_enabled: false, available: Vec::new(), allocation, need };
        assert(r.allocs() =~= seq![Seq::<u32>::empty()]);
        r
    }

    /// Number of threads with a row.
    pub fn thread_count(&self) -> (r: usize)
        requires
            self.wf(),
        ensures
            r == self.allocs().len(),
    {
        self.allocation.len()
    }

    /// Switches the verdict on.
    pub fn enable(&mut self)
        ensures
            final(self).enabled(),
            final(self).avail() == old(self).avail(),
            final(self).allocs() == old(self).allocs(),
            final(self).needs() == old(self).needs(),
    {
        self.is_enabled = true;
    }

    /// Switches the verdict off: every request is then reported safe.
    pub fn disable(&mut self)
        ensures
            !final(self).enabled(),
            final(self).avail() == old(self).avail(),
            final(self).allocs() == old(self).allocs(),
            final(self).needs() == old(self).needs(),
    {
        self.is_enabled = false;
    }

    /// Gives every thread up to `tid` a row: new rows hold nothing and wait
    /// for nothing; existing rows are kept.
    pub fn add_thread(&mut self, tid: usize)
        requires
            old(self).wf(),
            tid < usize::MAX,
        ensures
            final(self).wf(),
            final(self).enabled() == old(self).enabled(),
            final(self).avail() == old(self).avail(),
            final(self).allocs().len() == if tid < old(self).allocs().len() {
                old(self).allocs().len() as int
            } else {
                tid + 1
            },
            final(self).needs().len() == final(self).allocs().len(),
            forall|i: int|
                0 <= i < old(self).allocs().len() ==> #[trigger] final(self).allocs()[i] == old(self).allocs()[i] && final(self).needs()[i] == old(self).needs()[i],
            forall|i: int|
                old(self).allocs().len() <= i < final(self).allocs().len() ==> #[trigger] final(self).allocs()[i] == Seq::new(old(self).avail().len(), |j: int| 0u32) && final(self).needs()[i] is None,
            forall|j: int| 0 <= j < old(self).avail().len() ==> #[trigger] final(self).total(j) == old(self).total(j),
    {
        let ghost a1 = self.allocs();
        let m = self.available.len();
        while self.allocation.len() < tid + 1
            invariant
                self.available@ == old(self).available@,
                self.need@ == old(self).need@,
                m == self.available.len(),
                self.allocation.len() >= a1.len(),
                self.allocation.len() == a1.len() || self.allocation.len() <= tid + 1,
                forall|i: int| 0 <= i < a1.len() ==> #[trigger] self.allocation@[i]@ == a1[i],
                forall|i: int|
                    a1.len() <= i < self.allocation.len() ==> #[trigger] self.allocation@[i]@
                        == Seq::new(m as nat, |j: int| 0u32),
                a1 == old(self).allocs(),
                tid < usize::MAX,
                self.is_enabled == old(self).is_enabled,
            decreases tid + 1 - self.allocation.len(),
        {
            let mut row: Vec<u32> = Vec::new();
            let mut j: usize = 0;
            while j < m
                invariant
                    j <= m,
                    row@ == Seq::new(j as nat, |x: int| 0u32),
                decreases m - j,
            {
                row.push(0);
                j += 1;
                assert(row@ =~= Seq::new(j as nat, |x: int| 0u32));
            }
            self.allocation.push(row);
        }
        let ghost a_mid = self.allocation@;
        while self.need.len() < tid + 1
            invariant
                tid < usize::MAX,
                self.allocation@ == a_mid,
                self.available@ == old(self).available@,
                self.is_enabled == old(self).is_enabled,
                self.need.len() >= old(self).need.len(),
                self.need.len() == old(self).need.len() || self.need.len() <= tid + 1,
                forall|i: int| 0 <= i < old(self).need.len() ==> #[trigger] self.need@[i] == old(self).need@[i],
                forall|i: int| old(self).need.len() <= i < self.need.len() ==> #[trigger] self.need@[i] is None,
            decreases tid + 1 - self.need.len(),
        {
            self.need.push(None);
        }
        proof {
            let a2 = self.allocs();
            let n1 = a1.len() as int;
            let n2 = a2.len() as int;
            assert forall|j: int| 0 <= j < m implies #[trigger] self.total(j) == old(self).total(j) by {
                let f1 = all_marked(a1.len());
                let f2 = all_marked(a2.len());
                lemma_held_zero_tail(a2, f2, j, n1, n2);
                lemma_held_congr(a2, f2, j, a1, f1, j, n1);
            }
            assert forall|i: int| 0 <= i < self.needs().len() implies match #[trigger] self.needs()[i] {
                Some(r) => r < self.avail().len(),
                None => true,
            } by {
                if i < old(self).need.len() {
                    assert(self.needs()[i] == old(self).needs()[i]);
                }
            }
        }
    }

    /// Gives every thread a column up to `resource_id`, then sets the free
    /// units of `resource_id` to `units`. Existing entries are kept, new
    /// ones are zero.
    pub fn add_resource(&mut self, resource_id: usize, units: u32)
        requires
            old(self).wf(),
            resource_id < usize::MAX,
            resource_id < old(self).avail().len() ==> units as nat + allocated(
                old(self).allocs(),
                resource_id as int,
            ) <= u32::MAX,
        ensures
            final(self).wf(),
            final(self).enabled() == old(self).enabled(),
            final(self).needs() == old(self).needs(),
            final(self).avail().len() == if resource_id < old(self).avail().len() {
                old(self).avail().len() as int
            } else {
                resource_id + 1
            },
            final(self).avail()[resource_id as int] == units,
            forall|j: int|
                0 <= j < final(self).avail().len() && j != resource_id ==> #[trigger] final(self).avail()[j] == if j < old(self).avail().len() {
                    old(self).avail()[j]
                } else {
                    0u32
                },
            final(self).allocs().len() == old(self).allocs().len(),
            forall|i: int|
                0 <= i < old(self).allocs().len() ==> (#[trigger] final(self).allocs()[i]).len()
                    == final(self).avail().len(),
            forall|i: int, j: int|
                0 <= i < old(self).allocs().len() && 0 <= j < final(self).avail().len() ==> #[trigger] final(self).allocs()[i][j] == if j < old(self).avail().len() {
                    old(self).allocs()[i][j]
                } else {
                    0u32
                },
    {
        let ghost a1 = self.allocs();
        let ghost m1 = self.avail().len();
        while self.available.len() < resource_id + 1
            invariant
                self.available.len() >= m1,
                self.available.len() == m1 || self.available.len() <= resource_id + 1,
                forall|j: int| 0 <= j < m1 ==> #[trigger] self.available@[j] == old(self).available@[j],
                forall|j: int| m1 <= j < self.available.len() ==> #[trigger] self.available@[j] == 0,
                m1 == old(self).available.len(),
                resource_id < usize::MAX,
                self.allocation@ == old(self).allocation@,
                self.need@ == old(self).need@,
                self.is_enabled == old(self).is_enabled,
            decreases resource_id + 1 - self.available.len(),
        {
            self.available.push(0);
        }
        let m2 = self.available.len();
        let n = self.allocation.len();
        assert(forall|x: int| 0 <= x < n ==> (#[trigger] a1[x]).len() == m1);
        let mut rows: Vec<Vec<u32>> = Vec::new();
        let mut i: usize = 0;
        while i < n
            invariant
                i <= n,
                n == self.allocation.len(),
                self.allocation@ == old(self).allocation@,
                a1 == old(self).allocs(),
                forall|x: int| 0 <= x < n ==> (#[trigger] a1[x]).len() == m1,
                m1 <= m2,
                rows.len() == i,
                forall|x: int| 0 <= x < i ==> (#[trigger] rows@[x]@).len() == m2,
                forall|x: int, j: int|
                    0 <= x < i && 0 <= j < m2 ==> #[trigger] rows@[x]@[j] == if j < m1 {
                        a1[x][j]
                    } else {
                        0u32
                    },
            decreases n - i,
        {
            let mut row: Vec<u32> = Vec::new();
            let mut j: usize = 0;
            while j < m2
                invariant
                    j <= m2,
                    i < n,
                    n == self.allocation.len(),
                    self.allocation@ == old(self).allocation@,
                    a1 == old(self).allocs(),
                    a1[i as int].len() == m1,
                    m1 <= m2,
                    row.len() == j,
                    forall|y: int| 0 <= y < j ==> #[trigger] row@[y] == if y < m1 {
                        a1[i as int][y]
                    } else {
                        0u32
                    },
                decreases m2 - j,
            {
                if j < self.allocation[i].len() {
                    row.push(self.allocation[i][j]);
                } else {
                    row.push(0);
                }
                j += 1;
            }
            rows.push(row);
            i += 1;
        }
        self.allocation = rows;
        self.available.set(resource_id, units);
        proof {
            let a2 = self.allocs();
            let f = all_marked(a1.len());
            assert forall|j: int| 0 <= j < m2 implies #[trigger] self.total(j) <= u32::MAX by {
                if j < m1 {
                    lemma_held_congr(a2, f, j, a1, f, j, n as int);
                    assert(old(self).total(j) <= u32::MAX);
                } else {
                    lemma_held_zero_tail(a2, f, j, 0, n as int);
                }
            }
            assert forall|x: int| 0 <= x < self.needs().len() implies match #[trigger] self.needs()[x] {
                Some(r) => r < self.avail().len(),
                None => true,
            } by {
                assert(self.needs()[x] == old(self).needs()[x]);
            }
        }
    }

    /// Records that thread `tid` waits for one unit of `resource_id`, then runs
    /// the safety algorithm. The answer is `true` when the check is off, and
    /// otherwise exactly when some order lets every thread run to completion.
    pub fn request_resource(&mut self, tid: usize, resource_id: usize) -> (r: bool)
        requires
            old(self).wf(),
            tid < old(self).allocs().len(),
            resource_id < old(self).avail().len(),
            old(self).needs()[tid as int] is None,
        ensures
            final(self).wf(),
            final(self).enabled() == old(self).enabled(),
            final(self).avail() == old(self).avail(),
            final(self).allocs() == old(self).allocs(),
            final(self).needs() == old(self).needs().update(tid as int, Some(resource_id)),
            r == (!old(self).enabled() || is_safe(
                final(self).avail(),
                final(self).allocs(),
                final(self).needs(),
            )),
    {
        let n = self.allocation.len();
        let m = self.available.len();
        let mut finish: Vec<bool> = Vec::new();
        while finish.len() < n
            invariant
                finish.len() <= n,
                forall|i: int| 0 <= i < finish.len() ==> !finish@[i],
            decreases n - finish.len(),
        {
            finish.push(false);
        }
        let mut work: Vec<u32> = Vec::new();
        let mut j: usize = 0;
        while j < m
            invariant
                j <= m,
                m == self.available.len(),
                work@ == self.available@.subrange(0, j as int),
            decreases m - j,
        {
            work.push(self.available[j]);
            j += 1;
        }
        self.need.set(tid, Some(resource_id));
        proof {
            assert forall|i: int| 0 <= i < self.needs().len() implies match #[trigger] self.needs()[i] {
                Some(r) => r < self.avail().len(),
                None => true,
            } by {
                if i != tid as int {
                    assert(self.needs()[i] == old(self).needs()[i]);
                }
            }
            assert forall|jj: int| 0 <= jj < self.avail().len() implies #[trigger] self.total(jj) <= u32::MAX by {
                assert(self.total(jj) == old(self).total(jj));
            }
            lemma_count_none(finish@, n as int);
        }
        let ghost avail = self.avail();
        let ghost allocs = self.allocs();
        let ghost need = self.needs();
        let ghost mut order: Seq<int> = Seq::empty();
        proof {
            assert forall|jj: int| 0 <= jj < m implies work@[jj] as nat == work_of(
                avail,
                allocs,
                finish@,
                jj,
            ) by {
                lemma_held_zero_tail(allocs, finish@, jj, 0, n as int);
            }
        }
        let mut done = false;
        while !done
            invariant
                self.wf(),
                self.avail() == avail,
                self.allocs() == allocs,
                self.needs() == need,
                n == allocs.len(),
                m == avail.len(),
                finish@.len() == n,
                work@.len() == m,
                forall|jj: int| 0 <= jj < m ==> #[trigger] work@[jj] as nat == work_of(avail, allocs, finish@, jj),
                is_finish_order(avail, allocs, need, order),
                forall|i: int| 0 <= i < n ==> (finish@[i] <==> order.contains(i)),
                order.len() == count_marked(finish@, n as int),
                count_marked(finish@, n as int) <= n,
                done ==> forall|i: int|
                    0 <= i < n ==> finish@[i] || !can_finish(need[i], avail, allocs, finish@),
            decreases n - count_marked(finish@, n as int) + if done { 0int } else { 1int },
        {
            let ghost c0 = count_marked(finish@, n as int);
            let mut i: usize = 0;
            let mut found = false;
            while i < n && !found
                invariant
                    self.wf(),
                    self.avail() == avail,
                    self.allocs() == allocs,
                    self.needs() == need,
                    n == allocs.len(),
                    m == avail.len(),
                    i <= n,
                    finish@.len() == n,
                    work@.len() == m,
                    forall|jj: int| 0 <= jj < m ==> #[trigger] work@[jj] as nat == work_of(avail, allocs, finish@, jj),
                    is_finish_order(avail, allocs, need, order),
                    forall|x: int| 0 <= x < n ==> (finish@[x] <==> order.contains(x)),
                    order.len() == count_marked(finish@, n as int),
                    count_marked(finish@, n as int) <= n,
                    count_marked(finish@, n as int) == c0 + if found { 1nat } else { 0nat },
                    !found ==> forall|x: int|
                        0 <= x < i ==> finish@[x] || !can_finish(need[x], avail, allocs, finish@),
                decreases n - i + if found { 0int } else { 1int },
            {
                if !finish[i] {
                    let exitable = match self.need[i] {
                        None => true,
                        Some(r) => work[r] >= 1,
                    };
                    if exitable {
                        let ghost before = finish@;
                        let ghost after = finish@.update(i as int, true);
                        let mut jj: usize = 0;
                        while jj < m
                            invariant
                                self.wf(),
                                self.allocs() == allocs,
                                self.avail() == avail,
                                n == allocs.len(),
                                m == avail.len(),
                                i < n,
                                jj <= m,
                                before.len() == n,
                                !before[i as int],
                                after == before.update(i as int, true),
                                work@.len() == m,
                                forall|x: int| 0 <= x < jj ==> #[trigger] work@[x] as nat == work_of(avail, allocs, after, x),
                                forall|x: int| jj <= x < m ==> #[trigger] work@[x] as nat == work_of(avail, allocs, before, x),
                            decreases m - jj,
                        {
                            proof {
                                lemma_held_mark(allocs, before, i as int, jj as int, n as int);
                                lemma_work_le_total(avail, allocs, after, jj as int);
                                assert(self.total(jj as int) <= u32::MAX);
                                assert(self.allocation@[i as int]@ == allocs[i as int]);
                            }
                            work.set(jj, work[jj] + self.allocation[i][jj]);
                            jj += 1;
                        }
                        finish.set(i, true);
                        proof {
                            assert(finish@ == after);
                            lemma_count_mark(before, i as int, n as int);
                            lemma_count_le(after, n as int);
                            assert(!order.contains(i as int));
                            assert(marks_before(order, order.len() as int, n as nat) =~= before) by {
                                assert(order.subrange(0, order.len() as int) =~= order);
                            }
                            let o2 = order.push(i as int);
                            assert forall|k: int| 0 <= k <= order.len() implies marks_before(o2, k, n as nat)
                                == marks_before(order, k, n as nat) by {
                                assert(o2.subrange(0, k) =~= order.subrange(0, k));
                                assert(marks_before(o2, k, n as nat) =~= marks_before(order, k, n as nat));
                            }
                            assert forall|k: int, l: int| 0 <= k < l < o2.len() implies o2[k] != o2[l] by {
                                if l == order.len() {
                                    assert(o2[k] == order[k]);
                                } else {
                                    assert(o2[k] == order[k] && o2[l] == order[l]);
                                }
                            }
                            assert forall|k: int| 0 <= k < o2.len() implies 0 <= #[trigger] o2[k] < allocs.len() by {
                                if k < order.len() {
                                    assert(o2[k] == order[k]);
                                }
                            }
                            assert forall|k: int| 0 <= k < o2.len() implies can_finish(
                                need[#[trigger] o2[k]],
                                avail,
                                allocs,
                                marks_before(o2, k, allocs.len()),
                            ) by {
                                if k < order.len() {
                                    assert(o2[k] == order[k]);
                                }
                            }
                            assert forall|x: int| 0 <= x < n implies (finish@[x] <==> o2.contains(x)) by {
                                if x == i as int {
                                    assert(o2[order.len() as int] == x);
                                } else {
                                    assert(finish@[x] == before[x]);
                                    assert(before[x] == order.contains(x));
                                    if o2.contains(x) {
                                        let l = choose|l: int| 0 <= l < o2.len() && o2[l] == x;
                                        assert(order[l] == x);
                                    }
                                    if order.contains(x) {
                                        let l = choose|l: int| 0 <= l < order.len() && order[l] == x;
                                        assert(o2[l] == x);
                                    }
                                }
                            }
                            order = o2;
                        }
                        found = true;
                    }
                }
                if !found {
                    i += 1;
                }
            }
            if !found {
                done = true;
            }
        }
        let mut all_finished = true;
        let mut k: usize = 0;
        while k < n
            invariant
                k <= n,
                finish@.len() == n,
                all_finished == forall|x: int| 0 <= x < k ==> finish@[x],
            decreases n - k,
        {
            if !finish[k] {
                all_finished = false;
            }
            k += 1;
        }
        proof {
            if all_finished {
                assert(is_finish_order(avail, allocs, need, order));
            } else {
                let u = choose|u: int| 0 <= u < n && !finish@[u];
                lemma_unsafe_at_fixpoint(avail, allocs, need, finish@, u);
            }
        }
        if !self.is_enabled {
            return true;
        }
        all_finished
    }

    /// Thread `tid` takes one unit of `resource_id`, which it had requested.
    pub fn acquire_resource(&mut self, tid: usize, resource_id: usize)
        requires
            old(self).wf(),
            tid < old(self).allocs().len(),
            resource_id < old(self).avail().len(),
            old(self).needs()[tid as int] == Some(resource_id),
            old(self).avail()[resource_id as int] >= 1,
        ensures
            final(self).wf(),
            final(self).enabled() == old(self).enabled(),
            final(self).needs() == old(self).needs().update(tid as int, None),
            final(self).avail() == old(self).avail().update(
                resource_id as int,
                (old(self).avail()[resource_id as int] - 1) as u32,
            ),
            final(self).allocs() == old(self).allocs().update(
                tid as int,
                old(self).allocs()[tid as int].update(
                    resource_id as int,
                    (old(self).allocs()[tid as int][resource_id as int] + 1) as u32,
                ),
            ),
            forall|j: int| 0 <= j < old(self).avail().len() ==> #[trigger] final(self).total(j) == old(self).total(j),
    {
        let ghost a1 = self.allocs();
        proof {
            let f = all_marked(a1.len());
            lemma_entry_le_held(a1, f, tid as int, resource_id as int, a1.len() as int);
            assert(self.total(resource_id as int) <= u32::MAX);
        }
        self.need.set(tid, None);
        self.available.set(resource_id, self.available[resource_id] - 1);
        let mut row: Vec<u32> = Vec::new();
        self.allocation.set_and_swap(tid, &mut row);
        assert(row@ == a1[tid as int]);
        let v = row[resource_id];
        row.set(resource_id, v + 1);
        self.allocation.set_and_swap(tid, &mut row);
        proof {
            assert(self.allocs() =~= a1.update(tid as int, a1[tid as int].update(resource_id as int, (v + 1) as u32)));
            self.lemma_after_change(a1, tid as int, resource_id as int);
            assert forall|j: int| 0 <= j < self.avail().len() implies #[trigger] self.total(j) == old(self).total(j) by {
                if j != resource_id as int {
                    assert(allocated(self.allocs(), j) == allocated(a1, j));
                }
            }
        }
    }

    /// Thread `tid` gives back one unit of `resource_id` that it holds.
    pub fn release_resource(&mut self, tid: usize, resource_id: usize)
        requires
            old(self).wf(),
            tid < old(self).allocs().len(),
            resource_id < old(self).avail().len(),
            old(self).allocs()[tid as int][resource_id as int] >= 1,
        ensures
            final(self).wf(),
            final(self).enabled() == old(self).enabled(),
            final(self).needs() == old(self).needs(),
            final(self).avail() == old(self).avail().update(
                resource_id as int,
                (old(self).avail()[resource_id as int] + 1) as u32,
            ),
            final(self).allocs() == old(self).allocs().update(
                tid as int,
                old(self).allocs()[tid as int].update(
                    resource_id as int,
                    (old(self).allocs()[tid as int][resource_id as int] - 1) as u32,
                ),
            ),
            forall|j: int| 0 <= j < old(self).avail().len() ==> #[trigger] final(self).total(j) == old(self).total(j),
    {
        let ghost a1 = self.allocs();
        proof {
            let f = all_marked(a1.len());
            lemma_entry_le_held(a1, f, tid as int, resource_id as int, a1.len() as int);
            assert(self.total(resource_id as int) <= u32::MAX);
        }
        self.available.set(resource_id, self.available[resource_id] + 1);
        let mut row: Vec<u32> = Vec::new();
        self.allocation.set_and_swap(tid, &mut row);
        assert(row@ == a1[tid as int]);
        let v = row[resource_id];
        row.set(resource_id, v - 1);
        self.allocation.set_and_swap(tid, &mut row);
        proof {
            assert(self.allocs() =~= a1.update(tid as int, a1[tid as int].update(resource_id as int, (v - 1) as u32)));
            self.lemma_after_change(a1, tid as int, resource_id as int);
            assert forall|j: int| 0 <= j < self.avail().len() implies #[trigger] self.total(j) == old(self).total(j) by {
                if j != resource_id as int {
                    assert(allocated(self.allocs(), j) == allocated(a1, j));
                }
            }
        }
    }

    /// After one entry of row `t`, column `r`, moved by one unit between
    /// `available` and `allocation`, the totals are those of before.
    proof fn lemma_after_change(&self, a1: Seq<Seq<u32>>, t: int, r: int)
        requires
            self.allocs().len() == a1.len(),
            0 <= t < a1.len(),
            forall|i: int| 0 <= i < a1.len() && i != t ==> self.allocs()[i] == a1[i],
            self.allocs()[t].len() == a1[t].len(),
            forall|j: int| 0 <= j < a1[t].len() && j != r ==> self.allocs()[t][j] == a1[t][j],
        ensures
            forall|j: int|
                0 <= j < a1[t].len() && j != r ==> allocated(self.allocs(), j) == allocated(a1, j),
            allocated(self.allocs(), r) + a1[t][r] == allocated(a1, r) + self.allocs()[t][r],
    {
        let f = all_marked(a1.len());
        let n = a1.len() as int;
        assert forall|j: int| 0 <= j < a1[t].len() && j != r implies allocated(self.allocs(), j)
            == allocated(a1, j) by {
            lemma_held_congr(self.allocs(), f, j, a1, f, j, n);
        }
        lemma_held_change(a1, self.allocs(), f, t, r, n);
    }
}

} // verus!
