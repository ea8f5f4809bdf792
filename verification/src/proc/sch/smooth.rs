//! A scheduler that spreads the harts evenly over processes and threads by counting
//! how often each was picked: every process and thread carries a generation, a
//! process or thread whose generation has run ahead of its table's (or process's) is
//! passed over, and once every one has run ahead the table's generation catches up.
use vstd::prelude::*;
use crate::fal::Pid;
use crate::proc::{Process, ProcessState};
use crate::proc::thread::{Thread, Tid};

verus! {

/// The generation after `g`; counting wraps around.
pub open spec fn next_generation(g: usize) -> usize {
    if g == usize::MAX {
        0
    } else {
        (g + 1) as usize
    }
}

fn bump(g: usize) -> (r: usize)
    ensures
        r == next_generation(g),
{
    if g == usize::MAX {
        0
    } else {
        g + 1
    }
}

/// A thread as the scheduler keeps it: the thread, how often it was picked, and
/// whether a hart holds it.
pub struct ThreadCell {
    pub thread: Thread,
    pub generation: usize,
    pub locked: bool,
}

/// A process as the scheduler keeps it: the process, its generation and its threads
/// in the order they were added.
pub struct ProcessCell {
    pub proc: Process,
    pub generation: usize,
    pub threads: Vec<ThreadCell>,
}

/// The processes in the order they were added, the table's generation and the next
/// process id.
pub struct ProcessTable {
    generation: usize,
    current_pid: usize,
    procs: Vec<ProcessCell>,
}

/// The scheduler of one hart: the process and thread it runs, by index.
pub struct SmoothScheduler {
    hartid: usize,
    current: Option<(usize, usize)>,
}

/// A thread can be taken at threshold `g`: its generation is not past `g` and no
/// hart holds it.
pub open spec fn eligible(t: ThreadCell, g: usize) -> bool {
    t.generation <= g && !t.locked
}

/// An eligible thread that is ready to run.
pub open spec fn pickable(t: ThreadCell, g: usize) -> bool {
    eligible(t, g) && t.thread.state == ProcessState::Ready
}

/// The first thread of `ts` that can be picked at threshold `g`.
#[verifier::opaque]
pub open spec fn first_pickable(ts: Seq<ThreadCell>, g: usize) -> Option<int> {
    if exists|k: int| 0 <= k < ts.len() && #[trigger] pickable(ts[k], g) {
        Some(choose|k: int| 0 <= k < ts.len() && pickable(ts[k], g)
            && forall|j: int| 0 <= j < k ==> !#[trigger] pickable(ts[j], g))
    } else {
        None
    }
}

/// The largest of `g` and the generations of the first `n` threads of `ts`.
pub open spec fn max_gen(ts: Seq<ThreadCell>, g: usize, n: int) -> usize
    decreases n,
{
    if n <= 0 {
        g
    } else {
        let m = max_gen(ts, g, n - 1);
        if ts[n - 1].generation > m {
            ts[n - 1].generation
        } else {
            m
        }
    }
}

/// Whether thread `j` is held after a pass at threshold `g` that stopped before
/// thread `stop`: a pass takes every eligible thread it meets and lets go only of the
/// one it picks.
pub open spec fn held_after(t: ThreadCell, j: int, g: usize, stop: int) -> bool {
    t.locked || (j < stop && eligible(t, g) && t.thread.state != ProcessState::Ready)
}

/// The thread picked among `ts` in a process at generation `g0`: the first that can
/// be picked at `g0`; where there is none, the process's generation catches up with
/// the largest generation of its threads and the first ready thread no hart holds is
/// picked. Gives the thread, the process's new generation and whether the first pass
/// found it.
pub open spec fn thread_pick(ts: Seq<ThreadCell>, g0: usize) -> (int, usize, bool) {
    match first_pickable(ts, g0) {
        Some(k) => (k, g0, true),
        None => {
            let g1 = max_gen(ts, g0, ts.len() as int);
            (first_pickable(ts, g1)->0, g1, false)
        },
    }
}

/// The process can run: one of its threads is ready and free.
pub open spec fn runnable(c: ProcessCell) -> bool {
    exists|j: int| 0 <= j < c.threads@.len() && #[trigger] c.threads@[j].thread.state == ProcessState::Ready
        && !c.threads@[j].locked
}

/// `after` holds the threads `before` of a process at generation `g0` once thread `k`
/// was picked as [`thread_pick`] says, with the picked thread left in state `s`: the
/// picked thread counts one more pick and is held, the threads the passes met and
/// could not run are held, and the process's generation is the one the pick leaves.
pub open spec fn picked_thread(before: Seq<ThreadCell>, g0: usize, after: ProcessCell, k: int, s: ProcessState) -> bool {
    let (k0, g, first) = thread_pick(before, g0);
    let n = before.len() as int;
    &&& k == k0
    &&& 0 <= k < n
    &&& after.generation == g
    &&& after.threads@.len() == n
    &&& forall|j: int| 0 <= j < n ==> {
        let t = #[trigger] before[j];
        let u = after.threads@[j];
        &&& u.thread.name == t.thread.name
        &&& u.thread.tid == t.thread.tid
        &&& u.thread.state == (if j == k { s } else { t.thread.state })
        &&& u.generation == (if j == k { next_generation(t.generation) } else { t.generation })
        &&& u.locked == (if j == k {
            true
        } else if first {
            held_after(t, j, g0, k)
        } else {
            held_after(t, j, g0, n) || held_after(t, j, g, k)
        })
    }
}

proof fn lemma_max_gen(ts: Seq<ThreadCell>, g: usize, n: int)
    requires
        0 <= n <= ts.len(),
    ensures
        max_gen(ts, g, n) >= g,
        forall|j: int| 0 <= j < n ==> #[trigger] ts[j].generation <= max_gen(ts, g, n),
    decreases n,
{
    if n > 0 {
        lemma_max_gen(ts, g, n - 1);
    }
}

/// Holding threads that are not ready changes nothing of which threads can be
/// picked.
proof fn lemma_same_pickable(ts: Seq<ThreadCell>, mid: Seq<ThreadCell>, g0: usize, g1: usize)
    requires
        mid.len() == ts.len(),
        forall|j: int| 0 <= j < ts.len() ==> {
            let t = #[trigger] ts[j];
            let u = mid[j];
            &&& u.thread == t.thread
            &&& u.generation == t.generation
            &&& u.locked == held_after(t, j, g0, ts.len() as int)
        },
    ensures
        forall|i: int| 0 <= i < ts.len() ==> #[trigger] pickable(mid[i], g1) == pickable(ts[i], g1),
        first_pickable(mid, g1) == first_pickable(ts, g1),
{
    reveal(first_pickable);
    assert forall|i: int| 0 <= i < ts.len() implies #[trigger] pickable(mid[i], g1) == pickable(ts[i], g1) by {
        assert(mid[i].locked == held_after(ts[i], i, g0, ts.len() as int));
    }
    if exists|k: int| 0 <= k < ts.len() && #[trigger] pickable(ts[k], g1) {
        let k = choose|k: int| 0 <= k < ts.len() && #[trigger] pickable(ts[k], g1);
        assert(pickable(mid[k], g1));
        let c1 = choose|c: int| 0 <= c < mid.len() && pickable(mid[c], g1)
            && forall|j: int| 0 <= j < c ==> !#[trigger] pickable(mid[j], g1);
        let c2 = choose|c: int| 0 <= c < ts.len() && pickable(ts[c], g1)
            && forall|j: int| 0 <= j < c ==> !#[trigger] pickable(ts[j], g1);
        lemma_first_exists(ts, g1);
        lemma_first_exists(mid, g1);
        assert(c1 == c2) by {
            if c1 < c2 {
                assert(!pickable(ts[c1], g1));
            } else if c1 > c2 {
                assert(!pickable(mid[c2], g1));
            }
        }
    } else {
        assert forall|k: int| 0 <= k < mid.len() implies !#[trigger] pickable(mid[k], g1) by {
            assert(!pickable(ts[k], g1));
        }
    }
}

/// What the first pickable thread is.
proof fn lemma_first_pickable(ts: Seq<ThreadCell>, g: usize)
    ensures
        first_pickable(ts, g) matches Some(k) ==> 0 <= k < ts.len() && pickable(ts[k], g)
            && forall|j: int| 0 <= j < k ==> !#[trigger] pickable(ts[j], g),
        first_pickable(ts, g) is None ==> forall|j: int| 0 <= j < ts.len() ==> !#[trigger] pickable(ts[j], g),
{
    reveal(first_pickable);
    if exists|k: int| 0 <= k < ts.len() && #[trigger] pickable(ts[k], g) {
        lemma_first_exists(ts, g);
    }
}

/// Where some thread can be picked, there is a first one.
proof fn lemma_first_exists(ts: Seq<ThreadCell>, g: usize)
    requires
        exists|k: int| 0 <= k < ts.len() && #[trigger] pickable(ts[k], g),
    ensures
        exists|k: int| 0 <= k < ts.len() && pickable(ts[k], g)
            && forall|j: int| 0 <= j < k ==> !#[trigger] pickable(ts[j], g),
{
    let k0 = choose|k: int| 0 <= k < ts.len() && #[trigger] pickable(ts[k], g);
    lemma_first_below(ts, g, k0);
}

proof fn lemma_first_below(ts: Seq<ThreadCell>, g: usize, k0: int)
    requires
        0 <= k0 < ts.len(),
        pickable(ts[k0], g),
    ensures
        exists|k: int| 0 <= k < ts.len() && pickable(ts[k], g)
            && forall|j: int| 0 <= j < k ==> !#[trigger] pickable(ts[j], g),
    decreases k0,
{
    if forall|j: int| 0 <= j < k0 ==> !#[trigger] pickable(ts[j], g) {
        assert(pickable(ts[k0], g) && forall|j: int| 0 <= j < k0 ==> !#[trigger] pickable(ts[j], g));
    } else {
        let j = choose|j: int| 0 <= j < k0 && #[trigger] pickable(ts[j], g);
        lemma_first_below(ts, g, j);
    }
}

/// A pick found in the first pass is the pick [`thread_pick`] describes.
proof fn lemma_pick_first(before: ProcessCell, after: ProcessCell, k: int)
    requires
        first_pickable(before.threads@, before.generation) == Some(k),
        0 <= k < before.threads@.len(),
        after.proc == before.proc,
        after.generation == before.generation,
        after.threads@.len() == before.threads@.len(),
        forall|j: int| 0 <= j < before.threads@.len() ==> {
            let t = #[trigger] before.threads@[j];
            let u = after.threads@[j];
            &&& u.thread == t.thread
            &&& u.generation == (if j == k { next_generation(t.generation) } else { t.generation })
            &&& u.locked == (if j == k { true } else { held_after(t, j, before.generation, k) })
        },
    ensures
        picked_thread(before.threads@, before.generation, after, k, before.threads@[k].thread.state),
{
}

/// A pick found in the second pass is the pick [`thread_pick`] describes.
proof fn lemma_pick_second(before: ProcessCell, mid: Seq<ThreadCell>, after: ProcessCell, k: int, g1: usize)
    requires
        first_pickable(before.threads@, before.generation) is None,
        g1 == max_gen(before.threads@, before.generation, before.threads@.len() as int),
        mid.len() == before.threads@.len(),
        forall|j: int| 0 <= j < before.threads@.len() ==> {
            let t = #[trigger] before.threads@[j];
            let u = mid[j];
            &&& u.thread == t.thread
            &&& u.generation == t.generation
            &&& u.locked == held_after(t, j, before.generation, before.threads@.len() as int)
        },
        first_pickable(mid, g1) == Some(k),
        0 <= k < mid.len(),
        after.proc == before.proc,
        after.generation == g1,
        after.threads@.len() == mid.len(),
        forall|j: int| 0 <= j < mid.len() ==> {
            let t = #[trigger] mid[j];
            let u = after.threads@[j];
            &&& u.thread == t.thread
            &&& u.generation == (if j == k { next_generation(t.generation) } else { t.generation })
            &&& u.locked == (if j == k { true } else { held_after(t, j, g1, k) })
        },
    ensures
        picked_thread(before.threads@, before.generation, after, k, before.threads@[k].thread.state),
{
    lemma_same_pickable(before.threads@, mid, before.generation, g1);
    assert forall|j: int| 0 <= j < before.threads@.len() implies {
        let t = #[trigger] before.threads@[j];
        let u = after.threads@[j];
        &&& u.thread.name == t.thread.name
        &&& u.thread.tid == t.thread.tid
        &&& u.thread.state == t.thread.state
        &&& u.generation == (if j == k { next_generation(t.generation) } else { t.generation })
        &&& u.locked == (if j == k {
            true
        } else {
            held_after(t, j, before.generation, before.threads@.len() as int) || held_after(t, j, g1, k)
        })
    } by {
        assert(mid[j].thread == before.threads@[j].thread);
    }
}

impl ThreadCell {
    /// A thread no hart holds, at generation `generation`.
    pub fn new(thread: Thread, generation: usize) -> (r: Self)
        ensures
            r.thread == thread,
            r.generation == generation,
            !r.locked,
    {
        ThreadCell { thread, generation, locked: false }
    }
}

impl ProcessCell {
    /// A process with its main thread, both at generation `generation`.
    pub fn new(value: Process, generation: usize) -> (r: Self)
        ensures
            r.proc == value,
            r.generation == generation,
            r.threads@.len() == 1,
            r.threads@[0].generation == generation,
            r.threads@[0].thread.state == ProcessState::Ready,
            r.threads@[0].thread.tid == 0,
            !r.threads@[0].locked,
            runnable(r),
    {
        let main = Thread::new("main".to_owned());
        let cell = ThreadCell::new(main, generation);
        let mut threads = Vec::new();
        threads.push(cell);
        let r = ProcessCell { proc: value, generation, threads };
        assert(r.threads@[0].thread.state == ProcessState::Ready);
        r
    }

    /// One pass over the threads at threshold `g`: each eligible thread is taken;
    /// the first that is ready is picked (counted once more and kept) and ends the
    /// pass. Gives the picked thread and the largest of `g` and the generations of
    /// the threads met before it.
    fn scan(&mut self, g: usize) -> (r: (Option<usize>, usize))
        ensures
            final(self).proc == old(self).proc,
            final(self).generation == old(self).generation,
            final(self).threads@.len() == old(self).threads@.len(),
            match first_pickable(old(self).threads@, g) {
                Some(k) => r.0 == Some(k as usize),
                None => r.0 is None,
            },
            ({
                let n = old(self).threads@.len() as int;
                let stop = match r.0 { Some(k) => k as int, None => n };
                &&& r.1 == max_gen(old(self).threads@, g, stop)
                &&& forall|j: int| 0 <= j < n ==> {
                    let t = #[trigger] old(self).threads@[j];
                    let u = final(self).threads@[j];
                    &&& u.thread == t.thread
                    &&& u.generation == (if j == stop { next_generation(t.generation) } else { t.generation })
                    &&& u.locked == (if j == stop { true } else { held_after(t, j, g, stop) })
                }
            }),
    {
        let ghost ts = old(self).threads@;
        let n = self.threads.len();
        let mut max = g;
        let mut i: usize = 0;
        let mut found: Option<usize> = None;
        while i < n && found.is_none()
            invariant
                n == ts.len(),
                i <= n,
                self.proc == old(self).proc,
                self.generation == old(self).generation,
                self.threads@.len() == n,
                found matches Some(k) ==> k + 1 == i && pickable(ts[k as int], g),
                max == max_gen(ts, g, match found { Some(k) => k as int, None => i as int }),
                forall|j: int| 0 <= j < (match found { Some(k) => k as int, None => i as int }) ==> !#[trigger] pickable(ts[j], g),
                forall|j: int| 0 <= j < n ==> {
                    let t = #[trigger] ts[j];
                    let u = self.threads@[j];
                    let stop = match found { Some(k) => k as int, None => i as int };
                    &&& u.thread == t.thread
                    &&& u.generation == (if found is Some && j == stop { next_generation(t.generation) } else { t.generation })
                    &&& u.locked == (if found is Some && j == stop { true } else if j < stop { held_after(t, j, g, stop) } else { t.locked })
                },
            decreases n - i,
        {
            let generation = self.threads[i].generation;
            if generation <= g && !self.threads[i].locked {
                self.threads[i].locked = true;
                if self.threads[i].thread.state == ProcessState::Ready {
                    self.threads[i].generation = bump(generation);
                    found = Some(i);
                }
            }
            if found.is_none() {
                if generation > max {
                    max = generation;
                }
            }
            i = i + 1;
        }
        proof {
            reveal(first_pickable);
            match found {
                Some(k) => {
                    let c = choose|c: int| 0 <= c < ts.len() && pickable(ts[c], g)
                        && forall|j: int| 0 <= j < c ==> !#[trigger] pickable(ts[j], g);
                    assert(pickable(ts[k as int], g));
                    assert(c == k) by {
                        if c < k {
                            assert(!pickable(ts[c], g));
                        } else if c > k {
                            assert(!pickable(ts[k as int], g));
                        }
                    }
                },
                None => {
                    assert(!exists|c: int| 0 <= c < ts.len() && #[trigger] pickable(ts[c], g));
                },
            }
        }
        (found, max)
    }

    /// Picks a thread as [`thread_pick`] says and holds it; one of the threads must be
    /// ready and free.
    pub fn pick_thread(&mut self) -> (r: usize)
        requires
            runnable(*old(self)),
        ensures
            picked_thread(old(self).threads@, old(self).generation, *final(self), r as int, old(self).threads@[r as int].thread.state),
            final(self).proc == old(self).proc,
    {
        let ghost before = *old(self);
        let ghost ts = before.threads@;
        let ghost n = ts.len() as int;
        let g0 = self.generation;
        let (first, max) = self.scan(g0);
        match first {
            Some(k) => {
                proof {
                    lemma_first_pickable(ts, g0);
                    assert(old(self).threads@ == ts);
                    assert(old(self).threads.len() == ts.len());
                    assert(first_pickable(ts, g0) is Some);
                    let c = first_pickable(ts, g0)->0;
                    assert(0 <= c < ts.len());
                    assert(first == Some(c as usize));
                    assert(c == k as int);
                    lemma_pick_first(before, *self, k as int);
                }
                k
            },
            None => {
                let ghost mid = self.threads@;
                if max > self.generation {
                    self.generation = max;
                }
                let g1 = self.generation;
                proof {
                    lemma_max_gen(ts, g0, n);
                    let j = choose|j: int| 0 <= j < n && #[trigger] ts[j].thread.state == ProcessState::Ready && !ts[j].locked;
                    assert(ts[j].generation <= g1);
                    assert(pickable(ts[j], g1));
                    lemma_same_pickable(ts, mid, g0, g1);
                    assert(pickable(mid[j], g1));
                }
                let (second, _) = self.scan(g1);
                match second {
                    Some(k) => {
                        proof {
                            lemma_first_pickable(mid, g1);
                            assert(self.threads.len() == mid.len());
                            assert(first_pickable(mid, g1) is Some);
                            assert(first_pickable(mid, g1)->0 == k as int);
                            lemma_first_pickable(ts, g0);
                            lemma_pick_second(before, mid, *self, k as int, g1);
                        }
                        k
                    },
                    None => {
                        proof {
                            lemma_first_pickable(mid, g1);
                        }
                        0
                    },
                }
            },
        }
    }
}

/// The generations of the processes.
pub open spec fn generations(ps: Seq<ProcessCell>) -> Seq<usize> {
    ps.map_values(|c: ProcessCell| c.generation)
}

/// The first of the generations `gs` that is not past `g`.
#[verifier::opaque]
pub open spec fn first_behind(gs: Seq<usize>, g: usize) -> Option<int> {
    if exists|k: int| 0 <= k < gs.len() && #[trigger] gs[k] <= g {
        Some(choose|k: int| 0 <= k < gs.len() && gs[k] <= g && forall|j: int| 0 <= j < k ==> !(#[trigger] gs[j] <= g))
    } else {
        None
    }
}

/// The largest of `g` and the first `n` of the generations `gs`.
pub open spec fn max_of(gs: Seq<usize>, g: usize, n: int) -> usize
    decreases n,
{
    if n <= 0 {
        g
    } else {
        let m = max_of(gs, g, n - 1);
        if gs[n - 1] > m {
            gs[n - 1]
        } else {
            m
        }
    }
}

/// The process picked in a table at generation `g` whose processes have the
/// generations `gs`: the first not past `g`; where there is none, the table's
/// generation catches up with the largest and the first process is picked. Gives the
/// process and the table's new generation.
pub open spec fn process_pick(gs: Seq<usize>, g: usize) -> (int, usize) {
    match first_behind(gs, g) {
        Some(i) => (i, g),
        None => {
            let g1 = max_of(gs, g, gs.len() as int);
            (first_behind(gs, g1)->0, g1)
        },
    }
}

proof fn lemma_max_of(gs: Seq<usize>, g: usize, n: int)
    requires
        0 <= n <= gs.len(),
    ensures
        max_of(gs, g, n) >= g,
        forall|j: int| 0 <= j < n ==> #[trigger] gs[j] <= max_of(gs, g, n),
    decreases n,
{
    if n > 0 {
        lemma_max_of(gs, g, n - 1);
    }
}

proof fn lemma_first_behind_below(gs: Seq<usize>, g: usize, k0: int)
    requires
        0 <= k0 < gs.len(),
        gs[k0] <= g,
    ensures
        exists|k: int| 0 <= k < gs.len() && gs[k] <= g && forall|j: int| 0 <= j < k ==> !(#[trigger] gs[j] <= g),
    decreases k0,
{
    if forall|j: int| 0 <= j < k0 ==> !(#[trigger] gs[j] <= g) {
    } else {
        let j = choose|j: int| 0 <= j < k0 && #[trigger] gs[j] <= g;
        lemma_first_behind_below(gs, g, j);
    }
}

/// What the first process not past `g` is.
proof fn lemma_first_behind(gs: Seq<usize>, g: usize)
    ensures
        first_behind(gs, g) matches Some(k) ==> 0 <= k < gs.len() && gs[k] <= g
            && forall|j: int| 0 <= j < k ==> !(#[trigger] gs[j] <= g),
        first_behind(gs, g) is None ==> forall|j: int| 0 <= j < gs.len() ==> !(#[trigger] gs[j] <= g),
{
    reveal(first_behind);
    if exists|k: int| 0 <= k < gs.len() && #[trigger] gs[k] <= g {
        let k0 = choose|k: int| 0 <= k < gs.len() && #[trigger] gs[k] <= g;
        lemma_first_behind_below(gs, g, k0);
    }
}

impl ProcessTable {
    /// The processes, in the order they were added.
    pub closed spec fn cells(&self) -> Seq<ProcessCell> {
        self.procs@
    }

    /// The table's generation.
    pub closed spec fn spec_generation(&self) -> usize {
        self.generation
    }

    /// The id the next process gets.
    pub closed spec fn next_pid(&self) -> usize {
        self.current_pid
    }

    /// A table with no process.
    pub fn new() -> (r: Self)
        ensures
            r.cells().len() == 0,
            r.spec_generation() == 0,
            r.next_pid() == 0,
    {
        ProcessTable { generation: 0, current_pid: 0, procs: Vec::new() }
    }

    /// The number of processes.
    pub fn len(&self) -> (r: usize)
        ensures
            r == self.cells().len(),
    {
        self.procs.len()
    }

    /// Adds a process at the end with the next id, it and its main thread at the
    /// table's generation, and gives the id.
    pub fn add(&mut self, proc: Process) -> (r: Pid)
        ensures
            r == old(self).next_pid() as Pid,
            final(self).next_pid() == (if old(self).next_pid() == usize::MAX { 0 } else { old(self).next_pid() + 1 }),
            final(self).spec_generation() == old(self).spec_generation(),
            final(self).cells().len() == old(self).cells().len() + 1,
            final(self).cells().drop_last() == old(self).cells(),
            ({
                let c = final(self).cells().last();
                &&& c.proc.pid == r
                &&& c.proc.name == proc.name
                &&& c.proc.parent == proc.parent
                &&& c.proc.entry_point == proc.entry_point
                &&& c.proc.state == proc.state
                &&& c.generation == old(self).spec_generation()
                &&& c.threads@.len() == 1
                &&& c.threads@[0].generation == old(self).spec_generation()
                &&& c.threads@[0].thread.state == ProcessState::Ready
                &&& !c.threads@[0].locked
            }),
    {
        let pid = self.current_pid as Pid;
        self.current_pid = self.current_pid.wrapping_add(1);
        let mut proc = proc;
        proc.pid = pid;
        let cell = ProcessCell::new(proc, self.generation);
        self.procs.push(cell);
        assert(self.procs@.drop_last() =~= old(self).procs@);
        pid
    }

    /// One pass over the processes: the first whose generation is not past `g`, and
    /// the largest of `g` and the generations of those before it.
    fn scan(&self, g: usize) -> (r: (Option<usize>, usize))
        ensures
            match first_behind(generations(self.cells()), g) {
                Some(k) => r.0 == Some(k as usize),
                None => r.0 is None,
            },
            r.1 == max_of(generations(self.cells()), g, match r.0 { Some(k) => k as int, None => self.cells().len() as int }),
    {
        let ghost gs = generations(self.procs@);
        let mut max = g;
        let mut i: usize = 0;
        while i < self.procs.len()
            invariant
                gs == generations(self.procs@),
                i <= self.procs@.len(),
                max == max_of(gs, g, i as int),
                forall|j: int| 0 <= j < i ==> !(#[trigger] gs[j] <= g),
            decreases self.procs@.len() - i,
        {
            let generation = self.procs[i].generation;
            if generation <= g {
                proof {
                    lemma_first_behind(gs, g);
                    reveal(first_behind);
                    let c = choose|k: int| 0 <= k < gs.len() && gs[k] <= g && forall|j: int| 0 <= j < k ==> !(#[trigger] gs[j] <= g);
                    assert(gs[i as int] <= g);
                    assert(c == i) by {
                        if c < i {
                            assert(!(gs[c] <= g));
                        } else if c > i {
                            assert(!(gs[i as int] <= g));
                        }
                    }
                }
                return (Some(i), max);
            }
            if generation > max {
                max = generation;
            }
            i = i + 1;
        }
        proof {
            reveal(first_behind);
        }
        (None, max)
    }

    /// Picks a process as [`process_pick`] says, catching the table's generation up
    /// where needed; the table must hold a process.
    pub fn pick_process(&mut self) -> (r: usize)
        requires
            old(self).cells().len() > 0,
        ensures
            (r as int, final(self).spec_generation()) == process_pick(generations(old(self).cells()), old(self).spec_generation()),
            final(self).cells() == old(self).cells(),
            final(self).next_pid() == old(self).next_pid(),
    {
        let ghost gs = generations(self.procs@);
        let g0 = self.generation;
        let (first, max) = self.scan(g0);
        proof {
            lemma_first_behind(gs, g0);
        }
        match first {
            Some(k) => {
                proof {
                    assert(self.procs.len() == gs.len());
                }
                k
            },
            None => {
                if max > self.generation {
                    self.generation = max;
                }
                let g1 = self.generation;
                proof {
                    lemma_max_of(gs, g0, gs.len() as int);
                    assert(gs[0] <= g1);
                    lemma_first_behind(gs, g1);
                }
                let (second, _) = self.scan(g1);
                match second {
                    Some(k) => {
                        proof {
                            assert(self.procs.len() == gs.len());
                        }
                        k
                    },
                    None => 0,
                }
            },
        }
    }
}

/// The threads of a process once thread `ti` is let go: it is ready and no hart
/// holds it.
pub open spec fn released(ts: Seq<ThreadCell>, ti: int) -> Seq<ThreadCell> {
    ts.update(ti, ThreadCell {
        thread: Thread { name: ts[ti].thread.name, tid: ts[ti].thread.tid, state: ProcessState::Ready },
        generation: ts[ti].generation,
        locked: false,
    })
}

/// The threads of process `i` before a pick: those of `ps`, with the thread the hart
/// ran let go where it belongs to that process.
pub open spec fn threads_before(ps: Seq<ProcessCell>, current: Option<(usize, usize)>, i: int) -> Seq<ThreadCell> {
    match current {
        Some((pi, ti)) => if i == pi { released(ps[i].threads@, ti as int) } else { ps[i].threads@ },
        None => ps[i].threads@,
    }
}

/// Whether the hart goes on with the thread it runs: it has one, the table's
/// generation has not fallen behind its process's, and its process's generation has
/// not fallen behind the thread's.
pub open spec fn keeps_current(ps: Seq<ProcessCell>, g: usize, current: Option<(usize, usize)>) -> bool {
    match current {
        Some((pi, ti)) => g >= ps[pi as int].generation && ps[pi as int].generation >= ps[pi as int].threads@[ti as int].generation,
        None => false,
    }
}

/// Whether the hart picks another thread of the process it runs: its process has not
/// run ahead of the table but its thread has run ahead of the process.
pub open spec fn stays_in_process(ps: Seq<ProcessCell>, g: usize, current: Option<(usize, usize)>) -> bool {
    match current {
        Some((pi, ti)) => g >= ps[pi as int].generation && ps[pi as int].generation < ps[pi as int].threads@[ti as int].generation,
        None => false,
    }
}

/// The table can be scheduled with the hart running `current`: it holds a process,
/// `current` points at a thread of it, and every other process has a ready thread
/// that no hart holds.
pub open spec fn schedulable(ps: Seq<ProcessCell>, current: Option<(usize, usize)>) -> bool {
    &&& ps.len() > 0
    &&& current matches Some((pi, ti)) ==> pi < ps.len() && ti < ps[pi as int].threads@.len()
    &&& forall|i: int| 0 <= i < ps.len() && !(current matches Some((pi, _)) && i == pi) ==> #[trigger] runnable(ps[i])
}

impl SmoothScheduler {
    /// The process and thread the hart runs, by index.
    pub closed spec fn spec_current(&self) -> Option<(usize, usize)> {
        self.current
    }

    /// The hart.
    pub closed spec fn spec_hartid(&self) -> usize {
        self.hartid
    }

    /// A scheduler for hart `hartid` that runs nothing yet.
    pub fn new(hartid: usize) -> (r: Self)
        ensures
            r.spec_hartid() == hartid,
            r.spec_current() is None,
    {
        SmoothScheduler { hartid, current: None }
    }

    /// Whether `table` can be scheduled with what this hart runs: what
    /// [`SmoothScheduler::switch_next`] needs.
    pub fn can_switch(&self, table: &ProcessTable) -> (r: bool)
        ensures
            r == schedulable(table.cells(), self.spec_current()),
    {
        let n = table.procs.len();
        if n == 0 {
            return false;
        }
        if let Some((pi, ti)) = self.current {
            if pi >= n || ti >= table.procs[pi].threads.len() {
                return false;
            }
        }
        let mut i: usize = 0;
        while i < n
            invariant
                n == table.procs@.len(),
                i <= n,
                forall|k: int| 0 <= k < i && !(self.current matches Some((pi, _)) && k == pi)
                    ==> #[trigger] runnable(table.procs@[k]),
            decreases n - i,
        {
            let skip = match self.current {
                Some((pi, _)) => pi == i,
                None => false,
            };
            if !skip {
                let ts = &table.procs[i].threads;
                let mut found = false;
                let mut j: usize = 0;
                while j < ts.len()
                    invariant
                        j <= ts@.len(),
                        found == exists|m: int| 0 <= m < j && #[trigger] ts@[m].thread.state == ProcessState::Ready
                            && !ts@[m].locked,
                    decreases ts@.len() - j,
                {
                    if ts[j].thread.state == ProcessState::Ready && !ts[j].locked {
                        found = true;
                    }
                    j = j + 1;
                }
                if !found {
                    proof {
                        assert(ts@ == table.cells()[i as int].threads@);
                        assert(!runnable(table.cells()[i as int]));
                    }
                    return false;
                }
            }
            i = i + 1;
        }
        true
    }

    /// Picks what the hart runs next and gives its process and thread ids. The table
    /// stays schedulable, so the hart can always switch again.
    ///
    /// Where the hart runs a thread whose process has not run ahead of the table and
    /// which has not run ahead of its process, it goes on with it and the thread counts
    /// one more pick. Otherwise the thread is let go (ready, held by no hart) and a
    /// thread is picked as [`thread_pick`] says, in the same process where only the
    /// thread ran ahead, else in the process [`process_pick`] picks; the picked thread
    /// runs.
    pub fn switch_next(&mut self, table: &mut ProcessTable) -> (r: (Pid, Tid))
        requires
            schedulable(old(table).cells(), old(self).spec_current()),
        ensures
            schedulable(final(table).cells(), final(self).spec_current()),
            final(table).next_pid() == old(table).next_pid(),
            final(table).cells().len() == old(table).cells().len(),
            final(self).spec_hartid() == old(self).spec_hartid(),
            ({
                let ps = old(table).cells();
                let qs = final(table).cells();
                let g = old(table).spec_generation();
                let cur = old(self).spec_current();
                if keeps_current(ps, g, cur) {
                    let (pi, ti) = cur->0;
                    let c = ps[pi as int];
                    let t = c.threads@[ti as int];
                    &&& final(self).spec_current() == cur
                    &&& final(table).spec_generation() == g
                    &&& forall|i: int| 0 <= i < ps.len() && i != pi ==> #[trigger] qs[i] == ps[i]
                    &&& qs[pi as int].proc == c.proc
                    &&& qs[pi as int].generation == c.generation
                    &&& qs[pi as int].threads@ == c.threads@.update(ti as int,
                        ThreadCell { thread: t.thread, generation: next_generation(t.generation), locked: t.locked })
                    &&& r == (c.proc.pid, t.thread.tid)
                } else {
                    let (i, g1) = if stays_in_process(ps, g, cur) {
                        let (pi, _) = cur->0;
                        (pi as int, g)
                    } else {
                        process_pick(generations(ps), g)
                    };
                    &&& final(table).spec_generation() == g1
                    &&& final(self).spec_current() matches Some((ni, k))
                    &&& ni == i
                    &&& picked_thread(threads_before(ps, cur, i), ps[i].generation, qs[i], k as int, ProcessState::Running)
                    &&& qs[i].proc == ps[i].proc
                    &&& forall|j: int| 0 <= j < ps.len() && j != i ==> {
                        &&& (#[trigger] qs[j]).proc == ps[j].proc
                        &&& qs[j].generation == ps[j].generation
                        &&& qs[j].threads@ == threads_before(ps, cur, j)
                    }
                    &&& r == (qs[i].proc.pid, qs[i].threads@[k as int].thread.tid)
                }
            }),
    {
        let ghost ps = table.procs@;
        let ghost cur = self.current;
        if let Some((pi, ti)) = self.current.take() {
            let table_generation = table.generation;
            let proc_generation = table.procs[pi].generation;
            let thread_generation = table.procs[pi].threads[ti].generation;
            if table_generation >= proc_generation {
                if proc_generation >= thread_generation {
                    table.procs[pi].threads[ti].generation = bump(thread_generation);
                    self.current = Some((pi, ti));
                    let pid = table.procs[pi].proc.pid;
                    let tid = table.procs[pi].threads[ti].thread.tid;
                    proof {
                        assert forall|i: int| 0 <= i < ps.len() && i != pi implies #[trigger] table.procs@[i] == ps[i] by {}
                        assert(table.procs@[pi as int].threads@ =~= ps[pi as int].threads@.update(ti as int,
                            ThreadCell { thread: ps[pi as int].threads@[ti as int].thread,
                                generation: next_generation(thread_generation), locked: ps[pi as int].threads@[ti as int].locked }));
                    }
                    return (pid, tid);
                } else {
                    table.procs[pi].threads[ti].thread.state = ProcessState::Ready;
                    table.procs[pi].threads[ti].locked = false;
                    proof {
                        assert(table.procs@[pi as int].threads@ =~= released(ps[pi as int].threads@, ti as int));
                        assert(table.procs@[pi as int].threads@[ti as int].thread.state == ProcessState::Ready);
                        assert(runnable(table.procs@[pi as int]));
                    }
                    let k = table.procs[pi].pick_thread();
                    table.procs[pi].threads[k].thread.state = ProcessState::Running;
                    self.current = Some((pi, k));
                    let pid = table.procs[pi].proc.pid;
                    let tid = table.procs[pi].threads[k].thread.tid;
                    proof {
                        assert forall|j: int| 0 <= j < ps.len() && j != pi implies {
                            &&& (#[trigger] table.procs@[j]).proc == ps[j].proc
                            &&& table.procs@[j].generation == ps[j].generation
                            &&& table.procs@[j].threads@ == threads_before(ps, cur, j)
                        } by {}
                    }
                    return (pid, tid);
                }
            } else {
                table.procs[pi].threads[ti].thread.state = ProcessState::Ready;
                table.procs[pi].threads[ti].locked = false;
                proof {
                    assert(table.procs@[pi as int].threads@ =~= released(ps[pi as int].threads@, ti as int));
                    assert(table.procs@[pi as int].threads@[ti as int].thread.state == ProcessState::Ready);
                    assert(runnable(table.procs@[pi as int]));
                    assert(generations(table.procs@) =~= generations(ps));
                }
                self.pick_and_run(table, Ghost(ps), Ghost(cur))
            }
        } else {
            proof {
                assert(generations(table.procs@) =~= generations(ps));
            }
            self.pick_and_run(table, Ghost(ps), Ghost(cur))
        }
    }

    /// Picks a process as [`process_pick`] says and a thread in it as [`thread_pick`]
    /// says, and runs that thread.
    fn pick_and_run(&mut self, table: &mut ProcessTable, Ghost(ps): Ghost<Seq<ProcessCell>>, Ghost(cur): Ghost<Option<(usize, usize)>>) -> (r: (Pid, Tid))
        requires
            old(table).cells().len() == ps.len() > 0,
            generations(old(table).cells()) == generations(ps),
            forall|j: int| 0 <= j < ps.len() ==> {
                &&& (#[trigger] old(table).cells()[j]).proc == ps[j].proc
                &&& old(table).cells()[j].threads@ == threads_before(ps, cur, j)
                &&& runnable(old(table).cells()[j])
            },
        ensures
            final(table).next_pid() == old(table).next_pid(),
            final(table).cells().len() == ps.len(),
            final(self).spec_hartid() == old(self).spec_hartid(),
            schedulable(final(table).cells(), final(self).spec_current()),
            ({
                let qs = final(table).cells();
                let (i, g1) = process_pick(generations(ps), old(table).spec_generation());
                &&& final(table).spec_generation() == g1
                &&& final(self).spec_current() matches Some((ni, k))
                &&& ni == i
                &&& picked_thread(threads_before(ps, cur, i), ps[i].generation, qs[i], k as int, ProcessState::Running)
                &&& qs[i].proc == ps[i].proc
                &&& forall|j: int| 0 <= j < ps.len() && j != i ==> {
                    &&& (#[trigger] qs[j]).proc == ps[j].proc
                    &&& qs[j].generation == ps[j].generation
                    &&& qs[j].threads@ == threads_before(ps, cur, j)
                }
                &&& r == (qs[i].proc.pid, qs[i].threads@[k as int].thread.tid)
            }),
    {
        let ghost before = table.procs@;
        let pi = table.pick_process();
        proof {
            let gs = generations(before);
            lemma_first_behind(gs, old(table).spec_generation());
            assert(gs.len() == before.len());
            assert(table.procs.len() == before.len());
            lemma_first_behind(gs, max_of(gs, old(table).spec_generation(), gs.len() as int));
            lemma_max_of(gs, old(table).spec_generation(), gs.len() as int);
            assert(gs[0] <= max_of(gs, old(table).spec_generation(), gs.len() as int));
            assert(pi < before.len());
            assert(runnable(before[pi as int]));
        }
        let k = table.procs[pi].pick_thread();
        table.procs[pi].threads[k].thread.state = ProcessState::Running;
        self.current = Some((pi, k));
        let pid = table.procs[pi].proc.pid;
        let tid = table.procs[pi].threads[k].thread.tid;
        proof {
            assert(generations(before)[pi as int] == ps[pi as int].generation);
            assert forall|j: int| 0 <= j < ps.len() && j != pi implies {
                &&& (#[trigger] table.procs@[j]).proc == ps[j].proc
                &&& table.procs@[j].generation == ps[j].generation
                &&& table.procs@[j].threads@ == threads_before(ps, cur, j)
            } by {
                assert(generations(before)[j] == ps[j].generation);
            }
            assert forall|j: int| 0 <= j < ps.len() && j != pi implies #[trigger] runnable(table.procs@[j]) by {
                assert(table.procs@[j].threads@ == before[j].threads@);
                assert(runnable(before[j]));
            }
        }
        (pid, tid)
    }

    /// Marks the thread the hart runs as dead.
    pub fn finish(&mut self, table: &mut ProcessTable)
        requires
            old(self).spec_current() matches Some((pi, ti)) ==>
                pi < old(table).cells().len() && ti < old(table).cells()[pi as int].threads@.len(),
        ensures
            final(self).spec_current() == old(self).spec_current(),
            final(table).spec_generation() == old(table).spec_generation(),
            final(table).next_pid() == old(table).next_pid(),
            final(table).cells().len() == old(table).cells().len(),
            old(self).spec_current() is None ==> final(table).cells() == old(table).cells(),
            old(self).spec_current() matches Some((pi, ti)) ==> {
                let c = old(table).cells()[pi as int];
                let t = c.threads@[ti as int];
                &&& forall|i: int| 0 <= i < old(table).cells().len() && i != pi ==> #[trigger] final(table).cells()[i] == old(table).cells()[i]
                &&& final(table).cells()[pi as int].proc == c.proc
                &&& final(table).cells()[pi as int].generation == c.generation
                &&& final(table).cells()[pi as int].threads@ == c.threads@.update(ti as int, ThreadCell {
                    thread: Thread { name: t.thread.name, tid: t.thread.tid, state: ProcessState::Dead },
                    generation: t.generation,
                    locked: t.locked,
                })
            },
    {
        if let Some((pi, ti)) = self.current {
            table.procs[pi].threads[ti].thread.state = ProcessState::Dead;
            proof {
                let c = old(table).procs@[pi as int];
                let t = c.threads@[ti as int];
                assert(table.procs@[pi as int].threads@ =~= c.threads@.update(ti as int, ThreadCell {
                    thread: Thread { name: t.thread.name, tid: t.thread.tid, state: ProcessState::Dead },
                    generation: t.generation,
                    locked: t.locked,
                }));
            }
        }
    }

    /// The process and thread the hart runs, if any.
    pub fn current<'a>(&self, table: &'a ProcessTable) -> (r: Option<(&'a Process, &'a Thread)>)
        requires
            self.spec_current() matches Some((pi, ti)) ==>
                pi < table.cells().len() && ti < table.cells()[pi as int].threads@.len(),
        ensures
            self.spec_current() is None ==> r is None,
            self.spec_current() matches Some((pi, ti)) ==> r matches Some((p, t))
                && *p == table.cells()[pi as int].proc && *t == table.cells()[pi as int].threads@[ti as int].thread,
    {
        match self.current {
            Some((pi, ti)) => Some((&table.procs[pi].proc, &table.procs[pi].threads[ti].thread)),
            None => None,
        }
    }
}

} // verus!
