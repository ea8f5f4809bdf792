//! Where the stacks of a process's threads lie: blocks of 8 MiB counted up from the
//! middle of the address space, kept in a list ordered by their first block.
use vstd::prelude::*;
use crate::proc::thread::Tid;

verus! {

/// The bytes in one block.
pub const BLOCK_SIZE: usize = 8 * 1024 * 1024;

/// The stack of one thread: its first block and how many blocks it has.
#[derive(Clone, Copy, PartialEq, Eq, Structural)]
pub struct ThreadStack {
    pub id: Tid,
    pub start: usize,
    pub count: usize,
}

/// The stacks of a process, and the addresses they are counted from.
pub struct MemoryLayout {
    top: usize,
    mid: usize,
    stacks: Vec<ThreadStack>,
}

/// Where the blocks `ss[i]` and `ss[i + 1]` leave a gap of at least `count` blocks,
/// the first such gap from `i` on is used; where none is left, a new stack of one
/// block for `who` follows the last. Gives the first block and whether a stack was
/// added.
pub open spec fn free_block(ss: Seq<ThreadStack>, i: int, count: usize) -> (int, bool)
    decreases ss.len() - i,
{
    if i + 1 < ss.len() {
        let top = ss[i].start + ss[i].count;
        if top < ss[i + 1].start && ss[i + 1].start - top >= count {
            (top, false)
        } else {
            free_block(ss, i + 1, count)
        }
    } else {
        (ss[i].start + ss[i].count, true)
    }
}

/// The stacks ordered and apart: each ends before the next begins.
pub open spec fn ordered(ss: Seq<ThreadStack>) -> bool {
    forall|i: int| 0 <= i < ss.len() - 1 ==> #[trigger] ss[i].start + ss[i].count <= ss[i + 1].start
}

/// Where the last stack ends, or 0.
pub open spec fn end_of(ss: Seq<ThreadStack>) -> int {
    if ss.len() == 0 {
        0
    } else {
        ss.last().start + ss.last().count
    }
}

/// The stacks once the stack of `id` is let go: only the first stack, or else the
/// second, is looked at.
pub open spec fn finalized(ss: Seq<ThreadStack>, id: Tid) -> Seq<ThreadStack> {
    if ss.len() == 0 {
        ss
    } else if ss[0].id == id {
        ss.drop_first()
    } else if ss.len() > 1 && ss[1].id == id {
        ss.remove(1)
    } else {
        ss
    }
}

proof fn lemma_free_block_bound(ss: Seq<ThreadStack>, i: int, count: usize)
    requires
        0 <= i < ss.len(),
        ordered(ss),
    ensures
        free_block(ss, i, count).0 <= end_of(ss),
        free_block(ss, i, count).0 >= ss[i].start + ss[i].count,
        free_block(ss, i, count).1 ==> free_block(ss, i, count).0 == end_of(ss),
    decreases ss.len() - i,
{
    if i + 1 < ss.len() {
        let top = ss[i].start + ss[i].count;
        if top < ss[i + 1].start && ss[i + 1].start - top >= count {
            lemma_order_end(ss, i + 1);
        } else {
            lemma_free_block_bound(ss, i + 1, count);
        }
    }
}

proof fn lemma_order_end(ss: Seq<ThreadStack>, i: int)
    requires
        0 <= i < ss.len(),
        ordered(ss),
    ensures
        ss[i].start + ss[i].count <= end_of(ss),
    decreases ss.len() - i,
{
    if i + 1 < ss.len() {
        assert(ss[i].start + ss[i].count <= ss[i + 1].start);
        lemma_order_end(ss, i + 1);
    }
}

/// Between stacks `ss[j]` and `ss[j + 1]` lie at least `count` free blocks.
pub open spec fn room_after(ss: Seq<ThreadStack>, j: int, count: usize) -> bool {
    let end = ss[j].start + ss[j].count;
    end < ss[j + 1].start && ss[j + 1].start - end >= count
}

proof fn lemma_first_fit_from(ss: Seq<ThreadStack>, i: int, count: usize)
    requires
        0 <= i < ss.len(),
    ensures
        ({
            let (start, added) = free_block(ss, i, count);
            &&& !added ==> exists|k: int| i <= k < ss.len() - 1 && #[trigger] room_after(ss, k, count)
                && start == ss[k].start + ss[k].count
                && forall|j: int| i <= j < k ==> !#[trigger] room_after(ss, j, count)
            &&& added ==> start == end_of(ss) && forall|j: int| i <= j < ss.len() - 1 ==> !#[trigger] room_after(ss, j, count)
        }),
    decreases ss.len() - i,
{
    if i + 1 < ss.len() {
        if room_after(ss, i, count) {
            assert(room_after(ss, i, count));
        } else {
            lemma_first_fit_from(ss, i + 1, count);
            let (start, added) = free_block(ss, i + 1, count);
            if !added {
                let k = choose|k: int| i + 1 <= k < ss.len() - 1 && #[trigger] room_after(ss, k, count)
                    && start == ss[k].start + ss[k].count
                    && forall|j: int| i + 1 <= j < k ==> !#[trigger] room_after(ss, j, count);
                assert forall|j: int| i <= j < k implies !#[trigger] room_after(ss, j, count) by {
                    if j > i {
                        assert(i + 1 <= j < k);
                    }
                }
                assert(room_after(ss, k, count));
            }
        }
    } else {
        assert(ss.last() == ss[i]);
    }
}

/// First fit: a new stack of `count` blocks begins right where the first stack
/// followed by at least `count` free blocks ends, so it takes the lowest blocks of
/// the first gap it fits in, and no earlier gap has room; where no gap has room it
/// begins where the last stack ends, and is added to the list.
pub proof fn lemma_first_fit(ss: Seq<ThreadStack>, count: usize)
    requires
        ss.len() > 0,
    ensures
        ({
            let (start, added) = free_block(ss, 0, count);
            &&& !added ==> exists|k: int| 0 <= k < ss.len() - 1 && #[trigger] room_after(ss, k, count)
                && start == ss[k].start + ss[k].count
                && start + count <= ss[k + 1].start
                && forall|j: int| 0 <= j < k ==> !#[trigger] room_after(ss, j, count)
            &&& added ==> start == end_of(ss) && forall|j: int| 0 <= j < ss.len() - 1 ==> !#[trigger] room_after(ss, j, count)
        }),
{
    lemma_first_fit_from(ss, 0, count);
}

impl MemoryLayout {
    /// The stacks in list order.
    pub closed spec fn stacks(&self) -> Seq<ThreadStack> {
        self.stacks@
    }

    /// The top of the address space.
    pub closed spec fn spec_top(&self) -> usize {
        self.top
    }

    /// The address the blocks are counted from: half the top.
    pub closed spec fn spec_mid(&self) -> usize {
        self.mid
    }

    /// The address a stack of `count` blocks from block `start` grows down from.
    pub open spec fn address_of(&self, start: int, count: int) -> int {
        self.spec_mid() + BLOCK_SIZE * (start + count)
    }

    /// A layout with no stacks below `top`.
    pub fn new(top: usize) -> (r: Self)
        ensures
            r.spec_top() == top,
            r.spec_mid() == top / 2,
            r.stacks().len() == 0,
    {
        MemoryLayout { top, mid: top / 2, stacks: Vec::new() }
    }

    /// The top of the address space.
    pub fn top(self) -> (r: usize)
        ensures
            r == self.spec_top(),
    {
        self.top
    }

    fn block_to_address(&self, start: usize, count: usize) -> (r: usize)
        requires
            self.address_of(start as int, count as int) <= usize::MAX,
        ensures
            r == self.address_of(start as int, count as int),
    {
        proof {
            assert(BLOCK_SIZE * (start + count) <= usize::MAX && start + count <= usize::MAX) by (nonlinear_arith)
                requires self.spec_mid() + BLOCK_SIZE * (start + count) <= usize::MAX;
        }
        self.mid + BLOCK_SIZE * (start + count)
    }

    /// A stack of one block for thread `id`, in the first gap between two stacks or
    /// else after the last; gives the address it grows down from.
    pub fn new_stack(&mut self, id: Tid) -> (r: Result<usize, ()>)
        requires
            ordered(old(self).stacks()),
            old(self).address_of(end_of(old(self).stacks()), 2) <= usize::MAX,
        ensures
            final(self).spec_top() == old(self).spec_top(),
            final(self).spec_mid() == old(self).spec_mid(),
            ordered(final(self).stacks()),
            ({
                let ss = old(self).stacks();
                if ss.len() == 0 {
                    &&& final(self).stacks() == seq![ThreadStack { id, start: 0, count: 1 }]
                    &&& r == Ok::<usize, ()>(old(self).address_of(0, 1) as usize)
                } else {
                    let (start, added) = free_block(ss, 0, 1);
                    &&& final(self).stacks() == (if added {
                        ss.push(ThreadStack { id, start: start as usize, count: 1 })
                    } else {
                        ss
                    })
                    &&& r == Ok::<usize, ()>(old(self).address_of(start, 1) as usize)
                }
            }),
    {
        let start = if self.stacks.len() > 0 {
            proof {
                lemma_free_block_bound(self.stacks@, 0, 1);
                let e = end_of(old(self).stacks());
                let m = old(self).spec_mid();
                assert(e <= usize::MAX) by (nonlinear_arith)
                    requires m + BLOCK_SIZE * (e + 2) <= usize::MAX, e >= 0, m >= 0;
            }
            Self::find_block_free(&mut self.stacks, 0, 1, id)
        } else {
            self.stacks.push(ThreadStack { id, start: 0, count: 1 });
            0
        };
        proof {
            let e = end_of(old(self).stacks());
            assert(BLOCK_SIZE * (start + 1) <= BLOCK_SIZE * (e + 2)) by (nonlinear_arith)
                requires start <= e + 1;
        }
        Ok(self.block_to_address(start, 1))
    }

    /// The first block from stack `i` on that can hold `count` blocks, as
    /// [`free_block`] says; a stack for `who` is added after the last where no gap
    /// is left.
    fn find_block_free(stacks: &mut Vec<ThreadStack>, i: usize, count: usize, who: Tid) -> (r: usize)
        requires
            i < old(stacks)@.len(),
            ordered(old(stacks)@),
            end_of(old(stacks)@) <= usize::MAX,
        ensures
            ({
                let (start, added) = free_block(old(stacks)@, i as int, count);
                &&& r == start
                &&& final(stacks)@ == (if added {
                    old(stacks)@.push(ThreadStack { id: who, start: start as usize, count: 1 })
                } else {
                    old(stacks)@
                })
            }),
        decreases old(stacks)@.len() - i,
    {
        proof {
            lemma_order_end(stacks@, i as int);
        }
        if i < stacks.len() - 1 {
            let top = stacks[i].start + stacks[i].count;
            if top < stacks[i + 1].start && stacks[i + 1].start - top >= count {
                top
            } else {
                Self::find_block_free(stacks, i + 1, count, who)
            }
        } else {
            let start = stacks[i].start + stacks[i].count;
            stacks.push(ThreadStack { id: who, start, count: 1 });
            start
        }
    }

    /// Lets go of the stack of thread `id`, where it is the first or the second of
    /// the list.
    pub fn finalize_stack(&mut self, id: Tid)
        requires
            ordered(old(self).stacks()),
        ensures
            final(self).stacks() == finalized(old(self).stacks(), id),
            ordered(final(self).stacks()),
            final(self).spec_top() == old(self).spec_top(),
            final(self).spec_mid() == old(self).spec_mid(),
    {
        let ghost ss = self.stacks@;
        if self.stacks.len() > 0 {
            if self.stacks[0].id == id {
                self.stacks.remove(0);
                assert(self.stacks@ =~= ss.drop_first());
            } else {
                Self::set_block_free(&mut self.stacks, id);
            }
        }
        proof {
            let f = self.stacks@;
            assert forall|i: int| 0 <= i < f.len() - 1 implies #[trigger] f[i].start + f[i].count <= f[i + 1].start by {
                if ss.len() > 0 && ss[0].id == id {
                    assert(f[i] == ss[i + 1] && f[i + 1] == ss[i + 2]);
                } else if ss.len() > 1 && ss[1].id == id {
                    if i == 0 {
                        assert(ss[0].start + ss[0].count <= ss[1].start);
                        assert(ss[1].start + ss[1].count <= ss[2].start);
                        assert(f[0] == ss[0] && f[1] == ss[2]);
                    } else {
                        assert(f[i] == ss[i + 1] && f[i + 1] == ss[i + 2]);
                    }
                }
            }
        }
    }

    /// Lets go of the stack after the first, where it belongs to `owner`.
    fn set_block_free(stacks: &mut Vec<ThreadStack>, owner: Tid)
        requires
            old(stacks)@.len() > 0,
        ensures
            final(stacks)@ == (if old(stacks)@.len() > 1 && old(stacks)@[1].id == owner {
                old(stacks)@.remove(1)
            } else {
                old(stacks)@
            }),
    {
        if stacks.len() > 1 && stacks[1].id == owner {
            stacks.remove(1);
        }
    }
}

} // verus!
