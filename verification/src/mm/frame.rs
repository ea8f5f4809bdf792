//! Physical frames: the tracker that owns a run of frames, and the pool that hands
//! them out through a buddy-system frame allocator.
use vstd::prelude::*;
use vstd::arithmetic::power2::pow2;
use buddy_system_allocator::FrameAllocator;

verus! {

/// The buddy allocator's type, carried opaquely.
#[verifier::external_type_specification]
#[verifier::external_body]
pub struct ExFrameAllocator<const ORDER: usize>(FrameAllocator<ORDER>);

/// The blocks on the allocator's free lists, as (first frame, class): a block on
/// list `k` is `1 << k` frames from its first frame.
pub uninterp spec fn free_blocks(allocator: FrameAllocator<33>) -> Set<(usize, nat)>;

/// The number of frames the allocator was given, which it keeps as a running total.
pub uninterp spec fn frames_given(allocator: FrameAllocator<33>) -> nat;

/// The number of frames the allocator counts as handed out: what `alloc` took,
/// rounded up to powers of two, less what `dealloc` gave back.
pub uninterp spec fn frames_allocated(allocator: FrameAllocator<33>) -> nat;

/// The frames of the blocks `blocks`.
pub open spec fn block_frames(blocks: Set<(usize, nat)>) -> Set<usize> {
    Set::new(|f: usize| exists|b: (usize, nat)| #[trigger] blocks.contains(b) && b.0 <= f < b.0 + pow2(b.1))
}

/// The frames the allocator holds free: every frame of every block on its free
/// lists.
pub open spec fn free_frames(allocator: FrameAllocator<33>) -> Set<usize> {
    block_frames(free_blocks(allocator))
}

/// Each block is of a class the free lists have (at most 32), starts at a multiple
/// of its size and ends within the frame numbers.
pub open spec fn blocks_ok(blocks: Set<(usize, nat)>) -> bool {
    forall|b: (usize, nat)| #[trigger] blocks.contains(b) ==>
        b.1 <= 32 && b.0 as nat % pow2(b.1) == 0 && b.0 + pow2(b.1) <= usize::MAX
}

/// Some block of `blocks` holds at least `size` frames.
pub open spec fn has_block(blocks: Set<(usize, nat)>, size: nat) -> bool {
    exists|b: (usize, nat)| #[trigger] blocks.contains(b) && pow2(b.1) >= size
}

/// The frames `[start, end)`.
pub open spec fn frame_range(start: int, end: int) -> Set<usize> {
    Set::new(|f: usize| start <= f < end)
}

/// Every frame of `frames` is numbered below `bound`.
pub open spec fn frames_below(frames: Set<usize>, bound: int) -> bool {
    forall|f: usize| #[trigger] frames.contains(f) ==> f < bound
}

/// The smallest power of two not below `n` (1 for 0), as `usize::next_power_of_two`
/// computes it.
pub open spec fn next_power_of_two(n: nat) -> nat
    decreases n,
{
    if n <= 1 {
        1
    } else {
        2 * next_power_of_two(((n + 1) / 2) as nat)
    }
}

/// `FrameAllocator::new`: an allocator with empty free lists and no frames given.
#[verifier::external_body]
fn allocator_new() -> (r: FrameAllocator<33>)
    ensures
        free_blocks(r) == Set::<(usize, nat)>::empty(),
        frames_given(r) == 0,
        frames_allocated(r) == 0,
{
    FrameAllocator::<33>::new()
}

/// `FrameAllocator::add_frame`: cuts `[start, end)` into blocks, each as large as
/// both the alignment of its first frame and the frames left allow (at most
/// `1 << 32`), and puts them on the free lists: the free frames gain exactly that
/// range, no block leaves the lists, and the first block, at `start`, holds every
/// power of two that `start` is a multiple of and that fits the range. It adds the
/// range's length to the running total. It asserts `start <= end`; the total must
/// not overflow, and its largest block size needs a 64-bit `usize`.
#[verifier::external_body]
fn allocator_add_frame(allocator: &mut FrameAllocator<33>, start: usize, end: usize)
    requires
        start <= end,
        frames_given(*old(allocator)) + (end - start) <= usize::MAX,
        usize::BITS == 64,
    ensures
        free_frames(*final(allocator)) == free_frames(*old(allocator)).union(frame_range(start as int, end as int)),
        free_blocks(*old(allocator)).subset_of(free_blocks(*final(allocator))),
        blocks_ok(free_blocks(*old(allocator))) ==> blocks_ok(free_blocks(*final(allocator))),
        forall|k: nat| k <= 32 && start as nat % pow2(k) == 0 && start + pow2(k) <= end
            ==> #[trigger] has_block(free_blocks(*final(allocator)), pow2(k)),
        frames_given(*final(allocator)) == frames_given(*old(allocator)) + (end - start),
        frames_allocated(*final(allocator)) == frames_allocated(*old(allocator)),
{
    allocator.add_frame(start, end)
}

/// `FrameAllocator::alloc`: rounds `count` up to a power of two and takes a free
/// block of that size, splitting the first block of the smallest larger class that
/// has one where needed, and returns its first frame: it succeeds exactly when some
/// free block is at least that large. Blocks that start at a multiple of their size
/// and end within the frame numbers split into halves that do too, so the first
/// frame is aligned to the size; its frames were free, and the free frames
/// afterwards are those from before less at most those frames (a frame that sits
/// on two overlapping blocks, which only adding a free range again can make, stays
/// free). When nothing is taken nothing changes; which block is taken depends on the
/// allocator's history. The rounding must not overflow. The count of frames handed
/// out grows by the block's size when a block is taken.
#[verifier::external_body]
fn allocator_alloc(allocator: &mut FrameAllocator<33>, count: usize) -> (r: Option<usize>)
    requires
        count <= usize::MAX / 2 + 1,
        blocks_ok(free_blocks(*old(allocator))),
    ensures
        frames_given(*final(allocator)) == frames_given(*old(allocator)),
        r is None ==> frames_allocated(*final(allocator)) == frames_allocated(*old(allocator)),
        r is Some ==> frames_allocated(*final(allocator)) == frames_allocated(*old(allocator)) + next_power_of_two(count as nat),
        r is Some <==> has_block(free_blocks(*old(allocator)), next_power_of_two(count as nat)),
        r is None ==> free_blocks(*final(allocator)) == free_blocks(*old(allocator)),
        blocks_ok(free_blocks(*final(allocator))),
        r matches Some(s) ==> {
            let size = next_power_of_two(count as nat);
            &&& s as nat % size == 0
            &&& frame_range(s as int, s + size).subset_of(free_frames(*old(allocator)))
            &&& free_frames(*final(allocator)).subset_of(free_frames(*old(allocator)))
            &&& free_frames(*old(allocator)).difference(frame_range(s as int, s + size)).subset_of(free_frames(*final(allocator)))
        },
{
    allocator.alloc(count)
}

/// `FrameAllocator::dealloc`: rounds `count` up to a power of two and puts the block
/// of that size at `start` back on the free lists, merging it with each free buddy
/// (the neighbouring block of the same size) into a block twice as large; merging
/// keeps the same frames, so the free frames gain exactly that block's frames, and
/// some free block is then at least that large. The count of frames handed out drops
/// by the block's size, which must not take it below zero; the block may be at most
/// `1 << 32` frames, the largest list's size. A block that starts at a multiple of
/// its size and ends within the frame numbers merges into blocks that do too.
#[verifier::external_body]
fn allocator_dealloc(allocator: &mut FrameAllocator<33>, start: usize, count: usize)
    requires
        count <= 0x1_0000_0000,
        usize::BITS == 64 || count <= 0x8000_0000,
        frames_allocated(*old(allocator)) >= next_power_of_two(count as nat),
        blocks_ok(free_blocks(*old(allocator))),
        start as nat % next_power_of_two(count as nat) == 0,
        start + next_power_of_two(count as nat) <= usize::MAX,
    ensures
        free_frames(*final(allocator)) == free_frames(*old(allocator)).union(
            frame_range(start as int, start + next_power_of_two(count as nat))),
        blocks_ok(free_blocks(*final(allocator))),
        has_block(free_blocks(*final(allocator)), next_power_of_two(count as nat)),
        frames_given(*final(allocator)) == frames_given(*old(allocator)),
        frames_allocated(*final(allocator)) == frames_allocated(*old(allocator)) - next_power_of_two(count as nat),
{
    allocator.dealloc(start, count)
}

/// A run of `count` physical frames starting at frame `number`.
pub struct FrameTracker {
    number: usize,
    count: usize,
}

impl FrameTracker {
    pub closed spec fn spec_start(&self) -> usize {
        self.number
    }

    pub closed spec fn spec_len(&self) -> usize {
        self.count
    }

    pub fn new(number: usize, count: usize) -> (r: Self)
        ensures
            r.spec_start() == number,
            r.spec_len() == count,
    {
        FrameTracker { number, count }
    }

    /// The number of frames.
    pub fn len(&self) -> (r: usize)
        ensures
            r == self.spec_len(),
    {
        self.count
    }

    /// The first frame.
    pub fn start(&self) -> (r: usize)
        ensures
            r == self.spec_start(),
    {
        self.number
    }
}

/// The frames the kernel may hand out.
pub struct FramePool {
    allocator: FrameAllocator<33>,
}

impl FramePool {
    /// Every free block starts at a multiple of its size and ends within the frame
    /// numbers, as the allocator's own blocks do while every frame given back is a
    /// block of that kind.
    #[verifier::type_invariant]
    spec fn blocks_fit(&self) -> bool {
        blocks_ok(free_blocks(self.allocator))
    }

    /// The frames the pool holds free.
    pub closed spec fn free(&self) -> Set<usize> {
        free_frames(self.allocator)
    }

    /// The free blocks of the pool, as (first frame, class): a block of class `k`
    /// holds `1 << k` frames.
    pub closed spec fn blocks(&self) -> Set<(usize, nat)> {
        free_blocks(self.allocator)
    }

    /// The number of frames the pool was given.
    pub closed spec fn given(&self) -> nat {
        frames_given(self.allocator)
    }

    /// The number of frames the pool has handed out and not had back, each request
    /// counted at its size rounded up to a power of two.
    pub closed spec fn handed_out(&self) -> nat {
        frames_allocated(self.allocator)
    }

    /// A pool with no frames.
    pub fn new() -> (r: Self)
        ensures
            r.free() == Set::<usize>::empty(),
            r.blocks() == Set::<(usize, nat)>::empty(),
            r.given() == 0,
            r.handed_out() == 0,
    {
        let allocator = allocator_new();
        assert(block_frames(free_blocks(allocator)) =~= Set::<usize>::empty());
        FramePool { allocator }
    }

    /// Takes the allocator out, leaving an empty one in its place.
    fn take_allocator(&mut self) -> (r: FrameAllocator<33>)
        ensures
            r == old(self).allocator,
            blocks_ok(free_blocks(r)),
    {
        proof {
            use_type_invariant(&*self);
        }
        let mut allocator = allocator_new();
        std::mem::swap(&mut allocator, &mut self.allocator);
        allocator
    }

    /// Adds the frames `[start, end)` to the pool. Each power of two that `start` is
    /// a multiple of (up to `1 << 32`) and that fits the range is then the size of a
    /// free block or less; no free block goes away.
    pub fn add_frame(&mut self, start: usize, end: usize)
        requires
            start <= end,
            old(self).given() + (end - start) <= usize::MAX,
            usize::BITS == 64,
        ensures
            final(self).free() == old(self).free().union(frame_range(start as int, end as int)),
            old(self).blocks().subset_of(final(self).blocks()),
            forall|k: nat| k <= 32 && start as nat % pow2(k) == 0 && start + pow2(k) <= end
                ==> #[trigger] has_block(final(self).blocks(), pow2(k)),
            final(self).given() == old(self).given() + (end - start),
            final(self).handed_out() == old(self).handed_out(),
    {
        let mut allocator = self.take_allocator();
        allocator_add_frame(&mut allocator, start, end);
        self.allocator = allocator;
    }

    /// Takes `count` frames (rounded up to a power of two, and aligned to it) from
    /// the pool and returns their first frame. That succeeds exactly when some free
    /// block is at least that large, so a single frame is always had while the pool
    /// holds any free frame; otherwise `None` comes back and nothing changes.
    pub fn allocate(&mut self, count: usize) -> (r: Option<usize>)
        requires
            count <= usize::MAX / 2 + 1,
        ensures
            final(self).given() == old(self).given(),
            r is Some <==> has_block(old(self).blocks(), next_power_of_two(count as nat)),
            count <= 1 && old(self).free() != Set::<usize>::empty() ==> r is Some,
            r is None ==> final(self).free() == old(self).free() && final(self).blocks() == old(self).blocks(),
            r is None ==> final(self).handed_out() == old(self).handed_out(),
            r is Some ==> final(self).handed_out() == old(self).handed_out() + next_power_of_two(count as nat),
            r matches Some(s) ==> {
                let size = next_power_of_two(count as nat);
                &&& s as nat % size == 0
                &&& frame_range(s as int, s + size).subset_of(old(self).free())
                &&& final(self).free().subset_of(old(self).free())
                &&& old(self).free().difference(frame_range(s as int, s + size)).subset_of(final(self).free())
            },
    {
        let mut allocator = self.take_allocator();
        proof {
            if count <= 1 && free_frames(allocator) != Set::<usize>::empty() {
                assert(exists|f: usize| free_frames(allocator).contains(f)) by {
                    if !(exists|f: usize| free_frames(allocator).contains(f)) {
                        assert(free_frames(allocator) =~= Set::<usize>::empty());
                    }
                }
                let f = choose|f: usize| free_frames(allocator).contains(f);
                let b = choose|b: (usize, nat)| #[trigger] free_blocks(allocator).contains(b) && b.0 <= f < b.0 + pow2(b.1);
                vstd::arithmetic::power2::lemma_pow2_pos(b.1);
                assert(has_block(free_blocks(allocator), next_power_of_two(count as nat)));
            }
        }
        let r = allocator_alloc(&mut allocator, count);
        self.allocator = allocator;
        r
    }

    /// Takes `count` frames from the pool into a tracker that owns them: frames the
    /// pool held free, from a block aligned to `count` rounded up to a power of two,
    /// which the pool no longer holds free. That succeeds exactly when some free block
    /// is at least that large, so a single frame is always had while the pool holds
    /// any free frame; where none can be had, nothing changes.
    pub fn borrow(&mut self, count: usize) -> (r: Option<FrameTracker>)
        requires
            count <= usize::MAX / 2 + 1,
        ensures
            final(self).given() == old(self).given(),
            r is Some <==> has_block(old(self).blocks(), next_power_of_two(count as nat)),
            count <= 1 && old(self).free() != Set::<usize>::empty() ==> r is Some,
            r is None ==> final(self).free() == old(self).free() && final(self).blocks() == old(self).blocks(),
            r is None ==> final(self).handed_out() == old(self).handed_out(),
            r is Some ==> final(self).handed_out() == old(self).handed_out() + next_power_of_two(count as nat),
            r matches Some(t) ==> {
                &&& t.spec_len() == count
                &&& t.spec_start() as nat % next_power_of_two(count as nat) == 0
                &&& frame_range(t.spec_start() as int, t.spec_start() + count).subset_of(old(self).free())
                &&& final(self).free().subset_of(old(self).free())
                &&& old(self).free().difference(frame_range(t.spec_start() as int,
                    t.spec_start() + next_power_of_two(count as nat))).subset_of(final(self).free())
            },
    {
        if let Some(number) = self.allocate(count) {
            proof {
                lemma_next_power_of_two(count as nat);
                let size = next_power_of_two(count as nat);
                assert(frame_range(number as int, number + count).subset_of(frame_range(number as int, number + size)));
            }
            Some(FrameTracker::new(number, count))
        } else {
            None
        }
    }

    /// Gives the `count` frames from `frame` (rounded up to a power of two, which
    /// `frame` must be a multiple of) back to the pool: they are free again, and some
    /// free block is at least that large. At most as many frames as the pool handed
    /// out can come back.
    pub fn dealloc(&mut self, frame: usize, count: usize)
        requires
            count <= 0x1_0000_0000,
            usize::BITS == 64 || count <= 0x8000_0000,
            old(self).handed_out() >= next_power_of_two(count as nat),
            frame as nat % next_power_of_two(count as nat) == 0,
            frame + next_power_of_two(count as nat) <= usize::MAX,
        ensures
            final(self).free() == old(self).free().union(frame_range(frame as int, frame + next_power_of_two(count as nat))),
            has_block(final(self).blocks(), next_power_of_two(count as nat)),
            final(self).given() == old(self).given(),
            final(self).handed_out() == old(self).handed_out() - next_power_of_two(count as nat),
    {
        let mut allocator = self.take_allocator();
        allocator_dealloc(&mut allocator, frame, count);
        self.allocator = allocator;
    }

    /// Gives the frames a tracker owns back to the pool, as dropping the tracker does.
    pub fn release(&mut self, tracker: FrameTracker)
        requires
            tracker.spec_len() <= 0x1_0000_0000,
            usize::BITS == 64 || tracker.spec_len() <= 0x8000_0000,
            old(self).handed_out() >= next_power_of_two(tracker.spec_len() as nat),
            tracker.spec_start() as nat % next_power_of_two(tracker.spec_len() as nat) == 0,
            tracker.spec_start() + next_power_of_two(tracker.spec_len() as nat) <= usize::MAX,
        ensures
            final(self).free() == old(self).free().union(frame_range(tracker.spec_start() as int,
                tracker.spec_start() + next_power_of_two(tracker.spec_len() as nat))),
            has_block(final(self).blocks(), next_power_of_two(tracker.spec_len() as nat)),
            final(self).given() == old(self).given(),
            final(self).handed_out() == old(self).handed_out() - next_power_of_two(tracker.spec_len() as nat),
    {
        self.dealloc(tracker.start(), tracker.len());
    }
}

/// The power of two that `count` is rounded up to is at least `count`.
pub proof fn lemma_next_power_of_two(n: nat)
    ensures
        next_power_of_two(n) >= n,
        next_power_of_two(n) >= 1,
    decreases n,
{
    if n > 1 {
        lemma_next_power_of_two(((n + 1) / 2) as nat);
    }
}

} // verus!
