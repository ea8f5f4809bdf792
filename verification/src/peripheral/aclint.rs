//! The core-local interruptor: software interrupt and timer registers per hart.
use vstd::prelude::*;

verus! {

/// Where the registers of the interruptor lie: the software interrupt pending words,
/// the timer compare values and the time counter.
pub struct Aclint {
    mswi_address: usize,
    mtimer_address: usize,
    mtime_address: usize,
}

impl Aclint {
    pub closed spec fn spec_mswi(&self) -> usize {
        self.mswi_address
    }

    pub closed spec fn spec_mtimer(&self) -> usize {
        self.mtimer_address
    }

    pub closed spec fn spec_mtime(&self) -> usize {
        self.mtime_address
    }

    pub fn new(mswi_address: usize, mtimer_address: usize, mtime_address: usize) -> (r: Self)
        ensures
            r.spec_mswi() == mswi_address,
            r.spec_mtimer() == mtimer_address,
            r.spec_mtime() == mtime_address,
    {
        Aclint { mswi_address, mtimer_address, mtime_address }
    }

    /// The 32-bit software interrupt pending word of hart `hartid`, unless its
    /// address does not fit a `usize`.
    pub fn msip_address(&self, hartid: usize) -> (r: Option<usize>)
        ensures
            self.spec_mswi() + 4 * hartid <= usize::MAX ==> (r matches Some(a) && a == self.spec_mswi() + 4 * hartid),
            self.spec_mswi() + 4 * hartid > usize::MAX ==> r is None,
    {
        if hartid > (usize::MAX - self.mswi_address) / 4 {
            None
        } else {
            Some(self.mswi_address + 4 * hartid)
        }
    }

    /// The 64-bit timer compare value of hart `hartid`, unless its address does not
    /// fit a `usize`.
    pub fn mtimecmp_address(&self, hartid: usize) -> (r: Option<usize>)
        ensures
            self.spec_mtimer() + 8 * hartid <= usize::MAX ==> (r matches Some(a) && a == self.spec_mtimer() + 8 * hartid),
            self.spec_mtimer() + 8 * hartid > usize::MAX ==> r is None,
    {
        if hartid > (usize::MAX - self.mtimer_address) / 8 {
            None
        } else {
            Some(self.mtimer_address + 8 * hartid)
        }
    }

    /// The 64-bit time counter.
    pub fn mtime_address(&self) -> (r: usize)
        ensures
            r == self.spec_mtime(),
    {
        self.mtime_address
    }

    /// The compare value that makes the timer fire `cycles` after time `now`.
    pub fn deadline(now: u64, cycles: usize) -> (r: u64)
        requires
            now + cycles <= u64::MAX,
        ensures
            r == now + cycles,
    {
        now + cycles as u64
    }

    /// The compare value that keeps the timer from firing.
    pub fn never() -> (r: u64)
        ensures
            r == u64::MAX,
    {
        u64::MAX
    }
}

} // verus!
