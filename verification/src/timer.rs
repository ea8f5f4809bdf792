//! The per-hart timer: conversion between machine time and scheduler ticks.
use vstd::prelude::*;
use crate::sbi::{SbiCall, set_timer, legacy_set_timer, call_of};

verus! {

/// Scheduler ticks per second: every timer event is counted in ticks.
pub const TICKS_PER_SEC: usize = 100;

/// The timer of one hart, which counts `frequency` machine time units per second.
pub struct HartTimer {
    hartid: usize,
    frequency: usize,
}

impl HartTimer {
    pub closed spec fn hart(&self) -> usize {
        self.hartid
    }

    pub closed spec fn frequency(&self) -> usize {
        self.frequency
    }

    pub fn new(id: usize, freq: usize) -> (r: HartTimer)
        ensures
            r.hart() == id,
            r.frequency() == freq,
    {
        Self { hartid: id, frequency: freq }
    }

    /// The ticks elapsed when the machine time reads `time`.
    pub fn uptime(&self, time: usize) -> (r: usize)
        requires
            self.frequency() > 0,
            time * TICKS_PER_SEC <= usize::MAX,
        ensures
            r == (time * TICKS_PER_SEC) / (self.frequency() as int),
    {
        time * TICKS_PER_SEC / self.frequency
    }

    pub fn tick_freq(&self) -> (r: usize)
        ensures
            r == TICKS_PER_SEC,
    {
        TICKS_PER_SEC
    }

    /// The machine time units that `ticks` ticks last.
    pub fn interval(&self, ticks: usize) -> (r: usize)
        requires
            ticks * self.frequency() <= usize::MAX,
        ensures
            r == (ticks * self.frequency()) / (TICKS_PER_SEC as int),
    {
        ticks * self.frequency / TICKS_PER_SEC
    }

    /// The firmware call that arms the next timer event `ticks` ticks away: through
    /// the time extension when the firmware has it, else through the legacy call.
    pub fn set_next_event(&self, ticks: usize, time_supported: bool) -> (r: SbiCall)
        requires
            ticks * self.frequency() <= usize::MAX,
        ensures
            time_supported ==> r == call_of(0x54494D45, 0, ((ticks * self.frequency()) / (TICKS_PER_SEC as int)) as usize, 0, 0, false),
            !time_supported ==> r == call_of(0, 0, ((ticks * self.frequency()) / (TICKS_PER_SEC as int)) as usize, 0, 0, true),
    {
        let interval = self.interval(ticks);
        if time_supported {
            set_timer(interval)
        } else {
            legacy_set_timer(interval)
        }
    }
}

} // verus!
