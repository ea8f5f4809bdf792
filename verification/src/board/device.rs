//! The devices of the board: its processors and its interrupt controller.
use vstd::prelude::*;
use crate::board::device::cpu::{Cpu, MmuType};
use crate::board::device::generic::GenericDeviceBuilder;
use crate::board::device::intrc::InterruptController;

pub mod bus;
pub mod cpu;
pub mod generic;
pub mod intrc;
pub mod peripheral;

verus! {

/// The devices of the board.
pub struct DeviceMap {
    cpus: Vec<Cpu>,
    intrc: InterruptController,
}

impl DeviceMap {
    pub closed spec fn spec_cpus(&self) -> Seq<Cpu> {
        self.cpus@
    }

    pub closed spec fn spec_intrc(&self) -> InterruptController {
        self.intrc
    }

    /// A builder with nothing in it.
    pub fn builder() -> (r: DeviceMapBuilder)
        ensures
            r.spec_cpus() == Seq::<Cpu>::empty(),
            r.spec_intrc() is None,
    {
        DeviceMapBuilder::empty()
    }

    /// The processors.
    pub fn cpus(&self) -> (r: &[Cpu])
        ensures
            r@ == self.spec_cpus(),
    {
        self.cpus.as_slice()
    }

    /// The interrupt controller.
    pub fn intrc(&self) -> (r: &InterruptController)
        ensures
            *r == self.spec_intrc(),
    {
        &self.intrc
    }
}

/// Collects the devices of the board.
pub struct DeviceMapBuilder {
    cpus: Vec<Cpu>,
    generic: Vec<GenericDeviceBuilder>,
    intrc: Option<InterruptController>,
}

impl DeviceMapBuilder {
    pub closed spec fn spec_cpus(&self) -> Seq<Cpu> {
        self.cpus@
    }

    pub closed spec fn spec_intrc(&self) -> Option<InterruptController> {
        self.intrc
    }

    /// A builder with nothing in it.
    pub fn empty() -> (r: Self)
        ensures
            r.spec_cpus() == Seq::<Cpu>::empty(),
            r.spec_intrc() is None,
    {
        DeviceMapBuilder { cpus: Vec::new(), generic: Vec::new(), intrc: None }
    }

    /// The map of what was collected; it needs an interrupt controller.
    pub fn build(self) -> (r: Result<DeviceMap, ()>)
        ensures
            r is Ok == self.spec_intrc() is Some,
            r matches Ok(m) ==> m.spec_cpus() == self.spec_cpus() && m.spec_intrc() == self.spec_intrc()->0,
    {
        if let Some(intrc) = self.intrc {
            Ok(DeviceMap { cpus: self.cpus, intrc })
        } else {
            Err(())
        }
    }

    /// Adds a processor.
    pub fn cpu(&mut self, hartid: usize, freq: usize, mmu_type: MmuType)
        ensures
            final(self).spec_cpus().len() == old(self).spec_cpus().len() + 1,
            final(self).spec_cpus().drop_last() == old(self).spec_cpus(),
            final(self).spec_cpus().last().spec_id() == hartid,
            final(self).spec_cpus().last().spec_freq() == freq,
            final(self).spec_cpus().last().spec_mmu() == mmu_type,
            final(self).spec_intrc() == old(self).spec_intrc(),
    {
        self.cpus.push(Cpu::new(hartid, freq, mmu_type));
        assert(self.cpus@.drop_last() =~= old(self).cpus@);
    }

    /// Sets the interrupt controller.
    pub fn intrc(&mut self, addr: usize, size: usize)
        ensures
            final(self).spec_cpus() == old(self).spec_cpus(),
            final(self).spec_intrc() matches Some(c) && c.spec_address() == addr && c.spec_size() == size,
    {
        self.intrc = Some(InterruptController::new(addr, size));
    }
}

} // verus!
