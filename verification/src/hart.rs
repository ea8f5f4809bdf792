//! Harts (hardware threads): their table, their state as the firmware reports it,
//! and the firmware calls that start, suspend and wake them.
use vstd::prelude::*;
use crate::sbi::{self, SbiCall, SbiResult, call_of};

verus! {

/// The state of a hart, as far as the kernel cares.
#[derive(Debug, Clone, Copy, PartialEq, Eq, Structural)]
pub enum HartStatus {
    Stopped,
    Suspended,
    Started,
}

/// The state that a hart-state query answer stands for: started, start pending and
/// resume pending count as started; stopped and stop pending as stopped; suspended
/// as suspended. Any other answer, or a failed query, stands for none.
pub open spec fn status_of(answer: SbiResult) -> Option<HartStatus> {
    match answer {
        Ok(v) => if v == 0 || v == 2 || v == 6 {
            Some(HartStatus::Started)
        } else if v == 1 || v == 3 {
            Some(HartStatus::Stopped)
        } else if v == 4 {
            Some(HartStatus::Suspended)
        } else {
            None
        },
        Err(_) => None,
    }
}

/// A hart that runs user processes, with its scheduler and its random source.
pub struct ApplicationHart<S, R> {
    id: usize,
    scheduler: S,
    random: R,
}

impl<S, R> ApplicationHart<S, R> {
    pub closed spec fn hart_id(&self) -> usize {
        self.id
    }

    /// The scheduler the hart runs its processes with.
    pub closed spec fn spec_scheduler(&self) -> S {
        self.scheduler
    }

    /// The hart's source of random numbers.
    pub closed spec fn spec_random(&self) -> R {
        self.random
    }

    pub fn new(hartid: usize, scheduler: S, random: R) -> (r: Self)
        ensures
            r.hart_id() == hartid,
            r.spec_scheduler() == scheduler,
            r.spec_random() == random,
    {
        Self { id: hartid, scheduler, random }
    }

    pub fn id(&self) -> (r: usize)
        ensures
            r == self.hart_id(),
    {
        self.id
    }

    /// The query whose answer [`ApplicationHart::get_status`] reads.
    pub fn status_request(&self) -> (r: SbiCall)
        ensures
            r == call_of(0x48534D, 2, self.hart_id(), 0, 0, false),
    {
        sbi::hart_get_status(self.id)
    }

    /// The state of this hart, read from the answer to its state query.
    pub fn get_status(&self, answer: SbiResult) -> (r: Option<HartStatus>)
        ensures
            r == status_of(answer),
    {
        if let Ok(ret) = answer {
            match ret {
                0 | 2 | 6 => Some(HartStatus::Started),
                1 | 3 => Some(HartStatus::Stopped),
                4 => Some(HartStatus::Suspended),
                _ => None,
            }
        } else {
            None
        }
    }

    /// The call that starts this hart at `awaken`, handing it `entry`.
    pub fn start(&self, awaken: usize, entry: usize) -> (r: SbiCall)
        ensures
            r == call_of(0x48534D, 0, self.hart_id(), awaken, entry, false),
    {
        sbi::hart_start(self.id, awaken, entry)
    }

    /// The call that suspends the calling hart (default retentive suspend), to
    /// resume at `awaken` with `entry`.
    pub fn suspend(&self, awaken: usize, entry: usize) -> (r: SbiCall)
        ensures
            r == call_of(0x48534D, 3, 0, awaken, entry, false),
    {
        sbi::hart_suspend(0, awaken, entry)
    }
}

/// Whether a firmware call went through.
pub fn succeeded(answer: &SbiResult) -> (r: bool)
    ensures
        r == answer is Ok,
{
    answer.is_ok()
}

/// The call that interrupts every hart in `hart_mask`.
pub fn send_ipi(hart_mask: usize) -> (r: SbiCall)
    ensures
        r == call_of(0x735049, 0, hart_mask, 0, 0, false),
{
    sbi::send_ipi(hart_mask, 0)
}

/// The call that interrupts all harts.
pub fn send_ipi_all() -> (r: SbiCall)
    ensures
        r == call_of(0x735049, 0, 0, (-1isize) as usize, 0, false),
{
    sbi::send_ipi(0, -1)
}

/// The set of idle harts with hart `id` added.
pub fn mark_idle(idle: usize, id: usize) -> (r: usize)
    requires
        id < usize::BITS,
    ensures
        r == idle | (1usize << id),
{
    idle | (1usize << id)
}

/// The call that wakes the idle harts.
pub fn awake_idle(idle: usize) -> (r: SbiCall)
    ensures
        r == call_of(0x735049, 0, idle, 0, 0, false),
{
    send_ipi(idle)
}

/// A slot of the hart table.
pub enum HartKind<H> {
    Disabled,
    Application(H),
}

/// The table of harts, indexed by hart id.
pub struct HartTable<H> {
    harts: Vec<HartKind<H>>,
}

/// `n` disabled slots.
pub open spec fn disabled_slots<H>(n: nat) -> Seq<HartKind<H>> {
    Seq::new(n, |i: int| HartKind::<H>::Disabled)
}

impl<H> HartTable<H> {
    pub closed spec fn slots(&self) -> Seq<HartKind<H>> {
        self.harts@
    }

    pub fn new() -> (r: Self)
        ensures
            r.slots() == Seq::<HartKind<H>>::empty(),
    {
        HartTable { harts: Vec::new() }
    }

    pub fn len(&self) -> (r: usize)
        ensures
            r == self.slots().len(),
    {
        self.harts.len()
    }

    /// Adds an application hart: slots up to `hartid` that do not exist yet are
    /// filled with disabled harts, then the hart is appended.
    pub fn register(&mut self, hartid: usize, hart: H)
        requires
            old(self).slots().len() < usize::MAX,
            hartid < usize::MAX,
        ensures
            final(self).slots() == old(self).slots()
                + disabled_slots::<H>(if hartid > old(self).slots().len() { (hartid - old(self).slots().len()) as nat } else { 0 })
                + seq![HartKind::Application(hart)],
    {
        let len = self.harts.len();
        if hartid > len {
            let diff = hartid - len;
            let mut i: usize = 0;
            while i < diff
                invariant
                    diff == hartid - len,
                    len == old(self).slots().len(),
                    i <= diff,
                    self.harts@ == old(self).slots() + disabled_slots::<H>(i as nat),
                decreases diff - i,
            {
                self.harts.push(HartKind::Disabled);
                i = i + 1;
                assert(self.harts@ =~= old(self).slots() + disabled_slots::<H>(i as nat));
            }
        }
        self.harts.push(HartKind::Application(hart));
        assert(self.harts@ =~= old(self).slots()
            + disabled_slots::<H>(if hartid > len { (hartid - len) as nat } else { 0 })
            + seq![HartKind::Application(hart)]);
    }

    /// The slot of hart `id`.
    pub fn get_hart(&self, id: usize) -> (r: &HartKind<H>)
        requires
            id < self.slots().len(),
        ensures
            *r == self.slots()[id as int],
    {
        &self.harts[id]
    }

    /// The ids of the application harts, in increasing order.
    pub fn application_ids(&self) -> (r: Vec<usize>)
        ensures
            forall|k: int| 0 <= k < r.len() ==> r@[k] < self.slots().len()
                && #[trigger] self.slots()[r@[k] as int] is Application,
            forall|i: int| 0 <= i < self.slots().len() && #[trigger] self.slots()[i] is Application
                ==> r@.contains(i as usize),
            forall|a: int, b: int| 0 <= a < b < r.len() ==> r@[a] < r@[b],
    {
        let mut ids: Vec<usize> = Vec::new();
        let mut i: usize = 0;
        while i < self.harts.len()
            invariant
                i <= self.harts.len(),
                forall|k: int| 0 <= k < ids.len() ==> ids@[k] < i
                    && #[trigger] self.harts@[ids@[k] as int] is Application,
                forall|j: int| 0 <= j < i && #[trigger] self.harts@[j] is Application
                    ==> ids@.contains(j as usize),
                forall|a: int, b: int| 0 <= a < b < ids.len() ==> ids@[a] < ids@[b],
            decreases self.harts.len() - i,
        {
            if let HartKind::Application(_) = &self.harts[i] {
                let ghost prev = ids@;
                ids.push(i);
                assert forall|a: int, b: int| 0 <= a < b < ids.len() implies ids@[a] < ids@[b] by {
                    if b == ids.len() - 1 {
                        assert(ids@[a] == prev[a]);
                        assert(self.harts@[prev[a] as int] is Application);
                    } else {
                        assert(ids@[a] == prev[a] && ids@[b] == prev[b]);
                    }
                }
                assert forall|j: int| 0 <= j < i + 1 && #[trigger] self.harts@[j] is Application
                    implies ids@.contains(j as usize) by {
                    if j == i {
                        assert(ids@[ids.len() - 1] == j as usize);
                    } else {
                        assert(prev.contains(j as usize));
                        let k = choose|k: int| 0 <= k < prev.len() && prev[k] == j as usize;
                        assert(ids@[k] == j as usize);
                    }
                }
            }
            i = i + 1;
        }
        ids
    }
}

/// The start calls for the application harts among `slots` that `answers` (the
/// answers to their state queries, slot by slot) report stopped, in slot order.
pub open spec fn start_list<S, R>(slots: Seq<HartKind<ApplicationHart<S, R>>>, answers: Seq<SbiResult>,
    awaken: usize, entry: usize) -> Seq<SbiCall>
    decreases slots.len(),
{
    if slots.len() == 0 {
        Seq::empty()
    } else {
        let rest = start_list(slots.drop_last(), answers, awaken, entry);
        match slots.last() {
            HartKind::Application(h) => if status_of(answers[slots.len() - 1]) == Some(HartStatus::Stopped) {
                rest.push(call_of(0x48534D, 0, h.hart_id(), awaken, entry, false))
            } else {
                rest
            },
            HartKind::Disabled => rest,
        }
    }
}

/// Brings up the stopped harts: given the answers to the state queries of the harts
/// of `table` (`answers[i]` for slot `i`; disabled slots are not asked), the calls
/// that start every application hart that is stopped, at `awaken` with `entry`.
pub fn start_all<S, R>(table: &HartTable<ApplicationHart<S, R>>, answers: &Vec<SbiResult>, awaken: usize, entry: usize)
    -> (r: Vec<SbiCall>)
    requires
        answers.len() == table.slots().len(),
    ensures
        r@ == start_list(table.slots(), answers@, awaken, entry),
{
    let mut calls: Vec<SbiCall> = Vec::new();
    let mut i: usize = 0;
    while i < table.harts.len()
        invariant
            i <= table.harts.len(),
            answers.len() == table.harts.len(),
            calls@ == start_list(table.harts@.subrange(0, i as int), answers@, awaken, entry),
        decreases table.harts.len() - i,
    {
        proof {
            assert(table.harts@.subrange(0, i + 1).drop_last() =~= table.harts@.subrange(0, i as int));
        }
        if let HartKind::Application(hart) = &table.harts[i] {
            if let Some(HartStatus::Stopped) = hart.get_status(answers[i]) {
                calls.push(hart.start(awaken, entry));
            }
        }
        i = i + 1;
    }
    assert(table.harts@.subrange(0, table.harts.len() as int) =~= table.harts@);
    calls
}

} // verus!
