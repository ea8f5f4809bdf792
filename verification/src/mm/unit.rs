//! The memory unit: a root page table and the frame it lives in, and the mapping of
//! virtual page ranges onto physical ones with the largest pages that fit.
use vstd::prelude::*;
use vstd::arithmetic::power2::{pow2, lemma_pow2_adds, lemma_pow2_pos, lemma_pow2_subtracts, lemma2_to64};
use vstd::arithmetic::div_mod::{lemma_mod_breakdown, lemma_fundamental_div_mod, lemma_fundamental_div_mod_converse, lemma_small_mod};
use vstd::bits::{lemma_usize_shl_is_mul, lemma_usize_pow2_no_overflow, lemma_usize_shr_is_div, lemma_usize_low_bits_mask_is_mod, low_bits_mask};
use crate::mm::frame::{FramePool, FrameTracker, frames_below};
use crate::mm::page::{PageTable, PageEntryWriteError, PageEntryFlag, flag_bits, leaf_flags, ordered_within, covers};

verus! {

/// Why a mapping failed.
#[derive(Debug, Clone, Copy, PartialEq, Eq, Structural)]
pub enum MemoryUnitError {
    EntryNotFound,
    /// No frame could be had for a table.
    RanOutOfFrames,
    /// A page of the range is mapped already, or its entry is in use.
    EntryOverwrite,
    BufferOverflow,
}

/// An address space: the root table and the frame it lives in.
pub struct MemoryUnit<const WIDE: bool, const LENGTH: usize, const DEPTH: usize, const SIZE: usize> {
    root: PageTable<WIDE, LENGTH, DEPTH, SIZE>,
    root_frame: FrameTracker,
}

/// `x % m` moves up by `b` when `b` more fits below `m`.
proof fn lemma_mod_shift(a: nat, b: nat, m: nat)
    requires
        m > 0,
        a % m + b < m,
    ensures
        (a + b) % m == a % m + b,
{
    lemma_fundamental_div_mod(a as int, m as int);
    assert((a / m) * m == m * (a / m)) by (nonlinear_arith);
    lemma_fundamental_div_mod_converse((a + b) as int, m as int, (a / m) as int, (a % m + b) as int);
}

/// A place `w = i * s + r` within blocks of `s` lies in blocks `a` up to `a + k`
/// exactly when `i` does.
proof fn lemma_in_block(w: int, s: int, i: int, r: int, a: int, k: int)
    requires
        s > 0,
        0 <= r < s,
        w == i * s + r,
    ensures
        (a * s <= w && w < (a + k) * s) <==> (a <= i && i < a + k),
        (a + k) * s == a * s + k * s,
        (a + 1) * s == a * s + s,
{
    assert((a + k) * s == a * s + k * s) by (nonlinear_arith);
    assert((a + 1) * s == a * s + s) by (nonlinear_arith);
    if a <= i {
        assert(a * s <= i * s) by (nonlinear_arith) requires a <= i, s > 0;
    } else {
        assert(i * s + s <= a * s) by (nonlinear_arith) requires i < a, s > 0;
    }
    if i < a + k {
        assert(i * s + s <= (a + k) * s) by (nonlinear_arith) requires i < a + k, s > 0;
    } else {
        assert((a + k) * s <= i * s) by (nonlinear_arith) requires a + k <= i, s > 0;
    }
}

impl<const WIDE: bool, const LENGTH: usize, const DEPTH: usize, const SIZE: usize>
    MemoryUnit<WIDE, LENGTH, DEPTH, SIZE> {
    /// The range of `count` pages from `vpn`, seen within one level-`level` table,
    /// holds page `v`.
    pub open spec fn covers(vpn: nat, count: nat, level: nat, v: nat) -> bool {
        let whole = PageTable::<WIDE, LENGTH, DEPTH, SIZE>::span(level + 1);
        vpn % whole <= v % whole < vpn % whole + count
    }

    /// The level-`level` table `t` maps each page of the range onto the page at the
    /// same distance from `ppn`, with `flags`.
    pub open spec fn maps_range(t: PageTable<WIDE, LENGTH, DEPTH, SIZE>, level: nat, vpn: nat, ppn: nat, count: nat, flags: u64) -> bool {
        let whole = PageTable::<WIDE, LENGTH, DEPTH, SIZE>::span(level + 1);
        forall|v: nat| Self::covers(vpn, count, level, v) ==>
            #[trigger] t.translate(level, v) == Some(((ppn + v % whole - vpn % whole) as nat, flags))
    }

    /// Outside the range, the level-`level` table `new` translates as `old` does.
    pub open spec fn keeps_outside(old: PageTable<WIDE, LENGTH, DEPTH, SIZE>, new: PageTable<WIDE, LENGTH, DEPTH, SIZE>, level: nat, vpn: nat, count: nat) -> bool {
        forall|v: nat| !Self::covers(vpn, count, level, v) ==>
            #[trigger] new.translate(level, v) == old.translate(level, v)
    }

    /// What mapping the range needs of the level-`level` table `t`: the range lies in
    /// the table's block, the page numbers stay in bounds and the flags map a page.
    pub open spec fn map_pre(t: PageTable<WIDE, LENGTH, DEPTH, SIZE>, vpn: nat, ppn: nat, count: nat, flags: u64, level: nat) -> bool {
        let whole = PageTable::<WIDE, LENGTH, DEPTH, SIZE>::span(level + 1);
        &&& PageTable::<WIDE, LENGTH, DEPTH, SIZE>::format_ok()
        &&& level < DEPTH
        &&& t.wf(level)
        &&& t.aligned(level)
        &&& vpn % whole + count <= whole
        &&& vpn + count <= usize::MAX
        &&& ppn + count <= usize::MAX
        &&& ppn + count <= PageTable::<WIDE, LENGTH, DEPTH, SIZE>::ppn_bound()
        &&& leaf_flags(flags)
    }

    /// Entry `j` of a level-`level` table is neither the entry of `vpn` nor one that
    /// a page of the range goes through.
    pub open spec fn untouched(vpn: nat, count: nat, level: nat, j: nat) -> bool {
        &&& j != PageTable::<WIDE, LENGTH, DEPTH, SIZE>::index_at(vpn, level)
        &&& forall|w: nat| #[trigger] Self::covers(vpn, count, level, w) ==>
            PageTable::<WIDE, LENGTH, DEPTH, SIZE>::index_at(w, level) != j
    }

    /// Every entry of the level-`level` table `t` that the range goes through is
    /// free.
    pub open spec fn vacant_range(t: PageTable<WIDE, LENGTH, DEPTH, SIZE>, level: nat, vpn: nat, count: nat) -> bool {
        forall|v: nat| #[trigger] Self::covers(vpn, count, level, v) ==>
            t.is_vacant(PageTable::<WIDE, LENGTH, DEPTH, SIZE>::index_at(v, level))
    }

    /// Mapping the range onto the pages from `ppn` would put page `v` in a large page
    /// of level `k`: the level-`k` block of `v` lies in the range, and the page its
    /// first page goes onto is aligned to the block.
    pub open spec fn large_slot(vpn: nat, ppn: nat, count: nat, k: nat, v: nat) -> bool {
        let s = PageTable::<WIDE, LENGTH, DEPTH, SIZE>::span(k);
        &&& k > 0
        &&& (ppn as int - vpn as int) % (s as int) == 0
        &&& vpn <= (v / s) * s
        &&& (v / s) * s + s <= vpn + count
    }

    /// Among the entries page `v` goes through from the level-`k` table `t` down, the
    /// one where mapping the range would make a large page holding `v` is free.
    pub open spec fn slots_free(t: PageTable<WIDE, LENGTH, DEPTH, SIZE>, k: nat, v: nat, vpn: nat, ppn: nat, count: nat) -> bool
        decreases k,
    {
        let i = PageTable::<WIDE, LENGTH, DEPTH, SIZE>::index_at(v, k);
        if Self::large_slot(vpn, ppn, count, k, v) {
            t.is_vacant(i)
        } else if k > 0 && !t.is_vacant(i) {
            match t.table_at(i) {
                Some(c) => Self::slots_free(c, (k - 1) as nat, v, vpn, ppn, count),
                None => true,
            }
        } else {
            true
        }
    }

    /// From the level-`k` table `t` down, the entries page `v` goes through leave
    /// room for mapping it: the entry that would hold `v` in a large page is free, and
    /// above it each entry in use leads to a next-level table.
    pub open spec fn path_clear(t: PageTable<WIDE, LENGTH, DEPTH, SIZE>, k: nat, v: nat, vpn: nat, ppn: nat, count: nat) -> bool
        decreases k,
    {
        let i = PageTable::<WIDE, LENGTH, DEPTH, SIZE>::index_at(v, k);
        if Self::large_slot(vpn, ppn, count, k, v) {
            t.is_vacant(i)
        } else if t.is_vacant(i) {
            true
        } else if k == 0 || t.entry_at(i).spec_leaf() {
            false
        } else {
            match t.table_at(i) {
                Some(c) => Self::path_clear(c, (k - 1) as nat, v, vpn, ppn, count),
                None => false,
            }
        }
    }

    /// Every page of the range `[vpn, vpn + count)` has a clear path in `t`.
    pub open spec fn clear_range(t: PageTable<WIDE, LENGTH, DEPTH, SIZE>, level: nat, vpn: nat, ppn: nat, count: nat) -> bool {
        forall|v: nat| vpn <= v < vpn + count ==> #[trigger] Self::path_clear(t, level, v, vpn, ppn, count)
    }

    /// A page that goes nowhere and whose large-page entry is free has a clear path.
    proof fn lemma_path_clear(t: PageTable<WIDE, LENGTH, DEPTH, SIZE>, k: nat, v: nat, vpn: nat, ppn: nat, count: nat)
        requires
            t.wf(k),
            t.translate(k, v) is None,
            Self::slots_free(t, k, v, vpn, ppn, count),
        ensures
            Self::path_clear(t, k, v, vpn, ppn, count),
        decreases k,
    {
        let i = PageTable::<WIDE, LENGTH, DEPTH, SIZE>::index_at(v, k);
        if !Self::large_slot(vpn, ppn, count, k, v) && !t.is_vacant(i) {
            t.lemma_untranslated_entry(k, v);
            let c = t.table_at(i)->0;
            Self::lemma_path_clear(c, (k - 1) as nat, v, vpn, ppn, count);
        }
    }

    /// Every path through an empty table is clear.
    proof fn lemma_path_clear_empty(t: PageTable<WIDE, LENGTH, DEPTH, SIZE>, k: nat, v: nat, vpn: nat, ppn: nat, count: nat)
        requires
            PageTable::<WIDE, LENGTH, DEPTH, SIZE>::format_ok(),
            t.is_empty(),
        ensures
            Self::path_clear(t, k, v, vpn, ppn, count),
    {
        t.lemma_empty(k);
        Self::lemma_split(v, k);
        assert(t.is_vacant(PageTable::<WIDE, LENGTH, DEPTH, SIZE>::index_at(v, k)));
    }

    /// Two ranges that would make the same large pages for `v` at every level up to
    /// `k` give `v` the same clear path.
    proof fn lemma_path_clear_same(t: PageTable<WIDE, LENGTH, DEPTH, SIZE>, k: nat, v: nat,
        vpn: nat, ppn: nat, count: nat, vpn2: nat, ppn2: nat, count2: nat)
        requires
            forall|j: nat| j <= k ==> #[trigger] Self::large_slot(vpn, ppn, count, j, v)
                == Self::large_slot(vpn2, ppn2, count2, j, v),
        ensures
            Self::path_clear(t, k, v, vpn, ppn, count) == Self::path_clear(t, k, v, vpn2, ppn2, count2),
        decreases k,
    {
        assert(Self::large_slot(vpn, ppn, count, k, v) == Self::large_slot(vpn2, ppn2, count2, k, v));
        if k > 0 {
            match t.table_at(PageTable::<WIDE, LENGTH, DEPTH, SIZE>::index_at(v, k)) {
                Some(c) => Self::lemma_path_clear_same(c, (k - 1) as nat, v, vpn, ppn, count, vpn2, ppn2, count2),
                None => {},
            }
        }
    }

    /// A level-`k` span is a whole number of level-`j` spans, for `j <= k`.
    proof fn lemma_span_multiple(j: nat, k: nat) -> (m: nat)
        requires
            PageTable::<WIDE, LENGTH, DEPTH, SIZE>::format_ok(),
            j <= k,
        ensures
            PageTable::<WIDE, LENGTH, DEPTH, SIZE>::span(k) == PageTable::<WIDE, LENGTH, DEPTH, SIZE>::span(j) * m,
            m >= 1,
        decreases k - j,
    {
        Self::lemma_span(j);
        if j == k {
            assert(PageTable::<WIDE, LENGTH, DEPTH, SIZE>::span(k) == PageTable::<WIDE, LENGTH, DEPTH, SIZE>::span(j) * 1);
            1
        } else {
            let m0 = Self::lemma_span_multiple(j, (k - 1) as nat);
            Self::lemma_span((k - 1) as nat);
            let e = PageTable::<WIDE, LENGTH, DEPTH, SIZE>::ec();
            assert(((k - 1) as nat) + 1 == k);
            assert(PageTable::<WIDE, LENGTH, DEPTH, SIZE>::span(j) * m0 * e == PageTable::<WIDE, LENGTH, DEPTH, SIZE>::span(j) * (m0 * e)) by (nonlinear_arith);
            assert(m0 * e >= 1) by (nonlinear_arith) requires m0 >= 1, e >= 1;
            m0 * e
        }
    }

    /// The level-`j` block of `v` lies within its level-`k` block, for `j <= k`.
    proof fn lemma_nested_blocks(v: nat, j: nat, k: nat)
        requires
            PageTable::<WIDE, LENGTH, DEPTH, SIZE>::format_ok(),
            j <= k,
        ensures
            ({
                let sj = PageTable::<WIDE, LENGTH, DEPTH, SIZE>::span(j);
                let sk = PageTable::<WIDE, LENGTH, DEPTH, SIZE>::span(k);
                &&& (v / sk) * sk <= (v / sj) * sj
                &&& (v / sj) * sj + sj <= (v / sk) * sk + sk
                &&& (v / sj) * sj <= v < (v / sj) * sj + sj
            }),
    {
        let sj = PageTable::<WIDE, LENGTH, DEPTH, SIZE>::span(j);
        let sk = PageTable::<WIDE, LENGTH, DEPTH, SIZE>::span(k);
        let m = Self::lemma_span_multiple(j, k);
        Self::lemma_span(j);
        Self::lemma_span(k);
        let a = v / sj;
        let c = v / sk;
        lemma_fundamental_div_mod(v as int, sj as int);
        lemma_fundamental_div_mod(v as int, sk as int);
        assert(sj * a <= v < sj * a + sj);
        assert(sk * c <= v < sk * c + sk);
        assert(c * m <= a) by (nonlinear_arith)
            requires sk == sj * m, sj * a <= v, v < sk * c + sk, sk * c <= v, v < sj * a + sj, sj > 0;
        assert(a + 1 <= c * m + m) by (nonlinear_arith)
            requires sk == sj * m, sj * a <= v, v < sk * c + sk, sj > 0;
        assert(c * sk <= a * sj) by (nonlinear_arith) requires c * m <= a, sk == sj * m, sj > 0;
        assert(a * sj + sj <= c * sk + sk) by (nonlinear_arith) requires a + 1 <= c * m + m, sk == sj * m, sj > 0;
    }

    /// Where page `v` lies in its block of `s` pages.
    proof fn lemma_block_start(v: nat, s: nat)
        requires
            s > 0,
        ensures
            (v / s) * s + v % s == v,
            v % s < s,
    {
        lemma_fundamental_div_mod(v as int, s as int);
        assert(s * (v / s) == (v / s) * s) by (nonlinear_arith);
    }

    /// A page of the range lies in the range's place within the table's block.
    proof fn lemma_in_range(vpn: nat, count: nat, level: nat, v: nat)
        requires
            PageTable::<WIDE, LENGTH, DEPTH, SIZE>::format_ok(),
            vpn % PageTable::<WIDE, LENGTH, DEPTH, SIZE>::span(level + 1) + count <= PageTable::<WIDE, LENGTH, DEPTH, SIZE>::span(level + 1),
            vpn <= v < vpn + count,
        ensures
            v % PageTable::<WIDE, LENGTH, DEPTH, SIZE>::span(level + 1) == vpn % PageTable::<WIDE, LENGTH, DEPTH, SIZE>::span(level + 1) + (v - vpn),
            Self::covers(vpn, count, level, v),
    {
        Self::lemma_span(level);
        Self::lemma_span(level + 1);
        lemma_mod_shift(vpn, (v - vpn) as nat, PageTable::<WIDE, LENGTH, DEPTH, SIZE>::span(level + 1));
    }

    /// Moving the start of the range up to `vpn + d`, a multiple of the span of a
    /// level-`l` entry, and the target with it, makes the same large pages for the
    /// pages at or past the new start, up to level `l`.
    proof fn lemma_shift_slots(vpn: nat, ppn: nat, count: nat, d: nat, l: nat, v: nat)
        requires
            PageTable::<WIDE, LENGTH, DEPTH, SIZE>::format_ok(),
            (vpn + d) % PageTable::<WIDE, LENGTH, DEPTH, SIZE>::span(l) == 0,
            d <= count,
            vpn + d <= v,
        ensures
            forall|j: nat| j <= l ==> #[trigger] Self::large_slot(vpn, ppn, count, j, v)
                == Self::large_slot(vpn + d, ppn + d, (count - d) as nat, j, v),
    {
        let sl = PageTable::<WIDE, LENGTH, DEPTH, SIZE>::span(l);
        Self::lemma_span(l);
        Self::lemma_block_start(v, sl);
        Self::lemma_block_start((vpn + d) as nat, sl);
        let q = (vpn + d) / sl;
        assert(q <= v / sl) by (nonlinear_arith)
            requires q * sl == vpn + d, vpn + d <= v, (v / sl) * sl + v % sl == v, v % sl < sl, sl > 0;
        assert(q * sl <= (v / sl) * sl) by (nonlinear_arith) requires q <= v / sl, sl > 0;
        assert forall|j: nat| j <= l implies #[trigger] Self::large_slot(vpn, ppn, count, j, v)
            == Self::large_slot(vpn + d, ppn + d, (count - d) as nat, j, v) by {
            Self::lemma_nested_blocks(v, j, l);
            assert((ppn + d) as int - (vpn + d) as int == ppn as int - vpn as int);
        }
    }

    /// Cutting the range down to the pages up to the end of the level-`l` entry it
    /// starts in makes the same large pages below level `l` for the pages of that
    /// entry.
    proof fn lemma_trim_slots(vpn: nat, ppn: nat, count: nat, rem: nat, l: nat, v: nat)
        requires
            PageTable::<WIDE, LENGTH, DEPTH, SIZE>::format_ok(),
            l > 0,
            vpn + rem == (vpn / PageTable::<WIDE, LENGTH, DEPTH, SIZE>::span(l)) * PageTable::<WIDE, LENGTH, DEPTH, SIZE>::span(l) + PageTable::<WIDE, LENGTH, DEPTH, SIZE>::span(l),
            rem <= count,
            vpn <= v < vpn + rem,
        ensures
            forall|j: nat| j < l ==> #[trigger] Self::large_slot(vpn, ppn, count, j, v)
                == Self::large_slot(vpn, ppn, rem, j, v),
    {
        let sl = PageTable::<WIDE, LENGTH, DEPTH, SIZE>::span(l);
        Self::lemma_span(l);
        Self::lemma_block_start(v, sl);
        Self::lemma_block_start(vpn, sl);
        let q = vpn / sl;
        assert(v / sl == q) by {
            lemma_fundamental_div_mod_converse(v as int, sl as int, q as int, (vpn % sl + (v - vpn)) as int);
        }
        assert forall|j: nat| j < l implies #[trigger] Self::large_slot(vpn, ppn, count, j, v)
            == Self::large_slot(vpn, ppn, rem, j, v) by {
            Self::lemma_nested_blocks(v, j, l);
        }
    }

    /// Tables that agree on the entry page `v` goes through at level `k`, and on the
    /// table under it, give `v` the same clear path.
    proof fn lemma_path_clear_frame(a: PageTable<WIDE, LENGTH, DEPTH, SIZE>, b: PageTable<WIDE, LENGTH, DEPTH, SIZE>,
        k: nat, v: nat, vpn: nat, ppn: nat, count: nat)
        requires
            a.entry_at(PageTable::<WIDE, LENGTH, DEPTH, SIZE>::index_at(v, k)) == b.entry_at(PageTable::<WIDE, LENGTH, DEPTH, SIZE>::index_at(v, k)),
            a.table_at(PageTable::<WIDE, LENGTH, DEPTH, SIZE>::index_at(v, k)) == b.table_at(PageTable::<WIDE, LENGTH, DEPTH, SIZE>::index_at(v, k)),
        ensures
            Self::path_clear(a, k, v, vpn, ppn, count) == Self::path_clear(b, k, v, vpn, ppn, count),
    {
    }

    /// Where the range starts on an entry boundary with both page numbers aligned to
    /// it, an entry wholly in the range is a large-page slot, so a clear path through
    /// it finds it free.
    proof fn lemma_aligned_slot(t: PageTable<WIDE, LENGTH, DEPTH, SIZE>, l: nat, vpn: nat, ppn: nat, count: nat, round: nat)
        requires
            PageTable::<WIDE, LENGTH, DEPTH, SIZE>::format_ok(),
            l > 0,
            vpn % PageTable::<WIDE, LENGTH, DEPTH, SIZE>::span(l) == 0,
            ppn % PageTable::<WIDE, LENGTH, DEPTH, SIZE>::span(l) == 0,
            round * PageTable::<WIDE, LENGTH, DEPTH, SIZE>::span(l) + PageTable::<WIDE, LENGTH, DEPTH, SIZE>::span(l) <= count,
            Self::path_clear(t, l, vpn + round * PageTable::<WIDE, LENGTH, DEPTH, SIZE>::span(l), vpn, ppn, count),
        ensures
            t.is_vacant(PageTable::<WIDE, LENGTH, DEPTH, SIZE>::index_at(vpn + round * PageTable::<WIDE, LENGTH, DEPTH, SIZE>::span(l), l)),
    {
        let s = PageTable::<WIDE, LENGTH, DEPTH, SIZE>::span(l);
        Self::lemma_span(l);
        let v0 = (vpn + round * s) as nat;
        Self::lemma_block_start(vpn, s);
        Self::lemma_block_start(ppn, s);
        assert((vpn / s + round) * s == (vpn / s) * s + round * s) by (nonlinear_arith);
        lemma_fundamental_div_mod_converse(v0 as int, s as int, (vpn / s + round) as int, 0);
        assert(v0 / s == vpn / s + round);
        assert((v0 / s) * s == v0) by (nonlinear_arith)
            requires v0 / s == vpn / s + round, (vpn / s + round) * s == (vpn / s) * s + round * s,
                (vpn / s) * s + vpn % s == vpn, vpn % s == 0, v0 == vpn + round * s;
        let dq = ppn as int / s as int - vpn as int / s as int;
        assert(ppn as int - vpn as int == dq * s) by (nonlinear_arith)
            requires (vpn / s) * s + vpn % s == vpn, (ppn / s) * s + ppn % s == ppn, vpn % s == 0, ppn % s == 0,
                dq == ppn as int / s as int - vpn as int / s as int;
        vstd::arithmetic::div_mod::lemma_mod_multiples_basic(dq, s as int);
        assert(Self::large_slot(vpn, ppn, count, l, v0));
    }

    /// The first entry of a range that cannot start with a large page: a clear range
    /// finds it free or leading to a next-level table, and the table that ends up
    /// under it (new and empty, or the one already there) is clear for the range's
    /// pages within the entry.
    proof fn lemma_unaligned_child(t: PageTable<WIDE, LENGTH, DEPTH, SIZE>, child: PageTable<WIDE, LENGTH, DEPTH, SIZE>,
        l: nat, vpn: nat, ppn: nat, count: nat, start: nat)
        requires
            PageTable::<WIDE, LENGTH, DEPTH, SIZE>::format_ok(),
            l > 0,
            count > 0,
            vpn % PageTable::<WIDE, LENGTH, DEPTH, SIZE>::span(l + 1) + count <= PageTable::<WIDE, LENGTH, DEPTH, SIZE>::span(l + 1),
            start == PageTable::<WIDE, LENGTH, DEPTH, SIZE>::index_at(vpn, l),
            vpn % PageTable::<WIDE, LENGTH, DEPTH, SIZE>::span(l) + count >= PageTable::<WIDE, LENGTH, DEPTH, SIZE>::span(l),
            !(vpn % PageTable::<WIDE, LENGTH, DEPTH, SIZE>::span(l) == 0 && ppn % PageTable::<WIDE, LENGTH, DEPTH, SIZE>::span(l) == 0),
            Self::clear_range(t, l, vpn, ppn, count),
            t.is_vacant(start) ==> child.is_empty(),
            !t.is_vacant(start) ==> t.table_at(start) == Some(child),
        ensures
            Self::clear_range(child, (l - 1) as nat, vpn, ppn, (PageTable::<WIDE, LENGTH, DEPTH, SIZE>::span(l) - vpn % PageTable::<WIDE, LENGTH, DEPTH, SIZE>::span(l)) as nat),
    {
        let s = PageTable::<WIDE, LENGTH, DEPTH, SIZE>::span(l);
        let whole = PageTable::<WIDE, LENGTH, DEPTH, SIZE>::span(l + 1);
        let rem = (s - vpn % s) as nat;
        Self::lemma_span(l);
        Self::lemma_split(vpn, l);
        Self::lemma_block_start(vpn, s);
        assert forall|v: nat| vpn <= v < vpn + rem implies
            #[trigger] Self::path_clear(child, (l - 1) as nat, v, vpn, ppn, rem) by {
            if t.is_vacant(start) {
                Self::lemma_path_clear_empty(child, (l - 1) as nat, v, vpn, ppn, rem);
            } else {
                Self::lemma_in_range(vpn, count, l, v);
                Self::lemma_split(v, l);
                let i = PageTable::<WIDE, LENGTH, DEPTH, SIZE>::index_at(v, l);
                lemma_in_block((v % whole) as int, s as int, i as int, (v % s) as int, start as int, 1);
                assert((vpn / s) * s + (vpn % s + (v - vpn)) == v);
                lemma_fundamental_div_mod_converse(v as int, s as int, (vpn / s) as int, (vpn % s + (v - vpn)) as int);
                if vpn % s == 0 {
                    Self::lemma_block_start(ppn, s);
                    vstd::arithmetic::div_mod::lemma_mod_multiples_vanish(-((vpn / s) as int), ppn as int, s as int);
                    assert(ppn as int - vpn as int == -((vpn / s) as int) * s + ppn as int) by (nonlinear_arith)
                        requires (vpn / s) * s + vpn % s == vpn, vpn % s == 0;
                }
                assert(!Self::large_slot(vpn, ppn, count, l, v));
                assert(Self::path_clear(t, l, v, vpn, ppn, count));
                assert(Self::path_clear(child, (l - 1) as nat, v, vpn, ppn, count));
                Self::lemma_trim_slots(vpn, ppn, count, rem, l, v);
                Self::lemma_path_clear_same(child, (l - 1) as nat, v, vpn, ppn, count, vpn, ppn, rem);
            }
        }
    }

    /// Past the first entry of such a range, a table that kept every other entry and
    /// the table under it is clear for the rest of the range, which starts on the next
    /// entry with the target moved along.
    proof fn lemma_unaligned_rest(t: PageTable<WIDE, LENGTH, DEPTH, SIZE>, after: PageTable<WIDE, LENGTH, DEPTH, SIZE>,
        l: nat, vpn: nat, ppn: nat, count: nat, start: nat)
        requires
            PageTable::<WIDE, LENGTH, DEPTH, SIZE>::format_ok(),
            l > 0,
            vpn % PageTable::<WIDE, LENGTH, DEPTH, SIZE>::span(l + 1) + count <= PageTable::<WIDE, LENGTH, DEPTH, SIZE>::span(l + 1),
            start == PageTable::<WIDE, LENGTH, DEPTH, SIZE>::index_at(vpn, l),
            vpn % PageTable::<WIDE, LENGTH, DEPTH, SIZE>::span(l) + count > PageTable::<WIDE, LENGTH, DEPTH, SIZE>::span(l),
            Self::clear_range(t, l, vpn, ppn, count),
            forall|i: nat| i < PageTable::<WIDE, LENGTH, DEPTH, SIZE>::ec() && i != start ==>
                #[trigger] after.entry_at(i) == t.entry_at(i) && after.table_at(i) == t.table_at(i),
        ensures
            ({
                let rem = (PageTable::<WIDE, LENGTH, DEPTH, SIZE>::span(l) - vpn % PageTable::<WIDE, LENGTH, DEPTH, SIZE>::span(l)) as nat;
                Self::clear_range(after, l, vpn + rem, ppn + rem, (count - rem) as nat)
            }),
    {
        let s = PageTable::<WIDE, LENGTH, DEPTH, SIZE>::span(l);
        let whole = PageTable::<WIDE, LENGTH, DEPTH, SIZE>::span(l + 1);
        let rem = (s - vpn % s) as nat;
        Self::lemma_span(l);
        Self::lemma_split(vpn, l);
        Self::lemma_block_start(vpn, s);
        assert((vpn / s + 1) * s == (vpn / s) * s + s) by (nonlinear_arith);
        lemma_fundamental_div_mod_converse((vpn + rem) as int, s as int, (vpn / s + 1) as int, 0);
        assert forall|v: nat| vpn + rem <= v < vpn + rem + (count - rem) implies
            #[trigger] Self::path_clear(after, l, v, vpn + rem, ppn + rem, (count - rem) as nat) by {
            Self::lemma_in_range(vpn, count, l, v);
            Self::lemma_split(v, l);
            let i = PageTable::<WIDE, LENGTH, DEPTH, SIZE>::index_at(v, l);
            lemma_in_block((v % whole) as int, s as int, i as int, (v % s) as int, start as int, 1);
            assert(i != start);
            assert(i < PageTable::<WIDE, LENGTH, DEPTH, SIZE>::ec());
            assert(after.entry_at(i) == t.entry_at(i));
            assert(after.table_at(i) == t.table_at(i));
            assert(Self::path_clear(t, l, v, vpn, ppn, count));
            Self::lemma_path_clear_frame(after, t, l, v, vpn, ppn, count);
            Self::lemma_shift_slots(vpn, ppn, count, rem, l, v);
            Self::lemma_path_clear_same(after, l, v, vpn, ppn, count, vpn + rem, ppn + rem, (count - rem) as nat);
        }
    }

    /// One entry of a level `level + 1` table covers as many pages as a whole
    /// level-`level` table.
    proof fn lemma_span(level: nat)
        requires
            PageTable::<WIDE, LENGTH, DEPTH, SIZE>::format_ok(),
        ensures
            PageTable::<WIDE, LENGTH, DEPTH, SIZE>::span(level + 1)
                == PageTable::<WIDE, LENGTH, DEPTH, SIZE>::span(level) * PageTable::<WIDE, LENGTH, DEPTH, SIZE>::ec(),
            PageTable::<WIDE, LENGTH, DEPTH, SIZE>::span(level) > 0,
            PageTable::<WIDE, LENGTH, DEPTH, SIZE>::span(0) == 1,
            PageTable::<WIDE, LENGTH, DEPTH, SIZE>::span(1) == PageTable::<WIDE, LENGTH, DEPTH, SIZE>::ec(),
    {
        lemma2_to64();
        lemma_pow2_pos(level * SIZE as nat);
        if WIDE {
            assert((level + 1) * 9 == level * 9 + 9);
            lemma_pow2_adds(level * 9, 9);
        } else {
            assert((level + 1) * 10 == level * 10 + 10);
            lemma_pow2_adds(level * 10, 10);
        }
        assert(0 * SIZE as nat == 0);
        assert(1 * SIZE as nat == SIZE as nat);
    }

    /// A page's place within a level `level + 1` block: the entry it goes through and
    /// its place within that entry.
    proof fn lemma_split(v: nat, level: nat)
        requires
            PageTable::<WIDE, LENGTH, DEPTH, SIZE>::format_ok(),
        ensures
            ({
                let s = PageTable::<WIDE, LENGTH, DEPTH, SIZE>::span(level);
                let whole = PageTable::<WIDE, LENGTH, DEPTH, SIZE>::span(level + 1);
                let i = PageTable::<WIDE, LENGTH, DEPTH, SIZE>::index_at(v, level);
                &&& v % whole == i * s + v % s
                &&& i < PageTable::<WIDE, LENGTH, DEPTH, SIZE>::ec()
                &&& v % s < s
                &&& v % whole < whole
                &&& (v % whole) % s == v % s
                &&& (v % whole) / s == i
            }),
    {
        let s = PageTable::<WIDE, LENGTH, DEPTH, SIZE>::span(level);
        let e = PageTable::<WIDE, LENGTH, DEPTH, SIZE>::ec();
        Self::lemma_span(level);
        lemma_mod_breakdown(v as int, s as int, e as int);
        let i = PageTable::<WIDE, LENGTH, DEPTH, SIZE>::index_at(v, level);
        let r = v % s;
        assert(v % (s * e) == s * i + r);
        assert(s * i == i * s) by (nonlinear_arith);
        lemma_fundamental_div_mod_converse((v % (s * e)) as int, s as int, i as int, r as int);
    }

    /// The number of pages one entry of a level-`level` table covers.
    fn span_of(level: usize) -> (r: usize)
        requires
            PageTable::<WIDE, LENGTH, DEPTH, SIZE>::format_ok(),
            level <= DEPTH,
        ensures
            r == PageTable::<WIDE, LENGTH, DEPTH, SIZE>::span(level as nat),
            r > 0,
    {
        proof {
            if WIDE {
                assert(level * 9 <= DEPTH * 9) by (nonlinear_arith) requires level <= DEPTH;
            } else {
                assert(level * 10 <= DEPTH * 10) by (nonlinear_arith) requires level <= DEPTH;
            }
        }
        let shift = level * SIZE;
        proof {
            lemma_usize_pow2_no_overflow(shift as nat);
            lemma_usize_shl_is_mul(1, shift);
            lemma_pow2_pos(shift as nat);
        }
        1usize << shift
    }

    /// The entry of a level-`level` table that page `vpn` goes through.
    fn index_of_vpn(vpn: usize, level: usize) -> (r: usize)
        requires
            PageTable::<WIDE, LENGTH, DEPTH, SIZE>::format_ok(),
            level < DEPTH,
        ensures
            r == PageTable::<WIDE, LENGTH, DEPTH, SIZE>::index_at(vpn as nat, level as nat),
    {
        proof {
            if WIDE {
                assert(level * 9 + 9 <= DEPTH * 9) by (nonlinear_arith) requires level < DEPTH;
            } else {
                assert(level * 10 + 10 <= DEPTH * 10) by (nonlinear_arith) requires level < DEPTH;
            }
        }
        let shift = level * SIZE;
        let width = SIZE;
        proof {
            lemma_usize_shr_is_div(vpn, shift);
            lemma_usize_pow2_no_overflow(width as nat);
            lemma_usize_shl_is_mul(1, width);
            lemma_usize_low_bits_mask_is_mod(vpn >> shift, width as nat);
            Self::lemma_span(0);
            lemma2_to64();
        }
        (vpn >> shift) & ((1usize << width) - 1)
    }

    /// Whether `number` is a multiple of the pages one level-`level` entry covers.
    fn is_page_number_aligned_to(number: usize, level: usize) -> (r: bool)
        requires
            PageTable::<WIDE, LENGTH, DEPTH, SIZE>::format_ok(),
            level < DEPTH,
        ensures
            r == (number as nat % PageTable::<WIDE, LENGTH, DEPTH, SIZE>::span(level as nat) == 0),
    {
        proof {
            if WIDE {
                assert(level * 9 <= DEPTH * 9) by (nonlinear_arith) requires level < DEPTH;
            } else {
                assert(level * 10 <= DEPTH * 10) by (nonlinear_arith) requires level < DEPTH;
            }
        }
        let shift = level * SIZE;
        proof {
            lemma_usize_pow2_no_overflow(shift as nat);
            lemma_usize_shl_is_mul(1, shift);
            lemma_usize_low_bits_mask_is_mod(number, shift as nat);
            lemma_pow2_pos(shift as nat);
        }
        number & ((1usize << shift) - 1) == 0
    }

    /// Maps the `count` pages from `vpn` onto those from `ppn` in the level-`level`
    /// table `container`, whose block the range lies in. An entry whose whole span
    /// lies in the range, with both page numbers aligned to it, maps a large page;
    /// elsewhere the range goes down to next-level tables, which are made as needed.
    fn map_internal(
        container: &mut PageTable<WIDE, LENGTH, DEPTH, SIZE>,
        pool: &mut FramePool,
        vpn: usize,
        ppn: usize,
        count: usize,
        flags: u64,
        level: usize,
    ) -> (r: Result<(), MemoryUnitError>)
        requires
            PageTable::<WIDE, LENGTH, DEPTH, SIZE>::format_ok(),
            level < DEPTH,
            old(container).wf(level as nat),
            old(container).aligned(level as nat),
            vpn as nat % PageTable::<WIDE, LENGTH, DEPTH, SIZE>::span(level as nat + 1) + count
                <= PageTable::<WIDE, LENGTH, DEPTH, SIZE>::span(level as nat + 1),
            vpn + count <= usize::MAX,
            ppn + count <= usize::MAX,
            ppn + count <= PageTable::<WIDE, LENGTH, DEPTH, SIZE>::ppn_bound(),
            leaf_flags(flags),
        ensures
            final(container).wf(level as nat),
            final(container).aligned(level as nat),
            Self::keeps_outside(*old(container), *final(container), level as nat, vpn as nat, count as nat),
            r is Ok ==> Self::maps_range(*final(container), level as nat, vpn as nat, ppn as nat, count as nat, flags),
            count > 0 && Self::vacant_range(*old(container), level as nat, vpn as nat, count as nat) ==>
                r is Ok || r == Err::<(), MemoryUnitError>(MemoryUnitError::RanOutOfFrames),
            count > 0 && Self::clear_range(*old(container), level as nat, vpn as nat, ppn as nat, count as nat) ==>
                r is Ok || r == Err::<(), MemoryUnitError>(MemoryUnitError::RanOutOfFrames),
            r matches Err(e) ==> e == MemoryUnitError::RanOutOfFrames || e == MemoryUnitError::EntryOverwrite,
            final(pool).free().subset_of(old(pool).free()),
            r == Err::<(), MemoryUnitError>(MemoryUnitError::RanOutOfFrames)
                && frames_below(old(pool).free(), PageTable::<WIDE, LENGTH, DEPTH, SIZE>::ppn_bound() as int)
                ==> final(pool).free() == Set::<usize>::empty(),
            forall|j: nat| j < PageTable::<WIDE, LENGTH, DEPTH, SIZE>::ec() && #[trigger] Self::untouched(vpn as nat, count as nat, level as nat, j)
                && old(container).is_vacant(j) ==> final(container).is_vacant(j),
        decreases level, count, 1nat,
    {
        let ghost whole = PageTable::<WIDE, LENGTH, DEPTH, SIZE>::span(level as nat + 1);
        let ghost lo = vpn as nat % whole;
        proof {
            Self::lemma_span(level as nat);
            Self::lemma_split(vpn as nat, level as nat);
        }
        let start = Self::index_of_vpn(vpn, level);
        if level == 0 {
            proof {
                assert(vpn as nat / 1 == vpn as nat);
                assert(start == lo);
                if count > 0 && Self::clear_range(*old(container), 0, vpn as nat, ppn as nat, count as nat) {
                    assert forall|v: nat| #[trigger] Self::covers(vpn as nat, count as nat, 0, v) implies
                        old(container).is_vacant(PageTable::<WIDE, LENGTH, DEPTH, SIZE>::index_at(v, 0)) by {
                        let v2 = (vpn + (v % whole - lo)) as nat;
                        lemma_mod_shift(vpn as nat, (v % whole - lo) as nat, whole);
                        assert(Self::path_clear(*old(container), 0, v2, vpn as nat, ppn as nat, count as nat));
                        assert(v2 / 1 == v2);
                        assert(v / 1 == v);
                        assert(PageTable::<WIDE, LENGTH, DEPTH, SIZE>::index_at(v2, 0) == PageTable::<WIDE, LENGTH, DEPTH, SIZE>::index_at(v, 0));
                    }
                    assert(Self::vacant_range(*old(container), 0, vpn as nat, count as nat));
                }
                if Self::vacant_range(*old(container), 0, vpn as nat, count as nat) {
                    assert forall|j: nat| start <= j < start + count implies #[trigger] container.is_vacant(j) by {
                        lemma_small_mod(j, whole);
                        assert(j / 1 == j);
                        assert(Self::covers(vpn as nat, count as nat, 0, j));
                    }
                }
            }
            let mut i: usize = 0;
            while i < count
                invariant
                    PageTable::<WIDE, LENGTH, DEPTH, SIZE>::format_ok(),
                    level == 0,
                    whole == PageTable::<WIDE, LENGTH, DEPTH, SIZE>::ec(),
                    whole == PageTable::<WIDE, LENGTH, DEPTH, SIZE>::span(1),
                    PageTable::<WIDE, LENGTH, DEPTH, SIZE>::span(0) == 1,
                    lo == vpn as nat % whole,
                    start == lo,
                    lo + count <= whole,
                    i <= count,
                    ppn + count <= usize::MAX,
                    ppn + count <= PageTable::<WIDE, LENGTH, DEPTH, SIZE>::ppn_bound(),
                    leaf_flags(flags),
                    container.wf(0),
                    forall|v: nat| !Self::covers(vpn as nat, count as nat, 0, v) ==>
                        #[trigger] container.translate(0, v) == old(container).translate(0, v),
                    forall|v: nat| Self::covers(vpn as nat, i as nat, 0, v) ==>
                        #[trigger] container.translate(0, v) == Some(((ppn + v % whole - lo) as nat, flags)),
                    Self::vacant_range(*old(container), 0, vpn as nat, count as nat) ==>
                        forall|j: nat| start + i <= j < start + count ==> #[trigger] container.is_vacant(j),
                    forall|j: nat| j < whole && #[trigger] Self::untouched(vpn as nat, count as nat, 0, j)
                        && old(container).is_vacant(j) ==> container.is_vacant(j),
                    count > 0 && Self::clear_range(*old(container), 0, vpn as nat, ppn as nat, count as nat)
                        ==> Self::vacant_range(*old(container), 0, vpn as nat, count as nat),
                decreases count - i,
            {
                let ghost before = *container;
                proof {
                    container.lemma_wf_inv(0);
                    if Self::vacant_range(*old(container), 0, vpn as nat, count as nat) {
                        assert(container.is_vacant((start + i) as nat));
                    }
                }
                if container.create_leaf(start + i, ppn + i, flags).is_err() {
                    proof {
                        if Self::vacant_range(*old(container), 0, vpn as nat, count as nat) {
                            assert(container.is_vacant((start + i) as nat));
                        }
                        container.lemma_level0_aligned();
                    }
                    return Err(MemoryUnitError::EntryOverwrite);
                }
                proof {
                    lemma_mod_shift(vpn as nat, i as nat, whole);
                    assert(PageTable::<WIDE, LENGTH, DEPTH, SIZE>::index_at((vpn + i) as nat, 0) == start + i) by {
                        assert((vpn + i) as nat / 1 == (vpn + i) as nat);
                    }
                    assert(Self::covers(vpn as nat, count as nat, 0, (vpn + i) as nat));
                    assert forall|j: nat| j < whole && #[trigger] Self::untouched(vpn as nat, count as nat, 0, j)
                        && old(container).is_vacant(j) implies container.is_vacant(j) by {
                        assert(j != start + i);
                        assert(before.is_vacant(j));
                    }
                    assert forall|v: nat| !Self::covers(vpn as nat, count as nat, 0, v) implies
                        #[trigger] container.translate(0, v) == old(container).translate(0, v) by {
                        assert(PageTable::<WIDE, LENGTH, DEPTH, SIZE>::index_at(v, 0) == v % whole) by {
                            assert(v / 1 == v);
                        }
                        assert(PageTable::<WIDE, LENGTH, DEPTH, SIZE>::index_at(v, 0) != start + i);
                        assert(before.translate(0, v) == old(container).translate(0, v));
                    }
                    assert forall|v: nat| Self::covers(vpn as nat, (i + 1) as nat, 0, v) implies
                        #[trigger] container.translate(0, v) == Some(((ppn + v % whole - lo) as nat, flags)) by {
                        assert(PageTable::<WIDE, LENGTH, DEPTH, SIZE>::index_at(v, 0) == v % whole) by {
                            assert(v / 1 == v);
                        }
                        assert(v % 1 == 0);
                        if !Self::covers(vpn as nat, i as nat, 0, v) {
                            assert(v % whole == start + i);
                        } else {
                            assert(before.translate(0, v) == Some(((ppn + v % whole - lo) as nat, flags)));
                        }
                    }
                }
                i = i + 1;
            }
            proof {
                container.lemma_wf_inv(0);
                container.lemma_level0_aligned();
            }
            Ok(())
        } else {
            let size = Self::span_of(level);
            let within = vpn % size;
            if count >= size - within {
                // The range reaches past the end of entry `start`.
                if Self::is_page_number_aligned_to(vpn, level) && Self::is_page_number_aligned_to(ppn, level) {
                    Self::map_aligned(container, pool, vpn, ppn, count, flags, level, start, size)
                } else {
                    Self::map_unaligned(container, pool, vpn, ppn, count, flags, level, start, size)
                }
            } else {
                // The range lies within entry `start`: the next-level table maps it.
                Self::map_within(container, pool, vpn, ppn, count, flags, level, start, size)
            }
        }
    }

    /// Maps a range that lies within entry `start` of `container`: the next-level
    /// table under that entry maps it.
    fn map_within(
        container: &mut PageTable<WIDE, LENGTH, DEPTH, SIZE>,
        pool: &mut FramePool,
        vpn: usize,
        ppn: usize,
        count: usize,
        flags: u64,
        level: usize,
        start: usize,
        size: usize,
    ) -> (r: Result<(), MemoryUnitError>)
        requires
            Self::map_pre(*old(container), vpn as nat, ppn as nat, count as nat, flags, level as nat),
            level > 0,
            start == PageTable::<WIDE, LENGTH, DEPTH, SIZE>::index_at(vpn as nat, level as nat),
            size == PageTable::<WIDE, LENGTH, DEPTH, SIZE>::span(level as nat),
            vpn % size + count < size,
        ensures
            final(container).wf(level as nat),
            final(container).aligned(level as nat),
            Self::keeps_outside(*old(container), *final(container), level as nat, vpn as nat, count as nat),
            r is Ok ==> Self::maps_range(*final(container), level as nat, vpn as nat, ppn as nat, count as nat, flags),
            count > 0 && Self::vacant_range(*old(container), level as nat, vpn as nat, count as nat) ==>
                r is Ok || r == Err::<(), MemoryUnitError>(MemoryUnitError::RanOutOfFrames),
            count > 0 && Self::clear_range(*old(container), level as nat, vpn as nat, ppn as nat, count as nat) ==>
                r is Ok || r == Err::<(), MemoryUnitError>(MemoryUnitError::RanOutOfFrames),
            r matches Err(e) ==> e == MemoryUnitError::RanOutOfFrames || e == MemoryUnitError::EntryOverwrite,
            final(pool).free().subset_of(old(pool).free()),
            r == Err::<(), MemoryUnitError>(MemoryUnitError::RanOutOfFrames)
                && frames_below(old(pool).free(), PageTable::<WIDE, LENGTH, DEPTH, SIZE>::ppn_bound() as int)
                ==> final(pool).free() == Set::<usize>::empty(),
            forall|j: nat| j < PageTable::<WIDE, LENGTH, DEPTH, SIZE>::ec() && #[trigger] Self::untouched(vpn as nat, count as nat, level as nat, j)
                && old(container).is_vacant(j) ==> final(container).is_vacant(j),
        decreases level, count, 0nat,
    {
        let ghost l = level as nat;
        let ghost s = size as nat;
        let ghost whole = PageTable::<WIDE, LENGTH, DEPTH, SIZE>::span(l + 1);
        proof {
            Self::lemma_span(l);
            Self::lemma_split(vpn as nat, l);
            if count > 0 && Self::vacant_range(*old(container), l, vpn as nat, count as nat) {
                assert(Self::covers(vpn as nat, count as nat, l, vpn as nat));
            }
        }
        let ghost clear = count > 0 && Self::clear_range(*old(container), l, vpn as nat, ppn as nat, count as nat);
        proof {
            old(container).lemma_wf_inv(l);
            old(container).lemma_shaped();
            if clear {
                Self::lemma_block_start(vpn as nat, s);
                assert(!Self::large_slot(vpn as nat, ppn as nat, count as nat, l, vpn as nat));
                assert(Self::path_clear(*old(container), l, vpn as nat, vpn as nat, ppn as nat, count as nat));
                assert(start == PageTable::<WIDE, LENGTH, DEPTH, SIZE>::index_at(vpn as nat, l));
            }
        }
        match container.ensure_table_created(start, pool) {
            Err(e) => match e {
                PageEntryWriteError::TrackerUnavailable => Err(MemoryUnitError::RanOutOfFrames),
                _ => Err(MemoryUnitError::EntryOverwrite),
            },
            Ok(()) => {
                let ghost mid = *container;
                proof {
                    mid.lemma_branch(start as nat, l);
                    mid.lemma_wf_inv(l);
                    mid.lemma_shaped();
                }
                let taken = container.replace_table(start, None);
                let ghost detached = *container;
                let mut child = taken.unwrap();
                let ghost child0 = child;
                proof {
                    mid.lemma_aligned_child(start as nat, l);
                    if count > 0 && Self::vacant_range(*old(container), l, vpn as nat, count as nat) {
                        child0.lemma_empty((l - 1) as nat);
                        assert forall|v: nat| #[trigger] Self::covers(vpn as nat, count as nat, (l - 1) as nat, v) implies
                            child0.is_vacant(PageTable::<WIDE, LENGTH, DEPTH, SIZE>::index_at(v, (l - 1) as nat)) by {
                            Self::lemma_split(v, (l - 1) as nat);
                        }
                    }
                    if clear {
                        assert forall|v: nat| vpn <= v < vpn + count implies
                            #[trigger] Self::path_clear(child0, (l - 1) as nat, v, vpn as nat, ppn as nat, count as nat) by {
                            if old(container).is_vacant(start as nat) {
                                Self::lemma_path_clear_empty(child0, (l - 1) as nat, v, vpn as nat, ppn as nat, count as nat);
                            } else {
                                Self::lemma_in_range(vpn as nat, count as nat, l, v);
                                Self::lemma_split(v, l);
                                Self::lemma_split(vpn as nat, l);
                                let i = PageTable::<WIDE, LENGTH, DEPTH, SIZE>::index_at(v, l);
                                lemma_in_block((v % whole) as int, s as int, i as int, (v % s) as int, start as int, 1);
                                Self::lemma_block_start(vpn as nat, s);
                                Self::lemma_block_start(v, s);
                                lemma_fundamental_div_mod_converse(v as int, s as int, (vpn as nat / s) as int, (vpn as nat % s + (v - vpn)) as int);
                                assert(!Self::large_slot(vpn as nat, ppn as nat, count as nat, l, v));
                                assert(Self::path_clear(*old(container), l, v, vpn as nat, ppn as nat, count as nat));
                            }
                        }
                    }
                }
                let r = Self::map_internal(&mut child, pool, vpn, ppn, count, flags, level - 1);
                let _ = container.replace_table(start, Some(child));
                proof {
                    container.lemma_same_but_table(&detached, &mid, start as nat);
                    container.lemma_reattach(&mid, start as nat, l);
                    container.lemma_wf_inv(l);
                    container.lemma_same_but_table(&mid, &mid, start as nat);
                    container.lemma_aligned_same_but(&mid, start as nat, l);
                    assert forall|v: nat| !Self::covers(vpn as nat, count as nat, l, v) implies
                        #[trigger] container.translate(l, v) == old(container).translate(l, v) by {
                        Self::lemma_split(v, l);
                        if PageTable::<WIDE, LENGTH, DEPTH, SIZE>::index_at(v, l) == start {
                            assert(mid.translate(l, v) == child0.translate((l - 1) as nat, v));
                            assert(!Self::covers(vpn as nat, count as nat, (l - 1) as nat, v));
                        }
                    }
                    if r is Ok {
                        assert forall|v: nat| Self::covers(vpn as nat, count as nat, l, v) implies
                            #[trigger] container.translate(l, v) == Some(((ppn + v % whole - vpn as nat % whole) as nat, flags)) by {
                            Self::lemma_split(v, l);
                            let i = PageTable::<WIDE, LENGTH, DEPTH, SIZE>::index_at(v, l);
                            lemma_in_block((v % whole) as int, s as int, i as int, (v % s) as int, start as int, 1);
                            assert(Self::covers(vpn as nat, count as nat, (l - 1) as nat, v));
                        }
                    }
                }
                r
            },
        }
    }

    /// Maps a range that reaches past entry `start`, with both page numbers aligned
    /// to the span of an entry: whole entries become large pages, and what is left at
    /// the end goes to a next-level table.
    fn map_aligned(
        container: &mut PageTable<WIDE, LENGTH, DEPTH, SIZE>,
        pool: &mut FramePool,
        vpn: usize,
        ppn: usize,
        count: usize,
        flags: u64,
        level: usize,
        start: usize,
        size: usize,
    ) -> (r: Result<(), MemoryUnitError>)
        requires
            Self::map_pre(*old(container), vpn as nat, ppn as nat, count as nat, flags, level as nat),
            level > 0,
            start == PageTable::<WIDE, LENGTH, DEPTH, SIZE>::index_at(vpn as nat, level as nat),
            size == PageTable::<WIDE, LENGTH, DEPTH, SIZE>::span(level as nat),
            vpn % size == 0,
            ppn % size == 0,
            count >= size,
        ensures
            final(container).wf(level as nat),
            final(container).aligned(level as nat),
            Self::keeps_outside(*old(container), *final(container), level as nat, vpn as nat, count as nat),
            r is Ok ==> Self::maps_range(*final(container), level as nat, vpn as nat, ppn as nat, count as nat, flags),
            count > 0 && Self::vacant_range(*old(container), level as nat, vpn as nat, count as nat) ==>
                r is Ok || r == Err::<(), MemoryUnitError>(MemoryUnitError::RanOutOfFrames),
            count > 0 && Self::clear_range(*old(container), level as nat, vpn as nat, ppn as nat, count as nat) ==>
                r is Ok || r == Err::<(), MemoryUnitError>(MemoryUnitError::RanOutOfFrames),
            r matches Err(e) ==> e == MemoryUnitError::RanOutOfFrames || e == MemoryUnitError::EntryOverwrite,
            final(pool).free().subset_of(old(pool).free()),
            r == Err::<(), MemoryUnitError>(MemoryUnitError::RanOutOfFrames)
                && frames_below(old(pool).free(), PageTable::<WIDE, LENGTH, DEPTH, SIZE>::ppn_bound() as int)
                ==> final(pool).free() == Set::<usize>::empty(),
            forall|j: nat| j < PageTable::<WIDE, LENGTH, DEPTH, SIZE>::ec() && #[trigger] Self::untouched(vpn as nat, count as nat, level as nat, j)
                && old(container).is_vacant(j) ==> final(container).is_vacant(j),
        decreases level, count, 0nat,
    {
        let ghost l = level as nat;
        let ghost s = size as nat;
        let ghost whole = PageTable::<WIDE, LENGTH, DEPTH, SIZE>::span(l + 1);
        let ghost lo = vpn as nat % whole;
        let ghost vacant = Self::vacant_range(*old(container), l, vpn as nat, count as nat);
        proof {
            Self::lemma_span(l);
            Self::lemma_split(vpn as nat, l);
            assert(lo == start * s);
            assert(start * s + count <= whole);
            assert(whole == s * PageTable::<WIDE, LENGTH, DEPTH, SIZE>::ec());
        }
        let ghost clear = count > 0 && Self::clear_range(*old(container), l, vpn as nat, ppn as nat, count as nat);
        let mut remaining = count;
        let mut round: usize = 0;
        let round_space = PageTable::<WIDE, LENGTH, DEPTH, SIZE>::entry_count() - start;
        while remaining >= size && round < round_space
            invariant
                Self::map_pre(*old(container), vpn as nat, ppn as nat, count as nat, flags, l),
                l == level as nat,
                l > 0,
                s == size,
                s == PageTable::<WIDE, LENGTH, DEPTH, SIZE>::span(l),
                s > 0,
                whole == s * PageTable::<WIDE, LENGTH, DEPTH, SIZE>::ec(),
                whole == PageTable::<WIDE, LENGTH, DEPTH, SIZE>::span(l + 1),
                lo == vpn as nat % whole,
                lo == start * s,
                lo + count <= whole,
                start + round_space == PageTable::<WIDE, LENGTH, DEPTH, SIZE>::ec(),
                round <= round_space,
                remaining + round * s == count,
                ppn % size == 0,
                vacant == Self::vacant_range(*old(container), l, vpn as nat, count as nat),
                container.wf(l),
                container.aligned(l),
                Self::keeps_outside(*old(container), *container, l, vpn as nat, count as nat),
                Self::maps_range(*container, l, vpn as nat, ppn as nat, (round * s) as nat, flags),
                vacant ==> forall|v: nat| Self::covers(vpn as nat, count as nat, l, v) && !Self::covers(vpn as nat, (round * s) as nat, l, v) ==>
                    #[trigger] container.is_vacant(PageTable::<WIDE, LENGTH, DEPTH, SIZE>::index_at(v, l)),
                forall|j: nat| j < PageTable::<WIDE, LENGTH, DEPTH, SIZE>::ec() && #[trigger] Self::untouched(vpn as nat, count as nat, l, j)
                    && old(container).is_vacant(j) ==> container.is_vacant(j),
                vpn % size == 0,
                clear == (count > 0 && Self::clear_range(*old(container), l, vpn as nat, ppn as nat, count as nat)),
                clear ==> forall|v: nat| vpn + round * s <= v < vpn + count ==>
                    #[trigger] Self::path_clear(*container, l, v, vpn as nat, ppn as nat, count as nat),
            decreases remaining,
        {
            let ghost before = *container;
            let ghost j = (start + round) as nat;
            proof {
                container.lemma_wf_inv(l);
                assert((round + 1) * s == round * s + s) by (nonlinear_arith);
                assert(round * s + s <= count);
                assert(start * s + round * s == (start + round) * s) by (nonlinear_arith);
                // the first page of the entry lies in the range
                let v0 = (vpn + round * s) as nat;
                lemma_mod_shift(vpn as nat, (round * s) as nat, whole);
                Self::lemma_split(v0, l);
                lemma_in_block((v0 % whole) as int, s as int, PageTable::<WIDE, LENGTH, DEPTH, SIZE>::index_at(v0, l) as int,
                    (v0 % s) as int, (start + round) as int, 1);
                assert(Self::covers(vpn as nat, count as nat, l, v0));
                assert(!Self::covers(vpn as nat, (round * s) as nat, l, v0));
                assert(PageTable::<WIDE, LENGTH, DEPTH, SIZE>::index_at(v0, l) == j);
                if vacant {
                    assert(container.is_vacant(PageTable::<WIDE, LENGTH, DEPTH, SIZE>::index_at(v0, l)));
                    assert(container.is_vacant(j));
                }
                if clear {
                    assert(Self::path_clear(*container, l, v0, vpn as nat, ppn as nat, count as nat));
                    Self::lemma_aligned_slot(*container, l, vpn as nat, ppn as nat, count as nat, round as nat);
                    assert(container.is_vacant(j));
                }
            }
            if container.create_leaf(start + round, ppn + round * size, flags).is_err() {
                return Err(MemoryUnitError::EntryOverwrite);
            }
            proof {
                vstd::arithmetic::div_mod::lemma_mod_multiples_vanish(round as int, ppn as int, s as int);
                assert(s * round == round * s) by (nonlinear_arith);
                container.lemma_aligned_same_but(&before, j, l);
                assert forall|k: nat| k < PageTable::<WIDE, LENGTH, DEPTH, SIZE>::ec() && #[trigger] Self::untouched(vpn as nat, count as nat, l, k)
                    && old(container).is_vacant(k) implies container.is_vacant(k) by {
                    assert(k != j);
                    assert(before.is_vacant(k));
                }
                assert forall|v: nat| !Self::covers(vpn as nat, count as nat, l, v) implies
                    #[trigger] container.translate(l, v) == old(container).translate(l, v) by {
                    Self::lemma_split(v, l);
                    let i = PageTable::<WIDE, LENGTH, DEPTH, SIZE>::index_at(v, l);
                    lemma_in_block((v % whole) as int, s as int, i as int, (v % s) as int, (start + round) as int, 1);
                    assert(before.translate(l, v) == old(container).translate(l, v));
                }
                assert forall|v: nat| Self::covers(vpn as nat, ((round + 1) * s) as nat, l, v) implies
                    #[trigger] container.translate(l, v) == Some(((ppn + v % whole - lo) as nat, flags)) by {
                    Self::lemma_split(v, l);
                    let i = PageTable::<WIDE, LENGTH, DEPTH, SIZE>::index_at(v, l);
                    lemma_in_block((v % whole) as int, s as int, i as int, (v % s) as int, (start + round) as int, 1);
                    if Self::covers(vpn as nat, (round * s) as nat, l, v) {
                        lemma_in_block((v % whole) as int, s as int, i as int, (v % s) as int, start as int, round as int);
                        assert(before.translate(l, v) == Some(((ppn + v % whole - lo) as nat, flags)));
                    } else {
                        assert(i * s == (start + round) * s);
                        assert(v % whole == (start + round) * s + v % s);
                    }
                }
                if clear {
                    before.lemma_shaped();
                    container.lemma_same_but_at(&before, j);
                    assert forall|v: nat| vpn + (round + 1) * s <= v < vpn + count implies
                        #[trigger] Self::path_clear(*container, l, v, vpn as nat, ppn as nat, count as nat) by {
                        Self::lemma_in_range(vpn as nat, count as nat, l, v);
                        Self::lemma_split(v, l);
                        let i = PageTable::<WIDE, LENGTH, DEPTH, SIZE>::index_at(v, l);
                        lemma_in_block((v % whole) as int, s as int, i as int, (v % s) as int, (start + round) as int, 1);
                        assert(i != j);
                        assert(container.entry_at(i) == before.entry_at(i));
                        assert(container.table_at(i) == before.table_at(i));
                        assert(Self::path_clear(before, l, v, vpn as nat, ppn as nat, count as nat));
                        Self::lemma_path_clear_frame(*container, before, l, v, vpn as nat, ppn as nat, count as nat);
                    }
                }
                if vacant {
                    assert forall|v: nat| Self::covers(vpn as nat, count as nat, l, v) && !Self::covers(vpn as nat, ((round + 1) * s) as nat, l, v) implies
                        #[trigger] container.is_vacant(PageTable::<WIDE, LENGTH, DEPTH, SIZE>::index_at(v, l)) by {
                        Self::lemma_split(v, l);
                        let i = PageTable::<WIDE, LENGTH, DEPTH, SIZE>::index_at(v, l);
                        lemma_in_block((v % whole) as int, s as int, i as int, (v % s) as int, (start + round) as int, 1);
                        assert(before.is_vacant(i));
                    }
                }
            }
            remaining = remaining - size;
            round = round + 1;
        }
        proof {
            assert(round >= 1);
            assert(round * s >= s) by (nonlinear_arith) requires round >= 1, s > 0;
        }
        if remaining > 0 {
            let ghost mid = *container;
            let next = vpn + size * round;
            proof {
                assert(size * round == round * size) by (nonlinear_arith);
                lemma_mod_shift(vpn as nat, (round * s) as nat, whole);
                assert(next as nat % whole == lo + round * s);
                if vacant {
                    assert forall|v: nat| #[trigger] Self::covers(next as nat, remaining as nat, l, v) implies
                        mid.is_vacant(PageTable::<WIDE, LENGTH, DEPTH, SIZE>::index_at(v, l)) by {
                        assert(Self::covers(vpn as nat, count as nat, l, v));
                    }
                }
            }
            proof {
                if clear {
                    vstd::arithmetic::div_mod::lemma_mod_multiples_vanish(round as int, vpn as int, s as int);
                    assert(s * round == round * s) by (nonlinear_arith);
                    assert(next as nat % s == 0);
                    assert forall|v: nat| next <= v < next + remaining implies
                        #[trigger] Self::path_clear(mid, l, v, next as nat, (ppn + size * round) as nat, remaining as nat) by {
                        assert(Self::path_clear(mid, l, v, vpn as nat, ppn as nat, count as nat));
                        Self::lemma_shift_slots(vpn as nat, ppn as nat, count as nat, (round * s) as nat, l, v);
                        Self::lemma_path_clear_same(mid, l, v, vpn as nat, ppn as nat, count as nat,
                            next as nat, (ppn + size * round) as nat, remaining as nat);
                    }
                    assert(Self::clear_range(mid, l, next as nat, (ppn + size * round) as nat, remaining as nat));
                }
            }
            let r = Self::map_internal(container, pool, next, ppn + size * round, remaining, flags, level);
            proof {
                assert(Self::covers(vpn as nat, count as nat, l, next as nat));
                assert forall|k: nat| k < PageTable::<WIDE, LENGTH, DEPTH, SIZE>::ec() && #[trigger] Self::untouched(vpn as nat, count as nat, l, k)
                    && old(container).is_vacant(k) implies container.is_vacant(k) by {
                    assert forall|w: nat| #[trigger] Self::covers(next as nat, remaining as nat, l, w) implies
                        PageTable::<WIDE, LENGTH, DEPTH, SIZE>::index_at(w, l) != k by {
                        assert(Self::covers(vpn as nat, count as nat, l, w));
                    }
                    assert(Self::untouched(next as nat, remaining as nat, l, k));
                    assert(mid.is_vacant(k));
                }
                assert forall|v: nat| !Self::covers(vpn as nat, count as nat, l, v) implies
                    #[trigger] container.translate(l, v) == old(container).translate(l, v) by {
                    assert(!Self::covers(next as nat, remaining as nat, l, v));
                    assert(mid.translate(l, v) == old(container).translate(l, v));
                }
                if r is Ok {
                    assert forall|v: nat| Self::covers(vpn as nat, count as nat, l, v) implies
                        #[trigger] container.translate(l, v) == Some(((ppn + v % whole - lo) as nat, flags)) by {
                        if Self::covers(vpn as nat, (round * s) as nat, l, v) {
                            assert(!Self::covers(next as nat, remaining as nat, l, v));
                            assert(mid.translate(l, v) == Some(((ppn + v % whole - lo) as nat, flags)));
                        } else {
                            assert(Self::covers(next as nat, remaining as nat, l, v));
                        }
                    }
                }
            }
            r
        } else {
            proof {
                assert(round * s == count);
            }
            Ok(())
        }
    }

    /// Maps a range that reaches past entry `start` but cannot begin with a large
    /// page: the next-level table under `start` maps the pages up to the end of that
    /// entry, and the rest of the range goes on from the next entry.
    #[verifier::spinoff_prover]
    fn map_unaligned(
        container: &mut PageTable<WIDE, LENGTH, DEPTH, SIZE>,
        pool: &mut FramePool,
        vpn: usize,
        ppn: usize,
        count: usize,
        flags: u64,
        level: usize,
        start: usize,
        size: usize,
    ) -> (r: Result<(), MemoryUnitError>)
        requires
            Self::map_pre(*old(container), vpn as nat, ppn as nat, count as nat, flags, level as nat),
            level > 0,
            start == PageTable::<WIDE, LENGTH, DEPTH, SIZE>::index_at(vpn as nat, level as nat),
            size == PageTable::<WIDE, LENGTH, DEPTH, SIZE>::span(level as nat),
            vpn % size + count >= size,
            !(vpn % size == 0 && ppn % size == 0),
        ensures
            final(container).wf(level as nat),
            final(container).aligned(level as nat),
            Self::keeps_outside(*old(container), *final(container), level as nat, vpn as nat, count as nat),
            r is Ok ==> Self::maps_range(*final(container), level as nat, vpn as nat, ppn as nat, count as nat, flags),
            count > 0 && Self::vacant_range(*old(container), level as nat, vpn as nat, count as nat) ==>
                r is Ok || r == Err::<(), MemoryUnitError>(MemoryUnitError::RanOutOfFrames),
            count > 0 && Self::clear_range(*old(container), level as nat, vpn as nat, ppn as nat, count as nat) ==>
                r is Ok || r == Err::<(), MemoryUnitError>(MemoryUnitError::RanOutOfFrames),
            r matches Err(e) ==> e == MemoryUnitError::RanOutOfFrames || e == MemoryUnitError::EntryOverwrite,
            final(pool).free().subset_of(old(pool).free()),
            r == Err::<(), MemoryUnitError>(MemoryUnitError::RanOutOfFrames)
                && frames_below(old(pool).free(), PageTable::<WIDE, LENGTH, DEPTH, SIZE>::ppn_bound() as int)
                ==> final(pool).free() == Set::<usize>::empty(),
            forall|j: nat| j < PageTable::<WIDE, LENGTH, DEPTH, SIZE>::ec() && #[trigger] Self::untouched(vpn as nat, count as nat, level as nat, j)
                && old(container).is_vacant(j) ==> final(container).is_vacant(j),
        decreases level, count, 0nat,
    {
        let ghost l = level as nat;
        let ghost s = size as nat;
        let ghost whole = PageTable::<WIDE, LENGTH, DEPTH, SIZE>::span(l + 1);
        let ghost lo = vpn as nat % whole;
        let ghost vacant = Self::vacant_range(*old(container), l, vpn as nat, count as nat);
        proof {
            Self::lemma_span(l);
            Self::lemma_split(vpn as nat, l);
            if count > 0 && vacant {
                assert(Self::covers(vpn as nat, count as nat, l, vpn as nat));
            }
        }
        // the pages from `vpn` up to the end of entry `start`
        let remaining = size - vpn % size;
        let ghost clear = count > 0 && Self::clear_range(*old(container), l, vpn as nat, ppn as nat, count as nat);
        proof {
            old(container).lemma_wf_inv(l);
            old(container).lemma_shaped();
            Self::lemma_block_start(vpn as nat, s);
            if clear {
                if vpn % size == 0 {
                    Self::lemma_block_start(ppn as nat, s);
                    vstd::arithmetic::div_mod::lemma_mod_multiples_vanish(-((vpn as nat / s) as int), ppn as int, s as int);
                    assert(ppn as int - vpn as int == -((vpn as nat / s) as int) * s + ppn as int) by (nonlinear_arith)
                        requires (vpn as nat / s) * s + vpn as nat % s == vpn as nat, vpn as nat % s == 0;
                }
                assert(!Self::large_slot(vpn as nat, ppn as nat, count as nat, l, vpn as nat));
                assert(Self::path_clear(*old(container), l, vpn as nat, vpn as nat, ppn as nat, count as nat));
            }
        }
        let created = container.ensure_table_created(start, pool);
        proof {
            if count > 0 && vacant {
                assert(old(container).is_vacant(start as nat));
                assert(created is Ok || created == Err::<(), PageEntryWriteError>(PageEntryWriteError::TrackerUnavailable));
            }
        }
        match created {
            Err(e) => match e {
                PageEntryWriteError::TrackerUnavailable => Err(MemoryUnitError::RanOutOfFrames),
                _ => Err(MemoryUnitError::EntryOverwrite),
            },
            Ok(()) => {
                let ghost mid = *container;
                proof {
                    mid.lemma_branch(start as nat, l);
                    mid.lemma_wf_inv(l);
                    mid.lemma_shaped();
                }
                let taken = container.replace_table(start, None);
                let ghost detached = *container;
                let mut child = taken.unwrap();
                let ghost child0 = child;
                proof {
                    mid.lemma_aligned_child(start as nat, l);
                    if count > 0 && vacant {
                        child0.lemma_empty((l - 1) as nat);
                        assert forall|v: nat| #[trigger] Self::covers(vpn as nat, remaining as nat, (l - 1) as nat, v) implies
                            child0.is_vacant(PageTable::<WIDE, LENGTH, DEPTH, SIZE>::index_at(v, (l - 1) as nat)) by {
                            Self::lemma_split(v, (l - 1) as nat);
                        }
                    }
                }
                proof {
                    if clear {
                        Self::lemma_unaligned_child(*old(container), child0, l, vpn as nat, ppn as nat, count as nat, start as nat);
                    }
                }
                let first = Self::map_internal(&mut child, pool, vpn, ppn, remaining, flags, level - 1);
                let _ = container.replace_table(start, Some(child));
                let ghost after_first = *container;
                proof {
                    container.lemma_same_but_table(&detached, &mid, start as nat);
                    container.lemma_reattach(&mid, start as nat, l);
                    container.lemma_wf_inv(l);
                    container.lemma_same_but_table(&mid, &mid, start as nat);
                    container.lemma_aligned_same_but(&mid, start as nat, l);
                    assert forall|v: nat| !Self::covers(vpn as nat, count as nat, l, v) implies
                        #[trigger] container.translate(l, v) == old(container).translate(l, v) by {
                        Self::lemma_split(v, l);
                        if PageTable::<WIDE, LENGTH, DEPTH, SIZE>::index_at(v, l) == start {
                            assert(mid.translate(l, v) == child0.translate((l - 1) as nat, v));
                            assert(!Self::covers(vpn as nat, remaining as nat, (l - 1) as nat, v));
                        }
                    }
                    if first is Ok {
                        assert forall|v: nat| Self::covers(vpn as nat, count as nat, l, v)
                            && PageTable::<WIDE, LENGTH, DEPTH, SIZE>::index_at(v, l) == start implies
                            #[trigger] container.translate(l, v) == Some(((ppn + v % whole - lo) as nat, flags)) by {
                            Self::lemma_split(v, l);
                            assert(Self::covers(vpn as nat, remaining as nat, (l - 1) as nat, v));
                        }
                    }
                }
                proof {
                    if count > 0 && vacant {
                        assert(remaining > 0);
                        assert(first is Ok || first == Err::<(), MemoryUnitError>(MemoryUnitError::RanOutOfFrames));
                    }
                }
                match first {
                    Err(e) => Err(e),
                    Ok(()) => {
                        if count > remaining {
                            let next = vpn + remaining;
                            proof {
                                assert(lo == start * s + vpn as nat % s);
                                lemma_mod_shift(vpn as nat, remaining as nat, whole);
                                assert(next as nat % whole == (start + 1) * s) by (nonlinear_arith)
                                    requires next as nat % whole == lo + remaining, lo == start * s + vpn as nat % s,
                                        remaining == s - vpn as nat % s;
                                if vacant {
                                    assert forall|v: nat| #[trigger] Self::covers(next as nat, (count - remaining) as nat, l, v) implies
                                        after_first.is_vacant(PageTable::<WIDE, LENGTH, DEPTH, SIZE>::index_at(v, l)) by {
                                        Self::lemma_split(v, l);
                                        let i = PageTable::<WIDE, LENGTH, DEPTH, SIZE>::index_at(v, l);
                                        lemma_in_block((v % whole) as int, s as int, i as int, (v % s) as int, start as int, 1);
                                        assert(Self::covers(vpn as nat, count as nat, l, v));
                                        assert(i != start);
                                    }
                                    assert(Self::vacant_range(after_first, l, next as nat, (count - remaining) as nat));
                                }
                            }
                            proof {
                                if clear {
                                    after_first.lemma_same_but_at(&mid, start as nat);
                                    if old(container).is_vacant(start as nat) {
                                        mid.lemma_same_but_at(&*old(container), start as nat);
                                    }
                                    Self::lemma_unaligned_rest(*old(container), after_first, l, vpn as nat, ppn as nat, count as nat, start as nat);
                                }
                            }
                            let r = Self::map_internal(container, pool, next, ppn + remaining, count - remaining, flags, level);
                            proof {
                                assert(Self::covers(vpn as nat, count as nat, l, next as nat));
                                assert forall|k: nat| k < PageTable::<WIDE, LENGTH, DEPTH, SIZE>::ec() && #[trigger] Self::untouched(vpn as nat, count as nat, l, k)
                                    && old(container).is_vacant(k) implies container.is_vacant(k) by {
                                    assert forall|w: nat| #[trigger] Self::covers(next as nat, (count - remaining) as nat, l, w) implies
                                        PageTable::<WIDE, LENGTH, DEPTH, SIZE>::index_at(w, l) != k by {
                                        assert(Self::covers(vpn as nat, count as nat, l, w));
                                    }
                                    assert(Self::untouched(next as nat, (count - remaining) as nat, l, k));
                                    assert(k != start);
                                    assert(mid.is_vacant(k));
                                    assert(after_first.is_vacant(k));
                                }
                                if count > 0 && vacant {
                                    assert(r is Ok || r == Err::<(), MemoryUnitError>(MemoryUnitError::RanOutOfFrames));
                                }
                                assert forall|v: nat| !Self::covers(vpn as nat, count as nat, l, v) implies
                                    #[trigger] container.translate(l, v) == old(container).translate(l, v) by {
                                    assert(!Self::covers(next as nat, (count - remaining) as nat, l, v));
                                    assert(after_first.translate(l, v) == old(container).translate(l, v));
                                }
                                if r is Ok {
                                    assert forall|v: nat| Self::covers(vpn as nat, count as nat, l, v) implies
                                        #[trigger] container.translate(l, v) == Some(((ppn + v % whole - lo) as nat, flags)) by {
                                        Self::lemma_split(v, l);
                                        let i = PageTable::<WIDE, LENGTH, DEPTH, SIZE>::index_at(v, l);
                                        lemma_in_block((v % whole) as int, s as int, i as int, (v % s) as int, start as int, 1);
                                        if i == start {
                                            assert(!Self::covers(next as nat, (count - remaining) as nat, l, v));
                                            assert(after_first.translate(l, v) == Some(((ppn + v % whole - lo) as nat, flags)));
                                        } else {
                                            assert(Self::covers(next as nat, (count - remaining) as nat, l, v));
                                        }
                                    }
                                }
                            }
                            r
                        } else {
                            proof {
                                assert forall|v: nat| Self::covers(vpn as nat, count as nat, l, v) implies
                                    #[trigger] container.translate(l, v) == Some(((ppn + v % whole - lo) as nat, flags)) by {
                                    Self::lemma_split(v, l);
                                    let i = PageTable::<WIDE, LENGTH, DEPTH, SIZE>::index_at(v, l);
                                    lemma_in_block((v % whole) as int, s as int, i as int, (v % s) as int, start as int, 1);
                                }
                            }
                            Ok(())
                        }
                    },
                }
            },
        }
    }

    /// The unit keeps a well-formed root table of the format's top level, in which
    /// every large page is aligned to its size (see [`PageTable::lemma_aligned_leaf`]).
    pub closed spec fn wf(&self) -> bool {
        &&& PageTable::<WIDE, LENGTH, DEPTH, SIZE>::format_ok()
        &&& self.root.wf((DEPTH - 1) as nat)
        &&& self.root.aligned((DEPTH - 1) as nat)
    }

    /// Where virtual page `vpn` goes: its physical page and flags, or `None`.
    pub closed spec fn translate(&self, vpn: nat) -> Option<(nat, u64)> {
        self.root.translate((DEPTH - 1) as nat, vpn)
    }

    /// The frame the root table lives in.
    pub closed spec fn root_ppn(&self) -> usize {
        self.root_frame.spec_start()
    }

    /// Every root entry that the `count` pages from `vpn` go through is free.
    pub closed spec fn is_free(&self, vpn: nat, count: nat) -> bool {
        Self::vacant_range(self.root, (DEPTH - 1) as nat, vpn, count)
    }

    /// Along the tables page `v` goes through from the root, the entry where mapping
    /// the `count` pages from `vpn` onto those from `ppn` would make a large page
    /// holding `v` (see [`MemoryUnit::large_slot`]) is free.
    pub closed spec fn large_slots_free(&self, v: nat, vpn: nat, ppn: nat, count: nat) -> bool {
        Self::slots_free(self.root, (DEPTH - 1) as nat, v, vpn, ppn, count)
    }

    /// Where every root entry a range goes through is free, so is every entry that
    /// mapping it would make a large page of.
    pub proof fn lemma_free_slots(&self, vpn: nat, ppn: nat, count: nat, v: nat)
        requires
            self.wf(),
            self.is_free(vpn, count),
            vpn % Self::space() + count <= Self::space(),
            vpn <= v < vpn + count,
        ensures
            self.large_slots_free(v, vpn, ppn, count),
    {
        let top = (DEPTH - 1) as nat;
        assert(top + 1 == DEPTH as nat);
        Self::lemma_in_range(vpn, count, top, v);
    }

    /// No root entry that the `count2` pages from `vpn2` go through is the root entry
    /// of `vpn` or one that the `count` pages from `vpn` go through.
    pub open spec fn apart(vpn: nat, count: nat, vpn2: nat, count2: nat) -> bool {
        forall|w: nat| #[trigger] Self::covers(vpn2, count2, (DEPTH - 1) as nat, w) ==>
            Self::untouched(vpn, count, (DEPTH - 1) as nat,
                PageTable::<WIDE, LENGTH, DEPTH, SIZE>::index_at(w, (DEPTH - 1) as nat))
    }

    /// The number of pages the address space spans.
    pub open spec fn space() -> nat {
        PageTable::<WIDE, LENGTH, DEPTH, SIZE>::span(DEPTH as nat)
    }

    /// A unit with an empty root table in a frame from `pool`; it is had whenever
    /// the pool holds a free frame.
    pub fn new(pool: &mut FramePool) -> (r: Result<Self, MemoryUnitError>)
        requires
            PageTable::<WIDE, LENGTH, DEPTH, SIZE>::format_ok(),
        ensures
            r matches Ok(u) ==> u.wf() && (forall|v: nat| #[trigger] u.translate(v) is None)
                && (forall|vpn: nat, count: nat| #[trigger] u.is_free(vpn, count)),
            r matches Err(e) ==> e == MemoryUnitError::RanOutOfFrames,
            old(pool).free() != Set::<usize>::empty() ==> r is Ok,
            r is Err ==> final(pool).free() == old(pool).free(),
            final(pool).free().subset_of(old(pool).free()),
    {
        if let Some(frame) = pool.borrow(1) {
            let root = PageTable::<WIDE, LENGTH, DEPTH, SIZE>::from(frame.start());
            proof {
                root.lemma_empty_aligned((DEPTH - 1) as nat);
                root.lemma_empty((DEPTH - 1) as nat);
                assert forall|vpn: nat, count: nat| #[trigger] Self::vacant_range(root, (DEPTH - 1) as nat, vpn, count) by {
                    assert forall|v: nat| #[trigger] Self::covers(vpn, count, (DEPTH - 1) as nat, v) implies
                        root.is_vacant(PageTable::<WIDE, LENGTH, DEPTH, SIZE>::index_at(v, (DEPTH - 1) as nat)) by {
                        Self::lemma_split(v, (DEPTH - 1) as nat);
                    }
                }
            }
            Ok(MemoryUnit { root, root_frame: frame })
        } else {
            Err(MemoryUnitError::RanOutOfFrames)
        }
    }

    /// The first page of the upper half of the address space.
    pub fn top_page_number() -> (r: usize)
        requires
            PageTable::<WIDE, LENGTH, DEPTH, SIZE>::format_ok(),
        ensures
            r == pow2((DEPTH * SIZE - 1) as nat),
    {
        let bits = DEPTH * SIZE + 12;
        proof {
            if WIDE {
                assert(DEPTH * 9 >= 9) by (nonlinear_arith) requires DEPTH >= 1;
            } else {
                assert(DEPTH * 10 >= 10) by (nonlinear_arith) requires DEPTH >= 1;
            }
            lemma_usize_pow2_no_overflow((bits - 1) as nat);
            lemma_usize_shl_is_mul(1, (bits - 1) as usize);
            lemma_usize_shr_is_div(1usize << (bits - 1) as usize, 12);
            lemma_pow2_subtracts(12, (bits - 1) as nat);
            lemma2_to64();
        }
        1usize << (bits - 1) >> 12
    }

    /// The value of the `satp` register for this unit: the mode code for
    /// `12 + SIZE * LENGTH` in its top bits (a format with no such code gives 0) and
    /// the root frame below.
    pub fn satp(&self) -> (r: usize)
        requires
            self.wf(),
            usize::BITS == 64,
        ensures
            r == self.root_ppn(),
    {
        let mode = 12 + SIZE * LENGTH;
        let mode_code: usize = match mode {
            32 => 1,
            39 => 8,
            47 => 9,
            56 => 10,
            _ => 0,
        };
        proof {
            if WIDE {
                assert(9 * LENGTH >= 99) by (nonlinear_arith) requires LENGTH > 10;
            } else {
                assert(10 * LENGTH >= 320) by (nonlinear_arith) requires LENGTH >= 32;
            }
            assert(mode_code == 0);
            assert(0usize << 60usize == 0usize) by (bit_vector);
        }
        (mode_code << 60) + self.root_frame.start()
    }

    /// Maps the `count` pages from `vpn` onto those from `ppn` with `flags`, with the
    /// largest pages that fit. The range must lie within one span of the address
    /// space. Pages outside the range keep their mapping, whatever comes back; on
    /// success each page of the range maps onto the page at the same distance from
    /// `ppn`. Where every root entry the range goes through was free, the only error
    /// is running out of frames, and that comes only once the pool has no free frame
    /// left (for a pool whose frames all fit an entry). The same holds where no page
    /// of the range is mapped yet and, for each page, the entry that would hold it in
    /// a large page is free: the range may then go through next-level tables that are
    /// already there. Large pages are made only where both page numbers are aligned
    /// to them. A free root entry that neither holds `vpn` nor is gone through by the
    /// range stays free.
    pub fn map(&mut self, pool: &mut FramePool, vpn: usize, ppn: usize, count: usize, flags: u64) -> (r: Result<(), MemoryUnitError>)
        requires
            old(self).wf(),
            vpn as nat % Self::space() + count <= Self::space(),
            vpn + count <= usize::MAX,
            ppn + count <= usize::MAX,
            ppn + count <= PageTable::<WIDE, LENGTH, DEPTH, SIZE>::ppn_bound(),
            leaf_flags(flags),
        ensures
            final(self).wf(),
            final(self).root_ppn() == old(self).root_ppn(),
            forall|v: nat| !Self::covers(vpn as nat, count as nat, (DEPTH - 1) as nat, v) ==>
                #[trigger] final(self).translate(v) == old(self).translate(v),
            r is Ok ==> forall|v: nat| Self::covers(vpn as nat, count as nat, (DEPTH - 1) as nat, v) ==>
                #[trigger] final(self).translate(v) == Some(((ppn as nat + v % Self::space() - vpn as nat % Self::space()) as nat, flags)),
            count > 0 && old(self).is_free(vpn as nat, count as nat) ==>
                r is Ok || r == Err::<(), MemoryUnitError>(MemoryUnitError::RanOutOfFrames),
            r matches Err(e) ==> e == MemoryUnitError::RanOutOfFrames || e == MemoryUnitError::EntryOverwrite,
            final(pool).free().subset_of(old(pool).free()),
            r == Err::<(), MemoryUnitError>(MemoryUnitError::RanOutOfFrames)
                && frames_below(old(pool).free(), PageTable::<WIDE, LENGTH, DEPTH, SIZE>::ppn_bound() as int)
                ==> final(pool).free() == Set::<usize>::empty(),
            forall|vpn2: nat, count2: nat| old(self).is_free(vpn2, count2) && Self::apart(vpn as nat, count as nat, vpn2, count2)
                ==> #[trigger] final(self).is_free(vpn2, count2),
            count > 0 && (forall|v: nat| vpn <= v < vpn + count ==> #[trigger] old(self).translate(v) is None
                && old(self).large_slots_free(v, vpn as nat, ppn as nat, count as nat))
                ==> r is Ok || r == Err::<(), MemoryUnitError>(MemoryUnitError::RanOutOfFrames),
    {
        let top = DEPTH - 1;
        proof {
            assert(top as nat == (DEPTH - 1) as nat);
            assert(top as nat + 1 == DEPTH as nat);
        }
        proof {
            if count > 0 && (forall|v: nat| vpn <= v < vpn + count ==> #[trigger] old(self).translate(v) is None
                && old(self).large_slots_free(v, vpn as nat, ppn as nat, count as nat)) {
                assert forall|v: nat| vpn <= v < vpn + count implies
                    #[trigger] Self::path_clear(old(self).root, top as nat, v, vpn as nat, ppn as nat, count as nat) by {
                    assert(old(self).translate(v) is None);
                    Self::lemma_path_clear(old(self).root, top as nat, v, vpn as nat, ppn as nat, count as nat);
                }
            }
        }
        let r = Self::map_internal(&mut self.root, pool, vpn, ppn, count, flags, top);
        proof {
            assert forall|vpn2: nat, count2: nat| old(self).is_free(vpn2, count2) && Self::apart(vpn as nat, count as nat, vpn2, count2)
                implies #[trigger] self.is_free(vpn2, count2) by {
                assert forall|w: nat| #[trigger] Self::covers(vpn2, count2, top as nat, w) implies
                    self.root.is_vacant(PageTable::<WIDE, LENGTH, DEPTH, SIZE>::index_at(w, top as nat)) by {
                    Self::lemma_split(w, top as nat);
                    assert(Self::untouched(vpn as nat, count as nat, top as nat,
                        PageTable::<WIDE, LENGTH, DEPTH, SIZE>::index_at(w, top as nat)));
                    assert(old(self).root.is_vacant(PageTable::<WIDE, LENGTH, DEPTH, SIZE>::index_at(w, top as nat)));
                }
            }
            assert(Self::keeps_outside(old(self).root, self.root, top as nat, vpn as nat, count as nat));
            if r is Ok {
                assert(Self::maps_range(self.root, top as nat, vpn as nat, ppn as nat, count as nat, flags));
                let whole = PageTable::<WIDE, LENGTH, DEPTH, SIZE>::span(top as nat + 1);
                assert forall|v: nat| Self::covers(vpn as nat, count as nat, (DEPTH - 1) as nat, v) implies
                    #[trigger] self.translate(v) == Some(((ppn as nat + v % Self::space() - vpn as nat % Self::space()) as nat, flags)) by {
                    assert(Self::covers(vpn as nat, count as nat, top as nat, v));
                    assert(self.root.translate(top as nat, v) == Some(((ppn as nat + v % whole - vpn as nat % whole) as nat, flags)));
                }
            }
        }
        r
    }
}

/// Runs of mappings: consecutive mappings that go on where the run before ends, in
/// both address spaces, with the same flags, are joined into one run.
pub open spec fn aggregate(s: Seq<(usize, usize, usize, u64)>) -> Seq<(usize, usize, usize, u64)>
    decreases s.len(),
{
    if s.len() == 0 {
        Seq::empty()
    } else {
        let a = aggregate(s.drop_last());
        let x = s.last();
        if a.len() > 0 && a.last().0 + a.last().2 == x.0 && a.last().1 + a.last().2 == x.1
            && a.last().3 == x.3 && a.last().2 + x.2 <= usize::MAX {
            a.update(a.len() - 1, (a.last().0, a.last().1, (a.last().2 + x.2) as usize, x.3))
        } else {
            a.push(x)
        }
    }
}

impl<const WIDE: bool, const LENGTH: usize, const DEPTH: usize, const SIZE: usize>
    MemoryUnit<WIDE, LENGTH, DEPTH, SIZE> {
    /// Every mapping of the address space, depth first in index order: first virtual
    /// page, physical page, page count and flags.
    pub closed spec fn spec_mappings(&self) -> Seq<(usize, usize, usize, u64)> {
        self.root.leaves_from((DEPTH - 1) as nat, 0, 0)
    }

    /// The listed mappings are exactly what the address space maps: every page that
    /// translates lies in one of them, and (on a 64-bit machine, where every page
    /// number an entry holds is listed whole) each of them is what its pages
    /// translate to.
    pub proof fn lemma_mappings_exact(&self)
        requires
            self.wf(),
        ensures
            forall|v: nat| v < Self::space() && (#[trigger] self.translate(v)) is Some
                ==> covers(self.spec_mappings(), v),
            usize::BITS == 64 ==> forall|k: int, v: nat|
                #![trigger self.spec_mappings()[k], self.translate(v)]
                0 <= k < self.spec_mappings().len() && self.spec_mappings()[k].0 <= v
                    < self.spec_mappings()[k].0 + self.spec_mappings()[k].2
                ==> self.translate(v) == Some(((self.spec_mappings()[k].1 + (v - self.spec_mappings()[k].0)) as nat,
                    self.spec_mappings()[k].3)),
    {
        let top = (DEPTH - 1) as nat;
        let t = PageTable::<WIDE, LENGTH, DEPTH, SIZE>::span(top);
        let n = PageTable::<WIDE, LENGTH, DEPTH, SIZE>::ec();
        assert(top + 1 == DEPTH as nat);
        PageTable::<WIDE, LENGTH, DEPTH, SIZE>::lemma_span_step(top);
        assert(n * t == t * n) by (nonlinear_arith);
        if WIDE {
            assert(DEPTH * 9 < usize::BITS);
        }
        lemma_usize_pow2_no_overflow((DEPTH * SIZE) as nat);
        assert((top + 1) * SIZE as nat == (DEPTH * SIZE) as nat);
        assert(Self::space() == n * t);
        assert(0nat % (n * t) == 0) by (nonlinear_arith) requires n * t > 0 {
            lemma_small_mod(0, n * t);
        }
        assert forall|v: nat| v < Self::space() && (#[trigger] self.translate(v)) is Some
            implies covers(self.spec_mappings(), v) by {
            assert(0 + 0 * t == 0);
            self.root.lemma_leaves_complete(top, 0, 0, v);
        }
        if usize::BITS == 64 {
            self.root.lemma_leaves_sound(top, 0, 0);
            assert forall|k: int, v: nat|
                #![trigger self.spec_mappings()[k], self.translate(v)]
                0 <= k < self.spec_mappings().len() && self.spec_mappings()[k].0 <= v
                    < self.spec_mappings()[k].0 + self.spec_mappings()[k].2
                implies self.translate(v) == Some(((self.spec_mappings()[k].1 + (v - self.spec_mappings()[k].0)) as nat,
                    self.spec_mappings()[k].3)) by {
                assert(self.root.holds_mapping(top, self.spec_mappings()[k]));
            }
        }
    }

    /// Every mapping of the address space, depth first in index order: exactly the
    /// pages the space maps (see [`MemoryUnit::lemma_mappings_exact`]), in
    /// increasing order, each ending before the next begins.
    pub fn mappings(&self) -> (r: Vec<(usize, usize, usize, u64)>)
        requires
            self.wf(),
        ensures
            r@ == self.spec_mappings(),
            ordered_within(r@, 0, Self::space()),
            forall|v: nat| v < Self::space() && (#[trigger] self.translate(v)) is Some ==> covers(r@, v),
            usize::BITS == 64 ==> forall|k: int, v: nat| #![trigger r@[k], self.translate(v)]
                0 <= k < r@.len() && r@[k].0 <= v < r@[k].0 + r@[k].2
                ==> self.translate(v) == Some(((r@[k].1 + (v - r@[k].0)) as nat, r@[k].3)),
            forall|k: int| 0 <= k < r@.len() ==>
                PageTable::<WIDE, LENGTH, DEPTH, SIZE>::sized_at_most(#[trigger] r@[k], (DEPTH - 1) as nat),
    {
        let top = DEPTH - 1;
        proof {
            assert(top as nat + 1 == DEPTH as nat);
            if WIDE {
                assert(DEPTH * 9 < usize::BITS);
            }
            lemma_usize_pow2_no_overflow((DEPTH * SIZE) as nat);
            assert((top as nat + 1) * SIZE as nat == (DEPTH * SIZE) as nat);
            self.lemma_mappings_exact();
        }
        self.root.mappings(top, 0)
    }

    /// The mappings joined into runs as [`aggregate`] says: what the address space
    /// shows when it is described.
    pub fn regions(&self) -> (r: Vec<(usize, usize, usize, u64)>)
        requires
            self.wf(),
        ensures
            r@ == aggregate(self.spec_mappings()),
    {
        let maps = self.mappings();
        let mut out: Vec<(usize, usize, usize, u64)> = Vec::new();
        let mut start_v: usize = 0;
        let mut start_p: usize = 0;
        let mut aggregated: usize = 0;
        let mut bits: u64 = 0;
        let mut dirty = false;
        let mut i: usize = 0;
        while i < maps.len()
            invariant
                i <= maps@.len(),
                !dirty ==> i == 0 && out@.len() == 0 && start_v == 0 && start_p == 0 && aggregated == 0 && bits == 0,
                (if dirty { out@.push((start_v, start_p, aggregated, bits)) } else { out@ })
                    == aggregate(maps@.subrange(0, i as int)),
            decreases maps@.len() - i,
        {
            let (vpn, ppn, count, flags) = maps[i];
            let ghost prefix = maps@.subrange(0, i as int);
            proof {
                assert(maps@.subrange(0, i + 1).drop_last() =~= prefix);
                assert(maps@.subrange(0, i + 1).last() == (vpn, ppn, count, flags));
            }
            let joins = match (start_v.checked_add(aggregated), start_p.checked_add(aggregated), aggregated.checked_add(count)) {
                (Some(v), Some(p), Some(_)) => v == vpn && p == ppn && flags == bits,
                _ => false,
            };
            if joins {
                aggregated = aggregated + count;
                dirty = true;
                proof {
                    if i == 0 {
                        assert(aggregate(prefix) =~= Seq::<(usize, usize, usize, u64)>::empty());
                    }
                }
            } else {
                if dirty {
                    out.push((start_v, start_p, aggregated, bits));
                }
                start_v = vpn;
                start_p = ppn;
                aggregated = count;
                bits = flags;
                dirty = true;
            }
            proof {
                let a = aggregate(prefix);
                if i == 0 {
                    assert(a =~= Seq::<(usize, usize, usize, u64)>::empty());
                    assert(out@.push((start_v, start_p, aggregated, bits)) =~= a.push((vpn, ppn, count, flags)));
                }
            }
            i = i + 1;
        }
        proof {
            assert(maps@.subrange(0, i as int) =~= maps@);
        }
        if dirty {
            out.push((start_v, start_p, aggregated, bits));
        }
        out
    }
}

/// The kernel's address space in the Sv39 format.
pub type KernelUnit = MemoryUnit<true, 56, 3, 9>;

/// In the kernel's format a root entry covers `0x4_0000` pages: page `v` goes
/// through root entry `m` or later exactly when its place in the address space is
/// at least `m * 0x4_0000`.
proof fn lemma_kernel_root_index(v: nat, m: nat)
    requires
        usize::BITS == 64,
    ensures
        (v % KernelUnit::space() < m * 0x4_0000) == (PageTable::<true, 56, 3, 9>::index_at(v, 2) < m),
        PageTable::<true, 56, 3, 9>::index_at(v, 2) < 512,
{
    lemma2_to64();
    assert(PageTable::<true, 56, 3, 9>::span(2) == 0x4_0000) by {
        assert(2nat * 9 == 18);
    }
    assert(PageTable::<true, 56, 3, 9>::span(3) == 0x800_0000) by {
        assert(3nat * 9 == 27);
    }
    KernelUnit::lemma_split(v, 2);
    let i = PageTable::<true, 56, 3, 9>::index_at(v, 2);
    let r = v % 0x4_0000;
    assert(v % KernelUnit::space() == i * 0x4_0000 + r);
    if i < m {
        assert(i * 0x4_0000 + r < m * 0x4_0000) by (nonlinear_arith) requires i < m, r < 0x4_0000;
    } else {
        assert(i * 0x4_0000 + r >= m * 0x4_0000) by (nonlinear_arith) requires i >= m, r >= 0;
    }
}

/// Builds the kernel's address space: devices below `memory_start` and the memory
/// from there to `memory_end` mapped onto themselves, and the highest page mapped
/// onto the `trampoline` page. Gives the unit and its `satp` value. Running out of
/// frames happens only once the pool has no free frame left (for a pool whose frames
/// all fit an entry). Where the memory starts on a root entry of its own, past the
/// first, and ends before the last root entry, running out of frames is the only
/// error.
pub fn kernel_space(pool: &mut FramePool, memory_start: usize, memory_end: usize, trampoline: usize)
    -> (r: Result<(KernelUnit, usize), MemoryUnitError>)
    requires
        usize::BITS == 64,
        memory_start <= memory_end,
        memory_end < KernelUnit::space() - 1,
        trampoline < 0x4000_0000_0000,
    ensures
        r matches Ok((u, satp)) ==> {
            &&& u.wf()
            &&& satp == u.root_ppn()
            &&& forall|v: nat| v % KernelUnit::space() < memory_start ==>
                #[trigger] u.translate(v) == Some((v % KernelUnit::space(), flag_bits(PageEntryFlag::PrefabKernelDevice)))
            &&& forall|v: nat| memory_start <= v % KernelUnit::space() < memory_end ==>
                #[trigger] u.translate(v) == Some((v % KernelUnit::space(), flag_bits(PageEntryFlag::PrefabKernelProgram)))
            &&& forall|v: nat| v % KernelUnit::space() == KernelUnit::space() - 1 ==>
                #[trigger] u.translate(v) == Some((trampoline as nat, flag_bits(PageEntryFlag::PrefabKernelTrampoline)))
        },
        r matches Err(e) ==> e == MemoryUnitError::RanOutOfFrames || e == MemoryUnitError::EntryOverwrite,
        final(pool).free().subset_of(old(pool).free()),
        r == Err::<(KernelUnit, usize), MemoryUnitError>(MemoryUnitError::RanOutOfFrames)
            && frames_below(old(pool).free(), 0x4000_0000_0000) ==> final(pool).free() == Set::<usize>::empty(),
        0 < memory_start < memory_end && memory_start as nat % 0x4_0000 == 0 && memory_end + 0x4_0000 < KernelUnit::space() ==>
            r is Ok || r == Err::<(KernelUnit, usize), MemoryUnitError>(MemoryUnitError::RanOutOfFrames),
{
    let ghost space = KernelUnit::space();
    proof {
        lemma2_to64();
        assert(space == 0x800_0000) by {
            assert(3nat * 9 == 27);
        }
        assert(1u64 << 46u64 == 0x4000_0000_0000u64) by (bit_vector);
        assert(PageTable::<true, 56, 3, 9>::ppn_bound() == 0x4000_0000_0000u64);
        assert(leaf_flags(0b1100_0111u64)) by (bit_vector);
        assert(leaf_flags(0b1100_1111u64)) by (bit_vector);
    }
    let mut unit = match KernelUnit::new(pool) {
        Ok(u) => u,
        Err(e) => return Err(e),
    };
    let top = KernelUnit::top_page_number();
    proof {
        assert(top == 0x400_0000);
    }
    let ghost u0 = unit;
    let device = PageEntryFlag::PrefabKernelDevice.bits();
    if let Err(e) = unit.map(pool, 0, 0, memory_start, device) {
        return Err(e);
    }
    let ghost u1 = unit;
    let program = PageEntryFlag::PrefabKernelProgram.bits();
    let ghost roomy = 0 < memory_start < memory_end && memory_start as nat % 0x4_0000 == 0
        && memory_end + 0x4_0000 < KernelUnit::space();
    let ghost m = memory_start as nat / 0x4_0000;
    proof {
        lemma_small_mod(memory_start as nat, space);
        lemma_small_mod((top + (top - 1)) as nat, space);
        lemma_small_mod(0, space);
        if roomy {
            assert(memory_start as nat == m * 0x4_0000);
            lemma_kernel_root_index(0, 1);
            assert(KernelUnit::apart(0, memory_start as nat, memory_start as nat, (memory_end - memory_start) as nat)) by {
                assert forall|w: nat| #[trigger] KernelUnit::covers(memory_start as nat, (memory_end - memory_start) as nat, 2, w) implies
                    KernelUnit::untouched(0, memory_start as nat, 2, PageTable::<true, 56, 3, 9>::index_at(w, 2)) by {
                    lemma_kernel_root_index(w, m);
                    assert forall|w2: nat| #[trigger] KernelUnit::covers(0, memory_start as nat, 2, w2) implies
                        PageTable::<true, 56, 3, 9>::index_at(w2, 2) != PageTable::<true, 56, 3, 9>::index_at(w, 2) by {
                        lemma_kernel_root_index(w2, m);
                    }
                }
            }
            assert(KernelUnit::apart(0, memory_start as nat, (top + (top - 1)) as nat, 1)) by {
                assert forall|w: nat| #[trigger] KernelUnit::covers((top + (top - 1)) as nat, 1, 2, w) implies
                    KernelUnit::untouched(0, memory_start as nat, 2, PageTable::<true, 56, 3, 9>::index_at(w, 2)) by {
                    lemma_kernel_root_index(w, 511);
                    assert forall|w2: nat| #[trigger] KernelUnit::covers(0, memory_start as nat, 2, w2) implies
                        PageTable::<true, 56, 3, 9>::index_at(w2, 2) != PageTable::<true, 56, 3, 9>::index_at(w, 2) by {
                        lemma_kernel_root_index(w2, 511);
                    }
                }
            }
            assert(u1.is_free(memory_start as nat, (memory_end - memory_start) as nat));
            assert(u1.is_free((top + (top - 1)) as nat, 1));
        }
    }
    if let Err(e) = unit.map(pool, memory_start, memory_start, memory_end - memory_start, program) {
        return Err(e);
    }
    let ghost u2 = unit;
    let last = top + (top - 1);
    proof {
        lemma_small_mod(last as nat, space);
        if roomy {
            assert(KernelUnit::apart(memory_start as nat, (memory_end - memory_start) as nat, last as nat, 1)) by {
                lemma_kernel_root_index(memory_start as nat, 511);
                assert forall|w: nat| #[trigger] KernelUnit::covers(last as nat, 1, 2, w) implies
                    KernelUnit::untouched(memory_start as nat, (memory_end - memory_start) as nat, 2,
                        PageTable::<true, 56, 3, 9>::index_at(w, 2)) by {
                    lemma_kernel_root_index(w, 511);
                    assert forall|w2: nat| #[trigger] KernelUnit::covers(memory_start as nat, (memory_end - memory_start) as nat, 2, w2) implies
                        PageTable::<true, 56, 3, 9>::index_at(w2, 2) != PageTable::<true, 56, 3, 9>::index_at(w, 2) by {
                        lemma_kernel_root_index(w2, 511);
                    }
                }
            }
            assert(u2.is_free(last as nat, 1));
        }
    }
    let trampoline_flags = PageEntryFlag::PrefabKernelTrampoline.bits();
    if let Err(e) = unit.map(pool, last, trampoline, 1, trampoline_flags) {
        return Err(e);
    }
    let satp = unit.satp();
    proof {
        lemma_small_mod(0, space);
        assert forall|v: nat| v % space < memory_start implies
            #[trigger] unit.translate(v) == Some((v % space, flag_bits(PageEntryFlag::PrefabKernelDevice))) by {
            assert(KernelUnit::covers(0, memory_start as nat, 2, v));
            assert(!KernelUnit::covers(memory_start as nat, (memory_end - memory_start) as nat, 2, v));
            assert(!KernelUnit::covers(last as nat, 1, 2, v));
            assert(u1.translate(v) == unit.translate(v));
        }
        assert forall|v: nat| memory_start <= v % space < memory_end implies
            #[trigger] unit.translate(v) == Some((v % space, flag_bits(PageEntryFlag::PrefabKernelProgram))) by {
            assert(KernelUnit::covers(memory_start as nat, (memory_end - memory_start) as nat, 2, v));
            assert(!KernelUnit::covers(last as nat, 1, 2, v));
            assert(u2.translate(v) == unit.translate(v));
        }
        assert forall|v: nat| v % space == space - 1 implies
            #[trigger] unit.translate(v) == Some((trampoline as nat, flag_bits(PageEntryFlag::PrefabKernelTrampoline))) by {
            assert(KernelUnit::covers(last as nat, 1, 2, v));
        }
    }
    Ok((unit, satp))
}

} // verus!
