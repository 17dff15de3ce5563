//! Physical frame allocation from the boot-reported memory layout.
//!
//! The boot report is an ascending, non-overlapping sequence of regions;
//! only `Usable` regions are frame sources. Each usable region is
//! partitioned into frame-sized pieces, the pieces are concatenated into
//! one logical sequence, and a cursor advances through it: every call
//! hands out the next unused frame until the supply is consumed, and
//! frames are never freed or reused.

use vstd::prelude::*;
use vstd::arithmetic::div_mod::lemma_fundamental_div_mod;

verus! {

/// Bytes in one physical frame (and in one virtual page).
pub const FRAME_SIZE: u64 = 4096;

/// What the boot report says a region of physical memory is for. Only
/// `Usable` regions may back new frames.
#[derive(Debug, Clone, Copy, PartialEq, Eq, Structural)]
pub enum RegionKind {
    Usable,
    InUse,
    Reserved,
    AcpiReclaimable,
    BadMemory,
    Kernel,
    Bootloader,
}

/// One entry of the boot memory report: the frame-aligned physical range
/// `[start, end)` and its kind.
#[derive(Debug, Clone, Copy, PartialEq, Eq, Structural)]
pub struct MemoryRegion {
    pub start: u64,
    pub end: u64,
    pub kind: RegionKind,
}

/// A region as the boot report promises it: frame-aligned and non-empty
/// in the weak sense that its end does not precede its start.
pub open spec fn region_wf(r: MemoryRegion) -> bool {
    &&& (r.start as int) % (FRAME_SIZE as int) == 0
    &&& (r.end as int) % (FRAME_SIZE as int) == 0
    &&& r.start <= r.end
}

/// The frames a single region contributes: every frame-aligned address in
/// a usable region, in ascending order; nothing from any other kind.
pub open spec fn region_frames(r: MemoryRegion) -> Seq<u64> {
    if r.kind is Usable {
        Seq::new(
            ((r.end - r.start) / (FRAME_SIZE as int)) as nat,
            |i: int| (r.start + (FRAME_SIZE as int) * i) as u64,
        )
    } else {
        Seq::empty()
    }
}

/// All frames the report offers, region by region in report order.
pub open spec fn usable_frames(rs: Seq<MemoryRegion>) -> Seq<u64>
    decreases rs.len(),
{
    if rs.len() == 0 {
        Seq::empty()
    } else {
        usable_frames(rs.drop_last()) + region_frames(rs.last())
    }
}

/// A frame allocator over the boot memory report: a cursor into the
/// logical sequence of usable frames. The cursor only ever advances, so a
/// frame is handed out at most once.
pub struct BootInfoFrameAllocator {
    pub regions: Vec<MemoryRegion>,
    pub next: u64,
}

impl BootInfoFrameAllocator {
    /// The stored report is frame-aligned, ascending and non-overlapping,
    /// and the cursor has not run past the supply.
    pub open spec fn wf(self) -> bool {
        &&& forall|i: int| 0 <= i < self.regions@.len() ==> region_wf(#[trigger] self.regions@[i])
        &&& forall|i: int, j: int|
            0 <= i < j < self.regions@.len() ==> self.regions@[i].end <= self.regions@[j].start
        &&& self.next <= usable_frames(self.regions@).len()
    }

    /// The whole supply of frames this allocator can ever hand out.
    pub open spec fn frames(self) -> Seq<u64> {
        usable_frames(self.regions@)
    }

    /// Wraps the boot memory report. The caller vouches for the report:
    /// the regions must be frame-aligned, in ascending address order and
    /// non-overlapping, and the usable ones must really be unused, since
    /// every frame handed out will be written through.
    pub fn init(regions: Vec<MemoryRegion>) -> (a: BootInfoFrameAllocator)
        requires
            forall|i: int| 0 <= i < regions@.len() ==> region_wf(#[trigger] regions@[i]),
            forall|i: int, j: int|
                0 <= i < j < regions@.len() ==> regions@[i].end <= regions@[j].start,
        ensures
            a.wf(),
            a.regions@ == regions@,
            a.next == 0,
    {
        BootInfoFrameAllocator { regions, next: 0 }
    }

    /// Returns the next unused frame, or `None` once the supply is
    /// consumed; after the first `None` every later call reports `None`
    /// too, since the cursor never retreats. Must be called only during
    /// single-threaded boot setup: the cursor is unsynchronized.
    pub fn allocate_frame(&mut self) -> (r: Option<u64>)
        requires
            old(self).wf(),
        ensures
            final(self).wf(),
            final(self).regions@ == old(self).regions@,
            old(self).next < old(self).frames().len() ==> r === Some(
                old(self).frames()[old(self).next as int],
            ) && final(self).next == old(self).next + 1,
            old(self).next >= old(self).frames().len() ==> r is None && *final(self) == *old(self),
    {
        let ghost rs = self.regions@;
        let mut i: usize = 0;
        let mut skipped: u64 = 0;
        while i < self.regions.len()
            invariant
                *self == *old(self),
                self.wf(),
                rs == self.regions@,
                i <= rs.len(),
                skipped == usable_frames(rs.take(i as int)).len(),
                skipped <= self.next,
            decreases rs.len() - i,
        {
            let r = self.regions[i];
            proof {
                lemma_usable_frames_take_succ(rs, i as int);
            }
            if matches!(r.kind, RegionKind::Usable) {
                let cnt = (r.end - r.start) / FRAME_SIZE;
                if self.next - skipped < cnt {
                    let offset = self.next - skipped;
                    proof {
                        lemma_usable_frames_index(rs, i as int, offset as int);
                        lemma_fundamental_div_mod(r.end - r.start, FRAME_SIZE as int);
                        assert((FRAME_SIZE as int) * (offset + 1) <= (FRAME_SIZE as int) * (cnt
                            as int)) by (nonlinear_arith)
                            requires
                                offset + 1 <= cnt,
                        {
                        }
                        assert(usable_frames(rs)[self.next as int] == (r.start + (FRAME_SIZE
                            as int) * (offset as int)) as u64);
                        // the supply spreads out one frame per index, so the
                        // cursor sits far below its type's ceiling
                        lemma_frames_lower_bound(rs, self.next as int);
                        assert(self.next < u64::MAX) by (nonlinear_arith)
                            requires
                                (FRAME_SIZE as int) * (self.next as int) <= u64::MAX as int,
                                self.next >= 0,
                        {
                        }
                    }
                    let frame = r.start + FRAME_SIZE * offset;
                    self.next = self.next + 1;
                    return Some(frame);
                }
                skipped = skipped + cnt;
            }
            proof {
                assert(region_frames(rs[i as int]).len() == if rs[i as int].kind is Usable {
                    ((rs[i as int].end - rs[i as int].start) / (FRAME_SIZE as int)) as int
                } else {
                    0int
                });
            }
            i = i + 1;
        }
        proof {
            assert(rs.take(rs.len() as int) =~= rs);
            assert(self.next >= usable_frames(rs).len());
        }
        None
    }
}

/// An allocator that owns no frames at all and always reports exhaustion.
pub struct EmptyFrameAllocator;

impl EmptyFrameAllocator {
    /// There is never a frame to hand out.
    pub fn allocate_frame(&mut self) -> (r: Option<u64>)
        ensures
            r is None,
    {
        None
    }
}

/// Each frame is at least its index times the frame size: the supply is
/// ascending and frame-aligned, so consecutive frames are at least one
/// frame apart. This bounds how long the supply can be.
proof fn lemma_frames_lower_bound(rs: Seq<MemoryRegion>, k: int)
    requires
        forall|i: int| 0 <= i < rs.len() ==> region_wf(#[trigger] rs[i]),
        forall|i: int, j: int| 0 <= i < j < rs.len() ==> rs[i].end <= rs[j].start,
        0 <= k < usable_frames(rs).len(),
    ensures
        usable_frames(rs)[k] >= (FRAME_SIZE as int) * k,
    decreases k,
{
    lemma_usable_frames_sound(rs);
    let fs = usable_frames(rs);
    let m = FRAME_SIZE as int;
    if k > 0 {
        lemma_frames_lower_bound(rs, k - 1);
        let a = fs[k - 1] as int;
        let b = fs[k] as int;
        lemma_fundamental_div_mod(a, m);
        lemma_fundamental_div_mod(b, m);
        let qa = a / m;
        let qb = b / m;
        assert(b - a >= m) by (nonlinear_arith)
            requires
                a == m * qa + 0,
                b == m * qb + 0,
                a < b,
                m > 0,
        {
        }
        assert(m * (k - 1) + m == m * k) by (nonlinear_arith);
    } else {
        assert(m * 0 == 0) by (nonlinear_arith);
    }
}

/// Extending the considered prefix by one region appends exactly that
/// region's frames.
proof fn lemma_usable_frames_take_succ(rs: Seq<MemoryRegion>, i: int)
    requires
        0 <= i < rs.len(),
    ensures
        usable_frames(rs.take(i + 1)) == usable_frames(rs.take(i)) + region_frames(rs[i]),
{
    assert(rs.take(i + 1).drop_last() =~= rs.take(i));
    assert(rs.take(i + 1).last() == rs[i]);
}

/// Where a region's frames sit inside the concatenated supply: the frames
/// of region `i` start right after every earlier region's frames.
proof fn lemma_usable_frames_index(rs: Seq<MemoryRegion>, i: int, j: int)
    requires
        0 <= i < rs.len(),
        0 <= j < region_frames(rs[i]).len(),
    ensures
        usable_frames(rs.take(i)).len() + region_frames(rs[i]).len() <= usable_frames(rs).len(),
        usable_frames(rs)[usable_frames(rs.take(i)).len() + j] == region_frames(rs[i])[j],
    decreases rs.len(),
{
    if i == rs.len() - 1 {
        assert(rs.take(i) =~= rs.drop_last());
        assert(rs.last() == rs[i]);
    } else {
        lemma_usable_frames_index(rs.drop_last(), i, j);
        assert(rs.drop_last().take(i) =~= rs.take(i));
        assert(rs.drop_last()[i] == rs[i]);
    }
}

/// Every frame the allocator can hand out lies inside a usable region of
/// the report, and the supply is strictly increasing, so repeated calls
/// return pairwise-distinct frames until exhaustion; once the cursor has
/// passed the end, `allocate_frame`'s contract reports absence forever.
pub proof fn lemma_frame_supply_sound(a: BootInfoFrameAllocator)
    requires
        a.wf(),
    ensures
        forall|k: int|
            0 <= k < a.frames().len() ==> exists|i: int|
                0 <= i < a.regions@.len() && (#[trigger] a.regions@[i]).kind is Usable
                    && a.regions@[i].start <= #[trigger] a.frames()[k] < a.regions@[i].end,
        forall|k1: int, k2: int|
            0 <= k1 < k2 < a.frames().len() ==> a.frames()[k1] < a.frames()[k2],
        forall|k: int|
            0 <= k < a.frames().len() ==> (#[trigger] a.frames()[k] as int) % (FRAME_SIZE as int)
                == 0,
{
    lemma_usable_frames_sound(a.regions@);
}

/// The induction behind `lemma_frame_supply_sound`, over the report.
proof fn lemma_usable_frames_sound(rs: Seq<MemoryRegion>)
    requires
        forall|i: int| 0 <= i < rs.len() ==> region_wf(#[trigger] rs[i]),
        forall|i: int, j: int| 0 <= i < j < rs.len() ==> rs[i].end <= rs[j].start,
    ensures
        forall|k: int|
            0 <= k < usable_frames(rs).len() ==> exists|i: int|
                0 <= i < rs.len() && (#[trigger] rs[i]).kind is Usable && rs[i].start
                    <= #[trigger] usable_frames(rs)[k] < rs[i].end,
        forall|k1: int, k2: int|
            0 <= k1 < k2 < usable_frames(rs).len() ==> usable_frames(rs)[k1] < usable_frames(
                rs,
            )[k2],
        forall|k: int|
            0 <= k < usable_frames(rs).len() ==> (#[trigger] usable_frames(rs)[k] as int) % (
            FRAME_SIZE as int) == 0,
    decreases rs.len(),
{
    if rs.len() > 0 {
        let dl = rs.drop_last();
        let last = rs.last();
        lemma_usable_frames_sound(dl);
        let fs = usable_frames(rs);
        let n = usable_frames(dl).len() as int;
        if last.kind is Usable {
            let cnt = (last.end - last.start) / (FRAME_SIZE as int);
            lemma_fundamental_div_mod(last.end - last.start, FRAME_SIZE as int);
            assert forall|j: int| 0 <= j < cnt implies 0 <= #[trigger] ((FRAME_SIZE as int) * j)
                && (FRAME_SIZE as int) * (j + 1) <= last.end - last.start by {
                assert(0 <= (FRAME_SIZE as int) * j && (FRAME_SIZE as int) * (j + 1)
                    <= (FRAME_SIZE as int) * cnt) by (nonlinear_arith)
                    requires
                        0 <= j && j + 1 <= cnt,
                {
                }
            }
            assert forall|k: int| n <= k < fs.len() implies last.start <= #[trigger] fs[k]
                < last.end by {
                assert(fs[k] == region_frames(last)[k - n]);
            }
            assert(region_wf(rs[rs.len() - 1]));
            assert forall|k: int| n <= k < fs.len() implies (#[trigger] fs[k] as int) % (FRAME_SIZE
                as int) == 0 by {
                let j = k - n;
                let m = FRAME_SIZE as int;
                assert(fs[k] == region_frames(last)[j]);
                lemma_fundamental_div_mod(last.start as int, m);
                let q = (last.start as int) / m;
                assert(last.start + m * j == (q + j) * m) by (nonlinear_arith)
                    requires
                        last.start == m * q,
                {
                }
                vstd::arithmetic::div_mod::lemma_mod_multiples_basic(q + j, m);
            }
        }
        assert forall|k: int| 0 <= k < n implies (#[trigger] fs[k] as int) % (FRAME_SIZE as int)
            == 0 by {
            assert(fs[k] == usable_frames(dl)[k]);
        }
        // every earlier frame lies in an earlier region, which ends before
        // the last region begins
        assert forall|k: int| 0 <= k < n implies exists|i: int|
            0 <= i < rs.len() && (#[trigger] rs[i]).kind is Usable && rs[i].start <= #[trigger] fs[k]
                < rs[i].end by {
            assert(fs[k] == usable_frames(dl)[k]);
            let i = choose|i: int|
                0 <= i < dl.len() && (#[trigger] dl[i]).kind is Usable && dl[i].start
                    <= usable_frames(dl)[k] < dl[i].end;
            assert(rs[i] == dl[i]);
        }
        assert forall|k1: int, k2: int| 0 <= k1 < k2 < fs.len() implies fs[k1] < fs[k2] by {
            if k2 < n {
                assert(fs[k1] == usable_frames(dl)[k1]);
                assert(fs[k2] == usable_frames(dl)[k2]);
            } else if k1 >= n {
                assert(fs[k1] == region_frames(last)[k1 - n]);
                assert(fs[k2] == region_frames(last)[k2 - n]);
                assert((FRAME_SIZE as int) * (k1 - n) < (FRAME_SIZE as int) * (k2 - n))
                    by (nonlinear_arith)
                    requires
                        0 <= k1 - n < k2 - n,
                {
                }
            } else {
                assert(fs[k1] == usable_frames(dl)[k1]);
                let i = choose|i: int|
                    0 <= i < dl.len() && (#[trigger] dl[i]).kind is Usable && dl[i].start
                        <= usable_frames(dl)[k1] < dl[i].end;
                assert(rs[i].end <= last.start);
                assert(fs[k2] == region_frames(last)[k2 - n]);
            }
        }
    }
}

} // verus!
