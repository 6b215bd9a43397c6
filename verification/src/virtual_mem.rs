//! Virtual address spaces, shareable physical memory handles, and the ordered
//! region table binding sub-ranges of a space to the handles mapped into them.
//!
//! The table of a [`VirMem`] partitions its reserved range `[0, len)` into
//! contiguous segments, each either `Mapped` (holding a reference to the
//! physical handle backing it) or `Vacant`.  [`VirMem::map`] splits a vacant
//! segment; [`VirMem::unmap`] replaces a mapped segment by a vacant one of the
//! same length and never merges vacant neighbours, so repeated map/unmap
//! cycles keep the split boundaries.
//!
//! Driver calls (reserving and freeing ranges, creating and releasing
//! physical blocks, the map and access-grant calls themselves) are the
//! external collaborator's side of each operation; this module verifies the
//! bookkeeping that decides them.

use std::sync::Arc;
use vstd::prelude::*;

verus! {

/// A byte of reserved virtual memory.  Only bytes inside currently mapped
/// segments are valid to access through the driver.
#[allow(dead_code)]
pub struct VirByte(u8);

/// An immutable allocation policy: where physical blocks live and the
/// allocation granularities the driver reports for that placement.
#[derive(Clone, Copy)]
pub struct MemProp {
    /// Device ordinal of the location physical blocks are created on.
    pub device_id: i32,
    /// Smallest length and alignment unit the driver accepts for this policy.
    pub granularity_min: usize,
    /// Length unit the driver recommends for this policy.
    pub granularity_rec: usize,
}

/// A shareable handle to a driver-owned block of physical memory.  Handles
/// are reference-counted through `Arc`: every mapping holds its own
/// reference, and the block is released to the driver only when the last
/// owner drops it.
#[derive(Debug)]
pub struct PhyMem {
    /// Device ordinal the block lives on.
    pub device_id: i32,
    /// Byte length of the block.
    pub len: usize,
}

/// One segment payload of the region table: either bound to a physical
/// handle, or vacant with an explicit byte length.
pub enum PhyRegion {
    Mapped(Arc<PhyMem>),
    Vacant(usize),
}

/// One entry of the region table: the segment starting at `start`.
pub struct RegionEntry {
    pub start: usize,
    pub region: PhyRegion,
}

/// A reserved virtual address range of `len` bytes and its region table,
/// ordered by ascending start offset.
pub struct VirMem {
    pub len: usize,
    pub regions: Vec<RegionEntry>,
}

/// Plain description of one segment, as handed out by [`VirMem::segments`]
/// and returned by [`VirMem::map`].
#[derive(Clone, Copy, PartialEq, Eq, Structural, Debug)]
pub struct Segment {
    pub start: usize,
    pub len: usize,
    pub mapped: bool,
}

/// A caller-side contract violation, reported instead of performing the
/// operation.
#[derive(Clone, Copy, PartialEq, Eq, Structural, Debug)]
pub enum MemError {
    /// `map`: the handle does not fit between its offset and the end of the
    /// reserved range.
    OutOfRange,
    /// `map`: the segment the offset falls in is already mapped.
    AlreadyMapped,
    /// `map`: the handle overruns the vacant segment the offset falls in.
    Oversized,
    /// `unmap`: the offset is not the start of any segment.
    NotABoundary,
    /// `unmap`: the segment starting at the offset is vacant.
    NotMapped,
}

impl MemError {
    /// The diagnostic text of this violation.
    pub fn message(&self) -> (r: &'static str)
        ensures
            self is OutOfRange ==> r@ == "mem is out of range"@,
            self is AlreadyMapped ==> r@ == "mem is mapped"@,
            self is Oversized ==> r@ == "mem is oversized"@,
            self is NotABoundary ==> r@ == "offset is not a boundary"@,
            self is NotMapped ==> r@ == "offset is not mapped"@,
    {
        match self {
            MemError::OutOfRange => "mem is out of range",
            MemError::AlreadyMapped => "mem is mapped",
            MemError::Oversized => "mem is oversized",
            MemError::NotABoundary => "offset is not a boundary",
            MemError::NotMapped => "offset is not mapped",
        }
    }
}

/// Byte length of a segment payload.
pub open spec fn region_len(r: PhyRegion) -> int {
    match r {
        PhyRegion::Mapped(p) => p.len as int,
        PhyRegion::Vacant(n) => n as int,
    }
}

/// First offset past the segment of entry `e`.
pub open spec fn entry_end(e: RegionEntry) -> int {
    e.start + region_len(e.region)
}

/// The region-table invariant: at least one entry, the first starting at 0,
/// every segment nonempty, each segment ending exactly where the next starts,
/// and the last ending at `total`.  The entries thus partition `[0, total)`
/// in ascending order with no gaps and no overlaps.
pub open spec fn table_wf(s: Seq<RegionEntry>, total: int) -> bool {
    &&& s.len() > 0
    &&& s[0].start == 0
    &&& forall|i: int| 0 <= i < s.len() ==> region_len(#[trigger] s[i].region) > 0
    &&& forall|i: int| 0 <= i < s.len() - 1 ==> #[trigger] entry_end(s[i]) == s[i + 1].start
    &&& entry_end(s[s.len() - 1]) == total
}

impl MemProp {
    /// A policy is well formed when the driver reported usable granularities.
    pub open spec fn wf(&self) -> bool {
        self.granularity_min > 0 && self.granularity_rec > 0
    }

    /// Builds the descriptor for blocks placed on device `device_id`, with
    /// the minimum and recommended granularities the driver reports for that
    /// placement.
    pub fn new(device_id: i32, granularity_min: usize, granularity_rec: usize) -> (r: MemProp)
        requires
            granularity_min > 0,
            granularity_rec > 0,
        ensures
            r.device_id == device_id,
            r.granularity_min == granularity_min,
            r.granularity_rec == granularity_rec,
            r.wf(),
    {
        MemProp { device_id, granularity_min, granularity_rec }
    }

    /// The smallest allocation length and alignment unit for this policy.
    pub fn granularity_minimum(&self) -> (r: usize)
        ensures
            r == self.granularity_min,
    {
        self.granularity_min
    }

    /// The allocation length unit the driver recommends for this policy.
    pub fn granularity_recommended(&self) -> (r: usize)
        ensures
            r == self.granularity_rec,
    {
        self.granularity_rec
    }

    /// Requests a physical block of exactly `len` bytes under this policy.
    /// The driver rejects lengths that are not positive multiples of the
    /// minimum granularity, so those are ruled out here.
    pub fn create(&self, len: usize) -> (r: Arc<PhyMem>)
        requires
            self.wf(),
            len > 0,
            len % self.granularity_min == 0,
        ensures
            r.len == len,
            r.device_id == self.device_id,
            r.wf(),
    {
        Arc::new(PhyMem { device_id: self.device_id, len })
    }
}

impl PhyMem {
    /// A handle is well formed when it holds a nonempty block.
    pub open spec fn wf(&self) -> bool {
        self.len > 0
    }

    /// Byte length of the block.
    pub fn len(&self) -> (r: usize)
        ensures
            r == self.len,
    {
        self.len
    }

    /// Whether the block holds no bytes.
    pub fn is_empty(&self) -> (r: bool)
        ensures
            r == (self.len == 0),
    {
        self.len == 0
    }
}

impl VirMem {
    /// The invariant of a virtual address space: its table partitions the
    /// reserved range.
    pub open spec fn wf(&self) -> bool {
        table_wf(self.regions@, self.len as int)
    }

    /// Reserves a virtual range of `len` bytes.  `min_addr` is a placement
    /// hint handed to the driver reservation and does not affect the
    /// bookkeeping.  The table starts as one vacant segment spanning the
    /// whole range.
    #[allow(unused_variables)]
    pub fn new(len: usize, min_addr: usize) -> (r: VirMem)
        requires
            len > 0,
        ensures
            r.wf(),
            r.len == len,
            r.regions@ =~= seq![RegionEntry { start: 0, region: PhyRegion::Vacant(len) }],
    {
        let mut regions: Vec<RegionEntry> = Vec::new();
        regions.push(RegionEntry { start: 0, region: PhyRegion::Vacant(len) });
        VirMem { len, regions }
    }
}

} // verus!

verus! {

/// Index of the entry with the greatest start at most `offset`: the entry
/// whose segment `offset` falls in, once the table is well formed and
/// `offset` lies inside the range.  `-1` on an empty table.
pub open spec fn find_region(s: Seq<RegionEntry>, offset: int) -> int
    decreases s.len(),
{
    if s.len() == 0 {
        -1
    } else if s[s.len() - 1].start <= offset {
        s.len() - 1
    } else {
        find_region(s.drop_last(), offset)
    }
}

/// In a well-formed table, segments come in strictly ascending start order
/// and do not overlap.
pub proof fn lemma_entry_order(s: Seq<RegionEntry>, total: int, i: int, j: int)
    requires
        table_wf(s, total),
        0 <= i < j < s.len(),
    ensures
        entry_end(s[i]) <= s[j].start,
        s[i].start < s[j].start,
    decreases j - i,
{
    assert(entry_end(s[i]) == s[i + 1].start);
    assert(region_len(s[i].region) > 0);
    if j > i + 1 {
        assert(region_len(s[i + 1].region) > 0);
        lemma_entry_order(s, total, i + 1, j);
    }
}

/// In a well-formed table, every segment lies inside `[0, total)`.
pub proof fn lemma_entry_in_range(s: Seq<RegionEntry>, total: int, i: int)
    requires
        table_wf(s, total),
        0 <= i < s.len(),
    ensures
        0 <= s[i].start < entry_end(s[i]) <= total,
{
    if i < s.len() - 1 {
        lemma_entry_order(s, total, i, s.len() - 1);
    }
    if i > 0 {
        lemma_entry_order(s, total, 0, i);
    }
}

/// `find_region` returns exactly the index characterised by: its start is at
/// most `offset`, and every later start is greater.
pub proof fn lemma_find_region_is(s: Seq<RegionEntry>, offset: int, i: int)
    requires
        0 <= i < s.len(),
        s[i].start <= offset,
        forall|j: int| i < j < s.len() ==> s[j].start > offset,
    ensures
        find_region(s, offset) == i,
    decreases s.len(),
{
    if i < s.len() - 1 {
        assert(s[s.len() - 1].start > offset);
        assert(s.drop_last()[i] == s[i]);
        lemma_find_region_is(s.drop_last(), offset, i);
    }
}

impl VirMem {
    /// Locates the entry whose segment `offset` falls in: the one with the
    /// greatest start at most `offset`.
    fn find_region_idx(&self, offset: usize) -> (i: usize)
        requires
            self.wf(),
            offset < self.len,
        ensures
            i == find_region(self.regions@, offset as int),
            i < self.regions@.len(),
            self.regions@[i as int].start <= offset < entry_end(self.regions@[i as int]),
            forall|j: int| i < j < self.regions@.len() ==> self.regions@[j].start > offset,
    {
        let n = self.regions.len();
        let mut i: usize = 0;
        while i + 1 < n && self.regions[i + 1].start <= offset
            invariant
                self.wf(),
                offset < self.len,
                n == self.regions@.len(),
                i < n,
                self.regions@[i as int].start <= offset,
            decreases n - i,
        {
            i = i + 1;
        }
        proof {
            let s = self.regions@;
            let total = self.len as int;
            assert forall|j: int| i < j < s.len() implies s[j].start > offset by {
                if j > i + 1 {
                    lemma_entry_order(s, total, i + 1, j);
                }
            }
            lemma_find_region_is(s, offset as int, i as int);
            if i + 1 < n {
                assert(entry_end(s[i as int]) == s[i as int + 1].start);
            }
        }
        i
    }
}

/// The segments `map` puts in place of the vacant segment it splits: a
/// leading vacant remainder if the mapping starts strictly inside, the new
/// mapped segment, and a trailing vacant remainder if the mapping ends
/// strictly before the segment does.
pub open spec fn split_pieces(e: RegionEntry, offset: usize, phy: Arc<PhyMem>) -> Seq<RegionEntry> {
    let lead_len = offset - e.start;
    let trail_len = entry_end(e) - offset - phy.len;
    let lead: Seq<RegionEntry> = if lead_len > 0 {
        seq![RegionEntry { start: e.start, region: PhyRegion::Vacant(lead_len as usize) }]
    } else {
        seq![]
    };
    let trail: Seq<RegionEntry> = if trail_len > 0 {
        seq![
            RegionEntry {
                start: (offset + phy.len) as usize,
                region: PhyRegion::Vacant(trail_len as usize),
            },
        ]
    } else {
        seq![]
    };
    lead + seq![RegionEntry { start: offset, region: PhyRegion::Mapped(phy) }] + trail
}

/// When `map(offset, phy)` succeeds: the handle fits inside the range, and
/// the segment `offset` falls in is vacant and runs at least to the end of
/// the handle.
pub open spec fn spec_map_ok(s: Seq<RegionEntry>, total: int, offset: int, phy_len: int) -> bool {
    let i = find_region(s, offset);
    &&& offset + phy_len <= total
    &&& !(s[i].region is Mapped)
    &&& offset + phy_len <= entry_end(s[i])
}

/// The table after a successful `map(offset, phy)`: the vacant segment
/// `offset` falls in is replaced by its split pieces; every other entry is
/// unchanged.
pub open spec fn spec_map_result(s: Seq<RegionEntry>, offset: usize, phy: Arc<PhyMem>) -> Seq<
    RegionEntry,
> {
    let i = find_region(s, offset as int);
    s.subrange(0, i) + split_pieces(s[i], offset, phy) + s.subrange(i + 1, s.len() as int)
}

/// A successful `map` preserves the region-table invariant.
#[verifier::rlimit(60)]
pub proof fn lemma_map_result_wf(s: Seq<RegionEntry>, total: int, offset: usize, phy: Arc<PhyMem>)
    requires
        table_wf(s, total),
        phy.len > 0,
        offset < total,
        total <= usize::MAX,
        spec_map_ok(s, total, offset as int, phy.len as int),
    ensures
        table_wf(spec_map_result(s, offset, phy), total),
{
    let i = find_region(s, offset as int);
    lemma_find_region_in_wf(s, total, offset as int);
    let e = s[i];
    let pieces = split_pieces(e, offset, phy);
    let r = spec_map_result(s, offset, phy);
    let lead_len = offset - e.start;
    let trail_len = entry_end(e) - offset - phy.len;
    let lead_n: int = if lead_len > 0 { 1 } else { 0 };
    let trail_n: int = if trail_len > 0 { 1 } else { 0 };
    assert(pieces.len() == lead_n + 1 + trail_n);
    assert(r.len() == s.len() - 1 + pieces.len());
    lemma_entry_in_range(s, total, i);
    assert forall|k: int| 0 <= k < r.len() - 1 implies entry_end(#[trigger] r[k]) == r[k + 1].start by {
        if k < i - 1 {
            assert(r[k] == s[k] && r[k + 1] == s[k + 1]);
            assert(entry_end(s[k]) == s[k + 1].start);
        } else if k == i - 1 {
            assert(r[k] == s[k]);
            assert(r[k + 1] == pieces[0]);
            assert(entry_end(s[k]) == s[i].start);
        } else if k < i + pieces.len() {
            if k + 1 < i + pieces.len() {
                assert(r[k] == pieces[k - i] && r[k + 1] == pieces[k - i + 1]);
            } else {
                assert(r[k] == pieces[pieces.len() - 1]);
                assert(r[k + 1] == s[i + 1]);
                assert(entry_end(s[i]) == s[i + 1].start);
            }
        } else {
            assert(r[k] == s[k - pieces.len() + 1] && r[k + 1] == s[k - pieces.len() + 2]);
            assert(entry_end(s[k - pieces.len() + 1]) == s[k - pieces.len() + 2].start);
        }
    }
    assert(r[r.len() - 1] == if i == s.len() - 1 {
        pieces[pieces.len() - 1]
    } else {
        s[s.len() - 1]
    });
    assert(entry_end(r[r.len() - 1]) == total);
    assert forall|k: int| 0 <= k < r.len() implies region_len(#[trigger] r[k].region) > 0 by {
        if k < i {
            assert(r[k] == s[k]);
        } else if k < i + pieces.len() {
            assert(r[k] == pieces[k - i]);
        } else {
            assert(r[k] == s[k - pieces.len() + 1]);
        }
    }
    assert(r[0].start == 0);
}

/// In a well-formed table, `find_region` lands on the entry containing
/// `offset`.
#[verifier::rlimit(60)]
pub proof fn lemma_find_region_in_wf(s: Seq<RegionEntry>, total: int, offset: int)
    requires
        table_wf(s, total),
        0 <= offset < total,
    ensures
        ({
            let i = find_region(s, offset);
            &&& 0 <= i < s.len()
            &&& s[i].start <= offset < entry_end(s[i])
            &&& forall|j: int| i < j < s.len() ==> s[j].start > offset
        }),
    decreases s.len(),
{
    let i = find_region(s, offset);
    if s[s.len() - 1].start <= offset {
        assert(i == s.len() - 1);
    } else {
        let s2 = s.drop_last();
        let total2 = s[s.len() - 1].start as int;
        assert(table_wf(s2, total2)) by {
            assert forall|k: int| 0 <= k < s2.len() - 1 implies entry_end(#[trigger] s2[k])
                == s2[k + 1].start by {
                assert(s2[k] == s[k] && s2[k + 1] == s[k + 1]);
                assert(entry_end(s[k]) == s[k + 1].start);
            }
            assert(s2[s2.len() - 1] == s[s.len() - 2]);
            assert(entry_end(s[s.len() - 2]) == s[s.len() - 1].start);
        }
        lemma_find_region_in_wf(s2, total2, offset);
        let i2 = find_region(s2, offset);
        assert(i == i2);
        assert(s2[i2] == s[i2]);
        assert forall|j: int| i < j < s.len() implies s[j].start > offset by {
            if j < s.len() - 1 {
                assert(s2[j] == s[j]);
                assert(s2[j].start > offset);
            }
        }
    }
}


impl VirMem {
    /// Maps `phy` at byte offset `offset` of this space.
    ///
    /// Succeeds exactly when the handle fits inside the reserved range and
    /// the segment `offset` falls in is vacant and long enough to hold it
    /// from `offset` on.  On success the vacant segment is split: a new
    /// mapped segment at `offset`, a leading vacant remainder if the mapping
    /// starts strictly inside the segment, a trailing vacant remainder if it
    /// ends strictly before the segment does.  The driver-level map and
    /// access-grant calls for `[offset, offset + phy.len)` accompany this
    /// bookkeeping on the collaborator's side.  On failure the table is
    /// untouched and the violation is reported.
    pub fn map(&mut self, offset: usize, phy: Arc<PhyMem>) -> (r: Result<Segment, MemError>)
        requires
            old(self).wf(),
            phy.wf(),
        ensures
            final(self).len == old(self).len,
            final(self).wf(),
            r is Ok <==> spec_map_ok(
                old(self).regions@,
                old(self).len as int,
                offset as int,
                phy.len as int,
            ),
            r is Err ==> *final(self) == *old(self),
            r == Err::<Segment, MemError>(MemError::OutOfRange) <==> offset + phy.len > old(
                self,
            ).len,
            r matches Ok(seg) ==> seg == (Segment { start: offset, len: phy.len, mapped: true }),
            r is Ok ==> final(self).regions@ =~= spec_map_result(old(self).regions@, offset, phy),
            r == Err::<Segment, MemError>(MemError::AlreadyMapped) <==> (offset + phy.len <= old(
                self,
            ).len && old(self).regions@[find_region(old(self).regions@, offset as int)].region
                is Mapped),
            r == Err::<Segment, MemError>(MemError::Oversized) <==> (offset + phy.len <= old(
                self,
            ).len && !(old(self).regions@[find_region(old(self).regions@, offset as int)].region
                is Mapped) && offset + phy.len > entry_end(
                old(self).regions@[find_region(old(self).regions@, offset as int)],
            )),
    {
        let ghost s0 = self.regions@;
        let ghost total = self.len as int;
        let phy_len = phy.len();
        if offset > self.len || phy_len > self.len - offset {
            return Err(MemError::OutOfRange);
        }
        let n = self.regions.len();
        let i = self.find_region_idx(offset);
        let e_start = self.regions[i].start;
        let vac_len: usize;
        match &self.regions[i].region {
            PhyRegion::Mapped(_) => {
                return Err(MemError::AlreadyMapped);
            },
            PhyRegion::Vacant(n) => {
                vac_len = *n;
            },
        }
        let lead_len = offset - e_start;
        if phy_len > vac_len - lead_len {
            return Err(MemError::Oversized);
        }
        let trail_len = (vac_len - lead_len) - phy_len;
        self.regions.remove(i);
        if trail_len > 0 {
            self.regions.insert(
                i,
                RegionEntry { start: offset + phy_len, region: PhyRegion::Vacant(trail_len) },
            );
        }
        self.regions.insert(i, RegionEntry { start: offset, region: PhyRegion::Mapped(phy) });
        if lead_len > 0 {
            self.regions.insert(
                i,
                RegionEntry { start: e_start, region: PhyRegion::Vacant(lead_len) },
            );
        }
        proof {
            let r = spec_map_result(s0, offset, phy);
            let pieces = split_pieces(s0[i as int], offset, phy);
            assert(self.regions@ =~= r);
            lemma_map_result_wf(s0, total, offset, phy);
        }
        Ok(Segment { start: offset, len: phy_len, mapped: true })
    }
}


/// Index of the entry starting exactly at `offset`; `-1` if no segment
/// boundary lies there.
pub open spec fn boundary_idx(s: Seq<RegionEntry>, offset: int) -> int
    decreases s.len(),
{
    if s.len() == 0 {
        -1
    } else if s[s.len() - 1].start == offset {
        s.len() - 1
    } else {
        boundary_idx(s.drop_last(), offset)
    }
}

/// Whether some segment starts exactly at `offset`.
pub open spec fn has_boundary(s: Seq<RegionEntry>, offset: int) -> bool {
    boundary_idx(s, offset) >= 0
}

/// `boundary_idx` finds exactly the entry starting at `offset` when there is
/// one past which no other does, and reports absence otherwise.
pub proof fn lemma_boundary_idx_is(s: Seq<RegionEntry>, offset: int, j: int)
    requires
        0 <= j < s.len(),
        s[j].start == offset,
        forall|k: int| j < k < s.len() ==> s[k].start != offset,
    ensures
        boundary_idx(s, offset) == j,
    decreases s.len(),
{
    if j < s.len() - 1 {
        assert(s.drop_last()[j] == s[j]);
        lemma_boundary_idx_is(s.drop_last(), offset, j);
    }
}

/// When no entry starts at `offset`, `boundary_idx` reports absence.
pub proof fn lemma_boundary_idx_none(s: Seq<RegionEntry>, offset: int)
    requires
        forall|k: int| 0 <= k < s.len() ==> s[k].start != offset,
    ensures
        boundary_idx(s, offset) == -1,
    decreases s.len(),
{
    if s.len() > 0 {
        assert forall|k: int| 0 <= k < s.drop_last().len() implies s.drop_last()[k].start
            != offset by {
            assert(s.drop_last()[k] == s[k]);
        }
        lemma_boundary_idx_none(s.drop_last(), offset);
    }
}

/// The table after a successful `unmap(offset)`: the mapped entry starting
/// at `offset` is replaced in place by a vacant segment of the same length.
pub open spec fn spec_unmap_result(s: Seq<RegionEntry>, offset: int) -> Seq<RegionEntry> {
    let j = boundary_idx(s, offset);
    s.update(
        j,
        RegionEntry {
            start: s[j].start,
            region: PhyRegion::Vacant(region_len(s[j].region) as usize),
        },
    )
}

/// The handles of the mapped entries of the table, in ascending offset
/// order.
pub open spec fn mapped_handles(s: Seq<RegionEntry>) -> Seq<Arc<PhyMem>>
    decreases s.len(),
{
    if s.len() == 0 {
        seq![]
    } else {
        mapped_handles(s.drop_last()) + (match s[s.len() - 1].region {
            PhyRegion::Mapped(p) => seq![p],
            PhyRegion::Vacant(_) => seq![],
        })
    }
}

impl VirMem {
    /// Unmaps the segment starting exactly at `offset`, returning the
    /// physical handle it held: the table's reference moves back to the
    /// caller.  The mapped entry is replaced in place by a vacant segment of
    /// the same length; vacant neighbours are left unmerged.  Fails when no
    /// segment starts at `offset` or the one that does is vacant, leaving
    /// the table untouched.  The driver-level unmap call for the segment
    /// accompanies this bookkeeping on the collaborator's side.
    pub fn unmap(&mut self, offset: usize) -> (r: Result<Arc<PhyMem>, MemError>)
        requires
            old(self).wf(),
        ensures
            final(self).len == old(self).len,
            final(self).wf(),
            r is Err ==> final(self).regions@ == old(self).regions@,
            r == Err::<Arc<PhyMem>, MemError>(MemError::NotABoundary) <==> !has_boundary(
                old(self).regions@,
                offset as int,
            ),
            r == Err::<Arc<PhyMem>, MemError>(MemError::NotMapped) <==> (has_boundary(
                old(self).regions@,
                offset as int,
            ) && !(old(self).regions@[boundary_idx(old(self).regions@, offset as int)].region
                is Mapped)),
            r is Ok <==> (has_boundary(old(self).regions@, offset as int) && old(
                self,
            ).regions@[boundary_idx(old(self).regions@, offset as int)].region is Mapped),
            r matches Ok(p) ==> old(self).regions@[boundary_idx(
                old(self).regions@,
                offset as int,
            )].region == PhyRegion::Mapped(p) && final(self).regions@ =~= spec_unmap_result(
                old(self).regions@,
                offset as int,
            ),
    {
        let ghost s0 = self.regions@;
        let ghost total = self.len as int;
        let n = self.regions.len();
        let mut j: usize = 0;
        while j < n && self.regions[j].start != offset
            invariant
                j <= n,
                n == self.regions@.len(),
                self.regions@ == s0,
                forall|k: int| 0 <= k < j ==> s0[k].start != offset,
            decreases n - j,
        {
            j = j + 1;
        }
        if j == n {
            proof {
                lemma_boundary_idx_none(s0, offset as int);
            }
            return Err(MemError::NotABoundary);
        }
        proof {
            assert forall|k: int| j < k < s0.len() implies s0[k].start != offset by {
                lemma_entry_order(s0, total, j as int, k);
            }
            lemma_boundary_idx_is(s0, offset as int, j as int);
        }
        let entry = self.regions.remove(j);
        let RegionEntry { start: e_start, region: e_region } = entry;
        match e_region {
            PhyRegion::Mapped(p) => {
                let plen = p.len();
                self.regions.insert(
                    j,
                    RegionEntry { start: e_start, region: PhyRegion::Vacant(plen) },
                );
                proof {
                    assert(self.regions@ =~= spec_unmap_result(s0, offset as int));
                    assert forall|k: int| 0 <= k < self.regions@.len() - 1 implies #[trigger] entry_end(
                        self.regions@[k],
                    ) == self.regions@[k + 1].start by {
                        assert(entry_end(s0[k]) == s0[k + 1].start);
                        assert(region_len(self.regions@[k].region) == region_len(s0[k].region));
                    }
                    assert(region_len(self.regions@[self.regions@.len() - 1].region)
                        == region_len(s0[s0.len() - 1].region));
                    assert forall|k: int| 0 <= k < self.regions@.len() implies region_len(
                        #[trigger] self.regions@[k].region,
                    ) > 0 by {
                        assert(region_len(s0[k].region) > 0);
                    }
                }
                Ok(p)
            },
            PhyRegion::Vacant(m) => {
                self.regions.insert(
                    j,
                    RegionEntry { start: e_start, region: PhyRegion::Vacant(m) },
                );
                proof {
                    assert(self.regions@ =~= s0);
                }
                Err(MemError::NotMapped)
            },
        }
    }

    /// Replaces every mapped segment by a vacant one of the same length and
    /// hands the physical handles back, in ascending offset order.  This is
    /// the bookkeeping of tearing a space down: each returned handle owes
    /// the collaborator a driver-level unmap of its former segment before
    /// the range is freed, and survives if other owners still hold it.
    pub fn unmap_all(&mut self) -> (r: Vec<Arc<PhyMem>>)
        requires
            old(self).wf(),
        ensures
            final(self).wf(),
            final(self).len == old(self).len,
            final(self).regions@.len() == old(self).regions@.len(),
            forall|k: int| 0 <= k < old(self).regions@.len() ==> ({
                let e0 = old(self).regions@[k];
                let e1 = #[trigger] final(self).regions@[k];
                e1.start == e0.start && region_len(e1.region) == region_len(e0.region) && !(
                e1.region is Mapped)
            }),
            r@ == mapped_handles(old(self).regions@),
    {
        let ghost s0 = self.regions@;
        let n = self.regions.len();
        let mut out: Vec<Arc<PhyMem>> = Vec::new();
        let mut k: usize = 0;
        while k < n
            invariant
                k <= n,
                n == self.regions@.len(),
                n == s0.len(),
                self.len == old(self).len,
                s0 == old(self).regions@,
                table_wf(s0, self.len as int),
                forall|k2: int| k <= k2 < n ==> #[trigger] self.regions@[k2] == s0[k2],
                forall|k2: int| 0 <= k2 < k ==> (#[trigger] self.regions@[k2]).start
                    == s0[k2].start && region_len(self.regions@[k2].region) == region_len(
                    s0[k2].region,
                ) && !(self.regions@[k2].region is Mapped),
                out@ == mapped_handles(s0.take(k as int)),
            decreases n - k,
        {
            let ghost s_pre = self.regions@;
            let is_mapped = match &self.regions[k].region {
                PhyRegion::Mapped(_) => true,
                PhyRegion::Vacant(_) => false,
            };
            if is_mapped {
                let entry = self.regions.remove(k);
                let RegionEntry { start: e_start, region: e_region } = entry;
                match e_region {
                    PhyRegion::Mapped(p) => {
                        let plen = p.len();
                        self.regions.insert(
                            k,
                            RegionEntry { start: e_start, region: PhyRegion::Vacant(plen) },
                        );
                        out.push(p);
                    },
                    PhyRegion::Vacant(m) => {
                        self.regions.insert(
                            k,
                            RegionEntry { start: e_start, region: PhyRegion::Vacant(m) },
                        );
                    },
                }
            }
            proof {
                assert(s0.take(k as int + 1).drop_last() =~= s0.take(k as int));
                assert(s0.take(k as int + 1)[k as int] == s0[k as int]);
            }
            k = k + 1;
        }
        proof {
            assert(s0.take(n as int) =~= s0);
            assert forall|k2: int| 0 <= k2 < self.regions@.len() - 1 implies #[trigger] entry_end(
                self.regions@[k2],
            ) == self.regions@[k2 + 1].start by {
                assert(entry_end(s0[k2]) == s0[k2 + 1].start);
                assert(region_len(self.regions@[k2].region) == region_len(s0[k2].region));
            }
            assert(region_len(self.regions@[self.regions@.len() - 1].region) == region_len(
                s0[s0.len() - 1].region,
            ));
            assert forall|k2: int| 0 <= k2 < self.regions@.len() implies region_len(
                #[trigger] self.regions@[k2].region,
            ) > 0 by {
                assert(region_len(s0[k2].region) > 0);
            }
        }
        out
    }
}

/// The plain description of one table entry.
pub open spec fn seg_of(e: RegionEntry) -> Segment {
    Segment { start: e.start, len: region_len(e.region) as usize, mapped: e.region is Mapped }
}

impl VirMem {
    /// The current table as plain segment descriptions, in table order.
    pub fn segments(&self) -> (r: Vec<Segment>)
        ensures
            r@.len() == self.regions@.len(),
            forall|k: int| 0 <= k < r@.len() ==> #[trigger] r@[k] == seg_of(self.regions@[k]),
    {
        let mut out: Vec<Segment> = Vec::new();
        let n = self.regions.len();
        let mut k: usize = 0;
        while k < n
            invariant
                k <= n,
                n == self.regions@.len(),
                out@.len() == k,
                forall|k2: int| 0 <= k2 < k ==> #[trigger] out@[k2] == seg_of(self.regions@[k2]),
            decreases n - k,
        {
            let e = &self.regions[k];
            let l: usize = match &e.region {
                PhyRegion::Mapped(p) => p.len(),
                PhyRegion::Vacant(m) => *m,
            };
            let m = match &e.region {
                PhyRegion::Mapped(_) => true,
                PhyRegion::Vacant(_) => false,
            };
            out.push(Segment { start: e.start, len: l, mapped: m });
            k = k + 1;
        }
        out
    }
}


/// The segments that remain of a vacant segment once a mapping of `plen`
/// bytes at `offset` has been laid into it and unmapped again: the same
/// split as [`split_pieces`], with the middle piece vacant.
pub open spec fn vacant_pieces(e: RegionEntry, offset: usize, plen: usize) -> Seq<RegionEntry> {
    let lead_len = offset - e.start;
    let trail_len = entry_end(e) - offset - plen;
    let lead: Seq<RegionEntry> = if lead_len > 0 {
        seq![RegionEntry { start: e.start, region: PhyRegion::Vacant(lead_len as usize) }]
    } else {
        seq![]
    };
    let trail: Seq<RegionEntry> = if trail_len > 0 {
        seq![
            RegionEntry {
                start: (offset + plen) as usize,
                region: PhyRegion::Vacant(trail_len as usize),
            },
        ]
    } else {
        seq![]
    };
    lead + seq![RegionEntry { start: offset, region: PhyRegion::Vacant(plen) }] + trail
}

/// Mapping and then unmapping at the same offset restores a table of vacant
/// segments covering exactly what was vacant before: every other entry is
/// unchanged, and the split boundaries the mapping introduced are kept, so
/// neighbouring vacant segments are not merged back.
pub proof fn lemma_map_unmap_round_trip(
    s: Seq<RegionEntry>,
    total: int,
    offset: usize,
    phy: Arc<PhyMem>,
)
    requires
        table_wf(s, total),
        phy.len > 0,
        total <= usize::MAX,
        spec_map_ok(s, total, offset as int, phy.len as int),
    ensures
        ({
            let m = spec_map_result(s, offset, phy);
            let u = spec_unmap_result(m, offset as int);
            let i = find_region(s, offset as int);
            let lead_n: int = if s[i].start < offset { 1 } else { 0 };
            let trail_n: int = if offset + phy.len < entry_end(s[i]) { 1 } else { 0 };
            // unmapping at `offset` is a success on the mapped table
            &&& has_boundary(m, offset as int)
            &&& m[boundary_idx(m, offset as int)].region == PhyRegion::Mapped(phy)
            // the round trip leaves the split vacant, everything else as it was
            &&& u =~= s.subrange(0, i) + vacant_pieces(s[i], offset, phy.len) + s.subrange(
                i + 1,
                s.len() as int,
            )
            // the split boundaries stay: no merging of vacant neighbours
            &&& u.len() == s.len() + lead_n + trail_n
        }),
{
    let i = find_region(s, offset as int);
    lemma_find_region_in_wf(s, total, offset as int);
    lemma_entry_in_range(s, total, i);
    let m = spec_map_result(s, offset, phy);
    lemma_map_result_wf(s, total, offset, phy);
    let e = s[i];
    let pieces = split_pieces(e, offset, phy);
    let lead_n: int = if s[i].start < offset { 1 } else { 0 };
    let j = i + lead_n;
    assert(m[j] == pieces[lead_n]);
    assert(m[j].start == offset && m[j].region == PhyRegion::Mapped(phy));
    assert forall|k: int| j < k < m.len() implies m[k].start != offset by {
        lemma_entry_order(m, total, j, k);
    }
    lemma_boundary_idx_is(m, offset as int, j);
    let u = spec_unmap_result(m, offset as int);
    let v = s.subrange(0, i) + vacant_pieces(e, offset, phy.len) + s.subrange(
        i + 1,
        s.len() as int,
    );
    assert forall|k: int| 0 <= k < v.len() implies u[k] == v[k] by {
        if k < i {
            assert(u[k] == s[k] && v[k] == s[k]);
        } else if k < i + pieces.len() {
            if k == j {
                assert(v[k] == vacant_pieces(e, offset, phy.len)[lead_n]);
            } else {
                assert(u[k] == pieces[k - i]);
                assert(v[k] == vacant_pieces(e, offset, phy.len)[k - i]);
            }
        } else {
            assert(u[k] == s[k - pieces.len() + 1] && v[k] == s[k - pieces.len() + 1]);
        }
    }
    assert(u =~= v);
}

/// Mapping a handle that exactly fills a vacant segment, at that segment's
/// start, replaces the one entry in place: no leading or trailing vacant
/// remainder appears and the table keeps its length.
pub proof fn lemma_map_exact_fit(s: Seq<RegionEntry>, total: int, offset: usize, phy: Arc<PhyMem>)
    requires
        table_wf(s, total),
        phy.len > 0,
        total <= usize::MAX,
        spec_map_ok(s, total, offset as int, phy.len as int),
        s[find_region(s, offset as int)].start == offset,
        region_len(s[find_region(s, offset as int)].region) == phy.len,
    ensures
        spec_map_result(s, offset, phy) =~= s.update(
            find_region(s, offset as int),
            RegionEntry { start: offset, region: PhyRegion::Mapped(phy) },
        ),
        spec_map_result(s, offset, phy).len() == s.len(),
{
    let i = find_region(s, offset as int);
    lemma_find_region_in_wf(s, total, offset as int);
    let r = spec_map_result(s, offset, phy);
    let t = s.update(i, RegionEntry { start: offset, region: PhyRegion::Mapped(phy) });
    assert forall|k: int| 0 <= k < t.len() implies r[k] == t[k] by {
        if k < i {
            assert(r[k] == s[k]);
        } else if k == i {
            assert(r[k] == split_pieces(s[i], offset, phy)[0]);
        } else {
            assert(r[k] == s[k]);
        }
    }
    assert(r =~= t);
}

/// Mapping at an offset strictly inside a vacant segment that runs on past
/// the end of the handle splits it in three: a leading vacant remainder, the
/// mapped segment, and a trailing vacant remainder, whose lengths sum
/// exactly to the length of the original vacant segment.
pub proof fn lemma_map_interior_split(
    s: Seq<RegionEntry>,
    total: int,
    offset: usize,
    phy: Arc<PhyMem>,
)
    requires
        table_wf(s, total),
        phy.len > 0,
        total <= usize::MAX,
        spec_map_ok(s, total, offset as int, phy.len as int),
        s[find_region(s, offset as int)].start < offset,
        offset + phy.len < entry_end(s[find_region(s, offset as int)]),
    ensures
        ({
            let i = find_region(s, offset as int);
            let e = s[i];
            let r = spec_map_result(s, offset, phy);
            &&& r.len() == s.len() + 2
            &&& r[i] == RegionEntry {
                start: e.start,
                region: PhyRegion::Vacant((offset - e.start) as usize),
            }
            &&& r[i + 1] == RegionEntry { start: offset, region: PhyRegion::Mapped(phy) }
            &&& r[i + 2] == RegionEntry {
                start: (offset + phy.len) as usize,
                region: PhyRegion::Vacant((entry_end(e) - offset - phy.len) as usize),
            }
            &&& region_len(r[i].region) + phy.len + region_len(r[i + 2].region) == region_len(
                e.region,
            )
        }),
{
    let i = find_region(s, offset as int);
    lemma_find_region_in_wf(s, total, offset as int);
    lemma_entry_in_range(s, total, i);
    let e = s[i];
    let pieces = split_pieces(e, offset, phy);
    let r = spec_map_result(s, offset, phy);
    assert(pieces.len() == 3);
    assert(r[i] == pieces[0] && r[i + 1] == pieces[1] && r[i + 2] == pieces[2]);
}

} // verus!
