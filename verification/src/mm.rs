//! Address spaces: an ordered collection of page-aligned mapped areas, each
//! with a permission set and its own backing bytes.
use vstd::prelude::*;
use crate::config::{max_vpn, max_vpn_exec, PAGE_SIZE, USER_STACK_SIZE};
use crate::elf::{image_ok, parse, ph_count, segments_of, u64_at, Segment};

verus! {

/// Permission bit: readable.
pub const PERM_R: u8 = 2;
/// Permission bit: writable.
pub const PERM_W: u8 = 4;
/// Permission bit: executable.
pub const PERM_X: u8 = 8;
/// Permission bit: accessible from user mode.
pub const PERM_U: u8 = 16;

/// A set of permission bits of a mapped area.
#[derive(Clone, Copy, Debug)]
pub struct MapPermission {
    pub bits: u8,
}

/// Whether `port` names a non-empty subset of {read, write, exec}.
pub open spec fn port_valid(port: int) -> bool {
    1 <= port <= 7
}

/// The permission bits that `mmap` derives from a valid `port`.
pub open spec fn port_bits(port: int) -> int {
    port * 2 + 16
}

impl MapPermission {
    /// The permission set with exactly the given bits, if they are all known.
    pub fn from_bits(bits: u8) -> (r: Option<MapPermission>)
        ensures
            r == if bits % 2 == 0 && bits < 32 {
                Some(MapPermission { bits })
            } else {
                None::<MapPermission>
            },
    {
        assert((bits & 0xe1u8 == 0) == (bits % 2 == 0 && bits < 32)) by (bit_vector);
        if bits & 0xe1u8 == 0 {
            Some(MapPermission { bits })
        } else {
            None
        }
    }

    /// The raw bits.
    pub fn bits(&self) -> (r: u8)
        ensures
            r == self.bits,
    {
        self.bits
    }

    /// The permission set of a user mapping requested with `port`.
    pub fn from_port(port: usize) -> (r: Option<MapPermission>)
        ensures
            r == if port_valid(port as int) {
                Some(MapPermission { bits: port_bits(port as int) as u8 })
            } else {
                None::<MapPermission>
            },
    {
        assert((port & !0x7usize != 0 || port & 0x7usize == 0) == !(1 <= port <= 7)) by (bit_vector);
        if port & !0x7usize != 0 || port & 0x7usize == 0 {
            return None;
        }
        let low: u8 = port as u8;
        assert(1 <= low <= 7 ==> (low << 1u8) | 16u8 == low * 2 + 16) by (bit_vector);
        Some(MapPermission { bits: (low << 1) | PERM_U })
    }
}

/// The mathematical content of a mapped area: the pages `start..end`, their
/// permission set, and one byte of backing for every address in them.
pub struct AreaView {
    pub start: int,
    pub end: int,
    pub perm: MapPermission,
    pub data: Seq<u8>,
}

impl AreaView {
    /// The invariant of an area: its pages end at a representable address,
    /// and it has 4096 bytes of backing for each of them.
    pub open spec fn wf(self) -> bool {
        &&& 0 <= self.start <= self.end <= max_vpn()
        &&& self.data.len() == (self.end - self.start) * 4096
    }

    /// Page `vpn` belongs to this area.
    pub open spec fn contains(self, vpn: int) -> bool {
        self.start <= vpn < self.end
    }

    /// The area and the page range `s..e` are in each other's way.
    pub open spec fn collides(self, s: int, e: int) -> bool {
        self.start < e && self.end > s
    }

    /// Address of the area's first byte.
    pub open spec fn base(self) -> int {
        self.start * 4096
    }
}

/// A framed area whose bytes are all zero.
pub open spec fn fresh_area(start: int, end: int, perm: MapPermission) -> AreaView {
    AreaView { start, end, perm, data: Seq::new(((end - start) * 4096) as nat, |k: int| 0u8) }
}

/// One mapped area of an address space.
pub struct MapArea {
    start_vpn: usize,
    end_vpn: usize,
    perm: MapPermission,
    data: Vec<u8>,
}

impl View for MapArea {
    type V = AreaView;

    closed spec fn view(&self) -> AreaView {
        AreaView {
            start: self.start_vpn as int,
            end: self.end_vpn as int,
            perm: self.perm,
            data: self.data@,
        }
    }
}

impl MapArea {
    /// First page of the area.
    pub fn get_start(&self) -> (r: usize)
        ensures
            r == self@.start,
    {
        self.start_vpn
    }

    /// One past the last page of the area.
    pub fn get_end(&self) -> (r: usize)
        ensures
            r == self@.end,
    {
        self.end_vpn
    }

    /// The area's permission set.
    pub fn get_perm(&self) -> (r: MapPermission)
        ensures
            r == self@.perm,
    {
        self.perm
    }

    /// A new area over pages `start..end` with zeroed backing.
    fn new_zeroed(start: usize, end: usize, perm: MapPermission) -> (r: MapArea)
        requires
            start <= end <= max_vpn(),
        ensures
            r@ == fresh_area(start as int, end as int, perm),
            r@.wf(),
    {
        let n: usize = (end - start) * PAGE_SIZE;
        let data: Vec<u8> = vec![0u8; n];
        assert(data@ =~= fresh_area(start as int, end as int, perm).data);
        MapArea { start_vpn: start, end_vpn: end, perm, data }
    }
}

/// Every area is well formed and no two areas are in each other's way.
pub open spec fn areas_wf(s: Seq<AreaView>) -> bool {
    &&& forall|i: int| 0 <= i < s.len() ==> (#[trigger] s[i]).wf()
    &&& forall|i: int, j: int|
        0 <= i < j < s.len() ==> !(#[trigger] s[i]).collides((#[trigger] s[j]).start, s[j].end)
}

/// Some area contains page `vpn`.
pub open spec fn page_mapped(s: Seq<AreaView>, vpn: int) -> bool {
    exists|i: int| 0 <= i < s.len() && (#[trigger] s[i]).contains(vpn)
}

/// Index of the area that contains page `vpn`.
pub open spec fn page_owner(s: Seq<AreaView>, vpn: int) -> int {
    choose|i: int| 0 <= i < s.len() && (#[trigger] s[i]).contains(vpn)
}

/// Every page of `lo..hi` is mapped.
pub open spec fn pages_mapped(s: Seq<AreaView>, lo: int, hi: int) -> bool {
    forall|v: int| lo <= v < hi ==> #[trigger] page_mapped(s, v)
}

/// Some area is in the way of the page range `lo..hi`.
pub open spec fn range_collides(s: Seq<AreaView>, lo: int, hi: int) -> bool {
    exists|i: int| 0 <= i < s.len() && (#[trigger] s[i]).collides(lo, hi)
}

/// Address `a` is mapped.
pub open spec fn addr_mapped(s: Seq<AreaView>, a: int) -> bool {
    page_mapped(s, a / 4096)
}

/// Every address of `addr..addr + len` is mapped.
pub open spec fn bytes_mapped(s: Seq<AreaView>, addr: int, len: int) -> bool {
    forall|a: int| addr <= a < addr + len ==> #[trigger] addr_mapped(s, a)
}

/// The byte stored at the mapped address `a`.
pub open spec fn byte_at(s: Seq<AreaView>, a: int) -> u8 {
    let area = s[page_owner(s, a / 4096)];
    area.data[a - area.base()]
}

/// The bytes stored at `addr..addr + len`.
pub open spec fn bytes_at(s: Seq<AreaView>, addr: int, len: int) -> Seq<u8> {
    Seq::new(len as nat, |k: int| byte_at(s, addr + k))
}

/// In a well-formed address space the area that contains a page is unique.
pub proof fn lemma_owner_unique(s: Seq<AreaView>, vpn: int, i: int)
    requires
        areas_wf(s),
        0 <= i < s.len(),
        s[i].contains(vpn),
    ensures
        page_mapped(s, vpn),
        page_owner(s, vpn) == i,
{
    let j = page_owner(s, vpn);
    assert(0 <= j < s.len() && s[j].contains(vpn));
    if j < i {
        assert(!s[j].collides(s[i].start, s[i].end));
    } else if i < j {
        assert(!s[i].collides(s[j].start, s[j].end));
    }
}

/// Page number of the page that holds address `a`.
pub open spec fn page_floor(a: int) -> int {
    a / 4096
}

/// Number of the first page that starts at or after address `a`.
pub open spec fn page_ceil(a: int) -> int {
    (a + 4095) / 4096
}

/// Executable form of [`page_floor`].
pub fn floor_vpn(a: usize) -> (r: usize)
    ensures
        r == page_floor(a as int),
{
    a / PAGE_SIZE
}

/// Executable form of [`page_ceil`].
pub fn ceil_vpn(a: usize) -> (r: usize)
    ensures
        r == page_ceil(a as int),
{
    if a % PAGE_SIZE == 0 {
        a / PAGE_SIZE
    } else {
        a / PAGE_SIZE + 1
    }
}

/// An address space: the ordered collection of a task's mapped areas.
pub struct MemorySet {
    areas: Vec<MapArea>,
}

impl View for MemorySet {
    type V = Seq<AreaView>;

    closed spec fn view(&self) -> Seq<AreaView> {
        Seq::new(self.areas@.len(), |i: int| self.areas@[i]@)
    }
}

impl MemorySet {
    /// The invariant of an address space.
    pub open spec fn wf(&self) -> bool {
        areas_wf(self@)
    }

    /// An address space without any area.
    pub fn new_bare() -> (r: MemorySet)
        ensures
            r@ == Seq::<AreaView>::empty(),
            r.wf(),
    {
        let r = MemorySet { areas: Vec::new() };
        assert(r@ =~= Seq::<AreaView>::empty());
        r
    }

    /// Number of areas.
    pub fn area_count(&self) -> (r: usize)
        ensures
            r == self@.len(),
    {
        self.areas.len()
    }

    /// The areas, in order.
    pub fn get_areas(&self) -> (r: &Vec<MapArea>)
        ensures
            r@.len() == self@.len(),
            forall|i: int| 0 <= i < r@.len() ==> (#[trigger] r@[i])@ == self@[i],
    {
        &self.areas
    }

    /// Index of the area that contains page `vpn`, if it is mapped.
    pub fn find_area(&self, vpn: usize) -> (r: Option<usize>)
        requires
            self.wf(),
        ensures
            r is Some <==> page_mapped(self@, vpn as int),
            r matches Some(i) ==> i < self@.len() && self@[i as int].contains(vpn as int) && i == page_owner(
                self@,
                vpn as int,
            ),
    {
        let mut i: usize = 0;
        while i < self.areas.len()
            invariant
                i <= self.areas.len(),
                self.wf(),
                forall|j: int| 0 <= j < i ==> !(#[trigger] self@[j]).contains(vpn as int),
            decreases self.areas.len() - i,
        {
            if self.areas[i].start_vpn <= vpn && vpn < self.areas[i].end_vpn {
                proof {
                    assert(self@[i as int].contains(vpn as int));
                    lemma_owner_unique(self@, vpn as int, i as int);
                }
                return Some(i);
            }
            i += 1;
        }
        None
    }

    /// Whether some area is in the way of the page range `lo..hi`.
    pub fn overlaps(&self, lo: usize, hi: usize) -> (r: bool)
        ensures
            r == range_collides(self@, lo as int, hi as int),
    {
        let mut i: usize = 0;
        while i < self.areas.len()
            invariant
                i <= self.areas.len(),
                forall|j: int| 0 <= j < i ==> !(#[trigger] self@[j]).collides(lo as int, hi as int),
            decreases self.areas.len() - i,
        {
            if self.areas[i].start_vpn < hi && self.areas[i].end_vpn > lo {
                assert(self@[i as int].collides(lo as int, hi as int));
                return true;
            }
            i += 1;
        }
        false
    }

    /// Maps the pages from the one that holds `start_va` up to the first one
    /// that starts at or after `end_va`, zero-filled, as a new last area.
    /// Nothing changes when an existing area is in the way or the range is
    /// not representable.
    pub fn insert_framed_area(&mut self, start_va: usize, end_va: usize, perm: MapPermission) -> (ok: bool)
        requires
            old(self).wf(),
        ensures
            final(self).wf(),
            ok == insert_allowed(old(self)@, start_va as int, end_va as int),
            ok ==> final(self)@ == old(self)@.push(
                fresh_area(page_floor(start_va as int), page_ceil(end_va as int), perm),
            ),
            !ok ==> final(self)@ == old(self)@,
    {
        let lo = floor_vpn(start_va);
        let hi = ceil_vpn(end_va);
        if lo > hi || hi > max_vpn_exec() || self.overlaps(lo, hi) {
            return false;
        }
        let area = MapArea::new_zeroed(lo, hi, perm);
        self.areas.push(area);
        proof {
            assert(self@ =~= old(self)@.push(fresh_area(lo as int, hi as int, perm)));
            let s = self@;
            assert forall|i: int, j: int| 0 <= i < j < s.len() implies !(#[trigger] s[i]).collides(
                (#[trigger] s[j]).start,
                s[j].end,
            ) by {
                if j == s.len() - 1 {
                    assert(!old(self)@[i].collides(lo as int, hi as int));
                } else {
                    assert(s[i] == old(self)@[i]);
                    assert(s[j] == old(self)@[j]);
                }
            }
        }
        true
    }

    /// The `mmap` operation: maps `start..start + len` with the permissions
    /// that `port` asks for. Returns 0 on success and -1, leaving the address
    /// space as it was, when `port` or `start` is invalid or the range cannot
    /// be inserted.
    pub fn mmap(&mut self, start: usize, len: usize, port: usize) -> (r: isize)
        requires
            old(self).wf(),
        ensures
            final(self).wf(),
            r == 0 || r == -1,
            r == 0 <==> mmap_allowed(old(self)@, start as int, len as int, port as int),
            r == 0 ==> final(self)@ == mmap_result(old(self)@, start as int, len as int, port as int),
            r == -1 ==> final(self)@ == old(self)@,
    {
        let perm = match MapPermission::from_port(port) {
            Some(p) => p,
            None => { return -1; },
        };
        if start % PAGE_SIZE != 0 {
            return -1;
        }
        if len > usize::MAX - start {
            return -1;
        }
        if self.insert_framed_area(start, start + len, perm) {
            0
        } else {
            -1
        }
    }
}

/// Whether the pages spanned by `start_va..end_va` can become a new area.
pub open spec fn insert_allowed(s: Seq<AreaView>, start_va: int, end_va: int) -> bool {
    &&& page_floor(start_va) <= page_ceil(end_va) <= max_vpn()
    &&& !range_collides(s, page_floor(start_va), page_ceil(end_va))
}

/// The inputs on which `mmap` succeeds.
pub open spec fn mmap_allowed(s: Seq<AreaView>, start: int, len: int, port: int) -> bool {
    &&& port_valid(port)
    &&& start % 4096 == 0
    &&& start + len <= usize::MAX
    &&& insert_allowed(s, start, start + len)
}

/// The address space after a successful `mmap`.
pub open spec fn mmap_result(s: Seq<AreaView>, start: int, len: int, port: int) -> Seq<AreaView> {
    s.push(
        fresh_area(
            page_floor(start),
            page_ceil(start + len),
            MapPermission { bits: port_bits(port) as u8 },
        ),
    )
}

/// The area holds at least one page of the non-empty page range `lo..hi`.
pub open spec fn area_hit(a: AreaView, lo: int, hi: int) -> bool {
    a.start < hi && lo < a.end && lo < hi && a.start < a.end
}

/// The part of `a` below page `lo`.
pub open spec fn area_left(a: AreaView, lo: int) -> AreaView {
    AreaView { start: a.start, end: lo, perm: a.perm, data: a.data.subrange(0, (lo - a.start) * 4096) }
}

/// The part of `a` from page `hi` on.
pub open spec fn area_right(a: AreaView, hi: int) -> AreaView {
    AreaView {
        start: hi,
        end: a.end,
        perm: a.perm,
        data: a.data.subrange((hi - a.start) * 4096, a.data.len() as int),
    }
}

/// What is left of one area once the pages `lo..hi` are unmapped: the area
/// itself where it holds none of them, else its part below `lo` and its part
/// from `hi` on, as far as they are not empty.
pub open spec fn area_cut(a: AreaView, lo: int, hi: int) -> Seq<AreaView> {
    if !area_hit(a, lo, hi) {
        seq![a]
    } else {
        let left = if a.start < lo {
            seq![area_left(a, lo)]
        } else {
            Seq::<AreaView>::empty()
        };
        let right = if hi < a.end {
            seq![area_right(a, hi)]
        } else {
            Seq::<AreaView>::empty()
        };
        left + right
    }
}

/// What is left of an address space once the pages `lo..hi` are unmapped:
/// every area is replaced, in place, by what is left of it.
pub open spec fn areas_cut(s: Seq<AreaView>, lo: int, hi: int) -> Seq<AreaView>
    decreases s.len(),
{
    if s.len() == 0 {
        Seq::<AreaView>::empty()
    } else {
        areas_cut(s.drop_last(), lo, hi) + area_cut(s.last(), lo, hi)
    }
}

/// The inputs on which `munmap` succeeds.
pub open spec fn munmap_allowed(s: Seq<AreaView>, start: int, len: int) -> bool {
    &&& start % 4096 == 0
    &&& len % 4096 == 0
    &&& pages_mapped(s, start / 4096, (start + len) / 4096)
}

/// The address space after a successful `munmap`.
pub open spec fn munmap_result(s: Seq<AreaView>, start: int, len: int) -> Seq<AreaView> {
    areas_cut(s, start / 4096, (start + len) / 4096)
}

proof fn lemma_cut_step(s: Seq<AreaView>, k: int, lo: int, hi: int)
    requires
        0 <= k < s.len(),
    ensures
        areas_cut(s.subrange(0, k + 1), lo, hi) == areas_cut(s.subrange(0, k), lo, hi) + area_cut(
            s[k],
            lo,
            hi,
        ),
{
    let t = s.subrange(0, k + 1);
    assert(t.drop_last() =~= s.subrange(0, k));
    assert(t.last() == s[k]);
}

/// Replacing one area by non-empty parts of itself that do not overlap keeps
/// an address space well formed.
proof fn lemma_refine_wf(before: Seq<AreaView>, after: Seq<AreaView>, i: int, pieces: Seq<AreaView>)
    requires
        areas_wf(before),
        0 <= i < before.len(),
        after == before.subrange(0, i) + pieces + before.subrange(i + 1, before.len() as int),
        forall|p: int|
            0 <= p < pieces.len() ==> {
                &&& (#[trigger] pieces[p]).wf()
                &&& before[i].start <= pieces[p].start
                &&& pieces[p].end <= before[i].end
            },
        forall|p: int, q: int|
            0 <= p < q < pieces.len() ==> !(#[trigger] pieces[p]).collides(
                (#[trigger] pieces[q]).start,
                pieces[q].end,
            ),
    ensures
        areas_wf(after),
{
    let n = pieces.len() as int;
    let src = |x: int| if x < i { x } else if x < i + n { i } else { x - n + 1 };
    assert forall|x: int| 0 <= x < after.len() implies (#[trigger] after[x]).wf() by {
        if x < i {
            assert(after[x] == before[x]);
        } else if x < i + n {
            assert(after[x] == pieces[x - i]);
        } else {
            assert(after[x] == before[x - n + 1]);
        }
    }
    assert forall|x: int, y: int| 0 <= x < y < after.len() implies !(#[trigger] after[x]).collides(
        (#[trigger] after[y]).start,
        after[y].end,
    ) by {
        let sx = src(x);
        let sy = src(y);
        assert(0 <= sx <= sy < before.len());
        assert(before[sx].start <= after[x].start && after[x].end <= before[sx].end) by {
            if x < i {
                assert(after[x] == before[x]);
            } else if x < i + n {
                assert(after[x] == pieces[x - i]);
            } else {
                assert(after[x] == before[x - n + 1]);
            }
        }
        assert(before[sy].start <= after[y].start && after[y].end <= before[sy].end) by {
            if y < i {
                assert(after[y] == before[y]);
            } else if y < i + n {
                assert(after[y] == pieces[y - i]);
            } else {
                assert(after[y] == before[y - n + 1]);
            }
        }
        if sx < sy {
            assert(!before[sx].collides(before[sy].start, before[sy].end));
        } else {
            assert(after[x] == pieces[x - i]);
            assert(after[y] == pieces[y - i]);
        }
    }
}

impl MemorySet {
    /// Whether every page of `lo..hi` is mapped.
    pub fn covers(&self, lo: usize, hi: usize) -> (r: bool)
        requires
            self.wf(),
        ensures
            r == pages_mapped(self@, lo as int, hi as int),
    {
        let mut v: usize = lo;
        while v < hi
            invariant
                self.wf(),
                lo <= v,
                lo <= hi ==> v <= hi,
                pages_mapped(self@, lo as int, if v < hi { v as int } else { hi as int }),
            decreases hi - v,
        {
            match self.find_area(v) {
                Some(i) => {
                    let next = self.areas[i].end_vpn;
                    proof {
                        let a = self@[i as int];
                        assert(a.end == next && a.contains(v as int));
                        assert forall|w: int| lo <= w < (if next < hi { next as int } else { hi as int })
                            implies #[trigger] page_mapped(self@, w) by {
                            if w >= v {
                                assert(a.contains(w));
                            }
                        }
                    }
                    v = if next < hi { next } else { hi };
                },
                None => {
                    return false;
                },
            }
        }
        true
    }

    /// Unmaps `start..start + len`: every area loses the pages it has in the
    /// range, and an area with pages on both sides of it is split. Returns 0
    /// on success and -1, leaving the address space as it was, when `start`
    /// or `len` is not page-aligned or some page of the range is not mapped.
    pub fn unmap(&mut self, start: usize, len: usize) -> (r: isize)
        requires
            old(self).wf(),
        ensures
            final(self).wf(),
            r == 0 || r == -1,
            r == 0 <==> munmap_allowed(old(self)@, start as int, len as int),
            r == 0 ==> final(self)@ == munmap_result(old(self)@, start as int, len as int),
            r == -1 ==> final(self)@ == old(self)@,
    {
        if start % PAGE_SIZE != 0 || len % PAGE_SIZE != 0 {
            return -1;
        }
        let lo: usize = start / PAGE_SIZE;
        let hi: usize = lo + len / PAGE_SIZE;
        assert(hi == (start + len) / 4096);
        if !self.covers(lo, hi) {
            return -1;
        }
        self.cut(lo, hi);
        0
    }

    /// The `munmap` operation: see [`MemorySet::unmap`].
    pub fn munmap(&mut self, start: usize, len: usize) -> (r: isize)
        requires
            old(self).wf(),
        ensures
            final(self).wf(),
            r == 0 || r == -1,
            r == 0 <==> munmap_allowed(old(self)@, start as int, len as int),
            r == 0 ==> final(self)@ == munmap_result(old(self)@, start as int, len as int),
            r == -1 ==> final(self)@ == old(self)@,
    {
        self.unmap(start, len)
    }

    /// Removes the pages `lo..hi` from every area, in place.
    fn cut(&mut self, lo: usize, hi: usize)
        requires
            old(self).wf(),
        ensures
            final(self).wf(),
            final(self)@ == areas_cut(old(self)@, lo as int, hi as int),
    {
        let ghost orig = self@;
        let ghost mut k: int = 0;
        let mut i: usize = 0;
        assert(orig.subrange(0, 0) =~= Seq::<AreaView>::empty());
        assert(self@ =~= areas_cut(orig.subrange(0, 0), lo as int, hi as int) + orig.subrange(
            0,
            orig.len() as int,
        ));
        while i < self.areas.len()
            invariant
                0 <= k <= orig.len(),
                i <= self.areas.len(),
                areas_wf(self@),
                areas_wf(orig),
                self.areas.len() - i == orig.len() - k,
                i == areas_cut(orig.subrange(0, k), lo as int, hi as int).len(),
                self@ == areas_cut(orig.subrange(0, k), lo as int, hi as int) + orig.subrange(
                    k,
                    orig.len() as int,
                ),
            decreases orig.len() - k,
        {
            let ghost before = self@;
            let ghost done = areas_cut(orig.subrange(0, k), lo as int, hi as int);
            let ghost rest = orig.subrange(k + 1, orig.len() as int);
            let ghost a = orig[k];
            proof {
                lemma_cut_step(orig, k, lo as int, hi as int);
                assert(before[i as int] == a);
                assert(a.wf());
                assert(before.subrange(0, i as int) =~= done);
                assert(before.subrange(i + 1, before.len() as int) =~= rest);
            }
            let s = self.areas[i].start_vpn;
            let e = self.areas[i].end_vpn;
            if !(s < hi && lo < e && lo < hi && s < e) {
                proof {
                    assert(self@ =~= (done + area_cut(a, lo as int, hi as int)) + rest);
                }
                i += 1;
            } else if lo <= s && e <= hi {
                self.areas.remove(i);
                proof {
                    let pieces = Seq::<AreaView>::empty();
                    assert(area_cut(a, lo as int, hi as int) =~= pieces);
                    assert(self@ =~= done + pieces + rest);
                    lemma_refine_wf(before, self@, i as int, pieces);
                }
            } else if e <= hi {
                let keep: usize = (lo - s) * PAGE_SIZE;
                self.areas[i].data.truncate(keep);
                self.areas[i].end_vpn = lo;
                proof {
                    let pieces = seq![area_left(a, lo as int)];
                    assert(area_cut(a, lo as int, hi as int) =~= pieces);
                    assert(self@[i as int] == area_left(a, lo as int));
                    assert(self@ =~= done + pieces + rest);
                    lemma_refine_wf(before, self@, i as int, pieces);
                }
                i += 1;
            } else if lo <= s {
                let skip: usize = (hi - s) * PAGE_SIZE;
                let tail = self.areas[i].data.split_off(skip);
                self.areas[i].data = tail;
                self.areas[i].start_vpn = hi;
                proof {
                    let pieces = seq![area_right(a, hi as int)];
                    assert(area_cut(a, lo as int, hi as int) =~= pieces);
                    assert(self@[i as int] == area_right(a, hi as int));
                    assert(self@ =~= done + pieces + rest);
                    lemma_refine_wf(before, self@, i as int, pieces);
                }
                i += 1;
            } else {
                let skip: usize = (hi - s) * PAGE_SIZE;
                let keep: usize = (lo - s) * PAGE_SIZE;
                let tail = self.areas[i].data.split_off(skip);
                self.areas[i].data.truncate(keep);
                self.areas[i].end_vpn = lo;
                let perm = self.areas[i].perm;
                self.areas.insert(i + 1, MapArea { start_vpn: hi, end_vpn: e, perm, data: tail });
                proof {
                    let pieces = seq![area_left(a, lo as int), area_right(a, hi as int)];
                    assert(area_cut(a, lo as int, hi as int) =~= pieces);
                    assert(self@[i as int].data =~= area_left(a, lo as int).data);
                    assert(self@[i as int] == area_left(a, lo as int));
                    assert(i + 2 <= self.areas.len());
                    assert(self@[i + 1] == area_right(a, hi as int));
                    assert(self@ =~= done + pieces + rest);
                    lemma_refine_wf(before, self@, i as int, pieces);
                }
                i += 2;
            }
            proof {
                assert(self@ =~= (done + area_cut(a, lo as int, hi as int)) + rest);
                assert(orig.subrange(k + 1, orig.len() as int) =~= rest);
                k = k + 1;
            }
        }
        proof {
            assert(orig.subrange(0, orig.len() as int) =~= orig);
            assert(orig.subrange(k, orig.len() as int) =~= Seq::<AreaView>::empty());
        }
    }
}

/// One area after the bytes `bytes` are stored at `addr..addr + bytes.len()`.
pub open spec fn area_write(a: AreaView, addr: int, bytes: Seq<u8>) -> AreaView {
    AreaView {
        start: a.start,
        end: a.end,
        perm: a.perm,
        data: Seq::new(
            a.data.len(),
            |k: int|
                if addr <= a.base() + k < addr + bytes.len() {
                    bytes[a.base() + k - addr]
                } else {
                    a.data[k]
                },
        ),
    }
}

/// An address space after the bytes `bytes` are stored at `addr..addr + bytes.len()`.
pub open spec fn areas_write(s: Seq<AreaView>, addr: int, bytes: Seq<u8>) -> Seq<AreaView> {
    Seq::new(s.len(), |i: int| area_write(s[i], addr, bytes))
}

/// A mapped address and the page range that decides whether a byte range is mapped.
proof fn lemma_bytes_pages(s: Seq<AreaView>, addr: int, len: int)
    requires
        areas_wf(s),
        0 <= addr,
        0 < len,
    ensures
        bytes_mapped(s, addr, len) <==> pages_mapped(s, addr / 4096, (addr + len - 1) / 4096 + 1),
{
    let lo = addr / 4096;
    let hi = (addr + len - 1) / 4096 + 1;
    if bytes_mapped(s, addr, len) {
        assert forall|v: int| lo <= v < hi implies #[trigger] page_mapped(s, v) by {
            let a = if v == lo { addr } else { v * 4096 };
            assert(addr <= a < addr + len);
            assert(a / 4096 == v);
            assert(addr_mapped(s, a));
        }
    }
    if pages_mapped(s, lo, hi) {
        assert forall|a: int| addr <= a < addr + len implies #[trigger] addr_mapped(s, a) by {
            assert(lo <= a / 4096 < hi);
            assert(page_mapped(s, a / 4096));
        }
    }
}

/// No address at or above the last representable page is mapped.
proof fn lemma_top_unmapped(s: Seq<AreaView>, a: int)
    requires
        areas_wf(s),
        a / 4096 >= max_vpn(),
    ensures
        !addr_mapped(s, a),
{
    if addr_mapped(s, a) {
        let i = page_owner(s, a / 4096);
        assert(s[i].wf());
    }
}

/// One contiguous run of bytes inside the backing of one area.
#[derive(Clone, Copy, Debug)]
pub struct ByteSpan {
    /// Index of the area.
    pub area: usize,
    /// Offset of the run's first byte in the area's backing.
    pub offset: usize,
    /// Number of bytes in the run.
    pub len: usize,
}

/// The runs, one per page touched, that make up `addr..addr + len`, in
/// address order.
pub open spec fn span_list(s: Seq<AreaView>, addr: int, len: int) -> Seq<ByteSpan>
    decreases len,
{
    if len <= 0 {
        Seq::<ByteSpan>::empty()
    } else {
        let room = 4096 - addr % 4096;
        let n = if len < room { len } else { room };
        let i = page_owner(s, addr / 4096);
        seq![ByteSpan { area: i as usize, offset: (addr - s[i].base()) as usize, len: n as usize }]
            + span_list(s, addr + n, len - n)
    }
}

impl MemorySet {
    /// Whether every address of `addr..addr + len` is mapped.
    pub fn range_mapped(&self, addr: usize, len: usize) -> (r: bool)
        requires
            self.wf(),
        ensures
            r == bytes_mapped(self@, addr as int, len as int),
    {
        if len == 0 {
            return true;
        }
        if len - 1 > usize::MAX - addr {
            proof {
                lemma_top_unmapped(self@, usize::MAX as int);
                assert(!addr_mapped(self@, usize::MAX as int));
            }
            return false;
        }
        let lo = addr / PAGE_SIZE;
        let last = (addr + (len - 1)) / PAGE_SIZE;
        if last >= max_vpn_exec() {
            proof {
                lemma_top_unmapped(self@, addr + len - 1);
                assert(!addr_mapped(self@, addr + len - 1));
            }
            return false;
        }
        proof {
            lemma_bytes_pages(self@, addr as int, len as int);
        }
        self.covers(lo, last + 1)
    }

    /// Area index and offset in its backing of the mapped address `a`.
    fn locate(&self, a: usize) -> (r: Option<(usize, usize)>)
        requires
            self.wf(),
        ensures
            r is Some <==> addr_mapped(self@, a as int),
            r matches Some((i, off)) ==> {
                &&& i < self.areas@.len()
                &&& i == page_owner(self@, a as int / 4096)
                &&& off == a - self@[i as int].base()
                &&& off < self.areas@[i as int].data@.len()
            },
    {
        match self.find_area(a / PAGE_SIZE) {
            Some(i) => {
                proof {
                    let v = self@[i as int];
                    assert(v.wf());
                    assert(v.contains(a as int / 4096));
                }
                Some((i, a - self.areas[i].start_vpn * PAGE_SIZE))
            },
            None => None,
        }
    }

    /// The mapped byte at address `a`.
    pub fn read_byte(&self, a: usize) -> (r: Option<u8>)
        requires
            self.wf(),
        ensures
            r is Some <==> addr_mapped(self@, a as int),
            r matches Some(b) ==> b == byte_at(self@, a as int),
    {
        match self.locate(a) {
            Some((i, off)) => Some(self.areas[i].data[off]),
            None => None,
        }
    }

    /// The runs of backing bytes, one per page touched, that make up
    /// `addr..addr + len`, in address order, if all of the range is mapped.
    pub fn translate(&self, addr: usize, len: usize) -> (r: Option<Vec<ByteSpan>>)
        requires
            self.wf(),
        ensures
            r is Some <==> bytes_mapped(self@, addr as int, len as int),
            r matches Some(v) ==> v@ == span_list(self@, addr as int, len as int),
    {
        if !self.range_mapped(addr, len) {
            return None;
        }
        let mut out: Vec<ByteSpan> = Vec::new();
        let mut a: usize = addr;
        let mut left: usize = len;
        assert(out@ + span_list(self@, a as int, left as int) =~= span_list(
            self@,
            addr as int,
            len as int,
        ));
        while left > 0
            invariant
                self.wf(),
                a + left == addr + len,
                addr <= a,
                bytes_mapped(self@, addr as int, len as int),
                out@ + span_list(self@, a as int, left as int) == span_list(
                    self@,
                    addr as int,
                    len as int,
                ),
            decreases left,
        {
            proof {
                assert(addr_mapped(self@, a as int));
            }
            let room: usize = PAGE_SIZE - a % PAGE_SIZE;
            let n: usize = if left < room { left } else { room };
            let ghost tail = span_list(self@, a as int, left as int);
            match self.locate(a) {
                Some((i, off)) => {
                    let span = ByteSpan { area: i, offset: off, len: n };
                    proof {
                        assert(tail == seq![span] + span_list(self@, a + n, left - n));
                        assert(out@.push(span) + span_list(self@, a + n, left - n) =~= out@ + tail);
                        if a + n > usize::MAX {
                            assert(left - n == 0);
                            assert(addr_mapped(self@, a + n - 1));
                            lemma_top_unmapped(self@, a + n - 1);
                        }
                    }
                    out.push(span);
                },
                None => {
                    proof {
                        assert(false);
                    }
                },
            }
            a = a + n;
            left = left - n;
        }
        assert(out@ + Seq::<ByteSpan>::empty() =~= out@);
        Some(out)
    }

    /// The bytes at `addr..addr + len`, if all of them are mapped.
    pub fn read_bytes(&self, addr: usize, len: usize) -> (r: Option<Vec<u8>>)
        requires
            self.wf(),
        ensures
            r is Some <==> bytes_mapped(self@, addr as int, len as int),
            r matches Some(v) ==> v@ == bytes_at(self@, addr as int, len as int),
    {
        let spans = match self.translate(addr, len) {
            Some(spans) => spans,
            None => { return None; },
        };
        let mut out: Vec<u8> = Vec::new();
        let mut j: usize = 0;
        let ghost mut a: int = addr as int;
        let count = self.areas.len();
        proof {
            assert(spans@.subrange(0, spans@.len() as int) =~= spans@);
            assert(out@ =~= bytes_at(self@, addr as int, 0));
        }
        while j < spans.len()
            invariant
                self.wf(),
                self@.len() == count,
                bytes_mapped(self@, addr as int, len as int),
                j <= spans.len(),
                addr <= a <= addr + len,
                spans@.subrange(j as int, spans@.len() as int) == span_list(self@, a, addr + len - a),
                out@ == bytes_at(self@, addr as int, a - addr),
            decreases spans.len() - j,
        {
            let span = spans[j];
            let ghost i = page_owner(self@, a / 4096);
            proof {
                let rest = spans@.subrange(j as int, spans@.len() as int);
                assert(rest[0] == span);
                assert(addr + len - a > 0) by {
                    if addr + len - a <= 0 {
                        assert(span_list(self@, a, addr + len - a).len() == 0);
                    }
                }
                assert(addr_mapped(self@, a));
                lemma_first_span(self@, a, addr + len - a);
                assert(rest.drop_first() =~= spans@.subrange(j + 1, spans@.len() as int));
            }
            let data = self.areas[span.area].data.as_slice();
            let chunk = &data[span.offset..span.offset + span.len];
            out.extend_from_slice(chunk);
            proof {
                let next = a + span.len;
                assert forall|k: int| 0 <= k < next - addr implies out@[k] == bytes_at(
                    self@,
                    addr as int,
                    next - addr,
                )[k] by {
                    if k >= a - addr {
                        let x = addr + k;
                        assert(x / 4096 == a / 4096);
                        assert(out@[k] == chunk@[k - (a - addr)]);
                    } else {
                        assert(out@[k] == bytes_at(self@, addr as int, a - addr)[k]);
                    }
                }
                assert(out@ =~= bytes_at(self@, addr as int, next - addr));
                a = next;
            }
            j += 1;
        }
        proof {
            assert(a == addr + len) by {
                if a < addr + len {
                    assert(addr_mapped(self@, a));
                    lemma_first_span(self@, a, addr + len - a);
                }
            }
        }
        Some(out)
    }

    /// Stores `bytes` at `addr..addr + bytes.len()`. Nothing changes, and the
    /// result is `false`, unless every address of the range is mapped.
    pub fn write_bytes(&mut self, addr: usize, bytes: &[u8]) -> (ok: bool)
        requires
            old(self).wf(),
        ensures
            final(self).wf(),
            ok == bytes_mapped(old(self)@, addr as int, bytes@.len() as int),
            ok ==> final(self)@ == areas_write(old(self)@, addr as int, bytes@),
            !ok ==> final(self)@ == old(self)@,
    {
        let len = bytes.len();
        let spans = match self.translate(addr, len) {
            Some(spans) => spans,
            None => { return false; },
        };
        let ghost orig = self@;
        let mut j: usize = 0;
        let mut done: usize = 0;
        let count = self.areas.len();
        proof {
            assert(orig.len() == count);
            let none = bytes@.subrange(0, 0);
            assert forall|x: int| 0 <= x < orig.len() implies orig[x] == area_write(
                #[trigger] orig[x],
                addr as int,
                none,
            ) by {
                assert(orig[x].data =~= area_write(orig[x], addr as int, none).data);
            }
            assert(self@ =~= areas_write(orig, addr as int, none));
            assert(spans@.subrange(0, spans@.len() as int) =~= spans@);
        }
        while j < spans.len()
            invariant
                areas_wf(orig),
                orig.len() <= usize::MAX,
                len == bytes@.len(),
                bytes_mapped(orig, addr as int, len as int),
                j <= spans.len(),
                done <= len,
                spans@.subrange(j as int, spans@.len() as int) == span_list(orig, addr + done, len - done),
                self@ == areas_write(orig, addr as int, bytes@.subrange(0, done as int)),
            decreases spans.len() - j,
        {
            let span = spans[j];
            let ghost i = page_owner(orig, (addr + done) / 4096);
            proof {
                let rest = spans@.subrange(j as int, spans@.len() as int);
                assert(rest[0] == span);
                assert(len - done > 0) by {
                    if len - done <= 0 {
                        assert(span_list(orig, addr + done, len - done).len() == 0);
                    }
                }
                assert(addr_mapped(orig, addr + done));
                lemma_first_span(orig, addr + done, len - done);
                assert(rest.drop_first() =~= spans@.subrange(j + 1, spans@.len() as int));
            }
            let mut t: usize = 0;
            while t < span.len
                invariant
                    areas_wf(orig),
                    len == bytes@.len(),
                    t <= span.len,
                    done + span.len <= len,
                    i == span.area,
                    0 <= i < orig.len(),
                    orig[i].contains((addr + done) / 4096),
                    span.offset == addr + done - orig[i].base(),
                    span.len <= 4096 - (addr + done) % 4096,
                    span.offset + span.len <= orig[i].data.len(),
                    self@ == areas_write(orig, addr as int, bytes@.subrange(0, done + t)),
                decreases span.len - t,
            {
                let ghost before = self@;
                proof {
                    assert(orig[i].wf());
                    assert(before.len() == orig.len());
                    assert(before[i] == area_write(orig[i], addr as int, bytes@.subrange(0, done + t)));
                    assert(before[i].data.len() == orig[i].data.len());
                    assert(self.areas@[i]@ == before[i]);
                }
                self.areas[span.area].data[span.offset + t] = bytes[done + t];
                proof {
                    let x = addr + done + t;
                    let wrote = bytes@.subrange(0, done + t);
                    let next = bytes@.subrange(0, done + t + 1);
                    let want = areas_write(orig, addr as int, next);
                    assert(x / 4096 == (addr + done) / 4096);
                    assert forall|y: int| 0 <= y < want.len() implies self@[y] == #[trigger] want[y] by {
                        assert(before[y] == area_write(orig[y], addr as int, wrote));
                        assert(orig[y].wf());
                        if y != i {
                            assert(self@[y] == before[y]);
                            assert(!orig[y].contains(x / 4096)) by {
                                if orig[y].contains(x / 4096) {
                                    lemma_owner_unique(orig, x / 4096, y);
                                    lemma_owner_unique(orig, x / 4096, i);
                                }
                            }
                            assert(x < orig[y].start * 4096 || x >= orig[y].end * 4096);
                            assert(before[y].data =~= want[y].data);
                        } else {
                            assert(self@[y].data =~= want[y].data);
                        }
                    }
                    assert(self@ =~= want);
                }
                t += 1;
            }
            done = done + span.len;
            j += 1;
        }
        proof {
            assert(done == len) by {
                if done < len {
                    assert(addr_mapped(orig, addr + done));
                    lemma_first_span(orig, addr + done, len - done);
                }
            }
            assert(bytes@.subrange(0, len as int) =~= bytes@);
            lemma_write_keeps_shape(orig, addr as int, bytes@);
        }
        true
    }
}

/// The first run of a mapped range lies in the area that owns the range's
/// first page, at the offset of the range's first address, and ends with
/// the range or the page; the other runs make up what is left.
proof fn lemma_first_span(s: Seq<AreaView>, a: int, left: int)
    requires
        areas_wf(s),
        s.len() <= usize::MAX,
        0 <= a,
        left > 0,
        addr_mapped(s, a),
    ensures
        span_list(s, a, left).len() > 0,
        ({
            let span = span_list(s, a, left)[0];
            let i = page_owner(s, a / 4096);
            &&& 0 <= i < s.len()
            &&& s[i].contains(a / 4096)
            &&& span.area == i
            &&& span.offset == a - s[i].base()
            &&& 0 < span.len <= left
            &&& span.len <= 4096 - a % 4096
            &&& span.offset + span.len <= s[i].data.len()
            &&& span_list(s, a, left).drop_first() == span_list(s, a + span.len, left - span.len)
        }),
{
    let i = page_owner(s, a / 4096);
    assert(s[i].contains(a / 4096));
    assert(s[i].wf());
    let room = 4096 - a % 4096;
    let n = if left < room { left } else { room };
    let first = ByteSpan { area: i as usize, offset: (a - s[i].base()) as usize, len: n as usize };
    assert(span_list(s, a, left) == seq![first] + span_list(s, a + n, left - n));
    assert((seq![first] + span_list(s, a + n, left - n)).drop_first() =~= span_list(s, a + n, left - n));
}

impl MemorySet {
}

/// Storing bytes changes no area's pages or permissions, so it keeps an
/// address space well formed and keeps every page's mapping.
pub proof fn lemma_write_keeps_shape(s: Seq<AreaView>, addr: int, bytes: Seq<u8>)
    requires
        areas_wf(s),
    ensures
        areas_wf(areas_write(s, addr, bytes)),
        forall|v: int| page_mapped(areas_write(s, addr, bytes), v) == page_mapped(s, v),
        forall|v: int| page_mapped(s, v) ==> page_owner(areas_write(s, addr, bytes), v) == page_owner(s, v),
{
    let t = areas_write(s, addr, bytes);
    assert forall|i: int| 0 <= i < t.len() implies (#[trigger] t[i]).wf() by {
        assert(s[i].wf());
    }
    assert forall|i: int, j: int| 0 <= i < j < t.len() implies !(#[trigger] t[i]).collides(
        (#[trigger] t[j]).start,
        t[j].end,
    ) by {
        assert(!s[i].collides(s[j].start, s[j].end));
    }
    assert forall|v: int| page_mapped(t, v) == page_mapped(s, v) by {
        if page_mapped(t, v) {
            let i = page_owner(t, v);
            assert(s[i].contains(v));
        }
        if page_mapped(s, v) {
            let i = page_owner(s, v);
            assert(t[i].contains(v));
        }
    }
    assert forall|v: int| page_mapped(s, v) implies page_owner(t, v) == page_owner(s, v) by {
        let i = page_owner(s, v);
        assert(t[i].contains(v));
        lemma_owner_unique(t, v, i);
    }
}

/// `n` is the length of the NUL-terminated string at `ptr`: the `n` bytes
/// from `ptr` on are mapped and not zero, and the byte after them is mapped
/// and zero.
pub open spec fn cstr_at(s: Seq<AreaView>, ptr: int, n: int) -> bool {
    &&& 0 <= n
    &&& bytes_mapped(s, ptr, n + 1)
    &&& byte_at(s, ptr + n) == 0
    &&& forall|k: int| 0 <= k < n ==> #[trigger] byte_at(s, ptr + k) != 0
}

/// The NUL-terminated string at `ptr`, without the NUL, if every address
/// up to a NUL is mapped.
pub open spec fn str_at(s: Seq<AreaView>, ptr: int) -> Option<Seq<u8>> {
    if exists|n: int| cstr_at(s, ptr, n) {
        Some(bytes_at(s, ptr, choose|n: int| cstr_at(s, ptr, n)))
    } else {
        None
    }
}

/// The NUL-terminated string at an address has one length.
pub proof fn lemma_cstr_unique(s: Seq<AreaView>, ptr: int, n: int, m: int)
    requires
        cstr_at(s, ptr, n),
        cstr_at(s, ptr, m),
    ensures
        n == m,
{
}

impl MemorySet {
    /// The bytes of the NUL-terminated string at `ptr`, without the NUL.
    /// `None` exactly when an unmapped address comes before any NUL.
    pub fn read_cstr(&self, ptr: usize) -> (r: Option<Vec<u8>>)
        requires
            self.wf(),
        ensures
            r is Some <==> str_at(self@, ptr as int) is Some,
            r matches Some(v) ==> Some(v@) == str_at(self@, ptr as int) && cstr_at(
                self@,
                ptr as int,
                v@.len() as int,
            ),
    {
        let mut out: Vec<u8> = Vec::new();
        let mut a: usize = ptr;
        loop
            invariant
                self.wf(),
                a == ptr + out@.len(),
                bytes_mapped(self@, ptr as int, out@.len() as int),
                out@ == bytes_at(self@, ptr as int, out@.len() as int),
                forall|k: int| 0 <= k < out@.len() ==> #[trigger] byte_at(self@, ptr + k) != 0,
            decreases usize::MAX - a,
        {
            match self.read_byte(a) {
                Some(b) => {
                    proof {
                        assert forall|x: int| ptr <= x < ptr + out@.len() + 1 implies #[trigger] addr_mapped(
                            self@,
                            x,
                        ) by {}
                    }
                    if b == 0 {
                        proof {
                            assert(cstr_at(self@, ptr as int, out@.len() as int));
                            let n = choose|n: int| cstr_at(self@, ptr as int, n);
                            lemma_cstr_unique(self@, ptr as int, n, out@.len() as int);
                        }
                        return Some(out);
                    }
                    proof {
                        lemma_top_unmapped(self@, usize::MAX as int);
                    }
                    out.push(b);
                    a = a + 1;
                    assert(out@ =~= bytes_at(self@, ptr as int, out@.len() as int));
                },
                None => {
                    proof {
                        let m = out@.len() as int;
                        assert forall|n: int| !cstr_at(self@, ptr as int, n) by {
                            if cstr_at(self@, ptr as int, n) {
                                if n < m {
                                    assert(byte_at(self@, ptr + n) != 0);
                                } else {
                                    assert(addr_mapped(self@, ptr + m));
                                }
                            }
                        }
                    }
                    return None;
                },
            }
        }
    }

    /// A copy of `user_space` with backing of its own.
    pub fn from_existed_user(user_space: &MemorySet) -> (r: MemorySet)
        ensures
            r@ == user_space@,
    {
        let mut areas: Vec<MapArea> = Vec::new();
        let mut i: usize = 0;
        while i < user_space.areas.len()
            invariant
                i <= user_space.areas.len(),
                areas@.len() == i,
                forall|j: int| 0 <= j < i ==> (#[trigger] areas@[j])@ == user_space.areas@[j]@,
            decreases user_space.areas.len() - i,
        {
            let src = &user_space.areas[i];
            let data = copy_bytes(&src.data);
            areas.push(MapArea { start_vpn: src.start_vpn, end_vpn: src.end_vpn, perm: src.perm, data });
            i += 1;
        }
        let r = MemorySet { areas };
        assert(r@ =~= user_space@);
        r
    }
}

/// A copy of `src`.
fn copy_bytes(src: &Vec<u8>) -> (r: Vec<u8>)
    ensures
        r@ == src@,
{
    let r = src.clone();
    assert(r@ =~= src@);
    r
}

/// The permission set of a loaded segment: user-accessible, and what the
/// segment's flags allow.
pub open spec fn segment_perm(seg: Segment) -> MapPermission {
    MapPermission {
        bits: (16 + (if seg.readable { 2int } else { 0 }) + (if seg.writable { 4int } else { 0 }) + (if seg.executable {
            8int
        } else {
            0
        })) as u8,
    }
}

/// The address space `s` with segment `seg` of image `b` loaded as a new last
/// area: zero-filled, then the segment's bytes stored from `seg.vaddr` on.
/// `None` when the area cannot be inserted.
pub open spec fn load_segment(s: Seq<AreaView>, b: Seq<u8>, seg: Segment) -> Option<Seq<AreaView>> {
    let lo = seg.vaddr as int;
    let hi = seg.vaddr + seg.mem_size;
    if insert_allowed(s, lo, hi) {
        Some(
            areas_write(
                s.push(fresh_area(page_floor(lo), page_ceil(hi), segment_perm(seg))),
                lo,
                b.subrange(seg.offset as int, seg.offset + seg.file_size),
            ),
        )
    } else {
        None
    }
}

/// The address space that holds the segments `segs` of image `b`, loaded in order.
pub open spec fn load_segments(b: Seq<u8>, segs: Seq<Segment>) -> Option<Seq<AreaView>>
    decreases segs.len(),
{
    if segs.len() == 0 {
        Some(Seq::<AreaView>::empty())
    } else {
        match load_segments(b, segs.drop_last()) {
            Some(s) => load_segment(s, b, segs.last()),
            None => None,
        }
    }
}

/// The first page above every segment.
pub open spec fn segments_top(segs: Seq<Segment>) -> int
    decreases segs.len(),
{
    if segs.len() == 0 {
        0
    } else {
        let below = segments_top(segs.drop_last());
        let here = page_ceil(segs.last().vaddr + segs.last().mem_size);
        if here > below {
            here
        } else {
            below
        }
    }
}

/// What loading an image yields.
pub struct ImageLayout {
    /// The areas: one per segment, then the user stack, then the empty heap.
    pub areas: Seq<AreaView>,
    /// Initial stack pointer, which is also the bottom of the heap.
    pub user_sp: int,
    /// Address of the first instruction.
    pub entry: int,
}

/// Permission set of the user stack and the heap.
pub open spec fn rw_user() -> MapPermission {
    MapPermission { bits: 22 }
}

/// The address space and entry state of the program in image `b`: its
/// segments, one unmapped guard page above them, the user stack, and an empty
/// heap on top of the stack. `None` when the image cannot be read, when two
/// segments are in each other's way, or when the layout is not representable.
pub open spec fn image_layout(b: Seq<u8>) -> Option<ImageLayout> {
    if !image_ok(b) {
        None
    } else {
        let segs = segments_of(b, ph_count(b));
        match load_segments(b, segs) {
            None => None,
            Some(s) => {
                let bottom = (segments_top(segs) + 1) * 4096;
                let top = bottom + USER_STACK_SIZE as int;
                if page_ceil(top) <= max_vpn() {
                    Some(
                        ImageLayout {
                            areas: s.push(fresh_area(page_floor(bottom), page_ceil(top), rw_user())).push(
                                fresh_area(page_floor(top), page_ceil(top), rw_user()),
                            ),
                            user_sp: top,
                            entry: u64_at(b, 24),
                        },
                    )
                } else {
                    None
                }
            },
        }
    }
}

/// Every area of `s` ends at or below page `top`.
pub open spec fn areas_below(s: Seq<AreaView>, top: int) -> bool {
    forall|i: int| 0 <= i < s.len() ==> (#[trigger] s[i]).end <= top
}

impl MemorySet {
    /// Builds the address space of the program in `image`. Returns it with
    /// the initial stack pointer and the entry point.
    pub fn from_elf(image: &[u8]) -> (r: Option<(MemorySet, usize, usize)>)
        ensures
            r is Some <==> image_layout(image@) is Some,
            r matches Some((ms, user_sp, entry)) ==> {
                &&& ms.wf()
                &&& ms@ == image_layout(image@).unwrap().areas
                &&& user_sp == image_layout(image@).unwrap().user_sp
                &&& entry == image_layout(image@).unwrap().entry
                &&& user_sp % 4096 == 0
            },
    {
        let img = match parse(image) {
            Some(img) => img,
            None => { return None; },
        };
        let ghost segs = img.segments@;
        let image_len = image.len();
        let mut ms = MemorySet::new_bare();
        let mut top: usize = 0;
        let mut k: usize = 0;
        assert(segs.subrange(0, 0) =~= Seq::<Segment>::empty());
        while k < img.segments.len()
            invariant
                k <= img.segments.len(),
                segs == img.segments@,
                image_ok(image@),
                image_len == image@.len(),
                segs == segments_of(image@, ph_count(image@)),
                crate::elf::segments_fit(segs, image@.len() as int),
                ms.wf(),
                load_segments(image@, segs.subrange(0, k as int)) == Some(ms@),
                top == segments_top(segs.subrange(0, k as int)),
                top <= max_vpn(),
                areas_below(ms@, top as int),
            decreases img.segments.len() - k,
        {
            let seg = img.segments[k];
            let ghost before = ms@;
            proof {
                let upto = segs.subrange(0, k + 1);
                assert(upto.drop_last() =~= segs.subrange(0, k as int));
                assert(upto.last() == seg);
                assert(seg == segs[k as int]);
                assert(load_segments(image@, upto) == load_segment(before, image@, seg));
            }
            let perm = MapPermission {
                bits: PERM_U + (if seg.readable { PERM_R } else { 0 }) + (if seg.writable { PERM_W } else { 0 })
                    + (if seg.executable { PERM_X } else { 0 }),
            };
            assert(perm == segment_perm(seg));
            let end_va = seg.vaddr + seg.mem_size;
            if !ms.insert_framed_area(seg.vaddr, end_va, perm) {
                proof {
                    lemma_load_fails(image@, segs, k + 1);
                }
                return None;
            }
            proof {
                let s = ms@;
                let last = s[s.len() - 1];
                assert(last.start == page_floor(seg.vaddr as int) && last.end == page_ceil(end_va as int));
                assert forall|a: int| seg.vaddr <= a < seg.vaddr + seg.file_size implies #[trigger] addr_mapped(
                    s,
                    a,
                ) by {
                    assert(last.contains(a / 4096));
                }
            }
            let bytes = &image[seg.offset..seg.offset + seg.file_size];
            let ok = ms.write_bytes(seg.vaddr, bytes);
            assert(ok);
            let here = ceil_vpn(end_va);
            if here > top {
                top = here;
            }
            proof {
                let s = ms@;
                assert forall|i: int| 0 <= i < s.len() implies (#[trigger] s[i]).end <= top by {
                    if i < before.len() {
                        assert(before[i].end <= top);
                    }
                }
            }
            k += 1;
        }
        proof {
            assert(segs.subrange(0, k as int) =~= segs);
        }
        if top > max_vpn_exec() - 3 {
            assert(page_ceil((top + 1) * 4096 + USER_STACK_SIZE as int) == top + 3);
            return None;
        }
        let bottom: usize = (top + 1) * PAGE_SIZE;
        let user_sp: usize = bottom + USER_STACK_SIZE;
        let rw = MapPermission { bits: PERM_U + PERM_R + PERM_W };
        proof {
            let s = ms@;
            assert(page_floor(bottom as int) == top + 1);
            assert(page_ceil(user_sp as int) == top + 3);
            assert(page_floor(user_sp as int) == top + 3);
            assert(!range_collides(s, top + 1, top + 3)) by {
                if range_collides(s, top + 1, top + 3) {
                    let i = choose|i: int| 0 <= i < s.len() && (#[trigger] s[i]).collides(top + 1, top + 3);
                    assert(s[i].end <= top);
                }
            }
        }
        let ok1 = ms.insert_framed_area(bottom, user_sp, rw);
        assert(ok1);
        proof {
            let s = ms@;
            assert(!range_collides(s, top + 3, top + 3)) by {
                if range_collides(s, top + 3, top + 3) {
                    let i = choose|i: int| 0 <= i < s.len() && (#[trigger] s[i]).collides(top + 3, top + 3);
                    if i < s.len() - 1 {
                        assert(s[i].end <= top);
                    }
                }
            }
        }
        let ok2 = ms.insert_framed_area(user_sp, user_sp, rw);
        assert(ok2);
        Some((ms, user_sp, img.entry))
    }
}

/// Once loading a prefix of the segments has failed, loading more of them fails too.
proof fn lemma_load_fails(b: Seq<u8>, segs: Seq<Segment>, k: int)
    requires
        0 <= k <= segs.len(),
        load_segments(b, segs.subrange(0, k)) is None,
    ensures
        load_segments(b, segs) is None,
    decreases segs.len() - k,
{
    if k < segs.len() {
        let upto = segs.subrange(0, k + 1);
        assert(upto.drop_last() =~= segs.subrange(0, k));
        lemma_load_fails(b, segs, k + 1);
    } else {
        assert(segs.subrange(0, k) =~= segs);
    }
}

/// Area `i` is the first one that spans exactly the pages `lo..hi`.
pub open spec fn is_first_area(s: Seq<AreaView>, lo: int, hi: int, i: int) -> bool {
    &&& 0 <= i < s.len()
    &&& s[i].start == lo && s[i].end == hi
    &&& forall|j: int| 0 <= j < i ==> !((#[trigger] s[j]).start == lo && s[j].end == hi)
}

/// Index of the first area that spans exactly the pages `lo..hi`.
pub open spec fn area_with_range(s: Seq<AreaView>, lo: int, hi: int) -> Option<int> {
    if exists|i: int| is_first_area(s, lo, hi, i) {
        Some(choose|i: int| is_first_area(s, lo, hi, i))
    } else {
        None
    }
}

/// The area with its end moved to page `new_end`: bytes it keeps are
/// unchanged, bytes it gains are zero.
pub open spec fn area_resized(a: AreaView, new_end: int) -> AreaView {
    AreaView {
        start: a.start,
        end: new_end,
        perm: a.perm,
        data: Seq::new(
            ((new_end - a.start) * 4096) as nat,
            |k: int|
                if k < a.data.len() {
                    a.data[k]
                } else {
                    0u8
                },
        ),
    }
}

/// An area other than area `h` is in the way of the page range `lo..hi`.
pub open spec fn others_collide(s: Seq<AreaView>, h: int, lo: int, hi: int) -> bool {
    exists|j: int| 0 <= j < s.len() && j != h && (#[trigger] s[j]).collides(lo, hi)
}

/// The area that spans `lo..old_hi` exists and can be made to span `lo..new_hi`.
pub open spec fn resize_allowed(s: Seq<AreaView>, lo: int, old_hi: int, new_hi: int) -> bool {
    &&& lo <= new_hi <= max_vpn()
    &&& area_with_range(s, lo, old_hi) is Some
    &&& !others_collide(s, area_with_range(s, lo, old_hi).unwrap(), lo, new_hi)
}

/// The address space after the area that spans `lo..old_hi` was resized.
pub open spec fn resize_result(s: Seq<AreaView>, lo: int, old_hi: int, new_hi: int) -> Seq<AreaView> {
    let h = area_with_range(s, lo, old_hi).unwrap();
    s.update(h, area_resized(s[h], new_hi))
}

impl MemorySet {
    /// Index of the first area that spans exactly the pages `lo..hi`.
    pub fn find_range(&self, lo: usize, hi: usize) -> (r: Option<usize>)
        ensures
            r is Some <==> area_with_range(self@, lo as int, hi as int) is Some,
            r matches Some(i) ==> area_with_range(self@, lo as int, hi as int) == Some(i as int) && i
                < self@.len() && is_first_area(self@, lo as int, hi as int, i as int),
    {
        let mut i: usize = 0;
        while i < self.areas.len()
            invariant
                i <= self.areas.len(),
                forall|j: int| 0 <= j < i ==> !((#[trigger] self@[j]).start == lo && self@[j].end == hi),
            decreases self.areas.len() - i,
        {
            if self.areas[i].start_vpn == lo && self.areas[i].end_vpn == hi {
                proof {
                    assert(is_first_area(self@, lo as int, hi as int, i as int));
                    let c = choose|c: int| is_first_area(self@, lo as int, hi as int, c);
                    assert(c == i) by {
                        if c < i {
                            assert(!(self@[c].start == lo && self@[c].end == hi));
                        }
                    }
                }
                return Some(i);
            }
            i += 1;
        }
        None
    }

    /// Whether an area other than area `h` is in the way of the page range `lo..hi`.
    fn others_overlap(&self, h: usize, lo: usize, hi: usize) -> (r: bool)
        ensures
            r == others_collide(self@, h as int, lo as int, hi as int),
    {
        let mut j: usize = 0;
        while j < self.areas.len()
            invariant
                j <= self.areas.len(),
                forall|x: int| 0 <= x < j && x != h ==> !(#[trigger] self@[x]).collides(lo as int, hi as int),
            decreases self.areas.len() - j,
        {
            if j != h && self.areas[j].start_vpn < hi && self.areas[j].end_vpn > lo {
                assert(self@[j as int].collides(lo as int, hi as int));
                return true;
            }
            j += 1;
        }
        false
    }

    /// Moves the end of the first area that spans the pages `lo..old_hi` to
    /// page `new_hi`, zero-filling what it gains. Nothing changes, and the
    /// result is `false`, when there is no such area, when another area is
    /// in the way, or when `new_hi` is below `lo` or not representable.
    pub fn resize_area(&mut self, lo: usize, old_hi: usize, new_hi: usize) -> (ok: bool)
        requires
            old(self).wf(),
        ensures
            final(self).wf(),
            ok == resize_allowed(old(self)@, lo as int, old_hi as int, new_hi as int),
            ok ==> final(self)@ == resize_result(old(self)@, lo as int, old_hi as int, new_hi as int),
            !ok ==> final(self)@ == old(self)@,
    {
        if new_hi < lo || new_hi > max_vpn_exec() {
            return false;
        }
        let h = match self.find_range(lo, old_hi) {
            Some(h) => h,
            None => { return false; },
        };
        if self.others_overlap(h, lo, new_hi) {
            return false;
        }
        let ghost before = self@;
        let n: usize = (new_hi - lo) * PAGE_SIZE;
        if new_hi >= old_hi {
            self.areas[h].data.resize(n, 0u8);
        } else {
            self.areas[h].data.truncate(n);
        }
        self.areas[h].end_vpn = new_hi;
        proof {
            let want = resize_result(before, lo as int, old_hi as int, new_hi as int);
            assert(before[h as int].wf());
            assert(self@[h as int].data =~= area_resized(before[h as int], new_hi as int).data);
            assert(self@ =~= want);
            let s = self@;
            assert forall|i: int| 0 <= i < s.len() implies (#[trigger] s[i]).wf() by {
                if i != h {
                    assert(s[i] == before[i]);
                    assert(before[i].wf());
                }
            }
            assert forall|i: int, j: int| 0 <= i < j < s.len() implies !(#[trigger] s[i]).collides(
                (#[trigger] s[j]).start,
                s[j].end,
            ) by {
                assert(!before[i].collides(before[j].start, before[j].end));
                if i == h {
                    assert(!before[j].collides(lo as int, new_hi as int));
                } else if j == h {
                    assert(!before[i].collides(lo as int, new_hi as int));
                }
            }
        }
        true
    }
}

/// A page is mapped in two address spaces put end to end exactly when it
/// is mapped in one of them.
pub proof fn lemma_mapped_concat(a: Seq<AreaView>, b: Seq<AreaView>, v: int)
    ensures
        page_mapped(a + b, v) <==> page_mapped(a, v) || page_mapped(b, v),
{
    let c = a + b;
    if page_mapped(c, v) {
        let i = page_owner(c, v);
        if i < a.len() {
            assert(a[i].contains(v));
        } else {
            assert(b[i - a.len()].contains(v));
        }
    }
    if page_mapped(a, v) {
        let i = page_owner(a, v);
        assert(c[i].contains(v));
    }
    if page_mapped(b, v) {
        let i = page_owner(b, v);
        assert(c[i + a.len()].contains(v));
    }
}

/// What is left of an area holds exactly the area's pages outside the unmapped range.
pub proof fn lemma_area_cut_pages(a: AreaView, lo: int, hi: int, v: int)
    ensures
        page_mapped(area_cut(a, lo, hi), v) <==> a.contains(v) && !(lo <= v < hi),
{
    let c = area_cut(a, lo, hi);
    if page_mapped(c, v) {
        let i = page_owner(c, v);
        assert(c[i].contains(v));
    }
    if a.contains(v) && !(lo <= v < hi) {
        if !area_hit(a, lo, hi) {
            assert(c[0].contains(v));
        } else if v < lo {
            assert(c[0] == area_left(a, lo));
            assert(c[0].contains(v));
        } else {
            let i = c.len() - 1;
            assert(c[i] == area_right(a, hi));
            assert(c[i].contains(v));
        }
    }
}

/// Unmapping the pages `lo..hi` leaves mapped exactly the pages that were
/// mapped and lie outside `lo..hi`.
pub proof fn lemma_cut_pages(s: Seq<AreaView>, lo: int, hi: int, v: int)
    ensures
        page_mapped(areas_cut(s, lo, hi), v) <==> page_mapped(s, v) && !(lo <= v < hi),
    decreases s.len(),
{
    if s.len() > 0 {
        let front = s.drop_last();
        lemma_cut_pages(front, lo, hi, v);
        lemma_area_cut_pages(s.last(), lo, hi, v);
        lemma_mapped_concat(areas_cut(front, lo, hi), area_cut(s.last(), lo, hi), v);
        assert(s =~= front + seq![s.last()]);
        lemma_mapped_concat(front, seq![s.last()], v);
        if page_mapped(seq![s.last()], v) {
            let i = page_owner(seq![s.last()], v);
            assert(seq![s.last()][i].contains(v));
        }
        if s.last().contains(v) {
            assert(seq![s.last()][0].contains(v));
        }
    } else {
        if page_mapped(areas_cut(s, lo, hi), v) {
            let i = page_owner(areas_cut(s, lo, hi), v);
        }
        if page_mapped(s, v) {
            let i = page_owner(s, v);
        }
    }
}

/// Unmapping a page range that no area is in the way of changes nothing.
pub proof fn lemma_cut_untouched(s: Seq<AreaView>, lo: int, hi: int)
    requires
        !range_collides(s, lo, hi),
    ensures
        areas_cut(s, lo, hi) == s,
    decreases s.len(),
{
    if s.len() > 0 {
        let front = s.drop_last();
        assert(!range_collides(front, lo, hi)) by {
            if range_collides(front, lo, hi) {
                let i = choose|i: int| 0 <= i < front.len() && (#[trigger] front[i]).collides(lo, hi);
                assert(s[i].collides(lo, hi));
            }
        }
        lemma_cut_untouched(front, lo, hi);
        assert(!s[s.len() - 1].collides(lo, hi));
        assert(areas_cut(s, lo, hi) =~= s);
    } else {
        assert(areas_cut(s, lo, hi) =~= s);
    }
}

/// Mapping a range and unmapping it again: the `munmap` succeeds, no page
/// of the range is mapped afterwards, and if the range is not empty the
/// address space is the one from before the `mmap`.
pub proof fn lemma_mmap_munmap_round_trip(s: Seq<AreaView>, start: int, len: int, port: int)
    requires
        areas_wf(s),
        0 <= start,
        0 <= len,
        len % 4096 == 0,
        mmap_allowed(s, start, len, port),
    ensures
        munmap_allowed(mmap_result(s, start, len, port), start, len),
        forall|v: int|
            start / 4096 <= v < (start + len) / 4096 ==> !#[trigger] page_mapped(
                munmap_result(mmap_result(s, start, len, port), start, len),
                v,
            ),
        len > 0 ==> munmap_result(mmap_result(s, start, len, port), start, len) == s,
{
    let lo = start / 4096;
    let hi = (start + len) / 4096;
    assert(page_floor(start) == lo);
    assert(page_ceil(start + len) == hi);
    let perm = MapPermission { bits: port_bits(port) as u8 };
    let area = fresh_area(lo, hi, perm);
    let m = mmap_result(s, start, len, port);
    assert(m == s.push(area));
    assert forall|v: int| lo <= v < hi implies #[trigger] page_mapped(m, v) by {
        assert(m[s.len() as int].contains(v));
    }
    let u = munmap_result(m, start, len);
    assert forall|v: int| lo <= v < hi implies !#[trigger] page_mapped(u, v) by {
        lemma_cut_pages(m, lo, hi, v);
    }
    if len > 0 {
        assert(m.drop_last() =~= s);
        assert(m.last() == area);
        lemma_cut_untouched(s, lo, hi);
        assert(area_hit(area, lo, hi));
        assert(area_cut(area, lo, hi) =~= Seq::<AreaView>::empty());
        assert(u =~= s);
    }
}

/// Storing bytes changes the stored byte at the addresses written, and at no other mapped address.
pub proof fn lemma_write_bytes_at(s: Seq<AreaView>, addr: int, bytes: Seq<u8>, a: int)
    requires
        areas_wf(s),
        addr_mapped(s, a),
    ensures
        byte_at(areas_write(s, addr, bytes), a) == if addr <= a < addr + bytes.len() {
            bytes[a - addr]
        } else {
            byte_at(s, a)
        },
{
    lemma_write_keeps_shape(s, addr, bytes);
    let i = page_owner(s, a / 4096);
    assert(s[i].contains(a / 4096));
    assert(s[i].wf());
}

/// Bytes stored in mapped memory are the bytes read back from it.
pub proof fn lemma_write_then_read(s: Seq<AreaView>, addr: int, bytes: Seq<u8>)
    requires
        areas_wf(s),
        bytes_mapped(s, addr, bytes.len() as int),
    ensures
        bytes_mapped(areas_write(s, addr, bytes), addr, bytes.len() as int),
        bytes_at(areas_write(s, addr, bytes), addr, bytes.len() as int) == bytes,
{
    let t = areas_write(s, addr, bytes);
    lemma_write_keeps_shape(s, addr, bytes);
    assert forall|a: int| addr <= a < addr + bytes.len() implies #[trigger] addr_mapped(t, a) by {
        assert(addr_mapped(s, a));
    }
    assert forall|k: int| 0 <= k < bytes.len() implies bytes_at(t, addr, bytes.len() as int)[k] == bytes[k] by {
        assert(addr_mapped(s, addr + k));
        lemma_write_bytes_at(s, addr, bytes, addr + k);
    }
    assert(bytes_at(t, addr, bytes.len() as int) =~= bytes);
}

/// Area `e` is area `a` restricted to some of its pages: the same
/// permissions, and for its pages the same bytes.
pub open spec fn is_part_of(e: AreaView, a: AreaView) -> bool {
    &&& a.start <= e.start <= e.end <= a.end
    &&& e.perm == a.perm
    &&& e.data == a.data.subrange((e.start - a.start) * 4096, (e.end - a.start) * 4096)
}

/// Every area that is left after unmapping is a part of an area from before.
pub proof fn lemma_cut_sources(s: Seq<AreaView>, lo: int, hi: int, x: int) -> (i: int)
    requires
        areas_wf(s),
        0 <= x < areas_cut(s, lo, hi).len(),
    ensures
        0 <= i < s.len(),
        is_part_of(areas_cut(s, lo, hi)[x], s[i]),
        areas_cut(s, lo, hi)[x].wf(),
    decreases s.len(),
{
    let front = s.drop_last();
    let done = areas_cut(front, lo, hi);
    let a = s.last();
    let pieces = area_cut(a, lo, hi);
    assert(areas_cut(s, lo, hi) == done + pieces);
    assert(a.wf());
    if x < done.len() {
        assert(areas_wf(front)) by {
            assert forall|p: int, q: int| 0 <= p < q < front.len() implies !(#[trigger] front[p]).collides(
                (#[trigger] front[q]).start,
                front[q].end,
            ) by {
                assert(!s[p].collides(s[q].start, s[q].end));
            }
            assert forall|p: int| 0 <= p < front.len() implies (#[trigger] front[p]).wf() by {
                assert(s[p].wf());
            }
        }
        let i = lemma_cut_sources(front, lo, hi, x);
        assert(front[i] == s[i]);
        i
    } else {
        let e = pieces[x - done.len()];
        if !area_hit(a, lo, hi) {
            assert(e == a);
            assert(a.data =~= a.data.subrange(0, (a.end - a.start) * 4096));
        } else if x - done.len() == 0 && a.start < lo {
            assert(e == area_left(a, lo));
        } else {
            assert(e == area_right(a, hi));
        }
        s.len() - 1
    }
}

/// Unmapping keeps an address space well formed.
pub proof fn lemma_cut_wf(s: Seq<AreaView>, lo: int, hi: int)
    requires
        areas_wf(s),
    ensures
        areas_wf(areas_cut(s, lo, hi)),
    decreases s.len(),
{
    let c = areas_cut(s, lo, hi);
    if s.len() > 0 {
        let front = s.drop_last();
        let done = areas_cut(front, lo, hi);
        let a = s.last();
        let pieces = area_cut(a, lo, hi);
        assert(areas_wf(front)) by {
            assert forall|p: int, q: int| 0 <= p < q < front.len() implies !(#[trigger] front[p]).collides(
                (#[trigger] front[q]).start,
                front[q].end,
            ) by {
                assert(!s[p].collides(s[q].start, s[q].end));
            }
            assert forall|p: int| 0 <= p < front.len() implies (#[trigger] front[p]).wf() by {
                assert(s[p].wf());
            }
        }
        lemma_cut_wf(front, lo, hi);
        assert forall|x: int| 0 <= x < c.len() implies (#[trigger] c[x]).wf() by {
            let i = lemma_cut_sources(s, lo, hi, x);
        }
        assert forall|x: int, y: int| 0 <= x < y < c.len() implies !(#[trigger] c[x]).collides(
            (#[trigger] c[y]).start,
            c[y].end,
        ) by {
            if y < done.len() {
                assert(c[x] == done[x] && c[y] == done[y]);
            } else if x < done.len() {
                let i = lemma_cut_sources(front, lo, hi, x);
                assert(c[x] == done[x]);
                assert(front[i] == s[i]);
                assert(!s[i].collides(a.start, a.end));
                let e = pieces[y - done.len()];
                assert(c[y] == e);
                assert(a.start <= e.start && e.end <= a.end) by {
                    if !area_hit(a, lo, hi) {
                    } else if y - done.len() == 0 && a.start < lo {
                        assert(e == area_left(a, lo));
                    } else {
                        assert(e == area_right(a, hi));
                    }
                }
            } else {
                assert(c[x] == pieces[x - done.len()]);
                assert(c[y] == pieces[y - done.len()]);
                assert(c[x] == area_left(a, lo));
                assert(c[y] == area_right(a, hi));
            }
        }
    }
}

/// Unmapping changes no byte of a page that stays mapped.
pub proof fn lemma_cut_keeps_bytes(s: Seq<AreaView>, lo: int, hi: int, a: int)
    requires
        areas_wf(s),
        addr_mapped(s, a),
        !(lo <= a / 4096 < hi),
    ensures
        addr_mapped(areas_cut(s, lo, hi), a),
        byte_at(areas_cut(s, lo, hi), a) == byte_at(s, a),
{
    let c = areas_cut(s, lo, hi);
    let v = a / 4096;
    lemma_cut_pages(s, lo, hi, v);
    lemma_cut_wf(s, lo, hi);
    let x = page_owner(c, v);
    assert(c[x].contains(v));
    let i = lemma_cut_sources(s, lo, hi, x);
    assert(s[i].contains(v));
    lemma_owner_unique(s, v, i);
    assert(s[i].wf());
    assert(c[x].wf());
}

/// Mapping a new area changes no byte that was mapped before.
pub proof fn lemma_push_keeps_bytes(s: Seq<AreaView>, area: AreaView, a: int)
    requires
        areas_wf(s.push(area)),
        addr_mapped(s, a),
    ensures
        addr_mapped(s.push(area), a),
        byte_at(s.push(area), a) == byte_at(s, a),
{
    let v = a / 4096;
    let i = page_owner(s, v);
    assert(s[i].contains(v));
    assert(s.push(area)[i].contains(v));
    lemma_owner_unique(s.push(area), v, i);
}

} // verus!
