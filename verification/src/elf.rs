//! The program images that tasks are created from: 64-bit little-endian ELF
//! files, of which the kernel reads the entry point and the loadable segments.
use vstd::prelude::*;

verus! {

/// Size of the file header.
pub const HEADER_SIZE: usize = 64;

/// Size of one program header.
pub const PH_SIZE: usize = 56;

/// Program header type of a loadable segment.
pub const PT_LOAD: u32 = 1;

/// Segment flag: executable.
pub const PF_X: u32 = 1;

/// Segment flag: writable.
pub const PF_W: u32 = 2;

/// Segment flag: readable.
pub const PF_R: u32 = 4;

/// The 16-bit little-endian number at `at`.
pub open spec fn u16_at(b: Seq<u8>, at: int) -> int {
    b[at] as int + 256 * (b[at + 1] as int)
}

/// The 32-bit little-endian number at `at`.
pub open spec fn u32_at(b: Seq<u8>, at: int) -> int {
    u16_at(b, at) + 65536 * u16_at(b, at + 2)
}

/// The 64-bit little-endian number at `at`.
pub open spec fn u64_at(b: Seq<u8>, at: int) -> int {
    u32_at(b, at) + 4294967296 * u32_at(b, at + 4)
}

/// Reads the 16-bit little-endian number at `at`.
pub fn read_u16(b: &[u8], at: usize) -> (r: u16)
    requires
        at + 2 <= b@.len(),
    ensures
        r == u16_at(b@, at as int),
{
    let lo: u16 = b[at] as u16;
    let hi: u16 = b[at + 1] as u16;
    lo + 256 * hi
}

/// Reads the 32-bit little-endian number at `at`.
pub fn read_u32(b: &[u8], at: usize) -> (r: u32)
    requires
        at + 4 <= b@.len(),
    ensures
        r == u32_at(b@, at as int),
{
    let len = b.len();
    assert(at + 4 <= len);
    let lo: u32 = read_u16(b, at) as u32;
    let hi: u32 = read_u16(b, at + 2) as u32;
    lo + 65536 * hi
}

/// Reads the 64-bit little-endian number at `at`.
pub fn read_u64(b: &[u8], at: usize) -> (r: u64)
    requires
        at + 8 <= b@.len(),
    ensures
        r == u64_at(b@, at as int),
{
    let len = b.len();
    assert(at + 8 <= len);
    let lo: u64 = read_u32(b, at) as u64;
    let hi: u64 = read_u32(b, at + 4) as u64;
    lo + 4294967296 * hi
}

/// One loadable segment of an image.
#[derive(Clone, Copy, Debug)]
pub struct Segment {
    /// Address of the segment's first byte in the task's address space.
    pub vaddr: usize,
    /// Number of bytes the segment occupies in memory.
    pub mem_size: usize,
    /// Offset of the segment's bytes in the image.
    pub offset: usize,
    /// Number of bytes the image holds for the segment.
    pub file_size: usize,
    /// Whether the segment is readable.
    pub readable: bool,
    /// Whether the segment is writable.
    pub writable: bool,
    /// Whether the segment is executable.
    pub executable: bool,
}

/// What the kernel reads from an image.
pub struct ElfImage {
    /// Address of the first instruction.
    pub entry: usize,
    /// The loadable segments, in file order.
    pub segments: Vec<Segment>,
}

/// Number of program headers that the file header announces.
pub open spec fn ph_count(b: Seq<u8>) -> int {
    u16_at(b, 56)
}

/// Offset of program header `k`.
pub open spec fn ph_at(b: Seq<u8>, k: int) -> int {
    u64_at(b, 32) + k * 56
}

/// The file header is that of a 64-bit little-endian ELF file whose program
/// header table lies inside the image.
pub open spec fn header_ok(b: Seq<u8>) -> bool {
    &&& b.len() >= 64
    &&& b[0] == 0x7f && b[1] == 0x45 && b[2] == 0x4c && b[3] == 0x46
    &&& b[4] == 2 && b[5] == 1
    &&& u16_at(b, 54) == 56
    &&& u64_at(b, 24) <= usize::MAX
    &&& ph_at(b, ph_count(b)) <= b.len()
}

/// Program header `k` describes a loadable segment.
pub open spec fn ph_is_load(b: Seq<u8>, k: int) -> bool {
    u32_at(b, ph_at(b, k)) == 1
}

/// Program header `k` is not loadable, or its bytes lie inside the image and
/// its place in memory is representable.
pub open spec fn ph_ok(b: Seq<u8>, k: int) -> bool {
    let at = ph_at(b, k);
    ph_is_load(b, k) ==> {
        &&& u64_at(b, at + 8) + u64_at(b, at + 32) <= b.len()
        &&& u64_at(b, at + 32) <= u64_at(b, at + 40)
        &&& u64_at(b, at + 16) + u64_at(b, at + 40) <= usize::MAX
    }
}

/// The segment that the loadable program header `k` describes.
pub open spec fn segment_of(b: Seq<u8>, k: int) -> Segment {
    let at = ph_at(b, k);
    let flags = u32_at(b, at + 4);
    Segment {
        vaddr: u64_at(b, at + 16) as usize,
        mem_size: u64_at(b, at + 40) as usize,
        offset: u64_at(b, at + 8) as usize,
        file_size: u64_at(b, at + 32) as usize,
        readable: (flags / 4) % 2 == 1,
        writable: (flags / 2) % 2 == 1,
        executable: flags % 2 == 1,
    }
}

/// The segments of the loadable ones among the first `n` program headers.
pub open spec fn segments_of(b: Seq<u8>, n: int) -> Seq<Segment>
    decreases n,
{
    if n <= 0 {
        Seq::<Segment>::empty()
    } else if ph_is_load(b, n - 1) {
        segments_of(b, n - 1).push(segment_of(b, n - 1))
    } else {
        segments_of(b, n - 1)
    }
}

/// The image can be read: its header is in order and so is every program header.
pub open spec fn image_ok(b: Seq<u8>) -> bool {
    &&& header_ok(b)
    &&& forall|k: int| 0 <= k < ph_count(b) ==> #[trigger] ph_ok(b, k)
}

/// Every segment's bytes lie inside an image of `len` bytes, and its place in
/// memory is representable.
pub open spec fn segments_fit(segs: Seq<Segment>, len: int) -> bool {
    forall|i: int|
        0 <= i < segs.len() ==> {
            &&& (#[trigger] segs[i]).offset + segs[i].file_size <= len
            &&& segs[i].file_size <= segs[i].mem_size
            &&& segs[i].vaddr + segs[i].mem_size <= usize::MAX
        }
}

proof fn lemma_flag_bits(flags: u32)
    ensures
        (flags & 4 != 0) == ((flags as int / 4) % 2 == 1),
        (flags & 2 != 0) == ((flags as int / 2) % 2 == 1),
        (flags & 1 != 0) == (flags as int % 2 == 1),
{
    assert((flags & 4 != 0) == ((flags / 4) % 2 == 1)) by (bit_vector);
    assert((flags & 2 != 0) == ((flags / 2) % 2 == 1)) by (bit_vector);
    assert((flags & 1 != 0) == (flags % 2 == 1)) by (bit_vector);
}

/// Reads an image. `None` exactly when the image cannot be read.
pub fn parse(b: &[u8]) -> (r: Option<ElfImage>)
    ensures
        r is Some <==> image_ok(b@),
        r matches Some(img) ==> {
            &&& img.entry == u64_at(b@, 24)
            &&& img.segments@ == segments_of(b@, ph_count(b@))
            &&& segments_fit(img.segments@, b@.len() as int)
        },
{
    let len = b.len();
    if len < HEADER_SIZE {
        return None;
    }
    if b[0] != 0x7f || b[1] != 0x45 || b[2] != 0x4c || b[3] != 0x46 || b[4] != 2 || b[5] != 1 {
        return None;
    }
    if read_u16(b, 54) != 56 {
        return None;
    }
    let entry = read_u64(b, 24);
    if entry > usize::MAX as u64 {
        return None;
    }
    let table = read_u64(b, 32);
    let count = read_u16(b, 56);
    if table > len as u64 || (count as u64) * 56 > len as u64 - table {
        return None;
    }
    let table: usize = table as usize;
    let count: usize = count as usize;
    let mut segments: Vec<Segment> = Vec::new();
    let mut k: usize = 0;
    while k < count
        invariant
            header_ok(b@),
            len == b@.len(),
            table == u64_at(b@, 32),
            count == ph_count(b@),
            k <= count,
            forall|j: int| 0 <= j < k ==> #[trigger] ph_ok(b@, j),
            segments@ == segments_of(b@, k as int),
            segments_fit(segments@, len as int),
        decreases count - k,
    {
        let at: usize = table + k * PH_SIZE;
        assert(at == ph_at(b@, k as int));
        assert(at + 56 <= len) by {
            assert(ph_at(b@, k as int) + 56 <= ph_at(b@, count as int));
        }
        if read_u32(b, at) == PT_LOAD {
            let flags = read_u32(b, at + 4);
            let offset = read_u64(b, at + 8);
            let vaddr = read_u64(b, at + 16);
            let file_size = read_u64(b, at + 32);
            let mem_size = read_u64(b, at + 40);
            if offset > len as u64 || file_size > len as u64 - offset || file_size > mem_size
                || vaddr > usize::MAX as u64 || mem_size > usize::MAX as u64 - vaddr {
                assert(!ph_ok(b@, k as int));
                return None;
            }
            proof {
                lemma_flag_bits(flags);
            }
            let seg = Segment {
                vaddr: vaddr as usize,
                mem_size: mem_size as usize,
                offset: offset as usize,
                file_size: file_size as usize,
                readable: flags & PF_R != 0,
                writable: flags & PF_W != 0,
                executable: flags & PF_X != 0,
            };
            assert(seg == segment_of(b@, k as int));
            segments.push(seg);
        }
        k += 1;
    }
    Some(ElfImage { entry: entry as usize, segments })
}

} // verus!
