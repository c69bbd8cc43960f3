use vstd::prelude::*;

use crate::pattern::{accepts, matches_at, Pattern};
use crate::process::{MemoryRegion, ModuleInfo};

verus! {

// ---------------------------------------------------------------------------
// Results
// ---------------------------------------------------------------------------

/// A place where a pattern matched: its address, and the module that holds
/// it with the offset into that module, where one does.
#[derive(Debug)]
pub struct ScanResult {
    pub address: usize,
    pub module: Option<String>,
    pub offset: Option<usize>,
}

/// The text of an optional name.
pub open spec fn name_view(n: Option<String>) -> Option<Seq<char>> {
    match n {
        Some(s) => Some(s@),
        None => None,
    }
}

impl Clone for ScanResult {
    fn clone(&self) -> (r: Self)
        ensures
            r == *self,
    {
        let module = match &self.module {
            Some(name) => Some(name.clone()),
            None => None,
        };
        ScanResult { address: self.address, module, offset: self.offset }
    }
}

impl View for ScanResult {
    type V = (usize, Option<Seq<char>>, Option<usize>);

    open spec fn view(&self) -> (usize, Option<Seq<char>>, Option<usize>) {
        (self.address, name_view(self.module), self.offset)
    }
}

impl ScanResult {
    /// The address that the 4-byte displacement of an instruction of
    /// `inst_len` bytes at this result occupies: its last four bytes.
    pub fn rip_operand_address(&self, inst_len: usize) -> (a: usize)
        requires
            4 <= self.address + inst_len <= usize::MAX,
        ensures
            a == self.address + inst_len - 4,
    {
        self.address + inst_len - 4
    }

    /// The target of a RIP-relative instruction of `inst_len` bytes at this
    /// result, given the bytes read at its displacement
    /// (`rip_operand_address`): the address after the instruction plus the
    /// little-endian signed displacement, modulo the address width.
    pub fn rip_relative_target(&self, data: &[u8], inst_len: usize) -> (r: usize)
        requires
            4 <= self.address + inst_len <= usize::MAX,
            data@.len() >= 4,
        ensures
            r == wrap_address(self.address + inst_len + le_i32(data@)),
    {
        let u: u32 = data[0] as u32 + data[1] as u32 * 0x100 + data[2] as u32 * 0x1_0000
            + data[3] as u32 * 0x100_0000;
        let rel: isize = if u < 0x8000_0000 {
            u as isize
        } else {
            (u as i64 - 0x1_0000_0000i64) as isize
        };
        let end = self.address + inst_len;
        end.wrapping_add_signed(rel)
    }

    /// This result's address moved by `offset`, modulo the address width.
    pub fn add(&self, offset: isize) -> (r: usize)
        requires
            isize::MIN <= signed_address(self.address) + offset <= isize::MAX,
        ensures
            r == wrap_address(self.address + offset),
    {
        self.address.wrapping_add_signed(offset)
    }
}

/// The signed value of four little-endian bytes.
pub open spec fn le_i32(b: Seq<u8>) -> int {
    let u = b[0] + b[1] * 0x100 + b[2] * 0x1_0000 + b[3] * 0x100_0000;
    if u < 0x8000_0000 {
        u
    } else {
        u - 0x1_0000_0000
    }
}

/// An address read as a signed number of the same width.
pub open spec fn signed_address(a: usize) -> int {
    if a > isize::MAX {
        a - (usize::MAX + 1)
    } else {
        a as int
    }
}

/// `x` brought into the range of addresses, modulo the address width, for
/// `x` less than one width away from it.
pub open spec fn wrap_address(x: int) -> int {
    if x < 0 {
        x + (usize::MAX + 1)
    } else if x > usize::MAX {
        x - (usize::MAX + 1)
    } else {
        x
    }
}

// ---------------------------------------------------------------------------
// Modules of an address
// ---------------------------------------------------------------------------

/// Whether module `m` holds address `a`.
pub open spec fn holds(m: ModuleInfo, a: int) -> bool {
    m.base <= a < m.base + m.size
}

/// Whether module `i` is the first of `mods` that holds address `a`.
pub open spec fn first_holder(mods: Seq<ModuleInfo>, a: int, i: int) -> bool {
    &&& 0 <= i < mods.len()
    &&& holds(mods[i], a)
    &&& forall|j: int| 0 <= j < i ==> !holds(#[trigger] mods[j], a)
}

/// The index of the first module of `mods` that holds address `a`.
pub open spec fn module_index(mods: Seq<ModuleInfo>, a: int) -> Option<int> {
    if exists|i: int| first_holder(mods, a, i) {
        Some(choose|i: int| first_holder(mods, a, i))
    } else {
        None
    }
}

/// What a scan reports of a match at address `a`: the address, and the
/// name of the first module that holds it with the offset into it.
pub open spec fn hit(a: int, mods: Seq<ModuleInfo>) -> (usize, Option<Seq<char>>, Option<usize>) {
    match module_index(mods, a) {
        Some(i) => (a as usize, Some(mods[i].name@), Some((a - mods[i].base) as usize)),
        None => (a as usize, None, None),
    }
}

proof fn lemma_first_holder_unique(mods: Seq<ModuleInfo>, a: int, i: int)
    requires
        first_holder(mods, a, i),
    ensures
        module_index(mods, a) == Some(i),
{
    let k = choose|k: int| first_holder(mods, a, k);
    assert(first_holder(mods, a, k));
    if k < i {
        assert(!holds(mods[k], a));
    } else if k > i {
        assert(!holds(mods[i], a));
    }
}

/// The first module that holds `addr`, as its name and the offset of
/// `addr` into it.
pub fn which_module(addr: usize, modules: &[ModuleInfo]) -> (r: (Option<String>, Option<usize>))
    ensures
        (addr, name_view(r.0), r.1) == hit(addr as int, modules@),
        forall|i: int|
            0 <= i < modules@.len() && modules@[i].base <= addr < modules@[i].base
                + modules@[i].size && (forall|j: int|
                0 <= j < i ==> !(modules@[j].base <= addr < modules@[j].base
                    + #[trigger] modules@[j].size)) ==> name_view(r.0) == Some(
                #[trigger] modules@[i].name@,
            ) && r.1 == Some((addr - modules@[i].base) as usize),
        (forall|i: int|
            0 <= i < modules@.len() ==> !(modules@[i].base <= addr < modules@[i].base
                + #[trigger] modules@[i].size)) ==> r.0 is None && r.1 is None,
{
    let mut i: usize = 0;
    while i < modules.len()
        invariant
            i <= modules@.len(),
            forall|j: int| 0 <= j < i ==> !holds(#[trigger] modules@[j], addr as int),
        decreases modules@.len() - i,
    {
        let m = &modules[i];
        if addr >= m.base && addr - m.base < m.size {
            proof {
                lemma_first_holder_unique(modules@, addr as int, i as int);
                law_module_of_address(modules@, addr as int, i as int);
            }
            return (Some(m.name.clone()), Some(addr - m.base));
        }
        i += 1;
    }
    assert(!exists|k: int| first_holder(modules@, addr as int, k));
    (None, None)
}

// ---------------------------------------------------------------------------
// Scanning read memory
// ---------------------------------------------------------------------------

/// The memory that one read returned: its start address and the bytes
/// read, or `None` where nothing could be read.
#[derive(Debug)]
pub struct ChunkRead {
    pub address: usize,
    pub data: Option<Vec<u8>>,
}

impl View for ChunkRead {
    type V = (usize, Option<Seq<u8>>);

    open spec fn view(&self) -> (usize, Option<Seq<u8>>) {
        (
            self.address,
            match self.data {
                Some(d) => Some(d@),
                None => None,
            },
        )
    }
}

/// `a - b`, or zero where `b` is larger.
pub open spec fn sat_sub(a: int, b: int) -> int {
    if a > b {
        a - b
    } else {
        0
    }
}

/// The hits of pattern `p` in `data` (read at address `base`) at the
/// offsets from `lo` up to `hi`, in increasing order.
pub open spec fn hits_between(
    p: Seq<Option<u8>>,
    base: int,
    data: Seq<u8>,
    mods: Seq<ModuleInfo>,
    lo: int,
    hi: int,
) -> Seq<(usize, Option<Seq<char>>, Option<usize>)>
    decreases hi - lo,
{
    if hi <= lo {
        seq![]
    } else {
        let before = hits_between(p, base, data, mods, lo, hi - 1);
        if matches_at(p, data, hi - 1) {
            before.push(hit(base + hi - 1, mods))
        } else {
            before
        }
    }
}

/// How many offsets of a read of `len` bytes a scan tries for a pattern of
/// `plen` positions: each where the pattern fits, and (for the empty
/// pattern) that is inside the read.
pub open spec fn fit_count(len: int, plen: int) -> int {
    if plen == 0 {
        len
    } else {
        len + 1 - plen
    }
}

/// The hits a scan reports in one read: at each offset where the pattern
/// fits in the bytes read and that is inside them.
pub open spec fn chunk_hits(
    p: Seq<Option<u8>>,
    read: (usize, Option<Seq<u8>>),
    mods: Seq<ModuleInfo>,
) -> Seq<(usize, Option<Seq<char>>, Option<usize>)> {
    match read.1 {
        Some(d) => hits_between(p, read.0 as int, d, mods, 0, fit_count(d.len() as int, p.len() as int)),
        None => seq![],
    }
}

/// The hits a scan reports in a list of reads, read by read.
pub open spec fn scan_hits(
    p: Seq<Option<u8>>,
    reads: Seq<(usize, Option<Seq<u8>>)>,
    mods: Seq<ModuleInfo>,
) -> Seq<(usize, Option<Seq<char>>, Option<usize>)>
    decreases reads.len(),
{
    if reads.len() == 0 {
        seq![]
    } else {
        scan_hits(p, reads.drop_last(), mods) + chunk_hits(p, reads.last(), mods)
    }
}

/// Every offset that a scan tries in a read is an address: each read's
/// last such offset lies within the address space.
pub open spec fn reads_fit(reads: Seq<(usize, Option<Seq<u8>>)>, plen: int) -> bool {
    forall|k: int|
        0 <= k < reads.len() ==> ((#[trigger] reads[k]).1 matches Some(d) ==> (fit_count(
            d.len() as int,
            plen,
        ) <= 0 || reads[k].0 + fit_count(d.len() as int, plen) - 1 <= usize::MAX))
}

/// The views of a list of results.
pub open spec fn result_views(rs: Seq<ScanResult>) -> Seq<(usize, Option<Seq<char>>, Option<usize>)> {
    rs.map_values(|r: ScanResult| r@)
}

/// The views of a list of reads.
pub open spec fn read_views(reads: Seq<ChunkRead>) -> Seq<(usize, Option<Seq<u8>>)> {
    reads.map_values(|c: ChunkRead| c@)
}

/// Every match of `pattern` in the memory that `reads` returned, with the
/// module that holds it, read by read and in increasing order within each.
pub fn scan_regions(pattern: &Pattern, reads: &[ChunkRead], modules: &[ModuleInfo]) -> (r: Vec<
    ScanResult,
>)
    requires
        reads_fit(read_views(reads@), pattern@.len() as int),
    ensures
        result_views(r@) == scan_hits(pattern@, read_views(reads@), modules@),
{
    let mut results: Vec<ScanResult> = Vec::new();
    let plen = pattern.len();
    let mut k: usize = 0;
    assert(read_views(reads@).take(0) =~= Seq::<(usize, Option<Seq<u8>>)>::empty());
    while k < reads.len()
        invariant
            k <= reads@.len(),
            plen == pattern@.len(),
            reads_fit(read_views(reads@), plen as int),
            result_views(results@) == scan_hits(
                pattern@,
                read_views(reads@).take(k as int),
                modules@,
            ),
        decreases reads@.len() - k,
    {
        let read = &reads[k];
        let ghost views = read_views(reads@);
        let ghost done = result_views(results@);
        assert(views[k as int] == read@);
        assert(views.take(k + 1).drop_last() =~= views.take(k as int));
        assert(views.take(k + 1).last() == read@);
        match &read.data {
            Some(data) => {
                if data.len() >= plen && data.len() > 0 {
                    let last = if plen == 0 {
                        data.len() - 1
                    } else {
                        data.len() - plen
                    };
                    assert(read.address + last <= usize::MAX) by {
                        assert(views[k as int].1 == Some(data@));
                    }
                    let mut i: usize = 0;
                    loop
                        invariant_except_break
                            i <= last,
                            result_views(results@) == done + hits_between(
                                pattern@,
                                read.address as int,
                                data@,
                                modules@,
                                0,
                                i as int,
                            ),
                        invariant
                            last + 1 == fit_count(data@.len() as int, plen as int),
                            last + plen <= data.len(),
                            plen == pattern@.len(),
                            read.address + last <= usize::MAX,
                        ensures
                            result_views(results@) == done + hits_between(
                                pattern@,
                                read.address as int,
                                data@,
                                modules@,
                                0,
                                last + 1,
                            ),
                        decreases last - i,
                    {
                        let ghost before = result_views(results@);
                        if pattern.matches(data.as_slice(), i) {
                            let found = read.address + i;
                            let (module, off) = which_module(found, modules);
                            let res = ScanResult { address: found, module, offset: off };
                            results.push(res);
                            assert(result_views(results@) =~= before.push(res@));
                        }
                        if i == last {
                            break;
                        }
                        i += 1;
                    }
                } else {
                    assert(hits_between(pattern@, read.address as int, data@, modules@, 0, fit_count(data@.len() as int, plen as int))
                        =~= Seq::<(usize, Option<Seq<char>>, Option<usize>)>::empty());
                    assert(done + Seq::<(usize, Option<Seq<char>>, Option<usize>)>::empty() =~= done);
                }
            },
            None => {
                assert(done + Seq::<(usize, Option<Seq<char>>, Option<usize>)>::empty() =~= done);
            },
        }
        assert(result_views(results@) =~= scan_hits(
            pattern@,
            read_views(reads@).take(k + 1),
            modules@,
        ));
        k += 1;
    }
    assert(read_views(reads@).take(reads@.len() as int) =~= read_views(reads@));
    results
}

// ---------------------------------------------------------------------------
// Planning the reads of a scan
// ---------------------------------------------------------------------------

/// How many starting offsets of the pattern each read of a scan covers;
/// a read takes that many bytes plus one less than the pattern's length,
/// so that consecutive reads overlap by that much.
pub const SCAN_CHUNK: usize = 0x10000;

/// One read that a scan makes: `size` bytes from `address`.
#[derive(Debug, Clone, Copy)]
pub struct ReadRequest {
    pub address: usize,
    pub size: usize,
}

/// The number of reads a scan makes of a region of `size` bytes: one at
/// each multiple of `SCAN_CHUNK` below `size`.
pub open spec fn chunk_count(size: int) -> int {
    (size + SCAN_CHUNK - 1) / (SCAN_CHUNK as int)
}

/// How many bytes one read of a scan takes at most: `SCAN_CHUNK` offsets
/// and the rest of a pattern of `plen` positions starting at the last.
pub open spec fn read_span(plen: int) -> int {
    if plen == 0 {
        SCAN_CHUNK as int
    } else {
        SCAN_CHUNK + plen - 1
    }
}

/// The smaller of two numbers.
pub open spec fn min_int(a: int, b: int) -> int {
    if a <= b {
        a
    } else {
        b
    }
}

/// The reads of region `r` for a pattern of `plen` positions: the `k`-th
/// starts `k * SCAN_CHUNK` bytes into the region and reads up to
/// `read_span(plen)` bytes, without passing the region's end, so that the
/// scan can try each of its first `SCAN_CHUNK` offsets.
pub open spec fn region_requests(r: MemoryRegion, plen: int) -> Seq<ReadRequest> {
    Seq::new(
        chunk_count(r.size as int) as nat,
        |k: int|
            ReadRequest {
                address: (r.base + k * SCAN_CHUNK) as usize,
                size: min_int(r.size - k * SCAN_CHUNK, read_span(plen)) as usize,
            },
    )
}

/// The reads of a list of regions, region by region.
pub open spec fn plan_requests(regions: Seq<MemoryRegion>, plen: int) -> Seq<ReadRequest>
    decreases regions.len(),
{
    if regions.len() == 0 {
        seq![]
    } else {
        plan_requests(regions.drop_last(), plen) + region_requests(regions.last(), plen)
    }
}

/// Planning the reads of region `r` stays within the machine's numbers:
/// each read's address and length, and the offset after the last read.
pub open spec fn plannable(r: MemoryRegion, plen: int) -> bool {
    let n = chunk_count(r.size as int);
    r.size == 0 || (read_span(plen) <= usize::MAX && r.base + (n - 1) * SCAN_CHUNK
        <= usize::MAX && n * SCAN_CHUNK <= usize::MAX)
}

proof fn lemma_chunk_count(size: int, k: int)
    requires
        size >= 0,
        k >= 0,
    ensures
        k * SCAN_CHUNK < size <==> k < chunk_count(size),
{
    assert(k * SCAN_CHUNK < size <==> k < chunk_count(size)) by (nonlinear_arith)
        requires
            size >= 0,
            k >= 0,
            chunk_count(size) == (size + 65535) / 65536,
            SCAN_CHUNK == 65536,
    ;
}

/// Whether the reads of region `r` can be planned for a pattern of
/// `pattern_len` positions (what `read_plan` asks of each region).
pub fn plannable_region(r: &MemoryRegion, pattern_len: usize) -> (b: bool)
    ensures
        b == plannable(*r, pattern_len as int),
{
    if r.size == 0 {
        return true;
    }
    if pattern_len > usize::MAX - (SCAN_CHUNK - 1) {
        return false;
    }
    let last = (r.size - 1) / SCAN_CHUNK * SCAN_CHUNK;
    proof {
        lemma_last_chunk(r.size as int);
    }
    r.base <= usize::MAX - last && last <= usize::MAX - SCAN_CHUNK
}

proof fn lemma_last_chunk(size: int)
    requires
        size >= 1,
    ensures
        (size - 1) / (SCAN_CHUNK as int) * SCAN_CHUNK == (chunk_count(size) - 1) * SCAN_CHUNK,
        0 <= (size - 1) / (SCAN_CHUNK as int) * SCAN_CHUNK <= size - 1,
{
    assert((size - 1) / 65536 * 65536 == ((size + 65535) / 65536 - 1) * 65536
        && 0 <= (size - 1) / 65536 * 65536 <= size - 1) by (nonlinear_arith)
        requires
            size >= 1,
    ;
}

/// The reads that a scan of `regions` for a pattern of `pattern_len`
/// positions makes, in order.
pub fn read_plan(regions: &[MemoryRegion], pattern_len: usize) -> (r: Vec<ReadRequest>)
    requires
        forall|i: int| 0 <= i < regions@.len() ==> plannable(#[trigger] regions@[i], pattern_len as int),
    ensures
        r@ == plan_requests(regions@, pattern_len as int),
{
    let mut out: Vec<ReadRequest> = Vec::new();
    let mut j: usize = 0;
    while j < regions.len()
        invariant
            j <= regions@.len(),
            forall|i: int| 0 <= i < regions@.len() ==> plannable(#[trigger] regions@[i], pattern_len as int),
            out@ == plan_requests(regions@.take(j as int), pattern_len as int),
        decreases regions@.len() - j,
    {
        let region = regions[j];
        assert(plannable(regions@[j as int], pattern_len as int));
        let ghost prev = out@;
        let ghost reqs = region_requests(region, pattern_len as int);
        let ghost n = chunk_count(region.size as int);
        let mut offset: usize = 0;
        let ghost mut k: int = 0;
        proof {
            lemma_chunk_count(region.size as int, 0);
        }
        while offset < region.size
            invariant
                plannable(region, pattern_len as int),
                reqs == region_requests(region, pattern_len as int),
                n == chunk_count(region.size as int),
                0 <= k <= n,
                offset == k * SCAN_CHUNK,
                out@ == prev + reqs.take(k),
            decreases n - k,
        {
            proof {
                lemma_chunk_count(region.size as int, k);
            }
            let span = if pattern_len == 0 {
                SCAN_CHUNK
            } else {
                SCAN_CHUNK - 1 + pattern_len
            };
            let size = if region.size - offset < span {
                region.size - offset
            } else {
                span
            };
            let req = ReadRequest { address: region.base + offset, size };
            out.push(req);
            assert(reqs[k] == req);
            assert(out@ =~= prev + reqs.take(k + 1));
            offset += SCAN_CHUNK;
            proof {
                k = k + 1;
            }
        }
        proof {
            lemma_chunk_count(region.size as int, k);
            if k > 0 {
                lemma_chunk_count(region.size as int, k - 1);
            }
            assert(reqs.take(k) =~= reqs);
            assert(regions@.take(j + 1).drop_last() =~= regions@.take(j as int));
            assert(regions@.take(j + 1).last() == region);
        }
        j += 1;
    }
    assert(regions@.take(regions@.len() as int) =~= regions@);
    out
}

} // verus!

verus! {

// ---------------------------------------------------------------------------
// Laws of scanning
// ---------------------------------------------------------------------------

/// The reads `reqs` of the memory `mem` of a region at `base`, each
/// returning exactly the bytes it asks for.
pub open spec fn filled_reads(reqs: Seq<ReadRequest>, base: int, mem: Seq<u8>) -> Seq<
    (usize, Option<Seq<u8>>),
> {
    reqs.map_values(
        |q: ReadRequest|
            (q.address, Some(mem.subrange(q.address - base, q.address - base + q.size))),
    )
}

/// Hits at the offsets `lo..mid` followed by those at `mid..hi` are the
/// hits at `lo..hi`.
pub proof fn lemma_hits_concat(
    p: Seq<Option<u8>>,
    base: int,
    data: Seq<u8>,
    mods: Seq<ModuleInfo>,
    lo: int,
    mid: int,
    hi: int,
)
    requires
        lo <= mid <= hi,
    ensures
        hits_between(p, base, data, mods, lo, mid) + hits_between(p, base, data, mods, mid, hi)
            == hits_between(p, base, data, mods, lo, hi),
    decreases hi - mid,
{
    if hi == mid {
        assert(hits_between(p, base, data, mods, lo, mid) + hits_between(
            p,
            base,
            data,
            mods,
            mid,
            hi,
        ) =~= hits_between(p, base, data, mods, lo, hi));
    } else {
        lemma_hits_concat(p, base, data, mods, lo, mid, hi - 1);
        let a = hits_between(p, base, data, mods, lo, mid);
        let b = hits_between(p, base, data, mods, mid, hi - 1);
        if matches_at(p, data, hi - 1) {
            assert(a + b.push(hit(base + hi - 1, mods)) =~= (a + b).push(hit(base + hi - 1, mods)));
        }
    }
}

/// Scanning a read of part of `mem`, taken at offset `off`, finds what
/// scanning `mem` finds at the same offsets, shifted by `off`.
pub proof fn lemma_hits_shift(
    p: Seq<Option<u8>>,
    base: int,
    mem: Seq<u8>,
    mods: Seq<ModuleInfo>,
    off: int,
    len: int,
    n: int,
)
    requires
        0 <= off,
        0 <= len,
        off + len <= mem.len(),
        0 <= n,
        n == 0 || n + p.len() <= len + 1,
    ensures
        hits_between(p, base + off, mem.subrange(off, off + len), mods, 0, n) == hits_between(
            p,
            base,
            mem,
            mods,
            off,
            off + n,
        ),
    decreases n,
{
    if n > 0 {
        lemma_hits_shift(p, base, mem, mods, off, len, n - 1);
        let sub = mem.subrange(off, off + len);
        assert(matches_at(p, sub, n - 1) == matches_at(p, mem, off + n - 1)) by {
            if n + p.len() <= len + 1 {
                assert forall|i: int| 0 <= i < p.len() implies accepts(#[trigger] p[i], sub[n - 1 + i])
                    == accepts(p[i], mem[off + n - 1 + i]) by {
                    assert(sub[n - 1 + i] == mem[off + n - 1 + i]);
                }
            }
        }
        assert(base + off + n - 1 == base + (off + n) - 1);
    }
}

/// Whether `e` is what a scan reports of a match of `p` at offset `j` of
/// `data`, for `j` in `lo..hi`.
pub open spec fn reported_match(
    p: Seq<Option<u8>>,
    base: int,
    data: Seq<u8>,
    mods: Seq<ModuleInfo>,
    lo: int,
    hi: int,
    j: int,
    e: (usize, Option<Seq<char>>, Option<usize>),
) -> bool {
    lo <= j < hi && matches_at(p, data, j) && e == hit(base + j, mods)
}

/// Whether `e` is what a scan reports of some match of `p` in `data` at
/// an offset in `lo..hi`.
pub open spec fn is_reported_match(
    p: Seq<Option<u8>>,
    base: int,
    data: Seq<u8>,
    mods: Seq<ModuleInfo>,
    lo: int,
    hi: int,
    e: (usize, Option<Seq<char>>, Option<usize>),
) -> bool {
    exists|j: int| #[trigger] reported_match(p, base, data, mods, lo, hi, j, e)
}

/// What a scan reports at offsets `lo..hi` is exactly the matches there:
/// each reported hit is a match at one of those offsets, and each match
/// there is reported.
pub proof fn law_hits_are_the_matches(
    p: Seq<Option<u8>>,
    base: int,
    data: Seq<u8>,
    mods: Seq<ModuleInfo>,
    lo: int,
    hi: int,
)
    ensures
        forall|t: int|
            0 <= t < hits_between(p, base, data, mods, lo, hi).len() ==> is_reported_match(
                p,
                base,
                data,
                mods,
                lo,
                hi,
                #[trigger] hits_between(p, base, data, mods, lo, hi)[t],
            ),
        forall|j: int|
            lo <= j < hi && #[trigger] matches_at(p, data, j) ==> hits_between(
                p,
                base,
                data,
                mods,
                lo,
                hi,
            ).contains(hit(base + j, mods)),
    decreases hi - lo,
{
    let all = hits_between(p, base, data, mods, lo, hi);
    if hi <= lo {
        assert(all.len() == 0);
    } else {
        law_hits_are_the_matches(p, base, data, mods, lo, hi - 1);
        let prev = hits_between(p, base, data, mods, lo, hi - 1);
        assert forall|t: int| 0 <= t < all.len() implies is_reported_match(
            p,
            base,
            data,
            mods,
            lo,
            hi,
            #[trigger] all[t],
        ) by {
            if t < prev.len() {
                assert(all[t] == prev[t]);
                assert(is_reported_match(p, base, data, mods, lo, hi - 1, prev[t]));
                let j = choose|j: int| #[trigger]
                    reported_match(p, base, data, mods, lo, hi - 1, j, prev[t]);
                assert(reported_match(p, base, data, mods, lo, hi, j, all[t]));
            } else {
                assert(matches_at(p, data, hi - 1));
                assert(all[t] == hit(base + (hi - 1), mods));
                assert(reported_match(p, base, data, mods, lo, hi, hi - 1, all[t]));
            }
        }
        assert forall|j: int| lo <= j < hi && #[trigger] matches_at(p, data, j) implies all.contains(
            hit(base + j, mods),
        ) by {
            if j < hi - 1 {
                let t = choose|t: int| 0 <= t < prev.len() && prev[t] == hit(base + j, mods);
                if matches_at(p, data, hi - 1) {
                    assert(all[t] == prev[t]);
                }
            } else {
                assert(all[all.len() - 1] == hit(base + j, mods));
            }
        }
    }
}

/// Within one read, the hits come in strictly increasing address order.
pub proof fn law_hits_increase(
    p: Seq<Option<u8>>,
    base: int,
    data: Seq<u8>,
    mods: Seq<ModuleInfo>,
    lo: int,
    hi: int,
)
    requires
        0 <= base,
        0 <= lo,
        base + hi <= usize::MAX + 1,
    ensures
        forall|t1: int, t2: int|
            0 <= t1 < t2 < hits_between(p, base, data, mods, lo, hi).len() ==> (
            #[trigger] hits_between(p, base, data, mods, lo, hi)[t1]).0 < (
            #[trigger] hits_between(p, base, data, mods, lo, hi)[t2]).0,
    decreases hi - lo,
{
    if hi > lo {
        law_hits_increase(p, base, data, mods, lo, hi - 1);
        law_hits_are_the_matches(p, base, data, mods, lo, hi - 1);
        let prev = hits_between(p, base, data, mods, lo, hi - 1);
        let all = hits_between(p, base, data, mods, lo, hi);
        assert forall|t1: int, t2: int| 0 <= t1 < t2 < all.len() implies (
        #[trigger] all[t1]).0 < (#[trigger] all[t2]).0 by {
            if t2 < prev.len() {
                assert(all[t1] == prev[t1] && all[t2] == prev[t2]);
            } else {
                assert(all[t1] == prev[t1]);
                assert(is_reported_match(p, base, data, mods, lo, hi - 1, prev[t1]));
                let j = choose|j: int| #[trigger]
                    reported_match(p, base, data, mods, lo, hi - 1, j, prev[t1]);
                assert(all[t2] == hit(base + hi - 1, mods));
                assert(hit(base + j, mods).0 == (base + j) as usize);
                assert(hit(base + hi - 1, mods).0 == (base + hi - 1) as usize);
            }
        }
    }
}

/// Scanning one more read adds that read's hits at the end.
pub proof fn lemma_scan_hits_push(
    p: Seq<Option<u8>>,
    reads: Seq<(usize, Option<Seq<u8>>)>,
    read: (usize, Option<Seq<u8>>),
    mods: Seq<ModuleInfo>,
)
    ensures
        scan_hits(p, reads.push(read), mods) == scan_hits(p, reads, mods) + chunk_hits(
            p,
            read,
            mods,
        ),
{
    assert(reads.push(read).drop_last() =~= reads);
}

/// Scanning a list of reads made of two lists finds the hits of the first
/// list, then those of the second.
pub proof fn law_scan_hits_append(
    p: Seq<Option<u8>>,
    a: Seq<(usize, Option<Seq<u8>>)>,
    b: Seq<(usize, Option<Seq<u8>>)>,
    mods: Seq<ModuleInfo>,
)
    ensures
        scan_hits(p, a + b, mods) == scan_hits(p, a, mods) + scan_hits(p, b, mods),
    decreases b.len(),
{
    if b.len() == 0 {
        assert(a + b =~= a);
        assert(scan_hits(p, a, mods) + scan_hits(p, b, mods) =~= scan_hits(p, a, mods));
    } else {
        law_scan_hits_append(p, a, b.drop_last(), mods);
        assert((a + b).drop_last() =~= a + b.drop_last());
        assert((a + b).last() == b.last());
        assert(scan_hits(p, a, mods) + (scan_hits(p, b.drop_last(), mods) + chunk_hits(
            p,
            b.last(),
            mods,
        )) =~= (scan_hits(p, a, mods) + scan_hits(p, b.drop_last(), mods)) + chunk_hits(
            p,
            b.last(),
            mods,
        ));
    }
}

proof fn lemma_chunked_prefix(
    p: Seq<Option<u8>>,
    r: MemoryRegion,
    mem: Seq<u8>,
    mods: Seq<ModuleInfo>,
    k: int,
)
    requires
        plannable(r, p.len() as int),
        mem.len() == r.size,
        0 <= k <= chunk_count(r.size as int),
    ensures
        scan_hits(
            p,
            filled_reads(region_requests(r, p.len() as int).take(k), r.base as int, mem),
            mods,
        ) == hits_between(
            p,
            r.base as int,
            mem,
            mods,
            0,
            min_int(k * SCAN_CHUNK, sat_sub(fit_count(r.size as int, p.len() as int), 0)),
        ),
    decreases k,
{
    let reqs = region_requests(r, p.len() as int);
    let big_n = sat_sub(fit_count(r.size as int, p.len() as int), 0);
    let base = r.base as int;
    if k == 0 {
        assert(filled_reads(reqs.take(0), base, mem) =~= Seq::<(usize, Option<Seq<u8>>)>::empty());
    } else {
        lemma_chunked_prefix(p, r, mem, mods, k - 1);
        let off = (k - 1) * SCAN_CHUNK;
        lemma_chunk_count(r.size as int, k - 1);
        let len = min_int(r.size - off, read_span(p.len() as int));
        let q = reqs[k - 1];
        assert(q.address == base + off) by (nonlinear_arith)
            requires
                q.address == (r.base + (k - 1) * SCAN_CHUNK) as usize,
                r.base + (chunk_count(r.size as int) - 1) * SCAN_CHUNK <= usize::MAX,
                1 <= k <= chunk_count(r.size as int),
                off == (k - 1) * SCAN_CHUNK,
                base == r.base,
                SCAN_CHUNK == 65536,
        ;
        assert(q.size == len);
        let data = mem.subrange(off, off + len);
        let x = (q.address, Some(data));
        assert(filled_reads(reqs.take(k), base, mem) =~= filled_reads(reqs.take(k - 1), base, mem).push(x));
        lemma_scan_hits_push(p, filled_reads(reqs.take(k - 1), base, mem), x, mods);
        let n = sat_sub(fit_count(len, p.len() as int), 0);
        lemma_hits_shift(p, base, mem, mods, off, len, n);
        if fit_count(len, p.len() as int) <= 0 {
            assert(hits_between(p, base + off, data, mods, 0, fit_count(len, p.len() as int)) =~= Seq::<
                (usize, Option<Seq<char>>, Option<usize>),
            >::empty());
            assert(hits_between(p, base + off, data, mods, 0, n) =~= Seq::<
                (usize, Option<Seq<char>>, Option<usize>),
            >::empty());
        }
        assert(chunk_hits(p, x, mods) == hits_between(p, base, mem, mods, off, off + n));
        if big_n >= off {
            assert(off + n == min_int(k * SCAN_CHUNK, big_n));
            lemma_hits_concat(p, base, mem, mods, 0, off, off + n);
        } else {
            assert(n == 0);
            assert(hits_between(p, base, mem, mods, off, off + n) =~= Seq::<
                (usize, Option<Seq<char>>, Option<usize>),
            >::empty());
            assert(hits_between(p, base, mem, mods, 0, big_n) + Seq::<
                (usize, Option<Seq<char>>, Option<usize>),
            >::empty() =~= hits_between(p, base, mem, mods, 0, big_n));
        }
    }
}

/// When every read of a region returns exactly the memory it asks for,
/// scanning the region read by read reports exactly what scanning the
/// whole region at once reports: the hits at every offset of the region
/// where the pattern fits, each once.
pub proof fn law_chunked_scan_is_whole_scan(
    p: Seq<Option<u8>>,
    r: MemoryRegion,
    mem: Seq<u8>,
    mods: Seq<ModuleInfo>,
)
    requires
        plannable(r, p.len() as int),
        mem.len() == r.size,
    ensures
        scan_hits(p, filled_reads(region_requests(r, p.len() as int), r.base as int, mem), mods)
            == hits_between(p, r.base as int, mem, mods, 0, fit_count(r.size as int, p.len() as int)),
{
    let n = chunk_count(r.size as int);
    lemma_chunk_count(r.size as int, n);
    lemma_chunked_prefix(p, r, mem, mods, n);
    assert(region_requests(r, p.len() as int).take(n) =~= region_requests(r, p.len() as int));
    if fit_count(r.size as int, p.len() as int) < 0 {
        assert(hits_between(p, r.base as int, mem, mods, 0, fit_count(r.size as int, p.len() as int)) =~= Seq::<
            (usize, Option<Seq<char>>, Option<usize>),
        >::empty());
        assert(hits_between(p, r.base as int, mem, mods, 0, 0) =~= Seq::<
            (usize, Option<Seq<char>>, Option<usize>),
        >::empty());
    }
}

/// Every hit of a scan names the module that `which_module` gives for its
/// address, with the offset into it.
pub proof fn law_scan_hits_carry_their_modules(
    p: Seq<Option<u8>>,
    reads: Seq<(usize, Option<Seq<u8>>)>,
    mods: Seq<ModuleInfo>,
)
    requires
        reads_fit(reads, p.len() as int),
    ensures
        forall|t: int|
            0 <= t < scan_hits(p, reads, mods).len() ==> #[trigger] scan_hits(p, reads, mods)[t]
                == hit(scan_hits(p, reads, mods)[t].0 as int, mods),
    decreases reads.len(),
{
    if reads.len() > 0 {
        let init = reads.drop_last();
        assert(reads_fit(init, p.len() as int)) by {
            assert forall|k: int| 0 <= k < init.len() implies ((#[trigger] init[k]).1 matches Some(d)
                ==> (fit_count(d.len() as int, p.len() as int) <= 0 || init[k].0 + fit_count(
                d.len() as int,
                p.len() as int,
            ) - 1 <= usize::MAX)) by {
                assert(init[k] == reads[k]);
            }
        }
        law_scan_hits_carry_their_modules(p, init, mods);
        let read = reads.last();
        let before = scan_hits(p, init, mods);
        let here = chunk_hits(p, read, mods);
        assert(reads[reads.len() - 1] == read);
        assert forall|t: int| 0 <= t < here.len() implies #[trigger] here[t] == hit(
            here[t].0 as int,
            mods,
        ) by {
            let d = read.1->Some_0;
            let hi = fit_count(d.len() as int, p.len() as int);
            law_hits_are_the_matches(p, read.0 as int, d, mods, 0, hi);
            assert(is_reported_match(p, read.0 as int, d, mods, 0, hi, here[t]));
            let j = choose|j: int| #[trigger]
                reported_match(p, read.0 as int, d, mods, 0, hi, j, here[t]);
            assert(read.0 + j <= usize::MAX);
            assert(hit(read.0 + j, mods).0 == (read.0 + j) as usize);
        }
        let all = scan_hits(p, reads, mods);
        assert(all == before + here);
        assert forall|t: int| 0 <= t < all.len() implies #[trigger] all[t] == hit(
            all[t].0 as int,
            mods,
        ) by {
            if t < before.len() {
                assert(all[t] == before[t]);
            } else {
                assert(all[t] == here[t - before.len()]);
            }
        }
    }
}

/// The module named for an address is the first one, in the order given,
/// whose range `base .. base + size` holds the address (its base included,
/// its end excluded), and the offset is the distance from that base.
pub proof fn law_module_of_address(mods: Seq<ModuleInfo>, a: int, i: int)
    requires
        0 <= a <= usize::MAX,
        0 <= i < mods.len(),
        mods[i].base <= a < mods[i].base + mods[i].size,
        forall|j: int| 0 <= j < i ==> !(mods[j].base <= a < mods[j].base + #[trigger] mods[j].size),
    ensures
        hit(a, mods) == (a as usize, Some(mods[i].name@), Some((a - mods[i].base) as usize)),
{
    assert forall|j: int| 0 <= j < i implies !holds(#[trigger] mods[j], a) by {
        assert(!(mods[j].base <= a < mods[j].base + mods[j].size));
    }
    lemma_first_holder_unique(mods, a, i);
}

/// Every module of positive size holds its own base: a hit there names the
/// module at offset zero.
pub proof fn law_module_holds_its_base(m: ModuleInfo)
    requires
        m.size > 0,
    ensures
        hit(m.base as int, seq![m]) == (m.base, Some(m.name@), Some(0usize)),
{
    law_module_of_address(seq![m], m.base as int, 0);
}

/// An address outside every module's range has no module.
pub proof fn law_address_outside_modules(mods: Seq<ModuleInfo>, a: int)
    requires
        0 <= a <= usize::MAX,
        forall|i: int| 0 <= i < mods.len() ==> !(mods[i].base <= a < mods[i].base + #[trigger] mods[i].size),
    ensures
        hit(a, mods) == (a as usize, None::<Seq<char>>, None::<usize>),
{
    assert forall|i: int| first_holder(mods, a, i) implies false by {
        assert(!(mods[i].base <= a < mods[i].base + mods[i].size));
    }
}

/// The displacement read from four bytes is the signed 32-bit number whose
/// two's-complement little-endian bytes they are: it lies in the signed
/// 32-bit range and agrees with `b[0] + 2^8 b[1] + 2^16 b[2] + 2^24 b[3]`
/// modulo `2^32`.
pub proof fn law_displacement_is_signed_little_endian(b: Seq<u8>)
    requires
        b.len() >= 4,
    ensures
        -0x8000_0000 <= le_i32(b) < 0x8000_0000,
        le_i32(b) == b[0] + b[1] * 0x100 + b[2] * 0x1_0000 + b[3] * 0x100_0000 || le_i32(b) == b[0]
            + b[1] * 0x100 + b[2] * 0x1_0000 + b[3] * 0x100_0000 - 0x1_0000_0000,
        b[3] < 0x80 <==> le_i32(b) >= 0,
{
}

/// Moving an address wraps around the address space: the result is an
/// address, and differs from the exact sum by a multiple of the address
/// space's size (zero when the sum is itself an address).
pub proof fn law_wrap_address(x: int)
    requires
        -(usize::MAX + 1) < x < 2 * (usize::MAX + 1),
    ensures
        0 <= wrap_address(x) <= usize::MAX,
        wrap_address(x) == x || wrap_address(x) == x + (usize::MAX + 1) || wrap_address(x) == x
            - (usize::MAX + 1),
        0 <= x <= usize::MAX ==> wrap_address(x) == x,
{
}

} // verus!
