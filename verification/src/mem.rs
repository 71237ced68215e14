//! The process-memory scanner: applies a compiled pattern to an
//! addressable memory region by trying every candidate start offset in
//! ascending order — a true sliding window, unlike the forward
//! [`crate::Scanner`].
//!
//! Live memory is sparse: a location may sit on a page that is not
//! committed or not readable. Every read therefore goes through
//! [`ByteRegion::read_at`], the safety boundary that checks the location
//! before touching it and reports an unreadable one as `None`; a candidate
//! start whose pattern range covers such a location is simply skipped.

use crate::part_matches;
use crate::pattern::{Part, Pattern};
use vstd::prelude::*;

verus! {

/// An addressable, replayable byte region. Each location either holds a
/// byte or is unreadable.
pub trait ByteRegion {
    /// The region's locations in address order: a byte for each readable
    /// one, `None` for each unreadable one.
    spec fn cells(&self) -> Seq<Option<u8>>;

    /// Reads the byte at offset `i`, checking first that the location is
    /// readable; `None` exactly when it is not. Never faults.
    fn read_at(&self, i: usize) -> (r: Option<u8>)
        requires
            i < self.cells().len(),
        ensures
            r == self.cells()[i as int],
    ;
}

/// A fully readable region backed by an owned buffer: scanning it with
/// [`ProcessScanner`] gives the sliding-window search over a buffer, with
/// match positions as offsets from the buffer's base.
pub struct BufferRegion {
    bytes: Vec<u8>,
}

impl BufferRegion {
    /// Wraps a buffer; every location is readable.
    pub fn new(bytes: Vec<u8>) -> (r: BufferRegion)
        ensures
            r.cells() == bytes@.map_values(|b: u8| Some(b)),
    {
        BufferRegion { bytes }
    }
}

impl ByteRegion for BufferRegion {
    closed spec fn cells(&self) -> Seq<Option<u8>> {
        self.bytes@.map_values(|b: u8| Some(b))
    }

    fn read_at(&self, i: usize) -> (r: Option<u8>) {
        Some(self.bytes[i])
    }
}

/// A region with unreadable holes, held directly as optional bytes: a
/// stand-in for a sparse address space, with `None` at each location whose
/// page must not be dereferenced.
pub struct MaskedRegion {
    slots: Vec<Option<u8>>,
}

impl MaskedRegion {
    /// Wraps the locations as given.
    pub fn new(slots: Vec<Option<u8>>) -> (r: MaskedRegion)
        ensures
            r.cells() == slots@,
    {
        MaskedRegion { slots }
    }
}

impl ByteRegion for MaskedRegion {
    closed spec fn cells(&self) -> Seq<Option<u8>> {
        self.slots@
    }

    fn read_at(&self, i: usize) -> (r: Option<u8>) {
        self.slots[i]
    }
}

/// A resolved module: the base address and byte size of its mapped range,
/// as the platform's module introspection reports them.
#[derive(Debug, Clone, Copy, PartialEq, Eq, Structural)]
pub struct ProcessInfo {
    pub mem_base: usize,
    pub mem_size: usize,
}

impl ProcessInfo {
    /// A resolved range, base address and size in bytes.
    pub fn new(mem_base: usize, mem_size: usize) -> (r: ProcessInfo)
        ensures
            r.mem_base == mem_base,
            r.mem_size == mem_size,
    {
        ProcessInfo { mem_base, mem_size }
    }
}

/// Whether one location satisfies one part: it must be readable and its
/// byte accepted.
pub open spec fn cell_ok(p: Part, c: Option<u8>) -> bool {
    c is Some && part_matches(p, c.unwrap())
}

/// Whether the pattern matches the region at candidate start `start`:
/// the whole range fits and every location in it is readable and accepted.
pub open spec fn match_at(ps: Seq<Part>, mem: Seq<Option<u8>>, start: int) -> bool {
    &&& 0 <= start
    &&& start + ps.len() <= mem.len()
    &&& forall|j: int| 0 <= j < ps.len() ==> cell_ok(ps[j], mem[start + j])
}

/// The capture one part contributes at one location: the location's byte
/// for `Take`, nothing otherwise.
pub open spec fn part_cap(p: Part, c: Option<u8>) -> Seq<u8> {
    if p is Take {
        seq![c.unwrap()]
    } else {
        Seq::empty()
    }
}

/// The bytes that the `Take` parts of a match at `start` capture, in
/// pattern order.
pub open spec fn caps_at(ps: Seq<Part>, mem: Seq<Option<u8>>, start: int) -> Seq<u8>
    decreases ps.len(),
{
    if ps.len() == 0 {
        Seq::empty()
    } else {
        part_cap(ps[0], mem[start]) + caps_at(ps.drop_first(), mem, start + 1)
    }
}

/// Every candidate start in `start..mem.len()` where the pattern matches,
/// in ascending order.
pub open spec fn matches_from(ps: Seq<Part>, mem: Seq<Option<u8>>, start: int) -> Seq<int>
    decreases mem.len() - start,
{
    if start < 0 || start >= mem.len() {
        Seq::empty()
    } else if match_at(ps, mem, start) {
        seq![start] + matches_from(ps, mem, start + 1)
    } else {
        matches_from(ps, mem, start + 1)
    }
}

/// The match list holds exactly the matching starts at or after `start`.
pub proof fn lemma_matches_from_contains(ps: Seq<Part>, mem: Seq<Option<u8>>, start: int, q: int)
    requires
        0 <= start,
    ensures
        matches_from(ps, mem, start).contains(q) <==> (start <= q < mem.len() && match_at(
            ps,
            mem,
            q,
        )),
    decreases mem.len() - start,
{
    if start < 0 || start >= mem.len() {
    } else {
        lemma_matches_from_contains(ps, mem, start + 1, q);
        let rest = matches_from(ps, mem, start + 1);
        if match_at(ps, mem, start) {
            let s = matches_from(ps, mem, start);
            assert(s == seq![start] + rest);
            if q == start {
                assert(s[0] == q);
                assert(s.contains(q));
            } else {
                if s.contains(q) {
                    let idx = choose|idx: int| 0 <= idx < s.len() && s[idx] == q;
                    assert(rest[idx - 1] == q);
                    assert(rest.contains(q));
                }
                if rest.contains(q) {
                    let idx = choose|idx: int| 0 <= idx < rest.len() && rest[idx] == q;
                    assert(s[idx + 1] == q);
                    assert(s.contains(q));
                }
            }
        }
    }
}

/// Scans a resolved memory region, yielding one absolute match address per
/// call to [`ProcessScanner::next`]. Candidate starts are tried in
/// ascending order and every location is read through the liveness-checked
/// [`ByteRegion::read_at`].
pub struct ProcessScanner<R: ByteRegion> {
    process: ProcessInfo,
    region: R,
    pattern: Pattern,
    cursor: usize,
    /// The bytes captured by `Take` parts of the most recent match.
    pub store: Vec<u8>,
}

impl<R: ByteRegion> ProcessScanner<R> {
    /// The compiled parts of the pattern being scanned for.
    pub closed spec fn parts(&self) -> Seq<Part> {
        self.pattern@
    }

    /// The region's locations.
    pub closed spec fn mem(&self) -> Seq<Option<u8>> {
        self.region.cells()
    }

    /// The resolved range being scanned.
    pub closed spec fn info(&self) -> ProcessInfo {
        self.process
    }

    /// The next candidate start offset.
    pub closed spec fn cursor_at(&self) -> nat {
        self.cursor as nat
    }

    /// The bytes captured by the most recent match, as `store` holds them.
    pub closed spec fn captured(&self) -> Seq<u8> {
        self.store@
    }

    /// The region covers exactly the resolved range, its end address fits
    /// the machine, and the cursor has not passed the end.
    pub open spec fn wf(&self) -> bool {
        &&& self.mem().len() == self.info().mem_size
        &&& self.info().mem_base + self.info().mem_size <= usize::MAX
        &&& self.cursor_at() <= self.info().mem_size
    }

    /// Builds a scanner over a resolved module's region, positioned at its
    /// base.
    pub fn scan(process: ProcessInfo, region: R, pattern: Pattern) -> (r: ProcessScanner<R>)
        requires
            region.cells().len() == process.mem_size,
            process.mem_base + process.mem_size <= usize::MAX,
        ensures
            r.wf(),
            r.parts() == pattern@,
            r.mem() == region.cells(),
            r.info() == process,
            r.cursor_at() == 0,
            r.captured() == Seq::<u8>::empty(),
    {
        ProcessScanner { process, region, pattern, cursor: 0, store: Vec::new() }
    }

    /// Produces the next match at or after the cursor: the lowest candidate
    /// start whose whole pattern range is readable and accepted. Yields the
    /// absolute address and leaves the captured bytes in `store`; `None`
    /// when no start up to the end of the region matches, which ends the
    /// scan. A start over an unreadable location is skipped without being
    /// dereferenced, and the scan goes on behind it.
    pub fn next(&mut self) -> (r: Option<usize>)
        requires
            old(self).wf(),
        ensures
            final(self).wf(),
            final(self).parts() == old(self).parts(),
            final(self).mem() == old(self).mem(),
            final(self).info() == old(self).info(),
            ({
                let ms = matches_from(
                    old(self).parts(),
                    old(self).mem(),
                    old(self).cursor_at() as int,
                );
                match r {
                    Some(addr) => {
                        &&& ms.len() > 0
                        &&& addr == old(self).info().mem_base + ms[0]
                        &&& final(self).captured() == caps_at(
                            old(self).parts(),
                            old(self).mem(),
                            ms[0],
                        )
                        &&& final(self).cursor_at() == ms[0] + 1
                    },
                    None => {
                        &&& ms.len() == 0
                        &&& final(self).cursor_at() == old(self).info().mem_size
                        &&& final(self).captured() == old(self).captured()
                    },
                }
            }),
    {
        let size: usize = self.process.mem_size;
        let pat_len: usize = self.pattern.parts().len();
        let mut start: usize = self.cursor;
        let ghost ps = self.pattern@;
        let ghost mem = self.region.cells();
        while start < size
            invariant
                self.process == old(self).process,
                self.region == old(self).region,
                self.pattern == old(self).pattern,
                self.store == old(self).store,
                self.cursor == old(self).cursor,
                old(self).wf(),
                ps == self.pattern@,
                mem == self.region.cells(),
                size == self.process.mem_size,
                pat_len == ps.len(),
                mem.len() == size,
                self.process.mem_base + size <= usize::MAX,
                old(self).cursor_at() <= start <= size,
                matches_from(ps, mem, old(self).cursor_at() as int) == matches_from(
                    ps,
                    mem,
                    start as int,
                ),
            decreases size - start,
        {
            if pat_len > size - start {
                proof {
                    assert(!match_at(ps, mem, start as int));
                }
                start = start + 1;
                continue;
            }
            let mut caps: Vec<u8> = Vec::new();
            let mut ok: bool = true;
            let mut j: usize = 0;
            proof {
                assert(caps_at(ps.take(0), mem, start as int) == Seq::<u8>::empty());
            }
            while ok && j < pat_len
                invariant
                    self.process == old(self).process,
                    self.region == old(self).region,
                    self.pattern == old(self).pattern,
                    ps == self.pattern@,
                    mem == self.region.cells(),
                    size == self.process.mem_size,
                    pat_len == ps.len(),
                    mem.len() == size,
                    start + pat_len <= size,
                    j <= pat_len,
                    ok ==> forall|k: int| 0 <= k < j ==> cell_ok(ps[k], mem[start + k]),
                    ok ==> caps@ == caps_at(ps.take(j as int), mem, start as int),
                    !ok ==> !match_at(ps, mem, start as int),
                decreases pat_len - j,
            {
                let ghost caps0 = caps@;
                let c = self.region.read_at(start + j);
                let hit: bool = match c {
                    None => false,
                    Some(b) => {
                        let p: Part = self.pattern.parts()[j];
                        match p {
                            Part::Byte(v) => b == v,
                            Part::Take => {
                                caps.push(b);
                                true
                            },
                            Part::Skip => true,
                        }
                    },
                };
                proof {
                    if hit {
                        assert(cell_ok(ps[j as int], mem[start + j]));
                        lemma_caps_at_snoc(ps, mem, start as int, j as int);
                        assert(caps@ =~= caps0 + part_cap(ps[j as int], mem[start + j]));
                        assert(caps@ == caps_at(ps.take(j as int + 1), mem, start as int));
                    } else {
                        assert(!cell_ok(ps[j as int], mem[start + j]));
                        assert(!match_at(ps, mem, start as int));
                    }
                }
                ok = hit;
                j = j + 1;
            }
            if ok {
                proof {
                    assert(ps.take(pat_len as int) =~= ps);
                    assert(match_at(ps, mem, start as int));
                    assert(matches_from(ps, mem, start as int) == seq![start as int]
                        + matches_from(ps, mem, start as int + 1));
                }
                self.store = caps;
                self.cursor = start + 1;
                return Some(self.process.mem_base + start);
            }
            proof {
                assert(!match_at(ps, mem, start as int));
            }
            start = start + 1;
        }
        self.cursor = size;
        return None;
    }
}

/// Extending a match prefix by one part appends that part's capture, if
/// any.
proof fn lemma_caps_at_snoc(ps: Seq<Part>, mem: Seq<Option<u8>>, start: int, j: int)
    requires
        0 <= j < ps.len(),
    ensures
        caps_at(ps.take(j + 1), mem, start) == caps_at(ps.take(j), mem, start) + part_cap(
            ps[j],
            mem[start + j],
        ),
    decreases j,
{
    let a = ps.take(j + 1);
    let b = ps.take(j);
    let pc = part_cap(ps[j], mem[start + j]);
    if j == 0 {
        assert(b.len() == 0);
        assert(caps_at(b, mem, start) == Seq::<u8>::empty());
        assert(a.len() == 1);
        assert(a[0] == ps[0]);
        assert(a.drop_first().len() == 0);
        assert(caps_at(a.drop_first(), mem, start + 1) == Seq::<u8>::empty());
        assert(caps_at(a, mem, start) == part_cap(ps[0], mem[start]) + Seq::<u8>::empty());
        assert(part_cap(ps[0], mem[start]) + Seq::<u8>::empty() =~= Seq::<u8>::empty() + pc);
    } else {
        let ts = ps.drop_first();
        lemma_caps_at_snoc(ts, mem, start + 1, j - 1);
        assert(ts[j - 1] == ps[j]);
        assert(a.drop_first() =~= ts.take(j));
        assert(b.drop_first() =~= ts.take(j - 1));
        assert(a[0] == ps[0]);
        assert(b[0] == ps[0]);
        let pc0 = part_cap(ps[0], mem[start]);
        assert(caps_at(a, mem, start) == pc0 + caps_at(ts.take(j), mem, start + 1));
        assert(caps_at(b, mem, start) == pc0 + caps_at(ts.take(j - 1), mem, start + 1));
        assert(pc0 + (caps_at(ts.take(j - 1), mem, start + 1) + pc) =~= (pc0 + caps_at(
            ts.take(j - 1),
            mem,
            start + 1,
        )) + pc);
    }
}

/// The exact byte sequence stands, readable, at position `q` of the
/// region.
pub open spec fn bytes_at(needle: Seq<u8>, mem: Seq<Option<u8>>, q: int) -> bool {
    &&& 0 <= q
    &&& q + needle.len() <= mem.len()
    &&& forall|j: int| 0 <= j < needle.len() ==> mem[q + j] == Some(needle[j])
}

/// A pattern of fixed bytes whose byte sequence stands at exactly one
/// position of the region is found exactly once, at that position.
pub proof fn lemma_fixed_pattern_single_match(needle: Seq<u8>, mem: Seq<Option<u8>>, p: int)
    requires
        needle.len() > 0,
        bytes_at(needle, mem, p),
        forall|q: int| 0 <= q < mem.len() && q != p ==> !(#[trigger] bytes_at(needle, mem, q)),
    ensures
        matches_from(needle.map_values(|b: u8| Part::Byte(b)), mem, 0) == seq![p],
{
    let ps = needle.map_values(|b: u8| Part::Byte(b));
    assert forall|q: int| 0 <= q < mem.len() implies (match_at(ps, mem, q) <==> bytes_at(
        needle,
        mem,
        q,
    )) by {
        if match_at(ps, mem, q) {
            assert forall|j: int| 0 <= j < needle.len() implies mem[q + j] == Some(
                needle[j],
            ) by {
                assert(cell_ok(ps[j], mem[q + j]));
                assert(ps[j] == Part::Byte(needle[j]));
            }
        }
        if bytes_at(needle, mem, q) {
            assert forall|j: int| 0 <= j < ps.len() implies cell_ok(ps[j], mem[q + j]) by {
                assert(ps[j] == Part::Byte(needle[j]));
                assert(mem[q + j] == Some(needle[j]));
            }
        }
    }
    assert(match_at(ps, mem, p));
    lemma_only_match(ps, mem, 0, p);
}

/// With exactly one matching start at or after `start`, the match list is
/// that start alone (or empty, once the cursor has passed it).
proof fn lemma_only_match(ps: Seq<Part>, mem: Seq<Option<u8>>, start: int, p: int)
    requires
        ps.len() > 0,
        0 <= start <= mem.len(),
        0 <= p < mem.len(),
        match_at(ps, mem, p),
        forall|q: int| start <= q < mem.len() && q != p ==> !match_at(ps, mem, q),
    ensures
        matches_from(ps, mem, start) == (if start <= p {
            seq![p]
        } else {
            Seq::<int>::empty()
        }),
    decreases mem.len() - start,
{
    if start >= mem.len() {
    } else if start == p {
        lemma_only_match(ps, mem, start + 1, p);
        assert(matches_from(ps, mem, start + 1) =~= Seq::<int>::empty());
        assert(matches_from(ps, mem, start) =~= seq![p]);
    } else {
        assert(!match_at(ps, mem, start));
        lemma_only_match(ps, mem, start + 1, p);
    }
}

/// Two region scanners in the same state find the same matches: by
/// [`ProcessScanner::next`]'s contract the match list is a function of the
/// pattern, the region's contents and the cursor alone, so scanning an
/// unchanged region twice repeats the same address sequence.
pub proof fn lemma_region_scan_deterministic<R: ByteRegion>(
    first: &ProcessScanner<R>,
    second: &ProcessScanner<R>,
)
    requires
        first.parts() == second.parts(),
        first.mem() == second.mem(),
        first.cursor_at() == second.cursor_at(),
    ensures
        matches_from(first.parts(), first.mem(), first.cursor_at() as int) == matches_from(
            second.parts(),
            second.mem(),
            second.cursor_at() as int,
        ),
{
}

/// A candidate start whose pattern byte range covers an unreadable
/// location never matches and is never yielded; the scan resumes at the
/// next start rather than ending.
pub proof fn lemma_unreadable_start_skipped(
    ps: Seq<Part>,
    mem: Seq<Option<u8>>,
    start: int,
    j: int,
    lo: int,
)
    requires
        0 <= j < ps.len(),
        0 <= start + j < mem.len(),
        mem[start + j] is None,
        0 <= lo,
    ensures
        !match_at(ps, mem, start),
        !matches_from(ps, mem, lo).contains(start),
{
    if match_at(ps, mem, start) {
        assert(cell_ok(ps[j], mem[start + j]));
    }
    lemma_matches_from_contains(ps, mem, lo, start);
}

} // verus!
