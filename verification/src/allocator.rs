//! First-fit heap allocator over firmware-donated physical memory regions.
//!
//! The allocator keeps a bookkeeping list of `Header` records, one per block,
//! in list order: the in-place linked list of the hardware design becomes an
//! explicit table of `(addr, size, is_allocated)` descriptors, which rules out
//! aliasing between metadata and payload by construction. Every block's `size`
//! accounts for the `HEADER_SIZE` bytes that the in-place header itself would
//! occupy at the front of the block.

use vstd::prelude::*;

use crate::Error;
use crate::uefi::{EfiMemoryDescriptor, EfiMemoryType};

verus! {

/// Bytes reserved at the front of every block for its in-place header
/// (pointer to the next header, size, allocation flag, one reserved word).
pub const HEADER_SIZE: usize = 32;

/// Holds exactly when `n` is a power of two.
pub open spec fn is_pow2(n: int) -> bool
    decreases n,
{
    if n <= 0 {
        false
    } else if n == 1 {
        true
    } else {
        n % 2 == 0 && is_pow2(n / 2)
    }
}

/// The smallest power of two that is at least `v` (and 1 for `v <= 1`).
pub open spec fn pow2_ceil(v: int) -> int
    decreases v,
{
    if v <= 1 {
        1
    } else {
        2 * pow2_ceil((v + 1) / 2)
    }
}

/// `pow2_ceil(v)` is the smallest power of two at or above `v`.
pub proof fn lemma_pow2_ceil_bounds(v: int)
    requires
        v >= 1,
    ensures
        is_pow2(pow2_ceil(v)),
        pow2_ceil(v) >= v,
        pow2_ceil(v) < 2 * v,
    decreases v,
{
    if v > 1 {
        let w = (v + 1) / 2;
        lemma_pow2_ceil_bounds(w);
        let p = pow2_ceil(w);
        assert(is_pow2(2 * p));
        assert(2 * w >= v);
        if v % 2 == 0 {
            assert(2 * w == v);
        } else {
            assert(2 * w == v + 1);
            if w >= 2 {
                assert(p % 2 == 0);
                assert(p != v);
            } else {
                assert(v <= 1);
            }
        }
        assert(p < v);
    }
}

/// Distinct powers of two are at least a factor of two apart.
pub proof fn lemma_pow2_gap(a: int, b: int)
    requires
        is_pow2(a),
        is_pow2(b),
        a < b,
    ensures
        2 * a <= b,
    decreases b,
{
    if a > 1 {
        lemma_pow2_gap(a / 2, b / 2);
    }
}

/// A power of two in `[v, 2v)` is exactly `pow2_ceil(v)`.
pub proof fn lemma_pow2_ceil_unique(v: int, r: int)
    requires
        v >= 1,
        is_pow2(r),
        r >= v,
        r < 2 * v,
    ensures
        r == pow2_ceil(v),
{
    lemma_pow2_ceil_bounds(v);
    let c = pow2_ceil(v);
    if r < c {
        lemma_pow2_gap(r, c);
    }
    if c < r {
        lemma_pow2_gap(c, r);
    }
}

/// One page (4096 bytes) is a power of two.
pub proof fn lemma_page_size_pow2()
    ensures
        is_pow2(4096),
{
    reveal_with_fuel(is_pow2, 14);
}

/// Returns the smallest power of two at or above `v`. Fails when `v` is zero
/// or when no such power fits in the address width.
pub fn round_up_to_nearest_pow2(v: usize) -> (r: Result<usize, Error>)
    ensures
        match r {
            Ok(p) => 1 <= v && p == pow2_ceil(v as int),
            Err(e) => e == Error::OutOfRange,
        },
        r.is_err() <==> (v == 0 || pow2_ceil(v as int) > usize::MAX as int),
{
    if v == 0 {
        return Err(Error::OutOfRange);
    }
    proof {
        lemma_pow2_ceil_bounds(v as int);
    }
    let mut p: usize = 1;
    while p < v
        invariant
            1 <= v,
            1 <= p,
            is_pow2(p as int),
            (p as int) < 2 * (v as int),
            is_pow2(pow2_ceil(v as int)),
            pow2_ceil(v as int) >= v,
        decreases 2 * (v as int) - p,
    {
        if p > usize::MAX - p {
            proof {
                lemma_pow2_gap(p as int, pow2_ceil(v as int));
            }
            return Err(Error::OutOfRange);
        }
        p = p + p;
        assert(is_pow2(p as int));
    }
    proof {
        lemma_pow2_ceil_unique(v as int, p as int);
    }
    Ok(p)
}

/// Bookkeeping record for one block of donated memory: where it starts, how
/// many bytes it spans (header footprint included), and whether it is
/// currently handed out.
#[derive(Clone, Copy, PartialEq, Eq, Structural, Debug)]
pub struct Header {
    pub addr: usize,
    pub size: usize,
    pub is_allocated: bool,
}

impl Header {
    /// One byte past the block this header describes.
    pub open spec fn end(self) -> int {
        self.addr + self.size
    }

    /// Whether the block is currently handed out.
    pub fn is_allocated(&self) -> (r: bool)
        ensures
            r == self.is_allocated,
    {
        self.is_allocated
    }

    /// One byte past the block this header describes.
    pub fn end_addr(&self) -> (r: usize)
        requires
            self.addr + self.size <= usize::MAX,
        ensures
            r == self.end(),
    {
        self.addr + self.size
    }

    /// Whether the block is big enough to carve `size` payload bytes plus two
    /// header footprints plus `align` slack out of it.
    pub fn can_provide(&self, size: usize, align: usize) -> (r: bool)
        ensures
            r == (self.size >= size + 2 * (HEADER_SIZE as int) + align),
    {
        if self.size < size {
            false
        } else if self.size - size < align {
            false
        } else {
            self.size - size - align >= 2 * HEADER_SIZE
        }
    }
}

/// The two blocks do not overlap.
pub open spec fn hdrs_disjoint(a: Header, b: Header) -> bool {
    a.addr + a.size <= b.addr || b.addr + b.size <= a.addr
}

/// `inner` lies entirely within `outer`.
pub open spec fn hdr_within(inner: Header, outer: Header) -> bool {
    outer.addr <= inner.addr && inner.addr + inner.size <= outer.addr + outer.size
}

/// Well-formedness of a header list: every block fits in the address width,
/// every handed-out block is big enough to hold its own header and a minimal
/// payload, and no two blocks overlap.
pub open spec fn headers_ok(s: Seq<Header>) -> bool {
    &&& (forall|i: int| 0 <= i < s.len() ==> (#[trigger] s[i]).addr + s[i].size <= usize::MAX)
    &&& (forall|i: int|
        0 <= i < s.len() && (#[trigger] s[i]).is_allocated ==> s[i].size >= 2 * HEADER_SIZE)
    &&& (forall|i: int, j: int|
        0 <= i < s.len() && 0 <= j < s.len() && i != j ==> hdrs_disjoint(
            #[trigger] s[i],
            #[trigger] s[j],
        ))
}

/// Total bytes covered by the headers of the list.
pub open spec fn sum_sizes(s: Seq<Header>) -> int
    decreases s.len(),
{
    if s.len() == 0 {
        0
    } else {
        s[0].size + sum_sizes(s.drop_first())
    }
}

/// Sums distribute over concatenation.
pub proof fn lemma_sum_concat(a: Seq<Header>, b: Seq<Header>)
    ensures
        sum_sizes(a + b) == sum_sizes(a) + sum_sizes(b),
    decreases a.len(),
{
    if a.len() == 0 {
        assert(a + b =~= b);
    } else {
        assert((a + b).drop_first() =~= a.drop_first() + b);
        assert((a + b)[0] == a[0]);
        lemma_sum_concat(a.drop_first(), b);
    }
}

/// The sum over a one-element list is that element's size.
pub proof fn lemma_sum_singleton(h: Header)
    ensures
        sum_sizes(seq![h]) == h.size,
{
    assert(seq![h].drop_first() =~= Seq::<Header>::empty());
    assert(sum_sizes(Seq::<Header>::empty()) == 0);
    assert(sum_sizes(seq![h]) == seq![h][0].size + sum_sizes(seq![h].drop_first()));
}

/// Splitting a list at one position leaves the sum unchanged.
pub proof fn lemma_split_sum(s: Seq<Header>, i: int)
    requires
        0 <= i < s.len(),
    ensures
        sum_sizes(s) == sum_sizes(s.take(i)) + s[i].size + sum_sizes(s.skip(i + 1)),
{
    assert(s =~= s.take(i) + seq![s[i]] + s.skip(i + 1));
    lemma_sum_concat(s.take(i) + seq![s[i]], s.skip(i + 1));
    lemma_sum_concat(s.take(i), seq![s[i]]);
    lemma_sum_singleton(s[i]);
}

/// Blocks within disjoint blocks are disjoint.
pub proof fn lemma_within_disjoint(ia: Header, oa: Header, ib: Header, ob: Header)
    requires
        hdr_within(ia, oa),
        hdr_within(ib, ob),
        hdrs_disjoint(oa, ob),
    ensures
        hdrs_disjoint(ia, ib),
{
}

/// The payload size actually carved for a request: the requested size rounded
/// up to a power of two and to at least one header footprint.
pub open spec fn eff_size(size: usize) -> int {
    if pow2_ceil(size as int) >= HEADER_SIZE {
        pow2_ceil(size as int)
    } else {
        HEADER_SIZE as int
    }
}

/// The alignment actually used: at least one header footprint.
pub open spec fn eff_align(align: usize) -> int {
    if align >= HEADER_SIZE {
        align as int
    } else {
        HEADER_SIZE as int
    }
}

/// The request can be represented at all: non-zero, and its power-of-two
/// rounding fits in the address width.
pub open spec fn request_ok(size: usize) -> bool {
    1 <= size && pow2_ceil(size as int) <= usize::MAX
}

/// The free block behind `h` can provide the request.
pub open spec fn fits(h: Header, size: usize, align: usize) -> bool {
    &&& request_ok(size)
    &&& !h.is_allocated
    &&& h.size >= eff_size(size) + 2 * (HEADER_SIZE as int) + eff_align(align)
}

/// Where the payload lands when the request is carved out of `h`: the
/// aligned-down address of `size` bytes taken from the end of the block.
pub open spec fn payload_addr(h: Header, size: usize, align: usize) -> int {
    ((h.addr + h.size - eff_size(size)) / eff_align(align)) * eff_align(align)
}

/// The headers that replace `h` after carving: the shrunk free block, the
/// allocated block, and, when alignment slack remains at the end, a free
/// padding block.
pub open spec fn carved(h: Header, size: usize, align: usize) -> Seq<Header> {
    let p = payload_addr(h, size, align);
    let se = eff_size(size);
    let shrunk = Header {
        addr: h.addr,
        size: (p - HEADER_SIZE - h.addr) as usize,
        is_allocated: false,
    };
    let ahdr = Header {
        addr: (p - HEADER_SIZE) as usize,
        size: (se + HEADER_SIZE) as usize,
        is_allocated: true,
    };
    if p + se == h.end() {
        seq![shrunk, ahdr]
    } else {
        let phdr = Header {
            addr: (p + se) as usize,
            size: (h.end() - (p + se)) as usize,
            is_allocated: false,
        };
        seq![shrunk, ahdr, phdr]
    }
}

/// Where the payload lands: behind the block's front header with room for
/// its own header, aligned, and flush against the end of the block up to
/// alignment slack.
pub proof fn lemma_payload_addr_bounds(h: Header, size: usize, align: usize)
    requires
        fits(h, size, align),
        h.end() <= usize::MAX,
    ensures
        payload_addr(h, size, align) == (h.end() - eff_size(size)) / eff_align(align) * eff_align(
            align,
        ),
        h.addr + 2 * HEADER_SIZE < payload_addr(h, size, align),
        payload_addr(h, size, align) + eff_size(size) <= h.end(),
        payload_addr(h, size, align) % eff_align(align) == 0,
        size <= eff_size(size),
        HEADER_SIZE <= eff_size(size),
        HEADER_SIZE <= eff_align(align),
{
    let se = eff_size(size);
    let ae = eff_align(align);
    let t = h.end() - se;
    let p = payload_addr(h, size, align);
    lemma_pow2_ceil_bounds(size as int);
    vstd::arithmetic::div_mod::lemma_fundamental_div_mod(t, ae);
    vstd::arithmetic::div_mod::lemma_mod_bound(t, ae);
    assert(t / ae * ae == ae * (t / ae)) by (nonlinear_arith);
    assert(p == t - t % ae);
    assert(p % ae == 0) by {
        vstd::arithmetic::div_mod::lemma_mod_multiples_basic(t / ae, ae);
        assert(t / ae * ae == ae * (t / ae)) by (nonlinear_arith);
    }
}

/// Carving a fitting request out of the block at `i` keeps the header list
/// well-formed and keeps the total of all sizes.
pub proof fn lemma_carve_ok(os: Seq<Header>, i: int, size: usize, align: usize)
    requires
        headers_ok(os),
        0 <= i < os.len(),
        fits(os[i], size, align),
    ensures
        headers_ok(os.take(i) + carved(os[i], size, align) + os.skip(i + 1)),
        sum_sizes(os.take(i) + carved(os[i], size, align) + os.skip(i + 1)) == sum_sizes(os),
{
    let h = os[i];
    let c = carved(h, size, align);
    let ns = os.take(i) + c + os.skip(i + 1);
    lemma_payload_addr_bounds(h, size, align);
    // Sum is preserved: the carved blocks partition the old block.
    lemma_split_sum(os, i);
    lemma_sum_concat(os.take(i) + c, os.skip(i + 1));
    lemma_sum_concat(os.take(i), c);
    if c.len() == 2 {
        assert(c =~= seq![c[0]] + seq![c[1]]);
        lemma_sum_concat(seq![c[0]], seq![c[1]]);
        lemma_sum_singleton(c[0]);
        lemma_sum_singleton(c[1]);
    } else {
        assert(c =~= seq![c[0]] + seq![c[1]] + seq![c[2]]);
        lemma_sum_concat(seq![c[0]] + seq![c[1]], seq![c[2]]);
        lemma_sum_concat(seq![c[0]], seq![c[1]]);
        lemma_sum_singleton(c[0]);
        lemma_sum_singleton(c[1]);
        lemma_sum_singleton(c[2]);
    }
    assert(sum_sizes(c) == h.size);
    // Well-formedness: every carved block lies within the old block, so the
    // old disjointness carries over.
    assert forall|a: int| 0 <= a < c.len() implies hdr_within(#[trigger] c[a], h) by {}
    assert forall|a: int, b: int|
        0 <= a < ns.len() && 0 <= b < ns.len() && a != b implies hdrs_disjoint(
        #[trigger] ns[a],
        #[trigger] ns[b],
    ) by {
        let oa = if a < i {
            a
        } else if a < i + c.len() {
            i
        } else {
            a - c.len() + 1
        };
        let ob = if b < i {
            b
        } else if b < i + c.len() {
            i
        } else {
            b - c.len() + 1
        };
        assert(hdr_within(ns[a], os[oa]));
        assert(hdr_within(ns[b], os[ob]));
        if oa != ob {
            lemma_within_disjoint(ns[a], os[oa], ns[b], os[ob]);
        }
    }
}

/// What a successful allocation of `size` with `align` does to the header
/// list: the first fitting free block is carved, everything else is kept,
/// and the payload lands at `p`, the aligned-down address of the rounded
/// request taken from that block's end.
pub open spec fn alloc_success(
    s0: Seq<Header>,
    s1: Seq<Header>,
    size: usize,
    align: usize,
    p: int,
) -> bool {
    exists|i: int|
        {
            &&& 0 <= i < s0.len()
            &&& fits(#[trigger] s0[i], size, align)
            &&& (forall|j: int| 0 <= j < i ==> !fits(#[trigger] s0[j], size, align))
            &&& p == payload_addr(s0[i], size, align)
            &&& p % eff_align(align) == 0
            &&& s0[i].addr + HEADER_SIZE <= p
            &&& p + eff_size(size) <= s0[i].end() <= usize::MAX
            &&& size <= eff_size(size)
            &&& s1 == s0.take(i) + carved(s0[i], size, align) + s0.skip(i + 1)
        }
}

/// First-fit allocator over donated memory regions. The header list is kept
/// in list order: carved blocks sit right after the free block they came
/// from, and newly registered regions are prepended.
pub struct FirstFitAllocator {
    headers: Vec<Header>,
}

impl View for FirstFitAllocator {
    type V = Seq<Header>;

    closed spec fn view(&self) -> Seq<Header> {
        self.headers@
    }
}

impl FirstFitAllocator {
    /// The allocator's invariant: see [`headers_ok`].
    pub open spec fn wf(self) -> bool {
        headers_ok(self@)
    }

    /// Total bytes covered by all headers; donated bytes are never lost.
    pub open spec fn total_bytes(self) -> int {
        sum_sizes(self@)
    }

    /// An allocator that owns no memory yet.
    pub fn new() -> (r: FirstFitAllocator)
        ensures
            r.wf(),
            r@ == Seq::<Header>::empty(),
            r.total_bytes() == 0,
    {
        FirstFitAllocator { headers: Vec::new() }
    }

    /// How many headers the list holds.
    pub fn num_headers(&self) -> (r: usize)
        ensures
            r == self@.len(),
    {
        self.headers.len()
    }

    /// The header record at `index` in list order.
    pub fn header_at(&self, index: usize) -> (r: Header)
        requires
            index < self@.len(),
        ensures
            r == self@[index as int],
    {
        self.headers[index]
    }

    /// Tries to carve the request out of the block at `index`.
    ///
    /// On success the payload is taken from the end of the block: the free
    /// block shrinks in place, an allocated header follows it, and any
    /// alignment slack at the very end becomes a free padding block. The
    /// blocks before and after, and the total of all sizes, are untouched.
    #[verifier::rlimit(80)]
    pub fn provide(&mut self, index: usize, size: usize, align: usize) -> (r: Option<usize>)
        requires
            old(self).wf(),
            index < old(self)@.len(),
            is_pow2(align as int),
        ensures
            final(self).wf(),
            final(self).total_bytes() == old(self).total_bytes(),
            r is Some <==> fits(old(self)@[index as int], size, align),
            match r {
                Some(p) => {
                    let h = old(self)@[index as int];
                    &&& p == payload_addr(h, size, align)
                    &&& (p as int) % eff_align(align) == 0
                    &&& h.addr + HEADER_SIZE <= p
                    &&& p + eff_size(size) <= h.end() <= usize::MAX
                    &&& size <= eff_size(size)
                    &&& final(self)@ == old(self)@.take(index as int) + carved(h, size, align)
                        + old(self)@.skip(index as int + 1)
                },
                None => final(self)@ == old(self)@,
            },
    {
        let ghost os = self@;
        let ghost h_old = self@[index as int];
        let size_r = match round_up_to_nearest_pow2(size) {
            Ok(s) => s,
            Err(_) => {
                return None;
            },
        };
        let size_e = if size_r < HEADER_SIZE {
            HEADER_SIZE
        } else {
            size_r
        };
        let align_e = if align < HEADER_SIZE {
            HEADER_SIZE
        } else {
            align
        };
        proof {
            lemma_pow2_ceil_bounds(size as int);
            assert(size_e == eff_size(size));
            assert(align_e == eff_align(align));
        }
        let h = self.headers[index];
        if h.is_allocated() {
            return None;
        }
        if !h.can_provide(size_e, align_e) {
            return None;
        }
        // Carve from the end of the block.
        let end = h.end_addr();
        let t = end - size_e;
        proof {
            lemma_payload_addr_bounds(h_old, size, align);
            assert((t as int) / (align_e as int) * (align_e as int) == payload_addr(
                h_old,
                size,
                align,
            ));
        }
        let p = t / align_e * align_e;
        let shrunk = Header { addr: h.addr, size: p - HEADER_SIZE - h.addr, is_allocated: false };
        let ahdr = Header { addr: p - HEADER_SIZE, size: size_e + HEADER_SIZE, is_allocated: true };
        self.headers.remove(index);
        if p + size_e != end {
            let phdr = Header { addr: p + size_e, size: end - (p + size_e), is_allocated: false };
            self.headers.insert(index, phdr);
        }
        self.headers.insert(index, ahdr);
        self.headers.insert(index, shrunk);
        proof {
            let i = index as int;
            assert(self@ =~= os.take(i) + carved(h_old, size, align) + os.skip(i + 1));
            lemma_carve_ok(os, i, size, align);
        }
        Some(p)
    }

    /// Walks the list from its head and returns the first block that can
    /// provide the request, or fails once the whole list is exhausted.
    ///
    /// Succeeds exactly when some free block is large enough for the rounded
    /// request; on failure the list is untouched.
    #[verifier::loop_isolation(false)]
    pub fn alloc_with_options(&mut self, size: usize, align: usize) -> (r: Option<usize>)
        requires
            old(self).wf(),
            is_pow2(align as int),
        ensures
            final(self).wf(),
            final(self).total_bytes() == old(self).total_bytes(),
            r is Some <==> exists|i: int|
                0 <= i < old(self)@.len() && fits(#[trigger] old(self)@[i], size, align),
            match r {
                Some(p) => alloc_success(old(self)@, final(self)@, size, align, p as int),
                None => final(self)@ == old(self)@,
            },
    {
        let ghost os = self@;
        let mut index: usize = 0;
        while index < self.headers.len()
            invariant
                self.wf(),
                self@ == os,
                is_pow2(align as int),
                index <= os.len(),
                forall|j: int| 0 <= j < index ==> !fits(#[trigger] os[j], size, align),
            decreases os.len() - index,
        {
            match self.provide(index, size, align) {
                Some(p) => {
                    return Some(p);
                },
                None => {
                    index = index + 1;
                },
            }
        }
        None
    }

    /// Marks the allocated block whose payload starts at `addr` free again.
    /// Nothing is merged: the block keeps its header and its size.
    #[verifier::loop_isolation(false)]
    pub fn dealloc(&mut self, addr: usize)
        requires
            old(self).wf(),
            exists|i: int|
                0 <= i < old(self)@.len() && (#[trigger] old(self)@[i]).is_allocated && old(
                    self,
                )@[i].addr + HEADER_SIZE == addr,
        ensures
            final(self).wf(),
            final(self).total_bytes() == old(self).total_bytes(),
            exists|i: int|
                {
                    &&& 0 <= i < old(self)@.len()
                    &&& (#[trigger] old(self)@[i]).is_allocated
                    &&& old(self)@[i].addr + HEADER_SIZE == addr
                    &&& final(self)@ == old(self)@.update(
                        i,
                        (Header { is_allocated: false, ..old(self)@[i] }),
                    )
                },
    {
        let ghost os = self@;
        let n = self.headers.len();
        let mut index: usize = 0;
        while index < n
            invariant
                self.wf(),
                self@ == os,
                n == os.len(),
                index <= n,
                forall|j: int|
                    0 <= j < index ==> !((#[trigger] os[j]).is_allocated && os[j].addr + HEADER_SIZE
                        == addr),
                exists|i: int|
                    index <= i < os.len() && (#[trigger] os[i]).is_allocated && os[i].addr
                        + HEADER_SIZE == addr,
            decreases n - index,
        {
            let h = self.headers[index];
            if h.is_allocated() && h.addr + HEADER_SIZE == addr {
                let freed = Header { addr: h.addr, size: h.size, is_allocated: false };
                self.headers.remove(index);
                self.headers.insert(index, freed);
                proof {
                    let i = index as int;
                    assert(self@ =~= os.update(i, (Header { is_allocated: false, ..os[i] })));
                    lemma_split_sum(os, i);
                    lemma_split_sum(self@, i);
                    assert(self@.take(i) =~= os.take(i));
                    assert(self@.skip(i + 1) =~= os.skip(i + 1));
                }
                return ;
            }
            index = index + 1;
        }
        proof {
            assert(false);
        }
    }
}

/// The first usable address of a donated region: regions starting at
/// physical address 0 give up their first page so no allocation can sit at
/// a null-like address.
pub open spec fn donated_start(d: EfiMemoryDescriptor) -> int {
    if d.physical_start == 0 {
        4096
    } else {
        d.physical_start as int
    }
}

/// The bytes a region donates: its page span, minus the first-page carve-out
/// for regions at address 0, and zero when what remains is too small to host
/// a header and any payload.
pub open spec fn donated_size(d: EfiMemoryDescriptor) -> int {
    let raw = d.number_of_pages * 4096;
    let trimmed = if d.physical_start == 0 {
        if raw >= 4096 {
            raw - 4096
        } else {
            0
        }
    } else {
        raw
    };
    if trimmed <= 4096 {
        0
    } else {
        trimmed
    }
}

/// The free header that a donating region contributes.
pub open spec fn region_header(d: EfiMemoryDescriptor) -> Header {
    Header {
        addr: donated_start(d) as usize,
        size: donated_size(d) as usize,
        is_allocated: false,
    }
}

/// Whether a descriptor contributes a free block: it reports usable
/// general-purpose memory and donates a non-empty span.
pub open spec fn donating(d: EfiMemoryDescriptor) -> bool {
    d.memory_type == EfiMemoryType::CONVENTIONAL_MEMORY && donated_size(d) > 0
}

/// The header list after registering the regions of `s` in order onto
/// `base`: each donating region is prepended, so the result holds them in
/// reverse registration order.
pub open spec fn prepended(s: Seq<EfiMemoryDescriptor>, base: Seq<Header>) -> Seq<Header>
    decreases s.len(),
{
    if s.len() == 0 {
        base
    } else {
        let inner = prepended(s.drop_last(), base);
        if donating(s.last()) {
            seq![region_header(s.last())] + inner
        } else {
            inner
        }
    }
}

/// Total bytes donated by the usable regions of `s`, first-page carve-outs
/// already deducted.
pub open spec fn donated_total(s: Seq<EfiMemoryDescriptor>) -> int
    decreases s.len(),
{
    if s.len() == 0 {
        0
    } else {
        donated_total(s.drop_last()) + if s.last().memory_type
            == EfiMemoryType::CONVENTIONAL_MEMORY {
            donated_size(s.last())
        } else {
            0
        }
    }
}

/// Every header of a prepended list is either a donated region's header or
/// one of the base headers.
pub proof fn lemma_prepended_elems(s: Seq<EfiMemoryDescriptor>, base: Seq<Header>, i: int)
    requires
        0 <= i < prepended(s, base).len(),
    ensures
        (exists|k: int|
            0 <= k < s.len() && donating(#[trigger] s[k]) && prepended(s, base)[i]
                == region_header(s[k])) || (exists|j: int|
            0 <= j < base.len() && prepended(s, base)[i] == base[j]),
    decreases s.len(),
{
    if s.len() > 0 {
        let inner = prepended(s.drop_last(), base);
        assert(prepended(s, base) == if donating(s.last()) {
            seq![region_header(s.last())] + inner
        } else {
            inner
        });
        if donating(s.last()) && i == 0 {
            assert(s.last() == s[s.len() - 1]);
            assert(prepended(s, base)[i] == region_header(s[s.len() - 1]));
        } else {
            let ii = if donating(s.last()) {
                i - 1
            } else {
                i
            };
            lemma_prepended_elems(s.drop_last(), base, ii);
            assert(prepended(s, base)[i] == inner[ii]);
            assert forall|k: int|
                0 <= k < s.drop_last().len() && donating(
                    #[trigger] s.drop_last()[k],
                ) implies 0 <= k < s.len() && donating(s[k]) && region_header(s.drop_last()[k])
                == region_header(s[k]) by {
                assert(s.drop_last()[k] == s[k]);
            }
        }
    } else {
        assert(prepended(s, base) == base);
        assert(prepended(s, base)[i] == base[i]);
        assert(exists|j: int| 0 <= j < base.len() && prepended(s, base)[i] == base[j]);
    }
}

impl FirstFitAllocator {
    /// Registers one firmware-reported region as a free block, prepending it
    /// to the list. A region starting at physical address 0 gives up its
    /// first page; a region of at most one page is discarded.
    pub fn add_free_from_descriptor(&mut self, desc: &EfiMemoryDescriptor)
        requires
            old(self).wf(),
            desc.physical_start + desc.number_of_pages * 4096 <= usize::MAX,
            donated_size(*desc) > 0 ==> forall|i: int|
                0 <= i < old(self)@.len() ==> hdrs_disjoint(
                    #[trigger] old(self)@[i],
                    region_header(*desc),
                ),
        ensures
            final(self).wf(),
            final(self)@ == if donated_size(*desc) > 0 {
                seq![region_header(*desc)] + old(self)@
            } else {
                old(self)@
            },
            final(self).total_bytes() == old(self).total_bytes() + donated_size(*desc),
    {
        let ghost os = self@;
        let mut start_addr = desc.physical_start() as usize;
        let mut size = (desc.number_of_pages() as usize) * 4096;
        if start_addr == 0 {
            start_addr = 4096;
            size = if size >= 4096 {
                size - 4096
            } else {
                0
            };
        }
        if size <= 4096 {
            return ;
        }
        let h = Header { addr: start_addr, size, is_allocated: false };
        self.headers.insert(0, h);
        proof {
            assert(h == region_header(*desc));
            assert(self@ =~= seq![h] + os);
            lemma_sum_concat(seq![h], os);
            lemma_sum_singleton(h);
        }
    }

    /// Feeds the allocator every usable (`CONVENTIONAL_MEMORY`) region of a
    /// firmware memory-map snapshot. Afterwards the list holds exactly the
    /// donated regions in reverse registration order, in front of whatever
    /// the allocator already had, and the total of all header sizes has grown
    /// by the donated bytes minus the first-page carve-outs.
    #[verifier::loop_isolation(false)]
    pub fn init_with_mmap(&mut self, memory_map: &crate::uefi::MemoryMapHolder)
        requires
            old(self).wf(),
            forall|k: int|
                0 <= k < memory_map@.len() && (#[trigger] memory_map@[k]).memory_type
                    == EfiMemoryType::CONVENTIONAL_MEMORY ==> memory_map@[k].physical_start
                    + memory_map@[k].number_of_pages * 4096 <= usize::MAX,
            forall|k: int, i: int|
                0 <= k < memory_map@.len() && donating(#[trigger] memory_map@[k]) && 0 <= i < old(
                    self,
                )@.len() ==> hdrs_disjoint(#[trigger] old(self)@[i], region_header(memory_map@[k])),
            forall|k: int, l: int|
                0 <= k < l < memory_map@.len() && donating(#[trigger] memory_map@[k]) && donating(
                    #[trigger] memory_map@[l],
                ) ==> hdrs_disjoint(region_header(memory_map@[k]), region_header(memory_map@[l])),
        ensures
            final(self).wf(),
            final(self)@ == prepended(memory_map@, old(self)@),
            final(self).total_bytes() == old(self).total_bytes() + donated_total(memory_map@),
    {
        let ghost os = self@;
        let ghost mm = memory_map@;
        let n = memory_map.len();
        let mut idx: usize = 0;
        while idx < n
            invariant
                idx <= n,
                self.wf(),
                self@ == prepended(mm.take(idx as int), os),
                self.total_bytes() == sum_sizes(os) + donated_total(mm.take(idx as int)),
            decreases n - idx,
        {
            let d = memory_map.get(idx);
            proof {
                assert(mm.take(idx as int + 1).drop_last() =~= mm.take(idx as int));
                assert(mm.take(idx as int + 1).last() == mm[idx as int]);
            }
            if d.memory_type() == EfiMemoryType::CONVENTIONAL_MEMORY {
                proof {
                    if donated_size(mm[idx as int]) > 0 {
                        assert forall|i: int| 0 <= i < self@.len() implies hdrs_disjoint(
                            #[trigger] self@[i],
                            region_header(mm[idx as int]),
                        ) by {
                            lemma_prepended_elems(mm.take(idx as int), os, i);
                        }
                    }
                }
                self.add_free_from_descriptor(d);
            }
            idx = idx + 1;
        }
        proof {
            assert(mm.take(n as int) =~= mm);
        }
    }
}

/// No two simultaneously live allocations overlap: under the allocator's
/// invariant, which every operation preserves, the blocks of any two
/// distinct allocated headers — and so their payload ranges — are disjoint,
/// whatever sequence of allocations and deallocations produced them.
pub proof fn lemma_live_allocations_disjoint(a: FirstFitAllocator, i: int, j: int)
    requires
        a.wf(),
        0 <= i < a@.len(),
        0 <= j < a@.len(),
        i != j,
        a@[i].is_allocated,
        a@[j].is_allocated,
    ensures
        a@[i].end() <= a@[j].addr + HEADER_SIZE || a@[j].end() <= a@[i].addr + HEADER_SIZE,
{
}

} // verus!
