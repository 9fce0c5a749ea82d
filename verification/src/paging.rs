//! Four-level page-table construction engine.
//!
//! A table at level `l` (4 down to 1) holds 512 entries; an entry at levels
//! 2 to 4 owns the child table its encoded physical address points to, and a
//! level-1 entry maps a 4096-byte page frame. Table nodes are carved out of
//! the heap allocator, so their physical addresses are real allocator
//! payloads; the owned tree mirrors exactly what the encoded entries say.

use vstd::prelude::*;

use crate::Error;
use crate::allocator::FirstFitAllocator;

verus! {

/// Bytes in one page frame, and in one table node.
pub const PAGE_SIZE: usize = 4096;

/// The bits of an entry that hold the page-aligned physical address.
pub const ADDR_MASK: u64 = 0xFFFF_FFFF_FFFF_F000;

/// The access policy written into every leaf entry of a mapping.
#[derive(Clone, Copy, PartialEq, Eq, Structural, Debug)]
pub enum PageAttr {
    /// The entry decodes as absent.
    NotPresent,
    /// Present and writable, kernel only.
    ReadWriteKernel,
    /// Present, writable, write-through, cache-disabled: device memory.
    ReadWriteIo,
}

/// The attribute bits an entry carries for each policy: present (bit 0),
/// writable (bit 1), write-through (bit 3), cache-disable (bit 4).
pub open spec fn attr_bits(attr: PageAttr) -> u64 {
    match attr {
        PageAttr::NotPresent => 0,
        PageAttr::ReadWriteKernel => 3,
        PageAttr::ReadWriteIo => 0x1B,
    }
}

impl PageAttr {
    /// The attribute bits this policy encodes to.
    pub fn bits(self) -> (r: u64)
        ensures
            r == attr_bits(self),
    {
        match self {
            PageAttr::NotPresent => 0,
            PageAttr::ReadWriteKernel => 3,
            PageAttr::ReadWriteIo => 0x1B,
        }
    }
}

/// Bit 0 of an entry is the present flag; an all-zero entry is absent.
pub open spec fn entry_present(v: u64) -> bool {
    v & 1 == 1
}

/// The physical address encoded in an entry.
pub open spec fn entry_addr(v: u64) -> u64 {
    v & ADDR_MASK
}

/// How a page-aligned address and attribute bits combine into an entry
/// value, and how they decode again.
pub proof fn lemma_encode_fields(pa: u64, a: u64)
    requires
        pa % 4096 == 0,
        a <= 0xFFF,
    ensures
        entry_addr(pa | a) == pa,
        entry_present(pa | a) == (a & 1 == 1),
        (pa | a) & 2 == a & 2,
{
    assert((pa % 4096 == 0 && a <= 0xFFF) ==> ((pa | a) & 0xFFFF_FFFF_FFFF_F000u64 == pa && (pa
        | a) & 1 == a & 1 && (pa | a) & 2 == a & 2)) by (bit_vector);
}

/// The all-zero entry decodes as absent, with address zero.
pub proof fn lemma_zero_entry()
    ensures
        !entry_present(0),
        entry_addr(0) == 0,
{
    assert(0u64 & 1 == 0 && 0u64 & 0xFFFF_FFFF_FFFF_F000u64 == 0) by (bit_vector);
}

/// Division facts used when splitting a page number into a slot index and
/// an offset within the slot's span.
proof fn lemma_div_mod_facts(p: int, es: int)
    requires
        es > 0,
        0 <= p,
    ensures
        0 <= p / es,
        p == es * (p / es) + p % es,
        0 <= p % es < es,
        p < 512 * es ==> p / es < 512,
{
    vstd::arithmetic::div_mod::lemma_fundamental_div_mod(p, es);
    vstd::arithmetic::div_mod::lemma_mod_bound(p, es);
    assert(0 <= p / es) by (nonlinear_arith)
        requires
            es > 0 && p >= 0 && p == es * (p / es) + p % es && 0 <= p % es < es,
    ;
    if p < 512 * es {
        assert(p / es < 512) by (nonlinear_arith)
            requires
                es > 0 && p == es * (p / es) + p % es && 0 <= p % es < es && p < 512 * es && p / es
                    >= 0,
        ;
    }
}

/// Pages covered by one entry of a table at `level`: one page at the leaf
/// level, and 512 times the next level's span above it.
pub open spec fn entry_span(level: int) -> int {
    if level <= 1 {
        1
    } else if level == 2 {
        512
    } else if level == 3 {
        0x40000
    } else {
        0x8000000
    }
}

/// The 9-bit slot index a virtual address selects in a table at `level`.
pub open spec fn page_index(level: int, addr: u64) -> int {
    ((addr as int) / (entry_span(level) * 4096)) % 512
}

/// One slot of a table: the encoded hardware value, and ownership of the
/// child table the value points to (absent at the leaf level).
pub struct Entry {
    pub value: u64,
    pub child: Option<Box<Table>>,
}

/// A table of 512 entries at one level of the radix tree. `phys` is the
/// page-aligned physical address of the allocator block that backs the node.
pub struct Table {
    pub level: usize,
    pub phys: u64,
    pub entries: Vec<Entry>,
}

impl Table {
    /// Well-formedness at `level`: 512 entries; leaf entries own no child;
    /// above the leaf level an entry is present exactly when it owns a child,
    /// the child is well-formed one level down, and the entry's encoded
    /// address is the child's physical address.
    pub open spec fn wf(self, level: int) -> bool
        decreases level,
    {
        &&& self.level == level
        &&& 1 <= level <= 4
        &&& self.phys % 4096 == 0
        &&& self.entries@.len() == 512
        &&& (forall|i: int|
            0 <= i < 512 ==> {
                let e = #[trigger] self.entries@[i];
                if level == 1 {
                    e.child is None
                } else {
                    &&& (entry_present(e.value) <==> e.child is Some)
                    &&& (e.child is Some ==> (*e.child.unwrap()).wf(level - 1) && entry_addr(
                        e.value,
                    ) == (*e.child.unwrap()).phys)
                }
            })
    }

    /// The raw leaf value reached from this table for the `p`-th page of its
    /// span, or `None` where the chain of child tables breaks off.
    pub open spec fn leaf_raw(self, level: int, p: int) -> Option<u64>
        decreases level,
    {
        if level <= 1 {
            if 0 <= p < 512 {
                Some(self.entries@[p].value)
            } else {
                None
            }
        } else {
            let es = entry_span(level);
            if 0 <= p < 512 * es {
                match self.entries@[p / es].child {
                    Some(c) => (*c).leaf_raw(level - 1, p % es),
                    None => None,
                }
            } else {
                None
            }
        }
    }

    /// The mapping this subtree establishes for its `p`-th page: the leaf
    /// value when it exists and decodes as present.
    pub open spec fn translate(self, level: int, p: int) -> Option<u64> {
        match self.leaf_raw(level, p) {
            Some(v) => if entry_present(v) {
                Some(v)
            } else {
                None
            },
            None => None,
        }
    }

    /// Builds a fresh all-zero table node for `level`, backed by the
    /// allocator block at `phys`. Every entry decodes as absent.
    pub fn new_table(level: usize, phys: u64) -> (r: Table)
        requires
            1 <= level <= 4,
            phys % 4096 == 0,
        ensures
            r.wf(level as int),
            r.level == level,
            r.phys == phys,
            forall|i: int| 0 <= i < 512 ==> (#[trigger] r.entries@[i]).value == 0,
            forall|p: int| r.translate(level as int, p) is None,
            forall|p: int|
                r.leaf_raw(level as int, p) is None || r.leaf_raw(level as int, p) == Some(0u64),
    {
        let mut entries: Vec<Entry> = Vec::new();
        let mut i: usize = 0;
        while i < 512
            invariant
                i <= 512,
                entries@.len() == i,
                forall|k: int|
                    0 <= k < i ==> (#[trigger] entries@[k]).value == 0 && entries@[k].child
                        is None,
            decreases 512 - i,
        {
            entries.push(Entry { value: 0, child: None });
            i = i + 1;
        }
        let r = Table { level, phys, entries };
        proof {
            lemma_zero_entry();
            assert forall|p: int|
                r.leaf_raw(level as int, p) is None || r.leaf_raw(level as int, p) == Some(
                    0u64,
                ) by {
                if level == 1 {
                    assert(r.leaf_raw(1, p) is Some ==> 0 <= p < 512 && r.leaf_raw(1, p) == Some(
                        r.entries@[p].value,
                    ));
                } else {
                    let es = entry_span(level as int);
                    if 0 <= p < 512 * es {
                        lemma_div_mod_facts(p, es);
                        assert(r.entries@[p / es].child is None);
                    }
                }
            }
            assert forall|p: int| r.translate(level as int, p) is None by {
                if level == 1 {
                    assert(r.leaf_raw(1, p) is Some ==> 0 <= p < 512 && r.leaf_raw(1, p)
                        == Some(r.entries@[p].value));
                } else {
                    let es = entry_span(level as int);
                    if 0 <= p < 512 * es {
                        lemma_div_mod_facts(p, es);
                        assert(r.entries@[p / es].child is None);
                    }
                }
            }
        }
        r
    }

    /// The 9-bit slot index `addr` selects at this table's level.
    pub fn calc_index(&self, addr: u64) -> (r: usize)
        requires
            1 <= self.level <= 4,
        ensures
            r == page_index(self.level as int, addr),
            r < 512,
    {
        let divisor: u64 = match self.level {
            1 => 4096,
            2 => 0x20_0000,
            3 => 0x4000_0000,
            _ => 0x80_0000_0000,
        };
        ((addr / divisor) % 512) as usize
    }

    /// A borrow of the entry at `index`.
    pub fn entry(&self, index: usize) -> (r: &Entry)
        requires
            index < self.entries@.len(),
        ensures
            *r == self.entries@[index as int],
    {
        &self.entries[index]
    }

    /// The child table behind the entry at `index`, when one is there.
    pub fn next_level(&self, index: usize) -> (r: Option<&Table>)
        ensures
            match r {
                Some(c) => index < self.entries@.len() && self.entries@[index as int].child
                    == Some(Box::new(*c)),
                None => index >= self.entries@.len() || self.entries@[index as int].child
                    is None,
            },
    {
        if index >= self.entries.len() {
            None
        } else {
            match &self.entries[index].child {
                Some(c) => Some(&**c),
                None => None,
            }
        }
    }
}

impl Entry {
    /// The raw encoded value of the entry.
    pub fn read_value(&self) -> (r: u64)
        ensures
            r == self.value,
    {
        self.value
    }

    /// Whether the present flag (bit 0) is set.
    pub fn is_present(&self) -> (r: bool)
        ensures
            r == entry_present(self.value),
    {
        self.value & 1 == 1
    }

    /// Whether the writable flag (bit 1) is set.
    pub fn is_writable(&self) -> (r: bool)
        ensures
            r == (self.value & 2 == 2),
    {
        self.value & 2 == 2
    }

    /// Whether the user flag (bit 2) is set.
    pub fn is_user(&self) -> (r: bool)
        ensures
            r == (self.value & 4 == 4),
    {
        self.value & 4 == 4
    }

    /// Writes a leaf mapping into the entry: the page-aligned physical
    /// address of the frame plus the attribute bits. Fails, leaving the
    /// entry untouched, exactly when `phys` is not page-aligned.
    pub fn set_page(&mut self, phys: u64, attr: PageAttr) -> (r: Result<(), Error>)
        ensures
            match r {
                Ok(()) => phys % 4096 == 0 && final(self).value == (phys | attr_bits(attr))
                    && final(self).child == old(self).child,
                Err(e) => e == Error::NotAligned && *final(self) == *old(self),
            },
            r is Ok <==> phys % 4096 == 0,
    {
        if phys % 4096 != 0 {
            Err(Error::NotAligned)
        } else {
            self.value = phys | attr.bits();
            Ok(())
        }
    }
}

/// The value written for the absolute page `p` of a mapping that sends
/// `virt_start` to `phys`: the page frame's address plus the attribute bits.
pub open spec fn page_value(phys: u64, virt_start: u64, p: int, attr: PageAttr) -> u64 {
    (((phys as int) + 4096 * p - (virt_start as int)) as u64) | attr_bits(attr)
}

/// The smaller of two mathematical integers.
pub open spec fn min_of(a: int, b: int) -> int {
    if a <= b {
        a
    } else {
        b
    }
}

/// The subtree's `p`-th leaf either kept its raw value, or it did not exist
/// before and is now an all-zero (absent) entry of a freshly created table.
pub open spec fn leaf_same_or_blank(t0: Table, t1: Table, level: int, p: int) -> bool {
    t1.leaf_raw(level, p) == t0.leaf_raw(level, p) || (t0.leaf_raw(level, p) is None
        && t1.leaf_raw(level, p) == Some(0u64))
}

/// Every absolute page in `[lo, hi)` reaches the leaf value of the mapping,
/// where `base_page` is the absolute page the subtree's span starts at.
pub open spec fn mapped_from_to(
    t: Table,
    level: int,
    base_page: int,
    phys: u64,
    virt_start: u64,
    attr: PageAttr,
    lo: int,
    hi: int,
) -> bool {
    forall|p: int|
        lo <= p < hi ==> #[trigger] t.leaf_raw(level, p - base_page) == Some(
            page_value(phys, virt_start, p, attr),
        )
}

/// Every page of the subtree's span outside `[rel_lo, rel_hi)` kept its
/// leaf, up to blank entries of freshly created tables.
pub open spec fn untouched_outside(t0: Table, t1: Table, level: int, rel_lo: int, rel_hi: int) -> bool {
    forall|q: int|
        0 <= q < 512 * entry_span(level) && !(rel_lo <= q < rel_hi) ==> #[trigger] leaf_same_or_blank(
            t0,
            t1,
            level,
            q,
        )
}

/// How one mapping pass for pages `[lo, hi)` may change an entry above the
/// leaf level whose slot spans pages `[sub, sub + entry_span(level))`: a
/// present entry keeps its exact value and its child changes only by the
/// same rule; an absent entry keeps its value unless its span meets the
/// window, in which case it now owns a freshly built child, linked present
/// and writable.
pub open spec fn delta_entry(e0: Entry, e1: Entry, level: int, sub: int, lo: int, hi: int) -> bool
    decreases level, 0int,
{
    if level < 2 {
        true
    } else if entry_present(e0.value) {
        &&& e1.value == e0.value
        &&& (e0.child is Some && e1.child is Some ==> tree_delta(
            *e0.child.unwrap(),
            *e1.child.unwrap(),
            level - 1,
            sub,
            lo,
            hi,
        ))
    } else {
        e1.value == e0.value || {
            &&& e1.child is Some
            &&& e1.value == ((*e1.child.unwrap()).phys | 3)
            &&& sub < hi && lo < sub + entry_span(level)
            &&& freshly_built(*e1.child.unwrap(), level - 1, sub, lo, hi)
        }
    }
}

/// `delta_entry` over every slot of a table whose span starts at absolute
/// page `base_page`. Trivial at the leaf level, whose entries the leaf
/// clauses of the mapping contracts pin instead.
pub open spec fn tree_delta(
    t0: Table,
    t1: Table,
    level: int,
    base_page: int,
    lo: int,
    hi: int,
) -> bool
    decreases level, 1int,
{
    level >= 2 ==> (forall|i: int|
        0 <= i < 512 ==> delta_entry(
            t0.entries@[i],
            #[trigger] t1.entries@[i],
            level,
            base_page + i * entry_span(level),
            lo,
            hi,
        ))
}

/// An entry of a subtree built from nothing while pages `[lo, hi)` were
/// mapped: still zero, or — only where its slot's span meets the window — a
/// present, writable link to another freshly built table.
pub open spec fn fresh_entry(e: Entry, level: int, sub: int, lo: int, hi: int) -> bool
    decreases level, 0int,
{
    if level < 2 {
        true
    } else if entry_present(e.value) {
        &&& (e.child is Some ==> e.value == ((*e.child.unwrap()).phys | 3) && freshly_built(
            *e.child.unwrap(),
            level - 1,
            sub,
            lo,
            hi,
        ))
        &&& sub < hi && lo < sub + entry_span(level)
    } else {
        e.value == 0
    }
}

/// `fresh_entry` over every slot of a table whose span starts at absolute
/// page `base_page`.
pub open spec fn freshly_built(t: Table, level: int, base_page: int, lo: int, hi: int) -> bool
    decreases level, 1int,
{
    level >= 2 ==> (forall|i: int|
        0 <= i < 512 ==> fresh_entry(
            #[trigger] t.entries@[i],
            level,
            base_page + i * entry_span(level),
            lo,
            hi,
        ))
}

/// A mapping pass that touches nothing satisfies its own delta.
proof fn lemma_delta_refl(t: Table, level: int, base_page: int, lo: int, hi: int)
    ensures
        tree_delta(t, t, level, base_page, lo, hi),
    decreases level,
{
    if level >= 2 {
        assert forall|i: int| 0 <= i < 512 implies delta_entry(
            t.entries@[i],
            #[trigger] t.entries@[i],
            level,
            base_page + i * entry_span(level),
            lo,
            hi,
        ) by {
            let e = t.entries@[i];
            if entry_present(e.value) && e.child is Some {
                lemma_delta_refl(
                    *e.child.unwrap(),
                    level - 1,
                    base_page + i * entry_span(level),
                    lo,
                    hi,
                );
            }
        }
    }
}

/// A freshly built subtree stays freshly built under a wider window.
proof fn lemma_fresh_widen(
    t: Table,
    level: int,
    base_page: int,
    lo: int,
    hi: int,
    lo2: int,
    hi2: int,
)
    requires
        freshly_built(t, level, base_page, lo, hi),
        lo2 <= lo,
        hi <= hi2,
    ensures
        freshly_built(t, level, base_page, lo2, hi2),
    decreases level,
{
    if level >= 2 {
        assert forall|i: int| 0 <= i < 512 implies fresh_entry(
            #[trigger] t.entries@[i],
            level,
            base_page + i * entry_span(level),
            lo2,
            hi2,
        ) by {
            let e = t.entries@[i];
            assert(fresh_entry(e, level, base_page + i * entry_span(level), lo, hi));
            if entry_present(e.value) && e.child is Some {
                lemma_fresh_widen(
                    *e.child.unwrap(),
                    level - 1,
                    base_page + i * entry_span(level),
                    lo,
                    hi,
                    lo2,
                    hi2,
                );
            }
        }
    }
}

/// A delta applied to an all-zero table builds a fresh subtree.
pub proof fn lemma_zero_delta_fresh(
    t0: Table,
    t1: Table,
    level: int,
    base_page: int,
    lo: int,
    hi: int,
)
    requires
        1 <= level <= 4,
        t1.wf(level),
        tree_delta(t0, t1, level, base_page, lo, hi),
        forall|i: int| 0 <= i < 512 ==> (#[trigger] t0.entries@[i]).value == 0,
    ensures
        freshly_built(t1, level, base_page, lo, hi),
{
    lemma_zero_entry();
    if level >= 2 {
        assert forall|i: int| 0 <= i < 512 implies fresh_entry(
            #[trigger] t1.entries@[i],
            level,
            base_page + i * entry_span(level),
            lo,
            hi,
        ) by {
            let sub = base_page + i * entry_span(level);
            let e1 = t1.entries@[i];
            assert(delta_entry(t0.entries@[i], e1, level, sub, lo, hi));
            if e1.value != 0 {
                assert(e1.child is Some);
                assert(entry_present(e1.value));
            }
        }
    }
}

/// A further mapping pass keeps a fresh subtree fresh, under the union of
/// the two adjacent windows.
proof fn lemma_fresh_then_delta(
    t1: Table,
    t2: Table,
    level: int,
    base_page: int,
    lo: int,
    mid: int,
    hi: int,
)
    requires
        1 <= level <= 4,
        t1.wf(level),
        t2.wf(level),
        freshly_built(t1, level, base_page, lo, mid),
        tree_delta(t1, t2, level, base_page, mid, hi),
        lo <= mid <= hi,
    ensures
        freshly_built(t2, level, base_page, lo, hi),
    decreases level,
{
    lemma_zero_entry();
    if level >= 2 {
        assert forall|i: int| 0 <= i < 512 implies fresh_entry(
            #[trigger] t2.entries@[i],
            level,
            base_page + i * entry_span(level),
            lo,
            hi,
        ) by {
            let sub = base_page + i * entry_span(level);
            let e1 = t1.entries@[i];
            let e2 = t2.entries@[i];
            assert(fresh_entry(e1, level, sub, lo, mid));
            assert(delta_entry(e1, e2, level, sub, mid, hi));
            if entry_present(e1.value) {
                assert(e2.value == e1.value);
                assert(e1.child is Some && e2.child is Some);
                assert(entry_addr(e1.value) == (*e1.child.unwrap()).phys);
                assert(entry_addr(e2.value) == (*e2.child.unwrap()).phys);
                lemma_fresh_then_delta(
                    *e1.child.unwrap(),
                    *e2.child.unwrap(),
                    level - 1,
                    sub,
                    lo,
                    mid,
                    hi,
                );
            } else {
                if e2.value != e1.value {
                    assert(e2.child is Some);
                    assert(entry_present(e2.value));
                    lemma_fresh_widen(*e2.child.unwrap(), level - 1, sub, mid, hi, lo, hi);
                }
            }
        }
    }
}

/// Deltas of two successive mapping passes compose, under the union of the
/// two adjacent windows.
proof fn lemma_delta_trans(
    t0: Table,
    t1: Table,
    t2: Table,
    level: int,
    base_page: int,
    lo: int,
    mid: int,
    hi: int,
)
    requires
        1 <= level <= 4,
        t0.wf(level),
        t1.wf(level),
        t2.wf(level),
        tree_delta(t0, t1, level, base_page, lo, mid),
        tree_delta(t1, t2, level, base_page, mid, hi),
        lo <= mid <= hi,
    ensures
        tree_delta(t0, t2, level, base_page, lo, hi),
    decreases level,
{
    if level >= 2 {
        assert forall|i: int| 0 <= i < 512 implies delta_entry(
            t0.entries@[i],
            #[trigger] t2.entries@[i],
            level,
            base_page + i * entry_span(level),
            lo,
            hi,
        ) by {
            let sub = base_page + i * entry_span(level);
            let e0 = t0.entries@[i];
            let e1 = t1.entries@[i];
            let e2 = t2.entries@[i];
            assert(delta_entry(e0, e1, level, sub, lo, mid));
            assert(delta_entry(e1, e2, level, sub, mid, hi));
            if entry_present(e0.value) {
                assert(e1.value == e0.value && e2.value == e1.value);
                if e0.child is Some && e2.child is Some {
                    assert(e1.child is Some);
                    lemma_delta_trans(
                        *e0.child.unwrap(),
                        *e1.child.unwrap(),
                        *e2.child.unwrap(),
                        level - 1,
                        sub,
                        lo,
                        mid,
                        hi,
                    );
                }
            } else {
                if e1.value == e0.value {
                    if e2.value != e1.value {
                        assert(e2.child is Some);
                        assert(entry_present(e2.value));
                        lemma_fresh_widen(*e2.child.unwrap(), level - 1, sub, mid, hi, lo, hi);
                    }
                } else {
                    // The slot gained a fresh child in the first pass.
                    assert(entry_present(e1.value));
                    assert(e2.value == e1.value);
                    assert(e1.child is Some && e2.child is Some);
                    assert(entry_addr(e1.value) == (*e1.child.unwrap()).phys);
                    assert(entry_addr(e2.value) == (*e2.child.unwrap()).phys);
                    lemma_fresh_then_delta(
                        *e1.child.unwrap(),
                        *e2.child.unwrap(),
                        level - 1,
                        sub,
                        lo,
                        mid,
                        hi,
                    );
                }
            }
        }
    }
}

/// Looking up a page under slot `i` of a table above the leaf level steps
/// into slot `i`'s child.
proof fn lemma_parent_child_leaf(t: Table, level: int, i: int, p: int)
    requires
        2 <= level,
        t.entries@.len() == 512,
        0 <= i < 512,
        i * entry_span(level) <= p < (i + 1) * entry_span(level),
    ensures
        t.entries@[i].child is Some ==> t.leaf_raw(level, p) == (*t.entries@[i].child.unwrap()).leaf_raw(
            level - 1,
            p - i * entry_span(level),
        ),
        t.entries@[i].child is None ==> t.leaf_raw(level, p) is None,
{
    let es = entry_span(level);
    assert(0 <= p && (i + 1) * es <= 512 * es) by (nonlinear_arith)
        requires
            0 <= i < 512 && es > 0 && i * es <= p,
    ;
    vstd::arithmetic::div_mod::lemma_fundamental_div_mod_converse(p, es, i, p - i * es);
}

/// A page whose slot's entry is unchanged between two tables resolves to
/// the same leaf in both.
proof fn lemma_other_entries_leaf(t0: Table, t1: Table, level: int, p: int)
    requires
        2 <= level,
        t0.entries@.len() == 512,
        t1.entries@.len() == 512,
        0 <= p < 512 * entry_span(level),
        t1.entries@[p / entry_span(level)] == t0.entries@[p / entry_span(level)],
    ensures
        t1.leaf_raw(level, p) == t0.leaf_raw(level, p),
{
    lemma_div_mod_facts(p, entry_span(level));
}

impl Entry {
    /// If the entry is absent, carves a fresh zeroed child table for
    /// `child_level` out of the allocator and links it in, present and
    /// writable; if a child is already there, leaves everything untouched.
    /// Fails with `AlreadyPopulated` exactly when the entry is present as a
    /// leaf where a child table was structurally expected, and with
    /// `OutOfMemory` when no free block can host a table node.
    pub fn ensure_populated(&mut self, alloc: &mut FirstFitAllocator, child_level: usize) -> (r:
        Result<(), Error>)
        requires
            old(alloc).wf(),
            1 <= child_level <= 3,
        ensures
            final(alloc).wf(),
            final(alloc).total_bytes() == old(alloc).total_bytes(),
            table_carves_only(old(alloc)@, final(alloc)@),
            match r {
                Ok(()) => {
                    &&& final(self).child is Some
                    &&& if entry_present(old(self).value) {
                        *final(self) == *old(self) && final(alloc)@ == old(alloc)@
                    } else {
                        &&& entry_present(final(self).value)
                        &&& final(self).value == ((*final(self).child.unwrap()).phys | 3)
                        &&& final(self).value & 2 == 2
                        &&& entry_addr(final(self).value) == (*final(self).child.unwrap()).phys
                        &&& crate::allocator::alloc_success(
                            old(alloc)@,
                            final(alloc)@,
                            PAGE_SIZE,
                            PAGE_SIZE,
                            (*final(self).child.unwrap()).phys as int,
                        )
                        &&& (*final(self).child.unwrap()).wf(child_level as int)
                        &&& (forall|p: int|
                            (*final(self).child.unwrap()).translate(child_level as int, p)
                                is None)
                        &&& (forall|p: int|
                            (*final(self).child.unwrap()).leaf_raw(child_level as int, p)
                                is None || (*final(self).child.unwrap()).leaf_raw(
                                child_level as int,
                                p,
                            ) == Some(0u64))
                        &&& (forall|i: int|
                            0 <= i < 512
                                ==> (#[trigger] (*final(self).child.unwrap()).entries@[i]).value
                                == 0)
                    }
                },
                Err(e) => {
                    &&& *final(self) == *old(self)
                    &&& final(alloc)@ == old(alloc)@
                    &&& (e == Error::AlreadyPopulated || e == Error::OutOfMemory)
                    &&& (e == Error::AlreadyPopulated <==> entry_present(old(self).value) && old(
                        self,
                    ).child is None)
                    &&& (e == Error::OutOfMemory ==> !entry_present(old(self).value) && (forall|
                        i: int,
                    |
                        0 <= i < final(alloc)@.len() ==> !crate::allocator::fits(
                            #[trigger] final(alloc)@[i],
                            PAGE_SIZE,
                            PAGE_SIZE,
                        )))
                },
            },
            entry_present(old(self).value) && old(self).child is Some ==> r is Ok,
            !entry_present(old(self).value) ==> (r is Ok <==> exists|i: int|
                0 <= i < old(alloc)@.len() && crate::allocator::fits(
                    #[trigger] old(alloc)@[i],
                    PAGE_SIZE,
                    PAGE_SIZE,
                )),
    {
        if self.is_present() {
            proof {
                lemma_carves_refl(old(alloc)@, alloc@);
            }
            if self.child.is_some() {
                Ok(())
            } else {
                Err(Error::AlreadyPopulated)
            }
        } else {
            proof {
                crate::allocator::lemma_page_size_pow2();
            }
            match alloc.alloc_with_options(PAGE_SIZE, PAGE_SIZE) {
                Some(pa) => {
                    proof {
                        lemma_encode_fields(pa as u64, 3);
                        assert(3u64 & 1 == 1 && 3u64 & 2 == 2) by (bit_vector);
                        lemma_alloc_carves(old(alloc)@, alloc@, pa as int);
                    }
                    let child = Table::new_table(child_level, pa as u64);
                    self.value = (pa as u64) | PageAttr::ReadWriteKernel.bits();
                    self.child = Some(Box::new(child));
                    Ok(())
                },
                None => {
                    proof {
                        lemma_carves_refl(old(alloc)@, alloc@);
                    }
                    Err(Error::OutOfMemory)
                },
            }
        }
    }
}

/// `leaf_same_or_blank` composes across two successive mutations.
proof fn lemma_same_or_blank_trans(t0: Table, t1: Table, t2: Table, level: int, p: int)
    requires
        leaf_same_or_blank(t0, t1, level, p),
        leaf_same_or_blank(t1, t2, level, p),
    ensures
        leaf_same_or_blank(t0, t2, level, p),
{
}

/// Geometry of one table's span: which slot the current address selects,
/// and how the slot's sub-span sits inside the block, at byte and at page
/// granularity. `b` is the block's base address.
proof fn lemma_block_geometry(b: int, cur: int, level: int)
    requires
        1 <= level <= 4,
        b % (512 * entry_span(level) * 4096) == 0,
        0 <= b <= cur < b + 512 * entry_span(level) * 4096,
        cur % 4096 == 0,
    ensures
        ({
            let es = entry_span(level);
            let q = (cur / (es * 4096)) % 512;
            let bp = b / 4096;
            let cp = cur / 4096;
            &&& 0 <= q < 512
            &&& b % 4096 == 0
            &&& q == (cur - b) / (es * 4096)
            &&& q == (cp - bp) / es
            &&& bp + q * es <= cp < bp + (q + 1) * es
            &&& (b + q * (es * 4096)) % (es * 4096) == 0
            &&& (b + q * (es * 4096)) / 4096 == bp + q * es
            &&& (b + (q + 1) * (es * 4096)) / 4096 == bp + (q + 1) * es
            &&& b + q * (es * 4096) <= cur < b + (q + 1) * (es * 4096)
            &&& bp + 512 * es == (b + 512 * es * 4096) / 4096
        }),
{
    let es = entry_span(level);
    let span_b = es * 4096;
    let block = 512 * span_b;
    vstd::arithmetic::div_mod::lemma_fundamental_div_mod(b, block);
    let kb = b / block;
    assert(b == block * kb);
    assert(kb >= 0) by (nonlinear_arith)
        requires
            b >= 0 && block > 0 && b == block * kb,
    ;
    let o = cur - b;
    lemma_div_mod_facts(o, span_b);
    let q = o / span_b;
    let r = o % span_b;
    // cur / span_b == 512 * kb + q, hence the slot index is q.
    assert(cur == span_b * (512 * kb + q) + r) by (nonlinear_arith)
        requires
            b == block * kb && block == 512 * span_b && o == cur - b && o == span_b * q + r,
    ;
    vstd::arithmetic::div_mod::lemma_fundamental_div_mod_converse(cur, span_b, 512 * kb + q, r);
    vstd::arithmetic::div_mod::lemma_mod_multiples_vanish(kb, q, 512);
    vstd::arithmetic::div_mod::lemma_small_mod(q as nat, 512);
    assert((cur / span_b) % 512 == q);
    // Byte values are all multiples of 4096; move to page granularity.
    assert(b == 4096 * (512 * es * kb)) by (nonlinear_arith)
        requires
            b == block * kb && block == 512 * (es * 4096),
    ;
    vstd::arithmetic::div_mod::lemma_fundamental_div_mod_converse(b, 4096, 512 * es * kb, 0);
    let bp = b / 4096;
    assert(bp == 512 * es * kb);
    let cp = cur / 4096;
    vstd::arithmetic::div_mod::lemma_fundamental_div_mod(cur, 4096);
    assert(r == cur - b - span_b * q);
    assert(r == 4096 * (cp - bp - es * q)) by (nonlinear_arith)
        requires
            r == cur - b - span_b * q && cur == 4096 * cp && b == 4096 * bp && span_b == es * 4096,
    ;
    let rr = cp - bp - es * q;
    assert(0 <= rr < es) by (nonlinear_arith)
        requires
            r == 4096 * rr && 0 <= r < span_b && span_b == es * 4096,
    ;
    vstd::arithmetic::div_mod::lemma_fundamental_div_mod_converse(cp - bp, es, q, rr);
    assert(q == (cp - bp) / es);
    assert(bp + q * es <= cp < bp + (q + 1) * es) by (nonlinear_arith)
        requires
            cp - bp == es * q + rr && 0 <= rr < es,
    ;
    // The slot's own sub-block.
    let cb = b + q * span_b;
    assert(cb == span_b * (512 * kb + q)) by (nonlinear_arith)
        requires
            cb == b + q * span_b && b == block * kb && block == 512 * span_b,
    ;
    assert(cb == (512 * kb + q) * span_b) by (nonlinear_arith)
        requires
            cb == span_b * (512 * kb + q),
    ;
    vstd::arithmetic::div_mod::lemma_mod_multiples_basic(512 * kb + q, span_b);
    assert(cb % span_b == 0);
    assert(cb == 4096 * (bp + q * es)) by (nonlinear_arith)
        requires
            cb == b + q * (es * 4096) && b == 4096 * bp,
    ;
    vstd::arithmetic::div_mod::lemma_fundamental_div_mod_converse(cb, 4096, bp + q * es, 0);
    assert(cb + es * 4096 == 4096 * (bp + (q + 1) * es)) by (nonlinear_arith)
        requires
            cb == 4096 * (bp + q * es),
    ;
    vstd::arithmetic::div_mod::lemma_fundamental_div_mod_converse(
        cb + es * 4096,
        4096,
        bp + (q + 1) * es,
        0,
    );
    assert(b + (q + 1) * (es * 4096) == cb + es * 4096) by (nonlinear_arith)
        requires
            cb == b + q * (es * 4096),
    ;
    assert(b + q * (es * 4096) <= cur < b + (q + 1) * (es * 4096)) by (nonlinear_arith)
        requires
            cur == b + span_b * q + r && 0 <= r < span_b && span_b == es * 4096,
    ;
    assert(b + 512 * es * 4096 == 4096 * (bp + 512 * es)) by (nonlinear_arith)
        requires
            b == 4096 * bp,
    ;
    vstd::arithmetic::div_mod::lemma_fundamental_div_mod_converse(
        b + 512 * es * 4096,
        4096,
        bp + 512 * es,
        0,
    );
}

/// Every block the page-table engine hands out is one table node: a block
/// allocated afterwards either was allocated before, unchanged, or spans
/// exactly one page plus its header.
pub open spec fn table_carves_only(
    s0: Seq<crate::allocator::Header>,
    s1: Seq<crate::allocator::Header>,
) -> bool {
    forall|i: int|
        0 <= i < s1.len() && (#[trigger] s1[i]).is_allocated ==> (exists|j: int|
            0 <= j < s0.len() && #[trigger] s0[j] == s1[i]) || s1[i].size == PAGE_SIZE
            + crate::allocator::HEADER_SIZE
}

/// An untouched header list trivially satisfies `table_carves_only`.
proof fn lemma_carves_refl(s0: Seq<crate::allocator::Header>, s1: Seq<crate::allocator::Header>)
    requires
        s0 == s1,
    ensures
        table_carves_only(s0, s1),
{
    assert forall|i: int|
        0 <= i < s1.len() && (#[trigger] s1[i]).is_allocated implies (exists|j: int|
        0 <= j < s0.len() && #[trigger] s0[j] == s1[i]) || s1[i].size == PAGE_SIZE
        + crate::allocator::HEADER_SIZE by {
        assert(s0[i] == s1[i]);
    }
}

/// `table_carves_only` composes across two successive passes.
proof fn lemma_carves_trans(
    s0: Seq<crate::allocator::Header>,
    s1: Seq<crate::allocator::Header>,
    s2: Seq<crate::allocator::Header>,
)
    requires
        table_carves_only(s0, s1),
        table_carves_only(s1, s2),
    ensures
        table_carves_only(s0, s2),
{
    assert forall|i: int|
        0 <= i < s2.len() && (#[trigger] s2[i]).is_allocated implies (exists|j: int|
        0 <= j < s0.len() && #[trigger] s0[j] == s2[i]) || s2[i].size == PAGE_SIZE
        + crate::allocator::HEADER_SIZE by {}
}

/// One successful page-sized allocation only adds a page-sized block.
proof fn lemma_alloc_carves(
    s0: Seq<crate::allocator::Header>,
    s1: Seq<crate::allocator::Header>,
    p: int,
)
    requires
        crate::allocator::alloc_success(s0, s1, PAGE_SIZE, PAGE_SIZE, p),
    ensures
        table_carves_only(s0, s1),
{
    crate::allocator::lemma_page_size_pow2();
    crate::allocator::lemma_pow2_ceil_unique(4096, 4096);
    let idx = choose|i: int|
        {
            &&& 0 <= i < s0.len()
            &&& crate::allocator::fits(#[trigger] s0[i], PAGE_SIZE, PAGE_SIZE)
            &&& (forall|j: int|
                0 <= j < i ==> !crate::allocator::fits(#[trigger] s0[j], PAGE_SIZE, PAGE_SIZE))
            &&& p == crate::allocator::payload_addr(s0[i], PAGE_SIZE, PAGE_SIZE)
            &&& p % crate::allocator::eff_align(PAGE_SIZE) == 0
            &&& s0[i].addr + crate::allocator::HEADER_SIZE <= p
            &&& p + crate::allocator::eff_size(PAGE_SIZE) <= s0[i].end() <= usize::MAX
            &&& PAGE_SIZE <= crate::allocator::eff_size(PAGE_SIZE)
            &&& s1 == s0.take(i) + crate::allocator::carved(s0[i], PAGE_SIZE, PAGE_SIZE) + s0.skip(
                i + 1,
            )
        };
    let c = crate::allocator::carved(s0[idx], PAGE_SIZE, PAGE_SIZE);
    assert(crate::allocator::eff_size(PAGE_SIZE) == 4096);
    assert forall|i: int|
        0 <= i < s1.len() && (#[trigger] s1[i]).is_allocated implies (exists|j: int|
        0 <= j < s0.len() && #[trigger] s0[j] == s1[i]) || s1[i].size == PAGE_SIZE
        + crate::allocator::HEADER_SIZE by {
        if i < idx {
            assert(s0[i] == s1[i]);
        } else if i < idx + c.len() {
            assert(s1[i] == c[i - idx]);
        } else {
            assert(s0[i - c.len() + 1] == s1[i]);
        }
    }
}

/// In a freshly built subtree, a present entry's span meets the mapped
/// window: no table hangs anywhere the mapped range did not need one.
pub proof fn lemma_fresh_entries_meet_window(
    t: Table,
    level: int,
    base_page: int,
    lo: int,
    hi: int,
    i: int,
)
    requires
        freshly_built(t, level, base_page, lo, hi),
        2 <= level,
        0 <= i < 512,
        entry_present(t.entries@[i].value),
    ensures
        base_page + i * entry_span(level) < hi,
        lo < base_page + i * entry_span(level) + entry_span(level),
{
    assert(fresh_entry(t.entries@[i], level, base_page + i * entry_span(level), lo, hi));
}

/// Exactly one present entry at each level above the leaves: the one the
/// `p`-th page's path selects; every other entry of each walked table still
/// reads zero.
pub open spec fn single_path_to(t: Table, level: int, p: int) -> bool
    decreases level,
{
    level >= 2 ==> {
        let es = entry_span(level);
        &&& (forall|i: int|
            0 <= i < 512 && i != p / es ==> (#[trigger] t.entries@[i]).value == 0)
        &&& entry_present(t.entries@[p / es].value)
        &&& (t.entries@[p / es].child is Some ==> single_path_to(
            *t.entries@[p / es].child.unwrap(),
            level - 1,
            p % es,
        ))
    }
}

/// In a freshly built, well-formed subtree that resolves the one page of
/// its window, the window page's path is the only populated structure.
proof fn lemma_fresh_single_path(t: Table, level: int, base_page: int, vp: int)
    requires
        1 <= level <= 4,
        t.wf(level),
        freshly_built(t, level, base_page, vp, vp + 1),
        base_page <= vp < base_page + 512 * entry_span(level),
        t.leaf_raw(level, vp - base_page) is Some,
    ensures
        single_path_to(t, level, vp - base_page),
    decreases level,
{
    if level >= 2 {
        let es = entry_span(level);
        let rel = vp - base_page;
        lemma_div_mod_facts(rel, es);
        let q = rel / es;
        if t.entries@[q].child is None {
            assert(t.leaf_raw(level, rel) is None);
        }
        assert(t.entries@[q].child is Some);
        assert(entry_present(t.entries@[q].value));
        assert forall|i: int| 0 <= i < 512 && i != q implies (#[trigger] t.entries@[i]).value
            == 0 by {
            let sub = base_page + i * es;
            assert(fresh_entry(t.entries@[i], level, sub, vp, vp + 1));
            if entry_present(t.entries@[i].value) {
                assert(sub <= vp < sub + es);
                assert(rel == i * es + (rel - i * es));
                assert(i * es == es * i) by (nonlinear_arith);
                vstd::arithmetic::div_mod::lemma_fundamental_div_mod_converse(
                    rel,
                    es,
                    i,
                    rel - i * es,
                );
                assert(i == q);
            }
        }
        let c = *t.entries@[q].child.unwrap();
        assert(fresh_entry(t.entries@[q], level, base_page + q * es, vp, vp + 1));
        assert(freshly_built(c, level - 1, base_page + q * es, vp, vp + 1));
        assert(t.leaf_raw(level, rel) == c.leaf_raw(level - 1, rel % es));
        assert(512 * entry_span(level - 1) == es);
        assert(base_page + q * es <= vp < base_page + q * es + es) by (nonlinear_arith)
            requires
                rel == es * q + rel % es && 0 <= rel % es < es && rel == vp - base_page,
        ;
        assert(vp - (base_page + q * es) == rel % es);
        lemma_fresh_single_path(c, level - 1, base_page + q * es, vp);
    }
}

/// Mapping a single page into a tree fresh from `PML4::new` populates
/// exactly the page's path: at each of the three levels above the leaves
/// the walked table holds one present entry — the one the page's 9-bit
/// index selects — and 511 entries that still read zero.
pub proof fn lemma_single_page_structure(t0: PML4, t1: PML4, vp: int)
    requires
        t1.wf(),
        forall|i: int| 0 <= i < 512 ==> (#[trigger] t0.root.entries@[i]).value == 0,
        tree_delta(t0.root, t1.root, 4, 0, vp, vp + 1),
        t1.root.leaf_raw(4, vp) is Some,
        0 <= vp < 0x10_0000_0000,
    ensures
        single_path_to(t1.root, 4, vp),
{
    lemma_zero_delta_fresh(t0.root, t1.root, 4, 0, vp, vp + 1);
    lemma_fresh_single_path(t1.root, 4, 0, vp);
}

/// One `delta_entry` obligation after working one slot: other slots are
/// untouched, and the worked slot either reused its present child or — when
/// it was absent — gained a fresh one, linked present and writable.
proof fn lemma_slot_delta_entry(
    t0: Table,
    t1: Table,
    e0: Entry,
    e_pop: Entry,
    c0: Table,
    c1: Table,
    l: int,
    q: int,
    bp: int,
    cbp: int,
    cp: int,
    hi: int,
    i: int,
)
    requires
        2 <= l <= 4,
        t0.wf(l),
        c1.wf(l - 1),
        t0.entries@.len() == 512,
        t1.entries@.len() == 512,
        0 <= i < 512,
        0 <= q < 512,
        t1.entries@ == t0.entries@.update(q, t1.entries@[q]),
        t0.entries@[q] == e0,
        t1.entries@[q].child is Some && *t1.entries@[q].child.unwrap() == c1,
        t1.entries@[q].value == e_pop.value,
        cbp == bp + q * entry_span(l),
        cbp <= cp < cbp + entry_span(l),
        cp < hi,
        c1.phys == c0.phys,
        tree_delta(c0, c1, l - 1, cbp, cp, hi),
        entry_present(e0.value) ==> e_pop == e0 && e0.child is Some && c0 == *e0.child.unwrap(),
        !entry_present(e0.value) ==> e_pop.value == (c0.phys | 3) && (forall|k: int|
            0 <= k < 512 ==> (#[trigger] c0.entries@[k]).value == 0),
    ensures
        delta_entry(t0.entries@[i], t1.entries@[i], l, bp + i * entry_span(l), cp, hi),
{
    let es = entry_span(l);
    if i == q {
        if !entry_present(e0.value) {
            lemma_zero_delta_fresh(c0, c1, l - 1, cbp, cp, hi);
        }
    } else {
        assert(t1.entries@[i] == t0.entries@[i]);
        let e = t0.entries@[i];
        if entry_present(e.value) && e.child is Some {
            lemma_delta_refl(*e.child.unwrap(), l - 1, bp + i * es, cp, hi);
        }
    }
}

/// One byte past the sub-span of the slot that `cur` selects in a table
/// whose span starts at `b`.
pub open spec fn slot_end_addr(b: int, cur: int, level: int) -> int {
    b + ((cur - b) / (entry_span(level) * 4096) + 1) * (entry_span(level) * 4096)
}

/// Handles the one slot that `cur` selects: writes the leaf at the leaf
/// level, or descends into the slot's child table — populating it first if
/// absent — above it. Returns the first address past what got mapped, which
/// on success is the slot's whole remaining sub-span or `virt_end`,
/// whichever comes first.
#[verifier::rlimit(100)]
fn map_slot(
    t: &mut Table,
    alloc: &mut FirstFitAllocator,
    virt_start: u64,
    virt_end: u64,
    cur: u64,
    phys: u64,
    attr: PageAttr,
    base: Ghost<u64>,
) -> (r: Result<u64, Error>)
    requires
        old(t).wf(old(t).level as int),
        old(alloc).wf(),
        virt_start % 4096 == 0,
        virt_end % 4096 == 0,
        cur % 4096 == 0,
        phys % 4096 == 0,
        virt_start <= cur < virt_end,
        virt_end <= 0x1_0000_0000_0000,
        phys + virt_end - virt_start <= 0x1_0000_0000_0000_0000,
        (base@ as int) % (512 * entry_span(old(t).level as int) * 4096) == 0,
        base@ <= cur < base@ + 512 * entry_span(old(t).level as int) * 4096,
    ensures
        final(t).wf(old(t).level as int),
        final(t).level == old(t).level,
        final(t).phys == old(t).phys,
        final(alloc).wf(),
        final(alloc).total_bytes() == old(alloc).total_bytes(),
        table_carves_only(old(alloc)@, final(alloc)@),
        match r {
            Ok(a) => {
                &&& a as int == min_of(
                    virt_end as int,
                    slot_end_addr(base@ as int, cur as int, old(t).level as int),
                )
                &&& a % 4096 == 0
                &&& cur < a
                &&& mapped_from_to(
                    *final(t),
                    old(t).level as int,
                    base@ as int / 4096,
                    phys,
                    virt_start,
                    attr,
                    cur as int / 4096,
                    a as int / 4096,
                )
                &&& untouched_outside(
                    *old(t),
                    *final(t),
                    old(t).level as int,
                    cur as int / 4096 - base@ as int / 4096,
                    a as int / 4096 - base@ as int / 4096,
                )
                &&& tree_delta(
                    *old(t),
                    *final(t),
                    old(t).level as int,
                    base@ as int / 4096,
                    cur as int / 4096,
                    a as int / 4096,
                )
            },
            Err(e) => {
                &&& e == Error::OutOfMemory
                &&& (forall|i: int|
                    0 <= i < final(alloc)@.len() ==> !crate::allocator::fits(
                        #[trigger] final(alloc)@[i],
                        PAGE_SIZE,
                        PAGE_SIZE,
                    ))
                &&& (exists|m: int|
                    {
                        &&& cur as int / 4096 <= m <= min_of(
                            virt_end as int,
                            slot_end_addr(base@ as int, cur as int, old(t).level as int),
                        ) / 4096
                        &&& #[trigger] mapped_from_to(
                            *final(t),
                            old(t).level as int,
                            base@ as int / 4096,
                            phys,
                            virt_start,
                            attr,
                            cur as int / 4096,
                            m,
                        )
                        &&& untouched_outside(
                            *old(t),
                            *final(t),
                            old(t).level as int,
                            cur as int / 4096 - base@ as int / 4096,
                            m - base@ as int / 4096,
                        )
                        &&& tree_delta(
                            *old(t),
                            *final(t),
                            old(t).level as int,
                            base@ as int / 4096,
                            cur as int / 4096,
                            m + 1,
                        )
                    })
            },
        },
    decreases old(t).level, virt_end - cur, 0int,
{
    let ghost t0 = *t;
    let ghost l = t.level as int;
    let ghost es = entry_span(l);
    let ghost b = base@ as int;
    let ghost bp = b / 4096;
    let ghost cp = cur as int / 4096;
    let ghost block_hi = b + 512 * es * 4096;
    let level = t.level;
    let index = t.calc_index(cur);
    proof {
        lemma_block_geometry(b, cur as int, l);
    }
    let ghost q = index as int;
    let ghost cb = b + q * (es * 4096);
    let ghost cbp = bp + q * es;
    let ghost slot_end = cb + es * 4096;
    proof {
        assert((q + 1) * (es * 4096) == q * (es * 4096) + es * 4096) by (nonlinear_arith);
        assert(slot_end == slot_end_addr(b, cur as int, l));
    }
    let next_addr: u64;
    if level == 1 {
        let phys_addr = phys + (cur - virt_start);
        proof {
            vstd::arithmetic::div_mod::lemma_fundamental_div_mod(phys as int, 4096);
            vstd::arithmetic::div_mod::lemma_fundamental_div_mod(cur as int, 4096);
            vstd::arithmetic::div_mod::lemma_fundamental_div_mod(virt_start as int, 4096);
            assert(phys + cur - virt_start == 4096 * (phys as int / 4096 + cur as int / 4096
                - virt_start as int / 4096)) by (nonlinear_arith)
                requires
                    phys == 4096 * (phys as int / 4096) && cur == 4096 * (cur as int / 4096)
                        && virt_start == 4096 * (virt_start as int / 4096),
            ;
            vstd::arithmetic::div_mod::lemma_fundamental_div_mod_converse(
                phys as int + cur as int - virt_start as int,
                4096,
                phys as int / 4096 + cur as int / 4096 - virt_start as int / 4096,
                0,
            );
            assert(phys_addr % 4096 == 0);
        }
        let mut e = t.entries.remove(index);
        let res = e.set_page(phys_addr, attr);
        t.entries.insert(index, e);
        match res {
            Ok(()) => {},
            Err(err) => {
                proof {
                    assert(false);
                }
                return Err(err);
            },
        }
        next_addr = cur + 4096;
        proof {
            // With one page per slot, the slot's sub-block is exactly this page.
            assert(es == 1);
            assert(cb <= cur < cb + 4096);
            assert(cur as int == cb);
            assert(cp == cbp && q == cp - bp);
            assert(t.entries@ =~= t0.entries@.update(q, t.entries@[q]));
            assert(t.wf(l));
            assert(t.entries@[q].value == page_value(phys, virt_start, cp, attr));
            assert forall|p: int| cp <= p < next_addr as int / 4096 implies #[trigger] t.leaf_raw(
                l,
                p - bp,
            ) == Some(page_value(phys, virt_start, p, attr)) by {
                assert(p == cp);
                assert(t.leaf_raw(1, q) == Some(t.entries@[q].value));
            }
            assert forall|qq: int|
                0 <= qq < 512 * es && !(cp - bp <= qq < next_addr as int / 4096
                    - bp) implies #[trigger] leaf_same_or_blank(t0, *t, l, qq) by {
                assert(qq != q);
                assert(t.leaf_raw(1, qq) == Some(t.entries@[qq].value));
                assert(t0.leaf_raw(1, qq) == Some(t0.entries@[qq].value));
                assert(t.entries@[qq] == t0.entries@[qq]);
            }
            assert(next_addr as int == min_of(virt_end as int, slot_end));
            assert(tree_delta(t0, *t, l, bp, cp, next_addr as int / 4096));
            lemma_carves_refl(old(alloc)@, alloc@);
        }
        Ok(next_addr)
    } else {
        let mut e = t.entries.remove(index);
        let ghost e0 = e;
        let res_pop = e.ensure_populated(alloc, level - 1);
        match res_pop {
            Ok(()) => {},
            Err(err) => {
                t.entries.insert(index, e);
                proof {
                    assert(t.entries@ =~= t0.entries@);
                    assert(err == Error::OutOfMemory);
                    assert forall|qq: int|
                        0 <= qq < 512 * es && !(cp - bp <= qq < cp
                            - bp) implies #[trigger] leaf_same_or_blank(t0, *t, l, qq) by {}
                    assert(cp <= cp <= min_of(virt_end as int, slot_end) / 4096);
                    assert(mapped_from_to(*t, l, bp, phys, virt_start, attr, cp, cp));
                    assert(untouched_outside(t0, *t, l, cp - bp, cp - bp));
                    lemma_delta_refl(t0, l, bp, cp, cp + 1);
                    assert(tree_delta(t0, *t, l, bp, cp, cp + 1));
                }
                return Err(err);
            },
        }
        let ghost e_pop = e;
        let ghost a1 = alloc@;
        let ghost c0 = *e_pop.child.unwrap();
        let c_opt = e.child.take();
        let mut c = match c_opt {
            Some(c) => c,
            None => {
                proof {
                    assert(false);
                }
                t.entries.insert(index, e);
                return Err(Error::OutOfMemory);
            },
        };
        proof {
            // The slot's child covers exactly the slot's sub-block.
            assert(512 * entry_span(l - 1) == es);
            assert(512 * entry_span(l - 1) * 4096 == es * 4096) by (nonlinear_arith)
                requires
                    512 * entry_span(l - 1) == es,
            ;
            if entry_present(e0.value) {
                assert(c0 == *e0.child.unwrap());
            }
            assert(c0.wf(l - 1));
            assert(c0.level as int == l - 1);
        }
        let rr = map_range(&mut *c, alloc, virt_start, virt_end, cur, phys, attr, Ghost(cb as u64));
        let ghost c1 = *c;
        e.child = Some(c);
        t.entries.insert(index, e);
        proof {
            assert(t.entries@ =~= t0.entries@.update(q, t.entries@[q]));
            assert(t.entries@[q].child is Some && *t.entries@[q].child.unwrap() == c1);
            assert(entry_addr(t.entries@[q].value) == c1.phys);
            assert(t.wf(l));
            assert(slot_end / 4096 == cbp + es);
            assert(cb / 4096 == cbp);
        }
        match rr {
            Ok(a) => {
                proof {
                    assert forall|p: int| cp <= p < a as int / 4096 implies #[trigger] t.leaf_raw(
                        l,
                        p - bp,
                    ) == Some(page_value(phys, virt_start, p, attr)) by {
                        lemma_parent_child_leaf(*t, l, q, p - bp);
                        assert(c1.leaf_raw(l - 1, p - cbp) == Some(
                            page_value(phys, virt_start, p, attr),
                        ));
                    }
                    assert forall|qq: int|
                        0 <= qq < 512 * es && !(cp - bp <= qq < a as int / 4096
                            - bp) implies #[trigger] leaf_same_or_blank(t0, *t, l, qq) by {
                        lemma_untouched_slot(
                            t0,
                            *t,
                            e0,
                            c0,
                            c1,
                            l,
                            q,
                            bp,
                            cbp,
                            cp,
                            a as int / 4096,
                            qq,
                        );
                    }
                    assert(a as int == min_of(virt_end as int, slot_end));
                    lemma_carves_trans(old(alloc)@, a1, alloc@);
                    vstd::arithmetic::div_mod::lemma_fundamental_div_mod(a as int, 4096);
                    vstd::arithmetic::div_mod::lemma_fundamental_div_mod(cur as int, 4096);
                    assert(cp < a as int / 4096);
                    assert forall|i: int| 0 <= i < 512 implies delta_entry(
                        t0.entries@[i],
                        #[trigger] t.entries@[i],
                        l,
                        bp + i * es,
                        cp,
                        a as int / 4096,
                    ) by {
                        lemma_slot_delta_entry(
                            t0,
                            *t,
                            e0,
                            e_pop,
                            c0,
                            c1,
                            l,
                            q,
                            bp,
                            cbp,
                            cp,
                            a as int / 4096,
                            i,
                        );
                    }
                    assert(tree_delta(t0, *t, l, bp, cp, a as int / 4096));
                }
                Ok(a)
            },
            Err(err) => {
                proof {
                    let m0 = choose|m: int|
                        {
                            &&& cur as int / 4096 <= m <= min_of(virt_end as int, slot_end) / 4096
                            &&& #[trigger] mapped_from_to(
                                c1,
                                l - 1,
                                cbp,
                                phys,
                                virt_start,
                                attr,
                                cp,
                                m,
                            )
                            &&& untouched_outside(c0, c1, l - 1, cp - cbp, m - cbp)
                            &&& tree_delta(c0, c1, l - 1, cbp, cp, m + 1)
                        };
                    assert forall|p: int| cp <= p < m0 implies #[trigger] t.leaf_raw(l, p - bp)
                        == Some(page_value(phys, virt_start, p, attr)) by {
                        lemma_parent_child_leaf(*t, l, q, p - bp);
                        assert(c1.leaf_raw(l - 1, p - cbp) == Some(
                            page_value(phys, virt_start, p, attr),
                        ));
                    }
                    assert forall|qq: int|
                        0 <= qq < 512 * es && !(cp - bp <= qq < m0
                            - bp) implies #[trigger] leaf_same_or_blank(t0, *t, l, qq) by {
                        lemma_untouched_slot(t0, *t, e0, c0, c1, l, q, bp, cbp, cp, m0, qq);
                    }
                    assert(cp <= m0 <= min_of(virt_end as int, slot_end) / 4096);
                    assert(mapped_from_to(*t, l, bp, phys, virt_start, attr, cp, m0));
                    assert(untouched_outside(t0, *t, l, cp - bp, m0 - bp));
                    lemma_carves_trans(old(alloc)@, a1, alloc@);
                    assert forall|i: int| 0 <= i < 512 implies delta_entry(
                        t0.entries@[i],
                        #[trigger] t.entries@[i],
                        l,
                        bp + i * es,
                        cp,
                        m0 + 1,
                    ) by {
                        lemma_slot_delta_entry(t0, *t, e0, e_pop, c0, c1, l, q, bp, cbp, cp, m0 + 1, i);
                    }
                    assert(tree_delta(t0, *t, l, bp, cp, m0 + 1));
                }
                Err(err)
            },
        }
    }
}

/// Maps pages from `cur` up to either `virt_end` or the end of this table's
/// span, whichever comes first, installing `phys`-based leaf values with
/// `attr`. Returns the first unmapped address. Each step handles the slot
/// `cur` selects and then continues with the next slot of the same table:
/// the effect of four nested bounded loops, one per level, written as one
/// level-parameterized walk.
#[verifier::rlimit(100)]
fn map_range(
    t: &mut Table,
    alloc: &mut FirstFitAllocator,
    virt_start: u64,
    virt_end: u64,
    cur: u64,
    phys: u64,
    attr: PageAttr,
    base: Ghost<u64>,
) -> (r: Result<u64, Error>)
    requires
        old(t).wf(old(t).level as int),
        old(alloc).wf(),
        virt_start % 4096 == 0,
        virt_end % 4096 == 0,
        cur % 4096 == 0,
        phys % 4096 == 0,
        virt_start <= cur < virt_end,
        virt_end <= 0x1_0000_0000_0000,
        phys + virt_end - virt_start <= 0x1_0000_0000_0000_0000,
        (base@ as int) % (512 * entry_span(old(t).level as int) * 4096) == 0,
        base@ <= cur < base@ + 512 * entry_span(old(t).level as int) * 4096,
    ensures
        final(t).wf(old(t).level as int),
        final(t).level == old(t).level,
        final(t).phys == old(t).phys,
        final(alloc).wf(),
        final(alloc).total_bytes() == old(alloc).total_bytes(),
        table_carves_only(old(alloc)@, final(alloc)@),
        match r {
            Ok(a) => {
                &&& a as int == min_of(
                    virt_end as int,
                    base@ + 512 * entry_span(old(t).level as int) * 4096,
                )
                &&& a % 4096 == 0
                &&& mapped_from_to(
                    *final(t),
                    old(t).level as int,
                    base@ as int / 4096,
                    phys,
                    virt_start,
                    attr,
                    cur as int / 4096,
                    a as int / 4096,
                )
                &&& untouched_outside(
                    *old(t),
                    *final(t),
                    old(t).level as int,
                    cur as int / 4096 - base@ as int / 4096,
                    a as int / 4096 - base@ as int / 4096,
                )
                &&& tree_delta(
                    *old(t),
                    *final(t),
                    old(t).level as int,
                    base@ as int / 4096,
                    cur as int / 4096,
                    a as int / 4096,
                )
            },
            Err(e) => {
                &&& e == Error::OutOfMemory
                &&& (forall|i: int|
                    0 <= i < final(alloc)@.len() ==> !crate::allocator::fits(
                        #[trigger] final(alloc)@[i],
                        PAGE_SIZE,
                        PAGE_SIZE,
                    ))
                &&& (exists|m: int|
                    {
                        &&& cur as int / 4096 <= m <= min_of(
                            virt_end as int,
                            base@ + 512 * entry_span(old(t).level as int) * 4096,
                        ) / 4096
                        &&& #[trigger] mapped_from_to(
                            *final(t),
                            old(t).level as int,
                            base@ as int / 4096,
                            phys,
                            virt_start,
                            attr,
                            cur as int / 4096,
                            m,
                        )
                        &&& untouched_outside(
                            *old(t),
                            *final(t),
                            old(t).level as int,
                            cur as int / 4096 - base@ as int / 4096,
                            m - base@ as int / 4096,
                        )
                        &&& tree_delta(
                            *old(t),
                            *final(t),
                            old(t).level as int,
                            base@ as int / 4096,
                            cur as int / 4096,
                            m + 1,
                        )
                    })
            },
        },
    decreases old(t).level, virt_end - cur, 1int,
{
    let ghost t0 = *t;
    let ghost l = t.level as int;
    let ghost es = entry_span(l);
    let ghost b = base@ as int;
    let ghost bp = b / 4096;
    let ghost cp = cur as int / 4096;
    let ghost block_hi = b + 512 * es * 4096;
    let level = t.level;
    let index = t.calc_index(cur);
    proof {
        lemma_block_geometry(b, cur as int, l);
    }
    let ghost q = index as int;
    let ghost slot_end = slot_end_addr(b, cur as int, l);
    proof {
        assert((q + 1) * (es * 4096) == q * (es * 4096) + es * 4096) by (nonlinear_arith);
        assert(slot_end == b + q * (es * 4096) + es * 4096);
        assert(slot_end / 4096 == bp + (q + 1) * es);
        assert(slot_end <= block_hi) by (nonlinear_arith)
            requires
                slot_end == b + q * (es * 4096) + es * 4096 && 0 <= q < 512 && es > 0 && block_hi
                    == b + 512 * es * 4096,
        ;
        assert(min_of(virt_end as int, slot_end) / 4096 <= min_of(virt_end as int, block_hi)
            / 4096);
    }
    let ghost slot_hi = min_of(virt_end as int, slot_end) / 4096;
    let next_addr = match map_slot(t, alloc, virt_start, virt_end, cur, phys, attr, base) {
        Ok(a) => a,
        Err(err) => {
            proof {
                let m0 = choose|m: int|
                    {
                        &&& cp <= m <= slot_hi
                        &&& #[trigger] mapped_from_to(*t, l, bp, phys, virt_start, attr, cp, m)
                        &&& untouched_outside(t0, *t, l, cp - bp, m - bp)
                        &&& tree_delta(t0, *t, l, bp, cp, m + 1)
                    };
                assert(cp <= m0 <= min_of(virt_end as int, block_hi) / 4096);
                assert(mapped_from_to(*t, l, bp, phys, virt_start, attr, cp, m0));
                assert(untouched_outside(t0, *t, l, cp - bp, m0 - bp));
                assert(tree_delta(t0, *t, l, bp, cp, m0 + 1));
            }
            return Err(err);
        },
    };
    let ghost t_mid = *t;
    let ghost a_mid = alloc@;
    if index + 1 >= 512 || next_addr >= virt_end {
        proof {
            if next_addr >= virt_end {
                assert(next_addr as int == virt_end as int);
            } else {
                assert(q == 511);
                assert(slot_end == block_hi) by (nonlinear_arith)
                    requires
                        slot_end == b + q * (es * 4096) + es * 4096 && q == 511 && block_hi == b
                            + 512 * es * 4096,
                ;
            }
        }
        return Ok(next_addr);
    }
    proof {
        assert(next_addr as int == slot_end);
        assert(b <= slot_end < block_hi) by (nonlinear_arith)
            requires
                slot_end == b + q * (es * 4096) + es * 4096 && 0 <= q < 511 && es > 0 && block_hi
                    == b + 512 * es * 4096,
        ;
    }
    let rr2 = map_range(t, alloc, virt_start, virt_end, next_addr, phys, attr, base);
    match rr2 {
        Ok(a2) => {
            proof {
                let np = next_addr as int / 4096;
                let hi = a2 as int / 4096;
                assert forall|p: int| cp <= p < hi implies #[trigger] t.leaf_raw(l, p - bp)
                    == Some(page_value(phys, virt_start, p, attr)) by {
                    if p < np {
                        assert(0 <= p - bp < 512 * es);
                        assert(leaf_same_or_blank(t_mid, *t, l, p - bp));
                        assert(t_mid.leaf_raw(l, p - bp) == Some(
                            page_value(phys, virt_start, p, attr),
                        ));
                    }
                }
                assert forall|qq: int|
                    0 <= qq < 512 * es && !(cp - bp <= qq < hi
                        - bp) implies #[trigger] leaf_same_or_blank(t0, *t, l, qq) by {
                    assert(leaf_same_or_blank(t0, t_mid, l, qq));
                    assert(leaf_same_or_blank(t_mid, *t, l, qq));
                    lemma_same_or_blank_trans(t0, t_mid, *t, l, qq);
                }
                lemma_delta_trans(t0, t_mid, *t, l, bp, cp, np, hi);
                lemma_carves_trans(old(alloc)@, a_mid, alloc@);
            }
            Ok(a2)
        },
        Err(e2) => {
            proof {
                let np = next_addr as int / 4096;
                let m1 = choose|m: int|
                    {
                        &&& np <= m <= min_of(virt_end as int, block_hi) / 4096
                        &&& #[trigger] mapped_from_to(*t, l, bp, phys, virt_start, attr, np, m)
                        &&& untouched_outside(t_mid, *t, l, np - bp, m - bp)
                        &&& tree_delta(t_mid, *t, l, bp, np, m + 1)
                    };
                assert forall|qq: int|
                    0 <= qq < 512 * es && !(cp - bp <= qq < m1
                        - bp) implies #[trigger] leaf_same_or_blank(t0, *t, l, qq) by {
                    assert(leaf_same_or_blank(t0, t_mid, l, qq));
                    assert(leaf_same_or_blank(t_mid, *t, l, qq));
                    lemma_same_or_blank_trans(t0, t_mid, *t, l, qq);
                }
                assert forall|p: int| cp <= p < m1 implies #[trigger] t.leaf_raw(l, p - bp)
                    == Some(page_value(phys, virt_start, p, attr)) by {
                    if p < np {
                        assert(0 <= p - bp < 512 * es);
                        assert(leaf_same_or_blank(t_mid, *t, l, p - bp));
                        assert(t_mid.leaf_raw(l, p - bp) == Some(
                            page_value(phys, virt_start, p, attr),
                        ));
                    }
                }
                assert(cp <= m1 <= min_of(virt_end as int, block_hi) / 4096);
                assert(mapped_from_to(*t, l, bp, phys, virt_start, attr, cp, m1));
                assert(untouched_outside(t0, *t, l, cp - bp, m1 - bp));
                lemma_delta_trans(t0, t_mid, *t, l, bp, cp, np, m1 + 1);
                lemma_carves_trans(old(alloc)@, a_mid, alloc@);
            }
            Err(e2)
        },
    }
}

/// A blank leaf decodes as absent, so translations are unchanged wherever a
/// leaf kept its raw value or turned into a fresh table's zero entry.
proof fn lemma_same_or_blank_translate(t0: Table, t1: Table, level: int, p: int)
    requires
        leaf_same_or_blank(t0, t1, level, p),
    ensures
        t1.translate(level, p) == t0.translate(level, p),
{
    lemma_zero_entry();
}

/// The root of the four-level radix tree: the table the hardware's root
/// control register would point at.
pub struct PML4 {
    pub root: Table,
}

impl PML4 {
    /// The root table is well-formed at level 4.
    pub open spec fn wf(self) -> bool {
        self.root.wf(4)
    }

    /// The virtual address space this tree establishes: the present leaf
    /// value for the virtual page `p`, if any.
    pub open spec fn mapping(self, p: int) -> Option<u64> {
        self.root.translate(4, p)
    }

    /// Builds an empty top-level table out of an allocator block. Fails
    /// exactly when no free block can host a table node; nothing is mapped
    /// in the fresh tree.
    pub fn new(alloc: &mut FirstFitAllocator) -> (r: Result<PML4, Error>)
        requires
            old(alloc).wf(),
        ensures
            final(alloc).wf(),
            final(alloc).total_bytes() == old(alloc).total_bytes(),
            table_carves_only(old(alloc)@, final(alloc)@),
            match r {
                Ok(p) => {
                    &&& p.wf()
                    &&& p.root.level == 4
                    &&& (forall|i: int| 0 <= i < 512 ==> (#[trigger] p.root.entries@[i]).value == 0)
                    &&& (forall|q: int| p.mapping(q) is None)
                    &&& crate::allocator::alloc_success(
                        old(alloc)@,
                        final(alloc)@,
                        PAGE_SIZE,
                        PAGE_SIZE,
                        p.root.phys as int,
                    )
                },
                Err(e) => e == Error::OutOfMemory && final(alloc)@ == old(alloc)@,
            },
            r is Ok <==> exists|i: int|
                0 <= i < old(alloc)@.len() && crate::allocator::fits(
                    #[trigger] old(alloc)@[i],
                    PAGE_SIZE,
                    PAGE_SIZE,
                ),
    {
        proof {
            crate::allocator::lemma_page_size_pow2();
        }
        match alloc.alloc_with_options(PAGE_SIZE, PAGE_SIZE) {
            Some(pa) => {
                proof {
                    lemma_alloc_carves(old(alloc)@, alloc@, pa as int);
                }
                Ok(PML4 { root: Table::new_table(4, pa as u64) })
            },
            None => {
                proof {
                    lemma_carves_refl(old(alloc)@, alloc@);
                }
                Err(Error::OutOfMemory)
            },
        }
    }

    /// A borrow of the root table's entry at `index`.
    pub fn entry(&self, index: usize) -> (r: &Entry)
        requires
            self.wf(),
            index < 512,
        ensures
            *r == self.root.entries@[index as int],
    {
        self.root.entry(index)
    }

    /// The level-3 table behind the root entry at `index`, when one is there.
    pub fn next_level(&self, index: usize) -> (r: Option<&Table>)
        ensures
            match r {
                Some(c) => index < self.root.entries@.len() && self.root.entries@[index as int].child
                    is Some && *self.root.entries@[index as int].child.unwrap() == *c,
                None => index >= self.root.entries@.len() || self.root.entries@[index as int].child
                    is None,
            },
    {
        self.root.next_level(index)
    }

    /// Maps every page of `[virt_start, virt_end)` onto the contiguous
    /// physical range starting at `physical_base`, writing `attr` into every
    /// leaf entry; pages already mapped in the range are overwritten, no
    /// translation outside the range changes, present interior entries are
    /// reused as they stand, and only absent interior entries on the walked
    /// paths gain fresh child tables. Table nodes are carved out of `alloc`.
    /// Fails with `NotAligned` exactly when `physical_base` is not
    /// page-aligned; fails with `OutOfMemory`, with a prefix of the range
    /// mapped, only when the allocator has no free block left that could
    /// host a table node. Virtual addresses cover the 48-bit span of the
    /// four-level tree; a canonical higher-half address is passed as its low
    /// 48 bits, which is all the table walk reads of it.
    pub fn create_mapping(
        &mut self,
        alloc: &mut FirstFitAllocator,
        virt_start: u64,
        virt_end: u64,
        physical_base: u64,
        attr: PageAttr,
    ) -> (r: Result<(), Error>)
        requires
            old(self).wf(),
            old(alloc).wf(),
            virt_start % 4096 == 0,
            virt_end % 4096 == 0,
            virt_start <= virt_end,
            virt_end <= 0x1_0000_0000_0000,
            physical_base + virt_end - virt_start <= 0x1_0000_0000_0000_0000,
        ensures
            final(self).wf(),
            final(alloc).wf(),
            final(alloc).total_bytes() == old(alloc).total_bytes(),
            table_carves_only(old(alloc)@, final(alloc)@),
            match r {
                Ok(()) => {
                    &&& physical_base % 4096 == 0
                    &&& (forall|p: int|
                        virt_start as int / 4096 <= p < virt_end as int / 4096
                            ==> #[trigger] final(self).root.leaf_raw(4, p) == Some(
                            page_value(physical_base, virt_start, p, attr),
                        ))
                    &&& (forall|p: int|
                        0 <= p < 0x10_0000_0000 && !(virt_start as int / 4096 <= p < virt_end as int
                            / 4096) ==> #[trigger] final(self).mapping(p) == old(self).mapping(p))
                    &&& (forall|p: int|
                        0 <= p < 0x10_0000_0000 && !(virt_start as int / 4096 <= p < virt_end as int
                            / 4096) ==> #[trigger] leaf_same_or_blank(
                            old(self).root,
                            final(self).root,
                            4,
                            p,
                        ))
                    &&& tree_delta(
                        old(self).root,
                        final(self).root,
                        4,
                        0,
                        virt_start as int / 4096,
                        virt_end as int / 4096,
                    )
                },
                Err(e) => {
                    &&& (e == Error::NotAligned || e == Error::OutOfMemory)
                    &&& (e == Error::NotAligned <==> physical_base % 4096 != 0)
                    &&& (e == Error::NotAligned ==> *final(self) == *old(self) && final(alloc)@
                        == old(alloc)@)
                    &&& (e == Error::OutOfMemory ==> {
                        &&& (forall|i: int|
                            0 <= i < final(alloc)@.len() ==> !crate::allocator::fits(
                                #[trigger] final(alloc)@[i],
                                PAGE_SIZE,
                                PAGE_SIZE,
                            ))
                        &&& (exists|m: int|
                            {
                                &&& virt_start as int / 4096 <= m <= virt_end as int / 4096
                                &&& #[trigger] mapped_from_to(
                                    final(self).root,
                                    4,
                                    0,
                                    physical_base,
                                    virt_start,
                                    attr,
                                    virt_start as int / 4096,
                                    m,
                                )
                                &&& (forall|p: int|
                                    0 <= p < 0x10_0000_0000 && !(virt_start as int / 4096 <= p < m)
                                        ==> #[trigger] final(self).mapping(p) == old(self).mapping(
                                        p,
                                    ))
                                &&& (forall|p: int|
                                    0 <= p < 0x10_0000_0000 && !(virt_start as int / 4096 <= p < m)
                                        ==> #[trigger] leaf_same_or_blank(
                                        old(self).root,
                                        final(self).root,
                                        4,
                                        p,
                                    ))
                                &&& tree_delta(
                                    old(self).root,
                                    final(self).root,
                                    4,
                                    0,
                                    virt_start as int / 4096,
                                    m + 1,
                                )
                            })
                    })
                },
            },
            r == Err::<(), Error>(Error::NotAligned) <==> physical_base % 4096 != 0,
    {
        if physical_base % 4096 != 0 {
            proof {
                lemma_carves_refl(old(alloc)@, alloc@);
            }
            return Err(Error::NotAligned);
        }
        if virt_start >= virt_end {
            proof {
                lemma_delta_refl(self.root, 4, 0, virt_start as int / 4096, virt_end as int / 4096);
                lemma_carves_refl(old(alloc)@, alloc@);
            }
            return Ok(());
        }
        proof {
            assert(512 * entry_span(4) * 4096 == 0x1_0000_0000_0000);
            vstd::arithmetic::div_mod::lemma_small_mod(0, 0x1_0000_0000_0000);
        }
        let ghost r0 = self.root;
        let rr = map_range(
            &mut self.root,
            alloc,
            virt_start,
            virt_end,
            virt_start,
            physical_base,
            attr,
            Ghost(0),
        );
        proof {
            assert(0x1_0000_0000_0000int / 4096 == 0x10_0000_0000int);
        }
        match rr {
            Ok(a) => {
                proof {
                    assert(a as int == virt_end as int);
                    assert forall|p: int|
                        virt_start as int / 4096 <= p < virt_end as int
                            / 4096 implies #[trigger] self.root.leaf_raw(4, p) == Some(
                        page_value(physical_base, virt_start, p, attr),
                    ) by {
                        assert(self.root.leaf_raw(4, p - 0) == Some(
                            page_value(physical_base, virt_start, p, attr),
                        ));
                    }
                    assert forall|p: int|
                        0 <= p < 0x10_0000_0000 && !(virt_start as int / 4096 <= p < virt_end as int
                            / 4096) implies #[trigger] self.root.translate(4, p) == r0.translate(
                        4,
                        p,
                    ) by {
                        assert(leaf_same_or_blank(r0, self.root, 4, p));
                        lemma_same_or_blank_translate(r0, self.root, 4, p);
                    }
                }
                Ok(())
            },
            Err(e) => {
                proof {
                    let m0 = choose|m: int|
                        {
                            &&& virt_start as int / 4096 <= m <= min_of(
                                virt_end as int,
                                0x1_0000_0000_0000,
                            ) / 4096
                            &&& #[trigger] mapped_from_to(
                                self.root,
                                4,
                                0,
                                physical_base,
                                virt_start,
                                attr,
                                virt_start as int / 4096,
                                m,
                            )
                            &&& untouched_outside(
                                r0,
                                self.root,
                                4,
                                virt_start as int / 4096,
                                m - 0,
                            )
                            &&& tree_delta(r0, self.root, 4, 0, virt_start as int / 4096, m + 1)
                        };
                    assert forall|p: int|
                        0 <= p < 0x10_0000_0000 && !(virt_start as int / 4096 <= p
                            < m0) implies #[trigger] self.root.translate(4, p) == r0.translate(
                        4,
                        p,
                    ) by {
                        assert(leaf_same_or_blank(r0, self.root, 4, p));
                        lemma_same_or_blank_translate(r0, self.root, 4, p);
                    }
                    assert(mapped_from_to(
                        self.root,
                        4,
                        0,
                        physical_base,
                        virt_start,
                        attr,
                        virt_start as int / 4096,
                        m0,
                    ));
                }
                Err(e)
            },
        }
    }
}

/// Pages of a slot other than the one worked on are untouched; pages under
/// the worked slot outside the mapped window follow the child's contract.
proof fn lemma_untouched_slot(
    t0: Table,
    t1: Table,
    e0: Entry,
    c0: Table,
    c1: Table,
    l: int,
    q: int,
    bp: int,
    cbp: int,
    cp: int,
    m: int,
    qq: int,
)
    requires
        2 <= l <= 4,
        t0.wf(l),
        t1.entries@.len() == 512,
        t1.entries@ == t0.entries@.update(q, t1.entries@[q]),
        0 <= q < 512,
        t0.entries@[q] == e0,
        t1.entries@[q].child is Some && *t1.entries@[q].child.unwrap() == c1,
        entry_present(e0.value) ==> e0.child is Some && c0 == *e0.child.unwrap(),
        !entry_present(e0.value) ==> e0.child is None && (forall|pp: int|
            #[trigger] c0.leaf_raw(l - 1, pp) is None || c0.leaf_raw(l - 1, pp) == Some(0u64)),
        cbp == bp + q * entry_span(l),
        cp - cbp <= m - cbp,
        untouched_outside(c0, c1, l - 1, cp - cbp, m - cbp),
        0 <= qq < 512 * entry_span(l),
        !(cp - bp <= qq < m - bp),
    ensures
        leaf_same_or_blank(t0, t1, l, qq),
{
    let es = entry_span(l);
    lemma_div_mod_facts(qq, es);
    let slot = qq / es;
    if slot == q {
        assert(q * es <= qq < (q + 1) * es) by (nonlinear_arith)
            requires
                qq == es * (qq / es) + qq % es && 0 <= qq % es < es && qq / es == q,
        ;
        lemma_parent_child_leaf(t0, l, q, qq);
        lemma_parent_child_leaf(t1, l, q, qq);
        let rel = qq - q * es;
        assert(0 <= rel < 512 * entry_span(l - 1)) by (nonlinear_arith)
            requires
                q * es <= qq < (q + 1) * es && rel == qq - q * es && 512 * entry_span(l - 1) == es,
        ;
        assert(!(cp - cbp <= rel < m - cbp));
        assert(leaf_same_or_blank(c0, c1, l - 1, rel));
        assert(t1.leaf_raw(l, qq) == c1.leaf_raw(l - 1, rel));
        if entry_present(e0.value) {
            assert(t0.leaf_raw(l, qq) == c0.leaf_raw(l - 1, rel));
        } else {
            assert(t0.leaf_raw(l, qq) is None);
            assert(c1.leaf_raw(l - 1, rel) is None || c1.leaf_raw(l - 1, rel) == Some(0u64));
        }
    } else {
        lemma_other_entries_leaf(t0, t1, l, qq);
    }
}

} // verus!
