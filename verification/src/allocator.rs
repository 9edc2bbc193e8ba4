//! The free-list allocator: per-extent metadata arithmetic, the
//! allocate/split/grow algorithm and the deallocate/coalesce algorithm.
//!
//! Every extent of raw memory the allocator manages carries, in front of
//! its usable payload, a fixed-size link record (`NODE_SIZE` bytes,
//! naturally aligned to `NODE_ALIGN`) plus whatever padding the payload's
//! alignment demands.  `MetaData` describes one extent — its raw base
//! address and the layout of its payload — and computes where the record
//! and the payload sit.  Nothing of this bookkeeping is stored outside the
//! extents themselves.

use vstd::prelude::*;
use vstd::arithmetic::div_mod::{
    lemma_add_mod_noop, lemma_fundamental_div_mod, lemma_small_mod,
};
use crate::deque_list::{LinkedDeque, Node};
use crate::layout::{
    align_offset, align_offset_of, int_max, is_pow2, lemma_align_offset,
    lemma_mod_multiple_trans, lemma_pow2_divides, lemma_pow2_pos, lemma_round_up,
    lemma_round_up_small, round_up, Layout,
};

verus! {

/// Bytes in one page handed out by the backing store.
pub const PAGE_SIZE: usize = 4096;

/// Bytes taken by the link record embedded at the front of an extent.
pub const NODE_SIZE: usize = 40;

/// Natural alignment of the embedded link record.
pub const NODE_ALIGN: usize = 8;

/// One contiguous extent of raw memory: its raw starting address (never
/// the payload address) and the layout of the payload it serves.
#[derive(Clone, Copy, Debug, PartialEq, Eq, Structural)]
pub struct MetaData {
    /// Raw start of the extent, before any padding or bookkeeping.
    pub base: usize,
    /// The payload's requested size and alignment, unmodified.
    pub layout: Layout,
}

impl MetaData {
    /// Alignment the embedded record must respect: the payload's, or the
    /// record's own natural alignment, whichever is larger.
    pub open spec fn spec_effective_align(self) -> int {
        int_max(self.layout.align as int, NODE_ALIGN as int)
    }

    /// Bytes between the raw base and the payload: the record rounded up
    /// to the payload's alignment, plus the padding that brings the base
    /// itself onto the effective alignment.
    pub open spec fn spec_extra_size(self) -> int {
        round_up(NODE_SIZE as int, self.layout.align as int)
            + align_offset_of(self.base as int, self.spec_effective_align())
    }

    /// Full footprint of the extent: payload plus bookkeeping.
    pub open spec fn spec_total_size(self) -> int {
        self.layout.size + self.spec_extra_size()
    }

    /// Address of the payload.
    pub open spec fn spec_data_location(self) -> int {
        self.base + self.spec_extra_size()
    }

    /// Address of the embedded record: exactly `NODE_SIZE` bytes before
    /// the payload, so that the payload address alone recovers it.
    pub open spec fn spec_meta_location(self) -> int {
        self.spec_data_location() - NODE_SIZE
    }

    /// First address past the extent.
    pub open spec fn spec_end(self) -> int {
        self.base + self.spec_total_size()
    }

    /// Padding a freshly formatted extent at `base` would need before its
    /// record, were the payload to use the record's natural alignment.
    pub open spec fn spec_default_meta_offset(base: int) -> int {
        round_up(NODE_SIZE as int, NODE_ALIGN as int) + align_offset_of(base, NODE_ALIGN as int)
            - NODE_SIZE
    }

    /// Largest payload this extent can serve for its current alignment
    /// class: its size plus whatever of its padding exceeds the minimum a
    /// blank extent at the same base would need.
    pub open spec fn spec_usable_size(self) -> int {
        self.layout.size + (self.spec_meta_location() - self.base)
            - Self::spec_default_meta_offset(self.base as int)
    }

    /// The extent, re-formatted in place for payload layout `lay`, fits
    /// inside its own footprint.
    pub open spec fn spec_compatible(self, lay: Layout) -> bool {
        (MetaData { base: self.base, layout: lay }).spec_total_size() <= self.spec_total_size()
    }
}

/// Bounds of the bookkeeping arithmetic: the gap between base and payload
/// is at least the record, at least the payload alignment, and fits the
/// machine word.
pub proof fn lemma_extra_size_bounds(m: MetaData)
    requires
        m.layout.wf(),
    ensures
        NODE_SIZE <= m.spec_extra_size(),
        m.layout.align <= m.spec_extra_size(),
        m.spec_extra_size() <= usize::MAX,
{
    let a = m.layout.align as int;
    let eff = m.spec_effective_align();
    lemma_pow2_pos(m.layout.align as nat);
    lemma_round_up(NODE_SIZE as int, a);
    lemma_align_offset(m.base as int, eff);
    if a > NODE_SIZE {
        lemma_round_up_small(NODE_SIZE as int, a);
        // extra == a + offset <= 2 * a - 1, and wf bounds a by half the range
        assert(m.spec_extra_size() <= 2 * a - 1);
    } else {
        // round_up(NODE_SIZE, a) < NODE_SIZE + a and the offset is below
        // max(a, NODE_ALIGN), all of it small
        assert(m.spec_extra_size() < NODE_SIZE + a + int_max(a, NODE_ALIGN as int));
    }
}

/// A larger alignment never needs less base padding than a smaller one
/// that divides it.
pub proof fn lemma_align_offset_mono(addr: int, a: int, b: int)
    requires
        a > 0,
        b > 0,
        b % a == 0,
    ensures
        align_offset_of(addr, b) >= align_offset_of(addr, a),
{
    let oa = align_offset_of(addr, a);
    let ob = align_offset_of(addr, b);
    lemma_align_offset(addr, a);
    lemma_align_offset(addr, b);
    lemma_mod_multiple_trans(addr + ob, a, b);
    // both addr + oa and addr + ob are multiples of a, so their distance is
    lemma_add_mod_noop(addr + oa, ob - oa, a);
    assert((ob - oa) % a == 0) by {
        assert((addr + ob) % a == 0);
        assert((addr + oa) % a == 0);
        lemma_fundamental_div_mod(addr + oa, a);
        lemma_fundamental_div_mod(addr + ob, a);
        let qa = (addr + oa) / a;
        let qb = (addr + ob) / a;
        assert(ob - oa == a * qb - a * qa);
        assert(a * qb - a * qa == a * (qb - qa)) by (nonlinear_arith) {}
        vstd::arithmetic::div_mod::lemma_mod_multiples_basic(qb - qa, a);
        assert((a * (qb - qa)) % a == 0);
    }
    if ob < oa {
        lemma_fundamental_div_mod(ob - oa, a);
        let q = (ob - oa) / a;
        assert(ob - oa == a * q);
        assert(false) by (nonlinear_arith)
            requires ob - oa == a * q, -a < ob - oa < 0,
        {}
    }
}

/// The record needs at least the minimal blank-extent padding: the gap in
/// `spec_usable_size` is never negative.
pub proof fn lemma_usable_size_nonneg(m: MetaData)
    requires
        m.layout.wf(),
    ensures
        m.spec_meta_location() - m.base >= MetaData::spec_default_meta_offset(m.base as int),
        m.spec_usable_size() >= m.layout.size,
{
    let a = m.layout.align as int;
    let na = NODE_ALIGN as int;
    lemma_pow2_pos(m.layout.align as nat);
    lemma_round_up(NODE_SIZE as int, a);
    lemma_round_up(NODE_SIZE as int, na);
    assert(round_up(NODE_SIZE as int, na) == NODE_SIZE);
    if a >= na {
        assert(m.spec_effective_align() == a);
        assert(is_pow2(NODE_ALIGN as nat)) by {
            reveal_with_fuel(is_pow2, 5);
        }
        lemma_pow2_divides(NODE_ALIGN as nat, m.layout.align as nat);
        lemma_align_offset_mono(m.base as int, na, a);
    } else {
        assert(m.spec_effective_align() == na);
    }
}

/// The payload address an extent derives is aligned to its payload's
/// requested alignment.
pub proof fn lemma_data_location_aligned(m: MetaData)
    requires
        m.layout.wf(),
    ensures
        m.spec_data_location() % m.layout.align as int == 0,
{
    let a = m.layout.align as int;
    let eff = m.spec_effective_align();
    lemma_pow2_pos(m.layout.align as nat);
    let ru = round_up(NODE_SIZE as int, a);
    let off = align_offset_of(m.base as int, eff);
    lemma_round_up(NODE_SIZE as int, a);
    lemma_align_offset(m.base as int, eff);
    // the effective alignment is a multiple of the payload alignment
    if a >= NODE_ALIGN as int {
        assert(eff == a);
        assert(eff % a == 0) by {
            vstd::arithmetic::div_mod::lemma_mod_self_0(a);
        }
    } else {
        assert(eff == NODE_ALIGN as int);
        assert(is_pow2(NODE_ALIGN as nat)) by {
            reveal_with_fuel(is_pow2, 5);
        }
        lemma_pow2_divides(m.layout.align as nat, NODE_ALIGN as nat);
    }
    lemma_mod_multiple_trans(m.base as int + off, a, eff);
    lemma_add_mod_noop(m.base as int + off, ru, a);
    lemma_small_mod(0nat, a as nat);
    assert((m.base as int + off + ru) % a == 0);
    assert(m.spec_data_location() == m.base as int + off + ru);
}

impl MetaData {
    /// A descriptor over an existing, already-carved extent.
    pub fn new(base: usize, layout: Layout) -> (m: Self)
        ensures
            m == (MetaData { base, layout }),
    {
        Self { base, layout }
    }

    /// Bytes from the raw base to the payload.
    pub fn extra_size(&self) -> (r: usize)
        requires
            self.layout.wf(),
        ensures
            r == self.spec_extra_size(),
    {
        proof {
            lemma_pow2_pos(self.layout.align as nat);
            lemma_extra_size_bounds(*self);
            lemma_round_up(NODE_SIZE as int, self.layout.align as int);
            lemma_align_offset(self.base as int, self.spec_effective_align());
        }
        let eff: usize = if self.layout.align >= NODE_ALIGN {
            self.layout.align
        } else {
            NODE_ALIGN
        };
        let rounded: usize = NODE_SIZE + align_offset(NODE_SIZE, self.layout.align);
        rounded + align_offset(self.base, eff)
    }

    /// Full footprint: payload size plus `extra_size`.
    pub fn total_size(&self) -> (r: usize)
        requires
            self.layout.wf(),
            self.spec_total_size() <= usize::MAX,
        ensures
            r == self.spec_total_size(),
    {
        self.layout.size + self.extra_size()
    }

    /// Address of the payload carved out of this extent.
    pub fn data_location(&self) -> (r: usize)
        requires
            self.layout.wf(),
            self.spec_data_location() <= usize::MAX,
        ensures
            r == self.spec_data_location(),
    {
        self.base + self.extra_size()
    }

    /// Address of the embedded link record.
    pub fn meta_location(&self) -> (r: usize)
        requires
            self.layout.wf(),
            self.spec_data_location() <= usize::MAX,
        ensures
            r == self.spec_meta_location(),
    {
        proof {
            lemma_extra_size_bounds(*self);
        }
        self.data_location() - NODE_SIZE
    }

    /// Padding a blank extent at `base` would put before its record.
    pub fn default_meta_offset(base: usize) -> (r: usize)
        ensures
            r == Self::spec_default_meta_offset(base as int),
            r < NODE_ALIGN,
    {
        proof {
            lemma_round_up(NODE_SIZE as int, NODE_ALIGN as int);
            lemma_align_offset(base as int, NODE_ALIGN as int);
        }
        align_offset(base, NODE_ALIGN)
    }

    /// Largest payload obtainable from this extent for its current
    /// alignment class.
    pub fn usable_size(&self) -> (r: usize)
        requires
            self.layout.wf(),
            self.spec_total_size() <= usize::MAX,
            self.spec_data_location() <= usize::MAX,
        ensures
            r == self.spec_usable_size(),
    {
        proof {
            lemma_usable_size_nonneg(*self);
            lemma_extra_size_bounds(*self);
        }
        let node_padding = Self::default_meta_offset(self.base);
        let current_padding = self.meta_location() - self.base;
        self.layout.size + (current_padding - node_padding)
    }

    /// Whether this extent, re-formatted for `lay`, still fits inside its
    /// own footprint — the compatibility test the allocation scan uses.
    /// The test demands the re-formatted head fit also when `lay` asks
    /// for no more alignment than the extent already has: a looser test
    /// on the usable size alone would admit extents that the split could
    /// not actually carve.
    pub fn check_compatible(&self, lay: &Layout) -> (r: bool)
        requires
            self.layout.wf(),
            lay.wf(),
            self.spec_total_size() <= usize::MAX,
        ensures
            r == self.spec_compatible(*lay),
    {
        let probe = MetaData::new(self.base, *lay);
        let needed = probe.extra_size();
        let have = self.total_size();
        if have >= needed {
            have - needed >= lay.size
        } else {
            false
        }
    }

    /// A blank descriptor for a fresh, unformatted extent of `size` bytes:
    /// the payload takes everything after the minimal bookkeeping, at the
    /// record's natural alignment.
    pub fn new_blank(base: usize, size: usize) -> (m: Self)
        requires
            Self::spec_default_meta_offset(base as int) + NODE_SIZE < size,
            size <= usize::MAX as int / 2,
        ensures
            m.base == base,
            m.layout.align == NODE_ALIGN,
            m.layout.size >= 1,
            m.layout.wf(),
            m.spec_total_size() == size,
    {
        proof {
            lemma_round_up(NODE_SIZE as int, NODE_ALIGN as int);
            lemma_align_offset(base as int, NODE_ALIGN as int);
            assert(is_pow2(NODE_ALIGN as nat)) by {
                reveal_with_fuel(is_pow2, 5);
            }
        }
        let padding = Self::default_meta_offset(base);
        let total_removed = padding + NODE_SIZE;
        let m = Self {
            base,
            layout: Layout { size: size - total_removed, align: NODE_ALIGN },
        };
        proof {
            assert(m.spec_extra_size() == total_removed + NODE_SIZE - NODE_SIZE + (
            round_up(NODE_SIZE as int, NODE_ALIGN as int) - NODE_SIZE));
        }
        m
    }
}

/// Splits an extent into a head formatted exactly for `layout` and, when
/// enough room is left for a viable extent, a blank remainder starting
/// right after the head.  The two parts tile the extent's footprint.
/// A remainder is produced exactly when the slack beyond the head
/// exceeds the bookkeeping floor of a blank extent at the slack's base;
/// smaller slack is folded into the head, which then absorbs it.
pub fn node_split(node: MetaData, layout: Layout) -> (r: (MetaData, Option<MetaData>))
    requires
        node.layout.wf(),
        layout.wf(),
        layout.size >= 1,
        node.spec_compatible(layout),
        node.spec_total_size() <= usize::MAX as int / 2,
        node.spec_end() <= usize::MAX,
    ensures
        r.0.base == node.base,
        r.0.layout.align == layout.align,
        r.0.layout.size >= layout.size,
        r.0.layout.wf(),
        r.0.spec_data_location() % layout.align as int == 0,
        r.0.spec_data_location() + layout.size <= r.0.spec_end(),
        (r.1 is Some <==> ({
            let probe = MetaData { base: node.base, layout };
            node.spec_total_size() - probe.spec_total_size()
                > MetaData::spec_default_meta_offset(node.base + probe.spec_total_size())
                    + NODE_SIZE
        })),
        r.1 is Some ==> r.0.layout.size == layout.size,
        match r.1 {
            None => r.0.spec_total_size() == node.spec_total_size(),
            Some(rhs) => {
                &&& r.0.spec_total_size() + rhs.spec_total_size() == node.spec_total_size()
                &&& rhs.base == node.base + r.0.spec_total_size()
                &&& rhs.layout.wf()
                &&& rhs.layout.size >= 1
                &&& rhs.layout.align == NODE_ALIGN
            },
        },
{
    proof {
        lemma_extra_size_bounds(MetaData { base: node.base, layout });
        lemma_extra_size_bounds(node);
    }
    let block_size = node.total_size();
    let lhs = MetaData::new(node.base, layout);
    let lhs_size = lhs.total_size();
    let remaining = block_size - lhs_size;
    let rhs_base = node.base + lhs_size;
    let required = MetaData::default_meta_offset(rhs_base) + NODE_SIZE;
    proof {
        lemma_data_location_aligned(lhs);
    }
    if remaining > required {
        proof {
            assert(is_pow2(NODE_ALIGN as nat)) by {
                reveal_with_fuel(is_pow2, 5);
            }
        }
        let rhs = MetaData::new(
            rhs_base,
            Layout { size: remaining - required, align: NODE_ALIGN },
        );
        proof {
            lemma_round_up(NODE_SIZE as int, NODE_ALIGN as int);
            assert(rhs.spec_extra_size() == NODE_SIZE + align_offset_of(
                rhs_base as int, NODE_ALIGN as int));
            assert(rhs.spec_total_size() == remaining);
        }
        (lhs, Some(rhs))
    } else {
        let head = MetaData {
            base: lhs.base,
            layout: Layout { size: lhs.layout.size + remaining, align: lhs.layout.align },
        };
        proof {
            assert(head.spec_extra_size() == lhs.spec_extra_size());
            assert(head.spec_total_size() == node.spec_total_size());
            lemma_data_location_aligned(head);
        }
        (head, None)
    }
}

/// Sum of the footprints of a sequence of extents.
pub open spec fn total_sum(s: Seq<MetaData>) -> int
    decreases s.len(),
{
    if s.len() == 0 {
        0
    } else {
        s[0].spec_total_size() + total_sum(s.drop_first())
    }
}

pub proof fn lemma_sum_insert(s: Seq<MetaData>, i: int, m: MetaData)
    requires
        0 <= i <= s.len(),
    ensures
        total_sum(s.insert(i, m)) == total_sum(s) + m.spec_total_size(),
    decreases s.len(),
{
    if i == 0 {
        assert(s.insert(0, m).drop_first() =~= s);
    } else {
        lemma_sum_insert(s.drop_first(), i - 1, m);
        assert(s.insert(i, m).drop_first() =~= s.drop_first().insert(i - 1, m));
        assert(s.insert(i, m)[0] == s[0]);
    }
}

pub proof fn lemma_sum_remove(s: Seq<MetaData>, i: int)
    requires
        0 <= i < s.len(),
    ensures
        total_sum(s.remove(i)) == total_sum(s) - s[i].spec_total_size(),
    decreases s.len(),
{
    if i == 0 {
        assert(s.remove(0) =~= s.drop_first());
    } else {
        lemma_sum_remove(s.drop_first(), i - 1);
        assert(s.remove(i).drop_first() =~= s.drop_first().remove(i - 1));
        assert(s.remove(i)[0] == s[0]);
    }
}

pub proof fn lemma_sum_update(s: Seq<MetaData>, i: int, m: MetaData)
    requires
        0 <= i < s.len(),
    ensures
        total_sum(s.update(i, m)) == total_sum(s) - s[i].spec_total_size()
            + m.spec_total_size(),
    decreases s.len(),
{
    if i == 0 {
        assert(s.update(0, m).drop_first() =~= s.drop_first());
        assert(s.update(0, m)[0] == m);
    } else {
        lemma_sum_update(s.drop_first(), i - 1, m);
        assert(s.update(i, m).drop_first() =~= s.drop_first().update(i - 1, m));
        assert(s.update(i, m)[0] == s[0]);
    }
}

pub proof fn lemma_sum_push(s: Seq<MetaData>, m: MetaData)
    ensures
        total_sum(s.push(m)) == total_sum(s) + m.spec_total_size(),
{
    assert(s.push(m) =~= s.insert(s.len() as int, m));
    lemma_sum_insert(s, s.len() as int, m);
}

/// One extent lies inside the managed address window `[lo, hi)` and is
/// well formed.
pub open spec fn block_wf(m: MetaData, lo: int, hi: int) -> bool {
    &&& m.layout.wf()
    &&& m.layout.size >= 1
    &&& lo <= m.base
    &&& m.spec_end() <= hi
}

pub open spec fn blocks_wf(s: Seq<MetaData>, lo: int, hi: int) -> bool {
    forall|i: int| 0 <= i < s.len() ==> block_wf(#[trigger] s[i], lo, hi)
}

/// The free list's structural invariant: strictly ascending bases, no
/// overlap, and no two address-adjacent members (those are coalesced).
pub open spec fn sorted_coalesced(s: Seq<MetaData>) -> bool {
    forall|i: int| 0 <= i && i + 1 < s.len() ==> (#[trigger] s[i]).spec_end() < s[i + 1].base
}

/// The address ranges of two extents do not overlap.
pub open spec fn blocks_disjoint(a: MetaData, b: MetaData) -> bool {
    a.spec_end() <= b.base || b.spec_end() <= a.base
}

pub open spec fn pairwise_disjoint(s: Seq<MetaData>) -> bool {
    forall|i: int, j: int|
        0 <= i < s.len() && 0 <= j < s.len() && i != j
            ==> blocks_disjoint(#[trigger] s[i], #[trigger] s[j])
}

pub open spec fn seqs_disjoint(a: Seq<MetaData>, b: Seq<MetaData>) -> bool {
    forall|i: int, j: int|
        0 <= i < a.len() && 0 <= j < b.len()
            ==> blocks_disjoint(#[trigger] a[i], #[trigger] b[j])
}

/// In a sorted, coalesced sequence of well-formed extents, every earlier
/// member ends strictly before every later member begins.
pub proof fn lemma_sorted_separated(s: Seq<MetaData>, lo: int, hi: int, i: int, j: int)
    requires
        blocks_wf(s, lo, hi),
        sorted_coalesced(s),
        0 <= i < j < s.len(),
    ensures
        s[i].spec_end() < s[j].base,
    decreases j - i,
{
    if j > i + 1 {
        lemma_sorted_separated(s, lo, hi, i, j - 1);
        lemma_extra_size_bounds(s[j - 1]);
        assert(s[j - 1].spec_end() < s[j].base);
    }
}

/// The backing-store provider: a bounded arena handed out as whole,
/// page-aligned, page-sized extents in ascending address order, until the
/// arena is exhausted.
pub struct FakeHeap {
    /// First address of the arena; page aligned and never zero.
    pub base: usize,
    /// Bytes already handed out.
    pub current_top: usize,
    /// Size of the whole arena in bytes, a multiple of the page size.
    pub capacity: usize,
}

impl FakeHeap {
    pub open spec fn wf(self) -> bool {
        &&& self.base as int % PAGE_SIZE as int == 0
        &&& self.base > 0
        &&& self.capacity as int % PAGE_SIZE as int == 0
        &&& self.current_top as int % PAGE_SIZE as int == 0
        &&& self.current_top <= self.capacity
        &&& self.base + self.capacity <= usize::MAX as int / 2
    }

    pub fn new(base: usize, capacity: usize) -> (h: Self)
        requires
            base % PAGE_SIZE == 0,
            base > 0,
            capacity % PAGE_SIZE == 0,
            base + capacity <= usize::MAX as int / 2,
        ensures
            h.wf(),
            h.base == base,
            h.capacity == capacity,
            h.current_top == 0,
    {
        proof {
            vstd::arithmetic::div_mod::lemma_mod_self_0(PAGE_SIZE as int);
            lemma_small_mod(0nat, PAGE_SIZE as nat);
        }
        Self { base, current_top: 0, capacity }
    }

    /// Hands out the next page, or nothing once the arena is exhausted.
    pub fn get_page(&mut self) -> (r: Option<usize>)
        requires
            old(self).wf(),
        ensures
            final(self).wf(),
            final(self).base == old(self).base,
            final(self).capacity == old(self).capacity,
            match r {
                Some(pg) => {
                    &&& old(self).current_top < old(self).capacity
                    &&& pg == old(self).base + old(self).current_top
                    &&& pg as int % PAGE_SIZE as int == 0
                    &&& final(self).current_top == old(self).current_top + PAGE_SIZE
                },
                None => {
                    &&& old(self).current_top == old(self).capacity
                    &&& *final(self) == *old(self)
                },
            },
    {
        if self.current_top >= self.capacity {
            None
        } else {
            proof {
                lemma_page_gap(self.current_top as int, self.capacity as int);
                lemma_add_mod_noop(
                    self.base as int, self.current_top as int, PAGE_SIZE as int);
                lemma_add_mod_noop(
                    self.current_top as int, PAGE_SIZE as int, PAGE_SIZE as int);
                lemma_small_mod(0nat, PAGE_SIZE as nat);
                vstd::arithmetic::div_mod::lemma_mod_self_0(PAGE_SIZE as int);
            }
            let ptr = self.base + self.current_top;
            self.current_top = self.current_top + PAGE_SIZE;
            Some(ptr)
        }
    }
}

/// Two distinct multiples of the page size are at least a page apart.
proof fn lemma_page_gap(a: int, b: int)
    requires
        a % PAGE_SIZE as int == 0,
        b % PAGE_SIZE as int == 0,
        a < b,
    ensures
        a + PAGE_SIZE <= b,
{
    let p = PAGE_SIZE as int;
    lemma_fundamental_div_mod(a, p);
    lemma_fundamental_div_mod(b, p);
    let qa = a / p;
    let qb = b / p;
    assert(a + p <= b) by (nonlinear_arith)
        requires a == p * qa, b == p * qb, a < b, p == 4096,
    {}
}

/// The single extent covering two address-adjacent ones: the left one,
/// its payload size grown by the right one's whole footprint.
pub open spec fn spec_merge(a: MetaData, b: MetaData) -> MetaData {
    MetaData {
        base: a.base,
        layout: Layout {
            size: (a.layout.size + b.spec_total_size()) as usize,
            align: a.layout.align,
        },
    }
}

/// Merging two adjacent well-formed extents preserves footprint exactly
/// and stays well formed.
pub proof fn lemma_merge(a: MetaData, b: MetaData, hi: int)
    requires
        a.layout.wf(),
        b.layout.wf(),
        a.layout.size >= 1,
        a.spec_end() == b.base,
        b.spec_end() <= hi,
        hi <= usize::MAX as int / 2,
    ensures
        spec_merge(a, b).spec_total_size() == a.spec_total_size() + b.spec_total_size(),
        spec_merge(a, b).spec_end() == b.spec_end(),
        spec_merge(a, b).base == a.base,
        spec_merge(a, b).layout.align == a.layout.align,
        spec_merge(a, b).layout.wf(),
        spec_merge(a, b).layout.size >= 1,
        a.layout.size + b.spec_total_size() <= usize::MAX,
{
    lemma_extra_size_bounds(a);
    lemma_extra_size_bounds(b);
    let sz = a.layout.size + b.spec_total_size();
    // the merged extent ends where b did, so its size fits comfortably
    assert(sz + a.layout.align - 1 <= usize::MAX as int / 2);
    assert(sz == sz as usize);
    assert(spec_merge(a, b).spec_extra_size() == a.spec_extra_size());
}

/// Whether the extent just before insertion position `i` is
/// address-adjacent to `m`.
pub open spec fn ins_left_adj(s: Seq<MetaData>, m: MetaData, i: int) -> bool {
    i > 0 && s[i - 1].spec_end() == m.base
}

/// Whether `m` is address-adjacent to the extent at insertion position
/// `i`.
pub open spec fn ins_right_adj(s: Seq<MetaData>, m: MetaData, i: int) -> bool {
    i < s.len() && m.spec_end() == s[i].base
}

/// The free list after `m` is inserted at position `i` and coalesced with
/// whichever neighbours touch it.
pub open spec fn insert_result(s: Seq<MetaData>, m: MetaData, i: int) -> Seq<MetaData> {
    if ins_left_adj(s, m, i) && ins_right_adj(s, m, i) {
        s.update(i - 1, spec_merge(spec_merge(s[i - 1], m), s[i])).remove(i)
    } else if ins_left_adj(s, m, i) {
        s.update(i - 1, spec_merge(s[i - 1], m))
    } else if ins_right_adj(s, m, i) {
        s.update(i, spec_merge(m, s[i]))
    } else {
        s.insert(i, m)
    }
}

/// Shared premises of the insertion lemmas: the free list's invariants,
/// the extent's own validity, and its sorted position `i`.
pub open spec fn insert_pre(s: Seq<MetaData>, m: MetaData, i: int, lo: int, hi: int) -> bool {
    &&& blocks_wf(s, lo, hi)
    &&& sorted_coalesced(s)
    &&& block_wf(m, lo, hi)
    &&& hi <= usize::MAX as int / 2
    &&& 0 <= i <= s.len()
    &&& (forall|j: int| 0 <= j < i ==> (#[trigger] s[j]).base < m.base)
    &&& (forall|j: int| i <= j < s.len() ==> m.base < (#[trigger] s[j]).base)
    &&& (forall|j: int| 0 <= j < s.len() ==> blocks_disjoint(#[trigger] s[j], m))
}

/// Every extent below position `i` ends at or before `m` starts, and
/// every extent from `i` on starts at or after `m` ends.
proof fn lemma_insert_pre_gaps(s: Seq<MetaData>, m: MetaData, i: int, lo: int, hi: int)
    requires
        insert_pre(s, m, i, lo, hi),
    ensures
        forall|j: int| 0 <= j < i ==> (#[trigger] s[j]).spec_end() <= m.base,
        forall|j: int| i <= j < s.len() ==> m.spec_end() <= (#[trigger] s[j]).base,
{
    lemma_extra_size_bounds(m);
    assert forall|j: int| 0 <= j < i implies (#[trigger] s[j]).spec_end() <= m.base by {
        lemma_extra_size_bounds(s[j]);
    }
    assert forall|j: int| i <= j < s.len() implies m.spec_end() <= (#[trigger] s[j]).base by {
        lemma_extra_size_bounds(s[j]);
    }
}

proof fn lemma_insert_case_both(s: Seq<MetaData>, m: MetaData, i: int, lo: int, hi: int)
    requires
        insert_pre(s, m, i, lo, hi),
        ins_left_adj(s, m, i),
        ins_right_adj(s, m, i),
    ensures
        blocks_wf(insert_result(s, m, i), lo, hi),
        sorted_coalesced(insert_result(s, m, i)),
        total_sum(insert_result(s, m, i)) == total_sum(s) + m.spec_total_size(),
{
    let t = insert_result(s, m, i);
    lemma_insert_pre_gaps(s, m, i, lo, hi);
    lemma_extra_size_bounds(m);
    let ml = spec_merge(s[i - 1], m);
    lemma_merge(s[i - 1], m, hi);
    let m3 = spec_merge(ml, s[i]);
    lemma_merge(ml, s[i], hi);
    let u = s.update(i - 1, m3);
    lemma_sum_update(s, i - 1, m3);
    lemma_sum_remove(u, i);
    assert(u[i] == s[i]);
    assert(t == u.remove(i));
    assert forall|j: int| 0 <= j < t.len() implies block_wf(#[trigger] t[j], lo, hi) by {
        if j < i - 1 {
            assert(t[j] == s[j]);
        } else if j == i - 1 {
            assert(t[j] == m3);
        } else {
            assert(t[j] == s[j + 1]);
        }
    }
    assert forall|j: int| 0 <= j && j + 1 < t.len()
        implies (#[trigger] t[j]).spec_end() < t[j + 1].base by {
        if j + 1 < i - 1 {
            assert(t[j] == s[j]);
            assert(t[j + 1] == s[j + 1]);
        } else if j + 1 == i - 1 {
            assert(t[j] == s[j]);
            assert(t[j + 1] == m3);
        } else if j == i - 1 {
            assert(t[j] == m3);
            assert(t[j + 1] == s[i + 1]);
            assert(m3.spec_end() == s[i].spec_end());
        } else {
            assert(t[j] == s[j + 1]);
            assert(t[j + 1] == s[j + 2]);
        }
    }
}

proof fn lemma_insert_case_left(s: Seq<MetaData>, m: MetaData, i: int, lo: int, hi: int)
    requires
        insert_pre(s, m, i, lo, hi),
        ins_left_adj(s, m, i),
        !ins_right_adj(s, m, i),
    ensures
        blocks_wf(insert_result(s, m, i), lo, hi),
        sorted_coalesced(insert_result(s, m, i)),
        total_sum(insert_result(s, m, i)) == total_sum(s) + m.spec_total_size(),
{
    let t = insert_result(s, m, i);
    lemma_insert_pre_gaps(s, m, i, lo, hi);
    lemma_extra_size_bounds(m);
    let ml = spec_merge(s[i - 1], m);
    lemma_merge(s[i - 1], m, hi);
    lemma_sum_update(s, i - 1, ml);
    assert(t == s.update(i - 1, ml));
    assert forall|j: int| 0 <= j < t.len() implies block_wf(#[trigger] t[j], lo, hi) by {
        if j != i - 1 {
            assert(t[j] == s[j]);
        }
    }
    assert forall|j: int| 0 <= j && j + 1 < t.len()
        implies (#[trigger] t[j]).spec_end() < t[j + 1].base by {
        if j == i - 1 {
            assert(t[j] == ml);
            assert(t[j + 1] == s[i]);
            assert(ml.spec_end() == m.spec_end());
            assert(m.spec_end() != s[i].base);
        } else if j + 1 == i - 1 {
            assert(t[j] == s[j]);
            assert(t[j + 1] == ml);
        } else {
            assert(t[j] == s[j]);
            assert(t[j + 1] == s[j + 1]);
        }
    }
}

proof fn lemma_insert_case_right(s: Seq<MetaData>, m: MetaData, i: int, lo: int, hi: int)
    requires
        insert_pre(s, m, i, lo, hi),
        !ins_left_adj(s, m, i),
        ins_right_adj(s, m, i),
    ensures
        blocks_wf(insert_result(s, m, i), lo, hi),
        sorted_coalesced(insert_result(s, m, i)),
        total_sum(insert_result(s, m, i)) == total_sum(s) + m.spec_total_size(),
{
    let t = insert_result(s, m, i);
    lemma_insert_pre_gaps(s, m, i, lo, hi);
    lemma_extra_size_bounds(m);
    let mr = spec_merge(m, s[i]);
    lemma_merge(m, s[i], hi);
    lemma_sum_update(s, i, mr);
    assert(t == s.update(i, mr));
    assert forall|j: int| 0 <= j < t.len() implies block_wf(#[trigger] t[j], lo, hi) by {
        if j != i {
            assert(t[j] == s[j]);
        }
    }
    assert forall|j: int| 0 <= j && j + 1 < t.len()
        implies (#[trigger] t[j]).spec_end() < t[j + 1].base by {
        if j == i {
            assert(t[j] == mr);
            assert(t[j + 1] == s[j + 1]);
            assert(mr.spec_end() == s[i].spec_end());
        } else if j + 1 == i {
            assert(t[j] == s[j]);
            assert(t[j + 1] == mr);
            assert(s[j].spec_end() <= m.base);
            assert(s[j].spec_end() != m.base);
        } else {
            assert(t[j] == s[j]);
            assert(t[j + 1] == s[j + 1]);
        }
    }
}

#[verifier::rlimit(50)]
proof fn lemma_insert_case_plain(s: Seq<MetaData>, m: MetaData, i: int, lo: int, hi: int)
    requires
        insert_pre(s, m, i, lo, hi),
        !ins_left_adj(s, m, i),
        !ins_right_adj(s, m, i),
    ensures
        blocks_wf(insert_result(s, m, i), lo, hi),
        sorted_coalesced(insert_result(s, m, i)),
        total_sum(insert_result(s, m, i)) == total_sum(s) + m.spec_total_size(),
{
    let t = insert_result(s, m, i);
    lemma_insert_pre_gaps(s, m, i, lo, hi);
    lemma_extra_size_bounds(m);
    lemma_sum_insert(s, i, m);
    assert(t == s.insert(i, m));
    assert forall|j: int| 0 <= j < t.len() implies block_wf(#[trigger] t[j], lo, hi) by {
        if j < i {
            assert(t[j] == s[j]);
        } else if j > i {
            assert(t[j] == s[j - 1]);
        }
    }
    assert forall|j: int| 0 <= j && j + 1 < t.len()
        implies (#[trigger] t[j]).spec_end() < t[j + 1].base by {
        if j + 1 < i {
            assert(t[j] == s[j]);
            assert(t[j + 1] == s[j + 1]);
        } else if j + 1 == i {
            assert(t[j] == s[j]);
            assert(t[j + 1] == m);
            assert(s[j].spec_end() != m.base);
        } else if j == i {
            assert(t[j] == m);
            assert(t[j + 1] == s[i]);
            assert(m.spec_end() != s[i].base);
        } else {
            assert(t[j] == s[j - 1]);
            assert(t[j + 1] == s[j]);
        }
    }
}

/// Inserting an extent at its sorted position and coalescing it with the
/// neighbours it touches keeps the free list well formed, sorted and
/// coalesced, and adds exactly the extent's footprint to the accounted
/// capacity.
pub proof fn lemma_insert_result_props(s: Seq<MetaData>, m: MetaData, i: int, lo: int, hi: int)
    requires
        insert_pre(s, m, i, lo, hi),
    ensures
        blocks_wf(insert_result(s, m, i), lo, hi),
        sorted_coalesced(insert_result(s, m, i)),
        total_sum(insert_result(s, m, i)) == total_sum(s) + m.spec_total_size(),
{
    if ins_left_adj(s, m, i) && ins_right_adj(s, m, i) {
        lemma_insert_case_both(s, m, i, lo, hi);
    } else if ins_left_adj(s, m, i) {
        lemma_insert_case_left(s, m, i, lo, hi);
    } else if ins_right_adj(s, m, i) {
        lemma_insert_case_right(s, m, i, lo, hi);
    } else {
        lemma_insert_case_plain(s, m, i, lo, hi);
    }
}

/// A well-formed extent sequence accounts for at least one byte per
/// member: its footprint sum bounds its length.
pub proof fn lemma_sum_lower(s: Seq<MetaData>, lo: int, hi: int)
    requires
        blocks_wf(s, lo, hi),
    ensures
        total_sum(s) >= s.len(),
    decreases s.len(),
{
    if s.len() > 0 {
        lemma_extra_size_bounds(s[0]);
        assert(blocks_wf(s.drop_first(), lo, hi)) by {
            assert forall|j: int| 0 <= j < s.drop_first().len()
                implies block_wf(#[trigger] s.drop_first()[j], lo, hi) by {
                assert(s.drop_first()[j] == s[j + 1]);
            }
        }
        lemma_sum_lower(s.drop_first(), lo, hi);
    }
}

/// The footprint sum splits at any point of the sequence.
pub proof fn lemma_sum_take_skip(s: Seq<MetaData>, k: int)
    requires
        0 <= k <= s.len(),
    ensures
        total_sum(s) == total_sum(s.take(k)) + total_sum(s.skip(k)),
    decreases k,
{
    if k == 0 {
        assert(s.take(0) =~= Seq::<MetaData>::empty());
        assert(s.skip(0) =~= s);
    } else {
        lemma_sum_take_skip(s.drop_first(), k - 1);
        assert(s.take(k).drop_first() =~= s.drop_first().take(k - 1));
        assert(s.skip(k) =~= s.drop_first().skip(k - 1));
        assert(s.take(k)[0] == s[0]);
    }
}

/// Removing a member from a sorted, coalesced free list keeps it sorted
/// and coalesced, and the removed member stays disjoint from the rest.
pub proof fn lemma_sorted_remove(s: Seq<MetaData>, lo: int, hi: int, idx: int)
    requires
        blocks_wf(s, lo, hi),
        sorted_coalesced(s),
        0 <= idx < s.len(),
    ensures
        blocks_wf(s.remove(idx), lo, hi),
        sorted_coalesced(s.remove(idx)),
        forall|j: int| 0 <= j < s.remove(idx).len()
            ==> blocks_disjoint(#[trigger] s.remove(idx)[j], s[idx]),
        forall|j: int| 0 <= j < idx ==> (#[trigger] s.remove(idx)[j]).base < s[idx].base,
        forall|j: int| idx <= j < s.remove(idx).len()
            ==> s[idx].base < (#[trigger] s.remove(idx)[j]).base,
{
    let t = s.remove(idx);
    assert forall|j: int| 0 <= j < t.len() implies block_wf(#[trigger] t[j], lo, hi)
        && blocks_disjoint(t[j], s[idx])
        && (j < idx ==> t[j].base < s[idx].base)
        && (j >= idx ==> s[idx].base < t[j].base) by {
        if j < idx {
            assert(t[j] == s[j]);
            lemma_sorted_separated(s, lo, hi, j, idx);
            lemma_extra_size_bounds(s[j]);
        } else {
            assert(t[j] == s[j + 1]);
            lemma_sorted_separated(s, lo, hi, idx, j + 1);
            lemma_extra_size_bounds(s[idx]);
        }
    }
    assert forall|j: int| 0 <= j && j + 1 < t.len()
        implies (#[trigger] t[j]).spec_end() < t[j + 1].base by {
        if j + 1 < idx {
            assert(t[j] == s[j]);
            assert(t[j + 1] == s[j + 1]);
        } else if j + 1 == idx {
            assert(t[j] == s[j]);
            assert(t[j + 1] == s[j + 2]);
            lemma_sorted_separated(s, lo, hi, j, j + 2);
        } else {
            assert(t[j] == s[j + 1]);
            assert(t[j + 1] == s[j + 2]);
        }
    }
}

/// After a compatible extent is split, its remainder goes back exactly
/// where the extent was taken out: both its neighbours there are strictly
/// separated from it, so no coalescing fires, and no free extent ends
/// where the handed-out head begins.
proof fn lemma_alloc_insert_shape(
    s1: Seq<MetaData>, idx: int, head: MetaData, rhs: MetaData, g: int, lo: int, hi: int)
    requires
        blocks_wf(s1, lo, hi),
        sorted_coalesced(s1),
        0 <= idx < s1.len(),
        head.base == s1[idx].base,
        head.layout.wf(),
        head.layout.size >= 1,
        rhs.layout.wf(),
        rhs.layout.size >= 1,
        head.spec_total_size() + rhs.spec_total_size() == s1[idx].spec_total_size(),
        rhs.base == s1[idx].base + head.spec_total_size(),
        0 <= g <= s1.remove(idx).len(),
        forall|j: int| 0 <= j < g ==> (#[trigger] s1.remove(idx)[j]).base < rhs.base,
        forall|j: int| g <= j < s1.remove(idx).len()
            ==> rhs.base < (#[trigger] s1.remove(idx)[j]).base,
    ensures
        insert_result(s1.remove(idx), rhs, g) == s1.remove(idx).insert(g, rhs),
        forall|k: int| 0 <= k < s1.remove(idx).insert(g, rhs).len()
            ==> (#[trigger] s1.remove(idx).insert(g, rhs)[k]).spec_end() != head.base,
{
    let b = s1[idx];
    let free2 = s1.remove(idx);
    let t = free2.insert(g, rhs);
    lemma_sorted_remove(s1, lo, hi, idx);
    lemma_extra_size_bounds(b);
    lemma_extra_size_bounds(head);
    lemma_extra_size_bounds(rhs);
    // neither neighbour of the remainder touches it
    assert(!ins_left_adj(free2, rhs, g)) by {
        if g > 0 && free2[g - 1].spec_end() == rhs.base {
            lemma_extra_size_bounds(free2[g - 1]);
            assert(blocks_disjoint(free2[g - 1], b));
        }
    }
    assert(!ins_right_adj(free2, rhs, g)) by {
        if g < free2.len() && rhs.spec_end() == free2[g].base {
            lemma_extra_size_bounds(free2[g]);
            assert(blocks_disjoint(free2[g], b));
            // the right neighbour starts past b's end, strictly
            assert(free2[g].base >= b.spec_end());
            if free2[g].base == b.spec_end() {
                assert(g >= idx);
                assert(free2[g] == s1[g + 1]);
                lemma_sorted_separated(s1, lo, hi, idx, g + 1);
            }
        }
    }
    assert forall|k: int| 0 <= k < t.len()
        implies (#[trigger] t[k]).spec_end() != head.base by {
        if k < g {
            assert(t[k] == free2[k]);
        } else if k == g {
            assert(t[k] == rhs);
        } else {
            assert(t[k] == free2[k - 1]);
        }
        if t[k] != rhs {
            let j = if k < g { k } else { k - 1 };
            assert(t[k] == free2[j]);
            lemma_extra_size_bounds(free2[j]);
            if j < idx {
                assert(free2[j] == s1[j]);
                lemma_sorted_separated(s1, lo, hi, j, idx);
            } else {
                assert(free2[j] == s1[j + 1]);
                lemma_sorted_separated(s1, lo, hi, idx, j + 1);
            }
        }
    }
}

/// Taking the extent at `idx` out of the free list and handing out a
/// head carved at its base leaves the rest of the free list disjoint
/// from the grown handed-out set, keeps that set well formed and
/// pairwise disjoint, and leaves no free extent ending at the head's
/// base.
proof fn lemma_carve_context(
    s1: Seq<MetaData>, idx: int, head: MetaData, l0: Seq<MetaData>, lo: int, hi: int)
    requires
        blocks_wf(s1, lo, hi),
        sorted_coalesced(s1),
        0 <= idx < s1.len(),
        blocks_wf(l0, lo, hi),
        pairwise_disjoint(l0),
        seqs_disjoint(s1, l0),
        head.base == s1[idx].base,
        head.layout.wf(),
        head.layout.size >= 1,
        head.spec_total_size() <= s1[idx].spec_total_size(),
    ensures
        blocks_wf(l0.push(head), lo, hi),
        pairwise_disjoint(l0.push(head)),
        seqs_disjoint(s1.remove(idx), l0.push(head)),
        forall|k: int| 0 <= k < s1.remove(idx).len()
            ==> (#[trigger] s1.remove(idx)[k]).spec_end() != head.base,
{
    let free2 = s1.remove(idx);
    let lp = l0.push(head);
    lemma_sorted_remove(s1, lo, hi, idx);
    lemma_extra_size_bounds(s1[idx]);
    lemma_extra_size_bounds(head);
    assert(block_wf(head, lo, hi));
    assert forall|y: int| 0 <= y < lp.len() implies block_wf(#[trigger] lp[y], lo, hi) by {
        if y < l0.len() {
            assert(lp[y] == l0[y]);
        } else {
            assert(lp[y] == head);
        }
    }
    assert forall|x: int, y: int| 0 <= x < lp.len() && 0 <= y < lp.len() && x != y
        implies blocks_disjoint(#[trigger] lp[x], #[trigger] lp[y]) by {
        if x < l0.len() && y < l0.len() {
            assert(lp[x] == l0[x]);
            assert(lp[y] == l0[y]);
        } else if x < l0.len() {
            assert(lp[y] == head);
            assert(lp[x] == l0[x]);
            assert(blocks_disjoint(s1[idx], l0[x]));
        } else {
            assert(lp[x] == head);
            assert(lp[y] == l0[y]);
            assert(blocks_disjoint(s1[idx], l0[y]));
        }
    }
    assert forall|x: int, y: int| 0 <= x < free2.len() && 0 <= y < lp.len()
        implies blocks_disjoint(#[trigger] free2[x], #[trigger] lp[y]) by {
        let x0: int = if x < idx { x } else { x + 1 };
        assert(free2[x] == s1[x0]);
        lemma_extra_size_bounds(free2[x]);
        if y < l0.len() {
            assert(lp[y] == l0[y]);
            assert(blocks_disjoint(s1[x0], l0[y]));
        } else {
            assert(lp[y] == head);
            assert(blocks_disjoint(free2[x], s1[idx]));
        }
    }
    assert forall|k: int| 0 <= k < free2.len()
        implies (#[trigger] free2[k]).spec_end() != head.base by {
        lemma_extra_size_bounds(free2[k]);
        if k < idx {
            assert(free2[k] == s1[k]);
            lemma_sorted_separated(s1, lo, hi, k, idx);
        } else {
            assert(free2[k] == s1[k + 1]);
            lemma_sorted_separated(s1, lo, hi, idx, k + 1);
        }
    }
}

/// An extent disjoint from two adjacent extents is disjoint from their
/// merge: nothing fits in the zero-width seam between them.
proof fn lemma_merge_keeps_disjoint(a: MetaData, b: MetaData, c: MetaData, hi: int)
    requires
        a.layout.wf(),
        b.layout.wf(),
        a.layout.size >= 1,
        a.spec_end() == b.base,
        b.spec_end() <= hi,
        hi <= usize::MAX as int / 2,
        c.layout.wf(),
        c.layout.size >= 1,
        blocks_disjoint(a, c),
        blocks_disjoint(b, c),
    ensures
        blocks_disjoint(spec_merge(a, b), c),
{
    lemma_merge(a, b, hi);
    lemma_extra_size_bounds(a);
    lemma_extra_size_bounds(b);
    lemma_extra_size_bounds(c);
}

/// Inserting and coalescing a free extent that is disjoint from every
/// member of another family keeps the whole free list disjoint from that
/// family.
proof fn lemma_insert_keeps_seqs_disjoint(
    s: Seq<MetaData>, m: MetaData, i: int, other: Seq<MetaData>, lo: int, hi: int)
    requires
        insert_pre(s, m, i, lo, hi),
        blocks_wf(other, lo, hi),
        seqs_disjoint(s, other),
        forall|j: int| 0 <= j < other.len() ==> blocks_disjoint(m, #[trigger] other[j]),
    ensures
        seqs_disjoint(insert_result(s, m, i), other),
{
    let t = insert_result(s, m, i);
    assert forall|k: int, j: int| 0 <= k < t.len() && 0 <= j < other.len()
        implies blocks_disjoint(#[trigger] t[k], #[trigger] other[j]) by {
        if ins_left_adj(s, m, i) && ins_right_adj(s, m, i) {
            lemma_merge(s[i - 1], m, hi);
            if k < i - 1 {
                assert(t[k] == s[k]);
            } else if k == i - 1 {
                assert(t[k] == spec_merge(spec_merge(s[i - 1], m), s[i]));
                lemma_merge_keeps_disjoint(s[i - 1], m, other[j], hi);
                lemma_merge_keeps_disjoint(spec_merge(s[i - 1], m), s[i], other[j], hi);
            } else {
                assert(t[k] == s[k + 1]);
            }
        } else if ins_left_adj(s, m, i) {
            if k == i - 1 {
                assert(t[k] == spec_merge(s[i - 1], m));
                lemma_merge_keeps_disjoint(s[i - 1], m, other[j], hi);
            } else {
                assert(t[k] == s[k]);
            }
        } else if ins_right_adj(s, m, i) {
            if k == i {
                assert(t[k] == spec_merge(m, s[i]));
                lemma_extra_size_bounds(m);
                lemma_merge_keeps_disjoint(m, s[i], other[j], hi);
            } else {
                assert(t[k] == s[k]);
            }
        } else {
            if k < i {
                assert(t[k] == s[k]);
            } else if k == i {
                assert(t[k] == m);
            } else {
                assert(t[k] == s[k - 1]);
            }
        }
    }
}

/// The allocator's state: the sorted free list, the extents currently
/// handed out (in real memory these descriptors live inside the extents
/// themselves, right before each payload), and the backing store.
pub struct MetaAllocInner {
    /// All currently free extents, ascending by base address.
    pub list: LinkedDeque<MetaData>,
    /// Descriptors of the extents currently handed out, recoverable from
    /// their payload addresses.
    pub live: Vec<MetaData>,
    /// The page supply this allocator draws from.
    pub heap: FakeHeap,
}

impl MetaAllocInner {
    pub open spec fn free_seq(self) -> Seq<MetaData> {
        self.list@
    }

    pub open spec fn live_seq(self) -> Seq<MetaData> {
        self.live@
    }

    /// First address past the memory obtained from the backing store.
    pub open spec fn managed_end(self) -> int {
        self.heap.base + self.heap.current_top
    }

    /// The allocator's full invariant: all extents well formed and inside
    /// the obtained memory, the free list sorted and coalesced, live
    /// extents mutually disjoint and disjoint from every free extent, and
    /// no byte obtained from the backing store unaccounted for.
    pub open spec fn wf(self) -> bool {
        &&& self.heap.wf()
        &&& blocks_wf(self.free_seq(), self.heap.base as int, self.managed_end())
        &&& blocks_wf(self.live_seq(), self.heap.base as int, self.managed_end())
        &&& sorted_coalesced(self.free_seq())
        &&& pairwise_disjoint(self.live_seq())
        &&& seqs_disjoint(self.free_seq(), self.live_seq())
        &&& total_sum(self.free_seq()) + total_sum(self.live_seq())
            == self.heap.current_top
    }

    /// Re-links a free extent into the sorted free list and merges it
    /// with any address-adjacent neighbour.  Returns (as ghost data) the
    /// position in the old list before which `m` belonged.
    fn insert_free(&mut self, m: MetaData) -> (g: Ghost<int>)
        requires
            old(self).heap.wf(),
            blocks_wf(
                old(self).free_seq(), old(self).heap.base as int, old(self).managed_end()),
            sorted_coalesced(old(self).free_seq()),
            block_wf(m, old(self).heap.base as int, old(self).managed_end()),
            forall|j: int| 0 <= j < old(self).free_seq().len()
                ==> blocks_disjoint(#[trigger] old(self).free_seq()[j], m),
            old(self).free_seq().len() < usize::MAX,
        ensures
            final(self).heap == old(self).heap,
            final(self).live == old(self).live,
            0 <= g@ <= old(self).free_seq().len(),
            forall|j: int| 0 <= j < g@ ==> (#[trigger] old(self).free_seq()[j]).base < m.base,
            forall|j: int| g@ <= j < old(self).free_seq().len()
                ==> m.base < (#[trigger] old(self).free_seq()[j]).base,
            final(self).free_seq() == insert_result(old(self).free_seq(), m, g@),
            blocks_wf(
                final(self).free_seq(), old(self).heap.base as int, old(self).managed_end()),
            sorted_coalesced(final(self).free_seq()),
            total_sum(final(self).free_seq())
                == total_sum(old(self).free_seq()) + m.spec_total_size(),
    {
        proof {
            lemma_extra_size_bounds(m);
        }
        let ghost s0 = self.free_seq();
        let ghost h0 = self.heap;
        let ghost lo = self.heap.base as int;
        let ghost hi = self.managed_end();
        if self.list.empty() {
            self.list.push_front(Node::new(m));
            proof {
                assert(self.free_seq() =~= s0.insert(0, m));
                lemma_insert_result_props(s0, m, 0, lo, hi);
            }
            return Ghost(0);
        }
        let m_total = m.total_size();
        let m_end = m.base + m_total;
        let len_now = self.list.len();
        let mut cursor = self.list.cursor_mut();
        cursor.move_next(&self.list);
        let ghost mut pos: int = 0;
        loop
            invariant
                self.list@ == s0,
                self.heap == h0,
                s0.len() > 0,
                s0.len() == len_now,
                blocks_wf(s0, lo, hi),
                block_wf(m, lo, hi),
                m_total == m.spec_total_size(),
                m_end == m.spec_end(),
                forall|j: int| 0 <= j < s0.len()
                    ==> blocks_disjoint(#[trigger] s0[j], m),
                cursor.valid(s0.len()),
                match cursor.index {
                    Some(k) => k == pos,
                    None => pos == s0.len(),
                },
                match cursor.index {
                    Some(k) => forall|j: int| 0 <= j < k
                        ==> (#[trigger] s0[j]).base < m.base,
                    None => forall|j: int| 0 <= j < s0.len()
                        ==> (#[trigger] s0[j]).base < m.base,
                },
            ensures
                self.list@ == s0,
                cursor.valid(s0.len()),
                match cursor.index {
                    Some(k) => {
                        &&& m.base < s0[k as int].base
                        &&& forall|j: int| 0 <= j < k
                            ==> (#[trigger] s0[j]).base < m.base
                    },
                    None => forall|j: int| 0 <= j < s0.len()
                        ==> (#[trigger] s0[j]).base < m.base,
                },
            decreases s0.len() - pos,
        {
            match cursor.current(&self.list) {
                None => {
                    break;
                },
                Some(cur) => {
                    if cur.base > m.base {
                        break;
                    }
                    proof {
                        let k = cursor.index->Some_0 as int;
                        // cur sits below m and they are disjoint, so cur
                        // ends at or before m starts
                        lemma_extra_size_bounds(s0[k]);
                        lemma_extra_size_bounds(m);
                        assert(s0[k].base < m.base);
                    }
                },
            }
            cursor.move_next(&self.list);
            proof {
                pos = pos + 1;
            }
        }
        match cursor.index() {
            None => {
                // append behind the last extent
                let ghost i = s0.len() as int;
                let left = *cursor.peek_previous(&self.list).unwrap();
                proof {
                    assert(left == s0[i - 1]);
                    lemma_extra_size_bounds(left);
                }
                if left.base + left.total_size() == m.base {
                    proof {
                        lemma_merge(left, m, hi);
                    }
                    let merged = MetaData {
                        base: left.base,
                        layout: Layout {
                            size: left.layout.size + m_total,
                            align: left.layout.align,
                        },
                    };
                    cursor.move_prev(&self.list);
                    cursor.set_current(&mut self.list, merged);
                    proof {
                        assert(merged == spec_merge(left, m));
                        assert(self.free_seq() == insert_result(s0, m, i));
                        lemma_insert_result_props(s0, m, i, lo, hi);
                    }
                    Ghost(i)
                } else {
                    self.list.push_back(Node::new(m));
                    proof {
                        assert(self.free_seq() =~= s0.insert(i, m));
                        assert(!ins_left_adj(s0, m, i) && !ins_right_adj(s0, m, i));
                        lemma_insert_result_props(s0, m, i, lo, hi);
                    }
                    Ghost(i)
                }
            },
            Some(iu) => {
                let ghost i = iu as int;
                proof {
                    assert forall|j: int| i <= j < s0.len()
                        implies m.base < (#[trigger] s0[j]).base by {
                        if j > i {
                            lemma_sorted_separated(s0, lo, hi, i, j);
                            lemma_extra_size_bounds(s0[i]);
                        }
                    }
                }
                let right = *cursor.current(&self.list).unwrap();
                proof {
                    assert(right == s0[i]);
                    lemma_extra_size_bounds(right);
                    // m sits strictly below right and disjoint from it
                    assert(m.spec_end() <= right.base);
                }
                let right_adj = m_end == right.base;
                let mut left_adj = false;
                let mut left = m;
                if iu > 0 {
                    left = *cursor.peek_previous(&self.list).unwrap();
                    proof {
                        assert(left == s0[i - 1]);
                        lemma_extra_size_bounds(left);
                        assert(left.spec_end() <= m.base);
                    }
                    left_adj = left.base + left.total_size() == m.base;
                }
                proof {
                    assert(left_adj == ins_left_adj(s0, m, i));
                    assert(right_adj == ins_right_adj(s0, m, i));
                }
                if left_adj && right_adj {
                    proof {
                        lemma_merge(left, m, hi);
                        lemma_merge(spec_merge(left, m), right, hi);
                    }
                    let inner = MetaData {
                        base: left.base,
                        layout: Layout {
                            size: left.layout.size + m_total,
                            align: left.layout.align,
                        },
                    };
                    let both = MetaData {
                        base: inner.base,
                        layout: Layout {
                            size: inner.layout.size + right.total_size(),
                            align: inner.layout.align,
                        },
                    };
                    cursor.move_prev(&self.list);
                    cursor.set_current(&mut self.list, both);
                    cursor.move_next(&self.list);
                    cursor.remove(&mut self.list);
                    proof {
                        assert(inner == spec_merge(left, m));
                        assert(both == spec_merge(spec_merge(left, m), right));
                        assert(self.free_seq() == insert_result(s0, m, i));
                        lemma_insert_result_props(s0, m, i, lo, hi);
                    }
                    Ghost(i)
                } else if left_adj {
                    proof {
                        lemma_merge(left, m, hi);
                    }
                    let merged = MetaData {
                        base: left.base,
                        layout: Layout {
                            size: left.layout.size + m_total,
                            align: left.layout.align,
                        },
                    };
                    cursor.move_prev(&self.list);
                    cursor.set_current(&mut self.list, merged);
                    proof {
                        assert(merged == spec_merge(left, m));
                        assert(self.free_seq() == insert_result(s0, m, i));
                        lemma_insert_result_props(s0, m, i, lo, hi);
                    }
                    Ghost(i)
                } else if right_adj {
                    proof {
                        lemma_merge(m, right, hi);
                    }
                    let merged = MetaData {
                        base: m.base,
                        layout: Layout {
                            size: m.layout.size + right.total_size(),
                            align: m.layout.align,
                        },
                    };
                    cursor.set_current(&mut self.list, merged);
                    proof {
                        assert(merged == spec_merge(m, right));
                        assert(self.free_seq() == insert_result(s0, m, i));
                        lemma_insert_result_props(s0, m, i, lo, hi);
                    }
                    Ghost(i)
                } else {
                    cursor.insert_before(&mut self.list, Node::new(m));
                    proof {
                        assert(self.free_seq() == insert_result(s0, m, i));
                        lemma_insert_result_props(s0, m, i, lo, hi);
                    }
                    Ghost(i)
                }
            },
        }
    }

    /// Requests one page from the backing store and feeds it into the
    /// free list (coalescing it with an adjacent extent when the store
    /// hands out contiguous pages).  False exactly when the arena is
    /// exhausted, in which case nothing changes.
    fn try_add_page(&mut self) -> (r: bool)
        requires
            old(self).wf(),
        ensures
            final(self).wf(),
            final(self).live == old(self).live,
            final(self).heap.base == old(self).heap.base,
            final(self).heap.capacity == old(self).heap.capacity,
            r ==> final(self).heap.current_top
                == old(self).heap.current_top + PAGE_SIZE,
            !r ==> *final(self) == *old(self)
                && old(self).heap.current_top == old(self).heap.capacity,
    {
        let ghost s0 = self.free_seq();
        let ghost l0 = self.live_seq();
        let ghost lo = self.heap.base as int;
        let ghost hi_old = self.managed_end();
        let pg = match self.heap.get_page() {
            None => {
                return false;
            },
            Some(p) => p,
        };
        let ghost hi = self.managed_end();
        proof {
            // a page-aligned base needs no padding before its record
            assert(is_pow2(NODE_ALIGN as nat)) by {
                reveal_with_fuel(is_pow2, 5);
            }
            lemma_mod_multiple_trans(pg as int, NODE_ALIGN as int, PAGE_SIZE as int);
            lemma_align_offset(pg as int, NODE_ALIGN as int);
            lemma_round_up(NODE_SIZE as int, NODE_ALIGN as int);
            assert(MetaData::spec_default_meta_offset(pg as int) == 0);
        }
        let meta = MetaData::new_blank(pg, PAGE_SIZE);
        proof {
            assert(meta.spec_end() == hi);
            assert(block_wf(meta, lo, hi));
            // everything known so far ends at or below the fresh page
            assert forall|j: int| 0 <= j < s0.len()
                implies block_wf(#[trigger] s0[j], lo, hi)
                    && blocks_disjoint(s0[j], meta) by {
                assert(s0[j].spec_end() <= hi_old);
            }
            assert forall|j: int| 0 <= j < l0.len()
                implies block_wf(#[trigger] l0[j], lo, hi) by {
                assert(l0[j].spec_end() <= hi_old);
            }
            lemma_sum_lower(s0, lo, hi);
            lemma_sum_lower(l0, lo, hi);
        }
        let g = self.insert_free(meta);
        proof {
            lemma_insert_keeps_seqs_disjoint(s0, meta, g@, l0, lo, hi);
        }
        true
    }

    /// Serves one allocation request: scans the sorted free list for the
    /// first compatible extent, splits it, hands out the head's payload
    /// address and returns any remainder to the free list; when nothing
    /// fits, grows by one page and retries.  `None` exactly when the
    /// backing store is exhausted and no free extent can serve the
    /// request.
    #[verifier::rlimit(60)]
    #[verifier::spinoff_prover]
    pub fn allocate(&mut self, layout: Layout) -> (r: Option<usize>)
        requires
            old(self).wf(),
            layout.wf(),
            layout.size >= 1,
        ensures
            final(self).wf(),
            final(self).heap.base == old(self).heap.base,
            final(self).heap.capacity == old(self).heap.capacity,
            final(self).heap.current_top >= old(self).heap.current_top,
            match r {
                Some(a) => {
                    &&& final(self).live_seq().len() == old(self).live_seq().len() + 1
                    &&& final(self).live_seq()
                        == old(self).live_seq().push(final(self).live_seq().last())
                    &&& a == final(self).live_seq().last().spec_data_location()
                    &&& a as int % layout.align as int == 0
                    &&& final(self).live_seq().last().layout.align == layout.align
                    &&& final(self).live_seq().last().layout.size >= layout.size
                    &&& a + layout.size <= final(self).live_seq().last().spec_end()
                    &&& forall|j: int| 0 <= j < final(self).free_seq().len()
                        ==> (#[trigger] final(self).free_seq()[j]).spec_end()
                            != final(self).live_seq().last().base
                },
                None => {
                    &&& final(self).live_seq() == old(self).live_seq()
                    &&& final(self).heap.current_top == final(self).heap.capacity
                    &&& forall|j: int| 0 <= j < final(self).free_seq().len()
                        ==> !(#[trigger] final(self).free_seq()[j]).spec_compatible(layout)
                },
            },
            (exists|j: int| 0 <= j < old(self).free_seq().len()
                && (#[trigger] old(self).free_seq()[j]).spec_compatible(layout))
                ==> r is Some,
            (exists|j: int| 0 <= j < old(self).free_seq().len()
                && (#[trigger] old(self).free_seq()[j]).spec_compatible(layout))
                ==> final(self).heap == old(self).heap,
            (exists|j: int| 0 <= j < old(self).free_seq().len()
                && (#[trigger] old(self).free_seq()[j]).spec_compatible(layout))
                ==> (exists|idx: int| {
                    &&& 0 <= idx < old(self).free_seq().len()
                    &&& (#[trigger] old(self).free_seq()[idx]).spec_compatible(layout)
                    &&& (forall|j: int| 0 <= j < idx
                        ==> !(#[trigger] old(self).free_seq()[j]).spec_compatible(layout))
                    &&& final(self).live_seq().last().base
                        == old(self).free_seq()[idx].base
                    &&& ({
                        let b = old(self).free_seq()[idx];
                        let probe = MetaData { base: b.base, layout };
                        let slack = b.spec_total_size() - probe.spec_total_size();
                        let floor = MetaData::spec_default_meta_offset(
                            b.base + probe.spec_total_size()) + NODE_SIZE;
                        if slack > floor {
                            exists|rem: MetaData| {
                                &&& final(self).free_seq() == old(self).free_seq()
                                    .remove(idx).insert(idx, rem)
                                &&& (#[trigger] rem.spec_total_size()) == slack
                                &&& rem.base == b.base + probe.spec_total_size()
                                &&& rem.layout.align == NODE_ALIGN
                                &&& final(self).live_seq().last() == probe
                            }
                        } else {
                            &&& final(self).free_seq()
                                == old(self).free_seq().remove(idx)
                            &&& final(self).live_seq().last() == (MetaData {
                                base: b.base,
                                layout: Layout {
                                    size: (layout.size + slack) as usize,
                                    align: layout.align,
                                },
                            })
                        }
                    })
                }),
        decreases old(self).heap.capacity - old(self).heap.current_top,
    {
        if self.list.empty() {
            if !self.try_add_page() {
                return None;
            }
        }
        let ghost s1 = self.free_seq();
        let ghost l0 = self.live_seq();
        let ghost h1 = self.heap;
        let ghost lo = self.heap.base as int;
        let ghost hi = self.managed_end();
        let len_now = self.list.len();
        let mut cursor = self.list.cursor_mut();
        cursor.move_next(&self.list);
        let ghost mut pos: int = 0;
        loop
            invariant
                self.wf(),
                self.list@ == s1,
                self.live@ == l0,
                self.heap == h1,
                l0 == old(self).live_seq(),
                old(self).free_seq().len() > 0
                    ==> s1 == old(self).free_seq() && h1 == old(self).heap,
                h1.base == old(self).heap.base,
                h1.capacity == old(self).heap.capacity,
                h1.current_top >= old(self).heap.current_top,
                lo == h1.base as int,
                hi == h1.base + h1.current_top,
                layout.wf(),
                layout.size >= 1,
                s1.len() == len_now,
                cursor.valid(s1.len()),
                match cursor.index {
                    Some(k) => k == pos,
                    None => pos == s1.len(),
                },
                forall|j: int| 0 <= j < pos
                    ==> !(#[trigger] s1[j]).spec_compatible(layout),
            ensures
                self.list@ == s1,
                self.live@ == l0,
                self.heap == h1,
                forall|j: int| 0 <= j < s1.len()
                    ==> !(#[trigger] s1[j]).spec_compatible(layout),
            decreases s1.len() - pos,
        {
            let mut compatible = false;
            match cursor.current(&self.list) {
                None => {
                    break;
                },
                Some(cur) => {
                    proof {
                        assert(block_wf(s1[pos], lo, hi));
                        lemma_extra_size_bounds(s1[pos]);
                    }
                    compatible = cur.check_compatible(&layout);
                },
            }
            if compatible {
                let ghost idx = pos;
                let node = cursor.remove(&mut self.list).unwrap();
                let b = *node.elem();
                proof {
                    assert(b == s1[idx]);
                    assert(self.list@ == s1.remove(idx));
                    lemma_sorted_remove(s1, lo, hi, idx);
                    lemma_sum_remove(s1, idx);
                    lemma_extra_size_bounds(b);
                }
                let (head, rem) = node_split(b, layout);
                let ghost free2 = self.free_seq();
                self.live.push(head);
                proof {
                    lemma_extra_size_bounds(head);
                    lemma_sum_push(l0, head);
                    assert(self.live_seq() == l0.push(head));
                }
                match rem {
                    None => {
                        proof {
                            // no remainder: the free list simply lost b,
                            // and the head absorbed b's whole footprint
                            lemma_carve_context(s1, idx, head, l0, lo, hi);
                            assert(head.layout.size
                                == layout.size + (b.spec_total_size()
                                    - (MetaData { base: b.base, layout }).spec_total_size()));
                        }
                    },
                    Some(rhs) => {
                        proof {
                            lemma_extra_size_bounds(rhs);
                            assert(block_wf(rhs, lo, hi));
                            assert forall|j: int| 0 <= j < free2.len()
                                implies blocks_disjoint(#[trigger] free2[j], rhs) by {
                                assert(blocks_disjoint(free2[j], b));
                                lemma_extra_size_bounds(free2[j]);
                            }
                            lemma_sum_lower(free2, lo, hi);
                            lemma_sum_lower(l0, lo, hi);
                        }
                        let g = self.insert_free(rhs);
                        proof {
                            lemma_alloc_insert_shape(s1, idx, head, rhs, g@, lo, hi);
                            assert(self.free_seq() == free2.insert(g@, rhs));
                            lemma_carve_context(s1, idx, head, l0, lo, hi);
                            // the remainder sits inside b, past the head
                            assert forall|y: int| 0 <= y < l0.push(head).len()
                                implies blocks_disjoint(rhs, #[trigger] l0.push(head)[y]) by {
                                if y < l0.len() {
                                    assert(l0.push(head)[y] == l0[y]);
                                    assert(blocks_disjoint(b, l0[y]));
                                } else {
                                    assert(l0.push(head)[y] == head);
                                }
                            }
                            lemma_insert_keeps_seqs_disjoint(
                                free2, rhs, g@, l0.push(head), lo, hi);
                            // the remainder goes back exactly where b was
                            // taken out
                            assert(g@ == idx) by {
                                if g@ < idx {
                                    assert(free2[g@] == s1[g@]);
                                    lemma_sorted_separated(s1, lo, hi, g@, idx);
                                    assert(rhs.base < free2[g@].base);
                                } else if g@ > idx {
                                    assert(free2[idx] == s1[idx + 1]);
                                    assert(free2[idx].base < rhs.base);
                                }
                            }
                            assert(self.free_seq() == s1.remove(idx).insert(idx, rhs));
                            // the head is the probe itself, so the
                            // remainder's footprint is exactly the slack
                            assert(head == (MetaData { base: b.base, layout }));
                            assert(rhs.spec_total_size() == b.spec_total_size()
                                - (MetaData { base: b.base, layout }).spec_total_size());
                        }
                    },
                }
                let a = head.data_location();
                proof {
                    assert(self.live_seq().last() == head);
                    assert(a + layout.size <= head.spec_end());
                    // under the success hypothesis the scan ran over the
                    // caller's own free list, so the block taken is its
                    // first compatible member and the resulting shape is
                    // fully determined
                    if exists|j: int| 0 <= j < old(self).free_seq().len()
                        && (#[trigger] old(self).free_seq()[j]).spec_compatible(layout) {
                        assert(old(self).free_seq().len() > 0);
                        assert(s1 == old(self).free_seq());
                        assert(old(self).free_seq()[idx].spec_compatible(layout));
                        assert(forall|j: int| 0 <= j < idx
                            ==> !(#[trigger] old(self).free_seq()[j]).spec_compatible(layout));
                        assert(self.live_seq().last().base == old(self).free_seq()[idx].base);
                        let probe = MetaData { base: b.base, layout };
                        let slack = b.spec_total_size() - probe.spec_total_size();
                        let floor = MetaData::spec_default_meta_offset(
                            b.base + probe.spec_total_size()) + NODE_SIZE;
                        if rem is Some {
                            let rhs2 = rem->Some_0;
                            assert(slack > floor);
                            assert(self.free_seq() == s1.remove(idx).insert(idx, rhs2));
                            assert(rhs2.spec_total_size() == slack);
                            assert(rhs2.base == b.base + probe.spec_total_size());
                            assert(rhs2.layout.align == NODE_ALIGN);
                            assert(self.live_seq().last() == probe);
                        } else {
                            assert(slack <= floor);
                            assert(self.free_seq() == s1.remove(idx));
                            assert(head.layout.size == layout.size + slack);
                            assert(self.live_seq().last() == (MetaData {
                                base: b.base,
                                layout: Layout {
                                    size: (layout.size + slack) as usize,
                                    align: layout.align,
                                },
                            }));
                        }
                    }
                }
                return Some(a);
            }
            cursor.move_next(&self.list);
            proof {
                pos = pos + 1;
            }
        }
        if !self.try_add_page() {
            return None;
        }
        self.allocate(layout)
    }

    /// Releases the extent whose payload starts at `ptr`: recovers its
    /// descriptor, unlinks it from the handed-out set, re-links it into
    /// the sorted free list, and merges it with any address-adjacent
    /// neighbour.  `ptr` must come from an allocation not yet released;
    /// the layout argument is not consulted (the stored descriptor is).
    pub fn deallocate(&mut self, ptr: usize, _layout: Layout)
        requires
            old(self).wf(),
            exists|i: int| 0 <= i < old(self).live_seq().len()
                && (#[trigger] old(self).live_seq()[i]).spec_data_location() == ptr,
        ensures
            final(self).wf(),
            final(self).heap == old(self).heap,
            exists|i: int| {
                &&& 0 <= i < old(self).live_seq().len()
                &&& (#[trigger] old(self).live_seq()[i]).spec_data_location() == ptr
                &&& final(self).live_seq() == old(self).live_seq().remove(i)
                &&& total_sum(final(self).free_seq())
                    == total_sum(old(self).free_seq())
                        + old(self).live_seq()[i].spec_total_size()
                &&& (exists|p: int| {
                    &&& 0 <= p <= old(self).free_seq().len()
                    &&& (forall|j: int| 0 <= j < p
                        ==> (#[trigger] old(self).free_seq()[j]).base
                            < old(self).live_seq()[i].base)
                    &&& (forall|j: int| p <= j < old(self).free_seq().len()
                        ==> old(self).live_seq()[i].base
                            < (#[trigger] old(self).free_seq()[j]).base)
                    &&& final(self).free_seq()
                        == insert_result(old(self).free_seq(), old(self).live_seq()[i], p)
                })
                &&& ((forall|j: int| 0 <= j < old(self).free_seq().len()
                        ==> (#[trigger] old(self).free_seq()[j]).spec_end()
                            != old(self).live_seq()[i].base)
                    ==> (exists|k: int| {
                        &&& 0 <= k < final(self).free_seq().len()
                        &&& (#[trigger] final(self).free_seq()[k]).base
                            == old(self).live_seq()[i].base
                        &&& final(self).free_seq()[k].spec_total_size()
                            >= old(self).live_seq()[i].spec_total_size()
                        &&& final(self).free_seq()[k].layout.align
                            == old(self).live_seq()[i].layout.align
                    }))
            },
    {
        let ghost l0 = self.live_seq();
        let ghost s0 = self.free_seq();
        let ghost h0 = self.heap;
        let ghost lo = self.heap.base as int;
        let ghost hi = self.managed_end();
        let live_len = self.live.len();
        let mut idx: usize = 0;
        loop
            invariant
                self.live@ == l0,
                self.list@ == s0,
                self.heap == h0,
                blocks_wf(l0, lo, hi),
                hi <= usize::MAX as int / 2,
                live_len == l0.len(),
                idx <= l0.len(),
                exists|i: int| idx <= i < l0.len()
                    && (#[trigger] l0[i]).spec_data_location() == ptr,
            ensures
                self.live@ == l0,
                self.list@ == s0,
                self.heap == h0,
                idx < l0.len(),
                l0[idx as int].spec_data_location() == ptr,
            decreases l0.len() - idx,
        {
            let m = self.live[idx];
            proof {
                lemma_extra_size_bounds(m);
            }
            if m.data_location() == ptr {
                break;
            }
            idx = idx + 1;
            proof {
                let w = choose|i: int| (idx - 1) <= i < l0.len()
                    && (#[trigger] l0[i]).spec_data_location() == ptr;
                assert(w >= idx);
            }
        }
        let m = self.live.remove(idx);
        proof {
            assert(m == l0[idx as int]);
            lemma_extra_size_bounds(m);
            lemma_sum_lower(s0, lo, hi);
            lemma_sum_lower(l0, lo, hi);
            lemma_sum_remove(l0, idx as int);
            assert forall|j: int| 0 <= j < s0.len()
                implies blocks_disjoint(#[trigger] s0[j], m) by {
                assert(blocks_disjoint(s0[j], l0[idx as int]));
            }
        }
        let g = self.insert_free(m);
        proof {
            let l1 = self.live_seq();
            assert(l1 == l0.remove(idx as int));
            let s1 = self.free_seq();
            assert forall|j: int| 0 <= j < l1.len()
                implies block_wf(#[trigger] l1[j], lo, hi)
                    && blocks_disjoint(m, l1[j]) by {
                if j < idx {
                    assert(l1[j] == l0[j]);
                    assert(blocks_disjoint(l0[idx as int], l0[j]));
                } else {
                    assert(l1[j] == l0[j + 1]);
                    assert(blocks_disjoint(l0[idx as int], l0[j + 1]));
                }
            }
            assert forall|x: int, y: int|
                0 <= x < l1.len() && 0 <= y < l1.len() && x != y
                implies blocks_disjoint(#[trigger] l1[x], #[trigger] l1[y]) by {
                let x0: int = if x < idx { x } else { x + 1 };
                let y0: int = if y < idx { y } else { y + 1 };
                assert(l1[x] == l0[x0] && l1[y] == l0[y0]);
                assert(blocks_disjoint(l0[x0], l0[y0]));
            }
            assert(seqs_disjoint(s0, l1)) by {
                assert forall|x: int, y: int|
                    0 <= x < s0.len() && 0 <= y < l1.len()
                    implies blocks_disjoint(#[trigger] s0[x], #[trigger] l1[y]) by {
                    let y0: int = if y < idx { y } else { y + 1 };
                    assert(l1[y] == l0[y0]);
                    assert(blocks_disjoint(s0[x], l0[y0]));
                }
            }
            lemma_insert_keeps_seqs_disjoint(s0, m, g@, l1, lo, hi);
            // when nothing free ended where m begins, a free extent now
            // starts exactly at m's base and is at least as large
            if forall|j: int| 0 <= j < s0.len()
                ==> (#[trigger] s0[j]).spec_end() != m.base {
                assert(!ins_left_adj(s0, m, g@));
                if ins_right_adj(s0, m, g@) {
                    lemma_merge(m, s0[g@], hi);
                    lemma_extra_size_bounds(s0[g@]);
                    assert(s1[g@] == spec_merge(m, s0[g@]));
                    assert(s1[g@].base == m.base
                        && s1[g@].spec_total_size() >= m.spec_total_size()
                        && s1[g@].layout.align == m.layout.align);
                } else {
                    assert(s1[g@] == m);
                }
                assert(0 <= g@ < s1.len()
                    && s1[g@].base == m.base
                    && s1[g@].spec_total_size() >= m.spec_total_size()
                    && s1[g@].layout.align == m.layout.align);
            }
            assert(0 <= idx < l0.len() && l0[idx as int].spec_data_location() == ptr
                && final(self).live_seq() == l0.remove(idx as int)
                && total_sum(final(self).free_seq())
                    == total_sum(s0) + l0[idx as int].spec_total_size());
            assert(0 <= g@ <= s0.len()
                && (forall|j: int| 0 <= j < g@ ==> (#[trigger] s0[j]).base < m.base)
                && (forall|j: int| g@ <= j < s0.len()
                    ==> m.base < (#[trigger] s0[j]).base)
                && final(self).free_seq() == insert_result(s0, m, g@));
        }
    }
}

/// The allocator as handed to its owner: the engine state for one arena.
/// It is meant to sit behind a single mutual-exclusion lock when it
/// serves several threads; that lock, and registration as a process-wide
/// backend, are glue outside this crate, which owns the decisions.
pub struct MetaAlloc {
    /// The engine: free list, handed-out extents and page supply.
    pub inner: MetaAllocInner,
}

impl MetaAlloc {
    pub open spec fn wf(self) -> bool {
        self.inner.wf()
    }

    /// A fresh allocator over an explicitly owned arena: `heap_base` is
    /// the page-aligned, non-zero address where the backing store's pages
    /// will start, `heap_capacity` the arena's size in whole pages.
    pub fn new(heap_base: usize, heap_capacity: usize) -> (a: Self)
        requires
            heap_base % PAGE_SIZE == 0,
            heap_base > 0,
            heap_capacity % PAGE_SIZE == 0,
            heap_base + heap_capacity <= usize::MAX as int / 2,
        ensures
            a.wf(),
            a.inner.free_seq().len() == 0,
            a.inner.live_seq().len() == 0,
            a.inner.heap.base == heap_base,
            a.inner.heap.capacity == heap_capacity,
            a.inner.heap.current_top == 0,
    {
        MetaAlloc {
            inner: MetaAllocInner {
                list: LinkedDeque::default(),
                live: Vec::new(),
                heap: FakeHeap::new(heap_base, heap_capacity),
            },
        }
    }

    /// See `MetaAllocInner::allocate`: first-fit search over the sorted
    /// free list, split, grow-and-retry; the returned address is aligned
    /// as requested and its extent disjoint from every other outstanding
    /// allocation.
    pub fn allocate(&mut self, layout: Layout) -> (r: Option<usize>)
        requires
            old(self).wf(),
            layout.wf(),
            layout.size >= 1,
        ensures
            final(self).wf(),
            final(self).inner.heap.base == old(self).inner.heap.base,
            final(self).inner.heap.capacity == old(self).inner.heap.capacity,
            final(self).inner.heap.current_top >= old(self).inner.heap.current_top,
            match r {
                Some(a) => {
                    &&& final(self).inner.live_seq().len()
                        == old(self).inner.live_seq().len() + 1
                    &&& final(self).inner.live_seq() == old(self).inner.live_seq().push(
                        final(self).inner.live_seq().last())
                    &&& a == final(self).inner.live_seq().last().spec_data_location()
                    &&& a as int % layout.align as int == 0
                    &&& final(self).inner.live_seq().last().layout.align == layout.align
                    &&& final(self).inner.live_seq().last().layout.size >= layout.size
                    &&& a + layout.size <= final(self).inner.live_seq().last().spec_end()
                    &&& forall|j: int| 0 <= j < final(self).inner.free_seq().len()
                        ==> (#[trigger] final(self).inner.free_seq()[j]).spec_end()
                            != final(self).inner.live_seq().last().base
                },
                None => {
                    &&& final(self).inner.live_seq() == old(self).inner.live_seq()
                    &&& final(self).inner.heap.current_top
                        == final(self).inner.heap.capacity
                    &&& forall|j: int| 0 <= j < final(self).inner.free_seq().len()
                        ==> !(#[trigger] final(self).inner.free_seq()[j])
                            .spec_compatible(layout)
                },
            },
            (exists|j: int| 0 <= j < old(self).inner.free_seq().len()
                && (#[trigger] old(self).inner.free_seq()[j]).spec_compatible(layout))
                ==> r is Some,
            (exists|j: int| 0 <= j < old(self).inner.free_seq().len()
                && (#[trigger] old(self).inner.free_seq()[j]).spec_compatible(layout))
                ==> final(self).inner.heap == old(self).inner.heap,
            (exists|j: int| 0 <= j < old(self).inner.free_seq().len()
                && (#[trigger] old(self).inner.free_seq()[j]).spec_compatible(layout))
                ==> (exists|idx: int| {
                    &&& 0 <= idx < old(self).inner.free_seq().len()
                    &&& (#[trigger] old(self).inner.free_seq()[idx]).spec_compatible(layout)
                    &&& (forall|j: int| 0 <= j < idx
                        ==> !(#[trigger] old(self).inner.free_seq()[j])
                            .spec_compatible(layout))
                    &&& final(self).inner.live_seq().last().base
                        == old(self).inner.free_seq()[idx].base
                    &&& ({
                        let b = old(self).inner.free_seq()[idx];
                        let probe = MetaData { base: b.base, layout };
                        let slack = b.spec_total_size() - probe.spec_total_size();
                        let floor = MetaData::spec_default_meta_offset(
                            b.base + probe.spec_total_size()) + NODE_SIZE;
                        if slack > floor {
                            exists|rem: MetaData| {
                                &&& final(self).inner.free_seq() == old(self).inner
                                    .free_seq().remove(idx).insert(idx, rem)
                                &&& (#[trigger] rem.spec_total_size()) == slack
                                &&& rem.base == b.base + probe.spec_total_size()
                                &&& rem.layout.align == NODE_ALIGN
                                &&& final(self).inner.live_seq().last() == probe
                            }
                        } else {
                            &&& final(self).inner.free_seq()
                                == old(self).inner.free_seq().remove(idx)
                            &&& final(self).inner.live_seq().last() == (MetaData {
                                base: b.base,
                                layout: Layout {
                                    size: (layout.size + slack) as usize,
                                    align: layout.align,
                                },
                            })
                        }
                    })
                }),
    {
        self.inner.allocate(layout)
    }

    /// See `MetaAllocInner::deallocate`: returns a block to the sorted
    /// free list and coalesces it with address-adjacent neighbours.
    pub fn deallocate(&mut self, ptr: usize, layout: Layout)
        requires
            old(self).wf(),
            exists|i: int| 0 <= i < old(self).inner.live_seq().len()
                && (#[trigger] old(self).inner.live_seq()[i]).spec_data_location() == ptr,
        ensures
            final(self).wf(),
            final(self).inner.heap == old(self).inner.heap,
            exists|i: int| {
                &&& 0 <= i < old(self).inner.live_seq().len()
                &&& (#[trigger] old(self).inner.live_seq()[i]).spec_data_location() == ptr
                &&& final(self).inner.live_seq() == old(self).inner.live_seq().remove(i)
                &&& total_sum(final(self).inner.free_seq())
                    == total_sum(old(self).inner.free_seq())
                        + old(self).inner.live_seq()[i].spec_total_size()
                &&& (exists|p: int| {
                    &&& 0 <= p <= old(self).inner.free_seq().len()
                    &&& (forall|j: int| 0 <= j < p
                        ==> (#[trigger] old(self).inner.free_seq()[j]).base
                            < old(self).inner.live_seq()[i].base)
                    &&& (forall|j: int| p <= j < old(self).inner.free_seq().len()
                        ==> old(self).inner.live_seq()[i].base
                            < (#[trigger] old(self).inner.free_seq()[j]).base)
                    &&& final(self).inner.free_seq() == insert_result(
                        old(self).inner.free_seq(), old(self).inner.live_seq()[i], p)
                })
                &&& ((forall|j: int| 0 <= j < old(self).inner.free_seq().len()
                        ==> (#[trigger] old(self).inner.free_seq()[j]).spec_end()
                            != old(self).inner.live_seq()[i].base)
                    ==> (exists|k: int| {
                        &&& 0 <= k < final(self).inner.free_seq().len()
                        &&& (#[trigger] final(self).inner.free_seq()[k]).base
                            == old(self).inner.live_seq()[i].base
                        &&& final(self).inner.free_seq()[k].spec_total_size()
                            >= old(self).inner.live_seq()[i].spec_total_size()
                        &&& final(self).inner.free_seq()[k].layout.align
                            == old(self).inner.live_seq()[i].layout.align
                    }))
            },
    {
        self.inner.deallocate(ptr, layout)
    }

    /// How many free extents the free list holds.
    pub fn free_count(&self) -> (r: usize)
        ensures
            r == self.inner.free_seq().len(),
    {
        self.inner.list.len()
    }

    /// How many outstanding allocations there are.
    pub fn live_count(&self) -> (r: usize)
        ensures
            r == self.inner.live_seq().len(),
    {
        self.inner.live.len()
    }

    /// Bytes obtained from the backing store so far.
    pub fn bytes_obtained(&self) -> (r: usize)
        ensures
            r == self.inner.heap.current_top,
    {
        self.inner.heap.current_top
    }

    /// Total footprint of all free extents: every free byte, embedded
    /// bookkeeping included.
    pub fn free_capacity(&self) -> (r: usize)
        requires
            self.wf(),
        ensures
            r == total_sum(self.inner.free_seq()),
    {
        let ghost s = self.inner.free_seq();
        let ghost lo = self.inner.heap.base as int;
        let ghost hi = self.inner.managed_end();
        proof {
            lemma_sum_lower(self.inner.live_seq(), lo, hi);
        }
        let n = self.inner.list.len();
        let mut sum: usize = 0;
        let mut k: usize = 0;
        let mut cursor = self.inner.list.cursor_mut();
        cursor.move_next(&self.inner.list);
        while k < n
            invariant
                self.wf(),
                s == self.inner.free_seq(),
                lo == self.inner.heap.base as int,
                hi == self.inner.managed_end(),
                n == s.len(),
                0 <= k <= n,
                total_sum(self.inner.live_seq()) >= 0,
                sum == total_sum(s.take(k as int)),
                cursor.valid(s.len()),
                cursor.index == (if k < n { Some(k) } else { None::<usize> }),
            decreases n - k,
        {
            let cur = *cursor.current(&self.inner.list).unwrap();
            proof {
                assert(cur == s[k as int]);
                assert(block_wf(s[k as int], lo, hi));
                lemma_extra_size_bounds(cur);
                assert(s.take(k as int).push(cur) =~= s.take(k + 1));
                lemma_sum_push(s.take(k as int), cur);
                lemma_sum_take_skip(s, k + 1);
                assert(blocks_wf(s.skip(k + 1), lo, hi)) by {
                    assert forall|j: int| 0 <= j < s.skip(k + 1).len()
                        implies block_wf(#[trigger] s.skip(k + 1)[j], lo, hi) by {
                        assert(s.skip(k + 1)[j] == s[j + k + 1]);
                    }
                }
                lemma_sum_lower(s.skip(k + 1), lo, hi);
            }
            sum = sum + cur.total_size();
            k = k + 1;
            cursor.move_next(&self.inner.list);
        }
        proof {
            assert(s.take(n as int) =~= s);
        }
        sum
    }
}

/// Non-overlap: the payload ranges of any two distinct outstanding
/// allocations are disjoint.  The payload occupies exactly the tail of
/// its extent's footprint, and the allocator's invariant keeps the
/// footprints of handed-out extents disjoint.
pub proof fn law_non_overlap(a: &MetaAlloc, i: int, j: int)
    requires
        a.wf(),
        0 <= i < a.inner.live_seq().len(),
        0 <= j < a.inner.live_seq().len(),
        i != j,
    ensures
        a.inner.live_seq()[i].spec_data_location() + a.inner.live_seq()[i].layout.size
            <= a.inner.live_seq()[j].spec_data_location()
        || a.inner.live_seq()[j].spec_data_location() + a.inner.live_seq()[j].layout.size
            <= a.inner.live_seq()[i].spec_data_location(),
{
    let x = a.inner.live_seq()[i];
    let y = a.inner.live_seq()[j];
    assert(blocks_disjoint(x, y));
    lemma_extra_size_bounds(x);
    lemma_extra_size_bounds(y);
}

/// Coalescing completeness: with no allocation outstanding, the free
/// list accounts for every byte obtained from the backing store — no
/// capacity is lost to unreachable fragments.
pub proof fn law_no_capacity_lost(a: &MetaAlloc)
    requires
        a.wf(),
        a.inner.live_seq().len() == 0,
    ensures
        total_sum(a.inner.free_seq()) == a.inner.heap.current_top,
{
}

/// Round-trip reuse: deallocating a block that an allocate of layout
/// `lay` produced leaves the free list able to serve `lay` again.
///
/// `allocate`'s contract says the block `m` it hands out carries `lay`'s
/// alignment, at least `lay`'s size, and that no free extent ends at
/// `m.base`; `deallocate`'s contract then guarantees a free extent at
/// `m.base` at least as large as `m`.  This law closes the cycle: such an
/// extent is compatible with `lay`, so by `allocate`'s success clause the
/// next allocate of `lay` returns an address.
pub proof fn law_round_trip_reuse(after: &MetaAllocInner, m: MetaData, lay: Layout)
    requires
        lay.wf(),
        m.layout.wf(),
        m.layout.align == lay.align,
        m.layout.size >= lay.size,
        exists|k: int| {
            &&& 0 <= k < after.free_seq().len()
            &&& (#[trigger] after.free_seq()[k]).base == m.base
            &&& after.free_seq()[k].spec_total_size() >= m.spec_total_size()
        },
    ensures
        exists|k: int| 0 <= k < after.free_seq().len()
            && (#[trigger] after.free_seq()[k]).spec_compatible(lay),
{
    let k = choose|k: int| {
        &&& 0 <= k < after.free_seq().len()
        &&& (#[trigger] after.free_seq()[k]).base == m.base
        &&& after.free_seq()[k].spec_total_size() >= m.spec_total_size()
    };
    let m2 = after.free_seq()[k];
    // the probe for `lay` at this base needs exactly the bookkeeping `m`
    // itself needed: the padding depends on base and alignment alone
    assert((MetaData { base: m2.base, layout: lay }).spec_extra_size()
        == m.spec_extra_size());
    assert(m2.spec_compatible(lay));
}

/// One allocation served from the existing free list, followed by its
/// release, restores the free list's shape exactly: the same number of
/// extents, at the same bases, with the same footprints.  The restored
/// extent may describe its footprint through the request's size and
/// alignment instead of the pair it carried before; the bytes covered
/// are identical.
///
/// The hypotheses are what the two calls' contracts export: `allocate`'s
/// carve of the first compatible extent `f0[idx]` into the handed-out
/// descriptor `m` and the free list `f1`, and `deallocate`'s sorted
/// re-insertion of `m` at position `p` yielding `f2`.
pub proof fn law_cycle_restores_free_shape(
    f0: Seq<MetaData>, idx: int, layout: Layout, m: MetaData,
    f1: Seq<MetaData>, p: int, f2: Seq<MetaData>, lo: int, hi: int)
    requires
        blocks_wf(f0, lo, hi),
        sorted_coalesced(f0),
        blocks_wf(f1, lo, hi),
        hi <= usize::MAX as int / 2,
        0 <= idx < f0.len(),
        layout.wf(),
        layout.size >= 1,
        f0[idx].spec_compatible(layout),
        m.layout.wf(),
        m.layout.size >= 1,
        ({
            let b = f0[idx];
            let probe = MetaData { base: b.base, layout };
            let slack = b.spec_total_size() - probe.spec_total_size();
            let floor = MetaData::spec_default_meta_offset(
                b.base + probe.spec_total_size()) + NODE_SIZE;
            if slack > floor {
                exists|rem: MetaData| {
                    &&& f1 == f0.remove(idx).insert(idx, rem)
                    &&& (#[trigger] rem.spec_total_size()) == slack
                    &&& rem.base == b.base + probe.spec_total_size()
                    &&& m == probe
                }
            } else {
                &&& f1 == f0.remove(idx)
                &&& m == (MetaData {
                    base: b.base,
                    layout: Layout {
                        size: (layout.size + slack) as usize,
                        align: layout.align,
                    },
                })
            }
        }),
        0 <= p <= f1.len(),
        forall|j: int| 0 <= j < p ==> (#[trigger] f1[j]).base < m.base,
        forall|j: int| p <= j < f1.len() ==> m.base < (#[trigger] f1[j]).base,
        f2 == insert_result(f1, m, p),
    ensures
        f2.len() == f0.len(),
        forall|k: int| 0 <= k < f0.len()
            ==> (#[trigger] f2[k]).base == f0[k].base
                && f2[k].spec_total_size() == f0[k].spec_total_size(),
{
    let b = f0[idx];
    let probe = MetaData { base: b.base, layout };
    let slack = b.spec_total_size() - probe.spec_total_size();
    let floor = MetaData::spec_default_meta_offset(
        b.base + probe.spec_total_size()) + NODE_SIZE;
    lemma_extra_size_bounds(b);
    lemma_extra_size_bounds(probe);
    lemma_extra_size_bounds(m);
    assert(m.base == b.base);
    if slack > floor {
        let rem = choose|rem: MetaData| {
            &&& f1 == f0.remove(idx).insert(idx, rem)
            &&& (#[trigger] rem.spec_total_size()) == slack
            &&& rem.base == b.base + probe.spec_total_size()
            &&& m == probe
        };
        assert(f1.len() == f0.len());
        assert(f1[idx] == rem);
        assert forall|j: int| 0 <= j < f1.len() && j != idx
            implies #[trigger] f1[j] == f0[j] by {
            if j < idx {
                assert(f0.remove(idx)[j] == f0[j]);
            } else {
                assert(f0.remove(idx)[j - 1] == f0[j]);
            }
        }
        // the release position is exactly where the extent was carved
        assert(p == idx) by {
            if p < idx {
                assert(f1[p] == f0[p]);
                lemma_sorted_separated(f0, lo, hi, p, idx);
                lemma_extra_size_bounds(f0[p]);
                assert(m.base < f1[p].base);
            } else if p > idx {
                assert(f1[idx].base < m.base);
            }
        }
        // the remainder begins where the handed-out extent ends, so the
        // two merge back into b's exact footprint
        assert(m.spec_end() == rem.base);
        assert(!ins_left_adj(f1, m, p)) by {
            if idx > 0 && f1[idx - 1].spec_end() == m.base {
                assert(f1[idx - 1] == f0[idx - 1]);
            }
        }
        assert(ins_right_adj(f1, m, p));
        lemma_merge(m, rem, hi);
        assert(f2 == f1.update(idx, spec_merge(m, rem)));
        assert forall|k: int| 0 <= k < f0.len()
            implies (#[trigger] f2[k]).base == f0[k].base
                && f2[k].spec_total_size() == f0[k].spec_total_size() by {
            if k == idx {
                assert(f2[k] == spec_merge(m, rem));
            } else {
                assert(f2[k] == f1[k]);
                assert(f1[k] == f0[k]);
            }
        }
    } else {
        assert(f1 == f0.remove(idx));
        assert(m.spec_extra_size() == probe.spec_extra_size());
        assert(m.spec_total_size() == b.spec_total_size());
        assert(p == idx) by {
            if p < idx {
                assert(f1[p] == f0[p]);
                lemma_sorted_separated(f0, lo, hi, p, idx);
                lemma_extra_size_bounds(f0[p]);
                assert(m.base < f1[p].base);
            } else if p > idx {
                assert(f1[idx] == f0[idx + 1]);
                lemma_sorted_separated(f0, lo, hi, idx, idx + 1);
                assert(f1[idx].base < m.base);
            }
        }
        assert(!ins_left_adj(f1, m, p)) by {
            if idx > 0 && f1[idx - 1].spec_end() == m.base {
                assert(f1[idx - 1] == f0[idx - 1]);
            }
        }
        assert(!ins_right_adj(f1, m, p)) by {
            if idx < f1.len() && m.spec_end() == f1[idx].base {
                assert(f1[idx] == f0[idx + 1]);
                lemma_sorted_separated(f0, lo, hi, idx, idx + 1);
            }
        }
        assert(f2 == f1.insert(idx, m));
        assert forall|k: int| 0 <= k < f0.len()
            implies (#[trigger] f2[k]).base == f0[k].base
                && f2[k].spec_total_size() == f0[k].spec_total_size() by {
            if k < idx {
                assert(f2[k] == f1[k]);
                assert(f1[k] == f0[k]);
            } else if k == idx {
                assert(f2[k] == m);
            } else {
                assert(f2[k] == f1[k - 1]);
                assert(f1[k - 1] == f0[k]);
            }
        }
    }
}

} // verus!
