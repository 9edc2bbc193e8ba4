//! Header-based block metadata: a self-contained record that carries its
//! own neighbour links and allocation flag, packed in front of the block
//! it describes, together with offset helpers over a raw byte region.
//!
//! Links are plain addresses (`0` standing for "none"), as the record
//! itself lives inside memory the allocator manages.

use vstd::prelude::*;
use crate::layout::{
    align_offset, align_offset_of, is_pow2, lemma_align_offset, lemma_pow2_pos, Layout,
};

verus! {

/// Bytes taken by one packed header record: the layout pair, the padding
/// word, the two links and the allocation flag, without any alignment
/// gaps.
pub const META_SIZE: usize = 41;

/// A per-block header: the block's layout, the padding that precedes the
/// header, the neighbouring headers' addresses, and whether the block is
/// currently handed out.
pub struct MetaData {
    layout: Layout,
    padding: usize,
    /// Address of the next header; 0 for none.
    pub next: usize,
    /// Address of the previous header; 0 for none.
    pub previous: usize,
    allocated: bool,
}

impl MetaData {
    pub closed spec fn spec_layout(self) -> Layout {
        self.layout
    }

    pub closed spec fn spec_next(self) -> int {
        self.next as int
    }

    pub closed spec fn spec_previous(self) -> int {
        self.previous as int
    }

    pub closed spec fn spec_padding(self) -> int {
        self.padding as int
    }

    pub closed spec fn spec_allocated(self) -> bool {
        self.allocated
    }

    /// A fresh header: unlinked and not allocated.
    pub fn new(layout: Layout, padding: usize) -> (m: Self)
        ensures
            m.spec_layout() == layout,
            m.spec_padding() == padding,
            m.spec_next() == 0,
            m.spec_previous() == 0,
            !m.spec_allocated(),
    {
        Self { layout, padding, next: 0, previous: 0, allocated: false }
    }

    pub fn set_next(&mut self, next: usize)
        ensures
            final(self).spec_next() == next,
            final(self).spec_previous() == old(self).spec_previous(),
            final(self).spec_layout() == old(self).spec_layout(),
            final(self).spec_padding() == old(self).spec_padding(),
            final(self).spec_allocated() == old(self).spec_allocated(),
    {
        self.next = next;
    }

    pub fn get_next(&self) -> (r: usize)
        ensures
            r == self.spec_next(),
    {
        self.next
    }

    pub fn set_previous(&mut self, prev: usize)
        ensures
            final(self).spec_previous() == prev,
            final(self).spec_next() == old(self).spec_next(),
            final(self).spec_layout() == old(self).spec_layout(),
            final(self).spec_padding() == old(self).spec_padding(),
            final(self).spec_allocated() == old(self).spec_allocated(),
    {
        self.previous = prev;
    }

    pub fn get_previous(&self) -> (r: usize)
        ensures
            r == self.spec_previous(),
    {
        self.previous
    }

    /// Whole footprint of the block this header fronts: payload, padding
    /// and the header itself.
    pub fn get_block_size(&self) -> (r: usize)
        requires
            self.spec_layout().size + self.spec_padding() + META_SIZE <= usize::MAX,
        ensures
            r == self.spec_layout().size + self.spec_padding() + META_SIZE,
    {
        let layout = self.layout;
        layout.size + self.padding + META_SIZE
    }

    pub fn is_allocated(&self) -> (r: bool)
        ensures
            r == self.spec_allocated(),
    {
        self.allocated
    }

    pub fn set_allocated(&mut self, allocated: bool)
        ensures
            final(self).spec_allocated() == allocated,
            final(self).spec_next() == old(self).spec_next(),
            final(self).spec_previous() == old(self).spec_previous(),
            final(self).spec_layout() == old(self).spec_layout(),
            final(self).spec_padding() == old(self).spec_padding(),
    {
        self.allocated = allocated;
    }
}

/// The header plus any payload padding fits the machine word for every
/// valid alignment.
proof fn lemma_meta_offset_fits(a: int)
    requires
        is_pow2(a as nat),
        a - 1 <= usize::MAX as int / 2,
    ensures
        META_SIZE + a - 1 <= usize::MAX,
{
    lemma_pow2_pos(a as nat);
}

/// A raw byte region owned elsewhere, described by its base address and
/// the layout of the payload it is to carry behind a packed header.
pub struct ManagedBytes {
    base: usize,
    layout: Layout,
}

impl ManagedBytes {
    pub closed spec fn spec_base(self) -> int {
        self.base as int
    }

    pub closed spec fn spec_layout(self) -> Layout {
        self.layout
    }

    pub fn new(base: usize, layout: Layout) -> (b: Self)
        ensures
            b.spec_base() == base,
            b.spec_layout() == layout,
    {
        Self { base, layout }
    }

    /// Offset from the base to the payload: advance past the header,
    /// then round up to the payload's alignment.  It is the least offset
    /// of at least the header's size at which the payload is aligned.
    pub fn get_data_offset(&self) -> (r: usize)
        requires
            self.spec_layout().wf(),
            self.spec_base() + META_SIZE <= usize::MAX,
        ensures
            r == META_SIZE + align_offset_of(
                self.spec_base() + META_SIZE, self.spec_layout().align as int),
            (self.spec_base() + r) % self.spec_layout().align as int == 0,
            META_SIZE <= r < META_SIZE + self.spec_layout().align,
    {
        proof {
            lemma_pow2_pos(self.layout.align as nat);
            lemma_align_offset(
                self.spec_base() + META_SIZE, self.spec_layout().align as int);
            lemma_meta_offset_fits(self.layout.align as int);
        }
        META_SIZE + align_offset(self.base + META_SIZE, self.layout.align)
    }

    /// Offset of the header itself: exactly one header before the
    /// payload, so that the payload address alone recovers it.
    pub fn get_meta_offset(&self) -> (r: usize)
        requires
            self.spec_layout().wf(),
            self.spec_base() + META_SIZE <= usize::MAX,
        ensures
            r == align_offset_of(
                self.spec_base() + META_SIZE, self.spec_layout().align as int),
    {
        self.get_data_offset() - META_SIZE
    }
}

} // verus!
