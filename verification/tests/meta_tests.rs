use meta_alloc::allocator::{node_split, MetaData, NODE_ALIGN, NODE_SIZE, PAGE_SIZE};
use meta_alloc::layout::{align_offset, power_of_two, Layout};
use meta_alloc::meta_utils;

fn lay(size: usize, align: usize) -> Layout {
    Layout::from_size_align(size, align).unwrap()
}

#[test]
fn layout_rejects_bad_alignments() {
    assert!(Layout::from_size_align(16, 0).is_none());
    assert!(Layout::from_size_align(16, 3).is_none());
    assert!(Layout::from_size_align(16, 12).is_none());
    assert!(Layout::from_size_align(16, 16).is_some());
    assert!(Layout::from_size_align(usize::MAX / 2, 2).is_none());
    assert!(Layout::from_size_align(usize::MAX / 2 - 1, 2).is_some());
}

#[test]
fn power_of_two_matches() {
    assert!(!power_of_two(0));
    assert!(power_of_two(1));
    assert!(power_of_two(2));
    assert!(!power_of_two(6));
    assert!(power_of_two(4096));
    assert!(!power_of_two(4097));
}

#[test]
fn align_offset_values() {
    assert_eq!(align_offset(4096, 16), 0);
    assert_eq!(align_offset(4100, 8), 4);
    assert_eq!(align_offset(41, 8), 7);
    assert_eq!(align_offset(7, 1), 0);
}

#[test]
fn extra_and_total_size() {
    let m = MetaData::new(4096, lay(64, 16));
    assert_eq!(m.extra_size(), 48);
    assert_eq!(m.total_size(), 112);
    assert_eq!(m.data_location(), 4144);
    assert_eq!(m.meta_location(), 4144 - NODE_SIZE);
    assert_eq!(m.usable_size(), 72);

    let m2 = MetaData::new(4100, lay(10, 4));
    assert_eq!(m2.extra_size(), 44);
    assert_eq!(m2.total_size(), 54);
    assert_eq!(m2.data_location(), 4144);
    assert_eq!(m2.usable_size(), 10);
}

#[test]
fn default_meta_offset_values() {
    assert_eq!(MetaData::default_meta_offset(4096), 0);
    assert_eq!(MetaData::default_meta_offset(4100), 4);
    assert_eq!(MetaData::default_meta_offset(4097), 7);
}

#[test]
fn blank_extent_covers_whole_region() {
    let m = MetaData::new_blank(PAGE_SIZE, PAGE_SIZE);
    assert_eq!(m.base, PAGE_SIZE);
    assert_eq!(m.layout.align, NODE_ALIGN);
    assert_eq!(m.layout.size, PAGE_SIZE - NODE_SIZE);
    assert_eq!(m.total_size(), PAGE_SIZE);

    let m2 = MetaData::new_blank(4100, 1000);
    assert_eq!(m2.layout.size, 956);
    assert_eq!(m2.total_size(), 1000);
}

#[test]
fn compatibility_accounts_for_alignment_padding() {
    let m = MetaData::new(4096, lay(64, 16));
    assert!(m.check_compatible(&lay(64, 16)));
    assert!(m.check_compatible(&lay(72, 8)));
    assert!(!m.check_compatible(&lay(73, 8)));
    assert!(m.check_compatible(&lay(40, 32)));
    assert!(!m.check_compatible(&lay(49, 32)));
    assert!(!m.check_compatible(&lay(64, 4096)));
}

#[test]
fn split_carves_head_and_remainder() {
    let m = MetaData::new_blank(PAGE_SIZE, PAGE_SIZE);
    let (head, rem) = node_split(m, lay(32, 16));
    assert_eq!(head.base, PAGE_SIZE);
    assert_eq!(head.layout.align, 16);
    assert_eq!(head.layout.size, 32);
    // head: 48 bytes of bookkeeping + 32 payload
    assert_eq!(head.total_size(), 80);
    assert_eq!(head.data_location() % 16, 0);
    let rem = rem.unwrap();
    assert_eq!(rem.base, PAGE_SIZE + 80);
    assert_eq!(head.total_size() + rem.total_size(), PAGE_SIZE);
}

#[test]
fn split_absorbs_tiny_remainder() {
    // a remainder below the bookkeeping floor folds into the head
    let m = MetaData::new(4096, lay(100, 8));
    let total = m.total_size();
    let (head, rem) = node_split(m, lay(90, 8));
    assert!(rem.is_none());
    assert_eq!(head.total_size(), total);
    assert_eq!(head.layout.size, 100);
}

#[test]
fn header_links_and_flag() {
    let mut h = meta_utils::MetaData::new(lay(32, 8), 4);
    assert_eq!(h.get_next(), 0);
    assert_eq!(h.get_previous(), 0);
    assert!(!h.is_allocated());
    h.set_next(512);
    h.set_previous(256);
    h.set_allocated(true);
    assert_eq!(h.get_next(), 512);
    assert_eq!(h.get_previous(), 256);
    assert!(h.is_allocated());
    assert_eq!(h.get_block_size(), 32 + 4 + meta_utils::META_SIZE);
}

#[test]
fn managed_bytes_offsets() {
    // header (41 bytes), then padding up to the payload's alignment
    let b = meta_utils::ManagedBytes::new(0, lay(10, 8));
    assert_eq!(b.get_data_offset(), 48);
    assert_eq!(b.get_meta_offset(), 7);
    let b2 = meta_utils::ManagedBytes::new(3, lay(10, 4));
    assert_eq!(b2.get_data_offset(), meta_utils::META_SIZE);
    assert_eq!(b2.get_meta_offset(), 0);
    let b3 = meta_utils::ManagedBytes::new(0, lay(10, 128));
    assert_eq!(b3.get_data_offset(), 128);
    assert_eq!(b3.get_meta_offset(), 128 - meta_utils::META_SIZE);
}
