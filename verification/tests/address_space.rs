use kernel_core::config::PAGE_SIZE;
use kernel_core::mm::{ceil_vpn, floor_vpn, MapPermission, MemorySet, PERM_R, PERM_U, PERM_W, PERM_X};

fn ranges(ms: &MemorySet) -> Vec<(usize, usize)> {
    ms.get_areas().iter().map(|a| (a.get_start(), a.get_end())).collect()
}

#[test]
fn mmap_then_munmap_leaves_no_area_over_the_range() {
    let mut ms = MemorySet::new_bare();
    assert_eq!(ms.mmap(0x1000_0000, 3 * PAGE_SIZE, 3), 0);
    assert_eq!(ranges(&ms), vec![(0x10000, 0x10003)]);
    assert_eq!(ms.munmap(0x1000_0000, 3 * PAGE_SIZE), 0);
    assert_eq!(ms.area_count(), 0);
    for vpn in 0x10000..0x10003 {
        assert_eq!(ms.find_area(vpn), None);
    }
}

#[test]
fn round_trip_restores_the_other_areas() {
    let mut ms = MemorySet::new_bare();
    assert_eq!(ms.mmap(0x2000, PAGE_SIZE, 1), 0);
    assert_eq!(ms.mmap(0x8000, 2 * PAGE_SIZE, 2), 0);
    let before = ranges(&ms);
    assert_eq!(ms.mmap(0x4000, 2 * PAGE_SIZE, 3), 0);
    assert_eq!(ms.munmap(0x4000, 2 * PAGE_SIZE), 0);
    assert_eq!(ranges(&ms), before);
}

#[test]
fn mmap_over_an_existing_area_fails_and_changes_nothing() {
    let mut ms = MemorySet::new_bare();
    assert_eq!(ms.mmap(0x4000, 4 * PAGE_SIZE, 3), 0);
    assert!(ms.write_bytes(0x4000, &[7, 8, 9]));
    let before = ranges(&ms);
    assert_eq!(ms.mmap(0x5000, PAGE_SIZE, 3), -1);
    assert_eq!(ms.mmap(0x3000, 2 * PAGE_SIZE, 1), -1);
    assert_eq!(ms.mmap(0x7000, 2 * PAGE_SIZE, 1), -1);
    assert_eq!(ms.mmap(0x3000, 8 * PAGE_SIZE, 1), -1);
    assert_eq!(ranges(&ms), before);
    assert_eq!(ms.read_bytes(0x4000, 3), Some(vec![7, 8, 9]));
}

#[test]
fn mmap_next_to_an_existing_area_succeeds() {
    let mut ms = MemorySet::new_bare();
    assert_eq!(ms.mmap(0x4000, 2 * PAGE_SIZE, 3), 0);
    assert_eq!(ms.mmap(0x6000, PAGE_SIZE, 3), 0);
    assert_eq!(ms.mmap(0x3000, PAGE_SIZE, 3), 0);
    assert_eq!(ranges(&ms), vec![(4, 6), (6, 7), (3, 4)]);
}

#[test]
fn mmap_rejects_ports_outside_read_write_exec() {
    let mut ms = MemorySet::new_bare();
    assert_eq!(ms.mmap(0x4000, PAGE_SIZE, 0), -1);
    assert_eq!(ms.mmap(0x4000, PAGE_SIZE, 8), -1);
    assert_eq!(ms.mmap(0x4000, PAGE_SIZE, 0x13), -1);
    assert_eq!(ms.mmap(0x4000, PAGE_SIZE, usize::MAX), -1);
    assert_eq!(ms.area_count(), 0);
}

#[test]
fn mmap_rejects_an_unaligned_start() {
    let mut ms = MemorySet::new_bare();
    assert_eq!(ms.mmap(0x4001, PAGE_SIZE, 3), -1);
    assert_eq!(ms.mmap(0x4fff, PAGE_SIZE, 3), -1);
    assert_eq!(ms.area_count(), 0);
}

#[test]
fn mmap_rejects_a_range_that_wraps_around() {
    let mut ms = MemorySet::new_bare();
    assert_eq!(ms.mmap(0x4000, usize::MAX, 3), -1);
    assert_eq!(ms.mmap(usize::MAX - 4095, PAGE_SIZE, 3), -1);
    assert_eq!(ms.area_count(), 0);
}

#[test]
fn mmap_rounds_the_length_up_to_whole_pages() {
    let mut ms = MemorySet::new_bare();
    assert_eq!(ms.mmap(0x4000, 1, 3), 0);
    assert_eq!(ms.mmap(0x8000, PAGE_SIZE + 1, 3), 0);
    assert_eq!(ranges(&ms), vec![(4, 5), (8, 10)]);
}

#[test]
fn mmap_shifts_the_port_and_adds_the_user_bit() {
    let mut ms = MemorySet::new_bare();
    for port in 1..8usize {
        assert_eq!(ms.mmap(port * 0x10000, PAGE_SIZE, port), 0);
    }
    let bits: Vec<u8> = ms.get_areas().iter().map(|a| a.get_perm().bits).collect();
    assert_eq!(bits, vec![18, 20, 22, 24, 26, 28, 30]);
    assert_eq!(ms.get_areas()[2].get_perm().bits, PERM_U | PERM_R | PERM_W);
    assert_eq!(ms.get_areas()[6].get_perm().bits, PERM_U | PERM_R | PERM_W | PERM_X);
}

#[test]
fn mmap_of_no_bytes_adds_an_empty_area() {
    let mut ms = MemorySet::new_bare();
    assert_eq!(ms.mmap(0x4000, 0, 3), 0);
    assert_eq!(ranges(&ms), vec![(4, 4)]);
    assert_eq!(ms.find_area(4), None);
    assert_eq!(ms.munmap(0x4000, 0), 0);
    assert_eq!(ranges(&ms), vec![(4, 4)]);
}

#[test]
fn fresh_pages_are_zero() {
    let mut ms = MemorySet::new_bare();
    assert_eq!(ms.mmap(0x4000, 2 * PAGE_SIZE, 3), 0);
    assert_eq!(ms.read_bytes(0x4000, 2 * PAGE_SIZE), Some(vec![0u8; 2 * PAGE_SIZE]));
}

#[test]
fn munmap_rejects_unaligned_arguments() {
    let mut ms = MemorySet::new_bare();
    assert_eq!(ms.mmap(0x4000, 2 * PAGE_SIZE, 3), 0);
    assert_eq!(ms.munmap(0x4001, PAGE_SIZE), -1);
    assert_eq!(ms.munmap(0x4000, PAGE_SIZE - 1), -1);
    assert_eq!(ranges(&ms), vec![(4, 6)]);
}

#[test]
fn munmap_fails_when_a_page_of_the_range_is_not_mapped() {
    let mut ms = MemorySet::new_bare();
    assert_eq!(ms.mmap(0x4000, 2 * PAGE_SIZE, 3), 0);
    assert_eq!(ms.munmap(0x4000, 3 * PAGE_SIZE), -1);
    assert_eq!(ms.munmap(0x3000, 2 * PAGE_SIZE), -1);
    assert_eq!(ms.munmap(0x9000, PAGE_SIZE), -1);
    assert_eq!(ranges(&ms), vec![(4, 6)]);
}

#[test]
fn munmap_of_the_middle_splits_an_area_and_keeps_its_bytes() {
    let mut ms = MemorySet::new_bare();
    assert_eq!(ms.mmap(0x4000, 4 * PAGE_SIZE, 3), 0);
    assert!(ms.write_bytes(0x4ffe, &[1, 2]));
    assert!(ms.write_bytes(0x7000, &[3, 4]));
    assert_eq!(ms.munmap(0x5000, 2 * PAGE_SIZE), 0);
    assert_eq!(ranges(&ms), vec![(4, 5), (7, 8)]);
    assert_eq!(ms.read_bytes(0x4ffe, 2), Some(vec![1, 2]));
    assert_eq!(ms.read_bytes(0x7000, 2), Some(vec![3, 4]));
    assert_eq!(ms.read_bytes(0x5000, 1), None);
    assert_eq!(ms.read_bytes(0x6fff, 1), None);
    assert_eq!(ms.get_areas()[1].get_perm().bits, 22);
}

#[test]
fn munmap_of_one_end_shrinks_an_area() {
    let mut ms = MemorySet::new_bare();
    assert_eq!(ms.mmap(0x4000, 4 * PAGE_SIZE, 3), 0);
    assert!(ms.write_bytes(0x5000, &[5]));
    assert!(ms.write_bytes(0x6000, &[6]));
    assert_eq!(ms.munmap(0x4000, PAGE_SIZE), 0);
    assert_eq!(ranges(&ms), vec![(5, 8)]);
    assert_eq!(ms.munmap(0x7000, PAGE_SIZE), 0);
    assert_eq!(ranges(&ms), vec![(5, 7)]);
    assert_eq!(ms.read_bytes(0x5000, 1), Some(vec![5]));
    assert_eq!(ms.read_bytes(0x6000, 1), Some(vec![6]));
}

#[test]
fn munmap_over_several_areas_cuts_each() {
    let mut ms = MemorySet::new_bare();
    assert_eq!(ms.mmap(0x4000, 2 * PAGE_SIZE, 1), 0);
    assert_eq!(ms.mmap(0x6000, PAGE_SIZE, 2), 0);
    assert_eq!(ms.mmap(0x7000, 2 * PAGE_SIZE, 3), 0);
    assert_eq!(ms.munmap(0x5000, 3 * PAGE_SIZE), 0);
    assert_eq!(ranges(&ms), vec![(4, 5), (8, 9)]);
    let bits: Vec<u8> = ms.get_areas().iter().map(|a| a.get_perm().bits).collect();
    assert_eq!(bits, vec![18, 22]);
}

#[test]
fn unmap_is_munmap() {
    let mut ms = MemorySet::new_bare();
    assert_eq!(ms.mmap(0x4000, 2 * PAGE_SIZE, 3), 0);
    assert_eq!(ms.unmap(0x4000, PAGE_SIZE), 0);
    assert_eq!(ms.unmap(0x4000, PAGE_SIZE), -1);
    assert_eq!(ranges(&ms), vec![(5, 6)]);
}

#[test]
fn insert_framed_area_rounds_outwards() {
    let mut ms = MemorySet::new_bare();
    let rw = MapPermission::from_bits(PERM_R | PERM_W).unwrap();
    assert!(ms.insert_framed_area(0x4123, 0x6001, rw));
    assert_eq!(ranges(&ms), vec![(4, 7)]);
    assert!(!ms.insert_framed_area(0x6fff, 0x7000, rw));
    assert!(ms.insert_framed_area(0x7000, 0x7001, rw));
    assert!(!ms.insert_framed_area(0x9000, 0x8000, rw));
    assert_eq!(ranges(&ms), vec![(4, 7), (7, 8)]);
}

#[test]
fn page_rounding() {
    assert_eq!(floor_vpn(0), 0);
    assert_eq!(floor_vpn(4095), 0);
    assert_eq!(floor_vpn(4096), 1);
    assert_eq!(ceil_vpn(0), 0);
    assert_eq!(ceil_vpn(1), 1);
    assert_eq!(ceil_vpn(4096), 1);
    assert_eq!(ceil_vpn(4097), 2);
    assert_eq!(ceil_vpn(usize::MAX), usize::MAX / 4096 + 1);
}

#[test]
fn permission_bits_are_checked() {
    assert_eq!(MapPermission::from_bits(0).map(|p| p.bits()), Some(0));
    assert_eq!(MapPermission::from_bits(30).map(|p| p.bits()), Some(30));
    assert!(MapPermission::from_bits(1).is_none());
    assert!(MapPermission::from_bits(32).is_none());
    assert_eq!(MapPermission::from_port(5).map(|p| p.bits()), Some(26));
    assert!(MapPermission::from_port(0).is_none());
    assert!(MapPermission::from_port(8).is_none());
}

#[test]
fn bytes_written_are_read_back_across_pages() {
    let mut ms = MemorySet::new_bare();
    assert_eq!(ms.mmap(0x4000, 2 * PAGE_SIZE, 3), 0);
    let data: Vec<u8> = (0..100u8).collect();
    assert!(ms.write_bytes(0x5000 - 50, &data));
    assert_eq!(ms.read_bytes(0x5000 - 50, 100), Some(data));
    assert_eq!(ms.read_byte(0x5000 - 51), Some(0));
    assert_eq!(ms.read_byte(0x5000 - 50), Some(0));
    assert_eq!(ms.read_byte(0x5000 - 49), Some(1));
    assert_eq!(ms.read_byte(0x5000 + 49), Some(99));
    assert_eq!(ms.read_byte(0x5000 + 50), Some(0));
}

#[test]
fn bytes_written_across_two_areas_land_in_both() {
    let mut ms = MemorySet::new_bare();
    assert_eq!(ms.mmap(0x5000, PAGE_SIZE, 3), 0);
    assert_eq!(ms.mmap(0x4000, PAGE_SIZE, 3), 0);
    assert!(ms.write_bytes(0x4ffe, &[1, 2, 3, 4]));
    assert_eq!(ms.read_bytes(0x4ffe, 4), Some(vec![1, 2, 3, 4]));
    assert_eq!(ms.munmap(0x4000, PAGE_SIZE), 0);
    assert_eq!(ms.read_bytes(0x5000, 3), Some(vec![3, 4, 0]));
}

#[test]
fn a_write_that_leaves_mapped_memory_changes_nothing() {
    let mut ms = MemorySet::new_bare();
    assert_eq!(ms.mmap(0x4000, PAGE_SIZE, 3), 0);
    assert!(!ms.write_bytes(0x4ffe, &[1, 2, 3]));
    assert_eq!(ms.read_bytes(0x4ffe, 2), Some(vec![0, 0]));
    assert!(!ms.write_bytes(0x3fff, &[1]));
    assert!(!ms.write_bytes(usize::MAX, &[1, 2]));
    assert!(ms.write_bytes(0x9000, &[]));
    assert_eq!(ms.read_bytes(0x4ffe, 3), None);
    assert_eq!(ms.read_bytes(0x9000, 0), Some(vec![]));
    assert_eq!(ms.read_byte(usize::MAX), None);
}

#[test]
fn range_mapped_follows_the_areas() {
    let mut ms = MemorySet::new_bare();
    assert_eq!(ms.mmap(0x4000, PAGE_SIZE, 3), 0);
    assert_eq!(ms.mmap(0x5000, PAGE_SIZE, 1), 0);
    assert!(ms.range_mapped(0x4000, 2 * PAGE_SIZE));
    assert!(ms.range_mapped(0x4fff, 2));
    assert!(!ms.range_mapped(0x4000, 2 * PAGE_SIZE + 1));
    assert!(!ms.range_mapped(0x3fff, 2));
    assert!(ms.range_mapped(0, 0));
    assert!(!ms.range_mapped(usize::MAX - 1, 4));
    assert!(ms.covers(4, 6));
    assert!(!ms.covers(4, 7));
    assert!(ms.covers(9, 9));
    assert!(ms.overlaps(5, 9));
    assert!(!ms.overlaps(6, 9));
}

#[test]
fn translate_gives_one_span_per_page() {
    let mut ms = MemorySet::new_bare();
    assert_eq!(ms.mmap(0x8000, PAGE_SIZE, 3), 0);
    assert_eq!(ms.mmap(0x4000, 4 * PAGE_SIZE, 3), 0);
    let spans = ms.translate(0x6ff0, PAGE_SIZE + 0x20).unwrap();
    let got: Vec<(usize, usize, usize)> = spans.iter().map(|s| (s.area, s.offset, s.len)).collect();
    assert_eq!(got, vec![(1, 0x2ff0, 0x10), (1, 0x3000, 0x1000), (0, 0, 0x10)]);
    let spans = ms.translate(0x7ff8, 16).unwrap();
    let got: Vec<(usize, usize, usize)> = spans.iter().map(|s| (s.area, s.offset, s.len)).collect();
    assert_eq!(got, vec![(1, 0x3ff8, 8), (0, 0, 8)]);
    assert_eq!(ms.translate(0x4000, 0).map(|v| v.len()), Some(0));
    assert!(ms.translate(0x8ff8, 16).is_none());
    assert!(ms.translate(0x3fff, 2).is_none());
}

#[test]
fn strings_end_at_the_first_nul() {
    let mut ms = MemorySet::new_bare();
    assert_eq!(ms.mmap(0x4000, PAGE_SIZE, 3), 0);
    assert!(ms.write_bytes(0x4010, b"hello\0world\0"));
    assert_eq!(ms.read_cstr(0x4010), Some(b"hello".to_vec()));
    assert_eq!(ms.read_cstr(0x4016), Some(b"world".to_vec()));
    assert_eq!(ms.read_cstr(0x4015), Some(vec![]));
    assert_eq!(ms.read_cstr(0x3fff), None);
    assert!(ms.write_bytes(0x4ffd, b"abc"));
    assert_eq!(ms.read_cstr(0x4ffd), None);
}

#[test]
fn a_copy_has_memory_of_its_own() {
    let mut ms = MemorySet::new_bare();
    assert_eq!(ms.mmap(0x4000, PAGE_SIZE, 3), 0);
    assert!(ms.write_bytes(0x4000, &[1, 2, 3]));
    let mut copy = MemorySet::from_existed_user(&ms);
    assert_eq!(ranges(&copy), ranges(&ms));
    assert_eq!(copy.read_bytes(0x4000, 3), Some(vec![1, 2, 3]));
    assert!(copy.write_bytes(0x4000, &[9, 9, 9]));
    assert_eq!(ms.read_bytes(0x4000, 3), Some(vec![1, 2, 3]));
    assert_eq!(copy.read_bytes(0x4000, 3), Some(vec![9, 9, 9]));
}

#[test]
fn resize_area_grows_with_zeros_and_shrinks() {
    let mut ms = MemorySet::new_bare();
    assert_eq!(ms.mmap(0x4000, PAGE_SIZE, 3), 0);
    assert_eq!(ms.mmap(0x8000, PAGE_SIZE, 3), 0);
    assert!(ms.write_bytes(0x4000, &[1]));
    assert!(ms.resize_area(4, 5, 8));
    assert_eq!(ranges(&ms), vec![(4, 8), (8, 9)]);
    assert_eq!(ms.read_bytes(0x4000, 2), Some(vec![1, 0]));
    assert_eq!(ms.read_bytes(0x7fff, 1), Some(vec![0]));
    assert!(!ms.resize_area(4, 8, 9));
    assert!(!ms.resize_area(4, 5, 6));
    assert!(!ms.resize_area(4, 8, 3));
    assert!(ms.resize_area(4, 8, 4));
    assert_eq!(ranges(&ms), vec![(4, 4), (8, 9)]);
    assert_eq!(ms.find_range(4, 4), Some(0));
    assert_eq!(ms.find_range(4, 5), None);
}
