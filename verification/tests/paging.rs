use kernel_mem::frames::FrameAllocator;
use kernel_mem::manager::address_available;
use kernel_mem::manager::ensure_page_exists_inner;
use kernel_mem::manager::hand_page_to_user;
use kernel_mem::manager::map_page_inner;
use kernel_mem::manager::read_byte;
use kernel_mem::manager::unmap_page_inner;
use kernel_mem::manager::update_memory_flags;
use kernel_mem::manager::virt_to_phys;
use kernel_mem::manager::write_byte;
use kernel_mem::manager::MemoryManager;
use kernel_mem::types::Error;
use kernel_mem::types::FrameState;
use kernel_mem::types::MemoryFlags;
use kernel_mem::types::MemoryMapping;
use kernel_mem::types::PAGE_SIZE;

fn rw() -> MemoryFlags {
    MemoryFlags { readable: true, writable: true, executable: false, cacheable: true, user: false }
}

fn conserved(mm: &MemoryManager) -> bool {
    let mut free = 0;
    let mut reserved = 0;
    let mut owned = 0;
    for s in mm.frames.states.iter() {
        match s {
            FrameState::Free => free += 1,
            FrameState::Reserved => reserved += 1,
            FrameState::Owned(_) => owned += 1,
        }
    }
    free + reserved + owned == mm.frames.states.len()
}

/// Allocate a frame to the space and bind it at `virt`, returning the frame.
fn alloc_and_map(mm: &mut MemoryManager, m: MemoryMapping, virt: usize) -> usize {
    let f = mm.allocate_frame(m.get_pid()).unwrap();
    map_page_inner(mm, m.get_pid(), f * PAGE_SIZE, virt, rw(), false).unwrap();
    f
}

#[test]
fn map_then_translate_returns_mapped_frame() {
    let mut mm = MemoryManager::new(8);
    let k = MemoryMapping::default();
    let f = alloc_and_map(&mut mm, k, 0x2000_0000);
    assert_eq!(virt_to_phys(&mm, k, 0x2000_0000), Ok(f * PAGE_SIZE));
    // offsets within the page translate too
    assert_eq!(virt_to_phys(&mm, k, 0x2000_0000 + 17), Ok(f * PAGE_SIZE + 17));
    // translation persists across unrelated operations
    let g = alloc_and_map(&mut mm, k, 0x2000_1000);
    assert_ne!(f, g);
    assert_eq!(virt_to_phys(&mm, k, 0x2000_0000), Ok(f * PAGE_SIZE));
}

#[test]
fn unmap_then_translate_fails() {
    let mut mm = MemoryManager::new(8);
    let k = MemoryMapping::default();
    let f = alloc_and_map(&mut mm, k, 0x2000_0000);
    assert_eq!(unmap_page_inner(&mut mm, k, 0x2000_0000), Ok(f * PAGE_SIZE));
    assert_eq!(virt_to_phys(&mm, k, 0x2000_0000), Err(Error::BadAddress));
    // the frame went back to the free pool
    assert_eq!(mm.frames.states[f], FrameState::Free);
}

#[test]
fn overwrite_is_rejected_as_already_mapped() {
    let mut mm = MemoryManager::new(8);
    let k = MemoryMapping::default();
    let f = alloc_and_map(&mut mm, k, 0x2000_0000);
    let g = mm.allocate_frame(k.get_pid()).unwrap();
    assert_eq!(
        map_page_inner(&mut mm, k.get_pid(), g * PAGE_SIZE, 0x2000_0000, rw(), false),
        Err(Error::AlreadyMapped)
    );
    assert_eq!(virt_to_phys(&mm, k, 0x2000_0000), Ok(f * PAGE_SIZE));
}

#[test]
fn mapping_requires_ownership_of_the_frame() {
    let mut mm = MemoryManager::new(8);
    let k = MemoryMapping::default();
    let other = mm.create_space(1).unwrap();
    // a free frame is not the caller's to bind: allocation assigns ownership
    assert_eq!(
        map_page_inner(&mut mm, k.get_pid(), 3 * PAGE_SIZE, 0x2000_0000, rw(), false),
        Err(Error::ShareViolation)
    );
    // a frame owned by another space is not the caller's either, and no
    // writable (or any) mapping to it appears
    let f = mm.allocate_frame(other.get_pid()).unwrap();
    assert_eq!(
        map_page_inner(&mut mm, k.get_pid(), f * PAGE_SIZE, 0x2000_0000, rw(), false),
        Err(Error::ShareViolation)
    );
    assert_eq!(virt_to_phys(&mm, k, 0x2000_0000), Err(Error::BadAddress));
}

#[test]
fn binding_an_owned_frame_twice_is_a_share_violation() {
    let mut mm = MemoryManager::new(8);
    let k = MemoryMapping::default();
    let f = alloc_and_map(&mut mm, k, 0x2000_0000);
    assert_eq!(
        map_page_inner(&mut mm, k.get_pid(), f * PAGE_SIZE, 0x2000_1000, rw(), false),
        Err(Error::ShareViolation)
    );
}

#[test]
fn allocate_frame_needs_a_live_space_and_a_free_frame() {
    let mut mm = MemoryManager::new(1);
    assert_eq!(mm.allocate_frame(42), Err(Error::BadAddress));
    let f = mm.allocate_frame(0).unwrap();
    assert_eq!(mm.frames.states[f], FrameState::Owned(0));
    assert_eq!(mm.allocate_frame(0), Err(Error::OutOfMemory));
}

#[test]
fn misaligned_and_out_of_range_addresses_are_bad() {
    let mut mm = MemoryManager::new(8);
    let k = MemoryMapping::default();
    assert_eq!(
        map_page_inner(&mut mm, k.get_pid(), 3 * PAGE_SIZE, 0x2000_0001, rw(), false),
        Err(Error::BadAddress)
    );
    assert_eq!(
        map_page_inner(&mut mm, k.get_pid(), 3 * PAGE_SIZE + 1, 0x2000_0000, rw(), false),
        Err(Error::BadAddress)
    );
    assert_eq!(
        map_page_inner(&mut mm, k.get_pid(), 3 * PAGE_SIZE, 0xff00_0000, rw(), false),
        Err(Error::BadAddress)
    );
    assert_eq!(unmap_page_inner(&mut mm, k, 0x2000_0000), Err(Error::BadAddress));
}

#[test]
fn address_available_tracks_mapping_state() {
    let mut mm = MemoryManager::new(8);
    let k = MemoryMapping::default();
    assert!(address_available(&mm, k, 0x2000_0000));
    alloc_and_map(&mut mm, k, 0x2000_0000);
    assert!(!address_available(&mm, k, 0x2000_0000));
    unmap_page_inner(&mut mm, k, 0x2000_0000).unwrap();
    assert!(address_available(&mm, k, 0x2000_0000));
}

#[test]
fn reserve_then_touch_commits_one_frame_lazily() {
    let mut mm = MemoryManager::new(8);
    let k = MemoryMapping::default();
    k.reserve_address(&mut mm, 0x2000_0000, rw()).unwrap();
    // reserved but not yet committed: no translation
    assert_eq!(virt_to_phys(&mm, k, 0x2000_0000), Err(Error::BadAddress));
    let free_before = mm.frames.states.iter().filter(|s| **s == FrameState::Free).count();
    let phys = ensure_page_exists_inner(&mut mm, k, 0x2000_0000).unwrap();
    assert_eq!(virt_to_phys(&mm, k, 0x2000_0000), Ok(phys));
    // exactly one free frame was committed
    let free_after = mm.frames.states.iter().filter(|s| **s == FrameState::Free).count();
    assert_eq!(free_after + 1, free_before);
    assert_eq!(mm.frames.states[phys / PAGE_SIZE], FrameState::Owned(0));
    // idempotent: the second touch returns the same frame and allocates none
    assert_eq!(ensure_page_exists_inner(&mut mm, k, 0x2000_0000), Ok(phys));
    assert_eq!(
        mm.frames.states.iter().filter(|s| **s == FrameState::Free).count(),
        free_after
    );
    // touching an unreserved page is an error
    assert_eq!(
        ensure_page_exists_inner(&mut mm, k, 0x3000_0000),
        Err(Error::BadAddress)
    );
}

#[test]
fn reserving_twice_is_already_mapped() {
    let mut mm = MemoryManager::new(8);
    let k = MemoryMapping::default();
    k.reserve_address(&mut mm, 0x2000_0000, rw()).unwrap();
    assert_eq!(
        k.reserve_address(&mut mm, 0x2000_0000, rw()),
        Err(Error::AlreadyMapped)
    );
}

#[test]
fn exhausted_allocator_reports_out_of_memory_and_changes_nothing() {
    let mut mm = MemoryManager::new(2);
    let k = MemoryMapping::default();
    let f0 = alloc_and_map(&mut mm, k, 0x2000_0000);
    let f1 = alloc_and_map(&mut mm, k, 0x2000_1000);
    k.reserve_address(&mut mm, 0x2000_2000, rw()).unwrap();
    // zero frames remain free: lazy commit must fail
    assert_eq!(
        ensure_page_exists_inner(&mut mm, k, 0x2000_2000),
        Err(Error::OutOfMemory)
    );
    // and every existing mapping is unchanged
    assert_eq!(virt_to_phys(&mm, k, 0x2000_0000), Ok(f0 * PAGE_SIZE));
    assert_eq!(virt_to_phys(&mm, k, 0x2000_1000), Ok(f1 * PAGE_SIZE));
    assert_eq!(mm.frames.states[f0], FrameState::Owned(0));
    assert_eq!(mm.frames.states[f1], FrameState::Owned(0));
    assert!(conserved(&mm));
}

#[test]
fn reserved_frames_are_never_allocated() {
    let mut mm = MemoryManager::new(2);
    let k = MemoryMapping::default();
    mm.mark_reserved(0).unwrap();
    k.reserve_address(&mut mm, 0x2000_0000, rw()).unwrap();
    let phys = ensure_page_exists_inner(&mut mm, k, 0x2000_0000).unwrap();
    assert_eq!(phys, PAGE_SIZE); // frame 1, not the reserved frame 0
    assert_eq!(mm.frames.states[0], FrameState::Reserved);
    // reserving an owned frame fails
    assert_eq!(mm.mark_reserved(1), Err(Error::BadAddress));
    assert_eq!(mm.mark_reserved(7), Err(Error::BadAddress));
}

#[test]
fn frame_conservation_holds_across_operations() {
    let mut mm = MemoryManager::new(8);
    let k = MemoryMapping::default();
    assert!(conserved(&mm));
    mm.mark_reserved(7).unwrap();
    assert!(conserved(&mm));
    alloc_and_map(&mut mm, k, 0x2000_0000);
    assert!(conserved(&mm));
    k.reserve_address(&mut mm, 0x2000_1000, rw()).unwrap();
    ensure_page_exists_inner(&mut mm, k, 0x2000_1000).unwrap();
    assert!(conserved(&mm));
    unmap_page_inner(&mut mm, k, 0x2000_0000).unwrap();
    assert!(conserved(&mm));
    assert_eq!(mm.frames.states.len(), 8);
}

#[test]
fn bytes_written_are_read_back_through_translation() {
    let mut mm = MemoryManager::new(8);
    let k = MemoryMapping::default();
    alloc_and_map(&mut mm, k, 0x2000_0000);
    write_byte(&mut mm, k, 0x2000_0000 + 5, 0xA5).unwrap();
    assert_eq!(read_byte(&mm, k, 0x2000_0000 + 5), Ok(0xA5));
    assert_eq!(read_byte(&mm, k, 0x2000_0000 + 6), Ok(0));
    // unmapped addresses fault
    assert_eq!(read_byte(&mm, k, 0x3000_0000), Err(Error::BadAddress));
    assert_eq!(write_byte(&mut mm, k, 0x3000_0000, 1), Err(Error::BadAddress));
}

#[test]
fn access_flags_are_enforced_and_updatable() {
    let mut mm = MemoryManager::new(8);
    let k = MemoryMapping::default();
    let ro = MemoryFlags {
        readable: true,
        writable: false,
        executable: false,
        cacheable: true,
        user: false,
    };
    let f = mm.allocate_frame(k.get_pid()).unwrap();
    map_page_inner(&mut mm, k.get_pid(), f * PAGE_SIZE, 0x2000_0000, ro, false).unwrap();
    assert_eq!(
        write_byte(&mut mm, k, 0x2000_0000, 1),
        Err(Error::ShareViolation)
    );
    update_memory_flags(&mut mm, k, 0x2000_0000, rw()).unwrap();
    assert_eq!(write_byte(&mut mm, k, 0x2000_0000, 1), Ok(()));
    assert_eq!(
        update_memory_flags(&mut mm, k, 0x3000_0000, rw()),
        Err(Error::BadAddress)
    );
}

#[test]
fn hand_page_to_user_sets_the_user_flag_only() {
    let mut mm = MemoryManager::new(8);
    let k = MemoryMapping::default();
    alloc_and_map(&mut mm, k, 0x2000_0000);
    hand_page_to_user(&mut mm, k, 0x2000_0000).unwrap();
    let e = mm
        .entries
        .iter()
        .find(|e| e.pid == k.get_pid() && e.vpn == 0x2000_0000 / PAGE_SIZE)
        .unwrap();
    assert!(e.flags.user);
    assert!(e.flags.writable);
    assert_eq!(
        hand_page_to_user(&mut mm, k, 0x3000_0000),
        Err(Error::BadAddress)
    );
}

#[test]
fn map_user_parameter_decides_user_access() {
    let mut mm = MemoryManager::new(8);
    let k = MemoryMapping::default();
    let f = mm.allocate_frame(k.get_pid()).unwrap();
    map_page_inner(&mut mm, k.get_pid(), f * PAGE_SIZE, 0x2000_0000, rw(), true).unwrap();
    let e = mm
        .entries
        .iter()
        .find(|e| e.pid == k.get_pid() && e.vpn == 0x2000_0000 / PAGE_SIZE)
        .unwrap();
    assert!(e.flags.user);
}

#[test]
fn a_memory_map_with_no_frames_cannot_back_anything() {
    let mut mm = MemoryManager::new(0);
    let k = MemoryMapping::default();
    k.reserve_address(&mut mm, 0x2000_0000, rw()).unwrap();
    assert_eq!(
        ensure_page_exists_inner(&mut mm, k, 0x2000_0000),
        Err(Error::OutOfMemory)
    );
}

#[test]
fn unmapping_a_bare_reservation_frees_no_frame() {
    let mut mm = MemoryManager::new(8);
    let k = MemoryMapping::default();
    k.reserve_address(&mut mm, 0x2000_0000, rw()).unwrap();
    assert_eq!(unmap_page_inner(&mut mm, k, 0x2000_0000), Ok(0));
    assert!(address_available(&mm, k, 0x2000_0000));
    assert!(mm.frames.states.iter().all(|s| *s == FrameState::Free));
}

#[test]
fn allocator_hands_out_each_frame_once() {
    let mut fa = FrameAllocator::new(3);
    let a = fa.allocate(1).unwrap();
    let b = fa.allocate(1).unwrap();
    let c = fa.allocate(2).unwrap();
    assert_ne!(a, b);
    assert_ne!(a, c);
    assert_ne!(b, c);
    assert_eq!(fa.allocate(3), Err(Error::OutOfMemory));
    fa.free(b, 1);
    assert_eq!(fa.allocate(3), Ok(b));
    assert_eq!(fa.total_frames(), 3);
}
