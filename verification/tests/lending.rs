use kernel_mem::lending::lend_page_inner;
use kernel_mem::lending::move_page_inner;
use kernel_mem::lending::return_page_inner;
use kernel_mem::lending::terminate_process;
use kernel_mem::manager::address_available;
use kernel_mem::manager::map_page_inner;
use kernel_mem::manager::read_byte;
use kernel_mem::manager::update_memory_flags;
use kernel_mem::manager::virt_to_phys;
use kernel_mem::manager::write_byte;
use kernel_mem::manager::MemoryManager;
use kernel_mem::types::Error;
use kernel_mem::types::FrameState;
use kernel_mem::types::MemoryFlags;
use kernel_mem::types::MemoryMapping;
use kernel_mem::types::PAGE_SIZE;

fn rw() -> MemoryFlags {
    MemoryFlags { readable: true, writable: true, executable: false, cacheable: true, user: true }
}

const V: usize = 0x2000_0000;
const W: usize = 0x4000_0000;

/// One page mapped at `V` in a fresh space `A`; returns its frame too.
fn setup() -> (MemoryManager, MemoryMapping, MemoryMapping, usize) {
    let mut mm = MemoryManager::new(8);
    let a = mm.create_space(1).unwrap();
    let b = mm.create_space(2).unwrap();
    let f = mm.allocate_frame(a.get_pid()).unwrap();
    map_page_inner(&mut mm, a.get_pid(), f * PAGE_SIZE, V, rw(), true).unwrap();
    (mm, a, b, f)
}

#[test]
fn lend_and_return_round_trip_restores_the_lender() {
    let (mut mm, a, b, f) = setup();
    let flags_before = mm.entries.iter().find(|e| e.pid == 1).unwrap().flags;
    let owner_before = mm.frames.states[f];

    let token = lend_page_inner(&mut mm, &a, V, b.get_pid(), &b, W, true).unwrap();
    assert_eq!(token, f * PAGE_SIZE);
    // both sides see the same frame while the loan is outstanding
    assert_eq!(virt_to_phys(&mm, a, V), Ok(f * PAGE_SIZE));
    assert_eq!(virt_to_phys(&mm, b, W), Ok(f * PAGE_SIZE));
    // ownership never moved
    assert_eq!(mm.frames.states[f], FrameState::Owned(1));

    let size = return_page_inner(&mut mm, &b, W, a.get_pid(), &a, V).unwrap();
    assert_eq!(size, PAGE_SIZE);
    // the lender's mapping and flags are exactly as before the lend
    let e = mm.entries.iter().find(|e| e.pid == 1).unwrap();
    assert_eq!(e.flags, flags_before);
    assert_eq!(virt_to_phys(&mm, a, V), Ok(f * PAGE_SIZE));
    // the borrower's mapping is gone and ownership is as before
    assert!(address_available(&mm, b, W));
    assert_eq!(mm.frames.states[f], owner_before);
    assert!(mm.loans.is_empty());
}

#[test]
fn mutable_loan_revokes_the_lenders_write_access() {
    let (mut mm, a, b, _f) = setup();
    write_byte(&mut mm, a, V, 7).unwrap();
    lend_page_inner(&mut mm, &a, V, b.get_pid(), &b, W, true).unwrap();
    // the lender may still read, but no longer write
    assert_eq!(read_byte(&mm, a, V), Ok(7));
    assert_eq!(write_byte(&mut mm, a, V, 9), Err(Error::ShareViolation));
    // the borrower is the one writer
    write_byte(&mut mm, b, W, 9).unwrap();
    assert_eq!(read_byte(&mm, b, W), Ok(9));
}

#[test]
fn concurrent_lend_of_a_lent_page_fails() {
    let (mut mm, a, b, _f) = setup();
    let c = mm.create_space(3).unwrap();
    lend_page_inner(&mut mm, &a, V, b.get_pid(), &b, W, true).unwrap();
    // the same lender cannot lend the same page again, mutably or not
    assert_eq!(
        lend_page_inner(&mut mm, &a, V, c.get_pid(), &c, W, true),
        Err(Error::ShareViolation)
    );
    assert_eq!(
        lend_page_inner(&mut mm, &a, V, c.get_pid(), &c, W, false),
        Err(Error::ShareViolation)
    );
}

#[test]
fn immutable_loan_keeps_the_borrower_read_only() {
    let (mut mm, a, b, _f) = setup();
    write_byte(&mut mm, a, V, 3).unwrap();
    lend_page_inner(&mut mm, &a, V, b.get_pid(), &b, W, false).unwrap();
    assert_eq!(read_byte(&mm, b, W), Ok(3));
    assert_eq!(write_byte(&mut mm, b, W, 4), Err(Error::ShareViolation));
    // the lender keeps write access under a read-only loan
    assert_eq!(write_byte(&mut mm, a, V, 5), Ok(()));
    assert_eq!(read_byte(&mm, b, W), Ok(5));
}

#[test]
fn a_borrowed_page_cannot_be_lent_onward() {
    let (mut mm, a, b, _f) = setup();
    let c = mm.create_space(3).unwrap();
    lend_page_inner(&mut mm, &a, V, b.get_pid(), &b, W, true).unwrap();
    // B holds the page only as a borrower: re-lending must fail
    assert_eq!(
        lend_page_inner(&mut mm, &b, W, c.get_pid(), &c, V, true),
        Err(Error::ShareViolation)
    );
    assert_eq!(
        lend_page_inner(&mut mm, &b, W, c.get_pid(), &c, V, false),
        Err(Error::ShareViolation)
    );
}

#[test]
fn lending_an_unowned_or_unmapped_page_fails() {
    let (mut mm, a, b, _f) = setup();
    // B has no mapping at W
    assert_eq!(
        lend_page_inner(&mut mm, &b, W, a.get_pid(), &a, W, true),
        Err(Error::BadAddress)
    );
    // lending to oneself is refused
    assert_eq!(
        lend_page_inner(&mut mm, &a, V, a.get_pid(), &a, W, true),
        Err(Error::ShareViolation)
    );
    // the destination page must be free
    let g = mm.allocate_frame(b.get_pid()).unwrap();
    map_page_inner(&mut mm, b.get_pid(), g * PAGE_SIZE, W, rw(), true).unwrap();
    assert_eq!(
        lend_page_inner(&mut mm, &a, V, b.get_pid(), &b, W, true),
        Err(Error::AlreadyMapped)
    );
}

#[test]
fn returning_without_a_matching_loan_fails() {
    let (mut mm, a, b, _f) = setup();
    assert_eq!(
        return_page_inner(&mut mm, &b, W, a.get_pid(), &a, V),
        Err(Error::BadAddress)
    );
    lend_page_inner(&mut mm, &a, V, b.get_pid(), &b, W, true).unwrap();
    // wrong borrower address
    assert_eq!(
        return_page_inner(&mut mm, &b, W + PAGE_SIZE, a.get_pid(), &a, V),
        Err(Error::BadAddress)
    );
    // wrong lender
    let c = mm.create_space(3).unwrap();
    assert_eq!(
        return_page_inner(&mut mm, &b, W, c.get_pid(), &c, V),
        Err(Error::BadAddress)
    );
}

#[test]
fn flags_of_a_lent_page_cannot_change() {
    let (mut mm, a, b, _f) = setup();
    lend_page_inner(&mut mm, &a, V, b.get_pid(), &b, W, true).unwrap();
    // neither side may repaint access while the loan is outstanding
    assert_eq!(
        update_memory_flags(&mut mm, a, V, rw()),
        Err(Error::ShareViolation)
    );
    assert_eq!(
        update_memory_flags(&mut mm, b, W, rw()),
        Err(Error::ShareViolation)
    );
}

#[test]
fn unmapping_a_lent_page_fails_until_returned() {
    let (mut mm, a, b, f) = setup();
    lend_page_inner(&mut mm, &a, V, b.get_pid(), &b, W, true).unwrap();
    assert_eq!(
        kernel_mem::manager::unmap_page_inner(&mut mm, a, V),
        Err(Error::ShareViolation)
    );
    return_page_inner(&mut mm, &b, W, a.get_pid(), &a, V).unwrap();
    assert_eq!(
        kernel_mem::manager::unmap_page_inner(&mut mm, a, V),
        Ok(f * PAGE_SIZE)
    );
}

#[test]
fn move_transfers_ownership_without_copying() {
    let (mut mm, a, b, f) = setup();
    write_byte(&mut mm, a, V, 0x5C).unwrap();
    move_page_inner(&mut mm, &a, V, b.get_pid(), &b, W).unwrap();
    // the page left A and arrived in B, same frame, same contents
    assert_eq!(virt_to_phys(&mm, a, V), Err(Error::BadAddress));
    assert_eq!(virt_to_phys(&mm, b, W), Ok(f * PAGE_SIZE));
    assert_eq!(mm.frames.states[f], FrameState::Owned(2));
    assert_eq!(read_byte(&mm, b, W), Ok(0x5C));
}

#[test]
fn a_lent_page_cannot_be_moved() {
    let (mut mm, a, b, _f) = setup();
    let c = mm.create_space(3).unwrap();
    lend_page_inner(&mut mm, &a, V, b.get_pid(), &b, W, true).unwrap();
    assert_eq!(
        move_page_inner(&mut mm, &a, V, c.get_pid(), &c, V),
        Err(Error::ShareViolation)
    );
}

#[test]
fn termination_sweeps_loans_and_frames() {
    let (mut mm, a, b, f) = setup();
    let c = mm.create_space(3).unwrap();
    // A lends to B; C lends to A: the sweep of A must revoke both
    let fc = mm.allocate_frame(c.get_pid()).unwrap();
    map_page_inner(&mut mm, c.get_pid(), fc * PAGE_SIZE, V, rw(), true).unwrap();
    lend_page_inner(&mut mm, &a, V, b.get_pid(), &b, W, true).unwrap();
    lend_page_inner(&mut mm, &c, V, a.get_pid(), &a, W, false).unwrap();
    assert_eq!(mm.loans.len(), 2);

    terminate_process(&mut mm, a.get_pid()).unwrap();
    // all loans involving A are gone, and A's space with them
    assert!(mm.loans.is_empty());
    assert!(mm.spaces.iter().all(|s| s.pid != 1));
    assert!(mm.entries.iter().all(|e| e.pid != 1));
    // A's frame was freed; B's borrowed view of it is gone
    assert_eq!(mm.frames.states[f], FrameState::Free);
    assert!(address_available(&mm, b, W));
    // C got its page back, with its access restored
    assert_eq!(mm.frames.states[fc], FrameState::Owned(3));
    assert_eq!(virt_to_phys(&mm, c, V), Ok(fc * PAGE_SIZE));
    assert_eq!(write_byte(&mut mm, c, V, 1), Ok(()));
    // terminating a dead space is an error
    assert_eq!(terminate_process(&mut mm, 1), Err(Error::BadAddress));
}

#[test]
fn termination_leaves_unrelated_loans_outstanding() {
    let (mut mm, a, b, _f) = setup();
    let c = mm.create_space(3).unwrap();
    let fc = mm.allocate_frame(c.get_pid()).unwrap();
    map_page_inner(&mut mm, c.get_pid(), fc * PAGE_SIZE, V, rw(), true).unwrap();
    lend_page_inner(&mut mm, &c, V, b.get_pid(), &b, W, true).unwrap();
    terminate_process(&mut mm, a.get_pid()).unwrap();
    assert_eq!(mm.loans.len(), 1);
    assert_eq!(mm.loans[0].lender, 3);
    assert_eq!(mm.loans[0].borrower, 2);
    assert_eq!(virt_to_phys(&mm, b, W), Ok(fc * PAGE_SIZE));
}

#[test]
fn recycled_identifiers_force_a_flush_on_activation() {
    let (mut mm, a, _b, _f) = setup();
    a.activate(&mut mm).unwrap();
    assert_eq!(MemoryMapping::current(&mm).get_pid(), 1);
    terminate_process(&mut mm, 1).unwrap();
    // a fresh space under the recycled identifier starts with flush debt
    let a2 = mm.create_space(1).unwrap();
    let rec = mm.spaces.iter().find(|s| s.pid == 1).unwrap();
    assert!(rec.needs_flush);
    // activation clears it: the full flush happened
    a2.activate(&mut mm).unwrap();
    let rec = mm.spaces.iter().find(|s| s.pid == 1).unwrap();
    assert!(!rec.needs_flush);
    // a never-recycled identifier carries no debt
    let d = mm.create_space(9).unwrap();
    assert!(!mm.spaces.iter().find(|s| s.pid == 9).unwrap().needs_flush);
    assert_eq!(d.activate(&mut mm), Ok(()));
    // activating a space that never existed fails
    let ghost_handle = MemoryMapping { pid: 77 };
    assert_eq!(ghost_handle.activate(&mut mm), Err(Error::BadAddress));
}

#[test]
fn duplicate_identifiers_are_rejected() {
    let mut mm = MemoryManager::new(8);
    mm.create_space(1).unwrap();
    assert_eq!(mm.create_space(1).map(|m| m.get_pid()), Err(Error::AlreadyMapped));
    // identifier 0 is the kernel's own space
    assert_eq!(mm.create_space(0).map(|m| m.get_pid()), Err(Error::AlreadyMapped));
}

#[test]
fn marker_round_trip_between_two_processes() {
    // process A allocates one page at V, writes a marker, lends it
    // read-write to B at W; B reads the marker, overwrites it, returns the
    // loan; A observes B's value and B's mapping is invalid
    let (mut mm, a, b, _f) = setup();
    write_byte(&mut mm, a, V + 42, 0xC3).unwrap();
    lend_page_inner(&mut mm, &a, V, b.get_pid(), &b, W, true).unwrap();
    assert_eq!(read_byte(&mm, b, W + 42), Ok(0xC3));
    write_byte(&mut mm, b, W + 42, 0x3C).unwrap();
    return_page_inner(&mut mm, &b, W, a.get_pid(), &a, V).unwrap();
    assert_eq!(read_byte(&mm, a, V + 42), Ok(0x3C));
    assert_eq!(read_byte(&mm, b, W + 42), Err(Error::BadAddress));
    assert_eq!(virt_to_phys(&mm, b, W), Err(Error::BadAddress));
}
