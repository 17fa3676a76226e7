//! Plain data types shared by every component: architecture constants, the
//! error taxonomy of the syscall boundary, physical frame states, page-table
//! entries, loan records, and the address-space handle.

use vstd::prelude::*;

verus! {

/// Size of one physical page frame in bytes: the unit of ownership and of
/// every cross-process transfer.
pub const PAGE_SIZE: usize = 4096;

/// Default base of a process heap.
pub const DEFAULT_HEAP_BASE: usize = 0x2000_0000;

/// Default base of the message-passing area.
pub const DEFAULT_MESSAGE_BASE: usize = 0x4000_0000;

/// Default load address for anonymous mappings.
pub const DEFAULT_BASE: usize = 0x6000_0000;

/// First virtual address past the user-accessible area; no user mapping may
/// reach it.
pub const USER_AREA_END: usize = 0xff00_0000;

/// Number of the first virtual page past the user-accessible area.
pub const MAX_VPN: usize = USER_AREA_END / PAGE_SIZE;

/// Errors surfaced to a calling process at the syscall boundary. Conditions
/// that can only arise from kernel bugs (double free, loan-table corruption)
/// are preconditions of the verified operations, not members of this taxonomy.
#[derive(Clone, Copy, Debug, PartialEq, Eq)]
pub enum Error {
    /// No free physical frame is left.
    OutOfMemory,
    /// The address is unmapped, misaligned, out of range, or names no live
    /// address space.
    BadAddress,
    /// The virtual page already has an entry, or the identifier is already in
    /// use.
    AlreadyMapped,
    /// The operation would break the ownership or aliasing discipline: the
    /// caller does not exclusively own the page, or an outstanding loan
    /// blocks the change.
    ShareViolation,
}

/// Access flags of one virtual mapping entry.
#[derive(Clone, Copy, Debug, PartialEq, Eq)]
pub struct MemoryFlags {
    pub readable: bool,
    pub writable: bool,
    pub executable: bool,
    pub cacheable: bool,
    /// Whether code running in user mode may touch the page.
    pub user: bool,
}

/// Ownership state of one physical frame.
#[derive(Clone, Copy, Debug, PartialEq, Eq)]
pub enum FrameState {
    /// Not owned by anyone; available to the allocator.
    Free,
    /// Kernel-reserved at boot; never handed to a process.
    Reserved,
    /// Exclusively owned by the process with this identifier.
    Owned(usize),
}

/// Physical backing of one page-table entry.
#[derive(Clone, Copy, Debug, PartialEq, Eq)]
pub enum Backing {
    /// Reserved for lazy commit: no physical frame yet.
    Unbacked,
    /// Committed: backed by this physical frame number.
    Frame(usize),
}

/// One virtual mapping entry: the binding of a virtual page of one address
/// space to its backing and access flags.
#[derive(Clone, Copy, Debug, PartialEq, Eq)]
pub struct PageEntry {
    /// Identifier of the address space the entry belongs to.
    pub pid: usize,
    /// Virtual page number (virtual address divided by `PAGE_SIZE`).
    pub vpn: usize,
    pub backing: Backing,
    pub flags: MemoryFlags,
}

/// Bookkeeping record of one outstanding loan: a page temporarily shared from
/// a lender process to a borrower process.
#[derive(Clone, Copy, Debug, PartialEq, Eq)]
pub struct Loan {
    /// Physical frame on loan; still owned by the lender.
    pub frame: usize,
    /// Identifier of the lending address space.
    pub lender: usize,
    /// Identifier of the borrowing address space.
    pub borrower: usize,
    /// Virtual page number of the page in the lender's space.
    pub lender_vpn: usize,
    /// Virtual page number of the page in the borrower's space.
    pub borrower_vpn: usize,
    /// Whether the borrower holds the page read-write; if so, the lender's
    /// own write access is revoked for the loan's duration.
    pub mutable: bool,
    /// The lender's access flags before the loan, restored on return.
    pub lender_flags: MemoryFlags,
}

/// Per-space record kept by the memory manager: the identifier and whether
/// stale cached translations may still reference a prior user of it.
#[derive(Clone, Copy, Debug, PartialEq, Eq)]
pub struct SpaceInfo {
    /// Address-space identifier, unique among live spaces.
    pub pid: usize,
    /// True while activation must force a full translation-cache flush
    /// because the identifier was recycled from a torn-down space.
    pub needs_flush: bool,
}

/// Handle on one address space: the identifier that tags its translations.
#[derive(Clone, Copy, Debug, PartialEq, Eq)]
pub struct MemoryMapping {
    pub pid: usize,
}

impl MemoryMapping {
    /// The identifier of the address space this handle names.
    pub fn get_pid(self) -> (pid: usize)
        ensures
            pid == self.pid,
    {
        self.pid
    }
}

impl Default for MemoryMapping {
    /// The mapping of the kernel itself, which owns identifier 0.
    fn default() -> (r: Self)
        ensures
            r.pid == 0,
    {
        MemoryMapping { pid: 0 }
    }
}

} // verus!
