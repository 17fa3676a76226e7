//! Process-wide memory manager: every live address space, every page-table
//! entry, the loan table, and the backing physical memory. All syscall-facing
//! operations act on this one structure, so the kernel's exclusion discipline
//! (interrupts disabled, one mutator at a time) is mirrored here by plain
//! `&mut` access.
//!
//! The page tables of all spaces live in one flat table of [`PageEntry`]
//! records keyed by (space identifier, virtual page number); the loan table is
//! flat and keyed by physical frame, which keeps the loan graph a single
//! lender/borrower edge per page.

use vstd::prelude::*;

use crate::frames::FrameAllocator;
use crate::types::Backing;
use crate::types::Error;
use crate::types::FrameState;
use crate::types::Loan;
use crate::types::MemoryFlags;
use crate::types::MemoryMapping;
use crate::types::PageEntry;
use crate::types::SpaceInfo;
use crate::types::MAX_VPN;
use crate::types::PAGE_SIZE;
use crate::types::USER_AREA_END;

verus! {

/// Some live address space carries the identifier `pid`.
pub open spec fn has_space_spec(spaces: Seq<SpaceInfo>, pid: usize) -> bool {
    exists|i: int| 0 <= i < spaces.len() && spaces[i].pid == pid
}

/// Live address-space identifiers are unique.
pub open spec fn unique_pids(spaces: Seq<SpaceInfo>) -> bool {
    forall|i: int, j: int|
        0 <= i < j < spaces.len() ==> spaces[i].pid != spaces[j].pid
}

/// Space `pid` has an entry for virtual page `vpn`.
pub open spec fn has_entry(es: Seq<PageEntry>, pid: usize, vpn: usize) -> bool {
    exists|i: int| 0 <= i < es.len() && es[i].pid == pid && es[i].vpn == vpn
}

/// The exact entry `e` stands in the table.
pub open spec fn entry_is(es: Seq<PageEntry>, e: PageEntry) -> bool {
    exists|i: int| 0 <= i < es.len() && es[i] == e
}

/// A virtual page of one space has at most one entry.
pub open spec fn unique_entry_keys(es: Seq<PageEntry>) -> bool {
    forall|i: int, j: int|
        0 <= i < j < es.len() ==> !(es[i].pid == es[j].pid && es[i].vpn == es[j].vpn)
}

/// Some outstanding loan covers the frame.
pub open spec fn has_loan_on(ls: Seq<Loan>, frame: usize) -> bool {
    exists|i: int| 0 <= i < ls.len() && ls[i].frame == frame
}

/// The exact loan `l` is outstanding.
pub open spec fn loan_is(ls: Seq<Loan>, l: Loan) -> bool {
    exists|i: int| 0 <= i < ls.len() && ls[i] == l
}

/// A frame is on loan at most once: the loan graph is flat.
pub open spec fn unique_loan_frames(ls: Seq<Loan>) -> bool {
    forall|i: int, j: int| 0 <= i < j < ls.len() ==> ls[i].frame != ls[j].frame
}

/// The process is a side of the loan, as lender or as borrower.
pub open spec fn loan_involves(l: Loan, pid: usize) -> bool {
    l.lender == pid || l.borrower == pid
}

/// The entry is the borrower-side mapping of an outstanding loan on `f`.
pub open spec fn is_borrower_entry(ls: Seq<Loan>, e: PageEntry, f: usize) -> bool {
    exists|j: int|
        0 <= j < ls.len() && ls[j].frame == f && ls[j].borrower == e.pid
            && ls[j].borrower_vpn == e.vpn
}

/// The identifier occurs in the recycled-identifier list.
pub open spec fn pid_in(s: Seq<usize>, pid: usize) -> bool {
    exists|i: int| 0 <= i < s.len() && s[i] == pid
}

/// The lender side of loan `l` keeps its mapping entry, write access revoked
/// while the loan is mutable.
pub open spec fn lender_entry_ok(es: Seq<PageEntry>, l: Loan) -> bool {
    exists|i: int|
        0 <= i < es.len() && {
            let e = #[trigger] es[i];
            &&& e.pid == l.lender
            &&& e.vpn == l.lender_vpn
            &&& e.backing == Backing::Frame(l.frame)
            &&& (l.mutable ==> !e.flags.writable)
        }
}

/// The borrower side of loan `l` keeps its mapping entry, writable exactly
/// when the loan is mutable.
pub open spec fn borrower_entry_ok(es: Seq<PageEntry>, l: Loan) -> bool {
    exists|i: int|
        0 <= i < es.len() && {
            let e = #[trigger] es[i];
            &&& e.pid == l.borrower
            &&& e.vpn == l.borrower_vpn
            &&& e.backing == Backing::Frame(l.frame)
            &&& e.flags.writable == l.mutable
        }
}

/// Translation succeeds with physical address `phys`: a backed entry of the
/// space covers the page, and `phys` is its frame's base plus the offset.
pub open spec fn translate_ok(mm: MemoryManager, pid: usize, virt: usize, phys: usize) -> bool {
    exists|i: int|
        0 <= i < mm.entries@.len() && {
            let e = #[trigger] mm.entries@[i];
            &&& e.pid == pid
            &&& e.vpn == virt / PAGE_SIZE
            &&& (e.backing matches Backing::Frame(f) && phys == f * PAGE_SIZE + virt % PAGE_SIZE)
        }
}

/// Space `pid` has an entry for `vpn` that is committed to a frame.
pub open spec fn has_backed_entry(es: Seq<PageEntry>, pid: usize, vpn: usize) -> bool {
    exists|i: int|
        0 <= i < es.len() && (#[trigger] es[i]).pid == pid && es[i].vpn == vpn
            && es[i].backing is Frame
}

/// Translation fails: the space has no committed frame under the page.
pub open spec fn translate_fails(mm: MemoryManager, pid: usize, virt: usize) -> bool {
    forall|i: int|
        0 <= i < mm.entries@.len()
            ==> !((#[trigger] mm.entries@[i]).pid == pid && mm.entries@[i].vpn == virt / PAGE_SIZE
                && mm.entries@[i].backing is Frame)
}

/// Exact effect of mapping the frame under `phys` at `virt` in space `pid`:
/// the space, which must already own the frame — allocation assigned it, and
/// no page of the space binds it yet — gains exactly one entry binding the
/// page to it. Ownership itself never changes here: the allocator assigns
/// frames, the page table only binds them.
pub open spec fn map_effect(
    pre: MemoryManager,
    post: MemoryManager,
    pid: usize,
    virt: usize,
    phys: usize,
    flags: MemoryFlags,
) -> bool {
    let vpn = virt / PAGE_SIZE;
    let frame = phys / PAGE_SIZE;
    &&& virt % PAGE_SIZE == 0 && virt < USER_AREA_END
    &&& phys % PAGE_SIZE == 0 && frame < pre.frames.states@.len()
    &&& has_space_spec(pre.spaces@, pid)
    &&& !has_entry(pre.entries@, pid, vpn)
    &&& pre.frames.states@[frame as int] == FrameState::Owned(pid)
    &&& (forall|i: int|
        0 <= i < pre.entries@.len() ==> !((#[trigger] pre.entries@[i]).pid == pid
            && pre.entries@[i].backing == Backing::Frame(frame)))
    &&& post.entries@ == pre.entries@.push(
        PageEntry { pid, vpn, backing: Backing::Frame(frame), flags },
    )
    &&& post.frames == pre.frames
    &&& post.mem@ == pre.mem@
    &&& post.spaces@ == pre.spaces@
    &&& post.loans@ == pre.loans@
    &&& post.active == pre.active
    &&& post.stale@ == pre.stale@
}

/// Exact effect of unmapping the page under `virt` in space `pid`, where `p`
/// is the returned physical address: the entry is removed and every other
/// entry survives; a committed frame, necessarily not on loan, returns to the
/// free pool.
pub open spec fn unmap_effect(
    pre: MemoryManager,
    post: MemoryManager,
    pid: usize,
    virt: usize,
    p: usize,
) -> bool {
    let vpn = virt / PAGE_SIZE;
    &&& virt % PAGE_SIZE == 0
    &&& exists|i: int|
        0 <= i < pre.entries@.len() && (#[trigger] pre.entries@[i]).pid == pid
            && pre.entries@[i].vpn == vpn && post.entries@ == pre.entries@.remove(i) && (
        match pre.entries@[i].backing {
            Backing::Frame(f) => !has_loan_on(pre.loans@, f) && p == f * PAGE_SIZE
                && post.frames.states@ == pre.frames.states@.update(f as int, FrameState::Free),
            Backing::Unbacked => p == 0 && post.frames == pre.frames,
        })
    &&& !has_entry(post.entries@, pid, vpn)
    &&& forall|j: int|
        0 <= j < pre.entries@.len() && !((#[trigger] pre.entries@[j]).pid == pid
            && pre.entries@[j].vpn == vpn) ==> entry_is(post.entries@, pre.entries@[j])
    &&& forall|j: int|
        0 <= j < post.entries@.len() ==> entry_is(pre.entries@, #[trigger] post.entries@[j])
    &&& post.mem@ == pre.mem@
    &&& post.spaces@ == pre.spaces@
    &&& post.loans@ == pre.loans@
    &&& post.active == pre.active
    &&& post.stale@ == pre.stale@
}

/// The loan witness entries survive appending an entry.
pub(crate) proof fn lemma_loan_entries_push(es: Seq<PageEntry>, v: PageEntry, l: Loan)
    requires
        lender_entry_ok(es, l),
        borrower_entry_ok(es, l),
    ensures
        lender_entry_ok(es.push(v), l),
        borrower_entry_ok(es.push(v), l),
{
    let i = choose|i: int|
        0 <= i < es.len() && {
            let e = #[trigger] es[i];
            &&& e.pid == l.lender
            &&& e.vpn == l.lender_vpn
            &&& e.backing == Backing::Frame(l.frame)
            &&& (l.mutable ==> !e.flags.writable)
        };
    assert(es.push(v)[i] == es[i]);
    let j = choose|j: int|
        0 <= j < es.len() && {
            let e = #[trigger] es[j];
            &&& e.pid == l.borrower
            &&& e.vpn == l.borrower_vpn
            &&& e.backing == Backing::Frame(l.frame)
            &&& e.flags.writable == l.mutable
        };
    assert(es.push(v)[j] == es[j]);
}

/// The loan witness entries survive overwriting an entry that does not map
/// the loan's frame.
pub(crate) proof fn lemma_loan_entries_update(es: Seq<PageEntry>, k: int, v: PageEntry, l: Loan)
    requires
        0 <= k < es.len(),
        es[k].backing != Backing::Frame(l.frame),
        lender_entry_ok(es, l),
        borrower_entry_ok(es, l),
    ensures
        lender_entry_ok(es.update(k, v), l),
        borrower_entry_ok(es.update(k, v), l),
{
    let i = choose|i: int|
        0 <= i < es.len() && {
            let e = #[trigger] es[i];
            &&& e.pid == l.lender
            &&& e.vpn == l.lender_vpn
            &&& e.backing == Backing::Frame(l.frame)
            &&& (l.mutable ==> !e.flags.writable)
        };
    assert(es.update(k, v)[i] == es[i]);
    let j = choose|j: int|
        0 <= j < es.len() && {
            let e = #[trigger] es[j];
            &&& e.pid == l.borrower
            &&& e.vpn == l.borrower_vpn
            &&& e.backing == Backing::Frame(l.frame)
            &&& e.flags.writable == l.mutable
        };
    assert(es.update(k, v)[j] == es[j]);
}

/// The loan witness entries survive removing an entry that does not map the
/// loan's frame.
pub(crate) proof fn lemma_loan_entries_remove(es: Seq<PageEntry>, k: int, l: Loan)
    requires
        0 <= k < es.len(),
        es[k].backing != Backing::Frame(l.frame),
        lender_entry_ok(es, l),
        borrower_entry_ok(es, l),
    ensures
        lender_entry_ok(es.remove(k), l),
        borrower_entry_ok(es.remove(k), l),
{
    let i = choose|i: int|
        0 <= i < es.len() && {
            let e = #[trigger] es[i];
            &&& e.pid == l.lender
            &&& e.vpn == l.lender_vpn
            &&& e.backing == Backing::Frame(l.frame)
            &&& (l.mutable ==> !e.flags.writable)
        };
    if i < k {
        assert(es.remove(k)[i] == es[i]);
    } else {
        assert(es.remove(k)[i - 1] == es[i]);
    }
    let j = choose|j: int|
        0 <= j < es.len() && {
            let e = #[trigger] es[j];
            &&& e.pid == l.borrower
            &&& e.vpn == l.borrower_vpn
            &&& e.backing == Backing::Frame(l.frame)
            &&& e.flags.writable == l.mutable
        };
    if j < k {
        assert(es.remove(k)[j] == es[j]);
    } else {
        assert(es.remove(k)[j - 1] == es[j]);
    }
}

/// A live space stays live when a new space is pushed.
pub(crate) proof fn lemma_has_space_push(spaces: Seq<SpaceInfo>, v: SpaceInfo, pid: usize)
    requires
        has_space_spec(spaces, pid),
    ensures
        has_space_spec(spaces.push(v), pid),
{
    let i = choose|i: int| 0 <= i < spaces.len() && spaces[i].pid == pid;
    assert(spaces.push(v)[i] == spaces[i]);
}

/// A live space stays live when a record is overwritten without changing its
/// identifier.
pub(crate) proof fn lemma_has_space_update(spaces: Seq<SpaceInfo>, k: int, v: SpaceInfo, pid: usize)
    requires
        0 <= k < spaces.len(),
        v.pid == spaces[k].pid,
        has_space_spec(spaces, pid),
    ensures
        has_space_spec(spaces.update(k, v), pid),
{
    let i = choose|i: int| 0 <= i < spaces.len() && spaces[i].pid == pid;
    if i == k {
        assert(spaces.update(k, v)[k].pid == pid);
    } else {
        assert(spaces.update(k, v)[i] == spaces[i]);
    }
}

/// A live space stays live when a different space is removed.
pub(crate) proof fn lemma_has_space_remove(spaces: Seq<SpaceInfo>, k: int, pid: usize)
    requires
        0 <= k < spaces.len(),
        spaces[k].pid != pid,
        has_space_spec(spaces, pid),
    ensures
        has_space_spec(spaces.remove(k), pid),
{
    let i = choose|i: int| 0 <= i < spaces.len() && spaces[i].pid == pid;
    if i < k {
        assert(spaces.remove(k)[i] == spaces[i]);
    } else {
        assert(spaces.remove(k)[i - 1] == spaces[i]);
    }
}

/// No entry of any space maps a free frame.
pub(crate) proof fn lemma_free_frame_unmapped(mm: MemoryManager, frame: usize)
    requires
        mm.wf(),
        frame < mm.frames.states@.len(),
        mm.frames.states@[frame as int] is Free,
    ensures
        forall|k: int|
            0 <= k < mm.entries@.len() ==> (#[trigger] mm.entries@[k]).backing != Backing::Frame(
                frame,
            ),
{
    assert forall|k: int|
        0 <= k < mm.entries@.len() implies (#[trigger] mm.entries@[k]).backing
        != Backing::Frame(frame) by {
        let e = mm.entries@[k];
        assert(mm.wf_entry(e));
        match e.backing {
            Backing::Frame(f) => {
                if f == frame && mm.frames.states@[f as int] != FrameState::Owned(e.pid) {
                    let j = choose|j: int|
                        0 <= j < mm.loans@.len() && mm.loans@[j].frame == f
                            && mm.loans@[j].borrower == e.pid && mm.loans@[j].borrower_vpn
                            == e.vpn;
                    assert(mm.wf_loan(mm.loans@[j]));
                }
            },
            Backing::Unbacked => {},
        }
    }
}

/// An entry that maps a frame free of loans belongs to the frame's owner.
pub(crate) proof fn lemma_mapper_owns(mm: MemoryManager, k: int, f: usize)
    requires
        mm.wf(),
        0 <= k < mm.entries@.len(),
        mm.entries@[k].backing == Backing::Frame(f),
        !has_loan_on(mm.loans@, f),
    ensures
        f < mm.frames.states@.len(),
        mm.frames.states@[f as int] == FrameState::Owned(mm.entries@[k].pid),
{
    let e = mm.entries@[k];
    assert(mm.wf_entry(e));
    if mm.frames.states@[f as int] != FrameState::Owned(e.pid) {
        let j = choose|j: int|
            0 <= j < mm.loans@.len() && mm.loans@[j].frame == f && mm.loans@[j].borrower == e.pid
                && mm.loans@[j].borrower_vpn == e.vpn;
        assert(0 <= j < mm.loans@.len() && mm.loans@[j].frame == f);
    }
}

/// A borrower-side witness survives removing a loan on a different frame.
pub(crate) proof fn lemma_borrower_entry_loan_remove(ls: Seq<Loan>, k: int, e: PageEntry, f: usize)
    requires
        0 <= k < ls.len(),
        ls[k].frame != f,
        is_borrower_entry(ls, e, f),
    ensures
        is_borrower_entry(ls.remove(k), e, f),
{
    let j = choose|j: int|
        0 <= j < ls.len() && ls[j].frame == f && ls[j].borrower == e.pid && ls[j].borrower_vpn
            == e.vpn;
    if j < k {
        assert(ls.remove(k)[j] == ls[j]);
    } else {
        assert(ls.remove(k)[j - 1] == ls[j]);
    }
}

/// The singleton coordinating all address spaces and the physical memory.
pub struct MemoryManager {
    /// Ownership state of every physical frame.
    pub frames: FrameAllocator,
    /// The physical memory itself, one byte per address; frame `f` backs
    /// `mem[f * PAGE_SIZE .. (f + 1) * PAGE_SIZE]`.
    pub mem: Vec<u8>,
    /// The live address spaces.
    pub spaces: Vec<SpaceInfo>,
    /// Every virtual mapping entry of every live space.
    pub entries: Vec<PageEntry>,
    /// Every outstanding loan.
    pub loans: Vec<Loan>,
    /// Identifier of the address space whose translations are live.
    pub active: usize,
    /// Identifiers recycled from torn-down spaces; activation of a new space
    /// under one of these must force a full translation-cache flush.
    pub stale: Vec<usize>,
}

impl MemoryManager {
    /// One mapping entry is consistent with frame ownership: a backed page
    /// either belongs to the space that owns its frame, or is the borrower
    /// side of the one outstanding loan on that frame.
    pub open spec fn wf_entry(self, e: PageEntry) -> bool {
        &&& e.vpn < MAX_VPN
        &&& has_space_spec(self.spaces@, e.pid)
        &&& (e.backing matches Backing::Frame(f) ==> {
            &&& f < self.frames.states@.len()
            &&& (self.frames.states@[f as int] == FrameState::Owned(e.pid) || is_borrower_entry(
                self.loans@,
                e,
                f,
            ))
        })
    }

    /// One loan is consistent: its frame stays owned by the lender, the two
    /// sides are distinct spaces, and both sides keep a mapping entry for the
    /// frame — the lender's stripped of write access while the loan is
    /// mutable, the borrower's writable exactly when it is.
    pub open spec fn wf_loan(self, l: Loan) -> bool {
        &&& l.frame < self.frames.states@.len()
        &&& self.frames.states@[l.frame as int] == FrameState::Owned(l.lender)
        &&& l.lender != l.borrower
        &&& lender_entry_ok(self.entries@, l)
        &&& borrower_entry_ok(self.entries@, l)
    }

    /// The systemwide well-formedness invariant, established at boot and
    /// preserved by every operation.
    pub open spec fn wf(self) -> bool {
        &&& self.frames.states@.len() * PAGE_SIZE <= usize::MAX
        &&& self.mem@.len() == self.frames.states@.len() * PAGE_SIZE
        &&& unique_pids(self.spaces@)
        &&& unique_entry_keys(self.entries@)
        &&& unique_loan_frames(self.loans@)
        &&& forall|i: int|
            0 <= i < self.entries@.len() ==> self.wf_entry(#[trigger] self.entries@[i])
        &&& forall|i: int, j: int|
            0 <= i < j < self.entries@.len() && self.entries@[i].backing is Frame
                && self.entries@[i].backing == self.entries@[j].backing
                ==> self.entries@[i].pid != self.entries@[j].pid
        &&& forall|i: int|
            0 <= i < self.loans@.len() ==> self.wf_loan(#[trigger] self.loans@[i])
        &&& forall|f: int|
            0 <= f < self.frames.states@.len() && self.frames.states@[f] is Owned
                ==> has_space_spec(self.spaces@, self.frames.states@[f]->0)
    }

    /// Boot-time initialization from the physical memory map: `n_frames`
    /// frames of zeroed memory, all free, and the kernel's own address space
    /// under identifier 0, active.
    pub fn new(n_frames: usize) -> (r: Self)
        requires
            n_frames <= usize::MAX as int / PAGE_SIZE as int,
        ensures
            r.wf(),
            r.frames.states@.len() == n_frames,
            forall|f: int| 0 <= f < n_frames ==> r.frames.states@[f] is Free,
            r.spaces@ =~= seq![SpaceInfo { pid: 0, needs_flush: false }],
            r.entries@ =~= Seq::<PageEntry>::empty(),
            r.loans@ =~= Seq::<Loan>::empty(),
            r.active == 0,
            forall|a: int| 0 <= a < r.mem@.len() ==> r.mem@[a] == 0u8,
    {
        let frames = FrameAllocator::new(n_frames);
        let bytes: usize = n_frames * PAGE_SIZE;
        let mut mem: Vec<u8> = Vec::new();
        let mut a: usize = 0;
        while a < bytes
            invariant
                a <= bytes,
                mem@.len() == a,
                forall|k: int| 0 <= k < a ==> mem@[k] == 0u8,
            decreases bytes - a,
        {
            mem.push(0u8);
            a = a + 1;
        }
        let mut spaces: Vec<SpaceInfo> = Vec::new();
        spaces.push(SpaceInfo { pid: 0, needs_flush: false });
        MemoryManager {
            frames,
            mem,
            spaces,
            entries: Vec::new(),
            loans: Vec::new(),
            active: 0,
            stale: Vec::new(),
        }
    }

    /// Index of the live space carrying `pid`, if any.
    pub(crate) fn find_space(&self, pid: usize) -> (r: Option<usize>)
        ensures
            match r {
                Some(i) => i < self.spaces@.len() && self.spaces@[i as int].pid == pid,
                None => !has_space_spec(self.spaces@, pid),
            },
    {
        let n = self.spaces.len();
        let mut i: usize = 0;
        while i < n
            invariant
                i <= n,
                n == self.spaces@.len(),
                forall|j: int| 0 <= j < i ==> self.spaces@[j].pid != pid,
            decreases n - i,
        {
            if self.spaces[i].pid == pid {
                return Some(i);
            }
            i = i + 1;
        }
        None
    }

    /// Index of the entry of space `pid` for virtual page `vpn`, if any.
    pub(crate) fn find_entry(&self, pid: usize, vpn: usize) -> (r: Option<usize>)
        ensures
            match r {
                Some(i) => i < self.entries@.len() && self.entries@[i as int].pid == pid
                    && self.entries@[i as int].vpn == vpn,
                None => !has_entry(self.entries@, pid, vpn),
            },
    {
        let n = self.entries.len();
        let mut i: usize = 0;
        while i < n
            invariant
                i <= n,
                n == self.entries@.len(),
                forall|j: int|
                    0 <= j < i ==> !(self.entries@[j].pid == pid && self.entries@[j].vpn == vpn),
            decreases n - i,
        {
            if self.entries[i].pid == pid && self.entries[i].vpn == vpn {
                return Some(i);
            }
            i = i + 1;
        }
        None
    }

    /// True when `pid` was carried by a space that has been torn down, so
    /// cached translations tagged with it may be stale.
    fn stale_contains(&self, pid: usize) -> (r: bool)
        ensures
            r == pid_in(self.stale@, pid),
    {
        let n = self.stale.len();
        let mut i: usize = 0;
        while i < n
            invariant
                i <= n,
                n == self.stale@.len(),
                forall|j: int| 0 <= j < i ==> self.stale@[j] != pid,
            decreases n - i,
        {
            if self.stale[i] == pid {
                return true;
            }
            i = i + 1;
        }
        false
    }

    /// Carve a kernel-only frame out of the free pool at boot. Fails with
    /// `BadAddress`, changing nothing, exactly when the frame does not exist
    /// or is not free.
    pub fn mark_reserved(&mut self, frame: usize) -> (r: Result<(), Error>)
        requires
            old(self).wf(),
        ensures
            final(self).wf(),
            match r {
                Ok(_) => {
                    &&& frame < old(self).frames.states@.len()
                    &&& old(self).frames.states@[frame as int] is Free
                    &&& final(self).frames.states@ == old(self).frames.states@.update(
                        frame as int,
                        FrameState::Reserved,
                    )
                    &&& final(self).mem@ == old(self).mem@
                    &&& final(self).spaces@ == old(self).spaces@
                    &&& final(self).entries@ == old(self).entries@
                    &&& final(self).loans@ == old(self).loans@
                    &&& final(self).active == old(self).active
                    &&& final(self).stale@ == old(self).stale@
                },
                Err(e) => {
                    &&& e == Error::BadAddress
                    &&& (frame >= old(self).frames.states@.len()
                        || !(old(self).frames.states@[frame as int] is Free))
                    &&& *final(self) == *old(self)
                },
            },
    {
        if frame >= self.frames.total_frames() {
            return Err(Error::BadAddress);
        }
        let is_free = match self.frames.states[frame] {
            FrameState::Free => true,
            _ => false,
        };
        if !is_free {
            return Err(Error::BadAddress);
        }
        self.frames.mark_reserved(frame);
        proof {
            let pre = *old(self);
            let post = *self;
            assert forall|i: int|
                0 <= i < post.entries@.len() implies post.wf_entry(
                #[trigger] post.entries@[i],
            ) by {
                let e = post.entries@[i];
                assert(pre.wf_entry(e));
                match e.backing {
                    Backing::Frame(f) => {
                        if pre.frames.states@[f as int] != FrameState::Owned(e.pid) {
                            let j = choose|j: int|
                                0 <= j < pre.loans@.len() && pre.loans@[j].frame == f
                                    && pre.loans@[j].borrower == e.pid
                                    && pre.loans@[j].borrower_vpn == e.vpn;
                            assert(pre.wf_loan(pre.loans@[j]));
                        }
                        assert(f != frame);
                    },
                    Backing::Unbacked => {},
                }
            }
            assert forall|i: int|
                0 <= i < post.loans@.len() implies post.wf_loan(#[trigger] post.loans@[i]) by {
                assert(pre.wf_loan(pre.loans@[i]));
            }
        }
        Ok(())
    }

    /// Create the address space of a new process under the identifier `pid`.
    /// The space starts empty; it must force a translation-cache flush on its
    /// first activation if the identifier is recycled from a torn-down space.
    /// Fails with `AlreadyMapped`, changing nothing, exactly when the
    /// identifier is already live.
    pub fn create_space(&mut self, pid: usize) -> (r: Result<MemoryMapping, Error>)
        requires
            old(self).wf(),
        ensures
            final(self).wf(),
            match r {
                Ok(m) => {
                    &&& m.pid == pid
                    &&& !has_space_spec(old(self).spaces@, pid)
                    &&& final(self).spaces@ == old(self).spaces@.push(
                        SpaceInfo { pid, needs_flush: pid_in(old(self).stale@, pid) },
                    )
                    &&& final(self).frames == old(self).frames
                    &&& final(self).mem@ == old(self).mem@
                    &&& final(self).entries@ == old(self).entries@
                    &&& final(self).loans@ == old(self).loans@
                    &&& final(self).active == old(self).active
                    &&& final(self).stale@ == old(self).stale@
                },
                Err(e) => {
                    &&& e == Error::AlreadyMapped
                    &&& has_space_spec(old(self).spaces@, pid)
                    &&& *final(self) == *old(self)
                },
            },
    {
        match self.find_space(pid) {
            Some(_) => Err(Error::AlreadyMapped),
            None => {
                let needs_flush = self.stale_contains(pid);
                self.spaces.push(SpaceInfo { pid, needs_flush });
                proof {
                    let pre = *old(self);
                    let post = *self;
                    assert forall|i: int|
                        0 <= i < post.entries@.len() implies post.wf_entry(
                        #[trigger] post.entries@[i],
                    ) by {
                        let e = post.entries@[i];
                        assert(pre.wf_entry(e));
                        lemma_has_space_push(
                            pre.spaces@,
                            SpaceInfo { pid, needs_flush: pid_in(pre.stale@, pid) },
                            e.pid,
                        );
                    }
                    assert forall|i: int|
                        0 <= i < post.loans@.len() implies post.wf_loan(
                        #[trigger] post.loans@[i],
                    ) by {
                        assert(pre.wf_loan(pre.loans@[i]));
                    }
                    assert forall|f: int|
                        0 <= f < post.frames.states@.len() && post.frames.states@[f] is Owned
                            implies has_space_spec(
                        post.spaces@,
                        post.frames.states@[f]->0,
                    ) by {
                        lemma_has_space_push(
                            pre.spaces@,
                            SpaceInfo { pid, needs_flush: pid_in(pre.stale@, pid) },
                            pre.frames.states@[f]->0,
                        );
                    }
                }
                Ok(MemoryMapping { pid })
            },
        }
    }

    /// Index of the outstanding loan on `frame`, if any.
    pub(crate) fn find_loan(&self, frame: usize) -> (r: Option<usize>)
        ensures
            match r {
                Some(i) => i < self.loans@.len() && self.loans@[i as int].frame == frame,
                None => !has_loan_on(self.loans@, frame),
            },
    {
        let n = self.loans.len();
        let mut i: usize = 0;
        while i < n
            invariant
                i <= n,
                n == self.loans@.len(),
                forall|j: int| 0 <= j < i ==> self.loans@[j].frame != frame,
            decreases n - i,
        {
            if self.loans[i].frame == frame {
                return Some(i);
            }
            i = i + 1;
        }
        None
    }
}

impl MemoryMapping {
    /// Handle on the currently active address space.
    pub fn current(mm: &MemoryManager) -> (r: MemoryMapping)
        ensures
            r.pid == mm.active,
    {
        MemoryMapping { pid: mm.active }
    }

    /// Switch the live translation context to this space. Identifier reuse is
    /// checked here and only here: if the identifier was recycled from a
    /// torn-down space, stale cached translations could name the old owner,
    /// so activation forces a full flush, recorded by clearing the space's
    /// flush debt. Fails with `BadAddress`, changing nothing, exactly when
    /// the handle names no live space.
    pub fn activate(self, mm: &mut MemoryManager) -> (r: Result<(), Error>)
        requires
            old(mm).wf(),
        ensures
            final(mm).wf(),
            match r {
                Ok(_) => {
                    &&& has_space_spec(old(mm).spaces@, self.pid)
                    &&& final(mm).active == self.pid
                    &&& final(mm).spaces@.len() == old(mm).spaces@.len()
                    &&& forall|i: int|
                        0 <= i < old(mm).spaces@.len() ==> (#[trigger] final(mm).spaces@[i]) == (
                        if old(mm).spaces@[i].pid == self.pid {
                            SpaceInfo { pid: self.pid, needs_flush: false }
                        } else {
                            old(mm).spaces@[i]
                        })
                    &&& final(mm).frames == old(mm).frames
                    &&& final(mm).mem@ == old(mm).mem@
                    &&& final(mm).entries@ == old(mm).entries@
                    &&& final(mm).loans@ == old(mm).loans@
                    &&& final(mm).stale@ == old(mm).stale@
                },
                Err(e) => {
                    &&& e == Error::BadAddress
                    &&& !has_space_spec(old(mm).spaces@, self.pid)
                    &&& *final(mm) == *old(mm)
                },
            },
    {
        match mm.find_space(self.pid) {
            None => Err(Error::BadAddress),
            Some(i) => {
                mm.spaces[i] = SpaceInfo { pid: self.pid, needs_flush: false };
                mm.active = self.pid;
                proof {
                    let pre = *old(mm);
                    let post = *mm;
                    assert forall|k: int|
                        0 <= k < post.spaces@.len() implies (#[trigger] post.spaces@[k]).pid
                        == pre.spaces@[k].pid by {}
                    assert forall|k: int|
                        0 <= k < post.entries@.len() implies post.wf_entry(
                        #[trigger] post.entries@[k],
                    ) by {
                        let e = post.entries@[k];
                        assert(pre.wf_entry(e));
                        lemma_has_space_update(
                            pre.spaces@,
                            i as int,
                            SpaceInfo { pid: self.pid, needs_flush: false },
                            e.pid,
                        );
                    }
                    assert forall|k: int|
                        0 <= k < post.loans@.len() implies post.wf_loan(
                        #[trigger] post.loans@[k],
                    ) by {
                        assert(pre.wf_loan(pre.loans@[k]));
                    }
                    assert forall|f: int|
                        0 <= f < post.frames.states@.len() && post.frames.states@[f] is Owned
                            implies has_space_spec(
                        post.spaces@,
                        post.frames.states@[f]->0,
                    ) by {
                        lemma_has_space_update(
                            pre.spaces@,
                            i as int,
                            SpaceInfo { pid: self.pid, needs_flush: false },
                            pre.frames.states@[f]->0,
                        );
                    }
                }
                Ok(())
            },
        }
    }
    /// Mark the virtual page under `addr` reserved for lazy commit: the space
    /// gains an entry with the requested flags but no physical frame until the
    /// page is first touched. Fails, changing nothing: with `BadAddress` when
    /// the address is misaligned, out of the user area, or the handle names
    /// no live space; with `AlreadyMapped` when the page already has an entry.
    pub fn reserve_address(self, mm: &mut MemoryManager, addr: usize, flags: MemoryFlags) -> (r:
        Result<(), Error>)
        requires
            old(mm).wf(),
        ensures
            final(mm).wf(),
            match r {
                Ok(_) => {
                    &&& addr % PAGE_SIZE == 0 && addr < USER_AREA_END
                    &&& has_space_spec(old(mm).spaces@, self.pid)
                    &&& !has_entry(old(mm).entries@, self.pid, addr / PAGE_SIZE)
                    &&& final(mm).entries@ == old(mm).entries@.push(
                        PageEntry {
                            pid: self.pid,
                            vpn: addr / PAGE_SIZE,
                            backing: Backing::Unbacked,
                            flags,
                        },
                    )
                    &&& final(mm).frames == old(mm).frames
                    &&& final(mm).mem@ == old(mm).mem@
                    &&& final(mm).spaces@ == old(mm).spaces@
                    &&& final(mm).loans@ == old(mm).loans@
                    &&& final(mm).active == old(mm).active
                    &&& final(mm).stale@ == old(mm).stale@
                },
                Err(e) => {
                    &&& *final(mm) == *old(mm)
                    &&& match e {
                        Error::BadAddress => addr % PAGE_SIZE != 0 || addr >= USER_AREA_END
                            || !has_space_spec(old(mm).spaces@, self.pid),
                        Error::AlreadyMapped => has_entry(
                            old(mm).entries@,
                            self.pid,
                            addr / PAGE_SIZE,
                        ),
                        _ => false,
                    }
                },
            },
            addr % PAGE_SIZE == 0 && addr < USER_AREA_END && has_space_spec(
                old(mm).spaces@,
                self.pid,
            ) && !has_entry(old(mm).entries@, self.pid, addr / PAGE_SIZE) ==> r is Ok,
    {
        if addr % PAGE_SIZE != 0 || addr >= USER_AREA_END {
            return Err(Error::BadAddress);
        }
        if mm.find_space(self.pid).is_none() {
            return Err(Error::BadAddress);
        }
        let vpn = addr / PAGE_SIZE;
        if mm.find_entry(self.pid, vpn).is_some() {
            return Err(Error::AlreadyMapped);
        }
        let e = PageEntry { pid: self.pid, vpn, backing: Backing::Unbacked, flags };
        mm.entries.push(e);
        proof {
            let pre = *old(mm);
            let post = *mm;
            vstd::arithmetic::div_mod::lemma_fundamental_div_mod(
                addr as int,
                PAGE_SIZE as int,
            );
            assert forall|k: int|
                0 <= k < post.entries@.len() implies post.wf_entry(
                #[trigger] post.entries@[k],
            ) by {
                if k < pre.entries@.len() {
                    assert(post.entries@[k] == pre.entries@[k]);
                    assert(pre.wf_entry(pre.entries@[k]));
                }
            }
            assert forall|k: int|
                0 <= k < post.loans@.len() implies post.wf_loan(#[trigger] post.loans@[k]) by {
                assert(pre.wf_loan(pre.loans@[k]));
                lemma_loan_entries_push(pre.entries@, e, pre.loans@[k]);
            }
        }
        Ok(())
    }
}

/// Whether the virtual page under `virt` is unmapped in the given space and
/// therefore available, for allocation search.
pub fn address_available(mm: &MemoryManager, space: MemoryMapping, virt: usize) -> (r: bool)
    ensures
        r == !has_entry(mm.entries@, space.pid, virt / PAGE_SIZE),
{
    mm.find_entry(space.pid, virt / PAGE_SIZE).is_none()
}

/// Translate a virtual address of the given space to the physical address
/// currently backing it. Fails with `BadAddress` exactly when no committed
/// frame backs the page.
pub fn virt_to_phys(mm: &MemoryManager, space: MemoryMapping, virt: usize) -> (r: Result<
    usize,
    Error,
>)
    requires
        mm.wf(),
    ensures
        match r {
            Ok(phys) => translate_ok(*mm, space.pid, virt, phys),
            Err(e) => e == Error::BadAddress && translate_fails(*mm, space.pid, virt),
        },
{
    let vpn = virt / PAGE_SIZE;
    match mm.find_entry(space.pid, vpn) {
        None => Err(Error::BadAddress),
        Some(i) => {
            let e = mm.entries[i];
            match e.backing {
                Backing::Unbacked => {
                    proof {
                        assert forall|j: int|
                            0 <= j < mm.entries@.len() implies !((#[trigger] mm.entries@[j]).pid
                            == space.pid && mm.entries@[j].vpn == vpn
                            && mm.entries@[j].backing is Frame) by {
                            if mm.entries@[j].pid == space.pid && mm.entries@[j].vpn == vpn {
                                if j < i as int {
                                    assert(!(mm.entries@[j].pid == mm.entries@[i as int].pid
                                        && mm.entries@[j].vpn == mm.entries@[i as int].vpn));
                                } else if j > i as int {
                                    assert(!(mm.entries@[i as int].pid == mm.entries@[j].pid
                                        && mm.entries@[i as int].vpn == mm.entries@[j].vpn));
                                }
                            }
                        }
                    }
                    Err(Error::BadAddress)
                },
                Backing::Frame(f) => {
                    proof {
                        assert(mm.wf_entry(mm.entries@[i as int]));
                    }
                    Ok(f * PAGE_SIZE + virt % PAGE_SIZE)
                },
            }
        },
    }
}

impl MemoryManager {
    /// Whether some page of space `pid` is already bound to the frame.
    pub(crate) fn space_maps_frame(&self, pid: usize, frame: usize) -> (r: bool)
        ensures
            r == exists|i: int|
                0 <= i < self.entries@.len() && (#[trigger] self.entries@[i]).pid == pid
                    && self.entries@[i].backing == Backing::Frame(frame),
    {
        let n = self.entries.len();
        let mut i: usize = 0;
        while i < n
            invariant
                i <= n,
                n == self.entries@.len(),
                forall|j: int|
                    0 <= j < i ==> !((#[trigger] self.entries@[j]).pid == pid
                        && self.entries@[j].backing == Backing::Frame(frame)),
            decreases n - i,
        {
            let hit = match self.entries[i].backing {
                Backing::Frame(f) => f == frame && self.entries[i].pid == pid,
                Backing::Unbacked => false,
            };
            if hit {
                return true;
            }
            i = i + 1;
        }
        false
    }

    /// Assign one free frame to the process `pid`: the allocator's contract
    /// at the manager level, for callers that then bind the frame with
    /// [`map_page_inner`]. Fails, changing nothing: with `BadAddress` when
    /// the identifier names no live space; with `OutOfMemory`, exactly when
    /// no frame is free.
    pub fn allocate_frame(&mut self, pid: usize) -> (r: Result<usize, Error>)
        requires
            old(self).wf(),
        ensures
            final(self).wf(),
            match r {
                Ok(f) => {
                    &&& has_space_spec(old(self).spaces@, pid)
                    &&& f < old(self).frames.states@.len()
                    &&& old(self).frames.states@[f as int] is Free
                    &&& final(self).frames.states@ == old(self).frames.states@.update(
                        f as int,
                        FrameState::Owned(pid),
                    )
                    &&& final(self).mem@ == old(self).mem@
                    &&& final(self).spaces@ == old(self).spaces@
                    &&& final(self).entries@ == old(self).entries@
                    &&& final(self).loans@ == old(self).loans@
                    &&& final(self).active == old(self).active
                    &&& final(self).stale@ == old(self).stale@
                },
                Err(e) => *final(self) == *old(self) && match e {
                    Error::BadAddress => !has_space_spec(old(self).spaces@, pid),
                    Error::OutOfMemory => has_space_spec(old(self).spaces@, pid) && (forall|
                        f: int,
                    |
                        0 <= f < old(self).frames.states@.len()
                            ==> !(old(self).frames.states@[f] is Free)),
                    _ => false,
                },
            },
            has_space_spec(old(self).spaces@, pid) && (exists|f: int|
                0 <= f < old(self).frames.states@.len() && old(self).frames.states@[f] is Free)
                ==> r is Ok,
    {
        if self.find_space(pid).is_none() {
            return Err(Error::BadAddress);
        }
        let ghost pre = *self;
        match self.frames.allocate(pid) {
            Err(e) => Err(e),
            Ok(f) => {
                proof {
                    lemma_free_frame_unmapped(pre, f);
                    let post = *self;
                    assert forall|k: int|
                        0 <= k < post.entries@.len() implies post.wf_entry(
                        #[trigger] post.entries@[k],
                    ) by {
                        let e = post.entries@[k];
                        assert(pre.wf_entry(e));
                        assert(e.backing != Backing::Frame(f));
                    }
                    assert forall|k: int|
                        0 <= k < post.loans@.len() implies post.wf_loan(
                        #[trigger] post.loans@[k],
                    ) by {
                        assert(pre.wf_loan(pre.loans@[k]));
                    }
                }
                Ok(f)
            },
        }
    }
}

/// Bind the page at `virt` in space `pid` to the frame at physical address
/// `phys`, with the requested flags, `map_user` deciding user-mode access.
/// The space must already own the frame — allocation assigns ownership,
/// mapping only binds — and must not bind it anywhere else yet, so no space
/// ever holds a mapping, writable or not, to a frame it neither owns nor was
/// lent. Fails, changing nothing: with `BadAddress` on a misaligned or
/// out-of-range address or a dead space; with `AlreadyMapped` when the page
/// has an entry; with `ShareViolation` when the caller does not own the
/// frame or already binds it.
pub fn map_page_inner(
    mm: &mut MemoryManager,
    pid: usize,
    phys: usize,
    virt: usize,
    req_flags: MemoryFlags,
    map_user: bool,
) -> (r: Result<(), Error>)
    requires
        old(mm).wf(),
    ensures
        final(mm).wf(),
        match r {
            Ok(_) => map_effect(
                *old(mm),
                *final(mm),
                pid,
                virt,
                phys,
                MemoryFlags {
                    readable: req_flags.readable,
                    writable: req_flags.writable,
                    executable: req_flags.executable,
                    cacheable: req_flags.cacheable,
                    user: map_user,
                },
            ),
            Err(e) => *final(mm) == *old(mm) && match e {
                Error::BadAddress => virt % PAGE_SIZE != 0 || virt >= USER_AREA_END || phys
                    % PAGE_SIZE != 0 || phys / PAGE_SIZE >= old(mm).frames.states@.len()
                    || !has_space_spec(old(mm).spaces@, pid),
                Error::AlreadyMapped => has_entry(old(mm).entries@, pid, virt / PAGE_SIZE),
                Error::ShareViolation => phys / PAGE_SIZE < old(mm).frames.states@.len() && (old(
                    mm,
                ).frames.states@[(phys / PAGE_SIZE) as int] != FrameState::Owned(pid) || exists|
                    i: int,
                |
                    0 <= i < old(mm).entries@.len() && (#[trigger] old(mm).entries@[i]).pid
                        == pid && old(mm).entries@[i].backing == Backing::Frame(
                        (phys / PAGE_SIZE) as usize,
                    )),
                Error::OutOfMemory => false,
            },
        },
        virt % PAGE_SIZE == 0 && virt < USER_AREA_END && phys % PAGE_SIZE == 0 && phys / PAGE_SIZE
            < old(mm).frames.states@.len() && has_space_spec(old(mm).spaces@, pid) && !has_entry(
            old(mm).entries@,
            pid,
            virt / PAGE_SIZE,
        ) && old(mm).frames.states@[(phys / PAGE_SIZE) as int] == FrameState::Owned(pid) && (forall|
            i: int,
        |
            0 <= i < old(mm).entries@.len() ==> !((#[trigger] old(mm).entries@[i]).pid == pid
                && old(mm).entries@[i].backing == Backing::Frame((phys / PAGE_SIZE) as usize)))
            ==> r is Ok,
{
    if virt % PAGE_SIZE != 0 || virt >= USER_AREA_END || phys % PAGE_SIZE != 0 {
        return Err(Error::BadAddress);
    }
    let frame = phys / PAGE_SIZE;
    if frame >= mm.frames.total_frames() {
        return Err(Error::BadAddress);
    }
    if mm.find_space(pid).is_none() {
        return Err(Error::BadAddress);
    }
    let vpn = virt / PAGE_SIZE;
    if mm.find_entry(pid, vpn).is_some() {
        return Err(Error::AlreadyMapped);
    }
    let owns = match mm.frames.states[frame] {
        FrameState::Owned(p) => p == pid,
        _ => false,
    };
    if !owns {
        return Err(Error::ShareViolation);
    }
    if mm.space_maps_frame(pid, frame) {
        return Err(Error::ShareViolation);
    }
    proof {
        // the owner binds the frame nowhere, so nobody does: another space's
        // binding could only be the borrower side of a loan, whose lender
        // side would be the owner's own binding
        assert forall|k: int|
            0 <= k < mm.entries@.len() implies (#[trigger] mm.entries@[k]).backing
            != Backing::Frame(frame) by {
            let e2 = mm.entries@[k];
            assert(mm.wf_entry(e2));
            if e2.backing == Backing::Frame(frame) && e2.pid != pid {
                let j = choose|j: int|
                    0 <= j < mm.loans@.len() && mm.loans@[j].frame == frame
                        && mm.loans@[j].borrower == e2.pid && mm.loans@[j].borrower_vpn == e2.vpn;
                assert(mm.wf_loan(mm.loans@[j]));
                let w = choose|w: int|
                    0 <= w < mm.entries@.len() && {
                        let e = #[trigger] mm.entries@[w];
                        &&& e.pid == mm.loans@[j].lender
                        &&& e.vpn == mm.loans@[j].lender_vpn
                        &&& e.backing == Backing::Frame(mm.loans@[j].frame)
                        &&& (mm.loans@[j].mutable ==> !e.flags.writable)
                    };
                assert(mm.entries@[w].pid == pid && mm.entries@[w].backing == Backing::Frame(
                    frame,
                ));
            }
        }
    }
    let flags = MemoryFlags {
        readable: req_flags.readable,
        writable: req_flags.writable,
        executable: req_flags.executable,
        cacheable: req_flags.cacheable,
        user: map_user,
    };
    let e = PageEntry { pid, vpn, backing: Backing::Frame(frame), flags };
    mm.entries.push(e);
    proof {
        let pre = *old(mm);
        let post = *mm;
        vstd::arithmetic::div_mod::lemma_fundamental_div_mod(virt as int, PAGE_SIZE as int);
        assert(vpn < MAX_VPN);
        assert forall|k: int|
            0 <= k < post.entries@.len() implies post.wf_entry(#[trigger] post.entries@[k]) by {
            if k < pre.entries@.len() {
                assert(post.entries@[k] == pre.entries@[k]);
                assert(pre.wf_entry(pre.entries@[k]));
                assert(pre.entries@[k].backing != Backing::Frame(frame));
            }
        }
        assert forall|k: int|
            0 <= k < post.loans@.len() implies post.wf_loan(#[trigger] post.loans@[k]) by {
            let l = post.loans@[k];
            assert(pre.wf_loan(l));
            lemma_loan_entries_push(pre.entries@, e, l);
        }
    }
    Ok(())
}

/// Guarantee that a physical frame backs the page under `virt` in the given
/// space, committing a free frame on first touch; idempotent once backed.
/// Returns the physical address backing `virt`. Fails, changing nothing:
/// with `BadAddress` when the page was never reserved or mapped; with
/// `OutOfMemory` when a frame is needed and none is free.
pub fn ensure_page_exists_inner(mm: &mut MemoryManager, space: MemoryMapping, virt: usize) -> (r:
    Result<usize, Error>)
    requires
        old(mm).wf(),
    ensures
        final(mm).wf(),
        match r {
            Ok(phys) => {
                &&& translate_ok(*final(mm), space.pid, virt, phys)
                &&& has_entry(old(mm).entries@, space.pid, virt / PAGE_SIZE)
                &&& final(mm).mem@ == old(mm).mem@
                &&& final(mm).spaces@ == old(mm).spaces@
                &&& final(mm).loans@ == old(mm).loans@
                &&& final(mm).active == old(mm).active
                &&& final(mm).stale@ == old(mm).stale@
                &&& final(mm).entries@.len() == old(mm).entries@.len()
                &&& forall|j: int|
                    0 <= j < old(mm).entries@.len() ==> {
                        let e0 = #[trigger] old(mm).entries@[j];
                        let e1 = final(mm).entries@[j];
                        e1.pid == e0.pid && e1.vpn == e0.vpn && e1.flags == e0.flags && (
                        e0.backing is Frame ==> e1 == e0)
                    }
                &&& (has_backed_entry(old(mm).entries@, space.pid, virt / PAGE_SIZE)
                    ==> *final(mm) == *old(mm))
                &&& (!has_backed_entry(old(mm).entries@, space.pid, virt / PAGE_SIZE)
                    ==> exists|f: int|
                        0 <= f < old(mm).frames.states@.len()
                            && old(mm).frames.states@[f] is Free && final(mm).frames.states@
                            == old(mm).frames.states@.update(f, FrameState::Owned(space.pid)))
                &&& final(mm).frames.states@.len() == old(mm).frames.states@.len()
                &&& forall|f: int|
                    0 <= f < old(mm).frames.states@.len()
                        && !(old(mm).frames.states@[f] is Free)
                        ==> final(mm).frames.states@[f] == old(mm).frames.states@[f]
            },
            Err(e) => *final(mm) == *old(mm) && match e {
                Error::BadAddress => !has_entry(old(mm).entries@, space.pid, virt / PAGE_SIZE),
                Error::OutOfMemory => has_entry(old(mm).entries@, space.pid, virt / PAGE_SIZE)
                    && !has_backed_entry(old(mm).entries@, space.pid, virt / PAGE_SIZE) && (forall|
                    f: int|
                    0 <= f < old(mm).frames.states@.len()
                        ==> !(old(mm).frames.states@[f] is Free)),
                _ => false,
            },
        },
        has_entry(old(mm).entries@, space.pid, virt / PAGE_SIZE) && (has_backed_entry(
            old(mm).entries@,
            space.pid,
            virt / PAGE_SIZE,
        ) || exists|f: int|
            0 <= f < old(mm).frames.states@.len() && old(mm).frames.states@[f] is Free) ==> r is Ok,
{
    let vpn = virt / PAGE_SIZE;
    match mm.find_entry(space.pid, vpn) {
        None => Err(Error::BadAddress),
        Some(i) => {
            let e = mm.entries[i];
            match e.backing {
                Backing::Frame(f) => {
                    proof {
                        assert(mm.wf_entry(mm.entries@[i as int]));
                        assert(has_backed_entry(mm.entries@, space.pid, vpn));
                    }
                    Ok(f * PAGE_SIZE + virt % PAGE_SIZE)
                },
                Backing::Unbacked => {
                    proof {
                        assert forall|j: int|
                            0 <= j < mm.entries@.len() implies !((#[trigger] mm.entries@[j]).pid
                            == space.pid && mm.entries@[j].vpn == vpn
                            && mm.entries@[j].backing is Frame) by {
                            if mm.entries@[j].pid == space.pid && mm.entries@[j].vpn == vpn && j
                                != i as int {
                                if j < i as int {
                                    assert(!(mm.entries@[j].pid == mm.entries@[i as int].pid
                                        && mm.entries@[j].vpn == mm.entries@[i as int].vpn));
                                } else {
                                    assert(!(mm.entries@[i as int].pid == mm.entries@[j].pid
                                        && mm.entries@[i as int].vpn == mm.entries@[j].vpn));
                                }
                            }
                        }
                    }
                    match mm.frames.allocate(space.pid) {
                        Err(err) => Err(err),
                        Ok(f) => {
                            proof {
                                lemma_free_frame_unmapped(*old(mm), f);
                            }
                            let e1 = PageEntry {
                                pid: e.pid,
                                vpn: e.vpn,
                                backing: Backing::Frame(f),
                                flags: e.flags,
                            };
                            mm.entries[i] = e1;
                            proof {
                                let pre = *old(mm);
                                let post = *mm;
                                assert forall|k: int|
                                    0 <= k < post.entries@.len() implies post.wf_entry(
                                    #[trigger] post.entries@[k],
                                ) by {
                                    assert(pre.wf_entry(pre.entries@[k]));
                                    if k != i as int {
                                        assert(post.entries@[k] == pre.entries@[k]);
                                        assert(pre.entries@[k].backing != Backing::Frame(f));
                                    }
                                }
                                assert forall|k: int|
                                    0 <= k < post.loans@.len() implies post.wf_loan(
                                    #[trigger] post.loans@[k],
                                ) by {
                                    let l = post.loans@[k];
                                    assert(pre.wf_loan(l));
                                    lemma_loan_entries_update(pre.entries@, i as int, e1, l);
                                }
                                assert((f as int) < pre.frames.states@.len()
                                    && pre.frames.states@[f as int] is Free
                                    && post.frames.states@ == pre.frames.states@.update(
                                    f as int,
                                    FrameState::Owned(space.pid),
                                ));
                                assert(translate_ok(
                                    post,
                                    space.pid,
                                    virt,
                                    (f * PAGE_SIZE + virt % PAGE_SIZE) as usize,
                                ));
                            }
                            Ok(f * PAGE_SIZE + virt % PAGE_SIZE)
                        },
                    }
                },
            }
        },
    }
}

/// Remove the mapping of the page under `virt` in the given space, freeing
/// its frame back to the pool; a bare reservation is removed with no frame to
/// free and a result of 0. Returns the base physical address of the freed
/// frame. Fails, changing nothing: with `BadAddress` on a misaligned address
/// or an absent entry; with `ShareViolation` while the frame is on loan,
/// which only a return can undo.
pub fn unmap_page_inner(mm: &mut MemoryManager, space: MemoryMapping, virt: usize) -> (r: Result<
    usize,
    Error,
>)
    requires
        old(mm).wf(),
    ensures
        final(mm).wf(),
        match r {
            Ok(p) => unmap_effect(*old(mm), *final(mm), space.pid, virt, p),
            Err(e) => *final(mm) == *old(mm) && match e {
                Error::BadAddress => virt % PAGE_SIZE != 0 || !has_entry(
                    old(mm).entries@,
                    space.pid,
                    virt / PAGE_SIZE,
                ),
                Error::ShareViolation => exists|i: int|
                    0 <= i < old(mm).entries@.len() && (#[trigger] old(mm).entries@[i]).pid
                        == space.pid && old(mm).entries@[i].vpn == virt / PAGE_SIZE && (old(
                        mm,
                    ).entries@[i].backing matches Backing::Frame(f) && has_loan_on(
                        old(mm).loans@,
                        f,
                    )),
                _ => false,
            },
        },
        virt % PAGE_SIZE == 0 && (exists|i: int|
            0 <= i < old(mm).entries@.len() && (#[trigger] old(mm).entries@[i]).pid == space.pid
                && old(mm).entries@[i].vpn == virt / PAGE_SIZE && (match old(
                mm,
            ).entries@[i].backing {
                Backing::Frame(f) => !has_loan_on(old(mm).loans@, f),
                Backing::Unbacked => true,
            })) ==> r is Ok,
{
    if virt % PAGE_SIZE != 0 {
        return Err(Error::BadAddress);
    }
    let vpn = virt / PAGE_SIZE;
    match mm.find_entry(space.pid, vpn) {
        None => Err(Error::BadAddress),
        Some(i) => {
            let e = mm.entries[i];
            let ghost pre = *old(mm);
            match e.backing {
                Backing::Frame(f) => {
                    if mm.find_loan(f).is_some() {
                        return Err(Error::ShareViolation);
                    }
                    proof {
                        lemma_mapper_owns(*mm, i as int, f);
                        // no other entry maps f, so freeing it strands nobody
                        assert forall|k: int|
                            0 <= k < pre.entries@.len() && k != i as int
                                implies (#[trigger] pre.entries@[k]).backing != Backing::Frame(
                            f,
                        ) by {
                            let e2 = pre.entries@[k];
                            assert(pre.wf_entry(e2));
                            if e2.backing == Backing::Frame(f) {
                                if pre.frames.states@[f as int] == FrameState::Owned(e2.pid) {
                                    if k < i as int {
                                        assert(pre.entries@[k].pid != pre.entries@[i as int].pid);
                                    } else {
                                        assert(pre.entries@[i as int].pid != pre.entries@[k].pid);
                                    }
                                } else {
                                    let j = choose|j: int|
                                        0 <= j < pre.loans@.len() && pre.loans@[j].frame == f
                                            && pre.loans@[j].borrower == e2.pid
                                            && pre.loans@[j].borrower_vpn == e2.vpn;
                                    assert(0 <= j < pre.loans@.len() && pre.loans@[j].frame == f);
                                }
                            }
                        }
                    }
                    mm.frames.free(f, space.pid);
                    mm.entries.remove(i);
                    proof {
                        lemma_unmap_wf(pre, *mm, space.pid, vpn, i as int);
                    }
                    Ok(f * PAGE_SIZE)
                },
                Backing::Unbacked => {
                    mm.entries.remove(i);
                    proof {
                        lemma_unmap_wf(pre, *mm, space.pid, vpn, i as int);
                    }
                    Ok(0)
                },
            }
        },
    }
}

/// After removing entry `i` of space `pid` (and, for a committed page,
/// freeing its loan-free frame), the invariant and the unmap bookkeeping
/// facts hold again.
proof fn lemma_unmap_wf(pre: MemoryManager, post: MemoryManager, pid: usize, vpn: usize, i: int)
    requires
        pre.wf(),
        0 <= i < pre.entries@.len(),
        pre.entries@[i].pid == pid,
        pre.entries@[i].vpn == vpn,
        post.entries@ == pre.entries@.remove(i),
        match pre.entries@[i].backing {
            Backing::Frame(f) => {
                &&& !has_loan_on(pre.loans@, f)
                &&& post.frames.states@ == pre.frames.states@.update(f as int, FrameState::Free)
                &&& forall|k: int|
                    0 <= k < pre.entries@.len() && k != i
                        ==> (#[trigger] pre.entries@[k]).backing != Backing::Frame(f)
            },
            Backing::Unbacked => post.frames == pre.frames,
        },
        post.mem@ == pre.mem@,
        post.spaces@ == pre.spaces@,
        post.loans@ == pre.loans@,
    ensures
        post.wf(),
        !has_entry(post.entries@, pid, vpn),
        forall|j: int|
            0 <= j < pre.entries@.len() && !((#[trigger] pre.entries@[j]).pid == pid
                && pre.entries@[j].vpn == vpn) ==> entry_is(post.entries@, pre.entries@[j]),
        forall|j: int|
            0 <= j < post.entries@.len() ==> entry_is(pre.entries@, #[trigger] post.entries@[j]),
{
    assert forall|a: int, b: int|
        0 <= a < b < post.entries@.len() implies !(post.entries@[a].pid == post.entries@[b].pid
        && post.entries@[a].vpn == post.entries@[b].vpn) by {
        let a0: int = if a < i {
            a
        } else {
            a + 1
        };
        let b0: int = if b < i {
            b
        } else {
            b + 1
        };
        assert(post.entries@[a] == pre.entries@[a0]);
        assert(post.entries@[b] == pre.entries@[b0]);
    }
    assert forall|k: int|
        0 <= k < post.entries@.len() implies post.wf_entry(#[trigger] post.entries@[k]) by {
        let k0: int = if k < i {
            k
        } else {
            k + 1
        };
        assert(post.entries@[k] == pre.entries@[k0]);
        assert(pre.wf_entry(pre.entries@[k0]));
    }
    assert forall|a: int, b: int|
        0 <= a < b < post.entries@.len() && post.entries@[a].backing is Frame
            && post.entries@[a].backing == post.entries@[b].backing implies post.entries@[a].pid
        != post.entries@[b].pid by {
        let a0: int = if a < i {
            a
        } else {
            a + 1
        };
        let b0: int = if b < i {
            b
        } else {
            b + 1
        };
        assert(post.entries@[a] == pre.entries@[a0]);
        assert(post.entries@[b] == pre.entries@[b0]);
    }
    assert forall|k: int|
        0 <= k < post.loans@.len() implies post.wf_loan(#[trigger] post.loans@[k]) by {
        let l = post.loans@[k];
        assert(pre.wf_loan(l));
        assert(0 <= k < pre.loans@.len() && pre.loans@[k].frame == l.frame);
        assert(pre.entries@[i].backing != Backing::Frame(l.frame));
        lemma_loan_entries_remove(pre.entries@, i, l);
    }
    assert forall|k: int|
        0 <= k < post.entries@.len() implies !((#[trigger] post.entries@[k]).pid == pid
        && post.entries@[k].vpn == vpn) by {
        let k0: int = if k < i {
            k
        } else {
            k + 1
        };
        assert(post.entries@[k] == pre.entries@[k0]);
        if k0 < i {
            assert(!(pre.entries@[k0].pid == pre.entries@[i].pid && pre.entries@[k0].vpn
                == pre.entries@[i].vpn));
        } else {
            assert(!(pre.entries@[i].pid == pre.entries@[k0].pid && pre.entries@[i].vpn
                == pre.entries@[k0].vpn));
        }
    }
    assert forall|j: int|
        0 <= j < pre.entries@.len() && !((#[trigger] pre.entries@[j]).pid == pid
        && pre.entries@[j].vpn == vpn) implies entry_is(post.entries@, pre.entries@[j]) by {
        if j < i {
            assert(post.entries@[j] == pre.entries@[j]);
        } else {
            assert(post.entries@[j - 1] == pre.entries@[j]);
        }
    }
    assert forall|j: int|
        0 <= j < post.entries@.len() implies entry_is(
        pre.entries@,
        #[trigger] post.entries@[j],
    ) by {
        let j0: int = if j < i {
            j
        } else {
            j + 1
        };
        assert(post.entries@[j] == pre.entries@[j0]);
    }
}

/// Overwriting the flags of an entry whose frame is free of loans keeps the
/// invariant: the entry is neither side of any loan, so no flag discipline
/// constrains it.
proof fn lemma_flags_update_wf(pre: MemoryManager, post: MemoryManager, i: int, e1: PageEntry)
    requires
        pre.wf(),
        0 <= i < pre.entries@.len(),
        e1.pid == pre.entries@[i].pid,
        e1.vpn == pre.entries@[i].vpn,
        e1.backing == pre.entries@[i].backing,
        match pre.entries@[i].backing {
            Backing::Frame(f) => !has_loan_on(pre.loans@, f),
            Backing::Unbacked => true,
        },
        post.entries@ == pre.entries@.update(i, e1),
        post.frames == pre.frames,
        post.mem@ == pre.mem@,
        post.spaces@ == pre.spaces@,
        post.loans@ == pre.loans@,
    ensures
        post.wf(),
{
    assert forall|a: int, b: int|
        0 <= a < b < post.entries@.len() implies !(post.entries@[a].pid == post.entries@[b].pid
        && post.entries@[a].vpn == post.entries@[b].vpn) by {
        assert(post.entries@[a].pid == pre.entries@[a].pid && post.entries@[a].vpn
            == pre.entries@[a].vpn);
        assert(post.entries@[b].pid == pre.entries@[b].pid && post.entries@[b].vpn
            == pre.entries@[b].vpn);
    }
    assert forall|k: int|
        0 <= k < post.entries@.len() implies post.wf_entry(#[trigger] post.entries@[k]) by {
        assert(pre.wf_entry(pre.entries@[k]));
        assert(post.entries@[k].pid == pre.entries@[k].pid && post.entries@[k].vpn
            == pre.entries@[k].vpn && post.entries@[k].backing == pre.entries@[k].backing);
    }
    assert forall|a: int, b: int|
        0 <= a < b < post.entries@.len() && post.entries@[a].backing is Frame
            && post.entries@[a].backing == post.entries@[b].backing implies post.entries@[a].pid
        != post.entries@[b].pid by {
        assert(post.entries@[a].backing == pre.entries@[a].backing && post.entries@[a].pid
            == pre.entries@[a].pid);
        assert(post.entries@[b].backing == pre.entries@[b].backing && post.entries@[b].pid
            == pre.entries@[b].pid);
    }
    assert forall|k: int|
        0 <= k < post.loans@.len() implies post.wf_loan(#[trigger] post.loans@[k]) by {
        let l = post.loans@[k];
        assert(pre.wf_loan(l));
        assert(0 <= k < pre.loans@.len() && pre.loans@[k].frame == l.frame);
        assert(pre.entries@[i].backing != Backing::Frame(l.frame));
        lemma_loan_entries_update(pre.entries@, i, e1, l);
    }
}

/// Transition a page of the given space to user-mode accessibility at the
/// same address, used during process bootstrap to expose initial program
/// data; all other flags are kept. Fails, changing nothing: with
/// `BadAddress` on a misaligned address or an absent entry; with
/// `ShareViolation` while the page's frame is on loan.
pub fn hand_page_to_user(mm: &mut MemoryManager, space: MemoryMapping, virt: usize) -> (r: Result<
    (),
    Error,
>)
    requires
        old(mm).wf(),
    ensures
        final(mm).wf(),
        match r {
            Ok(_) => {
                &&& virt % PAGE_SIZE == 0
                &&& exists|i: int|
                    0 <= i < old(mm).entries@.len() && {
                        let e = #[trigger] old(mm).entries@[i];
                        &&& e.pid == space.pid
                        &&& e.vpn == virt / PAGE_SIZE
                        &&& (match e.backing {
                            Backing::Frame(f) => !has_loan_on(old(mm).loans@, f),
                            Backing::Unbacked => true,
                        })
                        &&& final(mm).entries@ == old(mm).entries@.update(
                            i,
                            PageEntry {
                                pid: e.pid,
                                vpn: e.vpn,
                                backing: e.backing,
                                flags: MemoryFlags {
                                    readable: e.flags.readable,
                                    writable: e.flags.writable,
                                    executable: e.flags.executable,
                                    cacheable: e.flags.cacheable,
                                    user: true,
                                },
                            },
                        )
                    }
                &&& final(mm).frames == old(mm).frames
                &&& final(mm).mem@ == old(mm).mem@
                &&& final(mm).spaces@ == old(mm).spaces@
                &&& final(mm).loans@ == old(mm).loans@
                &&& final(mm).active == old(mm).active
                &&& final(mm).stale@ == old(mm).stale@
            },
            Err(e) => *final(mm) == *old(mm) && match e {
                Error::BadAddress => virt % PAGE_SIZE != 0 || !has_entry(
                    old(mm).entries@,
                    space.pid,
                    virt / PAGE_SIZE,
                ),
                Error::ShareViolation => exists|i: int|
                    0 <= i < old(mm).entries@.len() && (#[trigger] old(mm).entries@[i]).pid
                        == space.pid && old(mm).entries@[i].vpn == virt / PAGE_SIZE && (old(
                        mm,
                    ).entries@[i].backing matches Backing::Frame(f) && has_loan_on(
                        old(mm).loans@,
                        f,
                    )),
                _ => false,
            },
        },
        virt % PAGE_SIZE == 0 && (exists|i: int|
            0 <= i < old(mm).entries@.len() && (#[trigger] old(mm).entries@[i]).pid == space.pid
                && old(mm).entries@[i].vpn == virt / PAGE_SIZE && (match old(
                mm,
            ).entries@[i].backing {
                Backing::Frame(f) => !has_loan_on(old(mm).loans@, f),
                Backing::Unbacked => true,
            })) ==> r is Ok,
{
    if virt % PAGE_SIZE != 0 {
        return Err(Error::BadAddress);
    }
    let vpn = virt / PAGE_SIZE;
    match mm.find_entry(space.pid, vpn) {
        None => Err(Error::BadAddress),
        Some(i) => {
            let e = mm.entries[i];
            if let Backing::Frame(f) = e.backing {
                if mm.find_loan(f).is_some() {
                    return Err(Error::ShareViolation);
                }
            }
            let ghost pre = *old(mm);
            let e1 = PageEntry {
                pid: e.pid,
                vpn: e.vpn,
                backing: e.backing,
                flags: MemoryFlags {
                    readable: e.flags.readable,
                    writable: e.flags.writable,
                    executable: e.flags.executable,
                    cacheable: e.flags.cacheable,
                    user: true,
                },
            };
            mm.entries[i] = e1;
            proof {
                lemma_flags_update_wf(pre, *mm, i as int, e1);
            }
            Ok(())
        },
    }
}

/// Replace the access flags of the page under `virt` in the given space, for
/// example to mark it executable after loading. Fails, changing nothing:
/// with `BadAddress` on a misaligned address or an absent entry; with
/// `ShareViolation` while the page's frame is on loan, since flag changes
/// during a loan could reintroduce a second writer.
pub fn update_memory_flags(
    mm: &mut MemoryManager,
    space: MemoryMapping,
    virt: usize,
    flags: MemoryFlags,
) -> (r: Result<(), Error>)
    requires
        old(mm).wf(),
    ensures
        final(mm).wf(),
        match r {
            Ok(_) => {
                &&& virt % PAGE_SIZE == 0
                &&& exists|i: int|
                    0 <= i < old(mm).entries@.len() && {
                        let e = #[trigger] old(mm).entries@[i];
                        &&& e.pid == space.pid
                        &&& e.vpn == virt / PAGE_SIZE
                        &&& (match e.backing {
                            Backing::Frame(f) => !has_loan_on(old(mm).loans@, f),
                            Backing::Unbacked => true,
                        })
                        &&& final(mm).entries@ == old(mm).entries@.update(
                            i,
                            PageEntry { pid: e.pid, vpn: e.vpn, backing: e.backing, flags },
                        )
                    }
                &&& final(mm).frames == old(mm).frames
                &&& final(mm).mem@ == old(mm).mem@
                &&& final(mm).spaces@ == old(mm).spaces@
                &&& final(mm).loans@ == old(mm).loans@
                &&& final(mm).active == old(mm).active
                &&& final(mm).stale@ == old(mm).stale@
            },
            Err(e) => *final(mm) == *old(mm) && match e {
                Error::BadAddress => virt % PAGE_SIZE != 0 || !has_entry(
                    old(mm).entries@,
                    space.pid,
                    virt / PAGE_SIZE,
                ),
                Error::ShareViolation => exists|i: int|
                    0 <= i < old(mm).entries@.len() && (#[trigger] old(mm).entries@[i]).pid
                        == space.pid && old(mm).entries@[i].vpn == virt / PAGE_SIZE && (old(
                        mm,
                    ).entries@[i].backing matches Backing::Frame(f) && has_loan_on(
                        old(mm).loans@,
                        f,
                    )),
                _ => false,
            },
        },
        virt % PAGE_SIZE == 0 && (exists|i: int|
            0 <= i < old(mm).entries@.len() && (#[trigger] old(mm).entries@[i]).pid == space.pid
                && old(mm).entries@[i].vpn == virt / PAGE_SIZE && (match old(
                mm,
            ).entries@[i].backing {
                Backing::Frame(f) => !has_loan_on(old(mm).loans@, f),
                Backing::Unbacked => true,
            })) ==> r is Ok,
{
    if virt % PAGE_SIZE != 0 {
        return Err(Error::BadAddress);
    }
    let vpn = virt / PAGE_SIZE;
    match mm.find_entry(space.pid, vpn) {
        None => Err(Error::BadAddress),
        Some(i) => {
            let e = mm.entries[i];
            if let Backing::Frame(f) = e.backing {
                if mm.find_loan(f).is_some() {
                    return Err(Error::ShareViolation);
                }
            }
            let ghost pre = *old(mm);
            let e1 = PageEntry { pid: e.pid, vpn: e.vpn, backing: e.backing, flags };
            mm.entries[i] = e1;
            proof {
                lemma_flags_update_wf(pre, *mm, i as int, e1);
            }
            Ok(())
        },
    }
}

/// Read one byte through the given space's translations, as user code would:
/// the page must be committed and readable. Fails with `BadAddress` when no
/// frame backs the page, with `ShareViolation` when the mapping denies read
/// access.
pub fn read_byte(mm: &MemoryManager, space: MemoryMapping, virt: usize) -> (r: Result<u8, Error>)
    requires
        mm.wf(),
    ensures
        match r {
            Ok(b) => exists|i: int|
                0 <= i < mm.entries@.len() && {
                    let e = #[trigger] mm.entries@[i];
                    &&& e.pid == space.pid
                    &&& e.vpn == virt / PAGE_SIZE
                    &&& e.flags.readable
                    &&& (e.backing matches Backing::Frame(f) && b == mm.mem@[f * PAGE_SIZE + virt
                        % PAGE_SIZE])
                },
            Err(e) => match e {
                Error::BadAddress => !has_backed_entry(mm.entries@, space.pid, virt / PAGE_SIZE),
                Error::ShareViolation => exists|i: int|
                    0 <= i < mm.entries@.len() && (#[trigger] mm.entries@[i]).pid == space.pid
                        && mm.entries@[i].vpn == virt / PAGE_SIZE
                        && mm.entries@[i].backing is Frame && !mm.entries@[i].flags.readable,
                _ => false,
            },
        },
{
    let vpn = virt / PAGE_SIZE;
    match mm.find_entry(space.pid, vpn) {
        None => Err(Error::BadAddress),
        Some(i) => {
            let e = mm.entries[i];
            match e.backing {
                Backing::Unbacked => {
                    proof {
                        lemma_key_not_backed(*mm, i as int, space.pid, vpn);
                    }
                    Err(Error::BadAddress)
                },
                Backing::Frame(f) => {
                    if !e.flags.readable {
                        Err(Error::ShareViolation)
                    } else {
                        proof {
                            assert(mm.wf_entry(mm.entries@[i as int]));
                        }
                        Ok(mm.mem[f * PAGE_SIZE + virt % PAGE_SIZE])
                    }
                },
            }
        },
    }
}

/// Write one byte through the given space's translations, as user code
/// would: the page must be committed and writable. Fails, changing nothing,
/// with `BadAddress` when no frame backs the page and with `ShareViolation`
/// when the mapping denies write access — in particular on the lender side
/// of a mutable loan, whose write access is revoked.
pub fn write_byte(mm: &mut MemoryManager, space: MemoryMapping, virt: usize, b: u8) -> (r: Result<
    (),
    Error,
>)
    requires
        old(mm).wf(),
    ensures
        final(mm).wf(),
        match r {
            Ok(_) => {
                &&& exists|i: int|
                    0 <= i < old(mm).entries@.len() && {
                        let e = #[trigger] old(mm).entries@[i];
                        &&& e.pid == space.pid
                        &&& e.vpn == virt / PAGE_SIZE
                        &&& e.flags.writable
                        &&& (e.backing matches Backing::Frame(f) && final(mm).mem@ == old(
                            mm,
                        ).mem@.update(f * PAGE_SIZE + virt % PAGE_SIZE, b))
                    }
                &&& final(mm).frames == old(mm).frames
                &&& final(mm).spaces@ == old(mm).spaces@
                &&& final(mm).entries@ == old(mm).entries@
                &&& final(mm).loans@ == old(mm).loans@
                &&& final(mm).active == old(mm).active
                &&& final(mm).stale@ == old(mm).stale@
            },
            Err(e) => *final(mm) == *old(mm) && match e {
                Error::BadAddress => !has_backed_entry(
                    old(mm).entries@,
                    space.pid,
                    virt / PAGE_SIZE,
                ),
                Error::ShareViolation => exists|i: int|
                    0 <= i < old(mm).entries@.len() && (#[trigger] old(mm).entries@[i]).pid
                        == space.pid && old(mm).entries@[i].vpn == virt / PAGE_SIZE && old(
                        mm,
                    ).entries@[i].backing is Frame && !old(mm).entries@[i].flags.writable,
                _ => false,
            },
        },
{
    let vpn = virt / PAGE_SIZE;
    match mm.find_entry(space.pid, vpn) {
        None => Err(Error::BadAddress),
        Some(i) => {
            let e = mm.entries[i];
            match e.backing {
                Backing::Unbacked => {
                    proof {
                        lemma_key_not_backed(*mm, i as int, space.pid, vpn);
                    }
                    Err(Error::BadAddress)
                },
                Backing::Frame(f) => {
                    if !e.flags.writable {
                        Err(Error::ShareViolation)
                    } else {
                        proof {
                            assert(mm.wf_entry(mm.entries@[i as int]));
                        }
                        let ghost pre = *old(mm);
                        mm.mem[f * PAGE_SIZE + virt % PAGE_SIZE] = b;
                        proof {
                            let post = *mm;
                            assert forall|k: int|
                                0 <= k < post.entries@.len() implies post.wf_entry(
                                #[trigger] post.entries@[k],
                            ) by {
                                assert(pre.wf_entry(pre.entries@[k]));
                            }
                            assert forall|k: int|
                                0 <= k < post.loans@.len() implies post.wf_loan(
                                #[trigger] post.loans@[k],
                            ) by {
                                assert(pre.wf_loan(pre.loans@[k]));
                            }
                        }
                        Ok(())
                    }
                },
            }
        },
    }
}

/// If the unique entry of space `pid` for `vpn` is entry `i` and it is
/// unbacked, the space has no backed entry for `vpn` at all.
pub(crate) proof fn lemma_key_not_backed(mm: MemoryManager, i: int, pid: usize, vpn: usize)
    requires
        mm.wf(),
        0 <= i < mm.entries@.len(),
        mm.entries@[i].pid == pid,
        mm.entries@[i].vpn == vpn,
        mm.entries@[i].backing is Unbacked,
    ensures
        !has_backed_entry(mm.entries@, pid, vpn),
{
    assert forall|j: int|
        0 <= j < mm.entries@.len() implies !((#[trigger] mm.entries@[j]).pid == pid
        && mm.entries@[j].vpn == vpn && mm.entries@[j].backing is Frame) by {
        if j < i {
            assert(!(mm.entries@[j].pid == mm.entries@[i].pid && mm.entries@[j].vpn
                == mm.entries@[i].vpn));
        } else if j > i {
            assert(!(mm.entries@[i].pid == mm.entries@[j].pid && mm.entries@[i].vpn
                == mm.entries@[j].vpn));
        }
    }
}

} // verus!
