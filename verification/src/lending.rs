//! The memory lending protocol: instead of copying message payloads between
//! processes, the kernel temporarily (lend/return) or permanently (move)
//! re-parents page access. All operations mutate two address spaces in one
//! indivisible call, so no observer ever sees the page absent from both
//! spaces or writable in both.

use vstd::prelude::*;

use crate::manager::entry_is;
use crate::manager::has_backed_entry;
use crate::manager::has_entry;
use crate::manager::has_loan_on;
use crate::manager::has_space_spec;
use crate::manager::lemma_has_space_remove;
use crate::manager::lemma_key_not_backed;
use crate::manager::lemma_loan_entries_push;
use crate::manager::lemma_loan_entries_remove;
use crate::manager::lemma_loan_entries_update;
use crate::manager::lemma_mapper_owns;
use crate::manager::loan_involves;
use crate::manager::loan_is;
use crate::manager::pid_in;
use crate::manager::MemoryManager;
use crate::types::Backing;
use crate::types::Error;
use crate::types::FrameState;
use crate::types::Loan;
use crate::types::MemoryFlags;
use crate::types::MemoryMapping;
use crate::types::PageEntry;
use crate::types::MAX_VPN;
use crate::types::PAGE_SIZE;
use crate::types::USER_AREA_END;

verus! {

/// Flags the lender keeps while a loan is outstanding: write access is
/// revoked for a mutable loan so that the borrower is the only writer.
pub open spec fn lend_lender_flags(flags: MemoryFlags, mutable: bool) -> MemoryFlags {
    MemoryFlags {
        readable: flags.readable,
        writable: if mutable {
            false
        } else {
            flags.writable
        },
        executable: flags.executable,
        cacheable: flags.cacheable,
        user: flags.user,
    }
}

/// The borrower-side entry a lend creates: readable, writable exactly for a
/// mutable loan, never executable, user-accessible.
pub open spec fn borrow_entry(
    dest: usize,
    dvpn: usize,
    f: usize,
    lender_flags: MemoryFlags,
    mutable: bool,
) -> PageEntry {
    PageEntry {
        pid: dest,
        vpn: dvpn,
        backing: Backing::Frame(f),
        flags: MemoryFlags {
            readable: true,
            writable: mutable,
            executable: false,
            cacheable: lender_flags.cacheable,
            user: true,
        },
    }
}

/// Exact effect of lending the page under `src_addr` from space `src` to
/// space `dest` at `dest_addr`: one loan record appears, the lender's entry
/// is downgraded if the loan is mutable, the borrower gains exactly one
/// entry, and neither frame ownership nor memory contents change.
pub open spec fn lend_effect(
    pre: MemoryManager,
    post: MemoryManager,
    src: usize,
    src_addr: usize,
    dest: usize,
    dest_addr: usize,
    mutable: bool,
    token: usize,
) -> bool {
    let svpn = src_addr / PAGE_SIZE;
    let dvpn = dest_addr / PAGE_SIZE;
    &&& src_addr % PAGE_SIZE == 0 && dest_addr % PAGE_SIZE == 0 && dest_addr < USER_AREA_END
    &&& src != dest
    &&& has_space_spec(pre.spaces@, dest)
    &&& !has_entry(pre.entries@, dest, dvpn)
    &&& exists|i: int|
        0 <= i < pre.entries@.len() && {
            let e = #[trigger] pre.entries@[i];
            &&& e.pid == src
            &&& e.vpn == svpn
            &&& (e.backing matches Backing::Frame(f) && {
                &&& !has_loan_on(pre.loans@, f)
                &&& pre.frames.states@[f as int] == FrameState::Owned(src)
                &&& token == f * PAGE_SIZE
                &&& post.entries@ == pre.entries@.update(
                    i,
                    PageEntry {
                        pid: e.pid,
                        vpn: e.vpn,
                        backing: e.backing,
                        flags: lend_lender_flags(e.flags, mutable),
                    },
                ).push(borrow_entry(dest, dvpn, f, e.flags, mutable))
                &&& post.loans@ == pre.loans@.push(
                    Loan {
                        frame: f,
                        lender: src,
                        borrower: dest,
                        lender_vpn: svpn,
                        borrower_vpn: dvpn,
                        mutable,
                        lender_flags: e.flags,
                    },
                )
            })
        }
    &&& post.frames == pre.frames
    &&& post.mem@ == pre.mem@
    &&& post.spaces@ == pre.spaces@
    &&& post.active == pre.active
    &&& post.stale@ == pre.stale@
}

/// Exact effect of returning the loan borrowed by space `src` at `src_addr`
/// to lender `dest` at `dest_addr`: the matching loan disappears, the
/// borrower's entry is removed, the lender's entry gets its original flags
/// back, and every unrelated entry survives; frame ownership and memory
/// contents never change.
pub open spec fn return_effect(
    pre: MemoryManager,
    post: MemoryManager,
    src: usize,
    src_addr: usize,
    dest: usize,
    dest_addr: usize,
) -> bool {
    let bvpn = src_addr / PAGE_SIZE;
    let lvpn = dest_addr / PAGE_SIZE;
    &&& src_addr % PAGE_SIZE == 0 && dest_addr % PAGE_SIZE == 0
    &&& exists|li: int|
        0 <= li < pre.loans@.len() && {
            let l = #[trigger] pre.loans@[li];
            &&& l.lender == dest
            &&& l.borrower == src
            &&& l.lender_vpn == lvpn
            &&& l.borrower_vpn == bvpn
            &&& post.loans@ == pre.loans@.remove(li)
            &&& entry_is(
                post.entries@,
                PageEntry {
                    pid: dest,
                    vpn: lvpn,
                    backing: Backing::Frame(l.frame),
                    flags: l.lender_flags,
                },
            )
        }
    &&& !has_entry(post.entries@, src, bvpn)
    &&& post.entries@.len() + 1 == pre.entries@.len()
    &&& forall|j: int|
        0 <= j < pre.entries@.len() && !((#[trigger] pre.entries@[j]).pid == src
            && pre.entries@[j].vpn == bvpn) && !(pre.entries@[j].pid == dest
            && pre.entries@[j].vpn == lvpn) ==> entry_is(post.entries@, pre.entries@[j])
    &&& forall|j: int|
        0 <= j < post.entries@.len() ==> has_entry(
            pre.entries@,
            (#[trigger] post.entries@[j]).pid,
            post.entries@[j].vpn,
        )
    &&& post.frames == pre.frames
    &&& post.mem@ == pre.mem@
    &&& post.spaces@ == pre.spaces@
    &&& post.active == pre.active
    &&& post.stale@ == pre.stale@
}

impl MemoryManager {
    /// Index of the outstanding loan matching the full (lender, borrower,
    /// lender page, borrower page) tuple, if any.
    fn find_loan_matching(&self, lender: usize, borrower: usize, lvpn: usize, bvpn: usize) -> (r:
        Option<usize>)
        ensures
            match r {
                Some(i) => i < self.loans@.len() && {
                    let l = self.loans@[i as int];
                    l.lender == lender && l.borrower == borrower && l.lender_vpn == lvpn
                        && l.borrower_vpn == bvpn
                },
                None => forall|j: int|
                    0 <= j < self.loans@.len() ==> !((#[trigger] self.loans@[j]).lender == lender
                        && self.loans@[j].borrower == borrower && self.loans@[j].lender_vpn
                        == lvpn && self.loans@[j].borrower_vpn == bvpn),
            },
    {
        let n = self.loans.len();
        let mut i: usize = 0;
        while i < n
            invariant
                i <= n,
                n == self.loans@.len(),
                forall|j: int|
                    0 <= j < i ==> !((#[trigger] self.loans@[j]).lender == lender
                        && self.loans@[j].borrower == borrower && self.loans@[j].lender_vpn
                        == lvpn && self.loans@[j].borrower_vpn == bvpn),
            decreases n - i,
        {
            let l = self.loans[i];
            if l.lender == lender && l.borrower == borrower && l.lender_vpn == lvpn
                && l.borrower_vpn == bvpn {
                return Some(i);
            }
            i = i + 1;
        }
        None
    }
}

/// Lend the page under `src_addr` of `src_space` to `dest_space` at
/// `dest_addr`, read-only or — with `mutable` — read-write with the lender's
/// own write access revoked for the duration. Returns the loan token: the
/// base physical address of the frame on loan. Fails, changing nothing:
/// with `BadAddress` on misaligned or out-of-range addresses, a handle
/// mismatch, a dead destination space, or a source page that is absent or
/// uncommitted; with `AlreadyMapped` when the destination page is taken;
/// with `ShareViolation` when lender and borrower are the same space or the
/// frame is already on loan — the latter rejects both a second lend of a
/// lent page and any lend of a page the caller only borrows.
pub fn lend_page_inner(
    mm: &mut MemoryManager,
    src_space: &MemoryMapping,
    src_addr: usize,
    dest_pid: usize,
    dest_space: &MemoryMapping,
    dest_addr: usize,
    mutable: bool,
) -> (r: Result<usize, Error>)
    requires
        old(mm).wf(),
    ensures
        final(mm).wf(),
        match r {
            Ok(token) => dest_pid == dest_space.pid && lend_effect(
                *old(mm),
                *final(mm),
                src_space.pid,
                src_addr,
                dest_pid,
                dest_addr,
                mutable,
                token,
            ),
            Err(e) => *final(mm) == *old(mm) && match e {
                Error::BadAddress => src_addr % PAGE_SIZE != 0 || dest_addr % PAGE_SIZE != 0
                    || dest_addr >= USER_AREA_END || dest_pid != dest_space.pid
                    || !has_space_spec(old(mm).spaces@, dest_pid) || !has_backed_entry(
                    old(mm).entries@,
                    src_space.pid,
                    src_addr / PAGE_SIZE,
                ),
                Error::AlreadyMapped => has_entry(
                    old(mm).entries@,
                    dest_pid,
                    dest_addr / PAGE_SIZE,
                ),
                Error::ShareViolation => src_space.pid == dest_pid || exists|i: int|
                    0 <= i < old(mm).entries@.len() && (#[trigger] old(mm).entries@[i]).pid
                        == src_space.pid && old(mm).entries@[i].vpn == src_addr / PAGE_SIZE && (
                    old(mm).entries@[i].backing matches Backing::Frame(f) && has_loan_on(
                        old(mm).loans@,
                        f,
                    )),
                Error::OutOfMemory => false,
            },
        },
        src_addr % PAGE_SIZE == 0 && dest_addr % PAGE_SIZE == 0 && dest_addr < USER_AREA_END
            && dest_pid == dest_space.pid && src_space.pid != dest_pid && has_space_spec(
            old(mm).spaces@,
            dest_pid,
        ) && !has_entry(old(mm).entries@, dest_pid, dest_addr / PAGE_SIZE) && (exists|i: int|
            0 <= i < old(mm).entries@.len() && (#[trigger] old(mm).entries@[i]).pid
                == src_space.pid && old(mm).entries@[i].vpn == src_addr / PAGE_SIZE && (old(
                mm,
            ).entries@[i].backing matches Backing::Frame(f) && !has_loan_on(old(mm).loans@, f)))
            ==> r is Ok,
{
    if src_addr % PAGE_SIZE != 0 || dest_addr % PAGE_SIZE != 0 || dest_addr >= USER_AREA_END
        || dest_pid != dest_space.pid {
        return Err(Error::BadAddress);
    }
    if src_space.pid == dest_pid {
        return Err(Error::ShareViolation);
    }
    if mm.find_space(dest_pid).is_none() {
        return Err(Error::BadAddress);
    }
    let svpn = src_addr / PAGE_SIZE;
    let dvpn = dest_addr / PAGE_SIZE;
    let src_i = match mm.find_entry(src_space.pid, svpn) {
        None => {
            return Err(Error::BadAddress);
        },
        Some(i) => i,
    };
    let e = mm.entries[src_i];
    let f = match e.backing {
        Backing::Unbacked => {
            proof {
                lemma_key_not_backed(*mm, src_i as int, src_space.pid, svpn);
            }
            return Err(Error::BadAddress);
        },
        Backing::Frame(f) => f,
    };
    if mm.find_loan(f).is_some() {
        return Err(Error::ShareViolation);
    }
    if mm.find_entry(dest_pid, dvpn).is_some() {
        return Err(Error::AlreadyMapped);
    }
    proof {
        lemma_mapper_owns(*mm, src_i as int, f);
        // the lender's entry is the only mapping of the frame
        assert forall|k: int|
            0 <= k < mm.entries@.len() && k != src_i as int
                implies (#[trigger] mm.entries@[k]).backing != Backing::Frame(f) by {
            let e2 = mm.entries@[k];
            assert(mm.wf_entry(e2));
            if e2.backing == Backing::Frame(f) {
                if mm.frames.states@[f as int] == FrameState::Owned(e2.pid) {
                    if k < src_i as int {
                        assert(mm.entries@[k].pid != mm.entries@[src_i as int].pid);
                    } else {
                        assert(mm.entries@[src_i as int].pid != mm.entries@[k].pid);
                    }
                } else {
                    let j = choose|j: int|
                        0 <= j < mm.loans@.len() && mm.loans@[j].frame == f
                            && mm.loans@[j].borrower == e2.pid && mm.loans@[j].borrower_vpn
                            == e2.vpn;
                    assert(0 <= j < mm.loans@.len() && mm.loans@[j].frame == f);
                }
            }
        }
    }
    let ghost pre = *old(mm);
    let downgraded = PageEntry {
        pid: e.pid,
        vpn: e.vpn,
        backing: e.backing,
        flags: MemoryFlags {
            readable: e.flags.readable,
            writable: if mutable {
                false
            } else {
                e.flags.writable
            },
            executable: e.flags.executable,
            cacheable: e.flags.cacheable,
            user: e.flags.user,
        },
    };
    mm.entries[src_i] = downgraded;
    let be = PageEntry {
        pid: dest_pid,
        vpn: dvpn,
        backing: Backing::Frame(f),
        flags: MemoryFlags {
            readable: true,
            writable: mutable,
            executable: false,
            cacheable: e.flags.cacheable,
            user: true,
        },
    };
    mm.entries.push(be);
    let loan = Loan {
        frame: f,
        lender: src_space.pid,
        borrower: dest_pid,
        lender_vpn: svpn,
        borrower_vpn: dvpn,
        mutable,
        lender_flags: e.flags,
    };
    mm.loans.push(loan);
    proof {
        let post = *mm;
        vstd::arithmetic::div_mod::lemma_fundamental_div_mod(dest_addr as int, PAGE_SIZE as int);
        assert(dvpn < MAX_VPN);
        assert(post.loans@[pre.loans@.len() as int] == loan);
        let ghost es1 = pre.entries@.update(src_i as int, downgraded);
        assert(post.entries@ == es1.push(be));
        assert forall|a: int, b: int|
            0 <= a < b < post.entries@.len() implies !(post.entries@[a].pid
            == post.entries@[b].pid && post.entries@[a].vpn == post.entries@[b].vpn) by {
            if b < pre.entries@.len() {
                assert(post.entries@[a].pid == pre.entries@[a].pid && post.entries@[a].vpn
                    == pre.entries@[a].vpn);
                assert(post.entries@[b].pid == pre.entries@[b].pid && post.entries@[b].vpn
                    == pre.entries@[b].vpn);
            } else {
                assert(post.entries@[b] == be);
                assert(post.entries@[a].pid == pre.entries@[a].pid && post.entries@[a].vpn
                    == pre.entries@[a].vpn);
            }
        }
        assert forall|k: int|
            0 <= k < post.entries@.len() implies post.wf_entry(#[trigger] post.entries@[k]) by {
            if k < pre.entries@.len() {
                assert(pre.wf_entry(pre.entries@[k]));
                assert(post.entries@[k].pid == pre.entries@[k].pid && post.entries@[k].vpn
                    == pre.entries@[k].vpn && post.entries@[k].backing
                    == pre.entries@[k].backing);
                let e2 = pre.entries@[k];
                match e2.backing {
                    Backing::Frame(f2) => {
                        if pre.frames.states@[f2 as int] != FrameState::Owned(e2.pid) {
                            let j = choose|j: int|
                                0 <= j < pre.loans@.len() && pre.loans@[j].frame == f2
                                    && pre.loans@[j].borrower == e2.pid
                                    && pre.loans@[j].borrower_vpn == e2.vpn;
                            assert(post.loans@[j] == pre.loans@[j]);
                        }
                    },
                    Backing::Unbacked => {},
                }
            } else {
                assert(post.entries@[k] == be);
            }
        }
        assert forall|a: int, b: int|
            0 <= a < b < post.entries@.len() && post.entries@[a].backing is Frame
                && post.entries@[a].backing == post.entries@[b].backing
                implies post.entries@[a].pid != post.entries@[b].pid by {
            if b < pre.entries@.len() {
                assert(post.entries@[a].backing == pre.entries@[a].backing
                    && post.entries@[a].pid == pre.entries@[a].pid);
                assert(post.entries@[b].backing == pre.entries@[b].backing
                    && post.entries@[b].pid == pre.entries@[b].pid);
            } else {
                assert(post.entries@[b] == be);
                assert(post.entries@[a].backing == pre.entries@[a].backing
                    && post.entries@[a].pid == pre.entries@[a].pid);
                if a != src_i as int {
                    assert(pre.entries@[a].backing != Backing::Frame(f));
                }
            }
        }
        assert forall|a: int, b: int|
            0 <= a < b < post.loans@.len() implies post.loans@[a].frame
            != post.loans@[b].frame by {
            if b < pre.loans@.len() {
                assert(post.loans@[a] == pre.loans@[a] && post.loans@[b] == pre.loans@[b]);
            } else {
                assert(post.loans@[a] == pre.loans@[a]);
                assert(pre.loans@[a].frame != f);
            }
        }
        assert forall|k: int|
            0 <= k < post.loans@.len() implies post.wf_loan(#[trigger] post.loans@[k]) by {
            if k < pre.loans@.len() {
                let l = pre.loans@[k];
                assert(pre.wf_loan(l));
                assert(post.loans@[k] == l);
                assert(pre.entries@[src_i as int].backing != Backing::Frame(l.frame));
                lemma_loan_entries_update(pre.entries@, src_i as int, downgraded, l);
                lemma_loan_entries_push(es1, be, l);
            } else {
                assert(post.loans@[k] == loan);
                assert(post.entries@[src_i as int] == downgraded);
                assert(post.entries@[pre.entries@.len() as int] == be);
            }
        }
        assert(lend_effect(
            pre,
            post,
            src_space.pid,
            src_addr,
            dest_pid,
            dest_addr,
            mutable,
            (f * PAGE_SIZE) as usize,
        ));
    }
    Ok(f * PAGE_SIZE)
}

/// Exact effect of permanently moving the page under `src_addr` from space
/// `src` to space `dest` at `dest_addr`: the source entry disappears, the
/// destination gains exactly one entry to the same frame, ownership of the
/// frame passes to the destination, and memory contents are untouched — the
/// page is never absent from both spaces nor present in both.
pub open spec fn move_effect(
    pre: MemoryManager,
    post: MemoryManager,
    src: usize,
    src_addr: usize,
    dest: usize,
    dest_addr: usize,
) -> bool {
    let svpn = src_addr / PAGE_SIZE;
    let dvpn = dest_addr / PAGE_SIZE;
    &&& src_addr % PAGE_SIZE == 0 && dest_addr % PAGE_SIZE == 0 && dest_addr < USER_AREA_END
    &&& has_space_spec(pre.spaces@, dest)
    &&& !has_entry(pre.entries@, dest, dvpn)
    &&& exists|i: int|
        0 <= i < pre.entries@.len() && {
            let e = #[trigger] pre.entries@[i];
            &&& e.pid == src
            &&& e.vpn == svpn
            &&& (e.backing matches Backing::Frame(f) && {
                &&& !has_loan_on(pre.loans@, f)
                &&& pre.frames.states@[f as int] == FrameState::Owned(src)
                &&& post.entries@ == pre.entries@.remove(i).push(
                    PageEntry { pid: dest, vpn: dvpn, backing: Backing::Frame(f), flags: e.flags },
                )
                &&& post.frames.states@ == pre.frames.states@.update(
                    f as int,
                    FrameState::Owned(dest),
                )
            })
        }
    &&& !has_entry(post.entries@, src, svpn)
    &&& post.mem@ == pre.mem@
    &&& post.spaces@ == pre.spaces@
    &&& post.loans@ == pre.loans@
    &&& post.active == pre.active
    &&& post.stale@ == pre.stale@
}

/// Permanently transfer ownership of the page under `src_addr` from
/// `src_space` to `dest_space` at `dest_addr`: the source mapping is
/// removed and the destination gains a fresh mapping to the same frame, with
/// the source entry's flags, in one indivisible call. Fails, changing
/// nothing: with `BadAddress` on misaligned or out-of-range addresses, a
/// handle mismatch, a dead destination space, or a source page that is
/// absent or uncommitted; with `AlreadyMapped` when the destination page is
/// taken; with `ShareViolation` when the frame is on loan or the two handles
/// name the same space and page state would be lost.
pub fn move_page_inner(
    mm: &mut MemoryManager,
    src_space: &MemoryMapping,
    src_addr: usize,
    dest_pid: usize,
    dest_space: &MemoryMapping,
    dest_addr: usize,
) -> (r: Result<(), Error>)
    requires
        old(mm).wf(),
    ensures
        final(mm).wf(),
        match r {
            Ok(_) => dest_pid == dest_space.pid && move_effect(
                *old(mm),
                *final(mm),
                src_space.pid,
                src_addr,
                dest_pid,
                dest_addr,
            ),
            Err(e) => *final(mm) == *old(mm) && match e {
                Error::BadAddress => src_addr % PAGE_SIZE != 0 || dest_addr % PAGE_SIZE != 0
                    || dest_addr >= USER_AREA_END || dest_pid != dest_space.pid
                    || !has_space_spec(old(mm).spaces@, dest_pid) || !has_backed_entry(
                    old(mm).entries@,
                    src_space.pid,
                    src_addr / PAGE_SIZE,
                ),
                Error::AlreadyMapped => has_entry(
                    old(mm).entries@,
                    dest_pid,
                    dest_addr / PAGE_SIZE,
                ),
                Error::ShareViolation => src_space.pid == dest_pid || exists|i: int|
                    0 <= i < old(mm).entries@.len() && (#[trigger] old(mm).entries@[i]).pid
                        == src_space.pid && old(mm).entries@[i].vpn == src_addr / PAGE_SIZE && (
                    old(mm).entries@[i].backing matches Backing::Frame(f) && has_loan_on(
                        old(mm).loans@,
                        f,
                    )),
                Error::OutOfMemory => false,
            },
        },
        src_addr % PAGE_SIZE == 0 && dest_addr % PAGE_SIZE == 0 && dest_addr < USER_AREA_END
            && dest_pid == dest_space.pid && src_space.pid != dest_pid && has_space_spec(
            old(mm).spaces@,
            dest_pid,
        ) && !has_entry(old(mm).entries@, dest_pid, dest_addr / PAGE_SIZE) && (exists|i: int|
            0 <= i < old(mm).entries@.len() && (#[trigger] old(mm).entries@[i]).pid
                == src_space.pid && old(mm).entries@[i].vpn == src_addr / PAGE_SIZE && (old(
                mm,
            ).entries@[i].backing matches Backing::Frame(f) && !has_loan_on(old(mm).loans@, f)))
            ==> r is Ok,
{
    if src_addr % PAGE_SIZE != 0 || dest_addr % PAGE_SIZE != 0 || dest_addr >= USER_AREA_END
        || dest_pid != dest_space.pid {
        return Err(Error::BadAddress);
    }
    if src_space.pid == dest_pid {
        return Err(Error::ShareViolation);
    }
    if mm.find_space(dest_pid).is_none() {
        return Err(Error::BadAddress);
    }
    let svpn = src_addr / PAGE_SIZE;
    let dvpn = dest_addr / PAGE_SIZE;
    let src_i = match mm.find_entry(src_space.pid, svpn) {
        None => {
            return Err(Error::BadAddress);
        },
        Some(i) => i,
    };
    let e = mm.entries[src_i];
    let f = match e.backing {
        Backing::Unbacked => {
            proof {
                lemma_key_not_backed(*mm, src_i as int, src_space.pid, svpn);
            }
            return Err(Error::BadAddress);
        },
        Backing::Frame(f) => f,
    };
    if mm.find_loan(f).is_some() {
        return Err(Error::ShareViolation);
    }
    if mm.find_entry(dest_pid, dvpn).is_some() {
        return Err(Error::AlreadyMapped);
    }
    proof {
        lemma_mapper_owns(*mm, src_i as int, f);
        assert forall|k: int|
            0 <= k < mm.entries@.len() && k != src_i as int
                implies (#[trigger] mm.entries@[k]).backing != Backing::Frame(f) by {
            let e2 = mm.entries@[k];
            assert(mm.wf_entry(e2));
            if e2.backing == Backing::Frame(f) {
                if mm.frames.states@[f as int] == FrameState::Owned(e2.pid) {
                    if k < src_i as int {
                        assert(mm.entries@[k].pid != mm.entries@[src_i as int].pid);
                    } else {
                        assert(mm.entries@[src_i as int].pid != mm.entries@[k].pid);
                    }
                } else {
                    let j = choose|j: int|
                        0 <= j < mm.loans@.len() && mm.loans@[j].frame == f
                            && mm.loans@[j].borrower == e2.pid && mm.loans@[j].borrower_vpn
                            == e2.vpn;
                    assert(0 <= j < mm.loans@.len() && mm.loans@[j].frame == f);
                }
            }
        }
    }
    let ghost pre = *old(mm);
    let de = PageEntry { pid: dest_pid, vpn: dvpn, backing: Backing::Frame(f), flags: e.flags };
    mm.entries.remove(src_i);
    mm.entries.push(de);
    mm.frames.transfer(f, src_space.pid, dest_pid);
    proof {
        let post = *mm;
        vstd::arithmetic::div_mod::lemma_fundamental_div_mod(dest_addr as int, PAGE_SIZE as int);
        assert(dvpn < MAX_VPN);
        let es1 = pre.entries@.remove(src_i as int);
        assert(post.entries@ == es1.push(de));
        assert forall|a: int, b: int|
            0 <= a < b < post.entries@.len() implies !(post.entries@[a].pid
            == post.entries@[b].pid && post.entries@[a].vpn == post.entries@[b].vpn) by {
            let a0: int = if a < src_i as int {
                a
            } else {
                a + 1
            };
            let b0: int = if b < src_i as int {
                b
            } else {
                b + 1
            };
            if b < es1.len() {
                assert(post.entries@[a] == pre.entries@[a0] && post.entries@[b]
                    == pre.entries@[b0]);
            } else {
                assert(post.entries@[b] == de);
                assert(post.entries@[a] == pre.entries@[a0]);
            }
        }
        assert forall|k: int|
            0 <= k < post.entries@.len() implies post.wf_entry(#[trigger] post.entries@[k]) by {
            if k < es1.len() {
                let k0: int = if k < src_i as int {
                    k
                } else {
                    k + 1
                };
                assert(post.entries@[k] == pre.entries@[k0]);
                let e2 = pre.entries@[k0];
                assert(pre.wf_entry(e2));
                match e2.backing {
                    Backing::Frame(f2) => {
                        assert(f2 != f);
                        if pre.frames.states@[f2 as int] != FrameState::Owned(e2.pid) {
                            let j = choose|j: int|
                                0 <= j < pre.loans@.len() && pre.loans@[j].frame == f2
                                    && pre.loans@[j].borrower == e2.pid
                                    && pre.loans@[j].borrower_vpn == e2.vpn;
                            assert(post.loans@[j] == pre.loans@[j]);
                        }
                    },
                    Backing::Unbacked => {},
                }
            } else {
                assert(post.entries@[k] == de);
            }
        }
        assert forall|a: int, b: int|
            0 <= a < b < post.entries@.len() && post.entries@[a].backing is Frame
                && post.entries@[a].backing == post.entries@[b].backing
                implies post.entries@[a].pid != post.entries@[b].pid by {
            let a0: int = if a < src_i as int {
                a
            } else {
                a + 1
            };
            if b < es1.len() {
                let b0: int = if b < src_i as int {
                    b
                } else {
                    b + 1
                };
                assert(post.entries@[a] == pre.entries@[a0] && post.entries@[b]
                    == pre.entries@[b0]);
            } else {
                assert(post.entries@[b] == de);
                assert(post.entries@[a] == pre.entries@[a0]);
                assert(pre.entries@[a0].backing != Backing::Frame(f));
            }
        }
        assert forall|k: int|
            0 <= k < post.loans@.len() implies post.wf_loan(#[trigger] post.loans@[k]) by {
            let l = pre.loans@[k];
            assert(pre.wf_loan(l));
            assert(post.loans@[k] == l);
            assert(0 <= k < pre.loans@.len() && pre.loans@[k].frame == l.frame);
            assert(l.frame != f);
            assert(pre.entries@[src_i as int].backing != Backing::Frame(l.frame));
            lemma_loan_entries_remove(pre.entries@, src_i as int, l);
            lemma_loan_entries_push(es1, de, l);
        }
        assert forall|k: int|
            0 <= k < post.entries@.len() implies !((#[trigger] post.entries@[k]).pid
            == src_space.pid && post.entries@[k].vpn == svpn) by {
            if k < es1.len() {
                let k0: int = if k < src_i as int {
                    k
                } else {
                    k + 1
                };
                assert(post.entries@[k] == pre.entries@[k0]);
                if k0 < src_i as int {
                    assert(!(pre.entries@[k0].pid == pre.entries@[src_i as int].pid
                        && pre.entries@[k0].vpn == pre.entries@[src_i as int].vpn));
                } else {
                    assert(!(pre.entries@[src_i as int].pid == pre.entries@[k0].pid
                        && pre.entries@[src_i as int].vpn == pre.entries@[k0].vpn));
                }
            } else {
                assert(post.entries@[k] == de);
            }
        }
        assert(move_effect(pre, post, src_space.pid, src_addr, dest_pid, dest_addr));
    }
    Ok(())
}

/// After restoring the lender entry's flags, removing the borrower entry,
/// and dropping loan `li`, the invariant holds again and the bookkeeping
/// facts of a return are available.
#[verifier::rlimit(60)]
proof fn lemma_return_wf(pre: MemoryManager, post: MemoryManager, li: int, le_i: int, be_i: int)
    requires
        pre.wf(),
        0 <= li < pre.loans@.len(),
        0 <= le_i < pre.entries@.len(),
        0 <= be_i < pre.entries@.len(),
        pre.entries@[le_i].pid == pre.loans@[li].lender,
        pre.entries@[le_i].vpn == pre.loans@[li].lender_vpn,
        pre.entries@[be_i].pid == pre.loans@[li].borrower,
        pre.entries@[be_i].vpn == pre.loans@[li].borrower_vpn,
        post.entries@ == pre.entries@.update(
            le_i,
            PageEntry {
                pid: pre.loans@[li].lender,
                vpn: pre.loans@[li].lender_vpn,
                backing: pre.entries@[le_i].backing,
                flags: pre.loans@[li].lender_flags,
            },
        ).remove(be_i),
        post.loans@ == pre.loans@.remove(li),
        post.frames == pre.frames,
        post.mem@ == pre.mem@,
        post.spaces@ == pre.spaces@,
    ensures
        post.wf(),
        pre.entries@[le_i].backing == Backing::Frame(pre.loans@[li].frame),
        pre.entries@[be_i].backing == Backing::Frame(pre.loans@[li].frame),
        !has_entry(post.entries@, pre.loans@[li].borrower, pre.loans@[li].borrower_vpn),
        entry_is(
            post.entries@,
            PageEntry {
                pid: pre.loans@[li].lender,
                vpn: pre.loans@[li].lender_vpn,
                backing: Backing::Frame(pre.loans@[li].frame),
                flags: pre.loans@[li].lender_flags,
            },
        ),
        forall|j: int|
            0 <= j < pre.entries@.len() && !((#[trigger] pre.entries@[j]).pid
                == pre.loans@[li].borrower && pre.entries@[j].vpn == pre.loans@[li].borrower_vpn)
                && !(pre.entries@[j].pid == pre.loans@[li].lender && pre.entries@[j].vpn
                == pre.loans@[li].lender_vpn) ==> entry_is(post.entries@, pre.entries@[j]),
        forall|j: int|
            0 <= j < post.entries@.len() ==> has_entry(
                pre.entries@,
                (#[trigger] post.entries@[j]).pid,
                post.entries@[j].vpn,
            ),
{
    let l = pre.loans@[li];
    assert(pre.wf_loan(l));
    let restored = PageEntry {
        pid: l.lender,
        vpn: l.lender_vpn,
        backing: pre.entries@[le_i].backing,
        flags: l.lender_flags,
    };
    let es1 = pre.entries@.update(le_i, restored);
    // the lender and borrower witness entries are exactly le_i and be_i
    let wi = choose|i: int|
        0 <= i < pre.entries@.len() && {
            let e = #[trigger] pre.entries@[i];
            &&& e.pid == l.lender
            &&& e.vpn == l.lender_vpn
            &&& e.backing == Backing::Frame(l.frame)
            &&& (l.mutable ==> !e.flags.writable)
        };
    if wi < le_i {
        assert(!(pre.entries@[wi].pid == pre.entries@[le_i].pid && pre.entries@[wi].vpn
            == pre.entries@[le_i].vpn));
    } else if wi > le_i {
        assert(!(pre.entries@[le_i].pid == pre.entries@[wi].pid && pre.entries@[le_i].vpn
            == pre.entries@[wi].vpn));
    }
    assert(pre.entries@[le_i].backing == Backing::Frame(l.frame));
    let bi = choose|i: int|
        0 <= i < pre.entries@.len() && {
            let e = #[trigger] pre.entries@[i];
            &&& e.pid == l.borrower
            &&& e.vpn == l.borrower_vpn
            &&& e.backing == Backing::Frame(l.frame)
            &&& e.flags.writable == l.mutable
        };
    if bi < be_i {
        assert(!(pre.entries@[bi].pid == pre.entries@[be_i].pid && pre.entries@[bi].vpn
            == pre.entries@[be_i].vpn));
    } else if bi > be_i {
        assert(!(pre.entries@[be_i].pid == pre.entries@[bi].pid && pre.entries@[be_i].vpn
            == pre.entries@[bi].vpn));
    }
    assert(pre.entries@[be_i].backing == Backing::Frame(l.frame));
    assert(le_i != be_i);
    // only le_i and be_i map the loan's frame
    assert forall|k: int|
        0 <= k < pre.entries@.len() && k != le_i && k != be_i
            implies (#[trigger] pre.entries@[k]).backing != Backing::Frame(l.frame) by {
        let e2 = pre.entries@[k];
        assert(pre.wf_entry(e2));
        if e2.backing == Backing::Frame(l.frame) {
            if pre.frames.states@[l.frame as int] == FrameState::Owned(e2.pid) {
                if k < le_i {
                    assert(pre.entries@[k].pid != pre.entries@[le_i].pid);
                } else {
                    assert(pre.entries@[le_i].pid != pre.entries@[k].pid);
                }
            } else {
                let j = choose|j: int|
                    0 <= j < pre.loans@.len() && pre.loans@[j].frame == l.frame
                        && pre.loans@[j].borrower == e2.pid && pre.loans@[j].borrower_vpn
                        == e2.vpn;
                if j < li {
                    assert(pre.loans@[j].frame != pre.loans@[li].frame);
                } else if j > li {
                    assert(pre.loans@[li].frame != pre.loans@[j].frame);
                }
                if k < be_i {
                    assert(!(pre.entries@[k].pid == pre.entries@[be_i].pid && pre.entries@[k].vpn
                        == pre.entries@[be_i].vpn));
                } else {
                    assert(!(pre.entries@[be_i].pid == pre.entries@[k].pid
                        && pre.entries@[be_i].vpn == pre.entries@[k].vpn));
                }
            }
        }
    }
    // well-formedness of the post state
    assert forall|a: int, b: int|
        0 <= a < b < post.entries@.len() implies !(post.entries@[a].pid == post.entries@[b].pid
        && post.entries@[a].vpn == post.entries@[b].vpn) by {
        let a0: int = if a < be_i {
            a
        } else {
            a + 1
        };
        let b0: int = if b < be_i {
            b
        } else {
            b + 1
        };
        assert(post.entries@[a] == es1[a0] && post.entries@[b] == es1[b0]);
        assert(es1[a0].pid == pre.entries@[a0].pid && es1[a0].vpn == pre.entries@[a0].vpn);
        assert(es1[b0].pid == pre.entries@[b0].pid && es1[b0].vpn == pre.entries@[b0].vpn);
    }
    assert forall|k: int|
        0 <= k < post.entries@.len() implies post.wf_entry(#[trigger] post.entries@[k]) by {
        let k0: int = if k < be_i {
            k
        } else {
            k + 1
        };
        assert(post.entries@[k] == es1[k0]);
        let e2 = pre.entries@[k0];
        assert(pre.wf_entry(e2));
        assert(es1[k0].pid == e2.pid && es1[k0].vpn == e2.vpn && es1[k0].backing == e2.backing);
        match e2.backing {
            Backing::Frame(f2) => {
                if k0 == le_i {
                    assert(post.frames.states@[f2 as int] == FrameState::Owned(e2.pid));
                } else if pre.frames.states@[f2 as int] != FrameState::Owned(e2.pid) {
                    let j = choose|j: int|
                        0 <= j < pre.loans@.len() && pre.loans@[j].frame == f2
                            && pre.loans@[j].borrower == e2.pid && pre.loans@[j].borrower_vpn
                            == e2.vpn;
                    if j == li {
                        assert(false);
                    } else {
                        if j < li {
                            assert(post.loans@[j] == pre.loans@[j]);
                        } else {
                            assert(post.loans@[j - 1] == pre.loans@[j]);
                        }
                    }
                }
            },
            Backing::Unbacked => {},
        }
    }
    assert forall|a: int, b: int|
        0 <= a < b < post.entries@.len() && post.entries@[a].backing is Frame
            && post.entries@[a].backing == post.entries@[b].backing implies post.entries@[a].pid
        != post.entries@[b].pid by {
        let a0: int = if a < be_i {
            a
        } else {
            a + 1
        };
        let b0: int = if b < be_i {
            b
        } else {
            b + 1
        };
        assert(post.entries@[a] == es1[a0] && post.entries@[b] == es1[b0]);
        assert(es1[a0].pid == pre.entries@[a0].pid && es1[a0].backing
            == pre.entries@[a0].backing);
        assert(es1[b0].pid == pre.entries@[b0].pid && es1[b0].backing
            == pre.entries@[b0].backing);
    }
    assert forall|a: int, b: int|
        0 <= a < b < post.loans@.len() implies post.loans@[a].frame != post.loans@[b].frame by {
        let a0: int = if a < li {
            a
        } else {
            a + 1
        };
        let b0: int = if b < li {
            b
        } else {
            b + 1
        };
        assert(post.loans@[a] == pre.loans@[a0] && post.loans@[b] == pre.loans@[b0]);
    }
    assert forall|k: int|
        0 <= k < post.loans@.len() implies post.wf_loan(#[trigger] post.loans@[k]) by {
        let k0: int = if k < li {
            k
        } else {
            k + 1
        };
        assert(post.loans@[k] == pre.loans@[k0]);
        let l2 = pre.loans@[k0];
        assert(pre.wf_loan(l2));
        if k0 < li {
            assert(pre.loans@[k0].frame != pre.loans@[li].frame);
        } else {
            assert(pre.loans@[li].frame != pre.loans@[k0].frame);
        }
        assert(pre.entries@[le_i].backing != Backing::Frame(l2.frame));
        lemma_loan_entries_update(pre.entries@, le_i, restored, l2);
        assert(es1[be_i].backing == Backing::Frame(l.frame));
        lemma_loan_entries_remove(es1, be_i, l2);
    }
    // the borrower's page is gone
    assert forall|k: int|
        0 <= k < post.entries@.len() implies !((#[trigger] post.entries@[k]).pid == l.borrower
        && post.entries@[k].vpn == l.borrower_vpn) by {
        let k0: int = if k < be_i {
            k
        } else {
            k + 1
        };
        assert(post.entries@[k] == es1[k0]);
        assert(es1[k0].pid == pre.entries@[k0].pid && es1[k0].vpn == pre.entries@[k0].vpn);
        if k0 < be_i {
            assert(!(pre.entries@[k0].pid == pre.entries@[be_i].pid && pre.entries@[k0].vpn
                == pre.entries@[be_i].vpn));
        } else {
            assert(!(pre.entries@[be_i].pid == pre.entries@[k0].pid && pre.entries@[be_i].vpn
                == pre.entries@[k0].vpn));
        }
    }
    // the lender's entry is restored
    let le_new: int = if le_i < be_i {
        le_i
    } else {
        le_i - 1
    };
    assert(post.entries@[le_new] == es1[le_i]);
    // unrelated entries survive
    assert forall|j: int|
        0 <= j < pre.entries@.len() && !((#[trigger] pre.entries@[j]).pid == l.borrower
        && pre.entries@[j].vpn == l.borrower_vpn) && !(pre.entries@[j].pid == l.lender
        && pre.entries@[j].vpn == l.lender_vpn) implies entry_is(
        post.entries@,
        pre.entries@[j],
    ) by {
        assert(j != le_i && j != be_i);
        assert(es1[j] == pre.entries@[j]);
        if j < be_i {
            assert(post.entries@[j] == es1[j]);
        } else {
            assert(post.entries@[j - 1] == es1[j]);
        }
    }
    // and nothing appears under a fresh key
    assert forall|j: int|
        0 <= j < post.entries@.len() implies has_entry(
        pre.entries@,
        (#[trigger] post.entries@[j]).pid,
        post.entries@[j].vpn,
    ) by {
        let j0: int = if j < be_i {
            j
        } else {
            j + 1
        };
        assert(post.entries@[j] == es1[j0]);
        assert(es1[j0].pid == pre.entries@[j0].pid && es1[j0].vpn == pre.entries@[j0].vpn);
    }
}

/// Return a borrowed page: `src_space` is the borrower handing the page
/// under `src_addr` back to lender `dest_space` at `dest_addr`. The call
/// validates that an outstanding loan matches this exact (lender, borrower,
/// addresses) tuple, removes the borrower's mapping, and restores the
/// lender's original access flags; ownership and memory contents are
/// untouched. Returns the page size transferred. Fails, changing nothing,
/// with `BadAddress` when the addresses are misaligned, the handles are
/// inconsistent, or no loan matches.
pub fn return_page_inner(
    mm: &mut MemoryManager,
    src_space: &MemoryMapping,
    src_addr: usize,
    dest_pid: usize,
    dest_space: &MemoryMapping,
    dest_addr: usize,
) -> (r: Result<usize, Error>)
    requires
        old(mm).wf(),
    ensures
        final(mm).wf(),
        match r {
            Ok(size) => size == PAGE_SIZE && dest_pid == dest_space.pid && return_effect(
                *old(mm),
                *final(mm),
                src_space.pid,
                src_addr,
                dest_pid,
                dest_addr,
            ),
            Err(e) => *final(mm) == *old(mm) && e == Error::BadAddress && (src_addr % PAGE_SIZE
                != 0 || dest_addr % PAGE_SIZE != 0 || dest_pid != dest_space.pid || (forall|
                j: int,
            |
                0 <= j < old(mm).loans@.len() ==> !((#[trigger] old(mm).loans@[j]).lender
                    == dest_pid && old(mm).loans@[j].borrower == src_space.pid && old(
                    mm,
                ).loans@[j].lender_vpn == dest_addr / PAGE_SIZE && old(mm).loans@[j].borrower_vpn
                    == src_addr / PAGE_SIZE))),
        },
        src_addr % PAGE_SIZE == 0 && dest_addr % PAGE_SIZE == 0 && dest_pid == dest_space.pid && (
        exists|j: int|
            0 <= j < old(mm).loans@.len() && (#[trigger] old(mm).loans@[j]).lender == dest_pid
                && old(mm).loans@[j].borrower == src_space.pid && old(mm).loans@[j].lender_vpn
                == dest_addr / PAGE_SIZE && old(mm).loans@[j].borrower_vpn == src_addr
                / PAGE_SIZE) ==> r is Ok,
{
    if src_addr % PAGE_SIZE != 0 || dest_addr % PAGE_SIZE != 0 || dest_pid != dest_space.pid {
        return Err(Error::BadAddress);
    }
    let bvpn = src_addr / PAGE_SIZE;
    let lvpn = dest_addr / PAGE_SIZE;
    let li = match mm.find_loan_matching(dest_pid, src_space.pid, lvpn, bvpn) {
        None => {
            return Err(Error::BadAddress);
        },
        Some(i) => i,
    };
    let l = mm.loans[li];
    proof {
        assert(mm.wf_loan(mm.loans@[li as int]));
    }
    let le_i = match mm.find_entry(dest_pid, lvpn) {
        None => {
            // unreachable: the loan's side keeps its entry while the loan is
            // outstanding
            proof {
                let wi = choose|i: int|
                    0 <= i < mm.entries@.len() && {
                        let e = #[trigger] mm.entries@[i];
                        &&& e.pid == l.lender
                        &&& e.vpn == l.lender_vpn
                        &&& e.backing == Backing::Frame(l.frame)
                        &&& (l.mutable ==> !e.flags.writable)
                    };
                assert(false);
            }
            return Err(Error::BadAddress);
        },
        Some(i) => i,
    };
    let be_i = match mm.find_entry(src_space.pid, bvpn) {
        None => {
            // unreachable: the loan's side keeps its entry while the loan is
            // outstanding
            proof {
                let wi = choose|i: int|
                    0 <= i < mm.entries@.len() && {
                        let e = #[trigger] mm.entries@[i];
                        &&& e.pid == l.borrower
                        &&& e.vpn == l.borrower_vpn
                        &&& e.backing == Backing::Frame(l.frame)
                        &&& e.flags.writable == l.mutable
                    };
                assert(false);
            }
            return Err(Error::BadAddress);
        },
        Some(i) => i,
    };
    let ghost pre = *old(mm);
    let le = mm.entries[le_i];
    let restored = PageEntry {
        pid: l.lender,
        vpn: l.lender_vpn,
        backing: le.backing,
        flags: l.lender_flags,
    };
    mm.entries[le_i] = restored;
    mm.entries.remove(be_i);
    mm.loans.remove(li);
    proof {
        lemma_return_wf(pre, *mm, li as int, le_i as int, be_i as int);
        assert(pre.loans@[li as int].lender == dest_pid && pre.loans@[li as int].borrower
            == src_space.pid && pre.loans@[li as int].lender_vpn == lvpn && pre.loans@[
            li as int].borrower_vpn == bvpn);
    }
    Ok(PAGE_SIZE)
}

/// Tear down a process: force-return every loan it is a side of, as lender
/// or as borrower, remove its every mapping, free its every frame, retire
/// its address space, and record its identifier as possibly cached so a
/// later reuse forces a flush. Loans between other processes, frames owned
/// by other processes, and memory contents are untouched, and no mapping to
/// any of the terminated process's former frames survives. Fails, changing
/// nothing, with `BadAddress` when no live space carries the identifier.
#[verifier::rlimit(100)]
pub fn terminate_process(mm: &mut MemoryManager, pid: usize) -> (r: Result<(), Error>)
    requires
        old(mm).wf(),
    ensures
        final(mm).wf(),
        match r {
            Ok(_) => {
                &&& has_space_spec(old(mm).spaces@, pid)
                &&& !has_space_spec(final(mm).spaces@, pid)
                &&& forall|j: int|
                    0 <= j < final(mm).loans@.len() ==> !loan_involves(
                        #[trigger] final(mm).loans@[j],
                        pid,
                    )
                &&& forall|j: int|
                    0 <= j < final(mm).loans@.len() ==> loan_is(
                        old(mm).loans@,
                        #[trigger] final(mm).loans@[j],
                    )
                &&& forall|j: int|
                    0 <= j < old(mm).loans@.len() && !loan_involves(
                        #[trigger] old(mm).loans@[j],
                        pid,
                    ) ==> loan_is(final(mm).loans@, old(mm).loans@[j])
                &&& forall|j: int|
                    0 <= j < final(mm).entries@.len() ==> (#[trigger] final(mm).entries@[j]).pid
                        != pid
                &&& final(mm).frames.states@.len() == old(mm).frames.states@.len()
                &&& forall|f: int|
                    0 <= f < final(mm).frames.states@.len() ==> final(mm).frames.states@[f]
                        != FrameState::Owned(pid)
                &&& forall|f: int|
                    0 <= f < old(mm).frames.states@.len() && old(mm).frames.states@[f]
                        != FrameState::Owned(pid) ==> final(mm).frames.states@[f] == old(
                        mm,
                    ).frames.states@[f]
                &&& forall|f: int|
                    0 <= f < old(mm).frames.states@.len() && old(mm).frames.states@[f]
                        == FrameState::Owned(pid) ==> final(mm).frames.states@[f] is Free
                &&& forall|q: usize|
                    q != pid ==> (has_space_spec(final(mm).spaces@, q) <==> has_space_spec(
                        old(mm).spaces@,
                        q,
                    ))
                &&& final(mm).mem@ == old(mm).mem@
                &&& final(mm).active == old(mm).active
                &&& pid_in(final(mm).stale@, pid)
            },
            Err(e) => {
                &&& e == Error::BadAddress
                &&& !has_space_spec(old(mm).spaces@, pid)
                &&& *final(mm) == *old(mm)
            },
        },
{
    if mm.find_space(pid).is_none() {
        return Err(Error::BadAddress);
    }
    // revoke every loan the process is a side of, by a forced return
    let mut i: usize = 0;
    while i < mm.loans.len()
        invariant
            mm.wf(),
            i <= mm.loans@.len(),
            forall|j: int| 0 <= j < i ==> !loan_involves(#[trigger] mm.loans@[j], pid),
            mm.frames == old(mm).frames,
            mm.mem@ == old(mm).mem@,
            mm.spaces@ == old(mm).spaces@,
            mm.active == old(mm).active,
            mm.stale@ == old(mm).stale@,
            forall|j: int|
                0 <= j < mm.loans@.len() ==> loan_is(old(mm).loans@, #[trigger] mm.loans@[j]),
            forall|j: int|
                0 <= j < old(mm).loans@.len() && !loan_involves(
                    #[trigger] old(mm).loans@[j],
                    pid,
                ) ==> loan_is(mm.loans@, old(mm).loans@[j]),
        decreases mm.loans@.len() - i,
    {
        let l = mm.loans[i];
        if l.lender == pid || l.borrower == pid {
            let ghost cur = *mm;
            proof {
                assert(mm.wf_loan(mm.loans@[i as int]));
            }
            let le_i = match mm.find_entry(l.lender, l.lender_vpn) {
                None => {
                    // unreachable: the loan's side keeps its entry while the
                    // loan is outstanding
                    proof {
                        let wi = choose|k: int|
                            0 <= k < mm.entries@.len() && {
                                let e = #[trigger] mm.entries@[k];
                                &&& e.pid == l.lender
                                &&& e.vpn == l.lender_vpn
                                &&& e.backing == Backing::Frame(l.frame)
                                &&& (l.mutable ==> !e.flags.writable)
                            };
                        assert(false);
                    }
                    return Err(Error::BadAddress);
                },
                Some(x) => x,
            };
            let be_i = match mm.find_entry(l.borrower, l.borrower_vpn) {
                None => {
                    // unreachable: the loan's side keeps its entry while the
                    // loan is outstanding
                    proof {
                        let wi = choose|k: int|
                            0 <= k < mm.entries@.len() && {
                                let e = #[trigger] mm.entries@[k];
                                &&& e.pid == l.borrower
                                &&& e.vpn == l.borrower_vpn
                                &&& e.backing == Backing::Frame(l.frame)
                                &&& e.flags.writable == l.mutable
                            };
                        assert(false);
                    }
                    return Err(Error::BadAddress);
                },
                Some(x) => x,
            };
            let le = mm.entries[le_i];
            let restored = PageEntry {
                pid: l.lender,
                vpn: l.lender_vpn,
                backing: le.backing,
                flags: l.lender_flags,
            };
            mm.entries[le_i] = restored;
            mm.entries.remove(be_i);
            mm.loans.remove(i);
            proof {
                lemma_return_wf(cur, *mm, i as int, le_i as int, be_i as int);
                assert forall|j: int|
                    0 <= j < i implies !loan_involves(#[trigger] mm.loans@[j], pid) by {
                    assert(mm.loans@[j] == cur.loans@[j]);
                }
                assert forall|j: int|
                    0 <= j < mm.loans@.len() implies loan_is(
                    old(mm).loans@,
                    #[trigger] mm.loans@[j],
                ) by {
                    let j0: int = if j < i {
                        j
                    } else {
                        j + 1
                    };
                    assert(mm.loans@[j] == cur.loans@[j0]);
                }
                assert forall|j: int|
                    0 <= j < old(mm).loans@.len() && !loan_involves(
                    #[trigger] old(mm).loans@[j],
                    pid,
                ) implies loan_is(mm.loans@, old(mm).loans@[j]) by {
                    let lo = old(mm).loans@[j];
                    let jj = choose|jj: int| 0 <= jj < cur.loans@.len() && cur.loans@[jj] == lo;
                    assert(loan_involves(cur.loans@[i as int], pid));
                    assert(jj != i);
                    if jj < i {
                        assert(mm.loans@[jj] == lo);
                    } else {
                        assert(mm.loans@[jj - 1] == lo);
                    }
                }
            }
        } else {
            i = i + 1;
        }
    }
    // remove every mapping entry of the dying space
    let mut i: usize = 0;
    while i < mm.entries.len()
        invariant
            mm.wf(),
            i <= mm.entries@.len(),
            forall|j: int| 0 <= j < i ==> (#[trigger] mm.entries@[j]).pid != pid,
            forall|j: int|
                0 <= j < mm.loans@.len() ==> !loan_involves(#[trigger] mm.loans@[j], pid),
            mm.frames == old(mm).frames,
            mm.mem@ == old(mm).mem@,
            mm.spaces@ == old(mm).spaces@,
            mm.active == old(mm).active,
            mm.stale@ == old(mm).stale@,
            forall|j: int|
                0 <= j < mm.loans@.len() ==> loan_is(old(mm).loans@, #[trigger] mm.loans@[j]),
            forall|j: int|
                0 <= j < old(mm).loans@.len() && !loan_involves(
                    #[trigger] old(mm).loans@[j],
                    pid,
                ) ==> loan_is(mm.loans@, old(mm).loans@[j]),
        decreases mm.entries@.len() - i,
    {
        let e = mm.entries[i];
        if e.pid == pid {
            let ghost cur = *mm;
            proof {
                assert(cur.wf_entry(cur.entries@[i as int]));
                match e.backing {
                    Backing::Frame(f2) => {
                        if cur.frames.states@[f2 as int] != FrameState::Owned(pid) {
                            let j = choose|j: int|
                                0 <= j < cur.loans@.len() && cur.loans@[j].frame == f2
                                    && cur.loans@[j].borrower == e.pid
                                    && cur.loans@[j].borrower_vpn == e.vpn;
                            assert(loan_involves(cur.loans@[j], pid));
                        }
                    },
                    Backing::Unbacked => {},
                }
            }
            mm.entries.remove(i);
            proof {
                let post = *mm;
                assert forall|a: int, b: int|
                    0 <= a < b < post.entries@.len() implies !(post.entries@[a].pid
                    == post.entries@[b].pid && post.entries@[a].vpn
                    == post.entries@[b].vpn) by {
                    let a0: int = if a < i {
                        a
                    } else {
                        a + 1
                    };
                    let b0: int = if b < i {
                        b
                    } else {
                        b + 1
                    };
                    assert(post.entries@[a] == cur.entries@[a0] && post.entries@[b]
                        == cur.entries@[b0]);
                }
                assert forall|k: int|
                    0 <= k < post.entries@.len() implies post.wf_entry(
                    #[trigger] post.entries@[k],
                ) by {
                    let k0: int = if k < i {
                        k
                    } else {
                        k + 1
                    };
                    assert(post.entries@[k] == cur.entries@[k0]);
                    assert(cur.wf_entry(cur.entries@[k0]));
                }
                assert forall|a: int, b: int|
                    0 <= a < b < post.entries@.len() && post.entries@[a].backing is Frame
                        && post.entries@[a].backing == post.entries@[b].backing
                        implies post.entries@[a].pid != post.entries@[b].pid by {
                    let a0: int = if a < i {
                        a
                    } else {
                        a + 1
                    };
                    let b0: int = if b < i {
                        b
                    } else {
                        b + 1
                    };
                    assert(post.entries@[a] == cur.entries@[a0] && post.entries@[b]
                        == cur.entries@[b0]);
                }
                assert forall|k: int|
                    0 <= k < post.loans@.len() implies post.wf_loan(
                    #[trigger] post.loans@[k],
                ) by {
                    let l = cur.loans@[k];
                    assert(cur.wf_loan(l));
                    assert(!loan_involves(l, pid));
                    match cur.entries@[i as int].backing {
                        Backing::Frame(f2) => {
                            assert(cur.frames.states@[f2 as int] == FrameState::Owned(pid));
                            assert(cur.frames.states@[l.frame as int] == FrameState::Owned(
                                l.lender,
                            ));
                            assert(f2 != l.frame);
                        },
                        Backing::Unbacked => {},
                    }
                    lemma_loan_entries_remove(cur.entries@, i as int, l);
                }
                assert forall|j: int|
                    0 <= j < i implies (#[trigger] post.entries@[j]).pid != pid by {
                    assert(post.entries@[j] == cur.entries@[j]);
                }
            }
        } else {
            i = i + 1;
        }
    }
    // free every frame the process still owns
    let n = mm.frames.total_frames();
    let mut f: usize = 0;
    while f < n
        invariant
            mm.wf(),
            f <= n,
            n == mm.frames.states@.len(),
            n == old(mm).frames.states@.len(),
            forall|g: int| 0 <= g < f ==> mm.frames.states@[g] != FrameState::Owned(pid),
            forall|g: int|
                0 <= g < n && old(mm).frames.states@[g] != FrameState::Owned(pid)
                    ==> mm.frames.states@[g] == old(mm).frames.states@[g],
            forall|g: int|
                0 <= g < n && mm.frames.states@[g] != old(mm).frames.states@[g]
                    ==> mm.frames.states@[g] is Free,
            forall|j: int| 0 <= j < mm.entries@.len() ==> (#[trigger] mm.entries@[j]).pid != pid,
            forall|j: int|
                0 <= j < mm.loans@.len() ==> !loan_involves(#[trigger] mm.loans@[j], pid),
            mm.mem@ == old(mm).mem@,
            mm.spaces@ == old(mm).spaces@,
            mm.active == old(mm).active,
            mm.stale@ == old(mm).stale@,
            forall|j: int|
                0 <= j < mm.loans@.len() ==> loan_is(old(mm).loans@, #[trigger] mm.loans@[j]),
            forall|j: int|
                0 <= j < old(mm).loans@.len() && !loan_involves(
                    #[trigger] old(mm).loans@[j],
                    pid,
                ) ==> loan_is(mm.loans@, old(mm).loans@[j]),
        decreases n - f,
    {
        let owned_by_pid = match mm.frames.states[f] {
            FrameState::Owned(p) => p == pid,
            _ => false,
        };
        if owned_by_pid {
            let ghost cur = *mm;
            proof {
                assert forall|k: int|
                    0 <= k < cur.entries@.len() implies (#[trigger] cur.entries@[k]).backing
                    != Backing::Frame(f) by {
                    let e2 = cur.entries@[k];
                    assert(cur.wf_entry(e2));
                    if e2.backing == Backing::Frame(f) {
                        if cur.frames.states@[f as int] == FrameState::Owned(e2.pid) {
                            assert(e2.pid == pid);
                        } else {
                            let j = choose|j: int|
                                0 <= j < cur.loans@.len() && cur.loans@[j].frame == f
                                    && cur.loans@[j].borrower == e2.pid
                                    && cur.loans@[j].borrower_vpn == e2.vpn;
                            assert(cur.wf_loan(cur.loans@[j]));
                            assert(loan_involves(cur.loans@[j], pid));
                        }
                    }
                }
            }
            mm.frames.free(f, pid);
            proof {
                let post = *mm;
                assert forall|k: int|
                    0 <= k < post.entries@.len() implies post.wf_entry(
                    #[trigger] post.entries@[k],
                ) by {
                    let e2 = post.entries@[k];
                    assert(cur.wf_entry(e2));
                    match e2.backing {
                        Backing::Frame(f2) => {
                            assert(f2 != f);
                        },
                        Backing::Unbacked => {},
                    }
                }
                assert forall|k: int|
                    0 <= k < post.loans@.len() implies post.wf_loan(
                    #[trigger] post.loans@[k],
                ) by {
                    let l = post.loans@[k];
                    assert(cur.wf_loan(l));
                    assert(!loan_involves(l, pid));
                    assert(l.frame != f);
                }
            }
        }
        f = f + 1;
    }
    // retire the address space and remember the recycled identifier
    let si = match mm.find_space(pid) {
        None => {
            // unreachable: the space was found live on entry and no phase
            // touches the space table
            proof {
                assert(false);
            }
            return Err(Error::BadAddress);
        },
        Some(x) => x,
    };
    let ghost cur = *mm;
    mm.spaces.remove(si);
    mm.stale.push(pid);
    proof {
        let post = *mm;
        assert forall|a: int, b: int|
            0 <= a < b < post.spaces@.len() implies post.spaces@[a].pid != post.spaces@[b].pid by {
            let a0: int = if a < si as int {
                a
            } else {
                a + 1
            };
            let b0: int = if b < si as int {
                b
            } else {
                b + 1
            };
            assert(post.spaces@[a] == cur.spaces@[a0] && post.spaces@[b] == cur.spaces@[b0]);
        }
        assert forall|k: int|
            0 <= k < post.entries@.len() implies post.wf_entry(#[trigger] post.entries@[k]) by {
            let e2 = post.entries@[k];
            assert(cur.wf_entry(e2));
            assert(e2.pid != pid);
            assert(cur.spaces@[si as int].pid == pid);
            lemma_has_space_remove(cur.spaces@, si as int, e2.pid);
        }
        assert forall|k: int|
            0 <= k < post.loans@.len() implies post.wf_loan(#[trigger] post.loans@[k]) by {
            assert(cur.wf_loan(cur.loans@[k]));
        }
        assert forall|g: int|
            0 <= g < post.frames.states@.len() && post.frames.states@[g] is Owned
                implies has_space_spec(post.spaces@, post.frames.states@[g]->0) by {
            assert(post.frames.states@[g] != FrameState::Owned(pid));
            assert(post.frames.states@[g]->0 != pid);
            lemma_has_space_remove(cur.spaces@, si as int, post.frames.states@[g]->0);
        }
        assert forall|k: int|
            0 <= k < post.spaces@.len() implies (#[trigger] post.spaces@[k]).pid != pid by {
            let k0: int = if k < si as int {
                k
            } else {
                k + 1
            };
            assert(post.spaces@[k] == cur.spaces@[k0]);
            if k0 < si as int {
                assert(cur.spaces@[k0].pid != cur.spaces@[si as int].pid);
            } else if k0 > si as int {
                assert(cur.spaces@[si as int].pid != cur.spaces@[k0].pid);
            }
        }
        assert forall|q: usize|
            q != pid && has_space_spec(old(mm).spaces@, q) implies has_space_spec(
            post.spaces@,
            q,
        ) by {
            lemma_has_space_remove(cur.spaces@, si as int, q);
        }
        assert forall|q: usize|
            q != pid && has_space_spec(post.spaces@, q) implies has_space_spec(
            old(mm).spaces@,
            q,
        ) by {
            let w = choose|w: int| 0 <= w < post.spaces@.len() && post.spaces@[w].pid == q;
            let w0: int = if w < si as int {
                w
            } else {
                w + 1
            };
            assert(post.spaces@[w] == cur.spaces@[w0]);
        }
        assert(post.stale@[cur.stale@.len() as int] == pid);
    }
    Ok(())
}

} // verus!
