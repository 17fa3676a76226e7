//! Crate-wide theorems relating the operations to one another: translation
//! lookup laws, the lend/return round trip, exclusive-writer and
//! no-transitive-loan guarantees, and conservation of physical frames. Each
//! is proved from the operations' contracts and the systemwide invariant
//! alone, so it holds of every reachable state.

use vstd::prelude::*;

use crate::frames::count_free;
use crate::frames::count_owned;
use crate::frames::count_owned_by;
use crate::frames::count_reserved;
use crate::frames::lemma_frame_conservation;
use crate::lending::lend_effect;
use crate::lending::return_effect;
use crate::manager::entry_is;
use crate::manager::has_entry;
use crate::manager::has_space_spec;
use crate::manager::lemma_free_frame_unmapped;
use crate::manager::map_effect;
use crate::manager::translate_ok;
use crate::manager::translate_fails;
use crate::manager::unique_pids;
use crate::manager::unmap_effect;
use crate::manager::MemoryManager;
use crate::types::Backing;
use crate::types::FrameState;
use crate::types::SpaceInfo;
use crate::types::PAGE_SIZE;

verus! {

/// Translation is a function: under the invariant, a space's page translates
/// to at most one physical address.
pub proof fn lemma_translate_unique(
    mm: MemoryManager,
    pid: usize,
    virt: usize,
    p1: usize,
    p2: usize,
)
    requires
        mm.wf(),
        translate_ok(mm, pid, virt, p1),
        translate_ok(mm, pid, virt, p2),
    ensures
        p1 == p2,
{
    let i1 = choose|i: int|
        0 <= i < mm.entries@.len() && {
            let e = #[trigger] mm.entries@[i];
            &&& e.pid == pid
            &&& e.vpn == virt / PAGE_SIZE
            &&& (e.backing matches Backing::Frame(f) && p1 == f * PAGE_SIZE + virt % PAGE_SIZE)
        };
    let i2 = choose|i: int|
        0 <= i < mm.entries@.len() && {
            let e = #[trigger] mm.entries@[i];
            &&& e.pid == pid
            &&& e.vpn == virt / PAGE_SIZE
            &&& (e.backing matches Backing::Frame(f) && p2 == f * PAGE_SIZE + virt % PAGE_SIZE)
        };
    if i1 < i2 {
        assert(!(mm.entries@[i1].pid == mm.entries@[i2].pid && mm.entries@[i1].vpn
            == mm.entries@[i2].vpn));
    } else if i2 < i1 {
        assert(!(mm.entries@[i2].pid == mm.entries@[i1].pid && mm.entries@[i2].vpn
            == mm.entries@[i1].vpn));
    }
}

/// After mapping `phys` at `virt`, the page translates to exactly `phys`,
/// and the translation of every other page of every space is untouched — so
/// a translation holds from its map until its unmap or overwrite.
pub proof fn lemma_translate_after_map(
    pre: MemoryManager,
    post: MemoryManager,
    pid: usize,
    virt: usize,
    phys: usize,
    flags: crate::types::MemoryFlags,
)
    requires
        map_effect(pre, post, pid, virt, phys, flags),
    ensures
        translate_ok(post, pid, virt, phys),
        forall|pid2: usize, virt2: usize, p2: usize|
            !(pid2 == pid && virt2 / PAGE_SIZE == virt / PAGE_SIZE) ==> (#[trigger] translate_ok(
                pre,
                pid2,
                virt2,
                p2,
            ) <==> translate_ok(post, pid2, virt2, p2)),
{
    let vpn = virt / PAGE_SIZE;
    let frame = phys / PAGE_SIZE;
    vstd::arithmetic::div_mod::lemma_fundamental_div_mod(virt as int, PAGE_SIZE as int);
    vstd::arithmetic::div_mod::lemma_fundamental_div_mod(phys as int, PAGE_SIZE as int);
    assert(post.entries@[pre.entries@.len() as int] == crate::types::PageEntry {
        pid,
        vpn,
        backing: Backing::Frame(frame),
        flags,
    });
    assert(phys == frame * PAGE_SIZE + virt % PAGE_SIZE);
    assert forall|pid2: usize, virt2: usize, p2: usize|
        !(pid2 == pid && virt2 / PAGE_SIZE == virt / PAGE_SIZE) implies (#[trigger] translate_ok(
        pre,
        pid2,
        virt2,
        p2,
    ) <==> translate_ok(post, pid2, virt2, p2)) by {
        if translate_ok(pre, pid2, virt2, p2) {
            let i = choose|i: int|
                0 <= i < pre.entries@.len() && {
                    let e = #[trigger] pre.entries@[i];
                    &&& e.pid == pid2
                    &&& e.vpn == virt2 / PAGE_SIZE
                    &&& (e.backing matches Backing::Frame(f) && p2 == f * PAGE_SIZE + virt2
                        % PAGE_SIZE)
                };
            assert(post.entries@[i] == pre.entries@[i]);
        }
        if translate_ok(post, pid2, virt2, p2) {
            let i = choose|i: int|
                0 <= i < post.entries@.len() && {
                    let e = #[trigger] post.entries@[i];
                    &&& e.pid == pid2
                    &&& e.vpn == virt2 / PAGE_SIZE
                    &&& (e.backing matches Backing::Frame(f) && p2 == f * PAGE_SIZE + virt2
                        % PAGE_SIZE)
                };
            assert(i < pre.entries@.len());
            assert(post.entries@[i] == pre.entries@[i]);
        }
    }
}

/// After unmapping `virt`, translating it fails, and the translation of
/// every other page of every space is untouched.
pub proof fn lemma_translate_after_unmap(
    pre: MemoryManager,
    post: MemoryManager,
    pid: usize,
    virt: usize,
    p: usize,
)
    requires
        pre.wf(),
        unmap_effect(pre, post, pid, virt, p),
    ensures
        translate_fails(post, pid, virt),
        forall|pid2: usize, virt2: usize, p2: usize|
            !(pid2 == pid && virt2 / PAGE_SIZE == virt / PAGE_SIZE) ==> (#[trigger] translate_ok(
                pre,
                pid2,
                virt2,
                p2,
            ) <==> translate_ok(post, pid2, virt2, p2)),
{
    let vpn = virt / PAGE_SIZE;
    assert forall|pid2: usize, virt2: usize, p2: usize|
        !(pid2 == pid && virt2 / PAGE_SIZE == virt / PAGE_SIZE) implies (#[trigger] translate_ok(
        pre,
        pid2,
        virt2,
        p2,
    ) <==> translate_ok(post, pid2, virt2, p2)) by {
        if translate_ok(pre, pid2, virt2, p2) {
            let i = choose|i: int|
                0 <= i < pre.entries@.len() && {
                    let e = #[trigger] pre.entries@[i];
                    &&& e.pid == pid2
                    &&& e.vpn == virt2 / PAGE_SIZE
                    &&& (e.backing matches Backing::Frame(f) && p2 == f * PAGE_SIZE + virt2
                        % PAGE_SIZE)
                };
            assert(entry_is(post.entries@, pre.entries@[i]));
            let j = choose|j: int|
                0 <= j < post.entries@.len() && post.entries@[j] == pre.entries@[i];
            assert(translate_ok(post, pid2, virt2, p2));
        }
        if translate_ok(post, pid2, virt2, p2) {
            let i = choose|i: int|
                0 <= i < post.entries@.len() && {
                    let e = #[trigger] post.entries@[i];
                    &&& e.pid == pid2
                    &&& e.vpn == virt2 / PAGE_SIZE
                    &&& (e.backing matches Backing::Frame(f) && p2 == f * PAGE_SIZE + virt2
                        % PAGE_SIZE)
                };
            assert(entry_is(pre.entries@, post.entries@[i]));
            let j = choose|j: int| 0 <= j < pre.entries@.len() && pre.entries@[j]
                == post.entries@[i];
            assert(translate_ok(pre, pid2, virt2, p2));
        }
    }
}

/// A lend followed by the matching return restores the lender's original
/// entry — address, frame, and flags — removes the borrower's mapping,
/// and leaves frame ownership, the loan table, and memory contents exactly
/// as they were before the lend.
pub proof fn lemma_lend_return_round_trip(
    mm0: MemoryManager,
    mm1: MemoryManager,
    mm2: MemoryManager,
    src: usize,
    src_addr: usize,
    dest: usize,
    dest_addr: usize,
    mutable: bool,
    token: usize,
)
    requires
        mm0.wf(),
        mm1.wf(),
        mm2.wf(),
        lend_effect(mm0, mm1, src, src_addr, dest, dest_addr, mutable, token),
        return_effect(mm1, mm2, dest, dest_addr, src, src_addr),
    ensures
        mm2.entries@.len() == mm0.entries@.len(),
        forall|j: int|
            0 <= j < mm0.entries@.len() ==> entry_is(mm2.entries@, #[trigger] mm0.entries@[j]),
        !has_entry(mm2.entries@, dest, dest_addr / PAGE_SIZE),
        mm2.frames == mm0.frames,
        mm2.loans@ == mm0.loans@,
        mm2.mem@ == mm0.mem@,
{
    let svpn = src_addr / PAGE_SIZE;
    let dvpn = dest_addr / PAGE_SIZE;
    let i = choose|i: int|
        0 <= i < mm0.entries@.len() && {
            let e = #[trigger] mm0.entries@[i];
            &&& e.pid == src
            &&& e.vpn == svpn
            &&& (e.backing matches Backing::Frame(f) && {
                &&& !crate::manager::has_loan_on(mm0.loans@, f)
                &&& mm0.frames.states@[f as int] == FrameState::Owned(src)
                &&& token == f * PAGE_SIZE
                &&& mm1.entries@ == mm0.entries@.update(
                    i,
                    crate::types::PageEntry {
                        pid: e.pid,
                        vpn: e.vpn,
                        backing: e.backing,
                        flags: crate::lending::lend_lender_flags(e.flags, mutable),
                    },
                ).push(crate::lending::borrow_entry(dest, dvpn, f, e.flags, mutable))
                &&& mm1.loans@ == mm0.loans@.push(
                    crate::types::Loan {
                        frame: f,
                        lender: src,
                        borrower: dest,
                        lender_vpn: svpn,
                        borrower_vpn: dvpn,
                        mutable,
                        lender_flags: e.flags,
                    },
                )
            })
        };
    let e0 = mm0.entries@[i];
    let f = e0.backing->0;
    let lstar = crate::types::Loan {
        frame: f,
        lender: src,
        borrower: dest,
        lender_vpn: svpn,
        borrower_vpn: dvpn,
        mutable,
        lender_flags: e0.flags,
    };
    let nl = mm0.loans@.len() as int;
    assert(mm1.loans@[nl] == lstar);
    let li = choose|li: int|
        0 <= li < mm1.loans@.len() && {
            let l = #[trigger] mm1.loans@[li];
            &&& l.lender == src
            &&& l.borrower == dest
            &&& l.lender_vpn == svpn
            &&& l.borrower_vpn == dvpn
            &&& mm2.loans@ == mm1.loans@.remove(li)
            &&& entry_is(
                mm2.entries@,
                crate::types::PageEntry {
                    pid: src,
                    vpn: svpn,
                    backing: Backing::Frame(l.frame),
                    flags: l.lender_flags,
                },
            )
        };
    let l = mm1.loans@[li];
    // the returned loan is the one the lend created: both lend out the same
    // lender page, whose unique entry pins the frame, and frames pin loans
    assert(mm1.wf_loan(l));
    assert(mm1.wf_loan(lstar));
    let w1 = choose|w: int|
        0 <= w < mm1.entries@.len() && {
            let e = #[trigger] mm1.entries@[w];
            &&& e.pid == l.lender
            &&& e.vpn == l.lender_vpn
            &&& e.backing == Backing::Frame(l.frame)
            &&& (l.mutable ==> !e.flags.writable)
        };
    let w2 = choose|w: int|
        0 <= w < mm1.entries@.len() && {
            let e = #[trigger] mm1.entries@[w];
            &&& e.pid == lstar.lender
            &&& e.vpn == lstar.lender_vpn
            &&& e.backing == Backing::Frame(lstar.frame)
            &&& (lstar.mutable ==> !e.flags.writable)
        };
    if w1 < w2 {
        assert(!(mm1.entries@[w1].pid == mm1.entries@[w2].pid && mm1.entries@[w1].vpn
            == mm1.entries@[w2].vpn));
    } else if w2 < w1 {
        assert(!(mm1.entries@[w2].pid == mm1.entries@[w1].pid && mm1.entries@[w2].vpn
            == mm1.entries@[w1].vpn));
    }
    assert(l.frame == lstar.frame);
    if li < nl {
        assert(mm1.loans@[li].frame != mm1.loans@[nl].frame);
        assert(false);
    }
    assert(li == nl);
    assert(l == lstar);
    assert forall|k: int| 0 <= k < mm0.loans@.len() implies mm2.loans@[k] == mm0.loans@[k] by {
        assert(mm2.loans@[k] == mm1.loans@[k]);
        assert(mm1.loans@[k] == mm0.loans@[k]);
    }
    assert(mm2.loans@ =~= mm0.loans@);
    // the restored lender entry is the original one
    assert(entry_is(
        mm2.entries@,
        crate::types::PageEntry {
            pid: src,
            vpn: svpn,
            backing: Backing::Frame(f),
            flags: e0.flags,
        },
    ));
    assert(crate::types::PageEntry {
        pid: src,
        vpn: svpn,
        backing: Backing::Frame(f),
        flags: e0.flags,
    } == e0);
    // every original entry survives the round trip
    assert forall|j: int|
        0 <= j < mm0.entries@.len() implies entry_is(
        mm2.entries@,
        #[trigger] mm0.entries@[j],
    ) by {
        if j == i {
            assert(entry_is(mm2.entries@, e0));
        } else {
            assert(mm1.entries@[j] == mm0.entries@[j]);
            if j < i {
                assert(!(mm0.entries@[j].pid == mm0.entries@[i].pid && mm0.entries@[j].vpn
                    == mm0.entries@[i].vpn));
            } else {
                assert(!(mm0.entries@[i].pid == mm0.entries@[j].pid && mm0.entries@[i].vpn
                    == mm0.entries@[j].vpn));
            }
            assert(!(mm0.entries@[j].pid == dest && mm0.entries@[j].vpn == dvpn));
            assert(entry_is(mm2.entries@, mm1.entries@[j]));
        }
    }
}

/// Exclusive writer: while a mutable loan is outstanding, the only writable
/// mapping of its frame anywhere in the system is the borrower's — the
/// lender's own write access stays revoked, and no third space maps the
/// frame at all.
pub proof fn lemma_mutable_loan_excludes_writers(mm: MemoryManager, li: int, k: int)
    requires
        mm.wf(),
        0 <= li < mm.loans@.len(),
        mm.loans@[li].mutable,
        0 <= k < mm.entries@.len(),
        mm.entries@[k].backing == Backing::Frame(mm.loans@[li].frame),
        mm.entries@[k].flags.writable,
    ensures
        mm.entries@[k].pid == mm.loans@[li].borrower,
        mm.entries@[k].vpn == mm.loans@[li].borrower_vpn,
{
    let l = mm.loans@[li];
    let e = mm.entries@[k];
    assert(mm.wf_loan(l));
    assert(mm.wf_entry(e));
    if mm.frames.states@[l.frame as int] == FrameState::Owned(e.pid) {
        // then the entry belongs to the lender, whose only mapping of the
        // frame is the downgraded loan entry
        let w = choose|w: int|
            0 <= w < mm.entries@.len() && {
                let e2 = #[trigger] mm.entries@[w];
                &&& e2.pid == l.lender
                &&& e2.vpn == l.lender_vpn
                &&& e2.backing == Backing::Frame(l.frame)
                &&& (l.mutable ==> !e2.flags.writable)
            };
        if k < w {
            assert(mm.entries@[k].pid != mm.entries@[w].pid);
        } else if w < k {
            assert(mm.entries@[w].pid != mm.entries@[k].pid);
        }
        assert(false);
    } else {
        let j = choose|j: int|
            0 <= j < mm.loans@.len() && mm.loans@[j].frame == l.frame && mm.loans@[j].borrower
                == e.pid && mm.loans@[j].borrower_vpn == e.vpn;
        if j < li {
            assert(mm.loans@[j].frame != mm.loans@[li].frame);
        } else if li < j {
            assert(mm.loans@[li].frame != mm.loans@[j].frame);
        }
    }
}

/// No transitive loans: a page a space holds only as a borrower can never be
/// lent onward — no lend of it can take effect.
pub proof fn lemma_no_transitive_loans(
    pre: MemoryManager,
    post: MemoryManager,
    src: usize,
    src_addr: usize,
    dest: usize,
    dest_addr: usize,
    mutable: bool,
    token: usize,
    li: int,
)
    requires
        pre.wf(),
        0 <= li < pre.loans@.len(),
        pre.loans@[li].borrower == src,
        pre.loans@[li].borrower_vpn == src_addr / PAGE_SIZE,
    ensures
        !lend_effect(pre, post, src, src_addr, dest, dest_addr, mutable, token),
{
    let l = pre.loans@[li];
    assert(pre.wf_loan(l));
    if lend_effect(pre, post, src, src_addr, dest, dest_addr, mutable, token) {
        let svpn = src_addr / PAGE_SIZE;
        let i = choose|i: int|
            0 <= i < pre.entries@.len() && {
                let e = #[trigger] pre.entries@[i];
                &&& e.pid == src
                &&& e.vpn == svpn
                &&& (e.backing matches Backing::Frame(f) && {
                    &&& !crate::manager::has_loan_on(pre.loans@, f)
                    &&& pre.frames.states@[f as int] == FrameState::Owned(src)
                    &&& token == f * PAGE_SIZE
                })
            };
        let b = choose|b: int|
            0 <= b < pre.entries@.len() && {
                let e = #[trigger] pre.entries@[b];
                &&& e.pid == l.borrower
                &&& e.vpn == l.borrower_vpn
                &&& e.backing == Backing::Frame(l.frame)
                &&& e.flags.writable == l.mutable
            };
        if i < b {
            assert(!(pre.entries@[i].pid == pre.entries@[b].pid && pre.entries@[i].vpn
                == pre.entries@[b].vpn));
        } else if b < i {
            assert(!(pre.entries@[b].pid == pre.entries@[i].pid && pre.entries@[b].vpn
                == pre.entries@[i].vpn));
        }
        // so the lent entry is the borrowed one, whose frame is on loan
        assert(pre.entries@[i].backing == Backing::Frame(l.frame));
        assert(0 <= li < pre.loans@.len() && pre.loans@[li].frame == l.frame);
        assert(false);
    }
}

/// Ownership conservation: free, kernel-reserved, and owned frames always
/// partition the physical memory map, and every operation of the crate keeps
/// the frame table's length, so the total is never created or destroyed.
pub proof fn lemma_ownership_conservation(mm: MemoryManager)
    ensures
        count_free(mm.frames.states@) + count_reserved(mm.frames.states@) + count_owned(
            mm.frames.states@,
        ) == mm.frames.states@.len(),
{
    lemma_frame_conservation(mm.frames.states@);
}

/// Number of live spaces carrying the identifier `pid` — 0 or 1 once the
/// identifiers are unique.
pub open spec fn count_spaces_with(spaces: Seq<SpaceInfo>, pid: usize) -> nat
    decreases spaces.len(),
{
    if spaces.len() == 0 {
        0
    } else {
        (if spaces[0].pid == pid {
            1nat
        } else {
            0nat
        }) + count_spaces_with(spaces.skip(1), pid)
    }
}

/// Sum, over every live process, of the frames that process owns.
pub open spec fn sum_owned_by_live(states: Seq<FrameState>, spaces: Seq<SpaceInfo>) -> nat
    decreases spaces.len(),
{
    if spaces.len() == 0 {
        0
    } else {
        count_owned_by(states, spaces[0].pid) + sum_owned_by_live(states, spaces.skip(1))
    }
}

proof fn lemma_sum_owned_empty(states: Seq<FrameState>, spaces: Seq<SpaceInfo>)
    requires
        states.len() == 0,
    ensures
        sum_owned_by_live(states, spaces) == 0,
    decreases spaces.len(),
{
    if spaces.len() > 0 {
        lemma_sum_owned_empty(states, spaces.skip(1));
    }
}

/// Dropping the last frame takes its owner's contribution out of the sum
/// once for each space carrying that owner's identifier.
proof fn lemma_sum_owned_step(states: Seq<FrameState>, spaces: Seq<SpaceInfo>)
    requires
        states.len() > 0,
    ensures
        sum_owned_by_live(states, spaces) == sum_owned_by_live(states.drop_last(), spaces) + (
        match states.last() {
            FrameState::Owned(p) => count_spaces_with(spaces, p),
            _ => 0nat,
        }),
    decreases spaces.len(),
{
    if spaces.len() > 0 {
        lemma_sum_owned_step(states, spaces.skip(1));
    }
}

/// With unique identifiers, a live identifier is carried by exactly one
/// space and a dead one by none.
proof fn lemma_count_spaces_unique(spaces: Seq<SpaceInfo>, pid: usize)
    requires
        unique_pids(spaces),
    ensures
        count_spaces_with(spaces, pid) == (if has_space_spec(spaces, pid) {
            1nat
        } else {
            0nat
        }),
    decreases spaces.len(),
{
    if spaces.len() > 0 {
        let tail = spaces.skip(1);
        assert forall|i: int, j: int|
            0 <= i < j < tail.len() implies tail[i].pid != tail[j].pid by {
            assert(tail[i] == spaces[i + 1]);
            assert(tail[j] == spaces[j + 1]);
        }
        lemma_count_spaces_unique(tail, pid);
        if spaces[0].pid == pid {
            if has_space_spec(tail, pid) {
                let w = choose|w: int| 0 <= w < tail.len() && tail[w].pid == pid;
                assert(tail[w] == spaces[w + 1]);
                assert(spaces[0].pid != spaces[w + 1].pid);
            }
            assert(has_space_spec(spaces, pid));
        } else {
            if has_space_spec(spaces, pid) {
                let w = choose|w: int| 0 <= w < spaces.len() && spaces[w].pid == pid;
                assert(w != 0);
                assert(tail[w - 1] == spaces[w]);
                assert(has_space_spec(tail, pid));
            }
            if has_space_spec(tail, pid) {
                let w = choose|w: int| 0 <= w < tail.len() && tail[w].pid == pid;
                assert(tail[w] == spaces[w + 1]);
                assert(has_space_spec(spaces, pid));
            }
        }
    }
}

/// When every owned frame's owner is a live space with a unique identifier,
/// the per-process sums add up to the owned count: no frame is counted for
/// two processes and none is missed.
proof fn lemma_sum_owned_by_live_counts(states: Seq<FrameState>, spaces: Seq<SpaceInfo>)
    requires
        unique_pids(spaces),
        forall|f: int|
            0 <= f < states.len() && (#[trigger] states[f]) is Owned ==> has_space_spec(
                spaces,
                states[f]->0,
            ),
    ensures
        sum_owned_by_live(states, spaces) == count_owned(states),
    decreases states.len(),
{
    if states.len() == 0 {
        lemma_sum_owned_empty(states, spaces);
    } else {
        let dl = states.drop_last();
        assert forall|f: int|
            0 <= f < dl.len() && (#[trigger] dl[f]) is Owned implies has_space_spec(
            spaces,
            dl[f]->0,
        ) by {
            assert(dl[f] == states[f]);
        }
        lemma_sum_owned_by_live_counts(dl, spaces);
        lemma_sum_owned_step(states, spaces);
        match states.last() {
            FrameState::Owned(p) => {
                assert(states[states.len() - 1] is Owned);
                assert(has_space_spec(spaces, p));
                lemma_count_spaces_unique(spaces, p);
            },
            _ => {},
        }
    }
}

/// Ownership conservation in the data model's own words: at all times,
/// summing "frames owned by process P" over all live processes, plus free
/// frames, plus kernel-reserved frames, equals the total number of physical
/// frames — which no operation changes.
pub proof fn lemma_ownership_conservation_by_process(mm: MemoryManager)
    requires
        mm.wf(),
    ensures
        count_free(mm.frames.states@) + count_reserved(mm.frames.states@) + sum_owned_by_live(
            mm.frames.states@,
            mm.spaces@,
        ) == mm.frames.states@.len(),
{
    lemma_frame_conservation(mm.frames.states@);
    lemma_sum_owned_by_live_counts(mm.frames.states@, mm.spaces@);
}

/// After a termination sweep no dangling access remains: a freed frame — in
/// particular every frame the dead process owned — is mapped by no live
/// entry of any space.
pub proof fn lemma_no_mapping_to_freed_frame(mm: MemoryManager, frame: usize)
    requires
        mm.wf(),
        frame < mm.frames.states@.len(),
        mm.frames.states@[frame as int] is Free,
    ensures
        forall|k: int|
            0 <= k < mm.entries@.len() ==> (#[trigger] mm.entries@[k]).backing != Backing::Frame(
                frame,
            ),
{
    lemma_free_frame_unmapped(mm, frame);
}

} // verus!
