use vstd::prelude::*;

use crate::runtime::{
    first_vacant, notifies, pending_handles, registers, releases, unlinks, PadState, RuntimeView,
};

verus! {

/// Two slots that both are the lowest vacant one of the same slots are the same slot.
pub proof fn lemma_first_vacant_unique(slots: Seq<PadState>, a: usize, b: usize)
    requires
        first_vacant(slots, a),
        first_vacant(slots, b),
    ensures
        a == b,
{
    if a < b {
        assert(slots[a as int] != PadState::Vacant);
    } else if b < a {
        assert(slots[b as int] != PadState::Vacant);
    }
}

/// After `k` registrations from an empty list, the list holds their slots in order and each
/// of those slots holds its handle.
proof fn lemma_registrations(
    views: Seq<RuntimeView>,
    slots: Seq<usize>,
    handles: Seq<u64>,
    k: int,
)
    requires
        views.len() == handles.len() + 1,
        slots.len() == handles.len(),
        views[0].waiters.len() == 0,
        forall|i: int|
            0 <= i < handles.len() ==> registers(
                #[trigger] views[i],
                views[i + 1],
                slots[i],
                handles[i],
            ),
        0 <= k <= handles.len(),
    ensures
        views[k].waiters == slots.take(k),
        slots.take(k).no_duplicates(),
        forall|i: int|
            0 <= i < k ==> slots[i] < views[k].slots.len() && views[k].slots[#[trigger] slots[i] as int]
                == PadState::Waiting(handles[i]),
    decreases k,
{
    if k == 0 {
        assert(slots.take(0) =~= views[0].waiters);
    } else {
        let j = k - 1;
        lemma_registrations(views, slots, handles, j);
        assert(registers(views[j], views[j + 1], slots[j], handles[j]));
        let pre = views[j];
        let s = slots[j];
        assert(slots.take(k) =~= slots.take(j).push(s));
        assert forall|i: int| 0 <= i < j implies slots[i] != s by {
            assert(pre.slots[slots[i] as int] == PadState::Waiting(handles[i]));
        }
        assert forall|a: int, b: int|
            0 <= a < k && 0 <= b < k && a != b implies slots.take(k)[a] != slots.take(k)[b] by {
            if a < j && b < j {
                assert(slots.take(j)[a] != slots.take(j)[b]);
            }
        }
    }
}

/// Waiters registered one after another in an empty registry are all woken by the next
/// `notify_all`: each exactly once, in the order they registered, and the list is empty again.
pub proof fn lemma_notify_wakes_all_in_order(
    views: Seq<RuntimeView>,
    slots: Seq<usize>,
    handles: Seq<u64>,
    post: RuntimeView,
    woken: Seq<u64>,
)
    requires
        views.len() == handles.len() + 1,
        slots.len() == handles.len(),
        views[0].waiters.len() == 0,
        forall|i: int|
            0 <= i < handles.len() ==> registers(
                #[trigger] views[i],
                views[i + 1],
                slots[i],
                handles[i],
            ),
        notifies(views.last(), post, woken),
    ensures
        woken == handles,
        slots.no_duplicates(),
        post.waiters.len() == 0,
        forall|i: int| 0 <= i < slots.len() ==> post.slots[#[trigger] slots[i] as int] == PadState::Notified,
{
    let n = handles.len() as int;
    lemma_registrations(views, slots, handles, n);
    assert(slots.take(n) =~= slots);
    assert(woken =~= handles);
}

/// A waiter dropped while pending leaves the list at once, the registry stays consistent, and
/// the next `notify_all` does not wake it: its slot ends vacant, not notified.
pub proof fn lemma_dropped_waiter_never_woken(
    pre: RuntimeView,
    mid: RuntimeView,
    post: RuntimeView,
    slot: usize,
    woken: Seq<u64>,
)
    requires
        pre.consistent(),
        1 <= slot < pre.slots.len(),
        pre.slots[slot as int] is Waiting,
        unlinks(pre, mid, slot),
        notifies(mid, post, woken),
    ensures
        mid.consistent(),
        !mid.waiters.contains(slot),
        post.slots[slot as int] == PadState::Vacant,
        woken.len() + 1 == pre.waiters.len(),
{
    assert(pre.waiters.contains(slot));
    let k = pre.waiters.index_of(slot);
    let w = mid.waiters;
    assert(forall|i: int| 0 <= i < k ==> w[i] == pre.waiters[i]);
    assert(forall|i: int| k <= i < w.len() ==> w[i] == pre.waiters[i + 1]);
    assert(w.no_duplicates()) by {
        assert forall|a: int, b: int| 0 <= a < w.len() && 0 <= b < w.len() && a != b implies w[a] != w[b] by {
            let oa = if a < k { a } else { a + 1 };
            let ob = if b < k { b } else { b + 1 };
            assert(w[a] == pre.waiters[oa] && w[b] == pre.waiters[ob]);
        }
    }
    assert forall|i: int| 0 <= i < w.len() implies 1 <= #[trigger] w[i] < mid.slots.len() by {
        let oi = if i < k { i } else { i + 1 };
        assert(w[i] == pre.waiters[oi]);
    }
    assert forall|t: usize| 1 <= t < mid.slots.len() implies ((#[trigger] mid.slots[t as int] is Waiting)
        <==> w.contains(t)) by {
        if t != slot {
            assert(pre.slots[t as int] is Waiting <==> pre.waiters.contains(t));
            if pre.waiters.contains(t) {
                let j = choose|j: int| 0 <= j < pre.waiters.len() && pre.waiters[j] == t;
                assert(j != k);
                if j < k {
                    assert(w[j] == t);
                } else {
                    assert(w[j - 1] == t);
                }
            }
            if w.contains(t) {
                let j = choose|j: int| 0 <= j < w.len() && w[j] == t;
                let oj = if j < k { j } else { j + 1 };
                assert(pre.waiters[oj] == t);
            }
        } else {
            if w.contains(t) {
                let j = choose|j: int| 0 <= j < w.len() && w[j] == t;
                let oj = if j < k { j } else { j + 1 };
                assert(pre.waiters[oj] == t);
            }
        }
    }
}

/// `notify_all` on a registry with no waiter wakes nobody and leaves the registry as it was.
pub proof fn lemma_notify_empty_is_noop(pre: RuntimeView, post: RuntimeView, woken: Seq<u64>)
    requires
        pre.consistent(),
        pre.initialized,
        pre.waiters.len() == 0,
        notifies(pre, post, woken),
    ensures
        woken.len() == 0,
        post == pre,
{
    assert forall|s: int| 0 <= s < pre.slots.len() implies !(pre.slots[s] is Waiting) by {
        if s >= 1 {
            let u = s as usize;
            assert(pre.slots[u as int] is Waiting <==> pre.waiters.contains(u));
        }
    }
    assert(post.slots =~= pre.slots);
    assert(post.waiters =~= pre.waiters);
}

/// Registering, dropping while pending, registering again and notifying: the second
/// registration reuses the slot that the first gave back, the drop unlinked exactly the
/// first waiter, and the notification wakes the earlier waiters and then the second one.
pub proof fn lemma_cancel_then_register_reuses_slot(
    v0: RuntimeView,
    v1: RuntimeView,
    v2: RuntimeView,
    v3: RuntimeView,
    v4: RuntimeView,
    s1: usize,
    s2: usize,
    h1: u64,
    h2: u64,
    woken: Seq<u64>,
)
    requires
        v0.consistent(),
        v0.initialized,
        registers(v0, v1, s1, h1),
        unlinks(v1, v2, s1),
        registers(v2, v3, s2, h2),
        notifies(v3, v4, woken),
    ensures
        s2 == s1,
        v2.waiters == v0.waiters,
        woken == pending_handles(v0).push(h2),
        v4.waiters.len() == 0,
        v4.slots[s1 as int] == PadState::Notified,
{
    let n = v0.slots.len();
    assert(!v0.waiters.contains(s1)) by {
        if v0.waiters.contains(s1) {
            let j = choose|j: int| 0 <= j < v0.waiters.len() && v0.waiters[j] == s1;
            if s1 < n {
                assert(v0.slots[s1 as int] is Waiting);
            }
        }
    }
    let last = v0.waiters.len() as int;
    assert(v1.waiters[last] == s1);
    let k = v1.waiters.index_of(s1);
    assert(k == last) by {
        if k != last {
            assert(v0.waiters[k] == s1);
        }
    }
    assert(v2.waiters =~= v0.waiters);
    if s1 < n {
        assert(v2.slots =~= v0.slots);
    } else {
        assert(v2.slots =~= v0.slots.push(PadState::Vacant));
        assert(first_vacant(v2.slots, s1));
    }
    lemma_first_vacant_unique(v2.slots, s1, s2);
    assert forall|i: int| 0 <= i < v0.waiters.len() implies v3.slots[#[trigger] v0.waiters[i] as int]
        == v0.slots[v0.waiters[i] as int] by {
        assert(v0.waiters[i] != s1);
    }
    assert(woken =~= pending_handles(v0).push(h2));
}

/// A wait registered and then woken by one `notify_all` finds its slot notified, so its next
/// poll is ready rather than pending; that poll gives the slot back and leaves nothing linked.
pub proof fn lemma_wake_then_complete(
    v0: RuntimeView,
    v1: RuntimeView,
    v2: RuntimeView,
    v3: RuntimeView,
    slot: usize,
    handle: u64,
    woken: Seq<u64>,
)
    requires
        registers(v0, v1, slot, handle),
        notifies(v1, v2, woken),
        releases(v2, v3, slot),
    ensures
        v2.slots[slot as int] == PadState::Notified,
        woken.last() == handle,
        v3.waiters.len() == 0,
        v3.slots[slot as int] == PadState::Vacant,
{
}

} // verus!
