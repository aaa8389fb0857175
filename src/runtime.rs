use vstd::prelude::*;

verus! {

/// Link value held by a pad that is not part of the cycle.
pub const UNLINKED: usize = usize::MAX;

/// Slot of the root pad, the sentinel of the cycle.
pub const ROOT: usize = 0;

/// What a slot of the registry holds.
#[derive(PartialEq, Eq, Structural, Clone, Copy, Debug)]
pub enum PadState {
    /// Owned by no wait; the next registration may take it.
    Vacant,
    /// Linked into the cycle, holding its waiter's resumption handle.
    Waiting(u64),
    /// Handed its wake by `notify_all` and out of the cycle, not yet polled.
    Notified,
}

/// Outcome of polling a wait.
#[derive(PartialEq, Eq, Structural, Clone, Copy, Debug)]
pub enum WaitPoll {
    Ready,
    Pending,
}

/// One node of the index-linked cycle: its neighbours' slots and what it holds.
#[derive(Clone, Copy)]
pub struct NotifyPad {
    prev: usize,
    next: usize,
    state: PadState,
}

impl NotifyPad {
    /// Whether the pad is out of any cycle, with both links unset.
    pub closed spec fn is_detached(self) -> bool {
        self.prev == UNLINKED && self.next == UNLINKED
    }

    /// What the pad holds.
    pub closed spec fn holds(self) -> PadState {
        self.state
    }

    /// A vacant pad with unset links; it joins a cycle only through the registry.
    pub fn dangling() -> (p: NotifyPad)
        ensures
            p.is_detached(),
            p.holds() == PadState::Vacant,
    {
        NotifyPad { prev: UNLINKED, next: UNLINKED, state: PadState::Vacant }
    }
}

/// Abstract state of a registry.
pub struct RuntimeView {
    pub initialized: bool,
    /// The linked waiters' slots, in the order they registered.
    pub waiters: Seq<usize>,
    /// The state of every slot; slot `ROOT` is the sentinel.
    pub slots: Seq<PadState>,
}

impl RuntimeView {
    /// The facts that every well-formed registry shows through its view.
    pub open spec fn consistent(self) -> bool {
        &&& 1 <= self.slots.len() <= usize::MAX
        &&& self.slots[ROOT as int] == PadState::Vacant
        &&& !self.initialized ==> self.waiters.len() == 0 && self.slots.len() == 1
        &&& self.waiters.no_duplicates()
        &&& forall|i: int|
            0 <= i < self.waiters.len() ==> 1 <= #[trigger] self.waiters[i] < self.slots.len()
        &&& forall|s: usize|
            1 <= s < self.slots.len() ==> ((#[trigger] self.slots[s as int] is Waiting)
                <==> self.waiters.contains(s))
    }
}

/// The resumption handle held by a waiting slot.
pub open spec fn handle_of(st: PadState) -> u64 {
    match st {
        PadState::Waiting(h) => h,
        _ => 0,
    }
}

/// The slots after `notify_all`: every waiting slot becomes notified.
pub open spec fn notified_slots(slots: Seq<PadState>) -> Seq<PadState> {
    slots.map_values(|st: PadState| if st is Waiting { PadState::Notified } else { st })
}

/// `slot` is the lowest non-root vacant slot, or the first fresh one when none is vacant.
pub open spec fn first_vacant(slots: Seq<PadState>, slot: usize) -> bool {
    &&& 1 <= slot <= slots.len()
    &&& slot < slots.len() ==> slots[slot as int] == PadState::Vacant
    &&& forall|t: int| 1 <= t < slot && t < slots.len() ==> slots[t] != PadState::Vacant
}

/// `post` is `pre` after a waiter holding `handle` registered in `slot`, linked last.
pub open spec fn registers(pre: RuntimeView, post: RuntimeView, slot: usize, handle: u64) -> bool {
    &&& post.initialized
    &&& first_vacant(pre.slots, slot)
    &&& post.waiters == pre.waiters.push(slot)
    &&& post.slots == (if slot < pre.slots.len() {
        pre.slots.update(slot as int, PadState::Waiting(handle))
    } else {
        pre.slots.push(PadState::Waiting(handle))
    })
}

/// `post` is `pre` after the waiting slot `slot` took the new handle `handle`.
pub open spec fn rearms(pre: RuntimeView, post: RuntimeView, slot: usize, handle: u64) -> bool {
    &&& post.initialized == pre.initialized
    &&& post.waiters == pre.waiters
    &&& post.slots == pre.slots.update(slot as int, PadState::Waiting(handle))
}

/// `post` is `pre` after the notified slot `slot` was given back.
pub open spec fn releases(pre: RuntimeView, post: RuntimeView, slot: usize) -> bool {
    &&& post.initialized == pre.initialized
    &&& post.waiters == pre.waiters
    &&& post.slots == pre.slots.update(slot as int, PadState::Vacant)
}

/// `post` is `pre` after the waiting slot `slot` was unlinked and given back.
pub open spec fn unlinks(pre: RuntimeView, post: RuntimeView, slot: usize) -> bool {
    &&& post.initialized == pre.initialized
    &&& post.waiters == pre.waiters.remove(pre.waiters.index_of(slot))
    &&& post.slots == pre.slots.update(slot as int, PadState::Vacant)
}

/// The resumption handles of the linked waiters, in list order.
pub open spec fn pending_handles(v: RuntimeView) -> Seq<u64> {
    v.waiters.map_values(|s: usize| handle_of(v.slots[s as int]))
}

/// `post` is `pre` after `notify_all` handed out `woken`.
pub open spec fn notifies(pre: RuntimeView, post: RuntimeView, woken: Seq<u64>) -> bool {
    &&& post.initialized
    &&& post.waiters == Seq::<usize>::empty()
    &&& post.slots == notified_slots(pre.slots)
    &&& woken == pending_handles(pre)
}

/// The wait registry: a cycle of pads addressed by slot index, rooted at `ROOT`.
pub struct Runtime {
    pads: Vec<NotifyPad>,
    initialized: bool,
    order: Ghost<Seq<usize>>,
}

spec fn next_in(order: Seq<usize>, i: int) -> usize {
    if i + 1 < order.len() {
        order[i + 1]
    } else {
        ROOT
    }
}

spec fn prev_in(order: Seq<usize>, i: int) -> usize {
    if i == 0 {
        ROOT
    } else {
        order[i - 1]
    }
}

spec fn head_of(order: Seq<usize>) -> usize {
    if order.len() == 0 {
        ROOT
    } else {
        order[0]
    }
}

spec fn tail_of(order: Seq<usize>) -> usize {
    if order.len() == 0 {
        ROOT
    } else {
        order.last()
    }
}

impl View for Runtime {
    type V = RuntimeView;

    closed spec fn view(&self) -> RuntimeView {
        RuntimeView {
            initialized: self.initialized,
            waiters: self.order@,
            slots: self.pads@.map_values(|p: NotifyPad| p.state),
        }
    }
}

impl Runtime {
    /// Well-formedness: the pads form one cycle through the root, in the order of `order`.
    pub closed spec fn wf(&self) -> bool {
        let pads = self.pads@;
        let order = self.order@;
        &&& pads.len() >= 1
        &&& pads[ROOT as int].state == PadState::Vacant
        &&& !self.initialized ==> order.len() == 0 && pads.len() == 1
            && pads[ROOT as int].is_detached()
        &&& self.initialized ==> pads[ROOT as int].next == head_of(order) && pads[ROOT as int].prev
            == tail_of(order)
        &&& order.no_duplicates()
        &&& forall|i: int|
            0 <= i < order.len() ==> 1 <= #[trigger] order[i] < pads.len() && pads[order[i] as int].state is Waiting
                && pads[order[i] as int].next == next_in(order, i) && pads[order[i] as int].prev
                == prev_in(order, i)
        &&& forall|s: usize|
            1 <= s < pads.len() && (#[trigger] pads[s as int].state is Waiting) ==> order.contains(s)
        &&& forall|s: usize|
            1 <= s < pads.len() && !(#[trigger] pads[s as int].state is Waiting) ==> pads[s as int].is_detached()
    }

    /// Every well-formed registry has a consistent view.
    pub proof fn lemma_view_consistent(&self)
        requires
            self.wf(),
        ensures
            self@.consistent(),
    {
        let v = self@;
        assert(v.slots.len() == self.pads.len());
        assert forall|s: usize| 1 <= s < v.slots.len() implies ((#[trigger] v.slots[s as int] is Waiting)
            <==> v.waiters.contains(s)) by {
            if v.waiters.contains(s) {
                let i = choose|i: int| 0 <= i < v.waiters.len() && v.waiters[i] == s;
                assert(self.pads@[self.order@[i] as int].state is Waiting);
            }
            if v.slots[s as int] is Waiting {
                assert(self.pads@[s as int].state is Waiting);
            }
        }
    }

    /// A registry that is not yet initialized: only its root exists, unlinked.
    pub fn dangling() -> (r: Runtime)
        ensures
            r.wf(),
            !r@.initialized,
            r@.waiters == Seq::<usize>::empty(),
            r@.slots == seq![PadState::Vacant],
    {
        let mut pads: Vec<NotifyPad> = Vec::new();
        pads.push(NotifyPad::dangling());
        let r = Runtime { pads, initialized: false, order: Ghost(Seq::empty()) };
        assert(r@.slots =~= seq![PadState::Vacant]);
        r
    }

    /// Makes the root a cycle of its own, after which waits may register.
    pub fn init(&mut self)
        requires
            old(self).wf(),
            !old(self)@.initialized,
        ensures
            final(self).wf(),
            final(self)@.initialized,
            final(self)@.waiters == Seq::<usize>::empty(),
            final(self)@.slots == old(self)@.slots,
    {
        self.pads.set(ROOT, NotifyPad { prev: ROOT, next: ROOT, state: PadState::Vacant });
        self.initialized = true;
        assert(self@.slots =~= old(self)@.slots);
    }

    /// Links the pad of slot `s` just before the root, so that it becomes the last waiter.
    fn push_before_root(&mut self, s: usize, handle: u64)
        requires
            old(self).wf(),
            old(self)@.initialized,
            1 <= s < old(self)@.slots.len(),
            !(old(self)@.slots[s as int] is Waiting),
        ensures
            final(self).wf(),
            final(self)@.initialized,
            final(self)@.waiters == old(self)@.waiters.push(s),
            final(self)@.slots == old(self)@.slots.update(s as int, PadState::Waiting(handle)),
    {
        let ghost old_pads = self.pads@;
        let ghost order = self.order@;
        assert(old_pads[s as int].state == old(self)@.slots[s as int]);
        assert(!order.contains(s)) by {
            if order.contains(s) {
                let i = choose|i: int| 0 <= i < order.len() && order[i] == s;
                assert(old_pads[order[i] as int].state is Waiting);
            }
        }
        let before = self.pads[ROOT].prev;
        self.pads.set(s, NotifyPad { prev: before, next: ROOT, state: PadState::Waiting(handle) });
        let r = self.pads[ROOT];
        self.pads.set(ROOT, NotifyPad { prev: s, next: r.next, state: r.state });
        let b = self.pads[before];
        self.pads.set(before, NotifyPad { prev: b.prev, next: s, state: b.state });
        self.order = Ghost(order.push(s));
        proof {
            let pads = self.pads@;
            let norder = self.order@;
            assert(norder.no_duplicates()) by {
                assert forall|i: int, j: int|
                    0 <= i < norder.len() && 0 <= j < norder.len() && i != j implies norder[i]
                    != norder[j] by {
                    if i < order.len() && j < order.len() {
                        assert(order[i] != order[j]);
                    } else if i < order.len() {
                        assert(order[i] != s);
                    } else {
                        assert(order[j] != s);
                    }
                }
            }
            assert forall|i: int| 0 <= i < norder.len() implies 1 <= #[trigger] norder[i] < pads.len()
                && pads[norder[i] as int].state is Waiting && pads[norder[i] as int].next == next_in(
                norder,
                i,
            ) && pads[norder[i] as int].prev == prev_in(norder, i) by {
                if i < order.len() {
                    assert(norder[i] == order[i]);
                    assert(order[i] != s);
                    if i + 1 < order.len() {
                        assert(order[i] != before) by {
                            assert(before == order.last());
                            assert(order[i] != order[order.len() - 1]);
                        }
                    }
                }
            }
            assert forall|t: usize|
                1 <= t < pads.len() && (#[trigger] pads[t as int].state is Waiting) implies norder.contains(t) by {
                if t == s {
                    assert(norder[order.len() as int] == s);
                } else {
                    assert(old_pads[t as int].state is Waiting);
                    let i = choose|i: int| 0 <= i < order.len() && order[i] == t;
                    assert(norder[i] == t);
                }
            }
            assert forall|t: usize|
                1 <= t < pads.len() && !(#[trigger] pads[t as int].state is Waiting) implies pads[t as int].is_detached() by {
                assert(old_pads[t as int].state == pads[t as int].state);
                if t == before {
                    assert(order.contains(before));
                    let i = choose|i: int| 0 <= i < order.len() && order[i] == before;
                    assert(old_pads[order[i] as int].state is Waiting);
                }
            }
            assert(self@.slots =~= old(self)@.slots.update(s as int, PadState::Waiting(handle)));
        }
    }


    /// Registers a new waiter holding `handle`, in the lowest vacant slot or a fresh one,
    /// and links it last. Returns its slot.
    fn register(&mut self, handle: u64) -> (slot: usize)
        requires
            old(self).wf(),
            old(self)@.initialized,
        ensures
            final(self).wf(),
            final(self)@.initialized,
            first_vacant(old(self)@.slots, slot),
            final(self)@.waiters == old(self)@.waiters.push(slot),
            final(self)@.slots == (if slot < old(self)@.slots.len() {
                old(self)@.slots.update(slot as int, PadState::Waiting(handle))
            } else {
                old(self)@.slots.push(PadState::Waiting(handle))
            }),
    {
        let len = self.pads.len();
        let mut i: usize = 1;
        while i < len
            invariant
                self.wf(),
                self@ == old(self)@,
                len == self.pads.len(),
                1 <= i <= len,
                forall|t: int| 1 <= t < i ==> old(self)@.slots[t] != PadState::Vacant,
            decreases len - i,
        {
            if self.pads[i].state == PadState::Vacant {
                self.push_before_root(i, handle);
                return i;
            }
            i = i + 1;
        }
        let ghost pre_pads = self.pads@;
        self.pads.push(NotifyPad::dangling());
        proof {
            assert(self.pads@.len() == len + 1);
            assert(self.wf()) by {
                let pads = self.pads@;
                assert forall|t: usize|
                    1 <= t < pads.len() && !(#[trigger] pads[t as int].state is Waiting) implies pads[t as int].is_detached() by {
                    if t < len {
                        assert(pads[t as int] == pre_pads[t as int]);
                    }
                }
            }
            assert(self@.slots =~= old(self)@.slots.push(PadState::Vacant));
        }
        self.push_before_root(len, handle);
        proof {
            assert(self@.slots =~= old(self)@.slots.push(PadState::Waiting(handle)));
        }
        len
    }


    /// Unlinks the waiting pad of slot `s` from the cycle and frees the slot.
    #[verifier::rlimit(40)]
    fn unregister(&mut self, s: usize)
        requires
            old(self).wf(),
            old(self)@.initialized,
            1 <= s < old(self)@.slots.len(),
            old(self)@.slots[s as int] is Waiting,
        ensures
            final(self).wf(),
            final(self)@.initialized,
            final(self)@.waiters == old(self)@.waiters.remove(old(self)@.waiters.index_of(s)),
            final(self)@.slots == old(self)@.slots.update(s as int, PadState::Vacant),
    {
        let ghost old_pads = self.pads@;
        let ghost order = self.order@;
        assert(old_pads[s as int].state is Waiting);
        let ghost k = order.index_of(s);
        assert(0 <= k < order.len() && order[k] == s);
        let p = self.pads[s];
        let prev = p.prev;
        let next = p.next;
        assert(prev == prev_in(order, k) && next == next_in(order, k));
        let a = self.pads[prev];
        self.pads.set(prev, NotifyPad { prev: a.prev, next: next, state: a.state });
        let b = self.pads[next];
        self.pads.set(next, NotifyPad { prev: prev, next: b.next, state: b.state });
        self.pads.set(s, NotifyPad { prev: UNLINKED, next: UNLINKED, state: PadState::Vacant });
        self.order = Ghost(order.remove(k));
        proof {
            let pads = self.pads@;
            let n = self.order@;
            assert(forall|i: int| 0 <= i < k ==> n[i] == order[i]);
            assert(forall|i: int| k <= i < n.len() ==> n[i] == order[i + 1]);
            assert(n.no_duplicates()) by {
                assert forall|i: int, j: int|
                    0 <= i < n.len() && 0 <= j < n.len() && i != j implies n[i] != n[j] by {
                    let oi = if i < k { i } else { i + 1 };
                    let oj = if j < k { j } else { j + 1 };
                    assert(n[i] == order[oi] && n[j] == order[oj]);
                }
            }
            assert forall|i: int| 0 <= i < n.len() implies 1 <= #[trigger] n[i] < pads.len()
                && pads[n[i] as int].state is Waiting && pads[n[i] as int].next == next_in(n, i)
                && pads[n[i] as int].prev == prev_in(n, i) by {
                let oi = if i < k { i } else { i + 1 };
                assert(n[i] == order[oi]);
                assert(order[oi] != s);
                assert(old_pads[order[oi] as int].next == next_in(order, oi));
                assert(old_pads[order[oi] as int].prev == prev_in(order, oi));
                if oi + 1 < order.len() {
                    assert(order[oi] != order[oi + 1]);
                }
                if oi >= 1 {
                    assert(order[oi] != order[oi - 1]);
                }
                if i + 1 < k {
                    assert(order[oi] != prev);
                    assert(order[oi] != next);
                } else if i + 1 == k {
                    assert(order[oi] == prev);
                    assert(order[oi] != next);
                } else if i == k {
                    assert(order[oi] == next);
                    assert(order[oi] != prev);
                } else {
                    assert(order[oi] != prev);
                    assert(order[oi] != next);
                }
            }
            assert forall|t: usize|
                1 <= t < pads.len() && (#[trigger] pads[t as int].state is Waiting) implies n.contains(t) by {
                assert(old_pads[t as int].state is Waiting);
                let j = choose|j: int| 0 <= j < order.len() && order[j] == t;
                if j < k {
                    assert(n[j] == t);
                } else {
                    assert(j != k);
                    assert(n[j - 1] == t);
                }
            }
            assert forall|t: usize|
                1 <= t < pads.len() && !(#[trigger] pads[t as int].state is Waiting) implies pads[t as int].is_detached() by {
                if t != s {
                    assert(old_pads[t as int].state == pads[t as int].state);
                    if t == prev || t == next {
                        assert(order.contains(t));
                        let j = choose|j: int| 0 <= j < order.len() && order[j] == t;
                        assert(old_pads[order[j] as int].state is Waiting);
                    }
                }
            }
            assert(self@.slots =~= old(self)@.slots.update(s as int, PadState::Vacant));
        }
    }


    /// Wakes every linked waiter in registration order and empties the cycle.
    /// Returns the woken waiters' resumption handles, in that order.
    pub fn notify_all(&mut self) -> (woken: Vec<u64>)
        requires
            old(self).wf(),
            old(self)@.initialized,
        ensures
            final(self).wf(),
            notifies(old(self)@, final(self)@, woken@),
    {
        let ghost old_pads = self.pads@;
        let ghost order = self.order@;
        let ghost gone = NotifyPad { prev: UNLINKED, next: UNLINKED, state: PadState::Notified };
        let mut woken: Vec<u64> = Vec::new();
        let mut cur = self.pads[ROOT].next;
        let ghost mut i: int = 0;
        while cur != ROOT
            invariant
                old(self).wf(),
                old_pads == old(self).pads@,
                order == old(self).order@,
                gone == (NotifyPad { prev: UNLINKED, next: UNLINKED, state: PadState::Notified }),
                self.order@ == order,
                self.initialized,
                0 <= i <= order.len(),
                cur == (if i < order.len() {
                    order[i]
                } else {
                    ROOT
                }),
                self.pads@.len() == old_pads.len(),
                forall|j: int| i <= j < order.len() ==> self.pads@[#[trigger] order[j] as int] == old_pads[order[j] as int],
                forall|j: int| 0 <= j < i ==> self.pads@[#[trigger] order[j] as int] == gone,
                forall|t: int|
                    0 <= t < old_pads.len() && !(#[trigger] old_pads[t].state is Waiting) ==> self.pads@[t] == old_pads[t],
                woken@ == order.take(i).map_values(|s: usize| handle_of(old_pads[s as int].state)),
            decreases order.len() - i,
        {
            let p = self.pads[cur];
            match p.state {
                PadState::Waiting(h) => woken.push(h),
                _ => {},
            }
            self.pads.set(cur, NotifyPad { prev: UNLINKED, next: UNLINKED, state: PadState::Notified });
            cur = p.next;
            proof {
                assert(i < order.len());
                assert(self.pads@[order[i] as int] == gone);
                assert forall|j: int| i + 1 <= j < order.len() implies self.pads@[#[trigger] order[j] as int] == old_pads[order[j] as int] by {
                    assert(order[j] != order[i]);
                }
                assert forall|j: int| 0 <= j < i + 1 implies self.pads@[#[trigger] order[j] as int] == gone by {
                    if j < i {
                        assert(order[j] != order[i]);
                    }
                }
                assert(order.take(i + 1) =~= order.take(i).push(order[i]));
                assert(woken@ =~= order.take(i + 1).map_values(|s: usize| handle_of(old_pads[s as int].state)));
                i = i + 1;
            }
        }
        self.pads.set(ROOT, NotifyPad { prev: ROOT, next: ROOT, state: PadState::Vacant });
        self.order = Ghost(Seq::empty());
        proof {
            let pads = self.pads@;
            assert(order.take(i) =~= order);
            assert forall|t: usize| 0 <= t < pads.len() implies #[trigger] pads[t as int].state == (if old_pads[t as int].state is Waiting { PadState::Notified } else { old_pads[t as int].state }) by {
                if t != ROOT && old_pads[t as int].state is Waiting {
                    assert(order.contains(t));
                    let j = choose|j: int| 0 <= j < order.len() && order[j] == t;
                    assert(pads[order[j] as int] == gone);
                }
            }
            assert forall|t: usize|
                1 <= t < pads.len() && !(#[trigger] pads[t as int].state is Waiting) implies pads[t as int].is_detached() by {
                if old_pads[t as int].state is Waiting {
                    assert(order.contains(t));
                    let j = choose|j: int| 0 <= j < order.len() && order[j] == t;
                    assert(pads[order[j] as int] == gone);
                }
            }
            assert(pads.len() == self.pads.len());
            assert forall|t: int| 0 <= t < pads.len() implies #[trigger] self@.slots[t] == notified_slots(old(self)@.slots)[t] by {
                assert(pads[(t as usize) as int].state == (if old_pads[(t as usize) as int].state is Waiting { PadState::Notified } else { old_pads[(t as usize) as int].state }));
            }
            assert(self@.slots =~= notified_slots(old(self)@.slots));
            assert(old(self)@.slots =~= old_pads.map_values(|p: NotifyPad| p.state));
            assert(woken@ =~= old(self)@.waiters.map_values(|s: usize| handle_of(old(self)@.slots[s as int])));
        }
        woken
    }


    /// The slot after `s` in the cycle.
    fn get_next(&self, s: usize) -> (r: usize)
        requires
            self.wf(),
            self@.initialized,
            s == ROOT || self@.waiters.contains(s),
        ensures
            s == ROOT ==> r == head_of(self.order@),
            forall|i: int| 0 <= i < self.order@.len() && self.order@[i] == s ==> r == next_in(self.order@, i),
    {
        self.pads[s].next
    }

    /// The linked waiters' slots, walking the cycle from the root.
    pub fn waiting_slots(&self) -> (r: Vec<usize>)
        requires
            self.wf(),
            self@.initialized,
        ensures
            r@ == self@.waiters,
    {
        let ghost order = self.order@;
        let mut r: Vec<usize> = Vec::new();
        let mut cur = self.get_next(ROOT);
        while cur != ROOT
            invariant
                self.wf(),
                self@.initialized,
                order == self.order@,
                r@.len() <= order.len(),
                r@ == order.take(r@.len() as int),
                cur == (if r@.len() < order.len() {
                    order[r@.len() as int]
                } else {
                    ROOT
                }),
            decreases order.len() - r@.len(),
        {
            proof {
                assert(order[r@.len() as int] == cur);
            }
            let next = self.get_next(cur);
            r.push(cur);
            proof {
                assert(order.take(r@.len() as int) =~= order.take(r@.len() - 1).push(cur));
            }
            cur = next;
        }
        proof {
            assert(order.take(r@.len() as int) =~= order);
        }
        r
    }

    /// Whether the registry has been initialized.
    pub fn is_initialized(&self) -> (r: bool)
        ensures
            r == self@.initialized,
    {
        self.initialized
    }

    /// The number of slots, the root included.
    pub fn slot_count(&self) -> (r: usize)
        ensures
            r == self@.slots.len(),
    {
        self.pads.len()
    }

    /// What slot `s` holds.
    pub fn slot_state(&self, s: usize) -> (r: PadState)
        requires
            s < self@.slots.len(),
        ensures
            r == self@.slots[s as int],
    {
        self.pads[s].state
    }

    /// Whether slot `s` holds no resumption handle, its wake having been handed out.
    fn is_notified(&self, s: usize) -> (r: bool)
        requires
            self.wf(),
            1 <= s < self@.slots.len(),
        ensures
            r == !(self@.slots[s as int] is Waiting),
    {
        match self.pads[s].state {
            PadState::Waiting(_) => false,
            _ => true,
        }
    }

    /// Whether no waiter is linked: the root is a cycle of its own.
    pub fn root_is_cycle_empty(&self) -> (r: bool)
        requires
            self.wf(),
            self@.initialized,
        ensures
            r == (self@.waiters.len() == 0),
    {
        let root = self.pads[ROOT];
        proof {
            if self.order@.len() > 0 {
                assert(1 <= self.order@[self.order@.len() - 1]);
            }
        }
        root.prev == ROOT
    }

    /// Polls the registered pad of slot `s`: a waiting pad takes the new handle and stays
    /// pending; a notified pad frees its slot and is ready.
    fn poll_pad(&mut self, s: usize, handle: u64) -> (r: WaitPoll)
        requires
            old(self).wf(),
            old(self)@.initialized,
            1 <= s < old(self)@.slots.len(),
            old(self)@.slots[s as int] != PadState::Vacant,
        ensures
            final(self).wf(),
            final(self)@.initialized,
            final(self)@.waiters == old(self)@.waiters,
            old(self)@.slots[s as int] is Waiting ==> r == WaitPoll::Pending && final(self)@.slots
                == old(self)@.slots.update(s as int, PadState::Waiting(handle)),
            !(old(self)@.slots[s as int] is Waiting) ==> r == WaitPoll::Ready && final(self)@.slots
                == old(self)@.slots.update(s as int, PadState::Vacant),
    {
        let p = self.pads[s];
        let ghost order = self.order@;
        let ghost old_pads = self.pads@;
        assert(old_pads[s as int].state == old(self)@.slots[s as int]);
        match p.state {
            PadState::Waiting(_) => {
                self.pads.set(s, NotifyPad { prev: p.prev, next: p.next, state: PadState::Waiting(handle) });
                proof {
                    let pads = self.pads@;
                    assert forall|i: int| 0 <= i < order.len() implies 1 <= #[trigger] order[i] < pads.len()
                        && pads[order[i] as int].state is Waiting && pads[order[i] as int].next == next_in(order, i)
                        && pads[order[i] as int].prev == prev_in(order, i) by {
                        assert(old_pads[order[i] as int].state is Waiting);
                    }
                    assert forall|t: usize|
                        1 <= t < pads.len() && (#[trigger] pads[t as int].state is Waiting) implies order.contains(t) by {
                        assert(old_pads[t as int].state is Waiting);
                    }
                    assert forall|t: usize|
                        1 <= t < pads.len() && !(#[trigger] pads[t as int].state is Waiting) implies pads[t as int].is_detached() by {
                        assert(old_pads[t as int] == pads[t as int]);
                    }
                    assert(self@.slots =~= old(self)@.slots.update(s as int, PadState::Waiting(handle)));
                }
                WaitPoll::Pending
            },
            _ => {
                self.pads.set(s, NotifyPad { prev: UNLINKED, next: UNLINKED, state: PadState::Vacant });
                proof {
                    let pads = self.pads@;
                    assert forall|i: int| 0 <= i < order.len() implies 1 <= #[trigger] order[i] < pads.len()
                        && pads[order[i] as int].state is Waiting && pads[order[i] as int].next == next_in(order, i)
                        && pads[order[i] as int].prev == prev_in(order, i) by {
                        assert(old_pads[order[i] as int].state is Waiting);
                        assert(order[i] != s);
                    }
                    assert forall|t: usize|
                        1 <= t < pads.len() && (#[trigger] pads[t as int].state is Waiting) implies order.contains(t) by {
                        assert(old_pads[t as int].state is Waiting);
                    }
                    assert forall|t: usize|
                        1 <= t < pads.len() && !(#[trigger] pads[t as int].state is Waiting) implies pads[t as int].is_detached() by {
                        if t != s {
                            assert(old_pads[t as int] == pads[t as int]);
                        }
                    }
                    assert(self@.slots =~= old(self)@.slots.update(s as int, PadState::Vacant));
                }
                WaitPoll::Ready
            },
        }
    }
}

/// Where a wait stands.
#[derive(PartialEq, Eq, Structural, Clone, Copy, Debug)]
pub enum WaitState {
    /// Not yet polled: it owns no slot.
    Unresumed,
    /// Polled once: it owns the given slot of the registry.
    Registered(usize),
    /// It has reported ready and given its slot back.
    Completed,
}

impl WaitState {
    /// The slot owned by a registered wait.
    pub open spec fn slot(self) -> usize {
        match self {
            WaitState::Registered(s) => s,
            _ => 0,
        }
    }
}

/// A suspension point: pending until the registry next calls `notify_all`.
pub struct WaitNotification {
    state: WaitState,
}

impl View for WaitNotification {
    type V = WaitState;

    closed spec fn view(&self) -> WaitState {
        self.state
    }
}

impl WaitNotification {
    /// The wait agrees with the registry: a registered wait owns a slot that is in use.
    pub open spec fn live_in(&self, rt: RuntimeView) -> bool {
        self@ is Registered ==> 1 <= self@.slot() < rt.slots.len() && rt.slots[self@.slot() as int]
            != PadState::Vacant
    }

    /// A fresh wait, not yet registered.
    pub fn new() -> (w: WaitNotification)
        ensures
            w@ == WaitState::Unresumed,
    {
        WaitNotification { state: WaitState::Unresumed }
    }

    /// Where the wait stands.
    pub fn state(&self) -> (r: WaitState)
        ensures
            r == self@,
    {
        self.state
    }

    /// Advances the wait with the caller's resumption handle.
    ///
    /// The first poll registers the wait as the last waiter and is pending. A later poll
    /// before the next `notify_all` stores the new handle and is pending; one after it
    /// gives the slot back and is ready.
    pub fn poll(&mut self, rt: &mut Runtime, handle: u64) -> (r: WaitPoll)
        requires
            old(rt).wf(),
            old(rt)@.initialized,
            old(self).live_in(old(rt)@),
            !(old(self)@ is Completed),
        ensures
            final(rt).wf(),
            final(rt)@.initialized,
            final(self).live_in(final(rt)@),
            old(self)@ is Unresumed ==> r == WaitPoll::Pending && final(self)@ is Registered
                && registers(old(rt)@, final(rt)@, final(self)@.slot(), handle),
            old(self)@ is Registered && old(rt)@.slots[old(self)@.slot() as int] is Waiting ==> r
                == WaitPoll::Pending && final(self)@ == old(self)@ && rearms(
                old(rt)@,
                final(rt)@,
                old(self)@.slot(),
                handle,
            ),
            old(self)@ is Registered && !(old(rt)@.slots[old(self)@.slot() as int] is Waiting) ==> r
                == WaitPoll::Ready && final(self)@ == WaitState::Completed && releases(
                old(rt)@,
                final(rt)@,
                old(self)@.slot(),
            ),
    {
        match self.state {
            WaitState::Registered(s) => {
                let r = rt.poll_pad(s, handle);
                if r == WaitPoll::Ready {
                    self.state = WaitState::Completed;
                }
                r
            },
            _ => {
                let s = rt.register(handle);
                self.state = WaitState::Registered(s);
                WaitPoll::Pending
            },
        }
    }

    /// Destroys the wait. A wait still linked is unlinked first; a notified one only gives
    /// its slot back; an unregistered or completed one leaves the registry as it is.
    pub fn drop(self, rt: &mut Runtime)
        requires
            old(rt).wf(),
            self.live_in(old(rt)@),
        ensures
            final(rt).wf(),
            final(rt)@.initialized == old(rt)@.initialized,
            !(self@ is Registered) ==> final(rt)@ == old(rt)@,
            self@ is Registered && old(rt)@.slots[self@.slot() as int] is Waiting ==> unlinks(
                old(rt)@,
                final(rt)@,
                self@.slot(),
            ),
            self@ is Registered && !(old(rt)@.slots[self@.slot() as int] is Waiting) ==> releases(
                old(rt)@,
                final(rt)@,
                self@.slot(),
            ),
    {
        match self.state {
            WaitState::Registered(s) => {
                proof {
                    rt.lemma_view_consistent();
                }
                if rt.is_notified(s) {
                    let _ = rt.poll_pad(s, 0);
                } else {
                    rt.unregister(s);
                }
            },
            _ => {},
        }
    }
}


} // verus!
