use vstd::prelude::*;

use crate::path::{copy_segments, segs_view};

verus! {

/// What a mutating command did to a path.
#[derive(Clone, Copy, Debug, PartialEq, Eq, Structural)]
pub enum ChangeKind {
    Created,
    Modified,
    Removed,
}

/// A change to the tree, published once per successful mutating command.
pub struct ChangeEvent {
    /// The changed path, as segments below the server root.
    pub path: Vec<Vec<u8>>,
    pub kind: ChangeKind,
}

/// A session waiting for a change: the whole tree (`None`) or a path and what lies below it.
pub struct Waiter {
    pub id: u64,
    pub scope: Option<Vec<Vec<u8>>>,
}

pub type WaiterView = (u64, Option<Seq<Seq<u8>>>);

pub open spec fn scope_view(s: Option<Vec<Vec<u8>>>) -> Option<Seq<Seq<u8>>> {
    match s {
        Some(v) => Some(segs_view(v@)),
        None => None,
    }
}

pub open spec fn waiter_view(w: Waiter) -> WaiterView {
    (w.id, scope_view(w.scope))
}

/// A waiter's scope covers `path`: the whole tree, the path itself, or one of its ancestors.
pub open spec fn covers(scope: Option<Seq<Seq<u8>>>, path: Seq<Seq<u8>>) -> bool {
    match scope {
        None => true,
        Some(s) => s.len() <= path.len() && path.subrange(0, s.len() as int) == s,
    }
}

/// The ids of the waiters that a change to `path` wakes, in registration order.
pub open spec fn notified(ws: Seq<WaiterView>, path: Seq<Seq<u8>>) -> Seq<u64>
    decreases ws.len(),
{
    if ws.len() == 0 {
        Seq::empty()
    } else if covers(ws.last().1, path) {
        notified(ws.drop_last(), path).push(ws.last().0)
    } else {
        notified(ws.drop_last(), path)
    }
}

/// The waiters that a change to `path` leaves waiting.
pub open spec fn remaining(ws: Seq<WaiterView>, path: Seq<Seq<u8>>) -> Seq<WaiterView>
    decreases ws.len(),
{
    if ws.len() == 0 {
        Seq::empty()
    } else if covers(ws.last().1, path) {
        remaining(ws.drop_last(), path)
    } else {
        remaining(ws.drop_last(), path).push(ws.last())
    }
}

/// The waiters without the one registered as `id`.
pub open spec fn without(ws: Seq<WaiterView>, id: u64) -> Seq<WaiterView>
    decreases ws.len(),
{
    if ws.len() == 0 {
        Seq::empty()
    } else if ws.last().0 == id {
        without(ws.drop_last(), id)
    } else {
        without(ws.drop_last(), id).push(ws.last())
    }
}

pub open spec fn has_id(ws: Seq<WaiterView>, id: u64) -> bool {
    exists|k: int| 0 <= k < ws.len() && (#[trigger] ws[k]).0 == id
}

/// The registry of sessions waiting for a change to the tree.
pub struct ChangeBus {
    waiters: Vec<Waiter>,
    next_id: u64,
}

impl ChangeBus {
    /// The waiters in registration order.
    pub closed spec fn view(&self) -> Seq<WaiterView> {
        self.waiters@.map_values(|w: Waiter| waiter_view(w))
    }

    /// The id that the next subscription gets.
    pub closed spec fn next_id(&self) -> u64 {
        self.next_id
    }

    /// Every waiter's id was handed out before `next_id`.
    pub closed spec fn wf(&self) -> bool {
        forall|k: int| 0 <= k < self.waiters@.len() ==> (#[trigger] self.waiters@[k]).id < self.next_id
    }

    /// A bus with no waiters.
    pub fn new() -> (r: ChangeBus)
        ensures
            r.wf(),
            r@ == Seq::<WaiterView>::empty(),
    {
        let r = ChangeBus { waiters: Vec::new(), next_id: 0 };
        assert(r@ =~= Seq::<WaiterView>::empty());
        r
    }

    /// Registers a waiter for `scope` and returns its id: one that no waiter holds. `None` once
    /// every id has been handed out.
    pub fn subscribe(&mut self, scope: Option<Vec<Vec<u8>>>) -> (r: Option<u64>)
        requires
            old(self).wf(),
        ensures
            final(self).wf(),
            r is None <==> old(self).next_id() == u64::MAX,
            r is None ==> final(self)@ == old(self)@,
            r matches Some(id) ==> {
                &&& id == old(self).next_id()
                &&& !has_id(old(self)@, id)
                &&& final(self)@ == old(self)@.push((id, scope_view(scope)))
            },
    {
        if self.next_id == u64::MAX {
            return None;
        }
        let id = self.next_id;
        let ghost before = self@;
        proof {
            if has_id(before, id) {
                let k = choose|k: int| 0 <= k < before.len() && (#[trigger] before[k]).0 == id;
                assert(self.waiters@[k].id < self.next_id);
            }
        }
        self.waiters.push(Waiter { id, scope });
        self.next_id = id + 1;
        assert(self@ =~= before.push((id, scope_view(scope))));
        Some(id)
    }

    /// Wakes every waiter whose scope covers the changed path and removes it: each waiter is
    /// woken at most once. Returns the ids woken, in registration order.
    pub fn publish(&mut self, event: &ChangeEvent) -> (r: Vec<u64>)
        requires
            old(self).wf(),
        ensures
            final(self).wf(),
            final(self).next_id() == old(self).next_id(),
            r@ == notified(old(self)@, segs_view(event.path@)),
            final(self)@ == remaining(old(self)@, segs_view(event.path@)),
    {
        let ghost orig = self@;
        let ghost p = segs_view(event.path@);
        let ghost mut i: int = 0;
        let mut j: usize = 0;
        let mut ids: Vec<u64> = Vec::new();
        assert(orig.subrange(0, 0) =~= Seq::<WaiterView>::empty());
        assert(self@ =~= remaining(orig.subrange(0, 0), p) + orig.subrange(0, orig.len() as int));
        while j < self.waiters.len()
            invariant
                self.wf(),
                self.next_id == old(self).next_id,
                orig == old(self)@,
                p == segs_view(event.path@),
                0 <= i <= orig.len(),
                j == remaining(orig.subrange(0, i), p).len(),
                self@ == remaining(orig.subrange(0, i), p) + orig.subrange(i, orig.len() as int),
                ids@ == notified(orig.subrange(0, i), p),
            decreases self.waiters.len() - j,
        {
            let ghost done = orig.subrange(0, i);
            let ghost next = orig.subrange(0, i + 1);
            assert(self@[j as int] == orig[i]);
            assert(next.drop_last() =~= done);
            assert(next.last() == orig[i]);
            let hit = scope_covers(&self.waiters[j].scope, &event.path);
            let ghost before = self@;
            if hit {
                ids.push(self.waiters[j].id);
                let ghost wbefore = self.waiters@;
                self.waiters.remove(j);
                proof {
                    lemma_view_remove(wbefore, j as int);
                }
                assert(self@ =~= remaining(next, p) + orig.subrange(i + 1, orig.len() as int));
            } else {
                j += 1;
                assert(self@ =~= remaining(next, p) + orig.subrange(i + 1, orig.len() as int));
            }
            proof {
                i = i + 1;
            }
        }
        assert(orig.subrange(0, i) =~= orig);
        assert(self@ =~= remaining(orig, p));
        ids
    }

    /// Removes the waiter registered as `id` without waking it, as when its session closes.
    /// Returns whether it was waiting.
    pub fn cancel(&mut self, id: u64) -> (r: bool)
        requires
            old(self).wf(),
        ensures
            final(self).wf(),
            final(self).next_id() == old(self).next_id(),
            r == has_id(old(self)@, id),
            final(self)@ == without(old(self)@, id),
    {
        let ghost orig = self@;
        let ghost mut i: int = 0;
        let mut j: usize = 0;
        let mut found = false;
        assert(orig.subrange(0, 0) =~= Seq::<WaiterView>::empty());
        assert(self@ =~= without(orig.subrange(0, 0), id) + orig.subrange(0, orig.len() as int));
        while j < self.waiters.len()
            invariant
                self.wf(),
                self.next_id == old(self).next_id,
                orig == old(self)@,
                0 <= i <= orig.len(),
                j == without(orig.subrange(0, i), id).len(),
                self@ == without(orig.subrange(0, i), id) + orig.subrange(i, orig.len() as int),
                found == has_id(orig.subrange(0, i), id),
            decreases self.waiters.len() - j,
        {
            let ghost done = orig.subrange(0, i);
            let ghost next = orig.subrange(0, i + 1);
            assert(self@[j as int] == orig[i]);
            assert(next.drop_last() =~= done);
            assert(next.last() == orig[i]);
            if self.waiters[j].id == id {
                let ghost wbefore = self.waiters@;
                self.waiters.remove(j);
                proof {
                    lemma_view_remove(wbefore, j as int);
                }
                found = true;
                assert(self@ =~= without(next, id) + orig.subrange(i + 1, orig.len() as int));
                assert(next[i].0 == id);
            } else {
                j += 1;
                assert(self@ =~= without(next, id) + orig.subrange(i + 1, orig.len() as int));
            }
            proof {
                if found && !has_id(done, id) {
                    assert(next[i].0 == id);
                }
                if has_id(done, id) {
                    let k = choose|k: int| 0 <= k < done.len() && (#[trigger] done[k]).0 == id;
                    assert(next[k] == done[k]);
                }
                if has_id(next, id) && next[i].0 != id {
                    let k = choose|k: int| 0 <= k < next.len() && (#[trigger] next[k]).0 == id;
                    assert(k < i);
                    assert(done[k] == next[k]);
                }
                i = i + 1;
            }
        }
        assert(orig.subrange(0, i) =~= orig);
        assert(self@ =~= without(orig, id));
        found
    }
}

proof fn lemma_view_remove(ws: Seq<Waiter>, j: int)
    requires
        0 <= j < ws.len(),
    ensures
        ws.remove(j).map_values(|w: Waiter| waiter_view(w)) == ws.map_values(
            |w: Waiter| waiter_view(w),
        ).remove(j),
{
    assert(ws.remove(j).map_values(|w: Waiter| waiter_view(w)) =~= ws.map_values(
        |w: Waiter| waiter_view(w),
    ).remove(j));
}

/// Whether `scope` covers `path`.
pub fn scope_covers(scope: &Option<Vec<Vec<u8>>>, path: &Vec<Vec<u8>>) -> (r: bool)
    ensures
        r == covers(scope_view(*scope), segs_view(path@)),
{
    match scope {
        None => true,
        Some(s) => {
            if s.len() > path.len() {
                return false;
            }
            let mut k: usize = 0;
            while k < s.len()
                invariant
                    scope_view(*scope) == Some(segs_view(s@)),
                    s@.len() <= path@.len(),
                    k <= s@.len(),
                    forall|t: int| 0 <= t < k ==> (#[trigger] s@[t])@ == path@[t]@,
                decreases s.len() - k,
            {
                let a = s[k].as_slice();
                let b = path[k].as_slice();
                if !crate::frame::bytes_equal(a, b) {
                    assert(segs_view(path@).subrange(0, s@.len() as int)[k as int] != segs_view(s@)[k as int]);
                    assert(segs_view(path@).subrange(0, s@.len() as int) != segs_view(s@));
                    return false;
                }
                k += 1;
            }
            assert(segs_view(path@).subrange(0, s@.len() as int) =~= segs_view(s@));
            true
        },
    }
}

/// A copy of a waiter's scope.
pub fn copy_scope(scope: &Option<Vec<Vec<u8>>>) -> (r: Option<Vec<Vec<u8>>>)
    ensures
        scope_view(r) == scope_view(*scope),
{
    match scope {
        None => None,
        Some(s) => Some(copy_segments(s)),
    }
}

/// A waiter removed by `cancel` is never woken: no later change notifies it.
pub proof fn lemma_cancelled_never_notified(ws: Seq<WaiterView>, id: u64, path: Seq<Seq<u8>>)
    ensures
        !notified(without(ws, id), path).contains(id),
    decreases ws.len(),
{
    if ws.len() > 0 {
        lemma_cancelled_never_notified(ws.drop_last(), id, path);
        let rest = without(ws.drop_last(), id);
        if ws.last().0 != id {
            let w = rest.push(ws.last());
            assert(w.drop_last() =~= rest);
            if covers(ws.last().1, path) {
                assert(notified(w, path) == notified(rest, path).push(ws.last().0));
                if notified(w, path).contains(id) {
                    let k = choose|k: int| 0 <= k < notified(w, path).len() && notified(w, path)[k] == id;
                    assert(k < notified(rest, path).len());
                    assert(notified(rest, path)[k] == id);
                }
            }
        }
    }
}

/// Delivery is one-shot: after a change to `path` has woken its waiters, the same change
/// wakes nobody.
pub proof fn lemma_woken_once(ws: Seq<WaiterView>, path: Seq<Seq<u8>>)
    ensures
        notified(remaining(ws, path), path) == Seq::<u64>::empty(),
    decreases ws.len(),
{
    if ws.len() > 0 {
        lemma_woken_once(ws.drop_last(), path);
        let rest = remaining(ws.drop_last(), path);
        if !covers(ws.last().1, path) {
            let w = rest.push(ws.last());
            assert(w.drop_last() =~= rest);
        }
    }
}

} // verus!
