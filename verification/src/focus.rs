//! A deliberately tiny focus system: an ordered ring of focusable ids with a
//! current owner, cycling with wraparound, and a modal capture stack.
use vstd::prelude::*;

verus! {

/// Identifies a focusable widget within an application.
#[derive(Debug, Clone, Copy, PartialEq, Eq, Structural, Hash, PartialOrd, Ord)]
pub struct FocusId(pub u64);

/// A small ordered set of focusable ids with a current owner and a modal stack.
#[derive(Debug, Clone, Default, PartialEq, Eq)]
pub struct FocusRing {
    pub ring: Vec<FocusId>,
    pub current: usize,
    pub stack: Vec<usize>,
}

/// No id occurs twice.
pub open spec fn no_duplicates(s: Seq<FocusId>) -> bool {
    forall|i: int, j: int| 0 <= i < j < s.len() ==> s[i] != s[j]
}

/// The ids of `ids` in order of first occurrence, without repeats.
pub open spec fn dedup(ids: Seq<FocusId>) -> Seq<FocusId>
    decreases ids.len(),
{
    if ids.len() == 0 {
        Seq::empty()
    } else {
        let prev = dedup(ids.drop_last());
        if prev.contains(ids.last()) { prev } else { prev.push(ids.last()) }
    }
}

/// A saved position clamped to the last member (0 for an empty ring).
pub open spec fn restored_index(prev: int, len: int) -> int {
    let last = if len == 0 { 0 } else { len - 1 };
    if prev < last { prev } else { last }
}

impl FocusRing {
    /// The states the ring's operations keep: no id twice, and the current
    /// index inside the ring (0 for an empty ring).
    pub open spec fn wf(&self) -> bool {
        &&& no_duplicates(self.ring@)
        &&& (self.current < self.ring@.len() || (self.ring@.len() == 0 && self.current == 0))
    }

    /// The currently focused id, if any.
    pub open spec fn current_id(&self) -> Option<FocusId> {
        if self.current < self.ring@.len() { Some(self.ring@[self.current as int]) } else { None }
    }

    /// Creates a ring over `ids` in focus order; duplicates are ignored.
    pub fn new<const N: usize>(ids: [FocusId; N]) -> (f: Self)
        ensures
            f.ring@ == dedup(ids@),
            no_duplicates(f.ring@),
            f.wf(),
            f.current == 0,
            f.stack@.len() == 0,
    {
        let mut ring: Vec<FocusId> = Vec::new();
        let mut i: usize = 0;
        while i < N
            invariant
                i <= N,
                N == ids@.len(),
                ring@ == dedup(ids@.take(i as int)),
                no_duplicates(ring@),
            decreases N - i,
        {
            let id = ids[i];
            proof {
                assert(ids@.take(i as int + 1).drop_last() =~= ids@.take(i as int));
            }
            if !vec_contains(&ring, id) {
                ring.push(id);
            }
            i = i + 1;
        }
        proof {
            assert(ids@.take(N as int) =~= ids@);
        }
        FocusRing { ring, current: 0, stack: Vec::new() }
    }

    /// The currently focused id, if the ring has any members.
    pub fn current(&self) -> (c: Option<FocusId>)
        ensures
            c == self.current_id(),
    {
        if self.current < self.ring.len() {
            Some(self.ring[self.current])
        } else {
            None
        }
    }

    pub fn is_empty(&self) -> (b: bool)
        ensures
            b == (self.ring@.len() == 0),
    {
        self.ring.len() == 0
    }

    /// Focuses a known id; returns `false` (and changes nothing) if the id is
    /// not in the ring.
    pub fn set(&mut self, id: FocusId) -> (found: bool)
        ensures
            old(self).wf() ==> final(self).wf(),
            found == old(self).ring@.contains(id),
            final(self).ring@ == old(self).ring@,
            final(self).stack@ == old(self).stack@,
            found ==> final(self).current < final(self).ring@.len() && final(self).ring@[final(self).current as int] == id
                && forall|j: int| 0 <= j < final(self).current ==> #[trigger] final(self).ring@[j] != id,
            !found ==> final(self).current == old(self).current,
    {
        let mut i: usize = 0;
        while i < self.ring.len()
            invariant
                i <= self.ring@.len(),
                self.ring@ == old(self).ring@,
                self.stack@ == old(self).stack@,
                self.current == old(self).current,
                forall|j: int| 0 <= j < i ==> #[trigger] self.ring@[j] != id,
            decreases self.ring@.len() - i,
        {
            if self.ring[i] == id {
                self.current = i;
                return true;
            }
            i = i + 1;
        }
        false
    }

    pub fn contains(&self, id: FocusId) -> (b: bool)
        ensures
            b == self.ring@.contains(id),
    {
        vec_contains(&self.ring, id)
    }

    /// Advances to the next member (wraparound) and returns the new owner.
    pub fn focus_next(&mut self) -> (c: Option<FocusId>)
        ensures
            old(self).wf() ==> final(self).wf(),
            final(self).ring@ == old(self).ring@,
            final(self).stack@ == old(self).stack@,
            old(self).ring@.len() == 0 ==> c is None && final(self).current == old(self).current,
            old(self).ring@.len() > 0 ==> final(self).current == (old(self).current + 1) % (old(self).ring@.len() as int)
                && c == final(self).current_id(),
    {
        if self.ring.len() == 0 {
            return None;
        }
        let n = self.ring.len();
        self.current = ((self.current as u128 + 1) % n as u128) as usize;
        self.current()
    }

    /// Moves to the previous member (wraparound) and returns the new owner.
    pub fn focus_prev(&mut self) -> (c: Option<FocusId>)
        ensures
            old(self).wf() ==> final(self).wf(),
            final(self).ring@ == old(self).ring@,
            final(self).stack@ == old(self).stack@,
            old(self).ring@.len() == 0 ==> c is None && final(self).current == old(self).current,
            old(self).ring@.len() > 0 ==> final(self).current == (old(self).current + old(self).ring@.len() - 1) % (old(self).ring@.len() as int)
                && c == final(self).current_id(),
    {
        if self.ring.len() == 0 {
            return None;
        }
        let n = self.ring.len();
        self.current = ((self.current as u128 + n as u128 - 1) % n as u128) as usize;
        self.current()
    }

    /// Saves the current owner (e.g. when opening a modal). Nestable.
    pub fn capture(&mut self)
        ensures
            old(self).wf() ==> final(self).wf(),
            final(self).ring@ == old(self).ring@,
            final(self).current == old(self).current,
            final(self).stack@ == old(self).stack@.push(old(self).current),
    {
        self.stack.push(self.current);
    }

    /// Restores the owner saved by the matching capture, clamped into the
    /// ring; extra releases change nothing.
    pub fn release(&mut self) -> (c: Option<FocusId>)
        ensures
            old(self).wf() ==> final(self).wf(),
            final(self).ring@ == old(self).ring@,
            old(self).stack@.len() == 0 ==> final(self).stack@ == old(self).stack@ && final(self).current == old(self).current,
            old(self).stack@.len() > 0 ==> final(self).stack@ == old(self).stack@.drop_last()
                && final(self).current == restored_index(old(self).stack@.last() as int, old(self).ring@.len() as int),
            c == final(self).current_id(),
    {
        if let Some(prev) = self.stack.pop() {
            let limit = if self.ring.len() == 0 { 0 } else { self.ring.len() - 1 };
            self.current = if prev < limit { prev } else { limit };
        }
        self.current()
    }

    /// True while at least one capture is outstanding.
    pub fn is_captured(&self) -> (b: bool)
        ensures
            b == (self.stack@.len() > 0),
    {
        self.stack.len() > 0
    }
}

/// Linear membership test.
fn vec_contains(v: &Vec<FocusId>, id: FocusId) -> (b: bool)
    ensures
        b == v@.contains(id),
{
    let mut i: usize = 0;
    while i < v.len()
        invariant
            i <= v@.len(),
            forall|j: int| 0 <= j < i ==> v@[j] != id,
        decreases v@.len() - i,
    {
        if v[i] == id {
            return true;
        }
        i = i + 1;
    }
    false
}


/// Moving focus forward and then back returns to the same member of a ring
/// of `n` members, and so does moving back and then forward.
pub proof fn law_next_then_prev_returns(c: int, n: int)
    requires
        0 <= c < n,
    ensures
        (((c + 1) % n) + n - 1) % n == c,
        (((c + n - 1) % n) + 1) % n == c,
{
    if c + 1 < n {
        assert((c + 1) % n == c + 1) by (nonlinear_arith) requires 0 <= c + 1 < n;
        assert((c + n) % n == c) by (nonlinear_arith) requires 0 <= c < n;
    } else {
        assert((c + 1) % n == 0) by (nonlinear_arith) requires c + 1 == n, n > 0;
        assert((n - 1) % n == c) by (nonlinear_arith) requires c == n - 1, n > 0;
    }
    if c > 0 {
        assert((c + n - 1) % n == c - 1) by (nonlinear_arith) requires 0 < c < n;
        assert(c % n == c) by (nonlinear_arith) requires 0 <= c < n;
    } else {
        assert((n - 1) % n == n - 1) by (nonlinear_arith) requires n > 0;
        assert(n % n == 0) by (nonlinear_arith) requires n > 0;
    }
}

/// A release gives back the member that was focused at the matching
/// capture, as long as the ring still has it.
pub proof fn law_release_restores_captured(saved: int, len: int)
    requires
        0 <= saved < len,
    ensures
        restored_index(saved, len) == saved,
{
}


/// On a well-formed, non-empty ring, `focus_next` then `focus_prev` (and
/// `focus_prev` then `focus_next`) gives back the focused member: `f1` is
/// `f0` after the first move and `f2` is `f1` after the second.
pub proof fn law_focus_moves_round_trip(f0: FocusRing, f1: FocusRing, f2: FocusRing, forward_first: bool)
    requires
        f0.wf(),
        f0.ring@.len() > 0,
        f1.ring@ == f0.ring@,
        f2.ring@ == f1.ring@,
        f1.current == (if forward_first { (f0.current + 1) % (f0.ring@.len() as int) }
            else { (f0.current + f0.ring@.len() - 1) % (f0.ring@.len() as int) }),
        f2.current == (if forward_first { (f1.current + f1.ring@.len() - 1) % (f1.ring@.len() as int) }
            else { (f1.current + 1) % (f1.ring@.len() as int) }),
    ensures
        f2.current == f0.current,
        f2.current_id() == f0.current_id(),
{
    law_next_then_prev_returns(f0.current as int, f0.ring@.len() as int);
}

/// Capture, then any moves that keep the ring and the capture stack (`set`,
/// `focus_next`, `focus_prev`), then release: the member focused at the
/// capture is focused again and the stack is as before the capture. `f1` is
/// the ring just before the release, `f2` just after it.
pub proof fn law_release_after_moves_restores_capture(f0: FocusRing, f1: FocusRing, f2: FocusRing)
    requires
        f0.wf(),
        f0.ring@.len() > 0,
        f1.ring@ == f0.ring@,
        f1.stack@ == f0.stack@.push(f0.current),
        f2.ring@ == f1.ring@,
        f2.stack@ == f1.stack@.drop_last(),
        f2.current == restored_index(f1.stack@.last() as int, f1.ring@.len() as int),
    ensures
        f2.current == f0.current,
        f2.current_id() == f0.current_id(),
        f2.stack@ == f0.stack@,
{
    assert(f1.stack@.last() == f0.current);
    assert(f1.stack@.drop_last() =~= f0.stack@);
}

} // verus!
