//! The work-list engine: which positions of a polyline are kept.
//!
//! The engine holds a last-in-first-out list of closed position ranges. For
//! the range on top the caller finds the interior point farthest from the
//! segment between the range's endpoints (leftmost on ties). If it lies
//! farther than the tolerance, the caller splits the range there; otherwise
//! it collapses the range, which keeps the range's two endpoints. When the
//! list is empty, the kept positions are the simplified polyline.
use vstd::prelude::*;
use crate::subsequence::{
    identity_indices, is_position_subsequence, lemma_identity_pick, lemma_subsequence_not_longer,
    picked,
};

verus! {

/// State of one simplification of a polyline with a given number of points.
pub struct Simplifier {
    n: usize,
    stack: Vec<(usize, usize)>,
    kept: Vec<usize>,
    last_end: Option<usize>,
}

impl Simplifier {
    /// Number of points of the polyline.
    pub closed spec fn num_points(&self) -> nat {
        self.n as nat
    }

    /// Ranges still to be evaluated, the next one last.
    pub closed spec fn ranges(&self) -> Seq<(usize, usize)> {
        self.stack@
    }

    /// Positions kept so far, in the order they were emitted.
    pub closed spec fn kept_indices(&self) -> Seq<usize> {
        self.kept@
    }

    /// End of the range collapsed most recently, if any.
    pub closed spec fn last_end(&self) -> Option<usize> {
        self.last_end
    }

    /// No range is left to evaluate.
    pub open spec fn finished(&self) -> bool {
        self.ranges().len() == 0
    }

    /// The range to be evaluated next.
    pub open spec fn next_range(&self) -> (usize, usize) {
        self.ranges().last()
    }

    /// The positions kept after collapsing the range `(s, e)`: `s` unless the
    /// previously collapsed range ended there, then `e`.
    pub open spec fn kept_after_collapse(&self, s: usize, e: usize) -> Seq<usize> {
        if self.last_end() == Some(s) {
            self.kept_indices().push(e)
        } else {
            self.kept_indices().push(s).push(e)
        }
    }

    /// Internal consistency of the engine. The pending ranges tile
    /// `[top start, n - 1]` from the top of the list down, each holding at
    /// least two positions, and the positions kept so far end where the top
    /// range begins.
    pub closed spec fn wf(&self) -> bool {
        let st = self.stack@;
        let k = self.kept@;
        let n = self.n as int;
        if n < 3 {
            &&& st.len() == 0
            &&& k == identity_indices(self.n as nat)
            &&& self.last_end is None
        } else {
            &&& forall|i: int| 0 <= i < st.len() ==> st[i].0 < st[i].1 && st[i].1 + i <= n - 1
            &&& st.len() > 0 ==> st[0].1 == n - 1
            &&& forall|i: int| 0 <= i && i + 1 < st.len() ==> #[trigger] st[i + 1].1 == st[i].0
            &&& is_position_subsequence(k, self.n as nat)
            &&& k.len() == 0 <==> self.last_end is None
            &&& k.len() > 0 ==> k[0] == 0 && self.last_end == Some(k.last())
            &&& st.len() > 0 ==> st.last().0 == (if k.len() == 0 { 0 } else { k.last() as int })
            &&& st.len() == 0 ==> k.len() > 0 && k.last() == n - 1
        }
    }

    /// An upper bound on the number of steps left before the engine finishes.
    pub closed spec fn steps_left(&self) -> nat {
        if self.stack@.len() == 0 {
            0
        } else {
            (2 * (self.n - 1 - self.stack@.last().0) - self.stack@.len()) as nat
        }
    }

    /// Starts a simplification of `n` points. Fewer than three points have
    /// no interior point to evaluate: they are all kept at once. Otherwise
    /// the whole polyline `(0, n - 1)` is the one range to evaluate.
    pub fn new(n: usize) -> (r: Simplifier)
        ensures
            r.wf(),
            r.num_points() == n,
            n < 3 ==> r.finished() && r.kept_indices() == identity_indices(n as nat),
            n >= 3 ==> r.ranges() == seq![(0usize, (n - 1) as usize)]
                && r.kept_indices().len() == 0 && r.last_end() is None,
    {
        if n < 3 {
            let mut kept: Vec<usize> = Vec::with_capacity(n);
            let mut i: usize = 0;
            while i < n
                invariant
                    i <= n,
                    kept@ == identity_indices(i as nat),
                decreases n - i,
            {
                kept.push(i);
                proof {
                    assert(kept@ =~= identity_indices(i as nat + 1));
                }
                i = i + 1;
            }
            Simplifier { n, stack: Vec::new(), kept, last_end: None }
        } else {
            let mut stack: Vec<(usize, usize)> = Vec::new();
            stack.push((0, n - 1));
            let r = Simplifier { n, stack, kept: Vec::new(), last_end: None };
            proof {
                assert(r.stack@ =~= seq![(0usize, (n - 1) as usize)]);
            }
            r
        }
    }

    /// The range to evaluate next, or `None` once the engine has finished.
    pub fn pending(&self) -> (r: Option<(usize, usize)>)
        requires
            self.wf(),
        ensures
            self.finished() ==> r is None,
            !self.finished() ==> r == Some(self.next_range())
                && (r->0).0 < (r->0).1 && (r->0).1 < self.num_points(),
    {
        let len = self.stack.len();
        if len == 0 {
            None
        } else {
            Some(self.stack[len - 1])
        }
    }


    /// The next range `(s, e)` deviates from its chord by more than the
    /// tolerance at the interior position `m`: evaluate `(s, m)` next and
    /// `(m, e)` after it.
    pub fn split(&mut self, m: usize)
        requires
            old(self).wf(),
            !old(self).finished(),
            old(self).next_range().0 < m < old(self).next_range().1,
        ensures
            final(self).wf(),
            final(self).num_points() == old(self).num_points(),
            final(self).ranges() == old(self).ranges().drop_last()
                .push((m, old(self).next_range().1))
                .push((old(self).next_range().0, m)),
            final(self).kept_indices() == old(self).kept_indices(),
            final(self).last_end() == old(self).last_end(),
            final(self).steps_left() < old(self).steps_left(),
    {
        let (s, e) = self.stack.pop().unwrap();
        self.stack.push((m, e));
        self.stack.push((s, m));
        proof {
            let os = old(self).stack@;
            let st = self.stack@;
            let len = os.len() as int;
            assert(os[len - 1] == (s, e));
            assert forall|i: int| 0 <= i && i + 1 < st.len() implies #[trigger] st[i + 1].1 == st[i].0 by {
                if i + 1 < len - 1 {
                    assert(st[i + 1] == os[i + 1] && st[i] == os[i]);
                } else if i + 1 == len - 1 {
                    assert(st[i] == os[i]);
                }
            }
            assert forall|i: int| 0 <= i < st.len() implies st[i].0 < st[i].1 && st[i].1 + i <= self.n - 1 by {
                if i < len - 1 {
                    assert(st[i] == os[i]);
                }
            }
        }
    }

    /// The next range `(s, e)` lies within the tolerance of its chord: it
    /// keeps its endpoints. `s` is kept unless the range collapsed before
    /// this one ended at `s`; `e` is kept in any case.
    pub fn collapse(&mut self)
        requires
            old(self).wf(),
            !old(self).finished(),
        ensures
            final(self).wf(),
            final(self).num_points() == old(self).num_points(),
            final(self).ranges() == old(self).ranges().drop_last(),
            final(self).kept_indices() == old(self).kept_after_collapse(
                old(self).next_range().0,
                old(self).next_range().1,
            ),
            final(self).last_end() == Some(old(self).next_range().1),
            final(self).steps_left() < old(self).steps_left(),
    {
        let (s, e) = self.stack.pop().unwrap();
        let shared = match self.last_end {
            Some(l) => l == s,
            None => false,
        };
        if !shared {
            self.kept.push(s);
        }
        self.kept.push(e);
        self.last_end = Some(e);
        proof {
            let os = old(self).stack@;
            let ok = old(self).kept@;
            let st = self.stack@;
            let k = self.kept@;
            let len = os.len() as int;
            assert(os[len - 1] == (s, e));
            assert(s + len <= self.n - 1);
            assert(ok.len() > 0 ==> shared);
            if len > 1 {
                assert(os[(len - 2) + 1].1 == os[len - 2].0);
                assert(st.last() == os[len - 2]);
            }
            assert forall|i: int| 0 <= i && i + 1 < st.len() implies #[trigger] st[i + 1].1 == st[i].0 by {
                assert(st[i + 1] == os[i + 1] && st[i] == os[i]);
            }
            assert forall|i: int| 0 <= i < st.len() implies st[i].0 < st[i].1 && st[i].1 + i <= self.n - 1 by {
                assert(st[i] == os[i]);
            }
            assert forall|i: int, j: int| 0 <= i < j < k.len() implies k[i] < k[j] by {
                if j < ok.len() {
                    assert(k[i] == ok[i] && k[j] == ok[j]);
                }
            }
        }
    }

    /// The positions kept so far. Once the engine has finished they are
    /// ascending, start at the first position and end at the last.
    pub fn kept(&self) -> (r: Vec<usize>)
        requires
            self.wf(),
        ensures
            r@ == self.kept_indices(),
            is_position_subsequence(r@, self.num_points()),
            self.finished() && self.num_points() > 0 ==> r@.len() > 0 && r@[0] == 0
                && r@.last() == self.num_points() - 1,
    {
        self.kept.clone()
    }

} // impl Simplifier

/// A polyline of fewer than three points is kept whole, whatever the
/// tolerance: the engine starts finished, and what it keeps is the input.
pub proof fn lemma_short_polyline_unchanged<T>(w: Simplifier, v: Seq<T>)
    requires
        w.wf(),
        w.num_points() == v.len(),
        v.len() < 3,
    ensures
        w.finished(),
        picked(v, w.kept_indices()) == v,
{
    lemma_identity_pick(v);
}

/// Once the engine has finished, what it keeps of a polyline is a
/// subsequence by position, no longer than the polyline, whose first and
/// last elements are the polyline's own.
pub proof fn lemma_finished_result<T>(w: Simplifier, v: Seq<T>)
    requires
        w.wf(),
        w.finished(),
        w.num_points() == v.len(),
    ensures
        is_position_subsequence(w.kept_indices(), v.len()),
        picked(v, w.kept_indices()).len() <= v.len(),
        v.len() > 0 ==> picked(v, w.kept_indices()).len() > 0
            && picked(v, w.kept_indices())[0] == v[0]
            && picked(v, w.kept_indices()).last() == v.last(),
{
    lemma_subsequence_not_longer(w.kept_indices(), v.len());
    if v.len() < 3 {
        lemma_identity_pick(v);
    }
}

/// The engine finishes: every step lowers a count that starts at most at
/// twice the number of points and is zero exactly when nothing is left.
pub proof fn lemma_steps_bounded(w: Simplifier)
    requires
        w.wf(),
    ensures
        w.steps_left() <= 2 * w.num_points(),
        w.finished() <==> w.steps_left() == 0,
{
}

} // verus!
