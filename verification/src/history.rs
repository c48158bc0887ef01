//! The onion-skin history strip: a bounded run of past cell snapshots.
//!
//! The track passively observes the grid after every edit and clears itself
//! when the grid's size changes; snapshots are added only on explicit
//! commits, a commit equal to the newest snapshot is dropped, and the oldest
//! snapshots are evicted while the strip would render wider than its budget.

use vstd::prelude::*;

use crate::grid::Grid;
use crate::grid::MAX_SIDE;
use crate::grid::MIN_SIDE;

verus! {

/// The mathematical value of a [`HistoryTrack`]: the tracked grid size and
/// cells, the snapshots oldest first, and the rendering budget.
#[verifier::ext_equal]
pub struct HistoryModel {
    pub width: nat,
    pub height: nat,
    pub dots: Seq<bool>,
    pub entries: Seq<Seq<bool>>,
    pub budget: nat,
}

/// Snapshots dropped from the front until the strip fits its budget: each
/// snapshot renders `width` cells wide.
pub open spec fn evict(entries: Seq<Seq<bool>>, width: nat, budget: nat) -> Seq<Seq<bool>>
    decreases entries.len(),
{
    if entries.len() == 0 {
        entries
    } else if width * entries.len() <= budget {
        entries
    } else {
        evict(entries.skip(1), width, budget)
    }
}

/// What one commit does: a snapshot equal to the newest one is dropped;
/// otherwise the tracked cells are appended and the oldest snapshots evicted
/// until the strip fits its budget.
pub open spec fn commit_spec(m: HistoryModel) -> HistoryModel {
    if m.entries.len() > 0 && m.entries.last() == m.dots {
        m
    } else {
        HistoryModel { entries: evict(m.entries.push(m.dots), m.width, m.budget), ..m }
    }
}

impl HistoryModel {
    /// Size within grid bounds, one tracked cell per coordinate, every
    /// snapshot the same shape, the strip within budget, and no two
    /// neighbouring snapshots equal.
    pub open spec fn wf(self) -> bool {
        &&& MIN_SIDE <= self.width <= MAX_SIDE
        &&& MIN_SIDE <= self.height <= MAX_SIDE
        &&& self.dots.len() == self.width * self.height
        &&& forall|i: int|
            0 <= i < self.entries.len() ==> (#[trigger] self.entries[i]).len() == self.width
                * self.height
        &&& self.width * self.entries.len() <= self.budget
        &&& forall|i: int|
            0 <= i < self.entries.len() - 1 ==> #[trigger] self.entries[i] != self.entries[i + 1]
    }
}

/// The bounded run of past grid snapshots shown as the onion-skin strip.
pub struct HistoryTrack {
    width: usize,
    height: usize,
    dots: Vec<bool>,
    entries: Vec<Vec<bool>>,
    width_budget: usize,
}

impl View for HistoryTrack {
    type V = HistoryModel;

    closed spec fn view(&self) -> HistoryModel {
        HistoryModel {
            width: self.width as nat,
            height: self.height as nat,
            dots: self.dots@,
            entries: self.entries@.map_values(|e: Vec<bool>| e@),
            budget: self.width_budget as nat,
        }
    }
}

impl HistoryTrack {
    /// Size within grid bounds, one tracked cell per coordinate, every
    /// snapshot the same shape, the strip within budget, and no two
    /// neighbouring snapshots equal.
    pub open spec fn wf(self) -> bool {
        self@.wf()
    }

    /// A fresh empty track over the given grid, with the given rendering
    /// budget in cells.
    pub fn new(g: &Grid, width_budget: usize) -> (t: HistoryTrack)
        requires
            g.wf(),
        ensures
            t.wf(),
            t@.width == g@.width,
            t@.height == g@.height,
            t@.dots == g@.cells,
            t@.entries == Seq::<Seq<bool>>::empty(),
            t@.budget == width_budget,
    {
        let t = HistoryTrack {
            width: g.width(),
            height: g.height(),
            dots: g.cells_snapshot(),
            entries: Vec::new(),
            width_budget,
        };
        proof {
            assert(t@.entries =~= Seq::<Seq<bool>>::empty());
        }
        t
    }

    /// How many snapshots the strip holds.
    pub fn len(&self) -> (n: usize)
        ensures
            n == self@.entries.len(),
    {
        self.entries.len()
    }

    /// One snapshot's cells, oldest first.
    pub fn entry(&self, i: usize) -> (e: &Vec<bool>)
        requires
            i < self@.entries.len(),
        ensures
            e@ == self@.entries[i as int],
    {
        &self.entries[i]
    }

    /// Follows the grid after an edit: a changed size invalidates the strip
    /// and clears it entirely; the tracked size and cells are brought up to
    /// date either way, and nothing is appended.
    pub fn observe(&mut self, g: &Grid)
        requires
            old(self).wf(),
            g.wf(),
        ensures
            final(self).wf(),
            final(self)@.width == g@.width,
            final(self)@.height == g@.height,
            final(self)@.dots == g@.cells,
            final(self)@.budget == old(self)@.budget,
            (g@.width != old(self)@.width || g@.height != old(self)@.height)
                ==> final(self)@.entries == Seq::<Seq<bool>>::empty(),
            (g@.width == old(self)@.width && g@.height == old(self)@.height)
                ==> final(self)@.entries == old(self)@.entries,
    {
        if g.width() != self.width || g.height() != self.height {
            self.entries = Vec::new();
            proof {
                assert(self@.entries =~= Seq::<Seq<bool>>::empty());
            }
        }
        self.width = g.width();
        self.height = g.height();
        self.dots = g.cells_snapshot();
        proof {
            if self@.entries.len() == 0 {
                assert(self@.width * self@.entries.len() == 0) by (nonlinear_arith)
                    requires self@.entries.len() == 0;
            }
        }
    }

    /// Records the tracked cells as a snapshot: dropped if equal to the
    /// newest one, otherwise appended, the oldest snapshots then evicted
    /// until the strip fits its budget.
    pub fn commit(&mut self)
        requires
            old(self).wf(),
        ensures
            final(self).wf(),
            final(self)@ == commit_spec(old(self)@),
    {
        let n = self.entries.len();
        if n > 0 && cells_equal(&self.entries[n - 1], &self.dots) {
            return ;
        }
        let ghost m0 = self@;
        let snapshot = self.dots.clone();
        self.entries.push(snapshot);
        proof {
            assert(self@.entries =~= m0.entries.push(m0.dots));
        }
        let ghost pushed = self@.entries;
        while self.entries.len() > 0 && self.width_budget / self.width < self.entries.len()
            invariant
                m0.wf(),
                self.width == m0.width,
                self.height == m0.height,
                self.width_budget == m0.budget,
                self@.dots == m0.dots,
                evict(self@.entries, m0.width, m0.budget) == evict(pushed, m0.width, m0.budget),
                forall|i: int|
                    0 <= i < self@.entries.len() ==> (#[trigger] self@.entries[i]).len()
                        == m0.width * m0.height,
                forall|i: int|
                    0 <= i < self@.entries.len() - 1 ==> #[trigger] self@.entries[i] != self@.entries[i + 1],
            decreases self@.entries.len(),
        {
            proof {
                let w = m0.width as int;
                let b = m0.budget as int;
                let len = self@.entries.len() as int;
                vstd::arithmetic::div_mod::lemma_fundamental_div_mod(b, w);
                vstd::arithmetic::div_mod::lemma_mod_bound(b, w);
                assert(w * len >= w * (b / w) + w) by (nonlinear_arith)
                    requires 0 < w, len >= b / w + 1;
                assert(w * len > b);
            }
            let ghost before = self@.entries;
            self.entries.remove(0);
            proof {
                assert(self@.entries =~= before.skip(1));
            }
        }
        proof {
            let w = m0.width as int;
            let b = m0.budget as int;
            let len = self@.entries.len() as int;
            if len > 0 {
                vstd::arithmetic::div_mod::lemma_fundamental_div_mod(b, w);
                vstd::arithmetic::div_mod::lemma_mod_bound(b, w);
                assert(w * len <= w * (b / w)) by (nonlinear_arith)
                    requires 0 < w, len <= b / w;
                assert(w * len <= b);
            } else {
                assert(w * len == 0) by (nonlinear_arith)
                    requires len == 0;
            }
            assert(evict(self@.entries, m0.width, m0.budget) == self@.entries);
            assert(self@ =~= commit_spec(m0));
        }
    }
}

/// Two cell buffers compared element by element.
fn cells_equal(a: &Vec<bool>, b: &Vec<bool>) -> (r: bool)
    ensures
        r == (a@ == b@),
{
    if a.len() != b.len() {
        return false;
    }
    let n = a.len();
    for i in 0..n
        invariant
            n == a@.len() == b@.len(),
            forall|k: int| 0 <= k < i ==> a@[k] == b@[k],
    {
        if a[i] != b[i] {
            return false;
        }
    }
    proof {
        assert(a@ =~= b@);
    }
    true
}

/// Snapshots survive eviction from the newest end: a nonempty strip still
/// ends with the snapshot it ended with.
proof fn lemma_evict_keeps_last(entries: Seq<Seq<bool>>, width: nat, budget: nat)
    requires
        evict(entries, width, budget).len() > 0,
    ensures
        entries.len() > 0,
        evict(entries, width, budget).last() == entries.last(),
    decreases entries.len(),
{
    if entries.len() == 0 {
    } else if width * entries.len() <= budget {
    } else {
        lemma_evict_keeps_last(entries.skip(1), width, budget);
        assert(entries.skip(1).last() == entries.last());
    }
}

/// An eviction that empties a nonempty strip can only mean that even one
/// snapshot is wider than the budget.
proof fn lemma_evict_empty(entries: Seq<Seq<bool>>, width: nat, budget: nat)
    requires
        entries.len() > 0,
        evict(entries, width, budget).len() == 0,
    ensures
        width > budget,
    decreases entries.len(),
{
    if width * entries.len() <= budget {
    } else {
        assert(entries.len() > 0);
        if entries.len() == 1 {
            assert(width * 1 > budget) by (nonlinear_arith)
                requires width * entries.len() > budget, entries.len() == 1;
        } else {
            lemma_evict_empty(entries.skip(1), width, budget);
        }
    }
}

/// Committing twice without an edit in between is the same as committing
/// once: an unchanged grid never adds a second snapshot.
pub proof fn lemma_commit_idempotent(m: HistoryModel)
    ensures
        commit_spec(commit_spec(m)) == commit_spec(m),
{
    let m1 = commit_spec(m);
    if m.entries.len() > 0 && m.entries.last() == m.dots {
    } else {
        let pushed = m.entries.push(m.dots);
        if m1.entries.len() > 0 {
            lemma_evict_keeps_last(pushed, m.width, m.budget);
            assert(m1.entries.last() == m.dots);
        } else {
            lemma_evict_empty(pushed, m.width, m.budget);
            let repushed = m1.entries.push(m1.dots);
            assert(repushed.len() == 1);
            assert(m.width * repushed.len() > m.budget) by (nonlinear_arith)
                requires m.width > m.budget, repushed.len() == 1;
            assert(repushed.skip(1) =~= Seq::<Seq<bool>>::empty());
            assert(evict(repushed, m.width, m.budget) == evict(
                repushed.skip(1),
                m.width,
                m.budget,
            ));
            assert(evict(repushed, m.width, m.budget) =~= Seq::<Seq<bool>>::empty());
            assert(commit_spec(m1) =~= m1);
        }
    }
}

} // verus!
