//! The marble game: marbles are placed into a circle held as an
//! index-linked list inside a single vector, so that insertion and
//! removal never move other entries.

use vstd::prelude::*;

verus! {

/// A position inside a [`Circle`]: an index into its node store.
pub struct Cursor(pub usize);

/// A circular doubly-linked list: node `k` stores the indices of its
/// predecessor and successor and its value.  Removed nodes stay in the
/// store but are no longer linked.
pub struct Circle<T>(Vec<(usize, usize, T)>);

impl<T> Circle<T> {
    /// The node store: `(predecessor, successor, value)` per node.
    pub closed spec fn nodes(self) -> Seq<(usize, usize, T)> {
        self.0@
    }

    /// Every link points into the store.
    pub open spec fn wf(self) -> bool {
        forall|k: int|
            0 <= k < self.nodes().len() ==> (#[trigger] self.nodes()[k]).0 < self.nodes().len()
                && self.nodes()[k].1 < self.nodes().len()
    }

    /// A one-node circle holding `v`, with the cursor on it.
    pub fn new(v: T) -> (r: (Circle<T>, Cursor))
        ensures
            r.0.wf(),
            r.0.nodes().len() == 1,
            r.0.nodes()[0] == (0usize, 0usize, v),
            r.1.0 == 0,
    {
        let c = Circle(vec![(0usize, 0usize, v)]);
        proof {
            assert(c.nodes() =~= seq![(0usize, 0usize, v)]);
        }
        (c, Cursor(0))
    }

    /// Splices a new node holding `v` in after the cursor and returns
    /// a cursor to it: the new node is linked between the cursor's
    /// node and that node's old successor, values of existing nodes
    /// are untouched.
    pub fn insert_after(&mut self, cursor: Cursor, v: T) -> (r: Cursor)
        requires
            old(self).wf(),
            cursor.0 < old(self).nodes().len(),
            old(self).nodes().len() < usize::MAX,
        ensures
            final(self).wf(),
            final(self).nodes().len() == old(self).nodes().len() + 1,
            r.0 == old(self).nodes().len(),
            final(self).nodes()[r.0 as int] == (
                cursor.0,
                old(self).nodes()[cursor.0 as int].1,
                v,
            ),
            forall|k: int|
                0 <= k < old(self).nodes().len() ==> (#[trigger] final(self).nodes()[k]).2 == old(
                    self,
                ).nodes()[k].2,
    {
        let before = cursor.0;
        let after = self.0[before].1;
        let i = self.0.len();
        self.0[before].1 = i;
        self.0[after].0 = i;
        self.0.push((before, after, v));
        Cursor(i)
    }

    /// Unlinks the cursor's node from the ring — its neighbours are
    /// joined, no value changes — and returns a cursor to its old
    /// successor.
    pub fn remove(&mut self, cursor: Cursor) -> (r: Cursor)
        requires
            old(self).wf(),
            cursor.0 < old(self).nodes().len(),
        ensures
            final(self).wf(),
            final(self).nodes().len() == old(self).nodes().len(),
            r.0 == old(self).nodes()[cursor.0 as int].1,
            r.0 < final(self).nodes().len(),
            forall|k: int|
                0 <= k < old(self).nodes().len() ==> (#[trigger] final(self).nodes()[k]).2 == old(
                    self,
                ).nodes()[k].2,
    {
        let i = cursor.0;
        let before = self.0[i].0;
        let after = self.0[i].1;
        self.0[before].1 = after;
        self.0[after].0 = before;
        Cursor(after)
    }

    /// Moves the cursor one node clockwise.
    pub fn step_forward(&self, cursor: Cursor) -> (r: Cursor)
        requires
            self.wf(),
            cursor.0 < self.nodes().len(),
        ensures
            r.0 == self.nodes()[cursor.0 as int].1,
            r.0 < self.nodes().len(),
    {
        Cursor(self.0[cursor.0].1)
    }

    /// Moves the cursor one node counter-clockwise.
    pub fn step_backward(&self, cursor: Cursor) -> (r: Cursor)
        requires
            self.wf(),
            cursor.0 < self.nodes().len(),
        ensures
            r.0 == self.nodes()[cursor.0 as int].0,
            r.0 < self.nodes().len(),
    {
        Cursor(self.0[cursor.0].0)
    }

    /// The value stored at the cursor.
    pub fn value_at(&self, cursor: &Cursor) -> (r: &T)
        requires
            cursor.0 < self.nodes().len(),
        ensures
            *r == self.nodes()[cursor.0 as int].2,
    {
        &self.0[cursor.0].2
    }
}

/// Plays the marble game with the given number of players up to and
/// including the last marble and returns the winning score.
///
/// Every 23rd marble scores: the player keeps it, steps seven marbles
/// back, and also collects the marble found there.
pub fn marble_score(num_players: usize, last_marble: usize) -> (r: usize)
    requires
        1 <= num_players,
        2 * last_marble * last_marble <= usize::MAX,
    ensures
        r <= 2 * last_marble * last_marble,
{
    let mut scores: Vec<usize> = vec![0usize; num_players];
    let (mut circle, mut cursor) = Circle::new(0usize);
    let mut marble: usize = 1;
    while marble <= last_marble
        invariant
            1 <= marble <= last_marble + 1,
            1 <= num_players,
            2 * last_marble * last_marble <= usize::MAX,
            scores@.len() == num_players,
            circle.wf(),
            cursor.0 < circle.nodes().len(),
            circle.nodes().len() <= marble,
            forall|k: int|
                0 <= k < circle.nodes().len() ==> (#[trigger] circle.nodes()[k]).2 <= last_marble,
            forall|p: int|
                0 <= p < num_players ==> #[trigger] scores@[p] <= 2 * last_marble * (marble - 1),
        decreases last_marble + 1 - marble,
    {
        let ghost pre_scores = scores@;
        if marble % 23 == 0 {
            let mut back: usize = 0;
            while back < 7
                invariant
                    circle.wf(),
                    cursor.0 < circle.nodes().len(),
                decreases 7 - back,
            {
                cursor = circle.step_backward(cursor);
                back = back + 1;
            }
            proof {
                assert(2 * last_marble * (marble - 1) + 2 * last_marble == 2 * last_marble
                    * marble && 2 * last_marble * marble <= 2 * last_marble * last_marble)
                    by (nonlinear_arith)
                    requires
                        1 <= marble <= last_marble,
                ;
            }
            let score = marble + *circle.value_at(&cursor);
            cursor = circle.remove(cursor);
            let p = (marble - 1) % num_players;
            let sp = scores[p];
            scores[p] = sp + score;
            proof {
                assert forall|q: int| 0 <= q < num_players implies #[trigger] scores@[q] <= 2
                    * last_marble * marble by {
                    assert(pre_scores[q] <= 2 * last_marble * (marble - 1));
                }
            }
        } else {
            proof {
                assert(circle.nodes().len() < usize::MAX) by (nonlinear_arith)
                    requires
                        circle.nodes().len() <= marble <= last_marble,
                        1 <= marble,
                        2 * last_marble * last_marble <= usize::MAX,
                ;
            }
            cursor = circle.insert_after(circle.step_forward(cursor), marble);
            proof {
                assert forall|q: int| 0 <= q < num_players implies #[trigger] scores@[q] <= 2
                    * last_marble * marble by {
                    assert(scores@[q] <= 2 * last_marble * (marble - 1));
                    assert(2 * last_marble * (marble - 1) <= 2 * last_marble * marble)
                        by (nonlinear_arith)
                        requires
                            1 <= marble,
                            0 <= last_marble,
                    ;
                }
            }
        }
        proof {
            assert(last_marble < usize::MAX) by (nonlinear_arith)
                requires
                    1 <= marble <= last_marble,
                    2 * last_marble * last_marble <= usize::MAX,
            ;
        }
        marble = marble + 1;
    }
    proof {
        assert(2 * last_marble * (marble - 1) <= 2 * last_marble * last_marble)
            by (nonlinear_arith)
            requires
                marble <= last_marble + 1,
                0 <= last_marble,
        ;
    }
    let mut best: usize = 0;
    let mut p: usize = 0;
    while p < num_players
        invariant
            scores@.len() == num_players,
            best <= 2 * last_marble * last_marble,
            forall|q: int|
                0 <= q < num_players ==> #[trigger] scores@[q] <= 2 * last_marble * last_marble,
        decreases num_players - p,
    {
        if scores[p] > best {
            best = scores[p];
        }
        p = p + 1;
    }
    best
}

} // verus!
