//! Counts gathered while searching: nodes visited and how often the first moves tried were best,
//! per seat on lead (North to West).
use vstd::prelude::*;

verus! {

/// Search counts per seat (North to West).
#[derive(Copy, Clone, Debug)]
pub struct DdsStatistics {
    pub node_count: [usize; 4],
    pub n_first_moves: [usize; 4],
    pub n_first_move_is_best: [usize; 4],
    pub n_one_of_first_two_moves_is_best: [usize; 4],
}

/// The sum of four counts.
pub open spec fn total(counts: [usize; 4]) -> int {
    counts@[0] + counts@[1] + counts@[2] + counts@[3]
}

/// No count of `b` is below the same count of `a`.
pub open spec fn counts_grow(a: DdsStatistics, b: DdsStatistics) -> bool {
    forall|i: int|
        0 <= i < 4 ==> a.node_count@[i] <= #[trigger] b.node_count@[i] && a.n_first_moves@[i]
            <= b.n_first_moves@[i] && a.n_first_move_is_best@[i] <= b.n_first_move_is_best@[i]
            && a.n_one_of_first_two_moves_is_best@[i] <= b.n_one_of_first_two_moves_is_best@[i]
}

/// The counts of `a` and `b` added entry by entry, each sum capped at the largest `usize`.
pub open spec fn added(a: [usize; 4], b: [usize; 4], c: [usize; 4]) -> bool {
    forall|i: int|
        0 <= i < 4 ==> #[trigger] c@[i] == if a@[i] + b@[i] <= usize::MAX {
            a@[i] + b@[i]
        } else {
            usize::MAX as int
        }
}

impl DdsStatistics {
    /// Adds the counts of another search; a count that would pass the largest `usize` stays
    /// there.
    pub fn merge(&mut self, other: &Self)
        ensures
            added(old(self).node_count, other.node_count, final(self).node_count),
            added(old(self).n_first_moves, other.n_first_moves, final(self).n_first_moves),
            added(
                old(self).n_first_move_is_best,
                other.n_first_move_is_best,
                final(self).n_first_move_is_best,
            ),
            added(
                old(self).n_one_of_first_two_moves_is_best,
                other.n_one_of_first_two_moves_is_best,
                final(self).n_one_of_first_two_moves_is_best,
            ),
    {
        let mut i: usize = 0;
        while i < 4
            invariant
                0 <= i <= 4,
                forall|j: int|
                    0 <= j < i ==> #[trigger] self.node_count@[j] == (old(self).node_count@[j]).saturating_add(
                        other.node_count@[j],
                    ),
                forall|j: int|
                    0 <= j < i ==> #[trigger] self.n_first_moves@[j] == (old(self).n_first_moves@[j]).saturating_add(
                        other.n_first_moves@[j],
                    ),
                forall|j: int|
                    0 <= j < i ==> #[trigger] self.n_first_move_is_best@[j] == (old(
                        self,
                    ).n_first_move_is_best@[j]).saturating_add(other.n_first_move_is_best@[j]),
                forall|j: int|
                    0 <= j < i ==> #[trigger] self.n_one_of_first_two_moves_is_best@[j] == (old(
                        self,
                    ).n_one_of_first_two_moves_is_best@[j]).saturating_add(
                        other.n_one_of_first_two_moves_is_best@[j],
                    ),
                forall|j: int| i <= j < 4 ==> #[trigger] self.node_count@[j] == old(self).node_count@[j],
                forall|j: int|
                    i <= j < 4 ==> #[trigger] self.n_first_moves@[j] == old(self).n_first_moves@[j],
                forall|j: int|
                    i <= j < 4 ==> #[trigger] self.n_first_move_is_best@[j] == old(
                        self,
                    ).n_first_move_is_best@[j],
                forall|j: int|
                    i <= j < 4 ==> #[trigger] self.n_one_of_first_two_moves_is_best@[j] == old(
                        self,
                    ).n_one_of_first_two_moves_is_best@[j],
            decreases 4 - i,
        {
            self.node_count[i] = self.node_count[i].saturating_add(other.node_count[i]);
            self.n_first_moves[i] = self.n_first_moves[i].saturating_add(other.n_first_moves[i]);
            self.n_first_move_is_best[i] = self.n_first_move_is_best[i].saturating_add(
                other.n_first_move_is_best[i],
            );
            self.n_one_of_first_two_moves_is_best[i] = self.n_one_of_first_two_moves_is_best[i].saturating_add(
                other.n_one_of_first_two_moves_is_best[i],
            );
            i = i + 1;
        }
    }

    /// The number of nodes visited in all. The sum must fit in a `usize`.
    pub fn get_node_count(&self) -> (n: usize)
        requires
            total(self.node_count) <= usize::MAX,
        ensures
            n == total(self.node_count),
    {
        self.node_count[0] + self.node_count[1] + self.node_count[2] + self.node_count[3]
    }

    /// The number of nodes visited per seat on lead.
    pub fn get_node_count_per_position(&self) -> (c: [usize; 4])
        ensures
            c == self.node_count,
    {
        self.node_count
    }
}

impl Default for DdsStatistics {
    fn default() -> (s: Self)
        ensures
            s.node_count@ == seq![0usize, 0, 0, 0],
            s.n_first_moves@ == seq![0usize, 0, 0, 0],
            s.n_first_move_is_best@ == seq![0usize, 0, 0, 0],
            s.n_one_of_first_two_moves_is_best@ == seq![0usize, 0, 0, 0],
    {
        let s = Self {
            node_count: [0; 4],
            n_first_moves: [0; 4],
            n_first_move_is_best: [0; 4],
            n_one_of_first_two_moves_is_best: [0; 4],
        };
        assert(s.node_count@ =~= seq![0usize, 0, 0, 0]);
        assert(s.n_first_moves@ =~= seq![0usize, 0, 0, 0]);
        assert(s.n_first_move_is_best@ =~= seq![0usize, 0, 0, 0]);
        assert(s.n_one_of_first_two_moves_is_best@ =~= seq![0usize, 0, 0, 0]);
        s
    }
}

} // verus!
