//! Which techniques the search uses.
use vstd::prelude::*;

verus! {

/// Switches for the techniques of the search.
#[derive(Clone, Copy, Debug, PartialEq, Eq, Structural)]
pub struct DdsConfig {
    pub move_ordering: bool,
    pub check_quick_tricks: bool,
    pub quick_tricks_in_second_hand: bool,
    pub use_transposition_table: bool,
    pub check_losing_tricks: bool,
    pub pre_estimate: bool,
    pub multi_threading: bool,
}

impl DdsConfig {
    /// The search tries the moves themselves: no transposition table, no quick tricks and no
    /// losing tricks cut it short.
    pub open spec fn exhaustive(self) -> bool {
        &&& !self.use_transposition_table
        &&& !self.check_quick_tricks
        &&& !self.quick_tricks_in_second_hand
        &&& !self.check_losing_tricks
    }
}

impl Default for DdsConfig {
    /// Everything on but the estimate before the search.
    fn default() -> (c: Self)
        ensures
            c == (DdsConfig {
                move_ordering: true,
                check_quick_tricks: true,
                quick_tricks_in_second_hand: true,
                use_transposition_table: true,
                check_losing_tricks: true,
                pre_estimate: false,
                multi_threading: true,
            }),
    {
        Self {
            move_ordering: true,
            check_quick_tricks: true,
            quick_tricks_in_second_hand: true,
            use_transposition_table: true,
            check_losing_tricks: true,
            pre_estimate: false,
            multi_threading: true,
        }
    }
}

} // verus!
