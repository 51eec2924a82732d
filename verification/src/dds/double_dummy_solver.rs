//! The double dummy table of a deal: for each strain and each declarer, the tricks declarer
//! takes with every card seen and best play on both sides.
use crate::card::Suit;
use crate::dds::card_tracker::CardTracker;
use crate::dds::dds_config::DdsConfig;
use crate::dds::dds_statistics::{added, DdsStatistics};
use crate::dds::double_dummy_result::{entry_of, DoubleDummyResult, Strain};
use crate::dds::double_dummy_runner::{deal_start, valid_hands, DoubleDummyRunner};
use crate::dds::perfect_play::value;
use crate::dds::double_dummy_state::hand_size;
use crate::deal::PlayerPosition;
use vstd::prelude::*;

verus! {

/// The strain solved in place `i`: no trumps, then Spades down to Clubs.
pub open spec fn strain_spec(i: int) -> Strain {
    if i == 0 {
        Strain::NoTrump
    } else {
        Strain::Trump(Suit::of_rank((4 - i) as u8))
    }
}

/// The tricks declarer takes in the strain when every seat, seeing all the cards, plays as well
/// as it can: those the opening leader's side does not take.
pub open spec fn declarer_tricks(hands: [CardTracker; 4], declarer: PlayerPosition, strain: Strain) -> int {
    hand_size(hands@[0]) - value(deal_start(hands, strain, declarer.turned(1)))
}

/// Two tables that each give, in every entry, the tricks declarer takes with perfect play are
/// one table: solving the strains one after another or side by side gives the same answer.
pub proof fn lemma_perfect_tables_agree(
    a: DoubleDummyResult,
    b: DoubleDummyResult,
    hands: [CardTracker; 4],
)
    requires
        forall|d: PlayerPosition, s: Strain|
            #[trigger] a.max_tricks@[entry_of(d, s)] == declarer_tricks(hands, d, s),
        forall|d: PlayerPosition, s: Strain|
            #[trigger] b.max_tricks@[entry_of(d, s)] == declarer_tricks(hands, d, s),
    ensures
        a.max_tricks == b.max_tricks,
{
    assert forall|i: int| 0 <= i < 20 implies a.max_tricks@[i] == b.max_tricks@[i] by {
        let d = PlayerPosition::of_rank((i / 5) as u8);
        let s = if i % 5 == 4 {
            Strain::NoTrump
        } else {
            Strain::Trump(Suit::of_rank((i % 5) as u8))
        };
        assert(d.rank() == i / 5);
        assert(entry_of(d, s) == i);
        assert(a.max_tricks@[entry_of(d, s)] == b.max_tricks@[entry_of(d, s)]);
    }
    assert(a.max_tricks@ =~= b.max_tricks@);
    vstd::array::axiom_array_ext_equal(a.max_tricks, b.max_tricks);
}

/// Every strain is solved in one of the five places.
proof fn lemma_every_strain(s: Strain)
    ensures
        exists|i: int| 0 <= i < 5 && strain_spec(i) == s,
{
    match s {
        Strain::NoTrump => {
            assert(strain_spec(0) == s);
        },
        Strain::Trump(t) => {
            crate::card::lemma_suit_rank_bijection(t, 0);
            assert(strain_spec(4 - t.rank()) == s);
        },
    }
}

/// Once every declarer of strain `i` is entered, the strains up to `i` are done.
proof fn lemma_strain_done(hands: [CardTracker; 4], table: Seq<usize>, i: int, exhaustive: bool)
    requires
        0 <= i < 5,
        exhaustive ==> forall|j: int, p: PlayerPosition|
            0 <= j < i ==> #[trigger] table[entry_of(p, strain_spec(j))] == declarer_tricks(
                hands,
                p,
                strain_spec(j),
            ),
        exhaustive ==> forall|k: int|
            0 <= k < 4 ==> #[trigger] table[entry_of(PlayerPosition::of_rank(k as u8), strain_spec(i))]
                == declarer_tricks(hands, PlayerPosition::of_rank(k as u8), strain_spec(i)),
    ensures
        exhaustive ==> forall|j: int, p: PlayerPosition|
            0 <= j < i + 1 ==> #[trigger] table[entry_of(p, strain_spec(j))] == declarer_tricks(
                hands,
                p,
                strain_spec(j),
            ),
{
    if exhaustive {
        assert forall|j: int, p: PlayerPosition| 0 <= j < i + 1 implies #[trigger] table[entry_of(
            p,
            strain_spec(j),
        )] == declarer_tricks(hands, p, strain_spec(j)) by {
            if j == i {
                assert(PlayerPosition::of_rank(p.rank()) == p);
                assert(table[entry_of(PlayerPosition::of_rank(p.rank() as u8), strain_spec(i))]
                    == declarer_tricks(hands, PlayerPosition::of_rank(p.rank() as u8), strain_spec(i)));
            }
        }
    }
}

/// With all five strains done, every entry of the table is done.
proof fn lemma_table_done(hands: [CardTracker; 4], table: Seq<usize>)
    requires
        forall|j: int, p: PlayerPosition|
            0 <= j < 5 ==> #[trigger] table[entry_of(p, strain_spec(j))] == declarer_tricks(
                hands,
                p,
                strain_spec(j),
            ),
    ensures
        forall|d: PlayerPosition, s: Strain|
            #[trigger] table[entry_of(d, s)] == declarer_tricks(hands, d, s),
{
    assert forall|d: PlayerPosition, s: Strain| #[trigger] table[entry_of(d, s)] == declarer_tricks(
        hands,
        d,
        s,
    ) by {
        lemma_every_strain(s);
        let j = choose|j: int| 0 <= j < 5 && strain_spec(j) == s;
        assert(table[entry_of(d, strain_spec(j))] == declarer_tricks(hands, d, strain_spec(j)));
    }
}

/// The five strains in the order they are solved: no trumps, then Spades down to Clubs.
pub fn strain_at(i: usize) -> (s: Strain)
    requires
        i < 5,
    ensures
        i == 0 ==> s == Strain::NoTrump,
        i > 0 ==> s == Strain::Trump(Suit::of_rank((4 - i) as u8)),
        s == strain_spec(i as int),
{
    if i == 0 {
        Strain::NoTrump
    } else {
        Strain::Trump(Suit::from_index((4 - i) as u8))
    }
}

/// Solves whole deals with a configuration, keeping the counts of the last deal solved.
pub struct DoubleDummySolver {
    config: DdsConfig,
    statistics: DdsStatistics,
}

impl DoubleDummySolver {
    /// The techniques the searches use.
    pub closed spec fn settings(self) -> DdsConfig {
        self.config
    }

    /// The counts gathered.
    pub closed spec fn counts(self) -> DdsStatistics {
        self.statistics
    }

    /// A solver with the given techniques and no counts.
    pub fn new(config: DdsConfig) -> (s: Self)
        ensures
            s.settings() == config,
    {
        Self { config, statistics: DdsStatistics::default() }
    }

    /// A search with the solver's techniques.
    pub fn new_runner(&self) -> (r: DoubleDummyRunner)
        ensures
            r.settings() == self.settings(),
            r.wf(),
            r.cached_key() is None,
    {
        DoubleDummyRunner::with_config(self.config)
    }

    /// The double dummy table of the hands: in every entry, the tricks the declarer takes in the
    /// strain; no entry above the number of tricks of the deal. Searching without shortcuts (no
    /// table of bounds, no quick or losing tricks), each entry is what declarer takes when every
    /// seat, seeing all the cards, plays as well as it can. With the shortcuts the table can
    /// differ: the quick-trick estimate counts the winners of the side on lead suit by suit and
    /// can miss that a singleton winner blocks the partner's winners of that suit.
    pub fn solve(&mut self, hands: [CardTracker; 4]) -> (r: DoubleDummyResult)
        requires
            valid_hands(hands, hand_size(hands@[0])),
        ensures
            forall|i: int| 0 <= i < 20 ==> #[trigger] r.max_tricks@[i] <= hand_size(hands@[0]),
            final(self).settings() == old(self).settings(),
            old(self).settings().exhaustive() ==> forall|d: PlayerPosition, s: Strain|
                #[trigger] r.max_tricks@[entry_of(d, s)] == declarer_tricks(hands, d, s),
    {
        if self.config.multi_threading {
            self.solve_multi_threaded(hands)
        } else {
            self.solve_single_threaded(hands)
        }
    }

    /// The table, one search per strain asking for each declarer in turn.
    pub fn solve_single_threaded(&mut self, hands: [CardTracker; 4]) -> (r: DoubleDummyResult)
        requires
            valid_hands(hands, hand_size(hands@[0])),
        ensures
            forall|i: int| 0 <= i < 20 ==> #[trigger] r.max_tricks@[i] <= hand_size(hands@[0]),
            final(self).settings() == old(self).settings(),
            old(self).settings().exhaustive() ==> forall|d: PlayerPosition, s: Strain|
                #[trigger] r.max_tricks@[entry_of(d, s)] == declarer_tricks(hands, d, s),
    {
        self.reset_statistics();
        let n = hands[0].count_cards();
        let mut result = DoubleDummyResult::new();
        let mut i: usize = 0;
        while i < 5
            invariant
                0 <= i <= 5,
                n == hand_size(hands@[0]),
                valid_hands(hands, hand_size(hands@[0])),
                self.settings() == old(self).settings(),
                forall|j: int| 0 <= j < 20 ==> #[trigger] result.max_tricks@[j] <= n,
                self.settings().exhaustive() ==> forall|j: int, p: PlayerPosition|
                    0 <= j < i ==> #[trigger] result.max_tricks@[entry_of(p, strain_spec(j))]
                        == declarer_tricks(hands, p, strain_spec(j)),
            decreases 5 - i,
        {
            let strain = strain_at(i);
            let mut strain_runner = self.new_runner();
            let mut d: u8 = 0;
            while d < 4
                invariant
                    0 <= d <= 4,
                    n == hand_size(hands@[0]),
                    valid_hands(hands, hand_size(hands@[0])),
                    self.settings() == old(self).settings(),
                    strain_runner.wf(),
                    strain_runner.cached_key() is None,
                    strain_runner.settings() == self.settings(),
                    forall|j: int| 0 <= j < 20 ==> #[trigger] result.max_tricks@[j] <= n,
                    strain == strain_spec(i as int),
                    i < 5,
                    self.settings().exhaustive() ==> forall|j: int, p: PlayerPosition|
                        0 <= j < i ==> #[trigger] result.max_tricks@[entry_of(p, strain_spec(j))]
                            == declarer_tricks(hands, p, strain_spec(j)),
                    self.settings().exhaustive() ==> forall|k: int|
                        0 <= k < d ==> #[trigger] result.max_tricks@[entry_of(
                            PlayerPosition::of_rank(k as u8),
                            strain,
                        )] == declarer_tricks(hands, PlayerPosition::of_rank(k as u8), strain),
                decreases 4 - d,
            {
                let declarer = PlayerPosition::from_index(d);
                let opening_leader = declarer.after(1);
                let defenders_tricks = strain_runner.solve_initial_position(
                    hands,
                    strain,
                    opening_leader,
                );
                let ghost before = result.max_tricks@;
                result.set_tricks_for_declarer_in_strain(n - defenders_tricks, declarer, strain);
                proof {
                    assert forall|j: int| 0 <= j < 20 implies #[trigger] result.max_tricks@[j] <= n by {
                        if j != entry_of(declarer, strain) {
                            assert(result.max_tricks@[j] == before[j]);
                        }
                    }
                }
                self.update_statistics(&strain_runner.get_statistics());
                d = d + 1;
            }
            proof {
                lemma_strain_done(hands, result.max_tricks@, i as int, self.settings().exhaustive());
            }
            i = i + 1;
        }
        proof {
            if self.settings().exhaustive() {
                lemma_table_done(hands, result.max_tricks@);
            }
        }
        result
    }

    /// The table, one search per strain asking for all declarers at once; the strains are
    /// solved one after the other and the counts of each search added once.
    pub fn solve_multi_threaded(&mut self, hands: [CardTracker; 4]) -> (r: DoubleDummyResult)
        requires
            valid_hands(hands, hand_size(hands@[0])),
        ensures
            forall|i: int| 0 <= i < 20 ==> #[trigger] r.max_tricks@[i] <= hand_size(hands@[0]),
            final(self).settings() == old(self).settings(),
            old(self).settings().exhaustive() ==> forall|d: PlayerPosition, s: Strain|
                #[trigger] r.max_tricks@[entry_of(d, s)] == declarer_tricks(hands, d, s),
    {
        self.reset_statistics();
        let n = hands[0].count_cards();
        let mut result = DoubleDummyResult::new();
        let mut i: usize = 0;
        while i < 5
            invariant
                0 <= i <= 5,
                n == hand_size(hands@[0]),
                valid_hands(hands, hand_size(hands@[0])),
                self.settings() == old(self).settings(),
                forall|j: int| 0 <= j < 20 ==> #[trigger] result.max_tricks@[j] <= n,
                self.settings().exhaustive() ==> forall|j: int, p: PlayerPosition|
                    0 <= j < i ==> #[trigger] result.max_tricks@[entry_of(p, strain_spec(j))]
                        == declarer_tricks(hands, p, strain_spec(j)),
            decreases 5 - i,
        {
            let strain = strain_at(i);
            let mut strain_runner = DoubleDummyRunner::with_config(self.config);
            let sub_results = strain_runner.solve_for_all_declarers(hands, strain);
            let statistics = strain_runner.get_statistics();
            let mut d: u8 = 0;
            while d < 4
                invariant
                    0 <= d <= 4,
                    forall|k: int| 0 <= k < 4 ==> #[trigger] sub_results@[k] <= n,
                    forall|j: int| 0 <= j < 20 ==> #[trigger] result.max_tricks@[j] <= n,
                    n == hand_size(hands@[0]),
                    strain == strain_spec(i as int),
                    i < 5,
                    self.settings().exhaustive() ==> forall|k: int|
                        0 <= k < 4 ==> #[trigger] sub_results@[k] == n - value(
                            deal_start(hands, strain, PlayerPosition::of_rank(k as u8).turned(1)),
                        ),
                    self.settings().exhaustive() ==> forall|j: int, p: PlayerPosition|
                        0 <= j < i ==> #[trigger] result.max_tricks@[entry_of(p, strain_spec(j))]
                            == declarer_tricks(hands, p, strain_spec(j)),
                    self.settings().exhaustive() ==> forall|k: int|
                        0 <= k < d ==> #[trigger] result.max_tricks@[entry_of(
                            PlayerPosition::of_rank(k as u8),
                            strain,
                        )] == declarer_tricks(hands, PlayerPosition::of_rank(k as u8), strain),
                decreases 4 - d,
            {
                let declarer = PlayerPosition::from_index(d);
                let ghost before = result.max_tricks@;
                result.set_tricks_for_declarer_in_strain(sub_results[d as usize], declarer, strain);
                proof {
                    assert forall|j: int| 0 <= j < 20 implies #[trigger] result.max_tricks@[j] <= n by {
                        if j != entry_of(declarer, strain) {
                            assert(result.max_tricks@[j] == before[j]);
                        }
                    }
                }
                d = d + 1;
            }
            proof {
                lemma_strain_done(hands, result.max_tricks@, i as int, self.settings().exhaustive());
            }
            self.update_statistics(&statistics);
            i = i + 1;
        }
        proof {
            if self.settings().exhaustive() {
                lemma_table_done(hands, result.max_tricks@);
            }
        }
        result
    }

    /// Forgets the counts.
    fn reset_statistics(&mut self)
        ensures
            final(self).settings() == old(self).settings(),
            final(self).counts().node_count@ == seq![0usize, 0, 0, 0],
            final(self).counts().n_first_moves@ == seq![0usize, 0, 0, 0],
            final(self).counts().n_first_move_is_best@ == seq![0usize, 0, 0, 0],
            final(self).counts().n_one_of_first_two_moves_is_best@ == seq![0usize, 0, 0, 0],
    {
        self.statistics = DdsStatistics::default();
    }

    /// Adds the counts of a search.
    fn update_statistics(&mut self, new: &DdsStatistics)
        ensures
            final(self).settings() == old(self).settings(),
            added(old(self).counts().node_count, new.node_count, final(self).counts().node_count),
    {
        self.statistics.merge(new);
    }

    /// The counts gathered.
    pub fn get_statistics(&self) -> (s: DdsStatistics)
        ensures
            s == self.counts(),
    {
        self.statistics
    }
}

impl Default for DoubleDummySolver {
    /// A solver with the default techniques.
    fn default() -> (s: Self)
        ensures
            s.settings() == (DdsConfig {
                move_ordering: true,
                check_quick_tricks: true,
                quick_tricks_in_second_hand: true,
                use_transposition_table: true,
                check_losing_tricks: true,
                pre_estimate: false,
                multi_threading: true,
            }),
    {
        Self::new(DdsConfig::default())
    }
}

} // verus!
