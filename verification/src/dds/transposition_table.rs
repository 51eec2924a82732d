//! Bounds on the tricks still to be won from positions already searched, keyed by what
//! determines a position.
use crate::card::Suit;
use crate::deal::PlayerPosition;
use vstd::prelude::*;

verus! {

/// What identifies a position: tricks left, trumps, the player on lead and who holds the cards
/// still in play (one distribution word per suit, Clubs to Spades).
#[derive(Copy, Clone, Debug, PartialEq, Eq, Hash, PartialOrd, Ord)]
pub struct TTKey {
    pub tricks_left: usize,
    pub trumps: Option<Suit>,
    pub lead: PlayerPosition,
    pub remaining_cards: [u32; 4],
}

/// Bounds on the tricks the side on lead wins from a position.
#[derive(Copy, Clone, Debug, PartialEq, Eq, Structural)]
pub struct TTValue {
    pub at_least: usize,
    pub at_most: usize,
}

/// Byte `i` of a word, counting from the most significant (byte 0) to the least (byte 3).
pub open spec fn be_byte(w: u32, i: int) -> u8 {
    ((w >> (8 * (3 - i)) as u32) & 0xffu32) as u8
}

/// The word whose bytes, most significant first, are `b`.
pub open spec fn be_word(b: Seq<u8>) -> u32 {
    ((b[0] as u32) << 24u32) | ((b[1] as u32) << 16u32) | ((b[2] as u32) << 8u32) | (b[3] as u32)
}

/// The bits of the first word of an identifier that the trumps take: none without trumps, else
/// the suit's number plus one.
pub open spec fn trump_bits(trumps: Option<Suit>) -> u32 {
    match trumps {
        None => 0,
        Some(s) => ((s.rank() + 1) as u32) << 20u32,
    }
}

impl TTKey {
    /// The bytes of the remaining-card words regrouped: entry `i` holds byte `i` of each suit's
    /// word (most significant first), Clubs to Spades.
    pub open spec fn mutated(fields: Seq<u32>, i: int, s: int) -> u8 {
        be_byte(fields[s], i)
    }

    /// The first word of the identifier: tricks left (low four bits) at bit 28, the leader at
    /// bit 24, the trumps at bit 20, then the owner of the Ace of Clubs at bit 0 and the top byte
    /// (count and Ace owner) of Diamonds, Hearts and Spades at bits 2, 8 and 14.
    pub open spec fn first_word(self) -> u32 {
        let top = |s: int| be_byte(self.remaining_cards@[s], 0) as u32;
        ((#[verifier::truncate] (self.tricks_left as u32)) << 28u32) | ((self.lead.rank() as u32) << 24u32) | trump_bits(
            self.trumps,
        ) | (top(0) & 3u32) | (top(1) << 2u32) | (top(2) << 8u32) | (top(3) << 14u32)
    }

    /// The key of the given parts.
    pub fn new(
        tricks_left: usize,
        trumps: Option<Suit>,
        lead: PlayerPosition,
        remaining_cards: [u32; 4],
    ) -> (k: Self)
        ensures
            k.tricks_left == tricks_left,
            k.trumps == trumps,
            k.lead == lead,
            k.remaining_cards == remaining_cards,
    {
        Self { tricks_left, trumps, lead, remaining_cards }
    }

    /// Regroups the bytes of four words: entry `i` of the result holds byte `i` of each word,
    /// most significant first.
    pub fn mutate(fields: [u32; 4]) -> (output: [[u8; 4]; 4])
        ensures
            forall|i: int, s: int|
                0 <= i < 4 && 0 <= s < 4 ==> #[trigger] output@[i]@[s] == Self::mutated(
                    fields@,
                    i,
                    s,
                ),
    {
        let mut output = [[0u8; 4]; 4];
        let mut s: usize = 0;
        while s < 4
            invariant
                0 <= s <= 4,
                forall|i: int, t: int|
                    0 <= i < 4 && 0 <= t < s ==> #[trigger] output@[i]@[t] == Self::mutated(
                        fields@,
                        i,
                        t,
                    ),
            decreases 4 - s,
        {
            let word = fields[s];
            let mut i: usize = 0;
            while i < 4
                invariant
                    0 <= s < 4,
                    0 <= i <= 4,
                    word == fields@[s as int],
                    forall|j: int, t: int|
                        0 <= j < 4 && 0 <= t < s ==> #[trigger] output@[j]@[t] == Self::mutated(
                            fields@,
                            j,
                            t,
                        ),
                    forall|j: int| 0 <= j < i ==> #[trigger] output@[j]@[s as int] == Self::mutated(
                        fields@,
                        j,
                        s as int,
                    ),
                decreases 4 - i,
            {
                let shift = (8 * (3 - i)) as u32;
                let byte = ((word >> shift) & 0xffu32) as u8;
                let mut row = output[i];
                row[s] = byte;
                output[i] = row;
                i = i + 1;
            }
            s = s + 1;
        }
        output
    }

    /// Four words identifying the position: the first packs tricks left, leader, trumps and the
    /// top byte of each suit's distribution word (see `first_word`); the others hold bytes 1 to 3
    /// of the four distribution words, Clubs to Spades.
    pub fn calc_id(&self) -> (id: [u32; 4])
        ensures
            id@[0] == self.first_word(),
            forall|i: int|
                1 <= i < 4 ==> #[trigger] id@[i] == be_word(
                    seq![
                        be_byte(self.remaining_cards@[0], i),
                        be_byte(self.remaining_cards@[1], i),
                        be_byte(self.remaining_cards@[2], i),
                        be_byte(self.remaining_cards@[3], i),
                    ],
                ),
    {
        let mut pre_id = 0u32;
        pre_id = pre_id | ((#[verifier::truncate] (self.tricks_left as u32)) << 28u32);
        pre_id = pre_id | ((self.lead.index() as u32) << 24u32);
        match self.trumps {
            Some(trumps) => {
                pre_id = pre_id | ((trumps.index() as u32 + 1) << 20u32);
            },
            None => {},
        }
        let trans_field = Self::mutate(self.remaining_cards);
        pre_id = pre_id | (trans_field[0][0] as u32 & 3u32);
        pre_id = pre_id | ((trans_field[0][1] as u32) << 2u32);
        pre_id = pre_id | ((trans_field[0][2] as u32) << 8u32);
        pre_id = pre_id | ((trans_field[0][3] as u32) << 14u32);
        let mut output = [
            pre_id,
            from_be_bytes(trans_field[1]),
            from_be_bytes(trans_field[2]),
            from_be_bytes(trans_field[3]),
        ];
        proof {
            let a = (#[verifier::truncate] (self.tricks_left as u32)) << 28u32;
            let b = (self.lead.rank() as u32) << 24u32;
            let c = trump_bits(self.trumps);
            assert((0u32 | a) == a) by (bit_vector);
            assert(trans_field@[0]@[0] == Self::mutated(self.remaining_cards@, 0, 0));
            assert(trans_field@[0]@[1] == Self::mutated(self.remaining_cards@, 0, 1));
            assert(trans_field@[0]@[2] == Self::mutated(self.remaining_cards@, 0, 2));
            assert(trans_field@[0]@[3] == Self::mutated(self.remaining_cards@, 0, 3));
            if self.trumps is None {
                assert((a | b) | 0u32 == a | b) by (bit_vector);
            }
            assert forall|i: int| 1 <= i < 4 implies #[trigger] output@[i] == be_word(
                seq![
                    be_byte(self.remaining_cards@[0], i),
                    be_byte(self.remaining_cards@[1], i),
                    be_byte(self.remaining_cards@[2], i),
                    be_byte(self.remaining_cards@[3], i),
                ],
            ) by {
                assert(trans_field@[i]@[0] == Self::mutated(self.remaining_cards@, i, 0));
                assert(trans_field@[i]@[1] == Self::mutated(self.remaining_cards@, i, 1));
                assert(trans_field@[i]@[2] == Self::mutated(self.remaining_cards@, i, 2));
                assert(trans_field@[i]@[3] == Self::mutated(self.remaining_cards@, i, 3));
            }
        }
        output
    }
}

/// The word whose bytes, most significant first, are `bytes`.
fn from_be_bytes(bytes: [u8; 4]) -> (w: u32)
    ensures
        w == be_word(bytes@),
{
    ((bytes[0] as u32) << 24u32) | ((bytes[1] as u32) << 16u32) | ((bytes[2] as u32) << 8u32) | (
    bytes[3] as u32)
}

/// Whether two keys are equal.
fn same_key(a: &TTKey, b: &TTKey) -> (r: bool)
    ensures
        r == (*a == *b),
{
    let same_trumps = match (a.trumps, b.trumps) {
        (None, None) => true,
        (Some(x), Some(y)) => x == y,
        _ => false,
    };
    let r = a.tricks_left == b.tricks_left && same_trumps && a.lead == b.lead
        && a.remaining_cards[0] == b.remaining_cards[0] && a.remaining_cards[1]
        == b.remaining_cards[1] && a.remaining_cards[2] == b.remaining_cards[2]
        && a.remaining_cards[3] == b.remaining_cards[3];
    proof {
        if r {
            assert(a.remaining_cards@ =~= b.remaining_cards@);
            vstd::array::axiom_array_ext_equal(a.remaining_cards, b.remaining_cards);
        }
    }
    r
}

/// The map of a list of entries: a later entry of a key replaces an earlier one.
pub open spec fn entries_map(entries: Seq<(TTKey, TTValue)>) -> Map<TTKey, TTValue>
    decreases entries.len(),
{
    if entries.len() == 0 {
        Map::empty()
    } else {
        entries_map(entries.drop_last()).insert(entries.last().0, entries.last().1)
    }
}

/// No key occurs twice among the entries.
pub open spec fn distinct_keys(entries: Seq<(TTKey, TTValue)>) -> bool {
    forall|i: int, j: int|
        0 <= i < j < entries.len() ==> #[trigger] entries[i].0 != #[trigger] entries[j].0
}

proof fn lemma_entries_map_at(entries: Seq<(TTKey, TTValue)>, i: int)
    requires
        distinct_keys(entries),
        0 <= i < entries.len(),
    ensures
        entries_map(entries).contains_key(entries[i].0),
        entries_map(entries)[entries[i].0] == entries[i].1,
    decreases entries.len(),
{
    if i < entries.len() - 1 {
        lemma_entries_map_at(entries.drop_last(), i);
        assert(entries[i].0 != entries[entries.len() - 1].0);
    }
}

proof fn lemma_entries_map_missing(entries: Seq<(TTKey, TTValue)>, key: TTKey)
    requires
        forall|i: int| 0 <= i < entries.len() ==> #[trigger] entries[i].0 != key,
    ensures
        !entries_map(entries).contains_key(key),
    decreases entries.len(),
{
    if entries.len() > 0 {
        lemma_entries_map_missing(entries.drop_last(), key);
        assert(entries[entries.len() - 1].0 != key);
    }
}

proof fn lemma_entries_map_update(entries: Seq<(TTKey, TTValue)>, i: int, v: TTValue)
    requires
        distinct_keys(entries),
        0 <= i < entries.len(),
    ensures
        entries_map(entries.update(i, (entries[i].0, v))) == entries_map(entries).insert(
            entries[i].0,
            v,
        ),
    decreases entries.len(),
{
    let k = entries[i].0;
    let updated = entries.update(i, (k, v));
    let n = entries.len() - 1;
    if i == n {
        assert(updated.drop_last() =~= entries.drop_last());
        assert(entries_map(updated) =~= entries_map(entries).insert(k, v));
    } else {
        lemma_entries_map_update(entries.drop_last(), i, v);
        assert(updated.drop_last() =~= entries.drop_last().update(i, (k, v)));
        assert(entries[n].0 != k);
        assert(entries_map(updated) =~= entries_map(entries).insert(k, v));
    }
}

/// The bounds after a new upper bound: at most `bound`, and no looser than before.
pub open spec fn with_upper_bound(old: Option<TTValue>, bound: usize) -> TTValue {
    match old {
        None => TTValue { at_least: 0, at_most: bound },
        Some(o) => TTValue {
            at_least: o.at_least,
            at_most: if bound < o.at_most {
                bound
            } else {
                o.at_most
            },
        },
    }
}

/// The bounds after a new lower bound: at least `bound`, and no looser than before; a new
/// entry is bounded above by the tricks left.
pub open spec fn with_lower_bound(old: Option<TTValue>, bound: usize, tricks_left: usize) -> TTValue {
    match old {
        None => TTValue { at_least: bound, at_most: tricks_left },
        Some(o) => TTValue {
            at_least: if bound > o.at_least {
                bound
            } else {
                o.at_least
            },
            at_most: o.at_most,
        },
    }
}

/// Updating an entry only ever narrows its bounds, and the new bound holds afterwards.
pub proof fn lemma_bounds_only_tighten(old: TTValue, bound: usize, tricks_left: usize)
    ensures
        with_upper_bound(Some(old), bound).at_least == old.at_least,
        with_upper_bound(Some(old), bound).at_most <= old.at_most,
        with_upper_bound(Some(old), bound).at_most <= bound,
        with_lower_bound(Some(old), bound, tricks_left).at_most == old.at_most,
        with_lower_bound(Some(old), bound, tricks_left).at_least >= old.at_least,
        with_lower_bound(Some(old), bound, tricks_left).at_least >= bound,
{
}

/// The identifier of a key as one number: the four words of `calc_id`, the first one highest.
pub open spec fn key_id(k: TTKey) -> u128 {
    let w = |i: int|
        be_word(
            seq![
                be_byte(k.remaining_cards@[0], i),
                be_byte(k.remaining_cards@[1], i),
                be_byte(k.remaining_cards@[2], i),
                be_byte(k.remaining_cards@[3], i),
            ],
        );
    ((k.first_word() as u128) << 96u128) | ((w(1) as u128) << 64u128) | ((w(2) as u128) << 32u128)
        | (w(3) as u128)
}

impl TTKey {
    /// The identifier of the key as one number, its four words packed, the first one highest.
    pub fn id(&self) -> (n: u128)
        ensures
            n == key_id(*self),
    {
        let id = self.calc_id();
        ((id[0] as u128) << 96u128) | ((id[1] as u128) << 64u128) | ((id[2] as u128) << 32u128) | (
        id[3] as u128)
    }
}

/// Bounds on positions already searched, held in a hash map by the number that identifies the
/// key; the keys sharing a number are listed together.
pub struct TranspositionTable {
    inner: std::collections::HashMap<u128, Vec<(TTKey, TTValue)>>,
}

impl TranspositionTable {
    #[verifier::type_invariant]
    closed spec fn keys_distinct(self) -> bool {
        forall|id: u128| #[trigger] self.inner@.contains_key(id) ==> distinct_keys(self.inner@[id]@)
    }

    /// The list of the keys identified by a number; empty when there is none.
    closed spec fn bucket(self, id: u128) -> Seq<(TTKey, TTValue)> {
        if self.inner@.contains_key(id) {
            self.inner@[id]@
        } else {
            Seq::empty()
        }
    }

    /// The bounds known per position.
    pub closed spec fn view(self) -> Map<TTKey, TTValue> {
        Map::new(
            |k: TTKey| entries_map(self.bucket(key_id(k))).contains_key(k),
            |k: TTKey| entries_map(self.bucket(key_id(k)))[k],
        )
    }

    /// The empty table.
    pub fn new() -> (t: Self)
        ensures
            t@ == Map::<TTKey, TTValue>::empty(),
    {
        let t = Self { inner: std::collections::HashMap::new() };
        proof {
            assert(t@ =~= Map::<TTKey, TTValue>::empty());
        }
        t
    }

    /// Forgets every position.
    pub fn clear(&mut self)
        ensures
            final(self)@ == Map::<TTKey, TTValue>::empty(),
    {
        self.inner = std::collections::HashMap::new();
        proof {
            assert(self@ =~= Map::<TTKey, TTValue>::empty());
        }
    }

    /// The bounds known for a position, if any.
    pub fn lookup(&self, key: &TTKey) -> (r: Option<&TTValue>)
        ensures
            r == (if self@.contains_key(*key) {
                Some(&self@[*key])
            } else {
                None
            }),
    {
        proof {
            use_type_invariant(self);
        }
        let id = key.id();
        match self.inner.get(&id) {
            None => {
                proof {
                    assert(self.bucket(id) =~= Seq::<(TTKey, TTValue)>::empty());
                    lemma_entries_map_missing(self.bucket(id), *key);
                }
                None
            },
            Some(entries) => match position_of(entries, key) {
                Some(i) => {
                    proof {
                        lemma_entries_map_at(entries@, i as int);
                    }
                    Some(&entries[i].1)
                },
                None => {
                    proof {
                        lemma_entries_map_missing(entries@, *key);
                    }
                    None
                },
            },
        }
    }

    fn store(&mut self, key: &TTKey, value: TTValue)
        ensures
            final(self)@ == old(self)@.insert(*key, value),
    {
        proof {
            use_type_invariant(&*self);
        }
        let id = key.id();
        let ghost before = self.bucket(id);
        let mut map = std::collections::HashMap::new();
        std::mem::swap(&mut map, &mut self.inner);
        let taken = map.remove(&id);
        let mut entries = match taken {
            Some(e) => e,
            None => Vec::new(),
        };
        proof {
            assert(entries@ =~= before);
        }
        match position_of(&entries, key) {
            Some(i) => {
                proof {
                    lemma_entries_map_update(entries@, i as int, value);
                }
                entries.set(i, (*key, value));
                proof {
                    assert forall|a: int, b: int|
                        0 <= a < b < entries@.len() implies #[trigger] entries@[a].0
                        != #[trigger] entries@[b].0 by {
                        assert(before[a].0 != before[b].0);
                    }
                }
            },
            None => {
                let ghost list = entries@;
                entries.push((*key, value));
                proof {
                    assert(entries@.drop_last() =~= list);
                }
            },
        }
        let ghost after = entries@;
        map.insert(id, entries);
        proof {
            assert forall|n: u128| #[trigger] map@.contains_key(n) implies distinct_keys(map@[n]@) by {
                if n != id {
                    assert(old(self).inner@.contains_key(n));
                }
            }
        }
        self.inner = map;
        proof {
            assert(self.bucket(id) == after);
            assert(entries_map(after) == entries_map(before).insert(*key, value));
            assert forall|k: TTKey| key_id(k) != id implies #[trigger] self.bucket(key_id(k))
                == old(self).bucket(key_id(k)) by {}
            assert(self@ =~= old(self)@.insert(*key, value));
        }
    }

    /// Records that the side on lead wins at most `bound` tricks from the position.
    pub fn update_upper_bound(&mut self, key: &TTKey, bound: usize)
        ensures
            final(self)@ == old(self)@.insert(
                *key,
                with_upper_bound(
                    if old(self)@.contains_key(*key) {
                        Some(old(self)@[*key])
                    } else {
                        None
                    },
                    bound,
                ),
            ),
    {
        let new = match self.lookup(key) {
            None => TTValue { at_least: 0, at_most: bound },
            Some(old) => TTValue {
                at_least: old.at_least,
                at_most: if bound < old.at_most {
                    bound
                } else {
                    old.at_most
                },
            },
        };
        self.store(key, new);
    }

    /// Records that the side on lead wins at least `bound` tricks from the position.
    pub fn update_lower_bound(&mut self, key: &TTKey, bound: usize)
        ensures
            final(self)@ == old(self)@.insert(
                *key,
                with_lower_bound(
                    if old(self)@.contains_key(*key) {
                        Some(old(self)@[*key])
                    } else {
                        None
                    },
                    bound,
                    key.tricks_left,
                ),
            ),
    {
        let new = match self.lookup(key) {
            None => TTValue { at_least: bound, at_most: key.tricks_left },
            Some(old) => TTValue {
                at_least: if bound > old.at_least {
                    bound
                } else {
                    old.at_least
                },
                at_most: old.at_most,
            },
        };
        self.store(key, new);
    }
}

/// Where a key stands in a list of entries, if it is there.
fn position_of(entries: &Vec<(TTKey, TTValue)>, key: &TTKey) -> (r: Option<usize>)
    ensures
        match r {
            Some(i) => i < entries@.len() && entries@[i as int].0 == *key,
            None => forall|i: int| 0 <= i < entries@.len() ==> #[trigger] entries@[i].0 != *key,
        },
{
    let mut i: usize = 0;
    while i < entries.len()
        invariant
            0 <= i <= entries@.len(),
            forall|j: int| 0 <= j < i ==> #[trigger] entries@[j].0 != *key,
        decreases entries@.len() - i,
    {
        if same_key(&entries[i].0, key) {
            return Some(i);
        }
        i = i + 1;
    }
    None
}

impl Default for TranspositionTable {
    fn default() -> (t: Self)
        ensures
            t@ == Map::<TTKey, TTValue>::empty(),
    {
        Self::new()
    }
}

} // verus!
