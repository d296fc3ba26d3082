use vstd::prelude::*;

verus! {

const DECK_BITS: u64 = 0x1fff_1fff_1fff_1fff;

const CHARGEABLE_BITS: u64 = 0x0400_1000_0200_0100;

const NINES_BITS: u64 = 0x0080_0080_0080_0080;

/// Suit numbers: a card's index is `16 * suit + rank`.
pub const CLUBS: u8 = 0;

pub const DIAMONDS: u8 = 1;

pub const HEARTS: u8 = 2;

pub const SPADES: u8 = 3;

/// Rank numbers, counted from the two.
pub const RANK_NINE: u8 = 7;

pub const RANK_TEN: u8 = 8;

pub const RANK_JACK: u8 = 9;

pub const RANK_QUEEN: u8 = 10;

pub const RANK_ACE: u8 = 12;

/// A card index names a card: 13 ranks in each 16-wide suit lane.
pub open spec fn is_card(c: int) -> bool {
    0 <= c < 64 && c % 16 < 13
}

pub open spec fn suit_of(c: int) -> int {
    c / 16
}

pub open spec fn card_of(suit: int, rank: int) -> int {
    16 * suit + rank
}

/// Bit `k` of a mask.
pub open spec fn bit(b: u64, k: u64) -> bool {
    (b >> k) & 1u64 == 1u64
}

/// The card indices whose bit is set.
pub open spec fn set_of(b: u64) -> Set<int> {
    Set::new(|c: int| is_card(c) && bit(b, c as u64))
}

/// The full 52-card deck.
pub open spec fn deck() -> Set<int> {
    Set::new(|c: int| is_card(c))
}

/// The 13 cards of one suit.
pub open spec fn suit_set(s: int) -> Set<int> {
    Set::new(|c: int| is_card(c) && suit_of(c) == s)
}

pub open spec fn two_of_clubs() -> int {
    card_of(CLUBS as int, 0)
}

pub open spec fn ten_of_clubs() -> int {
    card_of(CLUBS as int, RANK_TEN as int)
}

pub open spec fn jack_of_diamonds() -> int {
    card_of(DIAMONDS as int, RANK_JACK as int)
}

pub open spec fn ace_of_hearts() -> int {
    card_of(HEARTS as int, RANK_ACE as int)
}

pub open spec fn queen_of_spades() -> int {
    card_of(SPADES as int, RANK_QUEEN as int)
}

/// The four cards that may be charged.
pub open spec fn chargeable_set() -> Set<int> {
    set![ten_of_clubs(), jack_of_diamonds(), ace_of_hearts(), queen_of_spades()]
}

pub open spec fn nines_set() -> Set<int> {
    Set::new(|c: int| is_card(c) && c % 16 == RANK_NINE as int)
}

/// The cards that carry points: every heart, the queen of spades and the jack of diamonds.
pub open spec fn points_set() -> Set<int> {
    suit_set(HEARTS as int).insert(queen_of_spades()).insert(jack_of_diamonds())
}

/// The sets of four players, as a sequence.
pub open spec fn views4(a: [Cards; 4]) -> Seq<Set<int>> {
    seq![a[0]@, a[1]@, a[2]@, a[3]@]
}

/// One card, as its index.
#[derive(Clone, Copy, PartialEq, Eq, Structural, Debug)]
pub struct Card(pub(crate) u8);

impl View for Card {
    type V = int;

    open spec fn view(&self) -> int {
        self.index()
    }
}

impl Card {
    /// The card's index.
    pub closed spec fn index(self) -> int {
        self.0 as int
    }

    #[verifier::type_invariant]
    spec fn inv(self) -> bool {
        is_card(self.0 as int)
    }

    pub fn two_clubs() -> (r: Card)
        ensures
            r@ == two_of_clubs(),
    {
        Card(0)
    }

    /// The card of the given suit and rank.
    pub fn new(suit: u8, rank: u8) -> (r: Card)
        requires
            suit < 4,
            rank < 13,
        ensures
            r@ == card_of(suit as int, rank as int),
    {
        Card(16 * suit + rank)
    }

    pub fn rank_index(self) -> (r: u8)
        ensures
            r as int == self@ % 16,
            r < 13,
    {
        proof {
            use_type_invariant(self);
        }
        self.0 % 16
    }

    /// All cards of this card's suit.
    pub fn suit(self) -> (r: Cards)
        ensures
            r@ == suit_set(suit_of(self@)),
            r@.contains(self@),
            is_card(self@),
    {
        proof {
            use_type_invariant(self);
        }
        let lane: u64 = (self.0 / 16) as u64;
        let m: u64 = 0x1fffu64 << (16 * lane);
        proof {
            lemma_lane_mask(lane);
            assert(set_of(m) =~= suit_set(suit_of(self@))) by {
                assert forall|c: int| #[trigger] is_card(c) implies bit(m, c as u64) == (is_card(c)
                    && suit_of(c) == lane) by {
                    lemma_lane_bit(lane, c as u64);
                }
            }
        }
        Cards(m)
    }

    /// The set holding this card alone.
    pub fn as_cards(self) -> (r: Cards)
        ensures
            r@ == set![self@],
            is_card(self@),
    {
        proof {
            use_type_invariant(self);
        }
        let k: u64 = self.0 as u64;
        let m: u64 = 1u64 << k;
        proof {
            assert(set_of(m) =~= set![self@]) by {
                assert forall|c: int| #[trigger] is_card(c) implies bit(m, c as u64) == (c == k) by {
                    lemma_single_bit(k, c as u64);
                }
            }
            lemma_single_valid(k);
        }
        Cards(m)
    }
}

/// A set of cards, one bit per card.
#[derive(Clone, Copy, PartialEq, Eq, Structural, Debug)]
pub struct Cards(pub(crate) u64);

impl View for Cards {
    type V = Set<int>;

    open spec fn view(&self) -> Set<int> {
        set_of(self.mask())
    }
}

proof fn lemma_bit_ops(a: u64, b: u64, k: u64)
    by (bit_vector)
    requires
        k < 64,
    ensures
        bit(a & b, k) == (bit(a, k) && bit(b, k)),
        bit(a | b, k) == (bit(a, k) || bit(b, k)),
        bit(a & !b, k) == (bit(a, k) && !bit(b, k)),
{
}

proof fn lemma_valid_ops(a: u64, b: u64)
    by (bit_vector)
    requires
        a & !DECK_BITS == 0,
    ensures
        (a & b) & !DECK_BITS == 0,
        (a & !b) & !DECK_BITS == 0,
        b & !DECK_BITS == 0 ==> (a | b) & !DECK_BITS == 0,
{
}

proof fn lemma_valid_bit(b: u64, k: u64)
    by (bit_vector)
    requires
        b & !DECK_BITS == 0,
        k < 64,
        bit(b, k),
    ensures
        k % 16 < 13,
{
}

proof fn lemma_lane_mask(lane: u64)
    by (bit_vector)
    requires
        lane < 4,
    ensures
        (0x1fffu64 << (16 * lane)) & !DECK_BITS == 0,
{
}

proof fn lemma_lane_bit(lane: u64, k: u64)
    by (bit_vector)
    requires
        lane < 4,
        k < 64,
    ensures
        bit(0x1fffu64 << (16 * lane), k) == (k % 16 < 13 && k / 16 == lane),
{
}

proof fn lemma_single_bit(k: u64, j: u64)
    by (bit_vector)
    requires
        k < 64,
        j < 64,
    ensures
        bit(1u64 << k, j) == (j == k),
{
}

proof fn lemma_single_valid(k: u64)
    by (bit_vector)
    requires
        k < 64,
        k % 16 < 13,
    ensures
        (1u64 << k) & !DECK_BITS == 0,
{
}

proof fn lemma_const_bits(k: u64)
    by (bit_vector)
    requires
        k < 64,
    ensures
        bit(0u64, k) == false,
        bit(DECK_BITS, k) == (k % 16 < 13),
        bit(CHARGEABLE_BITS, k) == (k == 8 || k == 25 || k == 44 || k == 58),
        bit(NINES_BITS, k) == (k % 16 == 7),
{
}

/// Lifts the per-bit facts to the sets the masks stand for.
pub proof fn lemma_set_ops(a: u64, b: u64)
    ensures
        set_of(a & b) == set_of(a).intersect(set_of(b)),
        set_of(a | b) == set_of(a).union(set_of(b)),
        set_of(a & !b) == set_of(a).difference(set_of(b)),
{
    assert forall|c: int| #[trigger] is_card(c) implies (bit(a & b, c as u64) == (bit(a, c as u64)
        && bit(b, c as u64))) && (bit(a | b, c as u64) == (bit(a, c as u64) || bit(b, c as u64)))
        && (bit(a & !b, c as u64) == (bit(a, c as u64) && !bit(b, c as u64))) by {
        lemma_bit_ops(a, b, c as u64);
    }
    assert(set_of(a & b) =~= set_of(a).intersect(set_of(b)));
    assert(set_of(a | b) =~= set_of(a).union(set_of(b)));
    assert(set_of(a & !b) =~= set_of(a).difference(set_of(b)));
}

/// Every set of cards is finite, and the empty mask is the empty set.
proof fn lemma_set_finite(b: u64)
    ensures
        set_of(b).finite(),
        set_of(b).len() <= 64,
        b & !DECK_BITS == 0 ==> (b == 0 <==> set_of(b) == Set::<int>::empty()),
{
    vstd::set_lib::lemma_int_range(0, 64);
    assert(set_of(b).subset_of(vstd::set_lib::set_int_range(0, 64)));
    vstd::set_lib::lemma_len_subset(set_of(b), vstd::set_lib::set_int_range(0, 64));
    assert forall|c: int| #[trigger] is_card(c) implies !bit(0u64, c as u64) by {
        lemma_const_bits(c as u64);
    }
    assert(set_of(0u64) =~= Set::<int>::empty());
    if b != 0 && b & !DECK_BITS == 0 {
        vstd::std_specs::bits::axiom_u64_leading_zeros(b);
        let k = (63 - vstd::std_specs::bits::u64_leading_zeros(b)) as u64;
        assert((b >> vstd::prelude::sub(63u64, vstd::std_specs::bits::u64_leading_zeros(b) as u64)) & 1u64
            != 0u64);
        assert(((b >> k) & 1u64 != 0u64) ==> bit(b, k)) by (bit_vector);
        lemma_valid_bit(b, k);
        assert(set_of(b).contains(k as int));
    }
}

/// The cards indices set in the mask of up to the first `n` positions.
spec fn set_below(b: u64, n: int) -> Set<int> {
    Set::new(|c: int| 0 <= c < n && is_card(c) && bit(b, c as u64))
}

impl Cards {
    /// The set's mask: bit `16 * suit + rank` stands for that card.
    pub closed spec fn mask(self) -> u64 {
        self.0
    }

    #[verifier::type_invariant]
    spec fn inv(self) -> bool {
        self.0 & !DECK_BITS == 0
    }

    /// Every set of cards is a finite part of the deck.
    pub proof fn lemma_valid(self)
        ensures
            self@.subset_of(deck()),
            self@.finite(),
            self@.len() <= 64,
    {
        lemma_set_finite(self.mask());
    }

    pub fn empty() -> (r: Cards)
        ensures
            r@ == Set::<int>::empty(),
    {
        proof {
            lemma_set_finite(0);
            assert(0u64 & !DECK_BITS == 0) by (bit_vector);
        }
        Cards(0)
    }

    /// The whole deck.
    pub fn all() -> (r: Cards)
        ensures
            r@ == deck(),
    {
        proof {
            assert(DECK_BITS & !DECK_BITS == 0) by (bit_vector);
            assert forall|c: int| #[trigger] is_card(c) implies bit(DECK_BITS, c as u64) == (c % 16
                < 13) by {
                lemma_const_bits(c as u64);
            }
            assert(set_of(DECK_BITS) =~= deck());
        }
        Cards(DECK_BITS)
    }

    fn lane(suit: u8) -> (r: Cards)
        requires
            suit < 4,
        ensures
            r@ == suit_set(suit as int),
    {
        Card::new(suit, 0).suit()
    }

    pub fn clubs() -> (r: Cards)
        ensures
            r@ == suit_set(CLUBS as int),
    {
        Cards::lane(CLUBS)
    }

    pub fn diamonds() -> (r: Cards)
        ensures
            r@ == suit_set(DIAMONDS as int),
    {
        Cards::lane(DIAMONDS)
    }

    pub fn hearts() -> (r: Cards)
        ensures
            r@ == suit_set(HEARTS as int),
    {
        Cards::lane(HEARTS)
    }

    pub fn spades() -> (r: Cards)
        ensures
            r@ == suit_set(SPADES as int),
    {
        Cards::lane(SPADES)
    }

    pub fn chargeable() -> (r: Cards)
        ensures
            r@ == chargeable_set(),
    {
        proof {
            assert(CHARGEABLE_BITS & !DECK_BITS == 0) by (bit_vector);
            assert forall|c: int| #[trigger] is_card(c) implies bit(CHARGEABLE_BITS, c as u64) == (c == 8
                || c == 25 || c == 44 || c == 58) by {
                lemma_const_bits(c as u64);
            }
            assert forall|c: int| #[trigger] chargeable_set().contains(c) == (c == 8 || c == 25
                || c == 44 || c == 58) by {
                assert(ten_of_clubs() == 8 && jack_of_diamonds() == 25 && ace_of_hearts() == 44
                    && queen_of_spades() == 58);
            }
            assert forall|c: int| #[trigger] set_of(CHARGEABLE_BITS).contains(c)
                == chargeable_set().contains(c) by {
                if is_card(c) {
                    lemma_const_bits(c as u64);
                }
            }
            assert(set_of(CHARGEABLE_BITS) =~= chargeable_set());
        }
        Cards(CHARGEABLE_BITS)
    }

    pub fn nines() -> (r: Cards)
        ensures
            r@ == nines_set(),
    {
        proof {
            assert(NINES_BITS & !DECK_BITS == 0) by (bit_vector);
            assert forall|c: int| #[trigger] is_card(c) implies bit(NINES_BITS, c as u64) == (c % 16
                == 7) by {
                lemma_const_bits(c as u64);
            }
            assert(set_of(NINES_BITS) =~= nines_set());
        }
        Cards(NINES_BITS)
    }

    pub fn two_clubs() -> (r: Cards)
        ensures
            r@ == set![two_of_clubs()],
    {
        Card::new(CLUBS, 0).as_cards()
    }

    pub fn ten_clubs() -> (r: Cards)
        ensures
            r@ == set![ten_of_clubs()],
    {
        Card::new(CLUBS, RANK_TEN).as_cards()
    }

    pub fn jack_diamonds() -> (r: Cards)
        ensures
            r@ == set![jack_of_diamonds()],
    {
        Card::new(DIAMONDS, RANK_JACK).as_cards()
    }

    pub fn ace_hearts() -> (r: Cards)
        ensures
            r@ == set![ace_of_hearts()],
    {
        Card::new(HEARTS, RANK_ACE).as_cards()
    }

    pub fn queen_spades() -> (r: Cards)
        ensures
            r@ == set![queen_of_spades()],
    {
        Card::new(SPADES, RANK_QUEEN).as_cards()
    }

    pub fn points() -> (r: Cards)
        ensures
            r@ == points_set(),
    {
        let r = Cards::hearts().union(Cards::queen_spades()).union(Cards::jack_diamonds());
        assert(r@ =~= points_set());
        r
    }

    pub fn union(self, other: Cards) -> (r: Cards)
        ensures
            r@ == self@.union(other@),
    {
        proof {
            use_type_invariant(self);
            use_type_invariant(other);
            lemma_valid_ops(self.0, other.0);
            lemma_set_ops(self.0, other.0);
        }
        Cards(self.0 | other.0)
    }

    pub fn intersection(self, other: Cards) -> (r: Cards)
        ensures
            r@ == self@.intersect(other@),
    {
        proof {
            use_type_invariant(self);
            lemma_valid_ops(self.0, other.0);
            lemma_set_ops(self.0, other.0);
        }
        Cards(self.0 & other.0)
    }

    pub fn difference(self, other: Cards) -> (r: Cards)
        ensures
            r@ == self@.difference(other@),
    {
        proof {
            use_type_invariant(self);
            lemma_valid_ops(self.0, other.0);
            lemma_set_ops(self.0, other.0);
        }
        Cards(self.0 & !other.0)
    }

    /// The set with one more card.
    pub fn with(self, card: Card) -> (r: Cards)
        ensures
            r@ == self@.insert(card@),
    {
        let r = self.union(card.as_cards());
        assert(r@ =~= self@.insert(card@));
        r
    }

    /// The set without the given card.
    pub fn without(self, card: Card) -> (r: Cards)
        ensures
            r@ == self@.remove(card@),
    {
        let r = self.difference(card.as_cards());
        assert(r@ =~= self@.remove(card@));
        r
    }

    pub fn is_empty(self) -> (r: bool)
        ensures
            r == (self@ == Set::<int>::empty()),
    {
        proof {
            use_type_invariant(self);
            lemma_set_finite(self.0);
        }
        self.0 == 0
    }

    /// Whether the two sets share a card.
    pub fn intersects(self, other: Cards) -> (r: bool)
        ensures
            r == !self@.disjoint(other@),
    {
        let both = self.intersection(other);
        let r = !both.is_empty();
        proof {
            if r {
                assert(!(both@ =~= Set::<int>::empty()));
                let c = choose|c: int| both@.contains(c);
                assert(both@.contains(c));
            } else {
                assert forall|c: int| self@.contains(c) implies !other@.contains(c) by {
                    assert(!both@.contains(c));
                }
            }
        }
        r
    }

    pub fn has(self, card: Card) -> (r: bool)
        ensures
            r == self@.contains(card@),
    {
        self.intersects(card.as_cards())
    }

    /// Whether every card of `other` is in this set.
    pub fn contains(self, other: Cards) -> (r: bool)
        ensures
            r == other@.subset_of(self@),
    {
        let rest = other.difference(self);
        let r = rest.is_empty();
        proof {
            if !r {
                assert(!(rest@ =~= Set::<int>::empty()));
                let c = choose|c: int| rest@.contains(c);
                assert(rest@.contains(c));
            } else {
                assert forall|c: int| other@.contains(c) implies self@.contains(c) by {
                    assert(!rest@.contains(c));
                }
            }
        }
        r
    }

    /// The number of cards in the set.
    pub fn len(self) -> (r: u32)
        ensures
            r as int == self@.len(),
            r <= 64,
    {
        proof {
            use_type_invariant(self);
        }
        let mut n: u32 = 0;
        let mut i: u64 = 0;
        proof {
            assert(set_below(self.0, 0) =~= Set::<int>::empty());
        }
        while i < 64
            invariant
                i <= 64,
                self.0 & !DECK_BITS == 0,
                n as int == set_below(self.0, i as int).len(),
                set_below(self.0, i as int).finite(),
                n <= i,
            decreases 64 - i,
        {
            proof {
                if bit(self.0, i) {
                    lemma_valid_bit(self.0, i);
                    assert(set_below(self.0, i + 1) =~= set_below(self.0, i as int).insert(
                        i as int,
                    ));
                } else {
                    assert(set_below(self.0, i + 1) =~= set_below(self.0, i as int));
                }
            }
            if (self.0 >> i) & 1 == 1 {
                n = n + 1;
            }
            i = i + 1;
        }
        assert(set_below(self.0, 64) =~= self@);
        n
    }

    /// The highest card of a non-empty set.
    pub fn max(self) -> (r: Card)
        requires
            self@ != Set::<int>::empty(),
        ensures
            self@.contains(r@),
            forall|c: int| self@.contains(c) ==> c <= r@,
    {
        proof {
            use_type_invariant(self);
            lemma_set_finite(self.0);
            vstd::std_specs::bits::axiom_u64_leading_zeros(self.0);
        }
        let b: u64 = self.0;
        let lz = b.leading_zeros();
        let k: u64 = 63 - lz as u64;
        proof {
            assert((b >> vstd::prelude::sub(63u64, lz as u64)) & 1u64 != 0u64);
            assert(((b >> k) & 1u64 != 0u64) ==> bit(b, k)) by (bit_vector);
            lemma_valid_bit(b, k);
            assert forall|c: int| self@.contains(c) implies c <= k by {
                if c > k {
                    assert((b >> (c as u64)) & 1u64 == 0u64);
                }
            }
        }
        Card(k as u8)
    }

    /// The suit of the set: the first of spades, hearts, diamonds and clubs that it meets,
    /// or the empty set.
    pub fn suit(self) -> (r: Cards)
        ensures
            r@ == (if !self@.disjoint(suit_set(SPADES as int)) {
                suit_set(SPADES as int)
            } else if !self@.disjoint(suit_set(HEARTS as int)) {
                suit_set(HEARTS as int)
            } else if !self@.disjoint(suit_set(DIAMONDS as int)) {
                suit_set(DIAMONDS as int)
            } else if !self@.disjoint(suit_set(CLUBS as int)) {
                suit_set(CLUBS as int)
            } else {
                Set::<int>::empty()
            }),
    {
        let mut s: u8 = 4;
        while s > 0
            invariant
                s <= 4,
                forall|t: int| s <= t < 4 ==> self@.disjoint(suit_set(t)),
            decreases s,
        {
            let lane = Cards::lane(s - 1);
            if self.intersects(lane) {
                return lane;
            }
            s = s - 1;
        }
        Cards::empty()
    }
}

} // verus!
