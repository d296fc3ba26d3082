use vstd::prelude::*;

use crate::cards::{
    ace_of_hearts, card_of, chargeable_set, is_card, jack_of_diamonds, nines_set, points_set,
    queen_of_spades, suit_of, suit_set, ten_of_clubs, two_of_clubs, Card, Cards, HEARTS,
    RANK_NINE,
};

verus! {

/// Whether two sets of cards share a card.
pub open spec fn meets(a: Set<int>, b: Set<int>) -> bool {
    !a.disjoint(b)
}

/// The cards a player may lead: hearts stay in hand until broken (unless the hand holds
/// nothing else), and a charged card may not open its suit while any other card can be led.
pub open spec fn lead_set(plays: Set<int>, charged: Set<int>, led: Set<int>, hearts_broken: bool) -> Set<int> {
    let p = if !hearts_broken && !plays.subset_of(suit_set(HEARTS as int)) {
        plays.difference(suit_set(HEARTS as int))
    } else {
        plays
    };
    let held_back = chargeable_set().intersect(charged);
    if !p.subset_of(held_back) {
        p.difference(held_back.difference(led))
    } else {
        p
    }
}

/// The cards a player may play to a trick led by `lead`: the led suit must be followed, and
/// the first time a suit is led its charged card is kept back unless it is the only one.
pub open spec fn follow_set(plays: Set<int>, charged: Set<int>, led: Set<int>, lead: int) -> Set<int> {
    let suit = suit_set(suit_of(lead));
    if meets(plays, suit) {
        let q = plays.intersect(suit);
        if led.disjoint(suit) && q.len() > 1 {
            q.difference(charged.intersect(suit))
        } else {
            q
        }
    } else {
        plays
    }
}

/// The legal plays from `hand`. `led` holds every card of each suit led so far, so it is
/// empty on the first trick.
pub open spec fn legal_set(
    hand: Set<int>,
    charged: Set<int>,
    led: Set<int>,
    lead: Option<int>,
    hearts_broken: bool,
) -> Set<int> {
    let first = led == Set::<int>::empty();
    if first && hand.contains(two_of_clubs()) {
        set![two_of_clubs()]
    } else if first && hand.subset_of(points_set()) && hand.contains(jack_of_diamonds()) {
        set![jack_of_diamonds()]
    } else if first && hand.subset_of(points_set()) && hand.contains(queen_of_spades()) {
        set![queen_of_spades()]
    } else {
        let plays = if first && !hand.subset_of(points_set()) {
            hand.difference(points_set())
        } else {
            hand
        };
        match lead {
            None => lead_set(plays, charged, led, hearts_broken),
            Some(l) => follow_set(plays, charged, led, l),
        }
    }
}

/// The cards that never merge with their neighbours.
pub open spec fn special_set(charged: Set<int>) -> Set<int> {
    nines_set().union(set![queen_of_spades(), jack_of_diamonds(), ten_of_clubs()]).union(
        charged.intersect(set![ace_of_hearts()]),
    )
}

/// Whether the card of `suit` and `rank` sits just under a run that a mergeable candidate
/// tops: the card above it is such a candidate, or is accounted for and itself covered.
pub open spec fn covered(free: Set<int>, accounted: Set<int>, suit: int, rank: int) -> bool
    decreases 12 - rank,
{
    if rank >= 12 || rank < 0 {
        false
    } else {
        free.contains(card_of(suit, rank + 1)) || (accounted.contains(card_of(suit, rank + 1))
            && covered(free, accounted, suit, rank + 1))
    }
}

/// The plays kept after merging equivalent candidates: every special candidate, and every
/// other candidate that no higher candidate of its suit covers.
pub open spec fn distinct_set(plays: Set<int>, played: Set<int>, charged: Set<int>) -> Set<int> {
    let special = special_set(charged);
    let free = plays.difference(special);
    plays.intersect(special).union(
        free.filter(|c: int| !covered(free, played, suit_of(c), c % 16)),
    )
}

/// The part of a set that lies in suits below `suit`, or in `suit` at `rank` or above.
pub open spec fn scanned(s: Set<int>, suit: int, rank: int) -> Set<int> {
    s.filter(|c: int| suit_of(c) < suit || (suit_of(c) == suit && c % 16 >= rank))
}

/// Whether `w` is the highest card of `s`.
pub open spec fn is_top(s: Set<int>, w: int) -> bool {
    s.contains(w) && forall|c: int| s.contains(c) ==> c <= w
}

/// The card that wins a trick led by `lead`: the highest card of the suit led.
pub open spec fn winner_of(trick: Set<int>, lead: int) -> int {
    choose|w: int| is_top(trick.intersect(suit_set(suit_of(lead))), w)
}

/// Whether a nine holds the trick: the nine of the suit led is its highest card of that suit.
pub open spec fn nined_of(trick: Set<int>, lead: int) -> bool {
    is_top(trick.intersect(suit_set(suit_of(lead))), card_of(suit_of(lead), RANK_NINE as int))
}

/// The card that wins a trick: the highest card of the suit led.
pub fn trick_winner(trick: Cards, lead: Card) -> (r: Card)
    requires
        trick@.contains(lead@),
    ensures
        is_top(trick@.intersect(suit_set(suit_of(lead@))), r@),
        r@ == winner_of(trick@, lead@),
{
    let s = trick.intersection(lead.suit());
    assert(s@.contains(lead@));
    let r = s.max();
    proof {
        let w = winner_of(trick@, lead@);
        assert(is_top(s@, r@));
        assert(is_top(s@, w));
        assert(w <= r@ && r@ <= w);
    }
    r
}

/// The card that leads a trick, as an index.
pub open spec fn lead_of(lead: Option<Card>) -> Option<int> {
    match lead {
        Some(c) => Some(c@),
        None => None,
    }
}

/// Whether the trick is held by a nine: the nine of the suit led is in the trick and no
/// higher card of that suit is.
pub fn is_nined(trick: Cards, lead: Card) -> (r: bool)
    requires
        trick@.contains(lead@),
    ensures
        r == nined_of(trick@, lead@),
{
    let w = trick_winner(trick, lead);
    let suit = lead.suit();
    let r = w.rank_index() == RANK_NINE;
    proof {
        let n = card_of(suit_of(lead@), RANK_NINE as int);
        let s = trick@.intersect(suit_set(suit_of(lead@)));
        assert(s.contains(w@));
        if r {
            assert(w@ == n);
        }
        if trick@.contains(n) {
            assert(is_card(n));
            assert(s.contains(n));
            if forall|c: int| s.contains(c) ==> c <= n {
                assert(w@ == n);
            }
        }
    }
    r
}

/// The cards that `hand` may play, given the charged cards, the suits led so far (as the
/// union of their cards), the card that led the trick (none when leading) and whether
/// hearts are broken.
pub fn legal_plays(
    hand: Cards,
    charged: Cards,
    led_suits: Cards,
    lead: Option<Card>,
    hearts_broken: bool,
) -> (r: Cards)
    ensures
        r@ == legal_set(hand@, charged@, led_suits@, lead_of(lead), hearts_broken),
        r@.subset_of(hand@),
{
    let mut plays = hand;
    if led_suits.is_empty() {
        if plays.intersects(Cards::two_clubs()) {
            return Cards::two_clubs();
        }
        let points = Cards::points();
        if !points.contains(plays) {
            plays = plays.difference(points);
        } else if plays.intersects(Cards::jack_diamonds()) {
            return Cards::jack_diamonds();
        } else if plays.intersects(Cards::queen_spades()) {
            return Cards::queen_spades();
        }
    }
    match lead {
        None => {
            let hearts = Cards::hearts();
            if !hearts_broken && !hearts.contains(plays) {
                plays = plays.difference(hearts);
            }
            let held_back = Cards::chargeable().intersection(charged);
            if !held_back.contains(plays) {
                plays = plays.difference(held_back.difference(led_suits));
            }
        },
        Some(l) => {
            let suit = l.suit();
            if plays.intersects(suit) {
                plays = plays.intersection(suit);
                if !led_suits.intersects(suit) && plays.len() > 1 {
                    plays = plays.difference(charged.intersection(suit));
                }
            }
        },
    }
    plays
}

/// Removes from `plays` every card that takes tricks and scores exactly as a higher card
/// of `plays` does: within a suit, a candidate merges into the next higher one when all
/// cards between them are candidates or in `played`. Nines, the queen of spades, the jack
/// of diamonds, the ten of clubs and a charged ace of hearts never merge, and a run never
/// reaches across one of them that has not been played.
pub fn distinct_plays(plays: Cards, played: Cards, charged: Cards) -> (r: Cards)
    ensures
        r@ == distinct_set(plays@, played@, charged@),
        r@.subset_of(plays@),
{
    let special = Cards::nines().union(Cards::queen_spades()).union(Cards::jack_diamonds()).union(
        Cards::ten_clubs(),
    ).union(charged.intersection(Cards::ace_hearts()));
    assert(special@ =~= special_set(charged@));
    let free = plays.difference(special);
    let ghost target = distinct_set(plays@, played@, charged@);
    proof {
        plays.lemma_valid();
    }
    let mut r = Cards::empty();
    let mut suit: u8 = 0;
    assert(r@ =~= scanned(target, 0, 13));
    while suit < 4
        invariant
            suit <= 4,
            plays@.subset_of(crate::cards::deck()),
            special@ == special_set(charged@),
            free@ == plays@.difference(special@),
            target == distinct_set(plays@, played@, charged@),
            r@ == scanned(target, suit as int, 13),
        decreases 4 - suit,
    {
        let mut rank: u8 = 13;
        let mut cov = false;
        while rank > 0
            invariant
                suit < 4,
                rank <= 13,
                plays@.subset_of(crate::cards::deck()),
                special@ == special_set(charged@),
                free@ == plays@.difference(special@),
                target == distinct_set(plays@, played@, charged@),
                r@ == scanned(target, suit as int, rank as int),
                rank > 0 ==> cov == covered(free@, played@, suit as int, rank - 1),
            decreases rank,
        {
            rank = rank - 1;
            let card = Card::new(suit, rank);
            let keep = if special.has(card) {
                plays.has(card)
            } else {
                free.has(card) && !cov
            };
            proof {
                assert(suit_of(card@) == suit && card@ % 16 == rank);
                assert(keep == target.contains(card@));
            }
            let next = if keep {
                r.with(card)
            } else {
                r
            };
            proof {
                assert(next@ =~= scanned(target, suit as int, rank as int));
            }
            r = next;
            cov = free.has(card) || (played.has(card) && cov);
        }
        proof {
            assert(scanned(target, suit as int, 0) =~= scanned(target, suit + 1, 13));
        }
        suit = suit + 1;
    }
    proof {
        assert(scanned(target, 4, 13) =~= target);
    }
    r
}

/// A set of cards below `n` that is not empty has a highest card.
proof fn lemma_top(s: Set<int>, n: int) -> (m: int)
    requires
        0 <= n,
        forall|c: int| s.contains(c) ==> 0 <= c < n,
        exists|c: int| s.contains(c),
    ensures
        is_top(s, m),
    decreases n,
{
    if s.contains(n - 1) {
        n - 1
    } else {
        lemma_top(s, n - 1)
    }
}

/// A covered card has a mergeable candidate above it in its suit.
proof fn lemma_covered_above(free: Set<int>, accounted: Set<int>, suit: int, rank: int)
    requires
        covered(free, accounted, suit, rank),
    ensures
        exists|r: int| rank < r <= 12 && free.contains(card_of(suit, r)),
    decreases 12 - rank,
{
    if !free.contains(card_of(suit, rank + 1)) {
        lemma_covered_above(free, accounted, suit, rank + 1);
    }
}

/// Merging equivalent plays never leaves a player without a play.
pub proof fn lemma_distinct_nonempty(plays: Set<int>, played: Set<int>, charged: Set<int>)
    requires
        plays.subset_of(crate::cards::deck()),
        exists|c: int| plays.contains(c),
    ensures
        exists|c: int| distinct_set(plays, played, charged).contains(c),
{
    let m = lemma_top(plays, 64);
    let special = special_set(charged);
    let free = plays.difference(special);
    if !special.contains(m) {
        if covered(free, played, suit_of(m), m % 16) {
            lemma_covered_above(free, played, suit_of(m), m % 16);
            let r = choose|r: int| m % 16 < r <= 12 && free.contains(card_of(suit_of(m), r));
            assert(plays.contains(card_of(suit_of(m), r)));
        }
        assert(distinct_set(plays, played, charged).contains(m));
    } else {
        assert(distinct_set(plays, played, charged).contains(m));
    }
}

/// A player who holds a card always has a legal play, when only chargeable cards are charged.
pub proof fn lemma_legal_nonempty(
    hand: Set<int>,
    charged: Set<int>,
    led: Set<int>,
    lead: Option<int>,
    hearts_broken: bool,
)
    requires
        hand.subset_of(crate::cards::deck()),
        charged.subset_of(chargeable_set()),
        exists|c: int| hand.contains(c),
        lead matches Some(l) ==> is_card(l),
    ensures
        exists|c: int| legal_set(hand, charged, led, lead, hearts_broken).contains(c),
{
    let first = led == Set::<int>::empty();
    let h = choose|c: int| hand.contains(c);
    if first && hand.contains(two_of_clubs()) {
        assert(legal_set(hand, charged, led, lead, hearts_broken).contains(two_of_clubs()));
    } else if first && hand.subset_of(points_set()) && hand.contains(jack_of_diamonds()) {
        assert(legal_set(hand, charged, led, lead, hearts_broken).contains(jack_of_diamonds()));
    } else if first && hand.subset_of(points_set()) && hand.contains(queen_of_spades()) {
        assert(legal_set(hand, charged, led, lead, hearts_broken).contains(queen_of_spades()));
    } else {
        let plays = if first && !hand.subset_of(points_set()) {
            hand.difference(points_set())
        } else {
            hand
        };
        let x = if first && !hand.subset_of(points_set()) {
            choose|c: int| hand.contains(c) && !points_set().contains(c)
        } else {
            h
        };
        assert(plays.contains(x));
        match lead {
            None => {
                let p = if !hearts_broken && !plays.subset_of(suit_set(HEARTS as int)) {
                    plays.difference(suit_set(HEARTS as int))
                } else {
                    plays
                };
                let y = if !hearts_broken && !plays.subset_of(suit_set(HEARTS as int)) {
                    choose|c: int| plays.contains(c) && !suit_set(HEARTS as int).contains(c)
                } else {
                    x
                };
                assert(p.contains(y));
                let held_back = chargeable_set().intersect(charged);
                if !p.subset_of(held_back) {
                    let z = choose|c: int| p.contains(c) && !held_back.contains(c);
                    assert(lead_set(plays, charged, led, hearts_broken).contains(z));
                    assert(legal_set(hand, charged, led, lead, hearts_broken).contains(z));
                } else {
                    assert(lead_set(plays, charged, led, hearts_broken).contains(y));
                    assert(legal_set(hand, charged, led, lead, hearts_broken).contains(y));
                }
            },
            Some(l) => {
                let suit = suit_set(suit_of(l));
                if meets(plays, suit) {
                    let q = plays.intersect(suit);
                    let y = choose|c: int| plays.contains(c) && suit.contains(c);
                    if led.disjoint(suit) && q.len() > 1 {
                        let kept = charged.intersect(suit);
                        assert(q.subset_of(crate::cards::deck()));
                        vstd::set_lib::lemma_int_range(0, 64);
                        assert(q.subset_of(vstd::set_lib::set_int_range(0, 64)));
                        vstd::set_lib::lemma_len_subset(q, vstd::set_lib::set_int_range(0, 64));
                        let one = if suit_of(l) == 0 {
                            ten_of_clubs()
                        } else if suit_of(l) == 1 {
                            jack_of_diamonds()
                        } else if suit_of(l) == 2 {
                            ace_of_hearts()
                        } else {
                            queen_of_spades()
                        };
                        assert(kept.subset_of(set![one]));
                        assert(q.remove(one).len() >= 1);
                        assert(exists|c: int| q.remove(one).contains(c)) by {
                            if !(exists|c: int| q.remove(one).contains(c)) {
                                assert(q.remove(one) =~= Set::<int>::empty());
                            }
                        }
                        let z = choose|c: int| q.remove(one).contains(c);
                        assert(follow_set(plays, charged, led, l).contains(z));
                    assert(legal_set(hand, charged, led, lead, hearts_broken).contains(z));
                    } else {
                        assert(follow_set(plays, charged, led, l).contains(y));
                    assert(legal_set(hand, charged, led, lead, hearts_broken).contains(y));
                    }
                } else {
                    assert(follow_set(plays, charged, led, l).contains(x));
                    assert(legal_set(hand, charged, led, lead, hearts_broken).contains(x));
                }
            },
        }
    }
}

} // verus!
