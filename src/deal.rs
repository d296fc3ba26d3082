use rand::seq::SliceRandom;
use vstd::prelude::*;

use crate::cards::{is_card, Card, Cards};
use crate::search::{is_partition, take};

verus! {

/// Relies on rand's `SliceRandom::shuffle` over the thread-local generator: it reorders the
/// cards in place by swaps, so the same cards come out in some order.
#[verifier::external_body]
fn shuffle(cards: &mut Vec<u8>)
    ensures
        final(cards)@.to_multiset() == old(cards)@.to_multiset(),
{
    cards.shuffle(&mut rand::thread_rng());
}

/// The card index of the `i`-th card of a deck laid out suit by suit.
spec fn laid_out(i: int) -> int {
    16 * (i / 13) + i % 13
}

/// How many of the first `i` cards of the deck go to seat `h`.
spec fn dealt(i: int, h: int) -> int {
    if i <= 13 * h {
        0
    } else if i >= 13 * (h + 1) {
        13
    } else {
        i - 13 * h
    }
}

/// Deals the shuffled deck: four hands of thirteen cards that split the deck.
pub fn deal_hands() -> (r: [Cards; 4])
    ensures
        is_partition(r),
        forall|h: int| 0 <= h < 4 ==> #[trigger] r[h]@.len() == 13,
{
    let mut deck: Vec<u8> = Vec::new();
    let mut i: usize = 0;
    while i < 52
        invariant
            i <= 52,
            deck@.len() == i,
            forall|j: int| 0 <= j < i ==> deck@[j] as int == laid_out(j),
        decreases 52 - i,
    {
        deck.push((16 * (i / 13) + (i % 13)) as u8);
        i = i + 1;
    }
    let ghost laid = deck@;
    proof {
        assert forall|a: int, b: int| 0 <= a < 52 && 0 <= b < 52 && a != b implies laid[a]
            != laid[b] by {
            assert(laid[a] as int == laid_out(a) && laid[b] as int == laid_out(b));
        }
        assert(laid.no_duplicates());
        laid.lemma_multiset_has_no_duplicates();
    }
    shuffle(&mut deck);
    proof {
        broadcast use vstd::seq_lib::to_multiset_contains;
        vstd::seq_lib::to_multiset_len(laid);
        vstd::seq_lib::to_multiset_len(deck@);
        assert forall|x: u8| deck@.to_multiset().contains(x) implies deck@.to_multiset().count(x)
            == 1 by {
        }
        deck@.lemma_multiset_has_no_duplicates_conv();
        assert forall|k: int| 0 <= k < 52 implies #[trigger] is_card(deck@[k] as int) by {
            assert(laid.to_multiset().count(deck@[k]) > 0);
            let j = choose|j: int| 0 <= j < laid.len() && laid[j] == deck@[k];
            assert(laid[j] as int == laid_out(j));
        }
        assert forall|c: int| #[trigger] is_card(c) implies deck@.contains(c as u8) by {
            let j = 13 * (c / 16) + c % 16;
            assert(laid[j] as int == laid_out(j));
            assert(laid.contains(c as u8));
            assert(laid.to_multiset().count(c as u8) > 0);
        }
    }
    deal_from(&deck)
}

/// The cards dealt to seat `h` from a deck in order: those at places `13 * h` to
/// `13 * h + 12`.
pub open spec fn dealt_hand(deck: Seq<u8>, h: int) -> Set<int> {
    Set::new(|c: int| exists|k: int| 13 * h <= k < 13 * h + 13 && deck[k] as int == c)
}

/// Deals a deck holding each of the 52 cards once: seat `h` gets the thirteen cards at
/// places `13 * h` to `13 * h + 12`.
pub fn deal_from(deck: &Vec<u8>) -> (r: [Cards; 4])
    requires
        deck@.len() == 52,
        deck@.no_duplicates(),
        forall|k: int| 0 <= k < 52 ==> #[trigger] is_card(deck@[k] as int),
        forall|c: int| #[trigger] is_card(c) ==> deck@.contains(c as u8),
    ensures
        forall|h: int| 0 <= h < 4 ==> #[trigger] r[h]@ == dealt_hand(deck@, h),
        is_partition(r),
        forall|h: int| 0 <= h < 4 ==> #[trigger] r[h]@.len() == 13,
{
    let mut hands = [Cards::empty(), Cards::empty(), Cards::empty(), Cards::empty()];
    let mut i: usize = 0;
    while i < 52
        invariant
            i <= 52,
            deck@.len() == 52,
            deck@.no_duplicates(),
            forall|k: int| 0 <= k < 52 ==> #[trigger] is_card(deck@[k] as int),
            forall|k: int| 0 <= k < i ==> #[trigger] hands[k / 13]@.contains(deck@[k] as int),
            forall|h: int, c: int|
                0 <= h < 4 && #[trigger] hands[h]@.contains(c) ==> exists|k: int|
                    0 <= k < i && k / 13 == h && deck@[k] as int == c,
            forall|h: int|
                0 <= h < 4 ==> #[trigger] hands[h]@.len() == dealt(i as int, h)
                    && hands[h]@.finite(),
        decreases 52 - i,
    {
        let v = deck[i];
        proof {
            let who = i as int / 13;
            assert(!hands[who]@.contains(deck@[i as int] as int)) by {
                if hands[who]@.contains(deck@[i as int] as int) {
                    let k = choose|k: int|
                        0 <= k < i && k / 13 == who && deck@[k] as int == deck@[i as int] as int;
                    assert(deck@[k] == deck@[i as int]);
                }
            }
        }
        assert(is_card(deck@[i as int] as int));
        let card = Card::new(v / 16, v % 16);
        let next = take(hands, i / 13, card.as_cards());
        proof {
            assert forall|h: int, c: int|
                0 <= h < 4 && #[trigger] next[h]@.contains(c) implies exists|k: int|
                    0 <= k < i + 1 && k / 13 == h && deck@[k] as int == c by {
                if h == i / 13 && c == v as int {
                    assert(deck@[i as int] as int == c);
                } else {
                    assert(hands[h]@.contains(c));
                }
            }
            let q = i as int / 13;
            assert(13 * q <= i < 13 * q + 13);
            assert(hands[0]@.len() == dealt(i as int, 0) && hands[0]@.finite());
            assert(hands[1]@.len() == dealt(i as int, 1) && hands[1]@.finite());
            assert(hands[2]@.len() == dealt(i as int, 2) && hands[2]@.finite());
            assert(hands[3]@.len() == dealt(i as int, 3) && hands[3]@.finite());
            assert(card@ == v as int);
            assert forall|h: int|
                0 <= h < 4 implies #[trigger] next[h]@.len() == dealt(i + 1, h) && next[h]@.finite() by {
                assert(hands[h]@.len() == dealt(i as int, h) && hands[h]@.finite());
                if h == q {
                    assert(next[h]@ =~= hands[h]@.insert(v as int));
                    assert(!hands[h]@.contains(v as int));
                    assert(next[h]@.len() == hands[h]@.len() + 1);
                    assert(dealt(i + 1, h) == dealt(i as int, h) + 1);
                } else {
                    assert(next[h] == hands[h]);
                    assert(dealt(i + 1, h) == dealt(i as int, h));
                }
            }
        }
        hands = next;
        i = i + 1;
    }
    proof {
        assert forall|h1: int, h2: int, c: int|
            0 <= h1 < h2 < 4 && #[trigger] hands[h1]@.contains(c) implies !#[trigger] hands[h2]@.contains(
                c,
            ) by {
            let k1 = choose|k: int| 0 <= k < 52 && k / 13 == h1 && deck@[k] as int == c;
            if hands[h2]@.contains(c) {
                let k2 = choose|k: int| 0 <= k < 52 && k / 13 == h2 && deck@[k] as int == c;
                assert(deck@[k1] == deck@[k2]);
            }
        }
        assert forall|c: int| #[trigger] crate::search::union4(hands).contains(c) == is_card(c) by {
            if is_card(c) {
                assert(deck@.contains(c as u8));
                let k = choose|k: int| 0 <= k < deck@.len() && deck@[k] == c as u8;
                assert(hands[k / 13]@.contains(deck@[k] as int));
            } else if crate::search::union4(hands).contains(c) {
                let h = choose|h: int| 0 <= h < 4 && hands[h]@.contains(c);
                let k = choose|k: int| 0 <= k < 52 && k / 13 == h && deck@[k] as int == c;
            }
        }
        assert(crate::search::union4(hands) =~= crate::cards::deck());
    }
    proof {
        assert forall|h: int| 0 <= h < 4 implies #[trigger] hands[h]@ == dealt_hand(deck@, h) by {
            assert forall|c: int| hands[h]@.contains(c) == dealt_hand(deck@, h).contains(c) by {
                if dealt_hand(deck@, h).contains(c) {
                    let k = choose|k: int| 13 * h <= k < 13 * h + 13 && deck@[k] as int == c;
                    assert(hands[k / 13]@.contains(deck@[k] as int));
                }
            }
            assert(hands[h]@ =~= dealt_hand(deck@, h));
        }
    }
    hands
}


} // verus!
