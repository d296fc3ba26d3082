use vstd::prelude::*;

use crate::cards::{
    chargeable_set, deck, suit_of, suit_set, two_of_clubs, views4, Card, Cards, HEARTS,
};
use crate::rules::{
    distinct_plays, distinct_set, is_nined, lead_of, legal_plays, legal_set, meets, nined_of,
    trick_winner, winner_of,
};
use crate::scoring::{money, money_of};

verus! {

/// The four sets share no card.
pub open spec fn disjoint4(s: [Cards; 4]) -> bool {
    &&& s[0]@.disjoint(s[1]@)
    &&& s[0]@.disjoint(s[2]@)
    &&& s[0]@.disjoint(s[3]@)
    &&& s[1]@.disjoint(s[2]@)
    &&& s[1]@.disjoint(s[3]@)
    &&& s[2]@.disjoint(s[3]@)
}

pub open spec fn union4(s: [Cards; 4]) -> Set<int> {
    s[0]@.union(s[1]@).union(s[2]@).union(s[3]@)
}

/// The four sets split the deck: every card lies in exactly one of them.
pub open spec fn is_partition(s: [Cards; 4]) -> bool {
    disjoint4(s) && union4(s) == deck()
}

/// Each player's set in `r` holds the one in `s`.
pub open spec fn grows(s: [Cards; 4], r: [Cards; 4]) -> bool {
    &&& s[0]@.subset_of(r[0]@)
    &&& s[1]@.subset_of(r[1]@)
    &&& s[2]@.subset_of(r[2]@)
    &&& s[3]@.subset_of(r[3]@)
}

/// A state of play: hands and taken cards split the deck between them, the cards of the
/// open trick are still counted in the hands they came from, and a trick has a lead card
/// exactly when it has cards.
pub open spec fn play_state(hand: [Cards; 4], won: [Cards; 4], lead: Option<Card>, trick: Cards) -> bool {
    &&& disjoint4(hand)
    &&& disjoint4(won)
    &&& union4(hand).disjoint(union4(won))
    &&& union4(hand).union(union4(won)) == deck()
    &&& trick@.subset_of(union4(hand))
    &&& (trick@ == Set::<int>::empty() <==> lead is None)
    &&& (lead matches Some(l) ==> trick@.contains(l@))
}

/// The player to act holds a card not on the table, unless every card is taken.
pub open spec fn acting(hand: [Cards; 4], won: [Cards; 4], trick: Cards, player: int) -> bool {
    union4(won) == deck() || hand[player]@.difference(trick@) != Set::<int>::empty()
}

/// What the search still has to place: the cards in hand that are not yet on the table.
pub open spec fn remaining(hand: [Cards; 4], trick: Cards) -> Set<int> {
    union4(hand).difference(trick@)
}

pub open spec fn union_of(s: Seq<Set<int>>) -> Set<int> {
    s[0].union(s[1]).union(s[2]).union(s[3])
}

pub open spec fn empty_sets() -> Seq<Set<int>> {
    seq![Set::empty(), Set::empty(), Set::empty(), Set::empty()]
}

/// The seat whose hand holds `c`: the first that does, or the last seat.
pub open spec fn holder_in(hs: Seq<Set<int>>, c: int) -> int {
    if hs[0].contains(c) {
        0
    } else if hs[1].contains(c) {
        1
    } else if hs[2].contains(c) {
        2
    } else {
        3
    }
}

/// The plays the search weighs for `player`: the legal plays from the cards in hand not yet
/// on the table, with equivalent ones merged. Cards taken, and cards of the open trick that
/// are already beaten, count as accounted for.
pub open spec fn candidates(
    player: int,
    hs: Seq<Set<int>>,
    ws: Seq<Set<int>>,
    charged: Set<int>,
    led: Set<int>,
    lead: Option<int>,
    trick: Set<int>,
) -> Set<int> {
    let played = union_of(ws);
    let lost = if trick == Set::<int>::empty() {
        Set::<int>::empty()
    } else {
        trick.remove(winner_of(trick, lead.unwrap()))
    };
    distinct_set(
        legal_set(
            hs[player].difference(trick),
            charged,
            led,
            lead,
            meets(played, suit_set(HEARTS as int)),
        ),
        played.union(lost),
        charged,
    )
}

/// Whether playing `c` completes the trick: once every card of the deal is taken or on the
/// table, whatever the trick's size; else from its fourth card on, as soon as no nine
/// holds it.
pub open spec fn completes(ws: Seq<Set<int>>, lead: Option<int>, trick: Set<int>, c: int) -> bool {
    union_of(ws).union(trick.insert(c)) == deck() || (trick.len() >= 3 && !nined_of(
        trick.insert(c),
        lead.unwrap(),
    ))
}

/// Whether seat `s` holds a card that is not on the table.
pub open spec fn holds_card(hs: Seq<Set<int>>, trick: Set<int>, s: int) -> bool {
    hs[s].difference(trick) != Set::<int>::empty()
}

/// The seat to act when the turn falls to `s`: the first of `s` and the seats after it
/// that still holds a card not on the table, or `s` when none does.
pub open spec fn seat_from(hs: Seq<Set<int>>, trick: Set<int>, s: int) -> int {
    if holds_card(hs, trick, s) {
        s
    } else if holds_card(hs, trick, (s + 1) % 4) {
        (s + 1) % 4
    } else if holds_card(hs, trick, (s + 2) % 4) {
        (s + 2) % 4
    } else if holds_card(hs, trick, (s + 3) % 4) {
        (s + 3) % 4
    } else {
        s
    }
}

/// The player to act, hands, cards taken, suits led, lead card and trick after `player`
/// plays `c`.
pub type Turn = (int, Seq<Set<int>>, Seq<Set<int>>, Set<int>, Option<int>, Set<int>);

#[verifier::opaque]
pub open spec fn after(
    player: int,
    hs: Seq<Set<int>>,
    ws: Seq<Set<int>>,
    led: Set<int>,
    lead: Option<int>,
    trick: Set<int>,
    c: int,
) -> Turn {
    let t = trick.insert(c);
    let l = match lead {
        Some(x) => x,
        None => c,
    };
    if completes(ws, lead, trick, c) {
        let who = holder_in(hs, winner_of(t, l));
        let next_hs = seq![hs[0].difference(t), hs[1].difference(t), hs[2].difference(t), hs[3].difference(t)];
        (
            seat_from(next_hs, Set::empty(), who),
            next_hs,
            ws.update(who, ws[who].union(t)),
            led.union(suit_set(suit_of(l))),
            None,
            Set::empty(),
        )
    } else {
        (seat_from(hs, t, (player + 1) % 4), hs, ws, led, Some(l), t)
    }
}

/// The cards each player takes when the rest of the deal is played out from this state,
/// `n` cards still to be placed: once every card is taken, the cards taken; else the
/// outcome of the candidate that brings `player` the most money.
pub open spec fn outcome(
    n: nat,
    player: int,
    hs: Seq<Set<int>>,
    ws: Seq<Set<int>>,
    charged: Set<int>,
    led: Set<int>,
    lead: Option<int>,
    trick: Set<int>,
) -> Seq<Set<int>>
    decreases n, 65int,
{
    if union_of(ws) == deck() {
        ws
    } else {
        match best_from(
            n,
            63,
            candidates(player, hs, ws, charged, led, lead, trick),
            player,
            hs,
            ws,
            charged,
            led,
            lead,
            trick,
            None,
        ) {
            Some(b) => b.1,
            None => empty_sets(),
        }
    }
}

/// The cards each player takes when `player` plays `c` and the rest of the deal is played
/// out.
pub open spec fn play_result(
    n: nat,
    player: int,
    hs: Seq<Set<int>>,
    ws: Seq<Set<int>>,
    charged: Set<int>,
    led: Set<int>,
    lead: Option<int>,
    trick: Set<int>,
    c: int,
) -> Seq<Set<int>>
    decreases n, 0int,
{
    if n == 0 {
        empty_sets()
    } else {
        let st = after(player, hs, ws, led, lead, trick, c);
        outcome((n - 1) as nat, st.0, st.1, st.2, charged, st.3, st.4, st.5)
    }
}

/// Weighs the candidates from card `k` down, given the best so far (money to `player`,
/// outcome): a candidate replaces it only when it brings strictly more, so the highest card
/// wins a tie.
pub open spec fn best_from(
    n: nat,
    k: int,
    cands: Set<int>,
    player: int,
    hs: Seq<Set<int>>,
    ws: Seq<Set<int>>,
    charged: Set<int>,
    led: Set<int>,
    lead: Option<int>,
    trick: Set<int>,
    acc: Option<(int, Seq<Set<int>>)>,
) -> Option<(int, Seq<Set<int>>)>
    decreases n, k + 1,
{
    if k < 0 || n == 0 {
        acc
    } else {
        let next = if cands.contains(k) {
            let r = play_result(n, player, hs, ws, charged, led, lead, trick, k);
            let m = money_of(r, charged, player);
            if acc is None || m > acc.unwrap().0 {
                Some((m, r))
            } else {
                acc
            }
        } else {
            acc
        };
        best_from(n, k - 1, cands, player, hs, ws, charged, led, lead, trick, next)
    }
}

proof fn lemma_skip(
    n: nat,
    k: int,
    m: int,
    cands: Set<int>,
    player: int,
    hs: Seq<Set<int>>,
    ws: Seq<Set<int>>,
    charged: Set<int>,
    led: Set<int>,
    lead: Option<int>,
    trick: Set<int>,
    acc: Option<(int, Seq<Set<int>>)>,
)
    requires
        -1 <= m <= k,
        forall|c: int| m < c <= k ==> !cands.contains(c),
    ensures
        best_from(n, k, cands, player, hs, ws, charged, led, lead, trick, acc) == best_from(
            n,
            m,
            cands,
            player,
            hs,
            ws,
            charged,
            led,
            lead,
            trick,
            acc,
        ),
    decreases k - m,
{
    if k > m {
        lemma_skip(n, k - 1, m, cands, player, hs, ws, charged, led, lead, trick, acc);
    }
}

/// What the best so far holds after weighing the candidates above `k`: nothing when there
/// were none; else the outcome of one of them, `c`, with its money, no candidate above `k`
/// bringing more, and every one bringing as much lying at or below `c`.
pub open spec fn best_above(
    n: nat,
    k: int,
    cands: Set<int>,
    player: int,
    hs: Seq<Set<int>>,
    ws: Seq<Set<int>>,
    charged: Set<int>,
    led: Set<int>,
    lead: Option<int>,
    trick: Set<int>,
    acc: Option<(int, Seq<Set<int>>)>,
) -> bool {
    let money = |d: int| money_of(play_result(n, player, hs, ws, charged, led, lead, trick, d), charged, player);
    match acc {
        None => forall|d: int| k < d && cands.contains(d) ==> false,
        Some(b) => exists|c: int|
            #![trigger cands.contains(c)]
            k < c && cands.contains(c) && b.1 == play_result(n, player, hs, ws, charged, led, lead, trick, c)
                && b.0 == money(c) && forall|d: int|
                #![trigger cands.contains(d)]
                k < d && cands.contains(d) ==> money(d) <= b.0 && (money(d) == b.0 ==> d <= c),
    }
}

proof fn lemma_best_from(
    n: nat,
    k: int,
    cands: Set<int>,
    player: int,
    hs: Seq<Set<int>>,
    ws: Seq<Set<int>>,
    charged: Set<int>,
    led: Set<int>,
    lead: Option<int>,
    trick: Set<int>,
    acc: Option<(int, Seq<Set<int>>)>,
)
    requires
        -1 <= k,
        n > 0,
        best_above(n, k, cands, player, hs, ws, charged, led, lead, trick, acc),
    ensures
        best_above(
            n,
            -1,
            cands,
            player,
            hs,
            ws,
            charged,
            led,
            lead,
            trick,
            best_from(n, k, cands, player, hs, ws, charged, led, lead, trick, acc),
        ),
    decreases k + 1,
{
    if k >= 0 {
        let money = |d: int| money_of(play_result(n, player, hs, ws, charged, led, lead, trick, d), charged, player);
        let next = if cands.contains(k) {
            let r = play_result(n, player, hs, ws, charged, led, lead, trick, k);
            let m = money_of(r, charged, player);
            if acc is None || m > acc.unwrap().0 {
                Some((m, r))
            } else {
                acc
            }
        } else {
            acc
        };
        if cands.contains(k) {
            match acc {
                None => {
                    assert forall|d: int| #![trigger cands.contains(d)] k - 1 < d && cands.contains(d)
                        implies money(d) <= next.unwrap().0 && (money(d) == next.unwrap().0 ==> d <= k) by {
                        if d > k {
                            assert(k < d && cands.contains(d));
                        }
                    }
                },
                Some(b) => {
                    let c = choose|c: int|
                        #![trigger cands.contains(c)]
                        k < c && cands.contains(c) && b.1 == play_result(n, player, hs, ws, charged, led, lead, trick, c)
                            && b.0 == money(c) && forall|d: int|
                            #![trigger cands.contains(d)]
                            k < d && cands.contains(d) ==> money(d) <= b.0 && (money(d) == b.0 ==> d <= c);
                    if money(k) > b.0 {
                        assert forall|d: int| #![trigger cands.contains(d)] k - 1 < d && cands.contains(d)
                            implies money(d) <= money(k) && (money(d) == money(k) ==> d <= k) by {
                            if d > k {
                                assert(money(d) <= b.0);
                            }
                        }
                    } else {
                        assert(k - 1 < c && cands.contains(c));
                        assert forall|d: int| #![trigger cands.contains(d)] k - 1 < d && cands.contains(d)
                            implies money(d) <= b.0 && (money(d) == b.0 ==> d <= c) by {
                            if d > k {
                                assert(money(d) <= b.0);
                            }
                        }
                    }
                },
            }
        } else {
            match acc {
                None => {
                    assert forall|d: int| k - 1 < d && cands.contains(d) implies false by {
                        assert(k < d);
                    }
                },
                Some(b) => {
                    let c = choose|c: int|
                        #![trigger cands.contains(c)]
                        k < c && cands.contains(c) && b.1 == play_result(n, player, hs, ws, charged, led, lead, trick, c)
                            && b.0 == money(c) && forall|d: int|
                            #![trigger cands.contains(d)]
                            k < d && cands.contains(d) ==> money(d) <= b.0 && (money(d) == b.0 ==> d <= c);
                    assert(k - 1 < c && cands.contains(c));
                },
            }
        }
        assert(best_above(n, k - 1, cands, player, hs, ws, charged, led, lead, trick, next));
        assert(best_from(n, k, cands, player, hs, ws, charged, led, lead, trick, acc) == best_from(
            n,
            k - 1,
            cands,
            player,
            hs,
            ws,
            charged,
            led,
            lead,
            trick,
            next,
        ));
        lemma_best_from(n, k - 1, cands, player, hs, ws, charged, led, lead, trick, next);
    }
}

/// Until every card is taken, the search's result is the outcome of one of the candidates
/// of the player to act: one that brings them the most money, and of those the highest.
pub proof fn lemma_outcome_is_best(
    n: nat,
    player: int,
    hs: Seq<Set<int>>,
    ws: Seq<Set<int>>,
    charged: Set<int>,
    led: Set<int>,
    lead: Option<int>,
    trick: Set<int>,
)
    requires
        n > 0,
        union_of(ws) != deck(),
        exists|c: int| candidates(player, hs, ws, charged, led, lead, trick).contains(c),
        candidates(player, hs, ws, charged, led, lead, trick).subset_of(deck()),
    ensures
        ({
            let cands = candidates(player, hs, ws, charged, led, lead, trick);
            let r = outcome(n, player, hs, ws, charged, led, lead, trick);
            let money = |d: int|
                money_of(play_result(n, player, hs, ws, charged, led, lead, trick, d), charged, player);
            exists|c: int|
                #![trigger cands.contains(c)]
                cands.contains(c) && r == play_result(n, player, hs, ws, charged, led, lead, trick, c)
                    && forall|d: int|
                    #![trigger cands.contains(d)]
                    cands.contains(d) ==> money(d) <= money(c) && (money(d) == money(c) ==> d <= c)
        }),
{
    let cands = candidates(player, hs, ws, charged, led, lead, trick);
    assert(best_above(n, 63, cands, player, hs, ws, charged, led, lead, trick, None)) by {
        assert forall|d: int| 63 < d && cands.contains(d) implies false by {
            assert(crate::cards::deck().contains(d));
        }
    }
    lemma_best_from(n, 63, cands, player, hs, ws, charged, led, lead, trick, None);
    let res = best_from(n, 63, cands, player, hs, ws, charged, led, lead, trick, None);
    if res is None {
        let c = choose|c: int| cands.contains(c);
        assert(-1 < c && cands.contains(c));
    }
}

proof fn lemma_views4(a: [Cards; 4])
    ensures
        views4(a).len() == 4,
        forall|i: int| 0 <= i < 4 ==> #[trigger] views4(a)[i] == a[i]@,
        union_of(views4(a)) == union4(a),
{
}

/// What the best-so-far of the search stands for.
pub open spec fn best_view(b: Option<(i32, [Cards; 4])>) -> Option<(int, Seq<Set<int>>)> {
    match b {
        Some(x) => Some((x.0 as int, views4(x.1))),
        None => None,
    }
}

/// The seat that holds `card`: the first hand that holds it, or the last seat when none of
/// the first three does.
pub fn holder_of(hand: [Cards; 4], card: Card) -> (r: usize)
    ensures
        r < 4,
        forall|j: int| 0 <= j < r ==> !hand[j]@.contains(card@),
        r < 3 ==> hand[r as int]@.contains(card@),
{
    if hand[0].has(card) {
        0
    } else if hand[1].has(card) {
        1
    } else if hand[2].has(card) {
        2
    } else {
        3
    }
}

fn empty4() -> (r: [Cards; 4])
    ensures
        views4(r) == empty_sets(),
{
    let r = [Cards::empty(), Cards::empty(), Cards::empty(), Cards::empty()];
    assert(views4(r) =~= empty_sets());
    r
}

/// The taken cards after `who` takes `t`.
pub(crate) fn take(won: [Cards; 4], who: usize, t: Cards) -> (r: [Cards; 4])
    requires
        who < 4,
    ensures
        forall|i: int| 0 <= i < 4 && i != who ==> r[i] == won[i],
        r[who as int]@ == won[who as int]@.union(t@),
{
    [
        if who == 0 {
            won[0].union(t)
        } else {
            won[0]
        },
        if who == 1 {
            won[1].union(t)
        } else {
            won[1]
        },
        if who == 2 {
            won[2].union(t)
        } else {
            won[2]
        },
        if who == 3 {
            won[3].union(t)
        } else {
            won[3]
        },
    ]
}

proof fn lemma_seat_from(hs: Seq<Set<int>>, trick: Set<int>, s: int, q: int)
    requires
        0 <= s < 4,
        0 <= q < 4,
        hs[q].difference(trick) != Set::<int>::empty(),
    ensures
        0 <= seat_from(hs, trick, s) < 4,
        holds_card(hs, trick, seat_from(hs, trick, s)),
{
    assert(q == s || q == (s + 1) % 4 || q == (s + 2) % 4 || q == (s + 3) % 4);
}

/// The seat to act when the turn falls to `s`: the first of `s` and the seats after it
/// that still holds a card not on the table.
fn seat_to_act(hand: [Cards; 4], trick: Cards, s: usize) -> (r: usize)
    requires
        s < 4,
    ensures
        r as int == seat_from(views4(hand), trick@, s as int),
        r < 4,
{
    proof {
        lemma_views4(hand);
    }
    if !hand[s].difference(trick).is_empty() {
        s
    } else if !hand[(s + 1) % 4].difference(trick).is_empty() {
        (s + 1) % 4
    } else if !hand[(s + 2) % 4].difference(trick).is_empty() {
        (s + 2) % 4
    } else if !hand[(s + 3) % 4].difference(trick).is_empty() {
        (s + 3) % 4
    } else {
        s
    }
}

/// The state after `player` plays `play`: the player to act, the hands, the cards taken,
/// the suits led, the lead card and the trick. A state of play stays one: hands and cards
/// taken still split the deck, each set of four pairwise disjoint.
pub fn play_card(
    player: usize,
    hand: [Cards; 4],
    won: [Cards; 4],
    led_suits: Cards,
    lead: Option<Card>,
    trick: Cards,
    played: Cards,
    play: Card,
) -> (r: (usize, [Cards; 4], [Cards; 4], Cards, Option<Card>, Cards))
    requires
        player < 4,
        play_state(hand, won, lead, trick),
        played@ == union4(won),
        hand[player as int]@.difference(trick@).contains(play@),
    ensures
        r.0 < 4,
        play_state(r.1, r.2, r.4, r.5),
        (r.0 as int, views4(r.1), views4(r.2), r.3@, lead_of(r.4), r.5@) == after(
            player as int,
            views4(hand),
            views4(won),
            led_suits@,
            lead_of(lead),
            trick@,
            play@,
        ),
        remaining(r.1, r.5) == remaining(hand, trick).remove(play@),
        grows(won, r.2),
        acting(r.1, r.2, r.5, r.0 as int),
{
    proof {
        lemma_views4(hand);
        lemma_views4(won);
    }
    let trick_size = trick.len();
    let t = trick.with(play);
    let l = match lead {
        Some(x) => x,
        None => play,
    };
    let finishes_trick = played.union(t).contains(Cards::all()) || (trick_size >= 3 && !is_nined(
        t,
        l,
    ));
    let next_lead = if finishes_trick {
        None
    } else {
        Some(l)
    };
    let next_trick = if finishes_trick {
        Cards::empty()
    } else {
        t
    };
    let next_hand = if finishes_trick {
        [hand[0].difference(t), hand[1].difference(t), hand[2].difference(t), hand[3].difference(t)]
    } else {
        hand
    };
    let who = if finishes_trick {
        holder_of(hand, trick_winner(t, l))
    } else {
        player
    };
    let next_won = if finishes_trick {
        take(won, who, t)
    } else {
        won
    };
    let next_player = if finishes_trick {
        seat_to_act(next_hand, next_trick, who)
    } else {
        seat_to_act(hand, t, (player + 1) % 4)
    };
    let next_led_suits = if finishes_trick {
        led_suits.union(l.suit())
    } else {
        led_suits
    };
    proof {
        let hs = views4(hand);
        let ws = views4(won);
        lemma_views4(next_hand);
        lemma_views4(next_won);
        assert(remaining(next_hand, next_trick) =~= remaining(hand, trick).remove(play@));
        assert(t@ =~= trick@.insert(play@));
        assert(t@.subset_of(union4(hand)));
        reveal(after);
        let st = after(player as int, hs, ws, led_suits@, lead_of(lead), trick@, play@);
        played.lemma_valid();
        t.lemma_valid();
        if deck().subset_of(played@.union(t@)) {
            assert(played@.union(t@) =~= deck());
        }
        assert(finishes_trick == completes(ws, lead_of(lead), trick@, play@));
        if finishes_trick {
            assert(union4(next_hand) =~= union4(hand).difference(t@));
            assert(t@.disjoint(union4(won)));
            if who == 0 {
                assert(union4(next_won) =~= union4(won).union(t@));
            } else if who == 1 {
                assert(union4(next_won) =~= union4(won).union(t@));
            } else if who == 2 {
                assert(union4(next_won) =~= union4(won).union(t@));
            } else {
                assert(union4(next_won) =~= union4(won).union(t@));
            }
            assert(union4(next_hand).union(union4(next_won)) =~= deck());
            assert(disjoint4(next_won));
            assert(disjoint4(next_hand));
            assert(views4(next_hand) =~= st.1);
            assert(next_player as int == st.0);
            assert(views4(next_won) =~= st.2);
            assert(next_led_suits@ =~= st.3);
            if union4(next_won) != deck() {
                let x = choose|x: int| deck().contains(x) && !union4(next_won).contains(x);
                assert(union4(next_hand).contains(x));
                let q: int = if next_hand[0]@.contains(x) {
                    0
                } else if next_hand[1]@.contains(x) {
                    1
                } else if next_hand[2]@.contains(x) {
                    2
                } else {
                    3
                };
                assert(next_hand[q]@.difference(next_trick@).contains(x));
                lemma_seat_from(views4(next_hand), next_trick@, who as int, q);
            }
        } else {
            assert(t@.contains(play@));
            let x = choose|x: int| deck().contains(x) && !played@.union(t@).contains(x);
            assert(union4(hand).contains(x));
            let q: int = if hand[0]@.contains(x) {
                0
            } else if hand[1]@.contains(x) {
                1
            } else if hand[2]@.contains(x) {
                2
            } else {
                3
            };
            assert(hand[q]@.difference(t@).contains(x));
            lemma_seat_from(views4(hand), t@, (player as int + 1) % 4, q);
        }
    }
    (next_player, next_hand, next_won, next_led_suits, next_lead, next_trick)
}

/// Resolves the rest of the deal from a state of play, `player` to act: each player in turn
/// plays the candidate that brings them the most money once the rest of the deal is
/// resolved the same way, the highest card on a tie. A trick takes four cards and goes on
/// taking cards while a nine holds it; it completes at once when every card of the deal is
/// taken or on the table. A seat with no card left passes the turn to the next that holds
/// one. Returns the cards each player took.
pub fn opt_inner(
    player: usize,
    hand: [Cards; 4],
    won: [Cards; 4],
    charged: Cards,
    led_suits: Cards,
    lead: Option<Card>,
    trick: Cards,
) -> (r: [Cards; 4])
    requires
        player < 4,
        play_state(hand, won, lead, trick),
        acting(hand, won, trick, player as int),
        charged@.subset_of(chargeable_set()),
    ensures
        views4(r) == outcome(
            remaining(hand, trick).len(),
            player as int,
            views4(hand),
            views4(won),
            charged@,
            led_suits@,
            lead_of(lead),
            trick@,
        ),
        is_partition(r),
        grows(won, r),
    decreases remaining(hand, trick).len(),
{
    let ghost n = remaining(hand, trick).len();
    let ghost hs = views4(hand);
    let ghost ws = views4(won);
    proof {
        lemma_views4(hand);
        lemma_views4(won);
        hand[0].lemma_valid();
        hand[1].lemma_valid();
        hand[2].lemma_valid();
        hand[3].lemma_valid();
    }
    let played = won[0].union(won[1]).union(won[2]).union(won[3]);
    if played.contains(Cards::all()) {
        proof {
            played.lemma_valid();
            assert(played@ =~= deck());
        }
        return won;
    }
    let hearts_broken = played.intersects(Cards::hearts());
    let legal = legal_plays(hand[player].difference(trick), charged, led_suits, lead, hearts_broken);
    let lost = if trick.is_empty() {
        Cards::empty()
    } else {
        let w = trick_winner(trick, lead.unwrap());
        let l = trick.difference(w.as_cards());
        assert(l@ =~= trick@.remove(w@));
        l
    };
    let mut plays = distinct_plays(legal, played.union(lost), charged);
    let ghost cands = plays@;
    proof {
        assert(cands == candidates(player as int, hs, ws, charged@, led_suits@, lead_of(lead), trick@));
        let own = hand[player as int]@.difference(trick@);
        assert(!(own =~= Set::<int>::empty()));
        if let Some(l) = lead {
            assert(trick@.contains(l@));
        }
        crate::rules::lemma_legal_nonempty(own, charged@, led_suits@, lead_of(lead), hearts_broken);
        legal.lemma_valid();
        crate::rules::lemma_distinct_nonempty(legal@, played@.union(lost@), charged@);
    }
    let mut best: Option<(i32, [Cards; 4])> = None;
    let ghost mut k: int = 63;
    proof {
        plays.lemma_valid();
    }
    while !plays.is_empty()
        invariant
            player < 4,
            play_state(hand, won, lead, trick),
            hs == views4(hand),
            ws == views4(won),
            n == remaining(hand, trick).len(),
            cands == candidates(player as int, hs, ws, charged@, led_suits@, lead_of(lead), trick@),
            cands.subset_of(hand[player as int]@.difference(trick@)),
            cands.subset_of(deck()),
            -1 <= k <= 63,
            forall|c: int| #[trigger] plays@.contains(c) <==> (cands.contains(c) && c <= k),
            plays@.finite(),
            remaining(hand, trick).finite(),
            played@ == union4(won),
            played@ != deck(),
            charged@.subset_of(chargeable_set()),
            exists|c: int| cands.contains(c),
            k < 63 ==> best is Some,
            best_from(n, k, cands, player as int, hs, ws, charged@, led_suits@, lead_of(lead), trick@, best_view(best))
                == best_from(n, 63, cands, player as int, hs, ws, charged@, led_suits@, lead_of(lead), trick@, None),
            best matches Some(b) ==> is_partition(b.1) && grows(won, b.1),
        decreases plays@.len(),
    {
        let play = plays.max();
        let ghost m = play@;
        proof {
            assert forall|c: int| m < c <= k implies !cands.contains(c) by {
                if cands.contains(c) {
                    assert(plays@.contains(c));
                }
            }
            lemma_skip(n, k, m, cands, player as int, hs, ws, charged@, led_suits@, lead_of(lead), trick@, best_view(best));
            assert(remaining(hand, trick).contains(m));
        }
        plays = plays.without(play);
        let (next_player, next_hand, next_won, next_led_suits, next_lead, next_trick) = play_card(
            player,
            hand,
            won,
            led_suits,
            lead,
            trick,
            played,
            play,
        );
        let resulting_won = opt_inner(
            next_player,
            next_hand,
            next_won,
            charged,
            next_led_suits,
            next_lead,
            next_trick,
        );
        proof {
            assert(n > 0);
            assert(views4(resulting_won) == play_result(n, player as int, hs, ws, charged@, led_suits@, lead_of(lead), trick@, m));
        }
        let ghost before = best_view(best);
        let resulting_money = money(resulting_won, charged, player);
        let better = match best {
            None => true,
            Some(b) => resulting_money > b.0,
        };
        if better {
            best = Some((resulting_money, resulting_won));
        }
        proof {
            assert(best_from(n, m, cands, player as int, hs, ws, charged@, led_suits@, lead_of(lead), trick@, before)
                == best_from(n, m - 1, cands, player as int, hs, ws, charged@, led_suits@, lead_of(lead), trick@, best_view(best)));
            k = m - 1;
            assert forall|c: int| #[trigger] plays@.contains(c) <==> (cands.contains(c) && c <= k) by {
            }
        }
    }
    proof {
        assert forall|c: int| -1 < c <= k implies !cands.contains(c) by {
            if cands.contains(c) {
                assert(plays@.contains(c));
            }
        }
        lemma_skip(n, k, -1, cands, player as int, hs, ws, charged@, led_suits@, lead_of(lead), trick@, best_view(best));
        let c = choose|c: int| cands.contains(c);
        assert(c <= 63);
    }
    best.unwrap().1
}

/// The cards each player takes when the deal is played out from its start under the
/// given charges, `player` to lead.
pub open spec fn resolve(player: int, hs: Seq<Set<int>>, charged: Set<int>) -> Seq<Set<int>> {
    outcome(
        union_of(hs).len(),
        player,
        hs,
        empty_sets(),
        charged,
        Set::empty(),
        None,
        Set::empty(),
    )
}

/// Seat `i` weighs adding each untried card, from card `k` down, to the charges: the best
/// addition so far (charges, outcome, money to seat `i`) is replaced only by one that
/// brings strictly more, and the first must beat `to_beat`.
pub open spec fn pick_from(
    hs: Seq<Set<int>>,
    first: int,
    i: int,
    charged: Set<int>,
    k: int,
    untried: Set<int>,
    to_beat: int,
    pick: Option<(Set<int>, Seq<Set<int>>, int)>,
) -> Option<(Set<int>, Seq<Set<int>>, int)>
    decreases k + 1,
{
    if k < 0 {
        pick
    } else {
        let next = if untried.contains(k) {
            let c = charged.insert(k);
            let w = resolve(first, hs, c);
            let m = money_of(w, c, i);
            let bar = match pick {
                None => to_beat,
                Some(p) => p.2,
            };
            if m > bar {
                Some((c, w, m))
            } else {
                pick
            }
        } else {
            pick
        };
        pick_from(hs, first, i, charged, k - 1, untried, to_beat, next)
    }
}

/// Seat `i` keeps adding the best single charge of a card it holds, while one improves
/// its money; `fuel` counts the held chargeable cards not yet charged.
pub open spec fn improve(
    hs: Seq<Set<int>>,
    first: int,
    i: int,
    charged: Set<int>,
    won: Seq<Set<int>>,
    fuel: nat,
) -> (Set<int>, Seq<Set<int>>)
    decreases fuel,
{
    if fuel == 0 {
        (charged, won)
    } else {
        match pick_from(
            hs,
            first,
            i,
            charged,
            63,
            hs[i].intersect(chargeable_set()).difference(charged),
            money_of(won, charged, i),
            None,
        ) {
            None => (charged, won),
            Some(p) => improve(hs, first, i, p.0, p.1, (fuel - 1) as nat),
        }
    }
}

/// Seats `i` to 3 choose their charges in turn.
pub open spec fn select(
    hs: Seq<Set<int>>,
    first: int,
    i: int,
    charged: Set<int>,
    won: Seq<Set<int>>,
) -> Seq<Set<int>>
    decreases 4 - i,
{
    if i < 0 || i >= 4 {
        won
    } else {
        let fuel = hs[i].intersect(chargeable_set()).difference(charged).len();
        let st = improve(hs, first, i, charged, won, fuel);
        select(hs, first, i + 1, st.0, st.1)
    }
}

/// The cards each player takes once charges are chosen seat by seat from none, and the deal
/// is played out, the holder of the two of clubs to lead.
pub open spec fn charged_outcome(hs: Seq<Set<int>>) -> Seq<Set<int>> {
    let first = holder_in(hs, two_of_clubs());
    select(hs, first, 0, Set::empty(), resolve(first, hs, Set::empty()))
}

proof fn lemma_pick_skip(
    hs: Seq<Set<int>>,
    first: int,
    i: int,
    charged: Set<int>,
    k: int,
    m: int,
    untried: Set<int>,
    to_beat: int,
    pick: Option<(Set<int>, Seq<Set<int>>, int)>,
)
    requires
        -1 <= m <= k,
        forall|c: int| m < c <= k ==> !untried.contains(c),
    ensures
        pick_from(hs, first, i, charged, k, untried, to_beat, pick) == pick_from(
            hs,
            first,
            i,
            charged,
            m,
            untried,
            to_beat,
            pick,
        ),
    decreases k - m,
{
    if k > m {
        lemma_pick_skip(hs, first, i, charged, k - 1, m, untried, to_beat, pick);
    }
}

pub open spec fn pick_view(p: Option<(Cards, [Cards; 4], i32)>) -> Option<(Set<int>, Seq<Set<int>>, int)> {
    match p {
        Some(x) => Some((x.0@, views4(x.1), x.2 as int)),
        None => None,
    }
}

/// Resolves the deal from its start for fixed charges, the holder of the two of clubs
/// (`player`) to lead.
pub fn opt_post_charge(player: usize, hand: [Cards; 4], charged: Cards) -> (r: [Cards; 4])
    requires
        player < 4,
        is_partition(hand),
        hand[player as int]@ != Set::<int>::empty(),
        charged@.subset_of(chargeable_set()),
    ensures
        views4(r) == resolve(player as int, views4(hand), charged@),
        is_partition(r),
{
    let none = empty4();
    proof {
        lemma_views4(hand);
        lemma_views4(none);
        assert(union4(none) =~= Set::<int>::empty());
        assert(union4(hand).union(union4(none)) =~= deck());
        assert(views4(none) =~= empty_sets());
    }
    let e = Cards::empty();
    proof {
        assert(remaining(hand, e) =~= union4(hand));
        assert(hand[player as int]@.difference(e@) =~= hand[player as int]@);
    }
    opt_inner(player, hand, none, charged, e, None, e)
}

/// Picks the charges and resolves the deal. Starting from no charges, each player in seat
/// order, the others' choices fixed, adds the held chargeable card whose charge brings them
/// the most money, and again, as long as some such card brings more than they have; the
/// first tried (the highest) wins a tie. Returns the cards each player took under the
/// charges so reached.
pub fn opt_hand(hand: [Cards; 4]) -> (r: [Cards; 4])
    requires
        is_partition(hand),
    ensures
        views4(r) == charged_outcome(views4(hand)),
        is_partition(r),
{
    let ghost hs = views4(hand);
    proof {
        lemma_views4(hand);
    }
    let player = holder_of(hand, Card::two_clubs());
    let mut opt_charged = Cards::empty();
    let mut opt_won = opt_post_charge(player, hand, opt_charged);
    let mut i: usize = 0;
    proof {
        assert(player as int == holder_in(hs, two_of_clubs()));
        assert(deck().contains(two_of_clubs()));
        assert(hand[player as int]@.contains(two_of_clubs()));
    }
    while i < 4
        invariant
            i <= 4,
            player < 4,
            player as int == holder_in(hs, two_of_clubs()),
            hs == views4(hand),
            is_partition(hand),
            hand[player as int]@ != Set::<int>::empty(),
            opt_charged@.subset_of(chargeable_set()),
            is_partition(opt_won),
            select(hs, player as int, i as int, opt_charged@, views4(opt_won)) == charged_outcome(hs),
        decreases 4 - i,
    {
        let mut opt_money = money(opt_won, opt_charged, i);
        let held = hand[i].intersection(Cards::chargeable());
        let mut improving = true;
        let ghost start = improve(
            hs,
            player as int,
            i as int,
            opt_charged@,
            views4(opt_won),
            held@.difference(opt_charged@).len(),
        );
        proof {
            lemma_views4(hand);
            held.lemma_valid();
            assert(held@ == hs[i as int].intersect(chargeable_set()));
        }
        while improving
            invariant
                i < 4,
                player < 4,
                hs == views4(hand),
                is_partition(hand),
                held@.finite(),
                held@ == hs[i as int].intersect(chargeable_set()),
                hand[player as int]@ != Set::<int>::empty(),
                opt_charged@.subset_of(chargeable_set()),
                is_partition(opt_won),
                opt_money as int == money_of(views4(opt_won), opt_charged@, i as int),
                improving ==> improve(
                    hs,
                    player as int,
                    i as int,
                    opt_charged@,
                    views4(opt_won),
                    held@.difference(opt_charged@).len(),
                ) == start,
                !improving ==> (opt_charged@, views4(opt_won)) == start,
            decreases held@.difference(opt_charged@).len() + if improving {
                1int
            } else {
                0int
            },
        {
            let mut untried = held.difference(opt_charged);
            let ghost before = held@.difference(opt_charged@);
            let mut pick: Option<(Cards, [Cards; 4], i32)> = None;
            let ghost mut k: int = 63;
            proof {
                untried.lemma_valid();
            }
            while !untried.is_empty()
                invariant
                    i < 4,
                    player < 4,
                    is_partition(hand),
                    held@ == hs[i as int].intersect(chargeable_set()),
                    hand[player as int]@ != Set::<int>::empty(),
                    opt_charged@.subset_of(chargeable_set()),
                    hs == views4(hand),
                    held@.finite(),
                    before == held@.difference(opt_charged@),
                    before.subset_of(deck()),
                    -1 <= k <= 63,
                    forall|c: int| #[trigger] untried@.contains(c) <==> (before.contains(c) && c <= k),
                    untried@.finite(),
                    pick_from(hs, player as int, i as int, opt_charged@, k, before, opt_money as int, pick_view(pick))
                        == pick_from(hs, player as int, i as int, opt_charged@, 63, before, opt_money as int, None),
                    pick matches Some(p) ==> p.2 as int == money_of(views4(p.1), p.0@, i as int),
                    pick matches Some(p) ==> is_partition(p.1) && p.0@.subset_of(chargeable_set()) && exists|c: int|
                        #[trigger] before.contains(c) && p.0@ == opt_charged@.insert(c),
                decreases untried@.len(),
            {
                let card = untried.max();
                let ghost m = card@;
                proof {
                    assert forall|c: int| m < c <= k implies !before.contains(c) by {
                        if before.contains(c) {
                            assert(untried@.contains(c));
                        }
                    }
                    lemma_pick_skip(hs, player as int, i as int, opt_charged@, k, m, before, opt_money as int, pick_view(pick));
                }
                untried = untried.without(card);
                let next_charged = opt_charged.with(card);
                let next_won = opt_post_charge(player, hand, next_charged);
                let next_money = money(next_won, next_charged, i);
                let to_beat = match pick {
                    None => opt_money,
                    Some(p) => p.2,
                };
                if next_money > to_beat {
                    assert(before.contains(card@));
                    pick = Some((next_charged, next_won, next_money));
                }
                proof {
                    k = m - 1;
                    assert forall|c: int| #[trigger] untried@.contains(c) <==> (before.contains(c) && c <= k) by {
                    }
                }
            }
            proof {
                assert forall|c: int| -1 < c <= k implies !before.contains(c) by {
                    if before.contains(c) {
                        assert(untried@.contains(c));
                    }
                }
                lemma_pick_skip(hs, player as int, i as int, opt_charged@, k, -1, before, opt_money as int, pick_view(pick));
            }
            match pick {
                None => {
                    improving = false;
                },
                Some(p) => {
                    proof {
                        let c = choose|c: int| #[trigger] before.contains(c) && p.0@ == opt_charged@.insert(c);
                        assert(held@.difference(p.0@) =~= before.remove(c));
                        assert(before.len() > 0);
                    }
                    opt_charged = p.0;
                    opt_won = p.1;
                    opt_money = p.2;
                },
            }
        }
        i = i + 1;
    }
    opt_won
}

/// Why a deal, or a set of charges, cannot be played.
#[derive(Clone, Copy, PartialEq, Eq, Structural, Debug)]
pub enum DealError {
    /// Two hands share a card.
    Overlap,
    /// Some card is in no hand.
    Missing,
    /// A charged card is not one of the four chargeable cards.
    IllegalCharge,
}

/// Checks that the hands split the deck.
pub fn check_deal(hand: [Cards; 4]) -> (r: Result<(), DealError>)
    ensures
        r is Ok <==> is_partition(hand),
        r == Err::<(), DealError>(DealError::Overlap) <==> !disjoint4(hand),
        r == Err::<(), DealError>(DealError::Missing) <==> disjoint4(hand) && union4(hand) != deck(),
{
    if hand[0].intersects(hand[1]) || hand[0].intersects(hand[2]) || hand[0].intersects(hand[3])
        || hand[1].intersects(hand[2]) || hand[1].intersects(hand[3]) || hand[2].intersects(
        hand[3],
    ) {
        return Err(DealError::Overlap);
    }
    let all = hand[0].union(hand[1]).union(hand[2]).union(hand[3]);
    proof {
        all.lemma_valid();
    }
    if !all.contains(Cards::all()) {
        return Err(DealError::Missing);
    }
    assert(union4(hand) =~= deck());
    Ok(())
}

/// Picks the charges and resolves a deal given as four hands, or says why the hands do not
/// split the deck.
pub fn solve(hand: [Cards; 4]) -> (r: Result<[Cards; 4], DealError>)
    ensures
        r is Ok <==> is_partition(hand),
        r == Err::<[Cards; 4], DealError>(DealError::Overlap) <==> !disjoint4(hand),
        r == Err::<[Cards; 4], DealError>(DealError::Missing) <==> disjoint4(hand) && union4(hand)
            != deck(),
        r matches Ok(w) ==> views4(w) == charged_outcome(views4(hand)) && is_partition(w),
{
    match check_deal(hand) {
        Err(e) => Err(e),
        Ok(()) => Ok(opt_hand(hand)),
    }
}

/// Resolves a deal under the given charges, the holder of the two of clubs to lead, or says
/// why the hands or the charges cannot be played.
pub fn solve_charged(hand: [Cards; 4], charged: Cards) -> (r: Result<[Cards; 4], DealError>)
    ensures
        r is Ok <==> is_partition(hand) && charged@.subset_of(chargeable_set()),
        r == Err::<[Cards; 4], DealError>(DealError::Overlap) <==> !disjoint4(hand),
        r == Err::<[Cards; 4], DealError>(DealError::Missing) <==> disjoint4(hand) && union4(hand)
            != deck(),
        r == Err::<[Cards; 4], DealError>(DealError::IllegalCharge) <==> is_partition(hand)
            && !charged@.subset_of(chargeable_set()),
        r matches Ok(w) ==> views4(w) == resolve(
            holder_in(views4(hand), two_of_clubs()),
            views4(hand),
            charged@,
        ) && is_partition(w),
{
    match check_deal(hand) {
        Err(e) => Err(e),
        Ok(()) => {
            if !Cards::chargeable().contains(charged) {
                return Err(DealError::IllegalCharge);
            }
            let player = holder_of(hand, Card::two_clubs());
            proof {
                lemma_views4(hand);
                assert(deck().contains(two_of_clubs()));
                assert(hand[player as int]@.contains(two_of_clubs()));
                assert(player as int == holder_in(views4(hand), two_of_clubs()));
            }
            Ok(opt_post_charge(player, hand, charged))
        },
    }
}

} // verus!
