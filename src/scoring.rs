use vstd::prelude::*;

use crate::cards::{
    ace_of_hearts, jack_of_diamonds, queen_of_spades, suit_set, ten_of_clubs, views4, Cards,
    HEARTS,
};

verus! {

/// Points for hearts: one each, two when the ace of hearts is charged.
pub open spec fn hearts_points(won: Set<int>, charged: Set<int>) -> int {
    let n = won.intersect(suit_set(HEARTS as int)).len() as int;
    if charged.contains(ace_of_hearts()) {
        2 * n
    } else {
        n
    }
}

pub open spec fn queen_points(won: Set<int>, charged: Set<int>) -> int {
    if !won.contains(queen_of_spades()) {
        0
    } else if charged.contains(queen_of_spades()) {
        26
    } else {
        13
    }
}

pub open spec fn jack_points(won: Set<int>, charged: Set<int>) -> int {
    if !won.contains(jack_of_diamonds()) {
        0
    } else if charged.contains(jack_of_diamonds()) {
        -20
    } else {
        -10
    }
}

/// The ten of clubs multiplies the score: by 2 when taken, by 4 when also charged.
pub open spec fn ten_multiplier(won: Set<int>, charged: Set<int>) -> int {
    if !won.contains(ten_of_clubs()) {
        1
    } else if charged.contains(ten_of_clubs()) {
        4
    } else {
        2
    }
}

/// Whether the cards taken hold the queen of spades and every heart.
pub open spec fn shoots(won: Set<int>) -> bool {
    won.contains(queen_of_spades()) && suit_set(HEARTS as int).subset_of(won)
}

/// The score of the cards a player took.
pub open spec fn score_of(won: Set<int>, charged: Set<int>) -> int {
    let hearts = hearts_points(won, charged);
    let queen = queen_points(won, charged);
    let jack = jack_points(won, charged);
    let ten = ten_multiplier(won, charged);
    if shoots(won) {
        ten * (jack - hearts - queen)
    } else {
        ten * (jack + hearts + queen)
    }
}

/// What `player` wins: the other three scores less three times the player's own.
pub open spec fn money_of(won: Seq<Set<int>>, charged: Set<int>, player: int) -> int {
    score_of(won[(player + 1) % 4], charged) + score_of(won[(player + 2) % 4], charged)
        + score_of(won[(player + 3) % 4], charged) - 3 * score_of(won[player], charged)
}

/// The score of the cards `won`, given the charged cards.
pub fn score(won: Cards, charged: Cards) -> (r: i32)
    ensures
        r as int == score_of(won@, charged@),
        -1000 <= r <= 1000,
{
    let hearts_taken = won.intersection(Cards::hearts()).len() as i32;
    let hearts: i32 = if charged.intersects(Cards::ace_hearts()) {
        2 * hearts_taken
    } else {
        hearts_taken
    };
    let queen: i32 = if !won.intersects(Cards::queen_spades()) {
        0
    } else if charged.intersects(Cards::queen_spades()) {
        26
    } else {
        13
    };
    let jack: i32 = if !won.intersects(Cards::jack_diamonds()) {
        0
    } else if charged.intersects(Cards::jack_diamonds()) {
        -20
    } else {
        -10
    };
    let ten: i32 = if !won.intersects(Cards::ten_clubs()) {
        1
    } else if charged.intersects(Cards::ten_clubs()) {
        4
    } else {
        2
    };
    proof {
        assert(charged@.contains(ace_of_hearts()) == !charged@.disjoint(set![ace_of_hearts()]));
        assert(won@.contains(queen_of_spades()) == !won@.disjoint(set![queen_of_spades()]));
        assert(won@.contains(jack_of_diamonds()) == !won@.disjoint(set![jack_of_diamonds()]));
        assert(won@.contains(ten_of_clubs()) == !won@.disjoint(set![ten_of_clubs()]));
        assert(charged@.contains(queen_of_spades()) == !charged@.disjoint(
            set![queen_of_spades()],
        ));
        assert(charged@.contains(jack_of_diamonds()) == !charged@.disjoint(
            set![jack_of_diamonds()],
        ));
        assert(charged@.contains(ten_of_clubs()) == !charged@.disjoint(set![ten_of_clubs()]));
    }
    if won.intersects(Cards::queen_spades()) && won.contains(Cards::hearts()) {
        ten * (jack - hearts - queen)
    } else {
        ten * (jack + hearts + queen)
    }
}

/// What `player` wins from the cards each player took: the other three scores less three
/// times the player's own, so that the four amounts add up to nothing.
pub fn money(won: [Cards; 4], charged: Cards, player: usize) -> (r: i32)
    requires
        player < 4,
    ensures
        r as int == money_of(views4(won), charged@, player as int),
{
    let me = score(won[player], charged);
    let left = score(won[(player + 1) % 4], charged);
    let across = score(won[(player + 2) % 4], charged);
    let right = score(won[(player + 3) % 4], charged);
    left + across + right - 3 * me
}

/// The four players' money adds up to zero, whatever each took and whatever was charged.
pub proof fn lemma_zero_sum(won: Seq<Set<int>>, charged: Set<int>)
    ensures
        money_of(won, charged, 0) + money_of(won, charged, 1) + money_of(won, charged, 2)
            + money_of(won, charged, 3) == 0,
{
}

} // verus!
