use hearts_solver::cards::{Card, Cards};
use hearts_solver::deal::{deal_from, deal_hands};
use hearts_solver::notation::ParseError;
use hearts_solver::rules::{distinct_plays, is_nined, legal_plays};
use hearts_solver::scoring::{money, score};
use hearts_solver::search::{
    holder_of, opt_inner, play_card, solve, solve_charged, DealError,
};

fn cards(s: &str) -> Cards {
    Cards::parse(s).unwrap()
}

fn card(s: &str) -> Card {
    cards(s).max()
}

#[test]
fn round_trip_on_examples() {
    for text in [
        "",
        "AS",
        "2C",
        "AQT8642S KJ9753H AQT8642D KJ9753C",
        "AKQJT98765432S AKQJT98765432H AKQJT98765432D AKQJT98765432C",
        "9H 9C",
    ] {
        let set = cards(text);
        assert_eq!(set.to_string(), text);
        assert_eq!(Cards::parse(&set.to_string()), Ok(set));
    }
    let all = Cards::all();
    assert_eq!(Cards::parse(&all.to_string()), Ok(all));
}

#[test]
fn parse_accepts_ranks_in_any_order() {
    assert_eq!(cards("2AKS 3TH"), cards("AK2S T3H"));
    assert_eq!(cards("2AKS 3TH").to_string(), "AK2S T3H");
}

#[test]
fn parse_reports_errors() {
    assert_eq!(Cards::parse("AX"), Err(ParseError::Unexpected(1)));
    assert_eq!(Cards::parse(" AS"), Err(ParseError::Unexpected(0)));
    assert_eq!(Cards::parse("AS  KH"), Err(ParseError::Unexpected(3)));
    assert_eq!(Cards::parse("S"), Err(ParseError::Unexpected(0)));
    assert_eq!(Cards::parse("ASK"), Err(ParseError::Unexpected(2)));
    assert_eq!(Cards::parse("AK"), Err(ParseError::Incomplete));
    assert_eq!(Cards::parse("AS "), Err(ParseError::Incomplete));
}

#[test]
fn empty_set_has_empty_text() {
    assert_eq!(Cards::empty().to_string(), "");
    assert_eq!(Cards::parse(""), Ok(Cards::empty()));
    assert!(Cards::empty().is_empty());
}

#[test]
fn card_text_and_suit() {
    let nine = card("9H");
    assert_eq!(nine.to_string(), "9H");
    assert_eq!(nine.suit(), Cards::hearts());
    assert_eq!(Card::new(3, 1).suit(), Cards::spades());
    assert_eq!(Card::two_clubs().as_cards(), cards("2C"));
}

#[test]
fn set_len_max_and_suit() {
    assert_eq!(Cards::all().len(), 52);
    assert_eq!(cards("AKS 2C").len(), 3);
    assert_eq!(Cards::empty().len(), 0);
    assert_eq!(cards("KH 2S 3C").max().as_cards(), cards("2S"));
    assert_eq!(cards("KH 3C").suit(), Cards::hearts());
    assert_eq!(cards("3C").suit(), Cards::clubs());
    assert_eq!(Cards::empty().suit(), Cards::empty());
}

#[test]
fn scoring_vector_example() {
    let hand = cards("AJT5S J63H 96D A953C");
    assert_eq!(score(hand, Cards::empty()), 3);
    assert_eq!(score(hand, Cards::ace_hearts()), 6);
}

#[test]
fn shooting_inverts_the_score() {
    let sweep = Cards::hearts().union(Cards::queen_spades());
    assert_eq!(score(sweep, Cards::empty()), -26);
    let sweep_ten = sweep.union(Cards::ten_clubs());
    assert_eq!(score(sweep_ten, Cards::ten_clubs()), -104);
    assert_eq!(score(Cards::jack_diamonds(), Cards::empty()), -10);
    assert_eq!(score(Cards::jack_diamonds(), Cards::jack_diamonds()), -20);
    assert_eq!(score(Cards::empty(), Cards::empty()), 0);
}

#[test]
fn money_sums_to_zero() {
    let won = [
        cards("AJT5S J63H 96D A953C"),
        cards("973S T92H K7D KT74C"),
        cards("KQ6S A5H JT542D Q82C"),
        cards("84S KQ874H AQ83D J6C"),
    ];
    for charged in [
        Cards::empty(),
        Cards::ace_hearts(),
        Cards::ten_clubs(),
        Cards::chargeable(),
        Cards::queen_spades().union(Cards::jack_diamonds()),
    ] {
        let total: i32 = (0..4).map(|p| money(won, charged, p)).sum();
        assert_eq!(total, 0);
    }
}

#[test]
fn pruning_example() {
    assert_eq!(
        distinct_plays(
            cards("AQT8642S KJ9753H AQT8642D KJ9753C"),
            cards("KJ9753S AQT8642H KJ9753D AQT8642C"),
            Cards::empty()
        )
        .to_string(),
        "AQTS K97H AD K97C"
    );
    assert_eq!(
        distinct_plays(Cards::empty(), Cards::empty(), Cards::empty()),
        Cards::empty()
    );
    assert_eq!(
        distinct_plays(cards("T8S"), cards("9S"), Cards::empty()),
        cards("TS")
    );
}

#[test]
fn two_of_clubs_is_forced() {
    assert_eq!(
        legal_plays(
            cards("AQ54S 543H AKQ2C 83D"),
            Cards::empty(),
            Cards::empty(),
            None,
            false
        )
        .to_string(),
        "2C"
    );
}

#[test]
fn nine_holds_the_trick() {
    assert!(is_nined(cards("9S 5S 3S 2S"), card("5S")));
    assert!(!is_nined(cards("T9S 3S 2S"), card("3S")));
    assert!(!is_nined(cards("8S 5S 3S 2S"), card("5S")));
    assert!(is_nined(cards("AS 9H 3H 2H"), card("3H")));
}

#[test]
fn holder_of_finds_the_seat() {
    let hands = [
        Cards::spades(),
        Cards::hearts(),
        Cards::clubs(),
        Cards::diamonds(),
    ];
    assert_eq!(holder_of(hands, Card::two_clubs()), 2);
    assert_eq!(holder_of(hands, card("QS")), 0);
    assert_eq!(holder_of(hands, card("JD")), 3);
    assert_eq!(holder_of(hands, card("AH")), 1);
}

fn end_game() -> ([Cards; 4], [Cards; 4]) {
    let hands = [cards("AS 2H"), cards("KS 3H"), cards("JS 4H"), cards("TS 5H")];
    let in_hand = hands[0].union(hands[1]).union(hands[2]).union(hands[3]);
    let won = [
        Cards::all().difference(in_hand),
        Cards::empty(),
        Cards::empty(),
        Cards::empty(),
    ];
    (hands, won)
}

#[test]
fn search_resolves_an_end_game() {
    let (hands, won) = end_game();
    let r = opt_inner(0, hands, won, Cards::empty(), Cards::all(), None, Cards::empty());
    assert_eq!(r[0], won[0].union(cards("AKJTS")));
    assert_eq!(r[1], Cards::empty());
    assert_eq!(r[2], Cards::empty());
    assert_eq!(r[3], cards("5432H"));
}

#[test]
fn search_is_deterministic() {
    let (hands, won) = end_game();
    let a = opt_inner(0, hands, won, Cards::empty(), Cards::all(), None, Cards::empty());
    let b = opt_inner(0, hands, won, Cards::empty(), Cards::all(), None, Cards::empty());
    assert_eq!(a, b);
    let total = a[0].union(a[1]).union(a[2]).union(a[3]);
    assert_eq!(total, Cards::all());
}

#[test]
fn finished_deal_is_returned_unchanged() {
    let won = [
        Cards::spades(),
        Cards::hearts(),
        Cards::clubs(),
        Cards::diamonds(),
    ];
    let none = [Cards::empty(), Cards::empty(), Cards::empty(), Cards::empty()];
    let r = opt_inner(1, none, won, Cards::empty(), Cards::all(), None, Cards::empty());
    assert_eq!(r, won);
}

#[test]
fn deal_splits_the_deck() {
    let hands = deal_hands();
    let mut total = Cards::empty();
    for h in hands {
        assert_eq!(h.len(), 13);
        assert!(!total.intersects(h));
        total = total.union(h);
    }
    assert_eq!(total, Cards::all());
}

#[test]
fn deal_shuffles() {
    let laid_out = [
        Cards::clubs(),
        Cards::diamonds(),
        Cards::hearts(),
        Cards::spades(),
    ];
    let a = deal_hands();
    let b = deal_hands();
    assert!(a != laid_out || b != laid_out);
}

fn table(hands: [Cards; 4]) -> [Cards; 4] {
    let in_hand = hands[0].union(hands[1]).union(hands[2]).union(hands[3]);
    [
        Cards::all().difference(in_hand),
        Cards::empty(),
        Cards::empty(),
        Cards::empty(),
    ]
}

#[test]
fn nine_keeps_the_trick_open_until_beaten() {
    let hands = [cards("T2S"), cards("9S 8H"), cards("3S 7H"), cards("4S 6H")];
    let won = table(hands);
    let played = won[0];
    let mut state = (0usize, hands, won, Cards::all(), None, Cards::empty());
    for (seat, text) in [(0usize, "2S"), (1, "9S"), (2, "3S"), (3, "4S")] {
        assert_eq!(state.0, seat);
        state = play_card(state.0, state.1, state.2, state.3, state.4, state.5, played, card(text));
    }
    assert_eq!(state.5, cards("9432S"));
    assert_eq!(state.0, 0);
    let after = play_card(state.0, state.1, state.2, state.3, state.4, state.5, played, card("TS"));
    assert_eq!(after.5, Cards::empty());
    assert_eq!(after.2[0], played.union(cards("T9432S")));
    // seat 0 took the trick but has no card left, so the turn passes on
    assert_eq!(after.0, 1);
    assert_eq!(after.1[1], cards("8H"));
}

#[test]
fn last_trick_closes_even_when_a_nine_holds_it() {
    let hands = [cards("9S"), cards("2S"), cards("3S"), cards("4S")];
    let won = table(hands);
    let played = won[0];
    let mut state = (0usize, hands, won, Cards::all(), None, Cards::empty());
    for text in ["9S", "2S", "3S", "4S"] {
        state = play_card(state.0, state.1, state.2, state.3, state.4, state.5, played, card(text));
    }
    assert_eq!(state.5, Cards::empty());
    assert_eq!(state.2[0], Cards::all());
}

#[test]
fn deal_from_gives_each_seat_thirteen_places() {
    let mut deck: Vec<u8> = Vec::new();
    for i in 0..52u8 {
        deck.push(16 * (i / 13) + i % 13);
    }
    let hands = deal_from(&deck);
    assert_eq!(hands, [Cards::clubs(), Cards::diamonds(), Cards::hearts(), Cards::spades()]);
    deck.reverse();
    let hands = deal_from(&deck);
    assert_eq!(hands, [Cards::spades(), Cards::hearts(), Cards::diamonds(), Cards::clubs()]);
}

#[test]
fn last_card_closes_a_trick_of_any_size() {
    let hands = [cards("AS"), Cards::empty(), Cards::empty(), Cards::empty()];
    let won = table(hands);
    let after = play_card(0, hands, won, Cards::all(), None, Cards::empty(), won[0], card("AS"));
    assert_eq!(after.5, Cards::empty());
    assert_eq!(after.2[0], Cards::all());
}

#[test]
fn search_finishes_an_uneven_end_game() {
    let hands = [cards("AS 2H"), cards("KS"), cards("JS"), cards("TS")];
    let won = table(hands);
    let r = opt_inner(0, hands, won, Cards::empty(), Cards::all(), None, Cards::empty());
    assert_eq!(r, [Cards::all(), Cards::empty(), Cards::empty(), Cards::empty()]);
}

#[test]
fn solve_rejects_bad_deals_and_charges() {
    let overlap = [cards("AS"), cards("AS"), Cards::empty(), Cards::empty()];
    assert_eq!(solve(overlap), Err(DealError::Overlap));
    let missing = [Cards::spades(), Cards::hearts(), Cards::clubs(), Cards::empty()];
    assert_eq!(solve(missing), Err(DealError::Missing));
    assert_eq!(solve_charged(missing, Cards::empty()), Err(DealError::Missing));
    let deal = [Cards::spades(), Cards::hearts(), Cards::clubs(), Cards::diamonds()];
    assert_eq!(solve_charged(deal, cards("2C")), Err(DealError::IllegalCharge));
    assert_eq!(
        solve_charged(deal, Cards::queen_spades().union(cards("3C"))),
        Err(DealError::IllegalCharge)
    );
}
