use hearts_solver::cards::{Card, Cards};
use hearts_solver::rules::{distinct_plays, legal_plays, trick_winner};
use hearts_solver::scoring::{money, score};

fn cards(s: &str) -> Cards {
    Cards::parse(s).unwrap()
}

fn card(s: &str) -> Card {
    cards(s).max()
}

#[test]
fn test_cards_display() {
    assert_eq!(
        Cards::chargeable().union(Cards::nines()).to_string(),
        "Q9S A9H J9D T9C"
    );
}

#[test]
fn test_cards_parse() {
    assert_eq!(
        Cards::parse("Q9S A9H J9D T9C"),
        Ok(Cards::chargeable().union(Cards::nines()))
    );
}

#[test]
fn test_score() {
    let qs_tc = Cards::queen_spades().union(Cards::ten_clubs());
    let ah_tc = Cards::ace_hearts().union(Cards::ten_clubs());
    let c = cards("AJT5S J63H 96D A953C");
    assert_eq!(score(c, Cards::empty()), 3);
    assert_eq!(score(c, qs_tc), 3);
    assert_eq!(score(c, Cards::jack_diamonds()), 3);
    assert_eq!(score(c, Cards::ace_hearts()), 6);
    assert_eq!(score(c, ah_tc), 6);
    let c = cards("973S T92H K7D KT74C");
    assert_eq!(score(c, Cards::empty()), 6);
    assert_eq!(score(c, qs_tc), 12);
    assert_eq!(score(c, Cards::jack_diamonds()), 6);
    assert_eq!(score(c, Cards::ace_hearts()), 12);
    assert_eq!(score(c, ah_tc), 24);
    let c = cards("KQ6S A5H JT542D Q82C");
    assert_eq!(score(c, Cards::empty()), 5);
    assert_eq!(score(c, qs_tc), 18);
    assert_eq!(score(c, Cards::jack_diamonds()), -5);
    assert_eq!(score(c, Cards::ace_hearts()), 7);
    assert_eq!(score(c, ah_tc), 7);
    let c = cards("84S KQ874H AQ83D J6C");
    assert_eq!(score(c, Cards::empty()), 5);
    assert_eq!(score(c, qs_tc), 5);
    assert_eq!(score(c, Cards::jack_diamonds()), 5);
    assert_eq!(score(c, Cards::ace_hearts()), 10);
    assert_eq!(score(c, ah_tc), 10);
    let c = Cards::hearts().union(Cards::queen_spades());
    assert_eq!(score(c, Cards::empty()), -26);
    assert_eq!(score(c, qs_tc), -39);
    assert_eq!(score(c, Cards::jack_diamonds()), -26);
    assert_eq!(score(c, Cards::ace_hearts()), -39);
    assert_eq!(score(c, ah_tc), -39);
}

#[test]
fn test_money() {
    let c1 = cards("AJT5S J63H 96D A953C");
    let c2 = cards("973S T92H K7D KT74C");
    let c3 = cards("KQ6S A5H JT542D Q82C");
    let c4 = cards("84S KQ874H AQ83D J6C");
    let won = [c1, c2, c3, c4];
    assert_eq!(money(won, Cards::empty(), 0), 7);
    assert_eq!(money(won, Cards::empty(), 1), -5);
    assert_eq!(money(won, Cards::empty(), 2), -1);
    assert_eq!(money(won, Cards::empty(), 3), -1);
    assert_eq!(money(won, Cards::ace_hearts(), 0), 11);
    assert_eq!(money(won, Cards::ace_hearts(), 1), -13);
    assert_eq!(money(won, Cards::ace_hearts(), 2), 7);
    assert_eq!(money(won, Cards::ace_hearts(), 3), -5);
    assert_eq!(money(won, Cards::ten_clubs(), 0), 13);
    assert_eq!(money(won, Cards::ten_clubs(), 1), -23);
    assert_eq!(money(won, Cards::ten_clubs(), 2), 5);
    assert_eq!(money(won, Cards::ten_clubs(), 3), 5);
}

#[test]
fn test_distinct_plays() {
    assert_eq!(
        distinct_plays(
            cards("AQT8642S KJ9753H AQT8642D KJ9753C"),
            cards("KJ9753S AQT8642H KJ9753D AQT8642C"),
            Cards::empty()
        ),
        cards("AQTS K97H AD K97C")
    );
    assert_eq!(
        distinct_plays(cards("K7S"), cards("QJT98S"), Cards::empty()),
        cards("KS")
    );
    assert_eq!(
        distinct_plays(cards("Q7S"), cards("JT98S"), Cards::empty()),
        cards("Q7S")
    );
    println!(
        "{}",
        distinct_plays(cards("AKH"), Cards::empty(), Cards::empty()).to_string()
    );
    assert_eq!(
        distinct_plays(cards("AKH"), Cards::empty(), Cards::empty()),
        cards("AH")
    );
    assert_eq!(
        distinct_plays(cards("AKH"), Cards::empty(), Cards::ace_hearts()),
        cards("AKH")
    );
    assert_eq!(
        distinct_plays(cards("A2D"), cards("KQJT9876543D"), Cards::empty()),
        cards("AD")
    );
}

#[test]
fn test_legal_plays_lead() {
    assert_eq!(
        legal_plays(
            cards("AQ54S 543H AKQ2C 83D"),
            Cards::empty(),
            Cards::empty(),
            None,
            false
        ),
        cards("2C")
    );
    assert_eq!(
        legal_plays(
            cards("AQ54S 543H AKC 83D"),
            Cards::empty(),
            Cards::clubs(),
            None,
            false
        ),
        cards("AQ54S AKC 83D")
    );
    assert_eq!(
        legal_plays(
            cards("AT543H"),
            Cards::empty(),
            Cards::spades().union(Cards::diamonds()).union(Cards::clubs()),
            None,
            false
        ),
        cards("AT543H")
    );
    assert_eq!(
        legal_plays(
            cards("AQ54S 543H AKC 83D"),
            Cards::queen_spades(),
            Cards::diamonds().union(Cards::clubs()),
            None,
            true
        ),
        cards("A54S 543H AKC 83D")
    );
    assert_eq!(
        legal_plays(
            cards("AQ54S 543H AKC 83D"),
            Cards::queen_spades(),
            Cards::spades().union(Cards::clubs()),
            None,
            true
        ),
        cards("AQ54S 543H AKC 83D")
    );
    assert_eq!(
        legal_plays(
            cards("AKQJT9H JD"),
            Cards::jack_diamonds(),
            Cards::spades().union(Cards::clubs()),
            None,
            false
        ),
        cards("JD")
    );
    assert_eq!(
        legal_plays(
            cards("AKQJT9H JD"),
            Cards::jack_diamonds(),
            Cards::spades().union(Cards::clubs()).union(Cards::diamonds()),
            None,
            false
        ),
        cards("JD")
    );
    assert_eq!(
        legal_plays(
            cards("AKQJT9H JD"),
            Cards::jack_diamonds(),
            Cards::spades().union(Cards::clubs()),
            None,
            true
        ),
        cards("AKQJT9H")
    );
}

#[test]
fn test_legal_plays_follow_first_trick() {
    assert_eq!(
        legal_plays(
            cards("AQ54S 543H AKQ3C 83D"),
            Cards::empty(),
            Cards::empty(),
            Some(card("2C")),
            false
        ),
        cards("AKQ3C")
    );
    assert_eq!(
        legal_plays(
            cards("AQ5432S 8543H T83D"),
            Cards::empty(),
            Cards::empty(),
            Some(card("2C")),
            false
        ),
        cards("A5432S T83D")
    );
    assert_eq!(
        legal_plays(
            cards("QS AKQJT987654H JD"),
            Cards::empty(),
            Cards::empty(),
            Some(card("2C")),
            false
        ),
        cards("JD")
    );
    assert_eq!(
        legal_plays(
            cards("QS AKQJT9876542H"),
            Cards::queen_spades(),
            Cards::empty(),
            Some(card("2C")),
            false
        ),
        cards("QS")
    );
    assert_eq!(
        legal_plays(
            cards("AKQJT98765432H"),
            Cards::queen_spades(),
            Cards::empty(),
            Some(card("2C")),
            false
        ),
        cards("AKQJT98765432H")
    );
    assert_eq!(
        legal_plays(
            cards("AKQJT98765432H"),
            Cards::ace_hearts(),
            Cards::empty(),
            Some(card("2C")),
            false
        ),
        cards("AKQJT98765432H")
    );
}

#[test]
fn test_legal_plays_follow() {
    assert_eq!(
        legal_plays(
            cards("AQS 54H AQ3C 83D"),
            Cards::queen_spades(),
            Cards::clubs().union(Cards::diamonds()),
            Some(card("7C")),
            false
        ),
        cards("AQ3C")
    );
    assert_eq!(
        legal_plays(
            cards("AQS 54H 83D"),
            Cards::queen_spades(),
            Cards::clubs().union(Cards::diamonds()),
            Some(card("7C")),
            false
        ),
        cards("AQS 54H 83D")
    );
    assert_eq!(
        legal_plays(
            cards("AQS 54H AQ3C 83D"),
            Cards::queen_spades(),
            Cards::clubs().union(Cards::diamonds()),
            Some(card("7S")),
            false
        ),
        cards("AS")
    );
    assert_eq!(
        legal_plays(
            cards("QS 54H AQ3C 83D"),
            Cards::queen_spades(),
            Cards::clubs().union(Cards::diamonds()),
            Some(card("7S")),
            false
        ),
        cards("QS")
    );
}

#[test]
fn test_trick_winner() {
    assert_eq!(
        trick_winner(cards("A8S 96H"), card("6H")).as_cards(),
        cards("9H")
    );
}
