use vstd::prelude::*;

use crate::cards::{card_of, is_card, suit_of, suit_set, Card, Cards, CLUBS};
use crate::rules::meets;

verus! {

/// The rank a character names, from 0 for the two to 12 for the ace, or -1.
pub open spec fn rank_value(ch: char) -> int {
    if ch == '2' {
        0
    } else if ch == '3' {
        1
    } else if ch == '4' {
        2
    } else if ch == '5' {
        3
    } else if ch == '6' {
        4
    } else if ch == '7' {
        5
    } else if ch == '8' {
        6
    } else if ch == '9' {
        7
    } else if ch == 'T' {
        8
    } else if ch == 'J' {
        9
    } else if ch == 'Q' {
        10
    } else if ch == 'K' {
        11
    } else if ch == 'A' {
        12
    } else {
        -1
    }
}

/// The suit a character names, from 0 for clubs to 3 for spades, or -1.
pub open spec fn suit_value(ch: char) -> int {
    if ch == 'C' {
        0
    } else if ch == 'D' {
        1
    } else if ch == 'H' {
        2
    } else if ch == 'S' {
        3
    } else {
        -1
    }
}

pub open spec fn rank_char(r: int) -> char {
    if r == 0 {
        '2'
    } else if r == 1 {
        '3'
    } else if r == 2 {
        '4'
    } else if r == 3 {
        '5'
    } else if r == 4 {
        '6'
    } else if r == 5 {
        '7'
    } else if r == 6 {
        '8'
    } else if r == 7 {
        '9'
    } else if r == 8 {
        'T'
    } else if r == 9 {
        'J'
    } else if r == 10 {
        'Q'
    } else if r == 11 {
        'K'
    } else {
        'A'
    }
}

pub open spec fn suit_char(s: int) -> char {
    if s == 0 {
        'C'
    } else if s == 1 {
        'D'
    } else if s == 2 {
        'H'
    } else {
        'S'
    }
}

/// The cards of suit `s` whose ranks are in `ranks`.
pub open spec fn lay(ranks: Set<int>, s: int) -> Set<int> {
    Set::new(|c: int| is_card(c) && suit_of(c) == s && ranks.contains(c % 16))
}

/// What the reader holds: the cards read, the ranks of the open group, and where it is
/// (0: before a group, 1: among a group's ranks, 2: just after a suit).
pub type Reading = (Set<int>, Set<int>, int);

/// One character read.
pub open spec fn step(st: Option<Reading>, ch: char) -> Option<Reading> {
    match st {
        None => None,
        Some((acc, ranks, at)) => if 0 <= rank_value(ch) && at != 2 {
            Some((acc, ranks.insert(rank_value(ch)), 1))
        } else if 0 <= suit_value(ch) && at == 1 {
            Some((acc.union(lay(ranks, suit_value(ch))), Set::empty(), 2))
        } else if ch == ' ' && at == 2 {
            Some((acc, Set::empty(), 0))
        } else {
            None
        },
    }
}

/// The characters of `s` read in order from `st`.
pub open spec fn run(s: Seq<char>, st: Option<Reading>) -> Option<Reading>
    decreases s.len(),
{
    if s.len() == 0 {
        st
    } else {
        step(run(s.drop_last(), st), s.last())
    }
}

pub open spec fn start() -> Option<Reading> {
    Some((Set::empty(), Set::empty(), 0))
}

/// The set a text names: groups of ranks each closed by a suit, one space between groups;
/// the empty text names the empty set.
pub open spec fn parse_of(s: Seq<char>) -> Option<Set<int>> {
    match run(s, start()) {
        Some((acc, _, at)) => if at == 2 || s.len() == 0 {
            Some(acc)
        } else {
            None
        },
        None => None,
    }
}

/// The rank characters of suit `s` below rank `n` that the set holds, highest first.
pub open spec fn ranks_text(set: Set<int>, s: int, n: int) -> Seq<char>
    decreases n,
{
    if n <= 0 {
        seq![]
    } else if set.contains(card_of(s, n - 1)) {
        seq![rank_char(n - 1)] + ranks_text(set, s, n - 1)
    } else {
        ranks_text(set, s, n - 1)
    }
}

/// The groups of the suits below `k`, highest suit first, with a space before each group
/// but the very first.
pub open spec fn suits_text(set: Set<int>, k: int, first: bool) -> Seq<char>
    decreases k,
{
    if k <= 0 {
        seq![]
    } else if meets(set, suit_set(k - 1)) {
        (if first {
            seq![]
        } else {
            seq![' ']
        }) + ranks_text(set, k - 1, 13).push(suit_char(k - 1)) + suits_text(set, k - 1, false)
    } else {
        suits_text(set, k - 1, first)
    }
}

/// The canonical text of a set: spades, hearts, diamonds, clubs, ranks high to low.
pub open spec fn format_of(set: Set<int>) -> Seq<char> {
    suits_text(set, 4, true)
}

/// Why a text does not name a set of cards.
#[derive(Clone, Copy, PartialEq, Eq, Structural, Debug)]
pub enum ParseError {
    /// The character at this position cannot come where it stands.
    Unexpected(usize),
    /// The text ends inside a group.
    Incomplete,
}

/// Relies on `String::push`: appends one character.
#[verifier::external_body]
fn push_char(s: &mut String, c: char)
    ensures
        final(s)@ == old(s)@.push(c),
{
    s.push(c);
}

fn rank_of_char(ch: char) -> (r: Option<u8>)
    ensures
        match r {
            Some(v) => v < 13 && rank_value(ch) == v as int,
            None => rank_value(ch) == -1,
        },
{
    match ch {
        '2' => Some(0),
        '3' => Some(1),
        '4' => Some(2),
        '5' => Some(3),
        '6' => Some(4),
        '7' => Some(5),
        '8' => Some(6),
        '9' => Some(7),
        'T' => Some(8),
        'J' => Some(9),
        'Q' => Some(10),
        'K' => Some(11),
        'A' => Some(12),
        _ => None,
    }
}

fn suit_of_char(ch: char) -> (r: Option<u8>)
    ensures
        match r {
            Some(v) => v < 4 && suit_value(ch) == v as int,
            None => suit_value(ch) == -1,
        },
{
    match ch {
        'C' => Some(0),
        'D' => Some(1),
        'H' => Some(2),
        'S' => Some(3),
        _ => None,
    }
}

fn rank_to_char(r: u8) -> (c: char)
    ensures
        c == rank_char(r as int),
{
    if r == 0 {
        '2'
    } else if r == 1 {
        '3'
    } else if r == 2 {
        '4'
    } else if r == 3 {
        '5'
    } else if r == 4 {
        '6'
    } else if r == 5 {
        '7'
    } else if r == 6 {
        '8'
    } else if r == 7 {
        '9'
    } else if r == 8 {
        'T'
    } else if r == 9 {
        'J'
    } else if r == 10 {
        'Q'
    } else if r == 11 {
        'K'
    } else {
        'A'
    }
}

fn suit_to_char(s: u8) -> (c: char)
    ensures
        c == suit_char(s as int),
{
    if s == 0 {
        'C'
    } else if s == 1 {
        'D'
    } else if s == 2 {
        'H'
    } else {
        'S'
    }
}

/// The cards of suit `s` whose ranks are the clubs' indices in `ranks`.
fn lay_cards(ranks: Cards, s: u8) -> (r: Cards)
    requires
        s < 4,
    ensures
        r@ == lay(ranks@, s as int),
{
    let mut out = Cards::empty();
    let mut k: u8 = 0;
    while k < 13
        invariant
            s < 4,
            k <= 13,
            out@ == Set::new(
                |c: int| is_card(c) && suit_of(c) == s && c % 16 < k && ranks@.contains(c % 16),
            ),
        decreases 13 - k,
    {
        let add = ranks.has(Card::new(CLUBS, k));
        let next = if add {
            out.with(Card::new(s, k))
        } else {
            out
        };
        assert(next@ =~= Set::new(
            |c: int|
                is_card(c) && suit_of(c) == s && c % 16 < k + 1 && ranks@.contains(c % 16),
        ));
        out = next;
        k = k + 1;
    }
    assert(out@ =~= lay(ranks@, s as int));
    out
}

proof fn lemma_run_none(s: Seq<char>)
    ensures
        run(s, None) is None,
    decreases s.len(),
{
    if s.len() > 0 {
        lemma_run_none(s.drop_last());
    }
}

/// Reading two texts one after the other is reading them joined.
proof fn lemma_run_concat(a: Seq<char>, b: Seq<char>, st: Option<Reading>)
    ensures
        run(a + b, st) == run(b, run(a, st)),
    decreases b.len(),
{
    if b.len() == 0 {
        assert(a + b =~= a);
    } else {
        assert((a + b).drop_last() =~= a + b.drop_last());
        assert((a + b).last() == b.last());
        lemma_run_concat(a, b.drop_last(), st);
    }
}

proof fn lemma_run_one(ch: char, st: Option<Reading>)
    ensures
        run(seq![ch], st) == step(st, ch),
{
    assert(seq![ch].drop_last() =~= Seq::<char>::empty());
    assert(run(Seq::<char>::empty(), st) == st);
    assert(seq![ch].last() == ch);
}

/// The ranks below `n` of suit `s` that the set holds.
spec fn ranks_held(set: Set<int>, s: int, n: int) -> Set<int> {
    Set::new(|r: int| 0 <= r < n && set.contains(card_of(s, r)))
}

proof fn lemma_read_ranks(set: Set<int>, s: int, n: int, acc: Set<int>, ranks: Set<int>, at: int)
    requires
        0 <= n <= 13,
        at == 0 || at == 1,
    ensures
        run(ranks_text(set, s, n), Some((acc, ranks, at))) == Some(
            (
                acc,
                ranks.union(ranks_held(set, s, n)),
                if ranks_held(set, s, n) == Set::<int>::empty() {
                    at
                } else {
                    1
                },
            ),
        ),
    decreases n,
{
    if n == 0 {
        assert(ranks_held(set, s, 0) =~= Set::<int>::empty());
        assert(ranks.union(ranks_held(set, s, n)) =~= ranks);
    } else {
        lemma_read_ranks(set, s, n - 1, acc, ranks.insert(n - 1), 1int);
        lemma_read_ranks(set, s, n - 1, acc, ranks, at);
        if set.contains(card_of(s, n - 1)) {
            let c = rank_char(n - 1);
            assert(rank_value(c) == n - 1);
            lemma_run_concat(seq![c], ranks_text(set, s, n - 1), Some((acc, ranks, at)));
            lemma_run_one(c, Some((acc, ranks, at)));
            assert(ranks.insert(n - 1).union(ranks_held(set, s, n - 1)) =~= ranks.union(
                ranks_held(set, s, n),
            ));
            assert(ranks_held(set, s, n).contains(n - 1));
            if ranks_held(set, s, n - 1) == Set::<int>::empty() {
            }
        } else {
            assert(ranks_held(set, s, n) =~= ranks_held(set, s, n - 1));
        }
    }
}

proof fn lemma_read_group(set: Set<int>, s: int, acc: Set<int>)
    requires
        0 <= s < 4,
        meets(set, suit_set(s)),
    ensures
        run(ranks_text(set, s, 13).push(suit_char(s)), Some((acc, Set::empty(), 0int))) == Some(
            (acc.union(set.intersect(suit_set(s))), Set::<int>::empty(), 2int),
        ),
{
    let held = ranks_held(set, s, 13);
    lemma_read_ranks(set, s, 13, acc, Set::empty(), 0int);
    assert(Set::<int>::empty().union(held) =~= held);
    let c = choose|c: int| set.contains(c) && suit_set(s).contains(c);
    assert(c == card_of(s, c % 16));
    assert(held.contains(c % 16));
    assert(ranks_text(set, s, 13).push(suit_char(s)) =~= ranks_text(set, s, 13) + seq![
        suit_char(s),
    ]);
    lemma_run_concat(ranks_text(set, s, 13), seq![suit_char(s)], Some((acc, Set::empty(), 0int)));
    lemma_run_one(suit_char(s), Some((acc, held, 1int)));
    assert forall|x: int| #[trigger] lay(held, s).contains(x) == set.intersect(
        suit_set(s),
    ).contains(x) by {
        if is_card(x) && suit_of(x) == s {
            assert(x == card_of(s, x % 16));
        }
    }
    assert(lay(held, s) =~= set.intersect(suit_set(s)));
}

/// The cards of the set in suits below `k`.
spec fn held_below(set: Set<int>, k: int) -> Set<int> {
    set.filter(|c: int| suit_of(c) < k)
}

proof fn lemma_read_suits(set: Set<int>, k: int, first: bool, acc: Set<int>)
    requires
        0 <= k <= 4,
        set.subset_of(crate::cards::deck()),
    ensures
        run(suits_text(set, k, first), Some((acc, Set::empty(), if first { 0int } else { 2int })))
            == Some(
            (
                acc.union(held_below(set, k)),
                Set::<int>::empty(),
                if first && held_below(set, k) == Set::<int>::empty() {
                    0int
                } else {
                    2int
                },
            ),
        ),
        first && held_below(set, k) == Set::<int>::empty() ==> suits_text(set, k, first) =~= seq![],
    decreases k,
{
    let st = Some((acc, Set::<int>::empty(), if first { 0int } else { 2int }));
    if k == 0 {
        assert(held_below(set, 0) =~= Set::<int>::empty());
        assert(acc.union(held_below(set, k)) =~= acc);
    } else {
        let part = set.intersect(suit_set(k - 1));
        assert(held_below(set, k) =~= held_below(set, k - 1).union(part));
        if meets(set, suit_set(k - 1)) {
            let lead_in: Seq<char> = if first {
                seq![]
            } else {
                seq![' ']
            };
            let group = ranks_text(set, k - 1, 13).push(suit_char(k - 1));
            let rest = suits_text(set, k - 1, false);
            lemma_run_concat(lead_in + group, rest, st);
            lemma_run_concat(lead_in, group, st);
            let opened = Some((acc, Set::<int>::empty(), 0int));
            if first {
                assert(run(lead_in, st) == st);
            } else {
                lemma_run_one(' ', st);
            }
            assert(run(lead_in, st) == opened);
            lemma_read_group(set, k - 1, acc);
            lemma_read_suits(set, k - 1, false, acc.union(part));
            assert(acc.union(part).union(held_below(set, k - 1)) =~= acc.union(
                held_below(set, k),
            ));
            let c = choose|c: int| set.contains(c) && suit_set(k - 1).contains(c);
            assert(held_below(set, k).contains(c));
        } else {
            lemma_read_suits(set, k - 1, first, acc);
            assert(part =~= Set::<int>::empty());
            assert(held_below(set, k) =~= held_below(set, k - 1));
        }
    }
}

/// Reading the canonical text of any set of cards gives back that set.
pub proof fn lemma_round_trip(cards: Cards)
    ensures
        parse_of(format_of(cards@)) == Some(cards@),
{
    cards.lemma_valid();
    lemma_read_suits(cards@, 4, true, Set::empty());
    assert(held_below(cards@, 4) =~= cards@);
    assert(Set::<int>::empty().union(cards@) =~= cards@);
}

impl Cards {
    /// Reads a set from its text: groups of ranks (`23456789TJQKA`, in any order) each
    /// closed by a suit (`CDHS`), one space between groups. The empty text is the empty set.
    pub fn parse(s: &str) -> (r: Result<Cards, ParseError>)
        ensures
            match r {
                Ok(c) => parse_of(s@) == Some(c@),
                Err(ParseError::Unexpected(i)) => parse_of(s@) is None && i < s@.len() && run(
                    s@.take(i as int),
                    start(),
                ) is Some && step(run(s@.take(i as int), start()), s@[i as int]) is None,
                Err(ParseError::Incomplete) => parse_of(s@) is None && run(s@, start()) is Some,
            },
    {
        let n = s.unicode_len();
        let mut acc = Cards::empty();
        let mut ranks = Cards::empty();
        let mut at: u8 = 0;
        let mut i: usize = 0;
        assert(s@.take(0) =~= Seq::<char>::empty());
        while i < n
            invariant
                n == s@.len(),
                i <= n,
                run(s@.take(i as int), start()) == Some((acc@, ranks@, at as int)),
            decreases n - i,
        {
            let ch = s.get_char(i);
            assert(s@.take(i + 1).drop_last() =~= s@.take(i as int));
            assert(s@.take(i + 1).last() == ch);
            let rank = rank_of_char(ch);
            let suit = suit_of_char(ch);
            if rank.is_some() && at != 2 {
                let v = rank.unwrap();
                ranks = ranks.with(Card::new(CLUBS, v));
                at = 1;
            } else if suit.is_some() && at == 1 {
                acc = acc.union(lay_cards(ranks, suit.unwrap()));
                ranks = Cards::empty();
                at = 2;
            } else if ch == ' ' && at == 2 {
                ranks = Cards::empty();
                at = 0;
            } else {
                proof {
                    assert(s@ =~= s@.take(i + 1) + s@.skip(i + 1));
                    lemma_run_concat(s@.take(i + 1), s@.skip(i + 1), start());
                    lemma_run_none(s@.skip(i + 1));
                }
                return Err(ParseError::Unexpected(i));
            }
            i = i + 1;
        }
        assert(s@.take(n as int) =~= s@);
        if at == 2 || n == 0 {
            Ok(acc)
        } else {
            Err(ParseError::Incomplete)
        }
    }

    /// The canonical text of the set.
    pub fn to_string(self) -> (r: String)
        ensures
            r@ == format_of(self@),
    {
        let mut out = String::new();
        let mut first = true;
        let mut k: u8 = 4;
        assert(out@ =~= Seq::<char>::empty());
        while k > 0
            invariant
                k <= 4,
                out@ + suits_text(self@, k as int, first) == format_of(self@),
            decreases k,
        {
            k = k - 1;
            let suit = Card::new(k, 0).suit();
            if self.intersects(suit) {
                let ghost rest = suits_text(self@, k as int, false);
                let ghost before = out@;
                if !first {
                    push_char(&mut out, ' ');
                }
                let mut r: u8 = 13;
                assert(before + suits_text(self@, k + 1, first) =~= out@ + ranks_text(self@, k as int, 13).push(suit_char(k as int)) + rest);
                while r > 0
                    invariant
                        k < 4,
                        r <= 13,
                        out@ + ranks_text(self@, k as int, r as int).push(suit_char(k as int))
                            + rest == format_of(self@),
                    decreases r,
                {
                    r = r - 1;
                    let ghost prev = out@;
                    if self.has(Card::new(k, r)) {
                        push_char(&mut out, rank_to_char(r));
                    }
                    assert(prev + ranks_text(self@, k as int, r + 1).push(suit_char(k as int)) + rest
                        =~= out@ + ranks_text(self@, k as int, r as int).push(suit_char(k as int)) + rest);
                }
                let ghost prev = out@;
                push_char(&mut out, suit_to_char(k));
                assert(prev + ranks_text(self@, k as int, 0).push(suit_char(k as int)) + rest =~= out@ + rest);
                first = false;
            } else {
                assert(suits_text(self@, k + 1, first) == suits_text(self@, k as int, first));
            }
        }
        assert(out@ + suits_text(self@, 0, first) =~= out@);
        out
    }
}

impl Card {
    /// The card's text: its rank, then its suit.
    pub fn to_string(self) -> (r: String)
        ensures
            r@ == format_of(set![self@]),
    {
        self.as_cards().to_string()
    }
}

} // verus!
