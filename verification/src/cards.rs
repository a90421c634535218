//! The card model: ranks, suits, cards, the fixed enumeration of the 1,326
//! two-card combinations, blocking by dead cards, and board strings.

use vstd::prelude::*;
use vstd::slice::slice_subrange;
use crate::error::{outcome, outcome_view, ErrorKind, Fault, ParseError};
use crate::text::{
    find_char, find_space, is_whitespace, lemma_first_index_bounds, lemma_trim_start,
    lemma_word_len_bounds, str_chars, trim, trim_chars, trim_start, word_len,
};

verus! {

/// A card rank, from `Two` (lowest) to `Ace` (highest).
#[derive(Clone, Copy, Debug, PartialEq, Eq, Structural, PartialOrd, Ord, Hash)]
pub enum Rank {
    Two,
    Three,
    Four,
    Five,
    Six,
    Seven,
    Eight,
    Nine,
    Ten,
    Jack,
    Queen,
    King,
    Ace,
}

impl Rank {
    /// The position of the rank by face value: 0 for `Two`, 12 for `Ace`.
    pub open spec fn ordinal(self) -> int {
        match self {
            Rank::Two => 0,
            Rank::Three => 1,
            Rank::Four => 2,
            Rank::Five => 3,
            Rank::Six => 4,
            Rank::Seven => 5,
            Rank::Eight => 6,
            Rank::Nine => 7,
            Rank::Ten => 8,
            Rank::Jack => 9,
            Rank::Queen => 10,
            Rank::King => 11,
            Rank::Ace => 12,
        }
    }

    /// The rank at position `i`; meant for `0 <= i < 13`.
    pub open spec fn at(i: int) -> Rank {
        if i <= 0 {
            Rank::Two
        } else if i == 1 {
            Rank::Three
        } else if i == 2 {
            Rank::Four
        } else if i == 3 {
            Rank::Five
        } else if i == 4 {
            Rank::Six
        } else if i == 5 {
            Rank::Seven
        } else if i == 6 {
            Rank::Eight
        } else if i == 7 {
            Rank::Nine
        } else if i == 8 {
            Rank::Ten
        } else if i == 9 {
            Rank::Jack
        } else if i == 10 {
            Rank::Queen
        } else if i == 11 {
            Rank::King
        } else {
            Rank::Ace
        }
    }

    /// The character that stands for the rank in output.
    pub open spec fn symbol(self) -> char {
        match self {
            Rank::Two => '2',
            Rank::Three => '3',
            Rank::Four => '4',
            Rank::Five => '5',
            Rank::Six => '6',
            Rank::Seven => '7',
            Rank::Eight => '8',
            Rank::Nine => '9',
            Rank::Ten => 'T',
            Rank::Jack => 'J',
            Rank::Queen => 'Q',
            Rank::King => 'K',
            Rank::Ace => 'A',
        }
    }

    /// The rank that `c` stands for in input, where letters count in either case.
    pub open spec fn of_symbol(c: char) -> Option<Rank> {
        if c == '2' {
            Some(Rank::Two)
        } else if c == '3' {
            Some(Rank::Three)
        } else if c == '4' {
            Some(Rank::Four)
        } else if c == '5' {
            Some(Rank::Five)
        } else if c == '6' {
            Some(Rank::Six)
        } else if c == '7' {
            Some(Rank::Seven)
        } else if c == '8' {
            Some(Rank::Eight)
        } else if c == '9' {
            Some(Rank::Nine)
        } else if c == 'T' || c == 't' {
            Some(Rank::Ten)
        } else if c == 'J' || c == 'j' {
            Some(Rank::Jack)
        } else if c == 'Q' || c == 'q' {
            Some(Rank::Queen)
        } else if c == 'K' || c == 'k' {
            Some(Rank::King)
        } else if c == 'A' || c == 'a' {
            Some(Rank::Ace)
        } else {
            None
        }
    }

    /// The position of the rank by face value.
    pub fn index(self) -> (i: u8)
        ensures
            i == self.ordinal(),
            i < 13,
            Rank::at(i as int) == self,
    {
        match self {
            Rank::Two => 0,
            Rank::Three => 1,
            Rank::Four => 2,
            Rank::Five => 3,
            Rank::Six => 4,
            Rank::Seven => 5,
            Rank::Eight => 6,
            Rank::Nine => 7,
            Rank::Ten => 8,
            Rank::Jack => 9,
            Rank::Queen => 10,
            Rank::King => 11,
            Rank::Ace => 12,
        }
    }

    /// The rank at the given position, if the position is below 13.
    pub fn from_index(i: u8) -> (r: Option<Rank>)
        ensures
            i < 13 ==> r == Some(Rank::at(i as int)) && Rank::at(i as int).ordinal() == i,
            i >= 13 ==> r is None,
    {
        if i >= 13 {
            None
        } else if i == 0 {
            Some(Rank::Two)
        } else if i == 1 {
            Some(Rank::Three)
        } else if i == 2 {
            Some(Rank::Four)
        } else if i == 3 {
            Some(Rank::Five)
        } else if i == 4 {
            Some(Rank::Six)
        } else if i == 5 {
            Some(Rank::Seven)
        } else if i == 6 {
            Some(Rank::Eight)
        } else if i == 7 {
            Some(Rank::Nine)
        } else if i == 8 {
            Some(Rank::Ten)
        } else if i == 9 {
            Some(Rank::Jack)
        } else if i == 10 {
            Some(Rank::Queen)
        } else if i == 11 {
            Some(Rank::King)
        } else {
            Some(Rank::Ace)
        }
    }

    /// The character that stands for the rank: a digit, or an upper-case letter.
    pub fn to_char(self) -> (c: char)
        ensures
            c == self.symbol(),
            Rank::of_symbol(c) == Some(self),
    {
        match self {
            Rank::Two => '2',
            Rank::Three => '3',
            Rank::Four => '4',
            Rank::Five => '5',
            Rank::Six => '6',
            Rank::Seven => '7',
            Rank::Eight => '8',
            Rank::Nine => '9',
            Rank::Ten => 'T',
            Rank::Jack => 'J',
            Rank::Queen => 'Q',
            Rank::King => 'K',
            Rank::Ace => 'A',
        }
    }

    /// The rank as text: its one character.
    pub fn to_string(&self) -> (s: String)
        ensures
            s@ == seq![self.symbol()],
    {
        let mut s = String::new();
        s.push(self.to_char());
        s
    }

    /// The rank that a character stands for, letters in either case.
    pub fn from_char(c: char) -> (r: Option<Rank>)
        ensures
            r == Rank::of_symbol(c),
    {
        if c == '2' {
            Some(Rank::Two)
        } else if c == '3' {
            Some(Rank::Three)
        } else if c == '4' {
            Some(Rank::Four)
        } else if c == '5' {
            Some(Rank::Five)
        } else if c == '6' {
            Some(Rank::Six)
        } else if c == '7' {
            Some(Rank::Seven)
        } else if c == '8' {
            Some(Rank::Eight)
        } else if c == '9' {
            Some(Rank::Nine)
        } else if c == 'T' || c == 't' {
            Some(Rank::Ten)
        } else if c == 'J' || c == 'j' {
            Some(Rank::Jack)
        } else if c == 'Q' || c == 'q' {
            Some(Rank::Queen)
        } else if c == 'K' || c == 'k' {
            Some(Rank::King)
        } else if c == 'A' || c == 'a' {
            Some(Rank::Ace)
        } else {
            None
        }
    }

    /// All ranks, lowest first.
    pub fn all() -> (ranks: [Rank; 13])
        ensures
            forall|i: int| 0 <= i < 13 ==> ranks[i] == Rank::at(i),
    {
        [
            Rank::Two,
            Rank::Three,
            Rank::Four,
            Rank::Five,
            Rank::Six,
            Rank::Seven,
            Rank::Eight,
            Rank::Nine,
            Rank::Ten,
            Rank::Jack,
            Rank::Queen,
            Rank::King,
            Rank::Ace,
        ]
    }
}

/// A card suit.
#[derive(Clone, Copy, Debug, PartialEq, Eq, Structural, PartialOrd, Ord, Hash)]
pub enum Suit {
    Clubs,
    Diamonds,
    Hearts,
    Spades,
}

impl Suit {
    /// The position of the suit: 0 for clubs, 3 for spades.
    pub open spec fn ordinal(self) -> int {
        match self {
            Suit::Clubs => 0,
            Suit::Diamonds => 1,
            Suit::Hearts => 2,
            Suit::Spades => 3,
        }
    }

    /// The suit at position `i`; meant for `0 <= i < 4`.
    pub open spec fn at(i: int) -> Suit {
        if i <= 0 {
            Suit::Clubs
        } else if i == 1 {
            Suit::Diamonds
        } else if i == 2 {
            Suit::Hearts
        } else {
            Suit::Spades
        }
    }

    /// The character that stands for the suit in output.
    pub open spec fn symbol(self) -> char {
        match self {
            Suit::Clubs => 'c',
            Suit::Diamonds => 'd',
            Suit::Hearts => 'h',
            Suit::Spades => 's',
        }
    }

    /// The suit that `c` stands for in input, in either case.
    pub open spec fn of_symbol(c: char) -> Option<Suit> {
        if c == 'c' || c == 'C' {
            Some(Suit::Clubs)
        } else if c == 'd' || c == 'D' {
            Some(Suit::Diamonds)
        } else if c == 'h' || c == 'H' {
            Some(Suit::Hearts)
        } else if c == 's' || c == 'S' {
            Some(Suit::Spades)
        } else {
            None
        }
    }

    /// The position of the suit.
    pub fn index(self) -> (i: u8)
        ensures
            i == self.ordinal(),
            i < 4,
            Suit::at(i as int) == self,
    {
        match self {
            Suit::Clubs => 0,
            Suit::Diamonds => 1,
            Suit::Hearts => 2,
            Suit::Spades => 3,
        }
    }

    /// The suit at the given position, if the position is below 4.
    pub fn from_index(i: u8) -> (s: Option<Suit>)
        ensures
            i < 4 ==> s == Some(Suit::at(i as int)) && Suit::at(i as int).ordinal() == i,
            i >= 4 ==> s is None,
    {
        if i >= 4 {
            None
        } else if i == 0 {
            Some(Suit::Clubs)
        } else if i == 1 {
            Some(Suit::Diamonds)
        } else if i == 2 {
            Some(Suit::Hearts)
        } else {
            Some(Suit::Spades)
        }
    }

    /// The lower-case character that stands for the suit.
    pub fn to_char(self) -> (c: char)
        ensures
            c == self.symbol(),
            Suit::of_symbol(c) == Some(self),
    {
        match self {
            Suit::Clubs => 'c',
            Suit::Diamonds => 'd',
            Suit::Hearts => 'h',
            Suit::Spades => 's',
        }
    }

    /// The suit as text: its one character.
    pub fn to_string(&self) -> (s: String)
        ensures
            s@ == seq![self.symbol()],
    {
        let mut s = String::new();
        s.push(self.to_char());
        s
    }

    /// The suit that a character stands for, in either case.
    pub fn from_char(c: char) -> (s: Option<Suit>)
        ensures
            s == Suit::of_symbol(c),
    {
        if c == 'c' || c == 'C' {
            Some(Suit::Clubs)
        } else if c == 'd' || c == 'D' {
            Some(Suit::Diamonds)
        } else if c == 'h' || c == 'H' {
            Some(Suit::Hearts)
        } else if c == 's' || c == 'S' {
            Some(Suit::Spades)
        } else {
            None
        }
    }

    /// All suits, clubs first.
    pub fn all() -> (suits: [Suit; 4])
        ensures
            forall|i: int| 0 <= i < 4 ==> suits[i] == Suit::at(i),
    {
        [Suit::Clubs, Suit::Diamonds, Suit::Hearts, Suit::Spades]
    }
}

/// A playing card. Its identity is the number `4 * rank + suit`, below 52;
/// the derived order is the order of that number.
#[derive(Clone, Copy, Debug, PartialEq, Eq, Structural, PartialOrd, Ord, Hash)]
pub struct Card {
    pub rank: Rank,
    pub suit: Suit,
}

impl Card {
    /// The identity of the card: `4 * rank + suit`.
    pub open spec fn code(self) -> int {
        self.rank.ordinal() * 4 + self.suit.ordinal()
    }

    /// The card with identity `v`; meant for `0 <= v < 52`.
    pub open spec fn of_code(v: int) -> Card {
        Card { rank: Rank::at(v / 4), suit: Suit::at(v % 4) }
    }

    /// The two characters that `to_string` writes.
    pub open spec fn text(self) -> Seq<char> {
        seq![self.rank.symbol(), self.suit.symbol()]
    }

    /// What `parse` makes of the characters `s`.
    pub open spec fn parsed(s: Seq<char>) -> Result<Card, Fault> {
        if s.len() != 2 {
            Err(Fault { kind: ErrorKind::CardLength, text: s })
        } else {
            match Rank::of_symbol(s[0]) {
                None => Err(Fault { kind: ErrorKind::CardRank, text: seq![s[0]] }),
                Some(rank) => match Suit::of_symbol(s[1]) {
                    None => Err(Fault { kind: ErrorKind::CardSuit, text: seq![s[1]] }),
                    Some(suit) => Ok(Card { rank, suit }),
                },
            }
        }
    }

    /// The card of the given rank and suit.
    pub fn new(rank: Rank, suit: Suit) -> (card: Card)
        ensures
            card == (Card { rank, suit }),
    {
        Card { rank, suit }
    }

    /// The rank of the card.
    pub fn rank(self) -> (rank: Rank)
        ensures
            rank == self.rank,
    {
        self.rank
    }

    /// The suit of the card.
    pub fn suit(self) -> (suit: Suit)
        ensures
            suit == self.suit,
    {
        self.suit
    }

    /// The identity of the card, from 0 (two of clubs) to 51 (ace of spades).
    pub fn value(self) -> (v: u8)
        ensures
            v == self.code(),
            v < 52,
            Card::of_code(v as int) == self,
    {
        self.rank.index() * 4 + self.suit.index()
    }

    /// The card with the given identity, if the identity is below 52.
    pub fn from_value(value: u8) -> (card: Option<Card>)
        ensures
            value < 52 ==> card == Some(Card::of_code(value as int)) && Card::of_code(
                value as int,
            ).code() == value,
            value >= 52 ==> card is None,
    {
        if value < 52 {
            match (Rank::from_index(value / 4), Suit::from_index(value % 4)) {
                (Some(rank), Some(suit)) => Some(Card { rank, suit }),
                _ => None,
            }
        } else {
            None
        }
    }

    /// The card as text: the rank's character, then the suit's. Reading the
    /// text gives the card back.
    pub fn to_string(&self) -> (s: String)
        ensures
            s@ == self.text(),
            Card::parsed(s@) == Ok::<Card, Fault>(*self),
    {
        let mut s = String::new();
        s.push(self.rank.to_char());
        s.push(self.suit.to_char());
        s
    }

    /// Reads a card from exactly two characters, rank then suit, in either case.
    pub fn parse_chars(chars: &[char]) -> (r: Result<Card, ParseError>)
        ensures
            outcome(r) == Card::parsed(chars@),
    {
        if chars.len() != 2 {
            return Err(ParseError::new(ErrorKind::CardLength, chars));
        }
        match Rank::from_char(chars[0]) {
            None => Err(ParseError::at_char(ErrorKind::CardRank, chars[0])),
            Some(rank) => match Suit::from_char(chars[1]) {
                None => Err(ParseError::at_char(ErrorKind::CardSuit, chars[1])),
                Some(suit) => Ok(Card { rank, suit }),
            },
        }
    }

    /// Reads a card such as `Ah`, `Kd` or `2c`.
    pub fn parse(s: &str) -> (r: Result<Card, ParseError>)
        ensures
            outcome(r) == Card::parsed(s@),
    {
        let chars = str_chars(s);
        Card::parse_chars(chars.as_slice())
    }
}

impl core::str::FromStr for Card {
    type Err = ParseError;

    fn from_str(s: &str) -> (r: Result<Card, ParseError>)
        ensures
            outcome(r) == Card::parsed(s@),
    {
        Card::parse(s)
    }
}

/// Reading back what `to_string` wrote gives the card itself.
pub proof fn lemma_card_text_round_trip(card: Card)
    ensures
        Card::parsed(card.text()) == Ok::<Card, Fault>(card),
{
    assert(Rank::of_symbol(card.rank.symbol()) == Some(card.rank));
    assert(Suit::of_symbol(card.suit.symbol()) == Some(card.suit));
}

/// The identity of a card is below 52 and determines the card.
pub proof fn lemma_card_code(card: Card)
    ensures
        0 <= card.code() < 52,
        Card::of_code(card.code()) == card,
{
}

/// Every number below 52 is the identity of the card made from it.
pub proof fn lemma_code_card(v: int)
    requires
        0 <= v < 52,
    ensures
        Card::of_code(v).code() == v,
{
}

/// Two hole cards with their number in the enumeration of all combinations.
#[derive(Clone, Copy, Debug, PartialEq, Eq, Structural, Hash)]
pub struct Combo {
    pub card1: Card,
    pub card2: Card,
    pub id: u16,
}

impl Combo {
    /// Whether one of the two cards is among `cards`.
    pub open spec fn blocked_by(self, cards: Seq<Card>) -> bool {
        cards.contains(self.card1) || cards.contains(self.card2)
    }

    /// Whether `self` and `other` hold the same two cards, in either order.
    pub open spec fn same_cards(self, other: Combo) -> bool {
        ||| self.card1 == other.card1 && self.card2 == other.card2
        ||| self.card1 == other.card2 && self.card2 == other.card1
    }

    /// The four characters that `to_string` writes.
    pub open spec fn text(self) -> Seq<char> {
        self.card1.text() + self.card2.text()
    }

    /// The combination of the two cards under the given number.
    pub fn new(card1: Card, card2: Card, id: u16) -> (combo: Combo)
        ensures
            combo == (Combo { card1, card2, id }),
    {
        Combo { card1, card2, id }
    }

    /// Whether one of the two cards is among `cards`. A card that occurs
    /// several times in `cards` counts as it does once.
    pub fn is_blocked_by(&self, cards: &[Card]) -> (blocked: bool)
        ensures
            blocked == self.blocked_by(cards@),
    {
        let mut i: usize = 0;
        while i < cards.len()
            invariant
                i <= cards.len(),
                forall|k: int| 0 <= k < i ==> cards@[k] != self.card1 && cards@[k] != self.card2,
            decreases cards.len() - i,
        {
            if cards[i] == self.card1 || cards[i] == self.card2 {
                return true;
            }
            i += 1;
        }
        false
    }

    /// The two cards, first card first.
    pub fn cards(&self) -> (pair: [Card; 2])
        ensures
            pair[0] == self.card1,
            pair[1] == self.card2,
    {
        [self.card1, self.card2]
    }

    /// The combination as text: first card, then second card.
    pub fn to_string(&self) -> (s: String)
        ensures
            s@ == self.text(),
    {
        let mut s = String::new();
        s.push(self.card1.rank.to_char());
        s.push(self.card1.suit.to_char());
        s.push(self.card2.rank.to_char());
        s.push(self.card2.suit.to_char());
        s
    }
}

/// The number of two-card combinations of a 52-card deck.
pub const COMBO_COUNT: usize = 1326;

/// The card at position `k` of the deck in enumeration order: aces before
/// kings down to twos, and within a rank spades, hearts, diamonds, clubs.
pub open spec fn deck_card(k: int) -> Card {
    Card::of_code(51 - k)
}

/// The number of combinations whose first card stands before position `i` of
/// the deck.
pub open spec fn row_start(i: int) -> int {
    i * (103 - i) / 2
}

/// The number of the combination of the deck cards at positions `i < j`.
pub open spec fn pair_id(i: int, j: int) -> int {
    row_start(i) + (j - i - 1)
}

/// The combination of the deck cards at positions `i < j`.
pub open spec fn combo_of(i: int, j: int) -> Combo {
    Combo { card1: deck_card(i), card2: deck_card(j), id: pair_id(i, j) as u16 }
}

/// The combinations whose first card is at position `i` of the deck, by
/// position of the second card.
pub open spec fn row(i: int) -> Seq<Combo> {
    Seq::new((51 - i) as nat, |t: int| combo_of(i, i + 1 + t))
}

/// The combinations whose first card stands before position `n` of the deck.
pub open spec fn rows(n: nat) -> Seq<Combo>
    decreases n,
{
    if n == 0 {
        Seq::empty()
    } else {
        rows((n - 1) as nat) + row(n - 1)
    }
}

/// The enumeration of all combinations: for each deck position in turn, that
/// card with each card after it.
pub open spec fn all_combos() -> Seq<Combo> {
    rows(52)
}

/// Each row of the enumeration starts where the row before it ends.
pub proof fn lemma_row_step(i: int)
    ensures
        row_start(i + 1) == row_start(i) + 51 - i,
{
    assert((i + 1) * (103 - (i + 1)) == i * (103 - i) + 2 * (51 - i)) by (nonlinear_arith);
}

/// The rows start at growing numbers, from 0 to 1,326.
pub proof fn lemma_row_start_monotone(a: int, b: int)
    requires
        0 <= a <= b <= 52,
    ensures
        0 <= row_start(a) <= row_start(b) <= 1326,
    decreases 52 - a,
{
    assert(0 <= a * (103 - a)) by (nonlinear_arith)
        requires
            0 <= a <= 52,
    ;
    assert(row_start(52) == 1326);
    if a < 52 {
        lemma_row_step(a);
        if a < b {
            lemma_row_start_monotone(a + 1, b);
        } else {
            lemma_row_start_monotone(a + 1, 52);
        }
    }
}

/// The first `n` rows hold `row_start(n)` combinations, and the combination of
/// positions `i < j` stands at `pair_id(i, j)`.
pub proof fn lemma_rows(n: nat)
    requires
        n <= 52,
    ensures
        rows(n).len() == row_start(n as int),
        forall|i: int, j: int|
            0 <= i < n && i < j < 52 ==> 0 <= pair_id(i, j) < row_start(n as int) && #[trigger] rows(
                n,
            )[pair_id(i, j)] == combo_of(i, j),
    decreases n,
{
    if n > 0 {
        let m = (n - 1) as nat;
        lemma_rows(m);
        lemma_row_step(m as int);
        assert forall|i: int, j: int| 0 <= i < n && i < j < 52 implies 0 <= pair_id(i, j)
            < row_start(n as int) && #[trigger] rows(n)[pair_id(i, j)] == combo_of(i, j) by {
            lemma_row_start_monotone(i, i);
            lemma_row_step(i);
            if i < m {
                lemma_row_start_monotone(i + 1, m as int);
                assert(rows(m)[pair_id(i, j)] == combo_of(i, j));
            } else {
                assert(row(i)[j - i - 1] == combo_of(i, j));
            }
        }
    } else {
        assert(row_start(0) == 0);
    }
}

/// Every number below 1,326 is the number of one pair of deck positions.
pub proof fn lemma_locate(k: int, from: int) -> (p: (int, int))
    requires
        0 <= from < 52,
        row_start(from) <= k < 1326,
    ensures
        from <= p.0 < p.1 < 52,
        pair_id(p.0, p.1) == k,
    decreases 52 - from,
{
    lemma_row_step(from);
    if k < row_start(from + 1) {
        (from, from + 1 + (k - row_start(from)))
    } else {
        assert(from < 51) by {
            assert(row_start(52) == 1326);
            assert(row_start(51) == 1326);
        }
        lemma_locate(k, from + 1)
    }
}

/// What holds of the enumeration: it has 1,326 entries, each numbered by its
/// place; the first card of an entry is the higher of its two distinct cards;
/// it starts with the two highest aces and ends with the two lowest twos; and
/// no two entries hold the same two cards.
pub proof fn lemma_all_combos()
    ensures
        all_combos().len() == 1326,
        forall|k: int| 0 <= k < 1326 ==> (#[trigger] all_combos()[k]).id == k,
        forall|k: int|
            0 <= k < 1326 ==> (#[trigger] all_combos()[k]).card1.code() > all_combos()[k].card2.code(),
        forall|i: int, j: int|
            0 <= i < j < 52 ==> 0 <= pair_id(i, j) < 1326 && all_combos()[#[trigger] pair_id(i, j)]
                == combo_of(i, j),
        all_combos()[0] == (Combo {
            card1: Card { rank: Rank::Ace, suit: Suit::Spades },
            card2: Card { rank: Rank::Ace, suit: Suit::Hearts },
            id: 0,
        }),
        all_combos()[1325] == (Combo {
            card1: Card { rank: Rank::Two, suit: Suit::Diamonds },
            card2: Card { rank: Rank::Two, suit: Suit::Clubs },
            id: 1325,
        }),
        forall|a: int, b: int|
            0 <= a < b < 1326 ==> !(#[trigger] all_combos()[a]).same_cards(
                #[trigger] all_combos()[b],
            ),
{
    lemma_rows(52);
    assert(row_start(52) == 1326);
    assert(row_start(0) == 0);
    assert forall|i: int, j: int| 0 <= i < j < 52 implies 0 <= pair_id(i, j) < 1326
        && all_combos()[#[trigger] pair_id(i, j)] == combo_of(i, j) by {
        assert(rows(52)[pair_id(i, j)] == combo_of(i, j));
    }
    assert forall|k: int| 0 <= k < 1326 implies (#[trigger] all_combos()[k]).id == k
        && all_combos()[k].card1.code() > all_combos()[k].card2.code() by {
        let p = lemma_locate(k, 0);
        assert(all_combos()[pair_id(p.0, p.1)] == combo_of(p.0, p.1));
        lemma_code_card(51 - p.0);
        lemma_code_card(51 - p.1);
    }
    assert(pair_id(0, 1) == 0);
    assert(all_combos()[pair_id(0, 1)] == combo_of(0, 1));
    assert(row_start(50) == 1325);
    assert(pair_id(50, 51) == 1325);
    assert(all_combos()[pair_id(50, 51)] == combo_of(50, 51));
    assert forall|a: int, b: int| 0 <= a < b < 1326 implies !(#[trigger] all_combos()[a]).same_cards(
        #[trigger] all_combos()[b],
    ) by {
        let p = lemma_locate(a, 0);
        let q = lemma_locate(b, 0);
        assert(all_combos()[pair_id(p.0, p.1)] == combo_of(p.0, p.1));
        assert(all_combos()[pair_id(q.0, q.1)] == combo_of(q.0, q.1));
        lemma_code_card(51 - p.0);
        lemma_code_card(51 - p.1);
        lemma_code_card(51 - q.0);
        lemma_code_card(51 - q.1);
        if all_combos()[a].same_cards(all_combos()[b]) {
            assert(deck_card(p.0).code() > deck_card(p.1).code());
            assert(deck_card(q.0).code() > deck_card(q.1).code());
            assert(p.0 == q.0 && p.1 == q.1);
            assert(false);
        }
    }
}

/// Every two distinct cards make up an entry of the enumeration: the returned
/// number is its place.
pub proof fn lemma_every_pair_listed(c1: Card, c2: Card) -> (k: int)
    requires
        c1 != c2,
    ensures
        0 <= k < 1326,
        all_combos()[k].same_cards(Combo { card1: c1, card2: c2, id: 0 }),
{
    lemma_all_combos();
    lemma_card_code(c1);
    lemma_card_code(c2);
    let i1 = 51 - c1.code();
    let i2 = 51 - c2.code();
    let i = if i1 < i2 {
        i1
    } else {
        i2
    };
    let j = if i1 < i2 {
        i2
    } else {
        i1
    };
    assert(i < j);
    assert(all_combos()[pair_id(i, j)] == combo_of(i, j));
    pair_id(i, j)
}

/// Lists all 1,326 two-card combinations in their fixed order, each numbered
/// by its place from 0 to 1,325.
pub fn generate_all_combos() -> (combos: Vec<Combo>)
    ensures
        combos@ == all_combos(),
        combos@.len() == 1326,
        forall|k: int| 0 <= k < 1326 ==> (#[trigger] combos@[k]).id == k,
        forall|k: int|
            0 <= k < 1326 ==> (#[trigger] combos@[k]).card1.code() > combos@[k].card2.code(),
        forall|a: int, b: int|
            0 <= a < b < 1326 ==> !(#[trigger] combos@[a]).same_cards(#[trigger] combos@[b]),
        combos@[0].card1.rank == Rank::Ace && combos@[0].card2.rank == Rank::Ace,
        combos@[1325].card1.rank == Rank::Two && combos@[1325].card2.rank == Rank::Two,
{
    let ranks = Rank::all();
    let suits = Suit::all();
    let mut all_cards: Vec<Card> = Vec::with_capacity(52);
    let mut r: usize = 13;
    while r > 0
        invariant
            r <= 13,
            forall|i: int| 0 <= i < 13 ==> ranks[i] == Rank::at(i),
            forall|i: int| 0 <= i < 4 ==> suits[i] == Suit::at(i),
            all_cards@.len() == 4 * (13 - r),
            forall|k: int| 0 <= k < all_cards@.len() ==> all_cards@[k] == deck_card(k),
        decreases r,
    {
        r -= 1;
        let mut s: usize = 4;
        while s > 0
            invariant
                r < 13,
                s <= 4,
                forall|i: int| 0 <= i < 13 ==> ranks[i] == Rank::at(i),
                forall|i: int| 0 <= i < 4 ==> suits[i] == Suit::at(i),
                all_cards@.len() == 4 * (12 - r) + (4 - s),
                forall|k: int| 0 <= k < all_cards@.len() ==> all_cards@[k] == deck_card(k),
            decreases s,
        {
            s -= 1;
            all_cards.push(Card::new(ranks[r], suits[s]));
        }
    }
    let mut combos: Vec<Combo> = Vec::with_capacity(COMBO_COUNT);
    let mut id: u16 = 0;
    let mut i: usize = 0;
    while i < 52
        invariant
            i <= 52,
            all_cards@.len() == 52,
            forall|k: int| 0 <= k < 52 ==> all_cards@[k] == deck_card(k),
            combos@ == rows(i as nat),
            id == row_start(i as int),
        decreases 52 - i,
    {
        let mut j: usize = i + 1;
        proof {
            lemma_row_step(i as int);
            lemma_row_start_monotone(i as int + 1, 52);
            assert(row(i as int).take(0) =~= Seq::<Combo>::empty());
            assert(rows(i as nat) + Seq::<Combo>::empty() =~= rows(i as nat));
        }
        while j < 52
            invariant
                i < 52,
                i + 1 <= j <= 52,
                all_cards@.len() == 52,
                forall|k: int| 0 <= k < 52 ==> all_cards@[k] == deck_card(k),
                combos@ == rows(i as nat) + row(i as int).take(j - i - 1),
                id == row_start(i as int) + (j - i - 1),
                row_start(i as int) + 51 - i <= 1326,
            decreases 52 - j,
        {
            let card1 = all_cards[i];
            let card2 = all_cards[j];
            proof {
                let t = j - i - 1;
                assert(row(i as int)[t] == combo_of(i as int, j as int));
                assert(row(i as int).take(t).push(row(i as int)[t]) =~= row(i as int).take(t + 1));
                assert((rows(i as nat) + row(i as int).take(t)).push(row(i as int)[t]) =~= rows(
                    i as nat,
                ) + row(i as int).take(t + 1));
            }
            combos.push(Combo::new(card1, card2, id));
            id += 1;
            j += 1;
        }
        proof {
            assert(row(i as int).take(51 - i) =~= row(i as int));
            assert(rows((i + 1) as nat) == rows(i as nat) + row(i as int));
        }
        i += 1;
    }
    proof {
        lemma_all_combos();
    }
    combos
}

/// The combinations of `combos` that `board` does not block, in their order.
pub open spec fn unblocked(combos: Seq<Combo>, board: Seq<Card>) -> Seq<Combo> {
    combos.filter(|c: Combo| !c.blocked_by(board))
}

/// Keeps the combinations that hold no card of `board`, in their order.
pub fn filter_blocked_combos(combos: &[Combo], board: &[Card]) -> (kept: Vec<Combo>)
    ensures
        kept@ == unblocked(combos@, board@),
        kept@.len() <= combos@.len(),
        forall|k: int| 0 <= k < kept@.len() ==> !(#[trigger] kept@[k]).blocked_by(board@),
        forall|k: int|
            0 <= k < kept@.len() ==> combos@.contains(#[trigger] kept@[k]),
        forall|k: int|
            0 <= k < combos@.len() && !(#[trigger] combos@[k]).blocked_by(board@) ==> kept@.contains(
                combos@[k],
            ),
{
    let ghost pred = |c: Combo| !c.blocked_by(board@);
    let mut kept: Vec<Combo> = Vec::new();
    let mut i: usize = 0;
    proof {
        assert(combos@.take(0) =~= Seq::<Combo>::empty());
        reveal(Seq::filter);
    }
    while i < combos.len()
        invariant
            i <= combos.len(),
            pred == |c: Combo| !c.blocked_by(board@),
            kept@ == combos@.take(i as int).filter(pred),
        decreases combos.len() - i,
    {
        let combo = combos[i];
        proof {
            assert(combos@.take(i as int).push(combo) =~= combos@.take(i + 1));
            combos@.take(i as int).lemma_filter_push(combo, pred);
        }
        if !combo.is_blocked_by(board) {
            kept.push(combo);
        }
        i += 1;
    }
    proof {
        assert(combos@.take(combos@.len() as int) =~= combos@);
        broadcast use vstd::seq_lib::group_filter_ensures;
        assert(kept@.len() <= combos@.len());
        assert forall|k: int| 0 <= k < kept@.len() implies combos@.contains(
            #[trigger] kept@[k],
        ) by {
            assert(combos@.filter(pred).contains(kept@[k]));
            combos@.lemma_filter_contains_rev(pred, kept@[k]);
        }
    }
    kept
}

/// The cards of the whitespace-separated words of `rest`, after those of `acc`.
pub open spec fn board_words(rest: Seq<char>, acc: Seq<Card>) -> Result<Seq<Card>, Fault>
    decreases rest.len(),
{
    let t = trim_start(rest);
    if t.len() == 0 {
        Ok(acc)
    } else {
        let n = word_len(t);
        match Card::parsed(t.take(n)) {
            Err(e) => Err(e),
            Ok(card) => {
                proof {
                    lemma_trim_start(rest);
                    lemma_word_len_bounds(t);
                }
                board_words(t.skip(n), acc.push(card))
            },
        }
    }
}

/// The cards of `rest` read two characters at a time, after those of `acc`.
pub open spec fn board_pairs(rest: Seq<char>, acc: Seq<Card>) -> Result<Seq<Card>, Fault>
    decreases rest.len(),
{
    if rest.len() < 2 {
        Ok(acc)
    } else {
        match Card::parsed(rest.take(2)) {
            Err(e) => Err(e),
            Ok(card) => board_pairs(rest.skip(2), acc.push(card)),
        }
    }
}

/// What `parse_board` makes of the characters `s`: after trimming, words
/// between whitespace if there is a space, else pairs of characters.
pub open spec fn board_of(s: Seq<char>) -> Result<Seq<Card>, Fault> {
    let t = trim(s);
    if t.contains(' ') {
        board_words(t, Seq::empty())
    } else if t.len() % 2 != 0 {
        Err(Fault { kind: ErrorKind::BoardLength, text: t })
    } else {
        board_pairs(t, Seq::empty())
    }
}

/// Reads the cards of a board written as words between whitespace.
fn parse_board_words(chars: &[char]) -> (r: Result<Vec<Card>, ParseError>)
    ensures
        outcome_view(r) == board_words(chars@, Seq::empty()),
{
    let mut cards: Vec<Card> = Vec::new();
    let mut pos: usize = 0;
    proof {
        assert(chars@.skip(0) =~= chars@);
    }
    loop
        invariant
            pos <= chars.len(),
            board_words(chars@, Seq::empty()) == board_words(chars@.skip(pos as int), cards@),
        decreases chars.len() - pos,
    {
        let ghost rest = chars@.skip(pos as int);
        let mut start: usize = pos;
        while start < chars.len() && is_whitespace(chars[start])
            invariant
                pos <= start <= chars.len(),
                trim_start(rest) == trim_start(chars@.skip(start as int)),
                rest == chars@.skip(pos as int),
            decreases chars.len() - start,
        {
            proof {
                assert(chars@.skip(start as int).skip(1) =~= chars@.skip(start + 1));
            }
            start += 1;
        }
        let tail = slice_subrange(chars, start, chars.len());
        if start == chars.len() {
            return Ok(cards);
        }
        let n = find_space(tail);
        proof {
            lemma_word_len_bounds(tail@);
        }
        let word = slice_subrange(tail, 0, n);
        proof {
            assert(word@ =~= tail@.take(n as int));
            assert(tail@.skip(n as int) =~= chars@.skip(start + n));
        }
        match Card::parse_chars(word) {
            Err(e) => {
                return Err(e);
            },
            Ok(card) => {
                cards.push(card);
            },
        }
        pos = start + n;
    }
}

/// Reads the cards of a board written two characters at a time.
fn parse_board_pairs(chars: &[char]) -> (r: Result<Vec<Card>, ParseError>)
    ensures
        outcome_view(r) == board_pairs(chars@, Seq::empty()),
{
    let mut cards: Vec<Card> = Vec::new();
    let mut pos: usize = 0;
    proof {
        assert(chars@.skip(0) =~= chars@);
    }
    while chars.len() - pos >= 2
        invariant
            pos <= chars.len(),
            board_pairs(chars@, Seq::empty()) == board_pairs(chars@.skip(pos as int), cards@),
        decreases chars.len() - pos,
    {
        let pair = slice_subrange(chars, pos, pos + 2);
        proof {
            assert(pair@ =~= chars@.skip(pos as int).take(2));
            assert(chars@.skip(pos as int).skip(2) =~= chars@.skip(pos + 2));
        }
        match Card::parse_chars(pair) {
            Err(e) => {
                return Err(e);
            },
            Ok(card) => {
                cards.push(card);
            },
        }
        pos += 2;
    }
    Ok(cards)
}

/// Reads board cards, either separated by whitespace (`Ah Kd Qc`) or written
/// together (`AhKdQc`). A card may occur more than once.
pub fn parse_board(s: &str) -> (r: Result<Vec<Card>, ParseError>)
    ensures
        outcome_view(r) == board_of(s@),
{
    let all = str_chars(s);
    let chars = trim_chars(all.as_slice());
    proof {
        lemma_first_index_bounds(chars@, ' ');
    }
    if find_char(chars, ' ') < chars.len() {
        parse_board_words(chars)
    } else if chars.len() % 2 != 0 {
        Err(ParseError::new(ErrorKind::BoardLength, chars))
    } else {
        parse_board_pairs(chars)
    }
}

} // verus!
