//! The error that every parser of this crate returns.

use vstd::prelude::*;
use vstd::string::StringExecFns;
use crate::text::string_from_chars;

verus! {

/// What was wrong with a piece of notation.
#[derive(Clone, Copy, Debug, PartialEq, Eq, Structural)]
pub enum ErrorKind {
    /// A card that is not written with exactly two characters.
    CardLength,
    /// A card whose first character names no rank.
    CardRank,
    /// A card whose second character names no suit.
    CardSuit,
    /// A board written without spaces whose length is odd.
    BoardLength,
    /// A hand pattern of fewer than two characters.
    HandLength,
    /// A hand pattern of more than three characters.
    HandFormat,
    /// A character in a hand pattern that names no rank.
    HandRank,
    /// A third character in a hand pattern other than `s` or `o`.
    HandModifier,
    /// A well-formed hand pattern that no combination matches.
    HandEmpty,
    /// Fewer than two characters before a `+`.
    PlusLength,
    /// A span that does not have exactly two sides around one `-`.
    SpanFormat,
    /// A span with a side of fewer than two characters.
    SpanLength,
    /// A span between two non-pair hands whose first ranks differ.
    SpanFirstRank,
    /// A frequency that is not a decimal number.
    FrequencySyntax,
    /// A frequency below zero or above one.
    FrequencyBounds,
    /// A bet size that is neither a decimal number nor an all-in marker.
    BetSizeSyntax,
    /// A bet size that is zero or negative.
    BetSizeSign,
    /// A list of bet sizes without a single entry.
    BetSizeEmpty,
}

/// A parse failure: what went wrong, and the piece of the input at fault.
#[derive(Clone, Debug)]
pub struct ParseError {
    pub kind: ErrorKind,
    pub text: String,
}

/// The mathematical content of a [`ParseError`].
pub struct Fault {
    pub kind: ErrorKind,
    pub text: Seq<char>,
}

impl View for ParseError {
    type V = Fault;

    open spec fn view(&self) -> Fault {
        Fault { kind: self.kind, text: self.text@ }
    }
}

impl ErrorKind {
    /// What the message says before the piece of input at fault.
    pub open spec fn lead(self) -> Seq<char> {
        match self {
            ErrorKind::CardLength => "Invalid card string: '"@,
            ErrorKind::CardRank => "Invalid rank: '"@,
            ErrorKind::CardSuit => "Invalid suit: '"@,
            ErrorKind::BoardLength => "Invalid board string: '"@,
            ErrorKind::HandLength => "Invalid hand: '"@,
            ErrorKind::HandFormat => "Invalid hand format: '"@,
            ErrorKind::HandRank => "Invalid rank: '"@,
            ErrorKind::HandModifier => "Invalid modifier: '"@,
            ErrorKind::HandEmpty => "No combos found for hand: '"@,
            ErrorKind::PlusLength => "Invalid plus notation: '"@,
            ErrorKind::SpanFormat => "Invalid range format: '"@,
            ErrorKind::SpanLength => "Invalid range: '"@,
            ErrorKind::SpanFirstRank => "Range must have same first rank: '"@,
            ErrorKind::FrequencySyntax => "Invalid frequency: '"@,
            ErrorKind::FrequencyBounds => "Frequency must be 0.0-1.0, got '"@,
            ErrorKind::BetSizeSyntax => "Invalid bet size: '"@,
            ErrorKind::BetSizeSign => "Bet size must be positive, got '"@,
            ErrorKind::BetSizeEmpty => "Bet size string cannot be empty: '"@,
        }
    }

    /// What the message says after the piece of input at fault.
    pub open spec fn tail(self) -> Seq<char> {
        match self {
            ErrorKind::CardLength => "' (expected 2 characters)"@,
            ErrorKind::CardRank => "' (expected one of 23456789TJQKA)"@,
            ErrorKind::CardSuit => "' (expected one of cdhs)"@,
            ErrorKind::BoardLength => "' (expected an even number of characters)"@,
            ErrorKind::HandLength => "' (expected two ranks)"@,
            ErrorKind::HandFormat => "' (expected two ranks and at most 's' or 'o')"@,
            ErrorKind::HandRank => "' (expected one of 23456789TJQKA)"@,
            ErrorKind::HandModifier => "' (expected 's' or 'o')"@,
            ErrorKind::HandEmpty => "'"@,
            ErrorKind::PlusLength => "' (expected two ranks before '+')"@,
            ErrorKind::SpanFormat => "' (expected two hands around one '-')"@,
            ErrorKind::SpanLength => "' (expected two ranks on either side)"@,
            ErrorKind::SpanFirstRank => "'"@,
            ErrorKind::FrequencySyntax => "' (expected a decimal number)"@,
            ErrorKind::FrequencyBounds => "'"@,
            ErrorKind::BetSizeSyntax => "' (expected number or 'a')"@,
            ErrorKind::BetSizeSign => "'"@,
            ErrorKind::BetSizeEmpty => "' (expected at least one size)"@,
        }
    }

    /// The text that `lead` stands for.
    fn lead_text(self) -> (text: &'static str)
        ensures
            text@ == self.lead(),
    {
        match self {
            ErrorKind::CardLength => "Invalid card string: '",
            ErrorKind::CardRank => "Invalid rank: '",
            ErrorKind::CardSuit => "Invalid suit: '",
            ErrorKind::BoardLength => "Invalid board string: '",
            ErrorKind::HandLength => "Invalid hand: '",
            ErrorKind::HandFormat => "Invalid hand format: '",
            ErrorKind::HandRank => "Invalid rank: '",
            ErrorKind::HandModifier => "Invalid modifier: '",
            ErrorKind::HandEmpty => "No combos found for hand: '",
            ErrorKind::PlusLength => "Invalid plus notation: '",
            ErrorKind::SpanFormat => "Invalid range format: '",
            ErrorKind::SpanLength => "Invalid range: '",
            ErrorKind::SpanFirstRank => "Range must have same first rank: '",
            ErrorKind::FrequencySyntax => "Invalid frequency: '",
            ErrorKind::FrequencyBounds => "Frequency must be 0.0-1.0, got '",
            ErrorKind::BetSizeSyntax => "Invalid bet size: '",
            ErrorKind::BetSizeSign => "Bet size must be positive, got '",
            ErrorKind::BetSizeEmpty => "Bet size string cannot be empty: '",
        }
    }

    /// The text that `tail` stands for.
    fn tail_text(self) -> (text: &'static str)
        ensures
            text@ == self.tail(),
    {
        match self {
            ErrorKind::CardLength => "' (expected 2 characters)",
            ErrorKind::CardRank => "' (expected one of 23456789TJQKA)",
            ErrorKind::CardSuit => "' (expected one of cdhs)",
            ErrorKind::BoardLength => "' (expected an even number of characters)",
            ErrorKind::HandLength => "' (expected two ranks)",
            ErrorKind::HandFormat => "' (expected two ranks and at most 's' or 'o')",
            ErrorKind::HandRank => "' (expected one of 23456789TJQKA)",
            ErrorKind::HandModifier => "' (expected 's' or 'o')",
            ErrorKind::HandEmpty => "'",
            ErrorKind::PlusLength => "' (expected two ranks before '+')",
            ErrorKind::SpanFormat => "' (expected two hands around one '-')",
            ErrorKind::SpanLength => "' (expected two ranks on either side)",
            ErrorKind::SpanFirstRank => "'",
            ErrorKind::FrequencySyntax => "' (expected a decimal number)",
            ErrorKind::FrequencyBounds => "'",
            ErrorKind::BetSizeSyntax => "' (expected number or 'a')",
            ErrorKind::BetSizeSign => "'",
            ErrorKind::BetSizeEmpty => "' (expected at least one size)",
        }
    }
}

impl Fault {
    /// The message of the failure: what was wrong, around the quoted piece of
    /// input at fault.
    pub open spec fn message(self) -> Seq<char> {
        self.kind.lead() + self.text + self.kind.tail()
    }
}

impl ParseError {
    /// The error of the given kind that blames `text`.
    pub fn new(kind: ErrorKind, text: &[char]) -> (e: ParseError)
        ensures
            e@ == (Fault { kind, text: text@ }),
    {
        ParseError { kind, text: string_from_chars(text) }
    }

    /// The error of the given kind that blames the single character `c`.
    pub fn at_char(kind: ErrorKind, c: char) -> (e: ParseError)
        ensures
            e@ == (Fault { kind, text: seq![c] }),
    {
        let mut text = String::new();
        text.push(c);
        ParseError { kind, text }
    }

    /// A sentence for the reader of the input: what was wrong, the piece at
    /// fault in quotes, and what was expected in its place.
    pub fn message(&self) -> (message: String)
        ensures
            message@ == self@.message(),
    {
        let mut message = String::from_str(self.kind.lead_text());
        message.append(self.text.as_str());
        message.append(self.kind.tail_text());
        message
    }
}

/// A result with its error replaced by the error's mathematical content.
pub open spec fn outcome<T>(r: Result<T, ParseError>) -> Result<T, Fault> {
    match r {
        Ok(v) => Ok(v),
        Err(e) => Err(e@),
    }
}

/// A result with both its value and its error replaced by their views.
pub open spec fn outcome_view<T: View>(r: Result<T, ParseError>) -> Result<T::V, Fault> {
    match r {
        Ok(v) => Ok(v@),
        Err(e) => Err(e@),
    }
}

} // verus!
