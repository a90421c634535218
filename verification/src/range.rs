//! Hand ranges in solver shorthand: single hands (`AA`, `AKs`, `AKo`), spans
//! (`JJ-99`, `AQs-ATs`), plus notation (`22+`, `A2s+`) and frequencies
//! (`QQ:0.5`), joined by commas.

use std::collections::HashMap;
use vstd::prelude::*;
use vstd::slice::slice_subrange;
use crate::cards::{all_combos, generate_all_combos, lemma_all_combos, Card, Combo, Rank};
use crate::decimal::{
    all_zero, decimal_of, fraction_part, lemma_sign_kept, unsigned_part, whole_part, Decimal, SCALE,
};
use crate::error::{outcome_view, ErrorKind, Fault, ParseError};
use crate::text::{
    find_char, first_index, lemma_first_index_bounds, str_chars, string_from_chars, trim, trim_chars,
};

verus! {

/// What the third character of a hand asks for: `Some(true)` for suited
/// (`s`), `Some(false)` for offsuit (`o`), in either case.
pub open spec fn suited_of(c: char) -> Option<bool> {
    if c == 's' || c == 'S' {
        Some(true)
    } else if c == 'o' || c == 'O' {
        Some(false)
    } else {
        None
    }
}

/// Whether `combo` is a hand of the two ranks, given in either order, with
/// the suits as `suited` asks where it asks. The higher rank is looked for in
/// the first card.
pub open spec fn combo_matches(combo: Combo, rank1: Rank, rank2: Rank, suited: Option<bool>) -> bool {
    let high = if rank1.ordinal() >= rank2.ordinal() {
        rank1
    } else {
        rank2
    };
    let low = if rank1.ordinal() >= rank2.ordinal() {
        rank2
    } else {
        rank1
    };
    &&& combo.card1.rank == high
    &&& combo.card2.rank == low
    &&& match suited {
        Some(want) => (combo.card1.suit == combo.card2.suit) == want,
        None => true,
    }
}

/// The numbers of the combinations of `combos` that match, in their order.
pub open spec fn matching_ids(
    combos: Seq<Combo>,
    rank1: Rank,
    rank2: Rank,
    suited: Option<bool>,
) -> Seq<u16> {
    combos.filter_map(
        |combo: Combo|
            if combo_matches(combo, rank1, rank2, suited) {
                Some(combo.id)
            } else {
                None
            },
    )
}

/// The canonical text of a hand: the two rank characters and the modifier.
pub open spec fn hand_text(rank1: Rank, rank2: Rank, suited: Option<bool>) -> Seq<char> {
    seq![rank1.symbol(), rank2.symbol()] + match suited {
        Some(true) => seq!['s'],
        Some(false) => seq!['o'],
        None => Seq::empty(),
    }
}

/// The matching numbers, or the error that blames `text` where there are none.
pub open spec fn pick(
    combos: Seq<Combo>,
    rank1: Rank,
    rank2: Rank,
    suited: Option<bool>,
    text: Seq<char>,
) -> Result<Seq<u16>, Fault> {
    let ids = matching_ids(combos, rank1, rank2, suited);
    if ids.len() == 0 {
        Err(Fault { kind: ErrorKind::HandEmpty, text })
    } else {
        Ok(ids)
    }
}

/// The two ranks that a pattern of at least two characters starts with.
pub open spec fn pattern_ranks(s: Seq<char>) -> Result<(Rank, Rank), Fault> {
    match Rank::of_symbol(s[0]) {
        None => Err(Fault { kind: ErrorKind::HandRank, text: seq![s[0]] }),
        Some(rank1) => match Rank::of_symbol(s[1]) {
            None => Err(Fault { kind: ErrorKind::HandRank, text: seq![s[1]] }),
            Some(rank2) => Ok((rank1, rank2)),
        },
    }
}

/// The modifier of a pattern: that of its third character where it has
/// exactly three, none otherwise.
pub open spec fn pattern_modifier(s: Seq<char>) -> Result<Option<bool>, Fault> {
    if s.len() == 3 {
        match suited_of(s[2]) {
            None => Err(Fault { kind: ErrorKind::HandModifier, text: seq![s[2]] }),
            Some(want) => Ok(Some(want)),
        }
    } else {
        Ok(None)
    }
}

/// What a single hand such as `AA`, `AKs` or `AKo` selects from `combos`.
pub open spec fn single_hand(s: Seq<char>, combos: Seq<Combo>) -> Result<Seq<u16>, Fault> {
    if s.len() < 2 {
        Err(Fault { kind: ErrorKind::HandLength, text: s })
    } else {
        match pattern_ranks(s) {
            Err(e) => Err(e),
            Ok((rank1, rank2)) => match pattern_modifier(s) {
                Err(e) => Err(e),
                Ok(suited) => if s.len() > 3 {
                    Err(Fault { kind: ErrorKind::HandFormat, text: s })
                } else {
                    pick(combos, rank1, rank2, suited, s)
                },
            },
        }
    }
}

/// The two ranks of the hand of a sweep at rank `r`: the pair of `r` where
/// no rank is fixed, else the fixed rank with `r`.
pub open spec fn sweep_hand(fixed: Option<Rank>, r: Rank) -> (Rank, Rank) {
    match fixed {
        None => (r, r),
        Some(first) => (first, r),
    }
}

/// What the hands of a sweep select, rank by rank from position `low` up to
/// but not including position `high`. The first hand that selects nothing is
/// the error.
pub open spec fn sweep(
    combos: Seq<Combo>,
    fixed: Option<Rank>,
    suited: Option<bool>,
    low: int,
    high: int,
) -> Result<Seq<u16>, Fault>
    decreases high - low,
{
    if high <= low {
        Ok(Seq::empty())
    } else {
        match sweep(combos, fixed, suited, low, high - 1) {
            Err(e) => Err(e),
            Ok(ids) => {
                let (rank1, rank2) = sweep_hand(fixed, Rank::at(high - 1));
                match pick(combos, rank1, rank2, suited, hand_text(rank1, rank2, suited)) {
                    Err(e) => Err(e),
                    Ok(more) => Ok(ids + more),
                }
            },
        }
    }
}

/// What the hands of plus notation select: for a pair, every pair from that
/// rank up to aces; otherwise the first rank with every second rank from the
/// given one up to, not including, the first.
pub open spec fn plus_sweep(
    combos: Seq<Combo>,
    rank1: Rank,
    rank2: Rank,
    suited: Option<bool>,
) -> Result<Seq<u16>, Fault> {
    if rank1 == rank2 {
        sweep(combos, None, None, rank1.ordinal(), 13)
    } else {
        sweep(combos, Some(rank1), suited, rank2.ordinal(), rank1.ordinal())
    }
}

/// What plus notation selects, given what stands before the `+`. A pattern
/// whose sweep holds no hand, as where the second rank is not below the
/// first, selects nothing and is an error that blames the pattern with its
/// `+`.
pub open spec fn plus_notation(s: Seq<char>, combos: Seq<Combo>) -> Result<Seq<u16>, Fault> {
    if s.len() < 2 {
        Err(Fault { kind: ErrorKind::PlusLength, text: s.push('+') })
    } else {
        match pattern_ranks(s) {
            Err(e) => Err(e),
            Ok((rank1, rank2)) => match pattern_modifier(s) {
                Err(e) => Err(e),
                Ok(suited) => match plus_sweep(combos, rank1, rank2, suited) {
                    Err(e) => Err(e),
                    Ok(ids) => if ids.len() == 0 {
                        Err(Fault { kind: ErrorKind::HandEmpty, text: s.push('+') })
                    } else {
                        Ok(ids)
                    },
                },
            },
        }
    }
}

/// The lower of two positions.
pub open spec fn lower(a: int, b: int) -> int {
    if a <= b {
        a
    } else {
        b
    }
}

/// The higher of two positions.
pub open spec fn higher(a: int, b: int) -> int {
    if a <= b {
        b
    } else {
        a
    }
}

/// What a span such as `JJ-99` or `AQs-ATs` selects: between two pairs,
/// every pair from the lower to the higher; between two other hands of one
/// first rank, that rank with every second rank from the lower to the higher,
/// under the modifier of the left side.
pub open spec fn span_notation(s: Seq<char>, combos: Seq<Combo>) -> Result<Seq<u16>, Fault> {
    let dash = first_index(s, '-');
    let start = s.take(dash);
    let end = s.skip(dash + 1);
    if dash >= s.len() || end.contains('-') {
        Err(Fault { kind: ErrorKind::SpanFormat, text: s })
    } else if start.len() < 2 || end.len() < 2 {
        Err(Fault { kind: ErrorKind::SpanLength, text: s })
    } else {
        match pattern_ranks(start) {
            Err(e) => Err(e),
            Ok((start1, start2)) => match pattern_ranks(end) {
                Err(e) => Err(e),
                Ok((end1, end2)) => match pattern_modifier(start) {
                    Err(e) => Err(e),
                    Ok(suited) => if start1 == start2 && end1 == end2 {
                        sweep(
                            combos,
                            None,
                            None,
                            lower(start1.ordinal(), end1.ordinal()),
                            higher(start1.ordinal(), end1.ordinal()) + 1,
                        )
                    } else if start1 != end1 {
                        Err(Fault { kind: ErrorKind::SpanFirstRank, text: s })
                    } else {
                        sweep(
                            combos,
                            Some(start1),
                            suited,
                            lower(start2.ordinal(), end2.ordinal()),
                            higher(start2.ordinal(), end2.ordinal()) + 1,
                        )
                    },
                },
            },
        }
    }
}

/// What a hand pattern selects: plus notation where it ends with `+`, else a
/// span where it holds a `-`, else a single hand.
pub open spec fn hand_pattern(s: Seq<char>, combos: Seq<Combo>) -> Result<Seq<u16>, Fault> {
    if s.len() > 0 && s.last() == '+' {
        plus_notation(s.drop_last(), combos)
    } else if s.contains('-') {
        span_notation(s, combos)
    } else {
        single_hand(s, combos)
    }
}

/// The numbers of the combinations in `all_combos` that are a hand of the two
/// ranks with the suits as `suited` asks, in their order.
pub fn hand_combo_ids(rank1: Rank, rank2: Rank, suited: Option<bool>, all_combos: &[Combo]) -> (ids:
    Vec<u16>)
    ensures
        ids@ == matching_ids(all_combos@, rank1, rank2, suited),
{
    let ghost f = |combo: Combo|
        if combo_matches(combo, rank1, rank2, suited) {
            Some(combo.id)
        } else {
            None
        };
    let (high, low) = if rank1.index() >= rank2.index() {
        (rank1, rank2)
    } else {
        (rank2, rank1)
    };
    let mut ids: Vec<u16> = Vec::new();
    let mut i: usize = 0;
    while i < all_combos.len()
        invariant
            i <= all_combos.len(),
            f == |combo: Combo|
                if combo_matches(combo, rank1, rank2, suited) {
                    Some(combo.id)
                } else {
                    None
                },
            high == if rank1.ordinal() >= rank2.ordinal() {
                rank1
            } else {
                rank2
            },
            low == if rank1.ordinal() >= rank2.ordinal() {
                rank2
            } else {
                rank1
            },
            ids@ == all_combos@.take(i as int).filter_map(f),
        decreases all_combos.len() - i,
    {
        let combo = all_combos[i];
        proof {
            all_combos@.lemma_filter_map_take_succ(f, i as int);
        }
        let ranks_match = combo.card1.rank == high && combo.card2.rank == low;
        let is_suited = combo.card1.suit == combo.card2.suit;
        let suits_match = match suited {
            Some(want) => is_suited == want,
            None => true,
        };
        if ranks_match && suits_match {
            ids.push(combo.id);
        }
        i += 1;
    }
    proof {
        assert(all_combos@.take(all_combos@.len() as int) =~= all_combos@);
    }
    ids
}

/// The error of a hand that selects nothing, blaming the hand's canonical text.
fn empty_hand_error(rank1: Rank, rank2: Rank, suited: Option<bool>) -> (e: ParseError)
    ensures
        e@ == (Fault { kind: ErrorKind::HandEmpty, text: hand_text(rank1, rank2, suited) }),
{
    let mut text = String::new();
    text.push(rank1.to_char());
    text.push(rank2.to_char());
    match suited {
        Some(true) => {
            text.push('s');
        },
        Some(false) => {
            text.push('o');
        },
        None => {},
    }
    proof {
        assert(text@ =~= hand_text(rank1, rank2, suited));
    }
    ParseError { kind: ErrorKind::HandEmpty, text }
}

/// Reads the two ranks that a pattern starts with.
fn read_pattern_ranks(chars: &[char]) -> (r: Result<(Rank, Rank), ParseError>)
    requires
        chars@.len() >= 2,
    ensures
        crate::error::outcome(r) == pattern_ranks(chars@),
{
    match Rank::from_char(chars[0]) {
        None => Err(ParseError::at_char(ErrorKind::HandRank, chars[0])),
        Some(rank1) => match Rank::from_char(chars[1]) {
            None => Err(ParseError::at_char(ErrorKind::HandRank, chars[1])),
            Some(rank2) => Ok((rank1, rank2)),
        },
    }
}

/// Reads the modifier of a pattern, if it has exactly three characters.
fn read_pattern_modifier(chars: &[char]) -> (r: Result<Option<bool>, ParseError>)
    ensures
        crate::error::outcome(r) == pattern_modifier(chars@),
{
    if chars.len() == 3 {
        let c = chars[2];
        if c == 's' || c == 'S' {
            Ok(Some(true))
        } else if c == 'o' || c == 'O' {
            Ok(Some(false))
        } else {
            Err(ParseError::at_char(ErrorKind::HandModifier, c))
        }
    } else {
        Ok(None)
    }
}

/// Selects the combinations of a single hand from `all_combos`.
pub fn single_hand_chars(chars: &[char], all_combos: &[Combo]) -> (r: Result<Vec<u16>, ParseError>)
    ensures
        outcome_view(r) == single_hand(chars@, all_combos@),
{
    if chars.len() < 2 {
        return Err(ParseError::new(ErrorKind::HandLength, chars));
    }
    let (rank1, rank2) = match read_pattern_ranks(chars) {
        Err(e) => {
            return Err(e);
        },
        Ok(ranks) => ranks,
    };
    let suited = match read_pattern_modifier(chars) {
        Err(e) => {
            return Err(e);
        },
        Ok(suited) => suited,
    };
    if chars.len() > 3 {
        return Err(ParseError::new(ErrorKind::HandFormat, chars));
    }
    let ids = hand_combo_ids(rank1, rank2, suited, all_combos);
    if ids.len() == 0 {
        Err(ParseError::new(ErrorKind::HandEmpty, chars))
    } else {
        Ok(ids)
    }
}

/// Selects from `all_combos` the hands of a sweep over the ranks from
/// position `low` up to but not including position `high`.
fn sweep_ranks(
    all_combos: &[Combo],
    fixed: Option<Rank>,
    suited: Option<bool>,
    low: u8,
    high: u8,
) -> (r: Result<Vec<u16>, ParseError>)
    requires
        high <= 13,
    ensures
        outcome_view(r) == sweep(all_combos@, fixed, suited, low as int, high as int),
{
    let mut ids: Vec<u16> = Vec::new();
    if high <= low {
        return Ok(ids);
    }
    let mut position: u8 = low;
    while position < high
        invariant
            low <= position <= high <= 13,
            sweep(all_combos@, fixed, suited, low as int, position as int) == Ok::<Seq<u16>, Fault>(
                ids@,
            ),
        decreases high - position,
    {
        let rank = match Rank::from_index(position) {
            Some(rank) => rank,
            None => {
                return Ok(ids);
            },
        };
        let (rank1, rank2) = match fixed {
            None => (rank, rank),
            Some(first) => (first, rank),
        };
        let mut more = hand_combo_ids(rank1, rank2, suited, all_combos);
        proof {
            assert(sweep_hand(fixed, Rank::at(position as int)) == (rank1, rank2));
            assert(sweep(all_combos@, fixed, suited, low as int, position + 1) == match pick(
                all_combos@,
                rank1,
                rank2,
                suited,
                hand_text(rank1, rank2, suited),
            ) {
                Err(e) => Err::<Seq<u16>, Fault>(e),
                Ok(found) => Ok(ids@ + found),
            });
        }
        if more.len() == 0 {
            proof {
                lemma_sweep_error(all_combos@, fixed, suited, low as int, position + 1, high as int);
            }
            return Err(empty_hand_error(rank1, rank2, suited));
        }
        ids.append(&mut more);
        position += 1;
    }
    Ok(ids)
}

/// An error of a sweep is the error of every longer sweep from the same start.
pub proof fn lemma_sweep_error(
    combos: Seq<Combo>,
    fixed: Option<Rank>,
    suited: Option<bool>,
    low: int,
    middle: int,
    high: int,
)
    requires
        low <= middle <= high,
        sweep(combos, fixed, suited, low, middle) is Err,
    ensures
        sweep(combos, fixed, suited, low, high) == sweep(combos, fixed, suited, low, middle),
    decreases high - middle,
{
    if middle < high {
        lemma_sweep_error(combos, fixed, suited, low, middle, high - 1);
    }
}

/// Selects from `all_combos` what plus notation asks for, given what stands
/// before the `+`.
pub fn plus_notation_chars(chars: &[char], all_combos: &[Combo]) -> (r: Result<Vec<u16>, ParseError>)
    ensures
        outcome_view(r) == plus_notation(chars@, all_combos@),
{
    if chars.len() < 2 {
        let mut text = string_from_chars(chars);
        text.push('+');
        return Err(ParseError { kind: ErrorKind::PlusLength, text });
    }
    let (rank1, rank2) = match read_pattern_ranks(chars) {
        Err(e) => {
            return Err(e);
        },
        Ok(ranks) => ranks,
    };
    let suited = match read_pattern_modifier(chars) {
        Err(e) => {
            return Err(e);
        },
        Ok(suited) => suited,
    };
    let swept = if rank1 == rank2 {
        sweep_ranks(all_combos, None, None, rank1.index(), 13)
    } else {
        sweep_ranks(all_combos, Some(rank1), suited, rank2.index(), rank1.index())
    };
    match swept {
        Err(e) => Err(e),
        Ok(ids) => if ids.len() == 0 {
            let mut text = string_from_chars(chars);
            text.push('+');
            Err(ParseError { kind: ErrorKind::HandEmpty, text })
        } else {
            Ok(ids)
        },
    }
}

/// Selects from `all_combos` what a span asks for.
pub fn span_notation_chars(chars: &[char], all_combos: &[Combo]) -> (r: Result<Vec<u16>, ParseError>)
    ensures
        outcome_view(r) == span_notation(chars@, all_combos@),
{
    let dash = find_char(chars, '-');
    if dash >= chars.len() {
        return Err(ParseError::new(ErrorKind::SpanFormat, chars));
    }
    let start = slice_subrange(chars, 0, dash);
    let end = slice_subrange(chars, dash + 1, chars.len());
    proof {
        assert(start@ =~= chars@.take(dash as int));
        assert(end@ =~= chars@.skip(dash + 1));
        lemma_first_index_bounds(end@, '-');
    }
    if find_char(end, '-') < end.len() {
        return Err(ParseError::new(ErrorKind::SpanFormat, chars));
    }
    if start.len() < 2 || end.len() < 2 {
        return Err(ParseError::new(ErrorKind::SpanLength, chars));
    }
    let (start1, start2) = match read_pattern_ranks(start) {
        Err(e) => {
            return Err(e);
        },
        Ok(ranks) => ranks,
    };
    let (end1, end2) = match read_pattern_ranks(end) {
        Err(e) => {
            return Err(e);
        },
        Ok(ranks) => ranks,
    };
    let suited = match read_pattern_modifier(start) {
        Err(e) => {
            return Err(e);
        },
        Ok(suited) => suited,
    };
    if start1 == start2 && end1 == end2 {
        let a = start1.index();
        let b = end1.index();
        if a <= b {
            sweep_ranks(all_combos, None, None, a, b + 1)
        } else {
            sweep_ranks(all_combos, None, None, b, a + 1)
        }
    } else if start1 != end1 {
        Err(ParseError::new(ErrorKind::SpanFirstRank, chars))
    } else {
        let a = start2.index();
        let b = end2.index();
        if a <= b {
            sweep_ranks(all_combos, Some(start1), suited, a, b + 1)
        } else {
            sweep_ranks(all_combos, Some(start1), suited, b, a + 1)
        }
    }
}

/// Selects from `all_combos` what a hand pattern asks for.
pub fn hand_pattern_chars(chars: &[char], all_combos: &[Combo]) -> (r: Result<Vec<u16>, ParseError>)
    ensures
        outcome_view(r) == hand_pattern(chars@, all_combos@),
{
    let n = chars.len();
    if n > 0 && chars[n - 1] == '+' {
        let head = slice_subrange(chars, 0, n - 1);
        return plus_notation_chars(head, all_combos);
    }
    proof {
        lemma_first_index_bounds(chars@, '-');
    }
    if find_char(chars, '-') < n {
        span_notation_chars(chars, all_combos)
    } else {
        single_hand_chars(chars, all_combos)
    }
}

/// Selects the combinations of a single hand such as `AA`, `AKs` or `AKo`
/// from `all_combos`. A hand of two characters that is no pair selects the
/// suited and the offsuit combinations alike.
pub fn parse_single_hand(s: &str, all_combos: &[Combo]) -> (r: Result<Vec<u16>, ParseError>)
    ensures
        outcome_view(r) == single_hand(s@, all_combos@),
{
    let chars = str_chars(s);
    single_hand_chars(chars.as_slice(), all_combos)
}

/// Selects what plus notation such as `22+`, `A2s+` or `ATo+` asks for from
/// the enumeration of all combinations; `s` is what stands before the `+`.
pub fn parse_plus_notation(s: &str) -> (r: Result<Vec<u16>, ParseError>)
    ensures
        outcome_view(r) == plus_notation(s@, all_combos()),
{
    let all = generate_all_combos();
    let chars = str_chars(s);
    plus_notation_chars(chars.as_slice(), all.as_slice())
}

/// Selects what a span such as `JJ-99` or `AQs-ATs` asks for from the
/// enumeration of all combinations.
pub fn parse_range_notation(s: &str) -> (r: Result<Vec<u16>, ParseError>)
    ensures
        outcome_view(r) == span_notation(s@, all_combos()),
{
    let all = generate_all_combos();
    let chars = str_chars(s);
    span_notation_chars(chars.as_slice(), all.as_slice())
}

/// Selects what a hand pattern asks for from the enumeration of all
/// combinations.
pub fn parse_hand_pattern(s: &str) -> (r: Result<Vec<u16>, ParseError>)
    ensures
        outcome_view(r) == hand_pattern(s@, all_combos()),
{
    let all = generate_all_combos();
    let chars = str_chars(s);
    hand_pattern_chars(chars.as_slice(), all.as_slice())
}

/// The order in which a hand names its two ranks does not matter.
pub proof fn lemma_rank_order_irrelevant(
    combos: Seq<Combo>,
    rank1: Rank,
    rank2: Rank,
    suited: Option<bool>,
)
    ensures
        matching_ids(combos, rank1, rank2, suited) == matching_ids(combos, rank2, rank1, suited),
    decreases combos.len(),
{
    let f = |combo: Combo|
        if combo_matches(combo, rank1, rank2, suited) {
            Some(combo.id)
        } else {
            None
        };
    let g = |combo: Combo|
        if combo_matches(combo, rank2, rank1, suited) {
            Some(combo.id)
        } else {
            None
        };
    if combos.len() > 0 {
        lemma_rank_order_irrelevant(combos.drop_last(), rank1, rank2, suited);
        assert(f(combos.last()) == g(combos.last()));
        assert(combos.drop_last().filter_map(f) == combos.drop_last().filter_map(g));
    }
    assert(combos.filter_map(f) == combos.filter_map(g));
}

/// The empty string writes the empty range.
pub proof fn lemma_empty_range()
    ensures
        range_of(Seq::empty()) == Ok::<Map<u16, Decimal>, Fault>(Map::empty()),
{
    let s = Seq::<char>::empty();
    assert(first_index(s, ',') == 0);
    assert(s.take(0) =~= s);
    assert(trim(s) == s);
}

/// Whether every number in `ids` is below `bound`.
pub open spec fn ids_below(ids: Seq<u16>, bound: int) -> bool {
    forall|i: int| 0 <= i < ids.len() ==> #[trigger] ids[i] < bound
}

/// Whether every combination in `combos` has a number below `bound`.
pub open spec fn numbered_below(combos: Seq<Combo>, bound: int) -> bool {
    forall|k: int| 0 <= k < combos.len() ==> (#[trigger] combos[k]).id < bound
}

/// The numbers that a hand selects are numbers of the combinations given.
pub proof fn lemma_matching_ids_below(
    combos: Seq<Combo>,
    rank1: Rank,
    rank2: Rank,
    suited: Option<bool>,
    bound: int,
)
    requires
        numbered_below(combos, bound),
    ensures
        ids_below(matching_ids(combos, rank1, rank2, suited), bound),
{
    let f = |combo: Combo|
        if combo_matches(combo, rank1, rank2, suited) {
            Some(combo.id)
        } else {
            None
        };
    let ids = combos.filter_map(f);
    assert forall|i: int| 0 <= i < ids.len() implies #[trigger] ids[i] < bound by {
        assert(ids.contains(ids[i]));
        combos.lemma_filter_map_contains(f, ids[i]);
        let t = choose|t: Combo| #[trigger] combos.contains(t) && f(t) == Some(ids[i]);
        let k = choose|k: int| 0 <= k < combos.len() && combos[k] == t;
        assert(combos[k].id < bound);
    }
}

/// The numbers that a sweep selects are numbers of the combinations given.
pub proof fn lemma_sweep_below(
    combos: Seq<Combo>,
    fixed: Option<Rank>,
    suited: Option<bool>,
    low: int,
    high: int,
    bound: int,
)
    requires
        numbered_below(combos, bound),
    ensures
        sweep(combos, fixed, suited, low, high) matches Ok(ids) ==> ids_below(ids, bound),
    decreases high - low,
{
    if high > low {
        lemma_sweep_below(combos, fixed, suited, low, high - 1, bound);
        let (rank1, rank2) = sweep_hand(fixed, Rank::at(high - 1));
        lemma_matching_ids_below(combos, rank1, rank2, suited, bound);
    }
}

/// The numbers that a hand pattern selects are numbers of the combinations
/// given.
pub proof fn lemma_hand_pattern_below(s: Seq<char>, combos: Seq<Combo>, bound: int)
    requires
        numbered_below(combos, bound),
    ensures
        hand_pattern(s, combos) matches Ok(ids) ==> ids_below(ids, bound),
{
    if s.len() > 0 && s.last() == '+' {
        let head = s.drop_last();
        if head.len() >= 2 {
            if let Ok((rank1, rank2)) = pattern_ranks(head) {
                if let Ok(suited) = pattern_modifier(head) {
                    lemma_sweep_below(combos, None, None, rank1.ordinal(), 13, bound);
                    lemma_sweep_below(
                        combos,
                        Some(rank1),
                        suited,
                        rank2.ordinal(),
                        rank1.ordinal(),
                        bound,
                    );
                }
            }
        }
    } else if s.contains('-') {
        let dash = first_index(s, '-');
        let start = s.take(dash);
        let end = s.skip(dash + 1);
        if let Ok((start1, start2)) = pattern_ranks(start) {
            if let Ok((end1, end2)) = pattern_ranks(end) {
                if let Ok(suited) = pattern_modifier(start) {
                    lemma_sweep_below(
                        combos,
                        None,
                        None,
                        lower(start1.ordinal(), end1.ordinal()),
                        higher(start1.ordinal(), end1.ordinal()) + 1,
                        bound,
                    );
                    lemma_sweep_below(
                        combos,
                        Some(start1),
                        suited,
                        lower(start2.ordinal(), end2.ordinal()),
                        higher(start2.ordinal(), end2.ordinal()) + 1,
                        bound,
                    );
                }
            }
        }
    } else {
        if s.len() >= 2 {
            if let Ok((rank1, rank2)) = pattern_ranks(s) {
                if let Ok(suited) = pattern_modifier(s) {
                    lemma_matching_ids_below(combos, rank1, rank2, suited, bound);
                }
            }
        }
    }
}

/// A sweep over at least one rank that succeeds selects at least one
/// combination.
pub proof fn lemma_sweep_not_empty(
    combos: Seq<Combo>,
    fixed: Option<Rank>,
    suited: Option<bool>,
    low: int,
    high: int,
)
    requires
        low < high,
    ensures
        sweep(combos, fixed, suited, low, high) matches Ok(ids) ==> ids.len() > 0,
{
}

/// A hand pattern that selects no combination is an error: whatever a
/// pattern selects holds at least one number.
pub proof fn lemma_hand_pattern_not_empty(s: Seq<char>, combos: Seq<Combo>)
    ensures
        hand_pattern(s, combos) matches Ok(ids) ==> ids.len() > 0,
{
    if !(s.len() > 0 && s.last() == '+') && s.contains('-') {
        let dash = first_index(s, '-');
        let start = s.take(dash);
        let end = s.skip(dash + 1);
        if let Ok((start1, start2)) = pattern_ranks(start) {
            if let Ok((end1, end2)) = pattern_ranks(end) {
                if let Ok(suited) = pattern_modifier(start) {
                    lemma_sweep_not_empty(
                        combos,
                        None,
                        None,
                        lower(start1.ordinal(), end1.ordinal()),
                        higher(start1.ordinal(), end1.ordinal()) + 1,
                    );
                    lemma_sweep_not_empty(
                        combos,
                        Some(start1),
                        suited,
                        lower(start2.ordinal(), end2.ordinal()),
                        higher(start2.ordinal(), end2.ordinal()) + 1,
                    );
                }
            }
        }
    }
}

/// Whether the entries of a range are in order: numbers of combinations of
/// the enumeration, with frequencies between zero and one.
pub open spec fn valid_entries(entries: Map<u16, Decimal>) -> bool {
    forall|id: u16| #[trigger]
        entries.dom().contains(id) ==> id < 1326 && entries[id].spec_is_fraction()
}

/// The entries `entries` after each number in `ids` was given `frequency`,
/// whatever it had before.
pub open spec fn with_entries(entries: Map<u16, Decimal>, ids: Seq<u16>, frequency: Decimal) -> Map<
    u16,
    Decimal,
> {
    Map::new(
        |id: u16| ids.contains(id) || entries.dom().contains(id),
        |id: u16|
            if ids.contains(id) {
                frequency
            } else {
                entries[id]
            },
    )
}

/// The numbers and the frequency that one token of a range stands for: a
/// hand pattern, and after a `:` a frequency between zero and one, which is
/// one where the token has no `:`.
pub open spec fn token_entry(token: Seq<char>, combos: Seq<Combo>) -> Result<
    (Seq<u16>, Decimal),
    Fault,
> {
    let colon = first_index(token, ':');
    if colon < token.len() {
        let number = token.skip(colon + 1);
        match decimal_of(number) {
            None => Err(Fault { kind: ErrorKind::FrequencySyntax, text: number }),
            Some(frequency) => if !frequency.spec_is_fraction() {
                Err(Fault { kind: ErrorKind::FrequencyBounds, text: number })
            } else {
                match hand_pattern(token.take(colon), combos) {
                    Err(e) => Err(e),
                    Ok(ids) => Ok((ids, frequency)),
                }
            },
        }
    } else {
        match hand_pattern(token, combos) {
            Err(e) => Err(e),
            Ok(ids) => Ok((ids, Decimal { units: SCALE })),
        }
    }
}

/// A frequency written with `-` and a digit other than `0` is refused as
/// out of bounds, however small it is.
pub proof fn lemma_negative_frequency_refused(token: Seq<char>, combos: Seq<Combo>)
    requires
        first_index(token, ':') < token.len(),
        token.skip(first_index(token, ':') + 1).len() > 0,
        token.skip(first_index(token, ':') + 1)[0] == '-',
        decimal_of(token.skip(first_index(token, ':') + 1)) is Some,
        !all_zero(
            whole_part(unsigned_part(token.skip(first_index(token, ':') + 1))) + fraction_part(
                unsigned_part(token.skip(first_index(token, ':') + 1)),
            ),
        ),
    ensures
        token_entry(token, combos) == Err::<(Seq<u16>, Decimal), Fault>(
            Fault {
                kind: ErrorKind::FrequencyBounds,
                text: token.skip(first_index(token, ':') + 1),
            },
        ),
{
    lemma_sign_kept(token.skip(first_index(token, ':') + 1));
}

/// The entries `acc` after the tokens of `rest` were read in turn. Tokens are
/// parted by commas and trimmed, and an empty token changes nothing.
pub open spec fn range_from(rest: Seq<char>, acc: Map<u16, Decimal>, combos: Seq<Combo>) -> Result<
    Map<u16, Decimal>,
    Fault,
>
    decreases rest.len(),
{
    let comma = first_index(rest, ',');
    let token = trim(rest.take(comma));
    let entries = if token.len() == 0 {
        Ok(acc)
    } else {
        match token_entry(token, combos) {
            Err(e) => Err(e),
            Ok((ids, frequency)) => Ok(with_entries(acc, ids, frequency)),
        }
    };
    match entries {
        Err(e) => Err(e),
        Ok(next) => if comma < rest.len() {
            proof {
                lemma_first_index_bounds(rest, ',');
            }
            range_from(rest.skip(comma + 1), next, combos)
        } else {
            Ok(next)
        },
    }
}

/// The entries of the range that `s` writes.
pub open spec fn range_of(s: Seq<char>) -> Result<Map<u16, Decimal>, Fault> {
    range_from(s, Map::empty(), all_combos())
}

/// The entries of `entries` whose combination `board` does not block.
pub open spec fn without_blocked(entries: Map<u16, Decimal>, board: Seq<Card>) -> Map<u16, Decimal> {
    entries.restrict(Set::new(|id: u16| !all_combos()[id as int].blocked_by(board)))
}

/// Reads one token of a range.
fn read_token(token: &[char], all_combos: &[Combo]) -> (r: Result<(Vec<u16>, Decimal), ParseError>)
    ensures
        match r {
            Ok((ids, frequency)) => token_entry(token@, all_combos@) == Ok::<
                (Seq<u16>, Decimal),
                Fault,
            >((ids@, frequency)),
            Err(e) => token_entry(token@, all_combos@) == Err::<(Seq<u16>, Decimal), Fault>(e@),
        },
{
    let colon = find_char(token, ':');
    if colon < token.len() {
        let number = slice_subrange(token, colon + 1, token.len());
        let hand = slice_subrange(token, 0, colon);
        let frequency = match Decimal::parse_chars(number) {
            None => {
                return Err(ParseError::new(ErrorKind::FrequencySyntax, number));
            },
            Some(frequency) => frequency,
        };
        if !frequency.is_fraction() {
            return Err(ParseError::new(ErrorKind::FrequencyBounds, number));
        }
        match hand_pattern_chars(hand, all_combos) {
            Err(e) => Err(e),
            Ok(ids) => Ok((ids, frequency)),
        }
    } else {
        match hand_pattern_chars(token, all_combos) {
            Err(e) => Err(e),
            Ok(ids) => Ok((ids, Decimal::one())),
        }
    }
}

/// Gives each number in `ids` the frequency, over whatever it had.
fn insert_all(entries: &mut HashMap<u16, Decimal>, ids: &Vec<u16>, frequency: Decimal)
    ensures
        final(entries)@ == with_entries(old(entries)@, ids@, frequency),
{
    broadcast use vstd::std_specs::hash::group_hash_axioms;

    let mut i: usize = 0;
    while i < ids.len()
        invariant
            i <= ids.len(),
            entries@ == with_entries(old(entries)@, ids@.take(i as int), frequency),
        decreases ids.len() - i,
    {
        let id = ids[i];
        entries.insert(id, frequency);
        proof {
            let before = ids@.take(i as int);
            let after = ids@.take(i + 1);
            assert(after =~= before.push(id));
            assert forall|k: u16| after.contains(k) <==> before.contains(k) || k == id by {
                if before.contains(k) {
                    let j = choose|j: int| 0 <= j < before.len() && before[j] == k;
                    assert(after[j] == k);
                }
                if k == id {
                    assert(after[i as int] == k);
                }
            }
            assert(entries@ =~= with_entries(old(entries)@, after, frequency));
        }
        i += 1;
    }
    proof {
        assert(ids@.take(ids@.len() as int) =~= ids@);
    }
}

/// A weighted set of combinations: for each combination in the range, by its
/// number in the enumeration, the frequency with which it is held. A
/// combination that is not in the range has no entry.
#[derive(Debug)]
pub struct Range {
    combos: HashMap<u16, Decimal>,
}

impl Clone for Range {
    fn clone(&self) -> (range: Range)
        ensures
            range@ == self@,
    {
        proof {
            use_type_invariant(self);
        }
        Range { combos: self.combos.clone() }
    }
}

impl View for Range {
    type V = Map<u16, Decimal>;

    closed spec fn view(&self) -> Map<u16, Decimal> {
        self.combos@
    }
}

impl Range {
    #[verifier::type_invariant]
    spec fn well_formed(self) -> bool {
        valid_entries(self.combos@)
    }

    /// The empty range.
    pub fn new() -> (range: Range)
        ensures
            range@ == Map::<u16, Decimal>::empty(),
            range@.dom().finite(),
    {
        Range { combos: HashMap::new() }
    }

    /// Reads a range such as `AA,AKs,QQ:0.5,JJ-99,22+`. Where two tokens name
    /// the same combination, the later one sets its frequency. The empty string
    /// is the empty range.
    pub fn parse(s: &str) -> (r: Result<Range, ParseError>)
        ensures
            outcome_view(r) == range_of(s@),
            r matches Ok(range) ==> valid_entries(range@) && range@.dom().finite(),
    {
        let all = generate_all_combos();
        let chars = str_chars(s);
        let chars = chars.as_slice();
        let mut entries: HashMap<u16, Decimal> = HashMap::new();
        let mut pos: usize = 0;
        proof {
            assert(chars@.skip(0) =~= chars@);
        }
        loop
            invariant
                pos <= chars.len(),
                chars@ == s@,
                all@ == all_combos(),
                valid_entries(entries@),
                range_of(s@) == range_from(chars@.skip(pos as int), entries@, all_combos()),
            decreases chars.len() - pos,
        {
            let rest = slice_subrange(chars, pos, chars.len());
            let comma = find_char(rest, ',');
            let token = trim_chars(slice_subrange(rest, 0, comma));
            proof {
                assert(rest@ =~= chars@.skip(pos as int));
                if comma < rest@.len() {
                    assert(rest@.skip(comma + 1) =~= chars@.skip(pos + comma + 1));
                }
            }
            if token.len() > 0 {
                match read_token(token, all.as_slice()) {
                    Err(e) => {
                        return Err(e);
                    },
                    Ok((ids, frequency)) => {
                        proof {
                            lemma_token_entry_valid(token@);
                            lemma_with_entries_valid(entries@, ids@, frequency);
                        }
                        insert_all(&mut entries, &ids, frequency);
                    },
                }
            }
            if comma < rest.len() {
                pos = pos + comma + 1;
            } else {
                return Ok(Range { combos: entries });
            }
        }
    }

    /// The range without the combinations that hold a card of `board`;
    /// frequencies stay as they are.
    pub fn filter_blocked(&self, board: &[Card]) -> (filtered: Range)
        ensures
            filtered@ == without_blocked(self@, board@),
            valid_entries(filtered@),
            self@.dom().finite(),
            filtered@.dom().finite(),
            filtered@.dom().subset_of(self@.dom()),
            filtered@.len() <= self@.len(),
    {
        broadcast use vstd::std_specs::hash::group_hash_axioms;

        proof {
            use_type_invariant(self);
        }
        let all = generate_all_combos();
        let mut entries: HashMap<u16, Decimal> = HashMap::new();
        let mut id: u16 = 0;
        while id < 1326
            invariant
                id <= 1326,
                all@ == all_combos(),
                all@.len() == 1326,
                valid_entries(self.combos@),
                forall|k: u16|
                    entries@.dom().contains(k) <==> k < id && self.combos@.dom().contains(k)
                        && !all_combos()[k as int].blocked_by(board@),
                forall|k: u16| entries@.dom().contains(k) ==> entries@[k] == self.combos@[k],
            decreases 1326 - id,
        {
            match self.combos.get(&id) {
                None => {},
                Some(frequency) => {
                    let combo = &all[id as usize];
                    if !combo.is_blocked_by(board) {
                        entries.insert(id, *frequency);
                    }
                },
            }
            id += 1;
        }
        proof {
            assert(entries@ =~= without_blocked(self.combos@, board@));
            assert(entries@.dom().subset_of(self.combos@.dom()));
            vstd::set_lib::lemma_len_subset(entries@.dom(), self.combos@.dom());
        }
        Range { combos: entries }
    }

    /// The entries of the range as pairs of number and frequency, by number:
    /// one pair for each combination in the range.
    pub fn get_combos(&self) -> (pairs: Vec<(u16, Decimal)>)
        ensures
            pairs@.len() == self@.len(),
            forall|i: int|
                0 <= i < pairs@.len() ==> self@.dom().contains((#[trigger] pairs@[i]).0)
                    && self@[pairs@[i].0] == pairs@[i].1,
            forall|i: int, j: int|
                0 <= i < j < pairs@.len() ==> (#[trigger] pairs@[i]).0 < (#[trigger] pairs@[j]).0,
            forall|id: u16|
                self@.dom().contains(id) ==> exists|i: int|
                    0 <= i < pairs@.len() && #[trigger] pairs@[i] == (id, self@[id]),
    {
        broadcast use vstd::std_specs::hash::group_hash_axioms;

        proof {
            use_type_invariant(self);
        }
        let mut pairs: Vec<(u16, Decimal)> = Vec::new();
        let mut id: u16 = 0;
        while id < 1326
            invariant
                id <= 1326,
                valid_entries(self.combos@),
                forall|i: int|
                    0 <= i < pairs@.len() ==> self.combos@.dom().contains((#[trigger] pairs@[i]).0)
                        && self.combos@[pairs@[i].0] == pairs@[i].1 && pairs@[i].0 < id,
                forall|i: int, j: int|
                    0 <= i < j < pairs@.len() ==> (#[trigger] pairs@[i]).0 < (#[trigger] pairs@[j]).0,
                forall|k: u16|
                    k < id && self.combos@.dom().contains(k) ==> exists|i: int|
                        0 <= i < pairs@.len() && #[trigger] pairs@[i] == (k, self.combos@[k]),
            decreases 1326 - id,
        {
            match self.combos.get(&id) {
                None => {},
                Some(frequency) => {
                    let ghost before = pairs@;
                    pairs.push((id, *frequency));
                    proof {
                        assert forall|k: u16|
                            k < id + 1 && self.combos@.dom().contains(k) implies exists|i: int|
                            0 <= i < pairs@.len() && #[trigger] pairs@[i] == (
                                k,
                                self.combos@[k],
                            ) by {
                            if k < id {
                                let i = choose|i: int|
                                    0 <= i < before.len() && #[trigger] before[i] == (
                                        k,
                                        self.combos@[k],
                                    );
                                assert(pairs@[i] == (k, self.combos@[k]));
                            } else {
                                assert(pairs@[before.len() as int] == (k, self.combos@[k]));
                            }
                        }
                    }
                },
            }
            id += 1;
        }
        proof {
            let ids = pairs@.map_values(|pair: (u16, Decimal)| pair.0);
            assert forall|i: int, j: int| 0 <= i < ids.len() && 0 <= j < ids.len() && i != j implies ids[i]
                != ids[j] by {
                if i < j {
                    assert(pairs@[i].0 < pairs@[j].0);
                } else {
                    assert(pairs@[j].0 < pairs@[i].0);
                }
            }
            ids.unique_seq_to_set();
            assert forall|k: u16| ids.to_set().contains(k) <==> self.combos@.dom().contains(k) by {
                if ids.to_set().contains(k) {
                    let i = choose|i: int| 0 <= i < ids.len() && ids[i] == k;
                    assert(pairs@[i].0 == k);
                }
                if self.combos@.dom().contains(k) {
                    let i = choose|i: int|
                        0 <= i < pairs@.len() && #[trigger] pairs@[i] == (k, self.combos@[k]);
                    assert(ids[i] == k);
                }
            }
            assert(ids.to_set() =~= self.combos@.dom());
        }
        pairs
    }

    /// Whether the range holds no combination.
    pub fn is_empty(&self) -> (empty: bool)
        ensures
            empty == (self@.len() == 0),
    {
        broadcast use vstd::std_specs::hash::group_hash_axioms;

        self.combos.len() == 0
    }

    /// The number of combinations in the range.
    pub fn len(&self) -> (n: usize)
        ensures
            n == self@.len(),
    {
        broadcast use vstd::std_specs::hash::group_hash_axioms;

        self.combos.len()
    }

    /// The frequency of the combination with the given number; zero where the
    /// range does not hold it.
    pub fn get_frequency(&self, combo_id: u16) -> (frequency: Decimal)
        ensures
            frequency == if self@.dom().contains(combo_id) {
                self@[combo_id]
            } else {
                Decimal { units: 0 }
            },
    {
        broadcast use vstd::std_specs::hash::group_hash_axioms;

        match self.combos.get(&combo_id) {
            Some(frequency) => *frequency,
            None => Decimal::zero(),
        }
    }
}

impl Default for Range {
    fn default() -> (range: Range)
        ensures
            range@ == Map::<u16, Decimal>::empty(),
    {
        Range::new()
    }
}

/// What a token of a range stands for, read against the enumeration, is in
/// order: numbers below 1,326 and a frequency between zero and one.
pub proof fn lemma_token_entry_valid(token: Seq<char>)
    ensures
        token_entry(token, all_combos()) matches Ok((ids, frequency)) ==> ids_below(ids, 1326)
            && frequency.spec_is_fraction(),
{
    lemma_all_combos();
    let colon = first_index(token, ':');
    lemma_hand_pattern_below(token, all_combos(), 1326);
    lemma_hand_pattern_below(token.take(colon), all_combos(), 1326);
}

/// Entries in order stay in order when numbers below 1,326 are given a
/// frequency between zero and one.
pub proof fn lemma_with_entries_valid(entries: Map<u16, Decimal>, ids: Seq<u16>, frequency: Decimal)
    requires
        valid_entries(entries),
        ids_below(ids, 1326),
        frequency.spec_is_fraction(),
    ensures
        valid_entries(with_entries(entries, ids, frequency)),
{
    let next = with_entries(entries, ids, frequency);
    assert forall|id: u16| #[trigger] next.dom().contains(id) implies id < 1326
        && next[id].spec_is_fraction() by {
        if ids.contains(id) {
            let i = choose|i: int| 0 <= i < ids.len() && ids[i] == id;
            assert(ids[i] < 1326);
        } else {
            assert(entries.dom().contains(id));
        }
    }
}

/// Every range that is read has its entries in order.
pub proof fn lemma_range_valid(s: Seq<char>)
    ensures
        range_of(s) matches Ok(entries) ==> valid_entries(entries),
{
    lemma_range_from_valid(s, Map::empty());
}

/// Reading further tokens keeps entries in order.
proof fn lemma_range_from_valid(rest: Seq<char>, acc: Map<u16, Decimal>)
    requires
        valid_entries(acc),
    ensures
        range_from(rest, acc, all_combos()) matches Ok(entries) ==> valid_entries(entries),
    decreases rest.len(),
{
    let comma = first_index(rest, ',');
    let token = trim(rest.take(comma));
    lemma_first_index_bounds(rest, ',');
    if token.len() == 0 {
        if comma < rest.len() {
            lemma_range_from_valid(rest.skip(comma + 1), acc);
        }
    } else {
        lemma_token_entry_valid(token);
        if let Ok((ids, frequency)) = token_entry(token, all_combos()) {
            lemma_with_entries_valid(acc, ids, frequency);
            if comma < rest.len() {
                lemma_range_from_valid(rest.skip(comma + 1), with_entries(acc, ids, frequency));
            }
        }
    }
}

} // verus!
