//! Bet sizes in solver shorthand: percentages of the pot (`33`, `67.5`) and
//! the all-in marker (`a`, `allin`), joined by commas, and the chip amounts
//! they come to for a given pot and stack.

use vstd::prelude::*;
use vstd::slice::slice_subrange;
use crate::decimal::{
    all_zero, decimal_of, fraction_part, lemma_sign_kept, unsigned_part, whole_part, Decimal, SCALE,
};
use crate::error::{outcome, outcome_view, ErrorKind, Fault, ParseError};
use crate::text::{find_char, first_index, lemma_first_index_bounds, str_chars, trim, trim_chars};

verus! {

/// One sizing rule.
#[derive(Clone, Copy, Debug, PartialEq, Eq, Structural)]
pub enum BetSize {
    /// A percentage of the pot.
    Percent(Decimal),
    /// The whole remaining stack.
    AllIn,
}

/// The lower of two numbers.
pub open spec fn at_most(a: int, cap: int) -> int {
    if a <= cap {
        a
    } else {
        cap
    }
}

impl BetSize {
    /// The bet that the rule comes to: the rounded percentage of the pot, but
    /// no more than the stack; the stack itself for all-in.
    pub open spec fn bet(self, pot: int, stack: int) -> int {
        match self {
            BetSize::Percent(percent) => at_most(percent.percent_of(pot), stack),
            BetSize::AllIn => stack,
        }
    }

    /// The raise that the rule comes to: the call plus the rounded percentage
    /// of the pot after the call; the stack itself for all-in.
    pub open spec fn raise(self, pot: int, to_call: int, stack: int) -> int {
        match self {
            BetSize::Percent(percent) => to_call + percent.percent_of(pot + to_call),
            BetSize::AllIn => stack,
        }
    }

    /// The bet in big blinds that the rule comes to for a pot and a stack.
    pub fn calculate(&self, pot: u32, stack: u32) -> (amount: u32)
        ensures
            amount == self.bet(pot as int, stack as int),
            amount <= stack,
    {
        match self {
            BetSize::Percent(percent) => match percent.percent_of_base(pot as u64) {
                Some(amount) => if amount <= stack {
                    amount
                } else {
                    stack
                },
                None => stack,
            },
            BetSize::AllIn => stack,
        }
    }
}

/// The bets that the rules come to, in the order of the rules, without those
/// that are zero.
pub open spec fn bet_amounts(sizes: Seq<BetSize>, pot: int, stack: int) -> Seq<u32> {
    sizes.filter_map(
        |size: BetSize|
            {
                let amount = size.bet(pot, stack);
                if 0 < amount <= stack {
                    Some(amount as u32)
                } else {
                    None
                }
            },
    )
}

/// The raises that the rules come to, in the order of the rules, without
/// those that do not exceed the call or that exceed the stack.
pub open spec fn raise_amounts(sizes: Seq<BetSize>, pot: int, to_call: int, stack: int) -> Seq<u32> {
    sizes.filter_map(
        |size: BetSize|
            {
                let amount = size.raise(pot, to_call, stack);
                if to_call < amount <= stack {
                    Some(amount as u32)
                } else {
                    None
                }
            },
    )
}

/// Every bet that the rules come to is above zero and within the stack.
pub proof fn lemma_bet_amounts_bounds(sizes: Seq<BetSize>, pot: int, stack: int)
    requires
        0 <= stack <= u32::MAX,
    ensures
        forall|i: int|
            0 <= i < bet_amounts(sizes, pot, stack).len() ==> 0 < #[trigger] bet_amounts(
                sizes,
                pot,
                stack,
            )[i] <= stack,
{
    let f = |size: BetSize|
        {
            let amount = size.bet(pot, stack);
            if 0 < amount <= stack {
                Some(amount as u32)
            } else {
                None
            }
        };
    let amounts = sizes.filter_map(f);
    assert forall|i: int| 0 <= i < amounts.len() implies 0 < #[trigger] amounts[i] <= stack by {
        assert(amounts.contains(amounts[i]));
        sizes.lemma_filter_map_contains(f, amounts[i]);
    }
}

/// Every raise that the rules come to is above the call and within the stack.
pub proof fn lemma_raise_amounts_bounds(sizes: Seq<BetSize>, pot: int, to_call: int, stack: int)
    requires
        0 <= to_call,
        0 <= stack <= u32::MAX,
    ensures
        forall|i: int|
            0 <= i < raise_amounts(sizes, pot, to_call, stack).len() ==> to_call
                < #[trigger] raise_amounts(sizes, pot, to_call, stack)[i] <= stack,
{
    let f = |size: BetSize|
        {
            let amount = size.raise(pot, to_call, stack);
            if to_call < amount <= stack {
                Some(amount as u32)
            } else {
                None
            }
        };
    let amounts = sizes.filter_map(f);
    assert forall|i: int| 0 <= i < amounts.len() implies to_call < #[trigger] amounts[i]
        <= stack by {
        assert(amounts.contains(amounts[i]));
        sizes.lemma_filter_map_contains(f, amounts[i]);
    }
}

/// Whether `s` is the all-in marker: `a` or `allin`, in either case.
pub open spec fn is_all_in(s: Seq<char>) -> bool {
    ||| s.len() == 1 && (s[0] == 'a' || s[0] == 'A')
    ||| {
        &&& s.len() == 5
        &&& (s[0] == 'a' || s[0] == 'A')
        &&& (s[1] == 'l' || s[1] == 'L')
        &&& (s[2] == 'l' || s[2] == 'L')
        &&& (s[3] == 'i' || s[3] == 'I')
        &&& (s[4] == 'n' || s[4] == 'N')
    }
}

/// The rule that one token stands for, once trimmed: the all-in marker, or
/// a decimal number above zero as a percentage.
pub open spec fn single_bet_size(s: Seq<char>) -> Result<BetSize, Fault> {
    let token = trim(s);
    if is_all_in(token) {
        Ok(BetSize::AllIn)
    } else {
        match decimal_of(token) {
            None => Err(Fault { kind: ErrorKind::BetSizeSyntax, text: token }),
            Some(percent) => if percent.units <= 0 {
                Err(Fault { kind: ErrorKind::BetSizeSign, text: token })
            } else {
                Ok(BetSize::Percent(percent))
            },
        }
    }
}

/// Every number above zero is a sizing rule, however small it is: a token
/// that is a number without `-` and with a digit other than `0` is read as a
/// percentage.
pub proof fn lemma_positive_size_accepted(s: Seq<char>)
    requires
        !is_all_in(trim(s)),
        decimal_of(trim(s)) is Some,
        trim(s)[0] != '-',
        !all_zero(whole_part(unsigned_part(trim(s))) + fraction_part(unsigned_part(trim(s)))),
    ensures
        single_bet_size(s) == Ok::<BetSize, Fault>(BetSize::Percent(decimal_of(trim(s)).unwrap())),
{
    lemma_sign_kept(trim(s));
}

/// The rules `acc` followed by those of the tokens of `rest`. Tokens are
/// parted by commas and trimmed, and an empty token adds nothing.
pub open spec fn bet_sizes_from(rest: Seq<char>, acc: Seq<BetSize>) -> Result<Seq<BetSize>, Fault>
    decreases rest.len(),
{
    let comma = first_index(rest, ',');
    let token = trim(rest.take(comma));
    let sizes = if token.len() == 0 {
        Ok(acc)
    } else {
        match single_bet_size(token) {
            Err(e) => Err(e),
            Ok(size) => Ok(acc.push(size)),
        }
    };
    match sizes {
        Err(e) => Err(e),
        Ok(next) => if comma < rest.len() {
            proof {
                lemma_first_index_bounds(rest, ',');
            }
            bet_sizes_from(rest.skip(comma + 1), next)
        } else {
            Ok(next)
        },
    }
}

/// The rules that `s` writes, in its order; an error where it writes none.
pub open spec fn bet_size_list(s: Seq<char>) -> Result<Seq<BetSize>, Fault> {
    match bet_sizes_from(s, Seq::empty()) {
        Err(e) => Err(e),
        Ok(sizes) => if sizes.len() == 0 {
            Err(Fault { kind: ErrorKind::BetSizeEmpty, text: s })
        } else {
            Ok(sizes)
        },
    }
}

/// Tests a token for the all-in marker.
fn is_all_in_marker(token: &[char]) -> (b: bool)
    ensures
        b == is_all_in(token@),
{
    if token.len() == 1 {
        token[0] == 'a' || token[0] == 'A'
    } else if token.len() == 5 {
        (token[0] == 'a' || token[0] == 'A') && (token[1] == 'l' || token[1] == 'L') && (token[2]
            == 'l' || token[2] == 'L') && (token[3] == 'i' || token[3] == 'I') && (token[4] == 'n'
            || token[4] == 'N')
    } else {
        false
    }
}

/// Reads one sizing rule from the characters of a token.
pub fn single_bet_size_chars(chars: &[char]) -> (r: Result<BetSize, ParseError>)
    ensures
        outcome(r) == single_bet_size(chars@),
{
    let token = trim_chars(chars);
    if is_all_in_marker(token) {
        return Ok(BetSize::AllIn);
    }
    match Decimal::parse_chars(token) {
        None => Err(ParseError::new(ErrorKind::BetSizeSyntax, token)),
        Some(percent) => if percent.units <= 0 {
            Err(ParseError::new(ErrorKind::BetSizeSign, token))
        } else {
            Ok(BetSize::Percent(percent))
        },
    }
}

/// Reads one sizing rule: `a` or `allin` in either case for all-in, else a
/// percentage of the pot, which must be above zero.
pub fn parse_single_bet_size(s: &str) -> (r: Result<BetSize, ParseError>)
    ensures
        outcome(r) == single_bet_size(s@),
{
    let chars = str_chars(s);
    single_bet_size_chars(chars.as_slice())
}

/// Reads a list of sizing rules such as `33, 67, a`, keeping its order. A
/// list without a rule is an error.
pub fn parse_bet_size_string(s: &str) -> (r: Result<Vec<BetSize>, ParseError>)
    ensures
        outcome_view(r) == bet_size_list(s@),
        r matches Ok(sizes) ==> sizes@.len() > 0,
{
    let chars = str_chars(s);
    let chars = chars.as_slice();
    let mut sizes: Vec<BetSize> = Vec::new();
    let mut pos: usize = 0;
    proof {
        assert(chars@.skip(0) =~= chars@);
    }
    loop
        invariant
            pos <= chars.len(),
            chars@ == s@,
            bet_sizes_from(s@, Seq::empty()) == bet_sizes_from(chars@.skip(pos as int), sizes@),
        decreases chars.len() - pos,
    {
        let rest = slice_subrange(chars, pos, chars.len());
        let comma = find_char(rest, ',');
        let token = trim_chars(slice_subrange(rest, 0, comma));
        proof {
            assert(rest@ =~= chars@.skip(pos as int));
            if comma < rest@.len() {
                assert(rest@.skip(comma + 1) =~= chars@.skip(pos + comma + 1));
            }
        }
        if token.len() > 0 {
            match single_bet_size_chars(token) {
                Err(e) => {
                    return Err(e);
                },
                Ok(size) => {
                    sizes.push(size);
                },
            }
        }
        if comma < rest.len() {
            pos = pos + comma + 1;
        } else {
            if sizes.len() == 0 {
                return Err(ParseError::new(ErrorKind::BetSizeEmpty, chars));
            }
            return Ok(sizes);
        }
    }
}

/// The four lists of sizing rules as they are written: bets and raises, out
/// of position and in position.
#[derive(Clone, Debug)]
pub struct BetSizes {
    pub oop_bet: String,
    pub oop_raise: String,
    pub ip_bet: String,
    pub ip_raise: String,
}

impl Default for BetSizes {
    fn default() -> (sizes: BetSizes)
        ensures
            sizes.oop_bet@ == "33, 67, a"@,
            sizes.oop_raise@ == "50, a"@,
            sizes.ip_bet@ == "33, 67, a"@,
            sizes.ip_raise@ == "50, a"@,
    {
        BetSizes {
            oop_bet: "33, 67, a".to_owned(),
            oop_raise: "50, a".to_owned(),
            ip_bet: "33, 67, a".to_owned(),
            ip_raise: "50, a".to_owned(),
        }
    }
}

/// The sizing rules of both players: bets and raises, out of position and in
/// position, each list in the order in which it was written.
#[derive(Clone, Debug)]
pub struct BetSizeConfig {
    pub oop_bet: Vec<BetSize>,
    pub oop_raise: Vec<BetSize>,
    pub ip_bet: Vec<BetSize>,
    pub ip_raise: Vec<BetSize>,
}

/// The mathematical content of a [`BetSizeConfig`].
pub struct BetSizeRules {
    pub oop_bet: Seq<BetSize>,
    pub oop_raise: Seq<BetSize>,
    pub ip_bet: Seq<BetSize>,
    pub ip_raise: Seq<BetSize>,
}

impl View for BetSizeConfig {
    type V = BetSizeRules;

    open spec fn view(&self) -> BetSizeRules {
        BetSizeRules {
            oop_bet: self.oop_bet@,
            oop_raise: self.oop_raise@,
            ip_bet: self.ip_bet@,
            ip_raise: self.ip_raise@,
        }
    }
}

/// The rules that the four written lists make up; the error of the first
/// list at fault, in the order bets and raises out of position, bets and
/// raises in position.
pub open spec fn rules_of(
    oop_bet: Seq<char>,
    oop_raise: Seq<char>,
    ip_bet: Seq<char>,
    ip_raise: Seq<char>,
) -> Result<BetSizeRules, Fault> {
    match bet_size_list(oop_bet) {
        Err(e) => Err(e),
        Ok(first) => match bet_size_list(oop_raise) {
            Err(e) => Err(e),
            Ok(second) => match bet_size_list(ip_bet) {
                Err(e) => Err(e),
                Ok(third) => match bet_size_list(ip_raise) {
                    Err(e) => Err(e),
                    Ok(fourth) => Ok(
                        BetSizeRules {
                            oop_bet: first,
                            oop_raise: second,
                            ip_bet: third,
                            ip_raise: fourth,
                        },
                    ),
                },
            },
        },
    }
}

/// The rules in use where none are given: bets of 33% and 67% of the pot and
/// all-in, raises of 50% and all-in, for either player.
pub open spec fn default_rules() -> BetSizeRules {
    let bets = seq![
        BetSize::Percent(Decimal { units: (33 * SCALE) as i128 }),
        BetSize::Percent(Decimal { units: (67 * SCALE) as i128 }),
        BetSize::AllIn,
    ];
    let raises = seq![BetSize::Percent(Decimal { units: (50 * SCALE) as i128 }), BetSize::AllIn];
    BetSizeRules { oop_bet: bets, oop_raise: raises, ip_bet: bets, ip_raise: raises }
}

impl BetSizeConfig {
    /// Reads the four lists of sizing rules.
    pub fn from_bet_sizes(bet_sizes: &BetSizes) -> (r: Result<BetSizeConfig, ParseError>)
        ensures
            outcome_view(r) == rules_of(
                bet_sizes.oop_bet@,
                bet_sizes.oop_raise@,
                bet_sizes.ip_bet@,
                bet_sizes.ip_raise@,
            ),
    {
        let oop_bet = match parse_bet_size_string(bet_sizes.oop_bet.as_str()) {
            Err(e) => {
                return Err(e);
            },
            Ok(sizes) => sizes,
        };
        let oop_raise = match parse_bet_size_string(bet_sizes.oop_raise.as_str()) {
            Err(e) => {
                return Err(e);
            },
            Ok(sizes) => sizes,
        };
        let ip_bet = match parse_bet_size_string(bet_sizes.ip_bet.as_str()) {
            Err(e) => {
                return Err(e);
            },
            Ok(sizes) => sizes,
        };
        let ip_raise = match parse_bet_size_string(bet_sizes.ip_raise.as_str()) {
            Err(e) => {
                return Err(e);
            },
            Ok(sizes) => sizes,
        };
        Ok(BetSizeConfig { oop_bet, oop_raise, ip_bet, ip_raise })
    }

    /// The rules for a bet of the player out of position (`oop`) or in position.
    pub open spec fn bet_rules(&self, oop: bool) -> Seq<BetSize> {
        if oop {
            self.oop_bet@
        } else {
            self.ip_bet@
        }
    }

    /// The rules for a raise of the player out of position (`oop`) or in
    /// position.
    pub open spec fn raise_rules(&self, oop: bool) -> Seq<BetSize> {
        if oop {
            self.oop_raise@
        } else {
            self.ip_raise@
        }
    }

    /// The bets open to a player, in big blinds, in the order of the rules:
    /// each rule's bet, kept where it is above zero. No bet exceeds the stack,
    /// and equal amounts stay as often as they come.
    pub fn get_bet_amounts(&self, oop: bool, pot: u32, stack: u32) -> (amounts: Vec<u32>)
        ensures
            amounts@ == bet_amounts(self.bet_rules(oop), pot as int, stack as int),
            forall|i: int| 0 <= i < amounts@.len() ==> 0 < #[trigger] amounts@[i] <= stack,
    {
        let sizes = if oop {
            &self.oop_bet
        } else {
            &self.ip_bet
        };
        let ghost f = |size: BetSize|
            {
                let amount = size.bet(pot as int, stack as int);
                if 0 < amount <= stack as int {
                    Some(amount as u32)
                } else {
                    None
                }
            };
        let mut amounts: Vec<u32> = Vec::new();
        let mut i: usize = 0;
        while i < sizes.len()
            invariant
                i <= sizes.len(),
                sizes@ == self.bet_rules(oop),
                f == |size: BetSize|
                    {
                        let amount = size.bet(pot as int, stack as int);
                        if 0 < amount <= stack as int {
                            Some(amount as u32)
                        } else {
                            None
                        }
                    },
                amounts@ == sizes@.take(i as int).filter_map(f),
                forall|k: int| 0 <= k < amounts@.len() ==> 0 < #[trigger] amounts@[k] <= stack,
            decreases sizes.len() - i,
        {
            proof {
                sizes@.lemma_filter_map_take_succ(f, i as int);
            }
            let amount = sizes[i].calculate(pot, stack);
            if amount > 0 && amount <= stack {
                amounts.push(amount);
            }
            i += 1;
        }
        proof {
            assert(sizes@.take(sizes@.len() as int) =~= sizes@);
        }
        amounts
    }

    /// The raises open to a player facing `to_call`, in big blinds, in the
    /// order of the rules: each rule's raise, kept where it is above the call
    /// and within the stack.
    pub fn get_raise_amounts(&self, oop: bool, pot: u32, to_call: u32, stack: u32) -> (amounts: Vec<
        u32,
    >)
        ensures
            amounts@ == raise_amounts(
                self.raise_rules(oop),
                pot as int,
                to_call as int,
                stack as int,
            ),
            forall|i: int| 0 <= i < amounts@.len() ==> to_call < #[trigger] amounts@[i] <= stack,
    {
        let sizes = if oop {
            &self.oop_raise
        } else {
            &self.ip_raise
        };
        let pot_after_call: u64 = pot as u64 + to_call as u64;
        let ghost f = |size: BetSize|
            {
                let amount = size.raise(pot as int, to_call as int, stack as int);
                if (to_call as int) < amount <= stack as int {
                    Some(amount as u32)
                } else {
                    None
                }
            };
        let mut amounts: Vec<u32> = Vec::new();
        let mut i: usize = 0;
        while i < sizes.len()
            invariant
                i <= sizes.len(),
                sizes@ == self.raise_rules(oop),
                pot_after_call == pot + to_call,
                f == |size: BetSize|
                    {
                        let amount = size.raise(pot as int, to_call as int, stack as int);
                        if (to_call as int) < amount <= stack as int {
                            Some(amount as u32)
                        } else {
                            None
                        }
                    },
                amounts@ == sizes@.take(i as int).filter_map(f),
                forall|k: int| 0 <= k < amounts@.len() ==> to_call < #[trigger] amounts@[k] <= stack,
            decreases sizes.len() - i,
        {
            proof {
                sizes@.lemma_filter_map_take_succ(f, i as int);
            }
            match sizes[i] {
                BetSize::Percent(percent) => match percent.percent_of_base(pot_after_call) {
                    None => {},
                    Some(raise) => {
                        let amount: u64 = to_call as u64 + raise as u64;
                        if amount > to_call as u64 && amount <= stack as u64 {
                            amounts.push(amount as u32);
                        }
                    },
                },
                BetSize::AllIn => {
                    if stack > to_call {
                        amounts.push(stack);
                    }
                },
            }
            i += 1;
        }
        proof {
            assert(sizes@.take(sizes@.len() as int) =~= sizes@);
        }
        amounts
    }
}

impl Default for BetSizeConfig {
    fn default() -> (config: BetSizeConfig)
        ensures
            config@ == default_rules(),
    {
        let third = BetSize::Percent(Decimal::from_integer(33));
        let two_thirds = BetSize::Percent(Decimal::from_integer(67));
        let half = BetSize::Percent(Decimal::from_integer(50));
        let mut oop_bet: Vec<BetSize> = Vec::new();
        oop_bet.push(third);
        oop_bet.push(two_thirds);
        oop_bet.push(BetSize::AllIn);
        let mut oop_raise: Vec<BetSize> = Vec::new();
        oop_raise.push(half);
        oop_raise.push(BetSize::AllIn);
        let mut ip_bet: Vec<BetSize> = Vec::new();
        ip_bet.push(third);
        ip_bet.push(two_thirds);
        ip_bet.push(BetSize::AllIn);
        let mut ip_raise: Vec<BetSize> = Vec::new();
        ip_raise.push(half);
        ip_raise.push(BetSize::AllIn);
        proof {
            assert(oop_bet@ =~= default_rules().oop_bet);
            assert(oop_raise@ =~= default_rules().oop_raise);
            assert(ip_bet@ =~= default_rules().ip_bet);
            assert(ip_raise@ =~= default_rules().ip_raise);
        }
        BetSizeConfig { oop_bet, oop_raise, ip_bet, ip_raise }
    }
}

} // verus!
