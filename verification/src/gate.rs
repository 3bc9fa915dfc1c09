//! Deciding what becomes of a code unit that carries a predicate.
//!
//! An attribute such as `env("CI")` on an item arrives here as the name of
//! the attribute and the tokens between its parentheses. The functions of
//! this module parse and evaluate it and say what to do with the item; the
//! item itself never enters the library.

use vstd::prelude::*;
use crate::eval::{Outcome, Verdict, verdict};
use crate::expr::{Expr, Predicate};
use crate::facts::{Facts, Query};
use crate::parse::{Expected, Fault, ParseError, parsed, predicate_at};
use crate::text::equal;
use crate::token::{Lexeme, Slot, Token, fits_at, lexemes_of, token_fits};

verus! {

/// What to do with an item that carries a predicate.
#[derive(Debug)]
pub enum Decision {
    /// The predicate holds: the item stays as it is.
    Keep,
    /// The predicate does not hold: the item is removed.
    Discard,
    /// A question must be answered before the predicate can be decided.
    Ask(Query),
    /// The predicate is not well formed: the item is replaced by a
    /// diagnostic at the offending token.
    Reject(ParseError),
    /// A version met during evaluation is not a version: the build stops.
    Abort { found: String, wanted: String },
}

/// The model of a [`Decision`].
pub ghost enum Ruling {
    Keep,
    Discard,
    Ask(crate::facts::Question),
    Reject(Fault),
    Abort { found: Seq<char>, wanted: Seq<char> },
}

impl View for Decision {
    type V = Ruling;

    open spec fn view(&self) -> Ruling {
        match self {
            Decision::Keep => Ruling::Keep,
            Decision::Discard => Ruling::Discard,
            Decision::Ask(q) => Ruling::Ask(q@),
            Decision::Reject(error) => Ruling::Reject(error@),
            Decision::Abort { found, wanted } => Ruling::Abort { found: found@, wanted: wanted@ },
        }
    }
}

/// The tokens of a predicate written as an attribute: the attribute's name
/// as a word, followed by the arguments in parentheses unless there are
/// none.
pub open spec fn attribute_tokens(top: Seq<char>, args: Seq<Lexeme>) -> Seq<Lexeme> {
    if args.len() == 0 {
        seq![Lexeme::Word(top)]
    } else {
        seq![Lexeme::Word(top), Lexeme::Open] + args + seq![Lexeme::Close]
    }
}

/// The verdict of the attribute `top` with arguments `args`, or the fault
/// that its tokens hold. Positions count the attribute's name as token 0
/// and the first argument as token 2.
pub open spec fn attribute_verdict(
    top: Seq<char>,
    args: Seq<Lexeme>,
    known: crate::facts::Knowledge,
) -> Result<Verdict, Fault> {
    match parsed(attribute_tokens(top, args)) {
        Ok(p) => Ok(verdict(p, known)),
        Err(fault) => Err(fault),
    }
}

/// The ruling that a verdict or fault leads to.
pub open spec fn ruling_of(result: Result<Verdict, Fault>) -> Ruling {
    match result {
        Ok(Verdict::Decided(true)) => Ruling::Keep,
        Ok(Verdict::Decided(false)) => Ruling::Discard,
        Ok(Verdict::Needs(q)) => Ruling::Ask(q),
        Ok(Verdict::Failed { found, wanted }) => Ruling::Abort { found, wanted },
        Err(fault) => Ruling::Reject(fault),
    }
}

/// Builds the tokens of the attribute `top` with arguments `args`.
pub fn attribute(top: &str, args: &Vec<Token>) -> (full: Vec<Token>)
    ensures
        lexemes_of(full@) == attribute_tokens(top@, lexemes_of(args@)),
{
    let mut full: Vec<Token> = Vec::new();
    full.push(Token::Word(top.to_owned()));
    if args.len() == 0 {
        assert(lexemes_of(full@) =~= attribute_tokens(top@, lexemes_of(args@)));
        return full;
    }
    full.push(Token::Open);
    let mut i: usize = 0;
    while i < args.len()
        invariant
            i <= args.len(),
            lexemes_of(full@) == seq![Lexeme::Word(top@), Lexeme::Open] + lexemes_of(args@).take(
                i as int,
            ),
        decreases args.len() - i,
    {
        let ghost before = lexemes_of(full@);
        full.push(args[i].duplicate());
        assert(lexemes_of(full@) =~= before.push(args@[i as int]@));
        assert(lexemes_of(args@).take(i + 1) =~= lexemes_of(args@).take(i as int).push(
            args@[i as int]@,
        ));
        assert(lexemes_of(full@) =~= seq![Lexeme::Word(top@), Lexeme::Open] + lexemes_of(
            args@,
        ).take(i + 1));
        i += 1;
    }
    let ghost before = lexemes_of(full@);
    full.push(Token::Close);
    assert(lexemes_of(args@).take(args@.len() as int) =~= lexemes_of(args@));
    assert(lexemes_of(full@) =~= before + seq![Lexeme::Close]);
    full
}

/// Parses the attribute `top` with arguments `args` and evaluates it
/// against the facts.
pub fn try_cfg(top: &str, args: &Vec<Token>, facts: &Facts) -> (r: Result<Outcome, ParseError>)
    ensures
        match r {
            Ok(outcome) => attribute_verdict(top@, lexemes_of(args@), facts@) == Ok::<
                Verdict,
                Fault,
            >(outcome@),
            Err(error) => attribute_verdict(top@, lexemes_of(args@), facts@) == Err::<
                Verdict,
                Fault,
            >(error@),
        },
        r matches Ok(Outcome::Needs(q)) ==> !facts@.knows(q@),
{
    let full = attribute(top, args);
    match Expr::from_tokens(&full) {
        Ok(expr) => Ok(expr.eval(facts)),
        Err(error) => Err(error),
    }
}

/// Decides what becomes of an item under the attribute `top` with
/// arguments `args`.
pub fn cfg(top: &str, args: &Vec<Token>, facts: &Facts) -> (r: Decision)
    ensures
        r@ == ruling_of(attribute_verdict(top@, lexemes_of(args@), facts@)),
        r@ matches Ruling::Ask(q) ==> !facts@.knows(q),
{
    match try_cfg(top, args, facts) {
        Ok(Outcome::Decided(true)) => Decision::Keep,
        Ok(Outcome::Decided(false)) => Decision::Discard,
        Ok(Outcome::Needs(query)) => Decision::Ask(query),
        Ok(Outcome::Failed { found, wanted }) => Decision::Abort { found, wanted },
        Err(error) => Decision::Reject(error),
    }
}

/// What a conditional attribute applies when its condition holds.
#[derive(Clone, Copy, PartialEq, Eq, Debug)]
pub enum Then {
    /// The item, a function, becomes `const`.
    Const,
    /// The tokens `from..to` of the arguments are attached to the item as
    /// an attribute.
    Attribute { from: usize, to: usize },
}

/// The model of a [`Then`].
pub ghost enum Consequence {
    Const,
    Attribute { from: int, to: int },
}

impl View for Then {
    type V = Consequence;

    open spec fn view(&self) -> Consequence {
        match self {
            Then::Const => Consequence::Const,
            Then::Attribute { from, to } => Consequence::Attribute {
                from: *from as int,
                to: *to as int,
            },
        }
    }
}

/// The arguments of a conditional attribute: a condition and what to apply
/// when it holds.
pub struct Args {
    pub condition: Expr,
    pub apply: Then,
}

/// Whether the token at `at` is the word `const`.
pub open spec fn const_at(tokens: Seq<Lexeme>, at: int) -> bool {
    0 <= at < tokens.len() && tokens[at] == Lexeme::Word("const"@)
}

/// The arguments that the tokens spell: a predicate, a comma, and then
/// either `const` or the tokens of an attribute, with one optional comma at
/// the very end.
pub open spec fn arguments(tokens: Seq<Lexeme>) -> Result<(Predicate, Consequence), Fault> {
    match predicate_at(tokens, 0) {
        Err(fault) => Err(fault),
        Ok((condition, next)) => {
            if !fits_at(tokens, next, Slot::Comma) {
                Err(Fault { position: next, expected: Expected::Comma })
            } else if next + 1 >= tokens.len() {
                Err(Fault { position: next + 1, expected: Expected::Attribute })
            } else if const_at(tokens, next + 1) {
                let end = if fits_at(tokens, next + 2, Slot::Comma) {
                    next + 3
                } else {
                    next + 2
                };
                if end == tokens.len() {
                    Ok((condition, Consequence::Const))
                } else {
                    Err(Fault { position: end, expected: Expected::End })
                }
            } else {
                let to = if fits_at(tokens, tokens.len() - 1, Slot::Comma) {
                    tokens.len() - 1
                } else {
                    tokens.len() as int
                };
                if to <= next + 1 {
                    Err(Fault { position: next + 1, expected: Expected::Attribute })
                } else {
                    Ok((condition, Consequence::Attribute { from: next + 1, to }))
                }
            }
        },
    }
}

/// What becomes of an item under a conditional attribute.
#[derive(Debug)]
pub enum Edit {
    /// The condition does not hold: the item stays as it is.
    Unchanged,
    /// The condition holds: the function becomes `const`.
    MakeConst,
    /// The condition holds: the tokens `from..to` of the arguments are
    /// attached to the item as an attribute.
    Attach { from: usize, to: usize },
    /// A question must be answered before the condition can be decided.
    Ask(Query),
    /// The arguments are not well formed.
    Reject(ParseError),
    /// A version met during evaluation is not a version: the build stops.
    Abort { found: String, wanted: String },
}

/// The model of an [`Edit`].
pub ghost enum Change {
    Unchanged,
    MakeConst,
    Attach { from: int, to: int },
    Ask(crate::facts::Question),
    Reject(Fault),
    Abort { found: Seq<char>, wanted: Seq<char> },
}

impl View for Edit {
    type V = Change;

    open spec fn view(&self) -> Change {
        match self {
            Edit::Unchanged => Change::Unchanged,
            Edit::MakeConst => Change::MakeConst,
            Edit::Attach { from, to } => Change::Attach { from: *from as int, to: *to as int },
            Edit::Ask(q) => Change::Ask(q@),
            Edit::Reject(error) => Change::Reject(error@),
            Edit::Abort { found, wanted } => Change::Abort { found: found@, wanted: wanted@ },
        }
    }
}

/// The change that a condition's verdict and a consequence lead to.
pub open spec fn change_of(v: Verdict, apply: Consequence) -> Change {
    match v {
        Verdict::Decided(false) => Change::Unchanged,
        Verdict::Decided(true) => match apply {
            Consequence::Const => Change::MakeConst,
            Consequence::Attribute { from, to } => Change::Attach { from, to },
        },
        Verdict::Needs(q) => Change::Ask(q),
        Verdict::Failed { found, wanted } => Change::Abort { found, wanted },
    }
}

/// The change that the arguments of a conditional attribute lead to.
pub open spec fn attribute_change(tokens: Seq<Lexeme>, known: crate::facts::Knowledge) -> Change {
    match arguments(tokens) {
        Err(fault) => Change::Reject(fault),
        Ok((condition, apply)) => change_of(verdict(condition, known), apply),
    }
}

impl Args {
    /// Parses the arguments of a conditional attribute.
    pub fn parse(tokens: &Vec<Token>) -> (r: Result<Args, ParseError>)
        ensures
            match r {
                Ok(args) => arguments(lexemes_of(tokens@)) == Ok::<(Predicate, Consequence), Fault>(
                    (args.condition@, args.apply@),
                ),
                Err(error) => arguments(lexemes_of(tokens@)) == Err::<
                    (Predicate, Consequence),
                    Fault,
                >(error@),
            },
    {
        let total = tokens.len();
        let (condition, next) = match Expr::parse(tokens, 0) {
            Err(error) => {
                return Err(error);
            },
            Ok(found) => found,
        };
        if !token_fits(tokens, next, Slot::Comma) {
            return Err(ParseError { position: next, expected: Expected::Comma });
        }
        if next + 1 >= total {
            return Err(ParseError { position: next + 1, expected: Expected::Attribute });
        }
        let is_const = match &tokens[next + 1] {
            Token::Word(word) => equal(word.as_str(), "const"),
            _ => false,
        };
        assert(is_const == const_at(lexemes_of(tokens@), next + 1));
        if is_const {
            let end = if token_fits(tokens, next + 2, Slot::Comma) {
                next + 3
            } else {
                next + 2
            };
            if end == total {
                Ok(Args { condition, apply: Then::Const })
            } else {
                Err(ParseError { position: end, expected: Expected::End })
            }
        } else {
            let to = if token_fits(tokens, total - 1, Slot::Comma) {
                total - 1
            } else {
                total
            };
            if to <= next + 1 {
                Err(ParseError { position: next + 1, expected: Expected::Attribute })
            } else {
                Ok(Args { condition, apply: Then::Attribute { from: next + 1, to } })
            }
        }
    }
}

/// Decides what becomes of an item under parsed arguments of a conditional
/// attribute.
pub fn try_attr(args: &Args, facts: &Facts) -> (r: Edit)
    ensures
        r@ == change_of(verdict(args.condition@, facts@), args.apply@),
        r@ matches Change::Ask(q) ==> !facts@.knows(q),
{
    match args.condition.eval(facts) {
        Outcome::Decided(false) => Edit::Unchanged,
        Outcome::Decided(true) => match args.apply {
            Then::Const => Edit::MakeConst,
            Then::Attribute { from, to } => Edit::Attach { from, to },
        },
        Outcome::Needs(query) => Edit::Ask(query),
        Outcome::Failed { found, wanted } => Edit::Abort { found, wanted },
    }
}

/// Decides what becomes of an item under a conditional attribute with
/// these arguments.
pub fn attr(args: &Vec<Token>, facts: &Facts) -> (r: Edit)
    ensures
        r@ == attribute_change(lexemes_of(args@), facts@),
        r@ matches Change::Ask(q) ==> !facts@.knows(q),
{
    match Args::parse(args) {
        Err(error) => Edit::Reject(error),
        Ok(parsed) => try_attr(&parsed, facts),
    }
}

} // verus!
