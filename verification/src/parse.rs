//! The grammar of predicates and its parser.
//!
//! ```text
//! predicate      := 'not' '(' predicate [','] ')'
//!                 | 'any' '(' predicate_list ')'
//!                 | 'all' '(' predicate_list ')'
//!                 | 'env' '(' string [',' string] ')'
//!                 | 'cmd' '(' string ')'
//!                 | 'dep' '(' string ',' string [',' string] ')'
//!                 | 'dep_since' '(' string ',' string ',' string ')'
//!                 | 'dep_before' '(' string ',' string ',' string ')'
//!                 | 'dep_from_registry' '(' string ',' string ')'
//! predicate_list := predicate (',' predicate)* [',']
//! ```
//!
//! The grammar is stated once, as spec functions over token positions, and
//! each parsing function is proved to compute exactly what they say: the
//! tree and the position after it, or the first position at which the
//! tokens leave the grammar together with what was expected there.

use vstd::prelude::*;
use crate::expr::{Expr, Predicate};
use crate::token::{Keyword, Lexeme, Slot, Token, fits_at, keyword_at, lemma_keyword_of_spelling,
    lexemes_of, text_at, token_fits, token_keyword, token_text};

verus! {

/// What the grammar would have accepted where it met something else.
#[derive(Clone, Copy, PartialEq, Eq, Structural, Debug)]
pub enum Expected {
    /// One of the reserved words.
    Keyword,
    /// `(`
    Open,
    /// A string literal.
    Text,
    /// `,`
    Comma,
    /// `)`, or a `,` where the rule goes on after one.
    Close,
    /// The end of the tokens.
    End,
    /// The tokens of an attribute to apply.
    Attribute,
}

/// A syntax error: the position of the offending token, counted from zero
/// (the number of tokens where they end too early), and what was expected.
#[derive(Clone, Copy, PartialEq, Eq, Debug)]
pub struct ParseError {
    pub position: usize,
    pub expected: Expected,
}

/// The model of a [`ParseError`].
pub ghost struct Fault {
    pub position: int,
    pub expected: Expected,
}

impl View for ParseError {
    type V = Fault;

    open spec fn view(&self) -> Fault {
        Fault { position: self.position as int, expected: self.expected }
    }
}

/// The result of parsing at a position: the predicate and the position
/// after its last token, or a fault.
pub type Parsed = Result<(Predicate, int), Fault>;

/// The result of parsing a list at a position.
pub type ParsedList = Result<(Seq<Predicate>, int), Fault>;

/// What a slot expects.
pub open spec fn expected_of(slot: Slot) -> Expected {
    match slot {
        Slot::Open => Expected::Open,
        Slot::Text => Expected::Text,
        Slot::Comma => Expected::Comma,
        Slot::Close => Expected::Close,
    }
}

/// `( string )`
pub open spec fn one_argument() -> Seq<Slot> {
    seq![Slot::Open, Slot::Text, Slot::Close]
}

/// `( string , string )`
pub open spec fn two_arguments() -> Seq<Slot> {
    seq![Slot::Open, Slot::Text, Slot::Comma, Slot::Text, Slot::Close]
}

/// `( string , string , string )`
pub open spec fn three_arguments() -> Seq<Slot> {
    seq![Slot::Open, Slot::Text, Slot::Comma, Slot::Text, Slot::Comma, Slot::Text, Slot::Close]
}

/// The first slot of `shape`, from slot `from` on, that the tokens starting
/// at `at` do not fill; `None` when they fill them all.
pub open spec fn first_misfit(tokens: Seq<Lexeme>, at: int, shape: Seq<Slot>, from: int) -> Option<
    int,
>
    decreases shape.len() - from,
{
    if from < 0 || from >= shape.len() {
        None
    } else if !fits_at(tokens, at + from, shape[from]) {
        Some(from)
    } else {
        first_misfit(tokens, at, shape, from + 1)
    }
}

/// The fault of tokens that should fill `shape` from `at` on, if any.
pub open spec fn shape_fault(tokens: Seq<Lexeme>, at: int, shape: Seq<Slot>) -> Option<Fault> {
    match first_misfit(tokens, at, shape, 0) {
        Some(i) => Some(Fault { position: at + i, expected: expected_of(shape[i]) }),
        None => None,
    }
}

/// A rule with a fixed list of string arguments: the keyword at `at`, then
/// the shape; `build` makes the predicate from the tokens and the position
/// of the keyword.
pub open spec fn fixed_rule(
    tokens: Seq<Lexeme>,
    at: int,
    keyword: Keyword,
    shape: Seq<Slot>,
    built: Predicate,
) -> Parsed {
    if keyword_at(tokens, at) != Some(keyword) {
        Err(Fault { position: at, expected: Expected::Keyword })
    } else {
        match shape_fault(tokens, at + 1, shape) {
            Some(fault) => Err(fault),
            None => Ok((built, at + 1 + shape.len())),
        }
    }
}

/// `cmd ( string )`
pub open spec fn cmd_at(tokens: Seq<Lexeme>, at: int) -> Parsed {
    fixed_rule(
        tokens,
        at,
        Keyword::Cmd,
        one_argument(),
        Predicate::CmdExists { name: text_at(tokens, at + 2) },
    )
}

/// `env ( string )` or `env ( string , string )`: the second form is taken
/// when a comma follows the first string.
pub open spec fn env_at(tokens: Seq<Lexeme>, at: int) -> Parsed {
    if fits_at(tokens, at + 3, Slot::Comma) {
        fixed_rule(
            tokens,
            at,
            Keyword::Env,
            two_arguments(),
            Predicate::EnvEquals { name: text_at(tokens, at + 2), value: text_at(tokens, at + 4) },
        )
    } else {
        fixed_rule(
            tokens,
            at,
            Keyword::Env,
            one_argument(),
            Predicate::EnvExists { name: text_at(tokens, at + 2) },
        )
    }
}

/// `dep ( string , string )` or `dep ( string , string , string )`: the
/// second form is taken when a comma follows the second string.
pub open spec fn dep_at(tokens: Seq<Lexeme>, at: int) -> Parsed {
    if fits_at(tokens, at + 5, Slot::Comma) {
        fixed_rule(
            tokens,
            at,
            Keyword::Dep,
            three_arguments(),
            Predicate::DepEquals {
                anchor: text_at(tokens, at + 2),
                name: text_at(tokens, at + 4),
                version: text_at(tokens, at + 6),
            },
        )
    } else {
        fixed_rule(
            tokens,
            at,
            Keyword::Dep,
            two_arguments(),
            Predicate::DepExists { anchor: text_at(tokens, at + 2), name: text_at(tokens, at + 4) },
        )
    }
}

/// `dep_since ( string , string , string )`
pub open spec fn dep_since_at(tokens: Seq<Lexeme>, at: int) -> Parsed {
    fixed_rule(
        tokens,
        at,
        Keyword::DepSince,
        three_arguments(),
        Predicate::DepSince {
            anchor: text_at(tokens, at + 2),
            name: text_at(tokens, at + 4),
            version: text_at(tokens, at + 6),
        },
    )
}

/// `dep_before ( string , string , string )`
pub open spec fn dep_before_at(tokens: Seq<Lexeme>, at: int) -> Parsed {
    fixed_rule(
        tokens,
        at,
        Keyword::DepBefore,
        three_arguments(),
        Predicate::DepBefore {
            anchor: text_at(tokens, at + 2),
            name: text_at(tokens, at + 4),
            version: text_at(tokens, at + 6),
        },
    )
}

/// `dep_from_registry ( string , string )`
pub open spec fn dep_from_registry_at(tokens: Seq<Lexeme>, at: int) -> Parsed {
    fixed_rule(
        tokens,
        at,
        Keyword::DepFromRegistry,
        two_arguments(),
        Predicate::DepFromRegistry {
            anchor: text_at(tokens, at + 2),
            name: text_at(tokens, at + 4),
        },
    )
}

/// A list result with `front` put before its predicates.
pub open spec fn prepend(front: Seq<Predicate>, rest: ParsedList) -> ParsedList {
    match rest {
        Ok((predicates, next)) => Ok((front + predicates, next)),
        Err(fault) => Err(fault),
    }
}

/// The predicate that starts at `at`: the keyword there selects the rule.
pub open spec fn predicate_at(tokens: Seq<Lexeme>, at: int) -> Parsed
    decreases tokens.len() - at, 1int,
{
    if at < 0 {
        Err(Fault { position: at, expected: Expected::Keyword })
    } else {
        match keyword_at(tokens, at) {
            None => Err(Fault { position: at, expected: Expected::Keyword }),
            Some(Keyword::Not) => not_at(tokens, at),
            Some(Keyword::Any) => any_at(tokens, at),
            Some(Keyword::All) => all_at(tokens, at),
            Some(Keyword::Env) => env_at(tokens, at),
            Some(Keyword::Cmd) => cmd_at(tokens, at),
            Some(Keyword::Dep) => dep_at(tokens, at),
            Some(Keyword::DepSince) => dep_since_at(tokens, at),
            Some(Keyword::DepBefore) => dep_before_at(tokens, at),
            Some(Keyword::DepFromRegistry) => dep_from_registry_at(tokens, at),
        }
    }
}

/// `not ( predicate )`, with one optional comma before the `)`.
pub open spec fn not_at(tokens: Seq<Lexeme>, at: int) -> Parsed
    decreases tokens.len() - at, 0int,
{
    if at < 0 || keyword_at(tokens, at) != Some(Keyword::Not) {
        Err(Fault { position: at, expected: Expected::Keyword })
    } else if !fits_at(tokens, at + 1, Slot::Open) {
        Err(Fault { position: at + 1, expected: Expected::Open })
    } else {
        match predicate_at(tokens, at + 2) {
            Err(fault) => Err(fault),
            Ok((inner, next)) => {
                let close = if fits_at(tokens, next, Slot::Comma) {
                    next + 1
                } else {
                    next
                };
                if fits_at(tokens, close, Slot::Close) {
                    Ok((Predicate::Not(Box::new(inner)), close + 1))
                } else {
                    Err(Fault { position: close, expected: Expected::Close })
                }
            },
        }
    }
}

/// `any ( predicate_list )`
pub open spec fn any_at(tokens: Seq<Lexeme>, at: int) -> Parsed
    decreases tokens.len() - at, 0int,
{
    if at < 0 || keyword_at(tokens, at) != Some(Keyword::Any) {
        Err(Fault { position: at, expected: Expected::Keyword })
    } else if !fits_at(tokens, at + 1, Slot::Open) {
        Err(Fault { position: at + 1, expected: Expected::Open })
    } else {
        match list_at(tokens, at + 2) {
            Err(fault) => Err(fault),
            Ok((children, next)) => Ok((Predicate::Any(children), next)),
        }
    }
}

/// `all ( predicate_list )`
pub open spec fn all_at(tokens: Seq<Lexeme>, at: int) -> Parsed
    decreases tokens.len() - at, 0int,
{
    if at < 0 || keyword_at(tokens, at) != Some(Keyword::All) {
        Err(Fault { position: at, expected: Expected::Keyword })
    } else if !fits_at(tokens, at + 1, Slot::Open) {
        Err(Fault { position: at + 1, expected: Expected::Open })
    } else {
        match list_at(tokens, at + 2) {
            Err(fault) => Err(fault),
            Ok((children, next)) => Ok((Predicate::All(children), next)),
        }
    }
}

/// A list of one or more predicates from `at` on, separated by commas, with
/// one optional comma after the last, up to and including the closing `)`.
pub open spec fn list_at(tokens: Seq<Lexeme>, at: int) -> ParsedList
    decreases tokens.len() - at, 2int,
{
    match predicate_at(tokens, at) {
        Err(fault) => Err(fault),
        Ok((first, next)) => if next <= at || next > tokens.len() {
            Err(Fault { position: at, expected: Expected::Keyword })
        } else {
            prepend(seq![first], rest_at(tokens, next))
        },
    }
}

/// What may follow a predicate of a list: the closing `)`, a comma and the
/// closing `)`, or a comma and more of the list.
pub open spec fn rest_at(tokens: Seq<Lexeme>, at: int) -> ParsedList
    decreases tokens.len() - at, 0int,
{
    if fits_at(tokens, at, Slot::Close) {
        Ok((Seq::empty(), at + 1))
    } else if !fits_at(tokens, at, Slot::Comma) {
        Err(Fault { position: at, expected: Expected::Close })
    } else if fits_at(tokens, at + 1, Slot::Close) {
        Ok((Seq::empty(), at + 2))
    } else {
        list_at(tokens, at + 1)
    }
}

/// The predicate that the tokens spell, all of them and nothing more.
pub open spec fn parsed(tokens: Seq<Lexeme>) -> Result<Predicate, Fault> {
    match predicate_at(tokens, 0) {
        Err(fault) => Err(fault),
        Ok((p, next)) => if next == tokens.len() {
            Ok(p)
        } else {
            Err(Fault { position: next, expected: Expected::End })
        },
    }
}

/// The models of a list of trees, in order.
pub open spec fn models_of(exprs: Seq<Expr>) -> Seq<Predicate> {
    Seq::new(exprs.len(), |i: int| exprs[i]@)
}

/// The model of a disjunction or conjunction is built from the models of
/// its children.
pub proof fn lemma_compound_models(children: Vec<Expr>)
    ensures
        Expr::Any(children)@ == Predicate::Any(models_of(children@)),
        Expr::All(children)@ == Predicate::All(models_of(children@)),
{
    assert(Expr::Any(children)@->Any_0 =~= models_of(children@));
    assert(Expr::All(children)@->All_0 =~= models_of(children@));
}

/// The model of the result of parsing at a position.
pub open spec fn parsed_model(r: Result<(Expr, usize), ParseError>) -> Parsed {
    match r {
        Ok((expr, next)) => Ok((expr@, next as int)),
        Err(error) => Err(error@),
    }
}

/// The model of the result of parsing a list at a position.
pub open spec fn parsed_list_model(r: Result<(Vec<Expr>, usize), ParseError>) -> ParsedList {
    match r {
        Ok((exprs, next)) => Ok((models_of(exprs@), next as int)),
        Err(error) => Err(error@),
    }
}

/// What [`first_misfit`] finds: nothing exactly when every slot is filled,
/// and otherwise the first slot that is not.
pub proof fn lemma_first_misfit(tokens: Seq<Lexeme>, at: int, shape: Seq<Slot>, from: int)
    requires
        0 <= from,
    ensures
        match first_misfit(tokens, at, shape, from) {
            None => forall|i: int|
                from <= i < shape.len() ==> #[trigger] fits_at(tokens, at + i, shape[i]),
            Some(k) => from <= k < shape.len() && !fits_at(tokens, at + k, shape[k]) && forall|
                i: int,
            | from <= i < k ==> #[trigger] fits_at(tokens, at + i, shape[i]),
        },
    decreases shape.len() - from,
{
    if from < shape.len() && fits_at(tokens, at + from, shape[from]) {
        lemma_first_misfit(tokens, at, shape, from + 1);
    }
}

/// A rule with a fixed shape, when it succeeds, ends within the tokens.
pub proof fn lemma_fixed_rule_advances(
    tokens: Seq<Lexeme>,
    at: int,
    keyword: Keyword,
    shape: Seq<Slot>,
    built: Predicate,
)
    requires
        0 <= at,
        shape.len() > 0,
    ensures
        fixed_rule(tokens, at, keyword, shape, built) matches Ok((_, next)) ==> at < next
            <= tokens.len(),
{
    lemma_first_misfit(tokens, at + 1, shape, 0);
    if fixed_rule(tokens, at, keyword, shape, built) is Ok {
        let last = shape.len() - 1;
        assert(fits_at(tokens, at + 1 + last, shape[last]));
    }
}

/// A parse consumes at least one token and never reads past the end: the
/// position after a predicate lies beyond its start and within the tokens.
pub proof fn lemma_predicate_advances(tokens: Seq<Lexeme>, at: int)
    ensures
        predicate_at(tokens, at) matches Ok((_, next)) ==> 0 <= at < next <= tokens.len(),
    decreases tokens.len() - at, 1int,
{
    if at >= 0 {
        match keyword_at(tokens, at) {
            None => {},
            Some(Keyword::Not) => {
                if fits_at(tokens, at + 1, Slot::Open) {
                    lemma_predicate_advances(tokens, at + 2);
                }
            },
            Some(Keyword::Any) => {
                if fits_at(tokens, at + 1, Slot::Open) {
                    lemma_list_advances(tokens, at + 2);
                }
            },
            Some(Keyword::All) => {
                if fits_at(tokens, at + 1, Slot::Open) {
                    lemma_list_advances(tokens, at + 2);
                }
            },
            Some(Keyword::Env) => {
                lemma_fixed_rule_advances(
                    tokens,
                    at,
                    Keyword::Env,
                    two_arguments(),
                    Predicate::EnvEquals {
                        name: text_at(tokens, at + 2),
                        value: text_at(tokens, at + 4),
                    },
                );
                lemma_fixed_rule_advances(
                    tokens,
                    at,
                    Keyword::Env,
                    one_argument(),
                    Predicate::EnvExists { name: text_at(tokens, at + 2) },
                );
            },
            Some(Keyword::Cmd) => {
                lemma_fixed_rule_advances(
                    tokens,
                    at,
                    Keyword::Cmd,
                    one_argument(),
                    Predicate::CmdExists { name: text_at(tokens, at + 2) },
                );
            },
            Some(Keyword::Dep) => {
                lemma_fixed_rule_advances(
                    tokens,
                    at,
                    Keyword::Dep,
                    three_arguments(),
                    Predicate::DepEquals {
                        anchor: text_at(tokens, at + 2),
                        name: text_at(tokens, at + 4),
                        version: text_at(tokens, at + 6),
                    },
                );
                lemma_fixed_rule_advances(
                    tokens,
                    at,
                    Keyword::Dep,
                    two_arguments(),
                    Predicate::DepExists {
                        anchor: text_at(tokens, at + 2),
                        name: text_at(tokens, at + 4),
                    },
                );
            },
            Some(Keyword::DepSince) => {
                lemma_fixed_rule_advances(
                    tokens,
                    at,
                    Keyword::DepSince,
                    three_arguments(),
                    Predicate::DepSince {
                        anchor: text_at(tokens, at + 2),
                        name: text_at(tokens, at + 4),
                        version: text_at(tokens, at + 6),
                    },
                );
            },
            Some(Keyword::DepBefore) => {
                lemma_fixed_rule_advances(
                    tokens,
                    at,
                    Keyword::DepBefore,
                    three_arguments(),
                    Predicate::DepBefore {
                        anchor: text_at(tokens, at + 2),
                        name: text_at(tokens, at + 4),
                        version: text_at(tokens, at + 6),
                    },
                );
            },
            Some(Keyword::DepFromRegistry) => {
                lemma_fixed_rule_advances(
                    tokens,
                    at,
                    Keyword::DepFromRegistry,
                    two_arguments(),
                    Predicate::DepFromRegistry {
                        anchor: text_at(tokens, at + 2),
                        name: text_at(tokens, at + 4),
                    },
                );
            },
        }
    }
}

/// A list is a predicate and what follows it. (The bound on the position
/// in [`list_at`] serves its termination only and never applies.)
pub proof fn lemma_list_unfolds(tokens: Seq<Lexeme>, at: int)
    ensures
        list_at(tokens, at) == match predicate_at(tokens, at) {
            Err(fault) => Err::<(Seq<Predicate>, int), Fault>(fault),
            Ok((first, next)) => prepend(seq![first], rest_at(tokens, next)),
        },
{
    lemma_predicate_advances(tokens, at);
}

/// A list, when it parses, holds at least one predicate and ends within the
/// tokens, beyond its start.
pub proof fn lemma_list_advances(tokens: Seq<Lexeme>, at: int)
    ensures
        list_at(tokens, at) matches Ok((children, next)) ==> 0 <= at < next <= tokens.len()
            && children.len() > 0,
    decreases tokens.len() - at, 2int,
{
    lemma_predicate_advances(tokens, at);
    match predicate_at(tokens, at) {
        Err(_) => {},
        Ok((first, next)) => {
            lemma_rest_advances(tokens, next);
        },
    }
}

/// What follows a predicate of a list, when it parses, ends within the
/// tokens, beyond its start.
pub proof fn lemma_rest_advances(tokens: Seq<Lexeme>, at: int)
    ensures
        rest_at(tokens, at) matches Ok((_, next)) ==> 0 <= at < next <= tokens.len(),
    decreases tokens.len() - at, 0int,
{
    if !fits_at(tokens, at, Slot::Close) && fits_at(tokens, at, Slot::Comma) && !fits_at(
        tokens,
        at + 1,
        Slot::Close,
    ) {
        lemma_list_advances(tokens, at + 1);
    }
}

/// Checks the tokens from `at` on against a shape.
pub fn match_shape(tokens: &Vec<Token>, at: usize, shape: &Vec<Slot>) -> (r: Result<
    (),
    ParseError,
>)
    ensures
        match r {
            Ok(()) => shape_fault(lexemes_of(tokens@), at as int, shape@) is None,
            Err(error) => shape_fault(lexemes_of(tokens@), at as int, shape@) == Some(error@),
        },
{
    let ghost lexemes = lexemes_of(tokens@);
    let mut i: usize = 0;
    while i < shape.len()
        invariant
            i <= shape.len(),
            i == 0 || at + i <= tokens.len(),
            lexemes == lexemes_of(tokens@),
            first_misfit(lexemes, at as int, shape@, 0) == first_misfit(
                lexemes,
                at as int,
                shape@,
                i as int,
            ),
        decreases shape.len() - i,
    {
        let position = at + i;
        if !token_fits(tokens, position, shape[i]) {
            let expected = match shape[i] {
                Slot::Open => Expected::Open,
                Slot::Text => Expected::Text,
                Slot::Comma => Expected::Comma,
                Slot::Close => Expected::Close,
            };
            return Err(ParseError { position, expected });
        }
        i += 1;
    }
    Ok(())
}

/// Checks for a keyword at `at` and a shape after it.
pub(crate) fn match_rule(tokens: &Vec<Token>, at: usize, keyword: Keyword, shape: &Vec<Slot>) -> (r:
    Result<(), ParseError>)
    requires
        shape@.len() > 0,
    ensures
        match r {
            Ok(()) => {
                &&& keyword_at(lexemes_of(tokens@), at as int) == Some(keyword)
                &&& shape_fault(lexemes_of(tokens@), at + 1, shape@) is None
                &&& at + 1 + shape@.len() <= tokens@.len() <= usize::MAX
                &&& forall|i: int|
                    0 <= i < shape@.len() ==> #[trigger] fits_at(
                        lexemes_of(tokens@),
                        at + 1 + i,
                        shape@[i],
                    )
            },
            Err(error) => if keyword_at(lexemes_of(tokens@), at as int) != Some(keyword) {
                error@ == Fault { position: at as int, expected: Expected::Keyword }
            } else {
                shape_fault(lexemes_of(tokens@), at + 1, shape@) == Some(error@)
            },
        },
{
    match token_keyword(tokens, at) {
        Some(k) => {
            if k != keyword {
                return Err(ParseError { position: at, expected: Expected::Keyword });
            }
        },
        None => {
            return Err(ParseError { position: at, expected: Expected::Keyword });
        },
    }
    proof {
        lemma_first_misfit(lexemes_of(tokens@), at + 1, shape@, 0);
        if shape_fault(lexemes_of(tokens@), at + 1, shape@) is None {
            let last = shape@.len() - 1;
            assert(fits_at(lexemes_of(tokens@), at + 1 + last, shape@[last]));
        }
    }
    assert(at < tokens.len());
    match_shape(tokens, at + 1, shape)
}

impl Expr {
    /// Parses the predicate that starts at `at`: the keyword there selects
    /// the rule. Returns the tree and the position after its last token.
    pub fn parse(tokens: &Vec<Token>, at: usize) -> (r: Result<(Expr, usize), ParseError>)
        ensures
            parsed_model(r) == predicate_at(lexemes_of(tokens@), at as int),
            r matches Ok((_, next)) ==> at < next <= tokens@.len(),
        decreases tokens@.len() - at, 1int,
    {
        proof {
            lemma_predicate_advances(lexemes_of(tokens@), at as int);
        }
        match token_keyword(tokens, at) {
            None => Err(ParseError { position: at, expected: Expected::Keyword }),
            Some(Keyword::Not) => Expr::parse_not(tokens, at),
            Some(Keyword::Any) => Expr::parse_any(tokens, at),
            Some(Keyword::All) => Expr::parse_all(tokens, at),
            Some(Keyword::Env) => Expr::parse_env(tokens, at),
            Some(Keyword::Cmd) => Expr::parse_cmd(tokens, at),
            Some(Keyword::Dep) => Expr::parse_dep(tokens, at),
            Some(Keyword::DepSince) => Expr::parse_dep_since(tokens, at),
            Some(Keyword::DepBefore) => Expr::parse_dep_before(tokens, at),
            Some(Keyword::DepFromRegistry) => Expr::parse_dep_from_registry(tokens, at),
        }
    }

    /// Parses `not ( predicate )`, with one optional comma before the `)`.
    pub fn parse_not(tokens: &Vec<Token>, at: usize) -> (r: Result<(Expr, usize), ParseError>)
        ensures
            parsed_model(r) == not_at(lexemes_of(tokens@), at as int),
        decreases tokens@.len() - at, 0int,
    {
        match token_keyword(tokens, at) {
            Some(Keyword::Not) => {},
            _ => {
                return Err(ParseError { position: at, expected: Expected::Keyword });
            },
        }
        assert(at < tokens.len());
        if !token_fits(tokens, at + 1, Slot::Open) {
            return Err(ParseError { position: at + 1, expected: Expected::Open });
        }
        match Expr::parse(tokens, at + 2) {
            Err(error) => Err(error),
            Ok((inner, next)) => {
                let close = if token_fits(tokens, next, Slot::Comma) {
                    next + 1
                } else {
                    next
                };
                if token_fits(tokens, close, Slot::Close) {
                    Ok((Expr::Not(Box::new(inner)), close + 1))
                } else {
                    Err(ParseError { position: close, expected: Expected::Close })
                }
            },
        }
    }

    /// Parses `any ( predicate_list )`.
    pub fn parse_any(tokens: &Vec<Token>, at: usize) -> (r: Result<(Expr, usize), ParseError>)
        ensures
            parsed_model(r) == any_at(lexemes_of(tokens@), at as int),
        decreases tokens@.len() - at, 0int,
    {
        match token_keyword(tokens, at) {
            Some(Keyword::Any) => {},
            _ => {
                return Err(ParseError { position: at, expected: Expected::Keyword });
            },
        }
        assert(at < tokens.len());
        if !token_fits(tokens, at + 1, Slot::Open) {
            return Err(ParseError { position: at + 1, expected: Expected::Open });
        }
        match Expr::parse_list(tokens, at + 2) {
            Err(error) => Err(error),
            Ok((children, next)) => {
                proof {
                    lemma_compound_models(children);
                }
                Ok((Expr::Any(children), next))
            },
        }
    }

    /// Parses `all ( predicate_list )`.
    pub fn parse_all(tokens: &Vec<Token>, at: usize) -> (r: Result<(Expr, usize), ParseError>)
        ensures
            parsed_model(r) == all_at(lexemes_of(tokens@), at as int),
        decreases tokens@.len() - at, 0int,
    {
        match token_keyword(tokens, at) {
            Some(Keyword::All) => {},
            _ => {
                return Err(ParseError { position: at, expected: Expected::Keyword });
            },
        }
        assert(at < tokens.len());
        if !token_fits(tokens, at + 1, Slot::Open) {
            return Err(ParseError { position: at + 1, expected: Expected::Open });
        }
        match Expr::parse_list(tokens, at + 2) {
            Err(error) => Err(error),
            Ok((children, next)) => {
                proof {
                    lemma_compound_models(children);
                }
                Ok((Expr::All(children), next))
            },
        }
    }

    /// Parses one or more predicates from `at` on, separated by commas, with
    /// one optional comma after the last, up to and including the `)`.
    pub fn parse_list(tokens: &Vec<Token>, at: usize) -> (r: Result<(Vec<Expr>, usize), ParseError>)
        ensures
            parsed_list_model(r) == list_at(lexemes_of(tokens@), at as int),
        decreases tokens@.len() - at, 2int,
    {
        let ghost lexemes = lexemes_of(tokens@);
        let total = tokens.len();
        let mut children: Vec<Expr> = Vec::new();
        let mut current = at;
        assert(prepend(models_of(children@), list_at(lexemes, current as int)) =~= list_at(
            lexemes,
            at as int,
        )) by {
            assert(models_of(children@) =~= Seq::<Predicate>::empty());
            match list_at(lexemes, at as int) {
                Ok((predicates, _)) => {
                    assert(Seq::<Predicate>::empty() + predicates =~= predicates);
                },
                Err(_) => {},
            }
        }
        loop
            invariant
                at <= current,
                current == at || current <= total,
                total == tokens@.len(),
                lexemes == lexemes_of(tokens@),
                list_at(lexemes, at as int) == prepend(
                    models_of(children@),
                    list_at(lexemes, current as int),
                ),
            decreases tokens@.len() - current,
        {
            proof {
                lemma_predicate_advances(lexemes, current as int);
            }
            let ghost before = models_of(children@);
            match Expr::parse(tokens, current) {
                Err(error) => {
                    return Err(error);
                },
                Ok((child, next)) => {
                    let ghost first = child@;
                    children.push(child);
                    assert(models_of(children@) =~= before + seq![first]);
                    assert(list_at(lexemes, current as int) == prepend(
                        seq![first],
                        rest_at(lexemes, next as int),
                    ));
                    assert forall|tail: ParsedList|
                        prepend(before, #[trigger] prepend(seq![first], tail)) == prepend(
                            before + seq![first],
                            tail,
                        ) by {
                        match tail {
                            Ok((predicates, _)) => {
                                assert(before + (seq![first] + predicates) =~= (before
                                    + seq![first]) + predicates);
                            },
                            Err(_) => {},
                        }
                    }
                    assert(list_at(lexemes, at as int) == prepend(
                        models_of(children@),
                        rest_at(lexemes, next as int),
                    ));
                    assert(models_of(children@) + Seq::<Predicate>::empty() =~= models_of(
                        children@,
                    ));
                    if token_fits(tokens, next, Slot::Close) {
                        return Ok((children, next + 1));
                    }
                    if !token_fits(tokens, next, Slot::Comma) {
                        return Err(ParseError { position: next, expected: Expected::Close });
                    }
                    if token_fits(tokens, next + 1, Slot::Close) {
                        return Ok((children, next + 2));
                    }
                    current = next + 1;
                },
            }
        }
    }

    /// Parses `env ( string )` or `env ( string , string )`.
    pub fn parse_env(tokens: &Vec<Token>, at: usize) -> (r: Result<(Expr, usize), ParseError>)
        ensures
            parsed_model(r) == env_at(lexemes_of(tokens@), at as int),
    {
        let two = at < tokens.len() && tokens.len() - at > 3 && token_fits(
            tokens,
            at + 3,
            Slot::Comma,
        );
        if two {
            let shape = vec![Slot::Open, Slot::Text, Slot::Comma, Slot::Text, Slot::Close];
            assert(shape@ =~= two_arguments());
            match match_rule(tokens, at, Keyword::Env, &shape) {
                Err(error) => Err(error),
                Ok(()) => {
                    assert(fits_at(lexemes_of(tokens@), at + 1 + 1, shape@[1]));
                    assert(fits_at(lexemes_of(tokens@), at + 1 + 3, shape@[3]));
                    let name = token_text(tokens, at + 2);
                    let value = token_text(tokens, at + 4);
                    Ok((Expr::EnvEquals { name, value }, at + 6))
                },
            }
        } else {
            let shape = vec![Slot::Open, Slot::Text, Slot::Close];
            assert(shape@ =~= one_argument());
            match match_rule(tokens, at, Keyword::Env, &shape) {
                Err(error) => Err(error),
                Ok(()) => {
                    assert(fits_at(lexemes_of(tokens@), at + 1 + 1, shape@[1]));
                    let name = token_text(tokens, at + 2);
                    Ok((Expr::EnvExists { name }, at + 4))
                },
            }
        }
    }

    /// Parses `cmd ( string )`.
    pub fn parse_cmd(tokens: &Vec<Token>, at: usize) -> (r: Result<(Expr, usize), ParseError>)
        ensures
            parsed_model(r) == cmd_at(lexemes_of(tokens@), at as int),
    {
        let shape = vec![Slot::Open, Slot::Text, Slot::Close];
        assert(shape@ =~= one_argument());
        match match_rule(tokens, at, Keyword::Cmd, &shape) {
            Err(error) => Err(error),
            Ok(()) => {
                assert(fits_at(lexemes_of(tokens@), at + 1 + 1, shape@[1]));
                let name = token_text(tokens, at + 2);
                Ok((Expr::CmdExists { name }, at + 4))
            },
        }
    }

    /// Parses `dep ( string , string )` or `dep ( string , string , string )`.
    pub fn parse_dep(tokens: &Vec<Token>, at: usize) -> (r: Result<(Expr, usize), ParseError>)
        ensures
            parsed_model(r) == dep_at(lexemes_of(tokens@), at as int),
    {
        let three = at < tokens.len() && tokens.len() - at > 5 && token_fits(
            tokens,
            at + 5,
            Slot::Comma,
        );
        if three {
            let shape = vec![
                Slot::Open,
                Slot::Text,
                Slot::Comma,
                Slot::Text,
                Slot::Comma,
                Slot::Text,
                Slot::Close,
            ];
            assert(shape@ =~= three_arguments());
            match match_rule(tokens, at, Keyword::Dep, &shape) {
                Err(error) => Err(error),
                Ok(()) => {
                    assert(fits_at(lexemes_of(tokens@), at + 1 + 1, shape@[1]));
                    assert(fits_at(lexemes_of(tokens@), at + 1 + 3, shape@[3]));
                    assert(fits_at(lexemes_of(tokens@), at + 1 + 5, shape@[5]));
                    let anchor = token_text(tokens, at + 2);
                    let name = token_text(tokens, at + 4);
                    let version = token_text(tokens, at + 6);
                    Ok((Expr::DepEquals { anchor, name, version }, at + 8))
                },
            }
        } else {
            let shape = vec![Slot::Open, Slot::Text, Slot::Comma, Slot::Text, Slot::Close];
            assert(shape@ =~= two_arguments());
            match match_rule(tokens, at, Keyword::Dep, &shape) {
                Err(error) => Err(error),
                Ok(()) => {
                    assert(fits_at(lexemes_of(tokens@), at + 1 + 1, shape@[1]));
                    assert(fits_at(lexemes_of(tokens@), at + 1 + 3, shape@[3]));
                    let anchor = token_text(tokens, at + 2);
                    let name = token_text(tokens, at + 4);
                    Ok((Expr::DepExists { anchor, name }, at + 6))
                },
            }
        }
    }

    /// Parses `dep_since ( string , string , string )`.
    pub fn parse_dep_since(tokens: &Vec<Token>, at: usize) -> (r: Result<(Expr, usize), ParseError>)
        ensures
            parsed_model(r) == dep_since_at(lexemes_of(tokens@), at as int),
    {
        let shape = vec![
            Slot::Open,
            Slot::Text,
            Slot::Comma,
            Slot::Text,
            Slot::Comma,
            Slot::Text,
            Slot::Close,
        ];
        assert(shape@ =~= three_arguments());
        match match_rule(tokens, at, Keyword::DepSince, &shape) {
            Err(error) => Err(error),
            Ok(()) => {
                assert(fits_at(lexemes_of(tokens@), at + 1 + 1, shape@[1]));
                assert(fits_at(lexemes_of(tokens@), at + 1 + 3, shape@[3]));
                assert(fits_at(lexemes_of(tokens@), at + 1 + 5, shape@[5]));
                let anchor = token_text(tokens, at + 2);
                let name = token_text(tokens, at + 4);
                let version = token_text(tokens, at + 6);
                Ok((Expr::DepSince { anchor, name, version }, at + 8))
            },
        }
    }

    /// Parses `dep_before ( string , string , string )`.
    pub fn parse_dep_before(tokens: &Vec<Token>, at: usize) -> (r: Result<
        (Expr, usize),
        ParseError,
    >)
        ensures
            parsed_model(r) == dep_before_at(lexemes_of(tokens@), at as int),
    {
        let shape = vec![
            Slot::Open,
            Slot::Text,
            Slot::Comma,
            Slot::Text,
            Slot::Comma,
            Slot::Text,
            Slot::Close,
        ];
        assert(shape@ =~= three_arguments());
        match match_rule(tokens, at, Keyword::DepBefore, &shape) {
            Err(error) => Err(error),
            Ok(()) => {
                assert(fits_at(lexemes_of(tokens@), at + 1 + 1, shape@[1]));
                assert(fits_at(lexemes_of(tokens@), at + 1 + 3, shape@[3]));
                assert(fits_at(lexemes_of(tokens@), at + 1 + 5, shape@[5]));
                let anchor = token_text(tokens, at + 2);
                let name = token_text(tokens, at + 4);
                let version = token_text(tokens, at + 6);
                Ok((Expr::DepBefore { anchor, name, version }, at + 8))
            },
        }
    }

    /// Parses `dep_from_registry ( string , string )`.
    pub fn parse_dep_from_registry(tokens: &Vec<Token>, at: usize) -> (r: Result<
        (Expr, usize),
        ParseError,
    >)
        ensures
            parsed_model(r) == dep_from_registry_at(lexemes_of(tokens@), at as int),
    {
        let shape = vec![Slot::Open, Slot::Text, Slot::Comma, Slot::Text, Slot::Close];
        assert(shape@ =~= two_arguments());
        match match_rule(tokens, at, Keyword::DepFromRegistry, &shape) {
            Err(error) => Err(error),
            Ok(()) => {
                assert(fits_at(lexemes_of(tokens@), at + 1 + 1, shape@[1]));
                assert(fits_at(lexemes_of(tokens@), at + 1 + 3, shape@[3]));
                let anchor = token_text(tokens, at + 2);
                let name = token_text(tokens, at + 4);
                Ok((Expr::DepFromRegistry { anchor, name }, at + 6))
            },
        }
    }

    /// Parses a whole predicate: the tokens must spell one predicate and
    /// nothing more.
    pub fn from_tokens(tokens: &Vec<Token>) -> (r: Result<Expr, ParseError>)
        ensures
            match r {
                Ok(expr) => parsed(lexemes_of(tokens@)) == Ok::<Predicate, Fault>(expr@),
                Err(error) => parsed(lexemes_of(tokens@)) == Err::<Predicate, Fault>(error@),
            },
    {
        match Expr::parse(tokens, 0) {
            Err(error) => Err(error),
            Ok((expr, next)) => {
                if next == tokens.len() {
                    Ok(expr)
                } else {
                    Err(ParseError { position: next, expected: Expected::End })
                }
            },
        }
    }
}

/// Whether a predicate can be written down: every `any` and `all` in it
/// has at least one child.
pub open spec fn writable(p: Predicate) -> bool
    decreases p,
{
    match p {
        Predicate::Not(inner) => writable(*inner),
        Predicate::Any(children) => children.len() > 0 && forall|i: int|
            0 <= i < children.len() ==> writable(#[trigger] children[i]),
        Predicate::All(children) => children.len() > 0 && forall|i: int|
            0 <= i < children.len() ==> writable(#[trigger] children[i]),
        _ => true,
    }
}

/// Whatever the parser accepts can be written down: it never yields an
/// `any` or `all` without children.
pub proof fn lemma_parsed_is_writable(tokens: Seq<Lexeme>, at: int)
    ensures
        predicate_at(tokens, at) matches Ok((p, _)) ==> writable(p),
    decreases tokens.len() - at, 1int,
{
    if at >= 0 {
        match keyword_at(tokens, at) {
            Some(Keyword::Not) => {
                if fits_at(tokens, at + 1, Slot::Open) {
                    lemma_parsed_is_writable(tokens, at + 2);
                }
            },
            Some(Keyword::Any) => {
                if fits_at(tokens, at + 1, Slot::Open) {
                    lemma_parsed_list_is_writable(tokens, at + 2);
                }
            },
            Some(Keyword::All) => {
                if fits_at(tokens, at + 1, Slot::Open) {
                    lemma_parsed_list_is_writable(tokens, at + 2);
                }
            },
            _ => {},
        }
    }
}

/// Whatever the parser accepts as a list holds at least one predicate, and
/// each of them can be written down.
pub proof fn lemma_parsed_list_is_writable(tokens: Seq<Lexeme>, at: int)
    ensures
        list_at(tokens, at) matches Ok((children, _)) ==> children.len() > 0 && forall|i: int|
            0 <= i < children.len() ==> writable(#[trigger] children[i]),
    decreases tokens.len() - at, 2int,
{
    lemma_parsed_is_writable(tokens, at);
    match predicate_at(tokens, at) {
        Err(_) => {},
        Ok((first, next)) => {
            if !(next <= at || next > tokens.len()) {
                if !fits_at(tokens, next, Slot::Close) && fits_at(tokens, next, Slot::Comma)
                    && !fits_at(tokens, next + 1, Slot::Close) {
                    lemma_parsed_list_is_writable(tokens, next + 1);
                }
                match rest_at(tokens, next) {
                    Ok((others, _)) => {
                        let children = seq![first] + others;
                        assert forall|i: int| 0 <= i < children.len() implies writable(
                            #[trigger] children[i],
                        ) by {
                            if i > 0 {
                                assert(children[i] == others[i - 1]);
                            }
                        }
                    },
                    Err(_) => {},
                }
            }
        },
    }
}

/// A keyword and an opening parenthesis.
pub open spec fn opening(keyword: Keyword) -> Seq<Lexeme> {
    seq![Lexeme::Word(keyword.spelling()), Lexeme::Open]
}

/// The plain spelling of a predicate: its keyword, its arguments between
/// parentheses and separated by commas, with no optional comma.
pub open spec fn spelling(p: Predicate) -> Seq<Lexeme>
    decreases p, 0int,
{
    match p {
        Predicate::Not(inner) => opening(Keyword::Not) + spelling(*inner) + seq![Lexeme::Close],
        Predicate::Any(children) => opening(Keyword::Any) + list_spelling(children, 0)
            + seq![Lexeme::Close],
        Predicate::All(children) => opening(Keyword::All) + list_spelling(children, 0)
            + seq![Lexeme::Close],
        Predicate::EnvExists { name } => opening(Keyword::Env) + seq![
            Lexeme::Text(name),
            Lexeme::Close,
        ],
        Predicate::EnvEquals { name, value } => opening(Keyword::Env) + seq![
            Lexeme::Text(name),
            Lexeme::Comma,
            Lexeme::Text(value),
            Lexeme::Close,
        ],
        Predicate::CmdExists { name } => opening(Keyword::Cmd) + seq![
            Lexeme::Text(name),
            Lexeme::Close,
        ],
        Predicate::DepExists { anchor, name } => opening(Keyword::Dep) + seq![
            Lexeme::Text(anchor),
            Lexeme::Comma,
            Lexeme::Text(name),
            Lexeme::Close,
        ],
        Predicate::DepEquals { anchor, name, version } => opening(Keyword::Dep) + seq![
            Lexeme::Text(anchor),
            Lexeme::Comma,
            Lexeme::Text(name),
            Lexeme::Comma,
            Lexeme::Text(version),
            Lexeme::Close,
        ],
        Predicate::DepSince { anchor, name, version } => opening(Keyword::DepSince) + seq![
            Lexeme::Text(anchor),
            Lexeme::Comma,
            Lexeme::Text(name),
            Lexeme::Comma,
            Lexeme::Text(version),
            Lexeme::Close,
        ],
        Predicate::DepBefore { anchor, name, version } => opening(Keyword::DepBefore) + seq![
            Lexeme::Text(anchor),
            Lexeme::Comma,
            Lexeme::Text(name),
            Lexeme::Comma,
            Lexeme::Text(version),
            Lexeme::Close,
        ],
        Predicate::DepFromRegistry { anchor, name } => opening(Keyword::DepFromRegistry) + seq![
            Lexeme::Text(anchor),
            Lexeme::Comma,
            Lexeme::Text(name),
            Lexeme::Close,
        ],
    }
}

/// The spellings of the children from index `from` on, separated by commas.
pub open spec fn list_spelling(children: Seq<Predicate>, from: int) -> Seq<Lexeme>
    decreases children, children.len() - from,
{
    if from < 0 || from >= children.len() {
        Seq::empty()
    } else if from == children.len() - 1 {
        spelling(children[from])
    } else {
        spelling(children[from]) + seq![Lexeme::Comma] + list_spelling(children, from + 1)
    }
}

/// A spelling begins with a keyword and an opening parenthesis and holds
/// at least one token more.
pub proof fn lemma_spelling_opens(p: Predicate)
    ensures
        spelling(p).len() >= 3,
        spelling(p)[0] is Word,
        keyword_at(spelling(p), 0) is Some,
        spelling(p)[1] == Lexeme::Open,
{
    lemma_keyword_of_spelling(Keyword::Not);
    lemma_keyword_of_spelling(Keyword::Any);
    lemma_keyword_of_spelling(Keyword::All);
    lemma_keyword_of_spelling(Keyword::Env);
    lemma_keyword_of_spelling(Keyword::Cmd);
    lemma_keyword_of_spelling(Keyword::Dep);
    lemma_keyword_of_spelling(Keyword::DepSince);
    lemma_keyword_of_spelling(Keyword::DepBefore);
    lemma_keyword_of_spelling(Keyword::DepFromRegistry);
}

/// Tokens that hold a sequence from `at` on hold each of its elements.
proof fn lemma_window(tokens: Seq<Lexeme>, at: int, held: Seq<Lexeme>)
    requires
        0 <= at,
        at + held.len() <= tokens.len(),
        tokens.subrange(at, at + held.len()) == held,
    ensures
        forall|i: int| 0 <= i < held.len() ==> tokens[at + i] == #[trigger] held[i],
{
    assert forall|i: int| 0 <= i < held.len() implies tokens[at + i] == #[trigger] held[i] by {
        assert(tokens.subrange(at, at + held.len())[i] == tokens[at + i]);
    }
}

/// A rule with a fixed shape accepts tokens that carry its keyword and
/// fill every slot.
pub proof fn lemma_fixed_rule_accepts(
    tokens: Seq<Lexeme>,
    at: int,
    keyword: Keyword,
    shape: Seq<Slot>,
    built: Predicate,
)
    requires
        keyword_at(tokens, at) == Some(keyword),
        forall|i: int| 0 <= i < shape.len() ==> #[trigger] fits_at(tokens, at + 1 + i, shape[i]),
    ensures
        fixed_rule(tokens, at, keyword, shape, built) == Ok::<(Predicate, int), Fault>(
            (built, at + 1 + shape.len()),
        ),
{
    lemma_first_misfit(tokens, at + 1, shape, 0);
}

/// The plain spelling of a writable predicate, wherever it stands among
/// the tokens, parses to that predicate and to the position after it.
pub proof fn lemma_spelling_parses_at(tokens: Seq<Lexeme>, at: int, p: Predicate)
    requires
        writable(p),
        0 <= at,
        at + spelling(p).len() <= tokens.len(),
        tokens.subrange(at, at + spelling(p).len()) == spelling(p),
    ensures
        predicate_at(tokens, at) == Ok::<(Predicate, int), Fault>((p, at + spelling(p).len())),
    decreases p, 0int,
{
    let s = spelling(p);
    lemma_window(tokens, at, s);
    lemma_spelling_opens(p);
    lemma_keyword_of_spelling(Keyword::Not);
    lemma_keyword_of_spelling(Keyword::Any);
    lemma_keyword_of_spelling(Keyword::All);
    lemma_keyword_of_spelling(Keyword::Env);
    lemma_keyword_of_spelling(Keyword::Cmd);
    lemma_keyword_of_spelling(Keyword::Dep);
    lemma_keyword_of_spelling(Keyword::DepSince);
    lemma_keyword_of_spelling(Keyword::DepBefore);
    lemma_keyword_of_spelling(Keyword::DepFromRegistry);
    assert(tokens[at + 0] == s[0]);
    assert(tokens[at + 1] == s[1]);
    match p {
        Predicate::Not(inner) => {
            let si = spelling(*inner);
            assert(s.len() == si.len() + 3);
            assert(tokens.subrange(at + 2, at + 2 + si.len()) =~= si) by {
                assert forall|j: int| 0 <= j < si.len() implies tokens[at + 2 + j] == si[j] by {
                    assert(tokens[at + (2 + j)] == s[2 + j]);
                }
            }
            lemma_spelling_parses_at(tokens, at + 2, *inner);
            let next = at + 2 + si.len();
            assert(tokens[at + (2 + si.len())] == s[(2 + si.len()) as int]);
            assert(tokens[next] == Lexeme::Close);
        },
        Predicate::Any(children) => {
            let sl = list_spelling(children, 0);
            assert(s.len() == sl.len() + 3);
            assert(tokens.subrange(at + 2, at + 2 + sl.len()) =~= sl) by {
                assert forall|j: int| 0 <= j < sl.len() implies tokens[at + 2 + j] == sl[j] by {
                    assert(tokens[at + (2 + j)] == s[2 + j]);
                }
            }
            assert(tokens[at + (2 + sl.len())] == s[(2 + sl.len()) as int]);
            lemma_list_spelling_parses_at(tokens, at + 2, children, 0);
            assert(children.skip(0) =~= children);
        },
        Predicate::All(children) => {
            let sl = list_spelling(children, 0);
            assert(s.len() == sl.len() + 3);
            assert(tokens.subrange(at + 2, at + 2 + sl.len()) =~= sl) by {
                assert forall|j: int| 0 <= j < sl.len() implies tokens[at + 2 + j] == sl[j] by {
                    assert(tokens[at + (2 + j)] == s[2 + j]);
                }
            }
            assert(tokens[at + (2 + sl.len())] == s[(2 + sl.len()) as int]);
            lemma_list_spelling_parses_at(tokens, at + 2, children, 0);
            assert(children.skip(0) =~= children);
        },
        Predicate::EnvExists { name } => {
            assert(tokens[at + 2] == s[2] && tokens[at + 3] == s[3]);
            lemma_fixed_rule_accepts(tokens, at, Keyword::Env, one_argument(), p);
        },
        Predicate::EnvEquals { name, value } => {
            assert(tokens[at + 2] == s[2] && tokens[at + 3] == s[3] && tokens[at + 4] == s[4]
                && tokens[at + 5] == s[5]);
            lemma_fixed_rule_accepts(tokens, at, Keyword::Env, two_arguments(), p);
        },
        Predicate::CmdExists { name } => {
            assert(tokens[at + 2] == s[2] && tokens[at + 3] == s[3]);
            lemma_fixed_rule_accepts(tokens, at, Keyword::Cmd, one_argument(), p);
        },
        Predicate::DepExists { anchor, name } => {
            assert(tokens[at + 2] == s[2] && tokens[at + 3] == s[3] && tokens[at + 4] == s[4]
                && tokens[at + 5] == s[5]);
            lemma_fixed_rule_accepts(tokens, at, Keyword::Dep, two_arguments(), p);
        },
        Predicate::DepEquals { anchor, name, version } => {
            assert(tokens[at + 2] == s[2] && tokens[at + 3] == s[3] && tokens[at + 4] == s[4]
                && tokens[at + 5] == s[5] && tokens[at + 6] == s[6] && tokens[at + 7] == s[7]);
            lemma_fixed_rule_accepts(tokens, at, Keyword::Dep, three_arguments(), p);
        },
        Predicate::DepSince { anchor, name, version } => {
            assert(tokens[at + 2] == s[2] && tokens[at + 3] == s[3] && tokens[at + 4] == s[4]
                && tokens[at + 5] == s[5] && tokens[at + 6] == s[6] && tokens[at + 7] == s[7]);
            lemma_fixed_rule_accepts(tokens, at, Keyword::DepSince, three_arguments(), p);
        },
        Predicate::DepBefore { anchor, name, version } => {
            assert(tokens[at + 2] == s[2] && tokens[at + 3] == s[3] && tokens[at + 4] == s[4]
                && tokens[at + 5] == s[5] && tokens[at + 6] == s[6] && tokens[at + 7] == s[7]);
            lemma_fixed_rule_accepts(tokens, at, Keyword::DepBefore, three_arguments(), p);
        },
        Predicate::DepFromRegistry { anchor, name } => {
            assert(tokens[at + 2] == s[2] && tokens[at + 3] == s[3] && tokens[at + 4] == s[4]
                && tokens[at + 5] == s[5]);
            lemma_fixed_rule_accepts(tokens, at, Keyword::DepFromRegistry, two_arguments(), p);
        },
    }
}

/// The plain spelling of a list of writable predicates, followed by a
/// closing parenthesis, parses to those predicates and to the position
/// after the parenthesis.
pub proof fn lemma_list_spelling_parses_at(
    tokens: Seq<Lexeme>,
    at: int,
    children: Seq<Predicate>,
    from: int,
)
    requires
        0 <= from < children.len(),
        forall|i: int| 0 <= i < children.len() ==> writable(#[trigger] children[i]),
        0 <= at,
        at + list_spelling(children, from).len() < tokens.len(),
        tokens.subrange(at, at + list_spelling(children, from).len()) == list_spelling(
            children,
            from,
        ),
        tokens[at + list_spelling(children, from).len()] == Lexeme::Close,
    ensures
        list_at(tokens, at) == Ok::<(Seq<Predicate>, int), Fault>(
            (children.skip(from), at + list_spelling(children, from).len() + 1),
        ),
    decreases children, children.len() - from,
{
    let s = list_spelling(children, from);
    let first = children[from];
    let sf = spelling(first);
    lemma_window(tokens, at, s);
    lemma_spelling_opens(first);
    assert(writable(first));
    assert(tokens.subrange(at, at + sf.len()) =~= sf) by {
        assert forall|j: int| 0 <= j < sf.len() implies tokens[at + j] == sf[j] by {
            assert(tokens[at + j] == s[j]);
        }
    }
    lemma_spelling_parses_at(tokens, at, first);
    let next = at + sf.len();
    if from == children.len() - 1 {
        assert(children.skip(from) =~= seq![first] + Seq::<Predicate>::empty());
    } else {
        let rest = list_spelling(children, from + 1);
        lemma_spelling_opens(children[from + 1]);
        assert(s.len() == sf.len() + 1 + rest.len());
        assert(tokens[at + sf.len()] == s[sf.len() as int]);
        assert(tokens[next] == Lexeme::Comma);
        assert(tokens[at + (sf.len() + 1)] == s[(sf.len() + 1) as int]);
        assert(rest[0] is Word);
        assert(tokens[next + 1] is Word);
        assert(tokens.subrange(next + 1, next + 1 + rest.len()) =~= rest) by {
            assert forall|j: int| 0 <= j < rest.len() implies tokens[next + 1 + j] == rest[j] by {
                assert(tokens[at + (sf.len() + 1 + j)] == s[sf.len() + 1 + j]);
            }
        }
        lemma_list_spelling_parses_at(tokens, next + 1, children, from + 1);
        assert(children.skip(from) =~= seq![first] + children.skip(from + 1));
    }
}

/// Every writable predicate has a spelling that parses back to it: the
/// parser accepts the plain spelling of a predicate and returns that very
/// predicate.
pub proof fn lemma_spelling_round_trip(p: Predicate)
    requires
        writable(p),
    ensures
        parsed(spelling(p)) == Ok::<Predicate, Fault>(p),
{
    let s = spelling(p);
    assert(s.subrange(0, s.len() as int) =~= s);
    lemma_spelling_parses_at(s, 0, p);
}

} // verus!
