//! Build-time predicates over the environment, the search path and a
//! project's resolved dependencies.
//!
//! A predicate is written with a keyword and a parenthesised argument list,
//! such as `all(env("CI"), not(cmd("git")))`. It is parsed from tokens into
//! an [`expr::Expr`] and evaluated against [`facts::Facts`], the answers
//! collected so far about the outside world. Evaluation never looks at the
//! outside world itself: where an answer is missing it names the question,
//! and the caller records the answer and evaluates again.

use vstd::prelude::*;

pub mod eval;
pub mod expr;
pub mod facts;
pub mod gate;
pub mod metadata;
pub mod parse;
pub mod table;
pub mod text;
pub mod token;
pub mod version;

pub use crate::gate::{attr, cfg, try_attr, try_cfg};

use crate::facts::Facts;
use crate::gate::{Decision, Ruling, attribute_verdict, ruling_of};
use crate::token::{Token, lexemes_of};

verus! {

/// Decides an item under `env(..)`: whether an environment variable is
/// set and, with a second argument, whether it has that value.
pub fn env(args: &Vec<Token>, facts: &Facts) -> (r: Decision)
    ensures
        r@ == ruling_of(attribute_verdict("env"@, lexemes_of(args@), facts@)),
        r@ matches Ruling::Ask(q) ==> !facts@.knows(q),
{
    cfg("env", args, facts)
}

/// Decides an item under `cmd(..)`: whether an executable resolves on the
/// search path.
pub fn cmd(args: &Vec<Token>, facts: &Facts) -> (r: Decision)
    ensures
        r@ == ruling_of(attribute_verdict("cmd"@, lexemes_of(args@), facts@)),
        r@ matches Ruling::Ask(q) ==> !facts@.knows(q),
{
    cfg("cmd", args, facts)
}

/// Decides an item under `dep(..)`: whether the anchor project has a
/// dependency and, with a third argument, whether it has exactly that
/// version.
pub fn dep(args: &Vec<Token>, facts: &Facts) -> (r: Decision)
    ensures
        r@ == ruling_of(attribute_verdict("dep"@, lexemes_of(args@), facts@)),
        r@ matches Ruling::Ask(q) ==> !facts@.knows(q),
{
    cfg("dep", args, facts)
}

/// Decides an item under `dep_since(..)`: whether the anchor project has a
/// dependency at or above a version.
pub fn dep_since(args: &Vec<Token>, facts: &Facts) -> (r: Decision)
    ensures
        r@ == ruling_of(attribute_verdict("dep_since"@, lexemes_of(args@), facts@)),
        r@ matches Ruling::Ask(q) ==> !facts@.knows(q),
{
    cfg("dep_since", args, facts)
}

/// Decides an item under `dep_before(..)`: whether the anchor project has
/// a dependency below a version.
pub fn dep_before(args: &Vec<Token>, facts: &Facts) -> (r: Decision)
    ensures
        r@ == ruling_of(attribute_verdict("dep_before"@, lexemes_of(args@), facts@)),
        r@ matches Ruling::Ask(q) ==> !facts@.knows(q),
{
    cfg("dep_before", args, facts)
}

/// Decides an item under `dep_from_registry(..)`: whether the anchor
/// project has a dependency that was fetched from a registry.
pub fn dep_from_registry(args: &Vec<Token>, facts: &Facts) -> (r: Decision)
    ensures
        r@ == ruling_of(attribute_verdict("dep_from_registry"@, lexemes_of(args@), facts@)),
        r@ matches Ruling::Ask(q) ==> !facts@.knows(q),
{
    cfg("dep_from_registry", args, facts)
}

/// Decides an item under `not(..)`: the inverse of another predicate.
pub fn not(args: &Vec<Token>, facts: &Facts) -> (r: Decision)
    ensures
        r@ == ruling_of(attribute_verdict("not"@, lexemes_of(args@), facts@)),
        r@ matches Ruling::Ask(q) ==> !facts@.knows(q),
{
    cfg("not", args, facts)
}

/// Decides an item under `any(..)`: whether at least one of several
/// predicates holds.
pub fn any(args: &Vec<Token>, facts: &Facts) -> (r: Decision)
    ensures
        r@ == ruling_of(attribute_verdict("any"@, lexemes_of(args@), facts@)),
        r@ matches Ruling::Ask(q) ==> !facts@.knows(q),
{
    cfg("any", args, facts)
}

/// Decides an item under `all(..)`: whether every one of several
/// predicates holds.
pub fn all(args: &Vec<Token>, facts: &Facts) -> (r: Decision)
    ensures
        r@ == ruling_of(attribute_verdict("all"@, lexemes_of(args@), facts@)),
        r@ matches Ruling::Ask(q) ==> !facts@.knows(q),
{
    cfg("all", args, facts)
}

} // verus!
