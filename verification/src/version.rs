//! Comparing two version strings under an operator.
//!
//! The ordering of versions is the one computed by the `version-compare`
//! crate. This module names what that crate returns, states what is taken
//! on trust of it (how the three operators read its three-way answer, that
//! the answer for a pair mirrors the answer for the pair exchanged, and that
//! a version is level with itself) and proves what follows.

use vstd::prelude::*;
use version_compare::{CompOp, VersionCompare};
use crate::text::{Rank, lemma_rank_flips, lemma_text_rank_same, text_rank};

verus! {

/// The comparison a dependency predicate asks for.
#[derive(Clone, Copy, PartialEq, Eq, Structural, Debug)]
pub enum Operator {
    /// The found version equals the wanted one.
    Eq,
    /// The found version is at least the wanted one.
    Ge,
    /// The found version is strictly below the wanted one.
    Lt,
}

/// Where one version stands relative to another.
pub ghost enum Standing {
    Below,
    Level,
    Above,
}

impl Standing {
    /// The standing of the second version relative to the first.
    pub open spec fn mirrored(self) -> Standing {
        match self {
            Standing::Below => Standing::Above,
            Standing::Level => Standing::Level,
            Standing::Above => Standing::Below,
        }
    }
}

/// What the three-way comparison of `version-compare` returns for `first`
/// against `second`, or `None` when it cannot read one of the two as a
/// version.
pub uninterp spec fn version_order(first: Seq<char>, second: Seq<char>) -> Option<Standing>;

/// The standing of a standing's other side, if there is one.
pub open spec fn mirror(standing: Option<Standing>) -> Option<Standing> {
    match standing {
        Some(s) => Some(s.mirrored()),
        None => None,
    }
}

/// The standing of `found` relative to `wanted`, given what the comparison
/// returns for the pair (`forward`) and for the pair exchanged
/// (`backward`). Of the two answers, the one for the pair in lexicographic
/// order is read, and mirrored where the pair stands the other way round;
/// a version stands level with itself.
pub open spec fn standing_of(
    found: Seq<char>,
    wanted: Seq<char>,
    forward: Option<Standing>,
    backward: Option<Standing>,
) -> Option<Standing> {
    match text_rank(found, wanted) {
        Rank::Before => forward,
        Rank::After => mirror(backward),
        Rank::Same => match forward {
            Some(_) => Some(Standing::Level),
            None => None,
        },
    }
}

/// The standing of `found` relative to `wanted` as `version-compare` orders
/// them, or `None` when it cannot read one of the two as a version.
pub open spec fn version_standing(found: Seq<char>, wanted: Seq<char>) -> Option<Standing> {
    standing_of(found, wanted, version_order(found, wanted), version_order(wanted, found))
}

/// Whether a standing satisfies an operator.
pub open spec fn admits(op: Operator, standing: Standing) -> bool {
    match op {
        Operator::Eq => standing is Level,
        Operator::Ge => standing is Level || standing is Above,
        Operator::Lt => standing is Below,
    }
}

/// The answer to "`found` `op` `wanted`": `None` when one of the two is
/// not a version, otherwise whether their standing satisfies `op`.
pub open spec fn compared(found: Seq<char>, op: Operator, wanted: Seq<char>) -> Option<bool> {
    match version_standing(found, wanted) {
        None => None,
        Some(standing) => Some(admits(op, standing)),
    }
}

/// Trusted: calls `version_compare::VersionCompare::compare_to`.
///
/// That function parses both strings, fails when either has parts but no
/// numeric part, and otherwise matches the result of its own three-way
/// comparison (`Lt`, `Eq` or `Gt`) against the operator: `Eq` holds on
/// `Eq`, `Ge` on `Eq` and `Gt`, `Lt` on `Lt`.
///
/// Two more things are taken on trust of the three-way comparison, both
/// read from its source (`Version::compare_iter`). It walks the parts of
/// the two versions side by side, decides on the first pair of unequal
/// numbers, and where one version runs out decides on the other's first
/// remaining part that is not zero; the same walk with the sides exchanged
/// meets the same parts and gives the mirrored answer, and the walk of a
/// version against itself meets no unequal pair and gives `Eq`. Whether a
/// pair can be compared at all does not depend on its order.
///
/// Nothing is claimed about which strings compare how.
#[verifier::external_body]
fn compare_to(found: &str, wanted: &str, op: Operator) -> (r: Option<bool>)
    ensures
        r == match standing_of(
            found@,
            wanted@,
            version_order(found@, wanted@),
            version_order(wanted@, found@),
        ) {
            None => None,
            Some(standing) => Some(admits(op, standing)),
        },
{
    let operator = match op {
        Operator::Eq => CompOp::Eq,
        Operator::Ge => CompOp::Ge,
        Operator::Lt => CompOp::Lt,
    };
    VersionCompare::compare_to(found, wanted, &operator).ok()
}

/// Compares `found` with `wanted` under `op`.
///
/// Returns `None` exactly when one of the two strings is not a version.
pub fn compare(found: &str, op: Operator, wanted: &str) -> (r: Option<bool>)
    ensures
        r == compared(found@, op, wanted@),
        r is None <==> version_standing(found@, wanted@) is None,
{
    compare_to(found, wanted, op)
}

/// Whether two versions can be compared does not depend on the operator.
pub proof fn lemma_failure_ignores_operator(
    found: Seq<char>,
    wanted: Seq<char>,
    op1: Operator,
    op2: Operator,
)
    ensures
        compared(found, op1, wanted) is None <==> compared(found, op2, wanted) is None,
{
}

/// On one pair of versions, `Ge` holds exactly when `Lt` does not.
pub proof fn lemma_ge_is_not_lt(found: Seq<char>, wanted: Seq<char>)
    requires
        version_standing(found, wanted) is Some,
    ensures
        compared(found, Operator::Ge, wanted) == Some(
            !compared(found, Operator::Lt, wanted).unwrap(),
        ),
{
}

/// On one pair of versions, `Eq` implies `Ge` and excludes `Lt`.
pub proof fn lemma_eq_implies_ge(found: Seq<char>, wanted: Seq<char>)
    requires
        compared(found, Operator::Eq, wanted) == Some(true),
    ensures
        compared(found, Operator::Ge, wanted) == Some(true),
        compared(found, Operator::Lt, wanted) == Some(false),
{
}

/// The standing of a pair exchanged mirrors the standing of the pair, and
/// a pair can be compared exactly when the pair exchanged can.
pub proof fn lemma_standing_mirrors(a: Seq<char>, b: Seq<char>)
    ensures
        version_standing(b, a) == mirror(version_standing(a, b)),
{
    lemma_rank_flips(a, b, 0);
    lemma_text_rank_same(a, b);
}

/// A version that can be compared with itself stands level with itself.
pub proof fn lemma_standing_of_itself(a: Seq<char>)
    ensures
        version_standing(a, a) is Some ==> version_standing(a, a) == Some(Standing::Level),
        compared(a, Operator::Eq, a) is Some ==> compared(a, Operator::Eq, a) == Some(true),
{
    lemma_text_rank_same(a, a);
}

/// Comparisons are consistent: if each of two versions is at least the
/// other, the two are equal under `Eq`, both ways round.
pub proof fn lemma_ge_both_ways_is_eq(a: Seq<char>, b: Seq<char>)
    requires
        compared(a, Operator::Ge, b) == Some(true),
        compared(b, Operator::Ge, a) == Some(true),
    ensures
        compared(a, Operator::Eq, b) == Some(true),
        compared(b, Operator::Eq, a) == Some(true),
{
    lemma_standing_mirrors(a, b);
}

/// Exchanging the two versions turns `Lt` into the strict opposite: a
/// version is below another exactly when the other is at least it and the
/// two are not equal.
pub proof fn lemma_lt_is_ge_exchanged(a: Seq<char>, b: Seq<char>)
    requires
        version_standing(a, b) is Some,
    ensures
        compared(b, Operator::Ge, a) is Some,
        compared(a, Operator::Lt, b) == Some(
            compared(b, Operator::Ge, a).unwrap() && !compared(a, Operator::Eq, b).unwrap(),
        ),
{
    lemma_standing_mirrors(a, b);
}

} // verus!
