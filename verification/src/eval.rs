//! Evaluating a predicate against what is known of the build environment.

use vstd::prelude::*;
use crate::expr::{Expr, Predicate};
use crate::facts::{
    Dependency, DependencyRecord, Facts, Held, Knowledge, Query, Question, Setting, dependencies_of,
};
use crate::text::{begins_with, starts_with};
use crate::version::{Operator, compare, compared, lemma_ge_both_ways_is_eq};

verus! {

/// How an evaluation ends.
#[derive(Debug)]
pub enum Outcome {
    /// The predicate has this value.
    Decided(bool),
    /// The value depends on a question that has no recorded answer yet.
    Needs(Query),
    /// A version comparison was reached in which one side is not a version.
    Failed { found: String, wanted: String },
}

/// The model of an [`Outcome`].
pub ghost enum Verdict {
    Decided(bool),
    Needs(Question),
    Failed { found: Seq<char>, wanted: Seq<char> },
}

impl View for Outcome {
    type V = Verdict;

    open spec fn view(&self) -> Verdict {
        match self {
            Outcome::Decided(b) => Verdict::Decided(*b),
            Outcome::Needs(q) => Verdict::Needs(q@),
            Outcome::Failed { found, wanted } => Verdict::Failed { found: found@, wanted: wanted@ },
        }
    }
}

impl Verdict {
    /// The verdict of a negation: a decided value is inverted, anything else
    /// passes through.
    pub open spec fn negated(self) -> Verdict {
        match self {
            Verdict::Decided(b) => Verdict::Decided(!b),
            other => other,
        }
    }
}

/// The source locator prefix that marks a package fetched from a registry.
pub open spec fn registry_marker() -> Seq<char> {
    "registry+"@
}

/// The first of the verdicts from index `from` on that is not
/// `Decided(neutral)`, or `Decided(neutral)` when there is none.
pub open spec fn first_unlike_from(verdicts: Seq<Verdict>, from: int, neutral: bool) -> Verdict
    decreases verdicts.len() - from,
{
    if from < 0 || from >= verdicts.len() {
        Verdict::Decided(neutral)
    } else if verdicts[from] == Verdict::Decided(neutral) {
        first_unlike_from(verdicts, from + 1, neutral)
    } else {
        verdicts[from]
    }
}

/// The verdict of a disjunction of children with these verdicts, read from
/// left to right: `false` children are passed over, the first other verdict
/// settles the whole, and no child at all means `false`.
pub open spec fn any_of(verdicts: Seq<Verdict>) -> Verdict {
    first_unlike_from(verdicts, 0, false)
}

/// The verdict of a conjunction, the dual of [`any_of`]: `true` children are
/// passed over and no child at all means `true`.
pub open spec fn all_of(verdicts: Seq<Verdict>) -> Verdict {
    first_unlike_from(verdicts, 0, true)
}

/// Whether some record carries this name.
pub open spec fn has_dependency(records: Seq<Dependency>, name: Seq<char>) -> bool {
    exists|i: int| 0 <= i < records.len() && (#[trigger] records[i]).name == name
}

/// Whether some record carries this name and comes from a registry.
pub open spec fn has_registry_dependency(records: Seq<Dependency>, name: Seq<char>) -> bool {
    exists|i: int|
        0 <= i < records.len() && (#[trigger] records[i]).name == name && from_registry(
            records[i],
        )
}

/// Whether a record's source locator is present and denotes a registry.
pub open spec fn from_registry(record: Dependency) -> bool {
    match record.source {
        Some(source) => begins_with(source, registry_marker()),
        None => false,
    }
}

/// The verdict of a version test over the records from index `from` on, in
/// order: records of another name are passed over; the first record of this
/// name whose version satisfies the operator decides `true`; one whose
/// version cannot be compared fails; with none left the verdict is `false`.
pub open spec fn version_verdict_from(
    records: Seq<Dependency>,
    from: int,
    name: Seq<char>,
    op: Operator,
    wanted: Seq<char>,
) -> Verdict
    decreases records.len() - from,
{
    if from < 0 || from >= records.len() {
        Verdict::Decided(false)
    } else if records[from].name != name {
        version_verdict_from(records, from + 1, name, op, wanted)
    } else {
        match compared(records[from].version, op, wanted) {
            None => Verdict::Failed { found: records[from].version, wanted },
            Some(true) => Verdict::Decided(true),
            Some(false) => version_verdict_from(records, from + 1, name, op, wanted),
        }
    }
}

/// The verdict of a version test over all the records.
pub open spec fn version_verdict(
    records: Seq<Dependency>,
    name: Seq<char>,
    op: Operator,
    wanted: Seq<char>,
) -> Verdict {
    version_verdict_from(records, 0, name, op, wanted)
}

/// The verdict of a predicate under what is known.
pub open spec fn verdict(p: Predicate, known: Knowledge) -> Verdict
    decreases p,
{
    match p {
        Predicate::Not(inner) => verdict(*inner, known).negated(),
        Predicate::Any(children) => any_of(child_verdicts(children, known)),
        Predicate::All(children) => all_of(child_verdicts(children, known)),
        Predicate::EnvExists { name } => if known.env.dom().contains(name) {
            Verdict::Decided(!(known.env[name] is Unset))
        } else {
            Verdict::Needs(Question::Env(name))
        },
        Predicate::EnvEquals { name, value } => if known.env.dom().contains(name) {
            Verdict::Decided(known.env[name] == Held::Text(value))
        } else {
            Verdict::Needs(Question::Env(name))
        },
        Predicate::CmdExists { name } => if known.commands.dom().contains(name) {
            Verdict::Decided(known.commands[name])
        } else {
            Verdict::Needs(Question::Command(name))
        },
        Predicate::DepExists { anchor, name } => if known.dependencies.dom().contains(anchor) {
            Verdict::Decided(has_dependency(known.dependencies[anchor], name))
        } else {
            Verdict::Needs(Question::Dependencies(anchor))
        },
        Predicate::DepEquals { anchor, name, version } => if known.dependencies.dom().contains(
            anchor,
        ) {
            version_verdict(known.dependencies[anchor], name, Operator::Eq, version)
        } else {
            Verdict::Needs(Question::Dependencies(anchor))
        },
        Predicate::DepSince { anchor, name, version } => if known.dependencies.dom().contains(
            anchor,
        ) {
            version_verdict(known.dependencies[anchor], name, Operator::Ge, version)
        } else {
            Verdict::Needs(Question::Dependencies(anchor))
        },
        Predicate::DepBefore { anchor, name, version } => if known.dependencies.dom().contains(
            anchor,
        ) {
            version_verdict(known.dependencies[anchor], name, Operator::Lt, version)
        } else {
            Verdict::Needs(Question::Dependencies(anchor))
        },
        Predicate::DepFromRegistry { anchor, name } => if known.dependencies.dom().contains(
            anchor,
        ) {
            Verdict::Decided(has_registry_dependency(known.dependencies[anchor], name))
        } else {
            Verdict::Needs(Question::Dependencies(anchor))
        },
    }
}

/// Whether some record carries this name.
pub fn find_dependency(records: &Vec<DependencyRecord>, name: &String) -> (r: bool)
    ensures
        r == has_dependency(dependencies_of(records@), name@),
{
    let ghost model = dependencies_of(records@);
    let mut i: usize = 0;
    while i < records.len()
        invariant
            i <= records.len(),
            model == dependencies_of(records@),
            forall|j: int| 0 <= j < i ==> (#[trigger] model[j]).name != name@,
        decreases records.len() - i,
    {
        if records[i].name == *name {
            assert(model[i as int].name == name@);
            return true;
        }
        i += 1;
    }
    false
}

/// Whether some record carries this name and comes from a registry.
pub fn find_registry_dependency(records: &Vec<DependencyRecord>, name: &String) -> (r: bool)
    ensures
        r == has_registry_dependency(dependencies_of(records@), name@),
{
    let ghost model = dependencies_of(records@);
    let mut i: usize = 0;
    while i < records.len()
        invariant
            i <= records.len(),
            model == dependencies_of(records@),
            forall|j: int|
                0 <= j < i ==> !((#[trigger] model[j]).name == name@ && from_registry(model[j])),
        decreases records.len() - i,
    {
        if records[i].name == *name {
            let registry = match &records[i].source {
                Some(source) => starts_with(source.as_str(), "registry+"),
                None => false,
            };
            assert(registry == from_registry(model[i as int]));
            if registry {
                return true;
            }
        }
        i += 1;
    }
    false
}

/// What the comparison of one record's version settles: a comparison that
/// could not be made fails the evaluation, one that holds decides `true`,
/// and one that does not hold settles nothing, so the next record is tried.
pub fn settle(answer: Option<bool>, found: &String, wanted: &String) -> (r: Option<Outcome>)
    ensures
        match answer {
            None => r matches Some(outcome) && outcome@ == (Verdict::Failed {
                found: found@,
                wanted: wanted@,
            }),
            Some(true) => r matches Some(outcome) && outcome@ == Verdict::Decided(true),
            Some(false) => r is None,
        },
{
    match answer {
        None => Some(Outcome::Failed { found: found.clone(), wanted: wanted.clone() }),
        Some(true) => Some(Outcome::Decided(true)),
        Some(false) => None,
    }
}

/// Tests the records of one name against a wanted version, in order.
pub fn test_version(
    records: &Vec<DependencyRecord>,
    name: &String,
    op: Operator,
    wanted: &String,
) -> (r: Outcome)
    ensures
        r@ == version_verdict(dependencies_of(records@), name@, op, wanted@),
{
    let ghost model = dependencies_of(records@);
    let mut i: usize = 0;
    while i < records.len()
        invariant
            i <= records.len(),
            model == dependencies_of(records@),
            version_verdict(model, name@, op, wanted@) == version_verdict_from(
                model,
                i as int,
                name@,
                op,
                wanted@,
            ),
        decreases records.len() - i,
    {
        assert(model[i as int] == records@[i as int]@);
        if records[i].name == *name {
            let answer = compare(records[i].version.as_str(), op, wanted.as_str());
            match settle(answer, &records[i].version, wanted) {
                Some(outcome) => {
                    return outcome;
                },
                None => {},
            }
        }
        i += 1;
    }
    Outcome::Decided(false)
}

/// The verdicts of the children of a compound predicate, in order.
pub open spec fn child_verdicts(children: Seq<Predicate>, known: Knowledge) -> Seq<Verdict>
    decreases children,
{
    Seq::new(
        children.len(),
        |i: int|
            if 0 <= i < children.len() {
                verdict(children[i], known)
            } else {
                arbitrary()
            },
    )
}

impl Expr {
    /// Evaluates the predicate against the recorded facts.
    ///
    /// Children of `any` and `all` are taken from left to right and only as
    /// far as needed, so a question is asked only where the value depends on
    /// it, and never when its answer is already recorded.
    pub fn eval(&self, facts: &Facts) -> (r: Outcome)
        ensures
            r@ == verdict(self@, facts@),
            r@ matches Verdict::Needs(q) ==> !facts@.knows(q),
        decreases self,
    {
        proof {
            lemma_needs_unknown(self@, facts@);
        }
        match self {
            Expr::Not(inner) => match inner.eval(facts) {
                Outcome::Decided(b) => Outcome::Decided(!b),
                other => other,
            },
            Expr::Any(children) => {
                let ghost verdicts = child_verdicts(self@->Any_0, facts@);
                let mut i: usize = 0;
                while i < children.len()
                    invariant
                        i <= children.len(),
                        self == Expr::Any(*children),
                        verdicts == child_verdicts(self@->Any_0, facts@),
                        any_of(verdicts) == first_unlike_from(verdicts, i as int, false),
                    decreases children.len() - i,
                {
                    let r = children[i].eval(facts);
                    assert(r@ == verdicts[i as int]);
                    match r {
                        Outcome::Decided(false) => {},
                        other => {
                            return other;
                        },
                    }
                    i += 1;
                }
                Outcome::Decided(false)
            },
            Expr::All(children) => {
                let ghost verdicts = child_verdicts(self@->All_0, facts@);
                let mut i: usize = 0;
                while i < children.len()
                    invariant
                        i <= children.len(),
                        self == Expr::All(*children),
                        verdicts == child_verdicts(self@->All_0, facts@),
                        all_of(verdicts) == first_unlike_from(verdicts, i as int, true),
                    decreases children.len() - i,
                {
                    let r = children[i].eval(facts);
                    assert(r@ == verdicts[i as int]);
                    match r {
                        Outcome::Decided(true) => {},
                        other => {
                            return other;
                        },
                    }
                    i += 1;
                }
                Outcome::Decided(true)
            },
            Expr::EnvExists { name } => match facts.env(name.as_str()) {
                Some(Setting::Unset) => Outcome::Decided(false),
                Some(_) => Outcome::Decided(true),
                None => Outcome::Needs(Query::Env(name.clone())),
            },
            Expr::EnvEquals { name, value } => match facts.env(name.as_str()) {
                Some(Setting::Text(actual)) => Outcome::Decided(*actual == *value),
                Some(_) => Outcome::Decided(false),
                None => Outcome::Needs(Query::Env(name.clone())),
            },
            Expr::CmdExists { name } => match facts.command(name.as_str()) {
                Some(found) => Outcome::Decided(found),
                None => Outcome::Needs(Query::Command(name.clone())),
            },
            Expr::DepExists { anchor, name } => match facts.dependencies(anchor.as_str()) {
                Some(records) => Outcome::Decided(find_dependency(records, name)),
                None => Outcome::Needs(Query::Dependencies(anchor.clone())),
            },
            Expr::DepEquals { anchor, name, version } => match facts.dependencies(
                anchor.as_str(),
            ) {
                Some(records) => test_version(records, name, Operator::Eq, version),
                None => Outcome::Needs(Query::Dependencies(anchor.clone())),
            },
            Expr::DepSince { anchor, name, version } => match facts.dependencies(
                anchor.as_str(),
            ) {
                Some(records) => test_version(records, name, Operator::Ge, version),
                None => Outcome::Needs(Query::Dependencies(anchor.clone())),
            },
            Expr::DepBefore { anchor, name, version } => match facts.dependencies(
                anchor.as_str(),
            ) {
                Some(records) => test_version(records, name, Operator::Lt, version),
                None => Outcome::Needs(Query::Dependencies(anchor.clone())),
            },
            Expr::DepFromRegistry { anchor, name } => match facts.dependencies(anchor.as_str()) {
                Some(records) => Outcome::Decided(find_registry_dependency(records, name)),
                None => Outcome::Needs(Query::Dependencies(anchor.clone())),
            },
        }
    }
}

/// A verdict found by [`first_unlike_from`] is one of the given verdicts,
/// unless it is the neutral value.
pub proof fn lemma_first_unlike_is_member(verdicts: Seq<Verdict>, from: int, neutral: bool)
    requires
        0 <= from,
    ensures
        first_unlike_from(verdicts, from, neutral) == Verdict::Decided(neutral) || exists|i: int|
            from <= i < verdicts.len() && verdicts[i] == first_unlike_from(verdicts, from, neutral),
    decreases verdicts.len() - from,
{
    if from < verdicts.len() && verdicts[from] == Verdict::Decided(neutral) {
        lemma_first_unlike_is_member(verdicts, from + 1, neutral);
    }
}

/// A version test never asks a question.
pub proof fn lemma_version_verdict_asks_nothing(
    records: Seq<Dependency>,
    from: int,
    name: Seq<char>,
    op: Operator,
    wanted: Seq<char>,
)
    ensures
        !(version_verdict_from(records, from, name, op, wanted) is Needs),
    decreases records.len() - from,
{
    if 0 <= from < records.len() {
        lemma_version_verdict_asks_nothing(records, from + 1, name, op, wanted);
    }
}

/// Whether a verdict, if it asks a question, asks one without an answer.
pub open spec fn asks_unknown(v: Verdict, known: Knowledge) -> bool {
    v matches Verdict::Needs(q) ==> !known.knows(q)
}

/// An evaluation asks only for what is not known: once an answer is
/// recorded, no evaluation against those facts asks for it again.
pub proof fn lemma_needs_unknown(p: Predicate, known: Knowledge)
    ensures
        asks_unknown(verdict(p, known), known),
    decreases p,
{
    match p {
        Predicate::Not(inner) => {
            lemma_needs_unknown(*inner, known);
        },
        Predicate::Any(children) => {
            let verdicts = child_verdicts(children, known);
            lemma_first_unlike_is_member(verdicts, 0, false);
            assert forall|i: int| 0 <= i < children.len() implies asks_unknown(
                #[trigger] verdicts[i],
                known,
            ) by {
                lemma_needs_unknown(children[i], known);
            }
        },
        Predicate::All(children) => {
            let verdicts = child_verdicts(children, known);
            lemma_first_unlike_is_member(verdicts, 0, true);
            assert forall|i: int| 0 <= i < children.len() implies asks_unknown(
                #[trigger] verdicts[i],
                known,
            ) by {
                lemma_needs_unknown(children[i], known);
            }
        },
        Predicate::DepEquals { anchor, name, version } => {
            if known.dependencies.dom().contains(anchor) {
                lemma_version_verdict_asks_nothing(
                    known.dependencies[anchor],
                    0,
                    name,
                    Operator::Eq,
                    version,
                );
            }
        },
        Predicate::DepSince { anchor, name, version } => {
            if known.dependencies.dom().contains(anchor) {
                lemma_version_verdict_asks_nothing(
                    known.dependencies[anchor],
                    0,
                    name,
                    Operator::Ge,
                    version,
                );
            }
        },
        Predicate::DepBefore { anchor, name, version } => {
            if known.dependencies.dom().contains(anchor) {
                lemma_version_verdict_asks_nothing(
                    known.dependencies[anchor],
                    0,
                    name,
                    Operator::Lt,
                    version,
                );
            }
        },
        _ => {},
    }
}

/// An answer is asked for at most once: once a question is answered, no
/// evaluation of any predicate asks it again, however many more answers are
/// recorded in between.
pub proof fn lemma_answered_is_never_asked(
    p: Predicate,
    q: Question,
    known: Knowledge,
    later: Knowledge,
)
    requires
        known.knows(q),
        known.within(later),
    ensures
        verdict(p, later) != Verdict::Needs(q),
{
    lemma_needs_unknown(p, later);
}

/// Negation inverts: whenever a predicate has a value, its negation has the
/// opposite value; a question or a failure passes through unchanged.
pub proof fn lemma_not_inverts(p: Predicate, known: Knowledge)
    ensures
        verdict(Predicate::Not(Box::new(p)), known) == verdict(p, known).negated(),
        verdict(p, known) is Decided ==> verdict(Predicate::Not(Box::new(p)), known)
            == Verdict::Decided(!verdict(p, known)->Decided_0),
{
}

/// A disjunction of nothing is false and a conjunction of nothing is true,
/// whatever is known.
pub proof fn lemma_empty_any_all(known: Knowledge)
    ensures
        verdict(Predicate::Any(Seq::empty()), known) == Verdict::Decided(false),
        verdict(Predicate::All(Seq::empty()), known) == Verdict::Decided(true),
{
    assert(child_verdicts(Seq::<Predicate>::empty(), known).len() == 0);
}

/// [`first_unlike_from`] yields the opposite of the neutral value exactly
/// when some verdict is that opposite and all before it are neutral.
pub proof fn lemma_first_unlike_settles(verdicts: Seq<Verdict>, from: int, neutral: bool)
    requires
        0 <= from,
    ensures
        first_unlike_from(verdicts, from, neutral) == Verdict::Decided(!neutral) <==> exists|
            i: int,
        |
            from <= i < verdicts.len() && #[trigger] verdicts[i] == Verdict::Decided(!neutral)
                && forall|j: int| from <= j < i ==> verdicts[j] == Verdict::Decided(neutral),
    decreases verdicts.len() - from,
{
    if from < verdicts.len() {
        if verdicts[from] == Verdict::Decided(neutral) {
            lemma_first_unlike_settles(verdicts, from + 1, neutral);
            if first_unlike_from(verdicts, from, neutral) == Verdict::Decided(!neutral) {
                let i = choose|i: int|
                    from + 1 <= i < verdicts.len() && #[trigger] verdicts[i] == Verdict::Decided(
                        !neutral,
                    ) && forall|j: int| from + 1 <= j < i ==> verdicts[j] == Verdict::Decided(neutral);
                assert(forall|j: int| from <= j < i ==> verdicts[j] == Verdict::Decided(neutral));
            }
        } else if verdicts[from] == Verdict::Decided(!neutral) {
            assert(forall|j: int| from <= j < from ==> verdicts[j] == Verdict::Decided(neutral));
        }
    }
}

/// Where every verdict is a decided value, [`first_unlike_from`] is
/// `Decided(neutral)` exactly when every value from `from` on is `neutral`.
pub proof fn lemma_first_unlike_decided(verdicts: Seq<Verdict>, from: int, neutral: bool)
    requires
        0 <= from,
        forall|i: int| 0 <= i < verdicts.len() ==> #[trigger] verdicts[i] is Decided,
    ensures
        first_unlike_from(verdicts, from, neutral) is Decided,
        first_unlike_from(verdicts, from, neutral) == Verdict::Decided(neutral) <==> forall|i: int|
            from <= i < verdicts.len() ==> #[trigger] verdicts[i] == Verdict::Decided(neutral),
    decreases verdicts.len() - from,
{
    if from < verdicts.len() {
        assert(verdicts[from] is Decided);
        if verdicts[from] == Verdict::Decided(neutral) {
            lemma_first_unlike_decided(verdicts, from + 1, neutral);
        }
    }
}

/// [`first_unlike_from`] yields the neutral value exactly when every
/// verdict from `from` on is that value.
pub proof fn lemma_first_unlike_neutral(verdicts: Seq<Verdict>, from: int, neutral: bool)
    requires
        0 <= from,
    ensures
        first_unlike_from(verdicts, from, neutral) == Verdict::Decided(neutral) <==> forall|i: int|
            from <= i < verdicts.len() ==> #[trigger] verdicts[i] == Verdict::Decided(neutral),
    decreases verdicts.len() - from,
{
    if from < verdicts.len() {
        if verdicts[from] == Verdict::Decided(neutral) {
            lemma_first_unlike_neutral(verdicts, from + 1, neutral);
        }
    }
}

/// A conjunction is true exactly when every child is true, and a
/// disjunction is false exactly when every child is false.
pub proof fn lemma_all_true_any_false(children: Seq<Predicate>, known: Knowledge)
    ensures
        verdict(Predicate::All(children), known) == Verdict::Decided(true) <==> forall|i: int|
            0 <= i < children.len() ==> #[trigger] verdict(children[i], known) == Verdict::Decided(
                true,
            ),
        verdict(Predicate::Any(children), known) == Verdict::Decided(false) <==> forall|i: int|
            0 <= i < children.len() ==> #[trigger] verdict(children[i], known) == Verdict::Decided(
                false,
            ),
{
    let verdicts = child_verdicts(children, known);
    lemma_first_unlike_neutral(verdicts, 0, true);
    lemma_first_unlike_neutral(verdicts, 0, false);
    if forall|i: int|
        0 <= i < children.len() ==> #[trigger] verdict(children[i], known) == Verdict::Decided(true) {
        assert forall|i: int| 0 <= i < verdicts.len() implies #[trigger] verdicts[i]
            == Verdict::Decided(true) by {
            assert(verdict(children[i], known) == Verdict::Decided(true));
        }
    }
    if forall|i: int|
        0 <= i < children.len() ==> #[trigger] verdict(children[i], known) == Verdict::Decided(
            false,
        ) {
        assert forall|i: int| 0 <= i < verdicts.len() implies #[trigger] verdicts[i]
            == Verdict::Decided(false) by {
            assert(verdict(children[i], known) == Verdict::Decided(false));
        }
    }
    if verdict(Predicate::All(children), known) == Verdict::Decided(true) {
        assert forall|i: int| 0 <= i < children.len() implies #[trigger] verdict(
            children[i],
            known,
        ) == Verdict::Decided(true) by {
            assert(verdicts[i] == Verdict::Decided(true));
        }
    }
    if verdict(Predicate::Any(children), known) == Verdict::Decided(false) {
        assert forall|i: int| 0 <= i < children.len() implies #[trigger] verdict(
            children[i],
            known,
        ) == Verdict::Decided(false) by {
            assert(verdicts[i] == Verdict::Decided(false));
        }
    }
}

/// A disjunction is true exactly when one of its children is true and all
/// children before it are false.
pub proof fn lemma_any_true(children: Seq<Predicate>, known: Knowledge)
    ensures
        verdict(Predicate::Any(children), known) == Verdict::Decided(true) <==> exists|i: int|
            0 <= i < children.len() && #[trigger] verdict(children[i], known) == Verdict::Decided(
                true,
            ) && forall|j: int|
                0 <= j < i ==> verdict(children[j], known) == Verdict::Decided(false),
{
    let verdicts = child_verdicts(children, known);
    lemma_first_unlike_settles(verdicts, 0, false);
    if verdict(Predicate::Any(children), known) == Verdict::Decided(true) {
        let i = choose|i: int|
            0 <= i < verdicts.len() && #[trigger] verdicts[i] == Verdict::Decided(true)
                && forall|j: int| 0 <= j < i ==> verdicts[j] == Verdict::Decided(false);
        assert(verdict(children[i], known) == Verdict::Decided(true));
        assert forall|j: int| 0 <= j < i implies verdict(children[j], known) == Verdict::Decided(
            false,
        ) by {
            assert(verdicts[j] == Verdict::Decided(false));
        }
    }
    if exists|i: int|
        0 <= i < children.len() && #[trigger] verdict(children[i], known) == Verdict::Decided(true)
            && forall|j: int| 0 <= j < i ==> verdict(children[j], known) == Verdict::Decided(false) {
        let i = choose|i: int|
            0 <= i < children.len() && #[trigger] verdict(children[i], known) == Verdict::Decided(
                true,
            ) && forall|j: int|
                0 <= j < i ==> verdict(children[j], known) == Verdict::Decided(false);
        assert(verdicts[i] == Verdict::Decided(true));
        assert forall|j: int| 0 <= j < i implies verdicts[j] == Verdict::Decided(false) by {
            assert(verdict(children[j], known) == Verdict::Decided(false));
        }
    }
}

/// A conjunction is false exactly when one of its children is false and all
/// children before it are true.
pub proof fn lemma_all_false(children: Seq<Predicate>, known: Knowledge)
    ensures
        verdict(Predicate::All(children), known) == Verdict::Decided(false) <==> exists|i: int|
            0 <= i < children.len() && #[trigger] verdict(children[i], known) == Verdict::Decided(
                false,
            ) && forall|j: int|
                0 <= j < i ==> verdict(children[j], known) == Verdict::Decided(true),
{
    let verdicts = child_verdicts(children, known);
    lemma_first_unlike_settles(verdicts, 0, true);
    if verdict(Predicate::All(children), known) == Verdict::Decided(false) {
        let i = choose|i: int|
            0 <= i < verdicts.len() && #[trigger] verdicts[i] == Verdict::Decided(false)
                && forall|j: int| 0 <= j < i ==> verdicts[j] == Verdict::Decided(true);
        assert(verdict(children[i], known) == Verdict::Decided(false));
        assert forall|j: int| 0 <= j < i implies verdict(children[j], known) == Verdict::Decided(
            true,
        ) by {
            assert(verdicts[j] == Verdict::Decided(true));
        }
    }
    if exists|i: int|
        0 <= i < children.len() && #[trigger] verdict(children[i], known) == Verdict::Decided(false)
            && forall|j: int| 0 <= j < i ==> verdict(children[j], known) == Verdict::Decided(true) {
        let i = choose|i: int|
            0 <= i < children.len() && #[trigger] verdict(children[i], known) == Verdict::Decided(
                false,
            ) && forall|j: int|
                0 <= j < i ==> verdict(children[j], known) == Verdict::Decided(true);
        assert(verdicts[i] == Verdict::Decided(false));
        assert forall|j: int| 0 <= j < i implies verdicts[j] == Verdict::Decided(true) by {
            assert(verdict(children[j], known) == Verdict::Decided(true));
        }
    }
}

/// Where every child has a value, a disjunction is true exactly when at
/// least one child is true, and a conjunction is true exactly when every
/// child is true.
pub proof fn lemma_any_all_of_decided(children: Seq<Predicate>, known: Knowledge)
    requires
        forall|i: int| 0 <= i < children.len() ==> #[trigger] verdict(children[i], known) is Decided,
    ensures
        verdict(Predicate::Any(children), known) == Verdict::Decided(
            exists|i: int|
                0 <= i < children.len() && #[trigger] verdict(children[i], known)
                    == Verdict::Decided(true),
        ),
        verdict(Predicate::All(children), known) == Verdict::Decided(
            forall|i: int|
                0 <= i < children.len() ==> #[trigger] verdict(children[i], known)
                    == Verdict::Decided(true),
        ),
{
    let verdicts = child_verdicts(children, known);
    assert forall|i: int| 0 <= i < verdicts.len() implies #[trigger] verdicts[i] is Decided by {
        assert(verdict(children[i], known) is Decided);
    }
    lemma_first_unlike_decided(verdicts, 0, false);
    lemma_first_unlike_decided(verdicts, 0, true);
    let some_true = exists|i: int|
        0 <= i < children.len() && #[trigger] verdict(children[i], known) == Verdict::Decided(true);
    let all_true = forall|i: int|
        0 <= i < children.len() ==> #[trigger] verdict(children[i], known) == Verdict::Decided(true);
    if some_true {
        let i = choose|i: int|
            0 <= i < children.len() && #[trigger] verdict(children[i], known) == Verdict::Decided(
                true,
            );
        assert(verdicts[i] == Verdict::Decided(true));
    } else {
        assert forall|i: int| 0 <= i < verdicts.len() implies #[trigger] verdicts[i]
            == Verdict::Decided(false) by {
            assert(verdict(children[i], known) is Decided);
            assert(verdict(children[i], known) != Verdict::Decided(true));
        }
    }
    if all_true {
        assert forall|i: int| 0 <= i < verdicts.len() implies #[trigger] verdicts[i]
            == Verdict::Decided(true) by {
            assert(verdict(children[i], known) == Verdict::Decided(true));
        }
    } else {
        let i = choose|i: int|
            0 <= i < children.len() && #[trigger] verdict(children[i], known) != Verdict::Decided(
                true,
            );
        assert(verdicts[i] != Verdict::Decided(true));
    }
}

/// Whether the record at `i` carries the name and its version satisfies
/// the operator against the wanted version.
pub open spec fn satisfies_at(
    records: Seq<Dependency>,
    i: int,
    name: Seq<char>,
    op: Operator,
    wanted: Seq<char>,
) -> bool {
    0 <= i < records.len() && records[i].name == name && compared(records[i].version, op, wanted)
        == Some(true)
}

/// Whether the version of every record of this name can be compared with
/// the wanted version.
pub open spec fn comparable(records: Seq<Dependency>, name: Seq<char>, wanted: Seq<char>) -> bool {
    forall|i: int|
        0 <= i < records.len() && (#[trigger] records[i]).name == name ==> compared(
            records[i].version,
            Operator::Eq,
            wanted,
        ) is Some
}

/// Where every version of the name can be compared, a version test holds
/// exactly when some record of that name satisfies the operator.
pub proof fn lemma_version_verdict_of_comparable(
    records: Seq<Dependency>,
    from: int,
    name: Seq<char>,
    op: Operator,
    wanted: Seq<char>,
)
    requires
        0 <= from,
        comparable(records, name, wanted),
    ensures
        version_verdict_from(records, from, name, op, wanted) == Verdict::Decided(
            exists|i: int| from <= i && #[trigger] satisfies_at(records, i, name, op, wanted),
        ),
    decreases records.len() - from,
{
    if from < records.len() {
        lemma_version_verdict_of_comparable(records, from + 1, name, op, wanted);
        let later = exists|i: int|
            from + 1 <= i && #[trigger] satisfies_at(records, i, name, op, wanted);
        let here = exists|i: int| from <= i && #[trigger] satisfies_at(records, i, name, op, wanted);
        if later {
            let i = choose|i: int|
                from + 1 <= i && #[trigger] satisfies_at(records, i, name, op, wanted);
            assert(from <= i && satisfies_at(records, i, name, op, wanted));
        }
        if satisfies_at(records, from, name, op, wanted) {
            assert(here);
        } else if here {
            let i = choose|i: int| from <= i && #[trigger] satisfies_at(records, i, name, op, wanted);
            assert(from + 1 <= i);
        }
        if records[from].name == name {
            assert(compared(records[from].version, Operator::Eq, wanted) is Some);
        }
    }
}

/// Version tests are consistent: where one project depends on a package at
/// one version and another project on the same package at another, and
/// each version is at least the other, each equals the other.
pub proof fn lemma_since_both_ways_is_equal(
    known: Knowledge,
    first: Seq<char>,
    second: Seq<char>,
    one: Dependency,
    other: Dependency,
)
    requires
        one.name == other.name,
        known.dependencies.dom().contains(first),
        known.dependencies.dom().contains(second),
        known.dependencies[first] == seq![one],
        known.dependencies[second] == seq![other],
        verdict(
            Predicate::DepSince { anchor: first, name: one.name, version: other.version },
            known,
        ) == Verdict::Decided(true),
        verdict(
            Predicate::DepSince { anchor: second, name: one.name, version: one.version },
            known,
        ) == Verdict::Decided(true),
    ensures
        verdict(
            Predicate::DepEquals { anchor: first, name: one.name, version: other.version },
            known,
        ) == Verdict::Decided(true),
        verdict(
            Predicate::DepEquals { anchor: second, name: one.name, version: one.version },
            known,
        ) == Verdict::Decided(true),
{
    reveal_with_fuel(version_verdict_from, 3);
    assert(seq![one][0] == one);
    assert(seq![other][0] == other);
    lemma_ge_both_ways_is_eq(one.version, other.version);
}

/// A version test over records none of which carries the name is false.
pub proof fn lemma_version_verdict_without_name(
    records: Seq<Dependency>,
    from: int,
    name: Seq<char>,
    op: Operator,
    wanted: Seq<char>,
)
    requires
        0 <= from,
        !has_dependency(records, name),
    ensures
        version_verdict_from(records, from, name, op, wanted) == Verdict::Decided(false),
    decreases records.len() - from,
{
    if from < records.len() {
        assert(records[from].name != name);
        lemma_version_verdict_without_name(records, from + 1, name, op, wanted);
    }
}

/// Where a dependency does not exist, no version test on it holds: if
/// `dep(anchor, name)` is false then `dep(anchor, name, version)`,
/// `dep_since` and `dep_before` are false for every version, and so is
/// `dep_from_registry`. No comparison is made to find that out.
pub proof fn lemma_absent_dependency_fails_every_test(
    anchor: Seq<char>,
    name: Seq<char>,
    version: Seq<char>,
    known: Knowledge,
)
    requires
        verdict(Predicate::DepExists { anchor, name }, known) == Verdict::Decided(false),
    ensures
        verdict(Predicate::DepEquals { anchor, name, version }, known) == Verdict::Decided(false),
        verdict(Predicate::DepSince { anchor, name, version }, known) == Verdict::Decided(false),
        verdict(Predicate::DepBefore { anchor, name, version }, known) == Verdict::Decided(false),
        verdict(Predicate::DepFromRegistry { anchor, name }, known) == Verdict::Decided(false),
{
    let records = known.dependencies[anchor];
    lemma_version_verdict_without_name(records, 0, name, Operator::Eq, version);
    lemma_version_verdict_without_name(records, 0, name, Operator::Ge, version);
    lemma_version_verdict_without_name(records, 0, name, Operator::Lt, version);
}

/// Two lists of verdicts that agree wherever the first asks no question
/// settle alike, provided the first settles without a question.
pub proof fn lemma_first_unlike_agrees(a: Seq<Verdict>, b: Seq<Verdict>, from: int, neutral: bool)
    requires
        0 <= from,
        a.len() == b.len(),
        forall|i: int| 0 <= i < a.len() && !(#[trigger] a[i] is Needs) ==> b[i] == a[i],
        !(first_unlike_from(a, from, neutral) is Needs),
    ensures
        first_unlike_from(b, from, neutral) == first_unlike_from(a, from, neutral),
    decreases a.len() - from,
{
    if from < a.len() {
        if a[from] == Verdict::Decided(neutral) {
            lemma_first_unlike_agrees(a, b, from + 1, neutral);
        } else {
            assert(!(a[from] is Needs));
        }
    }
}

/// A verdict that asks no question is final: recording more answers never
/// changes a decided value or a failure.
pub proof fn lemma_more_facts_keep_verdict(p: Predicate, known: Knowledge, more: Knowledge)
    requires
        known.within(more),
        !(verdict(p, known) is Needs),
    ensures
        verdict(p, more) == verdict(p, known),
    decreases p,
{
    match p {
        Predicate::Not(inner) => {
            lemma_more_facts_keep_verdict(*inner, known, more);
        },
        Predicate::Any(children) => {
            let a = child_verdicts(children, known);
            let b = child_verdicts(children, more);
            assert forall|i: int| 0 <= i < a.len() && !(#[trigger] a[i] is Needs) implies b[i]
                == a[i] by {
                lemma_more_facts_keep_verdict(children[i], known, more);
            }
            lemma_first_unlike_agrees(a, b, 0, false);
        },
        Predicate::All(children) => {
            let a = child_verdicts(children, known);
            let b = child_verdicts(children, more);
            assert forall|i: int| 0 <= i < a.len() && !(#[trigger] a[i] is Needs) implies b[i]
                == a[i] by {
                lemma_more_facts_keep_verdict(children[i], known, more);
            }
            lemma_first_unlike_agrees(a, b, 0, true);
        },
        Predicate::EnvExists { name } => {
            assert(known.env.dom().contains(name));
        },
        Predicate::EnvEquals { name, value } => {
            assert(known.env.dom().contains(name));
        },
        Predicate::CmdExists { name } => {
            assert(known.commands.dom().contains(name));
        },
        Predicate::DepExists { anchor, name } => {
            assert(known.dependencies.dom().contains(anchor));
        },
        Predicate::DepEquals { anchor, name, version } => {
            assert(known.dependencies.dom().contains(anchor));
        },
        Predicate::DepSince { anchor, name, version } => {
            assert(known.dependencies.dom().contains(anchor));
        },
        Predicate::DepBefore { anchor, name, version } => {
            assert(known.dependencies.dom().contains(anchor));
        },
        Predicate::DepFromRegistry { anchor, name } => {
            assert(known.dependencies.dom().contains(anchor));
        },
    }
}

} // verus!
