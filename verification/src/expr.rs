//! The predicate tree and its mathematical model.

use vstd::prelude::*;

verus! {

/// The mathematical model of a predicate: the tree an [`Expr`] stands for,
/// with every string taken as its sequence of characters.
pub ghost enum Predicate {
    Not(Box<Predicate>),
    Any(Seq<Predicate>),
    All(Seq<Predicate>),
    EnvExists { name: Seq<char> },
    EnvEquals { name: Seq<char>, value: Seq<char> },
    CmdExists { name: Seq<char> },
    DepExists { anchor: Seq<char>, name: Seq<char> },
    DepEquals { anchor: Seq<char>, name: Seq<char>, version: Seq<char> },
    DepSince { anchor: Seq<char>, name: Seq<char>, version: Seq<char> },
    DepBefore { anchor: Seq<char>, name: Seq<char>, version: Seq<char> },
    DepFromRegistry { anchor: Seq<char>, name: Seq<char> },
}

/// A predicate over the build environment, as written by the user.
#[derive(Debug)]
pub enum Expr {
    Not(Box<Expr>),
    Any(Vec<Expr>),
    All(Vec<Expr>),
    EnvExists { name: String },
    EnvEquals { name: String, value: String },
    CmdExists { name: String },
    DepExists { anchor: String, name: String },
    DepEquals { anchor: String, name: String, version: String },
    DepSince { anchor: String, name: String, version: String },
    DepBefore { anchor: String, name: String, version: String },
    DepFromRegistry { anchor: String, name: String },
}

impl Expr {
    /// The predicate this tree stands for.
    pub open spec fn model(self) -> Predicate
        decreases self,
    {
        match self {
            Expr::Not(inner) => Predicate::Not(Box::new(inner.model())),
            Expr::Any(children) => Predicate::Any(
                Seq::new(
                    children@.len(),
                    |i: int|
                        if 0 <= i < children@.len() {
                            children@[i].model()
                        } else {
                            arbitrary()
                        },
                ),
            ),
            Expr::All(children) => Predicate::All(
                Seq::new(
                    children@.len(),
                    |i: int|
                        if 0 <= i < children@.len() {
                            children@[i].model()
                        } else {
                            arbitrary()
                        },
                ),
            ),
            Expr::EnvExists { name } => Predicate::EnvExists { name: name@ },
            Expr::EnvEquals { name, value } => Predicate::EnvEquals { name: name@, value: value@ },
            Expr::CmdExists { name } => Predicate::CmdExists { name: name@ },
            Expr::DepExists { anchor, name } => Predicate::DepExists { anchor: anchor@, name: name@ },
            Expr::DepEquals { anchor, name, version } => Predicate::DepEquals {
                anchor: anchor@,
                name: name@,
                version: version@,
            },
            Expr::DepSince { anchor, name, version } => Predicate::DepSince {
                anchor: anchor@,
                name: name@,
                version: version@,
            },
            Expr::DepBefore { anchor, name, version } => Predicate::DepBefore {
                anchor: anchor@,
                name: name@,
                version: version@,
            },
            Expr::DepFromRegistry { anchor, name } => Predicate::DepFromRegistry {
                anchor: anchor@,
                name: name@,
            },
        }
    }
}

impl View for Expr {
    type V = Predicate;

    open spec fn view(&self) -> Predicate {
        self.model()
    }
}

} // verus!
