//! What is known about the build environment: the answers collected so far
//! to the questions that predicates ask.
//!
//! Evaluation itself never touches the outside world. It reads a [`Facts`]
//! value and, where an answer is missing, says which [`Query`] has to be
//! answered first. Answers are recorded once and never replaced, so a
//! question is asked at most once over the life of a `Facts` value.
//!
//! The answers are kept in lists that are searched from the front. They are
//! short, one entry for each name that a predicate mentions, and what a
//! search returns is proved from the list itself, with nothing taken on
//! trust of a hasher or of an ordering of strings.

use vstd::prelude::*;
use crate::text::equal;

verus! {

/// One resolved dependency of a project.
#[derive(Debug)]
pub struct DependencyRecord {
    pub name: String,
    pub version: String,
    /// Where the package came from; `None` for a local path dependency.
    pub source: Option<String>,
}

/// The model of a [`DependencyRecord`].
pub ghost struct Dependency {
    pub name: Seq<char>,
    pub version: Seq<char>,
    pub source: Option<Seq<char>>,
}

impl View for DependencyRecord {
    type V = Dependency;

    open spec fn view(&self) -> Dependency {
        Dependency {
            name: self.name@,
            version: self.version@,
            source: match self.source {
                Some(s) => Some(s@),
                None => None,
            },
        }
    }
}

/// The models of a list of records, in order.
pub open spec fn dependencies_of(records: Seq<DependencyRecord>) -> Seq<Dependency> {
    Seq::new(records.len(), |i: int| records[i]@)
}

impl DependencyRecord {
    pub fn new(name: String, version: String, source: Option<String>) -> (r: DependencyRecord)
        ensures
            r.name == name,
            r.version == version,
            r.source == source,
    {
        DependencyRecord { name, version, source }
    }

    /// A copy of this record.
    pub fn duplicate(&self) -> (r: DependencyRecord)
        ensures
            r@ == self@,
    {
        let source = match &self.source {
            Some(s) => Some(s.clone()),
            None => None,
        };
        DependencyRecord { name: self.name.clone(), version: self.version.clone(), source }
    }
}

/// A question about the outside world that an evaluation depends on.
#[derive(Debug)]
pub enum Query {
    /// The value of an environment variable, if it is set.
    Env(String),
    /// Whether an executable of this name resolves on the search path.
    Command(String),
    /// The resolved dependencies of the project with this anchor name.
    Dependencies(String),
}

/// The model of a [`Query`].
pub ghost enum Question {
    Env(Seq<char>),
    Command(Seq<char>),
    Dependencies(Seq<char>),
}

impl View for Query {
    type V = Question;

    open spec fn view(&self) -> Question {
        match self {
            Query::Env(name) => Question::Env(name@),
            Query::Command(name) => Question::Command(name@),
            Query::Dependencies(anchor) => Question::Dependencies(anchor@),
        }
    }
}

/// What an environment variable holds.
#[derive(Debug)]
pub enum Setting {
    /// The variable is not set.
    Unset,
    /// The variable is set to this text.
    Text(String),
    /// The variable is set to a value that is not text: it exists, and it
    /// equals no text.
    NotText,
}

/// The model of a [`Setting`].
pub ghost enum Held {
    Unset,
    Text(Seq<char>),
    NotText,
}

impl View for Setting {
    type V = Held;

    open spec fn view(&self) -> Held {
        match self {
            Setting::Unset => Held::Unset,
            Setting::Text(value) => Held::Text(value@),
            Setting::NotText => Held::NotText,
        }
    }
}

/// The model of [`Facts`]: three partial maps from names to answers.
pub ghost struct Knowledge {
    /// For each variable asked about: what it holds.
    pub env: Map<Seq<char>, Held>,
    /// For each executable asked about: whether it resolves.
    pub commands: Map<Seq<char>, bool>,
    /// For each anchor asked about: its resolved dependencies, in order.
    pub dependencies: Map<Seq<char>, Seq<Dependency>>,
}

impl Knowledge {
    /// Nothing is known.
    pub open spec fn empty() -> Knowledge {
        Knowledge { env: Map::empty(), commands: Map::empty(), dependencies: Map::empty() }
    }

    /// Whether the answer to `q` is known.
    pub open spec fn knows(self, q: Question) -> bool {
        match q {
            Question::Env(name) => self.env.dom().contains(name),
            Question::Command(name) => self.commands.dom().contains(name),
            Question::Dependencies(anchor) => self.dependencies.dom().contains(anchor),
        }
    }

    /// Whether `other` holds every answer of `self`, unchanged.
    pub open spec fn within(self, other: Knowledge) -> bool {
        &&& self.env.submap_of(other.env)
        &&& self.commands.submap_of(other.commands)
        &&& self.dependencies.submap_of(other.dependencies)
    }
}

/// The map that a list of entries stands for: each key is bound to the
/// value of its first entry.
spec fn bindings<E, W>(
    entries: Seq<E>,
    key: spec_fn(E) -> Seq<char>,
    value: spec_fn(E) -> W,
) -> Map<Seq<char>, W>
    decreases entries.len(),
{
    if entries.len() == 0 {
        Map::empty()
    } else {
        let earlier = bindings(entries.drop_last(), key, value);
        let last = entries.last();
        if earlier.dom().contains(key(last)) {
            earlier
        } else {
            earlier.insert(key(last), value(last))
        }
    }
}

/// A binding made by a prefix of the entries is the binding of the whole.
proof fn lemma_bindings_keep<E, W>(
    entries: Seq<E>,
    key: spec_fn(E) -> Seq<char>,
    value: spec_fn(E) -> W,
    n: int,
    k: Seq<char>,
)
    requires
        0 <= n <= entries.len(),
        bindings(entries.take(n), key, value).dom().contains(k),
    ensures
        bindings(entries, key, value).dom().contains(k),
        bindings(entries, key, value)[k] == bindings(entries.take(n), key, value)[k],
    decreases entries.len() - n,
{
    if n == entries.len() {
        assert(entries.take(n) =~= entries);
    } else {
        assert(entries.take(n + 1).drop_last() =~= entries.take(n));
        lemma_bindings_keep(entries, key, value, n + 1, k);
    }
}

/// A key that no entry carries is unbound.
proof fn lemma_bindings_absent<E, W>(
    entries: Seq<E>,
    key: spec_fn(E) -> Seq<char>,
    value: spec_fn(E) -> W,
    k: Seq<char>,
)
    requires
        forall|i: int| 0 <= i < entries.len() ==> key(#[trigger] entries[i]) != k,
    ensures
        !bindings(entries, key, value).dom().contains(k),
    decreases entries.len(),
{
    if entries.len() > 0 {
        lemma_bindings_absent(entries.drop_last(), key, value, k);
    }
}

/// The first entry with key `k`, at index `i`, gives the binding of `k`.
proof fn lemma_bindings_first<E, W>(
    entries: Seq<E>,
    key: spec_fn(E) -> Seq<char>,
    value: spec_fn(E) -> W,
    i: int,
    k: Seq<char>,
)
    requires
        0 <= i < entries.len(),
        key(entries[i]) == k,
        forall|j: int| 0 <= j < i ==> key(#[trigger] entries[j]) != k,
    ensures
        bindings(entries, key, value).dom().contains(k),
        bindings(entries, key, value)[k] == value(entries[i]),
{
    lemma_bindings_absent(entries.take(i), key, value, k);
    assert(entries.take(i + 1).drop_last() =~= entries.take(i));
    lemma_bindings_keep(entries, key, value, i + 1, k);
}

/// The model of an optional string.
pub open spec fn text_of(value: Option<String>) -> Option<Seq<char>> {
    match value {
        Some(s) => Some(s@),
        None => None,
    }
}

struct EnvEntry {
    name: String,
    value: Setting,
}

struct CommandEntry {
    name: String,
    found: bool,
}

struct DependencyEntry {
    anchor: String,
    records: Vec<DependencyRecord>,
}

spec fn env_key() -> spec_fn(EnvEntry) -> Seq<char> {
    |e: EnvEntry| e.name@
}

spec fn env_value() -> spec_fn(EnvEntry) -> Held {
    |e: EnvEntry| e.value@
}

spec fn command_key() -> spec_fn(CommandEntry) -> Seq<char> {
    |e: CommandEntry| e.name@
}

spec fn command_value() -> spec_fn(CommandEntry) -> bool {
    |e: CommandEntry| e.found
}

spec fn dependency_key() -> spec_fn(DependencyEntry) -> Seq<char> {
    |e: DependencyEntry| e.anchor@
}

spec fn dependency_value() -> spec_fn(DependencyEntry) -> Seq<Dependency> {
    |e: DependencyEntry| dependencies_of(e.records@)
}

/// The answers collected so far. Its model is a [`Knowledge`].
pub struct Facts {
    env: Vec<EnvEntry>,
    commands: Vec<CommandEntry>,
    dependencies: Vec<DependencyEntry>,
}

impl View for Facts {
    type V = Knowledge;

    closed spec fn view(&self) -> Knowledge {
        Knowledge {
            env: bindings(self.env@, env_key(), env_value()),
            commands: bindings(self.commands@, command_key(), command_value()),
            dependencies: bindings(self.dependencies@, dependency_key(), dependency_value()),
        }
    }
}

impl Facts {
    /// Facts that hold no answer yet.
    pub fn new() -> (r: Facts)
        ensures
            r@ == Knowledge::empty(),
    {
        Facts { env: Vec::new(), commands: Vec::new(), dependencies: Vec::new() }
    }

    /// What is known of the environment variable `name`: `None` if it was
    /// never asked about, otherwise what it holds.
    pub fn env(&self, name: &str) -> (r: Option<&Setting>)
        ensures
            match r {
                Some(value) => self@.env.dom().contains(name@) && self@.env[name@] == value@,
                None => !self@.env.dom().contains(name@),
            },
    {
        let mut i: usize = 0;
        while i < self.env.len()
            invariant
                i <= self.env.len(),
                forall|j: int| 0 <= j < i ==> env_key()(#[trigger] self.env@[j]) != name@,
            decreases self.env.len() - i,
        {
            if equal(self.env[i].name.as_str(), name) {
                proof {
                    lemma_bindings_first(self.env@, env_key(), env_value(), i as int, name@);
                }
                return Some(&self.env[i].value);
            }
            i += 1;
        }
        proof {
            lemma_bindings_absent(self.env@, env_key(), env_value(), name@);
        }
        None
    }

    /// What is known of the executable `name`: `None` if it was never asked
    /// about, otherwise whether it resolves.
    pub fn command(&self, name: &str) -> (r: Option<bool>)
        ensures
            match r {
                Some(found) => self@.commands.dom().contains(name@) && self@.commands[name@]
                    == found,
                None => !self@.commands.dom().contains(name@),
            },
    {
        let mut i: usize = 0;
        while i < self.commands.len()
            invariant
                i <= self.commands.len(),
                forall|j: int| 0 <= j < i ==> command_key()(#[trigger] self.commands@[j]) != name@,
            decreases self.commands.len() - i,
        {
            if equal(self.commands[i].name.as_str(), name) {
                proof {
                    lemma_bindings_first(
                        self.commands@,
                        command_key(),
                        command_value(),
                        i as int,
                        name@,
                    );
                }
                return Some(self.commands[i].found);
            }
            i += 1;
        }
        proof {
            lemma_bindings_absent(self.commands@, command_key(), command_value(), name@);
        }
        None
    }

    /// What is known of the project `anchor`: `None` if it was never asked
    /// about, otherwise its resolved dependencies.
    pub fn dependencies(&self, anchor: &str) -> (r: Option<&Vec<DependencyRecord>>)
        ensures
            match r {
                Some(records) => self@.dependencies.dom().contains(anchor@)
                    && self@.dependencies[anchor@] == dependencies_of(records@),
                None => !self@.dependencies.dom().contains(anchor@),
            },
    {
        let mut i: usize = 0;
        while i < self.dependencies.len()
            invariant
                i <= self.dependencies.len(),
                forall|j: int|
                    0 <= j < i ==> dependency_key()(#[trigger] self.dependencies@[j]) != anchor@,
            decreases self.dependencies.len() - i,
        {
            if equal(self.dependencies[i].anchor.as_str(), anchor) {
                proof {
                    lemma_bindings_first(
                        self.dependencies@,
                        dependency_key(),
                        dependency_value(),
                        i as int,
                        anchor@,
                    );
                }
                return Some(&self.dependencies[i].records);
            }
            i += 1;
        }
        proof {
            lemma_bindings_absent(
                self.dependencies@,
                dependency_key(),
                dependency_value(),
                anchor@,
            );
        }
        None
    }

    /// Whether the answer to `query` has been recorded.
    pub fn knows(&self, query: &Query) -> (r: bool)
        ensures
            r == self@.knows(query@),
    {
        match query {
            Query::Env(name) => self.env(name.as_str()).is_some(),
            Query::Command(name) => self.command(name.as_str()).is_some(),
            Query::Dependencies(anchor) => self.dependencies(anchor.as_str()).is_some(),
        }
    }

    /// Records what an environment variable holds. An answer recorded
    /// earlier for the same name stays.
    pub fn record_env(&mut self, name: String, value: Setting)
        ensures
            final(self)@ == if old(self)@.env.dom().contains(name@) {
                old(self)@
            } else {
                Knowledge { env: old(self)@.env.insert(name@, value@), ..old(self)@ }
            },
            old(self)@.within(final(self)@),
    {
        if self.env(name.as_str()).is_none() {
            let ghost before = self.env@;
            self.env.push(EnvEntry { name, value });
            assert(self.env@.drop_last() =~= before);
        }
    }

    /// Records whether an executable resolves on the search path. An answer
    /// recorded earlier for the same name stays.
    pub fn record_command(&mut self, name: String, found: bool)
        ensures
            final(self)@ == if old(self)@.commands.dom().contains(name@) {
                old(self)@
            } else {
                Knowledge { commands: old(self)@.commands.insert(name@, found), ..old(self)@ }
            },
            old(self)@.within(final(self)@),
    {
        if self.command(name.as_str()).is_none() {
            let ghost before = self.commands@;
            self.commands.push(CommandEntry { name, found });
            assert(self.commands@.drop_last() =~= before);
        }
    }

    /// Records the resolved dependencies of a project. An answer recorded
    /// earlier for the same anchor stays.
    pub fn record_dependencies(&mut self, anchor: String, records: Vec<DependencyRecord>)
        ensures
            final(self)@ == if old(self)@.dependencies.dom().contains(anchor@) {
                old(self)@
            } else {
                Knowledge {
                    dependencies: old(self)@.dependencies.insert(
                        anchor@,
                        dependencies_of(records@),
                    ),
                    ..old(self)@
                }
            },
            old(self)@.within(final(self)@),
    {
        if self.dependencies(anchor.as_str()).is_none() {
            let ghost before = self.dependencies@;
            self.dependencies.push(DependencyEntry { anchor, records });
            assert(self.dependencies@.drop_last() =~= before);
        }
    }
}

/// What is known stays known: knowledge that holds every answer of an
/// earlier state knows every question that the earlier state knew.
pub proof fn lemma_known_stays_known(before: Knowledge, after: Knowledge, q: Question)
    requires
        before.within(after),
        before.knows(q),
    ensures
        after.knows(q),
{
}

/// Holding every answer of another state is transitive, so it carries
/// over any number of recordings.
pub proof fn lemma_within_chains(first: Knowledge, second: Knowledge, third: Knowledge)
    requires
        first.within(second),
        second.within(third),
    ensures
        first.within(third),
{
    vstd::map_lib::lemma_submap_of_trans(first.env, second.env, third.env);
    vstd::map_lib::lemma_submap_of_trans(first.commands, second.commands, third.commands);
    vstd::map_lib::lemma_submap_of_trans(
        first.dependencies,
        second.dependencies,
        third.dependencies,
    );
}

} // verus!
