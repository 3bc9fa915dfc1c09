//! The baked table: every resolved package of a program, sorted and
//! without duplicates, fixed before any predicate is evaluated.
//!
//! The packages come from a lock file, a TOML document with one table per
//! package in the array `package`. The `toml` crate reads the document;
//! which keys are read and what they must hold is decided here. That crate
//! descends into nested arrays, inline tables and dotted keys by recursion
//! without a limit of its own, so a text is measured first and one that
//! nests too deeply is turned away unread.

use vstd::prelude::*;
use crate::facts::{Dependency, DependencyRecord, Facts, Knowledge, dependencies_of};
use crate::text::{Rank, chars_of, lemma_rank_chains, lemma_rank_flips, lemma_text_rank_same, rank_text, text_rank};

verus! {

/// The rank of two optional texts: an absent one comes first.
pub open spec fn source_rank(a: Option<Seq<char>>, b: Option<Seq<char>>) -> Rank {
    match (a, b) {
        (None, None) => Rank::Same,
        (None, Some(_)) => Rank::Before,
        (Some(_), None) => Rank::After,
        (Some(x), Some(y)) => text_rank(x, y),
    }
}

/// The rank of two records: by name, then by version, then by source.
pub open spec fn record_rank(a: Dependency, b: Dependency) -> Rank {
    text_rank(a.name, b.name).or(text_rank(a.version, b.version)).or(
        source_rank(a.source, b.source),
    )
}

/// Two records rank the same exactly when they are the same record.
pub proof fn lemma_record_rank_same(a: Dependency, b: Dependency)
    ensures
        record_rank(a, b) == Rank::Same <==> a == b,
{
    lemma_text_rank_same(a.name, b.name);
    lemma_text_rank_same(a.version, b.version);
    if a.source is Some && b.source is Some {
        lemma_text_rank_same(a.source->0, b.source->0);
    }
}

/// Exchanging two records flips their rank.
pub proof fn lemma_record_rank_flips(a: Dependency, b: Dependency)
    ensures
        record_rank(b, a) == record_rank(a, b).flipped(),
{
    lemma_rank_flips(a.name, b.name, 0);
    lemma_rank_flips(a.version, b.version, 0);
    if a.source is Some && b.source is Some {
        lemma_rank_flips(a.source->0, b.source->0, 0);
    }
}

/// The order of optional texts is transitive.
pub proof fn lemma_source_rank_chains(
    a: Option<Seq<char>>,
    b: Option<Seq<char>>,
    c: Option<Seq<char>>,
)
    requires
        source_rank(a, b) != Rank::After,
        source_rank(b, c) != Rank::After,
    ensures
        source_rank(a, c) != Rank::After,
        source_rank(a, c) == Rank::Same ==> source_rank(a, b) == Rank::Same && source_rank(b, c)
            == Rank::Same,
{
    if a is Some && b is Some && c is Some {
        lemma_rank_chains(a->0, b->0, c->0, 0);
    }
}

/// A record before a record that is before a third is before the third.
pub proof fn lemma_record_rank_chains(a: Dependency, b: Dependency, c: Dependency)
    requires
        record_rank(a, b) == Rank::Before,
        record_rank(b, c) == Rank::Before,
    ensures
        record_rank(a, c) == Rank::Before,
{
    lemma_rank_chains(a.name, b.name, c.name, 0);
    if text_rank(a.name, b.name) == Rank::Same && text_rank(b.name, c.name) == Rank::Same {
        lemma_rank_chains(a.version, b.version, c.version, 0);
        if text_rank(a.version, b.version) == Rank::Same && text_rank(b.version, c.version)
            == Rank::Same {
            lemma_source_rank_chains(a.source, b.source, c.source);
        }
    }
}

/// Ranks two records: by name, then by version, then by source.
pub fn rank_records(a: &DependencyRecord, b: &DependencyRecord) -> (r: Rank)
    ensures
        r == record_rank(a@, b@),
{
    match rank_text(a.name.as_str(), b.name.as_str()) {
        Rank::Same => {},
        other => {
            return other;
        },
    }
    match rank_text(a.version.as_str(), b.version.as_str()) {
        Rank::Same => {},
        other => {
            return other;
        },
    }
    match (&a.source, &b.source) {
        (None, None) => Rank::Same,
        (None, Some(_)) => Rank::Before,
        (Some(_), None) => Rank::After,
        (Some(x), Some(y)) => rank_text(x.as_str(), y.as_str()),
    }
}

/// Whether the records stand in strictly rising order: sorted, and no
/// record twice.
pub open spec fn rising(records: Seq<Dependency>) -> bool {
    forall|i: int, j: int|
        0 <= i < j < records.len() ==> record_rank(#[trigger] records[i], #[trigger] records[j])
            == Rank::Before
}

/// Whether two lists hold the same records, in whatever order and however
/// often.
pub open spec fn same_records(a: Seq<Dependency>, b: Seq<Dependency>) -> bool {
    forall|d: Dependency| a.contains(d) <==> b.contains(d)
}

/// The first record of a rising list is the first record of every rising
/// list of the same records.
proof fn lemma_rising_heads_agree(a: Seq<Dependency>, b: Seq<Dependency>)
    requires
        rising(a),
        rising(b),
        same_records(a, b),
        a.len() > 0,
    ensures
        b.len() > 0,
        a[0] == b[0],
{
    assert(a.contains(a[0]));
    assert(b.contains(a[0]));
    let j = choose|j: int| 0 <= j < b.len() && b[j] == a[0];
    assert(b.contains(b[0]));
    assert(a.contains(b[0]));
    let i = choose|i: int| 0 <= i < a.len() && a[i] == b[0];
    lemma_record_rank_same(a[0], a[0]);
    if j > 0 {
        assert(record_rank(b[0], b[j]) == Rank::Before);
        if i > 0 {
            assert(record_rank(a[0], a[i]) == Rank::Before);
            lemma_record_rank_chains(a[0], b[0], a[0]);
        }
    }
}

/// A table is determined by the records it holds: two rising lists of the
/// same records are the same list.
pub proof fn lemma_rising_is_unique(a: Seq<Dependency>, b: Seq<Dependency>)
    requires
        rising(a),
        rising(b),
        same_records(a, b),
    ensures
        a == b,
    decreases a.len(),
{
    if a.len() == 0 {
        if b.len() > 0 {
            assert(b.contains(b[0]));
            assert(a.contains(b[0]));
        }
        assert(a =~= b);
    } else {
        lemma_rising_heads_agree(a, b);
        let x = a.drop_first();
        let y = b.drop_first();
        assert forall|d: Dependency| x.contains(d) <==> y.contains(d) by {
            if x.contains(d) {
                let i = choose|i: int| 0 <= i < x.len() && x[i] == d;
                assert(a[i + 1] == d);
                assert(a.contains(d));
                assert(b.contains(d));
                let k = choose|k: int| 0 <= k < b.len() && b[k] == d;
                assert(record_rank(a[0], a[i + 1]) == Rank::Before);
                lemma_record_rank_same(a[0], d);
                assert(y[k - 1] == d);
            }
            if y.contains(d) {
                let i = choose|i: int| 0 <= i < y.len() && y[i] == d;
                assert(b[i + 1] == d);
                assert(b.contains(d));
                assert(a.contains(d));
                let k = choose|k: int| 0 <= k < a.len() && a[k] == d;
                assert(record_rank(b[0], b[i + 1]) == Rank::Before);
                lemma_record_rank_same(b[0], d);
                assert(x[k - 1] == d);
            }
        }
        assert forall|i: int, j: int| 0 <= i < j < x.len() implies record_rank(
            #[trigger] x[i],
            #[trigger] x[j],
        ) == Rank::Before by {
            assert(x[i] == a[i + 1] && x[j] == a[j + 1]);
        }
        assert forall|i: int, j: int| 0 <= i < j < y.len() implies record_rank(
            #[trigger] y[i],
            #[trigger] y[j],
        ) == Rank::Before by {
            assert(y[i] == b[i + 1] && y[j] == b[j + 1]);
        }
        lemma_rising_is_unique(x, y);
        assert(a =~= seq![a[0]] + x);
        assert(b =~= seq![b[0]] + y);
    }
}

/// Puts a record into a table at its place, unless it is there already.
fn place(table: &mut Vec<DependencyRecord>, record: DependencyRecord)
    requires
        rising(dependencies_of(old(table)@)),
    ensures
        rising(dependencies_of(final(table)@)),
        forall|d: Dependency|
            dependencies_of(final(table)@).contains(d) <==> (dependencies_of(
                old(table)@,
            ).contains(d) || d == record@),
{
    let ghost before = dependencies_of(table@);
    let ghost x = record@;
    let mut at: usize = 0;
    while at < table.len()
        invariant
            at <= table.len(),
            table@ == old(table)@,
            before == dependencies_of(table@),
            x == record@,
            rising(before),
            forall|k: int| 0 <= k < at ==> record_rank(#[trigger] before[k], x) == Rank::Before,
        ensures
            at < table.len() ==> record_rank(before[at as int], x) == Rank::After,
        decreases table.len() - at,
    {
        assert(before[at as int] == table@[at as int]@);
        match rank_records(&table[at], &record) {
            Rank::Before => {},
            Rank::Same => {
                proof {
                    lemma_record_rank_same(before[at as int], x);
                    assert(before.contains(x));
                }
                return ;
            },
            Rank::After => {
                break ;
            },
        }
        at += 1;
    }
    proof {
        assert forall|k: int| at <= k < before.len() implies record_rank(x, #[trigger] before[k])
            == Rank::Before by {
            lemma_record_rank_flips(before[at as int], x);
            assert(record_rank(x, before[at as int]) == Rank::Before);
            if k > at {
                lemma_record_rank_chains(x, before[at as int], before[k]);
            }
        }
        assert forall|k: int| 0 <= k < at implies record_rank(#[trigger] before[k], x)
            == Rank::Before by {}
    }
    table.insert(at, record);
    proof {
        let after = dependencies_of(table@);
        assert(after =~= before.insert(at as int, x));
        assert forall|i: int, j: int| 0 <= i < j < after.len() implies record_rank(
            #[trigger] after[i],
            #[trigger] after[j],
        ) == Rank::Before by {
            let oi = if i < at { i } else { i - 1 };
            let oj = if j < at { j } else { j - 1 };
            if i == at {
                assert(after[j] == before[oj]);
            } else if j == at {
                assert(after[i] == before[oi]);
            } else {
                assert(after[i] == before[oi]);
                assert(after[j] == before[oj]);
            }
        }
        assert forall|d: Dependency| after.contains(d) <==> (before.contains(d) || d == x) by {
            if after.contains(d) {
                let i = choose|i: int| 0 <= i < after.len() && after[i] == d;
                if i < at {
                    assert(before[i] == d);
                } else if i > at {
                    assert(before[i - 1] == d);
                }
            }
            if before.contains(d) {
                let i = choose|i: int| 0 <= i < before.len() && before[i] == d;
                if i < at {
                    assert(after[i] == d);
                } else {
                    assert(after[i + 1] == d);
                }
            }
            if d == x {
                assert(after[at as int] == d);
            }
        }
    }
}

/// Bakes the table: the given records in rising order, each once.
pub fn bake(packages: Vec<DependencyRecord>) -> (table: Vec<DependencyRecord>)
    ensures
        rising(dependencies_of(table@)),
        same_records(dependencies_of(packages@), dependencies_of(table@)),
{
    let ghost given = dependencies_of(packages@);
    let mut table: Vec<DependencyRecord> = Vec::new();
    let mut i: usize = 0;
    while i < packages.len()
        invariant
            i <= packages.len(),
            given == dependencies_of(packages@),
            rising(dependencies_of(table@)),
            forall|d: Dependency|
                dependencies_of(table@).contains(d) <==> given.take(i as int).contains(d),
        decreases packages.len() - i,
    {
        let ghost before = dependencies_of(table@);
        let record = packages[i].duplicate();
        place(&mut table, record);
        proof {
            let after = dependencies_of(table@);
            let x = given[i as int];
            let shorter = given.take(i as int);
            let longer = given.take(i + 1);
            assert(longer =~= shorter.push(x));
            assert forall|d: Dependency| after.contains(d) <==> longer.contains(d) by {
                if longer.contains(d) {
                    let k = choose|k: int| 0 <= k < longer.len() && longer[k] == d;
                    if k < i {
                        assert(shorter[k] == d);
                    }
                }
                if shorter.contains(d) {
                    let k = choose|k: int| 0 <= k < shorter.len() && shorter[k] == d;
                    assert(longer[k] == d);
                }
                if d == x {
                    assert(longer[i as int] == d);
                }
            }
        }
        i += 1;
    }
    assert(given.take(packages@.len() as int) =~= given);
    table
}

/// How deep a document may nest: brackets and braces left open plus the
/// periods of one line.
pub const NESTING_LIMIT: usize = 64;

/// What a scan of a document has seen so far.
pub ghost struct Progress {
    /// Brackets and braces opened and not known to be closed.
    pub open: int,
    /// Periods on the current line.
    pub dots: int,
    /// How many quotes of one kind directly precede, up to three.
    pub run: int,
    /// The kind of those quotes.
    pub quote: char,
    /// Whether the current line holds no quote and no `#` so far.
    pub plain: bool,
    /// Whether three quotes in a row have been seen, after which a string
    /// may run over several lines.
    pub sealed: bool,
}

/// The scan before the first character.
pub open spec fn beginning() -> Progress {
    Progress { open: 0, dots: 0, run: 0, quote: '"', plain: true, sealed: false }
}

/// The scan after one more character.
///
/// Every opening bracket or brace counts, wherever it stands. A closing one
/// is taken off only where it cannot stand inside a string or a comment:
/// on a line without a quote or `#` before it, in a text without three
/// quotes in a row before it. Every period counts for its line. The count
/// is thus never below the nesting that a reader of the document is in.
pub open spec fn advance(p: Progress, c: char) -> Progress {
    if c == '\n' {
        Progress { dots: 0, run: 0, plain: true, ..p }
    } else if c == '"' || c == '\'' {
        let run = if p.run > 0 && p.quote == c {
            if p.run >= 3 {
                3
            } else {
                p.run + 1
            }
        } else {
            1
        };
        Progress { run, quote: c, plain: false, sealed: p.sealed || run >= 3, ..p }
    } else if c == '#' {
        Progress { run: 0, plain: false, ..p }
    } else if c == '.' {
        Progress { run: 0, dots: p.dots + 1, ..p }
    } else if c == '[' || c == '{' {
        Progress { run: 0, open: p.open + 1, ..p }
    } else if (c == ']' || c == '}') && p.plain && !p.sealed && p.open > 0 {
        Progress { run: 0, open: p.open - 1, ..p }
    } else {
        Progress { run: 0, ..p }
    }
}

/// Whether the scan goes beyond the limit somewhere from position `from`
/// on.
pub open spec fn too_deep_from(text: Seq<char>, from: int, p: Progress) -> bool
    decreases text.len() - from,
{
    if from < 0 || from >= text.len() {
        false
    } else {
        let next = advance(p, text[from]);
        next.open + next.dots > NESTING_LIMIT || too_deep_from(text, from + 1, next)
    }
}

/// Whether a document nests more deeply than the limit allows.
pub open spec fn too_deep(text: Seq<char>) -> bool {
    too_deep_from(text, 0, beginning())
}

/// Measures a document: whether it nests more deeply than the limit
/// allows.
pub fn nests_too_deep(text: &str) -> (r: bool)
    ensures
        r == too_deep(text@),
{
    let chars = chars_of(text);
    let mut open: usize = 0;
    let mut dots: usize = 0;
    let mut run: usize = 0;
    let mut quote: char = '"';
    let mut plain: bool = true;
    let mut sealed: bool = false;
    let ghost mut p = beginning();
    let mut i: usize = 0;
    while i < chars.len()
        invariant
            i <= chars.len(),
            chars@ == text@,
            p == (Progress {
                open: open as int,
                dots: dots as int,
                run: run as int,
                quote,
                plain,
                sealed,
            }),
            open + dots <= NESTING_LIMIT,
            run <= 3,
            too_deep(text@) == too_deep_from(text@, i as int, p),
        decreases chars.len() - i,
    {
        let c = chars[i];
        proof {
            p = advance(p, c);
        }
        if c == '\n' {
            dots = 0;
            run = 0;
            plain = true;
        } else if c == '"' || c == '\'' {
            run = if run > 0 && quote == c {
                if run >= 3 {
                    3
                } else {
                    run + 1
                }
            } else {
                1
            };
            quote = c;
            plain = false;
            sealed = sealed || run >= 3;
        } else if c == '#' {
            run = 0;
            plain = false;
        } else if c == '.' {
            run = 0;
            dots = dots + 1;
        } else if c == '[' || c == '{' {
            run = 0;
            open = open + 1;
        } else if (c == ']' || c == '}') && plain && !sealed && open > 0 {
            run = 0;
            open = open - 1;
        } else {
            run = 0;
        }
        if open + dots > NESTING_LIMIT {
            return true;
        }
        i += 1;
    }
    false
}

/// What a table of a TOML document holds under a key.
#[derive(Debug)]
pub enum Cell {
    /// The key is absent.
    Absent,
    /// The key holds a string.
    Text(String),
    /// The key holds a value of another kind.
    Other,
}

/// The model of a [`Cell`].
pub ghost enum Content {
    Absent,
    Text(Seq<char>),
    Other,
}

impl View for Cell {
    type V = Content;

    open spec fn view(&self) -> Content {
        match self {
            Cell::Absent => Content::Absent,
            Cell::Text(s) => Content::Text(s@),
            Cell::Other => Content::Other,
        }
    }
}

/// Three cells of one table, in the order in which the keys were asked for.
#[derive(Debug)]
pub struct Row {
    pub first: Cell,
    pub second: Cell,
    pub third: Cell,
}

/// The models of the rows of a list, in order.
pub open spec fn contents_of(rows: Seq<Row>) -> Seq<(Content, Content, Content)> {
    Seq::new(rows.len(), |i: int| (rows[i].first@, rows[i].second@, rows[i].third@))
}

/// What the `toml` crate reads from `text` under three keys of each entry
/// of the array `array`; `None` where `text` is not a TOML document or holds
/// no array under that key.
pub uninterp spec fn toml_rows(
    text: Seq<char>,
    array: Seq<char>,
    first: Seq<char>,
    second: Seq<char>,
    third: Seq<char>,
) -> Option<Seq<(Content, Content, Content)>>;

/// Trusted: parses `text` with `toml` (`str::parse::<toml::Value>`), takes
/// the array under `array` (`Value::get`, `Value::as_array`) and, for each
/// of its entries, what `Value::get` and `Value::as_str` give under the
/// three keys. Nothing is claimed about which text reads as what, only
/// that the same text and keys always read the same.
///
/// The parser of `toml` calls itself once for each array or inline table
/// inside another and for each part of a dotted key or table header, and
/// counts no depth; a text that nests without end would exhaust the stack.
/// Hence the precondition: the caller has measured the text.
#[verifier::external_body]
fn read_rows(text: &str, array: &str, first: &str, second: &str, third: &str) -> (r: Option<
    Vec<Row>,
>)
    requires
        !too_deep(text@),
    ensures
        match r {
            Some(rows) => toml_rows(text@, array@, first@, second@, third@) == Some(
                contents_of(rows@),
            ),
            None => toml_rows(text@, array@, first@, second@, third@) is None,
        },
{
    let document = text.parse::<toml::Value>().ok()?;
    let cell = |entry: &toml::Value, key: &str| match entry.get(key) {
        None => Cell::Absent,
        Some(toml::Value::String(s)) => Cell::Text(s.clone()),
        Some(_) => Cell::Other,
    };
    let entries = document.get(array)?.as_array()?;
    Some(entries.iter().map(|e| Row {
        first: cell(e, first),
        second: cell(e, second),
        third: cell(e, third),
    }).collect())
}

/// What is wrong with a lock file.
#[derive(Clone, Copy, PartialEq, Eq, Debug)]
pub enum LockError {
    /// The text nests more deeply than [`NESTING_LIMIT`] allows; it was not
    /// read.
    TooDeep,
    /// The text is not a TOML document with an array `package`.
    NotALock,
    /// The package at this index has no string under `name`.
    NoName(usize),
    /// The package at this index has no string under `version`.
    NoVersion(usize),
    /// The package at this index has something other than a string under
    /// `source`.
    BadSource(usize),
}

/// The record that a row gives, or what is wrong with it.
pub open spec fn row_record(row: (Content, Content, Content), index: int) -> Result<
    Dependency,
    LockError,
> {
    match row {
        (Content::Text(name), Content::Text(version), Content::Text(source)) => Ok(
            Dependency { name, version, source: Some(source) },
        ),
        (Content::Text(name), Content::Text(version), Content::Absent) => Ok(
            Dependency { name, version, source: None },
        ),
        (Content::Text(_), Content::Text(_), Content::Other) => Err(
            LockError::BadSource(index as usize),
        ),
        (Content::Text(_), _, _) => Err(LockError::NoVersion(index as usize)),
        (_, _, _) => Err(LockError::NoName(index as usize)),
    }
}

/// The index of the first row from `from` on that gives no record, or the
/// number of rows.
pub open spec fn first_bad_row(rows: Seq<(Content, Content, Content)>, from: int) -> int
    decreases rows.len() - from,
{
    if from < 0 || from >= rows.len() {
        rows.len() as int
    } else if row_record(rows[from], from) is Err {
        from
    } else {
        first_bad_row(rows, from + 1)
    }
}

/// The records that the rows give, in order, or what is wrong with the
/// first row that gives none.
pub open spec fn row_records(rows: Seq<(Content, Content, Content)>) -> Result<
    Seq<Dependency>,
    LockError,
> {
    let bad = first_bad_row(rows, 0);
    if bad < rows.len() {
        Err(row_record(rows[bad], bad)->Err_0)
    } else {
        Ok(Seq::new(rows.len(), |i: int| row_record(rows[i], i)->Ok_0))
    }
}

/// The packages that a lock file lists, in its order.
pub open spec fn lock_packages(text: Seq<char>) -> Result<Seq<Dependency>, LockError> {
    if too_deep(text) {
        Err(LockError::TooDeep)
    } else {
        match toml_rows(text, "package"@, "name"@, "version"@, "source"@) {
            None => Err(LockError::NotALock),
            Some(rows) => row_records(rows),
        }
    }
}

/// The model of a list of records or an error.
pub open spec fn listed(r: Result<Vec<DependencyRecord>, LockError>) -> Result<
    Seq<Dependency>,
    LockError,
> {
    match r {
        Ok(records) => Ok(dependencies_of(records@)),
        Err(e) => Err(e),
    }
}

/// Turns the rows of a lock file into records: each row needs a name and a
/// version and may have a source.
pub fn records_of_rows(rows: Vec<Row>) -> (r: Result<Vec<DependencyRecord>, LockError>)
    ensures
        listed(r) == row_records(contents_of(rows@)),
{
    let ghost contents = contents_of(rows@);
    let mut records: Vec<DependencyRecord> = Vec::new();
    let mut i: usize = 0;
    while i < rows.len()
        invariant
            i <= rows.len(),
            contents == contents_of(rows@),
            first_bad_row(contents, 0) == first_bad_row(contents, i as int),
            records@.len() == i,
            forall|j: int|
                0 <= j < i ==> row_record(contents[j], j) == Ok::<Dependency, LockError>(
                    (#[trigger] records@[j])@,
                ),
        decreases rows.len() - i,
    {
        let row = &rows[i];
        assert(contents[i as int] == (row.first@, row.second@, row.third@));
        let name = match &row.first {
            Cell::Text(name) => name.clone(),
            _ => {
                return Err(LockError::NoName(i));
            },
        };
        let version = match &row.second {
            Cell::Text(version) => version.clone(),
            _ => {
                return Err(LockError::NoVersion(i));
            },
        };
        let source = match &row.third {
            Cell::Text(source) => Some(source.clone()),
            Cell::Absent => None,
            Cell::Other => {
                return Err(LockError::BadSource(i));
            },
        };
        records.push(DependencyRecord { name, version, source });
        i += 1;
    }
    assert(dependencies_of(records@) =~= Seq::new(
        contents.len(),
        |i: int| row_record(contents[i], i)->Ok_0,
    ));
    Ok(records)
}

/// Reads the packages of a lock file, in its order. A text that nests too
/// deeply is not read.
pub fn read_lock(text: &str) -> (r: Result<Vec<DependencyRecord>, LockError>)
    ensures
        listed(r) == lock_packages(text@),
{
    if nests_too_deep(text) {
        return Err(LockError::TooDeep);
    }
    match read_rows(text, "package", "name", "version", "source") {
        None => Err(LockError::NotALock),
        Some(rows) => records_of_rows(rows),
    }
}

/// Bakes the table of a lock file: its packages in rising order, each
/// once.
pub fn bake_lock(text: &str) -> (r: Result<Vec<DependencyRecord>, LockError>)
    ensures
        match r {
            Ok(table) => lock_packages(text@) is Ok && rising(dependencies_of(table@))
                && same_records(lock_packages(text@)->Ok_0, dependencies_of(table@)),
            Err(e) => lock_packages(text@) == Err::<Seq<Dependency>, LockError>(e),
        },
{
    match read_lock(text) {
        Ok(packages) => Ok(bake(packages)),
        Err(e) => Err(e),
    }
}

/// A copy of a list of records.
pub fn duplicate_all(records: &Vec<DependencyRecord>) -> (copy: Vec<DependencyRecord>)
    ensures
        dependencies_of(copy@) == dependencies_of(records@),
{
    let mut copy: Vec<DependencyRecord> = Vec::new();
    let mut i: usize = 0;
    while i < records.len()
        invariant
            i <= records.len(),
            copy@.len() == i,
            forall|j: int| 0 <= j < i ==> (#[trigger] copy@[j])@ == records@[j]@,
        decreases records.len() - i,
    {
        copy.push(records[i].duplicate());
        i += 1;
    }
    assert(dependencies_of(copy@) =~= dependencies_of(records@));
    copy
}

/// Answers the question about `anchor` from the baked table. The table
/// belongs to the program as a whole, so the answer is the same for every
/// anchor: all of the table.
pub fn record_table(facts: &mut Facts, anchor: String, table: &Vec<DependencyRecord>)
    ensures
        final(facts)@ == if old(facts)@.dependencies.dom().contains(anchor@) {
            old(facts)@
        } else {
            Knowledge {
                dependencies: old(facts)@.dependencies.insert(anchor@, dependencies_of(table@)),
                ..old(facts)@
            }
        },
        old(facts)@.within(final(facts)@),
{
    facts.record_dependencies(anchor, duplicate_all(table));
}

} // verus!
