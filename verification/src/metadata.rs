//! The live query for a project's resolved dependencies: what to run, and
//! what to make of what came back.
//!
//! Running the tools is left to the caller. This module decides the
//! arguments, reads the tools' output and says which failure, if any, it
//! shows.

use vstd::prelude::*;
use vstd::string::StringExecFns;
use vstd::utf8::{decode_utf8, valid_utf8};
use std::string::FromUtf8Error;
use crate::facts::{Dependency, DependencyRecord, dependencies_of, text_of};
use crate::text::{begins_with, chars_begin_with, chars_of, equal};

verus! {

/// A broken build environment, as the live query finds it.
#[derive(Debug)]
pub enum MetadataError {
    /// The directory of the manifest is not known.
    NoManifestDir,
    /// A command-line flag that takes a value came last.
    MissingValue,
    /// A tool could not be started.
    NotStarted { job: String },
    /// A tool ended with a status other than success.
    Failed { job: String },
    /// A tool's output is not UTF-8.
    NotText { job: String },
    /// The compiler's version report names no host.
    HostMissing,
    /// The metadata document cannot be read.
    Malformed,
    /// The metadata document holds no dependency resolution.
    Unresolved,
    /// No package of the anchor's name is in the document.
    UnknownAnchor,
    /// The resolution names a package that the document does not list.
    UnknownPackage,
}

/// The characters of each string of a list.
pub open spec fn texts_of(strings: Seq<String>) -> Seq<Seq<char>> {
    Seq::new(strings.len(), |i: int| strings[i]@)
}

/// The first index from `from` on of an argument that begins with `name`,
/// or the number of arguments when there is none.
pub open spec fn flag_index(args: Seq<Seq<char>>, name: Seq<char>, from: int) -> int
    decreases args.len() - from,
{
    if from < 0 || from >= args.len() {
        args.len() as int
    } else if begins_with(args[from], name) {
        from
    } else {
        flag_index(args, name, from + 1)
    }
}

/// The first index from `from` on at which `text` does not go on with
/// another copy of `prefix`.
pub open spec fn repeats_end(text: Seq<char>, prefix: Seq<char>, from: int) -> int
    decreases text.len() - from,
{
    if prefix.len() == 0 || from < 0 || from > text.len() || !begins_with(
        text.subrange(from, text.len() as int),
        prefix,
    ) {
        from
    } else {
        repeats_end(text, prefix, from + prefix.len())
    }
}

/// The value that the arguments give for the flag `name`.
///
/// The first argument that begins with `name` decides. If it is `name`
/// itself, the value is the next argument, which must exist. Otherwise the
/// value is that argument without its leading `name=`, as often as it is
/// repeated. No such argument means no value.
pub open spec fn flag_value(args: Seq<Seq<char>>, name: Seq<char>) -> Result<
    Option<Seq<char>>,
    MetadataError,
> {
    let i = flag_index(args, name, 0);
    if i >= args.len() {
        Ok(None)
    } else if args[i] == name {
        if i + 1 < args.len() {
            Ok(Some(args[i + 1]))
        } else {
            Err(MetadataError::MissingValue)
        }
    } else {
        let prefix = name + seq!['='];
        Ok(Some(args[i].subrange(repeats_end(args[i], prefix, 0), args[i].len() as int)))
    }
}

/// The model of the result of [`check_arg`].
pub open spec fn flag_model(r: Result<Option<String>, MetadataError>) -> Result<
    Option<Seq<char>>,
    MetadataError,
> {
    match r {
        Ok(Some(value)) => Ok(Some(value@)),
        Ok(None) => Ok(None),
        Err(e) => Err(e),
    }
}

/// Finds the value of the flag `name` among command-line arguments, given
/// as `name value` or as `name=value`.
pub fn check_arg(args: &Vec<String>, name: &str) -> (r: Result<Option<String>, MetadataError>)
    ensures
        flag_model(r) == flag_value(texts_of(args@), name@),
{
    let ghost texts = texts_of(args@);
    let wanted = chars_of(name);
    let mut i: usize = 0;
    while i < args.len()
        invariant
            i <= args.len(),
            texts == texts_of(args@),
            wanted@ == name@,
            flag_index(texts, name@, 0) == flag_index(texts, name@, i as int),
        decreases args.len() - i,
    {
        let arg = chars_of(args[i].as_str());
        assert(arg@.subrange(0, arg@.len() as int) =~= arg@);
        if chars_begin_with(&arg, 0, &wanted) {
            if arg.len() == wanted.len() {
                assert(arg@ =~= arg@.subrange(0, wanted@.len() as int));
                return if i + 1 < args.len() {
                    Ok(Some(args[i + 1].clone()))
                } else {
                    Err(MetadataError::MissingValue)
                };
            }
            let mut prefix = chars_of(name);
            prefix.push('=');
            assert(prefix@ =~= name@ + seq!['=']);
            let mut at: usize = 0;
            while arg.len() - at >= prefix.len() && chars_begin_with(&arg, at, &prefix)
                invariant
                    at <= arg.len(),
                    prefix@.len() > 0,
                    repeats_end(arg@, prefix@, 0) == repeats_end(arg@, prefix@, at as int),
                decreases arg.len() - at,
            {
                at += prefix.len();
            }
            let value = args[i].as_str().substring_char(at, arg.len());
            return Ok(Some(value.to_owned()));
        }
        i += 1;
    }
    Ok(None)
}

/// The directory of the manifest, from the value of the variable that
/// names it; an unset variable is an error.
pub fn get_manifest_dir(value: Option<String>) -> (r: Result<String, MetadataError>)
    ensures
        match value {
            Some(path) => r == Ok::<String, MetadataError>(path),
            None => r == Err::<String, MetadataError>(MetadataError::NoManifestDir),
        },
{
    match value {
        Some(path) => Ok(path),
        None => Err(MetadataError::NoManifestDir),
    }
}

/// Whether a character is white space as Unicode defines it.
pub open spec fn is_space(c: char) -> bool {
    let n = c as u32;
    ||| 0x09 <= n <= 0x0d
    ||| n == 0x20
    ||| n == 0x85
    ||| n == 0xa0
    ||| n == 0x1680
    ||| 0x2000 <= n <= 0x200a
    ||| n == 0x2028
    ||| n == 0x2029
    ||| n == 0x202f
    ||| n == 0x205f
    ||| n == 0x3000
}

/// Whether a character is white space.
pub fn space(c: char) -> (r: bool)
    ensures
        r == is_space(c),
{
    let n = c as u32;
    (0x09 <= n && n <= 0x0d) || n == 0x20 || n == 0x85 || n == 0xa0 || n == 0x1680 || (0x2000 <= n
        && n <= 0x200a) || n == 0x2028 || n == 0x2029 || n == 0x202f || n == 0x205f || n == 0x3000
}

/// The end of the line that holds position `from`: the index of the next
/// line feed, or the length of the text.
pub open spec fn line_end(text: Seq<char>, from: int) -> int
    decreases text.len() - from,
{
    if from < 0 || from >= text.len() {
        text.len() as int
    } else if text[from] == '\n' {
        from
    } else {
        line_end(text, from + 1)
    }
}

/// The first index in `from..to` of a character that is not white space,
/// or `to`.
pub open spec fn content_start(text: Seq<char>, from: int, to: int) -> int
    decreases to - from,
{
    if from < 0 || from >= to || to > text.len() || !is_space(text[from]) {
        from
    } else {
        content_start(text, from + 1, to)
    }
}

/// The index after the last character in `from..to` that is not white
/// space, or `from`.
pub open spec fn content_end(text: Seq<char>, from: int, to: int) -> int
    decreases to - from,
{
    if from < 0 || from >= to || to > text.len() || !is_space(text[to - 1]) {
        to
    } else {
        content_end(text, from, to - 1)
    }
}

/// The characters of `from..to` without leading and trailing white space.
pub open spec fn trimmed(text: Seq<char>, from: int, to: int) -> Seq<char> {
    let start = content_start(text, from, to);
    text.subrange(start, content_end(text, start, to))
}

/// The prefix of the line that names the host.
pub open spec fn host_label() -> Seq<char> {
    "host: "@
}

/// The line end lies at or after the position and within the text.
pub proof fn lemma_line_end_bounds(text: Seq<char>, from: int)
    requires
        0 <= from <= text.len(),
    ensures
        from <= line_end(text, from) <= text.len(),
    decreases text.len() - from,
{
    if from < text.len() && text[from] != '\n' {
        lemma_line_end_bounds(text, from + 1);
    }
}

/// The host named by the first line, from the line that starts at `from`
/// on, that begins with `host: `: the rest of that line, trimmed.
pub open spec fn host_from(text: Seq<char>, from: int) -> Option<Seq<char>>
    decreases text.len() - from,
{
    if from < 0 || from >= text.len() {
        None
    } else if begins_with(text.subrange(from, text.len() as int), host_label()) {
        Some(trimmed(text, from + 6, line_end(text, from + 6)))
    } else if line_end(text, from) >= text.len() {
        None
    } else {
        proof {
            lemma_line_end_bounds(text, from);
        }
        host_from(text, line_end(text, from) + 1)
    }
}

/// Reads the host's target triple from the compiler's verbose version
/// report: the first line that begins with `host: ` names it.
pub fn default_target(report: &str) -> (r: Result<String, MetadataError>)
    ensures
        match r {
            Ok(host) => host_from(report@, 0) == Some(host@),
            Err(e) => host_from(report@, 0) is None && e == MetadataError::HostMissing,
        },
{
    let text = chars_of(report);
    let label = chars_of("host: ");
    proof {
        reveal_strlit("host: ");
    }
    let mut start: usize = 0;
    while start < text.len()
        invariant
            text@ == report@,
            label@ == host_label(),
            label@.len() == 6,
            start <= text.len(),
            host_from(text@, 0) == host_from(text@, start as int),
        decreases text.len() - start,
    {
        if chars_begin_with(&text, start, &label) {
            let mut end: usize = start + 6;
            while end < text.len() && text[end] != '\n'
                invariant
                    start + 6 <= end <= text.len(),
                    line_end(text@, start + 6) == line_end(text@, end as int),
                decreases text.len() - end,
            {
                end += 1;
            }
            let mut from: usize = start + 6;
            while from < end && space(text[from])
                invariant
                    start + 6 <= from <= end <= text.len(),
                    content_start(text@, start + 6, end as int) == content_start(
                        text@,
                        from as int,
                        end as int,
                    ),
                decreases end - from,
            {
                from += 1;
            }
            let mut to: usize = end;
            while from < to && space(text[to - 1])
                invariant
                    from <= to <= end <= text.len(),
                    content_end(text@, from as int, end as int) == content_end(
                        text@,
                        from as int,
                        to as int,
                    ),
                decreases to - from,
            {
                to -= 1;
            }
            return Ok(report.substring_char(from, to).to_owned());
        }
        let mut end: usize = start;
        while end < text.len() && text[end] != '\n'
            invariant
                start <= end <= text.len(),
                line_end(text@, start as int) == line_end(text@, end as int),
            decreases text.len() - end,
        {
            end += 1;
        }
        if end == text.len() {
            return Err(MetadataError::HostMissing);
        }
        start = end + 1;
    }
    Err(MetadataError::HostMissing)
}

/// The arguments of the metadata request: format version 1, the manifest
/// in `manifest_dir`, and only the dependencies of the platform `target`.
pub open spec fn request(manifest_dir: Seq<char>, target: Seq<char>) -> Seq<Seq<char>> {
    seq![
        "metadata"@,
        "--format-version"@,
        "1"@,
        "--manifest-path"@,
        manifest_dir + "/Cargo.toml"@,
        "--filter-platform"@,
        target,
    ]
}

/// Builds the arguments of the metadata request.
pub fn metadata_arguments(manifest_dir: &str, target: &str) -> (r: Vec<String>)
    ensures
        texts_of(r@) == request(manifest_dir@, target@),
{
    let mut arguments: Vec<String> = Vec::new();
    arguments.push("metadata".to_owned());
    arguments.push("--format-version".to_owned());
    arguments.push("1".to_owned());
    arguments.push("--manifest-path".to_owned());
    arguments.push(manifest_dir.to_owned().concat("/Cargo.toml"));
    arguments.push("--filter-platform".to_owned());
    arguments.push(target.to_owned());
    assert(texts_of(arguments@) =~= request(manifest_dir@, target@));
    arguments
}

/// The explicit target among the arguments, if any: the value of
/// `--target`.
pub fn explicit_target(args: &Vec<String>) -> (r: Result<Option<String>, MetadataError>)
    ensures
        flag_model(r) == flag_value(texts_of(args@), "--target"@),
{
    check_arg(args, "--target")
}

/// Declares `std::string::FromUtf8Error`, the error of
/// `String::from_utf8`, as an opaque type.
#[verifier::external_type_specification]
#[verifier::external_body]
pub struct ExFromUtf8Error(FromUtf8Error);

/// Trusted: `String::from_utf8` succeeds exactly on valid UTF-8 and then
/// returns the string that those bytes encode.
pub assume_specification[ String::from_utf8 ](vec: Vec<u8>) -> (r: Result<String, FromUtf8Error>)
    ensures
        r is Ok <==> valid_utf8(vec@),
        r matches Ok(s) ==> s@ == decode_utf8(vec@),
;

/// How a tool ended and what it wrote to its standard output.
#[derive(Debug)]
pub struct Finished {
    pub success: bool,
    pub stdout: Vec<u8>,
}

/// What a tool has to show for itself: its standard output as text, unless
/// it could not be started (`finished` is `None`), ended without success,
/// or wrote something that is not UTF-8.
pub fn output(job: &str, finished: Option<Finished>) -> (r: Result<String, MetadataError>)
    ensures
        match finished {
            None => r matches Err(MetadataError::NotStarted { job: j }) && j@ == job@,
            Some(run) => if !run.success {
                r matches Err(MetadataError::Failed { job: j }) && j@ == job@
            } else if !valid_utf8(run.stdout@) {
                r matches Err(MetadataError::NotText { job: j }) && j@ == job@
            } else {
                r matches Ok(text) && text@ == decode_utf8(run.stdout@)
            },
        },
{
    let run = match finished {
        None => {
            return Err(MetadataError::NotStarted { job: job.to_owned() });
        },
        Some(run) => run,
    };
    if !run.success {
        return Err(MetadataError::Failed { job: job.to_owned() });
    }
    match String::from_utf8(run.stdout) {
        Ok(text) => Ok(text),
        Err(_) => Err(MetadataError::NotText { job: job.to_owned() }),
    }
}

/// A package as the metadata document lists it.
#[derive(Debug)]
pub struct PackageEntry {
    /// The identifier that the resolution uses for the package.
    pub id: String,
    pub name: String,
    pub version: String,
    /// The source locator, absent for a local package.
    pub source: Option<String>,
}

/// A node of the resolution: a package and what it depends on.
#[derive(Debug)]
pub struct NodeEntry {
    pub id: String,
    /// The identifiers of the packages this one depends on.
    pub dependencies: Vec<String>,
}

/// What the metadata document says: the packages it lists and, where it
/// holds one, the dependency resolution.
#[derive(Debug)]
pub struct Resolution {
    pub packages: Vec<PackageEntry>,
    pub nodes: Option<Vec<NodeEntry>>,
}

/// The model of a [`PackageEntry`].
pub ghost struct Package {
    pub id: Seq<char>,
    pub name: Seq<char>,
    pub version: Seq<char>,
    pub source: Option<Seq<char>>,
}

/// The model of a [`NodeEntry`].
pub ghost struct Node {
    pub id: Seq<char>,
    pub dependencies: Seq<Seq<char>>,
}

/// The model of a [`Resolution`].
pub ghost struct Graph {
    pub packages: Seq<Package>,
    pub nodes: Option<Seq<Node>>,
}

impl View for PackageEntry {
    type V = Package;

    open spec fn view(&self) -> Package {
        Package {
            id: self.id@,
            name: self.name@,
            version: self.version@,
            source: text_of(self.source),
        }
    }
}

impl View for NodeEntry {
    type V = Node;

    open spec fn view(&self) -> Node {
        Node { id: self.id@, dependencies: texts_of(self.dependencies@) }
    }
}

/// The models of a list of packages, in order.
pub open spec fn packages_of(entries: Seq<PackageEntry>) -> Seq<Package> {
    Seq::new(entries.len(), |i: int| entries[i]@)
}

/// The models of a list of nodes, in order.
pub open spec fn nodes_of(entries: Seq<NodeEntry>) -> Seq<Node> {
    Seq::new(entries.len(), |i: int| entries[i]@)
}

impl View for Resolution {
    type V = Graph;

    open spec fn view(&self) -> Graph {
        Graph {
            packages: packages_of(self.packages@),
            nodes: match self.nodes {
                Some(nodes) => Some(nodes_of(nodes@)),
                None => None,
            },
        }
    }
}

/// What a metadata document says, as `serde_json` and `cargo_metadata` read
/// it; `None` for a text that they do not accept.
pub uninterp spec fn decoded_metadata(text: Seq<char>) -> Option<Graph>;

/// Trusted: calls `serde_json::from_str` for a `cargo_metadata::Metadata`
/// and copies out of it, field by field, the packages (identifier, name,
/// version as it prints, source locator) and the nodes of the resolution
/// (identifier and the identifiers it depends on). Nothing is claimed
/// about which text decodes to what, only that the same text always
/// decodes to the same.
#[verifier::external_body]
fn decode(text: &str) -> (r: Option<Resolution>)
    ensures
        match r {
            Some(resolution) => decoded_metadata(text@) == Some(resolution@),
            None => decoded_metadata(text@) is None,
        },
{
    let m = serde_json::from_str::<cargo_metadata::Metadata>(text).ok()?;
    let packages = m.packages.into_iter().map(|p| PackageEntry {
        id: p.id.repr,
        name: p.name,
        version: p.version.to_string(),
        source: p.source.map(|s| s.repr),
    }).collect();
    let nodes = m.resolve.map(|r| r.nodes.into_iter().map(|n| NodeEntry {
        id: n.id.repr,
        dependencies: n.dependencies.into_iter().map(|d| d.repr).collect(),
    }).collect());
    Some(Resolution { packages, nodes })
}

/// Reads the output of the metadata request. A text that is not a
/// metadata document is an error.
pub fn get_metadata(output: &str) -> (r: Result<Resolution, MetadataError>)
    ensures
        match r {
            Ok(resolution) => decoded_metadata(output@) == Some(resolution@),
            Err(e) => decoded_metadata(output@) is None && e == MetadataError::Malformed,
        },
{
    match decode(output) {
        Some(resolution) => Ok(resolution),
        None => Err(MetadataError::Malformed),
    }
}

/// The index of the first package from `from` on with this name, or the
/// number of packages.
pub open spec fn named_index(packages: Seq<Package>, name: Seq<char>, from: int) -> int
    decreases packages.len() - from,
{
    if from < 0 || from >= packages.len() {
        packages.len() as int
    } else if packages[from].name == name {
        from
    } else {
        named_index(packages, name, from + 1)
    }
}

/// The index of the first package from `from` on with this identifier, or
/// the number of packages.
pub open spec fn package_index(packages: Seq<Package>, id: Seq<char>, from: int) -> int
    decreases packages.len() - from,
{
    if from < 0 || from >= packages.len() {
        packages.len() as int
    } else if packages[from].id == id {
        from
    } else {
        package_index(packages, id, from + 1)
    }
}

/// The index of the first node from `from` on with this identifier, or the
/// number of nodes.
pub open spec fn node_index(nodes: Seq<Node>, id: Seq<char>, from: int) -> int
    decreases nodes.len() - from,
{
    if from < 0 || from >= nodes.len() {
        nodes.len() as int
    } else if nodes[from].id == id {
        from
    } else {
        node_index(nodes, id, from + 1)
    }
}

/// The dependency record that a package gives.
pub open spec fn record_of(package: Package) -> Dependency {
    Dependency { name: package.name, version: package.version, source: package.source }
}

/// The records of the packages with these identifiers, in the same order;
/// an identifier that no package carries is an error.
pub open spec fn records_for(packages: Seq<Package>, ids: Seq<Seq<char>>) -> Result<
    Seq<Dependency>,
    MetadataError,
> {
    if forall|i: int|
        0 <= i < ids.len() ==> package_index(packages, #[trigger] ids[i], 0) < packages.len() {
        Ok(
            Seq::new(
                ids.len(),
                |i: int| record_of(packages[package_index(packages, ids[i], 0)]),
            ),
        )
    } else {
        Err(MetadataError::UnknownPackage)
    }
}

/// The resolved dependencies of the project named `anchor`.
///
/// The anchor is the first package of that name; its node in the
/// resolution lists the identifiers it depends on, and each of them gives
/// one record, in the node's order.
pub open spec fn resolved(graph: Graph, anchor: Seq<char>) -> Result<Seq<Dependency>, MetadataError> {
    match graph.nodes {
        None => Err(MetadataError::Unresolved),
        Some(nodes) => {
            let a = named_index(graph.packages, anchor, 0);
            if a >= graph.packages.len() {
                Err(MetadataError::UnknownAnchor)
            } else {
                let n = node_index(nodes, graph.packages[a].id, 0);
                if n >= nodes.len() {
                    Err(MetadataError::Unresolved)
                } else {
                    records_for(graph.packages, nodes[n].dependencies)
                }
            }
        },
    }
}

/// Finds the first package with this name.
pub fn find_named(packages: &Vec<PackageEntry>, name: &str) -> (r: Option<usize>)
    ensures
        match r {
            Some(i) => i < packages@.len() && i == named_index(packages_of(packages@), name@, 0),
            None => named_index(packages_of(packages@), name@, 0) >= packages@.len(),
        },
{
    let ghost model = packages_of(packages@);
    let mut i: usize = 0;
    while i < packages.len()
        invariant
            i <= packages.len(),
            model == packages_of(packages@),
            named_index(model, name@, 0) == named_index(model, name@, i as int),
        decreases packages.len() - i,
    {
        if equal(packages[i].name.as_str(), name) {
            return Some(i);
        }
        i += 1;
    }
    None
}

/// Finds the first package with this identifier.
pub fn find_package(packages: &Vec<PackageEntry>, id: &str) -> (r: Option<usize>)
    ensures
        match r {
            Some(i) => i < packages@.len() && i == package_index(packages_of(packages@), id@, 0),
            None => package_index(packages_of(packages@), id@, 0) >= packages@.len(),
        },
{
    let ghost model = packages_of(packages@);
    let mut i: usize = 0;
    while i < packages.len()
        invariant
            i <= packages.len(),
            model == packages_of(packages@),
            package_index(model, id@, 0) == package_index(model, id@, i as int),
        decreases packages.len() - i,
    {
        if equal(packages[i].id.as_str(), id) {
            return Some(i);
        }
        i += 1;
    }
    None
}

/// Finds the first node with this identifier.
pub fn find_node(nodes: &Vec<NodeEntry>, id: &str) -> (r: Option<usize>)
    ensures
        match r {
            Some(i) => i < nodes@.len() && i == node_index(nodes_of(nodes@), id@, 0),
            None => node_index(nodes_of(nodes@), id@, 0) >= nodes@.len(),
        },
{
    let ghost model = nodes_of(nodes@);
    let mut i: usize = 0;
    while i < nodes.len()
        invariant
            i <= nodes.len(),
            model == nodes_of(nodes@),
            node_index(model, id@, 0) == node_index(model, id@, i as int),
        decreases nodes.len() - i,
    {
        if equal(nodes[i].id.as_str(), id) {
            return Some(i);
        }
        i += 1;
    }
    None
}

/// The model of the result of [`get_deps`].
pub open spec fn records_model(r: Result<Vec<DependencyRecord>, MetadataError>) -> Result<
    Seq<Dependency>,
    MetadataError,
> {
    match r {
        Ok(records) => Ok(dependencies_of(records@)),
        Err(e) => Err(e),
    }
}

/// Picks the resolved dependencies of the project named `anchor` out of a
/// metadata document.
pub fn get_deps(resolution: &Resolution, anchor: &str) -> (r: Result<
    Vec<DependencyRecord>,
    MetadataError,
>)
    ensures
        records_model(r) == resolved(resolution@, anchor@),
{
    let nodes = match &resolution.nodes {
        Some(nodes) => nodes,
        None => {
            return Err(MetadataError::Unresolved);
        },
    };
    let a = match find_named(&resolution.packages, anchor) {
        Some(a) => a,
        None => {
            return Err(MetadataError::UnknownAnchor);
        },
    };
    let ghost packages = packages_of(resolution.packages@);
    assert(packages[a as int].id == resolution.packages@[a as int].id@);
    let n = match find_node(nodes, resolution.packages[a].id.as_str()) {
        Some(n) => n,
        None => {
            return Err(MetadataError::Unresolved);
        },
    };
    let ids = &nodes[n].dependencies;
    let ghost wanted = nodes_of(nodes@)[n as int].dependencies;
    assert(wanted == texts_of(ids@));
    let mut records: Vec<DependencyRecord> = Vec::new();
    let mut i: usize = 0;
    while i < ids.len()
        invariant
            i <= ids.len(),
            packages == packages_of(resolution.packages@),
            wanted == texts_of(ids@),
            resolved(resolution@, anchor@) == records_for(packages, wanted),
            records@.len() == i,
            forall|j: int|
                0 <= j < i ==> package_index(packages, #[trigger] wanted[j], 0) < packages.len(),
            forall|j: int|
                0 <= j < i ==> (#[trigger] records@[j])@ == record_of(
                    packages[package_index(packages, wanted[j], 0)],
                ),
        decreases ids.len() - i,
    {
        assert(wanted[i as int] == ids@[i as int]@);
        match find_package(&resolution.packages, ids[i].as_str()) {
            None => {
                assert(package_index(packages, wanted[i as int], 0) >= packages.len());
                return Err(MetadataError::UnknownPackage);
            },
            Some(p) => {
                let package = &resolution.packages[p];
                assert(packages[p as int] == package@);
                let source = match &package.source {
                    Some(s) => Some(s.clone()),
                    None => None,
                };
                records.push(
                    DependencyRecord {
                        name: package.name.clone(),
                        version: package.version.clone(),
                        source,
                    },
                );
            },
        }
        i += 1;
    }
    assert(dependencies_of(records@) =~= Seq::new(
        wanted.len(),
        |i: int| record_of(packages[package_index(packages, wanted[i], 0)]),
    ));
    Ok(records)
}

} // verus!
