use realia::metadata::{
    check_arg, default_target, explicit_target, find_named, find_node, find_package, get_deps,
    get_manifest_dir, get_metadata, metadata_arguments, output, space, Finished, MetadataError,
    NodeEntry,
    PackageEntry, Resolution,
};

fn args(list: &[&str]) -> Vec<String> {
    list.iter().map(|s| s.to_string()).collect()
}

fn package(id: &str, name: &str, version: &str, source: Option<&str>) -> PackageEntry {
    PackageEntry {
        id: id.to_string(),
        name: name.to_string(),
        version: version.to_string(),
        source: source.map(|s| s.to_string()),
    }
}

fn node(id: &str, dependencies: &[&str]) -> NodeEntry {
    NodeEntry { id: id.to_string(), dependencies: args(dependencies) }
}

const DOCUMENT: &str = r#"{
  "packages": [
    {
      "name": "app", "version": "0.1.0", "id": "app 0.1.0 (path+file:///work/app)",
      "source": null, "dependencies": [], "targets": [], "features": {},
      "manifest_path": "/work/app/Cargo.toml"
    },
    {
      "name": "syn", "version": "1.0.34",
      "id": "syn 1.0.34 (registry+https://github.com/rust-lang/crates.io-index)",
      "source": "registry+https://github.com/rust-lang/crates.io-index",
      "dependencies": [], "targets": [], "features": {},
      "manifest_path": "/home/.cargo/registry/src/syn-1.0.34/Cargo.toml"
    }
  ],
  "workspace_members": ["app 0.1.0 (path+file:///work/app)"],
  "resolve": {
    "nodes": [
      {
        "id": "app 0.1.0 (path+file:///work/app)",
        "dependencies": ["syn 1.0.34 (registry+https://github.com/rust-lang/crates.io-index)"],
        "deps": [], "features": []
      },
      {
        "id": "syn 1.0.34 (registry+https://github.com/rust-lang/crates.io-index)",
        "dependencies": [], "deps": [], "features": []
      }
    ],
    "root": "app 0.1.0 (path+file:///work/app)"
  },
  "target_directory": "/work/app/target",
  "version": 1,
  "workspace_root": "/work/app"
}"#;

#[test]
fn a_flag_and_its_value_as_two_arguments() {
    let list = args(&["rustc", "--crate-name", "x", "--target", "wasm32-unknown-unknown", "-O"]);
    assert_eq!(check_arg(&list, "--target").unwrap(), Some("wasm32-unknown-unknown".to_string()));
    assert_eq!(check_arg(&list, "--crate-name").unwrap(), Some("x".to_string()));
    assert_eq!(explicit_target(&list).unwrap(), Some("wasm32-unknown-unknown".to_string()));
}

#[test]
fn a_flag_and_its_value_as_one_argument() {
    let list = args(&["rustc", "--target=x86_64-pc-windows-msvc"]);
    assert_eq!(check_arg(&list, "--target").unwrap(), Some("x86_64-pc-windows-msvc".to_string()));
    let repeated = args(&["--target=--target=--target=arm"]);
    assert_eq!(check_arg(&repeated, "--target").unwrap(), Some("arm".to_string()));
    let empty = args(&["--target="]);
    assert_eq!(check_arg(&empty, "--target").unwrap(), Some(String::new()));
}

#[test]
fn the_first_argument_that_begins_with_the_flag_decides() {
    let list = args(&["--target-dir", "out", "--target", "arm"]);
    assert_eq!(check_arg(&list, "--target").unwrap(), Some("--target-dir".to_string()));
    let list = args(&["--target=a", "--target", "b"]);
    assert_eq!(check_arg(&list, "--target").unwrap(), Some("a".to_string()));
}

#[test]
fn no_flag_means_no_value_and_a_flag_at_the_end_is_an_error() {
    assert_eq!(check_arg(&args(&["rustc", "-O"]), "--target").unwrap(), None);
    assert_eq!(check_arg(&Vec::new(), "--target").unwrap(), None);
    assert!(matches!(
        check_arg(&args(&["rustc", "--target"]), "--target"),
        Err(MetadataError::MissingValue)
    ));
}

#[test]
fn the_manifest_directory_must_be_known() {
    assert_eq!(get_manifest_dir(Some("/work/app".to_string())).unwrap(), "/work/app");
    assert!(matches!(get_manifest_dir(None), Err(MetadataError::NoManifestDir)));
}

#[test]
fn the_host_is_read_from_the_version_report() {
    let report = "rustc 1.44.0 (49cae5576 2020-06-01)\nbinary: rustc\ncommit-date: 2020-06-01\n\
                  host: x86_64-unknown-linux-gnu\nrelease: 1.44.0\nLLVM version: 9.0\n";
    assert_eq!(default_target(report).unwrap(), "x86_64-unknown-linux-gnu");
    assert_eq!(default_target("host: a\nhost: b\n").unwrap(), "a");
    assert_eq!(default_target("host: tail").unwrap(), "tail");
    assert_eq!(default_target("x\r\nhost:  \t spaced out \t \r\ny").unwrap(), "spaced out");
    assert_eq!(default_target("host: ").unwrap(), "");
    assert_eq!(default_target("host: \n").unwrap(), "");
}

#[test]
fn a_report_without_a_host_line_is_an_error() {
    for report in ["", "\n", "rustc 1.44.0\n", "host:x\n", " host: x\n", "Host: x\n", "the host: x"] {
        assert!(matches!(default_target(report), Err(MetadataError::HostMissing)));
    }
}

#[test]
fn white_space_is_what_unicode_says() {
    for c in [' ', '\t', '\n', '\r', '\u{0b}', '\u{0c}', '\u{85}', '\u{a0}', '\u{1680}', '\u{2000}',
        '\u{200a}', '\u{2028}', '\u{2029}', '\u{202f}', '\u{205f}', '\u{3000}']
    {
        assert!(space(c));
        assert!(c.is_whitespace());
    }
    for c in ['a', '0', '_', '\u{08}', '\u{0e}', '\u{200b}', '\u{feff}', '\u{180e}'] {
        assert!(!space(c));
        assert!(!c.is_whitespace());
    }
}

#[test]
fn the_metadata_request_has_a_fixed_shape() {
    assert_eq!(
        metadata_arguments("/work/app", "x86_64-unknown-linux-gnu"),
        args(&[
            "metadata",
            "--format-version",
            "1",
            "--manifest-path",
            "/work/app/Cargo.toml",
            "--filter-platform",
            "x86_64-unknown-linux-gnu",
        ])
    );
}

fn finished(success: bool, stdout: &[u8]) -> Option<Finished> {
    Some(Finished { success, stdout: stdout.to_vec() })
}

#[test]
fn the_output_of_a_tool() {
    assert_eq!(output("rustc", finished(true, b"host: x\n")).unwrap(), "host: x\n");
    assert_eq!(output("rustc", finished(true, "h\u{e9}".as_bytes())).unwrap(), "h\u{e9}");
    assert!(matches!(
        output("cargo metadata", finished(false, b"{}")),
        Err(MetadataError::Failed { job }) if job == "cargo metadata"
    ));
    assert!(matches!(
        output("rustc", finished(true, &[0x68, 0xff])),
        Err(MetadataError::NotText { job }) if job == "rustc"
    ));
    assert!(matches!(output("rustc", finished(false, &[0xff])), Err(MetadataError::Failed { .. })));
    assert!(matches!(
        output("cargo metadata", None),
        Err(MetadataError::NotStarted { job }) if job == "cargo metadata"
    ));
}

#[test]
fn a_metadata_document_is_decoded() {
    let resolution = get_metadata(DOCUMENT).unwrap();
    assert_eq!(resolution.packages.len(), 2);
    assert_eq!(resolution.packages[0].name, "app");
    assert_eq!(resolution.packages[0].version, "0.1.0");
    assert_eq!(resolution.packages[0].id, "app 0.1.0 (path+file:///work/app)");
    assert_eq!(resolution.packages[0].source, None);
    assert_eq!(resolution.packages[1].name, "syn");
    assert_eq!(resolution.packages[1].version, "1.0.34");
    assert_eq!(
        resolution.packages[1].source.as_deref(),
        Some("registry+https://github.com/rust-lang/crates.io-index")
    );
    let nodes = resolution.nodes.as_ref().unwrap();
    assert_eq!(nodes.len(), 2);
    assert_eq!(nodes[0].id, "app 0.1.0 (path+file:///work/app)");
    assert_eq!(
        nodes[0].dependencies,
        vec!["syn 1.0.34 (registry+https://github.com/rust-lang/crates.io-index)".to_string()]
    );
    assert!(nodes[1].dependencies.is_empty());
}

#[test]
fn a_text_that_is_no_document_is_malformed() {
    for text in ["", "{", "[]", "{\"packages\": 1}", "host: x"] {
        assert!(matches!(get_metadata(text), Err(MetadataError::Malformed)));
    }
}

#[test]
fn the_dependencies_of_the_anchor_are_picked_out() {
    let resolution = get_metadata(DOCUMENT).unwrap();
    let records = get_deps(&resolution, "app").unwrap();
    assert_eq!(records.len(), 1);
    assert_eq!(records[0].name, "syn");
    assert_eq!(records[0].version, "1.0.34");
    assert_eq!(
        records[0].source.as_deref(),
        Some("registry+https://github.com/rust-lang/crates.io-index")
    );
    assert!(get_deps(&resolution, "syn").unwrap().is_empty());
    assert!(matches!(get_deps(&resolution, "quote"), Err(MetadataError::UnknownAnchor)));
}

#[test]
fn the_records_follow_the_order_of_the_node() {
    let resolution = Resolution {
        packages: vec![
            package("a#1", "a", "1.0.0", None),
            package("b#1", "b", "1.0.0", Some("registry+x")),
            package("b#2", "b", "2.0.0", Some("git+y")),
            package("c#1", "c", "0.3.0", None),
        ],
        nodes: Some(vec![node("c#1", &[]), node("a#1", &["c#1", "b#2", "b#1"]), node("a#1", &[])]),
    };
    let records = get_deps(&resolution, "a").unwrap();
    let seen: Vec<(&str, &str, Option<&str>)> =
        records.iter().map(|r| (r.name.as_str(), r.version.as_str(), r.source.as_deref())).collect();
    assert_eq!(
        seen,
        vec![("c", "0.3.0", None), ("b", "2.0.0", Some("git+y")), ("b", "1.0.0", Some("registry+x"))]
    );
    assert_eq!(find_named(&resolution.packages, "b"), Some(1));
    assert_eq!(find_named(&resolution.packages, "d"), None);
    assert_eq!(find_package(&resolution.packages, "b#2"), Some(2));
    assert_eq!(find_package(&resolution.packages, "b"), None);
    assert_eq!(find_node(resolution.nodes.as_ref().unwrap(), "a#1"), Some(1));
    assert_eq!(find_node(resolution.nodes.as_ref().unwrap(), "b#1"), None);
}

#[test]
fn a_broken_document_is_an_error() {
    let no_resolve = Resolution { packages: vec![package("a#1", "a", "1.0.0", None)], nodes: None };
    assert!(matches!(get_deps(&no_resolve, "a"), Err(MetadataError::Unresolved)));
    let no_node = Resolution {
        packages: vec![package("a#1", "a", "1.0.0", None)],
        nodes: Some(vec![node("b#1", &[])]),
    };
    assert!(matches!(get_deps(&no_node, "a"), Err(MetadataError::Unresolved)));
    let no_package = Resolution {
        packages: vec![package("a#1", "a", "1.0.0", None)],
        nodes: Some(vec![node("a#1", &["a#1", "b#1"])]),
    };
    assert!(matches!(get_deps(&no_package, "a"), Err(MetadataError::UnknownPackage)));
    assert!(matches!(get_deps(&no_package, "b"), Err(MetadataError::UnknownAnchor)));
}
