use ec2meta::display::{display, display_data};
use ec2meta::machine::{Action, Machine};
use ec2meta::query::{run_query, Outcome};
use ec2meta::resolver::{fetch_options, get_api_versions, get_args_from_framework};
use ec2meta::results::ResultMap;
use ec2meta::tree::MetadataTree;

const BASE: &str = "http://169.254.169.254/";

fn tree_of(entries: &[(&str, &str)]) -> MetadataTree {
    let mut t = MetadataTree::new();
    for (url, body) in entries {
        t.add(format!("{}latest/{}", BASE, url), body.to_string());
    }
    t
}

fn args_of(names: &[&str]) -> Vec<String> {
    names.iter().map(|n| n.to_string()).collect()
}

/// Drives a machine against a mock tree, recording every URL it fetches.
fn drive(mut m: Machine, tree: &MetadataTree) -> (ResultMap, Vec<String>, Vec<String>) {
    let mut fetched: Vec<String> = Vec::new();
    loop {
        match m.step() {
            Action::Fetch(url) => {
                fetched.push(url.clone());
                let body = tree.fetch(&url);
                m.supply(&body);
            }
            Action::Continue => {}
            Action::Done => break,
        }
    }
    let (map, args) = m.finish();
    (map, args, fetched)
}

fn roots() -> Vec<String> {
    vec![
        format!("{}latest/dynamic", BASE),
        format!("{}latest/meta-data", BASE),
    ]
}

#[test]
fn end_to_end_selective() {
    let tree = tree_of(&[
        ("meta-data", "instance-id\nhostname"),
        ("meta-data/instance-id", "i-0abc"),
        ("meta-data/hostname", "host1"),
    ]);
    match run_query(&tree, "latest", args_of(&["--instance-id"])) {
        Outcome::Values { map } => {
            assert_eq!(map.len(), 1);
            assert_eq!(map.get("instance-id").unwrap(), "i-0abc");
            let lines = display(&map, false, false);
            assert_eq!(lines, vec!["i-0abc".to_string()]);
        }
        _ => panic!("expected values"),
    }
}

#[test]
fn end_to_end_exhaustive() {
    let tree = tree_of(&[
        ("meta-data", "instance-id\nhostname"),
        ("meta-data/instance-id", "i-0abc"),
        ("meta-data/hostname", "host1"),
    ]);
    match run_query(&tree, "latest", Vec::new()) {
        Outcome::Values { map } => {
            assert_eq!(map.len(), 2);
            assert_eq!(map.get("instance-id").unwrap(), "i-0abc");
            assert_eq!(map.get("hostname").unwrap(), "host1");
            let lines = display(&map, false, true);
            assert_eq!(
                lines,
                vec!["instance-id: i-0abc".to_string(), "hostname: host1".to_string()]
            );
        }
        _ => panic!("expected values"),
    }
}

#[test]
fn selective_resolves_exactly_the_requested_leaves() {
    let tree = tree_of(&[
        ("meta-data", "ami-id\nhostname\nnested/"),
        ("meta-data/ami-id", "ami-123"),
        ("meta-data/hostname", "host1"),
        ("meta-data/nested/", "deep-key"),
        ("meta-data/nested/deep-key", "deep-value"),
    ]);
    match run_query(&tree, "latest", args_of(&["--deep-key", "--ami-id"])) {
        Outcome::Values { map } => {
            assert_eq!(map.len(), 2);
            assert_eq!(map.get("ami-id").unwrap(), "ami-123");
            assert_eq!(map.get("deep-key").unwrap(), "deep-value");
            assert!(map.get("hostname").is_none());
        }
        _ => panic!("expected values"),
    }
}

#[test]
fn exhaustive_visits_every_leaf_once() {
    let tree = tree_of(&[
        ("meta-data", "a\nsub/"),
        ("meta-data/a", "va"),
        ("meta-data/sub/", "b\nc"),
        ("meta-data/sub/b", "vb"),
        ("meta-data/sub/c", "vc"),
        ("dynamic", "d"),
        ("dynamic/d", "vd"),
    ]);
    let (map, _, fetched) = drive(Machine::new(roots(), Vec::new(), true), &tree);
    assert_eq!(map.len(), 4);
    assert_eq!(map.get("a").unwrap(), "va");
    assert_eq!(map.get("b").unwrap(), "vb");
    assert_eq!(map.get("c").unwrap(), "vc");
    assert_eq!(map.get("d").unwrap(), "vd");
    // every leaf URL was fetched exactly once
    for leaf in ["meta-data/a", "meta-data/sub/b", "meta-data/sub/c", "dynamic/d"] {
        let url = format!("{}latest/{}", BASE, leaf);
        assert_eq!(fetched.iter().filter(|u| **u == url).count(), 1);
    }
}

#[test]
fn early_termination_never_touches_later_siblings() {
    let tree = tree_of(&[
        ("meta-data", "wanted\npoisoned/"),
        ("meta-data/wanted", "value"),
        ("meta-data/poisoned/", "trap"),
        ("meta-data/poisoned/trap", "boom"),
    ]);
    let (map, left, fetched) = drive(Machine::new(roots(), args_of(&["--wanted"]), false), &tree);
    assert_eq!(map.len(), 1);
    assert_eq!(map.get("wanted").unwrap(), "value");
    assert!(left.is_empty());
    let poisoned = format!("{}latest/meta-data/poisoned/", BASE);
    assert!(!fetched.iter().any(|u| u.starts_with(&poisoned)));
}

#[test]
fn not_found_bodies_are_never_inserted() {
    let tree = tree_of(&[
        ("meta-data", "missing\npresent"),
        ("meta-data/missing", "Not Found"),
        ("meta-data/present", "here"),
    ]);
    match run_query(&tree, "latest", Vec::new()) {
        Outcome::Values { map } => {
            assert_eq!(map.len(), 1);
            assert!(map.get("missing").is_none());
            assert_eq!(map.get("present").unwrap(), "here");
        }
        _ => panic!("expected values"),
    }
    // selective mode: the request is satisfied, but the sentinel is dropped
    let mut args = args_of(&["--missing"]);
    let mut map = ResultMap::new();
    fetch_options(
        &tree,
        &format!("{}latest/meta-data", BASE),
        &mut map,
        &mut args,
        false,
    );
    assert!(args.is_empty());
    assert_eq!(map.len(), 0);
}

#[test]
fn public_key_is_fetched_through_its_index() {
    let tree = tree_of(&[
        ("meta-data", "public-keys/"),
        ("meta-data/public-keys/", "0=my-key"),
        ("meta-data/public-keys/0/openssh-key", "ssh-rsa AAAA example"),
    ]);
    match run_query(&tree, "latest", args_of(&["--public-keys"])) {
        Outcome::Values { map } => {
            assert_eq!(map.len(), 1);
            assert_eq!(map.get("public-keys").unwrap(), "ssh-rsa AAAA example");
        }
        _ => panic!("expected values"),
    }
}

#[test]
fn unknown_option_reports_the_legal_set() {
    let tree = tree_of(&[
        ("meta-data", "instance-id\nhostname"),
        ("meta-data/instance-id", "i-0abc"),
        ("meta-data/hostname", "host1"),
    ]);
    match run_query(&tree, "latest", args_of(&["--does-not-exist"])) {
        Outcome::UnknownOptions { unknown, legal } => {
            assert_eq!(unknown, args_of(&["--does-not-exist"]));
            assert!(legal.get("instance-id").is_some());
            assert!(legal.get("hostname").is_some());
        }
        _ => panic!("expected a usage error"),
    }
}

#[test]
fn display_formats_each_mode_exactly() {
    assert_eq!(display_data("name", "value", true, false), "<name>value</name>");
    assert_eq!(display_data("name", "value", false, true), "name: value");
    assert_eq!(display_data("name", "value", false, false), "value");
    // the XML form applies to a full listing too
    assert_eq!(display_data("name", "value", true, true), "<name>value</name>");
}

#[test]
fn first_discovered_value_wins() {
    let tree = tree_of(&[
        ("dynamic", "shared"),
        ("dynamic/shared", "first"),
        ("meta-data", "shared"),
        ("meta-data/shared", "second"),
    ]);
    match run_query(&tree, "latest", Vec::new()) {
        Outcome::Values { map } => {
            assert_eq!(map.len(), 1);
            assert_eq!(map.get("shared").unwrap(), "first");
        }
        _ => panic!("expected values"),
    }
}

#[test]
fn empty_and_missing_directories_yield_nothing() {
    let tree = tree_of(&[("meta-data", "empty/\nabsent/"), ("meta-data/empty/", "")]);
    match run_query(&tree, "latest", Vec::new()) {
        Outcome::Values { map } => assert_eq!(map.len(), 0),
        _ => panic!("expected values"),
    }
}

#[test]
fn not_found_directory_yields_nothing() {
    let tree = tree_of(&[("meta-data", "gone/"), ("meta-data/gone/", "Not Found")]);
    match run_query(&tree, "latest", Vec::new()) {
        Outcome::Values { map } => assert_eq!(map.len(), 0),
        _ => panic!("expected values"),
    }
}

#[test]
fn api_versions_come_from_the_base_address() {
    let mut tree = MetadataTree::new();
    tree.add(BASE.to_string(), "1.0\n2.0\nlatest".to_string());
    assert_eq!(get_api_versions(&tree), "1.0\n2.0\nlatest");
    // a tree with no entry for the base address reads as an empty listing
    assert_eq!(get_api_versions(&MetadataTree::new()), "");
}

#[test]
fn framework_pass_satisfies_requests_in_place() {
    let tree = tree_of(&[
        ("meta-data", "instance-id"),
        ("meta-data/instance-id", "i-0abc"),
    ]);
    let mut args = args_of(&["--instance-id", "--nope"]);
    let map = get_args_from_framework(&tree, "latest", &mut args, false);
    assert_eq!(map.get("instance-id").unwrap(), "i-0abc");
    assert_eq!(args, args_of(&["--nope"]));
}

#[test]
fn machine_walk_matches_the_tree_walk() {
    let tree = tree_of(&[
        ("meta-data", "a\nsub/"),
        ("meta-data/a", "va"),
        ("meta-data/sub/", "b"),
        ("meta-data/sub/b", "vb"),
    ]);
    let (machine_map, _, _) = drive(Machine::new(roots(), args_of(&["--b"]), false), &tree);
    let mut args = args_of(&["--b"]);
    let resolver_map = get_args_from_framework(&tree, "latest", &mut args, false);
    assert_eq!(machine_map.len(), resolver_map.len());
    assert_eq!(machine_map.get("b").unwrap(), resolver_map.get("b").unwrap());
}

#[test]
fn xml_display_of_resolved_values() {
    let tree = tree_of(&[
        ("meta-data", "instance-id"),
        ("meta-data/instance-id", "i-0abc"),
    ]);
    match run_query(&tree, "latest", args_of(&["--instance-id"])) {
        Outcome::Values { map } => {
            let lines = display(&map, true, false);
            assert_eq!(lines, vec!["<instance-id>i-0abc</instance-id>".to_string()]);
        }
        _ => panic!("expected values"),
    }
}

#[test]
fn machine_exhaustive_matches_the_tree_walk() {
    let tree = tree_of(&[
        ("meta-data", "a\nsub/"),
        ("meta-data/a", "va"),
        ("meta-data/sub/", "b"),
        ("meta-data/sub/b", "vb"),
        ("dynamic", "c"),
        ("dynamic/c", "vc"),
    ]);
    let (machine_map, _, _) = drive(Machine::new(roots(), Vec::new(), true), &tree);
    let mut args: Vec<String> = Vec::new();
    let resolver_map = get_args_from_framework(&tree, "latest", &mut args, true);
    assert_eq!(machine_map.len(), resolver_map.len());
    for name in ["a", "b", "c"] {
        assert_eq!(machine_map.get(name), resolver_map.get(name));
    }
}

#[test]
fn api_flag_value_selects_the_version_segment() {
    let mut tree = MetadataTree::new();
    tree.add(
        format!("{}2021-01-01/meta-data", BASE),
        "instance-id".to_string(),
    );
    tree.add(
        format!("{}2021-01-01/meta-data/instance-id", BASE),
        "i-old".to_string(),
    );
    match run_query(&tree, "2021-01-01", args_of(&["--instance-id"])) {
        Outcome::Values { map } => assert_eq!(map.get("instance-id").unwrap(), "i-old"),
        _ => panic!("expected values"),
    }
    // the same request against a version the tree does not answer finds nothing
    match run_query(&tree, "latest", args_of(&["--instance-id"])) {
        Outcome::UnknownOptions { unknown, .. } => {
            assert_eq!(unknown, args_of(&["--instance-id"]));
        }
        _ => panic!("expected a usage error"),
    }
}

#[test]
fn exhaustive_listing_under_xml_wraps_every_line() {
    let tree = tree_of(&[
        ("meta-data", "instance-id"),
        ("meta-data/instance-id", "i-0abc"),
    ]);
    match run_query(&tree, "latest", Vec::new()) {
        Outcome::Values { map } => {
            let lines = display(&map, true, true);
            assert_eq!(lines, vec!["<instance-id>i-0abc</instance-id>".to_string()]);
        }
        _ => panic!("expected values"),
    }
}
