use crate_inventory::parser::{parse_package, static_mappings};
use crate_inventory::pipeline::{filter_by_term, mark_installed, parse_index, query_available};
use crate_inventory::record::{sort_records, OutputItem};
use crate_inventory::version::Semver;
use std::cmp::Ordering;

fn item(name: &str, feature: Option<&str>, v: (u32, u32, u32), pkg: &str) -> OutputItem {
    OutputItem {
        component_name: name.to_string(),
        feature_name: feature.map(|f| f.to_string()),
        version: Semver { major: v.0, minor: v.1, patch: v.2 },
        package_id: pkg.to_string(),
        installed: false,
    }
}

fn parse(block: &str) -> Result<OutputItem, ()> {
    parse_package(block, &static_mappings())
}

#[test]
fn version_parses_three_components() {
    assert_eq!(Semver::parse("1.2.3"), Some(Semver { major: 1, minor: 2, patch: 3 }));
    assert_eq!(Semver::parse("1.2.3-1"), Some(Semver { major: 1, minor: 2, patch: 3 }));
    assert_eq!(Semver::parse("0.14.0+dfsg"), Some(Semver { major: 0, minor: 14, patch: 0 }));
}

#[test]
fn version_rejects_more_than_three_components() {
    assert_eq!(Semver::parse("1.2.3.4"), None);
    assert_eq!(Semver::parse("1.2.3."), None);
    assert!(parse("librust-foo-dev\nVersion: 1.2.3.4-1\nDescription: Rust crate foo").is_err());
}

#[test]
fn version_rejects_malformed_text() {
    assert_eq!(Semver::parse("1.2"), None);
    assert_eq!(Semver::parse("1.2."), None);
    assert_eq!(Semver::parse(""), None);
    assert_eq!(Semver::parse("abc"), None);
    assert_eq!(Semver::parse("1..3"), None);
    assert_eq!(Semver::parse("4294967296.0.0"), None);
    assert_eq!(
        Semver::parse("4294967295.0.0"),
        Some(Semver { major: 4294967295, minor: 0, patch: 0 })
    );
}

#[test]
fn version_round_trips() {
    for s in ["0.0.0", "1.2.3", "10.200.3000", "4294967295.4294967295.4294967295"] {
        assert_eq!(Semver::parse(s).unwrap().render(), s);
    }
}

#[test]
fn version_orders_numerically() {
    let a = Semver { major: 1, minor: 9, patch: 0 };
    let b = Semver { major: 1, minor: 10, patch: 0 };
    assert_eq!(a.compare(&b), Ordering::Less);
    assert_eq!(b.compare(&a), Ordering::Greater);
    assert_eq!(a.compare(&a), Ordering::Equal);
    let c = Semver { major: 2, minor: 0, patch: 0 };
    assert_eq!(b.compare(&c), Ordering::Less);
    assert_eq!(a.compare(&c), Ordering::Less);
    let d = Semver { major: 1, minor: 9, patch: 1 };
    assert_eq!(a.compare(&d), Ordering::Less);
}

#[test]
fn records_sort_by_name_ignoring_case() {
    let mut v = vec![
        item("gamma", None, (1, 0, 0), "librust-gamma-dev"),
        item("Beta", None, (1, 0, 0), "librust-beta-dev"),
        item("alpha", None, (2, 0, 0), "librust-alpha-dev"),
        item("ALPHA", None, (1, 0, 0), "librust-alpha-1-dev"),
    ];
    sort_records(&mut v);
    let names: Vec<&str> = v.iter().map(|i| i.component_name.as_str()).collect();
    assert_eq!(names, vec!["ALPHA", "alpha", "Beta", "gamma"]);
}

#[test]
fn root_record_precedes_features() {
    let mut v = vec![
        item("foo", Some("x"), (1, 0, 0), "librust-foo+x-dev"),
        item("foo", Some("a"), (1, 0, 0), "librust-foo+a-dev"),
        item("foo", None, (1, 0, 0), "librust-foo-dev"),
        item("foo", None, (0, 9, 0), "librust-foo-0.9-dev"),
    ];
    sort_records(&mut v);
    let pkgs: Vec<&str> = v.iter().map(|i| i.package_id.as_str()).collect();
    assert_eq!(
        pkgs,
        vec!["librust-foo-0.9-dev", "librust-foo-dev", "librust-foo+a-dev", "librust-foo+x-dev"]
    );
    assert_eq!(v[2].compare(&v[3]), Ordering::Less);
    assert_eq!(v[1].compare(&v[2]), Ordering::Less);
}

#[test]
fn sort_keeps_order_of_equal_records() {
    let mut v = vec![
        item("foo", None, (1, 0, 0), "first"),
        item("FOO", None, (1, 0, 0), "second"),
        item("Foo", None, (1, 0, 0), "third"),
    ];
    sort_records(&mut v);
    let pkgs: Vec<&str> = v.iter().map(|i| i.package_id.as_str()).collect();
    assert_eq!(pkgs, vec!["first", "second", "third"]);
}

#[test]
fn title_and_status() {
    let mut root = item("foo", None, (1, 2, 3), "librust-foo-dev");
    assert_eq!(root.title(), "foo 1.2.3");
    assert_eq!(root.status(), "--");
    root.installed = true;
    assert_eq!(root.status(), "installed");
    let feat = item("foo", Some("std"), (1, 2, 3), "librust-foo+std-dev");
    assert_eq!(feat.title(), "  deps for feat \"std\"");
}

#[test]
fn source_phrase_branch() {
    let r = parse("librust-foo-dev\nVersion: 1.2.3-1\nDescription: This package contains the source for the Rust foo crate").unwrap();
    assert_eq!(r.component_name, "foo");
    assert_eq!(r.feature_name, None);
    assert_eq!(r.version, Semver { major: 1, minor: 2, patch: 3 });
    assert_eq!(r.package_id, "librust-foo-dev");
    assert!(!r.installed);
}

#[test]
fn debianized_phrase_branch() {
    let r = parse("librust-bar-dev\nVersion: 0.4.1-2\nDescription: Source code for Debianized Rust crate \"bar\"").unwrap();
    assert_eq!(r.component_name, "bar");
    assert_eq!(r.feature_name, None);
    assert_eq!(r.version, Semver { major: 0, minor: 4, patch: 1 });
}

#[test]
fn feature_phrase_branch() {
    let r = parse("librust-baz+std-dev\nVersion: 2.0.0-1\nDescription: Rust crate baz - feature \"std\"\n This metapackage enables feature \"std\" for the Rust baz crate, by pulling in\n any additional dependencies needed by that feature.").unwrap();
    assert_eq!(r.component_name, "baz");
    assert_eq!(r.feature_name, Some("std".to_string()));
    assert_eq!(r.version, Semver { major: 2, minor: 0, patch: 0 });
    assert_eq!(r.package_id, "librust-baz+std-dev");
}

#[test]
fn feature_phrase_without_feature_marker_is_rejected() {
    assert!(parse("librust-baz-dev\nVersion: 2.0.0-1\nDescription: helpers for the Rust baz crate").is_err());
}

#[test]
fn crate_phrase_branch() {
    let r = parse("librust-qux-dev\nVersion: 3.1.4\nDescription: Rust crate qux (library)").unwrap();
    assert_eq!(r.component_name, "qux");
    assert_eq!(r.feature_name, None);
    assert_eq!(r.version, Semver { major: 3, minor: 1, patch: 4 });
}

#[test]
fn earlier_phrase_wins() {
    let r = parse("librust-foo-dev\nVersion: 1.0.0\nDescription: Rust crate other\n This package contains the source for the Rust foo crate").unwrap();
    assert_eq!(r.component_name, "foo");
}

#[test]
fn continuation_lines_are_joined() {
    let r = parse("librust-foo-bar-dev\nVersion: 1.0.0\nDescription: Rust crate foo-\n bar library").unwrap();
    assert_eq!(r.component_name, "foo-bar");
}

#[test]
fn unknown_block_yields_nothing() {
    assert!(parse("libfoo-dev\nVersion: 1.0.0\nDescription: something else entirely").is_err());
    let text = "Package: librust-foo-dev\nVersion: 1.0.0\nDescription: Rust crate foo\n\nPackage: libunrelated\nVersion: 1.0.0\nDescription: nothing to see\n";
    assert_eq!(parse_index(text, &static_mappings()).len(), 1);
}

#[test]
fn exception_table_block() {
    let r = parse("librust-capstone-dev\nVersion: 0.11.0-1\nDescription: bindings to a disassembly framework").unwrap();
    assert_eq!(r.component_name, "capstone");
    assert_eq!(r.feature_name, None);
    assert_eq!(r.package_id, "librust-capstone-dev");
    assert_eq!(r.version, Semver { major: 0, minor: 11, patch: 0 });
    let table = static_mappings();
    assert_eq!(table.len(), 8);
    assert!(table.contains(&("librust-zstd-sys-dev", "zstd-sys")));
}

#[test]
fn malformed_blocks_are_rejected() {
    assert!(parse("").is_err());
    assert!(parse(" librust-foo-dev\nVersion: 1.0.0\nDescription: Rust crate foo").is_err());
    assert!(parse("librust-foo-dev\nDescription: Rust crate foo").is_err());
    assert!(parse("librust-foo-dev\nVersion: 1.0\nDescription: Rust crate foo").is_err());
    assert!(parse("librust-foo-dev\nVersion: x.1.0\nDescription: Rust crate foo").is_err());
    assert!(parse("librust-foo-dev\nVersion: 1.0.0\nDescription: Rust crate  foo").is_err());
}

#[test]
fn installed_line_marks_record() {
    let mut v = vec![item("foo", None, (1, 0, 0), "librust-foo-dev")];
    mark_installed(&mut v, "ii  librust-foo-dev  1.0  amd64  desc\n");
    assert!(v[0].installed);
}

#[test]
fn removed_line_leaves_record_unmarked() {
    let mut v = vec![item("foo", None, (1, 0, 0), "librust-foo-dev")];
    mark_installed(&mut v, "rc  librust-foo-dev  1.0  amd64  desc\n");
    assert!(!v[0].installed);
}

#[test]
fn installed_listing_example_marks_record() {
    let mut v = vec![item("foo", None, (1, 0, 0), "libfoo-dev")];
    mark_installed(&mut v, "ii  libfoo-dev  1.0  amd64  desc\n");
    assert!(v[0].installed);
    let mut w = vec![item("foo", None, (1, 0, 0), "libfoo-dev")];
    mark_installed(&mut w, "rc  libfoo-dev  1.0  amd64  desc\n");
    assert!(!w[0].installed);
}

#[test]
fn line_outside_family_is_ignored() {
    let mut v = vec![item("foo", None, (1, 0, 0), "foo-tools")];
    mark_installed(&mut v, "ii  foo-tools  1.0  amd64  desc\n");
    assert!(!v[0].installed);
}

#[test]
fn marked_record_stays_marked() {
    let mut v = vec![item("foo", None, (1, 0, 0), "librust-foo-dev")];
    mark_installed(&mut v, "ii  librust-bar-dev  1.0  amd64  desc\nii  librust-foo-dev  1.0  amd64  desc\n");
    assert!(v[0].installed);
    mark_installed(&mut v, "rc  librust-foo-dev  1.0  amd64  desc\n");
    assert!(v[0].installed);
}

#[test]
fn correlation_with_family_line() {
    let mut v = vec![
        item("foo", None, (1, 0, 0), "librust-foo-dev"),
        item("bar", None, (1, 0, 0), "librust-bar-dev"),
    ];
    mark_installed(&mut v, "Desired=Unknown\nii  librust-foo-dev  1.0  amd64  desc\nrc  librust-bar-dev  1.0  amd64  desc");
    assert!(v[0].installed);
    assert!(!v[1].installed);
}

#[test]
fn filtering_keeps_matching_names_in_order() {
    let v = vec![
        item("foobar", None, (1, 0, 0), "a"),
        item("bar", None, (1, 0, 0), "b"),
        item("foo", None, (1, 0, 0), "c"),
        item("Foo", None, (1, 0, 0), "d"),
    ];
    let kept = filter_by_term(v, "foo");
    let pkgs: Vec<&str> = kept.iter().map(|i| i.package_id.as_str()).collect();
    assert_eq!(pkgs, vec!["a", "c"]);
}

#[test]
fn end_to_end_single_row() {
    let text = "Package: libfoo-dev\nVersion: 1.2.3-1\nDescription: This package contains the source for the Rust foo crate...\n";
    let mut items = query_available(text, None);
    mark_installed(&mut items, "ii  librust-other-dev  1.0  amd64  desc\n");
    assert_eq!(items.len(), 1);
    assert_eq!(items[0].title(), "foo 1.2.3");
    assert_eq!(items[0].status(), "--");
    assert_eq!(items[0].package_id, "libfoo-dev");
}

#[test]
fn query_filters_and_sorts() {
    let text = "header\nPackage: librust-zeta-dev\nVersion: 1.0.0\nDescription: Rust crate zeta\n\nPackage: librust-foo+std-dev\nVersion: 1.0.0\nDescription: Rust crate foo - feature \"std\"\n Enables feature for the Rust foo crate\n\nPackage: librust-foo-dev\nVersion: 1.0.0\nDescription: Rust crate foo\n\nPackage: \n";
    let all = query_available(text, None);
    let pkgs: Vec<&str> = all.iter().map(|i| i.package_id.as_str()).collect();
    assert_eq!(pkgs, vec!["librust-foo-dev", "librust-foo+std-dev", "librust-zeta-dev"]);
    let some = query_available(text, Some("zet"));
    assert_eq!(some.len(), 1);
    assert_eq!(some[0].component_name, "zeta");
}

#[test]
fn text_before_first_package_is_dropped() {
    let text = "librust-capstone-dev\nVersion: 1.0.0\nPackage: librust-foo-dev\nVersion: 1.0.0\nDescription: Rust crate foo\n";
    let items = parse_index(text, &static_mappings());
    assert_eq!(items.len(), 1);
    assert_eq!(items[0].component_name, "foo");
}

#[test]
fn compare_folded_orders_by_given_lowercase_forms() {
    let a = item("Beta", None, (1, 0, 0), "b");
    let b = item("alpha", None, (1, 0, 0), "a");
    assert_eq!(a.compare_folded(&b, "beta", "alpha"), Ordering::Greater);
    assert_eq!(a.compare_folded(&b, "Beta", "alpha"), Ordering::Less);
    assert_eq!(a.compare_folded(&b, "same", "same"), Ordering::Equal);
    let f = item("foo", Some("x"), (1, 0, 0), "x");
    let g = item("foo", Some("a"), (1, 0, 0), "y");
    assert_eq!(f.compare_folded(&g, "foo", "foo"), Ordering::Greater);
    let h = item("foo", None, (1, 0, 0), "z");
    assert_eq!(h.compare_folded(&g, "foo", "foo"), Ordering::Less);
}

#[test]
fn query_with_term_shows_only_matching_records() {
    let text = "Package: librust-foo-dev\nVersion: 1.0.0\nDescription: Rust crate foo\n\nPackage: librust-Foo2-dev\nVersion: 1.0.0\nDescription: Rust crate Foo2\n\nPackage: librust-bar-dev\nVersion: 1.0.0\nDescription: Rust crate bar\n\nPackage: librust-foobar-dev\nVersion: 2.0.0\nDescription: Rust crate foobar\n";
    let some = query_available(text, Some("foo"));
    let names: Vec<&str> = some.iter().map(|i| i.component_name.as_str()).collect();
    assert_eq!(names, vec!["foo", "foobar"]);
    let all = query_available(text, None);
    let filtered: Vec<&str> = all
        .iter()
        .map(|i| i.component_name.as_str())
        .filter(|n| n.contains("foo"))
        .collect();
    assert_eq!(names, filtered);
}

#[test]
fn unknown_block_appended_to_index_changes_nothing() {
    let t = "Package: librust-foo-dev\nVersion: 1.2.3-1\nDescription: Rust crate foo\n";
    let t2 = format!("{}Package: librust-unknown-dev\nVersion: 1.0.0\nDescription: Utility library\n", t);
    let a = query_available(t, None);
    let b = query_available(&t2, None);
    assert_eq!(a.len(), 1);
    assert_eq!(b.len(), 1);
    assert_eq!(a[0].package_id, b[0].package_id);
    assert_eq!(a[0].title(), b[0].title());
}
