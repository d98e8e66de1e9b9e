//! Reading one package description block into a record: the package
//! identifier, the version, and the component and feature names found by an
//! ordered cascade of phrase patterns, with a table of known irregular
//! packages as the last resort.

use crate::record::{lemma_text_cmp_antisym, compare_text, OutputItem, RecordView};
use crate::text::{
    after_first, after_marker, chars_of, normalize, normalized, run, run_at, run_end, string_of,
    trim_start, Delim,
};
use crate::version::{version_at, version_prefix, Semver};
use core::cmp::Ordering;
use vstd::prelude::*;

verus! {

pub open spec fn version_marker() -> Seq<char> {
    "Version: "@
}

pub open spec fn source_marker() -> Seq<char> {
    "contains the source for the Rust "@
}

pub open spec fn debianized_marker() -> Seq<char> {
    "code for Debianized Rust crate \""@
}

pub open spec fn for_the_marker() -> Seq<char> {
    "for the Rust "@
}

pub open spec fn feature_marker() -> Seq<char> {
    "- feature \""@
}

pub open spec fn crate_marker() -> Seq<char> {
    "Rust crate "@
}

/// A component name and, for a feature package, the feature's name.
pub type Names = (Seq<char>, Option<Seq<char>>);

pub open spec fn named(name: Seq<char>, feature: Option<Seq<char>>) -> Option<Names> {
    if name.len() > 0 {
        Some((name, feature))
    } else {
        None
    }
}

/// What the phrase patterns make of the normalized text `t`, the first one
/// that occurs deciding: `None` when none occurs; `Some(None)` when the one that
/// occurs yields no name (or, for the feature phrasing, no feature marker);
/// otherwise the names.
pub open spec fn phrase_match(t: Seq<char>) -> Option<Option<Names>> {
    match after_first(t, source_marker()) {
        Some(rest) => Some(named(run(rest, Delim::Space), None)),
        None => match after_first(t, debianized_marker()) {
            Some(rest) => Some(named(run(rest, Delim::Quote), None)),
            None => match after_first(t, for_the_marker()) {
                Some(rest) => match after_first(t, feature_marker()) {
                    Some(frest) => Some(
                        named(run(trim_start(rest), Delim::Space), Some(run(frest, Delim::Quote))),
                    ),
                    None => Some(None),
                },
                None => match after_first(t, crate_marker()) {
                    Some(rest) => Some(named(run(rest, Delim::Space), None)),
                    None => None,
                },
            },
        },
    }
}

/// The name that `table` gives to `key`: the first entry for it.
pub open spec fn lookup(table: Seq<(Seq<char>, Seq<char>)>, key: Seq<char>) -> Option<Seq<char>>
    decreases table.len(),
{
    if table.len() == 0 {
        None
    } else if table[0].0 == key {
        Some(table[0].1)
    } else {
        lookup(table.drop_first(), key)
    }
}

pub open spec fn table_view(t: Seq<(&str, &str)>) -> Seq<(Seq<char>, Seq<char>)> {
    t.map_values(|e: (&str, &str)| (e.0@, e.1@))
}

/// The packages whose descriptions follow no pattern, and their components.
pub open spec fn exception_table() -> Seq<(Seq<char>, Seq<char>)> {
    seq![
        ("librust-aho-corasick-dev"@, "aho-corasick"@),
        ("librust-capstone-dev"@, "capstone"@),
        ("librust-darling-core-0.14-dev"@, "darling_core"@),
        ("librust-darling-core-dev"@, "darling_core"@),
        ("librust-darling-macro-dev"@, "darling_macro"@),
        ("librust-darling-macro-0.14-dev"@, "darling_macro"@),
        ("librust-notify-debouncer-mini-dev"@, "notify-debouncer-mini"@),
        ("librust-zstd-sys-dev"@, "zstd-sys"@),
    ]
}

pub open spec fn new_record(names: Names, version: Semver, package: Seq<char>) -> RecordView {
    RecordView {
        component: names.0,
        feature: names.1,
        version,
        package,
        installed: false,
    }
}

/// The record that a description block gives, if any. Its package identifier
/// is the block's first whitespace-delimited token; its version is read after
/// the first `"Version: "`; its names come from the phrase patterns on the
/// normalized block, or, where no phrase occurs, from `table`.
pub open spec fn parsed(block: Seq<char>, table: Seq<(Seq<char>, Seq<char>)>) -> Option<RecordView> {
    let id = run(block, Delim::Space);
    if id.len() == 0 {
        None
    } else {
        match after_first(block, version_marker()) {
            None => None,
            Some(vt) => match version_prefix(vt) {
                None => None,
                Some(v) => match phrase_match(normalize(block)) {
                    Some(Some(names)) => Some(new_record(names, v, id)),
                    Some(None) => None,
                    None => match lookup(table, id) {
                        Some(name) => Some(new_record((name, None), v, id)),
                        None => None,
                    },
                },
            },
        }
    }
}

pub open spec fn names_view(n: (Vec<char>, Option<Vec<char>>)) -> Names {
    (
        n.0@,
        match n.1 {
            Some(f) => Some(f@),
            None => None,
        },
    )
}

pub open spec fn match_view(m: Option<Option<(Vec<char>, Option<Vec<char>>)>>) -> Option<
    Option<Names>,
> {
    match m {
        Some(Some(n)) => Some(Some(names_view(n))),
        Some(None) => Some(None),
        None => None,
    }
}

/// The packages whose descriptions follow no pattern, each with the name of
/// the component it holds.
pub fn static_mappings() -> (r: Vec<(&'static str, &'static str)>)
    ensures
        table_view(r@) == exception_table(),
        forall|i: int, j: int| 0 <= i < j < r.len() ==> r@[i].0@ != r@[j].0@,
{
    let r = vec![
        ("librust-aho-corasick-dev", "aho-corasick"),
        ("librust-capstone-dev", "capstone"),
        ("librust-darling-core-0.14-dev", "darling_core"),
        ("librust-darling-core-dev", "darling_core"),
        ("librust-darling-macro-dev", "darling_macro"),
        ("librust-darling-macro-0.14-dev", "darling_macro"),
        ("librust-notify-debouncer-mini-dev", "notify-debouncer-mini"),
        ("librust-zstd-sys-dev", "zstd-sys"),
    ];
    assert(table_view(r@) =~= exception_table());
    proof {
        reveal_strlit("librust-aho-corasick-dev");
        reveal_strlit("librust-capstone-dev");
        reveal_strlit("librust-darling-core-0.14-dev");
        reveal_strlit("librust-darling-core-dev");
        reveal_strlit("librust-darling-macro-dev");
        reveal_strlit("librust-darling-macro-0.14-dev");
        reveal_strlit("librust-notify-debouncer-mini-dev");
        reveal_strlit("librust-zstd-sys-dev");
        assert forall|i: int, j: int| 0 <= i < j < r.len() implies r@[i].0@ != r@[j].0@ by {
            assert(r@[i].0@.len() != r@[j].0@.len() || r@[i].0@[8] != r@[j].0@[8] || r@[i].0@[
                r@[i].0@.len() - 5] != r@[j].0@[r@[j].0@.len() - 5]);
        }
    }
    r
}

/// Looks `key` up in `table`.
fn lookup_name(table: &Vec<(&'static str, &'static str)>, key: &Vec<char>) -> (r: Option<Vec<char>>)
    ensures
        match r {
            Some(n) => lookup(table_view(table@), key@) == Some(n@),
            None => lookup(table_view(table@), key@) is None,
        },
{
    let ghost tv = table_view(table@);
    let mut i: usize = 0;
    assert(tv.skip(0) =~= tv);
    while i < table.len()
        invariant
            i <= table.len(),
            tv == table_view(table@),
            lookup(tv, key@) == lookup(tv.skip(i as int), key@),
        decreases table.len() - i,
    {
        let (k, name) = table[i];
        let kc = chars_of(k);
        assert(tv.skip(i as int)[0] == (k@, name@));
        assert(tv.skip(i as int).drop_first() =~= tv.skip(i + 1));
        let c = compare_text(&kc, key);
        proof {
            lemma_text_cmp_antisym(kc@, key@);
        }
        if matches!(c, Ordering::Equal) {
            return Some(chars_of(name));
        }
        i = i + 1;
    }
    None
}

/// The phrase patterns, tried in order on the normalized text `t`.
fn match_phrases(t: &Vec<char>) -> (r: Option<Option<(Vec<char>, Option<Vec<char>>)>>)
    ensures
        match_view(r) == phrase_match(t@),
{
    let m = chars_of("contains the source for the Rust ");
    if let Some(p) = after_marker(t, &m) {
        let name = run_at(t, p, Delim::Space);
        return if name.len() > 0 { Some(Some((name, None))) } else { Some(None) };
    }
    let m = chars_of("code for Debianized Rust crate \"");
    if let Some(p) = after_marker(t, &m) {
        let name = run_at(t, p, Delim::Quote);
        return if name.len() > 0 { Some(Some((name, None))) } else { Some(None) };
    }
    let m = chars_of("for the Rust ");
    if let Some(p) = after_marker(t, &m) {
        let fm = chars_of("- feature \"");
        let q = match after_marker(t, &fm) {
            Some(q) => q,
            None => {
                return Some(None);
            },
        };
        let start = run_end(t, p, Delim::NonSpace);
        assert(t@.skip(start as int) =~= trim_start(t@.skip(p as int)));
        let name = run_at(t, start, Delim::Space);
        let feature = run_at(t, q, Delim::Quote);
        return if name.len() > 0 { Some(Some((name, Some(feature)))) } else { Some(None) };
    }
    let m = chars_of("Rust crate ");
    if let Some(p) = after_marker(t, &m) {
        let name = run_at(t, p, Delim::Space);
        return if name.len() > 0 { Some(Some((name, None))) } else { Some(None) };
    }
    None
}

/// Reads one description block (see `parsed`).
pub fn parse_block(block: &Vec<char>, mappings: &Vec<(&'static str, &'static str)>) -> (r: Result<
    OutputItem,
    (),
>)
    ensures
        match r {
            Ok(item) => parsed(block@, table_view(mappings@)) == Some(item@),
            Err(_) => parsed(block@, table_view(mappings@)) is None,
        },
{
    let id = run_at(block, 0, Delim::Space);
    assert(block@.skip(0) =~= block@);
    if id.len() == 0 {
        return Err(());
    }
    let vm = chars_of("Version: ");
    let vp = match after_marker(block, &vm) {
        Some(vp) => vp,
        None => {
            return Err(());
        },
    };
    let version = match version_at(block, vp) {
        Some(v) => v,
        None => {
            return Err(());
        },
    };
    let t = normalized(block);
    let (name, feature) = match match_phrases(&t) {
        Some(Some(found)) => found,
        Some(None) => {
            return Err(());
        },
        None => match lookup_name(mappings, &id) {
            Some(name) => (name, None),
            None => {
                return Err(());
            },
        },
    };
    let feature_name = match feature {
        Some(f) => Some(string_of(&f)),
        None => None,
    };
    Ok(
        OutputItem {
            component_name: string_of(&name),
            feature_name,
            version,
            package_id: string_of(&id),
            installed: false,
        },
    )
}

/// Reads one description block into a record, or `Err` when the block is not
/// one this inventory understands (see `parsed`).
pub fn parse_package(summary: &str, mappings: &Vec<(&'static str, &'static str)>) -> (r: Result<
    OutputItem,
    (),
>)
    ensures
        match r {
            Ok(item) => parsed(summary@, table_view(mappings@)) == Some(item@),
            Err(_) => parsed(summary@, table_view(mappings@)) is None,
        },
{
    parse_block(&chars_of(summary), mappings)
}

} // verus!
