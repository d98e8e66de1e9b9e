//! Properties that relate several functions of the library, stated over their
//! models and proved.

use crate::parser::{
    lookup, new_record, parsed, phrase_match, source_marker, version_marker,
};
use crate::pipeline::{has_term, index_records, package_marker, parse_all, selected, with_term};
use crate::parser::exception_table;
use crate::record::{
    in_display_order, insert_in_order, is_sorted, lemma_insert_at, lemma_record_cmp_antisym,
    lemma_record_cmp_trans, lemma_text_cmp_antisym, lower_of, record_cmp, text_cmp, RecordView,
};
use crate::text::{
    after_first, ends_run, find_from, is_digit, lemma_find_from_bounds, lemma_run_len, normalize,
    occurs_at, run, split, trim, Delim,
};
use crate::version::{
    all_digits, decimal, digit_char, digit_value, digits_value, rendered, version_cmp,
    version_prefix, Semver,
};
use core::cmp::Ordering;
use vstd::prelude::*;

verus! {

proof fn lemma_decimal(n: nat)
    ensures
        decimal(n).len() > 0,
        all_digits(decimal(n)),
        digits_value(decimal(n)) == n,
    decreases n,
{
    let d = (n % 10) as nat;
    assert(digit_value(digit_char(d)) == d && is_digit(digit_char(d)));
    if n >= 10 {
        lemma_decimal(n / 10);
        let s = decimal(n);
        assert(s.drop_last() == decimal(n / 10));
        assert(s.last() == digit_char(d));
        assert((n / 10) * 10 + d == n);
        assert(digits_value(s) == digits_value(s.drop_last()) * 10 + digit_value(s.last()));
        assert(all_digits(s)) by {
            assert forall|i: int| 0 <= i < s.len() implies is_digit(#[trigger] s[i]) by {
                if i < s.len() - 1 {
                    assert(s[i] == decimal(n / 10)[i]);
                }
            }
        }
    } else {
        let s = decimal(n);
        assert(s.drop_last() =~= Seq::<char>::empty());
        assert(d == n);
        assert(digits_value(s) == digits_value(s.drop_last()) * 10 + digit_value(s.last()));
    }
}

/// The run of `d + "." + rest` up to the first full stop is `d`, when `d` is a
/// run of digits.
proof fn lemma_run_to_dot(d: Seq<char>, rest: Seq<char>)
    requires
        all_digits(d),
    ensures
        run(d + seq!['.'] + rest, Delim::Dot) == d,
        (d + seq!['.'] + rest).skip(d.len() + 1int) == rest,
{
    let s = d + seq!['.'] + rest;
    assert forall|j: int| 0 <= j < d.len() implies !ends_run(Delim::Dot, #[trigger] s[j]) by {
        assert(s[j] == d[j]);
        assert(is_digit(d[j]));
    }
    assert(s[d.len() as int] == '.');
    lemma_run_len(s, Delim::Dot, d.len() as int);
    assert(s.take(d.len() as int) =~= d);
    assert(s.skip(d.len() + 1int) =~= rest);
}

/// Reading back the text of a version gives the version, and rendering what
/// was read gives the text again: for every text of three dot-separated
/// decimal numbers without leading zeros, each within `u32`.
pub proof fn lemma_version_round_trip(s: Seq<char>, v: Semver)
    requires
        s == rendered(v),
    ensures
        version_prefix(s) == Some(v),
        rendered(version_prefix(s)->0) == s,
{
    let (a, b, c) = (decimal(v.major as nat), decimal(v.minor as nat), decimal(v.patch as nat));
    lemma_decimal(v.major as nat);
    lemma_decimal(v.minor as nat);
    lemma_decimal(v.patch as nat);
    assert(s =~= a + seq!['.'] + (b + seq!['.'] + c));
    assert forall|j: int| 0 <= j < s.len() implies !ends_run(Delim::NonVersion, #[trigger] s[j]) by {
        if j < a.len() {
            assert(s[j] == a[j]);
        } else if a.len() < j < a.len() + 1 + b.len() {
            assert(s[j] == b[j - a.len() - 1]);
        } else if a.len() + 1 + b.len() < j {
            assert(s[j] == c[j - a.len() - b.len() - 2]);
        }
    }
    lemma_run_len(s, Delim::NonVersion, s.len() as int);
    assert(run(s, Delim::NonVersion) =~= s);
    lemma_run_to_dot(a, b + seq!['.'] + c);
    lemma_run_to_dot(b, c);
    let ch = c;
    assert forall|j: int| 0 <= j < ch.len() implies !ends_run(Delim::Dot, #[trigger] ch[j]) by {
        assert(is_digit(ch[j]));
    }
    lemma_run_len(c, Delim::Dot, c.len() as int);
    assert(run(c, Delim::Dot) =~= c);
}

/// The order of versions is a strict total order that compares major, then
/// minor, then patch as numbers: exactly one of less, equal and greater holds
/// of two versions, swapping them swaps less and greater, and less is
/// transitive.
pub proof fn lemma_version_order(a: Semver, b: Semver, c: Semver)
    ensures
        version_cmp(a, b) == Ordering::Equal <==> a == b,
        version_cmp(a, b) == Ordering::Less <==> version_cmp(b, a) == Ordering::Greater,
        version_cmp(a, b) == Ordering::Less <==> (a.major < b.major || (a.major == b.major && (
        a.minor < b.minor || (a.minor == b.minor && a.patch < b.patch)))),
        version_cmp(a, b) == Ordering::Less && version_cmp(b, c) == Ordering::Less ==> version_cmp(
            a,
            c,
        ) == Ordering::Less,
{
}

/// For one component name and version, the component itself comes before each
/// of its features, and features come in the order of their names.
pub proof fn lemma_root_before_features(a: RecordView, b: RecordView)
    requires
        a.component == b.component,
        a.version == b.version,
    ensures
        a.feature is None && b.feature is Some ==> record_cmp(a, b) == Ordering::Less,
        a.feature is Some && b.feature is Some ==> record_cmp(a, b) == text_cmp(
            a.feature->0,
            b.feature->0,
        ),
{
    lemma_text_cmp_antisym(lower_of(a.component), lower_of(b.component));
}

/// The phrase patterns are tried in order: where the text holds the
/// source-package phrasing, that phrasing decides, whatever later phrasings
/// the text also holds.
pub proof fn lemma_source_phrase_first(t: Seq<char>)
    requires
        after_first(t, source_marker()) is Some,
    ensures
        phrase_match(t) == Some(
            if run(after_first(t, source_marker())->0, Delim::Space).len() > 0 {
                Some((run(after_first(t, source_marker())->0, Delim::Space), None::<Seq<char>>))
            } else {
                None
            },
        ),
{
}

/// A block that no phrase matches and whose identifier the table lacks gives
/// no record, and adding it to the blocks of an index leaves its records as
/// they were.
pub proof fn lemma_unknown_block_dropped(
    pieces: Seq<Seq<char>>,
    block: Seq<char>,
    table: Seq<(Seq<char>, Seq<char>)>,
)
    requires
        phrase_match(normalize(trim(block))) is None,
        lookup(table, run(trim(block), Delim::Space)) is None,
    ensures
        parsed(trim(block), table) is None,
        parse_all(pieces.push(block), table) == parse_all(pieces, table),
{
    assert(pieces.push(block).drop_last() =~= pieces);
}

/// A well-formed block that no phrase matches, whose identifier the table
/// holds, gives exactly one record: the component the table names, with no
/// feature.
pub proof fn lemma_table_block(block: Seq<char>, table: Seq<(Seq<char>, Seq<char>)>)
    requires
        run(block, Delim::Space).len() > 0,
        after_first(block, version_marker()) is Some,
        version_prefix(after_first(block, version_marker())->0) is Some,
        phrase_match(normalize(block)) is None,
        lookup(table, run(block, Delim::Space)) is Some,
    ensures
        parsed(block, table) == Some(
            new_record(
                (lookup(table, run(block, Delim::Space))->0, None),
                version_prefix(after_first(block, version_marker())->0)->0,
                run(block, Delim::Space),
            ),
        ),
{
}

proof fn lemma_with_term_members(s: Seq<RecordView>, term: Seq<char>, x: RecordView)
    ensures
        with_term(s, term).contains(x) <==> s.contains(x) && has_term(x, term),
    decreases s.len(),
{
    reveal(Seq::filter);
    if s.len() > 0 {
        let rest = s.drop_last();
        lemma_with_term_members(rest, term, x);
        let f = with_term(rest, term);
        assert(s =~= rest.push(s.last()));
        if s.contains(x) && !rest.contains(x) {
            let i = choose|i: int| 0 <= i < s.len() && s[i] == x;
            if i < rest.len() {
                assert(rest[i] == x);
            }
        }
        if rest.contains(x) {
            let i = choose|i: int| 0 <= i < rest.len() && rest[i] == x;
            assert(s[i] == x);
        }
        if has_term(s.last(), term) {
            assert(f.push(s.last())[f.len() as int] == s.last());
            if f.contains(x) {
                let i = choose|i: int| 0 <= i < f.len() && f[i] == x;
                assert(f.push(s.last())[i] == x);
            }
            if f.push(s.last()).contains(x) && x != s.last() {
                let i = choose|i: int| 0 <= i < f.len() + 1 && f.push(s.last())[i] == x;
                assert(f[i] == x);
            }
        }
        if s.last() == x {
            assert(s[s.len() - 1] == x);
        }
    }
}

/// A query with a search term shows exactly the records of the index whose
/// component name contains the term (case-sensitively), and no others.
pub proof fn lemma_query_term_members(text: Seq<char>, term: Seq<char>, shown: Seq<RecordView>)
    requires
        shown.to_multiset() == selected(text, Some(term)).to_multiset(),
    ensures
        forall|x: RecordView|
            shown.contains(x) <==> (index_records(text, exception_table()).contains(x) && has_term(
                x,
                term,
            )),
{
    broadcast use vstd::seq_lib::group_to_multiset_ensures;

    assert forall|x: RecordView|
        shown.contains(x) <==> (index_records(text, exception_table()).contains(x) && has_term(
            x,
            term,
        )) by {
        let all = index_records(text, exception_table());
        lemma_with_term_members(all, term, x);
        assert(shown.contains(x) <==> shown.to_multiset().count(x) > 0);
        assert(with_term(all, term).contains(x) <==> with_term(all, term).to_multiset().count(x)
            > 0);
    }
}

proof fn lemma_find_from_first(s: Seq<char>, p: Seq<char>, k: int, i: int)
    requires
        0 <= k <= i,
        occurs_at(s, p, i),
        forall|j: int| k <= j < i ==> !occurs_at(s, p, j),
    ensures
        find_from(s, p, k) == Some(i),
    decreases i - k,
{
    if k < i {
        lemma_find_from_first(s, p, k + 1, i);
    }
}

proof fn lemma_find_from_none(s: Seq<char>, p: Seq<char>, k: int, j: int)
    requires
        0 <= k <= j,
        find_from(s, p, k) is None,
    ensures
        !occurs_at(s, p, j),
    decreases j - k,
{
    if k < j && k + p.len() <= s.len() {
        lemma_find_from_none(s, p, k + 1, j);
    }
}

/// An occurrence of the marker inside `t + m + b` that starts before the end
/// of `t` lies within `t`: the marker overlaps no copy of itself.
proof fn lemma_marker_inside(t: Seq<char>, b: Seq<char>, j: int)
    requires
        0 <= j < t.len(),
        occurs_at(t + package_marker() + b, package_marker(), j),
    ensures
        occurs_at(t, package_marker(), j),
{
    let m = package_marker();
    let s = t + m + b;
    reveal_strlit("Package: ");
    if j + m.len() > t.len() {
        let d = t.len() - j;
        assert(s.subrange(j, j + m.len())[d] == m[d]);
        assert(s[t.len() as int] == m[0]);
        assert(false);
    }
    assert(s.subrange(j, j + m.len()) =~= t.subrange(j, j + m.len()));
}

proof fn lemma_split_append(t: Seq<char>, b: Seq<char>)
    requires
        find_from(b, package_marker(), 0) is None,
    ensures
        split(t + package_marker() + b, package_marker()) == split(t, package_marker()) + seq![b],
    decreases t.len(),
{
    let m = package_marker();
    let s = t + m + b;
    reveal_strlit("Package: ");
    assert(m.len() == 9);
    match find_from(t, m, 0) {
        Some(i) => {
            lemma_find_from_bounds(t, m, 0);
            assert(s.subrange(i, i + m.len()) =~= t.subrange(i, i + m.len()));
            assert forall|j: int| 0 <= j < i implies !occurs_at(s, m, j) by {
                if occurs_at(s, m, j) {
                    lemma_marker_inside(t, b, j);
                }
            }
            lemma_find_from_first(s, m, 0, i);
            let t2 = t.skip(i + 9);
            assert(s.skip(i + 9) =~= t2 + m + b);
            assert(s.take(i) =~= t.take(i));
            lemma_split_append(t2, b);
            assert(split(s, m) =~= split(t, m) + seq![b]);
        },
        None => {
            let n = t.len() as int;
            assert(s.subrange(n, n + 9) =~= m);
            assert forall|j: int| 0 <= j < n implies !occurs_at(s, m, j) by {
                if occurs_at(s, m, j) {
                    lemma_marker_inside(t, b, j);
                    lemma_find_from_none(t, m, 0, j);
                }
            }
            lemma_find_from_first(s, m, 0, n);
            assert(s.take(n) =~= t);
            assert(s.skip(n + 9) =~= b);
            assert(split(b, m) == seq![b]);
            assert(split(t, m) == seq![t]);
            assert(split(s, m) == seq![s.take(n)] + split(s.skip(n + 9), m));
            assert(split(s, m) =~= split(t, m) + seq![b]);
        },
    }
}

/// Appending to the index text a block that holds no `"Package: "`, that no
/// phrase matches and whose identifier the exception table lacks changes
/// neither the records of the index nor those that a query shows.
pub proof fn lemma_unknown_block_in_index(
    text: Seq<char>,
    block: Seq<char>,
    term: Option<Seq<char>>,
)
    requires
        find_from(block, package_marker(), 0) is None,
        phrase_match(normalize(trim(block))) is None,
        lookup(exception_table(), run(trim(block), Delim::Space)) is None,
    ensures
        index_records(text + package_marker() + block, exception_table()) == index_records(
            text,
            exception_table(),
        ),
        selected(text + package_marker() + block, term) == selected(text, term),
{
    let m = package_marker();
    lemma_split_append(text, block);
    let ps = split(text, m);
    assert(ps.len() > 0) by {
        reveal_strlit("Package: ");
    }
    assert((ps + seq![block]).drop_first() =~= ps.drop_first().push(block));
    lemma_unknown_block_dropped(ps.drop_first(), block, exception_table());
}

proof fn insert_position(x: RecordView, s: Seq<RecordView>) -> (k: int)
    ensures
        0 <= k <= s.len(),
        forall|j: int| 0 <= j < k ==> record_cmp(#[trigger] s[j], x) == Ordering::Less,
        k == s.len() || record_cmp(s[k], x) != Ordering::Less,
    decreases s.len(),
{
    if s.len() == 0 || record_cmp(s[0], x) != Ordering::Less {
        0
    } else {
        let k = insert_position(x, s.drop_first());
        assert forall|j: int| 0 <= j < k + 1 implies record_cmp(#[trigger] s[j], x)
            == Ordering::Less by {
            if j > 0 {
                assert(s[j] == s.drop_first()[j - 1]);
            }
        }
        k + 1
    }
}

proof fn lemma_insert_sorted(x: RecordView, s: Seq<RecordView>)
    requires
        is_sorted(s),
    ensures
        is_sorted(insert_in_order(x, s)),
{
    let k = insert_position(x, s);
    lemma_insert_at(x, s, k);
    let n = s.insert(k, x);
    if k < s.len() {
        lemma_record_cmp_antisym(s[k], x);
    }
    assert forall|i: int, j: int| 0 <= i < j < n.len() implies record_cmp(n[i], n[j])
        != Ordering::Greater by {
        if j < k {
            assert(n[i] == s[i] && n[j] == s[j]);
        } else if i < k && j == k {
            assert(n[i] == s[i]);
        } else if i < k && j > k {
            assert(record_cmp(s[i], x) == Ordering::Less);
            assert(record_cmp(s[i], s[j - 1]) != Ordering::Greater);
        } else if i == k {
            if j - 1 > k {
                lemma_record_cmp_trans(x, s[k], s[j - 1]);
            }
        } else {
            assert(n[i] == s[i - 1] && n[j] == s[j - 1]);
        }
    }
}

proof fn lemma_display_order_sorted(s: Seq<RecordView>)
    ensures
        is_sorted(in_display_order(s)),
    decreases s.len(),
{
    if s.len() > 0 {
        lemma_display_order_sorted(s.drop_first());
        lemma_insert_sorted(s[0], in_display_order(s.drop_first()));
    }
}

proof fn lemma_with_term_cons(x: RecordView, s: Seq<RecordView>, term: Seq<char>)
    ensures
        with_term(seq![x] + s, term) == if has_term(x, term) {
            seq![x] + with_term(s, term)
        } else {
            with_term(s, term)
        },
    decreases s.len(),
{
    reveal(Seq::filter);
    let xs = seq![x] + s;
    if s.len() == 0 {
        assert(xs =~= seq![x]);
        assert(xs.drop_last() =~= Seq::<RecordView>::empty());
        if has_term(x, term) {
            assert(Seq::<RecordView>::empty().push(x) =~= seq![x] + Seq::<RecordView>::empty());
        }
    } else {
        lemma_with_term_cons(x, s.drop_last(), term);
        assert(xs.drop_last() =~= seq![x] + s.drop_last());
        assert(xs.last() == s.last());
        if has_term(x, term) {
            assert((seq![x] + with_term(s.drop_last(), term)).push(s.last()) =~= seq![x] + with_term(
                s.drop_last(),
                term,
            ).push(s.last()));
        }
    }
}

proof fn lemma_with_term_insert(x: RecordView, s: Seq<RecordView>, term: Seq<char>)
    requires
        is_sorted(s),
    ensures
        with_term(insert_in_order(x, s), term) == if has_term(x, term) {
            insert_in_order(x, with_term(s, term))
        } else {
            with_term(s, term)
        },
    decreases s.len(),
{
    if s.len() == 0 {
        lemma_with_term_cons(x, s, term);
        assert(seq![x] + s =~= seq![x]);
        reveal(Seq::filter);
    } else {
        let rest = s.drop_first();
        assert(s =~= seq![s[0]] + rest);
        lemma_with_term_cons(s[0], rest, term);
        if record_cmp(s[0], x) == Ordering::Less {
            assert(is_sorted(rest)) by {
                assert forall|i: int, j: int| 0 <= i < j < rest.len() implies record_cmp(
                    rest[i],
                    rest[j],
                ) != Ordering::Greater by {
                    assert(rest[i] == s[i + 1] && rest[j] == s[j + 1]);
                }
            }
            lemma_with_term_insert(x, rest, term);
            lemma_with_term_cons(s[0], insert_in_order(x, rest), term);
            if has_term(s[0], term) && has_term(x, term) {
                let f = seq![s[0]] + with_term(rest, term);
                assert(f[0] == s[0]);
                assert(f.drop_first() =~= with_term(rest, term));
            }
        } else {
            lemma_with_term_cons(x, s, term);
            let f = with_term(s, term);
            if has_term(x, term) && f.len() > 0 {
                lemma_with_term_members(s, term, f[0]);
                assert(f.contains(f[0]));
                let i = choose|i: int| 0 <= i < s.len() && s[i] == f[0];
                lemma_record_cmp_antisym(s[0], x);
                if i > 0 {
                    lemma_record_cmp_trans(x, s[0], s[i]);
                }
                lemma_record_cmp_antisym(x, s[i]);
            }
        }
    }
}

proof fn lemma_with_term_display_order(s: Seq<RecordView>, term: Seq<char>)
    ensures
        with_term(in_display_order(s), term) == in_display_order(with_term(s, term)),
    decreases s.len(),
{
    if s.len() > 0 {
        let rest = s.drop_first();
        assert(s =~= seq![s[0]] + rest);
        lemma_with_term_cons(s[0], rest, term);
        lemma_with_term_display_order(rest, term);
        lemma_display_order_sorted(rest);
        lemma_with_term_insert(s[0], in_display_order(rest), term);
        if has_term(s[0], term) {
            let f = seq![s[0]] + with_term(rest, term);
            assert(f[0] == s[0]);
            assert(f.drop_first() =~= with_term(rest, term));
        }
    } else {
        reveal(Seq::filter);
    }
}

/// The records that a query with a search term shows are exactly those that
/// the query without one shows whose component name contains the term, in the
/// same relative order.
pub proof fn lemma_query_term_filters_full_query(
    text: Seq<char>,
    term: Seq<char>,
    shown: Seq<RecordView>,
    all: Seq<RecordView>,
)
    requires
        shown == in_display_order(selected(text, Some(term))),
        all == in_display_order(selected(text, None)),
    ensures
        shown == with_term(all, term),
{
    lemma_with_term_display_order(index_records(text, exception_table()), term);
}

/// Appending to the index text a block that holds no `"Package: "`, that no
/// phrase matches and whose identifier the exception table lacks leaves what
/// a query shows as it was.
pub proof fn lemma_unknown_block_in_query(
    text: Seq<char>,
    block: Seq<char>,
    term: Option<Seq<char>>,
    before: Seq<RecordView>,
    after: Seq<RecordView>,
)
    requires
        find_from(block, package_marker(), 0) is None,
        phrase_match(normalize(trim(block))) is None,
        lookup(exception_table(), run(trim(block), Delim::Space)) is None,
        before == in_display_order(selected(text, term)),
        after == in_display_order(selected(text + package_marker() + block, term)),
    ensures
        after == before,
{
    lemma_unknown_block_in_index(text, block, term);
}

} // verus!
