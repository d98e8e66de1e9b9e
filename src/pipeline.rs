//! From the raw package-index text and installed-package listing to the
//! records shown: splitting into blocks, parsing, filtering by a search term,
//! marking what is installed, and sorting.

use crate::parser::{exception_table, parse_block, parsed, static_mappings, table_view};
use crate::record::{in_display_order, is_sorted, sort_records, stable_arrangement, views, OutputItem, RecordView};
use crate::text::{
    chars_of, contains, find, matches_at, occurs_at, split, split_pieces, trim, trimmed, views_of,
};
use vstd::prelude::*;

verus! {

pub open spec fn package_marker() -> Seq<char> {
    "Package: "@
}

/// Marks the lines of the installed listing that can name a library package.
pub open spec fn family_marker() -> Seq<char> {
    "lib"@
}

/// The status code of an installed package.
pub open spec fn installed_code() -> Seq<char> {
    "ii"@
}

/// The records that the pieces give, each trimmed and parsed, in order; an
/// empty piece gives none.
pub open spec fn parse_all(pieces: Seq<Seq<char>>, table: Seq<(Seq<char>, Seq<char>)>) -> Seq<
    RecordView,
>
    decreases pieces.len(),
{
    if pieces.len() == 0 {
        Seq::empty()
    } else {
        let rest = parse_all(pieces.drop_last(), table);
        match parsed(trim(pieces.last()), table) {
            Some(r) => rest.push(r),
            None => rest,
        }
    }
}

/// The records of a package index: the text is cut at each `"Package: "`,
/// what comes before the first is dropped, and each block is parsed.
pub open spec fn index_records(text: Seq<char>, table: Seq<(Seq<char>, Seq<char>)>) -> Seq<
    RecordView,
> {
    parse_all(split(text, package_marker()).drop_first(), table)
}

pub open spec fn has_term(r: RecordView, term: Seq<char>) -> bool {
    contains(r.component, term)
}

/// The records whose component name contains `term`, in their order.
pub open spec fn with_term(rs: Seq<RecordView>, term: Seq<char>) -> Seq<RecordView> {
    rs.filter(|r: RecordView| has_term(r, term))
}

/// The records that a query shows, before sorting.
pub open spec fn selected(text: Seq<char>, term: Option<Seq<char>>) -> Seq<RecordView> {
    match term {
        Some(t) => with_term(index_records(text, exception_table()), t),
        None => index_records(text, exception_table()),
    }
}

/// Whether a listing line says that `package` is installed: it belongs to the
/// family, starts with the installed code, and contains the identifier.
pub open spec fn line_marks(line: Seq<char>, package: Seq<char>) -> bool {
    contains(line, family_marker()) && occurs_at(line, installed_code(), 0) && contains(
        line,
        package,
    )
}

/// The lines of the listing, cut at each line feed. A carriage return left at
/// a line's end decides nothing: the family marker, the status code and a
/// package identifier hold no whitespace.
pub open spec fn listing_lines(listing: Seq<char>) -> Seq<Seq<char>> {
    split(listing, seq!['\n'])
}

/// Whether some line of the listing says that `package` is installed.
pub open spec fn installed_in(listing: Seq<char>, package: Seq<char>) -> bool {
    exists|k: int|
        0 <= k < listing_lines(listing).len() && line_marks(
            #[trigger] listing_lines(listing)[k],
            package,
        )
}

/// A record after correlation with the listing.
pub open spec fn marked(r: RecordView, listing: Seq<char>) -> RecordView {
    RecordView { installed: r.installed || installed_in(listing, r.package), ..r }
}

/// Whether `p` occurs in `s`.
pub fn contains_text(s: &Vec<char>, p: &Vec<char>) -> (r: bool)
    ensures
        r == contains(s@, p@),
{
    find(s, p, 0).is_some()
}

/// The records of a package index (see `index_records`).
pub fn parse_index(text: &str, mappings: &Vec<(&'static str, &'static str)>) -> (r: Vec<
    OutputItem,
>)
    ensures
        views(r@) == index_records(text@, table_view(mappings@)),
{
    let t = chars_of(text);
    let marker = chars_of("Package: ");
    proof {
        reveal_strlit("Package: ");
    }
    let pieces = split_pieces(&t, &marker);
    let ghost ps = split(t@, marker@);
    let ghost tail = ps.drop_first();
    let mut out: Vec<OutputItem> = Vec::new();
    let mut i: usize = 1;
    assert(views(out@) =~= Seq::<RecordView>::empty());
    assert(tail.take(0) =~= Seq::<Seq<char>>::empty());
    if pieces.len() == 0 {
        assert(ps.len() == 0);
        return out;
    }
    while i < pieces.len()
        invariant
            1 <= i <= pieces.len(),
            views_of(pieces@) == ps,
            tail == ps.drop_first(),
            views(out@) == parse_all(tail.take(i - 1), table_view(mappings@)),
        decreases pieces.len() - i,
    {
        assert(pieces@[i as int]@ == tail[i - 1]);
        let block = trimmed(&pieces[i]);
        assert(tail.take(i as int).drop_last() =~= tail.take(i - 1));
        match parse_block(&block, mappings) {
            Ok(item) => {
                let ghost done = out@;
                out.push(item);
                assert(views(out@) =~= views(done).push(item@));
            },
            Err(_) => {},
        }
        i = i + 1;
    }
    assert(tail.take(i - 1) =~= tail);
    out
}

/// Keeps the records whose component name contains `term`, in their order.
pub fn filter_by_term(items: Vec<OutputItem>, term: &str) -> (r: Vec<OutputItem>)
    ensures
        views(r@) == with_term(views(items@), term@),
{
    let tc = chars_of(term);
    let ghost orig = views(items@);
    let mut items = items;
    let mut out: Vec<OutputItem> = Vec::new();
    let mut n: usize = 0;
    assert(orig.skip(0) =~= orig);
    assert(orig.take(0) =~= Seq::<RecordView>::empty());
    assert(views(out@) =~= Seq::<RecordView>::empty());
    assert(with_term(Seq::<RecordView>::empty(), term@) =~= Seq::<RecordView>::empty());
    assert(orig.len() == items.len());
    while items.len() > 0
        invariant
            orig.len() <= usize::MAX,
            n + items.len() == orig.len(),
            views(items@) == orig.skip(n as int),
            views(out@) == with_term(orig.take(n as int), term@),
            tc@ == term@,
        decreases items.len(),
    {
        let ghost before = items@;
        let item = items.remove(0);
        assert(views(before)[0] == before[0]@);
        assert(orig.skip(n as int)[0] == orig[n as int]);
        assert(item@ == orig[n as int]);
        assert(views(items@) =~= views(before).drop_first());
        assert(views(items@) =~= orig.skip(n + 1));
        assert(orig.take(n + 1).drop_last() =~= orig.take(n as int));
        proof {
            reveal(Seq::filter);
        }
        let name = chars_of(item.component_name.as_str());
        if contains_text(&name, &tc) {
            let ghost done = out@;
            out.push(item);
            assert(views(out@) =~= views(done).push(item@));
        }
        n = n + 1;
    }
    assert(orig.take(n as int) =~= orig);
    out
}

pub open spec fn term_view(term: Option<&str>) -> Option<Seq<char>> {
    match term {
        Some(t) => Some(t@),
        None => None,
    }
}

/// Reads a package index into the records to show: parsed, kept when their
/// component name contains `search_term` (all of them when there is none), and
/// in display order, records that compare equal in the order of the index.
pub fn query_available(index_text: &str, search_term: Option<&str>) -> (r: Vec<OutputItem>)
    ensures
        is_sorted(views(r@)),
        views(r@).to_multiset() == selected(index_text@, term_view(search_term)).to_multiset(),
        exists|p: Seq<int>|
            stable_arrangement(selected(index_text@, term_view(search_term)), views(r@), p),
        views(r@) == in_display_order(selected(index_text@, term_view(search_term))),
{
    let mappings = static_mappings();
    let items = parse_index(index_text, &mappings);
    let mut items = match search_term {
        Some(term) => filter_by_term(items, term),
        None => items,
    };
    let ghost before = views(items@);
    sort_records(&mut items);
    proof {
        let p = choose|p: Seq<int>| stable_arrangement(before, views(items@), p);
        assert(stable_arrangement(selected(index_text@, term_view(search_term)), views(items@), p));
    }
    items
}

/// `r` marked as installed when one of the first `n` lines `ls` says so.
pub open spec fn marked_by(r: RecordView, ls: Seq<Seq<char>>, n: int) -> RecordView {
    RecordView {
        installed: r.installed || exists|k: int| 0 <= k < n && line_marks(#[trigger] ls[k], r.package),
        ..r
    }
}

/// Marks as installed each record that some line of the installed-package
/// `listing` names (see `line_marks`); a record once marked stays so.
pub fn mark_installed(outputs: &mut Vec<OutputItem>, listing: &str)
    ensures
        final(outputs).len() == old(outputs).len(),
        forall|i: int|
            0 <= i < old(outputs).len() ==> #[trigger] final(outputs)@[i]@ == marked(
                old(outputs)@[i]@,
                listing@,
            ),
{
    let text = chars_of(listing);
    let newline = vec!['\n'];
    let lines = split_pieces(&text, &newline);
    assert(newline@ =~= seq!['\n']);
    let ghost ls = listing_lines(listing@);
    let family = chars_of("lib");
    let code = chars_of("ii");
    let ghost start = outputs@;
    let mut l: usize = 0;
    while l < lines.len()
        invariant
            l <= lines.len(),
            views_of(lines@) == ls,
            ls == listing_lines(listing@),
            family@ == family_marker(),
            code@ == installed_code(),
            outputs.len() == start.len(),
            forall|i: int|
                0 <= i < start.len() ==> #[trigger] outputs@[i]@ == marked_by(start[i]@, ls, l as int),
        decreases lines.len() - l,
    {
        let line = &lines[l];
        assert(line@ == ls[l as int]);
        let relevant = contains_text(line, &family) && matches_at(line, &code, 0);
        let mut i: usize = 0;
        while i < outputs.len()
            invariant
                l < lines.len(),
                views_of(lines@) == ls,
                line@ == ls[l as int],
                family@ == family_marker(),
                code@ == installed_code(),
                relevant == (contains(line@, family_marker()) && occurs_at(
                    line@,
                    installed_code(),
                    0,
                )),
                i <= outputs.len(),
                outputs.len() == start.len(),
                forall|j: int|
                    0 <= j < i ==> #[trigger] outputs@[j]@ == marked_by(start[j]@, ls, l + 1),
                forall|j: int|
                    i <= j < start.len() ==> #[trigger] outputs@[j]@ == marked_by(
                        start[j]@,
                        ls,
                        l as int,
                    ),
            decreases outputs.len() - i,
        {
            let pkg = chars_of(outputs[i].package_id.as_str());
            let hit = relevant && contains_text(line, &pkg);
            assert(hit == line_marks(ls[l as int], start[i as int]@.package));
            if hit {
                outputs[i].installed = true;
            }
            assert(outputs@[i as int]@ == marked_by(start[i as int]@, ls, l + 1));
            i = i + 1;
        }
        l = l + 1;
    }
    proof {
        assert forall|i: int| 0 <= i < start.len() implies #[trigger] outputs@[i]@ == marked(
            start[i]@,
            listing@,
        ) by {
            assert(ls.len() == l);
        }
    }
}

} // verus!
