//! Records, one for each component or optional feature found in the package
//! index, and the order in which they are shown.

use crate::text::{chars_of, string_of};
use crate::version::{rendered, version_cmp, Semver};
use core::cmp::Ordering;
use vstd::multiset::Multiset;
use vstd::prelude::*;

verus! {

/// One discovered unit: a library component itself, or one optional feature of
/// it (a package that only pulls in what the feature needs), at a version.
#[derive(Debug)]
pub struct OutputItem {
    /// The component's name, as the description spells it.
    pub component_name: String,
    /// The feature this package provides for the component, if it is one.
    pub feature_name: Option<String>,
    pub version: Semver,
    /// The package-index identifier the record was read from.
    pub package_id: String,
    pub installed: bool,
}

/// What an `OutputItem` holds, as plain values.
pub struct RecordView {
    pub component: Seq<char>,
    pub feature: Option<Seq<char>>,
    pub version: Semver,
    pub package: Seq<char>,
    pub installed: bool,
}

pub open spec fn opt_view(o: Option<String>) -> Option<Seq<char>> {
    match o {
        Some(s) => Some(s@),
        None => None,
    }
}

impl View for OutputItem {
    type V = RecordView;

    open spec fn view(&self) -> RecordView {
        RecordView {
            component: self.component_name@,
            feature: opt_view(self.feature_name),
            version: self.version,
            package: self.package_id@,
            installed: self.installed,
        }
    }
}

/// The lowercase form of a text, as `str::to_lowercase` gives it.
pub uninterp spec fn lower_of(s: Seq<char>) -> Seq<char>;

/// Relies on `str::to_lowercase`: the lowercase form of a text depends on its
/// characters alone.
#[verifier::external_body]
fn lowercase(s: &str) -> (r: String)
    ensures
        r@ == lower_of(s@),
{
    s.to_lowercase()
}

/// Texts ordered character by character by code point, a proper prefix first:
/// the order of `str`'s `Ord`.
pub open spec fn text_cmp(a: Seq<char>, b: Seq<char>) -> Ordering
    decreases a.len(),
{
    if a.len() == 0 {
        if b.len() == 0 {
            Ordering::Equal
        } else {
            Ordering::Less
        }
    } else if b.len() == 0 {
        Ordering::Greater
    } else if a[0] != b[0] {
        if a[0] < b[0] {
            Ordering::Less
        } else {
            Ordering::Greater
        }
    } else {
        text_cmp(a.drop_first(), b.drop_first())
    }
}

/// The display order, given `la` and `lb`, the lowercase forms of the two
/// component names: name, then version, then the component itself before its
/// features, then feature name.
pub open spec fn cmp_folded(la: Seq<char>, lb: Seq<char>, a: RecordView, b: RecordView) -> Ordering {
    let by_name = text_cmp(la, lb);
    if by_name != Ordering::Equal {
        by_name
    } else if version_cmp(a.version, b.version) != Ordering::Equal {
        version_cmp(a.version, b.version)
    } else {
        match (a.feature, b.feature) {
            (None, None) => Ordering::Equal,
            (None, Some(_)) => Ordering::Less,
            (Some(_), None) => Ordering::Greater,
            (Some(f), Some(g)) => text_cmp(f, g),
        }
    }
}

/// The display order: component name ignoring case, then version, then the
/// component itself before its features, then feature name.
pub open spec fn record_cmp(a: RecordView, b: RecordView) -> Ordering {
    cmp_folded(lower_of(a.component), lower_of(b.component), a, b)
}

/// The first column of a record's row.
pub open spec fn title_of(r: RecordView) -> Seq<char> {
    match r.feature {
        Some(f) => "  deps for feat \""@ + f + seq!['"'],
        None => r.component + seq![' '] + rendered(r.version),
    }
}

pub open spec fn flip(o: Ordering) -> Ordering {
    match o {
        Ordering::Less => Ordering::Greater,
        Ordering::Equal => Ordering::Equal,
        Ordering::Greater => Ordering::Less,
    }
}

/// Records in display order, each at most its successors.
pub open spec fn is_sorted(s: Seq<RecordView>) -> bool {
    forall|i: int, j: int| 0 <= i < j < s.len() ==> record_cmp(s[i], s[j]) != Ordering::Greater
}

/// `b` holds at each position `j` the record at position `p[j]` of `a`, and
/// records of `b` that compare equal keep the order they had in `a`.
pub open spec fn stable_arrangement(a: Seq<RecordView>, b: Seq<RecordView>, p: Seq<int>) -> bool {
    &&& p.len() == b.len()
    &&& forall|j: int| 0 <= j < b.len() ==> 0 <= #[trigger] p[j] < a.len() && b[j] == a[p[j]]
    &&& forall|i: int, j: int|
        0 <= i < j < b.len() && record_cmp(b[i], b[j]) == Ordering::Equal ==> #[trigger] p[i]
            < #[trigger] p[j]
}

/// `s` with `x` put before its first record that is not less than `x`.
pub open spec fn insert_in_order(x: RecordView, s: Seq<RecordView>) -> Seq<RecordView>
    decreases s.len(),
{
    if s.len() == 0 {
        seq![x]
    } else if record_cmp(s[0], x) == Ordering::Less {
        seq![s[0]] + insert_in_order(x, s.drop_first())
    } else {
        seq![x] + s
    }
}

/// `s` in display order, records that compare equal in their order in `s`.
pub open spec fn in_display_order(s: Seq<RecordView>) -> Seq<RecordView>
    decreases s.len(),
{
    if s.len() == 0 {
        s
    } else {
        insert_in_order(s[0], in_display_order(s.drop_first()))
    }
}

pub proof fn lemma_insert_at(x: RecordView, s: Seq<RecordView>, k: int)
    requires
        0 <= k <= s.len(),
        forall|j: int| 0 <= j < k ==> record_cmp(#[trigger] s[j], x) == Ordering::Less,
        k == s.len() || record_cmp(s[k], x) != Ordering::Less,
    ensures
        insert_in_order(x, s) == s.insert(k, x),
    decreases k,
{
    if k > 0 {
        let t = s.drop_first();
        assert forall|j: int| 0 <= j < k - 1 implies record_cmp(#[trigger] t[j], x)
            == Ordering::Less by {
            assert(t[j] == s[j + 1]);
        }
        lemma_insert_at(x, t, k - 1);
        assert(s.insert(k, x) =~= seq![s[0]] + t.insert(k - 1, x));
    } else {
        assert(s.insert(0, x) =~= seq![x] + s);
    }
}

pub open spec fn views(s: Seq<OutputItem>) -> Seq<RecordView> {
    s.map_values(|x: OutputItem| x@)
}

/// Swapping the operands of `text_cmp` flips its answer, and it answers
/// `Equal` exactly on equal texts.
pub proof fn lemma_text_cmp_antisym(a: Seq<char>, b: Seq<char>)
    ensures
        text_cmp(b, a) == flip(text_cmp(a, b)),
        text_cmp(a, b) == Ordering::Equal <==> a == b,
    decreases a.len(),
{
    if a.len() > 0 && b.len() > 0 && a[0] == b[0] {
        lemma_text_cmp_antisym(a.drop_first(), b.drop_first());
        if a.drop_first() == b.drop_first() {
            assert(a =~= seq![a[0]] + a.drop_first());
            assert(b =~= seq![b[0]] + b.drop_first());
        }
    }
    if a.len() == 0 && b.len() == 0 {
        assert(a =~= b);
    }
}

/// `text_cmp` is transitive.
pub proof fn lemma_text_cmp_trans(a: Seq<char>, b: Seq<char>, c: Seq<char>)
    requires
        text_cmp(a, b) == Ordering::Less,
        text_cmp(b, c) == Ordering::Less,
    ensures
        text_cmp(a, c) == Ordering::Less,
    decreases a.len(),
{
    if a.len() > 0 && b.len() > 0 && c.len() > 0 && a[0] == b[0] && b[0] == c[0] {
        lemma_text_cmp_trans(a.drop_first(), b.drop_first(), c.drop_first());
    }
}

proof fn lemma_text_le_trans(a: Seq<char>, b: Seq<char>, c: Seq<char>)
    ensures
        text_cmp(a, b) != Ordering::Greater && text_cmp(b, c) == Ordering::Less ==> text_cmp(a, c)
            == Ordering::Less,
        text_cmp(a, b) == Ordering::Less && text_cmp(b, c) != Ordering::Greater ==> text_cmp(a, c)
            == Ordering::Less,
        text_cmp(a, b) == Ordering::Equal && text_cmp(b, c) == Ordering::Equal ==> text_cmp(a, c)
            == Ordering::Equal,
{
    lemma_text_cmp_antisym(a, b);
    lemma_text_cmp_antisym(b, c);
    lemma_text_cmp_antisym(a, c);
    if text_cmp(a, b) == Ordering::Less && text_cmp(b, c) == Ordering::Less {
        lemma_text_cmp_trans(a, b, c);
    }
}

/// Swapping the operands of `record_cmp` flips its answer.
pub proof fn lemma_record_cmp_antisym(a: RecordView, b: RecordView)
    ensures
        record_cmp(b, a) == flip(record_cmp(a, b)),
{
    lemma_text_cmp_antisym(lower_of(a.component), lower_of(b.component));
    if let (Some(f), Some(g)) = (a.feature, b.feature) {
        lemma_text_cmp_antisym(f, g);
    }
}

/// `record_cmp` orders records as a total preorder: "at most" is transitive.
pub proof fn lemma_record_cmp_trans(a: RecordView, b: RecordView, c: RecordView)
    requires
        record_cmp(a, b) != Ordering::Greater,
        record_cmp(b, c) != Ordering::Greater,
    ensures
        record_cmp(a, c) != Ordering::Greater,
{
    let (la, lb, lc) = (lower_of(a.component), lower_of(b.component), lower_of(c.component));
    lemma_text_le_trans(la, lb, lc);
    lemma_text_cmp_antisym(la, lb);
    lemma_text_cmp_antisym(lb, lc);
    lemma_text_cmp_antisym(la, lc);
    if let (Some(f), Some(g), Some(h)) = (a.feature, b.feature, c.feature) {
        lemma_text_le_trans(f, g, h);
        lemma_text_cmp_antisym(f, g);
        lemma_text_cmp_antisym(g, h);
    }
}

/// Compares two texts by `text_cmp`.
pub fn compare_text(a: &Vec<char>, b: &Vec<char>) -> (r: Ordering)
    ensures
        r == text_cmp(a@, b@),
{
    let mut i: usize = 0;
    assert(a@.skip(0) =~= a@ && b@.skip(0) =~= b@);
    loop
        invariant
            i <= a.len() && i <= b.len(),
            text_cmp(a@, b@) == text_cmp(a@.skip(i as int), b@.skip(i as int)),
        decreases a.len() - i,
    {
        if i == a.len() {
            if i == b.len() {
                return Ordering::Equal;
            } else {
                return Ordering::Less;
            }
        } else if i == b.len() {
            return Ordering::Greater;
        }
        assert(a@.skip(i as int)[0] == a@[i as int] && b@.skip(i as int)[0] == b@[i as int]);
        if a[i] != b[i] {
            if a[i] < b[i] {
                return Ordering::Less;
            } else {
                return Ordering::Greater;
            }
        }
        assert(a@.skip(i as int).drop_first() =~= a@.skip(i + 1));
        assert(b@.skip(i as int).drop_first() =~= b@.skip(i + 1));
        i = i + 1;
    }
}

impl OutputItem {
    /// `"{component_name} {version}"` for a component, or
    /// `"  deps for feat \"{feature_name}\""` for a feature.
    pub fn title(&self) -> (r: String)
        ensures
            r@ == title_of(self@),
    {
        let mut out: Vec<char> = Vec::new();
        match &self.feature_name {
            Some(f) => {
                out = chars_of("  deps for feat \"");
                let fc = chars_of(f.as_str());
                let mut i: usize = 0;
                let ghost start = out@;
                while i < fc.len()
                    invariant
                        i <= fc.len(),
                        out@ == start + fc@.take(i as int),
                    decreases fc.len() - i,
                {
                    out.push(fc[i]);
                    i = i + 1;
                    assert(out@ =~= start + fc@.take(i as int));
                }
                assert(fc@.take(i as int) =~= fc@);
                out.push('"');
            },
            None => {
                out = chars_of(self.component_name.as_str());
                out.push(' ');
                self.version.push_to(&mut out);
            },
        }
        string_of(&out)
    }

    /// The second column of a record's row: `"installed"` or `"--"`.
    pub fn status(&self) -> (r: &'static str)
        ensures
            r@ == (if self.installed {
                "installed"@
            } else {
                "--"@
            }),
    {
        if self.installed {
            "installed"
        } else {
            "--"
        }
    }

    /// Compares two records in display order.
    pub fn compare(&self, other: &OutputItem) -> (r: Ordering)
        ensures
            r == record_cmp(self@, other@),
    {
        let a = lowercase(self.component_name.as_str());
        let b = lowercase(other.component_name.as_str());
        self.compare_folded(other, a.as_str(), b.as_str())
    }

    /// Compares two records in display order, given the lowercase forms of
    /// their component names.
    pub fn compare_folded(&self, other: &OutputItem, self_lower: &str, other_lower: &str) -> (r:
        Ordering)
        ensures
            r == cmp_folded(self_lower@, other_lower@, self@, other@),
    {
        let by_name = compare_text(&chars_of(self_lower), &chars_of(other_lower));
        if !matches!(by_name, Ordering::Equal) {
            return by_name;
        }
        let by_version = self.version.compare(&other.version);
        if !matches!(by_version, Ordering::Equal) {
            return by_version;
        }
        match (&self.feature_name, &other.feature_name) {
            (None, None) => Ordering::Equal,
            (None, Some(_)) => Ordering::Less,
            (Some(_), None) => Ordering::Greater,
            (Some(f), Some(g)) => compare_text(&chars_of(f.as_str()), &chars_of(g.as_str())),
        }
    }
}

/// Puts `items` in display order; records that compare equal keep their
/// order.
pub fn sort_records(items: &mut Vec<OutputItem>)
    ensures
        is_sorted(views(final(items)@)),
        views(final(items)@).to_multiset() == views(old(items)@).to_multiset(),
        exists|p: Seq<int>| stable_arrangement(views(old(items)@), views(final(items)@), p),
        views(final(items)@) == in_display_order(views(old(items)@)),
{
    broadcast use vstd::seq_lib::group_to_multiset_ensures, vstd::multiset::group_multiset_axioms;

    let mut sorted: Vec<OutputItem> = Vec::new();
    assert(views(sorted@) =~= Seq::<RecordView>::empty());
    assert(views(sorted@).to_multiset() =~= Multiset::empty());
    assert(views(items@).to_multiset().add(Multiset::empty()) =~= views(items@).to_multiset());
    let ghost orig = views(items@);
    let ghost mut perm: Seq<int> = Seq::empty();
    assert(orig.skip(orig.len() as int) =~= Seq::<RecordView>::empty());
    assert(orig.take(items.len() as int) =~= orig);
    while items.len() > 0
        invariant
            orig == views(old(items)@),
            views(items@) == orig.take(items.len() as int),
            items.len() <= orig.len(),
            is_sorted(views(sorted@)),
            views(items@).to_multiset().add(views(sorted@).to_multiset()) == views(
                old(items)@,
            ).to_multiset(),
            stable_arrangement(orig, views(sorted@), perm),
            forall|j: int| 0 <= j < perm.len() ==> items.len() <= #[trigger] perm[j],
            views(sorted@) == in_display_order(orig.skip(items.len() as int)),
        decreases items.len(),
    {
        let ghost before = items@;
        let x = match items.pop() {
            Some(x) => x,
            None => {
                return;
            },
        };
        assert(views(before) =~= views(items@).push(x@));
        let ghost m = items.len() as int;
        assert(x@ == orig[m]) by {
            assert(views(before)[m] == orig.take(m + 1)[m]);
        }
        assert(views(items@) =~= orig.take(m));
        let mut k: usize = 0;
        while k < sorted.len() && matches!(sorted[k].compare(&x), Ordering::Less)
            invariant
                k <= sorted.len(),
                forall|j: int| 0 <= j < k ==> record_cmp(#[trigger] sorted@[j]@, x@) == Ordering::Less,
            decreases sorted.len() - k,
        {
            k = k + 1;
        }
        let ghost old_sorted = views(sorted@);
        proof {
            lemma_insert_at(x@, old_sorted, k as int);
            assert(orig.skip(m).drop_first() =~= orig.skip(m + 1));
            assert(orig.skip(m)[0] == orig[m]);
        }
        sorted.insert(k, x);
        assert(views(sorted@) =~= old_sorted.insert(k as int, x@));
        proof {
            let rest = views(items@);
            assert(views(before).to_multiset() == views(items@).push(x@).to_multiset());
            vstd::seq_lib::to_multiset_build(rest, x@);
            vstd::seq_lib::to_multiset_insert(old_sorted, k as int, x@);
            assert(rest.to_multiset().add(old_sorted.to_multiset().insert(x@)) =~= rest.to_multiset().insert(
                x@,
            ).add(old_sorted.to_multiset()));
        }
        proof {
            let old_perm = perm;
            perm = perm.insert(k as int, m);
            if k < old_sorted.len() {
                lemma_record_cmp_antisym(old_sorted[k as int], x@);
            }
            let n = views(sorted@);
            assert forall|j: int| 0 <= j < n.len() implies 0 <= #[trigger] perm[j] < orig.len()
                && n[j] == orig[perm[j]] by {
                if j > k {
                    assert(perm[j] == old_perm[j - 1] && n[j] == old_sorted[j - 1]);
                } else if j < k {
                    assert(perm[j] == old_perm[j] && n[j] == old_sorted[j]);
                }
            }
            assert forall|i: int, j: int|
                0 <= i < j < n.len() && record_cmp(n[i], n[j]) == Ordering::Equal implies #[trigger] perm[i]
                < #[trigger] perm[j] by {
                if j < k {
                    assert(n[i] == old_sorted[i] && n[j] == old_sorted[j]);
                } else if i < k && j == k {
                    assert(n[i] == old_sorted[i]);
                    assert(record_cmp(old_sorted[i], x@) == Ordering::Less);
                } else if i < k && j > k {
                    assert(n[i] == old_sorted[i] && n[j] == old_sorted[j - 1]);
                } else if i == k {
                    assert(perm[j] == old_perm[j - 1]);
                } else {
                    assert(n[i] == old_sorted[i - 1] && n[j] == old_sorted[j - 1]);
                }
            }
            assert forall|j: int| 0 <= j < perm.len() implies items.len() <= #[trigger] perm[j] by {
                if j > k {
                    assert(perm[j] == old_perm[j - 1]);
                } else if j < k {
                    assert(perm[j] == old_perm[j]);
                }
            }
            let n = views(sorted@);
            assert forall|i: int, j: int| 0 <= i < j < n.len() implies record_cmp(n[i], n[j])
                != Ordering::Greater by {
                if j < k {
                    assert(n[i] == old_sorted[i] && n[j] == old_sorted[j]);
                } else if i < k && j == k {
                    assert(n[i] == old_sorted[i]);
                } else if i < k && j > k {
                    assert(record_cmp(old_sorted[i], x@) == Ordering::Less);
                    assert(record_cmp(old_sorted[i], old_sorted[j - 1]) != Ordering::Greater);
                } else if i == k {
                    if j - 1 > k {
                        lemma_record_cmp_trans(x@, old_sorted[k as int], old_sorted[j - 1]);
                    }
                } else {
                    assert(n[i] == old_sorted[i - 1] && n[j] == old_sorted[j - 1]);
                }
            }
        }
    }
    assert(views(items@) =~= Seq::<RecordView>::empty());
    assert(views(sorted@).to_multiset() =~= views(old(items)@).to_multiset());
    assert(stable_arrangement(views(old(items)@), views(sorted@), perm));
    assert(orig.skip(0) =~= orig);
    *items = sorted;
}

} // verus!
