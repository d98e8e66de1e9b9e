//! Three-part numeric versions: reading them from text, ordering them, and
//! rendering them back as text.

use crate::text::{chars_of, is_digit, run, run_end, slice_of, string_of, Delim};
use core::cmp::Ordering;
use vstd::prelude::*;

verus! {

/// A version `major.minor.patch`.
#[derive(Clone, Copy, Debug, PartialEq, Eq, Structural)]
pub struct Semver {
    pub major: u32,
    pub minor: u32,
    pub patch: u32,
}

pub open spec fn digit_value(c: char) -> nat {
    ((c as u32) - ('0' as u32)) as nat
}

/// The number that the decimal digits `s` spell.
pub open spec fn digits_value(s: Seq<char>) -> nat
    decreases s.len(),
{
    if s.len() == 0 {
        0
    } else {
        digits_value(s.drop_last()) * 10 + digit_value(s.last())
    }
}

pub open spec fn all_digits(s: Seq<char>) -> bool {
    forall|i: int| 0 <= i < s.len() ==> is_digit(#[trigger] s[i])
}

/// One version component: one or more decimal digits whose value fits in `u32`.
pub open spec fn component_value(s: Seq<char>) -> Option<u32> {
    if s.len() > 0 && all_digits(s) && digits_value(s) <= u32::MAX {
        Some(digits_value(s) as u32)
    } else {
        None
    }
}

/// The version spelled by a run of digits and full stops: exactly three
/// dot-separated components, each a number.
pub open spec fn version_of_run(r: Seq<char>) -> Option<Semver> {
    let a = run(r, Delim::Dot);
    if a.len() == r.len() {
        None
    } else {
        let r1 = r.skip(a.len() + 1int);
        let b = run(r1, Delim::Dot);
        if b.len() == r1.len() {
            None
        } else {
            let r2 = r1.skip(b.len() + 1int);
            let c = run(r2, Delim::Dot);
            if c.len() != r2.len() {
                None
            } else {
                match (component_value(a), component_value(b), component_value(c)) {
                    (Some(x), Some(y), Some(z)) => Some(Semver { major: x, minor: y, patch: z }),
                    _ => None,
                }
            }
        }
    }
}

/// The version at the start of `t`, read from its leading run of digits and
/// full stops.
pub open spec fn version_prefix(t: Seq<char>) -> Option<Semver> {
    version_of_run(run(t, Delim::NonVersion))
}

pub open spec fn digit_char(d: nat) -> char {
    ((d + 48) as u8) as char
}

/// The decimal digits of `n`, without leading zeros.
pub open spec fn decimal(n: nat) -> Seq<char>
    decreases n,
{
    if n < 10 {
        seq![digit_char(n)]
    } else {
        decimal(n / 10).push(digit_char(n % 10))
    }
}

/// `"{major}.{minor}.{patch}"`.
pub open spec fn rendered(v: Semver) -> Seq<char> {
    decimal(v.major as nat) + seq!['.'] + decimal(v.minor as nat) + seq!['.'] + decimal(
        v.patch as nat,
    )
}

pub open spec fn cmp_num(a: u32, b: u32) -> Ordering {
    if a < b {
        Ordering::Less
    } else if a > b {
        Ordering::Greater
    } else {
        Ordering::Equal
    }
}

/// Versions ordered by major, then minor, then patch, each numerically.
pub open spec fn version_cmp(a: Semver, b: Semver) -> Ordering {
    if a.major != b.major {
        cmp_num(a.major, b.major)
    } else if a.minor != b.minor {
        cmp_num(a.minor, b.minor)
    } else {
        cmp_num(a.patch, b.patch)
    }
}

proof fn lemma_digits_value_prefix(s: Seq<char>, k: int)
    requires
        0 <= k <= s.len(),
    ensures
        digits_value(s.take(k)) <= digits_value(s),
    decreases s.len(),
{
    if k < s.len() {
        assert(s.take(k) =~= s.drop_last().take(k));
        lemma_digits_value_prefix(s.drop_last(), k);
    } else {
        assert(s.take(k) =~= s);
    }
}

/// Reads the characters of `s` from `lo` up to `hi` as one version component.
fn component_at(s: &Vec<char>, lo: usize, hi: usize) -> (r: Option<u32>)
    requires
        lo <= hi <= s.len(),
    ensures
        r == component_value(s@.subrange(lo as int, hi as int)),
{
    let ghost w = s@.subrange(lo as int, hi as int);
    if lo == hi {
        return None;
    }
    let mut v: u64 = 0;
    let mut i: usize = lo;
    assert(w.take(0) =~= Seq::<char>::empty());
    while i < hi
        invariant
            lo <= i <= hi <= s.len(),
            w == s@.subrange(lo as int, hi as int),
            all_digits(w.take(i - lo)),
            v == digits_value(w.take(i - lo)),
            v <= u32::MAX,
        decreases hi - i,
    {
        let c = s[i];
        assert(c == w[i - lo]);
        if !('0' <= c && c <= '9') {
            return None;
        }
        let nv: u64 = v * 10 + (c as u32 - '0' as u32) as u64;
        assert(w.take(i - lo + 1).drop_last() =~= w.take(i - lo));
        i = i + 1;
        if nv > u32::MAX as u64 {
            proof {
                lemma_digits_value_prefix(w, i - lo);
            }
            return None;
        }
        v = nv;
        assert(all_digits(w.take(i - lo)));
    }
    assert(w.take(i - lo) =~= w);
    Some(v as u32)
}

/// Reads the version at the start of what follows `from` in `s`.
pub fn version_at(s: &Vec<char>, from: usize) -> (r: Option<Semver>)
    requires
        from <= s.len(),
    ensures
        r == version_prefix(s@.skip(from as int)),
{
    let e = run_end(s, from, Delim::NonVersion);
    let r = slice_of(s, from, e);
    assert(r@ =~= run(s@.skip(from as int), Delim::NonVersion));
    let a = run_end(&r, 0, Delim::Dot);
    assert(r@.skip(0) =~= r@);
    if a == r.len() {
        return None;
    }
    let b = run_end(&r, a + 1, Delim::Dot);
    if b == r.len() {
        return None;
    }
    let c = run_end(&r, b + 1, Delim::Dot);
    let ghost r1 = r@.skip(a + 1);
    assert(r1.skip(b - a) =~= r@.skip(b + 1));
    assert(run(r@, Delim::Dot) =~= r@.subrange(0, a as int));
    assert(run(r1, Delim::Dot) =~= r@.subrange(a + 1, b as int));
    assert(run(r@.skip(b + 1), Delim::Dot) =~= r@.subrange(b + 1, c as int));
    if c != r.len() {
        return None;
    }
    let x = component_at(&r, 0, a);
    let y = component_at(&r, a + 1, b);
    let z = component_at(&r, b + 1, c);
    match (x, y, z) {
        (Some(x), Some(y), Some(z)) => Some(Semver { major: x, minor: y, patch: z }),
        _ => None,
    }
}

/// Appends the decimal digits of `n` to `out`.
pub fn push_decimal(out: &mut Vec<char>, n: u32)
    ensures
        final(out)@ == old(out)@ + decimal(n as nat),
    decreases n,
{
    if n >= 10 {
        push_decimal(out, n / 10);
    }
    let d: u8 = (n % 10) as u8;
    out.push((d + 48) as char);
    assert(out@ =~= old(out)@ + decimal(n as nat));
}

impl Semver {
    /// Reads the version at the start of `text`: its leading run of digits and
    /// full stops, split at each full stop. `None` unless there are exactly
    /// three components, each a `u32`.
    pub fn parse(text: &str) -> (r: Option<Semver>)
        ensures
            r == version_prefix(text@),
    {
        let t = chars_of(text);
        assert(t@.skip(0) =~= t@);
        version_at(&t, 0)
    }

    /// `"{major}.{minor}.{patch}"`.
    pub fn render(&self) -> (r: String)
        ensures
            r@ == rendered(*self),
    {
        let mut out: Vec<char> = Vec::new();
        self.push_to(&mut out);
        assert(out@ =~= rendered(*self));
        string_of(&out)
    }

    /// Appends `"{major}.{minor}.{patch}"` to `out`.
    pub fn push_to(&self, out: &mut Vec<char>)
        ensures
            final(out)@ == old(out)@ + rendered(*self),
    {
        push_decimal(out, self.major);
        out.push('.');
        push_decimal(out, self.minor);
        out.push('.');
        push_decimal(out, self.patch);
        assert(out@ =~= old(out)@ + rendered(*self));
    }

    /// Orders by major, then minor, then patch, each numerically.
    pub fn compare(&self, other: &Semver) -> (r: Ordering)
        ensures
            r == version_cmp(*self, *other),
    {
        if self.major != other.major {
            if self.major < other.major { Ordering::Less } else { Ordering::Greater }
        } else if self.minor != other.minor {
            if self.minor < other.minor { Ordering::Less } else { Ordering::Greater }
        } else if self.patch < other.patch {
            Ordering::Less
        } else if self.patch > other.patch {
            Ordering::Greater
        } else {
            Ordering::Equal
        }
    }
}

} // verus!
